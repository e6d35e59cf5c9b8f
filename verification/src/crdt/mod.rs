pub mod gc_counter;
pub mod pn_counter;
pub mod or_set;
