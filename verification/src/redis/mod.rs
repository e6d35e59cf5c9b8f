pub mod linked_list;
pub mod clock;
pub mod consumer;
pub mod stream;
pub mod types;
pub mod validator;
pub mod stringify;
pub mod vec_utils;
pub mod store;
pub mod display;
pub mod logging;
pub mod command;
pub mod debug;
