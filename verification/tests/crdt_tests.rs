use crdt_redis::crdt::gc_counter::GcCounter;
use crdt_redis::crdt::or_set::{OrSet, OrSetTrait};
use crdt_redis::crdt::pn_counter::PnCounter;

fn sorted(mut v: Vec<String>) -> Vec<String> {
    v.sort();
    v
}

#[test]
fn gc_counter_counts_each_increment() {
    let mut c = GcCounter::new();
    c.increment("a".to_string());
    c.increment("a".to_string());
    c.increment("b".to_string());
    assert_eq!(c.value("a".to_string()), "2");
}

#[test]
fn gc_counter_unknown_key_is_zero() {
    let c = GcCounter::new();
    assert_eq!(c.value("nothing".to_string()), "0");
}

#[test]
fn gc_counter_merge_takes_the_larger_count_of_shared_keys() {
    let mut first = GcCounter::new();
    let mut second = GcCounter::new();
    first.increment("a".to_string());
    first.increment("b".to_string());
    first.increment("c".to_string());
    second.increment("c".to_string());
    second.increment("c".to_string());
    first.merge(&second);
    assert_eq!(first.counter.len(), 3);
    let a = first.counter.get("a").copied();
    let c = first.counter.get("c").copied();
    assert_eq!(a, Some(1));
    assert_eq!(c, Some(2));
}

#[test]
fn gc_counter_merge_keeps_only_its_own_keys() {
    let mut first = GcCounter::new();
    let mut second = GcCounter::new();
    first.increment("a".to_string());
    second.increment("b".to_string());
    first.merge(&second);
    assert_eq!(first.value("b".to_string()), "0");
}

#[test]
fn gc_counter_merge_with_an_equal_counter_changes_nothing() {
    let mut first = GcCounter::new();
    let mut second = GcCounter::new();
    for k in ["x", "y", "x"] {
        first.increment(k.to_string());
        second.increment(k.to_string());
    }
    first.merge(&second);
    assert_eq!(first.counter.get("x").copied(), Some(2));
    assert_eq!(first.counter.get("y").copied(), Some(1));
    assert_eq!(first.counter.len(), 2);
}

#[test]
fn pn_counter_total_is_increments_minus_decrements() {
    let mut c = PnCounter::new();
    c.increment("a".to_string(), 5);
    c.increment("b".to_string(), 3);
    c.decrement("a".to_string(), 2);
    assert_eq!(c.total(), "6");
}

#[test]
fn pn_counter_new_total_is_zero() {
    let c = PnCounter::new();
    assert_eq!(c.total(), "0");
}

#[test]
fn pn_counter_increment_adds_to_the_same_key() {
    let mut c = PnCounter::new();
    c.increment("a".to_string(), 5);
    c.increment("a".to_string(), 7);
    assert_eq!(c.increment.get("a").copied(), Some(12));
    assert_eq!(c.total(), "12");
}

#[test]
fn pn_counter_merge_takes_the_larger_count_per_key() {
    let mut first = PnCounter::new();
    let mut second = PnCounter::new();
    first.increment("a".to_string(), 5);
    second.increment("a".to_string(), 3);
    second.increment("b".to_string(), 2);
    second.decrement("a".to_string(), 1);
    first.merge(&second);
    assert_eq!(first.increment.get("a").copied(), Some(5));
    assert_eq!(first.increment.get("b").copied(), Some(2));
    assert_eq!(first.decrement.get("a").copied(), Some(1));
    assert_eq!(first.total(), "6");
}

#[test]
fn pn_counter_merge_in_either_order_gives_the_same_total() {
    let build = |inc: u64, dec: u64| {
        let mut c = PnCounter::new();
        c.increment("k".to_string(), inc);
        c.decrement("k".to_string(), dec);
        c
    };
    let mut left = build(4, 1);
    left.merge(&build(9, 3));
    let mut right = build(9, 3);
    right.merge(&build(4, 1));
    assert_eq!(left.total(), right.total());
    assert_eq!(left.total(), "6");
}

#[test]
fn or_set_merged_replicas_agree() {
    let mut set1 = OrSet::new();
    let mut set2 = OrSet::new();
    set1.add("A".to_string(), 1);
    set1.add("B".to_string(), 2);
    set2.add("A".to_string(), 3);
    set2.add("C".to_string(), 4);
    set2.remove("A".to_string(), 2);
    set1.merge(&set2);
    set2.merge(&set1);
    let expected = vec!["A".to_string(), "B".to_string(), "C".to_string()];
    assert_eq!(sorted(set1.value()), expected);
    assert_eq!(sorted(set2.value()), expected);
}

#[test]
fn or_set_added_element_is_a_member() {
    let mut set = OrSet::new();
    assert!(set.value().is_empty());
    set.add("x".to_string(), 7);
    assert_eq!(set.value(), vec!["x".to_string()]);
}

#[test]
fn or_set_value_lists_each_member_once() {
    let mut set = OrSet::new();
    set.add("x".to_string(), 1);
    set.add("x".to_string(), 2);
    set.add("y".to_string(), 3);
    assert_eq!(sorted(set.value()), vec!["x".to_string(), "y".to_string()]);
}

#[test]
fn or_set_remove_without_removals_records_the_timestamp_as_an_addition() {
    let mut set = OrSet::new();
    set.remove("ghost".to_string(), 5);
    assert_eq!(set.value(), vec!["ghost".to_string()]);
}

#[test]
fn or_set_merge_with_itself_changes_nothing() {
    let mut set = OrSet::new();
    set.add("p".to_string(), 1);
    let mut copy = OrSet::new();
    copy.add("p".to_string(), 1);
    set.merge(&copy);
    assert_eq!(set.value(), vec!["p".to_string()]);
}
