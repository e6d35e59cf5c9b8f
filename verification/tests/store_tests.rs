use crdt_redis::redis::linked_list::LinkedList;
use crdt_redis::redis::stream::{Stream, StreamFunctions};
use crdt_redis::redis::stringify::stringify_map;
use crdt_redis::redis::types::{Cache, Db, RedisValue, ValueType};
use crdt_redis::redis::vec_utils::join_from;
use crdt_redis::str_map::StrMap;

fn fresh() -> (Db, Cache) {
    (StrMap::new(), StrMap::new())
}

#[test]
fn linked_list_pops_from_the_tail() {
    let mut l = LinkedList::new("a".to_string());
    l.append("b".to_string());
    l.append("c".to_string());
    assert_eq!(l.pop(), Some("c".to_string()));
    assert_eq!(l.pop(), Some("b".to_string()));
    assert_eq!(l.pop(), Some("a".to_string()));
    assert_eq!(l.value, "");
    assert_eq!(l.pop(), None);
}

#[test]
fn linked_list_append_then_pop_gives_the_value_back() {
    let mut l = LinkedList::new("head".to_string());
    l.append("tail".to_string());
    assert_eq!(l.pop(), Some("tail".to_string()));
    assert_eq!(l.value, "head");
    assert!(l.next.is_none());
}

#[test]
fn join_from_joins_the_rest_with_spaces() {
    let v = vec!["SET", "k", "hello", "big", "world"];
    assert_eq!(join_from(&v, 2), "hello big world");
    assert_eq!(join_from(&v, 4), "world");
    assert_eq!(join_from(&v, 5), "");
    assert_eq!(join_from(&v, 9), "");
}

#[test]
fn stringify_map_writes_nested_json_like_text() {
    let mut inner = StrMap::new();
    inner.insert("f".to_string(), "v".to_string());
    inner.insert("g".to_string(), "w".to_string());
    let mut other = StrMap::new();
    other.insert("h".to_string(), "x".to_string());
    let mut outer = StrMap::new();
    outer.insert("1-0".to_string(), inner);
    outer.insert("2-0".to_string(), other);
    assert_eq!(stringify_map(&outer), "{\"1-0\":{\"f\":\"v\",\"g\":\"w\"},\"2-0\":{\"h\":\"x\"}}");
    assert_eq!(stringify_map(&StrMap::new()), "{}");
}

#[test]
fn set_then_get_shows_the_joined_words() {
    let (mut db, mut cache) = fresh();
    assert_eq!(RedisValue::set(vec!["SET", "k", "hello", "world"], &mut db, &mut cache), "+OK\n");
    assert_eq!(RedisValue::get_key(vec!["GET", "k"], &db), "+Result : hello world\n");
    let expiry = *cache.get("k").unwrap();
    assert!(expiry > 144_000_000);
}

#[test]
fn set_at_expires_after_the_keep_time() {
    let (mut db, mut cache) = fresh();
    RedisValue::set_at(vec!["SET", "k", "v"], &mut db, &mut cache, 1_000);
    assert_eq!(cache.get("k").copied(), Some(144_001_000));
}

#[test]
fn get_of_a_missing_key() {
    let (db, _) = fresh();
    assert_eq!(RedisValue::get_key(vec!["GET", "nope"], &db), "$-1\n");
}

#[test]
fn get_all_lists_keys_in_order() {
    let (mut db, mut cache) = fresh();
    assert_eq!(RedisValue::get_all(&db), "$-1\n");
    RedisValue::set_at(vec!["SET", "b", "2"], &mut db, &mut cache, 0);
    RedisValue::set_at(vec!["SET", "a", "1"], &mut db, &mut cache, 0);
    assert_eq!(RedisValue::get_all(&db), "a: Result : 1\nb: Result : 2\n");
}

#[test]
fn remove_reports_whether_the_key_was_there() {
    let (mut db, mut cache) = fresh();
    RedisValue::set_at(vec!["SET", "k", "v"], &mut db, &mut cache, 0);
    assert_eq!(RedisValue::remove(vec!["DEL", "k"], &mut db), ":1\n");
    assert_eq!(RedisValue::remove(vec!["DEL", "k"], &mut db), ":0\n");
}

#[test]
fn lpush_creates_then_appends() {
    let (mut db, mut cache) = fresh();
    assert_eq!(RedisValue::lpush_at(vec!["LPUSH", "l", "x"], &mut db, &mut cache, 5), "+Key Created\n");
    assert_eq!(cache.get("l").copied(), Some(144_000_005));
    assert_eq!(RedisValue::lpush_at(vec!["LPUSH", "l", "y"], &mut db, &mut cache, 9), "+OK\n");
    assert_eq!(cache.get("l").copied(), Some(144_000_005));
    assert_eq!(
        RedisValue::get_key(vec!["GET", "l"], &db),
        "+Result : LinkedList { value: \"x\", next: Some(LinkedList { value: \"y\", next: None }) } \n"
    );
}

#[test]
fn lpush_on_a_string_is_refused() {
    let (mut db, mut cache) = fresh();
    RedisValue::set_at(vec!["SET", "k", "v"], &mut db, &mut cache, 0);
    assert_eq!(RedisValue::lpush(vec!["LPUSH", "k", "x"], &mut db, &mut cache), "-ERR wrong type\n");
    assert_eq!(RedisValue::get_key(vec!["GET", "k"], &db), "+Result : v\n");
}

#[test]
fn lpop_takes_values_from_the_tail_until_the_key_goes() {
    let (mut db, mut cache) = fresh();
    RedisValue::lpush_at(vec!["LPUSH", "l", "x"], &mut db, &mut cache, 0);
    RedisValue::lpush_at(vec!["LPUSH", "l", "y"], &mut db, &mut cache, 0);
    assert_eq!(RedisValue::lpop(vec!["LPOP", "l"], &mut db, &cache), "y");
    assert_eq!(RedisValue::lpop(vec!["LPOP", "l"], &mut db, &cache), "x");
    assert_eq!(RedisValue::get_key(vec!["GET", "l"], &db), "$-1\n");
    assert_eq!(RedisValue::lpop(vec!["LPOP", "l"], &mut db, &cache), "-Key Does not Exist\n");
}

#[test]
fn lpop_on_a_string_is_refused() {
    let (mut db, mut cache) = fresh();
    RedisValue::set_at(vec!["SET", "k", "v"], &mut db, &mut cache, 0);
    assert_eq!(RedisValue::lpop(vec!["LPOP", "k"], &mut db, &cache), "-ERR wrong type\n");
}

#[test]
fn expire_moves_an_existing_expiry() {
    let (mut db, mut cache) = fresh();
    RedisValue::set_at(vec!["SET", "k", "v"], &mut db, &mut cache, 1_000);
    assert_eq!(RedisValue::expire_at(vec!["EXPIRE", "k", "10"], &db, &mut cache, 50), "+OK\n");
    assert_eq!(cache.get("k").copied(), Some(144_011_000));
    assert_eq!(RedisValue::expire_at(vec!["EXPIRE", "k", "-1"], &db, &mut cache, 50), "+OK\n");
    assert_eq!(cache.get("k").copied(), Some(144_010_000));
}

#[test]
fn expire_of_a_key_without_expiry_starts_from_now() {
    let (mut db, mut cache) = fresh();
    RedisValue::x_add_at(vec!["XADD", "k", "*", "f", "v"], &mut db, 1);
    assert_eq!(cache.len(), 0);
    assert_eq!(RedisValue::expire_at(vec!["EXPIRE", "k", "3"], &db, &mut cache, 700), "+OK\n");
    assert_eq!(cache.get("k").copied(), Some(3_700));
}

#[test]
fn expire_of_a_missing_key_changes_nothing() {
    let (db, mut cache) = fresh();
    let r = RedisValue::expire_at(vec!["EXPIRE", "k", "3"], &db, &mut cache, 700);
    assert_eq!(r, "+Value Does Not Exist\n");
    assert_eq!(cache.len(), 0);
    let r = RedisValue::expire(vec!["EXPIRE", "k", "not-a-number"], &db, &mut cache);
    assert_eq!(r, "+Value Does Not Exist\n");
    assert_eq!(cache.len(), 0);
}

#[test]
fn expire_beyond_the_representable_range_is_refused() {
    let (mut db, mut cache) = fresh();
    RedisValue::x_add_at(vec!["XADD", "k", "*", "f", "v"], &mut db, 1);
    let r = RedisValue::expire_at(vec!["EXPIRE", "k", "9223372036854775"], &db, &mut cache, 0);
    assert_eq!(r, "-ERR invalid expire time\n");
    assert_eq!(cache.len(), 0);
}

#[test]
fn expire_at_the_current_time() {
    let (mut db, mut cache) = fresh();
    RedisValue::x_add_at(vec!["XADD", "k", "*", "f", "v"], &mut db, 1);
    assert_eq!(RedisValue::expire(vec!["EXPIRE", "k", "0"], &db, &mut cache), "+OK\n");
    assert!(cache.get("k").copied().unwrap() > 0);
}

#[test]
fn x_add_creates_a_stream_then_adds_to_it() {
    let (mut db, _) = fresh();
    assert_eq!(RedisValue::x_add_at(vec!["XADD", "s", "*", "f", "v"], &mut db, 5), "+Ok Entry Added");
    assert_eq!(RedisValue::x_add_at(vec!["XADD", "s", "*", "g", "w", "h", "x"], &mut db, 6), "+New Message Added");
    assert_eq!(
        RedisValue::get_key(vec!["GET", "s"], &db),
        "+Stream => \nStream Entries:\n  ID: 5-0\n    f => v\n  ID: 6-1\n    g => w\n    h => x\n\n"
    );
}

#[test]
fn x_add_later_field_overrides_and_odd_word_is_dropped() {
    let (mut db, _) = fresh();
    RedisValue::x_add_at(vec!["XADD", "s", "*", "f", "1", "f", "2", "lonely"], &mut db, 1);
    assert_eq!(RedisValue::x_read(vec!["XREAD", "_", "s", "0"], &db), "{\"1-0\":{\"f\":\"2\"}}");
}

#[test]
fn x_add_on_a_string_is_refused() {
    let (mut db, mut cache) = fresh();
    RedisValue::set_at(vec!["SET", "s", "v"], &mut db, &mut cache, 0);
    assert_eq!(RedisValue::x_add(vec!["XADD", "s", "*", "f", "v"], &mut db), "-ERR wrong type\n");
}

#[test]
fn x_add_stamps_with_the_clock() {
    let (mut db, _) = fresh();
    assert_eq!(RedisValue::x_add(vec!["XADD", "s", "*", "f", "v"], &mut db), "+Ok Entry Added");
    let shown = RedisValue::get_key(vec!["GET", "s"], &db);
    assert!(shown.contains("-0\n    f => v\n"));
    assert!(!shown.contains("ID: 0-0"));
}

#[test]
fn x_read_gives_entries_after_the_start_up_to_the_count() {
    let (mut db, _) = fresh();
    RedisValue::x_add_at(vec!["XADD", "s", "*", "a", "1"], &mut db, 1);
    RedisValue::x_add_at(vec!["XADD", "s", "*", "b", "2"], &mut db, 2);
    RedisValue::x_add_at(vec!["XADD", "s", "*", "c", "3"], &mut db, 3);
    assert_eq!(
        RedisValue::x_read(vec!["XREAD", "_", "s", "1-0"], &db),
        "{\"2-1\":{\"b\":\"2\"},\"3-2\":{\"c\":\"3\"}}"
    );
    assert_eq!(RedisValue::x_read(vec!["XREAD", "_", "s", "0", "1"], &db), "{\"1-0\":{\"a\":\"1\"}}");
    assert_eq!(RedisValue::x_read(vec!["XREAD", "_", "s", "3-2"], &db), "{}");
}

#[test]
fn x_read_of_missing_or_other_keys() {
    let (mut db, mut cache) = fresh();
    assert_eq!(RedisValue::x_read(vec!["XREAD", "_", "s", "0"], &db), "+Not Ok");
    RedisValue::set_at(vec!["SET", "s", "v"], &mut db, &mut cache, 0);
    assert_eq!(RedisValue::x_read(vec!["XREAD", "_", "s", "0"], &db), "-ERR wrong type\n");
}

#[test]
fn x_group_add_needs_a_stream() {
    let (mut db, mut cache) = fresh();
    assert_eq!(RedisValue::x_group_add(vec!["XGROUPADD", "GROUP", "s", "g", "0"], &mut db), "Error Creating Consumer Group");
    RedisValue::x_add_at(vec!["XADD", "s", "*", "a", "1"], &mut db, 1);
    assert_eq!(RedisValue::x_group_add(vec!["XGROUPADD", "GROUP", "s", "g", "0"], &mut db), "+New Group Added");
    RedisValue::set_at(vec!["SET", "t", "v"], &mut db, &mut cache, 0);
    assert_eq!(RedisValue::x_group_add(vec!["XGROUPADD", "GROUP", "t", "g", "0"], &mut db), "-ERR wrong type\n");
}

#[test]
fn x_group_read_delivers_new_entries_once() {
    let (mut db, _) = fresh();
    RedisValue::x_add_at(vec!["XADD", "s", "*", "a", "1"], &mut db, 1);
    RedisValue::x_add_at(vec!["XADD", "s", "*", "b", "2"], &mut db, 2);
    RedisValue::x_group_add(vec!["XGROUPADD", "GROUP", "s", "g", "1-0"], &mut db);
    let parts = vec!["XREADGROUP", "GROUP", "g", "alice", "STREAMS", "s", ">"];
    assert_eq!(RedisValue::x_group_read_at(parts.clone(), &mut db, 77), "{\"2-1\":{\"b\":\"2\"}}");
    assert_eq!(RedisValue::x_group_read_at(parts, &mut db, 78), "{}");
    let shown = RedisValue::get_key(vec!["GET", "s"], &db);
    assert!(shown.contains("    Last Delivered ID: 2-1\n"));
    assert!(shown.contains("      Consumer: alice\n        Pending IDs: {\"2-1\"}\n        Last Seen: 0\n"));
    assert!(shown.contains("      Entry ID: 2-1\n        Consumer: alice\n        Timestamp: 77\n        Delivery Count: 0\n"));
}

#[test]
fn x_group_read_reports_missing_groups_streams_and_types() {
    let (mut db, mut cache) = fresh();
    RedisValue::x_add_at(vec!["XADD", "s", "*", "a", "1"], &mut db, 1);
    RedisValue::set_at(vec!["SET", "t", "v"], &mut db, &mut cache, 0);
    let r = RedisValue::x_group_read_at(vec!["XREADGROUP", "GROUP", "g", "c", "STREAMS", "s", "t", "u", ">"], &mut db, 0);
    assert_eq!(r, "Group Doesnt not ExistWrong Error Type+OK Message");
}

#[test]
fn x_group_read_with_count_names_streams_after_it() {
    let (mut db, _) = fresh();
    RedisValue::x_add_at(vec!["XADD", "s", "*", "a", "1"], &mut db, 1);
    RedisValue::x_group_add(vec!["XGROUPADD", "GROUP", "s", "g", "0"], &mut db);
    let parts = vec!["XREADGROUP", "GROUP", "g", "c", "COUNT", "5", "STREAMS", "s", ">", "0"];
    assert_eq!(RedisValue::x_group_read(parts, &mut db), "{\"1-0\":{\"a\":\"1\"}}");
}

#[test]
fn x_message_ack_clears_pending_entries() {
    let (mut db, _) = fresh();
    RedisValue::x_add_at(vec!["XADD", "s", "*", "a", "1"], &mut db, 1);
    RedisValue::x_group_add(vec!["XGROUPADD", "GROUP", "s", "g", "0"], &mut db);
    RedisValue::x_group_read_at(vec!["XREADGROUP", "GROUP", "g", "c", "STREAMS", "s", ">"], &mut db, 3);
    assert_eq!(RedisValue::x_message_ack(vec!["XACK", "g", "s", "1-0"], &mut db), "+ok");
    let shown = RedisValue::get_key(vec!["GET", "s"], &db);
    assert!(shown.contains("Pending IDs: {}"));
    assert!(!shown.contains("Pending Entries"));
    assert_eq!(RedisValue::x_message_ack(vec!["XACK", "g", "nope", "1-0"], &mut db), "+Group Doesnt Exist");
}

#[test]
fn stream_reads_after_an_id() {
    let mut s = Stream::new();
    let mut fields = StrMap::new();
    fields.insert("k".to_string(), "v".to_string());
    assert_eq!(s.add_entry(ValueType::Hash(fields)), "+Ok Entry Added");
    let read = s.x_read("0", None);
    assert_eq!(read.len(), 1);
    assert_eq!(s.x_group_add("g", None), "+ok");
}

#[test]
fn hash_values_show_in_debug_notation() {
    let mut fields = StrMap::new();
    fields.insert("a\"b".to_string(), "c".to_string());
    let v = RedisValue { value: ValueType::Hash(fields) };
    assert_eq!(v.to_display_string(), "Result : {\"a\\\"b\": \"c\"} ");
}

#[test]
fn lpop_after_lpush_restores_the_list() {
    let (mut db, mut cache) = fresh();
    RedisValue::lpush_at(vec!["LPUSH", "l", "x"], &mut db, &mut cache, 0);
    let before = RedisValue::get_key(vec!["GET", "l"], &db);
    RedisValue::lpush_at(vec!["LPUSH", "l", "y"], &mut db, &mut cache, 0);
    assert_eq!(RedisValue::lpop(vec!["LPOP", "l"], &mut db, &cache), "y");
    assert_eq!(RedisValue::get_key(vec!["GET", "l"], &db), before);
    RedisValue::lpush_at(vec!["LPUSH", "fresh", "z"], &mut db, &mut cache, 0);
    assert_eq!(RedisValue::lpop(vec!["LPOP", "fresh"], &mut db, &cache), "z");
    assert_eq!(RedisValue::get_key(vec!["GET", "fresh"], &db), "$-1\n");
}

#[test]
fn x_group_read_names_start_after_streams() {
    let (mut db, _) = fresh();
    let parts = vec!["XGROUPREAD", "GROUP", "g", "c", "STREAMS", "s", ">", "0"];
    assert_eq!(RedisValue::x_group_read_at(parts, &mut db, 0), "+OK Message");
    assert_eq!(db.len(), 0);
}

#[test]
fn an_empty_stream_is_shown_with_its_header() {
    let v = RedisValue { value: ValueType::Stream(Stream::new()) };
    assert_eq!(v.to_display_string(), "Stream => \nStream Entries:\n");
}

#[test]
fn a_group_can_be_added_to_an_empty_stream() {
    let (mut db, _) = fresh();
    db.insert("newhello".to_string(), RedisValue { value: ValueType::Stream(Stream::new()) });
    let parts = vec!["XGROUPADD", "GROUP", "newhello", "mygroup", "1749069781831-0"];
    assert_eq!(RedisValue::x_group_add(parts, &mut db), "+New Group Added");
    let shown = RedisValue::get_key(vec!["GET", "newhello"], &db);
    assert_eq!(
        shown,
        "+Stream => \nStream Entries:\n\nConsumer Groups:\n  Group: mygroup\n    Last Delivered ID: 1749069781831-0\n    Consumers:\n\n"
    );
}

#[test]
fn streams_keep_entries_of_other_kinds() {
    let mut s = Stream::new();
    let mut fields = StrMap::new();
    fields.insert("k".to_string(), "v".to_string());
    assert_eq!(s.add_entry_at(ValueType::String("hi".to_string()), 5), "+Ok Entry Added");
    s.add_entry_at(ValueType::Hash(fields), 6);
    s.add_entry_at(ValueType::LinkedList(LinkedList::new("x".to_string())), 7);
    let read = s.x_read("0", None);
    assert_eq!(read.len(), 1);
    assert!(read.contains_key("6-1"));
    assert_eq!(s.x_read("0", Some(0)).len(), 0);
    assert_eq!(s.x_read("5-0", Some(0)).len(), 1);
    assert_eq!(s.x_read("0", Some(1)).len(), 1);
    let v = RedisValue { value: ValueType::Stream(s) };
    assert_eq!(
        v.to_display_string(),
        "Stream => \nStream Entries:\n  ID: 5-0 => String(\"hi\")\n  ID: 6-1\n    k => v\n  ID: 7-2 => LinkedList(LinkedList { value: \"x\", next: None })\n"
    );
}

#[test]
fn a_stream_inside_a_stream_is_shown_in_debug_notation() {
    let mut inner = Stream::new();
    let mut fields = StrMap::new();
    fields.insert("a".to_string(), "b".to_string());
    inner.add_entry_at(ValueType::Hash(fields), 1);
    let mut outer = Stream::new();
    outer.add_entry_at(ValueType::Stream(inner), 2);
    assert_eq!(outer.x_read("0", None).len(), 0);
    let v = RedisValue { value: ValueType::Stream(outer) };
    assert_eq!(
        v.to_display_string(),
        "Stream => \nStream Entries:\n  ID: 2-0 => Stream(Stream { entries: {\"1-0\": StreamEntry { value: Hash({\"a\": \"b\"}) }}, last_id: 1, consumer_groups: {} })\n"
    );
}

#[test]
fn entry_ids_keep_the_sign_of_the_time() {
    let (mut db, _) = fresh();
    RedisValue::x_add_at(vec!["XADD", "s", "*", "f", "v"], &mut db, -5);
    assert_eq!(RedisValue::x_read(vec!["XREAD", "_", "s", ""], &db), "{\"-5-0\":{\"f\":\"v\"}}");
    let mut s = Stream::new();
    s.add_entry_at(ValueType::String("x".to_string()), i64::MIN);
    let v = RedisValue { value: ValueType::Stream(s) };
    assert_eq!(
        v.to_display_string(),
        "Stream => \nStream Entries:\n  ID: -9223372036854775808-0 => String(\"x\")\n"
    );
}
