use crdt_redis::redis::command::{dispatch_at, execute_command, try_execute_command, CommandOutcome};
use crdt_redis::redis::logging::Logger;
use crdt_redis::redis::types::{Cache, Db};
use crdt_redis::str_map::StrMap;

fn fresh() -> (Db, Cache) {
    (StrMap::new(), StrMap::new())
}

fn reply(o: CommandOutcome) -> (String, Option<String>) {
    match o {
        CommandOutcome::Reply { text, log } => (text, log),
        CommandOutcome::Flushed => panic!("expected a reply"),
    }
}

fn run(parts: Vec<&str>, db: &mut Db, cache: &mut Cache) -> String {
    reply(execute_command(parts, db, cache, false)).0
}

#[test]
fn lower_case_commands_are_recognised() {
    let (mut db, mut cache) = fresh();
    assert_eq!(run(vec!["set", "k", "v"], &mut db, &mut cache), "+OK\n");
    assert_eq!(run(vec!["Get", "k"], &mut db, &mut cache), "+Result : v\n");
}

#[test]
fn changes_carry_their_log_line_when_logging() {
    let (mut db, mut cache) = fresh();
    let (text, log) = reply(execute_command(vec!["SET", "k", "a", "b"], &mut db, &mut cache, true));
    assert_eq!(text, "+OK\n");
    assert_eq!(log, Some("SET k a b".to_string()));
    let (_, log) = reply(execute_command(vec!["GET", "k"], &mut db, &mut cache, true));
    assert_eq!(log, None);
    let (_, log) = reply(execute_command(vec!["DEL", "k"], &mut db, &mut cache, false));
    assert_eq!(log, None);
}

#[test]
fn refused_commands_are_not_logged() {
    let (mut db, mut cache) = fresh();
    let (text, log) = reply(execute_command(vec!["SET", "k"], &mut db, &mut cache, true));
    assert_eq!(text, "-ERR wrong number of arguments for 'SET'\n");
    assert_eq!(log, None);
    assert_eq!(db.len(), 0);
}

#[test]
fn empty_and_unknown_commands() {
    let (mut db, mut cache) = fresh();
    assert_eq!(run(vec![], &mut db, &mut cache), "-ERR empty command\n");
    assert_eq!(run(vec!["PING"], &mut db, &mut cache), "-ERR unknown or unsupported command\n");
    assert_eq!(run(vec!["GET"], &mut db, &mut cache), "-ERR unknown or unsupported command\n");
    assert_eq!(run(vec!["EXPIRE", "k"], &mut db, &mut cache), "-ERR unknown or unsupported command\n");
    assert_eq!(run(vec!["FLUSH", "now"], &mut db, &mut cache), "-ERR unknown or unsupported command\n");
    assert_eq!(run(vec!["exit"], &mut db, &mut cache), "EXIT");
}

#[test]
fn argument_checks_answer_with_their_errors() {
    let (mut db, mut cache) = fresh();
    assert_eq!(run(vec!["LPUSH", "l"], &mut db, &mut cache), "-ERR wrong number of arguments for 'lpush'\n");
    assert_eq!(run(vec!["LPOP", "l", "x"], &mut db, &mut cache), "-ERR wrong number of arguments for 'lpop'\n");
    assert_eq!(run(vec!["XADD", "s", "*", "f"], &mut db, &mut cache), "-ERR wrong number of arguments for 'XAdd'\n");
    assert_eq!(
        run(vec!["XADD", "s", "*", "f", "v", "g"], &mut db, &mut cache),
        "-ERR wrong number of arguments for 'XAdd' Values\n"
    );
    assert_eq!(
        run(vec!["XGROUPADD", "GROUP", "s", "g"], &mut db, &mut cache),
        "-ERR wrong number of arguments for 'XGROUP ADD'\n"
    );
    assert_eq!(
        run(vec!["XGROUPADD", "GROUP", "s", "g", "0", "x"], &mut db, &mut cache),
        "-ERR wrong number of arguments for 'XAdd' Values\n"
    );
    assert_eq!(
        run(vec!["XGROUPADD", "x", "s", "g", "0"], &mut db, &mut cache),
        "-ERR Second Argument should be GROUP"
    );
}

#[test]
fn list_commands_answer_ok() {
    let (mut db, mut cache) = fresh();
    assert_eq!(run(vec!["LPUSH", "l", "x"], &mut db, &mut cache), "+OK\n");
    assert_eq!(run(vec!["LPUSH", "l", "y"], &mut db, &mut cache), "+OK\n");
    assert_eq!(run(vec!["LPOP", "l"], &mut db, &mut cache), "+OK\n");
    assert_eq!(
        run(vec!["GET", "l"], &mut db, &mut cache),
        "+Result : LinkedList { value: \"x\", next: None } \n"
    );
}

#[test]
fn stream_commands_pass_their_answers_on() {
    let (mut db, mut cache) = fresh();
    assert_eq!(run(vec!["XADD", "newhello", "*", "f", "v"], &mut db, &mut cache), "+Ok Entry Added");
    assert_eq!(
        run(vec!["XGROUPADD", "GROUP", "newhello", "mygroup", "1749069781831-0"], &mut db, &mut cache),
        "+New Group Added"
    );
    assert_eq!(run(vec!["XREAD", "_", "missing", "0"], &mut db, &mut cache), "+Not Ok");
    let read = run(vec!["XREAD", "_", "newhello", "0"], &mut db, &mut cache);
    assert!(read.starts_with("{\""));
    assert!(read.ends_with("-0\":{\"f\":\"v\"}}"));
}

#[test]
fn set_then_get_and_del_then_get() {
    let (mut db, mut cache) = fresh();
    run(vec!["SET", "k", "one", "two"], &mut db, &mut cache);
    assert_eq!(run(vec!["GET", "k"], &mut db, &mut cache), "+Result : one two\n");
    assert_eq!(run(vec!["DEL", "k"], &mut db, &mut cache), "+OK\n");
    assert_eq!(run(vec!["GET", "k"], &mut db, &mut cache), "$-1\n");
}

#[test]
fn flush_empties_the_store_but_keeps_expiries() {
    let (mut db, mut cache) = fresh();
    run(vec!["SET", "k", "v"], &mut db, &mut cache);
    match execute_command(vec!["FLUSH"], &mut db, &mut cache, true) {
        CommandOutcome::Flushed => {},
        _ => panic!("expected the store to be flushed"),
    }
    assert_eq!(run(vec!["GET", "*"], &mut db, &mut cache), "$-1\n");
    assert_eq!(cache.len(), 1);
}

#[test]
fn expire_through_commands() {
    let (mut db, mut cache) = fresh();
    let (text, _) = reply(dispatch_at("EXPIRE", vec!["EXPIRE", "k", "2"], &mut db, &mut cache, true, 10));
    assert_eq!(text, "+OK\n");
    assert_eq!(cache.len(), 0);
    run(vec!["XADD", "k", "*", "f", "v"], &mut db, &mut cache);
    run(vec!["XADD", "j", "*", "f", "v"], &mut db, &mut cache);
    let (text, log) = reply(dispatch_at("EXPIRE", vec!["EXPIRE", "k", "2"], &mut db, &mut cache, true, 10));
    assert_eq!(text, "+OK\n");
    assert_eq!(log, Some("EXPIRE k 2".to_string()));
    assert_eq!(cache.get("k").copied(), Some(2_010));
    let (text, _) = reply(dispatch_at("EXPIRE", vec!["EXPIRE", "j", "-9000000000000000"], &mut db, &mut cache, false, 10));
    assert_eq!(text, "+OK\n");
    assert_eq!(cache.get("j"), None);
}

#[test]
fn dispatch_uses_the_given_time() {
    let (mut db, mut cache) = fresh();
    dispatch_at("SET", vec!["set", "k", "v"], &mut db, &mut cache, false, 42);
    assert_eq!(cache.get("k").copied(), Some(144_000_042));
    let (text, _) = reply(dispatch_at("XADD", vec!["xadd", "s", "*", "a", "b"], &mut db, &mut cache, false, 42));
    assert_eq!(text, "+Ok Entry Added");
    let (text, _) = reply(dispatch_at("XREAD", vec!["xread", "_", "s", "0"], &mut db, &mut cache, false, 43));
    assert_eq!(text, "{\"42-0\":{\"a\":\"b\"}}");
}

#[test]
fn commands_that_would_fail_are_turned_away() {
    let (mut db, mut cache) = fresh();
    assert!(try_execute_command(vec!["XREAD", "_", "s"], &mut db, &mut cache, true).is_none());
    assert!(try_execute_command(vec!["xadd", "s"], &mut db, &mut cache, true).is_none());
    let missing = try_execute_command(vec!["EXPIRE", "k", "soon"], &mut db, &mut cache, true);
    assert_eq!(reply(missing.unwrap()).0, "+OK\n");
    assert_eq!(db.len(), 0);
    assert_eq!(cache.len(), 0);
    run(vec!["SET", "k", "v"], &mut db, &mut cache);
    assert!(try_execute_command(vec!["EXPIRE", "k", "soon"], &mut db, &mut cache, true).is_none());
    assert!(try_execute_command(vec!["EXPIRE", "k", "99999999999999999"], &mut db, &mut cache, true).is_none());
    assert_eq!(db.len(), 1);
    assert_eq!(cache.len(), 1);
    let done = try_execute_command(vec!["SET", "k", "v"], &mut db, &mut cache, true);
    assert_eq!(reply(done.unwrap()).0, "+OK\n");
}

#[test]
fn log_line_joins_the_words() {
    let line = Logger::aof_line(&vec!["SET", "k", "a", "b"]);
    assert_eq!(line, "SET k a b");
    assert_eq!(Logger::aof_line(&vec![]), "");
}

#[test]
fn logged_line_reads_back_as_the_same_words() {
    let parts = vec!["LPUSH", "list", "value"];
    let line = Logger::aof_line(&parts);
    assert_eq!(Logger::line_words(&line), vec!["LPUSH".to_string(), "list".to_string(), "value".to_string()]);
    assert_eq!(Logger::line_words("  SET \t k   v \n"), vec!["SET".to_string(), "k".to_string(), "v".to_string()]);
    assert!(Logger::line_words("   ").is_empty());
}

#[test]
fn replaying_logged_lines_rebuilds_the_store() {
    let (mut db, mut cache) = fresh();
    let mut log = Vec::new();
    for parts in [vec!["SET", "a", "1"], vec!["LPUSH", "l", "x"], vec!["GET", "a"], vec!["DEL", "zz"]] {
        if let (_, Some(line)) = reply(execute_command(parts, &mut db, &mut cache, true)) {
            log.push(line);
        }
    }
    assert_eq!(log.len(), 3);
    let (mut db2, mut cache2) = fresh();
    for line in &log {
        let words = Logger::line_words(line);
        let parts: Vec<&str> = words.iter().map(|w| w.as_str()).collect();
        execute_command(parts, &mut db2, &mut cache2, false);
    }
    assert_eq!(run(vec!["GET", "*"], &mut db2, &mut cache2), run(vec!["GET", "*"], &mut db, &mut cache));
}
