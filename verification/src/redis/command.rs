//! Running one command against the store.
use vstd::prelude::*;
use crate::str_map::StrMap;
use crate::text_util::{str_eq, text, to_upper, uppercase, parse_i64};
use crate::redis::types::{RedisValue, ValueType, ValueModel, Db, Cache, db_model, db_wf, value_wf};
use crate::redis::validator::{
    CommandValidator, SetValidator, LPushValidator, LPopValidator, XADDValidator, XGROUPADDValidator,
    xadd_check, xgroupadd_check, words_of,
};
use crate::redis::store::{
    KEEP_MILLIS, MAX_DELTA_SECONDS, lpush_effect, lpop_effect, x_add_effect, x_group_add_effect,
    x_read_reply, expire_effect, expire_fits, get_key_reply, get_all_reply,
};
use crate::redis::vec_utils::joined_from;
use crate::redis::logging::{Logger, log_line, logged_line_replays};
use crate::text_util::{is_word, words, trim, all_ascii, ascii_upper};
use crate::redis::clock::{now_millis, MAX_INSTANT_MILLIS, MIN_INSTANT_MILLIS};

verus! {

/// How a command ends.
pub enum CommandOutcome {
    /// Answer with `text`; when `log` holds a line, it is appended to the
    /// command log.
    Reply { text: String, log: Option<String> },
    /// The store was emptied: the command log is removed, and what that
    /// removal reports is the answer.
    Flushed,
}

/// A command's ending, by its contents.
pub enum OutcomeModel {
    Reply { text: Seq<char>, log: Option<Seq<char>> },
    Flushed,
}

impl View for CommandOutcome {
    type V = OutcomeModel;

    open spec fn view(&self) -> OutcomeModel {
        match self {
            CommandOutcome::Reply { text, log } => OutcomeModel::Reply {
                text: text@,
                log: match log {
                    Some(l) => Some(l@),
                    None => None,
                },
            },
            CommandOutcome::Flushed => OutcomeModel::Flushed,
        }
    }
}

/// What one command does: the store and expiries it leaves, and how it ends.
pub struct StepModel {
    pub store: Map<Seq<char>, ValueModel>,
    pub expiry: Map<Seq<char>, i64>,
    pub outcome: OutcomeModel,
}

/// A command that changes nothing and is answered with `text`.
pub open spec fn answer(m: Map<Seq<char>, ValueModel>, c: Map<Seq<char>, i64>, text: Seq<char>, log: Option<Seq<char>>) -> StepModel {
    StepModel { store: m, expiry: c, outcome: OutcomeModel::Reply { text, log } }
}

/// The command name: the first word in upper case, as the command is
/// matched by (for an ASCII word, its letters made upper case).
pub open spec fn command_word(parts: Seq<&str>) -> Seq<char> {
    if parts.len() > 0 {
        if all_ascii(parts[0]@) {
            ascii_upper(parts[0]@)
        } else {
            uppercase(parts[0]@)
        }
    } else {
        Seq::empty()
    }
}

/// What the command `parts`, named `upper`, does at time `now` to store `m`
/// with expiries `c`. Commands that change the store carry their log line
/// when `logging` is on; those refused by their argument check do not.
pub open spec fn command_step(
    upper: Seq<char>,
    parts: Seq<&str>,
    m: Map<Seq<char>, ValueModel>,
    c: Map<Seq<char>, i64>,
    logging: bool,
    now: int,
) -> StepModel {
    let log = if logging { Some(log_line(parts)) } else { None };
    if parts.len() == 0 {
        answer(m, c, "-ERR empty command\n"@, None)
    } else if upper == "SET"@ {
        if parts.len() < 3 {
            answer(m, c, "-ERR wrong number of arguments for 'SET'\n"@, None)
        } else {
            StepModel {
                store: m.insert(parts[1]@, ValueModel::Text(joined_from(parts, 2))),
                expiry: c.insert(parts[1]@, (now + KEEP_MILLIS) as i64),
                outcome: OutcomeModel::Reply { text: "+OK\n"@, log },
            }
        }
    } else if upper == "LPUSH"@ {
        if parts.len() != 3 {
            answer(m, c, "-ERR wrong number of arguments for 'lpush'\n"@, None)
        } else {
            let e = lpush_effect(m, c, parts, now);
            StepModel { store: e.0, expiry: e.1, outcome: OutcomeModel::Reply { text: "+OK\n"@, log } }
        }
    } else if upper == "LPOP"@ {
        if parts.len() != 2 {
            answer(m, c, "-ERR wrong number of arguments for 'lpop'\n"@, None)
        } else {
            StepModel { store: lpop_effect(m, parts).0, expiry: c, outcome: OutcomeModel::Reply { text: "+OK\n"@, log } }
        }
    } else if upper == "XADD"@ {
        match xadd_check(words_of(parts)) {
            Err(e) => answer(m, c, e, None),
            Ok(_) => {
                let e = x_add_effect(m, parts, now);
                StepModel { store: e.0, expiry: c, outcome: OutcomeModel::Reply { text: e.1, log } }
            },
        }
    } else if upper == "XGROUPADD"@ {
        match xgroupadd_check(words_of(parts)) {
            Err(e) => answer(m, c, e, None),
            Ok(_) => {
                let e = x_group_add_effect(m, parts);
                StepModel { store: e.0, expiry: c, outcome: OutcomeModel::Reply { text: e.1, log } }
            },
        }
    } else if upper == "XREAD"@ {
        answer(m, c, x_read_reply(m, parts), log)
    } else if upper == "EXPIRE"@ && parts.len() == 3 {
        StepModel { store: m, expiry: expire_effect(m, c, parts, now).0, outcome: OutcomeModel::Reply { text: "+OK\n"@, log } }
    } else if upper == "GET"@ && parts.len() == 2 && parts[1]@ == "*"@ {
        answer(m, c, get_all_reply(m), None)
    } else if upper == "GET"@ && parts.len() == 2 {
        answer(m, c, get_key_reply(m, parts[1]@), None)
    } else if upper == "DEL"@ && parts.len() == 2 {
        StepModel { store: m.remove(parts[1]@), expiry: c, outcome: OutcomeModel::Reply { text: "+OK\n"@, log } }
    } else if upper == "FLUSH"@ && parts.len() == 1 {
        StepModel { store: Map::empty(), expiry: c, outcome: OutcomeModel::Flushed }
    } else if upper == "EXIT"@ {
        answer(m, c, "EXIT"@, None)
    } else {
        answer(m, c, "-ERR unknown or unsupported command\n"@, None)
    }
}

/// Whether the command `parts`, named `upper`, can run on store `m` with
/// expiries `c`: `XADD` and `XGROUPADD` have the three words their checks
/// read, a stream that takes an entry has not used up its entry numbers,
/// `XREAD` has its four words, and `EXPIRE` on a stored key has seconds and
/// an expiry that `chrono` can hold.
pub open spec fn command_fits(upper: Seq<char>, parts: Seq<&str>, m: Map<Seq<char>, ValueModel>, c: Map<Seq<char>, i64>) -> bool {
    parts.len() > 0 ==> {
        &&& (upper == "XADD"@ || upper == "XGROUPADD"@) ==> parts.len() >= 3
        &&& (upper == "XADD"@ && parts.len() >= 3 && xadd_check(words_of(parts)) is Ok && m.dom().contains(parts[1]@))
            ==> (m[parts[1]@] matches ValueModel::Stream(s) ==> s.next_number < u64::MAX)
        &&& upper == "XREAD"@ ==> parts.len() >= 4
        &&& (upper == "EXPIRE"@ && parts.len() == 3) ==> expire_fits(m, c, parts)
    }
}

/// Whether `command_fits` holds.
pub fn fits_command(upper: &str, parts: &Vec<&str>, db: &Db, cache: &Cache) -> (r: bool)
    requires
        db_wf(*db),
        cache.wf(),
    ensures
        r == command_fits(upper@, parts@, db_model(*db), cache.map()),
{
    if parts.len() == 0 {
        return true;
    }
    let is_xadd = str_eq(upper, "XADD");
    if (is_xadd || str_eq(upper, "XGROUPADD")) && parts.len() < 3 {
        return false;
    }
    if is_xadd && XADDValidator::validate(parts).is_ok() {
        match db.get(parts[1]) {
            Some(v) => {
                proof {
                    assert(db_model(*db)[parts@[1]@] == crate::redis::types::value_model(*v));
                }
                match &v.value {
                    ValueType::Stream(s) => {
                        if s.last_id == u64::MAX {
                            return false;
                        }
                    },
                    _ => {},
                }
            },
            None => {},
        }
    }
    if str_eq(upper, "XREAD") && parts.len() < 4 {
        return false;
    }
    if str_eq(upper, "EXPIRE") && parts.len() == 3 && db.contains_key(parts[1]) {
        let seconds = match parse_i64(parts[2]) {
            Some(v) => v,
            None => return false,
        };
        if seconds < -MAX_DELTA_SECONDS || seconds > MAX_DELTA_SECONDS {
            return false;
        }
        match cache.get(parts[1]) {
            Some(t) => {
                let later = match t.checked_add(seconds * 1000) {
                    Some(v) => v,
                    None => return false,
                };
                if later < MIN_INSTANT_MILLIS || later > MAX_INSTANT_MILLIS {
                    return false;
                }
            },
            None => {},
        }
    }
    true
}

/// Runs the command `parts`, named `upper`, at time `now`. When `logging`
/// is on, a command that changes the store carries the line to log.
pub fn dispatch_at(upper: &str, parts: Vec<&str>, db: &mut Db, cache: &mut Cache, logging: bool, now: i64) -> (r: CommandOutcome)
    requires
        db_wf(*old(db)),
        old(cache).wf(),
        now <= MAX_INSTANT_MILLIS,
        command_fits(upper@, parts@, db_model(*old(db)), old(cache).map()),
    ensures
        db_wf(*final(db)),
        final(cache).wf(),
        ({
            let step = command_step(upper@, parts@, db_model(*old(db)), old(cache).map(), logging, now as int);
            &&& db_model(*final(db)) == step.store
            &&& final(cache).map() == step.expiry
            &&& r@ == step.outcome
        }),
{
    if parts.len() == 0 {
        return CommandOutcome::Reply { text: text("-ERR empty command\n"), log: None };
    }
    let log = if logging { Some(Logger::aof_line(&parts)) } else { None };
    if str_eq(upper, "SET") {
        if let Err(e) = SetValidator::validate(&parts) {
            return CommandOutcome::Reply { text: e, log: None };
        }
        RedisValue::set_at(parts, db, cache, now);
        CommandOutcome::Reply { text: text("+OK\n"), log }
    } else if str_eq(upper, "LPUSH") {
        if let Err(e) = LPushValidator::validate(&parts) {
            return CommandOutcome::Reply { text: e, log: None };
        }
        RedisValue::lpush_at(parts, db, cache, now);
        CommandOutcome::Reply { text: text("+OK\n"), log }
    } else if str_eq(upper, "LPOP") {
        if let Err(e) = LPopValidator::validate(&parts) {
            return CommandOutcome::Reply { text: e, log: None };
        }
        RedisValue::lpop(parts, db, cache);
        CommandOutcome::Reply { text: text("+OK\n"), log }
    } else if str_eq(upper, "XADD") {
        if let Err(e) = XADDValidator::validate(&parts) {
            return CommandOutcome::Reply { text: e, log: None };
        }
        let response = RedisValue::x_add_at(parts, db, now);
        CommandOutcome::Reply { text: response, log }
    } else if str_eq(upper, "XGROUPADD") {
        if let Err(e) = XGROUPADDValidator::validate(&parts) {
            return CommandOutcome::Reply { text: e, log: None };
        }
        let response = RedisValue::x_group_add(parts, db);
        CommandOutcome::Reply { text: response, log }
    } else if str_eq(upper, "XREAD") {
        let response = RedisValue::x_read(parts, db);
        CommandOutcome::Reply { text: response, log }
    } else if str_eq(upper, "EXPIRE") && parts.len() == 3 {
        RedisValue::expire_at(parts, db, cache, now);
        CommandOutcome::Reply { text: text("+OK\n"), log }
    } else if str_eq(upper, "GET") && parts.len() == 2 && str_eq(parts[1], "*") {
        CommandOutcome::Reply { text: RedisValue::get_all(db), log: None }
    } else if str_eq(upper, "GET") && parts.len() == 2 {
        CommandOutcome::Reply { text: RedisValue::get_key(parts, db), log: None }
    } else if str_eq(upper, "DEL") && parts.len() == 2 {
        RedisValue::remove(parts, db);
        CommandOutcome::Reply { text: text("+OK\n"), log }
    } else if str_eq(upper, "FLUSH") && parts.len() == 1 {
        *db = StrMap::new();
        proof {
            assert(db_model(*db) =~= Map::<Seq<char>, ValueModel>::empty());
        }
        CommandOutcome::Flushed
    } else if str_eq(upper, "EXIT") {
        CommandOutcome::Reply { text: text("EXIT"), log: None }
    } else {
        CommandOutcome::Reply { text: text("-ERR unknown or unsupported command\n"), log: None }
    }
}

/// Runs the command `parts` at the current time, matching its name in
/// upper case. When `logging` is on, a command that changes the store
/// carries the line to log.
pub fn execute_command(parts: Vec<&str>, db: &mut Db, cache: &mut Cache, logging: bool) -> (r: CommandOutcome)
    requires
        db_wf(*old(db)),
        old(cache).wf(),
        command_fits(command_word(parts@), parts@, db_model(*old(db)), old(cache).map()),
    ensures
        db_wf(*final(db)),
        final(cache).wf(),
        exists|now: int|
            MIN_INSTANT_MILLIS <= now <= MAX_INSTANT_MILLIS && #[trigger] command_step(
                command_word(parts@),
                parts@,
                db_model(*old(db)),
                old(cache).map(),
                logging,
                now,
            ) == (StepModel { store: db_model(*final(db)), expiry: final(cache).map(), outcome: r@ }),
{
    let now = now_millis();
    let ghost m = db_model(*db);
    let ghost c = cache.map();
    let ghost word = command_word(parts@);
    let ghost p = parts@;
    let r = if parts.len() == 0 {
        dispatch_at("", parts, db, cache, logging, now)
    } else {
        let upper = to_upper(parts[0]);
        dispatch_at(upper.as_str(), parts, db, cache, logging, now)
    };
    proof {
        let step = command_step(word, p, m, c, logging, now as int);
        assert(step == (StepModel { store: db_model(*db), expiry: cache.map(), outcome: r@ }));
    }
    r
}

/// Runs the command `parts` as `execute_command` does when it can run;
/// otherwise (see `command_fits`) changes nothing and gives `None`.
pub fn try_execute_command(parts: Vec<&str>, db: &mut Db, cache: &mut Cache, logging: bool) -> (r: Option<CommandOutcome>)
    requires
        db_wf(*old(db)),
        old(cache).wf(),
    ensures
        db_wf(*final(db)),
        final(cache).wf(),
        r is None <==> !command_fits(command_word(parts@), parts@, db_model(*old(db)), old(cache).map()),
        r is None ==> *final(db) == *old(db) && *final(cache) == *old(cache),
        r matches Some(o) ==> exists|now: int|
            MIN_INSTANT_MILLIS <= now <= MAX_INSTANT_MILLIS && #[trigger] command_step(
                command_word(parts@),
                parts@,
                db_model(*old(db)),
                old(cache).map(),
                logging,
                now,
            ) == (StepModel { store: db_model(*final(db)), expiry: final(cache).map(), outcome: o@ }),
{
    if parts.len() > 0 {
        let upper = to_upper(parts[0]);
        if !fits_command(upper.as_str(), &parts, db, cache) {
            return None;
        }
    }
    Some(execute_command(parts, db, cache, logging))
}

/// The command names differ from one another.
proof fn lemma_names_differ()
    ensures
        "GET"@ != "SET"@,
        "GET"@ != "LPUSH"@,
        "GET"@ != "LPOP"@,
        "GET"@ != "XADD"@,
        "GET"@ != "XGROUPADD"@,
        "GET"@ != "XREAD"@,
        "GET"@ != "EXPIRE"@,
        "*"@ != "GET"@,
{
    reveal_strlit("SET");
    reveal_strlit("GET");
    reveal_strlit("LPUSH");
    reveal_strlit("LPOP");
    reveal_strlit("XADD");
    reveal_strlit("XGROUPADD");
    reveal_strlit("XREAD");
    reveal_strlit("EXPIRE");
    reveal_strlit("*");
    assert("GET"@[0] != "SET"@[0]);
    assert("GET"@[0] != "LPUSH"@[0]);
    assert("GET"@[0] != "LPOP"@[0]);
    assert("GET"@[0] != "XADD"@[0]);
    assert("GET"@[0] != "XGROUPADD"@[0]);
    assert("GET"@[0] != "XREAD"@[0]);
    assert("GET"@[0] != "EXPIRE"@[0]);
    assert("*"@[0] != "GET"@[0]);
}

/// Reading a key back after `SET` gives the words that were set, joined by
/// spaces (for any key but `*`, which `GET` takes as "all keys").
pub proof fn set_then_get(
    set: Seq<&str>,
    get: Seq<&str>,
    m: Map<Seq<char>, ValueModel>,
    c: Map<Seq<char>, i64>,
    logging: bool,
    now: int,
    later: int,
)
    requires
        set.len() >= 3,
        get.len() == 2,
        get[1]@ == set[1]@,
        set[1]@ != "*"@,
    ensures
        ({
            let s = command_step("SET"@, set, m, c, logging, now);
            command_step("GET"@, get, s.store, s.expiry, logging, later).outcome == (OutcomeModel::Reply {
                text: "+"@ + "Result : "@ + joined_from(set, 2) + "\n"@,
                log: None,
            })
        }),
{
    lemma_names_differ();
    let s = command_step("SET"@, set, m, c, logging, now);
    let k = set[1]@;
    assert(s.store == m.insert(k, ValueModel::Text(joined_from(set, 2))));
    assert(s.store.dom().contains(k));
    assert(get_key_reply(s.store, k) =~= "+"@ + "Result : "@ + joined_from(set, 2) + "\n"@);
}

/// After `DEL`, the key is gone: reading it gives `$-1`.
pub proof fn del_then_get(
    del: Seq<&str>,
    get: Seq<&str>,
    m: Map<Seq<char>, ValueModel>,
    c: Map<Seq<char>, i64>,
    logging: bool,
    now: int,
    later: int,
)
    requires
        del.len() == 2,
        get.len() == 2,
        get[1]@ == del[1]@,
        del[1]@ != "*"@,
    ensures
        ({
            let s = command_step("DEL"@, del, m, c, logging, now);
            command_step("GET"@, get, s.store, s.expiry, logging, later).outcome == (OutcomeModel::Reply {
                text: "$-1\n"@,
                log: None,
            })
        }),
{
    lemma_names_differ();
    reveal_strlit("DEL");
    reveal_strlit("GET");
    reveal_strlit("SET");
    reveal_strlit("LPUSH");
    reveal_strlit("LPOP");
    reveal_strlit("XADD");
    reveal_strlit("XGROUPADD");
    reveal_strlit("XREAD");
    reveal_strlit("EXPIRE");
    assert("DEL"@[0] != "SET"@[0] && "DEL"@[0] != "LPUSH"@[0] && "DEL"@[0] != "LPOP"@[0] && "DEL"@[0] != "XADD"@[0]);
    assert("DEL"@[0] != "XGROUPADD"@[0] && "DEL"@[0] != "XREAD"@[0] && "DEL"@[0] != "EXPIRE"@[0] && "DEL"@[0] != "GET"@[0]);
    let s = command_step("DEL"@, del, m, c, logging, now);
    assert(s.store == m.remove(del[1]@));
    assert(!s.store.dom().contains(get[1]@));
}

/// After `FLUSH` the store is empty: `GET *` answers `$-1`.
pub proof fn flush_then_get_all(
    flush: Seq<&str>,
    get: Seq<&str>,
    m: Map<Seq<char>, ValueModel>,
    c: Map<Seq<char>, i64>,
    logging: bool,
    now: int,
    later: int,
)
    requires
        flush.len() == 1,
        get.len() == 2,
        get[1]@ == "*"@,
    ensures
        ({
            let s = command_step("FLUSH"@, flush, m, c, logging, now);
            &&& s.outcome == OutcomeModel::Flushed
            &&& command_step("GET"@, get, s.store, s.expiry, logging, later).outcome == (OutcomeModel::Reply {
                text: "$-1\n"@,
                log: None,
            })
        }),
{
    lemma_names_differ();
    reveal_strlit("FLUSH");
    reveal_strlit("SET");
    reveal_strlit("LPUSH");
    reveal_strlit("LPOP");
    reveal_strlit("XADD");
    reveal_strlit("XGROUPADD");
    reveal_strlit("XREAD");
    reveal_strlit("EXPIRE");
    reveal_strlit("GET");
    reveal_strlit("DEL");
    assert("FLUSH"@[0] != "SET"@[0] && "FLUSH"@[0] != "LPUSH"@[0] && "FLUSH"@[0] != "LPOP"@[0] && "FLUSH"@[0] != "XADD"@[0]);
    assert("FLUSH"@[0] != "XGROUPADD"@[0] && "FLUSH"@[0] != "XREAD"@[0] && "FLUSH"@[0] != "EXPIRE"@[0] && "FLUSH"@[0] != "GET"@[0]);
    assert("FLUSH"@[0] != "DEL"@[0]);
    let s = command_step("FLUSH"@, flush, m, c, logging, now);
    assert(s.store == Map::<Seq<char>, ValueModel>::empty());
}

/// Runs the commands `cmds` in order, without logging, from store `m` with
/// expiries `c`, the `i`-th at time `times[i]`: the store and expiries
/// they leave.
pub open spec fn run_commands(
    cmds: Seq<Seq<&str>>,
    times: Seq<int>,
    m: Map<Seq<char>, ValueModel>,
    c: Map<Seq<char>, i64>,
) -> (Map<Seq<char>, ValueModel>, Map<Seq<char>, i64>)
    decreases cmds.len(),
{
    if cmds.len() == 0 {
        (m, c)
    } else {
        let before = run_commands(cmds.drop_last(), times, m, c);
        let p = cmds.last();
        let step = command_step(command_word(p), p, before.0, before.1, false, times[cmds.len() - 1]);
        (step.store, step.expiry)
    }
}

/// A command that logs nothing, while logging is on, leaves the store and
/// the expiries as they were (`FLUSH` aside, which removes the log).
pub proof fn unlogged_command_changes_nothing(
    upper: Seq<char>,
    parts: Seq<&str>,
    m: Map<Seq<char>, ValueModel>,
    c: Map<Seq<char>, i64>,
    now: int,
)
    requires
        command_step(upper, parts, m, c, true, now).outcome matches OutcomeModel::Reply { log: None, .. },
    ensures
        command_step(upper, parts, m, c, true, now).store == m,
        command_step(upper, parts, m, c, true, now).expiry == c,
{
}

/// Two commands with the same words do the same to the store and the
/// expiries, whether they are logged or not.
pub proof fn same_words_same_step(
    p: Seq<&str>,
    q: Seq<&str>,
    m: Map<Seq<char>, ValueModel>,
    c: Map<Seq<char>, i64>,
    logging: bool,
    now: int,
)
    requires
        words_of(q) == words_of(p),
    ensures
        command_word(q) == command_word(p),
        command_step(command_word(q), q, m, c, false, now).store == command_step(command_word(p), p, m, c, logging, now).store,
        command_step(command_word(q), q, m, c, false, now).expiry == command_step(command_word(p), p, m, c, logging, now).expiry,
{
    assert(q.len() == words_of(q).len());
    assert(p.len() == words_of(p).len());
    assert forall|k: int| 0 <= k < p.len() implies #[trigger] q[k]@ == p[k]@ by {
        assert(words_of(q)[k] == q[k]@);
        assert(words_of(p)[k] == p[k]@);
    }
    if p.len() > 0 {
        assert(q[0]@ == p[0]@);
    }
    if p.len() > 1 {
        assert(q[1]@ == p[1]@);
    }
    if p.len() > 2 {
        assert(q[2]@ == p[2]@);
        assert(joined_from(q, 2) == joined_from(p, 2));
        assert(lpush_effect(m, c, q, now) == lpush_effect(m, c, p, now));
        assert(expire_effect(m, c, q, now) == expire_effect(m, c, p, now));
        assert(x_add_effect(m, q, now) == x_add_effect(m, p, now));
    }
    if p.len() > 4 {
        assert(q[3]@ == p[3]@);
        assert(q[4]@ == p[4]@);
        assert(x_group_add_effect(m, q) == x_group_add_effect(m, p));
    }
    if p.len() > 1 {
        assert(lpop_effect(m, q) == lpop_effect(m, p));
    }
}

/// Replaying the log rebuilds the store: when each logged command is made
/// of words, running again the words read back from their log lines, at
/// the same times, leaves the same store and expiries as running the
/// commands themselves.
pub proof fn replaying_log_rebuilds_store(
    cmds: Seq<Seq<&str>>,
    replayed: Seq<Seq<&str>>,
    times: Seq<int>,
    m: Map<Seq<char>, ValueModel>,
    c: Map<Seq<char>, i64>,
)
    requires
        replayed.len() == cmds.len(),
        forall|i: int, k: int| 0 <= i < cmds.len() && 0 <= k < cmds[i].len() ==> is_word(#[trigger] cmds[i][k]@),
        forall|i: int|
            0 <= i < cmds.len() ==> words_of(#[trigger] replayed[i]) == words(trim(log_line(cmds[i]))),
    ensures
        run_commands(replayed, times, m, c) == run_commands(cmds, times, m, c),
    decreases cmds.len(),
{
    if cmds.len() > 0 {
        let n = cmds.len() - 1;
        replaying_log_rebuilds_store(cmds.drop_last(), replayed.drop_last(), times, m, c);
        let before = run_commands(cmds.drop_last(), times, m, c);
        assert(replayed.drop_last().len() == n);
        assert(run_commands(replayed.drop_last(), times, m, c) == before);
        let p = cmds[n];
        let q = replayed[n];
        assert forall|k: int| 0 <= k < p.len() implies is_word(#[trigger] p[k]@) by {
            assert(is_word(cmds[n][k]@));
        }
        logged_line_replays(p);
        assert(words_of(q) == words_of(p));
        same_words_same_step(p, q, before.0, before.1, false, times[n]);
        assert(cmds.last() == p);
        assert(replayed.last() == q);
    }
}

} // verus!
