//! The commands on the store.
use vstd::prelude::*;
use crate::str_map::StrMap;
use crate::text_util::{text, parse_i64, parse_signed, parse_usize, parse_unsigned};
use crate::str_map::{ordered, concat, lemma_concat_push, lemma_mapped_pairs_ordered};
use crate::redis::display::display_text;
use crate::redis::stream::{read_window, read_entries, all_view, field_entries, lemma_all_view_ordered, lemma_read_sorted, EntryModel};
use crate::redis::stringify::{stringify, stringify_map, lemma_nested_pairs};
use crate::redis::types::{RedisValue, ValueType, ValueModel, Db, Cache, db_model, db_wf, value_model, value_wf};
use crate::redis::linked_list::LinkedList;
use crate::redis::vec_utils::{join_from, joined_from};
use crate::redis::clock::{now_millis, MAX_INSTANT_MILLIS, MIN_INSTANT_MILLIS};
use crate::redis::stream::{Stream, StreamFunctions, StreamModel, StreamEntry, stream_model, entry_id};
use crate::redis::consumer::{ConsumerGroup, GroupModel, ConsumerModel, Consumer, PendingEntry, PendingModel, group_model, consumer_model};
use crate::text_util::str_eq;
use crate::str_map::{pairs_map, seq_less};
use crate::redis::validator::words_of;
use crate::str_map::string_view;

verus! {

/// How long a key set by `SET` or created by `LPUSH` is kept: 144000 seconds.
pub const KEEP_MILLIS: i64 = 144_000_000;

/// The largest number of seconds a `chrono::TimeDelta` can hold.
pub const MAX_DELTA_SECONDS: i64 = 9_223_372_036_854_775;

/// Whether `s` is a number of seconds that `EXPIRE` takes.
pub open spec fn expire_seconds_ok(s: Seq<char>) -> bool {
    parse_signed(s) matches Some(v) && -MAX_DELTA_SECONDS <= v <= MAX_DELTA_SECONDS
}

/// The seconds an `EXPIRE` argument writes.
pub open spec fn expire_seconds(s: Seq<char>) -> int {
    parse_signed(s).unwrap()
}

/// The instant `secs` seconds after `base`.
pub open spec fn shifted(base: int, secs: int) -> int {
    base + secs * 1000
}

/// The fields that the words after a stream key and ID give, taken two by
/// two as name and value; a later name overrides an earlier one and a word
/// left without a value is dropped.
pub open spec fn fields_of(ws: Seq<Seq<char>>) -> Map<Seq<char>, Seq<char>>
    decreases ws.len(),
{
    if ws.len() < 2 {
        Map::empty()
    } else if ws.len() % 2 == 1 {
        fields_of(ws.drop_last())
    } else {
        fields_of(ws.take(ws.len() - 2)).insert(ws[ws.len() - 2], ws[ws.len() - 1])
    }
}

/// The stream `s` with one more entry, stamped `now`.
pub open spec fn with_entry(s: StreamModel, now: int, fields: Map<Seq<char>, Seq<char>>) -> StreamModel {
    StreamModel {
        entries: s.entries.insert(entry_id(now, s.next_number as nat), EntryModel::Fields(fields)),
        next_number: (s.next_number + 1) as u64,
        groups: s.groups,
    }
}

/// What `XADD` does at time `now` to store `m`: the store it leaves and
/// its answer.
pub open spec fn x_add_effect(m: Map<Seq<char>, ValueModel>, parts: Seq<&str>, now: int) -> (Map<Seq<char>, ValueModel>, Seq<char>) {
    let k = parts[1]@;
    let fields = fields_of(words_of(parts).skip(3));
    if m.dom().contains(k) {
        match m[k] {
            ValueModel::Stream(s) => (m.insert(k, ValueModel::Stream(with_entry(s, now, fields))), "+New Message Added"@),
            _ => (m, "-ERR wrong type\n"@),
        }
    } else {
        (m.insert(k, ValueModel::Stream(with_entry(empty_stream(), now, fields))), "+Ok Entry Added"@)
    }
}

/// What `LPUSH` does at time `now` to store `m` with expiries `c`: the
/// store and expiries it leaves and its answer.
pub open spec fn lpush_effect(m: Map<Seq<char>, ValueModel>, c: Map<Seq<char>, i64>, parts: Seq<&str>, now: int) -> (
    Map<Seq<char>, ValueModel>,
    Map<Seq<char>, i64>,
    Seq<char>,
) {
    let k = parts[1]@;
    let v = parts[2]@;
    if m.dom().contains(k) {
        match m[k] {
            ValueModel::List(l) => (m.insert(k, ValueModel::List(l.push(v))), c, "+OK\n"@),
            _ => (m, c, "-ERR wrong type\n"@),
        }
    } else {
        (m.insert(k, ValueModel::List(seq![v])), c.insert(k, (now + KEEP_MILLIS) as i64), "+Key Created\n"@)
    }
}

/// What `LPOP` does to store `m`: the store it leaves and its answer.
pub open spec fn lpop_effect(m: Map<Seq<char>, ValueModel>, parts: Seq<&str>) -> (Map<Seq<char>, ValueModel>, Seq<char>) {
    let k = parts[1]@;
    if !m.dom().contains(k) {
        (m, "-Key Does not Exist\n"@)
    } else {
        match m[k] {
            ValueModel::List(l) => if l.len() >= 2 {
                (if l[0].len() == 0 { m.remove(k) } else { m.insert(k, ValueModel::List(l.drop_last())) }, l.last())
            } else if l[0].len() == 0 {
                (m.remove(k), "-ERR empty list\n"@)
            } else {
                (m.remove(k), l[0])
            },
            _ => (m, "-ERR wrong type\n"@),
        }
    }
}

/// What `EXPIRE` does at time `now` to the expiries `c` of store `m`: the
/// expiries it leaves and its answer. A key the store does not hold is
/// refused. A key with an expiry has it moved; a key without one gets `now`
/// moved, unless that falls outside the instants `chrono` represents, which
/// is refused.
pub open spec fn expire_effect(m: Map<Seq<char>, ValueModel>, c: Map<Seq<char>, i64>, parts: Seq<&str>, now: int) -> (Map<Seq<char>, i64>, Seq<char>) {
    let k = parts[1]@;
    let secs = expire_seconds(parts[2]@);
    if !m.dom().contains(k) {
        (c, "+Value Does Not Exist\n"@)
    } else if c.dom().contains(k) {
        (c.insert(k, shifted(c[k] as int, secs) as i64), "+OK\n"@)
    } else if MIN_INSTANT_MILLIS <= shifted(now, secs) <= MAX_INSTANT_MILLIS {
        (c.insert(k, shifted(now, secs) as i64), "+OK\n"@)
    } else {
        (c, "-ERR invalid expire time\n"@)
    }
}

/// Whether `EXPIRE` can run on store `m` with expiries `c`: for a key the
/// store holds, the seconds are a number `chrono` takes, and an existing
/// expiry stays within its range.
pub open spec fn expire_fits(m: Map<Seq<char>, ValueModel>, c: Map<Seq<char>, i64>, parts: Seq<&str>) -> bool {
    m.dom().contains(parts[1]@) ==> {
        &&& expire_seconds_ok(parts[2]@)
        &&& c.dom().contains(parts[1]@) ==> MIN_INSTANT_MILLIS <= shifted(c[parts[1]@] as int, expire_seconds(parts[2]@))
            <= MAX_INSTANT_MILLIS
    }
}

/// What `XGROUPADD` does to store `m`: the store it leaves and its answer.
pub open spec fn x_group_add_effect(m: Map<Seq<char>, ValueModel>, parts: Seq<&str>) -> (Map<Seq<char>, ValueModel>, Seq<char>) {
    let k = parts[2]@;
    if m.dom().contains(k) {
        match m[k] {
            ValueModel::Stream(s) => (
                m.insert(k, ValueModel::Stream(StreamModel { groups: s.groups.insert(parts[3]@, new_group(parts[3]@, parts[4]@)), ..s })),
                "+New Group Added"@,
            ),
            _ => (m, "-ERR wrong type\n"@),
        }
    } else {
        (m, "Error Creating Consumer Group"@)
    }
}

/// What `XACK` does to store `m`: the store it leaves and its answer.
pub open spec fn x_ack_effect(m: Map<Seq<char>, ValueModel>, parts: Seq<&str>) -> (Map<Seq<char>, ValueModel>, Seq<char>) {
    let g = parts[1]@;
    let k = parts[2]@;
    let id = parts[3]@;
    if m.dom().contains(k) {
        match m[k] {
            ValueModel::Stream(s) => (
                if s.groups.dom().contains(g) {
                    m.insert(k, ValueModel::Stream(StreamModel { groups: s.groups.insert(g, acked(s.groups[g], id)), ..s }))
                } else {
                    m
                },
                "+ok"@,
            ),
            _ => (m, "-ERR wrong type\n"@),
        }
    } else {
        (m, "+Group Doesnt Exist"@)
    }
}

/// The answer to `XREAD` on store `m`.
pub open spec fn x_read_reply(m: Map<Seq<char>, ValueModel>, parts: Seq<&str>) -> Seq<char> {
    let k = parts[2]@;
    if m.dom().contains(k) {
        match m[k] {
            ValueModel::Stream(s) => read_text(s, parts[3]@, count_arg(parts)),
            _ => "-ERR wrong type\n"@,
        }
    } else {
        "+Not Ok"@
    }
}

/// The answer to `GET key` on store `m`.
pub open spec fn get_key_reply(m: Map<Seq<char>, ValueModel>, k: Seq<char>) -> Seq<char> {
    if m.dom().contains(k) {
        "+"@ + display_text(m[k]) + "\n"@
    } else {
        "$-1\n"@
    }
}

/// The answer to `GET *` on store `m`.
pub open spec fn get_all_reply(m: Map<Seq<char>, ValueModel>) -> Seq<char> {
    if m == Map::<Seq<char>, ValueModel>::empty() {
        "$-1\n"@
    } else {
        concat(key_lines(m))
    }
}

/// A group that has delivered up to `last` and has no consumers yet.
pub open spec fn new_group(name: Seq<char>, last: Seq<char>) -> GroupModel {
    GroupModel { name, last_delivered_id: last, consumers: Map::empty(), pending: Map::empty() }
}

/// The group `g` once entry `id` is acknowledged: it is pending nowhere.
pub open spec fn acked(g: GroupModel, id: Seq<char>) -> GroupModel {
    GroupModel {
        pending: g.pending.remove(id),
        consumers: g.consumers.map_values(
            |c: ConsumerModel| ConsumerModel { pending: c.pending.remove(id), ..c },
        ),
        ..g
    }
}

/// The limit an `XREAD` command gives: its fifth word, when that is a number.
pub open spec fn count_arg(parts: Seq<&str>) -> Option<usize> {
    if parts.len() >= 5 {
        match parse_unsigned(parts[4]@) {
            Some(v) => if v <= usize::MAX { Some(v as usize) } else { None },
            None => None,
        }
    } else {
        None
    }
}

/// The text of the entries of stream `s` after `start`, at most `count`.
pub open spec fn read_text(s: StreamModel, start: Seq<char>, count: Option<usize>) -> Seq<char> {
    stringify(
        read_entries(ordered(s.entries), start, count).map_values(
            |p: (Seq<char>, Map<Seq<char>, Seq<char>>)| (p.0, ordered(p.1)),
        ),
    )
}

/// The group `g` after consumer `c` was given the entries `ids` at time
/// `now`, `latest` being the newest entry of the stream: the group has
/// delivered up to `latest`, the consumer exists and has the entries
/// pending, and the group has each of them pending for the consumer.
pub open spec fn group_after_read(g: GroupModel, c: Seq<char>, ids: Set<Seq<char>>, latest: Seq<char>, now: u64) -> GroupModel {
    let base = if g.consumers.dom().contains(c) {
        g.consumers[c]
    } else {
        ConsumerModel { name: c, pending: Set::empty(), last_seen: 0 }
    };
    GroupModel {
        last_delivered_id: latest,
        consumers: g.consumers.insert(c, ConsumerModel { pending: base.pending.union(ids), ..base }),
        pending: g.pending.union_prefer_right(
            Map::new(
                |k: Seq<char>| ids.contains(k),
                |k: Seq<char>| PendingModel { entry_id: k, consumer_name: c, timestamp: now, delivery_count: 0 },
            ),
        ),
        ..g
    }
}

/// What reading stream `n` for consumer `c` of group `g` at time `now` does
/// to store `m`: the store it leaves and the text it adds to the answer.
pub open spec fn group_read_step(
    m: Map<Seq<char>, ValueModel>,
    n: Seq<char>,
    g: Seq<char>,
    c: Seq<char>,
    now: u64,
) -> (Map<Seq<char>, ValueModel>, Seq<char>) {
    if !m.dom().contains(n) {
        (m, "+OK Message"@)
    } else {
        match m[n] {
            ValueModel::Stream(s) => if s.groups.dom().contains(g) {
                let window = read_entries(ordered(s.entries), s.groups[g].last_delivered_id, None);
                let latest = ordered(s.entries).last().0;
                let group = group_after_read(s.groups[g], c, pairs_map(window).dom(), latest, now);
                (
                    m.insert(n, ValueModel::Stream(StreamModel { groups: s.groups.insert(g, group), ..s })),
                    stringify(window.map_values(|p: (Seq<char>, Map<Seq<char>, Seq<char>>)| (p.0, ordered(p.1)))),
                )
            } else {
                (m, "Group Doesnt not Exist"@)
            },
            _ => (m, "Wrong Error Type"@),
        }
    }
}

/// Whether reading stream `n` for group `g` can run on store `m`: a
/// stream that has the group holds at least one entry.
pub open spec fn group_read_fits(m: Map<Seq<char>, ValueModel>, n: Seq<char>, g: Seq<char>) -> bool {
    m.dom().contains(n) ==> (m[n] matches ValueModel::Stream(s) ==> (s.groups.dom().contains(g) ==> s.entries
        != Map::<Seq<char>, EntryModel>::empty()))
}

/// Reading one stream leaves every stream's entries as they were, so what
/// could be read before still can.
proof fn lemma_group_read_keeps_fit(
    m: Map<Seq<char>, ValueModel>,
    n: Seq<char>,
    g: Seq<char>,
    c: Seq<char>,
    now: u64,
    k: Seq<char>,
)
    requires
        group_read_fits(m, k, g),
    ensures
        group_read_fits(group_read_step(m, n, g, c, now).0, k, g),
{
}

/// Reading the streams `names` one after the other.
pub open spec fn group_read_all(
    m: Map<Seq<char>, ValueModel>,
    names: Seq<Seq<char>>,
    g: Seq<char>,
    c: Seq<char>,
    now: u64,
) -> (Map<Seq<char>, ValueModel>, Seq<char>)
    decreases names.len(),
{
    if names.len() == 0 {
        (m, Seq::empty())
    } else {
        let (m1, r1) = group_read_all(m, names.drop_last(), g, c, now);
        let (m2, r2) = group_read_step(m1, names.last(), g, c, now);
        (m2, r1 + r2)
    }
}

/// Where the stream names of an `XGROUPREAD` start: after `COUNT n STREAMS`
/// when the fifth word is `COUNT`, else after the `STREAMS` keyword that
/// takes the fifth place.
pub open spec fn names_start(parts: Seq<&str>) -> int {
    if parts[4]@ == "COUNT"@ { 7 } else { 5 }
}

/// Whether `i` is the first place of `">"` in `ws`.
pub open spec fn marker_at(ws: Seq<Seq<char>>, i: int) -> bool {
    0 <= i < ws.len() && ws[i] == ">"@ && forall|j: int| 0 <= j < i ==> #[trigger] ws[j] != ">"@
}

/// The stream names of an `XGROUPREAD`: the words from `names_start` up to the first `">"`.
pub open spec fn read_names(parts: Seq<&str>) -> Seq<Seq<char>> {
    let ws = words_of(parts).skip(names_start(parts));
    ws.take(choose|i: int| marker_at(ws, i))
}

/// The lines `GET *` shows: `key: value` for each key, in key order.
pub open spec fn key_lines(m: Map<Seq<char>, ValueModel>) -> Seq<Seq<char>> {
    ordered(m).map_values(|p: (Seq<char>, ValueModel)| p.0 + ": "@ + display_text(p.1) + "\n"@)
}

/// A stream that has no entries or groups yet.
pub open spec fn empty_stream() -> StreamModel {
    StreamModel { entries: Map::empty(), next_number: 0, groups: Map::empty() }
}

/// `LPOP` right after `LPUSH` on the same key takes the pushed value back
/// off and leaves the store as it was, when the key is new or holds a list
/// whose head is set, and the pushed value is not empty.
pub proof fn lpush_then_lpop(
    push: Seq<&str>,
    pop: Seq<&str>,
    m: Map<Seq<char>, ValueModel>,
    c: Map<Seq<char>, i64>,
    now: int,
)
    requires
        push.len() >= 3,
        pop.len() >= 2,
        pop[1]@ == push[1]@,
        push[2]@.len() > 0,
        m.dom().contains(push[1]@) ==> (m[push[1]@] matches ValueModel::List(l) && l.len() >= 1 && l[0].len() > 0),
    ensures
        lpop_effect(lpush_effect(m, c, push, now).0, pop) == (m, push[2]@),
{
    let k = push[1]@;
    let v = push[2]@;
    let pushed = lpush_effect(m, c, push, now).0;
    if m.dom().contains(k) {
        let l = m[k]->List_0;
        assert(l.push(v).drop_last() =~= l);
        assert(l.push(v)[0] == l[0]);
        assert(pushed[k] == ValueModel::List(l.push(v)));
        assert(pushed.insert(k, ValueModel::List(l)) =~= m);
    } else {
        assert(pushed.remove(k) =~= m);
        assert(seq![v][0] == v);
    }
}

/// Reading a stream for a group again, with no entry added since, delivers
/// nothing: the answer is `{}`, and the group's pending entries and last
/// delivered ID stay as the first read left them.
pub proof fn group_read_again_delivers_nothing(
    db: Db,
    n: Seq<char>,
    g: Seq<char>,
    c: Seq<char>,
    now: u64,
    c2: Seq<char>,
    later: u64,
)
    requires
        db_wf(db),
        group_read_fits(db_model(db), n, g),
        db_model(db).dom().contains(n),
        db_model(db)[n] matches ValueModel::Stream(s) && s.groups.dom().contains(g),
    ensures
        ({
            let first = group_read_step(db_model(db), n, g, c, now).0;
            let second = group_read_step(first, n, g, c2, later);
            &&& second.1 == "{}"@
            &&& second.0[n] matches ValueModel::Stream(s2) && first[n] matches ValueModel::Stream(s1) && s2.entries
                == s1.entries && s2.groups[g].pending == s1.groups[g].pending && s2.groups[g].last_delivered_id
                == s1.groups[g].last_delivered_id
        }),
{
    let m = db_model(db);
    let v = db.map()[n];
    assert(db.map().dom().contains(n));
    assert(value_wf(v));
    let st = v.value->Stream_0;
    let s = stream_model(st);
    lemma_all_view_ordered(st);
    let ev = ordered(s.entries);
    if ev.len() == 0 {
        crate::str_map::lemma_pairs_map_all(st.entries.pairs());
        assert(st.entries.pairs().len() == 0);
        assert(st.entries.map() =~= Map::<Seq<char>, StreamEntry>::empty());
        assert(s.entries =~= Map::<Seq<char>, EntryModel>::empty());
    }
    let latest = ev.last().0;
    let first = group_read_step(m, n, g, c, now).0;
    let s1 = first[n]->Stream_0;
    assert(s1.entries == s.entries);
    assert(s1.groups[g].last_delivered_id == latest);
    let len = ev.len() as int;
    assert forall|j: int| 0 <= j < len implies !seq_less(latest, #[trigger] ev[j].0) by {
        if j < len - 1 {
            crate::str_map::lemma_less_asymmetric(ev[j].0, latest);
        } else {
            crate::str_map::lemma_less_irreflexive(latest);
        }
    }
    let fe = field_entries(ev);
    crate::redis::stream::lemma_field_entries_ids(ev);
    assert forall|j: int| 0 <= j < fe.len() implies !seq_less(latest, #[trigger] fe[j].0) by {
        let k = choose|k: int| 0 <= k < ev.len() && #[trigger] ev[k].0 == (#[trigger] fe[j]).0 && ev[k].1 == EntryModel::Fields(fe[j].1);
        assert(!seq_less(latest, ev[k].0));
    }
    assert(crate::redis::stream::splits_at(fe, latest, fe.len() as int));
    crate::redis::stream::lemma_split_unique(fe, latest, fe.len() as int);
    let window = read_entries(ev, latest, None);
    assert(window =~= Seq::<(Seq<char>, Map<Seq<char>, Seq<char>>)>::empty());
    let second = group_read_step(first, n, g, c2, later);
    assert(second.1 =~= "{}"@) by {
        reveal_strlit("{}");
    }
    assert(pairs_map(window) =~= Map::<Seq<char>, Map<Seq<char>, Seq<char>>>::empty());
    let s2 = second.0[n]->Stream_0;
    assert(s2.groups[g].pending =~= s1.groups[g].pending);
}

/// Two group reads in a row of the one stream `n` (as `XGROUPREAD`
/// naming only that stream does, the way `x_group_read` states it), with no
/// entry added between: the second delivers nothing, answering `{}`, and
/// leaves the group's pending entries and last delivered ID as they were.
pub proof fn group_reads_deliver_once(
    db: Db,
    n: Seq<char>,
    g: Seq<char>,
    c: Seq<char>,
    now: u64,
    c2: Seq<char>,
    later: u64,
)
    requires
        db_wf(db),
        group_read_fits(db_model(db), n, g),
        db_model(db).dom().contains(n),
        db_model(db)[n] matches ValueModel::Stream(s) && s.groups.dom().contains(g),
    ensures
        ({
            let first = group_read_all(db_model(db), seq![n], g, c, now);
            let second = group_read_all(first.0, seq![n], g, c2, later);
            &&& second.1 == "{}"@
            &&& second.0[n] matches ValueModel::Stream(s2) && first.0[n] matches ValueModel::Stream(s1) && s2.entries
                == s1.entries && s2.groups[g].pending == s1.groups[g].pending && s2.groups[g].last_delivered_id
                == s1.groups[g].last_delivered_id
        }),
{
    let names = seq![n];
    assert(names.drop_last() =~= Seq::<Seq<char>>::empty());
    assert(names.last() == n);
    let m = db_model(db);
    let step1 = group_read_step(m, n, g, c, now);
    assert(group_read_all(m, names.drop_last(), g, c, now) == (m, Seq::<char>::empty()));
    assert(group_read_all(m, names, g, c, now) == (step1.0, Seq::<char>::empty() + step1.1));
    let step2 = group_read_step(step1.0, n, g, c2, later);
    assert(group_read_all(step1.0, names.drop_last(), g, c2, later) == (step1.0, Seq::<char>::empty()));
    assert(group_read_all(step1.0, names, g, c2, later) == (step2.0, Seq::<char>::empty() + step2.1));
    group_read_again_delivers_nothing(db, n, g, c, now, c2, later);
    assert(Seq::<char>::empty() + step2.1 =~= step2.1);
}

/// `XACK group stream id` on a stream that has the group takes `id` off the
/// group's pending entries and off every consumer's pending set, and leaves
/// every other entry `e` pending exactly where it was: in the group with the
/// same delivery, and for each consumer.
pub proof fn ack_removes_only_that_entry(
    m: Map<Seq<char>, ValueModel>,
    parts: Seq<&str>,
    e: Seq<char>,
    name: Seq<char>,
)
    requires
        parts.len() >= 4,
        m.dom().contains(parts[2]@),
        m[parts[2]@] matches ValueModel::Stream(s) && s.groups.dom().contains(parts[1]@),
    ensures
        ({
            let id = parts[3]@;
            let before = m[parts[2]@]->Stream_0.groups[parts[1]@];
            let after_store = x_ack_effect(m, parts).0;
            let after = after_store[parts[2]@]->Stream_0.groups[parts[1]@];
            &&& x_ack_effect(m, parts).1 == "+ok"@
            &&& after_store.dom().contains(parts[2]@) && after_store[parts[2]@] is Stream
            &&& after_store[parts[2]@]->Stream_0.groups.dom().contains(parts[1]@)
            &&& !after.pending.dom().contains(id)
            &&& e != id ==> (after.pending.dom().contains(e) <==> before.pending.dom().contains(e))
            &&& e != id && before.pending.dom().contains(e) ==> after.pending[e] == before.pending[e]
            &&& after.consumers.dom() == before.consumers.dom()
            &&& before.consumers.dom().contains(name) ==> !after.consumers[name].pending.contains(id)
            &&& before.consumers.dom().contains(name) && e != id ==> (after.consumers[name].pending.contains(e)
                <==> before.consumers[name].pending.contains(e))
        }),
{
    let id = parts[3]@;
    let before = m[parts[2]@]->Stream_0.groups[parts[1]@];
    let after = acked(before, id);
    assert(after.consumers.dom() =~= before.consumers.dom());
}

/// After a group read that delivers the entries `ids` to consumer `c` at
/// time `now`, every delivered entry is pending in the group for `c`,
/// stamped `now` and delivered once, and is in `c`'s pending set, whether
/// or not `c` existed before; `c` keeps what it had pending; an entry not
/// delivered keeps its pending state; other consumers are untouched; and
/// the group has delivered up to `latest`.
pub proof fn read_records_every_delivery(
    g: GroupModel,
    c: Seq<char>,
    ids: Set<Seq<char>>,
    latest: Seq<char>,
    now: u64,
    e: Seq<char>,
    other: Seq<char>,
)
    ensures
        ({
            let a = group_after_read(g, c, ids, latest, now);
            &&& a.last_delivered_id == latest
            &&& a.consumers.dom().contains(c)
            &&& ids.contains(e) ==> a.pending.dom().contains(e) && a.pending[e] == (PendingModel {
                entry_id: e,
                consumer_name: c,
                timestamp: now,
                delivery_count: 0,
            }) && a.consumers[c].pending.contains(e)
            &&& !ids.contains(e) ==> (a.pending.dom().contains(e) <==> g.pending.dom().contains(e))
            &&& !ids.contains(e) && g.pending.dom().contains(e) ==> a.pending[e] == g.pending[e]
            &&& g.consumers.dom().contains(c) && g.consumers[c].pending.contains(e) ==> a.consumers[c].pending.contains(e)
            &&& other != c ==> (a.consumers.dom().contains(other) <==> g.consumers.dom().contains(other))
            &&& other != c && g.consumers.dom().contains(other) ==> a.consumers[other] == g.consumers[other]
        }),
{
}

/// The field map of an `XADD` command.
fn fields_from(parts: &Vec<&str>) -> (r: StrMap<String>)
    requires
        parts@.len() >= 3,
    ensures
        r.wf(),
        string_view(r) == fields_of(words_of(parts@).skip(3)),
{
    let ghost ws = words_of(parts@).skip(3);
    let mut hash_map: StrMap<String> = StrMap::new();
    let mut i: usize = 3;
    proof {
        assert(string_view(hash_map) =~= Map::<Seq<char>, Seq<char>>::empty());
        assert(ws.take(0).len() == 0);
    }
    while i < parts.len() - 1
        invariant
            3 <= i <= parts@.len(),
            (i - 3) % 2 == 0,
            ws == words_of(parts@).skip(3),
            hash_map.wf(),
            string_view(hash_map) == fields_of(ws.take(i - 3)),
        decreases parts@.len() - i,
    {
        let ghost before = string_view(hash_map);
        hash_map.insert(text(parts[i]), text(parts[i + 1]));
        proof {
            let t = ws.take(i + 2 - 3);
            assert(t.take(t.len() - 2) =~= ws.take(i - 3));
            assert(t[t.len() - 2] == parts@[i as int]@);
            assert(t[t.len() - 1] == parts@[i + 1]@);
            assert(string_view(hash_map) =~= before.insert(parts@[i as int]@, parts@[i + 1]@));
        }
        i = i + 2;
    }
    proof {
        if i < parts@.len() {
            let t = ws.take(i + 1 - 3);
            assert(t.drop_last() =~= ws.take(i - 3));
            assert(t =~= ws);
        } else {
            assert(ws.take(i - 3) =~= ws);
        }
    }
    hash_map
}

/// Drops entry `id` from the pending deliveries of `group` and of each of its consumers.
fn ack_group(group: &mut ConsumerGroup, id: &str)
    requires
        old(group).wf(),
    ensures
        final(group).wf(),
        group_model(*final(group)) == acked(group_model(*old(group)), id@),
{
    let ghost start = *group;
    group.pending.remove(id);
    let keys = group.consumers.keys();
    let ghost ks = start.consumers.pairs();
    proof {
        crate::str_map::lemma_pairs_map_all(ks);
    }
    let n = keys.len();
    let mut j: usize = 0;
    while j < n
        invariant
            n == keys@.len(),
            n == ks.len(),
            ks == start.consumers.pairs(),
            crate::str_map::sorted_pairs(ks),
            forall|i: int| 0 <= i < n ==> (#[trigger] keys@[i])@ == ks[i].0,
            forall|i: int| #![trigger ks[i]] 0 <= i < n ==> start.consumers.map().dom().contains(ks[i].0) && start.consumers.map()[ks[i].0] == ks[i].1,
            j <= n,
            group.consumers.wf(),
            group.pending.wf(),
            group.pending.map() == start.pending.map().remove(id@),
            group.name == start.name,
            group.last_delivered_id == start.last_delivered_id,
            group.consumers.map().dom() == start.consumers.map().dom(),
            forall|i: int| #![trigger ks[i]] 0 <= i < j ==> {
                &&& group.consumers.map()[ks[i].0].pending.wf()
                &&& consumer_model(group.consumers.map()[ks[i].0]) == (ConsumerModel {
                    pending: consumer_model(ks[i].1).pending.remove(id@),
                    ..consumer_model(ks[i].1)
                })
            },
            forall|i: int| #![trigger ks[i]] j <= i < n ==> group.consumers.map()[ks[i].0] == ks[i].1,
            forall|k: Seq<char>| #[trigger] start.consumers.map().dom().contains(k) ==> start.consumers.map()[k].pending.wf(),
        decreases n - j,
    {
        let ghost before = group.consumers.map();
        let key = &keys[j];
        proof {
            assert(before[ks[j as int].0] == ks[j as int].1);
        }
        match group.consumers.remove(key.as_str()) {
            Some(mut consumer) => {
                let ghost old_c = consumer;
                consumer.pending.remove(id);
                proof {
                    assert(consumer.pending.map().dom() =~= old_c.pending.map().dom().remove(id@));
                    assert(consumer_model(consumer) == (ConsumerModel {
                        pending: consumer_model(ks[j as int].1).pending.remove(id@),
                        ..consumer_model(ks[j as int].1)
                    }));
                }
                group.consumers.insert(key.clone(), consumer);
                proof {
                    assert(group.consumers.map() =~= before.insert(ks[j as int].0, consumer));
                    assert forall|i: int| #![trigger ks[i]] 0 <= i < n && i != j implies ks[i].0 != ks[j as int].0 by {
                        crate::str_map::lemma_less_irreflexive(ks[i].0);
                        if i < j {
                            assert(crate::str_map::seq_less(ks[i].0, ks[j as int].0));
                        } else {
                            assert(crate::str_map::seq_less(ks[j as int].0, ks[i].0));
                        }
                    }
                    assert(group.consumers.map().dom() =~= start.consumers.map().dom());
                }
            },
            None => {
                assert(false);
            },
        }
        j = j + 1;
    }
    proof {
        let g1 = group_model(*group);
        let g2 = acked(group_model(start), id@);
        assert(g1.pending =~= g2.pending);
        assert forall|k: Seq<char>| g1.consumers.dom().contains(k) implies g1.consumers[k] == g2.consumers[k] by {
            let i = choose|i: int| 0 <= i < ks.len() && #[trigger] ks[i].0 == k;
            assert(ks[i].0 == k);
        }
        assert(g1.consumers =~= g2.consumers);
        assert forall|k: Seq<char>| #[trigger] group.consumers.map().dom().contains(k) implies group.consumers.map()[k].pending.wf() by {
            let i = choose|i: int| 0 <= i < ks.len() && #[trigger] ks[i].0 == k;
            assert(ks[i].0 == k);
        }
    }
}

/// Records that consumer `c` of `group` was given the entries `keys` at
/// time `now`, the stream's newest entry being `latest`.
fn record_delivery(group: &mut ConsumerGroup, c: &str, keys: &Vec<String>, latest: String, now: u64)
    requires
        old(group).wf(),
    ensures
        final(group).wf(),
        group_model(*final(group)) == group_after_read(
            group_model(*old(group)),
            c@,
            keys@.map_values(|k: String| k@).to_set(),
            latest@,
            now,
        ),
{
    let ghost start = *group;
    let ghost ids = keys@.map_values(|k: String| k@).to_set();
    let mut consumer = match group.consumers.remove(c) {
        Some(existing) => existing,
        None => Consumer { name: text(c), pending: StrMap::new(), last_seen: 0 },
    };
    let ghost base = consumer_model(consumer);
    proof {
        if start.consumers.map().dom().contains(c@) {
            assert(consumer == start.consumers.map()[c@]);
        } else {
            assert(consumer_model(consumer).pending =~= Set::<Seq<char>>::empty());
        }
    }
    let ghost latest_view = latest@;
    group.last_delivered_id = latest;
    let n = keys.len();
    let mut i: usize = 0;
    proof {
        assert(keys@.take(0).map_values(|k: String| k@).to_set() =~= Set::<Seq<char>>::empty());
        assert(base.pending.union(Set::<Seq<char>>::empty()) =~= base.pending);
        assert(group_model(start).pending.union_prefer_right(
            Map::new(
                |k: Seq<char>| keys@.take(0).map_values(|k: String| k@).to_set().contains(k),
                |k: Seq<char>| PendingModel { entry_id: k, consumer_name: c@, timestamp: now, delivery_count: 0 },
            ),
        ) =~= group_model(start).pending);
    }
    while i < n
        invariant
            n == keys@.len(),
            i <= n,
            group.consumers.wf(),
            group.consumers.map() == start.consumers.map().remove(c@),
            group.name == start.name,
            group.last_delivered_id@ == latest_view,
            forall|k: Seq<char>| #[trigger] start.consumers.map().dom().contains(k) ==> start.consumers.map()[k].pending.wf(),
            group.pending.wf(),
            consumer.pending.wf(),
            group_model(*group).pending == group_model(start).pending.union_prefer_right(
                Map::new(
                    |k: Seq<char>| keys@.take(i as int).map_values(|k: String| k@).to_set().contains(k),
                    |k: Seq<char>| PendingModel { entry_id: k, consumer_name: c@, timestamp: now, delivery_count: 0 },
                ),
            ),
            consumer_model(consumer) == (ConsumerModel {
                pending: base.pending.union(keys@.take(i as int).map_values(|k: String| k@).to_set()),
                ..base
            }),
        decreases n - i,
    {
        let ghost before_pending = group_model(*group).pending;
        let ghost before_set = consumer.pending.map().dom();
        let key = &keys[i];
        group.pending.insert(
            key.clone(),
            PendingEntry { entry_id: key.clone(), consumer_name: text(c), timestamp: now, delivery_count: 0 },
        );
        consumer.pending.insert(key.clone(), ());
        proof {
            let prev = keys@.take(i as int).map_values(|k: String| k@);
            let next = keys@.take(i + 1).map_values(|k: String| k@);
            assert(next =~= prev.push(key@));
            assert forall|x: Seq<char>| next.to_set().contains(x) <==> prev.to_set().insert(key@).contains(x) by {
                if next.to_set().contains(x) && x != key@ {
                    let j = choose|j: int| 0 <= j < next.len() && next[j] == x;
                    assert(prev[j] == x);
                }
                if prev.to_set().contains(x) {
                    let j = choose|j: int| 0 <= j < prev.len() && prev[j] == x;
                    assert(next[j] == x);
                }
                if x == key@ {
                    assert(next[i as int] == x);
                }
            }
            assert(next.to_set() =~= prev.to_set().insert(key@));
            let entry = PendingModel { entry_id: key@, consumer_name: c@, timestamp: now, delivery_count: 0 };
            assert(group_model(*group).pending =~= before_pending.insert(key@, entry));
            assert(group_model(*group).pending =~= group_model(start).pending.union_prefer_right(
                Map::new(
                    |k: Seq<char>| next.to_set().contains(k),
                    |k: Seq<char>| PendingModel { entry_id: k, consumer_name: c@, timestamp: now, delivery_count: 0 },
                ),
            ));
            assert(consumer.pending.map().dom() =~= before_set.insert(key@));
            assert(consumer_model(consumer).pending =~= base.pending.union(next.to_set()));
        }
        i = i + 1;
    }
    let ghost mid_consumers = group.consumers.map();
    group.consumers.insert(text(c), consumer);
    proof {
        assert(keys@.take(n as int) =~= keys@);
        let g1 = group_model(*group);
        let g2 = group_after_read(group_model(start), c@, ids, latest_view, now);
        assert(g1.consumers =~= g2.consumers);
        assert(g1.pending =~= g2.pending);
        assert forall|k: Seq<char>| #[trigger] group.consumers.map().dom().contains(k) implies group.consumers.map()[k].pending.wf() by {
            if k != c@ {
                assert(start.consumers.map().dom().contains(k));
            }
        }
    }
}

/// Reads stream `name` for consumer `consumer_name` of group `group_name`
/// at time `now`, adding the answer to `out`.
fn group_read_one(db: &mut Db, name: &str, group_name: &str, consumer_name: &str, now: u64, out: &mut String)
    requires
        db_wf(*old(db)),
        group_read_fits(db_model(*old(db)), name@, group_name@),
    ensures
        db_wf(*final(db)),
        db_model(*final(db)) == group_read_step(db_model(*old(db)), name@, group_name@, consumer_name@, now).0,
        final(out)@ == old(out)@ + group_read_step(db_model(*old(db)), name@, group_name@, consumer_name@, now).1,
{
    let ghost before = *db;
    match db.remove(name) {
        None => {
            assert(db.map() =~= before.map());
            out.append("+OK Message");
        },
        Some(mut redis_value) => {
            let ghost old_value = redis_value;
            proof {
                assert(before.map().dom().contains(name@));
                assert(value_wf(old_value));
            }
            match &mut redis_value.value {
                ValueType::Stream(stream) => {
                    let ghost old_stream = *stream;
                    match stream.consumer_groups.remove(group_name) {
                        Some(mut group) => {
                            proof {
                                assert(old_stream.consumer_groups.map().dom().contains(group_name@));
                                assert(group.wf());
                            }
                            proof {
                                if old_stream.entries.pairs().len() == 0 {
                                    assert(old_stream.entries.map() =~= Map::<Seq<char>, StreamEntry>::empty());
                                    assert(stream_model(old_stream).entries =~= Map::<Seq<char>, EntryModel>::empty());
                                }
                            }
                            let last = group.last_delivered_id.clone();
                            let response = stream.x_read(last.as_str(), None);
                            let latest = stream.entries.key_at(stream.entries.len() - 1).clone();
                            let keys = response.keys();
                            let ghost sm = stream_model(old_stream);
                            let ghost window = read_entries(all_view(old_stream), last@, None);
                            proof {
                                lemma_all_view_ordered(old_stream);
                                lemma_read_sorted(all_view(old_stream), last@, None);
                                lemma_nested_pairs(response, window);
                                crate::str_map::lemma_pairs_map_all(response.pairs());
                                let kv = keys@.map_values(|k: String| k@);
                                let ks = kv.to_set();
                                assert forall|x: Seq<char>| ks.contains(x) <==> pairs_map(window).dom().contains(x) by {
                                    if ks.contains(x) {
                                        let j = choose|j: int| 0 <= j < kv.len() && #[trigger] kv[j] == x;
                                        assert(keys@[j]@ == response.pairs()[j].0);
                                        assert(response.map().dom().contains(x));
                                        assert(crate::redis::stream::nested_view(response).dom().contains(x));
                                    }
                                    if pairs_map(window).dom().contains(x) {
                                        assert(crate::redis::stream::nested_view(response).dom().contains(x));
                                        assert(response.map().dom().contains(x));
                                        let j = choose|j: int| 0 <= j < response.pairs().len() && #[trigger] response.pairs()[j].0 == x;
                                        assert(kv[j] == x);
                                    }
                                }
                                assert(ks =~= pairs_map(window).dom());
                                let ev = all_view(old_stream);
                                assert(latest@ == ev[ev.len() - 1].0);
                                assert(group_model(group).last_delivered_id == sm.groups[group_name@].last_delivered_id);
                                assert(group_model(group) == sm.groups[group_name@]);
                            }
                            let ghost latest_v = latest@;
                            let ghost keys_v = keys@.map_values(|k: String| k@).to_set();
                            record_delivery(&mut group, consumer_name, &keys, latest, now);
                            stream.consumer_groups.insert(text(group_name), group);
                            let text_out = stringify_map(&response);
                            out.append(text_out.as_str());
                            proof {
                                assert(stream.consumer_groups.map() =~= old_stream.consumer_groups.map().insert(group_name@, group));
                                assert(stream_model(*stream).entries =~= sm.entries);
                                let ev = ordered(sm.entries);
                                assert(latest_v == ev.last().0);
                                assert(keys_v == pairs_map(read_entries(ev, sm.groups[group_name@].last_delivered_id, None)).dom());
                                let gm = group_after_read(sm.groups[group_name@], consumer_name@, keys_v, latest_v, now);
                                assert(group_model(group) == gm);
                                assert(stream_model(*stream).groups =~= sm.groups.insert(group_name@, gm));
                                assert forall|k: Seq<char>| #[trigger] stream.consumer_groups.map().dom().contains(k) implies stream.consumer_groups.map()[k].wf() by {
                                    if k != group_name@ {
                                        assert(old_stream.consumer_groups.map().dom().contains(k));
                                    }
                                }
                            }
                        },
                        None => {
                            proof {
                                assert(stream.consumer_groups.map() =~= old_stream.consumer_groups.map());
                                assert(stream_model(*stream).groups =~= stream_model(old_stream).groups);
                                assert(stream_model(*stream).entries =~= stream_model(old_stream).entries);
                            }
                            out.append("Group Doesnt not Exist");
                        },
                    }
                },
                _ => {
                    out.append("Wrong Error Type");
                },
            }
            db.insert(text(name), redis_value);
            proof {
                assert(db.map() =~= before.map().insert(name@, redis_value));
                lemma_model_insert(before, *db, name@, redis_value);
                lemma_wf_insert(before, *db, name@, redis_value);
                if value_model(redis_value) == value_model(old_value) {
                    assert(db_model(before).insert(name@, value_model(old_value)) =~= db_model(before));
                }
            }
        },
    }
}

/// Storing `v` under `k` changes the model at `k` only.
proof fn lemma_model_insert(before: Db, after: Db, k: Seq<char>, v: RedisValue)
    requires
        after.map() == before.map().insert(k, v),
    ensures
        db_model(after) == db_model(before).insert(k, value_model(v)),
{
    assert(db_model(after) =~= db_model(before).insert(k, value_model(v)));
}

/// Removing `k` removes it from the model.
proof fn lemma_model_remove(before: Db, after: Db, k: Seq<char>)
    requires
        after.map() == before.map().remove(k),
    ensures
        db_model(after) == db_model(before).remove(k),
{
    assert(db_model(after) =~= db_model(before).remove(k));
}

proof fn lemma_wf_insert(before: Db, after: Db, k: Seq<char>, v: RedisValue)
    requires
        db_wf(before),
        after.wf(),
        after.map() == before.map().insert(k, v),
        value_wf(v),
    ensures
        db_wf(after),
{
    assert forall|x: Seq<char>| #[trigger] after.map().dom().contains(x) implies value_wf(after.map()[x]) by {
        if x != k {
            assert(before.map().dom().contains(x));
        }
    }
}

proof fn lemma_wf_remove(before: Db, after: Db, k: Seq<char>)
    requires
        db_wf(before),
        after.wf(),
        after.map() == before.map().remove(k),
    ensures
        db_wf(after),
{
    assert forall|x: Seq<char>| #[trigger] after.map().dom().contains(x) implies value_wf(after.map()[x]) by {
        assert(before.map().dom().contains(x));
    }
}

impl RedisValue {
    /// `SET key words...` at time `now`: the key holds the words after it,
    /// joined by spaces, and expires `KEEP_MILLIS` after `now`.
    pub fn set_at(parts: Vec<&str>, db: &mut Db, cache: &mut Cache, now: i64) -> (r: String)
        requires
            parts@.len() >= 2,
            db_wf(*old(db)),
            old(cache).wf(),
            now <= MAX_INSTANT_MILLIS,
        ensures
            db_wf(*final(db)),
            final(cache).wf(),
            db_model(*final(db)) == db_model(*old(db)).insert(parts@[1]@, ValueModel::Text(joined_from(parts@, 2))),
            final(cache).map() == old(cache).map().insert(parts@[1]@, (now + KEEP_MILLIS) as i64),
            r@ == "+OK\n"@,
    {
        let ghost before = *db;
        let value = RedisValue { value: ValueType::String(join_from(&parts, 2)) };
        db.insert(text(parts[1]), value);
        proof {
            lemma_model_insert(before, *db, parts@[1]@, value);
            lemma_wf_insert(before, *db, parts@[1]@, value);
        }
        cache.insert(text(parts[1]), now + KEEP_MILLIS);
        text("+OK\n")
    }

    /// `SET key words...`: as `set_at`, at the current time.
    pub fn set(parts: Vec<&str>, db: &mut Db, cache: &mut Cache) -> (r: String)
        requires
            parts@.len() >= 2,
            db_wf(*old(db)),
            old(cache).wf(),
        ensures
            db_wf(*final(db)),
            final(cache).wf(),
            db_model(*final(db)) == db_model(*old(db)).insert(parts@[1]@, ValueModel::Text(joined_from(parts@, 2))),
            exists|now: int|
                MIN_INSTANT_MILLIS <= now <= MAX_INSTANT_MILLIS && final(cache).map() == old(cache).map().insert(
                    parts@[1]@,
                    #[trigger] ((now + KEEP_MILLIS) as i64),
                ),
            r@ == "+OK\n"@,
    {
        let now = now_millis();
        Self::set_at(parts, db, cache, now)
    }

    /// `DEL key`: `":1\n"` when the key was there, `":0\n"` when not.
    pub fn remove(parts: Vec<&str>, db: &mut Db) -> (r: String)
        requires
            parts@.len() >= 2,
            db_wf(*old(db)),
        ensures
            db_wf(*final(db)),
            db_model(*final(db)) == db_model(*old(db)).remove(parts@[1]@),
            r@ == (if db_model(*old(db)).dom().contains(parts@[1]@) { ":1\n"@ } else { ":0\n"@ }),
    {
        let ghost before = *db;
        let removed = db.remove(parts[1]);
        proof {
            lemma_model_remove(before, *db, parts@[1]@);
            lemma_wf_remove(before, *db, parts@[1]@);
        }
        if removed.is_some() {
            text(":1\n")
        } else {
            text(":0\n")
        }
    }

    /// `LPUSH key value` at time `now`: appends the value to the list under
    /// the key, or creates the list (which then expires `KEEP_MILLIS` after
    /// `now`); a key holding another kind of value is left as it is.
    pub fn lpush_at(parts: Vec<&str>, db: &mut Db, cache: &mut Cache, now: i64) -> (r: String)
        requires
            parts@.len() >= 3,
            db_wf(*old(db)),
            old(cache).wf(),
            now <= MAX_INSTANT_MILLIS,
        ensures
            db_wf(*final(db)),
            final(cache).wf(),
            (db_model(*final(db)), final(cache).map(), r@) == lpush_effect(
                db_model(*old(db)),
                old(cache).map(),
                parts@,
                now as int,
            ),
    {
        let key = parts[1];
        let value = text(parts[2]);
        let ghost before = *db;
        match db.remove(key) {
            Some(mut redis_value) => {
                let ghost old_value = redis_value;
                let response = match &mut redis_value.value {
                    ValueType::LinkedList(list) => {
                        list.append(value);
                        text("+OK\n")
                    },
                    _ => text("-ERR wrong type\n"),
                };
                let ghost mid = db.map();
                db.insert(text(key), redis_value);
                proof {
                    assert(db.map() =~= before.map().insert(key@, redis_value));
                    lemma_model_insert(before, *db, key@, redis_value);
                    assert(before.map().dom().contains(key@));
                    assert(value_wf(redis_value));
                    lemma_wf_insert(before, *db, key@, redis_value);
                    if !(old_value.value is LinkedList) {
                        assert(redis_value == old_value);
                        assert(db.map() =~= before.map());
                        assert(db_model(*db) =~= db_model(before));
                    }
                }
                response
            },
            None => {
                assert(db.map() =~= before.map());
                let list = LinkedList::new(value);
                let redis_value = RedisValue { value: ValueType::LinkedList(list) };
                db.insert(text(key), redis_value);
                proof {
                    lemma_model_insert(before, *db, key@, redis_value);
                    lemma_wf_insert(before, *db, key@, redis_value);
                }
                cache.insert(text(key), now + KEEP_MILLIS);
                text("+Key Created\n")
            },
        }
    }

    /// `LPUSH key value`: as `lpush_at`, at the current time.
    pub fn lpush(parts: Vec<&str>, db: &mut Db, cache: &mut Cache) -> (r: String)
        requires
            parts@.len() >= 3,
            db_wf(*old(db)),
            old(cache).wf(),
        ensures
            db_wf(*final(db)),
            final(cache).wf(),
            exists|now: int|
                MIN_INSTANT_MILLIS <= now <= MAX_INSTANT_MILLIS && (db_model(*final(db)), final(cache).map(), r@) == #[trigger] lpush_effect(
                    db_model(*old(db)),
                    old(cache).map(),
                    parts@,
                    now,
                ),
    {
        let now = now_millis();
        Self::lpush_at(parts, db, cache, now)
    }

    /// `LPOP key`: takes the last value off the list under the key (see
    /// `LinkedList::pop`); the key goes once its list's head is empty.
    pub fn lpop(parts: Vec<&str>, db: &mut Db, cache: &Cache) -> (r: String)
        requires
            parts@.len() >= 2,
            db_wf(*old(db)),
        ensures
            db_wf(*final(db)),
            (db_model(*final(db)), r@) == lpop_effect(db_model(*old(db)), parts@),
    {
        let key = parts[1];
        let ghost before = *db;
        match db.remove(key) {
            Some(mut redis_value) => {
                let ghost old_value = redis_value;
                proof {
                    assert(before.map().dom().contains(key@));
                    lemma_model_remove(before, *db, key@);
                    lemma_wf_remove(before, *db, key@);
                }
                let ghost removed_db = *db;
                match &mut redis_value.value {
                    ValueType::LinkedList(list) => {
                        proof { crate::redis::linked_list::lemma_view_len(list); }
                        match list.pop() {
                            Some(response) => {
                                if list.value.as_str().is_empty() {
                                    proof { crate::redis::linked_list::lemma_view_len(list); }
                                    response
                                } else {
                                    proof { crate::redis::linked_list::lemma_view_len(list); }
                                    db.insert(text(key), redis_value);
                                    proof {
                                        lemma_model_insert(removed_db, *db, key@, redis_value);
                                        lemma_wf_insert(removed_db, *db, key@, redis_value);
                                        assert(db_model(*db) =~= db_model(before).insert(key@, value_model(redis_value)));
                                    }
                                    response
                                }
                            },
                            None => text("-ERR empty list\n"),
                        }
                    },
                    _ => {
                        db.insert(text(key), redis_value);
                        proof {
                            lemma_model_insert(removed_db, *db, key@, redis_value);
                            lemma_wf_insert(removed_db, *db, key@, redis_value);
                            assert(db_model(*db) =~= db_model(before));
                        }
                        text("-ERR wrong type\n")
                    },
                }
            },
            None => {
                proof {
                    assert(db.map() =~= before.map());
                }
                text("-Key Does not Exist\n")
            },
        }
    }

    /// `EXPIRE key seconds` at time `now`: for a key the store holds, the
    /// key's expiry moves `seconds` later (earlier when negative); a key with
    /// no expiry gets `now` plus `seconds`, or an error when that instant is
    /// beyond what `chrono` represents. A key the store does not hold is
    /// answered `+Value Does Not Exist`. The store itself is not changed.
    pub fn expire_at(parts: Vec<&str>, db: &Db, cache: &mut Cache, now: i64) -> (r: String)
        requires
            parts@.len() >= 3,
            db_wf(*db),
            old(cache).wf(),
            expire_fits(db_model(*db), old(cache).map(), parts@),
        ensures
            final(cache).wf(),
            (final(cache).map(), r@) == expire_effect(db_model(*db), old(cache).map(), parts@, now as int),
    {
        let key: &str = parts[1];
        if !db.contains_key(key) {
            return text("+Value Does Not Exist\n");
        }
        let seconds = match parse_i64(parts[2]) {
            Some(v) => v,
            None => 0,
        };
        let duration = seconds * 1000;
        let later = match cache.get(key) {
            Some(existing) => *existing + duration,
            None => match now.checked_add(duration) {
                Some(later) => {
                    if !(MIN_INSTANT_MILLIS <= later && later <= MAX_INSTANT_MILLIS) {
                        return text("-ERR invalid expire time\n");
                    }
                    later
                },
                None => return text("-ERR invalid expire time\n"),
            },
        };
        cache.insert(text(key), later);
        text("+OK\n")
    }

    /// `EXPIRE key seconds`: as `expire_at`, at the current time.
    pub fn expire(parts: Vec<&str>, db: &Db, cache: &mut Cache) -> (r: String)
        requires
            parts@.len() >= 3,
            db_wf(*db),
            old(cache).wf(),
            expire_fits(db_model(*db), old(cache).map(), parts@),
        ensures
            final(cache).wf(),
            exists|now: int|
                MIN_INSTANT_MILLIS <= now <= MAX_INSTANT_MILLIS && (final(cache).map(), r@) == #[trigger] expire_effect(
                    db_model(*db),
                    old(cache).map(),
                    parts@,
                    now,
                ),
    {
        let now = now_millis();
        Self::expire_at(parts, db, cache, now)
    }

    /// `XADD key id field value ...` at time `now`: adds an entry with the
    /// fields to the stream under the key, creating the stream when the key
    /// is new; a key holding another kind of value is left as it is.
    pub fn x_add_at(parts: Vec<&str>, db: &mut Db, now: i64) -> (r: String)
        requires
            parts@.len() >= 3,
            db_wf(*old(db)),
            db_model(*old(db)).dom().contains(parts@[1]@) ==> (db_model(*old(db))[parts@[1]@] matches ValueModel::Stream(s)
                ==> s.next_number < u64::MAX),
        ensures
            db_wf(*final(db)),
            (db_model(*final(db)), r@) == x_add_effect(db_model(*old(db)), parts@, now as int),
    {
        let key = parts[1];
        let ghost before = *db;
        let hash_map = fields_from(&parts);
        let ghost fields = string_view(hash_map);
        match db.remove(key) {
            Some(mut value_type) => {
                let ghost old_value = value_type;
                let ghost mid = *db;
                proof {
                    assert(before.map().dom().contains(key@));
                    assert(value_wf(old_value));
                }
                let response = match &mut value_type.value {
                    ValueType::Stream(stream) => {
                        let ghost old_stream = *stream;
                        stream.add_entry_at(ValueType::Hash(hash_map), now);
                        proof {
                            let sm = stream_model(old_stream);
                            assert(stream_model(*stream).entries =~= sm.entries.insert(entry_id(now as int, sm.next_number as nat), EntryModel::Fields(fields)));
                            assert(stream_model(*stream).groups =~= sm.groups);
                            crate::str_map::lemma_pairs_map_all(stream.entries.pairs());
                            assert(stream.entries.map().dom().contains(entry_id(now as int, sm.next_number as nat)));
                            let e = stream.entries.map()[entry_id(now as int, sm.next_number as nat)];
                            assert(stream.entries.pairs().len() > 0);
                        }
                        text("+New Message Added")
                    },
                    _ => text("-ERR wrong type\n"),
                };
                db.insert(text(key), value_type);
                proof {
                    assert(db.map() =~= before.map().insert(key@, value_type));
                    lemma_model_insert(before, *db, key@, value_type);
                    lemma_wf_insert(before, *db, key@, value_type);
                    if !(old_value.value is Stream) {
                        assert(value_type == old_value);
                        assert(db.map() =~= before.map());
                    }
                }
                response
            },
            None => {
                assert(db.map() =~= before.map());
                let mut new_stream: Stream = Stream::new();
                let ghost empty = new_stream;
                let response = new_stream.add_entry_at(ValueType::Hash(hash_map), now);
                proof {
                    assert(stream_model(empty).entries =~= Map::<Seq<char>, EntryModel>::empty());
                    assert(stream_model(empty).groups =~= Map::<Seq<char>, GroupModel>::empty());
                    assert(stream_model(new_stream).entries =~= empty_stream().entries.insert(entry_id(now as int, 0), EntryModel::Fields(fields)));
                    assert(stream_model(new_stream).groups =~= Map::<Seq<char>, GroupModel>::empty());
                    crate::str_map::lemma_pairs_map_all(new_stream.entries.pairs());
                    assert(new_stream.entries.map().dom().contains(entry_id(now as int, 0)));
                    assert(new_stream.entries.pairs().len() > 0);
                }
                let redis_stream = RedisValue { value: ValueType::Stream(new_stream) };
                db.insert(text(key), redis_stream);
                proof {
                    lemma_model_insert(before, *db, key@, redis_stream);
                    lemma_wf_insert(before, *db, key@, redis_stream);
                }
                response
            },
        }
    }

    /// `XADD key id field value ...`: as `x_add_at`, at the current time.
    pub fn x_add(parts: Vec<&str>, db: &mut Db) -> (r: String)
        requires
            parts@.len() >= 3,
            db_wf(*old(db)),
            db_model(*old(db)).dom().contains(parts@[1]@) ==> (db_model(*old(db))[parts@[1]@] matches ValueModel::Stream(s)
                ==> s.next_number < u64::MAX),
        ensures
            db_wf(*final(db)),
            exists|now: int|
                MIN_INSTANT_MILLIS <= now <= MAX_INSTANT_MILLIS && (db_model(*final(db)), r@) == #[trigger] x_add_effect(
                    db_model(*old(db)),
                    parts@,
                    now,
                ),
    {
        let now = now_millis();
        Self::x_add_at(parts, db, now)
    }

    /// `XGROUPADD _ stream group id`: sets up (or replaces) the group on the
    /// stream, having delivered up to `id`.
    pub fn x_group_add(parts: Vec<&str>, db: &mut Db) -> (r: String)
        requires
            parts@.len() >= 5,
            db_wf(*old(db)),
        ensures
            db_wf(*final(db)),
            (db_model(*final(db)), r@) == x_group_add_effect(db_model(*old(db)), parts@),
    {
        let stream_name: &str = parts[2];
        let group_name: &str = parts[3];
        let last_delivered_id: &str = parts[4];
        let ghost before = *db;
        match db.remove(stream_name) {
            Some(mut value_type) => {
                let ghost old_value = value_type;
                proof {
                    assert(before.map().dom().contains(stream_name@));
                    assert(value_wf(old_value));
                }
                let response = match &mut value_type.value {
                    ValueType::Stream(stream) => {
                        let ghost old_stream = *stream;
                        let group = ConsumerGroup {
                            name: text(group_name),
                            last_delivered_id: text(last_delivered_id),
                            consumers: StrMap::new(),
                            pending: StrMap::new(),
                        };
                        proof {
                            assert(group_model(group).consumers =~= Map::<Seq<char>, ConsumerModel>::empty());
                            assert(group_model(group).pending =~= Map::<Seq<char>, crate::redis::consumer::PendingModel>::empty());
                        }
                        stream.consumer_groups.insert(text(group_name), group);
                        proof {
                            let sm = stream_model(old_stream);
                            assert(stream_model(*stream).groups =~= sm.groups.insert(group_name@, new_group(group_name@, last_delivered_id@)));
                            assert(stream_model(*stream).entries =~= sm.entries);
                            assert forall|k: Seq<char>| #[trigger] stream.consumer_groups.map().dom().contains(k) implies stream.consumer_groups.map()[k].wf() by {
                                if k != group_name@ {
                                    assert(old_stream.consumer_groups.map().dom().contains(k));
                                }
                            }
                        }
                        text("+New Group Added")
                    },
                    _ => text("-ERR wrong type\n"),
                };
                db.insert(text(stream_name), value_type);
                proof {
                    assert(db.map() =~= before.map().insert(stream_name@, value_type));
                    lemma_model_insert(before, *db, stream_name@, value_type);
                    lemma_wf_insert(before, *db, stream_name@, value_type);
                    if !(old_value.value is Stream) {
                        assert(value_type == old_value);
                        assert(db.map() =~= before.map());
                    }
                }
                response
            },
            None => {
                assert(db.map() =~= before.map());
                text("Error Creating Consumer Group")
            },
        }
    }

    /// `XACK group stream id`: entry `id` is no longer pending in the group,
    /// neither for the group nor for any of its consumers.
    pub fn x_message_ack(parts: Vec<&str>, db: &mut Db) -> (r: String)
        requires
            parts@.len() >= 4,
            db_wf(*old(db)),
        ensures
            db_wf(*final(db)),
            (db_model(*final(db)), r@) == x_ack_effect(db_model(*old(db)), parts@),
    {
        let group_name: &str = parts[1];
        let stream_name: &str = parts[2];
        let message_id: &str = parts[3];
        let ghost before = *db;
        match db.remove(stream_name) {
            Some(mut redis_value) => {
                let ghost old_value = redis_value;
                proof {
                    assert(before.map().dom().contains(stream_name@));
                    assert(value_wf(old_value));
                }
                let response = match &mut redis_value.value {
                    ValueType::Stream(stream) => {
                        let ghost old_stream = *stream;
                        match stream.consumer_groups.remove(group_name) {
                            Some(mut consumer_group) => {
                                proof {
                                    assert(old_stream.consumer_groups.map().dom().contains(group_name@));
                                }
                                ack_group(&mut consumer_group, message_id);
                                stream.consumer_groups.insert(text(group_name), consumer_group);
                                proof {
                                    let sm = stream_model(old_stream);
                                    assert(stream.consumer_groups.map() =~= old_stream.consumer_groups.map().insert(group_name@, consumer_group));
                                    assert(stream_model(*stream).groups =~= sm.groups.insert(group_name@, acked(sm.groups[group_name@], message_id@)));
                                    assert(stream_model(*stream).entries =~= sm.entries);
                                    assert forall|k: Seq<char>| #[trigger] stream.consumer_groups.map().dom().contains(k) implies stream.consumer_groups.map()[k].wf() by {
                                        if k != group_name@ {
                                            assert(old_stream.consumer_groups.map().dom().contains(k));
                                        }
                                    }
                                }
                            },
                            None => {
                                proof {
                                    assert(stream.consumer_groups.map() =~= old_stream.consumer_groups.map());
                                    assert(stream_model(*stream).groups =~= stream_model(old_stream).groups);
                                    assert(stream_model(*stream).entries =~= stream_model(old_stream).entries);
                                    assert(stream_model(*stream) == stream_model(old_stream));
                                }
                            },
                        }
                        text("+ok")
                    },
                    _ => text("-ERR wrong type\n"),
                };
                db.insert(text(stream_name), redis_value);
                proof {
                    assert(db.map() =~= before.map().insert(stream_name@, redis_value));
                    lemma_model_insert(before, *db, stream_name@, redis_value);
                    lemma_wf_insert(before, *db, stream_name@, redis_value);
                    if value_model(redis_value) == value_model(old_value) {
                        assert(db_model(before).insert(stream_name@, value_model(old_value)) =~= db_model(before));
                    }
                }
                response
            },
            None => {
                assert(db.map() =~= before.map());
                text("+Group Doesnt Exist")
            },
        }
    }

    /// `XREAD _ stream start [count]`: the entries of the stream after
    /// `start` (at most `count` when it is given and at least one), written
    /// as `{"id":{"field":"value",...},...}`.
    pub fn x_read(parts: Vec<&str>, db: &Db) -> (r: String)
        requires
            parts@.len() >= 4,
            db_wf(*db),
        ensures
            r@ == x_read_reply(db_model(*db), parts@),
    {
        let key = parts[2];
        match db.get(key) {
            Some(stream) => {
                proof {
                    assert(value_wf(*stream));
                }
                match &stream.value {
                    ValueType::Stream(s) => {
                        let start_id = parts[3];
                        let count: Option<usize> = if parts.len() > 4 { parse_usize(parts[4]) } else { None };
                        let response = s.x_read(start_id, count);
                        proof {
                            lemma_all_view_ordered(*s);
                            lemma_read_sorted(all_view(*s), start_id@, count);
                            lemma_nested_pairs(response, read_entries(all_view(*s), start_id@, count));
                        }
                        stringify_map(&response)
                    },
                    _ => text("-ERR wrong type\n"),
                }
            },
            None => text("+Not Ok"),
        }
    }

    /// `XGROUPREAD GROUP group consumer [COUNT n] STREAMS streams... > ...` at
    /// time `now`: reads each named stream in turn for the consumer, from
    /// where the group last delivered, and records the delivery.
    pub fn x_group_read_at(parts: Vec<&str>, db: &mut Db, now: u64) -> (r: String)
        requires
            parts@.len() >= 5,
            db_wf(*old(db)),
            parts@[4]@ == "COUNT"@ ==> parts@.len() >= 7,
            exists|i: int| marker_at(words_of(parts@).skip(names_start(parts@)), i),
            forall|i: int|
                0 <= i < read_names(parts@).len() ==> group_read_fits(
                    db_model(*old(db)),
                    #[trigger] read_names(parts@)[i],
                    parts@[2]@,
                ),
        ensures
            db_wf(*final(db)),
            (db_model(*final(db)), r@) == group_read_all(db_model(*old(db)), read_names(parts@), parts@[2]@, parts@[3]@, now),
    {
        let group_name: &str = parts[2];
        let consumer_name: &str = parts[3];
        let stream_index: usize = if str_eq(parts[4], "COUNT") { 7 } else { 5 };
        let ghost ws = words_of(parts@).skip(stream_index as int);
        let ghost mark = choose|i: int| marker_at(ws, i);
        let mut index = stream_index;
        while index < parts.len() && !str_eq(parts[index], ">")
            invariant
                stream_index <= index <= parts@.len(),
                ws == words_of(parts@).skip(stream_index as int),
                marker_at(ws, mark),
                forall|j: int| stream_index <= j < index ==> parts@[j]@ != ">"@,
            decreases parts@.len() - index,
        {
            proof {
                assert(ws[index - stream_index] == parts@[index as int]@);
            }
            index = index + 1;
        }
        proof {
            if index - stream_index > mark {
                assert(ws[mark] == parts@[stream_index + mark]@);
            }
            if index - stream_index < mark {
                assert(ws[index - stream_index] == parts@[index as int]@);
            }
            assert(index - stream_index == mark);
        }
        let ghost names = read_names(parts@);
        let ghost start = db_model(*db);
        let mut final_response = String::new();
        let mut i = stream_index;
        proof {
            assert(names.take(0) =~= Seq::<Seq<char>>::empty());
            assert(final_response@ =~= Seq::<char>::empty());
        }
        while i < index
            invariant
                stream_index <= i <= index < parts@.len(),
                ws == words_of(parts@).skip(stream_index as int),
                names == ws.take(index - stream_index),
                db_wf(*db),
                (db_model(*db), final_response@) == group_read_all(start, names.take(i - stream_index), group_name@, consumer_name@, now),
                forall|j: int| 0 <= j < names.len() ==> group_read_fits(db_model(*db), #[trigger] names[j], group_name@),
            decreases index - i,
        {
            proof {
                let t = names.take(i + 1 - stream_index);
                assert(t.drop_last() =~= names.take(i - stream_index));
                assert(t.last() == parts@[i as int]@);
            }
            proof {
                assert(names[i - stream_index] == parts@[i as int]@);
            }
            let ghost before_read = db_model(*db);
            group_read_one(db, parts[i], group_name, consumer_name, now, &mut final_response);
            proof {
                assert forall|j: int| 0 <= j < names.len() implies group_read_fits(db_model(*db), #[trigger] names[j], group_name@) by {
                    lemma_group_read_keeps_fit(before_read, parts@[i as int]@, group_name@, consumer_name@, now, names[j]);
                }
            }
            i = i + 1;
        }
        proof {
            assert(names.take(index - stream_index) =~= names);
        }
        final_response
    }

    /// `XGROUPREAD ...`: as `x_group_read_at`, at the current time.
    pub fn x_group_read(parts: Vec<&str>, db: &mut Db) -> (r: String)
        requires
            parts@.len() >= 5,
            db_wf(*old(db)),
            parts@[4]@ == "COUNT"@ ==> parts@.len() >= 7,
            exists|i: int| marker_at(words_of(parts@).skip(names_start(parts@)), i),
            forall|i: int|
                0 <= i < read_names(parts@).len() ==> group_read_fits(
                    db_model(*old(db)),
                    #[trigger] read_names(parts@)[i],
                    parts@[2]@,
                ),
        ensures
            db_wf(*final(db)),
            exists|now: u64|
                now <= MAX_INSTANT_MILLIS && (db_model(*final(db)), r@) == #[trigger] group_read_all(
                    db_model(*old(db)),
                    read_names(parts@),
                    parts@[2]@,
                    parts@[3]@,
                    now,
                ),
    {
        let now = now_millis();
        let stamp: u64 = if now < 0 {
            0
        } else {
            now as u64
        };
        Self::x_group_read_at(parts, db, stamp)
    }

    /// `GET key`: `"+<value>\n"`, or `"$-1\n"` when the key is absent.
    pub fn get_key(parts: Vec<&str>, db: &Db) -> (r: String)
        requires
            parts@.len() >= 2,
            db_wf(*db),
        ensures
            r@ == get_key_reply(db_model(*db), parts@[1]@),
    {
        match db.get(parts[1]) {
            Some(val) => {
                proof {
                    assert(value_wf(*val));
                }
                let mut out = text("+");
                let shown = val.to_display_string();
                out.append(shown.as_str());
                out.append("\n");
                out
            },
            None => text("$-1\n"),
        }
    }

    /// `GET *`: one `key: value` line per key, or `"$-1\n"` when the store is empty.
    pub fn get_all(db: &Db) -> (r: String)
        requires
            db_wf(*db),
        ensures
            r@ == get_all_reply(db_model(*db)),
    {
        let ghost m = db_model(*db);
        let ghost items = key_lines(m);
        let ghost o = ordered(m);
        proof {
            lemma_mapped_pairs_ordered(*db, |v: RedisValue| value_model(v));
            assert(m == db.map().map_values(|v: RedisValue| value_model(v)));
            crate::str_map::lemma_pairs_map_all(db.pairs());
        }
        let n = db.len();
        proof {
            assert(o.len() == n);
        }
        if n == 0 {
            proof {
                assert forall|k: Seq<char>| !m.dom().contains(k) by {
                    if m.dom().contains(k) {
                        assert(db.map().dom().contains(k));
                        let j = choose|j: int| 0 <= j < db.pairs().len() && #[trigger] db.pairs()[j].0 == k;
                    }
                }
                assert(m =~= Map::<Seq<char>, ValueModel>::empty());
            }
            return text("$-1\n");
        }
        proof {
            let k = db.pairs()[0].0;
            assert(db.map().dom().contains(k));
            assert(m.dom().contains(k));
            assert(!Map::<Seq<char>, ValueModel>::empty().dom().contains(k));
        }
        let mut response = String::new();
        let mut i: usize = 0;
        while i < n
            invariant
                n == db.pairs().len(),
                db_wf(*db),
                m == db_model(*db),
                i <= n,
                o == ordered(m),
                o.len() == n,
                items == key_lines(m),
                db.pairs().map_values(|p: (Seq<char>, RedisValue)| (p.0, value_model(p.1))) == o,
                forall|j: int| #![trigger db.pairs()[j]] 0 <= j < n ==> db.map()[db.pairs()[j].0] == db.pairs()[j].1 && db.map().dom().contains(db.pairs()[j].0),
                response@ == concat(items.take(i as int)),
            decreases n - i,
        {
            let v = db.value_at(i);
            proof {
                assert(db.map()[db.pairs()[i as int].0] == db.pairs()[i as int].1);
                assert(value_wf(*v));
            }
            response.append(db.key_at(i).as_str());
            response.append(": ");
            let shown = v.to_display_string();
            response.append(shown.as_str());
            response.append("\n");
            proof {
                assert(o[i as int] == (db.pairs()[i as int].0, value_model(db.pairs()[i as int].1)));
                lemma_concat_push(items.take(i as int), items[i as int]);
                assert(items.take(i as int).push(items[i as int]) =~= items.take(i + 1));
                assert(response@ =~= concat(items.take(i + 1)));
            }
            i = i + 1;
        }
        proof {
            assert(items.take(n as int) =~= items);
        }
        response
    }
}

} // verus!
