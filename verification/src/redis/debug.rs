//! The Debug notation of stored values, as `{:?}` writes them; maps are
//! written in the order they are stored.
use vstd::prelude::*;
use crate::text_util::{join, debug_str, debug_quote, decimal, push_decimal, lemma_join_push};
use crate::redis::display::{debug_list, write_debug_list};
use crate::redis::types::ValueType;
use crate::redis::stream::{Stream, StreamEntry};
use crate::redis::consumer::{Consumer, ConsumerGroup, PendingEntry};

verus! {

/// A consumer in Debug notation.
pub open spec fn consumer_debug(c: Consumer) -> Seq<char> {
    "Consumer { name: "@ + debug_str(c.name@) + ", pending: "@ + "{"@ + join(
        c.pending.entries@.map_values(|e: (String, ())| debug_str(e.0@)),
        ", "@,
    ) + "}"@ + ", last_seen: "@ + decimal(c.last_seen as nat) + " }"@
}

/// A pending delivery in Debug notation.
pub open spec fn pending_debug(p: PendingEntry) -> Seq<char> {
    "PendingEntry { entry_id: "@ + debug_str(p.entry_id@) + ", consumer_name: "@ + debug_str(p.consumer_name@)
        + ", timestamp: "@ + decimal(p.timestamp as nat) + ", delivery_count: "@ + decimal(p.delivery_count as nat)
        + " }"@
}

/// A consumer group in Debug notation.
pub open spec fn group_debug(g: ConsumerGroup) -> Seq<char> {
    "ConsumerGroup { name: "@ + debug_str(g.name@) + ", last_delivered_id: "@ + debug_str(g.last_delivered_id@)
        + ", consumers: "@ + "{"@ + join(
        g.consumers.entries@.map_values(|e: (String, Consumer)| debug_str(e.0@) + ": "@ + consumer_debug(e.1)),
        ", "@,
    ) + "}"@ + ", pending: "@ + "{"@ + join(
        g.pending.entries@.map_values(|e: (String, PendingEntry)| debug_str(e.0@) + ": "@ + pending_debug(e.1)),
        ", "@,
    ) + "}"@ + " }"@
}

/// The Debug notation of a value.
pub open spec fn value_debug(v: ValueType) -> Seq<char>
    decreases v,
{
    match v {
        ValueType::String(t) => "String("@ + debug_str(t@) + ")"@,
        ValueType::Hash(m) => "Hash("@ + "{"@ + join(
            m.entries@.map_values(|e: (String, String)| debug_str(e.0@) + ": "@ + debug_str(e.1@)),
            ", "@,
        ) + "}"@ + ")"@,
        ValueType::LinkedList(l) => "LinkedList("@ + debug_list(l@) + ")"@,
        ValueType::Stream(st) => "Stream("@ + "Stream { entries: {"@ + entry_list_debug(st.entries.entries@)
            + "}, last_id: "@ + decimal(st.last_id as nat) + ", consumer_groups: "@ + "{"@ + join(
            st.consumer_groups.entries@.map_values(
                |e: (String, ConsumerGroup)| debug_str(e.0@) + ": "@ + group_debug(e.1),
            ),
            ", "@,
        ) + "}"@ + " }"@ + ")"@,
    }
}

/// The entries of a stream in Debug notation, separated by commas.
pub open spec fn entry_list_debug(es: Seq<(String, StreamEntry)>) -> Seq<char>
    decreases es,
{
    if es.len() == 0 {
        Seq::empty()
    } else if es.len() == 1 {
        debug_str(es[0].0@) + ": StreamEntry { value: "@ + value_debug(es[0].1.value) + " }"@
    } else {
        entry_list_debug(es.drop_last()) + ", "@ + debug_str(es.last().0@) + ": StreamEntry { value: "@ + value_debug(
            es.last().1.value,
        ) + " }"@
    }
}

/// A map of strings in Debug notation, in stored order.
fn write_string_map(out: &mut String, es: &Vec<(String, String)>)
    ensures
        final(out)@ == old(out)@ + "{"@ + join(es@.map_values(|e: (String, String)| debug_str(e.0@) + ": "@ + debug_str(e.1@)), ", "@) + "}"@,
{
    let ghost items = es@.map_values(|e: (String, String)| debug_str(e.0@) + ": "@ + debug_str(e.1@));
    let ghost start = out@;
    out.append("{");
    let mut i: usize = 0;
    while i < es.len()
        invariant
            i <= es@.len(),
            items == es@.map_values(|e: (String, String)| debug_str(e.0@) + ": "@ + debug_str(e.1@)),
            out@ == start + "{"@ + join(items.take(i as int), ", "@),
        decreases es@.len() - i,
    {
        let ghost before = out@;
        if i > 0 {
            out.append(", ");
        }
        let key = debug_quote(es[i].0.as_str());
        out.append(key.as_str());
        out.append(": ");
        let value = debug_quote(es[i].1.as_str());
        out.append(value.as_str());
        proof {
            lemma_join_push(items.take(i as int), ", "@, items[i as int]);
            assert(items.take(i as int).push(items[i as int]) =~= items.take(i + 1));
            assert(out@ =~= start + "{"@ + join(items.take(i + 1), ", "@));
        }
        i = i + 1;
    }
    out.append("}");
    proof {
        assert(items.take(i as int) =~= items);
    }
}

/// A set of strings in Debug notation, in stored order.
fn write_key_set(out: &mut String, es: &Vec<(String, ())>)
    ensures
        final(out)@ == old(out)@ + "{"@ + join(es@.map_values(|e: (String, ())| debug_str(e.0@)), ", "@) + "}"@,
{
    let ghost items = es@.map_values(|e: (String, ())| debug_str(e.0@));
    let ghost start = out@;
    out.append("{");
    let mut i: usize = 0;
    while i < es.len()
        invariant
            i <= es@.len(),
            items == es@.map_values(|e: (String, ())| debug_str(e.0@)),
            out@ == start + "{"@ + join(items.take(i as int), ", "@),
        decreases es@.len() - i,
    {
        let ghost before = out@;
        if i > 0 {
            out.append(", ");
        }
        let key = debug_quote(es[i].0.as_str());
        out.append(key.as_str());
        proof {
            lemma_join_push(items.take(i as int), ", "@, items[i as int]);
            assert(items.take(i as int).push(items[i as int]) =~= items.take(i + 1));
            assert(out@ =~= start + "{"@ + join(items.take(i + 1), ", "@));
        }
        i = i + 1;
    }
    out.append("}");
    proof {
        assert(items.take(i as int) =~= items);
    }
}

/// Consumers by name, in Debug notation.
fn write_consumers(out: &mut String, es: &Vec<(String, Consumer)>)
    ensures
        final(out)@ == old(out)@ + "{"@ + join(es@.map_values(|e: (String, Consumer)| debug_str(e.0@) + ": "@ + consumer_debug(e.1)), ", "@) + "}"@,
{
    let ghost items = es@.map_values(|e: (String, Consumer)| debug_str(e.0@) + ": "@ + consumer_debug(e.1));
    let ghost start = out@;
    out.append("{");
    let mut i: usize = 0;
    while i < es.len()
        invariant
            i <= es@.len(),
            items == es@.map_values(|e: (String, Consumer)| debug_str(e.0@) + ": "@ + consumer_debug(e.1)),
            out@ == start + "{"@ + join(items.take(i as int), ", "@),
        decreases es@.len() - i,
    {
        let ghost before = out@;
        if i > 0 {
            out.append(", ");
        }
        let key = debug_quote(es[i].0.as_str());
        out.append(key.as_str());
        out.append(": ");
        write_consumer_debug(out, &es[i].1);
        proof {
            lemma_join_push(items.take(i as int), ", "@, items[i as int]);
            assert(items.take(i as int).push(items[i as int]) =~= items.take(i + 1));
            assert(out@ =~= start + "{"@ + join(items.take(i + 1), ", "@));
        }
        i = i + 1;
    }
    out.append("}");
    proof {
        assert(items.take(i as int) =~= items);
    }
}

/// Pending deliveries by entry ID, in Debug notation.
fn write_pendings(out: &mut String, es: &Vec<(String, PendingEntry)>)
    ensures
        final(out)@ == old(out)@ + "{"@ + join(es@.map_values(|e: (String, PendingEntry)| debug_str(e.0@) + ": "@ + pending_debug(e.1)), ", "@) + "}"@,
{
    let ghost items = es@.map_values(|e: (String, PendingEntry)| debug_str(e.0@) + ": "@ + pending_debug(e.1));
    let ghost start = out@;
    out.append("{");
    let mut i: usize = 0;
    while i < es.len()
        invariant
            i <= es@.len(),
            items == es@.map_values(|e: (String, PendingEntry)| debug_str(e.0@) + ": "@ + pending_debug(e.1)),
            out@ == start + "{"@ + join(items.take(i as int), ", "@),
        decreases es@.len() - i,
    {
        let ghost before = out@;
        if i > 0 {
            out.append(", ");
        }
        let key = debug_quote(es[i].0.as_str());
        out.append(key.as_str());
        out.append(": ");
        write_pending_debug(out, &es[i].1);
        proof {
            lemma_join_push(items.take(i as int), ", "@, items[i as int]);
            assert(items.take(i as int).push(items[i as int]) =~= items.take(i + 1));
            assert(out@ =~= start + "{"@ + join(items.take(i + 1), ", "@));
        }
        i = i + 1;
    }
    out.append("}");
    proof {
        assert(items.take(i as int) =~= items);
    }
}

/// Consumer groups by name, in Debug notation.
fn write_groups(out: &mut String, es: &Vec<(String, ConsumerGroup)>)
    ensures
        final(out)@ == old(out)@ + "{"@ + join(es@.map_values(|e: (String, ConsumerGroup)| debug_str(e.0@) + ": "@ + group_debug(e.1)), ", "@) + "}"@,
{
    let ghost items = es@.map_values(|e: (String, ConsumerGroup)| debug_str(e.0@) + ": "@ + group_debug(e.1));
    let ghost start = out@;
    out.append("{");
    let mut i: usize = 0;
    while i < es.len()
        invariant
            i <= es@.len(),
            items == es@.map_values(|e: (String, ConsumerGroup)| debug_str(e.0@) + ": "@ + group_debug(e.1)),
            out@ == start + "{"@ + join(items.take(i as int), ", "@),
        decreases es@.len() - i,
    {
        let ghost before = out@;
        if i > 0 {
            out.append(", ");
        }
        let key = debug_quote(es[i].0.as_str());
        out.append(key.as_str());
        out.append(": ");
        write_group_debug(out, &es[i].1);
        proof {
            lemma_join_push(items.take(i as int), ", "@, items[i as int]);
            assert(items.take(i as int).push(items[i as int]) =~= items.take(i + 1));
            assert(out@ =~= start + "{"@ + join(items.take(i + 1), ", "@));
        }
        i = i + 1;
    }
    out.append("}");
    proof {
        assert(items.take(i as int) =~= items);
    }
}

fn write_consumer_debug(out: &mut String, c: &Consumer)
    ensures
        final(out)@ == old(out)@ + consumer_debug(*c),
{
    let ghost start = out@;
    out.append("Consumer { name: ");
    let name = debug_quote(c.name.as_str());
    out.append(name.as_str());
    out.append(", pending: ");
    write_key_set(out, &c.pending.entries);
    out.append(", last_seen: ");
    push_decimal(out, c.last_seen);
    out.append(" }");
    assert(out@ =~= start + consumer_debug(*c));
}

fn write_pending_debug(out: &mut String, p: &PendingEntry)
    ensures
        final(out)@ == old(out)@ + pending_debug(*p),
{
    let ghost start = out@;
    out.append("PendingEntry { entry_id: ");
    let id = debug_quote(p.entry_id.as_str());
    out.append(id.as_str());
    out.append(", consumer_name: ");
    let name = debug_quote(p.consumer_name.as_str());
    out.append(name.as_str());
    out.append(", timestamp: ");
    push_decimal(out, p.timestamp);
    out.append(", delivery_count: ");
    push_decimal(out, p.delivery_count as u64);
    out.append(" }");
    assert(out@ =~= start + pending_debug(*p));
}

fn write_group_debug(out: &mut String, g: &ConsumerGroup)
    ensures
        final(out)@ == old(out)@ + group_debug(*g),
{
    let ghost start = out@;
    out.append("ConsumerGroup { name: ");
    let name = debug_quote(g.name.as_str());
    out.append(name.as_str());
    out.append(", last_delivered_id: ");
    let last = debug_quote(g.last_delivered_id.as_str());
    out.append(last.as_str());
    out.append(", consumers: ");
    write_consumers(out, &g.consumers.entries);
    out.append(", pending: ");
    write_pendings(out, &g.pending.entries);
    out.append(" }");
    assert(out@ =~= start + group_debug(*g));
}

/// Writes the Debug notation of `v`.
pub fn write_value_debug(out: &mut String, v: &ValueType)
    ensures
        final(out)@ == old(out)@ + value_debug(*v),
    decreases *v,
{
    let ghost start = out@;
    match v {
        ValueType::String(t) => {
            out.append("String(");
            let q = debug_quote(t.as_str());
            out.append(q.as_str());
            out.append(")");
            assert(out@ =~= start + value_debug(*v));
        },
        ValueType::Hash(m) => {
            out.append("Hash(");
            write_string_map(out, &m.entries);
            out.append(")");
            assert(out@ =~= start + value_debug(*v));
        },
        ValueType::LinkedList(l) => {
            out.append("LinkedList(");
            write_debug_list(out, l);
            out.append(")");
            assert(out@ =~= start + value_debug(*v));
        },
        ValueType::Stream(st) => {
            write_stream_debug(out, st);
            assert(out@ =~= start + value_debug(*v));
        },
    }
}

/// Writes the Debug notation of a stream held as a value.
#[verifier::rlimit(40)]
fn write_stream_debug(out: &mut String, st: &Stream)
    ensures
        final(out)@ == old(out)@ + value_debug(ValueType::Stream(*st)),
    decreases *st,
{
    let ghost start = out@;
    let ghost entries = entry_list_debug(st.entries.entries@);
    let ghost groups = "{"@ + join(
        st.consumer_groups.entries@.map_values(|e: (String, ConsumerGroup)| debug_str(e.0@) + ": "@ + group_debug(e.1)),
        ", "@,
    ) + "}"@;
    out.append("Stream(");
    out.append("Stream { entries: {");
    write_entry_list(out, &st.entries.entries);
    let ghost mid = out@;
    assert(mid =~= start + "Stream("@ + "Stream { entries: {"@ + entries);
    out.append("}, last_id: ");
    push_decimal(out, st.last_id);
    out.append(", consumer_groups: ");
    write_groups(out, &st.consumer_groups.entries);
    let ghost late = out@;
    assert(late =~= mid + "}, last_id: "@ + decimal(st.last_id as nat) + ", consumer_groups: "@ + groups);
    out.append(" }");
    out.append(")");
    assert(value_debug(ValueType::Stream(*st)) == "Stream("@ + "Stream { entries: {"@ + entries + "}, last_id: "@
        + decimal(st.last_id as nat) + ", consumer_groups: "@ + groups + " }"@ + ")"@);
    assert(out@ =~= start + value_debug(ValueType::Stream(*st)));
}

fn write_entry_list(out: &mut String, es: &Vec<(String, StreamEntry)>)
    ensures
        final(out)@ == old(out)@ + entry_list_debug(es@),
    decreases es@,
{
    let ghost start = out@;
    let mut i: usize = 0;
    proof {
        assert(es@.take(0) =~= Seq::<(String, StreamEntry)>::empty());
    }
    while i < es.len()
        invariant
            i <= es@.len(),
            out@ == start + entry_list_debug(es@.take(i as int)),
        decreases es@.len() - i,
    {
        let ghost before = out@;
        if i > 0 {
            out.append(", ");
        }
        let key = debug_quote(es[i].0.as_str());
        out.append(key.as_str());
        out.append(": StreamEntry { value: ");
        proof {
            assert(decreases_to!(es@ => es@[i as int].1.value));
        }
        write_value_debug(out, &es[i].1.value);
        out.append(" }");
        proof {
            let t = es@.take(i + 1);
            assert(t.drop_last() =~= es@.take(i as int));
            assert(t.last() == es@[i as int]);
            if i == 0 {
                assert(t.len() == 1);
            }
            assert(out@ =~= start + entry_list_debug(t));
        }
        i = i + 1;
    }
    proof {
        assert(es@.take(i as int) =~= es@);
    }
}

} // verus!
