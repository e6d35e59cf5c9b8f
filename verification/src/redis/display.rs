//! How stored values are shown to a client.
use vstd::prelude::*;
use crate::str_map::{StrMap, ordered, string_view, concat, lemma_concat_push, lemma_mapped_pairs_ordered, lemma_string_pairs_ordered};
use crate::text_util::{join, lemma_join_push, debug_str, debug_quote, decimal, push_decimal};
use crate::redis::linked_list::{LinkedList, lemma_view_len};
use crate::redis::consumer::{Consumer, ConsumerGroup, PendingEntry, ConsumerModel, PendingModel, GroupModel, consumer_model, pending_model, group_model};
use crate::redis::stream::{Stream, StreamEntry, StreamModel, EntryModel, stream_model, entry_model, entry_ok};
use crate::redis::debug::write_value_debug;
use crate::redis::types::{RedisValue, ValueType, ValueModel, value_model, value_wf};

verus! {

/// Debug notation of a map of strings: `{"k": "v", ...}`.
pub open spec fn debug_map(m: Map<Seq<char>, Seq<char>>) -> Seq<char> {
    "{"@ + join(
        ordered(m).map_values(|p: (Seq<char>, Seq<char>)| debug_str(p.0) + ": "@ + debug_str(p.1)),
        ", "@,
    ) + "}"@
}

/// Debug notation of a set of strings: `{"a", "b", ...}`.
pub open spec fn debug_set(s: Set<Seq<char>>) -> Seq<char> {
    "{"@ + join(ordered(s.mk_map(|k: Seq<char>| ())).map_values(|p: (Seq<char>, ())| debug_str(p.0)), ", "@)
        + "}"@
}

/// Debug notation of a list with the given values, head first.
pub open spec fn debug_list(vs: Seq<Seq<char>>) -> Seq<char>
    decreases vs.len(),
{
    if vs.len() <= 1 {
        "LinkedList { value: "@ + debug_str(vs[0]) + ", next: "@ + "None"@ + " }"@
    } else {
        "LinkedList { value: "@ + debug_str(vs[0]) + ", next: "@ + "Some("@ + debug_list(vs.drop_first())
            + ")"@ + " }"@
    }
}

/// The lines of the fields of an entry.
pub open spec fn field_lines(m: Map<Seq<char>, Seq<char>>) -> Seq<Seq<char>> {
    ordered(m).map_values(|p: (Seq<char>, Seq<char>)| "    "@ + p.0 + " => "@ + p.1 + "\n"@)
}

/// One line per field of an entry.
pub open spec fn fields_text(m: Map<Seq<char>, Seq<char>>) -> Seq<char> {
    concat(field_lines(m))
}

/// The block of one entry: its ID, then its fields one per line, or, for
/// any other value, its Debug notation on the same line.
pub open spec fn entry_text(p: (Seq<char>, EntryModel)) -> Seq<char> {
    match p.1 {
        EntryModel::Fields(m) => "  ID: "@ + p.0 + "\n"@ + fields_text(m),
        EntryModel::Shown(t) => "  ID: "@ + p.0 + " => "@ + t + "\n"@,
    }
}

/// The blocks of the entries of a stream.
pub open spec fn entry_blocks(e: Map<Seq<char>, EntryModel>) -> Seq<Seq<char>> {
    ordered(e).map_values(|p: (Seq<char>, EntryModel)| entry_text(p))
}

/// The entries of a stream.
pub open spec fn entries_text(e: Map<Seq<char>, EntryModel>) -> Seq<char> {
    concat(entry_blocks(e))
}

pub open spec fn consumer_text(p: (Seq<char>, ConsumerModel)) -> Seq<char> {
    "      Consumer: "@ + p.0 + "\n"@ + "        Pending IDs: "@ + debug_set(p.1.pending) + "\n"@ + "        Last Seen: "@
        + decimal(p.1.last_seen as nat) + "\n"@
}

pub open spec fn pending_text(p: (Seq<char>, PendingModel)) -> Seq<char> {
    "      Entry ID: "@ + p.0 + "\n"@ + "        Consumer: "@ + p.1.consumer_name + "\n"@ + "        Timestamp: "@
        + decimal(p.1.timestamp as nat) + "\n"@ + "        Delivery Count: "@ + decimal(p.1.delivery_count as nat) + "\n"@
}

pub open spec fn consumer_blocks(m: Map<Seq<char>, ConsumerModel>) -> Seq<Seq<char>> {
    ordered(m).map_values(|c: (Seq<char>, ConsumerModel)| consumer_text(c))
}

pub open spec fn pending_blocks(m: Map<Seq<char>, PendingModel>) -> Seq<Seq<char>> {
    ordered(m).map_values(|e: (Seq<char>, PendingModel)| pending_text(e))
}

pub open spec fn group_text(p: (Seq<char>, GroupModel)) -> Seq<char> {
    "  Group: "@ + p.0 + "\n"@ + "    Last Delivered ID: "@ + p.1.last_delivered_id + "\n"@ + "    Consumers:\n"@
        + concat(consumer_blocks(p.1.consumers)) + (if ordered(p.1.pending).len() == 0 {
        Seq::empty()
    } else {
        "    Pending Entries:\n"@ + concat(pending_blocks(p.1.pending))
    })
}

pub open spec fn group_blocks(m: Map<Seq<char>, GroupModel>) -> Seq<Seq<char>> {
    ordered(m).map_values(|g: (Seq<char>, GroupModel)| group_text(g))
}

/// The entries of a stream, then its consumer groups if it has any.
pub open spec fn stream_text(s: StreamModel) -> Seq<char> {
    "Stream Entries:\n"@ + entries_text(s.entries) + (if ordered(s.groups).len() == 0 {
        Seq::empty()
    } else {
        "\nConsumer Groups:\n"@ + concat(group_blocks(s.groups))
    })
}

/// How a value is shown.
pub open spec fn display_text(v: ValueModel) -> Seq<char> {
    match v {
        ValueModel::Text(s) => "Result : "@ + s,
        ValueModel::Hash(m) => "Result : "@ + debug_map(m) + " "@,
        ValueModel::List(l) => "Result : "@ + debug_list(l) + " "@,
        ValueModel::Stream(s) => "Stream => \n"@ + stream_text(s),
    }
}

fn write_debug_map(out: &mut String, m: &StrMap<String>)
    requires
        m.wf(),
    ensures
        final(out)@ == old(out)@ + debug_map(string_view(*m)),
{
    let ghost items = ordered(string_view(*m)).map_values(|p: (Seq<char>, Seq<char>)| debug_str(p.0) + ": "@ + debug_str(p.1));
    proof {
        lemma_string_pairs_ordered(*m);
    }
    let ghost start = out@;
    out.append("{");
    let n = m.len();
    let mut i: usize = 0;
    while i < n
        invariant
            n == m.pairs().len(),
            m.wf(),
            i <= n,
            items == ordered(string_view(*m)).map_values(|p: (Seq<char>, Seq<char>)| debug_str(p.0) + ": "@ + debug_str(p.1)),
            m.pairs().map_values(|q: (Seq<char>, String)| (q.0, q.1@)) == ordered(string_view(*m)),
            out@ == start + "{"@ + join(items.take(i as int), ", "@),
        decreases n - i,
    {
        let ghost before = out@;
        if i > 0 {
            out.append(", ");
        }
        let k = debug_quote(m.key_at(i).as_str());
        out.append(k.as_str());
        out.append(": ");
        let v = debug_quote(m.value_at(i).as_str());
        out.append(v.as_str());
        proof {
            let o = ordered(string_view(*m));
            assert(o[i as int] == (m.pairs()[i as int].0, m.pairs()[i as int].1@));
            assert(items[i as int] == debug_str(o[i as int].0) + ": "@ + debug_str(o[i as int].1));
            lemma_join_push(items.take(i as int), ", "@, items[i as int]);
            assert(items.take(i as int).push(items[i as int]) =~= items.take(i + 1));
            assert(out@ =~= start + "{"@ + join(items.take(i + 1), ", "@));
        }
        i = i + 1;
    }
    out.append("}");
    proof {
        assert(items.take(n as int) =~= items);
        assert(out@ =~= start + debug_map(string_view(*m)));
    }
}

fn write_debug_set(out: &mut String, set: &StrMap<()>)
    requires
        set.wf(),
    ensures
        final(out)@ == old(out)@ + debug_set(set.map().dom()),
{
    let ghost o = ordered(set.map().dom().mk_map(|k: Seq<char>| ()));
    let ghost items = o.map_values(|p: (Seq<char>, ())| debug_str(p.0));
    proof {
        assert(set.map().dom().mk_map(|k: Seq<char>| ()) =~= set.map());
        set.lemma_pairs_ordered();
    }
    let ghost start = out@;
    out.append("{");
    let n = set.len();
    let mut i: usize = 0;
    while i < n
        invariant
            n == set.pairs().len(),
            i <= n,
            o == set.pairs(),
            items == o.map_values(|p: (Seq<char>, ())| debug_str(p.0)),
            out@ == start + "{"@ + join(items.take(i as int), ", "@),
        decreases n - i,
    {
        if i > 0 {
            out.append(", ");
        }
        let k = debug_quote(set.key_at(i).as_str());
        out.append(k.as_str());
        proof {
            lemma_join_push(items.take(i as int), ", "@, items[i as int]);
            assert(items.take(i as int).push(items[i as int]) =~= items.take(i + 1));
            assert(out@ =~= start + "{"@ + join(items.take(i + 1), ", "@));
        }
        i = i + 1;
    }
    out.append("}");
    proof {
        assert(items.take(n as int) =~= items);
        assert(out@ =~= start + debug_set(set.map().dom()));
    }
}

pub fn write_debug_list(out: &mut String, l: &LinkedList)
    ensures
        final(out)@ == old(out)@ + debug_list(l@),
    decreases l@.len(),
{
    proof {
        lemma_view_len(l);
    }
    let ghost start = out@;
    out.append("LinkedList { value: ");
    let v = debug_quote(l.value.as_str());
    out.append(v.as_str());
    out.append(", next: ");
    match &l.next {
        Some(node) => {
            proof {
                lemma_view_len(&**node);
                assert(l@.drop_first() =~= node@);
            }
            out.append("Some(");
            write_debug_list(out, &**node);
            out.append(")");
        },
        None => {
            out.append("None");
        },
    }
    out.append(" }");
    proof {
        assert(out@ =~= start + debug_list(l@));
    }
}

fn write_fields(out: &mut String, m: &StrMap<String>)
    requires
        m.wf(),
    ensures
        final(out)@ == old(out)@ + fields_text(string_view(*m)),
{
    let ghost items = field_lines(string_view(*m));
    proof {
        lemma_string_pairs_ordered(*m);
    }
    let ghost start = out@;
    let n = m.len();
    let mut i: usize = 0;
    while i < n
        invariant
            n == m.pairs().len(),
            i <= n,
            items == field_lines(string_view(*m)),
            m.pairs().map_values(|q: (Seq<char>, String)| (q.0, q.1@)) == ordered(string_view(*m)),
            out@ == start + concat(items.take(i as int)),
        decreases n - i,
    {
        out.append("    ");
        out.append(m.key_at(i).as_str());
        out.append(" => ");
        out.append(m.value_at(i).as_str());
        out.append("\n");
        proof {
            let o = ordered(string_view(*m));
            assert(o[i as int] == (m.pairs()[i as int].0, m.pairs()[i as int].1@));
            lemma_concat_push(items.take(i as int), items[i as int]);
            assert(items.take(i as int).push(items[i as int]) =~= items.take(i + 1));
            assert(out@ =~= start + concat(items.take(i + 1)));
        }
        i = i + 1;
    }
    proof {
        assert(items.take(n as int) =~= items);
    }
}

fn write_entries(out: &mut String, e: &StrMap<StreamEntry>)
    requires
        e.wf(),
        forall|j: int| 0 <= j < e.pairs().len() ==> entry_ok(#[trigger] e.pairs()[j].1.value),
    ensures
        final(out)@ == old(out)@ + entries_text(e.map().map_values(|x: StreamEntry| entry_model(x.value))),
{
    let ghost f = |x: StreamEntry| entry_model(x.value);
    let ghost o = ordered(e.map().map_values(f));
    let ghost items = entry_blocks(e.map().map_values(f));
    proof {
        lemma_mapped_pairs_ordered(*e, f);
    }
    let ghost start = out@;
    let n = e.len();
    proof {
        assert(o.len() == n);
        assert(items.len() == n);
    }
    let mut i: usize = 0;
    while i < n
        invariant
            n == e.pairs().len(),
            i <= n,
            forall|j: int| 0 <= j < e.pairs().len() ==> entry_ok(#[trigger] e.pairs()[j].1.value),
            e.pairs().map_values(|p: (Seq<char>, StreamEntry)| (p.0, f(p.1))) == o,
            items == entry_blocks(e.map().map_values(f)),
            items.len() == n,
            forall|j: int| 0 <= j < n ==> #[trigger] items[j] == entry_text(o[j]),
            f == (|x: StreamEntry| entry_model(x.value)),
            out@ == start + concat(items.take(i as int)),
        decreases n - i,
    {
        let ghost before = out@;
        out.append("  ID: ");
        out.append(e.key_at(i).as_str());
        let entry = e.value_at(i);
        proof {
            assert(entry_ok(e.pairs()[i as int].1.value));
            assert(o[i as int] == (e.pairs()[i as int].0, f(e.pairs()[i as int].1)));
            reveal_strlit("  ID: ");
            reveal_strlit("\n");
            reveal_strlit(" => ");
        }
        match &entry.value {
            ValueType::Hash(map) => {
                out.append("\n");
                write_fields(out, map);
            },
            _ => {
                out.append(" => ");
                write_value_debug(out, &entry.value);
                out.append("\n");
            },
        }
        proof {
            assert(out@ =~= before + items[i as int]);
            lemma_concat_push(items.take(i as int), items[i as int]);
            assert(items.take(i as int).push(items[i as int]) =~= items.take(i + 1));
            assert(out@ =~= start + concat(items.take(i + 1)));
        }
        i = i + 1;
    }
    proof {
        assert(items.take(n as int) =~= items);
    }
}

fn write_consumer(out: &mut String, name: &String, c: &Consumer)
    requires
        c.pending.wf(),
    ensures
        final(out)@ == old(out)@ + consumer_text((name@, consumer_model(*c))),
{
    let ghost start = out@;
    out.append("      Consumer: ");
    out.append(name.as_str());
    out.append("\n");
    out.append("        Pending IDs: ");
    write_debug_set(out, &c.pending);
    out.append("\n");
    out.append("        Last Seen: ");
    push_decimal(out, c.last_seen);
    out.append("\n");
    assert(out@ =~= start + consumer_text((name@, consumer_model(*c))));
}

fn write_pending(out: &mut String, id: &String, p: &PendingEntry)
    ensures
        final(out)@ == old(out)@ + pending_text((id@, pending_model(*p))),
{
    let ghost start = out@;
    out.append("      Entry ID: ");
    out.append(id.as_str());
    out.append("\n");
    out.append("        Consumer: ");
    out.append(p.consumer_name.as_str());
    out.append("\n");
    out.append("        Timestamp: ");
    push_decimal(out, p.timestamp);
    out.append("\n");
    out.append("        Delivery Count: ");
    push_decimal(out, p.delivery_count as u64);
    out.append("\n");
    assert(out@ =~= start + pending_text((id@, pending_model(*p))));
}

fn write_group(out: &mut String, name: &String, g: &ConsumerGroup)
    requires
        g.wf(),
    ensures
        final(out)@ == old(out)@ + group_text((name@, group_model(*g))),
{
    let ghost start = out@;
    let ghost gm = group_model(*g);
    out.append("  Group: ");
    out.append(name.as_str());
    out.append("\n");
    out.append("    Last Delivered ID: ");
    out.append(g.last_delivered_id.as_str());
    out.append("\n");
    out.append("    Consumers:\n");
    let ghost head = out@;
    let ghost citems = consumer_blocks(gm.consumers);
    let ghost co = ordered(gm.consumers);
    proof {
        lemma_mapped_pairs_ordered(g.consumers, |c: Consumer| consumer_model(c));
        assert(gm.consumers == g.consumers.map().map_values(|c: Consumer| consumer_model(c)));
        crate::str_map::lemma_pairs_map_all(g.consumers.pairs());
    }
    let n = g.consumers.len();
    proof {
        assert(co.len() == n);
    }
    let mut i: usize = 0;
    while i < n
        invariant
            n == g.consumers.pairs().len(),
            g.wf(),
            gm == group_model(*g),
            i <= n,
            co == ordered(gm.consumers),
            co.len() == n,
            citems == consumer_blocks(gm.consumers),
            g.consumers.pairs().map_values(|p: (Seq<char>, Consumer)| (p.0, consumer_model(p.1))) == co,
            forall|j: int| #![trigger g.consumers.pairs()[j]] 0 <= j < n ==> g.consumers.map()[g.consumers.pairs()[j].0] == g.consumers.pairs()[j].1 && g.consumers.map().dom().contains(g.consumers.pairs()[j].0),
            out@ == head + concat(citems.take(i as int)),
        decreases n - i,
    {
        let c = g.consumers.value_at(i);
        proof {
            assert(g.consumers.map()[g.consumers.pairs()[i as int].0] == g.consumers.pairs()[i as int].1);
        }
        write_consumer(out, g.consumers.key_at(i), c);
        proof {
            assert(co[i as int] == (g.consumers.pairs()[i as int].0, consumer_model(g.consumers.pairs()[i as int].1)));
            assert(citems[i as int] == consumer_text(co[i as int]));
            lemma_concat_push(citems.take(i as int), citems[i as int]);
            assert(citems.take(i as int).push(citems[i as int]) =~= citems.take(i + 1));
            assert(out@ =~= head + concat(citems.take(i + 1)));
        }
        i = i + 1;
    }
    proof {
        assert(citems.take(n as int) =~= citems);
    }
    let ghost mid = out@;
    let ghost pitems = pending_blocks(gm.pending);
    let ghost po = ordered(gm.pending);
    proof {
        lemma_mapped_pairs_ordered(g.pending, |p: PendingEntry| pending_model(p));
        assert(gm.pending == g.pending.map().map_values(|p: PendingEntry| pending_model(p)));
    }
    let m = g.pending.len();
    proof {
        assert(po.len() == m);
    }
    if m > 0 {
        out.append("    Pending Entries:\n");
        let ghost head2 = out@;
        let mut j: usize = 0;
        while j < m
            invariant
                m == g.pending.pairs().len(),
                j <= m,
                po == ordered(gm.pending),
                po.len() == m,
                pitems == pending_blocks(gm.pending),
                g.pending.pairs().map_values(|p: (Seq<char>, PendingEntry)| (p.0, pending_model(p.1))) == po,
                out@ == head2 + concat(pitems.take(j as int)),
            decreases m - j,
        {
            write_pending(out, g.pending.key_at(j), g.pending.value_at(j));
            proof {
                assert(po[j as int] == (g.pending.pairs()[j as int].0, pending_model(g.pending.pairs()[j as int].1)));
                assert(pitems[j as int] == pending_text(po[j as int]));
                lemma_concat_push(pitems.take(j as int), pitems[j as int]);
                assert(pitems.take(j as int).push(pitems[j as int]) =~= pitems.take(j + 1));
                assert(out@ =~= head2 + concat(pitems.take(j + 1)));
            }
            j = j + 1;
        }
        proof {
            assert(pitems.take(m as int) =~= pitems);
        }
    }
    proof {
        assert(out@ =~= start + group_text((name@, gm)));
    }
}

fn write_stream(out: &mut String, s: &Stream)
    requires
        s.wf(),
    ensures
        final(out)@ == old(out)@ + stream_text(stream_model(*s)),
{
    let ghost start = out@;
    let ghost sm = stream_model(*s);
    out.append("Stream Entries:\n");
    write_entries(out, &s.entries);
    let ghost mid = out@;
    let ghost gitems = group_blocks(sm.groups);
    let ghost go = ordered(sm.groups);
    proof {
        lemma_mapped_pairs_ordered(s.consumer_groups, |g: ConsumerGroup| group_model(g));
        assert(sm.groups == s.consumer_groups.map().map_values(|g: ConsumerGroup| group_model(g)));
        crate::str_map::lemma_pairs_map_all(s.consumer_groups.pairs());
    }
    let n = s.consumer_groups.len();
    proof {
        assert(go.len() == n);
    }
    if n > 0 {
        out.append("\nConsumer Groups:\n");
        let ghost head = out@;
        let mut i: usize = 0;
        while i < n
            invariant
                n == s.consumer_groups.pairs().len(),
                s.wf(),
                sm == stream_model(*s),
                i <= n,
                go == ordered(sm.groups),
                go.len() == n,
                gitems == group_blocks(sm.groups),
                s.consumer_groups.pairs().map_values(|p: (Seq<char>, ConsumerGroup)| (p.0, group_model(p.1))) == go,
                forall|j: int| #![trigger s.consumer_groups.pairs()[j]] 0 <= j < n ==> s.consumer_groups.map()[s.consumer_groups.pairs()[j].0] == s.consumer_groups.pairs()[j].1 && s.consumer_groups.map().dom().contains(s.consumer_groups.pairs()[j].0),
                out@ == head + concat(gitems.take(i as int)),
            decreases n - i,
        {
            proof {
                assert(s.consumer_groups.map()[s.consumer_groups.pairs()[i as int].0] == s.consumer_groups.pairs()[i as int].1);
            }
            write_group(out, s.consumer_groups.key_at(i), s.consumer_groups.value_at(i));
            proof {
                assert(go[i as int] == (s.consumer_groups.pairs()[i as int].0, group_model(s.consumer_groups.pairs()[i as int].1)));
                assert(gitems[i as int] == group_text(go[i as int]));
                lemma_concat_push(gitems.take(i as int), gitems[i as int]);
                assert(gitems.take(i as int).push(gitems[i as int]) =~= gitems.take(i + 1));
                assert(out@ =~= head + concat(gitems.take(i + 1)));
            }
            i = i + 1;
        }
        proof {
            assert(gitems.take(n as int) =~= gitems);
        }
    }
    proof {
        assert(sm.entries == s.entries.map().map_values(|x: StreamEntry| entry_model(x.value)));
        assert(out@ =~= start + stream_text(sm));
    }
}

impl RedisValue {
    /// The text a client is shown for this value.
    pub fn to_display_string(&self) -> (r: String)
        requires
            value_wf(*self),
        ensures
            r@ == display_text(value_model(*self)),
    {
        let mut out = String::new();
        match &self.value {
            ValueType::String(val) => {
                out.append("Result : ");
                out.append(val.as_str());
            },
            ValueType::Hash(vals) => {
                out.append("Result : ");
                write_debug_map(&mut out, vals);
                out.append(" ");
            },
            ValueType::LinkedList(linked_list) => {
                out.append("Result : ");
                write_debug_list(&mut out, linked_list);
                out.append(" ");
            },
            ValueType::Stream(stream) => {
                out.append("Stream => \n");
                write_stream(&mut out, stream);
            },
        }
        assert(out@ =~= display_text(value_model(*self)));
        out
    }
}

} // verus!
