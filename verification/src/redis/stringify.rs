use vstd::prelude::*;
use crate::str_map::{StrMap, ordered, sorted_pairs, pairs_map, string_view, lemma_pairs_map_values, lemma_sorted_unique, lemma_string_pairs_ordered, lemma_pairs_map_all};
use crate::redis::stream::nested_view;
use crate::text_util::{join, lemma_join_push, quoted, push_char};

verus! {

/// `"key":"value"`.
pub open spec fn field_text(p: (Seq<char>, Seq<char>)) -> Seq<char> {
    quoted(p.0) + seq![':'] + quoted(p.1)
}

/// `"key":{fields}`.
pub open spec fn group_text(p: (Seq<char>, Seq<(Seq<char>, Seq<char>)>)) -> Seq<char> {
    quoted(p.0) + seq![':', '{'] + join(p.1.map_values(|f: (Seq<char>, Seq<char>)| field_text(f)), seq![',']) + seq!['}']
}

/// The pairs of a map of strings, by their characters.
pub open spec fn string_pairs(m: StrMap<String>) -> Seq<(Seq<char>, Seq<char>)> {
    m.pairs().map_values(|q: (Seq<char>, String)| (q.0, q.1@))
}

/// The pairs of a map of maps of strings, by their characters.
pub open spec fn nested_pairs(m: StrMap<StrMap<String>>) -> Seq<(Seq<char>, Seq<(Seq<char>, Seq<char>)>)> {
    m.pairs().map_values(|p: (Seq<char>, StrMap<String>)| (p.0, string_pairs(p.1)))
}

/// The JSON-like text of a map of maps: `{"k":{"a":"b",...},...}`.
pub open spec fn stringify(m: Seq<(Seq<char>, Seq<(Seq<char>, Seq<char>)>)>) -> Seq<char> {
    seq!['{'] + join(m.map_values(|p: (Seq<char>, Seq<(Seq<char>, Seq<char>)>)| group_text(p)), seq![',']) + seq!['}']
}

fn push_quoted(s: &mut String, t: &str)
    ensures
        final(s)@ == old(s)@ + quoted(t@),
{
    push_char(s, '"');
    s.append(t);
    push_char(s, '"');
    assert(s@ =~= old(s)@ + quoted(t@));
}

/// Writes `map` as `{"k":{"a":"b",...},...}`, in key order.
pub fn stringify_map(map: &StrMap<StrMap<String>>) -> (r: String)
    ensures
        r@ == stringify(nested_pairs(*map)),
{
    let ghost groups = nested_pairs(*map).map_values(|p: (Seq<char>, Seq<(Seq<char>, Seq<char>)>)| group_text(p));
    let mut result = String::new();
    push_char(&mut result, '{');
    let n = map.len();
    let mut i: usize = 0;
    while i < n
        invariant
            n == map.pairs().len(),
            i <= n,
            groups == nested_pairs(*map).map_values(|p: (Seq<char>, Seq<(Seq<char>, Seq<char>)>)| group_text(p)),
            result@ == seq!['{'] + join(groups.take(i as int), seq![',']),
        decreases n - i,
    {
        let outer_key = map.key_at(i);
        let inner_map = map.value_at(i);
        let ghost before = result@;
        let ghost fields = string_pairs(*inner_map).map_values(|f: (Seq<char>, Seq<char>)| field_text(f));
        if i > 0 {
            push_char(&mut result, ',');
        }
        let ghost after_sep = result@;
        push_quoted(&mut result, outer_key.as_str());
        push_char(&mut result, ':');
        push_char(&mut result, '{');
        let ghost head = result@;
        let m = inner_map.len();
        let mut j: usize = 0;
        while j < m
            invariant
                m == inner_map.pairs().len(),
                j <= m,
                fields == string_pairs(*inner_map).map_values(|f: (Seq<char>, Seq<char>)| field_text(f)),
                result@ == head + join(fields.take(j as int), seq![',']),
            decreases m - j,
        {
            let ghost prev = result@;
            if j > 0 {
                push_char(&mut result, ',');
            }
            push_quoted(&mut result, inner_map.key_at(j).as_str());
            push_char(&mut result, ':');
            push_quoted(&mut result, inner_map.value_at(j).as_str());
            proof {
                lemma_join_push(fields.take(j as int), seq![','], fields[j as int]);
                assert(fields.take(j as int).push(fields[j as int]) =~= fields.take(j + 1));
                assert(fields[j as int] == field_text((inner_map.pairs()[j as int].0, inner_map.pairs()[j as int].1@)));
                assert(result@ =~= head + join(fields.take(j + 1), seq![',']));
            }
            j = j + 1;
        }
        push_char(&mut result, '}');
        proof {
            assert(fields.take(m as int) =~= fields);
            let g = group_text(nested_pairs(*map)[i as int]);
            assert(nested_pairs(*map)[i as int] == (outer_key@, string_pairs(*inner_map)));
            assert(g == quoted(outer_key@) + seq![':', '{'] + join(fields, seq![',']) + seq!['}']);
            lemma_join_push(groups.take(i as int), seq![','], groups[i as int]);
            assert(groups.take(i as int).push(groups[i as int]) =~= groups.take(i + 1));
            assert(result@ =~= seq!['{'] + join(groups.take(i + 1), seq![',']));
        }
        i = i + 1;
    }
    push_char(&mut result, '}');
    proof {
        assert(groups.take(n as int) =~= groups);
        assert(result@ =~= stringify(nested_pairs(*map)));
    }
    result
}

/// The sequence of (key, field pairs) of a map of field maps that stands for `w`.
pub proof fn lemma_nested_pairs(r: StrMap<StrMap<String>>, w: Seq<(Seq<char>, Map<Seq<char>, Seq<char>>)>)
    requires
        r.wf(),
        forall|k: Seq<char>| #[trigger] r.map().dom().contains(k) ==> r.map()[k].wf(),
        sorted_pairs(w),
        nested_view(r) == pairs_map(w),
    ensures
        nested_pairs(r) == w.map_values(|p: (Seq<char>, Map<Seq<char>, Seq<char>>)| (p.0, ordered(p.1))),
{
    let sv = |m: StrMap<String>| string_view(m);
    lemma_pairs_map_values(r.pairs(), sv);
    let n = r.pairs().map_values(|p: (Seq<char>, StrMap<String>)| (p.0, sv(p.1)));
    assert(pairs_map(r.pairs()).map_values(sv) =~= nested_view(r));
    lemma_sorted_unique(n, w);
    lemma_pairs_map_all(r.pairs());
    let lhs = nested_pairs(r);
    let rhs = w.map_values(|p: (Seq<char>, Map<Seq<char>, Seq<char>>)| (p.0, ordered(p.1)));
    assert forall|j: int| 0 <= j < lhs.len() implies lhs[j] == rhs[j] by {
        let e = r.pairs()[j];
        assert(r.map()[e.0] == e.1);
        lemma_string_pairs_ordered(e.1);
        assert(n[j] == w[j]);
    }
    assert(lhs =~= rhs);
}

} // verus!
