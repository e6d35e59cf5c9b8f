use vstd::prelude::*;
use crate::text_util::{join, lemma_join_push};
use crate::redis::validator::words_of;

verus! {

/// The words from `start` on, separated by single spaces; empty when `start` is past the end.
pub open spec fn joined_from(parts: Seq<&str>, start: int) -> Seq<char> {
    if start >= parts.len() {
        Seq::<char>::empty()
    } else {
        join(words_of(parts).skip(start), seq![' '])
    }
}

/// The words of `vec` from `start_index` on, separated by single spaces;
/// empty when `start_index` is past the end.
pub fn join_from(vec: &Vec<&str>, start_index: usize) -> (r: String)
    ensures
        r@ == joined_from(vec@, start_index as int),
{
    let mut out = String::new();
    if start_index >= vec.len() {
        return out;
    }
    let ghost ws = words_of(vec@).skip(start_index as int);
    let mut i = start_index;
    while i < vec.len()
        invariant
            start_index <= i <= vec.len(),
            ws == words_of(vec@).skip(start_index as int),
            out@ == join(ws.take(i - start_index), seq![' ']),
        decreases vec.len() - i,
    {
        proof {
            lemma_join_push(ws.take(i - start_index), seq![' '], vec@[i as int]@);
            assert(ws.take(i - start_index).push(vec@[i as int]@) =~= ws.take(i + 1 - start_index));
        }
        if i > start_index {
            out.append(" ");
            proof { reveal_strlit(" "); }
        }
        out.append(vec[i]);
        i = i + 1;
    }
    assert(ws.take(vec.len() - start_index) =~= ws);
    out
}

} // verus!
