//! A counter that can go up and down: one grow-only count of increments and
//! one of decrements per key.
use vstd::prelude::*;
use crate::str_map::{
    StrMap, sorted_pairs, pairs_map, lemma_pairs_insert, ordered, seq_less, lemma_pairs_update, lemma_pairs_map_at,
    lemma_less_transitive, lemma_less_irreflexive, lemma_less_total, lemma_sorted_unique,
};
use crate::text_util::{decimal, u64_to_string};
use crate::crdt::gc_counter::count_of;

verus! {

/// The join of two count maps: every key of either, with the larger count.
pub open spec fn pn_join(a: Map<Seq<char>, u64>, b: Map<Seq<char>, u64>) -> Map<Seq<char>, u64> {
    Map::new(
        |k: Seq<char>| a.dom().contains(k) || b.dom().contains(k),
        |k: Seq<char>|
            if a.dom().contains(k) && b.dom().contains(k) {
                if b[k] > a[k] { b[k] } else { a[k] }
            } else if a.dom().contains(k) {
                a[k]
            } else {
                b[k]
            },
    )
}

/// The sum of the counts of a sequence of pairs.
pub open spec fn pairs_sum(s: Seq<(Seq<char>, u64)>) -> nat
    decreases s.len(),
{
    if s.len() == 0 {
        0
    } else {
        pairs_sum(s.drop_last()) + s.last().1 as nat
    }
}

/// The sum of all the counts of `m`.
pub open spec fn count_sum(m: Map<Seq<char>, u64>) -> nat {
    pairs_sum(ordered(m))
}

proof fn lemma_prefix_sum_le(s: Seq<(Seq<char>, u64)>, i: int)
    requires
        0 <= i <= s.len(),
    ensures
        pairs_sum(s.take(i)) <= pairs_sum(s),
    decreases s.len() - i,
{
    if i < s.len() {
        lemma_prefix_sum_le(s, i + 1);
        assert(s.take(i + 1).drop_last() =~= s.take(i));
    } else {
        assert(s.take(i) =~= s);
    }
}

pub struct PnCounter {
    pub increment: StrMap<u64>,
    pub decrement: StrMap<u64>,
}

impl View for PnCounter {
    type V = (Map<Seq<char>, u64>, Map<Seq<char>, u64>);

    open spec fn view(&self) -> (Map<Seq<char>, u64>, Map<Seq<char>, u64>) {
        (self.increment.map(), self.decrement.map())
    }
}

/// Adds `val` to the count of `key` in `m`.
fn add_to(m: &mut StrMap<u64>, key: String, val: u64)
    requires
        old(m).wf(),
        count_of(old(m).map(), key@) + val <= u64::MAX,
    ensures
        final(m).wf(),
        final(m).map() == old(m).map().insert(key@, (count_of(old(m).map(), key@) + val) as u64),
{
    let next: u64 = match m.get(key.as_str()) {
        Some(value) => *value + val,
        None => val,
    };
    m.insert(key, next);
}

/// Joins every pair of `other` into `m`.
fn join_into(m: &mut StrMap<u64>, other: &StrMap<u64>)
    requires
        old(m).wf(),
        other.wf(),
    ensures
        final(m).wf(),
        final(m).map() == pn_join(old(m).map(), other.map()),
{
    let ghost base = m.map();
    let ghost op = other.pairs();
    let n = other.len();
    let mut i: usize = 0;
    proof {
        assert(pn_join(base, pairs_map(op.take(0))) =~= base);
    }
    while i < n
        invariant
            n == op.len(),
            i <= n,
            op == other.pairs(),
            sorted_pairs(op),
            m.wf(),
            m.map() == pn_join(base, pairs_map(op.take(i as int))),
        decreases n - i,
    {
        let key = other.key_at(i).clone();
        let v: u64 = *other.value_at(i);
        let next: u64 = match m.get(key.as_str()) {
            Some(cur) => if v > *cur { v } else { *cur },
            None => v,
        };
        let ghost before = m.map();
        m.insert(key, next);
        proof {
            let t = op.take(i as int);
            assert(sorted_pairs(t));
            assert forall|j: int| 0 <= j < i implies crate::str_map::seq_less(#[trigger] t[j].0, op[i as int].0) by {
                assert(t[j] == op[j]);
            }
            lemma_pairs_insert(t, i as int, op[i as int].0, op[i as int].1);
            assert(t.insert(i as int, (op[i as int].0, op[i as int].1)) =~= op.take(i + 1));
            let pm = pairs_map(t);
            assert(!pm.dom().contains(op[i as int].0)) by {
                if pm.dom().contains(op[i as int].0) {
                    let j = choose|j: int| 0 <= j < t.len() && #[trigger] t[j].0 == op[i as int].0;
                    assert(crate::str_map::seq_less(t[j].0, op[i as int].0));
                    crate::str_map::lemma_less_irreflexive(op[i as int].0);
                }
            }
            assert(m.map() =~= pn_join(base, pm.insert(op[i as int].0, op[i as int].1)));
        }
        i = i + 1;
    }
    proof {
        assert(op.take(n as int) =~= op);
    }
}

/// The sum of the counts of `m`.
fn sum_counts(m: &StrMap<u64>) -> (r: u64)
    requires
        pairs_sum(m.pairs()) <= u64::MAX,
    ensures
        r == pairs_sum(m.pairs()),
{
    let ghost s = m.pairs();
    let n = m.len();
    let mut total: u64 = 0;
    let mut i: usize = 0;
    proof {
        assert(s.take(0) =~= Seq::<(Seq<char>, u64)>::empty());
    }
    while i < n
        invariant
            n == s.len(),
            s == m.pairs(),
            i <= n,
            pairs_sum(s) <= u64::MAX,
            total == pairs_sum(s.take(i as int)),
        decreases n - i,
    {
        proof {
            lemma_prefix_sum_le(s, i + 1);
            assert(s.take(i + 1).drop_last() =~= s.take(i as int));
        }
        total = *m.value_at(i) + total;
        i = i + 1;
    }
    proof {
        assert(s.take(n as int) =~= s);
    }
    total
}

impl PnCounter {
    pub open spec fn wf(&self) -> bool {
        self.increment.wf() && self.decrement.wf()
    }

    pub fn new() -> (c: PnCounter)
        ensures
            c.wf(),
            c@.0 == Map::<Seq<char>, u64>::empty(),
            c@.1 == Map::<Seq<char>, u64>::empty(),
    {
        PnCounter { increment: StrMap::new(), decrement: StrMap::new() }
    }

    /// Adds `val` to the increments of `key`.
    pub fn increment(&mut self, key: String, val: u64)
        requires
            old(self).wf(),
            count_of(old(self)@.0, key@) + val <= u64::MAX,
        ensures
            final(self).wf(),
            final(self)@.0 == old(self)@.0.insert(key@, (count_of(old(self)@.0, key@) + val) as u64),
            final(self)@.1 == old(self)@.1,
    {
        add_to(&mut self.increment, key, val);
    }

    /// Adds `val` to the decrements of `key`.
    pub fn decrement(&mut self, key: String, val: u64)
        requires
            old(self).wf(),
            count_of(old(self)@.1, key@) + val <= u64::MAX,
        ensures
            final(self).wf(),
            final(self)@.0 == old(self)@.0,
            final(self)@.1 == old(self)@.1.insert(key@, (count_of(old(self)@.1, key@) + val) as u64),
    {
        add_to(&mut self.decrement, key, val);
    }

    /// Joins `other` into `self`, key by key, on both sides.
    pub fn merge(&mut self, other: &PnCounter)
        requires
            old(self).wf(),
            other.wf(),
        ensures
            final(self).wf(),
            final(self)@.0 == pn_join(old(self)@.0, other@.0),
            final(self)@.1 == pn_join(old(self)@.1, other@.1),
    {
        join_into(&mut self.increment, &other.increment);
        join_into(&mut self.decrement, &other.decrement);
    }

    /// All increments minus all decrements, in decimal.
    pub fn total(&self) -> (r: String)
        requires
            self.wf(),
            count_sum(self@.0) <= u64::MAX,
            count_sum(self@.1) <= count_sum(self@.0),
        ensures
            r@ == decimal((count_sum(self@.0) - count_sum(self@.1)) as nat),
    {
        proof {
            self.increment.lemma_pairs_ordered();
            self.decrement.lemma_pairs_ordered();
        }
        let total_increment = sum_counts(&self.increment);
        let total_decrement = sum_counts(&self.decrement);
        u64_to_string(total_increment - total_decrement)
    }
}

/// Joining is the same in either order.
pub proof fn pn_join_commutative(a: Map<Seq<char>, u64>, b: Map<Seq<char>, u64>)
    ensures
        pn_join(a, b) == pn_join(b, a),
{
    assert(pn_join(a, b) =~= pn_join(b, a));
}

/// Joining is the same however the joins are grouped.
pub proof fn pn_join_associative(a: Map<Seq<char>, u64>, b: Map<Seq<char>, u64>, c: Map<Seq<char>, u64>)
    ensures
        pn_join(pn_join(a, b), c) == pn_join(a, pn_join(b, c)),
{
    assert(pn_join(pn_join(a, b), c) =~= pn_join(a, pn_join(b, c)));
}

/// Joining a counter with itself changes nothing.
pub proof fn pn_join_idempotent(a: Map<Seq<char>, u64>)
    ensures
        pn_join(a, a) == a,
{
    assert(pn_join(a, a) =~= a);
}

/// A join keeps every key of both sides and never lowers a count.
pub proof fn pn_join_inflates(a: Map<Seq<char>, u64>, b: Map<Seq<char>, u64>, k: Seq<char>)
    ensures
        count_of(pn_join(a, b), k) >= count_of(a, k),
        count_of(pn_join(a, b), k) >= count_of(b, k),
{
}

/// Two replicas that merge each other in turn end up equal: merging `a`
/// into `b` after `b` was merged into `a` gives what `a` holds.
pub proof fn pn_replicas_converge(a: Map<Seq<char>, u64>, b: Map<Seq<char>, u64>)
    ensures
        pn_join(b, pn_join(a, b)) == pn_join(a, b),
{
    assert(pn_join(b, pn_join(a, b)) =~= pn_join(a, b));
}

/// Merging keeps every key of either side; a key on one side only keeps
/// its count, and a key on both sides takes the larger of its two counts.
pub proof fn pn_join_takes_the_larger(a: Map<Seq<char>, u64>, b: Map<Seq<char>, u64>, k: Seq<char>)
    ensures
        pn_join(a, b).dom().contains(k) <==> (a.dom().contains(k) || b.dom().contains(k)),
        a.dom().contains(k) && !b.dom().contains(k) ==> pn_join(a, b)[k] == a[k],
        b.dom().contains(k) && !a.dom().contains(k) ==> pn_join(a, b)[k] == b[k],
        a.dom().contains(k) && b.dom().contains(k) ==> {
            &&& pn_join(a, b)[k] == a[k] || pn_join(a, b)[k] == b[k]
            &&& pn_join(a, b)[k] >= a[k] && pn_join(a, b)[k] >= b[k]
        },
{
}

/// The sorted pairs `s` with the count of `k` set to `x`.
spec fn put_sorted(s: Seq<(Seq<char>, u64)>, k: Seq<char>, x: u64) -> Seq<(Seq<char>, u64)>
    decreases s.len(),
{
    if s.len() == 0 {
        seq![(k, x)]
    } else if s.last().0 == k {
        s.drop_last().push((k, x))
    } else if seq_less(s.last().0, k) {
        s.push((k, x))
    } else {
        put_sorted(s.drop_last(), k, x).push(s.last())
    }
}

/// Setting one count in sorted pairs keeps them sorted, sets it in their
/// map, and moves their sum by the difference.
proof fn lemma_put_sorted(s: Seq<(Seq<char>, u64)>, k: Seq<char>, x: u64)
    requires
        sorted_pairs(s),
    ensures
        sorted_pairs(put_sorted(s, k, x)),
        pairs_map(put_sorted(s, k, x)) == pairs_map(s).insert(k, x),
        pairs_sum(put_sorted(s, k, x)) + count_of(pairs_map(s), k) == pairs_sum(s) + x,
    decreases s.len(),
{
    let t = put_sorted(s, k, x);
    if s.len() == 0 {
        lemma_pairs_insert(s, 0, k, x);
        assert(s.insert(0, (k, x)) =~= t);
        assert(pairs_map(s) =~= Map::<Seq<char>, u64>::empty());
        assert(t.drop_last() =~= s);
    } else if s.last().0 == k {
        let i = s.len() - 1;
        lemma_pairs_update(s, i, x);
        assert(s.update(i, (k, x)) =~= t);
        lemma_pairs_map_at(s, i);
        assert(t.drop_last() =~= s.drop_last());
    } else if seq_less(s.last().0, k) {
        assert forall|j: int| 0 <= j < s.len() implies seq_less(#[trigger] s[j].0, k) by {
            if j < s.len() - 1 {
                lemma_less_transitive(s[j].0, s.last().0, k);
            }
        }
        lemma_pairs_insert(s, s.len() as int, k, x);
        assert(s.insert(s.len() as int, (k, x)) =~= t);
        assert(!pairs_map(s).dom().contains(k)) by {
            if pairs_map(s).dom().contains(k) {
                let j = choose|j: int| 0 <= j < s.len() && #[trigger] s[j].0 == k;
                lemma_less_irreflexive(k);
            }
        }
        assert(t.drop_last() =~= s);
    } else {
        let init = s.drop_last();
        let last = s.last();
        lemma_less_total(last.0, k);
        assert(seq_less(k, last.0));
        assert(sorted_pairs(init)) by {
            assert forall|a: int, b: int| 0 <= a < b < init.len() implies seq_less(#[trigger] init[a].0, #[trigger] init[b].0) by {
                assert(init[a] == s[a] && init[b] == s[b]);
            }
        }
        lemma_put_sorted(init, k, x);
        let u = put_sorted(init, k, x);
        assert forall|j: int| 0 <= j < u.len() implies seq_less(#[trigger] u[j].0, last.0) by {
            assert(pairs_map(u).dom().contains(u[j].0));
            if u[j].0 != k {
                assert(pairs_map(init).dom().contains(u[j].0));
                let i = choose|i: int| 0 <= i < init.len() && #[trigger] init[i].0 == u[j].0;
                assert(s[i].0 == init[i].0);
            }
        }
        lemma_pairs_insert(u, u.len() as int, last.0, last.1);
        assert(u.insert(u.len() as int, last) =~= t);
        assert forall|j: int| 0 <= j < init.len() implies seq_less(#[trigger] init[j].0, last.0) by {
            assert(init[j] == s[j]);
        }
        lemma_pairs_insert(init, init.len() as int, last.0, last.1);
        assert(init.insert(init.len() as int, last) =~= s);
        assert(pairs_map(t) =~= pairs_map(s).insert(k, x));
        assert(t.drop_last() =~= u);
        assert(count_of(pairs_map(s), k) == count_of(pairs_map(init), k));
    }
}

/// The sum of the counts once one count is set to `x`.
proof fn lemma_count_sum_put(m: StrMap<u64>, k: Seq<char>, x: u64)
    requires
        m.wf(),
    ensures
        count_sum(m.map().insert(k, x)) + count_of(m.map(), k) == count_sum(m.map()) + x,
{
    m.lemma_pairs_ordered();
    let s = m.pairs();
    lemma_put_sorted(s, k, x);
    let t = put_sorted(s, k, x);
    let o = ordered(m.map().insert(k, x));
    assert(sorted_pairs(o) && pairs_map(o) == m.map().insert(k, x));
    lemma_sorted_unique(o, t);
}

/// An increment by `val` raises the sum of the increments, and so the
/// total, by `val`.
pub proof fn increment_raises_total(c: PnCounter, key: Seq<char>, val: u64)
    requires
        c.wf(),
        count_of(c@.0, key) + val <= u64::MAX,
    ensures
        count_sum(c@.0.insert(key, (count_of(c@.0, key) + val) as u64)) == count_sum(c@.0) + val,
{
    lemma_count_sum_put(c.increment, key, (count_of(c@.0, key) + val) as u64);
}

/// A decrement by `val` raises the sum of the decrements, and so lowers
/// the total, by `val`.
pub proof fn decrement_lowers_total(c: PnCounter, key: Seq<char>, val: u64)
    requires
        c.wf(),
        count_of(c@.1, key) + val <= u64::MAX,
    ensures
        count_sum(c@.1.insert(key, (count_of(c@.1, key) + val) as u64)) == count_sum(c@.1) + val,
{
    lemma_count_sum_put(c.decrement, key, (count_of(c@.1, key) + val) as u64);
}

} // verus!
