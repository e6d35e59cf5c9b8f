//! An observed-remove set: per element, the timestamps it was added under
//! and the timestamps it was removed under.
use vstd::prelude::*;
use std::collections::HashSet;
use crate::str_map::{StrMap, sorted_pairs, pairs_map, lemma_pairs_insert, lemma_pairs_map_all, seq_less, lemma_less_irreflexive};

verus! {

broadcast use vstd::std_specs::hash::group_hash_axioms;

/// The timestamps of `k`, empty when the element is absent.
pub open spec fn stamps_of(m: Map<Seq<char>, Set<u64>>, k: Seq<char>) -> Set<u64> {
    if m.dom().contains(k) {
        m[k]
    } else {
        Set::empty()
    }
}

/// The join of two timestamp maps: every element of either, with the union of its timestamps.
pub open spec fn or_join(a: Map<Seq<char>, Set<u64>>, b: Map<Seq<char>, Set<u64>>) -> Map<Seq<char>, Set<u64>> {
    Map::new(
        |k: Seq<char>| a.dom().contains(k) || b.dom().contains(k),
        |k: Seq<char>| stamps_of(a, k).union(stamps_of(b, k)),
    )
}

/// Whether `k` is in the set: it was added, and either never removed or
/// added under some timestamp that was not removed.
pub open spec fn or_active(adds: Map<Seq<char>, Set<u64>>, rems: Map<Seq<char>, Set<u64>>, k: Seq<char>) -> bool {
    &&& adds.dom().contains(k)
    &&& (!rems.dom().contains(k) || exists|t: u64| adds[k].contains(t) && !rems[k].contains(t))
}

/// The view of a map of timestamp sets.
pub open spec fn stamp_view(m: StrMap<HashSet<u64>>) -> Map<Seq<char>, Set<u64>> {
    m.map().map_values(|s: HashSet<u64>| s@)
}

pub trait OrSetTrait {
    fn new() -> OrSet;

    fn add(&mut self, key: String, val: u64);

    fn remove(&mut self, key: String, val: u64);

    fn merge(&mut self, other: &OrSet);

    fn value(&self) -> Vec<String>;
}

pub struct OrSet {
    additions: StrMap<HashSet<u64>>,
    removals: StrMap<HashSet<u64>>,
}

impl OrSet {
    #[verifier::type_invariant]
    spec fn inv(self) -> bool {
        self.additions.wf() && self.removals.wf()
    }

    /// The additions, element by element.
    pub closed spec fn added(self) -> Map<Seq<char>, Set<u64>> {
        stamp_view(self.additions)
    }

    /// The removals, element by element.
    pub closed spec fn removed(self) -> Map<Seq<char>, Set<u64>> {
        stamp_view(self.removals)
    }
}

/// Adds `val` to the timestamps of `key` in `m`.
fn add_stamp(m: &mut StrMap<HashSet<u64>>, key: String, val: u64)
    requires
        old(m).wf(),
    ensures
        final(m).wf(),
        stamp_view(*final(m)) == stamp_view(*old(m)).insert(key@, stamps_of(stamp_view(*old(m)), key@).insert(val)),
{
    let ghost k = key@;
    let ghost before = stamp_view(*m);
    let mut set: HashSet<u64> = match m.remove(key.as_str()) {
        Some(s) => s,
        None => HashSet::new(),
    };
    set.insert(val);
    m.insert(key, set);
    proof {
        assert(stamp_view(*m) =~= before.insert(k, stamps_of(before, k).insert(val)));
    }
}

proof fn lemma_stamps_step(s: Seq<&u64>, i: int, t: u64)
    requires
        0 <= i < s.len(),
        *s[i] == t,
    ensures
        s.take(i + 1).unref().to_set() == s.take(i).unref().to_set().insert(t),
        i + 1 == s.len() ==> s.take(i + 1) == s,
        s.unref().to_set().contains(t),
{
    let prev = s.take(i).unref();
    let next = s.take(i + 1).unref();
    assert(next =~= prev.push(t));
    assert forall|x: u64| next.to_set().contains(x) <==> prev.to_set().insert(t).contains(x) by {
        if next.to_set().contains(x) && x != t {
            let j = choose|j: int| 0 <= j < next.len() && next[j] == x;
            assert(prev[j] == x);
        }
        if prev.to_set().contains(x) {
            let j = choose|j: int| 0 <= j < prev.len() && prev[j] == x;
            assert(next[j] == x);
        }
        if x == t {
            assert(next[i] == x);
        }
    }
    assert(next.to_set() =~= prev.to_set().insert(t));
    if i + 1 == s.len() {
        assert(s.take(i + 1) =~= s);
    }
    assert(s.unref()[i] == t);
}

proof fn lemma_all_seen(s: Seq<&u64>, n: int, rems: Set<u64>)
    requires
        0 <= n <= s.len(),
        forall|j: int| 0 <= j < n ==> rems.contains(*#[trigger] s[j]),
    ensures
        n == s.len() ==> forall|t: u64| s.unref().to_set().contains(t) ==> rems.contains(t),
{
    if n == s.len() {
        assert forall|t: u64| s.unref().to_set().contains(t) implies rems.contains(t) by {
            let m = s.unref();
            let j = choose|j: int| 0 <= j < m.len() && m[j] == t;
            assert(rems.contains(*s[j]));
        }
    }
}

/// Adds every timestamp of `src` to `dst`.
fn union_into(dst: &mut HashSet<u64>, src: &HashSet<u64>)
    ensures
        final(dst)@ == old(dst)@.union(src@),
{
    let ghost start = dst@;
    for t in it: src.iter()
        invariant
            it.seq().unref().to_set() == src@,
            dst@ == start.union(it.seq().take(it.index()).unref().to_set()),
            it.index() == it.seq().len() ==> dst@ == start.union(src@),
    {
        dst.insert(*t);
        proof {
            lemma_stamps_step(it.seq(), it.index(), *t);
        }
    }
}

/// Joins every timestamp set of `other` into `m`.
fn join_stamps(m: &mut StrMap<HashSet<u64>>, other: &StrMap<HashSet<u64>>)
    requires
        old(m).wf(),
        other.wf(),
    ensures
        final(m).wf(),
        stamp_view(*final(m)) == or_join(stamp_view(*old(m)), stamp_view(*other)),
{
    let ghost base = stamp_view(*m);
    let ghost op = other.pairs();
    let n = other.len();
    let mut i: usize = 0;
    proof {
        let e = pairs_map(op.take(0)).map_values(|s: HashSet<u64>| s@);
        assert(e =~= Map::<Seq<char>, Set<u64>>::empty());
        assert forall|k: Seq<char>| #[trigger] base.dom().contains(k) implies or_join(base, e)[k] == base[k] by {
            assert(or_join(base, e)[k] =~= base[k]);
        }
        assert(or_join(base, e) =~= base);
    }
    while i < n
        invariant
            n == op.len(),
            i <= n,
            op == other.pairs(),
            sorted_pairs(op),
            m.wf(),
            stamp_view(*m) == or_join(base, pairs_map(op.take(i as int)).map_values(|s: HashSet<u64>| s@)),
        decreases n - i,
    {
        let key = other.key_at(i).clone();
        let ghost k = key@;
        let ghost before = stamp_view(*m);
        let ghost before_map = m.map();
        let mut set: HashSet<u64> = match m.remove(key.as_str()) {
            Some(s) => s,
            None => HashSet::new(),
        };
        proof {
            assert(set@ == stamps_of(before, k));
        }
        let ghost mid_map = m.map();
        union_into(&mut set, other.value_at(i));
        let ghost last = set;
        m.insert(key, set);
        proof {
            assert(m.map() == mid_map.insert(k, last));
            assert(mid_map == before_map.remove(k));
            assert(stamp_view(*m) =~= before.insert(k, last@));
            assert(last@ == stamps_of(before, k).union(op[i as int].1@));
            let t = op.take(i as int);
            assert forall|j: int| 0 <= j < i implies seq_less(#[trigger] t[j].0, op[i as int].0) by {
                assert(t[j] == op[j]);
            }
            lemma_pairs_insert(t, i as int, op[i as int].0, op[i as int].1);
            assert(t.insert(i as int, (op[i as int].0, op[i as int].1)) =~= op.take(i + 1));
            let pm = pairs_map(t);
            assert(!pm.dom().contains(op[i as int].0)) by {
                if pm.dom().contains(op[i as int].0) {
                    let j = choose|j: int| 0 <= j < t.len() && #[trigger] t[j].0 == op[i as int].0;
                    assert(seq_less(t[j].0, op[i as int].0));
                    lemma_less_irreflexive(op[i as int].0);
                }
            }
            let pv = pm.map_values(|s: HashSet<u64>| s@);
            let pv2 = pm.insert(op[i as int].0, op[i as int].1).map_values(|s: HashSet<u64>| s@);
            assert(pv2 =~= pv.insert(k, op[i as int].1@));
            let goal = or_join(base, pv2);
            let got = stamp_view(*m);
            assert forall|x: Seq<char>| got.dom().contains(x) <==> goal.dom().contains(x) by {}
            assert forall|x: Seq<char>| #[trigger] got.dom().contains(x) implies got[x] == goal[x] by {
                if x == k {
                    assert(stamps_of(pv, k) =~= Set::<u64>::empty());
                    assert(stamps_of(pv2, k) == op[i as int].1@);
                    assert(got[x] =~= goal[x]);
                } else {
                    assert(got[x] == before[x]);
                    assert(stamps_of(pv2, x) == stamps_of(pv, x));
                }
            }
            assert(got =~= goal);
        }
        i = i + 1;
    }
    proof {
        assert(op.take(n as int) =~= op);
    }
}

/// Whether some timestamp of `adds` is missing from `rems`.
fn has_unremoved(adds: &HashSet<u64>, rems: &HashSet<u64>) -> (r: bool)
    ensures
        r == exists|t: u64| adds@.contains(t) && !rems@.contains(t),
{
    for t in it: adds.iter()
        invariant
            it.seq().unref().to_set() == adds@,
            forall|j: int| 0 <= j < it.index() ==> rems@.contains(*#[trigger] it.seq()[j]),
            it.index() == it.seq().len() ==> forall|t: u64| adds@.contains(t) ==> rems@.contains(t),
    {
        proof {
            lemma_stamps_step(it.seq(), it.index(), *t);
        }
        if !rems.contains(t) {
            return true;
        }
        proof {
            lemma_all_seen(it.seq(), it.index() + 1, rems@);
        }
    }
    false
}

impl OrSetTrait for OrSet {
    fn new() -> (s: OrSet)
        ensures
            s.added() == Map::<Seq<char>, Set<u64>>::empty(),
            s.removed() == Map::<Seq<char>, Set<u64>>::empty(),
    {
        let s = OrSet { additions: StrMap::new(), removals: StrMap::new() };
        assert(s.added() =~= Map::<Seq<char>, Set<u64>>::empty());
        assert(s.removed() =~= Map::<Seq<char>, Set<u64>>::empty());
        s
    }

    /// Records `key` as added under timestamp `val`.
    fn add(&mut self, key: String, val: u64)
        ensures
            final(self).added() == old(self).added().insert(key@, stamps_of(old(self).added(), key@).insert(val)),
            final(self).removed() == old(self).removed(),
    {
        proof { use_type_invariant(&*self); }
        let mut adds = StrMap::new();
        std::mem::swap(&mut adds, &mut self.additions);
        add_stamp(&mut adds, key, val);
        self.additions = adds;
    }

    /// Records timestamp `val` as removed for `key` when `key` already has
    /// removals; when it has none, the additions of `key` become just `val`.
    fn remove(&mut self, key: String, val: u64)
        ensures
            old(self).removed().dom().contains(key@) ==> {
                &&& final(self).removed() == old(self).removed().insert(key@, old(self).removed()[key@].insert(val))
                &&& final(self).added() == old(self).added()
            },
            !old(self).removed().dom().contains(key@) ==> {
                &&& final(self).added() == old(self).added().insert(key@, Set::<u64>::empty().insert(val))
                &&& final(self).removed() == old(self).removed()
            },
    {
        proof { use_type_invariant(&*self); }
        if self.removals.contains_key(key.as_str()) {
            let mut rems = StrMap::new();
            std::mem::swap(&mut rems, &mut self.removals);
            add_stamp(&mut rems, key, val);
            self.removals = rems;
        } else {
            let mut new_set: HashSet<u64> = HashSet::new();
            new_set.insert(val);
            let ghost before = self.added();
            let ghost k = key@;
            let mut adds = StrMap::new();
            std::mem::swap(&mut adds, &mut self.additions);
            adds.insert(key, new_set);
            self.additions = adds;
            proof {
                assert(self.added() =~= before.insert(k, Set::<u64>::empty().insert(val)));
            }
        }
    }

    /// Joins the additions and the removals of `other` into `self`.
    fn merge(&mut self, other: &OrSet)
        ensures
            final(self).added() == or_join(old(self).added(), other.added()),
            final(self).removed() == or_join(old(self).removed(), other.removed()),
    {
        proof {
            use_type_invariant(&*self);
            use_type_invariant(other);
        }
        let mut adds = StrMap::new();
        std::mem::swap(&mut adds, &mut self.additions);
        join_stamps(&mut adds, &other.additions);
        self.additions = adds;
        let mut rems = StrMap::new();
        std::mem::swap(&mut rems, &mut self.removals);
        join_stamps(&mut rems, &other.removals);
        self.removals = rems;
    }

    /// The elements that are in the set, each once.
    fn value(&self) -> (r: Vec<String>)
        ensures
            r@.map_values(|s: String| s@).no_duplicates(),
            forall|k: Seq<char>|
                r@.map_values(|s: String| s@).contains(k) <==> or_active(self.added(), self.removed(), k),
    {
        proof { use_type_invariant(self); }
        let ghost ap = self.additions.pairs();
        let ghost adds = self.added();
        let ghost rems = self.removed();
        proof { lemma_pairs_map_all(ap); }
        let n = self.additions.len();
        let mut out: Vec<String> = Vec::new();
        let ghost mut idx: Seq<int> = Seq::empty();
        let mut i: usize = 0;
        while i < n
            invariant
                n == ap.len(),
                ap == self.additions.pairs(),
                adds == self.added(),
                rems == self.removed(),
                self.additions.wf(),
                self.removals.wf(),
                sorted_pairs(ap),
                i <= n,
                forall|j: int| #![trigger ap[j]] 0 <= j < ap.len() ==> adds.dom().contains(ap[j].0) && adds[ap[j].0] == ap[j].1@,
                idx.len() == out@.len(),
                forall|a: int| #![trigger idx[a]] 0 <= a < idx.len() ==> 0 <= idx[a] < i && ap[idx[a]].0 == out@[a]@ && or_active(adds, rems, ap[idx[a]].0),
                forall|a: int, b: int| 0 <= a < b < idx.len() ==> #[trigger] idx[a] < #[trigger] idx[b],
                forall|j: int| 0 <= j < i && or_active(adds, rems, #[trigger] ap[j].0) ==> exists|a: int| 0 <= a < idx.len() && #[trigger] idx[a] == j,
            decreases n - i,
        {
            let element = self.additions.key_at(i);
            let stamps = self.additions.value_at(i);
            let active = match self.removals.get(element.as_str()) {
                Some(removed) => has_unremoved(stamps, removed),
                None => true,
            };
            proof {
                assert(element@ == ap[i as int].0);
                assert(adds[ap[i as int].0] == stamps@);
                assert(active == or_active(adds, rems, ap[i as int].0));
            }
            if active {
                out.push(element.clone());
                proof {
                    let old_idx = idx;
                    idx = idx.push(i as int);
                    assert forall|j: int| 0 <= j < i + 1 && or_active(adds, rems, #[trigger] ap[j].0) implies exists|a: int| 0 <= a < idx.len() && #[trigger] idx[a] == j by {
                        if j == i {
                            assert(idx[idx.len() - 1] == j);
                        } else {
                            let a = choose|a: int| 0 <= a < old_idx.len() && #[trigger] old_idx[a] == j;
                            assert(idx[a] == j);
                        }
                    }
                }
            }
            i = i + 1;
        }
        proof {
            let ov = out@.map_values(|s: String| s@);
            assert forall|a: int, b: int| 0 <= a < ov.len() && 0 <= b < ov.len() && a != b implies ov[a] != ov[b] by {
                if a < b {
                    assert(idx[a] < idx[b]);
                    assert(seq_less(ap[idx[a]].0, ap[idx[b]].0));
                } else {
                    assert(idx[b] < idx[a]);
                    assert(seq_less(ap[idx[b]].0, ap[idx[a]].0));
                }
                lemma_less_irreflexive(ov[a]);
            }
            assert forall|k: Seq<char>| ov.contains(k) <==> or_active(adds, rems, k) by {
                if ov.contains(k) {
                    let a = choose|a: int| 0 <= a < ov.len() && ov[a] == k;
                    assert(ov[a] == out@[a]@);
                    assert(ap[idx[a]].0 == out@[a]@);
                }
                if or_active(adds, rems, k) {
                    assert(self.additions.map().dom().contains(k));
                    let j = choose|j: int| 0 <= j < ap.len() && #[trigger] ap[j].0 == k;
                    let a = choose|a: int| 0 <= a < idx.len() && #[trigger] idx[a] == j;
                    assert(ov[a] == k);
                }
            }
        }
        out
    }
}

/// Joining is the same in either order.
pub proof fn or_join_commutative(a: Map<Seq<char>, Set<u64>>, b: Map<Seq<char>, Set<u64>>)
    ensures
        or_join(a, b) == or_join(b, a),
{
    assert forall|k: Seq<char>| #[trigger] or_join(a, b).dom().contains(k) implies or_join(a, b)[k] == or_join(b, a)[k] by {
        assert(stamps_of(a, k).union(stamps_of(b, k)) =~= stamps_of(b, k).union(stamps_of(a, k)));
    }
    assert(or_join(a, b) =~= or_join(b, a));
}

/// Joining is the same however the joins are grouped.
pub proof fn or_join_associative(a: Map<Seq<char>, Set<u64>>, b: Map<Seq<char>, Set<u64>>, c: Map<Seq<char>, Set<u64>>)
    ensures
        or_join(or_join(a, b), c) == or_join(a, or_join(b, c)),
{
    let l = or_join(or_join(a, b), c);
    let r = or_join(a, or_join(b, c));
    assert forall|k: Seq<char>| #[trigger] l.dom().contains(k) implies l[k] == r[k] by {
        assert(l[k] =~= r[k]);
    }
    assert(l =~= r);
}

/// Joining with itself changes nothing.
pub proof fn or_join_idempotent(a: Map<Seq<char>, Set<u64>>)
    ensures
        or_join(a, a) == a,
{
    assert forall|k: Seq<char>| #[trigger] or_join(a, a).dom().contains(k) implies or_join(a, a)[k] == a[k] by {
        assert(a[k].union(a[k]) =~= a[k]);
    }
    assert(or_join(a, a) =~= a);
}

/// An element added under a timestamp that was not removed for it is in
/// the set afterwards.
pub proof fn added_is_active(adds: Map<Seq<char>, Set<u64>>, rems: Map<Seq<char>, Set<u64>>, k: Seq<char>, t: u64)
    requires
        rems.dom().contains(k) ==> !rems[k].contains(t),
    ensures
        or_active(adds.insert(k, stamps_of(adds, k).insert(t)), rems, k),
{
    let after = adds.insert(k, stamps_of(adds, k).insert(t));
    assert(after[k].contains(t));
}

/// Two replicas that merge each other in turn end up equal: merging `a`
/// into `b` after `b` was merged into `a` gives what `a` holds.
pub proof fn or_replicas_converge(a: Map<Seq<char>, Set<u64>>, b: Map<Seq<char>, Set<u64>>)
    ensures
        or_join(b, or_join(a, b)) == or_join(a, b),
{
    let ab = or_join(a, b);
    assert forall|k: Seq<char>| #[trigger] or_join(b, ab).dom().contains(k) implies or_join(b, ab)[k] == ab[k] by {
        assert(or_join(b, ab)[k] =~= ab[k]);
    }
    assert(or_join(b, ab) =~= ab);
}

} // verus!
