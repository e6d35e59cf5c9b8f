//! A grow-only counter: one count per key.
use vstd::prelude::*;
use crate::str_map::{StrMap, sorted_pairs, pairs_has, pairs_map, lemma_pairs_map_all};
use crate::text_util::{decimal, u64_to_string};

verus! {

/// The count of `k`, zero when the key is absent.
pub open spec fn count_of(m: Map<Seq<char>, u64>, k: Seq<char>) -> nat {
    if m.dom().contains(k) {
        m[k] as nat
    } else {
        0
    }
}

/// What merging `b` into `a` leaves: every key of `a` takes the larger of
/// its two counts; keys only in `b` are not taken over.
pub open spec fn gc_merge(a: Map<Seq<char>, u64>, b: Map<Seq<char>, u64>) -> Map<Seq<char>, u64> {
    Map::new(
        |k: Seq<char>| a.dom().contains(k),
        |k: Seq<char>| if b.dom().contains(k) && b[k] > a[k] { b[k] } else { a[k] },
    )
}

pub struct GcCounter {
    pub counter: StrMap<u64>,
}

impl View for GcCounter {
    type V = Map<Seq<char>, u64>;

    open spec fn view(&self) -> Map<Seq<char>, u64> {
        self.counter.map()
    }
}

impl GcCounter {
    pub open spec fn wf(&self) -> bool {
        self.counter.wf()
    }

    pub fn new() -> (c: GcCounter)
        ensures
            c.wf(),
            c@ == Map::<Seq<char>, u64>::empty(),
    {
        GcCounter { counter: StrMap::new() }
    }

    /// Adds one to the count of `key`.
    pub fn increment(&mut self, key: String)
        requires
            old(self).wf(),
            count_of(old(self)@, key@) < u64::MAX,
        ensures
            final(self).wf(),
            final(self)@ == old(self)@.insert(key@, (count_of(old(self)@, key@) + 1) as u64),
    {
        let next: u64 = match self.counter.get(key.as_str()) {
            Some(value) => *value + 1,
            None => 1,
        };
        self.counter.insert(key, next);
    }

    /// The count of `key` in decimal, `"0"` when the key is absent.
    pub fn value(self, key: String) -> (r: String)
        requires
            self.wf(),
        ensures
            r@ == decimal(count_of(self@, key@)),
    {
        match self.counter.get(key.as_str()) {
            Some(value) => u64_to_string(*value),
            None => u64_to_string(0),
        }
    }

    /// Raises each count of `self` to the count that `other` holds for the same key.
    pub fn merge(&mut self, other: &GcCounter)
        requires
            old(self).wf(),
            other.wf(),
        ensures
            final(self).wf(),
            final(self)@ == gc_merge(old(self)@, other@),
    {
        let ghost old_pairs = self.counter.pairs();
        let ghost om = other@;
        let n = self.counter.len();
        let mut i: usize = 0;
        while i < n
            invariant
                n == old_pairs.len(),
                i <= n,
                other.wf(),
                om == other@,
                self.counter.wf(),
                sorted_pairs(old_pairs),
                self.counter.pairs().len() == n,
                forall|j: int| 0 <= j < n ==> (#[trigger] self.counter.pairs()[j]).0 == old_pairs[j].0,
                forall|j: int|
                    0 <= j < i ==> (#[trigger] self.counter.pairs()[j]).1 == (if om.dom().contains(
                        old_pairs[j].0,
                    ) && om[old_pairs[j].0] > old_pairs[j].1 {
                        om[old_pairs[j].0]
                    } else {
                        old_pairs[j].1
                    }),
                forall|j: int| i <= j < n ==> #[trigger] self.counter.pairs()[j] == old_pairs[j],
            decreases n - i,
        {
            let cur: u64 = *self.counter.value_at(i);
            let better: Option<u64> = match other.counter.get(self.counter.key_at(i).as_str()) {
                Some(v) => if *v > cur { Some(*v) } else { None },
                None => None,
            };
            match better {
                Some(v) => {
                    self.counter.set_value_at(i, v);
                },
                None => {},
            }
            i = i + 1;
        }
        proof {
            let np = self.counter.pairs();
            lemma_pairs_map_all(np);
            lemma_pairs_map_all(old_pairs);
            let m1 = self.counter.map();
            let m2 = gc_merge(pairs_map(old_pairs), om);
            assert forall|x: Seq<char>| m1.dom().contains(x) <==> m2.dom().contains(x) by {
                if m1.dom().contains(x) {
                    let j = choose|j: int| 0 <= j < np.len() && #[trigger] np[j].0 == x;
                    assert(old_pairs[j].0 == x);
                    assert(pairs_has(old_pairs, x));
                }
                if m2.dom().contains(x) {
                    let j = choose|j: int| 0 <= j < old_pairs.len() && #[trigger] old_pairs[j].0 == x;
                    assert(np[j].0 == x);
                    assert(pairs_has(np, x));
                }
            }
            assert forall|x: Seq<char>| m1.dom().contains(x) implies m1[x] == m2[x] by {
                let j = choose|j: int| 0 <= j < np.len() && #[trigger] np[j].0 == x;
                assert(old_pairs[j].0 == x);
            }
            assert(m1 =~= m2);
        }
    }
}

/// Merging a counter into itself changes nothing.
pub proof fn gc_merge_idempotent(a: Map<Seq<char>, u64>)
    ensures
        gc_merge(a, a) == a,
{
    assert(gc_merge(a, a) =~= a);
}

/// Merging the same counter twice is the same as merging it once.
pub proof fn gc_merge_absorbs_repeat(a: Map<Seq<char>, u64>, b: Map<Seq<char>, u64>)
    ensures
        gc_merge(gc_merge(a, b), b) == gc_merge(a, b),
{
    assert(gc_merge(gc_merge(a, b), b) =~= gc_merge(a, b));
}

/// A merge keeps the keys and never lowers a count, and each count it
/// leaves is at least what the other counter held for that key.
pub proof fn gc_merge_inflates(a: Map<Seq<char>, u64>, b: Map<Seq<char>, u64>, k: Seq<char>)
    ensures
        gc_merge(a, b).dom() == a.dom(),
        count_of(gc_merge(a, b), k) >= count_of(a, k),
        a.dom().contains(k) ==> count_of(gc_merge(a, b), k) >= count_of(b, k),
{
    assert(gc_merge(a, b).dom() =~= a.dom());
}

/// Two counters over the same keys merge to the same counts in either order.
pub proof fn gc_merge_commutes_on_same_keys(a: Map<Seq<char>, u64>, b: Map<Seq<char>, u64>)
    requires
        a.dom() == b.dom(),
    ensures
        gc_merge(a, b) == gc_merge(b, a),
{
    assert(gc_merge(a, b) =~= gc_merge(b, a));
}

/// Counters over the same keys merge the same however the merges are grouped.
pub proof fn gc_merge_associates_on_same_keys(
    a: Map<Seq<char>, u64>,
    b: Map<Seq<char>, u64>,
    c: Map<Seq<char>, u64>,
)
    requires
        a.dom() == b.dom(),
        b.dom() == c.dom(),
    ensures
        gc_merge(gc_merge(a, b), c) == gc_merge(a, gc_merge(b, c)),
{
    assert(gc_merge(gc_merge(a, b), c) =~= gc_merge(a, gc_merge(b, c)));
}

/// Merging keeps exactly the keys of the counter merged into; a key the
/// other counter lacks keeps its count, and a key both hold takes the larger
/// of its two counts.
pub proof fn gc_merge_takes_the_larger(a: Map<Seq<char>, u64>, b: Map<Seq<char>, u64>, k: Seq<char>)
    ensures
        gc_merge(a, b).dom().contains(k) <==> a.dom().contains(k),
        a.dom().contains(k) && !b.dom().contains(k) ==> gc_merge(a, b)[k] == a[k],
        a.dom().contains(k) && b.dom().contains(k) ==> {
            &&& gc_merge(a, b)[k] == a[k] || gc_merge(a, b)[k] == b[k]
            &&& gc_merge(a, b)[k] >= a[k] && gc_merge(a, b)[k] >= b[k]
        },
{
}

} // verus!
