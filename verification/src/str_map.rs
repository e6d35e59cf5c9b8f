//! A map keyed by strings, kept sorted by key.
//!
//! Keys are ordered the way `String`'s `Ord` orders them: lexicographically,
//! character by character (UTF-8 preserves code point order).
use vstd::prelude::*;
use crate::text_util::chars_of;

verus! {

/// Lexicographic order on character sequences.
pub open spec fn seq_less(a: Seq<char>, b: Seq<char>) -> bool
    decreases a.len(),
{
    if b.len() == 0 {
        false
    } else if a.len() == 0 {
        true
    } else if a[0] != b[0] {
        a[0] < b[0]
    } else {
        seq_less(a.drop_first(), b.drop_first())
    }
}

pub proof fn lemma_less_irreflexive(a: Seq<char>)
    ensures
        !seq_less(a, a),
    decreases a.len(),
{
    if a.len() > 0 {
        lemma_less_irreflexive(a.drop_first());
    }
}

pub proof fn lemma_less_transitive(a: Seq<char>, b: Seq<char>, c: Seq<char>)
    requires
        seq_less(a, b),
        seq_less(b, c),
    ensures
        seq_less(a, c),
    decreases a.len(),
{
    if a.len() > 0 && a[0] == b[0] && b[0] == c[0] {
        lemma_less_transitive(a.drop_first(), b.drop_first(), c.drop_first());
    }
}

pub proof fn lemma_less_total(a: Seq<char>, b: Seq<char>)
    ensures
        a == b || seq_less(a, b) || seq_less(b, a),
    decreases a.len(),
{
    if a.len() == 0 && b.len() == 0 {
        assert(a =~= b);
    } else if a.len() > 0 && b.len() > 0 && a[0] == b[0] {
        lemma_less_total(a.drop_first(), b.drop_first());
        if a.drop_first() == b.drop_first() {
            assert(a =~= seq![a[0]] + a.drop_first());
            assert(b =~= seq![b[0]] + b.drop_first());
        }
    }
}

pub proof fn lemma_less_asymmetric(a: Seq<char>, b: Seq<char>)
    requires
        seq_less(a, b),
    ensures
        !seq_less(b, a),
{
    if seq_less(b, a) {
        lemma_less_transitive(a, b, a);
        lemma_less_irreflexive(a);
    }
}

/// Whether `a` orders strictly before `b` (`a < b` on strings).
pub fn string_less(a: &str, b: &str) -> (r: bool)
    ensures
        r == seq_less(a@, b@),
{
    let x = chars_of(a);
    let y = chars_of(b);
    let mut i: usize = 0;
    assert(a@.skip(0) =~= a@);
    assert(b@.skip(0) =~= b@);
    while i < x.len() && i < y.len()
        invariant
            x@ == a@,
            y@ == b@,
            i <= x.len(),
            i <= y.len(),
            seq_less(a@, b@) == seq_less(a@.skip(i as int), b@.skip(i as int)),
        decreases x.len() - i,
    {
        if x[i] != y[i] {
            return x[i] < y[i];
        }
        assert(a@.skip(i as int).drop_first() =~= a@.skip(i + 1));
        assert(b@.skip(i as int).drop_first() =~= b@.skip(i + 1));
        i = i + 1;
    }
    i < y.len()
}

/// Keys in strictly increasing order.
pub open spec fn sorted_pairs<V>(s: Seq<(Seq<char>, V)>) -> bool {
    forall|i: int, j: int| 0 <= i < j < s.len() ==> seq_less(#[trigger] s[i].0, #[trigger] s[j].0)
}

/// Whether some pair has key `k`.
pub open spec fn pairs_has<V>(s: Seq<(Seq<char>, V)>, k: Seq<char>) -> bool {
    exists|i: int| 0 <= i < s.len() && #[trigger] s[i].0 == k
}

/// The map that a sequence of pairs stands for.
pub open spec fn pairs_map<V>(s: Seq<(Seq<char>, V)>) -> Map<Seq<char>, V> {
    Map::new(
        |k: Seq<char>| pairs_has(s, k),
        |k: Seq<char>| s[choose|i: int| 0 <= i < s.len() && #[trigger] s[i].0 == k].1,
    )
}

/// In a sorted sequence, the pair at `i` is the one the map gives for its key.
pub proof fn lemma_pairs_map_at<V>(s: Seq<(Seq<char>, V)>, i: int)
    requires
        sorted_pairs(s),
        0 <= i < s.len(),
    ensures
        pairs_map(s).dom().contains(s[i].0),
        pairs_map(s)[s[i].0] == s[i].1,
{
    assert(pairs_has(s, s[i].0));
    let j = choose|j: int| 0 <= j < s.len() && #[trigger] s[j].0 == s[i].0;
    if j < i {
        assert(seq_less(s[j].0, s[i].0));
        lemma_less_irreflexive(s[i].0);
    } else if i < j {
        assert(seq_less(s[i].0, s[j].0));
        lemma_less_irreflexive(s[i].0);
    }
}

/// Every pair of a sorted sequence is read back from its map.
pub proof fn lemma_pairs_map_all<V>(s: Seq<(Seq<char>, V)>)
    requires
        sorted_pairs(s),
    ensures
        forall|i: int|
            #![trigger s[i]]
            0 <= i < s.len() ==> pairs_map(s).dom().contains(s[i].0) && pairs_map(s)[s[i].0]
                == s[i].1,
{
    assert forall|i: int| #![trigger s[i]] 0 <= i < s.len() implies pairs_map(s).dom().contains(s[i].0)
        && pairs_map(s)[s[i].0] == s[i].1 by {
        lemma_pairs_map_at(s, i);
    }
}

/// A map from strings to values, kept sorted by key.
pub struct StrMap<V> {
    pub entries: Vec<(String, V)>,
}

impl<V> StrMap<V> {
    /// The pairs of the map, in increasing key order.
    pub closed spec fn pairs(self) -> Seq<(Seq<char>, V)> {
        self.entries@.map_values(|e: (String, V)| (e.0@, e.1))
    }

    pub open spec fn wf(self) -> bool {
        sorted_pairs(self.pairs())
    }

    pub open spec fn map(self) -> Map<Seq<char>, V> {
        pairs_map(self.pairs())
    }

    pub fn new() -> (m: Self)
        ensures
            m.wf(),
            m.pairs() == Seq::<(Seq<char>, V)>::empty(),
            m.map() == Map::<Seq<char>, V>::empty(),
    {
        let m = StrMap { entries: Vec::new() };
        assert(m.pairs() =~= Seq::<(Seq<char>, V)>::empty());
        assert(m.map() =~= Map::<Seq<char>, V>::empty());
        m
    }

    pub fn len(&self) -> (n: usize)
        ensures
            n == self.pairs().len(),
    {
        self.entries.len()
    }

    pub fn key_at(&self, i: usize) -> (k: &String)
        requires
            i < self.pairs().len(),
        ensures
            k@ == self.pairs()[i as int].0,
    {
        &self.entries[i].0
    }

    pub fn value_at(&self, i: usize) -> (v: &V)
        requires
            i < self.pairs().len(),
        ensures
            *v == self.pairs()[i as int].1,
    {
        &self.entries[i].1
    }

    /// `Ok(i)` where the key stands, or `Err(p)`: the place where it would go.
    pub fn find(&self, key: &str) -> (r: Result<usize, usize>)
        requires
            self.wf(),
        ensures
            match r {
                Ok(i) => i < self.pairs().len() && self.pairs()[i as int].0 == key@,
                Err(p) => {
                    &&& p <= self.pairs().len()
                    &&& forall|j: int| 0 <= j < p ==> seq_less(#[trigger] self.pairs()[j].0, key@)
                    &&& forall|j: int|
                        p <= j < self.pairs().len() ==> seq_less(key@, #[trigger] self.pairs()[j].0)
                    &&& !pairs_has(self.pairs(), key@)
                },
            },
    {
        let n = self.entries.len();
        let mut i: usize = 0;
        while i < n
            invariant
                n == self.pairs().len(),
                i <= n,
                self.wf(),
                forall|j: int| 0 <= j < i ==> seq_less(#[trigger] self.pairs()[j].0, key@),
            decreases n - i,
        {
            let k = self.entries[i].0.as_str();
            if string_less(k, key) {
                i = i + 1;
            } else if string_less(key, k) {
                proof {
                    assert forall|j: int| i <= j < n implies seq_less(key@, #[trigger] self.pairs()[j].0) by {
                        if j > i {
                            assert(seq_less(self.pairs()[i as int].0, self.pairs()[j].0));
                            lemma_less_transitive(key@, self.pairs()[i as int].0, self.pairs()[j].0);
                        }
                    }
                    assert forall|j: int| 0 <= j < n implies #[trigger] self.pairs()[j].0 != key@ by {
                        if j < i {
                            lemma_less_irreflexive(key@);
                        } else {
                            lemma_less_irreflexive(key@);
                        }
                    }
                }
                return Err(i);
            } else {
                proof {
                    lemma_less_total(k@, key@);
                }
                return Ok(i);
            }
        }
        proof {
            assert forall|j: int| 0 <= j < n implies #[trigger] self.pairs()[j].0 != key@ by {
                lemma_less_irreflexive(key@);
            }
        }
        Err(i)
    }

    pub fn contains_key(&self, key: &str) -> (r: bool)
        requires
            self.wf(),
        ensures
            r == self.map().dom().contains(key@),
    {
        match self.find(key) {
            Ok(i) => {
                proof { lemma_pairs_map_at(self.pairs(), i as int); }
                true
            },
            Err(_) => false,
        }
    }

    pub fn get(&self, key: &str) -> (r: Option<&V>)
        requires
            self.wf(),
        ensures
            match r {
                Some(v) => self.map().dom().contains(key@) && *v == self.map()[key@],
                None => !self.map().dom().contains(key@),
            },
    {
        match self.find(key) {
            Ok(i) => {
                proof { lemma_pairs_map_at(self.pairs(), i as int); }
                Some(&self.entries[i].1)
            },
            Err(_) => None,
        }
    }

    /// Sets the value of `key`, adding the key if it is new.
    pub fn insert(&mut self, key: String, value: V)
        requires
            old(self).wf(),
        ensures
            final(self).wf(),
            final(self).map() == old(self).map().insert(key@, value),
            old(self).map().dom().contains(key@) ==> final(self).pairs().len() == old(self).pairs().len(),
            !old(self).map().dom().contains(key@) ==> final(self).pairs().len() == old(self).pairs().len() + 1,
    {
        let ghost old_pairs = self.pairs();
        let ghost k = key@;
        match self.find(key.as_str()) {
            Ok(i) => {
                self.entries.set(i, (key, value));
                proof {
                    assert(self.pairs() =~= old_pairs.update(i as int, (k, value)));
                    lemma_pairs_update(old_pairs, i as int, value);
                    lemma_pairs_map_at(old_pairs, i as int);
                }
            },
            Err(p) => {
                self.entries.insert(p, (key, value));
                proof {
                    assert(self.pairs() =~= old_pairs.insert(p as int, (k, value)));
                    lemma_pairs_insert(old_pairs, p as int, k, value);
                }
            },
        }
    }

    /// The keys, in order.
    pub fn keys(&self) -> (r: Vec<String>)
        ensures
            r@.len() == self.pairs().len(),
            forall|i: int| 0 <= i < r@.len() ==> (#[trigger] r@[i])@ == self.pairs()[i].0,
    {
        let mut r: Vec<String> = Vec::new();
        let n = self.entries.len();
        let mut i: usize = 0;
        while i < n
            invariant
                n == self.pairs().len(),
                i <= n,
                r@.len() == i,
                forall|j: int| 0 <= j < i ==> (#[trigger] r@[j])@ == self.pairs()[j].0,
            decreases n - i,
        {
            r.push(self.entries[i].0.clone());
            i = i + 1;
        }
        r
    }

    /// Replaces the value of the `i`-th pair.
    pub fn set_value_at(&mut self, i: usize, value: V)
        requires
            old(self).wf(),
            i < old(self).pairs().len(),
        ensures
            final(self).wf(),
            final(self).pairs() == old(self).pairs().update(i as int, (old(self).pairs()[i as int].0, value)),
            final(self).map() == old(self).map().insert(old(self).pairs()[i as int].0, value),
    {
        let ghost old_pairs = self.pairs();
        let key = self.entries[i].0.clone();
        self.entries.set(i, (key, value));
        proof {
            assert(self.pairs() =~= old_pairs.update(i as int, (old_pairs[i as int].0, value)));
            lemma_pairs_update(old_pairs, i as int, value);
        }
    }

    /// Removes `key`, giving back its value if it was there.
    pub fn remove(&mut self, key: &str) -> (r: Option<V>)
        requires
            old(self).wf(),
        ensures
            final(self).wf(),
            final(self).map() == old(self).map().remove(key@),
            match r {
                Some(v) => old(self).map().dom().contains(key@) && v == old(self).map()[key@],
                None => !old(self).map().dom().contains(key@),
            },
    {
        let ghost old_pairs = self.pairs();
        match self.find(key) {
            Ok(i) => {
                let (_k, v) = self.entries.remove(i);
                proof {
                    assert(self.pairs() =~= old_pairs.remove(i as int));
                    lemma_pairs_remove(old_pairs, i as int);
                    lemma_pairs_map_at(old_pairs, i as int);
                }
                Some(v)
            },
            Err(_) => {
                proof {
                    assert(pairs_map(old_pairs).remove(key@) =~= pairs_map(old_pairs));
                }
                None
            },
        }
    }
}

impl StrMap<String> {
    /// A copy of a map of strings.
    pub fn clone_strings(&self) -> (r: StrMap<String>)
        ensures
            r.pairs() == self.pairs(),
    {
        let mut entries: Vec<(String, String)> = Vec::new();
        let n = self.entries.len();
        let mut i: usize = 0;
        while i < n
            invariant
                n == self.entries@.len(),
                i <= n,
                entries@ == self.entries@.take(i as int),
            decreases n - i,
        {
            let k = self.entries[i].0.clone();
            let v = self.entries[i].1.clone();
            entries.push((k, v));
            proof {
                assert(entries@ =~= self.entries@.take(i + 1));
            }
            i = i + 1;
        }
        proof {
            assert(entries@ =~= self.entries@);
        }
        StrMap { entries }
    }
}

/// The map of strings that a string map stands for.
pub open spec fn string_view(m: StrMap<String>) -> Map<Seq<char>, Seq<char>> {
    m.map().map_values(|s: String| s@)
}

/// Replacing the value of one pair keeps the order and sets that key in the map.
pub proof fn lemma_pairs_update<V>(s: Seq<(Seq<char>, V)>, i: int, v: V)
    requires
        sorted_pairs(s),
        0 <= i < s.len(),
    ensures
        sorted_pairs(s.update(i, (s[i].0, v))),
        pairs_map(s.update(i, (s[i].0, v))) == pairs_map(s).insert(s[i].0, v),
{
    let k = s[i].0;
    let np = s.update(i, (k, v));
    assert forall|a: int, b: int| 0 <= a < b < np.len() implies seq_less(
        #[trigger] np[a].0,
        #[trigger] np[b].0,
    ) by {
        assert(np[a].0 == s[a].0);
        assert(np[b].0 == s[b].0);
    }
    lemma_pairs_map_all(np);
    lemma_pairs_map_all(s);
    let m1 = pairs_map(np);
    let m2 = pairs_map(s).insert(k, v);
    assert forall|x: Seq<char>| m1.dom().contains(x) <==> m2.dom().contains(x) by {
        if m1.dom().contains(x) {
            let j = choose|j: int| 0 <= j < np.len() && #[trigger] np[j].0 == x;
            assert(s[j].0 == x);
            assert(pairs_has(s, x));
        }
        if m2.dom().contains(x) {
            if x == k {
                assert(np[i].0 == x);
                assert(pairs_has(np, x));
            } else {
                assert(pairs_has(s, x));
                let j = choose|j: int| 0 <= j < s.len() && #[trigger] s[j].0 == x;
                assert(np[j].0 == x);
                assert(pairs_has(np, x));
            }
        }
    }
    assert forall|x: Seq<char>| m1.dom().contains(x) implies m1[x] == m2[x] by {
        let j = choose|j: int| 0 <= j < np.len() && #[trigger] np[j].0 == x;
        assert(s[j].0 == x);
        if j == i {
            assert(np[j].1 == v);
        } else {
            assert(np[j] == s[j]);
            assert(pairs_map(s)[x] == s[j].1);
            lemma_less_irreflexive(x);
            if j < i {
                assert(seq_less(np[j].0, np[i].0));
            } else {
                assert(seq_less(np[i].0, np[j].0));
            }
            assert(x != k);
        }
    }
    assert(m1 =~= m2);
}

/// Inserting a new key at its place keeps the order and adds it to the map.
pub proof fn lemma_pairs_insert<V>(s: Seq<(Seq<char>, V)>, p: int, k: Seq<char>, v: V)
    requires
        sorted_pairs(s),
        0 <= p <= s.len(),
        forall|j: int| 0 <= j < p ==> seq_less(#[trigger] s[j].0, k),
        forall|j: int| p <= j < s.len() ==> seq_less(k, #[trigger] s[j].0),
    ensures
        sorted_pairs(s.insert(p, (k, v))),
        pairs_map(s.insert(p, (k, v))) == pairs_map(s).insert(k, v),
{
    let np = s.insert(p, (k, v));
    assert forall|a: int, b: int| 0 <= a < b < np.len() implies seq_less(
        #[trigger] np[a].0,
        #[trigger] np[b].0,
    ) by {
        if b < p {
        } else if a > p {
            assert(np[a] == s[a - 1]);
        } else if a == p {
            assert(np[b] == s[b - 1]);
        } else if b == p {
        } else {
            assert(np[b] == s[b - 1]);
            lemma_less_transitive(np[a].0, k, np[b].0);
        }
    }
    lemma_pairs_map_all(np);
    lemma_pairs_map_all(s);
    let m1 = pairs_map(np);
    let m2 = pairs_map(s).insert(k, v);
    assert forall|x: Seq<char>| m1.dom().contains(x) <==> m2.dom().contains(x) by {
        if m1.dom().contains(x) {
            let j = choose|j: int| 0 <= j < np.len() && #[trigger] np[j].0 == x;
            if j < p {
                assert(s[j].0 == x);
                assert(pairs_has(s, x));
            } else if j > p {
                assert(s[j - 1].0 == x);
                assert(pairs_has(s, x));
            }
        }
        if m2.dom().contains(x) {
            if x == k {
                assert(np[p].0 == x);
                assert(pairs_has(np, x));
            } else {
                assert(pairs_has(s, x));
                let j = choose|j: int| 0 <= j < s.len() && #[trigger] s[j].0 == x;
                if j < p {
                    assert(np[j].0 == x);
                } else {
                    assert(np[j + 1].0 == x);
                }
                assert(pairs_has(np, x));
            }
        }
    }
    assert forall|x: Seq<char>| m1.dom().contains(x) implies m1[x] == m2[x] by {
        let j = choose|j: int| 0 <= j < np.len() && #[trigger] np[j].0 == x;
        lemma_less_irreflexive(x);
        if j < p {
            assert(s[j].0 == x);
            assert(np[j] == s[j]);
        } else if j > p {
            assert(s[j - 1].0 == x);
            assert(np[j] == s[j - 1]);
        }
    }
    assert(m1 =~= m2);
}

/// Removing one pair keeps the order and takes its key out of the map.
pub proof fn lemma_pairs_remove<V>(s: Seq<(Seq<char>, V)>, i: int)
    requires
        sorted_pairs(s),
        0 <= i < s.len(),
    ensures
        sorted_pairs(s.remove(i)),
        pairs_map(s.remove(i)) == pairs_map(s).remove(s[i].0),
{
    let k = s[i].0;
    let np = s.remove(i);
    assert forall|a: int, b: int| 0 <= a < b < np.len() implies seq_less(
        #[trigger] np[a].0,
        #[trigger] np[b].0,
    ) by {
        if b < i {
        } else if a >= i {
            assert(np[a] == s[a + 1]);
            assert(np[b] == s[b + 1]);
        } else {
            assert(np[b] == s[b + 1]);
        }
    }
    lemma_pairs_map_all(np);
    lemma_pairs_map_all(s);
    let m1 = pairs_map(np);
    let m2 = pairs_map(s).remove(k);
    lemma_less_irreflexive(k);
    assert forall|x: Seq<char>| m1.dom().contains(x) <==> m2.dom().contains(x) by {
        if m1.dom().contains(x) {
            let j = choose|j: int| 0 <= j < np.len() && #[trigger] np[j].0 == x;
            if j < i {
                assert(s[j].0 == x);
                assert(seq_less(s[j].0, s[i].0));
                assert(pairs_has(s, x));
            } else {
                assert(s[j + 1].0 == x);
                assert(seq_less(s[i].0, s[j + 1].0));
                assert(pairs_has(s, x));
            }
        }
        if m2.dom().contains(x) {
            assert(pairs_has(s, x));
            let j = choose|j: int| 0 <= j < s.len() && #[trigger] s[j].0 == x;
            if j < i {
                assert(np[j].0 == x);
            } else {
                assert(j != i);
                assert(np[j - 1].0 == x);
            }
            assert(pairs_has(np, x));
        }
    }
    assert forall|x: Seq<char>| m1.dom().contains(x) implies m1[x] == m2[x] by {
        let j = choose|j: int| 0 <= j < np.len() && #[trigger] np[j].0 == x;
        if j < i {
            assert(s[j].0 == x);
            assert(np[j] == s[j]);
        } else {
            assert(s[j + 1].0 == x);
            assert(np[j] == s[j + 1]);
        }
    }
    assert(m1 =~= m2);
}

/// The sorted sequence of pairs that stands for a map.
pub open spec fn ordered<V>(m: Map<Seq<char>, V>) -> Seq<(Seq<char>, V)> {
    choose|s: Seq<(Seq<char>, V)>| sorted_pairs(s) && pairs_map(s) == m
}

/// A sorted sequence of pairs is the only one that stands for its map.
pub proof fn lemma_sorted_unique<V>(s: Seq<(Seq<char>, V)>, t: Seq<(Seq<char>, V)>)
    requires
        sorted_pairs(s),
        sorted_pairs(t),
        pairs_map(s) == pairs_map(t),
    ensures
        s == t,
    decreases s.len(),
{
    lemma_pairs_map_all(s);
    lemma_pairs_map_all(t);
    if s.len() == 0 {
        if t.len() > 0 {
            assert(pairs_map(t).dom().contains(t[0].0));
            assert(!pairs_has(s, t[0].0));
        }
        assert(s =~= t);
    } else if t.len() == 0 {
        assert(pairs_map(s).dom().contains(s[0].0));
        assert(!pairs_has(t, s[0].0));
    } else {
        let ls = s.len() - 1;
        let lt = t.len() - 1;
        let ks = s[ls].0;
        let kt = t[lt].0;
        assert(pairs_map(t).dom().contains(ks));
        let j = choose|j: int| 0 <= j < t.len() && #[trigger] t[j].0 == ks;
        assert(pairs_map(s).dom().contains(kt));
        let i = choose|i: int| 0 <= i < s.len() && #[trigger] s[i].0 == kt;
        if j < lt {
            assert(seq_less(ks, kt));
            if i < ls {
                assert(seq_less(kt, ks));
                lemma_less_asymmetric(ks, kt);
            }
            lemma_less_irreflexive(ks);
        } else if i < ls {
            assert(seq_less(kt, ks));
            lemma_less_irreflexive(ks);
        }
        assert(ks == kt);
        assert(s[ls].1 == pairs_map(s)[ks]);
        assert(t[lt].1 == pairs_map(t)[kt]);
        lemma_pairs_remove(s, ls);
        lemma_pairs_remove(t, lt);
        assert(s.remove(ls) =~= s.drop_last());
        assert(t.remove(lt) =~= t.drop_last());
        lemma_sorted_unique(s.drop_last(), t.drop_last());
        assert(s =~= s.drop_last().push(s[ls]));
        assert(t =~= t.drop_last().push(t[lt]));
    }
}

impl<V> StrMap<V> {
    /// The pairs of a well-formed map are the sorted pairs of its map.
    pub proof fn lemma_pairs_ordered(self)
        requires
            self.wf(),
        ensures
            ordered(self.map()) == self.pairs(),
    {
        let o = ordered(self.map());
        assert(sorted_pairs(self.pairs()) && pairs_map(self.pairs()) == self.map());
        lemma_sorted_unique(o, self.pairs());
    }
}

/// Mapping the values of a sorted sequence of pairs maps the values of its map.
pub proof fn lemma_pairs_map_values<V, W>(s: Seq<(Seq<char>, V)>, f: spec_fn(V) -> W)
    requires
        sorted_pairs(s),
    ensures
        sorted_pairs(s.map_values(|p: (Seq<char>, V)| (p.0, f(p.1)))),
        pairs_map(s.map_values(|p: (Seq<char>, V)| (p.0, f(p.1)))) == pairs_map(s).map_values(f),
{
    let t = s.map_values(|p: (Seq<char>, V)| (p.0, f(p.1)));
    assert forall|a: int, b: int| 0 <= a < b < t.len() implies seq_less(#[trigger] t[a].0, #[trigger] t[b].0) by {
        assert(t[a].0 == s[a].0);
        assert(t[b].0 == s[b].0);
    }
    lemma_pairs_map_all(s);
    lemma_pairs_map_all(t);
    let m1 = pairs_map(t);
    let m2 = pairs_map(s).map_values(f);
    assert forall|x: Seq<char>| m1.dom().contains(x) <==> m2.dom().contains(x) by {
        if m1.dom().contains(x) {
            let j = choose|j: int| 0 <= j < t.len() && #[trigger] t[j].0 == x;
            assert(s[j].0 == x);
            assert(pairs_has(s, x));
        }
        if m2.dom().contains(x) {
            let j = choose|j: int| 0 <= j < s.len() && #[trigger] s[j].0 == x;
            assert(t[j].0 == x);
            assert(pairs_has(t, x));
        }
    }
    assert forall|x: Seq<char>| m1.dom().contains(x) implies m1[x] == m2[x] by {
        let j = choose|j: int| 0 <= j < t.len() && #[trigger] t[j].0 == x;
        assert(s[j].0 == x);
    }
    assert(m1 =~= m2);
}

/// The pairs of a map of strings are the sorted pairs of its string view.
pub proof fn lemma_string_pairs_ordered(m: StrMap<String>)
    requires
        m.wf(),
    ensures
        m.pairs().map_values(|q: (Seq<char>, String)| (q.0, q.1@)) == ordered(string_view(m)),
{
    let f = |s: String| s@;
    lemma_pairs_map_values(m.pairs(), f);
    let t = m.pairs().map_values(|p: (Seq<char>, String)| (p.0, f(p.1)));
    assert(t =~= m.pairs().map_values(|q: (Seq<char>, String)| (q.0, q.1@)));
    assert(pairs_map(m.pairs()).map_values(f) =~= string_view(m));
    let o = ordered(string_view(m));
    assert(sorted_pairs(t) && pairs_map(t) == string_view(m));
    lemma_sorted_unique(o, t);
}

/// The pairs of a well-formed map, values mapped by `f`, are the sorted pairs of its mapped map.
pub proof fn lemma_mapped_pairs_ordered<V, W>(m: StrMap<V>, f: spec_fn(V) -> W)
    requires
        m.wf(),
    ensures
        m.pairs().map_values(|p: (Seq<char>, V)| (p.0, f(p.1))) == ordered(m.map().map_values(f)),
{
    lemma_pairs_map_values(m.pairs(), f);
    let t = m.pairs().map_values(|p: (Seq<char>, V)| (p.0, f(p.1)));
    lemma_sorted_unique(ordered(m.map().map_values(f)), t);
}

/// The pieces joined end to end.
pub open spec fn concat(items: Seq<Seq<char>>) -> Seq<char>
    decreases items.len(),
{
    if items.len() == 0 {
        Seq::empty()
    } else {
        concat(items.drop_last()) + items.last()
    }
}

pub proof fn lemma_concat_push(items: Seq<Seq<char>>, x: Seq<char>)
    ensures
        concat(items.push(x)) == concat(items) + x,
{
    assert(items.push(x).drop_last() =~= items);
}

} // verus!
