//! An append-only log of entries, ordered by ID, with consumer groups.
use vstd::prelude::*;
use crate::str_map::{StrMap, string_view, ordered, seq_less, sorted_pairs, pairs_map, lemma_pairs_insert,
    lemma_less_irreflexive, lemma_less_transitive, string_less};
use crate::text_util::{decimal, signed_decimal, push_decimal, push_signed_decimal, push_char, text};
use crate::redis::types::ValueType;
use crate::redis::debug::value_debug;
use crate::redis::consumer::{ConsumerGroup, GroupModel, group_model};
use crate::redis::clock::{now_millis, MAX_INSTANT_MILLIS, MIN_INSTANT_MILLIS};

verus! {

pub struct StreamEntry {
    pub value: ValueType,
}

pub trait StreamFunctions: Sized {
    spec fn stream_wf(&self) -> bool;

    spec fn accepts_entry(&self, data: &ValueType) -> bool;

    fn new() -> (s: Self)
        ensures
            s.stream_wf(),
    ;

    fn add_entry(&mut self, data: ValueType) -> (r: String)
        requires
            old(self).stream_wf(),
            old(self).accepts_entry(&data),
        ensures
            final(self).stream_wf(),
    ;

    fn x_read(&self, start_id: &str, count: Option<usize>) -> (r: StrMap<StrMap<String>>)
        requires
            self.stream_wf(),
    ;

    fn x_group_add(&self, name: &str, reference_start: Option<usize>) -> String;
}

pub struct Stream {
    pub entries: StrMap<StreamEntry>,
    pub last_id: u64,
    pub consumer_groups: StrMap<ConsumerGroup>,
}

/// The ID an entry gets when it is added at time `ms` as the `n`-th entry:
/// `"<ms>-<n>"`, the time with its sign.
pub open spec fn entry_id(ms: int, n: nat) -> Seq<char> {
    signed_decimal(ms) + seq!['-'] + decimal(n)
}

/// A stream entry, by its contents: a field map, or any other value as its
/// Debug notation shows it.
pub enum EntryModel {
    Fields(Map<Seq<char>, Seq<char>>),
    Shown(Seq<char>),
}

/// An entry value, by its contents.
pub open spec fn entry_model(v: ValueType) -> EntryModel {
    match v {
        ValueType::Hash(m) => EntryModel::Fields(string_view(m)),
        _ => EntryModel::Shown(value_debug(v)),
    }
}

/// Whether an entry value is well formed: a field map is kept sorted.
pub open spec fn entry_ok(v: ValueType) -> bool {
    match v {
        ValueType::Hash(m) => m.wf(),
        _ => true,
    }
}

/// All the entries of a stream as (ID, contents) pairs, in ID order.
pub open spec fn all_view(s: Stream) -> Seq<(Seq<char>, EntryModel)> {
    s.entries.pairs().map_values(|p: (Seq<char>, StreamEntry)| (p.0, entry_model(p.1.value)))
}

/// The entries of `s` that are field maps, as (ID, field map) pairs, in order.
pub open spec fn field_entries(s: Seq<(Seq<char>, EntryModel)>) -> Seq<(Seq<char>, Map<Seq<char>, Seq<char>>)>
    decreases s.len(),
{
    if s.len() == 0 {
        Seq::empty()
    } else {
        let rest = field_entries(s.drop_last());
        match s.last().1 {
            EntryModel::Fields(m) => rest.push((s.last().0, m)),
            EntryModel::Shown(_) => rest,
        }
    }
}

/// Whether the entries before `p` have IDs up to `start` and those from `p` on have IDs after it.
pub open spec fn splits_at<V>(s: Seq<(Seq<char>, V)>, start: Seq<char>, p: int) -> bool {
    &&& 0 <= p <= s.len()
    &&& forall|j: int| 0 <= j < p ==> !seq_less(start, #[trigger] s[j].0)
    &&& forall|j: int| p <= j < s.len() ==> seq_less(start, #[trigger] s[j].0)
}

/// Where the entries with IDs after `start` begin.
pub open spec fn first_after<V>(s: Seq<(Seq<char>, V)>, start: Seq<char>) -> int {
    choose|p: int| splits_at(s, start, p)
}

/// How many of `avail` entries a read with limit `count` gives.
pub open spec fn read_len(avail: int, count: Option<usize>) -> int {
    match count {
        Some(c) => if 1 <= c && c < avail { c as int } else { avail },
        None => avail,
    }
}

/// The field entries a read after `start` with limit `count` gives.
pub open spec fn read_window(s: Seq<(Seq<char>, Map<Seq<char>, Seq<char>>)>, start: Seq<char>, count: Option<usize>) -> Seq<(Seq<char>, Map<Seq<char>, Seq<char>>)> {
    let p = first_after(s, start);
    s.subrange(p, p + read_len(s.len() - p, count))
}

/// What a read after `start` with limit `count` gives from the entries
/// `all`: the field maps after `start`, at most `count` of them when
/// `count` is at least one; a limit of zero gives nothing when the first
/// entry after `start` is no field map, and all of them otherwise.
pub open spec fn read_entries(all: Seq<(Seq<char>, EntryModel)>, start: Seq<char>, count: Option<usize>) -> Seq<(Seq<char>, Map<Seq<char>, Seq<char>>)> {
    let p = first_after(all, start);
    if count == Some(0usize) && p < all.len() && all[p].1 is Shown {
        Seq::empty()
    } else {
        read_window(field_entries(all), start, count)
    }
}

/// A map of field maps, by key.
pub open spec fn nested_view(r: StrMap<StrMap<String>>) -> Map<Seq<char>, Map<Seq<char>, Seq<char>>> {
    r.map().map_values(|m: StrMap<String>| string_view(m))
}

/// A stream, by its contents.
pub struct StreamModel {
    /// Entry ID to entry.
    pub entries: Map<Seq<char>, EntryModel>,
    pub next_number: u64,
    pub groups: Map<Seq<char>, GroupModel>,
}

pub open spec fn stream_model(s: Stream) -> StreamModel {
    StreamModel {
        entries: s.entries.map().map_values(|e: StreamEntry| entry_model(e.value)),
        next_number: s.last_id,
        groups: s.consumer_groups.map().map_values(|g: ConsumerGroup| group_model(g)),
    }
}

impl Stream {
    pub open spec fn wf(&self) -> bool {
        &&& self.entries.wf()
        &&& self.consumer_groups.wf()
        &&& forall|j: int| 0 <= j < self.entries.pairs().len() ==> entry_ok(#[trigger] self.entries.pairs()[j].1.value)
        &&& forall|k: Seq<char>| #[trigger] self.consumer_groups.map().dom().contains(k) ==> self.consumer_groups.map()[k].wf()
    }

    /// The number the next entry's ID ends with.
    pub open spec fn next_number(&self) -> u64 {
        self.last_id
    }

    /// Adds `data` as a new entry stamped with time `now`; its ID is
    /// `"<now>-<n>"` where `n` counts the entries added before it.
    pub fn add_entry_at(&mut self, data: ValueType, now: i64) -> (r: String)
        requires
            old(self).wf(),
            entry_ok(data),
            old(self).next_number() < u64::MAX,
        ensures
            final(self).wf(),
            final(self).entries.map() == old(self).entries.map().insert(
                entry_id(now as int, old(self).next_number() as nat),
                (StreamEntry { value: data }),
            ),
            final(self).next_number() == old(self).next_number() + 1,
            final(self).consumer_groups == old(self).consumer_groups,
            r@ == "+Ok Entry Added"@,
    {
        let mut id = String::new();
        push_signed_decimal(&mut id, now);
        push_char(&mut id, '-');
        push_decimal(&mut id, self.last_id);
        proof {
            assert(id@ =~= entry_id(now as int, self.last_id as nat));
        }
        let ghost before = self.entries.pairs();
        self.entries.insert(id, StreamEntry { value: data });
        proof {
            crate::str_map::lemma_pairs_map_all(self.entries.pairs());
            crate::str_map::lemma_pairs_map_all(before);
            assert forall|j: int| 0 <= j < self.entries.pairs().len() implies entry_ok(#[trigger] self.entries.pairs()[j].1.value) by {
                let k = self.entries.pairs()[j].0;
                if k != entry_id(now as int, old(self).last_id as nat) {
                    let i = choose|i: int| 0 <= i < before.len() && #[trigger] before[i].0 == k;
                    assert(self.entries.map()[k] == before[i].1);
                }
            }
        }
        self.last_id = self.last_id + 1;
        text("+Ok Entry Added")
    }

    /// The field-map entries after `start_id` (see `read_entries`), as a
    /// map from ID to field map.
    pub fn read_after(&self, start_id: &str, count: Option<usize>) -> (r: StrMap<StrMap<String>>)
        requires
            self.wf(),
        ensures
            r.wf(),
            forall|k: Seq<char>| #[trigger] r.map().dom().contains(k) ==> r.map()[k].wf(),
            nested_view(r) == pairs_map(read_entries(all_view(*self), start_id@, count)),
    {
        let ghost av = all_view(*self);
        let ghost ps = self.entries.pairs();
        let n = self.entries.len();
        proof {
            assert forall|a: int, b: int| 0 <= a < b < av.len() implies seq_less(#[trigger] av[a].0, #[trigger] av[b].0) by {
                assert(av[a].0 == ps[a].0);
                assert(av[b].0 == ps[b].0);
            }
        }
        let mut i: usize = 0;
        while i < n && !string_less(start_id, self.entries.key_at(i).as_str())
            invariant
                n == av.len(),
                av == all_view(*self),
                ps == self.entries.pairs(),
                i <= n,
                forall|j: int| 0 <= j < i ==> !seq_less(start_id@, #[trigger] av[j].0),
            decreases n - i,
        {
            i = i + 1;
        }
        let p = i;
        proof {
            assert forall|j: int| p <= j < n implies seq_less(start_id@, #[trigger] av[j].0) by {
                if j > p {
                    assert(seq_less(av[p as int].0, av[j].0));
                    lemma_less_transitive(start_id@, av[p as int].0, av[j].0);
                }
            }
            assert(splits_at(av, start_id@, p as int));
            lemma_split_unique(av, start_id@, p as int);
        }
        let mut result: StrMap<StrMap<String>> = StrMap::new();
        let mut got: usize = 0;
        proof {
            assert(av.subrange(p as int, p as int) =~= Seq::<(Seq<char>, EntryModel)>::empty());
            assert(nested_view(result) =~= pairs_map(field_entries(av.subrange(p as int, p as int))));
        }
        while i < n
            invariant_except_break
                count matches Some(mx) ==> (mx >= 1 ==> got < mx),
                count == Some(0usize) && i > p ==> av[p as int].1 is Fields,
            invariant
                count == Some(0usize) && i > p && av[p as int].1 is Fields ==> got >= 1,
                n == av.len(),
                av == all_view(*self),
                ps == self.entries.pairs(),
                self.wf(),
                sorted_pairs(av),
                p <= i <= n,
                p == first_after(av, start_id@),
                result.wf(),
                forall|k: Seq<char>| #[trigger] result.map().dom().contains(k) ==> result.map()[k].wf(),
                nested_view(result) == pairs_map(field_entries(av.subrange(p as int, i as int))),
                got == field_entries(av.subrange(p as int, i as int)).len(),
                sorted_pairs(field_entries(av.subrange(p as int, i as int))),
            ensures
                p <= i <= n,
                nested_view(result) == pairs_map(field_entries(av.subrange(p as int, i as int))),
                got == field_entries(av.subrange(p as int, i as int)).len(),
                result.wf(),
                forall|k: Seq<char>| #[trigger] result.map().dom().contains(k) ==> result.map()[k].wf(),
                (count matches Some(mx) && got == mx && i > p) || (i == n && (count matches Some(mx) ==> (mx >= 1 ==> got
                    < mx)) && (count == Some(0usize) && i > p ==> av[p as int].1 is Fields)),
                count == Some(0usize) && got == 0 && i > p ==> i == p + 1 && av[p as int].1 is Shown,
            decreases n - i,
        {
            let entry = self.entries.value_at(i);
            let key = self.entries.key_at(i).clone();
            let ghost before_seq = av.subrange(p as int, i as int);
            proof {
                assert(av.subrange(p as int, i + 1).drop_last() =~= before_seq);
                assert(av.subrange(p as int, i + 1).last() == av[i as int]);
                assert(av[i as int] == (ps[i as int].0, entry_model(ps[i as int].1.value)));
                lemma_field_entries_ids(before_seq);
            }
            match &entry.value {
                ValueType::Hash(map) => {
                    let ghost before = nested_view(result);
                    let copy = map.clone_strings();
                    let ghost t = field_entries(before_seq);
                    proof {
                        assert forall|j: int| 0 <= j < t.len() implies seq_less(#[trigger] t[j].0, av[i as int].0) by {
                            let k = choose|k: int| 0 <= k < before_seq.len() && #[trigger] before_seq[k].0 == t[j].0;
                            assert(before_seq[k] == av[p + k]);
                        }
                        lemma_pairs_insert(t, t.len() as int, av[i as int].0, string_view(*map));
                        assert(t.insert(t.len() as int, (av[i as int].0, string_view(*map))) =~= field_entries(av.subrange(p as int, i + 1)));
                    }
                    result.insert(key, copy);
                    got = got + 1;
                    proof {
                        assert(string_view(copy) =~= string_view(*map));
                        assert(nested_view(result) =~= before.insert(av[i as int].0, string_view(*map)));
                        assert(copy.wf());
                    }
                },
                _ => {
                    proof {
                        assert(field_entries(av.subrange(p as int, i + 1)) == field_entries(before_seq));
                    }
                },
            }
            i = i + 1;
            if let Some(mx) = count {
                if got == mx {
                    break;
                }
            }
        }
        proof {
            lemma_read_result(av, start_id@, count, p as int, i as int);
        }
        result
    }
}

impl StreamFunctions for Stream {
    open spec fn stream_wf(&self) -> bool {
        self.wf()
    }

    open spec fn accepts_entry(&self, data: &ValueType) -> bool {
        &&& self.next_number() < u64::MAX
        &&& entry_ok(*data)
    }

    fn new() -> (s: Stream)
        ensures
            s.entries.map() == Map::<Seq<char>, StreamEntry>::empty(),
            s.consumer_groups.map() == Map::<Seq<char>, ConsumerGroup>::empty(),
            s.next_number() == 0,
    {
        Stream { entries: StrMap::new(), last_id: 0, consumer_groups: StrMap::new() }
    }

    /// Adds `data` as a new entry stamped with the current time.
    fn add_entry(&mut self, data: ValueType) -> (r: String)
        ensures
            exists|now: int|
                MIN_INSTANT_MILLIS <= now <= MAX_INSTANT_MILLIS && final(self).entries.map() == old(self).entries.map().insert(
                    #[trigger] entry_id(now as int, old(self).next_number() as nat),
                    (StreamEntry { value: data }),
                ),
            final(self).next_number() == old(self).next_number() + 1,
            final(self).consumer_groups == old(self).consumer_groups,
            r@ == "+Ok Entry Added"@,
    {
        let now = now_millis();
        self.add_entry_at(data, now)
    }

    fn x_read(&self, start_id: &str, count: Option<usize>) -> (r: StrMap<StrMap<String>>)
        ensures
            r.wf(),
            forall|k: Seq<char>| #[trigger] r.map().dom().contains(k) ==> r.map()[k].wf(),
            nested_view(r) == pairs_map(read_entries(all_view(*self), start_id@, count)),
    {
        self.read_after(start_id, count)
    }

    fn x_group_add(&self, name: &str, reference_start: Option<usize>) -> (r: String)
        ensures
            r@ == "+ok"@,
    {
        text("+ok")
    }
}

/// The entries of a stream in ID order are the sorted pairs of its model.
pub proof fn lemma_all_view_ordered(s: Stream)
    requires
        s.wf(),
    ensures
        all_view(s) == ordered(stream_model(s).entries),
        crate::str_map::sorted_pairs(all_view(s)),
{
    let f = |e: StreamEntry| entry_model(e.value);
    crate::str_map::lemma_pairs_map_values(s.entries.pairs(), f);
    let t = s.entries.pairs().map_values(|p: (Seq<char>, StreamEntry)| (p.0, f(p.1)));
    assert(t =~= all_view(s));
    assert(pairs_map(s.entries.pairs()).map_values(f) =~= stream_model(s).entries);
    crate::str_map::lemma_sorted_unique(ordered(stream_model(s).entries), t);
}

/// A sequence splits at one place only.
pub proof fn lemma_split_unique<V>(s: Seq<(Seq<char>, V)>, start: Seq<char>, p: int)
    requires
        splits_at(s, start, p),
    ensures
        first_after(s, start) == p,
{
    let q = first_after(s, start);
    assert(splits_at(s, start, q));
    if q < p {
        assert(!seq_less(start, s[q].0));
    } else if q > p {
        assert(!seq_less(start, s[p].0));
    }
}

/// Every field entry is an entry of `s`, with the same ID.
pub proof fn lemma_field_entries_ids(s: Seq<(Seq<char>, EntryModel)>)
    ensures
        forall|j: int| 0 <= j < field_entries(s).len() ==> exists|k: int| 0 <= k < s.len() && #[trigger] s[k].0 == (#[trigger] field_entries(s)[j]).0 && s[k].1 == EntryModel::Fields(field_entries(s)[j].1),
        field_entries(s).len() <= s.len(),
    decreases s.len(),
{
    if s.len() > 0 {
        let init = s.drop_last();
        lemma_field_entries_ids(init);
        let f = field_entries(s);
        let fi = field_entries(init);
        assert forall|j: int| 0 <= j < f.len() implies exists|k: int| 0 <= k < s.len() && #[trigger] s[k].0 == (#[trigger] f[j]).0 && s[k].1 == EntryModel::Fields(f[j].1) by {
            if j < fi.len() {
                assert(f[j] == fi[j]);
                let k = choose|k: int| 0 <= k < init.len() && #[trigger] init[k].0 == fi[j].0 && init[k].1 == EntryModel::Fields(fi[j].1);
                assert(s[k] == init[k]);
            } else {
                assert(s[s.len() - 1].0 == f[j].0);
            }
        }
    }
}

/// The field entries of two sequences one after the other.
pub proof fn lemma_field_entries_concat(a: Seq<(Seq<char>, EntryModel)>, b: Seq<(Seq<char>, EntryModel)>)
    ensures
        field_entries(a + b) == field_entries(a) + field_entries(b),
    decreases b.len(),
{
    if b.len() == 0 {
        assert(a + b =~= a);
        assert(field_entries(a) + field_entries(b) =~= field_entries(a));
    } else {
        lemma_field_entries_concat(a, b.drop_last());
        assert((a + b).drop_last() =~= a + b.drop_last());
        assert((a + b).last() == b.last());
        match b.last().1 {
            EntryModel::Fields(m) => {
                assert(field_entries(a) + field_entries(b) =~= (field_entries(a) + field_entries(b.drop_last())).push((b.last().0, m)));
            },
            EntryModel::Shown(_) => {},
        }
    }
}

/// The field entries of sorted entries are sorted.
pub proof fn lemma_field_entries_sorted(s: Seq<(Seq<char>, EntryModel)>)
    requires
        sorted_pairs(s),
    ensures
        sorted_pairs(field_entries(s)),
    decreases s.len(),
{
    if s.len() > 0 {
        let init = s.drop_last();
        assert(sorted_pairs(init)) by {
            assert forall|a: int, b: int| 0 <= a < b < init.len() implies seq_less(#[trigger] init[a].0, #[trigger] init[b].0) by {
                assert(init[a] == s[a] && init[b] == s[b]);
            }
        }
        lemma_field_entries_sorted(init);
        lemma_field_entries_ids(init);
        let fi = field_entries(init);
        let f = field_entries(s);
        match s.last().1 {
            EntryModel::Fields(m) => {
                assert forall|a: int, b: int| 0 <= a < b < f.len() implies seq_less(#[trigger] f[a].0, #[trigger] f[b].0) by {
                    if b < fi.len() {
                        assert(f[a] == fi[a] && f[b] == fi[b]);
                    } else {
                        assert(f[a] == fi[a]);
                        let k = choose|k: int| 0 <= k < init.len() && #[trigger] init[k].0 == fi[a].0 && init[k].1 == EntryModel::Fields(fi[a].1);
                        assert(s[k] == init[k]);
                        assert(f[b].0 == s[s.len() - 1].0);
                    }
                }
            },
            EntryModel::Shown(_) => {},
        }
    }
}

/// What the reading loop of `read_after` leaves is what `read_entries` gives.
proof fn lemma_read_result(av: Seq<(Seq<char>, EntryModel)>, start: Seq<char>, count: Option<usize>, p: int, i: int)
    requires
        sorted_pairs(av),
        0 <= p <= i <= av.len(),
        p == first_after(av, start),
        splits_at(av, start, p),
        (count matches Some(mx) && field_entries(av.subrange(p, i)).len() == mx && i > p) || (i == av.len() && (count matches Some(
            mx,
        ) ==> (mx >= 1 ==> field_entries(av.subrange(p, i)).len() < mx)) && (count == Some(0usize) && i > p
            ==> av[p].1 is Fields)),
        count == Some(0usize) && field_entries(av.subrange(p, i)).len() == 0 && i > p ==> i == p + 1 && av[p].1 is Shown,
    ensures
        read_entries(av, start, count) == field_entries(av.subrange(p, i)),
{
    let n = av.len() as int;
    let a = av.subrange(0, p);
    let b = av.subrange(p, n);
    let b1 = av.subrange(p, i);
    let b2 = av.subrange(i, n);
    assert(a + b =~= av);
    assert(b1 + b2 =~= b);
    lemma_field_entries_concat(a, b);
    lemma_field_entries_concat(b1, b2);
    let fe = field_entries(av);
    let fa = field_entries(a);
    let fb = field_entries(b);
    let q = fa.len() as int;
    lemma_field_entries_ids(a);
    lemma_field_entries_ids(b);
    assert forall|j: int| 0 <= j < q implies !seq_less(start, #[trigger] fe[j].0) by {
        assert(fe[j] == fa[j]);
        let k = choose|k: int| 0 <= k < a.len() && #[trigger] a[k].0 == (#[trigger] fa[j]).0 && a[k].1 == EntryModel::Fields(fa[j].1);
        assert(a[k] == av[k]);
    }
    assert forall|j: int| q <= j < fe.len() implies seq_less(start, #[trigger] fe[j].0) by {
        assert(fe[j] == fb[j - q]);
        let k = choose|k: int| 0 <= k < b.len() && #[trigger] b[k].0 == (#[trigger] fb[j - q]).0 && b[k].1 == EntryModel::Fields(fb[j - q].1);
        assert(b[k] == av[p + k]);
    }
    assert(splits_at(fe, start, q));
    lemma_split_unique(fe, start, q);
    let got = field_entries(b1).len() as int;
    if !(count matches Some(mx) && got == mx && i > p) {
        assert(b1 =~= b);
        if p < n && count == Some(0usize) {
            assert(av[p].1 is Fields);
        }
        assert(fe.subrange(q, fe.len() as int) =~= fb);
    } else {
        let mx = count->0;
        if mx == 0 {
            assert(i == p + 1 && av[p].1 is Shown);
            assert(field_entries(b1) =~= Seq::<(Seq<char>, Map<Seq<char>, Seq<char>>)>::empty());
        } else {
            assert(fe.subrange(q, q + got) =~= field_entries(b1));
        }
    }
}

/// A window of sorted entries is sorted.
pub proof fn lemma_window_sorted(s: Seq<(Seq<char>, Map<Seq<char>, Seq<char>>)>, start: Seq<char>, count: Option<usize>)
    requires
        sorted_pairs(s),
    ensures
        sorted_pairs(read_window(s, start, count)),
{
    let p = first_after(s, start);
    let w = read_window(s, start, count);
    lemma_split_exists(s, start, 0);
    assert forall|a: int, b: int| 0 <= a < b < w.len() implies seq_less(#[trigger] w[a].0, #[trigger] w[b].0) by {
        assert(w[a] == s[p + a]);
        assert(w[b] == s[p + b]);
    }
}

/// What a read gives from sorted entries is sorted.
pub proof fn lemma_read_sorted(all: Seq<(Seq<char>, EntryModel)>, start: Seq<char>, count: Option<usize>)
    requires
        sorted_pairs(all),
    ensures
        sorted_pairs(read_entries(all, start, count)),
{
    lemma_field_entries_sorted(all);
    lemma_window_sorted(field_entries(all), start, count);
}

/// A sorted sequence splits at the first entry after `start` (searching from `i`).
pub proof fn lemma_split_exists(s: Seq<(Seq<char>, Map<Seq<char>, Seq<char>>)>, start: Seq<char>, i: int)
    requires
        sorted_pairs(s),
        0 <= i <= s.len(),
        forall|j: int| 0 <= j < i ==> !seq_less(start, #[trigger] s[j].0),
    ensures
        splits_at(s, start, first_after(s, start)),
    decreases s.len() - i,
{
    if i == s.len() {
        assert(splits_at(s, start, i));
    } else if seq_less(start, s[i].0) {
        assert forall|j: int| i <= j < s.len() implies seq_less(start, #[trigger] s[j].0) by {
            if j > i {
                assert(seq_less(s[i].0, s[j].0));
                lemma_less_transitive(start, s[i].0, s[j].0);
            }
        }
        assert(splits_at(s, start, i));
    } else {
        lemma_split_exists(s, start, i + 1);
    }
}

} // verus!
