use vstd::prelude::*;
use vstd::std_specs::cmp::PartialEqSpec;

use crate::symmetric_fold::{
    diff_at, diff_spec, expected_diff, keys_increasing, lemma_diff_at_index, lemma_diff_keys, lemma_symmetric_diff_exact,
    map_of, symmetric_diff, DiffElement, MergeElement,
};

verus! {

/// In a listing with increasing keys, the map holds exactly the listed keys, each with
/// its listed value.
pub proof fn lemma_map_of_char<V>(s: Seq<(u64, V)>)
    requires
        keys_increasing(s),
    ensures
        forall|k: u64| #[trigger] map_of(s).contains_key(k) <==> exists|i: int| 0 <= i < s.len() && s[i].0 == k,
        forall|i: int| 0 <= i < s.len() ==> #[trigger] map_of(s)[s[i].0] == s[i].1,
        map_of(s).dom().finite(),
        map_of(s).len() == s.len(),
    decreases s.len(),
{
    if s.len() > 0 {
        let t = s.drop_first();
        assert(keys_increasing(t));
        lemma_map_of_char(t);
        assert(!map_of(t).contains_key(s[0].0)) by {
            if map_of(t).contains_key(s[0].0) {
                let i = choose|i: int| 0 <= i < t.len() && t[i].0 == s[0].0;
                assert(s[i + 1].0 == s[0].0);
            }
        }
        assert forall|k: u64| #[trigger] map_of(s).contains_key(k) <==> exists|i: int| 0 <= i < s.len() && s[i].0 == k by {
            if map_of(s).contains_key(k) && k != s[0].0 {
                let i = choose|i: int| 0 <= i < t.len() && t[i].0 == k;
                assert(s[i + 1].0 == k);
            }
            if exists|i: int| 0 <= i < s.len() && s[i].0 == k {
                let i = choose|i: int| 0 <= i < s.len() && s[i].0 == k;
                if i > 0 {
                    assert(t[i - 1].0 == k);
                }
            }
        }
        assert forall|i: int| 0 <= i < s.len() implies #[trigger] map_of(s)[s[i].0] == s[i].1 by {
            if i > 0 {
                assert(t[i - 1] == s[i]);
                assert(s[0].0 < s[i].0);
            }
        }
    } else {
        assert(map_of(s) =~= Map::<u64, V>::empty());
    }
}

/// A map with `u64` keys, kept as its entries in increasing key order.
pub struct SortedMap<V> {
    entries: Vec<(u64, V)>,
}

impl<V> View for SortedMap<V> {
    type V = Map<u64, V>;

    closed spec fn view(&self) -> Map<u64, V> {
        map_of(self.entries@)
    }
}

impl<V> SortedMap<V> {
    /// The entries in increasing key order.
    pub closed spec fn spec_entries(&self) -> Seq<(u64, V)> {
        self.entries@
    }

    pub closed spec fn wf(&self) -> bool {
        keys_increasing(self.entries@)
    }

    /// The view is the map of the entries.
    pub proof fn lemma_view(&self)
        requires
            self.wf(),
        ensures
            keys_increasing(self.spec_entries()),
            self@ == map_of(self.spec_entries()),
            self@.dom().finite(),
            self@.len() == self.spec_entries().len(),
    {
        lemma_map_of_char(self.entries@);
    }

    /// An empty map.
    pub fn new() -> (r: Self)
        ensures
            r.wf(),
            r@ == Map::<u64, V>::empty(),
            r.spec_entries().len() == 0,
    {
        let r = SortedMap { entries: Vec::new() };
        assert(r@ =~= Map::<u64, V>::empty());
        r
    }

    /// Number of entries.
    pub fn len(&self) -> (r: usize)
        requires
            self.wf(),
        ensures
            r == self@.len(),
    {
        proof {
            lemma_map_of_char(self.entries@);
        }
        self.entries.len()
    }

    /// Whether the map is empty.
    pub fn is_empty(&self) -> (r: bool)
        requires
            self.wf(),
        ensures
            r == (self@.len() == 0),
    {
        proof {
            lemma_map_of_char(self.entries@);
        }
        self.entries.len() == 0
    }

    /// The entries in increasing key order.
    pub fn entries(&self) -> (r: &Vec<(u64, V)>)
        ensures
            r@ == self.spec_entries(),
    {
        &self.entries
    }

    /// Where `key` is, or where it would go: the first position whose key is not below it.
    fn position(&self, key: u64) -> (r: usize)
        requires
            self.wf(),
        ensures
            r <= self.entries@.len(),
            forall|i: int| 0 <= i < r ==> #[trigger] self.entries@[i].0 < key,
            forall|i: int| r <= i < self.entries@.len() ==> key <= #[trigger] self.entries@[i].0,
    {
        let mut i: usize = 0;
        while i < self.entries.len() && self.entries[i].0 < key
            invariant
                i <= self.entries@.len(),
                forall|j: int| 0 <= j < i ==> #[trigger] self.entries@[j].0 < key,
            decreases self.entries@.len() - i,
        {
            i = i + 1;
        }
        proof {
            assert forall|j: int| i <= j < self.entries@.len() implies key <= #[trigger] self.entries@[j].0 by {
                if j > i {
                    assert(self.entries@[i as int].0 < self.entries@[j].0);
                }
            }
        }
        i
    }

    /// The value at `key`, if there is one.
    pub fn get(&self, key: u64) -> (r: Option<V>)
        where
            V: Copy,
        requires
            self.wf(),
        ensures
            r == (if self@.contains_key(key) {
                Some(self@[key])
            } else {
                None::<V>
            }),
    {
        proof {
            lemma_map_of_char(self.entries@);
        }
        let p = self.position(key);
        if p < self.entries.len() && self.entries[p].0 == key {
            Some(self.entries[p].1)
        } else {
            proof {
                if self@.contains_key(key) {
                    let i = choose|i: int| 0 <= i < self.entries@.len() && self.entries@[i].0 == key;
                    assert(i >= p);
                    if i > p {
                        assert(self.entries@[p as int].0 < self.entries@[i].0);
                    }
                }
            }
            None
        }
    }

    /// Insert `value` at `key`; the value it replaced comes back.
    pub fn insert_entry(&mut self, key: u64, value: V) -> (r: Option<V>)
        requires
            old(self).wf(),
        ensures
            final(self).wf(),
            final(self)@ == old(self)@.insert(key, value),
            old(self)@.contains_key(key) ==> r == Some(old(self)@[key]),
            !old(self)@.contains_key(key) ==> r is None,
    {
        proof {
            lemma_map_of_char(self.entries@);
        }
        let p = self.position(key);
        let ghost s0 = self.entries@;
        if p < self.entries.len() && self.entries[p].0 == key {
            let mut e = (key, value);
            self.entries.set_and_swap(p, &mut e);
            let (_, old_value) = e;
            proof {
                let s = self.entries@;
                assert(s == s0.update(p as int, (key, value)));
                assert(keys_increasing(s)) by {
                    assert forall|i: int, j: int| 0 <= i < j < s.len() implies s[i].0 < s[j].0 by {
                        assert(s[i].0 == s0[i].0 && s[j].0 == s0[j].0);
                    }
                }
                lemma_map_of_char(s);
                assert(map_of(s) =~= map_of(s0).insert(key, value)) by {
                    assert forall|k: u64| map_of(s).contains_key(k) <==> map_of(s0).insert(key, value).contains_key(k) by {
                        if exists|i: int| 0 <= i < s.len() && s[i].0 == k {
                            let i = choose|i: int| 0 <= i < s.len() && s[i].0 == k;
                            assert(s0[i].0 == k);
                        }
                        if exists|i: int| 0 <= i < s0.len() && s0[i].0 == k {
                            let i = choose|i: int| 0 <= i < s0.len() && s0[i].0 == k;
                            assert(s[i].0 == k);
                        }
                    }
                    assert forall|k: u64| #[trigger] map_of(s).contains_key(k) implies map_of(s)[k] == map_of(s0).insert(
                        key,
                        value,
                    )[k] by {
                        let i = choose|i: int| 0 <= i < s.len() && s[i].0 == k;
                        assert(map_of(s)[s[i].0] == s[i].1);
                        if i != p as int {
                            assert(map_of(s0)[s0[i].0] == s0[i].1);
                        }
                    }
                }
                assert(map_of(s0)[s0[p as int].0] == s0[p as int].1);
            }
            Some(old_value)
        } else {
            self.entries.insert(p, (key, value));
            proof {
                let s = self.entries@;
                assert(s == s0.insert(p as int, (key, value)));
                assert(keys_increasing(s)) by {
                    assert forall|i: int, j: int| 0 <= i < j < s.len() implies s[i].0 < s[j].0 by {
                        if j < p {
                        } else if j == p {
                        } else if i < p {
                            assert(s[j] == s0[j - 1]);
                        } else if i == p {
                            assert(s[j] == s0[j - 1]);
                            if j - 1 == p as int {
                                assert(s0[p as int].0 != key);
                            }
                        } else {
                            assert(s[i] == s0[i - 1] && s[j] == s0[j - 1]);
                        }
                    }
                }
                lemma_map_of_char(s);
                assert(!map_of(s0).contains_key(key)) by {
                    if map_of(s0).contains_key(key) {
                        let i = choose|i: int| 0 <= i < s0.len() && s0[i].0 == key;
                        if i >= p {
                            assert(i == p || s0[p as int].0 < s0[i].0);
                        }
                    }
                }
                assert(map_of(s) =~= map_of(s0).insert(key, value)) by {
                    assert forall|k: u64| map_of(s).contains_key(k) <==> map_of(s0).insert(key, value).contains_key(k) by {
                        if exists|i: int| 0 <= i < s.len() && s[i].0 == k {
                            let i = choose|i: int| 0 <= i < s.len() && s[i].0 == k;
                            if i < p {
                                assert(s0[i].0 == k);
                            } else if i > p {
                                assert(s0[i - 1].0 == k);
                            }
                        }
                        if exists|i: int| 0 <= i < s0.len() && s0[i].0 == k {
                            let i = choose|i: int| 0 <= i < s0.len() && s0[i].0 == k;
                            if i < p {
                                assert(s[i].0 == k);
                            } else {
                                assert(s[i + 1].0 == k);
                            }
                        }
                        if k == key {
                            assert(s[p as int].0 == k);
                        }
                    }
                    assert forall|k: u64| #[trigger] map_of(s).contains_key(k) implies map_of(s)[k] == map_of(s0).insert(
                        key,
                        value,
                    )[k] by {
                        let i = choose|i: int| 0 <= i < s.len() && s[i].0 == k;
                        assert(map_of(s)[s[i].0] == s[i].1);
                        if i < p {
                            assert(map_of(s0)[s0[i].0] == s0[i].1);
                        } else if i > p {
                            assert(s[i] == s0[i - 1]);
                            assert(map_of(s0)[s0[i - 1].0] == s0[i - 1].1);
                        }
                    }
                }
            }
            None
        }
    }

    /// Remove `key`; its value comes back, if it was there.
    pub fn remove_entry(&mut self, key: u64) -> (r: Option<V>)
        requires
            old(self).wf(),
        ensures
            final(self).wf(),
            final(self)@ == old(self)@.remove(key),
            old(self)@.contains_key(key) ==> r == Some(old(self)@[key]),
            !old(self)@.contains_key(key) ==> r is None,
    {
        proof {
            lemma_map_of_char(self.entries@);
        }
        let p = self.position(key);
        let ghost s0 = self.entries@;
        if p < self.entries.len() && self.entries[p].0 == key {
            let (_, old_value) = self.entries.remove(p);
            proof {
                let s = self.entries@;
                assert(s == s0.remove(p as int));
                assert(keys_increasing(s)) by {
                    assert forall|i: int, j: int| 0 <= i < j < s.len() implies s[i].0 < s[j].0 by {
                        let i0 = if i < p { i } else { i + 1 };
                        let j0 = if j < p { j } else { j + 1 };
                        assert(s[i] == s0[i0] && s[j] == s0[j0]);
                    }
                }
                lemma_map_of_char(s);
                assert(map_of(s0)[s0[p as int].0] == s0[p as int].1);
                assert(map_of(s) =~= map_of(s0).remove(key)) by {
                    assert forall|k: u64| map_of(s).contains_key(k) <==> map_of(s0).remove(key).contains_key(k) by {
                        if exists|i: int| 0 <= i < s.len() && s[i].0 == k {
                            let i = choose|i: int| 0 <= i < s.len() && s[i].0 == k;
                            let i0 = if i < p { i } else { i + 1 };
                            assert(s0[i0].0 == k);
                            assert(i0 != p);
                            if i0 > p {
                                assert(s0[p as int].0 < s0[i0].0);
                            } else {
                                assert(s0[i0].0 < s0[p as int].0);
                            }
                        }
                        if exists|i: int| 0 <= i < s0.len() && s0[i].0 == k && k != key {
                            let i = choose|i: int| 0 <= i < s0.len() && s0[i].0 == k && k != key;
                            if i < p {
                                assert(s[i].0 == k);
                            } else {
                                assert(i != p);
                                assert(s[i - 1].0 == k);
                            }
                        }
                    }
                    assert forall|k: u64| #[trigger] map_of(s).contains_key(k) implies map_of(s)[k] == map_of(s0).remove(
                        key,
                    )[k] by {
                        let i = choose|i: int| 0 <= i < s.len() && s[i].0 == k;
                        let i0 = if i < p { i } else { i + 1 };
                        assert(s[i] == s0[i0]);
                        assert(map_of(s)[s[i].0] == s[i].1);
                        assert(map_of(s0)[s0[i0].0] == s0[i0].1);
                    }
                }
            }
            Some(old_value)
        } else {
            proof {
                assert(!map_of(s0).contains_key(key)) by {
                    if map_of(s0).contains_key(key) {
                        let i = choose|i: int| 0 <= i < s0.len() && s0[i].0 == key;
                        if i >= p {
                            assert(i == p || s0[p as int].0 < s0[i].0);
                        }
                    }
                }
                assert(map_of(s0) =~= map_of(s0).remove(key));
            }
            None
        }
    }
}

/// `accs` are the accumulators of folding the items `xs` with `f` from `init`.
pub open spec fn closure_trace<R, X, F: Fn(R, X) -> R>(f: F, init: R, xs: Seq<X>, accs: Seq<R>) -> bool {
    &&& accs.len() == xs.len() + 1
    &&& accs[0] == init
    &&& forall|i: int| 0 <= i < xs.len() ==> #[trigger] f.ensures((accs[i], xs[i]), accs[i + 1])
}

/// Fold the items `xs` with `f`, starting from `init`.
pub fn fold_items<R, X: Copy, F: Fn(R, X) -> R>(xs: &Vec<X>, init: R, f: &F) -> (r: R)
    requires
        forall|acc: R, x: X| #[trigger] f.requires((acc, x)),
    ensures
        exists|accs: Seq<R>| closure_trace(*f, init, xs@, accs) && r == accs.last(),
{
    let mut acc = init;
    let ghost mut accs: Seq<R> = seq![init];
    let mut k: usize = 0;
    while k < xs.len()
        invariant
            k <= xs@.len(),
            accs.len() == k + 1,
            accs[0] == init,
            accs.last() == acc,
            forall|i: int| 0 <= i < k ==> #[trigger] f.ensures((accs[i], xs@[i]), accs[i + 1]),
            forall|acc: R, x: X| #[trigger] f.requires((acc, x)),
        decreases xs@.len() - k,
    {
        let next = f(acc, xs[k]);
        proof {
            accs = accs.push(next);
        }
        acc = next;
        k = k + 1;
    }
    proof {
        assert(closure_trace(*f, init, xs@, accs));
    }
    acc
}

/// Maps that can be folded over their differences with another map.
pub trait SymmetricFoldMap<K, V> {
    /// Fold `f` over the differences from `self` to `other`, in key order.
    fn symmetric_fold<R, F: Fn(R, (K, DiffElement<V>)) -> R>(&self, other: &Self, init: R, f: F) -> R
        requires
            forall|acc: R, e: (K, DiffElement<V>)| #[trigger] f.requires((acc, e)),
    ;

    fn len(&self) -> usize;

    fn is_empty(&self) -> bool;

    /// Fold `f` over the entries, in key order.
    fn nonincremental_fold<R, F: Fn(R, (K, V)) -> R>(&self, init: R, f: F) -> R
        requires
            forall|acc: R, e: (K, V)| #[trigger] f.requires((acc, e)),
    ;
}

/// Maps that can be changed in place.
pub trait GenericMap<K, V> {
    /// Whether the map's representation is in order.
    spec fn map_wf(&self) -> bool;

    fn remove(&mut self, key: &K) -> (r: Option<V>)
        requires
            old(self).map_wf(),
        ensures
            final(self).map_wf(),
    ;

    fn insert(&mut self, key: K, value: V) -> (r: Option<V>)
        requires
            old(self).map_wf(),
        ensures
            final(self).map_wf(),
    ;
}

/// Maps that can be mapped to other maps.
pub trait SymmetricMapMap<K, V> {
    type UnderlyingMap: GenericMap<K, V>;

    fn make_mut(&mut self) -> &mut Self::UnderlyingMap;
}

impl<V: Copy + PartialEq> SymmetricFoldMap<u64, V> for SortedMap<V> {
    fn symmetric_fold<R, F: Fn(R, (u64, DiffElement<V>)) -> R>(&self, other: &Self, init: R, f: F) -> (r: R)
        ensures
            V::obeys_eq_spec() ==> exists|accs: Seq<R>|
                closure_trace(f, init, diff_spec(self.spec_entries(), other.spec_entries()), accs) && r
                    == accs.last(),
    {
        let d = symmetric_diff(&self.entries, &other.entries);
        fold_items(&d, init, &f)
    }

    fn len(&self) -> (r: usize)
        ensures
            r == self.spec_entries().len(),
    {
        self.entries.len()
    }

    fn is_empty(&self) -> (r: bool)
        ensures
            r == (self.spec_entries().len() == 0),
    {
        self.entries.len() == 0
    }

    fn nonincremental_fold<R, F: Fn(R, (u64, V)) -> R>(&self, init: R, f: F) -> (r: R)
        ensures
            exists|accs: Seq<R>| closure_trace(f, init, self.spec_entries(), accs) && r == accs.last(),
    {
        fold_items(&self.entries, init, &f)
    }
}

impl<V> GenericMap<u64, V> for SortedMap<V> {
    open spec fn map_wf(&self) -> bool {
        self.wf()
    }

    fn remove(&mut self, key: &u64) -> (r: Option<V>)
        ensures
            final(self)@ == old(self)@.remove(*key),
            old(self)@.contains_key(*key) ==> r == Some(old(self)@[*key]),
            !old(self)@.contains_key(*key) ==> r is None,
    {
        self.remove_entry(*key)
    }

    fn insert(&mut self, key: u64, value: V) -> (r: Option<V>)
        ensures
            final(self)@ == old(self)@.insert(key, value),
            old(self)@.contains_key(key) ==> r == Some(old(self)@[key]),
            !old(self)@.contains_key(key) ==> r is None,
    {
        self.insert_entry(key, value)
    }
}

impl<V> SymmetricMapMap<u64, V> for SortedMap<V> {
    type UnderlyingMap = SortedMap<V>;

    fn make_mut(&mut self) -> (r: &mut SortedMap<V>)
        ensures
            *r == *old(self),
            *final(self) == *final(r),
    {
        self
    }
}

impl<V> SortedMap<V> {
    /// The map of the entries for which `f` gives a value, with those values.
    pub fn filter_map_collect<V2, F: Fn(u64, &V) -> Option<V2>>(&self, f: &F) -> (r: SortedMap<V2>)
        requires
            self.wf(),
            forall|k: u64, v: V| #[trigger] f.requires((k, &v)),
        ensures
            r.wf(),
            r.spec_entries().len() <= self.spec_entries().len(),
            forall|k: u64| #[trigger] r@.contains_key(k) ==> self@.contains_key(k) && f.ensures(
                (k, &self@[k]),
                Some(r@[k]),
            ),
            forall|k: u64|
                #[trigger] self@.contains_key(k) && !r@.contains_key(k) ==> f.ensures((k, &self@[k]), None),
    {
        let mut out: Vec<(u64, V2)> = Vec::new();
        let mut i: usize = 0;
        let ghost s = self.entries@;
        proof {
            lemma_map_of_char(s);
        }
        while i < self.entries.len()
            invariant
                s == self.entries@,
                keys_increasing(s),
                i <= s.len(),
                out@.len() <= i,
                keys_increasing(out@),
                forall|j: int| 0 <= j < out@.len() ==> exists|t: int| 0 <= t < i && #[trigger] out@[j].0 == s[t].0
                    && f.ensures((s[t].0, &s[t].1), Some(out@[j].1)),
                forall|t: int|
                    0 <= t < i && !(exists|j: int| 0 <= j < out@.len() && out@[j].0 == #[trigger] s[t].0)
                        ==> f.ensures((s[t].0, &s[t].1), None),
                forall|j: int| 0 <= j < out@.len() ==> #[trigger] out@[j].0 < (if i < s.len() { s[i as int].0 as int } else { u64::MAX as int + 1 }),
                forall|k: u64, v: V| #[trigger] f.requires((k, &v)),
            decreases s.len() - i,
        {
            let k = self.entries[i].0;
            let res = f(k, &self.entries[i].1);
            let ghost before = out@;
            match res {
                Some(v2) => {
                    out.push((k, v2));
                },
                None => {},
            }
            proof {
                assert forall|j: int| 0 <= j < out@.len() implies exists|t: int| 0 <= t < i + 1 && #[trigger] out@[j].0
                    == s[t].0 && f.ensures((s[t].0, &s[t].1), Some(out@[j].1)) by {
                    if j < before.len() {
                        assert(out@[j] == before[j]);
                    } else {
                        assert(out@[j].0 == s[i as int].0);
                    }
                }
                assert forall|t: int|
                    0 <= t < i + 1 && !(exists|j: int| 0 <= j < out@.len() && out@[j].0 == #[trigger] s[t].0)
                        implies f.ensures((s[t].0, &s[t].1), None) by {
                    if t < i {
                        if exists|j: int| 0 <= j < before.len() && before[j].0 == s[t].0 {
                            let j = choose|j: int| 0 <= j < before.len() && before[j].0 == s[t].0;
                            assert(out@[j] == before[j]);
                        }
                    } else {
                        if res is Some {
                            assert(out@[out@.len() - 1].0 == s[t].0);
                        }
                    }
                }
                assert forall|j: int| 0 <= j < out@.len() implies #[trigger] out@[j].0 < (if i + 1 < s.len() { s[i + 1].0 as int } else { u64::MAX as int + 1 }) by {
                    if i + 1 < s.len() {
                        assert(s[i as int].0 < s[i + 1].0);
                    }
                    if j < before.len() {
                        assert(out@[j] == before[j]);
                    }
                }
                assert forall|a: int, b: int| 0 <= a < b < out@.len() implies out@[a].0 < out@[b].0 by {
                    if b < before.len() {
                        assert(out@[a] == before[a] && out@[b] == before[b]);
                    } else {
                        assert(out@[a] == before[a]);
                    }
                }
            }
            i = i + 1;
        }
        let r = SortedMap { entries: out };
        proof {
            lemma_map_of_char(out@);
            assert forall|k: u64| #[trigger] r@.contains_key(k) implies self@.contains_key(k) && f.ensures(
                (k, &self@[k]),
                Some(r@[k]),
            ) by {
                let j = choose|j: int| 0 <= j < out@.len() && out@[j].0 == k;
                assert(map_of(out@)[out@[j].0] == out@[j].1);
                let t = choose|t: int| 0 <= t < i && #[trigger] out@[j].0 == s[t].0 && f.ensures((s[t].0, &s[t].1), Some(out@[j].1));
                assert(map_of(s)[s[t].0] == s[t].1);
            }
            assert forall|k: u64| #[trigger] self@.contains_key(k) && !r@.contains_key(k) implies f.ensures(
                (k, &self@[k]),
                None,
            ) by {
                let t = choose|t: int| 0 <= t < s.len() && s[t].0 == k;
                assert(map_of(s)[s[t].0] == s[t].1);
                if exists|j: int| 0 <= j < out@.len() && out@[j].0 == s[t].0 {
                    let j = choose|j: int| 0 <= j < out@.len() && out@[j].0 == s[t].0;
                }
            }
        }
        r
    }
}


/// `out` holds, for each key of `input` for which `f` gives a value, that value, and
/// nothing else.
pub open spec fn filter_mapped<V, V2, F: Fn(u64, &V) -> Option<V2>>(input: Map<u64, V>, out: Map<u64, V2>, f: F) -> bool {
    &&& forall|k: u64| #[trigger] out.contains_key(k) ==> input.contains_key(k) && f.ensures((k, &input[k]), Some(out[k]))
    &&& forall|k: u64| #[trigger] input.contains_key(k) && !out.contains_key(k) ==> f.ensures((k, &input[k]), None)
}

/// What the filter-map's output holds at `k` after the difference `e` at `k` was
/// applied: nothing for a removed key, and what `f` gives for the new value otherwise.
pub open spec fn applied_at<V, V2, F: Fn(u64, &V) -> Option<V2>>(out: Map<u64, V2>, k: u64, e: DiffElement<V>, f: F) -> bool {
    match e {
        DiffElement::Left(_) => !out.contains_key(k),
        DiffElement::Right(v) | DiffElement::Unequal(_, v) => {
            &&& out.contains_key(k) ==> f.ensures((k, &v), Some(out[k]))
            &&& !out.contains_key(k) ==> f.ensures((k, &v), None)
        },
    }
}

impl<V: Copy + PartialEq> SortedMap<V> {
    /// One step of the incremental filter-map: the input went from `old_input`, whose
    /// filter-map is `old_output`, to `input`. For an empty input the output is empty;
    /// otherwise only the keys that differ between the two inputs are looked at again:
    /// a removed key leaves the output, and for an added or changed key `f` runs on the
    /// new value and its result is put in or taken out. Every other key keeps its entry
    /// of `old_output`, without `f` running for it. The second result says whether
    /// anything was looked at.
    pub fn filter_map_update<V2, F: Fn(u64, &V) -> Option<V2>>(
        old_input: &Self,
        input: &Self,
        old_output: SortedMap<V2>,
        f: &F,
    ) -> (r: (SortedMap<V2>, bool))
        requires
            old_input.wf(),
            input.wf(),
            old_output.wf(),
            forall|k: u64, v: V| #[trigger] f.requires((k, &v)),
        ensures
            r.0.wf(),
            input.spec_entries().len() == 0 ==> r.1 && r.0@ == Map::<u64, V2>::empty(),
            V::obeys_eq_spec() && input.spec_entries().len() > 0 ==> {
                &&& r.1 == (diff_spec(old_input.spec_entries(), input.spec_entries()).len() > 0)
                &&& forall|k: u64|
                    #[trigger] expected_diff(old_input@, input@, k) is None ==> r.0@.contains_key(k)
                        == old_output@.contains_key(k) && (r.0@.contains_key(k) ==> r.0@[k] == old_output@[k])
                &&& forall|k: u64|
                    #[trigger] expected_diff(old_input@, input@, k) matches Some(e) ==> applied_at(r.0@, k, e, *f)
            },
            V::obeys_eq_spec() && (forall|x: V, y: V| #[trigger] x.eq_spec(&y) ==> x == y) && filter_mapped(
                old_input@,
                old_output@,
                *f,
            ) ==> filter_mapped(input@, r.0@, *f),
    {
        proof {
            old_input.lemma_view();
            input.lemma_view();
        }
        if input.entries.len() == 0 {
            let out = input.filter_map_collect(f);
            proof {
                assert(out@ =~= Map::<u64, V2>::empty()) by {
                    assert forall|k: u64| !out@.contains_key(k) by {
                        if out@.contains_key(k) {
                            assert(input@.contains_key(k));
                            lemma_map_of_char(input.entries@);
                        }
                    }
                }
            }
            return (out, true);
        }
        let d = symmetric_diff(&old_input.entries, &input.entries);
        let ghost a = old_input.entries@;
        let ghost b = input.entries@;
        proof {
            if V::obeys_eq_spec() {
                lemma_diff_keys(a, b);
            }
        }
        let mut out = old_output;
        let mut changed = false;
        let mut i: usize = 0;
        while i < d.len()
            invariant
                out.wf(),
                i <= d@.len(),
                changed == (i > 0),
                forall|k: u64, v: V| #[trigger] f.requires((k, &v)),
                V::obeys_eq_spec() ==> d@ == diff_spec(a, b),
                V::obeys_eq_spec() ==> forall|x: int, y: int| 0 <= x < y < d@.len() ==> d@[x].0 < d@[y].0,
                V::obeys_eq_spec() ==> forall|k: u64|
                    (forall|j: int| 0 <= j < i ==> d@[j].0 != k) ==> (#[trigger] out@.contains_key(k)
                        == old_output@.contains_key(k) && (out@.contains_key(k) ==> out@[k] == old_output@[k])),
                V::obeys_eq_spec() ==> forall|j: int| 0 <= j < i ==> applied_at(out@, #[trigger] d@[j].0, d@[j].1, *f),
            decreases d@.len() - i,
        {
            let (k, e) = d[i];
            let ghost before = out@;
            match e {
                DiffElement::Left(_) => {
                    out.remove_entry(k);
                },
                DiffElement::Right(v) | DiffElement::Unequal(_, v) => {
                    match f(k, &v) {
                        Some(w) => {
                            out.insert_entry(k, w);
                        },
                        None => {
                            out.remove_entry(k);
                        },
                    }
                },
            }
            proof {
                if V::obeys_eq_spec() {
                    assert forall|k2: u64|
                        (forall|j: int| 0 <= j < i + 1 ==> d@[j].0 != k2) implies (#[trigger] out@.contains_key(k2)
                            == old_output@.contains_key(k2) && (out@.contains_key(k2) ==> out@[k2]
                            == old_output@[k2])) by {
                        assert(d@[i as int].0 != k2);
                        assert(forall|j: int| 0 <= j < i ==> d@[j].0 != k2);
                    }
                    assert forall|j: int| 0 <= j < i + 1 implies applied_at(out@, #[trigger] d@[j].0, d@[j].1, *f) by {
                        if j < i {
                            assert(d@[j].0 < d@[i as int].0);
                            assert(applied_at(before, d@[j].0, d@[j].1, *f));
                        }
                    }
                }
            }
            changed = true;
            i = i + 1;
        }
        proof {
            out.lemma_view();
            if V::obeys_eq_spec() {
                assert forall|k: u64| #[trigger] expected_diff(old_input@, input@, k) is None implies out@.contains_key(k)
                    == old_output@.contains_key(k) && (out@.contains_key(k) ==> out@[k] == old_output@[k]) by {
                    lemma_symmetric_diff_exact(a, b, k);
                    lemma_diff_at_index(d@, k);
                    assert forall|j: int| 0 <= j < i implies d@[j].0 != k by {
                        if d@[j].0 == k {
                            assert(diff_at(d@, k) == Some(d@[j].1));
                        }
                    }
                }
                assert forall|k: u64| #[trigger] expected_diff(old_input@, input@, k) is Some implies applied_at(
                    out@,
                    k,
                    expected_diff(old_input@, input@, k)->0,
                    *f,
                ) by {
                    lemma_symmetric_diff_exact(a, b, k);
                    lemma_diff_at_index(d@, k);
                    if forall|j: int| 0 <= j < d@.len() ==> #[trigger] d@[j].0 != k {
                        assert(diff_at(d@, k) is None);
                    } else {
                        let j = choose|j: int| 0 <= j < d@.len() && #[trigger] d@[j].0 == k;
                        assert(diff_at(d@, k) == Some(d@[j].1));
                        assert(applied_at(out@, d@[j].0, d@[j].1, *f));
                    }
                }
                if (forall|x: V, y: V| #[trigger] x.eq_spec(&y) ==> x == y) && filter_mapped(
                    old_input@,
                    old_output@,
                    *f,
                ) {
                    assert forall|k: u64| #[trigger] out@.contains_key(k) implies input@.contains_key(k) && f.ensures(
                        (k, &input@[k]),
                        Some(out@[k]),
                    ) by {
                        lemma_symmetric_diff_exact(a, b, k);
                        if expected_diff(old_input@, input@, k) is None {
                            assert(old_output@.contains_key(k));
                            assert(old_input@.contains_key(k));
                            assert(old_input@[k].eq_spec(&input@[k]));
                        } else {
                            assert(applied_at(out@, k, expected_diff(old_input@, input@, k)->0, *f));
                        }
                    }
                    assert forall|k: u64| #[trigger] input@.contains_key(k) && !out@.contains_key(k) implies f.ensures(
                        (k, &input@[k]),
                        None,
                    ) by {
                        if expected_diff(old_input@, input@, k) is None {
                            assert(old_input@.contains_key(k));
                            assert(old_input@[k].eq_spec(&input@[k]));
                        } else {
                            assert(applied_at(out@, k, expected_diff(old_input@, input@, k)->0, *f));
                        }
                    }
                }
            }
        }
        (out, changed)
    }
}


/// What the two inputs of a merge hold at `k`: both values, the left one, the right one,
/// or nothing.
pub open spec fn merge_input<V, V2>(left: Map<u64, V>, right: Map<u64, V2>, k: u64) -> Option<MergeElement<V, V2>> {
    if left.contains_key(k) && right.contains_key(k) {
        Some(MergeElement::Both(left[k], right[k]))
    } else if left.contains_key(k) {
        Some(MergeElement::Left(left[k]))
    } else if right.contains_key(k) {
        Some(MergeElement::Right(right[k]))
    } else {
        None
    }
}

/// The merge's output at `k` is what `f` gives for the inputs there, and nothing where
/// neither input holds `k`.
pub open spec fn merged_at<V, V2, R, F: Fn(u64, MergeElement<V, V2>) -> Option<R>>(
    out: Map<u64, R>,
    k: u64,
    input: Option<MergeElement<V, V2>>,
    f: F,
) -> bool {
    match input {
        None => !out.contains_key(k),
        Some(e) => {
            &&& out.contains_key(k) ==> f.ensures((k, e), Some(out[k]))
            &&& !out.contains_key(k) ==> f.ensures((k, e), None)
        },
    }
}

/// `out` is the merge of `left` and `right` with `f`, at every key.
pub open spec fn merged<V, V2, R, F: Fn(u64, MergeElement<V, V2>) -> Option<R>>(
    left: Map<u64, V>,
    right: Map<u64, V2>,
    out: Map<u64, R>,
    f: F,
) -> bool {
    forall|k: u64| #[trigger] merged_at(out, k, merge_input(left, right, k), f)
}

/// Key `k` is listed in `d` before position `n`.
pub open spec fn listed_before<X>(d: Seq<(u64, X)>, n: int, k: u64) -> bool {
    exists|a: int| 0 <= a < n && d[a].0 == k
}

impl<V: Copy + PartialEq> SortedMap<V> {
    /// One step of the incremental merge of two maps: the inputs went from `old_left`
    /// and `old_right`, whose merge is `old_output`, to `left` and `right`. Only the keys
    /// where either input differs are looked at again, each once, in key order: `f`
    /// runs on what the new inputs hold there (both values, or the one side's), and its
    /// result is put in or taken out; a key that neither input holds any more leaves the
    /// output. Every other key keeps its entry of `old_output`, without `f` running for
    /// it. The second result says whether anything was looked at.
    pub fn merge_update<V2: Copy + PartialEq, R, F: Fn(u64, MergeElement<V, V2>) -> Option<R>>(
        old_left: &Self,
        old_right: &SortedMap<V2>,
        old_output: SortedMap<R>,
        left: &Self,
        right: &SortedMap<V2>,
        f: &F,
    ) -> (r: (SortedMap<R>, bool))
        requires
            old_left.wf(),
            old_right.wf(),
            old_output.wf(),
            left.wf(),
            right.wf(),
            forall|k: u64, e: MergeElement<V, V2>| #[trigger] f.requires((k, e)),
        ensures
            r.0.wf(),
            V::obeys_eq_spec() && V2::obeys_eq_spec() ==> {
                &&& r.1 == (diff_spec(old_left.spec_entries(), left.spec_entries()).len() > 0 || diff_spec(
                    old_right.spec_entries(),
                    right.spec_entries(),
                ).len() > 0)
                &&& forall|k: u64|
                    #[trigger] expected_diff(old_left@, left@, k) is None && expected_diff(old_right@, right@, k)
                        is None ==> r.0@.contains_key(k) == old_output@.contains_key(k) && (r.0@.contains_key(k)
                        ==> r.0@[k] == old_output@[k])
                &&& forall|k: u64|
                    #[trigger] expected_diff(old_left@, left@, k) is Some || expected_diff(old_right@, right@, k)
                        is Some ==> merged_at(r.0@, k, merge_input(left@, right@, k), *f)
            },
            V::obeys_eq_spec() && V2::obeys_eq_spec() && (forall|x: V, y: V| #[trigger] x.eq_spec(&y) ==> x == y)
                && (forall|x: V2, y: V2| #[trigger] x.eq_spec(&y) ==> x == y) && merged(
                old_left@,
                old_right@,
                old_output@,
                *f,
            ) ==> merged(left@, right@, r.0@, *f),
    {
        proof {
            old_left.lemma_view();
            old_right.lemma_view();
            left.lemma_view();
            right.lemma_view();
        }
        let dl = symmetric_diff(&old_left.entries, &left.entries);
        let dr = symmetric_diff(&old_right.entries, &right.entries);
        let ghost obeys = V::obeys_eq_spec() && V2::obeys_eq_spec();
        proof {
            if obeys {
                lemma_diff_keys(old_left.entries@, left.entries@);
                lemma_diff_keys(old_right.entries@, right.entries@);
            }
        }
        let mut out = old_output;
        let mut changed = false;
        let mut i: usize = 0;
        let mut j: usize = 0;
        while i < dl.len() || j < dr.len()
            invariant
                out.wf(),
                left.wf(),
                right.wf(),
                i <= dl@.len(),
                j <= dr@.len(),
                changed == (i > 0 || j > 0),
                forall|k: u64, e: MergeElement<V, V2>| #[trigger] f.requires((k, e)),
                obeys == (V::obeys_eq_spec() && V2::obeys_eq_spec()),
                obeys ==> dl@ == diff_spec(old_left.spec_entries(), left.spec_entries()),
                obeys ==> dr@ == diff_spec(old_right.spec_entries(), right.spec_entries()),
                obeys ==> forall|x: int, y: int| 0 <= x < y < dl@.len() ==> dl@[x].0 < dl@[y].0,
                obeys ==> forall|x: int, y: int| 0 <= x < y < dr@.len() ==> dr@[x].0 < dr@[y].0,
                obeys ==> forall|a: int| 0 <= a < i && j < dr@.len() ==> #[trigger] dl@[a].0 < dr@[j as int].0,
                obeys ==> forall|b: int| 0 <= b < j && i < dl@.len() ==> #[trigger] dr@[b].0 < dl@[i as int].0,
                obeys ==> forall|k: u64|
                    !listed_before(dl@, i as int, k) && !listed_before(dr@, j as int, k) ==> (
                    #[trigger] out@.contains_key(k) == old_output@.contains_key(k) && (out@.contains_key(k)
                        ==> out@[k] == old_output@[k])),
                obeys ==> forall|k: u64|
                    listed_before(dl@, i as int, k) || listed_before(dr@, j as int, k) ==> #[trigger] merged_at(
                        out@,
                        k,
                        merge_input(left@, right@, k),
                        *f,
                    ),
            decreases dl@.len() - i + dr@.len() - j,
        {
            let ghost i0 = i as int;
            let ghost j0 = j as int;
            let k: u64;
            if i < dl.len() && (j >= dr.len() || dl[i].0 < dr[j].0) {
                k = dl[i].0;
                i = i + 1;
            } else if j < dr.len() && (i >= dl.len() || dr[j].0 < dl[i].0) {
                k = dr[j].0;
                j = j + 1;
            } else {
                k = dl[i].0;
                i = i + 1;
                j = j + 1;
            }
            let ghost before = out@;
            let input = match (left.get(k), right.get(k)) {
                (Some(a), Some(b)) => Some(MergeElement::Both(a, b)),
                (Some(a), None) => Some(MergeElement::Left(a)),
                (None, Some(b)) => Some(MergeElement::Right(b)),
                (None, None) => None,
            };
            match input {
                None => {
                    out.remove_entry(k);
                },
                Some(e) => match f(k, e) {
                    Some(w) => {
                        out.insert_entry(k, w);
                    },
                    None => {
                        out.remove_entry(k);
                    },
                },
            }
            changed = true;
            proof {
                assert(input == merge_input(left@, right@, k));
                assert(merged_at(out@, k, merge_input(left@, right@, k), *f));
                if obeys {
                    // every key listed before this step is below `k`
                    assert forall|a: int| 0 <= a < i0 implies #[trigger] dl@[a].0 < k by {
                        if i0 < dl@.len() && dl@[i0].0 == k {
                            assert(dl@[a].0 < dl@[i0].0);
                        } else {
                            assert(j0 < dr@.len() && dr@[j0].0 == k);
                        }
                    }
                    assert forall|b: int| 0 <= b < j0 implies #[trigger] dr@[b].0 < k by {
                        if j0 < dr@.len() && dr@[j0].0 == k {
                            assert(dr@[b].0 < dr@[j0].0);
                        } else {
                            assert(i0 < dl@.len() && dl@[i0].0 == k);
                        }
                    }
                    assert forall|k2: u64|
                        listed_before(dl@, i as int, k2) || listed_before(dr@, j as int, k2) implies #[trigger] merged_at(
                            out@,
                            k2,
                            merge_input(left@, right@, k2),
                            *f,
                        ) by {
                        if k2 != k {
                            if listed_before(dl@, i as int, k2) {
                                let a = choose|a: int| 0 <= a < i && dl@[a].0 == k2;
                                assert(a < i0);
                                assert(listed_before(dl@, i0, k2));
                            } else {
                                let b = choose|b: int| 0 <= b < j && dr@[b].0 == k2;
                                assert(b < j0);
                                assert(listed_before(dr@, j0, k2));
                            }
                            assert(merged_at(before, k2, merge_input(left@, right@, k2), *f));
                        }
                    }
                    assert forall|k2: u64|
                        !listed_before(dl@, i as int, k2) && !listed_before(dr@, j as int, k2) implies (
                        #[trigger] out@.contains_key(k2) == old_output@.contains_key(k2) && (out@.contains_key(k2)
                            ==> out@[k2] == old_output@[k2])) by {
                        if i > i0 {
                            assert(dl@[i0].0 == k);
                            assert(listed_before(dl@, i as int, k));
                        } else {
                            assert(dr@[j0].0 == k);
                            assert(listed_before(dr@, j as int, k));
                        }
                        assert(k2 != k);
                        assert(!listed_before(dl@, i0, k2)) by {
                            if listed_before(dl@, i0, k2) {
                                let a = choose|a: int| 0 <= a < i0 && dl@[a].0 == k2;
                                assert(listed_before(dl@, i as int, k2));
                            }
                        }
                        assert(!listed_before(dr@, j0, k2)) by {
                            if listed_before(dr@, j0, k2) {
                                let b = choose|b: int| 0 <= b < j0 && dr@[b].0 == k2;
                                assert(listed_before(dr@, j as int, k2));
                            }
                        }
                    }
                    assert forall|a: int| 0 <= a < i && j < dr@.len() implies #[trigger] dl@[a].0 < dr@[j as int].0 by {
                        if a < i0 && j == j0 {
                        } else if a < i0 {
                            assert(dr@[j0].0 < dr@[j as int].0);
                        } else {
                            assert(a == i0);
                            if j == j0 {
                            } else {
                                assert(dr@[j0].0 < dr@[j as int].0);
                            }
                        }
                    }
                    assert forall|b: int| 0 <= b < j && i < dl@.len() implies #[trigger] dr@[b].0 < dl@[i as int].0 by {
                        if b < j0 && i == i0 {
                        } else if b < j0 {
                            assert(dl@[i0].0 < dl@[i as int].0);
                        } else {
                            assert(b == j0);
                            if i == i0 {
                            } else {
                                assert(dl@[i0].0 < dl@[i as int].0);
                            }
                        }
                    }
                }
            }
        }
        proof {
            out.lemma_view();
            if obeys {
                let a0 = old_left.spec_entries();
                let b0 = left.spec_entries();
                let a1 = old_right.spec_entries();
                let b1 = right.spec_entries();
                assert forall|k: u64| (expected_diff(old_left@, left@, k) is Some) == listed_before(dl@, i as int, k)
                    && (expected_diff(old_right@, right@, k) is Some) == listed_before(dr@, j as int, k) by {
                    lemma_symmetric_diff_exact(a0, b0, k);
                    lemma_symmetric_diff_exact(a1, b1, k);
                    lemma_diff_at_index(dl@, k);
                    lemma_diff_at_index(dr@, k);
                    if listed_before(dl@, i as int, k) {
                        let a = choose|a: int| 0 <= a < i && dl@[a].0 == k;
                        assert(diff_at(dl@, k) == Some(dl@[a].1));
                    } else {
                        assert forall|a: int| 0 <= a < dl@.len() implies #[trigger] dl@[a].0 != k by {
                            if dl@[a].0 == k {
                                assert(listed_before(dl@, i as int, k));
                            }
                        }
                    }
                    if listed_before(dr@, j as int, k) {
                        let b = choose|b: int| 0 <= b < j && dr@[b].0 == k;
                        assert(diff_at(dr@, k) == Some(dr@[b].1));
                    } else {
                        assert forall|b: int| 0 <= b < dr@.len() implies #[trigger] dr@[b].0 != k by {
                            if dr@[b].0 == k {
                                assert(listed_before(dr@, j as int, k));
                            }
                        }
                    }
                }
                if (forall|x: V, y: V| #[trigger] x.eq_spec(&y) ==> x == y) && (forall|x: V2, y: V2|
                    #[trigger] x.eq_spec(&y) ==> x == y) && merged(old_left@, old_right@, old_output@, *f) {
                    assert forall|k: u64| #[trigger] merged_at(out@, k, merge_input(left@, right@, k), *f) by {
                        if !listed_before(dl@, i as int, k) && !listed_before(dr@, j as int, k) {
                            assert(expected_diff(old_left@, left@, k) is None);
                            assert(expected_diff(old_right@, right@, k) is None);
                            if old_left@.contains_key(k) && left@.contains_key(k) {
                                assert(old_left@[k].eq_spec(&left@[k]));
                            }
                            if old_right@.contains_key(k) && right@.contains_key(k) {
                                assert(old_right@[k].eq_spec(&right@[k]));
                            }
                            assert(merge_input(left@, right@, k) == merge_input(old_left@, old_right@, k));
                            assert(merged_at(old_output@, k, merge_input(old_left@, old_right@, k), *f));
                        }
                    }
                }
            }
        }
        (out, changed)
    }
}

} // verus!
