use vstd::prelude::*;
use vstd::std_specs::cmp::PartialEqSpec;

verus! {

/// What merging two sequences gives, starting from `a` and `b` in the merge state
/// `fused` (`Some(true)`: only `a` is left; `Some(false)`: only `b` is left). Equal heads
/// come out once.
pub open spec fn merge_spec(a: Seq<i32>, b: Seq<i32>, fused: Option<bool>) -> Seq<i32>
    decreases a.len() + b.len(),
{
    match fused {
        Some(true) => a,
        Some(false) => b,
        None => if a.len() > 0 && b.len() > 0 {
            if a[0] < b[0] {
                seq![a[0]] + merge_spec(a.drop_first(), b, None)
            } else if a[0] == b[0] {
                seq![a[0]] + merge_spec(a.drop_first(), b.drop_first(), None)
            } else {
                seq![b[0]] + merge_spec(a, b.drop_first(), None)
            }
        } else if a.len() > 0 {
            a
        } else {
            b
        },
    }
}

/// Strictly increasing.
pub open spec fn strictly_increasing(s: Seq<i32>) -> bool {
    forall|i: int, j: int| 0 <= i < j < s.len() ==> s[i] < s[j]
}

/// Merges two sequences in order, taking equal heads once: `[1, 2, 3]` and `[2, 4]` give
/// `[1, 2, 3, 4]`.
pub struct MergeOnce {
    a: Vec<i32>,
    b: Vec<i32>,
    next_a: usize,
    next_b: usize,
    fused: Option<bool>,
}

impl MergeOnce {
    /// What is left to come out.
    pub closed spec fn remaining(&self) -> Seq<i32> {
        merge_spec(self.a@.skip(self.next_a as int), self.b@.skip(self.next_b as int), self.fused)
    }

    pub closed spec fn wf(&self) -> bool {
        &&& self.next_a <= self.a@.len()
        &&& self.next_b <= self.b@.len()
        &&& self.fused == Some(true) ==> self.next_b == self.b@.len()
        &&& self.fused == Some(false) ==> self.next_a == self.a@.len()
    }

    /// Merge `a` with `b`.
    pub fn new(a: Vec<i32>, b: Vec<i32>) -> (r: Self)
        ensures
            r.wf(),
            r.remaining() == merge_spec(a@, b@, None),
    {
        let r = MergeOnce { a, b, next_a: 0, next_b: 0, fused: None };
        proof {
            assert(r.a@.skip(0) =~= r.a@);
            assert(r.b@.skip(0) =~= r.b@);
        }
        r
    }

    /// The next element, or `None` once both sequences are used up.
    pub fn next(&mut self) -> (r: Option<i32>)
        requires
            old(self).wf(),
        ensures
            final(self).wf(),
            old(self).remaining().len() == 0 ==> r is None && final(self).remaining().len() == 0,
            old(self).remaining().len() > 0 ==> r == Some(old(self).remaining()[0]) && final(self).remaining()
                == old(self).remaining().drop_first(),
    {
        let ghost sa = self.a@.skip(self.next_a as int);
        let ghost sb = self.b@.skip(self.next_b as int);
        let has_a = self.next_a < self.a.len();
        let has_b = self.next_b < self.b.len();
        let (less_than, both) = match self.fused {
            Some(lt) => (lt, false),
            None => {
                if has_a && has_b {
                    let x = self.a[self.next_a];
                    let y = self.b[self.next_b];
                    (x <= y, x == y)
                } else if has_a {
                    self.fused = Some(true);
                    (true, false)
                } else if has_b {
                    self.fused = Some(false);
                    (false, false)
                } else {
                    proof {
                        assert(sa.len() == 0 && sb.len() == 0);
                    }
                    return None;
                }
            },
        };
        if less_than {
            if both {
                self.next_b = self.next_b + 1;
            }
            if self.next_a < self.a.len() {
                let x = self.a[self.next_a];
                self.next_a = self.next_a + 1;
                proof {
                    assert(self.a@.skip(self.next_a as int) =~= sa.drop_first());
                    assert(both ==> self.b@.skip(self.next_b as int) =~= sb.drop_first());
                }
                Some(x)
            } else {
                proof {
                    assert(sa.len() == 0);
                }
                None
            }
        } else {
            if both {
                self.next_a = self.next_a + 1;
            }
            if self.next_b < self.b.len() {
                let y = self.b[self.next_b];
                self.next_b = self.next_b + 1;
                proof {
                    assert(self.b@.skip(self.next_b as int) =~= sb.drop_first());
                }
                Some(y)
            } else {
                proof {
                    assert(sb.len() == 0);
                }
                None
            }
        }
    }

    /// Everything that is left, in order.
    pub fn collect_all(&mut self) -> (r: Vec<i32>)
        requires
            old(self).wf(),
        ensures
            final(self).wf(),
            r@ == old(self).remaining(),
            final(self).remaining().len() == 0,
    {
        let mut out: Vec<i32> = Vec::new();
        loop
            invariant
                self.wf(),
                out@ + self.remaining() == old(self).remaining(),
            decreases self.remaining().len(),
        {
            let ghost before = self.remaining();
            match self.next() {
                Some(x) => {
                    out.push(x);
                    proof {
                        assert(out@ + self.remaining() =~= old(self).remaining()) by {
                            assert(before =~= seq![x] + before.drop_first());
                        }
                    }
                },
                None => {
                    proof {
                        assert(out@ + before =~= out@);
                    }
                    return out;
                },
            }
        }
    }
}

/// Merge `a` with `b` and collect the result.
pub fn merge_once(a: Vec<i32>, b: Vec<i32>) -> (r: Vec<i32>)
    ensures
        r@ == merge_spec(a@, b@, None),
{
    let mut m = MergeOnce::new(a, b);
    m.collect_all()
}

/// Merging two strictly increasing sequences gives a strictly increasing sequence
/// holding exactly the elements of both.
pub proof fn lemma_merge_sorted_union(a: Seq<i32>, b: Seq<i32>)
    requires
        strictly_increasing(a),
        strictly_increasing(b),
    ensures
        strictly_increasing(merge_spec(a, b, None)),
        forall|x: i32| merge_spec(a, b, None).contains(x) <==> (a.contains(x) || b.contains(x)),
    decreases a.len() + b.len(),
{
    let m = merge_spec(a, b, None);
    if a.len() > 0 && b.len() > 0 {
        let (h, a2, b2) = if a[0] < b[0] {
            (a[0], a.drop_first(), b)
        } else if a[0] == b[0] {
            (a[0], a.drop_first(), b.drop_first())
        } else {
            (b[0], a, b.drop_first())
        };
        let rest = merge_spec(a2, b2, None);
        assert(m == seq![h] + rest);
        assert(strictly_increasing(a2));
        assert(strictly_increasing(b2));
        lemma_merge_sorted_union(a2, b2);
        assert forall|i: int| 0 <= i < a2.len() implies h < #[trigger] a2[i] by {
            if a[0] < b[0] || a[0] == b[0] {
                assert(a2[i] == a[i + 1]);
            } else {
                assert(b[0] < a[0]);
                if i > 0 {
                    assert(a[0] < a[i]);
                }
            }
        }
        assert forall|i: int| 0 <= i < b2.len() implies h < #[trigger] b2[i] by {
            if a[0] < b[0] {
                if i > 0 {
                    assert(b[0] < b[i]);
                }
            } else {
                assert(b2[i] == b[i + 1]);
            }
        }
        lemma_merge_bounds(a2, b2, h);
        assert forall|i: int, j: int| 0 <= i < j < m.len() implies m[i] < m[j] by {
            assert(m[j] == rest[j - 1]);
            if i > 0 {
                assert(m[i] == rest[i - 1]);
            }
        }
        assert forall|x: i32| m.contains(x) <==> (a.contains(x) || b.contains(x)) by {
            if m.contains(x) {
                let i = choose|i: int| 0 <= i < m.len() && m[i] == x;
                if i > 0 {
                    assert(rest[i - 1] == x);
                    assert(rest.contains(x));
                    if a2.contains(x) {
                        let k = choose|k: int| 0 <= k < a2.len() && a2[k] == x;
                        if a[0] < b[0] || a[0] == b[0] {
                            assert(a[k + 1] == x);
                        }
                    } else {
                        let k = choose|k: int| 0 <= k < b2.len() && b2[k] == x;
                        if !(a[0] < b[0]) {
                            assert(b[k + 1] == x);
                        }
                    }
                }
            }
            if a.contains(x) {
                let i = choose|i: int| 0 <= i < a.len() && a[i] == x;
                if a[0] < b[0] || a[0] == b[0] {
                    if i > 0 {
                        assert(a2[i - 1] == x);
                        assert(a2.contains(x));
                        assert(rest.contains(x));
                        assert(m[i0_of(rest, x) + 1] == x);
                    } else {
                        assert(m[0] == x);
                    }
                } else {
                    assert(a2[i] == x);
                    assert(a2.contains(x));
                    assert(rest.contains(x));
                    assert(m[i0_of(rest, x) + 1] == x);
                }
            }
            if b.contains(x) {
                let i = choose|i: int| 0 <= i < b.len() && b[i] == x;
                if a[0] < b[0] {
                    assert(b2[i] == x);
                    assert(b2.contains(x));
                    assert(rest.contains(x));
                    assert(m[i0_of(rest, x) + 1] == x);
                } else if a[0] == b[0] {
                    if i > 0 {
                        assert(b2[i - 1] == x);
                        assert(b2.contains(x));
                        assert(rest.contains(x));
                        assert(m[i0_of(rest, x) + 1] == x);
                    } else {
                        assert(m[0] == x);
                    }
                } else {
                    if i > 0 {
                        assert(b2[i - 1] == x);
                        assert(b2.contains(x));
                        assert(rest.contains(x));
                        assert(m[i0_of(rest, x) + 1] == x);
                    } else {
                        assert(m[0] == x);
                    }
                }
            }
        }
    }
}

/// Some position of `x` in `s`.
spec fn i0_of(s: Seq<i32>, x: i32) -> int {
    choose|i: int| 0 <= i < s.len() && s[i] == x
}

/// Every element of the merge of two strictly increasing sequences whose elements all
/// exceed `lo` exceeds `lo`.
proof fn lemma_merge_bounds(a: Seq<i32>, b: Seq<i32>, lo: i32)
    requires
        strictly_increasing(a),
        strictly_increasing(b),
        forall|i: int| 0 <= i < a.len() ==> lo < #[trigger] a[i],
        forall|i: int| 0 <= i < b.len() ==> lo < #[trigger] b[i],
    ensures
        forall|i: int| 0 <= i < merge_spec(a, b, None).len() ==> lo < #[trigger] merge_spec(a, b, None)[i],
    decreases a.len() + b.len(),
{
    let m = merge_spec(a, b, None);
    if a.len() > 0 && b.len() > 0 {
        let (h, a2, b2) = if a[0] < b[0] {
            (a[0], a.drop_first(), b)
        } else if a[0] == b[0] {
            (a[0], a.drop_first(), b.drop_first())
        } else {
            (b[0], a, b.drop_first())
        };
        let rest = merge_spec(a2, b2, None);
        assert(m == seq![h] + rest);
        assert forall|i: int| 0 <= i < a2.len() implies lo < #[trigger] a2[i] by {
            if a[0] < b[0] || a[0] == b[0] {
                assert(a2[i] == a[i + 1]);
            }
        }
        assert forall|i: int| 0 <= i < b2.len() implies lo < #[trigger] b2[i] by {
            if !(a[0] < b[0]) {
                assert(b2[i] == b[i + 1]);
            }
        }
        assert(strictly_increasing(a2));
        assert(strictly_increasing(b2));
        lemma_merge_bounds(a2, b2, lo);
        assert forall|i: int| 0 <= i < m.len() implies lo < #[trigger] m[i] by {
            if i > 0 {
                assert(m[i] == rest[i - 1]);
            }
        }
    }
}

/// One element of the merge of two sequences: from the left only, the right only, or
/// both.
#[derive(Debug, PartialEq, Eq, Clone, Copy)]
pub enum MergeElement<L, R> {
    Left(L),
    Right(R),
    Both(L, R),
}

impl<'a, 'b, L: Clone, R: Clone> MergeElement<&'a L, &'b R> {
    /// The same element, holding clones of the referenced values.
    pub fn cloned(&self) -> (r: MergeElement<L, R>)
        ensures
            self matches MergeElement::Left(a) ==> (r matches MergeElement::Left(x) && cloned(**a, x)),
            self matches MergeElement::Right(b) ==> (r matches MergeElement::Right(y) && cloned(**b, y)),
            self matches MergeElement::Both(a, b) ==> (r matches MergeElement::Both(x, y) && cloned(**a, x)
                && cloned(**b, y)),
    {
        match *self {
            MergeElement::Both(a, b) => MergeElement::Both(a.clone(), b.clone()),
            MergeElement::Left(a) => MergeElement::Left(a.clone()),
            MergeElement::Right(b) => MergeElement::Right(b.clone()),
        }
    }
}

/// How a key differs between an old and a new map.
#[derive(Debug, PartialEq, Eq, Clone, Copy)]
pub enum DiffElement<V> {
    /// In both maps, with these different values (old, new).
    Unequal(V, V),
    /// Only in the old map.
    Left(V),
    /// Only in the new map.
    Right(V),
}

/// Keys strictly increasing: the entries of a map in key order.
pub open spec fn keys_increasing<V>(s: Seq<(u64, V)>) -> bool {
    forall|i: int, j: int| 0 <= i < j < s.len() ==> s[i].0 < s[j].0
}

/// The map whose entries `s` lists.
pub open spec fn map_of<V>(s: Seq<(u64, V)>) -> Map<u64, V>
    decreases s.len(),
{
    if s.len() == 0 {
        Map::empty()
    } else {
        map_of(s.drop_first()).insert(s[0].0, s[0].1)
    }
}

/// Every entry of `s` as a difference of kind `f`.
pub open spec fn all_as<V>(s: Seq<(u64, V)>, left: bool) -> Seq<(u64, DiffElement<V>)> {
    s.map_values(|e: (u64, V)| (e.0, if left { DiffElement::Left(e.1) } else { DiffElement::Right(e.1) }))
}

/// The differences from the map listed by `a` to the map listed by `b`, in key order:
/// keys only in `a` (`Left`), only in `b` (`Right`), and in both with unequal values.
pub open spec fn diff_spec<V: PartialEq>(a: Seq<(u64, V)>, b: Seq<(u64, V)>) -> Seq<(u64, DiffElement<V>)>
    decreases a.len() + b.len(),
{
    if a.len() > 0 && b.len() > 0 {
        if a[0].0 < b[0].0 {
            seq![(a[0].0, DiffElement::Left(a[0].1))] + diff_spec(a.drop_first(), b)
        } else if b[0].0 < a[0].0 {
            seq![(b[0].0, DiffElement::Right(b[0].1))] + diff_spec(a, b.drop_first())
        } else if a[0].1.eq_spec(&b[0].1) {
            diff_spec(a.drop_first(), b.drop_first())
        } else {
            seq![(a[0].0, DiffElement::Unequal(a[0].1, b[0].1))] + diff_spec(a.drop_first(), b.drop_first())
        }
    } else if a.len() > 0 {
        all_as(a, true)
    } else {
        all_as(b, false)
    }
}

/// How key `k` differs from map `ma` to map `mb`, if it does.
pub open spec fn expected_diff<V: PartialEq>(ma: Map<u64, V>, mb: Map<u64, V>, k: u64) -> Option<DiffElement<V>> {
    if ma.contains_key(k) && mb.contains_key(k) {
        if ma[k].eq_spec(&mb[k]) {
            None
        } else {
            Some(DiffElement::Unequal(ma[k], mb[k]))
        }
    } else if ma.contains_key(k) {
        Some(DiffElement::Left(ma[k]))
    } else if mb.contains_key(k) {
        Some(DiffElement::Right(mb[k]))
    } else {
        None
    }
}

/// The difference listed for key `k`, if any.
pub open spec fn diff_at<V>(d: Seq<(u64, DiffElement<V>)>, k: u64) -> Option<DiffElement<V>>
    decreases d.len(),
{
    if d.len() == 0 {
        None
    } else if d[0].0 == k {
        Some(d[0].1)
    } else {
        diff_at(d.drop_first(), k)
    }
}

/// The differences between the maps listed by `old` and `new`, each listed in key order.
pub fn symmetric_diff<V: Copy + PartialEq>(old: &Vec<(u64, V)>, new: &Vec<(u64, V)>) -> (r: Vec<(u64, DiffElement<V>)>)
    ensures
        V::obeys_eq_spec() ==> r@ == diff_spec(old@, new@),
{
    let mut out: Vec<(u64, DiffElement<V>)> = Vec::new();
    let mut i: usize = 0;
    let mut j: usize = 0;
    proof {
        assert(old@.skip(0) =~= old@);
        assert(new@.skip(0) =~= new@);
    }
    while i < old.len() || j < new.len()
        invariant
            i <= old@.len(),
            j <= new@.len(),
            V::obeys_eq_spec() ==> out@ + diff_spec(old@.skip(i as int), new@.skip(j as int)) == diff_spec(
                old@,
                new@,
            ),
        decreases old@.len() - i + new@.len() - j,
    {
        let ghost a = old@.skip(i as int);
        let ghost b = new@.skip(j as int);
        if i < old.len() && j < new.len() {
            let (ka, va) = old[i];
            let (kb, vb) = new[j];
            proof {
                assert(a[0] == old@[i as int]);
                assert(b[0] == new@[j as int]);
                assert(old@.skip(i + 1) =~= a.drop_first());
                assert(new@.skip(j + 1) =~= b.drop_first());
            }
            if ka < kb {
                out.push((ka, DiffElement::Left(va)));
                i = i + 1;
                proof {
                    if V::obeys_eq_spec() {
                        assert(out@ + diff_spec(old@.skip(i as int), new@.skip(j as int)) =~= diff_spec(old@, new@));
                    }
                }
            } else if kb < ka {
                out.push((kb, DiffElement::Right(vb)));
                j = j + 1;
                proof {
                    if V::obeys_eq_spec() {
                        assert(out@ + diff_spec(old@.skip(i as int), new@.skip(j as int)) =~= diff_spec(old@, new@));
                    }
                }
            } else {
                let same = va == vb;
                if !same {
                    out.push((ka, DiffElement::Unequal(va, vb)));
                }
                i = i + 1;
                j = j + 1;
                proof {
                    if V::obeys_eq_spec() {
                        assert(out@ + diff_spec(old@.skip(i as int), new@.skip(j as int)) =~= diff_spec(old@, new@));
                    }
                }
            }
        } else if i < old.len() {
            let (ka, va) = old[i];
            let ghost before = out@;
            out.push((ka, DiffElement::Left(va)));
            i = i + 1;
            proof {
                assert(b.len() == 0);
                assert(old@.skip(i as int) =~= a.drop_first());
                assert(diff_spec(a, b) == all_as(a, true));
                assert(all_as(a, true) =~= seq![(ka, DiffElement::Left(va))] + all_as(a.drop_first(), true));
                assert(new@.skip(j as int).len() == 0);
                if a.drop_first().len() > 0 {
                    assert(diff_spec(a.drop_first(), new@.skip(j as int)) == all_as(a.drop_first(), true));
                } else {
                    assert(diff_spec(a.drop_first(), new@.skip(j as int)) =~= all_as(
                        new@.skip(j as int),
                        false,
                    ));
                    assert(all_as(a.drop_first(), true) =~= all_as(new@.skip(j as int), false));
                }
                if V::obeys_eq_spec() {
                    assert(out@ + diff_spec(old@.skip(i as int), new@.skip(j as int)) =~= diff_spec(old@, new@));
                }
            }
        } else {
            let (kb, vb) = new[j];
            out.push((kb, DiffElement::Right(vb)));
            j = j + 1;
            proof {
                assert(a.len() == 0);
                assert(new@.skip(j as int) =~= b.drop_first());
                assert(diff_spec(a, b) == all_as(b, false));
                assert(all_as(b, false) =~= seq![(kb, DiffElement::Right(vb))] + all_as(b.drop_first(), false));
                if V::obeys_eq_spec() {
                    assert(out@ + diff_spec(old@.skip(i as int), new@.skip(j as int)) =~= diff_spec(old@, new@));
                }
            }
        }
    }
    proof {
        assert(old@.skip(i as int).len() == 0);
        assert(new@.skip(j as int).len() == 0);
        assert(diff_spec(old@.skip(i as int), new@.skip(j as int)) =~= Seq::<(u64, DiffElement<V>)>::empty());
        assert(out@ =~= out@ + diff_spec(old@.skip(i as int), new@.skip(j as int)));
    }
    out
}

/// Every key of the map listed by `s` is the key of an entry of `s`.
proof fn lemma_map_of_keys<V>(s: Seq<(u64, V)>, k: u64)
    requires
        map_of(s).contains_key(k),
    ensures
        exists|i: int| 0 <= i < s.len() && s[i].0 == k,
    decreases s.len(),
{
    if s.len() > 0 && s[0].0 != k {
        lemma_map_of_keys(s.drop_first(), k);
        let i = choose|i: int| 0 <= i < s.drop_first().len() && s.drop_first()[i].0 == k;
        assert(s[i + 1].0 == k);
    }
}

/// A key below the first key of an increasing listing is not in its map.
proof fn lemma_map_of_below<V>(s: Seq<(u64, V)>, k: u64)
    requires
        keys_increasing(s),
        s.len() > 0,
        k < s[0].0,
    ensures
        !map_of(s).contains_key(k),
{
    if map_of(s).contains_key(k) {
        lemma_map_of_keys(s, k);
        let i = choose|i: int| 0 <= i < s.len() && s[i].0 == k;
        if i > 0 {
            assert(s[0].0 < s[i].0);
        }
    }
}

/// Listing every entry as one kind of difference gives, for each key, its value in the
/// map.
proof fn lemma_all_as<V>(s: Seq<(u64, V)>, left: bool, k: u64)
    ensures
        diff_at(all_as(s, left), k) == (if map_of(s).contains_key(k) {
            Some(if left { DiffElement::Left(map_of(s)[k]) } else { DiffElement::Right(map_of(s)[k]) })
        } else {
            None
        }),
    decreases s.len(),
{
    if s.len() > 0 {
        lemma_all_as(s.drop_first(), left, k);
        assert(all_as(s, left).drop_first() =~= all_as(s.drop_first(), left));
    }
}

/// The symmetric difference lists, for each key, exactly how it differs between the two
/// maps: keys only in the old map as `Left`, keys only in the new map as `Right`, keys in
/// both with unequal values as `Unequal`, and nothing for keys whose values are equal.
pub proof fn lemma_symmetric_diff_exact<V: PartialEq>(a: Seq<(u64, V)>, b: Seq<(u64, V)>, k: u64)
    requires
        keys_increasing(a),
        keys_increasing(b),
    ensures
        diff_at(diff_spec(a, b), k) == expected_diff(map_of(a), map_of(b), k),
    decreases a.len() + b.len(),
{
    let d = diff_spec(a, b);
    if a.len() > 0 && b.len() > 0 {
        let a2 = a.drop_first();
        let b2 = b.drop_first();
        assert(keys_increasing(a2));
        assert(keys_increasing(b2));
        assert(map_of(a) == map_of(a2).insert(a[0].0, a[0].1));
        assert(map_of(b) == map_of(b2).insert(b[0].0, b[0].1));
        if a[0].0 < b[0].0 {
            lemma_symmetric_diff_exact(a2, b, k);
            lemma_map_of_below(b, a[0].0);
            assert(d.drop_first() =~= diff_spec(a2, b));
            if k == a[0].0 {
                assert(!map_of(b).contains_key(k));
            }
        } else if b[0].0 < a[0].0 {
            lemma_symmetric_diff_exact(a, b2, k);
            lemma_map_of_below(a, b[0].0);
            assert(d.drop_first() =~= diff_spec(a, b2));
            if k == b[0].0 {
                assert(!map_of(a).contains_key(k));
            }
        } else {
            lemma_symmetric_diff_exact(a2, b2, k);
            if a2.len() > 0 {
                lemma_map_of_below(a2, a[0].0);
            }
            if b2.len() > 0 {
                lemma_map_of_below(b2, b[0].0);
            }
            if !a[0].1.eq_spec(&b[0].1) {
                assert(d.drop_first() =~= diff_spec(a2, b2));
            }
        }
    } else if a.len() > 0 {
        lemma_all_as(a, true, k);
        assert(map_of(b) =~= Map::<u64, V>::empty());
    } else {
        lemma_all_as(b, false, k);
        assert(map_of(a) =~= Map::<u64, V>::empty());
    }
}


/// `key` is the key of an entry of `a` or of `b`.
pub open spec fn key_of_either<V>(a: Seq<(u64, V)>, b: Seq<(u64, V)>, key: u64) -> bool {
    ||| exists|i: int| 0 <= i < a.len() && a[i].0 == key
    ||| exists|i: int| 0 <= i < b.len() && b[i].0 == key
}

/// Every key listed in the symmetric difference of two increasing listings is a key of
/// one of them, and the difference lists its keys in increasing order.
pub proof fn lemma_diff_keys<V: PartialEq>(a: Seq<(u64, V)>, b: Seq<(u64, V)>)
    requires
        keys_increasing(a),
        keys_increasing(b),
    ensures
        keys_increasing(diff_spec(a, b)),
        forall|j: int| 0 <= j < diff_spec(a, b).len() ==> key_of_either(a, b, #[trigger] diff_spec(a, b)[j].0),
    decreases a.len() + b.len(),
{
    let d = diff_spec(a, b);
    if a.len() > 0 && b.len() > 0 {
        let a2 = a.drop_first();
        let b2 = b.drop_first();
        if a[0].0 < b[0].0 {
            lemma_diff_keys(a2, b);
            let t = diff_spec(a2, b);
            assert(d == seq![(a[0].0, DiffElement::Left(a[0].1))] + t);
            assert forall|j: int| 1 <= j < d.len() implies a[0].0 < #[trigger] d[j].0 by {
                assert(d[j] == t[j - 1]);
                if exists|i: int| 0 <= i < a2.len() && a2[i].0 == t[j - 1].0 {
                    let i = choose|i: int| 0 <= i < a2.len() && a2[i].0 == t[j - 1].0;
                    assert(a[i + 1] == a2[i]);
                } else {
                    let i = choose|i: int| 0 <= i < b.len() && b[i].0 == t[j - 1].0;
                    if i > 0 {
                        assert(b[0].0 < b[i].0);
                    }
                }
            }
            assert forall|j: int| 0 <= j < d.len() implies key_of_either(a, b, #[trigger] d[j].0) by {
                if j == 0 {
                    assert(a[0].0 == d[0].0);
                } else {
                    assert(d[j] == t[j - 1]);
                    if exists|i: int| 0 <= i < a2.len() && a2[i].0 == t[j - 1].0 {
                        let i = choose|i: int| 0 <= i < a2.len() && a2[i].0 == t[j - 1].0;
                        assert(a[i + 1] == a2[i]);
                    }
                }
            }
            assert forall|i: int, j: int| 0 <= i < j < d.len() implies d[i].0 < d[j].0 by {
                if i > 0 {
                    assert(d[i] == t[i - 1]);
                    assert(d[j] == t[j - 1]);
                }
            }
        } else if b[0].0 < a[0].0 {
            lemma_diff_keys(a, b2);
            let t = diff_spec(a, b2);
            assert(d == seq![(b[0].0, DiffElement::Right(b[0].1))] + t);
            assert forall|j: int| 1 <= j < d.len() implies b[0].0 < #[trigger] d[j].0 by {
                assert(d[j] == t[j - 1]);
                if exists|i: int| 0 <= i < b2.len() && b2[i].0 == t[j - 1].0 {
                    let i = choose|i: int| 0 <= i < b2.len() && b2[i].0 == t[j - 1].0;
                    assert(b[i + 1] == b2[i]);
                } else {
                    let i = choose|i: int| 0 <= i < a.len() && a[i].0 == t[j - 1].0;
                    if i > 0 {
                        assert(a[0].0 < a[i].0);
                    }
                }
            }
            assert forall|j: int| 0 <= j < d.len() implies key_of_either(a, b, #[trigger] d[j].0) by {
                if j == 0 {
                    assert(b[0].0 == d[0].0);
                } else {
                    assert(d[j] == t[j - 1]);
                    if exists|i: int| 0 <= i < b2.len() && b2[i].0 == t[j - 1].0 {
                        let i = choose|i: int| 0 <= i < b2.len() && b2[i].0 == t[j - 1].0;
                        assert(b[i + 1] == b2[i]);
                    }
                }
            }
            assert forall|i: int, j: int| 0 <= i < j < d.len() implies d[i].0 < d[j].0 by {
                if i > 0 {
                    assert(d[i] == t[i - 1]);
                    assert(d[j] == t[j - 1]);
                }
            }
        } else {
            lemma_diff_keys(a2, b2);
            let t = diff_spec(a2, b2);
            assert forall|j: int| 0 <= j < t.len() implies a[0].0 < #[trigger] t[j].0 && key_of_either(a, b, t[j].0) by {
                if exists|i: int| 0 <= i < a2.len() && a2[i].0 == t[j].0 {
                    let i = choose|i: int| 0 <= i < a2.len() && a2[i].0 == t[j].0;
                    assert(a[i + 1] == a2[i]);
                } else {
                    let i = choose|i: int| 0 <= i < b2.len() && b2[i].0 == t[j].0;
                    assert(b[i + 1] == b2[i]);
                }
            }
            if a[0].1.eq_spec(&b[0].1) {
                assert(d == t);
                assert forall|j: int| 0 <= j < d.len() implies key_of_either(a, b, #[trigger] d[j].0) by {
                    assert(d[j] == t[j]);
                }
            } else {
                assert(d == seq![(a[0].0, DiffElement::Unequal(a[0].1, b[0].1))] + t);
                assert forall|j: int| 0 <= j < d.len() implies key_of_either(a, b, #[trigger] d[j].0) by {
                    if j == 0 {
                        assert(a[0].0 == d[0].0);
                    } else {
                        assert(d[j] == t[j - 1]);
                    }
                }
                assert forall|i: int, j: int| 0 <= i < j < d.len() implies d[i].0 < d[j].0 by {
                    assert(d[j] == t[j - 1]);
                    if i > 0 {
                        assert(d[i] == t[i - 1]);
                    }
                }
            }
        }
    } else if a.len() > 0 {
        assert forall|j: int| 0 <= j < d.len() implies key_of_either(a, b, #[trigger] d[j].0) by {
            assert(a[j].0 == d[j].0);
        }
        assert forall|i: int, j: int| 0 <= i < j < d.len() implies d[i].0 < d[j].0 by {
            assert(d[i].0 == a[i].0);
            assert(d[j].0 == a[j].0);
        }
    } else {
        assert forall|j: int| 0 <= j < d.len() implies key_of_either(a, b, #[trigger] d[j].0) by {
            assert(b[j].0 == d[j].0);
        }
        assert forall|i: int, j: int| 0 <= i < j < d.len() implies d[i].0 < d[j].0 by {
            assert(d[i].0 == b[i].0);
            assert(d[j].0 == b[j].0);
        }
    }
}

/// In a listing with increasing keys, the difference listed for `k` is the one at the
/// position that holds `k`, and there is none when no position holds it.
pub proof fn lemma_diff_at_index<V>(d: Seq<(u64, DiffElement<V>)>, k: u64)
    requires
        forall|i: int, j: int| 0 <= i < j < d.len() ==> d[i].0 < d[j].0,
    ensures
        forall|j: int| 0 <= j < d.len() && #[trigger] d[j].0 == k ==> diff_at(d, k) == Some(d[j].1),
        (forall|j: int| 0 <= j < d.len() ==> #[trigger] d[j].0 != k) ==> diff_at(d, k) is None,
    decreases d.len(),
{
    if d.len() > 0 {
        let t = d.drop_first();
        assert forall|i: int, j: int| 0 <= i < j < t.len() implies t[i].0 < t[j].0 by {
            assert(t[i] == d[i + 1]);
            assert(t[j] == d[j + 1]);
        }
        lemma_diff_at_index(t, k);
        assert forall|j: int| 0 <= j < d.len() && #[trigger] d[j].0 == k implies diff_at(d, k) == Some(d[j].1) by {
            if j > 0 {
                assert(d[0].0 < d[j].0);
                assert(t[j - 1] == d[j]);
            }
        }
        if forall|j: int| 0 <= j < d.len() ==> #[trigger] d[j].0 != k {
            assert(d[0].0 != k);
            assert forall|j: int| 0 <= j < t.len() implies #[trigger] t[j].0 != k by {
                assert(t[j] == d[j + 1]);
            }
        }
    }
}

} // verus!
