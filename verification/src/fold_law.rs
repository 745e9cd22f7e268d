use vstd::prelude::*;
use vstd::std_specs::cmp::PartialEqSpec;

use crate::closure_fold::{add_trace, diff_fold_trace, ClosureFold, UnorderedFold};
use crate::sorted_map::SortedMap;
use crate::symmetric_fold::{all_as, diff_spec, DiffElement};

verus! {

/// The entries of `s` added one by one, in order, to `base`.
pub open spec fn fold_entries<V, R>(on_add: spec_fn(R, u64, V) -> R, base: R, s: Seq<(u64, V)>) -> R
    decreases s.len(),
{
    if s.len() == 0 {
        base
    } else {
        fold_entries(on_add, on_add(base, s[0].0, s[0].1), s.drop_first())
    }
}

/// The differences `d` applied one by one, in order, to `acc`: a key that left is
/// removed, a key that arrived is added, a changed key is updated.
pub open spec fn apply_diff<V, R>(
    on_add: spec_fn(R, u64, V) -> R,
    on_remove: spec_fn(R, u64, V) -> R,
    on_update: spec_fn(R, u64, V, V) -> R,
    acc: R,
    d: Seq<(u64, DiffElement<V>)>,
) -> R
    decreases d.len(),
{
    if d.len() == 0 {
        acc
    } else {
        let next = match d[0].1 {
            DiffElement::Left(v) => on_remove(acc, d[0].0, v),
            DiffElement::Right(v) => on_add(acc, d[0].0, v),
            DiffElement::Unequal(o, n) => on_update(acc, d[0].0, o, n),
        };
        apply_diff(on_add, on_remove, on_update, next, d.drop_first())
    }
}

/// Removing undoes adding, updating is removing the old entry and adding the new one,
/// and the order in which entries are added does not matter.
pub open spec fn fold_laws<V, R>(
    on_add: spec_fn(R, u64, V) -> R,
    on_remove: spec_fn(R, u64, V) -> R,
    on_update: spec_fn(R, u64, V, V) -> R,
) -> bool {
    &&& forall|a: R, k: u64, v: V| #[trigger] on_remove(on_add(a, k, v), k, v) == a
    &&& forall|a: R, k: u64, o: V, n: V| #[trigger] on_update(a, k, o, n) == on_add(on_remove(a, k, o), k, n)
    &&& forall|a: R, k1: u64, v1: V, k2: u64, v2: V|
        #[trigger] on_add(on_add(a, k1, v1), k2, v2) == on_add(on_add(a, k2, v2), k1, v1)
}

/// Adding one more entry first or last gives the same fold.
proof fn lemma_add_first<V, R>(
    on_add: spec_fn(R, u64, V) -> R,
    on_remove: spec_fn(R, u64, V) -> R,
    on_update: spec_fn(R, u64, V, V) -> R,
    base: R,
    k: u64,
    v: V,
    s: Seq<(u64, V)>,
)
    requires
        fold_laws(on_add, on_remove, on_update),
    ensures
        fold_entries(on_add, on_add(base, k, v), s) == on_add(fold_entries(on_add, base, s), k, v),
    decreases s.len(),
{
    if s.len() > 0 {
        assert(on_add(on_add(base, k, v), s[0].0, s[0].1) == on_add(on_add(base, s[0].0, s[0].1), k, v));
        lemma_add_first(on_add, on_remove, on_update, on_add(base, s[0].0, s[0].1), k, v, s.drop_first());
    }
}

/// Applying every entry of `s` as a removal undoes folding them in.
proof fn lemma_remove_all<V, R>(
    on_add: spec_fn(R, u64, V) -> R,
    on_remove: spec_fn(R, u64, V) -> R,
    on_update: spec_fn(R, u64, V, V) -> R,
    base: R,
    s: Seq<(u64, V)>,
)
    requires
        fold_laws(on_add, on_remove, on_update),
    ensures
        apply_diff(on_add, on_remove, on_update, fold_entries(on_add, base, s), all_as(s, true)) == base,
    decreases s.len(),
{
    if s.len() > 0 {
        let t = s.drop_first();
        assert(all_as(s, true).drop_first() =~= all_as(t, true));
        lemma_add_first(on_add, on_remove, on_update, base, s[0].0, s[0].1, t);
        assert(on_remove(on_add(fold_entries(on_add, base, t), s[0].0, s[0].1), s[0].0, s[0].1) == fold_entries(on_add, base, t));
        lemma_remove_all(on_add, on_remove, on_update, base, t);
    }
}

/// Applying every entry of `s` as an addition folds them in.
proof fn lemma_add_all<V, R>(
    on_add: spec_fn(R, u64, V) -> R,
    on_remove: spec_fn(R, u64, V) -> R,
    on_update: spec_fn(R, u64, V, V) -> R,
    base: R,
    s: Seq<(u64, V)>,
)
    ensures
        apply_diff(on_add, on_remove, on_update, base, all_as(s, false)) == fold_entries(on_add, base, s),
    decreases s.len(),
{
    if s.len() > 0 {
        let t = s.drop_first();
        assert(all_as(s, false).drop_first() =~= all_as(t, false));
        lemma_add_all(on_add, on_remove, on_update, on_add(base, s[0].0, s[0].1), t);
    }
}

/// Applying the differences from `a` to `b` to the fold of `a` gives the fold of `b`.
proof fn lemma_diff_folds<V: PartialEq, R>(
    on_add: spec_fn(R, u64, V) -> R,
    on_remove: spec_fn(R, u64, V) -> R,
    on_update: spec_fn(R, u64, V, V) -> R,
    base: R,
    a: Seq<(u64, V)>,
    b: Seq<(u64, V)>,
)
    requires
        fold_laws(on_add, on_remove, on_update),
        forall|x: V, y: V| #[trigger] x.eq_spec(&y) ==> x == y,
    ensures
        apply_diff(on_add, on_remove, on_update, fold_entries(on_add, base, a), diff_spec(a, b)) == fold_entries(on_add, base, b),
    decreases a.len() + b.len(),
{
    let d = diff_spec(a, b);
    if a.len() > 0 && b.len() > 0 {
        let a2 = a.drop_first();
        let b2 = b.drop_first();
        lemma_add_first(on_add, on_remove, on_update, base, a[0].0, a[0].1, a2);
        if a[0].0 < b[0].0 {
            assert(d.drop_first() =~= diff_spec(a2, b));
            assert(on_remove(on_add(fold_entries(on_add, base, a2), a[0].0, a[0].1), a[0].0, a[0].1) == fold_entries(on_add, base, a2));
            lemma_diff_folds(on_add, on_remove, on_update, base, a2, b);
        } else if b[0].0 < a[0].0 {
            assert(d.drop_first() =~= diff_spec(a, b2));
            let base2 = on_add(base, b[0].0, b[0].1);
            lemma_add_first(on_add, on_remove, on_update, base, b[0].0, b[0].1, a);
            lemma_diff_folds(on_add, on_remove, on_update, base2, a, b2);
        } else if a[0].1.eq_spec(&b[0].1) {
            assert(d =~= diff_spec(a2, b2));
            assert(a[0].1 == b[0].1);
            lemma_diff_folds(on_add, on_remove, on_update, on_add(base, b[0].0, b[0].1), a2, b2);
        } else {
            assert(d.drop_first() =~= diff_spec(a2, b2));
            let k = a[0].0;
            let f2 = fold_entries(on_add, base, a2);
            assert(on_update(on_add(f2, k, a[0].1), k, a[0].1, b[0].1) == on_add(on_remove(on_add(f2, k, a[0].1), k, a[0].1), k, b[0].1));
            assert(on_remove(on_add(f2, k, a[0].1), k, a[0].1) == f2);
            lemma_add_first(on_add, on_remove, on_update, base, k, b[0].1, a2);
            lemma_diff_folds(on_add, on_remove, on_update, on_add(base, b[0].0, b[0].1), a2, b2);
        }
    } else if a.len() > 0 {
        lemma_remove_all(on_add, on_remove, on_update, base, a);
    } else {
        lemma_add_all(on_add, on_remove, on_update, base, b);
    }
}

/// A trace of applying the differences `d` to `acc` with a fold whose steps compute
/// `add`, `remove` and `update` ends at those differences applied.
proof fn lemma_trace_applies<V, R, F: UnorderedFold<SortedMap<V>, u64, V, R>>(
    fold: F,
    on_add: spec_fn(R, u64, V) -> R,
    on_remove: spec_fn(R, u64, V) -> R,
    on_update: spec_fn(R, u64, V, V) -> R,
    acc: R,
    d: Seq<(u64, DiffElement<V>)>,
    accs: Seq<R>,
)
    requires
        forall|a: R, k: u64, v: V, r: R| #[trigger] fold.add_ensures(a, k, v, r) ==> r == on_add(a, k, v),
        forall|a: R, k: u64, v: V, r: R| #[trigger] fold.remove_ensures(a, k, v, r) ==> r == on_remove(a, k, v),
        forall|a: R, k: u64, o: V, n: V, r: R| #[trigger] fold.update_ensures(a, k, o, n, r) ==> r == on_update(a, k, o, n),
        diff_fold_trace(fold, acc, d, accs),
    ensures
        accs.last() == apply_diff(on_add, on_remove, on_update, acc, d),
    decreases d.len(),
{
    if d.len() > 0 {
        let accs2 = accs.drop_first();
        let d2 = d.drop_first();
        assert(match d[0].1 {
            DiffElement::Left(v) => fold.remove_ensures(accs[0], d[0].0, v, accs[1]),
            DiffElement::Right(v) => fold.add_ensures(accs[0], d[0].0, v, accs[1]),
            DiffElement::Unequal(o, n) => fold.update_ensures(accs[0], d[0].0, o, n, accs[1]),
        });
        assert forall|i: int| 0 <= i < d2.len() implies match #[trigger] d2[i].1 {
            DiffElement::Left(v) => fold.remove_ensures(accs2[i], d2[i].0, v, accs2[i + 1]),
            DiffElement::Right(v) => fold.add_ensures(accs2[i], d2[i].0, v, accs2[i + 1]),
            DiffElement::Unequal(o, n) => fold.update_ensures(accs2[i], d2[i].0, o, n, accs2[i + 1]),
        } by {
            assert(d2[i] == d[i + 1]);
            assert(match d[i + 1].1 {
                DiffElement::Left(v) => fold.remove_ensures(accs[i + 1], d[i + 1].0, v, accs[i + 2]),
                DiffElement::Right(v) => fold.add_ensures(accs[i + 1], d[i + 1].0, v, accs[i + 2]),
                DiffElement::Unequal(o, n) => fold.update_ensures(accs[i + 1], d[i + 1].0, o, n, accs[i + 2]),
            });
        }
        lemma_trace_applies(fold, on_add, on_remove, on_update, accs[1], d2, accs2);
    }
}

/// The value an incremental unordered fold keeps is the fold of the current map: where
/// the fold's steps compute `add`, `remove` and `update`, removing undoes adding,
/// updating is removing then adding, and adding is insensitive to order, applying the
/// differences between two maps (as `unordered_fold_with` does) to the fold of the
/// first map, from `init`, gives the fold of the second, from `init`.
pub proof fn lemma_unordered_fold_tracks_map<V: PartialEq, R, F: UnorderedFold<SortedMap<V>, u64, V, R>>(
    fold: F,
    on_add: spec_fn(R, u64, V) -> R,
    on_remove: spec_fn(R, u64, V) -> R,
    on_update: spec_fn(R, u64, V, V) -> R,
    init: R,
    old_map: SortedMap<V>,
    new_map: SortedMap<V>,
    accs: Seq<R>,
)
    requires
        fold_laws(on_add, on_remove, on_update),
        forall|a: R, k: u64, v: V, r: R| #[trigger] fold.add_ensures(a, k, v, r) ==> r == on_add(a, k, v),
        forall|a: R, k: u64, v: V, r: R| #[trigger] fold.remove_ensures(a, k, v, r) ==> r == on_remove(a, k, v),
        forall|a: R, k: u64, o: V, n: V, r: R| #[trigger] fold.update_ensures(a, k, o, n, r) ==> r == on_update(a, k, o, n),
        forall|x: V, y: V| #[trigger] x.eq_spec(&y) ==> x == y,
        diff_fold_trace(
            fold,
            fold_entries(on_add, init, old_map.spec_entries()),
            diff_spec(old_map.spec_entries(), new_map.spec_entries()),
            accs,
        ),
    ensures
        accs.last() == fold_entries(on_add, init, new_map.spec_entries()),
{
    let a = old_map.spec_entries();
    let b = new_map.spec_entries();
    lemma_trace_applies(fold, on_add, on_remove, on_update, fold_entries(on_add, init, a), diff_spec(a, b), accs);
    lemma_diff_folds(on_add, on_remove, on_update, init, a, b);
}


/// Adding the entries one by one with a closure that computes `on_add` gives the
/// entries folded with `on_add`.
proof fn lemma_add_trace_folds<V, R, FAdd: Fn(R, &u64, &V) -> R>(
    add: FAdd,
    on_add: spec_fn(R, u64, V) -> R,
    start: R,
    entries: Seq<(u64, V)>,
    accs: Seq<R>,
)
    requires
        forall|a: R, k: u64, v: V, r: R| #[trigger] add.ensures((a, &k, &v), r) ==> r == on_add(a, k, v),
        accs.len() == entries.len() + 1,
        accs[0] == start,
        forall|i: int|
            #![trigger entries[i]]
            0 <= i < entries.len() ==> add.ensures((accs[i], &entries[i].0, &entries[i].1), accs[i + 1]),
    ensures
        accs.last() == fold_entries(on_add, start, entries),
    decreases entries.len(),
{
    if entries.len() > 0 {
        let rest = entries.drop_first();
        let accs2 = accs.drop_first();
        assert(entries[0] == entries[0]);
        assert(accs[1] == on_add(start, entries[0].0, entries[0].1));
        assert forall|i: int| #![trigger rest[i]] 0 <= i < rest.len() implies add.ensures(
            (accs2[i], &rest[i].0, &rest[i].1),
            accs2[i + 1],
        ) by {
            assert(entries[i + 1] == rest[i]);
        }
        lemma_add_trace_folds(add, on_add, accs[1], rest, accs2);
    }
}

/// The first fold of a fold built from closures, without a specialised first fold,
/// adds the map's entries one by one to the start value: where the add closure
/// computes `on_add`, what comes out is the entries folded with `on_add`. Together
/// with [`lemma_unordered_fold_tracks_map`], every value the fold keeps is the current
/// map folded from the start value.
pub proof fn lemma_first_fold_adds_entries<
    V: Copy + PartialEq,
    R,
    FAdd: Fn(R, &u64, &V) -> R,
    FRemove: Fn(R, &u64, &V) -> R,
    FUpdate: Fn(R, &u64, &V, &V) -> R,
    FInitial: Fn(R, &SortedMap<V>) -> R,
>(
    fold: ClosureFold<SortedMap<V>, u64, V, R, FAdd, FRemove, FUpdate, FInitial>,
    on_add: spec_fn(R, u64, V) -> R,
    start: R,
    input: SortedMap<V>,
    out: R,
)
    requires
        fold.specialized_initial is None,
        forall|a: R, k: u64, v: V, r: R| #[trigger] fold.add.ensures((a, &k, &v), r) ==> r == on_add(a, k, v),
        fold.initial_ensures(start, input, out),
    ensures
        out == fold_entries(on_add, start, input.spec_entries()),
{
    let accs = choose|accs: Seq<R>| add_trace(fold.add, start, input.spec_entries(), accs) && out == accs.last();
    let es = input.spec_entries();
    assert forall|i: int| #![trigger es[i]] 0 <= i < es.len() implies fold.add.ensures(
        (accs[i], &es[i].0, &es[i].1),
        accs[i + 1],
    ) by {}
    lemma_add_trace_folds(fold.add, on_add, start, es, accs);
}

} // verus!
