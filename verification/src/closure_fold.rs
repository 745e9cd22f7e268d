use std::marker::PhantomData;
use vstd::prelude::*;
use vstd::std_specs::cmp::PartialEqSpec;

use crate::sorted_map::{closure_trace, SortedMap, SymmetricFoldMap};
use crate::symmetric_fold::{diff_spec, symmetric_diff, DiffElement};

verus! {

/// How to fold a map of `K` to `V` into an `R` without regard to order, and keep the
/// fold up to date as entries are added, removed and changed. Each operation comes with
/// the condition under which it may run and what it promises then.
pub trait UnorderedFold<M, K, V, R>: Sized {
    spec fn add_requires(&self, acc: R, key: K, value: V) -> bool;

    spec fn add_ensures(&self, acc: R, key: K, value: V, out: R) -> bool;

    spec fn remove_requires(&self, acc: R, key: K, value: V) -> bool;

    spec fn remove_ensures(&self, acc: R, key: K, value: V, out: R) -> bool;

    spec fn update_requires(&self, acc: R, key: K, old: V, new: V) -> bool;

    spec fn update_ensures(&self, acc: R, key: K, old: V, new: V, out: R) -> bool;

    spec fn revert_spec(&self) -> bool;

    spec fn initial_requires(&self, acc: R, input: M) -> bool;

    spec fn initial_ensures(&self, acc: R, input: M, out: R) -> bool;

    /// Add an entry to the fold value.
    fn add(&self, acc: R, key: &K, value: &V) -> (r: R)
        requires
            self.add_requires(acc, *key, *value),
        ensures
            self.add_ensures(acc, *key, *value, r),
    ;

    /// Take an entry out of the fold value.
    fn remove(&self, acc: R, key: &K, value: &V) -> (r: R)
        requires
            self.remove_requires(acc, *key, *value),
        ensures
            self.remove_ensures(acc, *key, *value, r),
    ;

    /// Replace an entry's value in the fold value.
    fn update(&self, acc: R, key: &K, old: &V, new: &V) -> (r: R)
        requires
            self.update_requires(acc, *key, *old, *new),
        ensures
            self.update_ensures(acc, *key, *old, *new, r),
    ;

    /// Whether an emptied map folds to the initial value without removing each entry.
    fn revert_to_init_when_empty(&self) -> (r: bool)
        ensures
            r == self.revert_spec(),
    ;

    /// Fold a whole map into `acc`.
    fn initial_fold(&self, acc: R, input: &M) -> (r: R)
        requires
            self.initial_requires(acc, *input),
        ensures
            self.initial_ensures(acc, *input, r),
    ;
}

/// An [`UnorderedFold`] built from closures.
pub struct ClosureFold<M, K, V, R, FAdd, FRemove, FUpdate, FInitial> {
    pub add: FAdd,
    pub remove: FRemove,
    pub update: Option<FUpdate>,
    pub specialized_initial: Option<FInitial>,
    pub revert_to_init_when_empty: bool,
    pub phantom: PhantomData<(M, K, V, R)>,
}

/// The update used when none is given: never called.
pub fn no_update<K, V, R>(acc: R, _key: &K, _old: &V, _new: &V) -> (r: R)
    ensures
        r == acc,
{
    acc
}

/// The initial fold used when none is given: never called.
pub fn no_initial<M, R>(acc: R, _input: &M) -> (r: R)
    ensures
        r == acc,
{
    acc
}

impl ClosureFold<(), (), (), (), (), (), (), ()> {
    /// A fold with no operations yet; give them with the builder methods.
    pub fn new<M, K, V, R>() -> (r: ClosureFold<
        M,
        K,
        V,
        R,
        (),
        (),
        impl Fn(R, &K, &V, &V) -> R,
        impl Fn(R, &M) -> R,
    >)
        ensures
            r.update is None,
            r.specialized_initial is None,
            !r.revert_to_init_when_empty,
    {
        let mut update = Some(no_update::<K, V, R>);
        update = None;
        let mut specialized_initial = Some(no_initial::<M, R>);
        specialized_initial = None;
        ClosureFold {
            add: (),
            remove: (),
            update,
            specialized_initial,
            revert_to_init_when_empty: false,
            phantom: PhantomData,
        }
    }

    /// A fold that adds with `add` and removes with `remove`.
    pub fn new_add_remove<M, K, V, R, FAdd: Fn(R, &K, &V) -> R, FRemove: Fn(R, &K, &V) -> R>(
        add: FAdd,
        remove: FRemove,
    ) -> (r: ClosureFold<M, K, V, R, FAdd, FRemove, impl Fn(R, &K, &V, &V) -> R, impl Fn(R, &M) -> R>)
        ensures
            r.add == add,
            r.remove == remove,
            r.update is None,
            r.specialized_initial is None,
            !r.revert_to_init_when_empty,
    {
        let mut update = Some(no_update::<K, V, R>);
        update = None;
        let mut specialized_initial = Some(no_initial::<M, R>);
        specialized_initial = None;
        ClosureFold { add, remove, update, specialized_initial, revert_to_init_when_empty: false, phantom: PhantomData }
    }
}

impl<M, K, V, R, FAdd_, FRemove_, FUpdate_, FInitial_> ClosureFold<M, K, V, R, FAdd_, FRemove_, FUpdate_, FInitial_> {
    /// Use `add` to add entries. This also forgets any update, specialised initial
    /// fold and reverting set so far.
    pub fn add<FAdd: Fn(R, &K, &V) -> R>(self, add: FAdd) -> (r: ClosureFold<
        M,
        K,
        V,
        R,
        FAdd,
        FRemove_,
        FUpdate_,
        FInitial_,
    >)
        ensures
            r.add == add,
            r.remove == self.remove,
            r.update is None,
            r.specialized_initial is None,
            !r.revert_to_init_when_empty,
    {
        ClosureFold {
            add,
            remove: self.remove,
            update: None,
            specialized_initial: None,
            revert_to_init_when_empty: false,
            phantom: PhantomData,
        }
    }

    /// Use `remove` to remove entries. This also forgets any update, specialised
    /// initial fold and reverting set so far.
    pub fn remove<FRemove: Fn(R, &K, &V) -> R>(self, remove: FRemove) -> (r: ClosureFold<
        M,
        K,
        V,
        R,
        FAdd_,
        FRemove,
        FUpdate_,
        FInitial_,
    >)
        ensures
            r.add == self.add,
            r.remove == remove,
            r.update is None,
            r.specialized_initial is None,
            !r.revert_to_init_when_empty,
    {
        ClosureFold {
            add: self.add,
            remove,
            update: None,
            specialized_initial: None,
            revert_to_init_when_empty: false,
            phantom: PhantomData,
        }
    }

    /// Use `update` to replace an entry's value, in place of removing and adding.
    pub fn update<FUpdate: Fn(R, &K, &V, &V) -> R>(self, update: FUpdate) -> (r: ClosureFold<
        M,
        K,
        V,
        R,
        FAdd_,
        FRemove_,
        FUpdate,
        FInitial_,
    >)
        ensures
            r.add == self.add,
            r.remove == self.remove,
            r.update == Some(update),
            r.specialized_initial == self.specialized_initial,
            r.revert_to_init_when_empty == self.revert_to_init_when_empty,
    {
        ClosureFold {
            add: self.add,
            remove: self.remove,
            update: Some(update),
            specialized_initial: self.specialized_initial,
            revert_to_init_when_empty: self.revert_to_init_when_empty,
            phantom: self.phantom,
        }
    }

    /// Use `specialized_initial` to fold a whole map at once, in place of adding each
    /// entry.
    pub fn specialized_initial<FInitial: Fn(R, &M) -> R>(self, specialized_initial: FInitial) -> (r: ClosureFold<
        M,
        K,
        V,
        R,
        FAdd_,
        FRemove_,
        FUpdate_,
        FInitial,
    >)
        ensures
            r.add == self.add,
            r.remove == self.remove,
            r.update == self.update,
            r.specialized_initial == Some(specialized_initial),
            r.revert_to_init_when_empty == self.revert_to_init_when_empty,
    {
        ClosureFold {
            add: self.add,
            remove: self.remove,
            update: self.update,
            specialized_initial: Some(specialized_initial),
            revert_to_init_when_empty: self.revert_to_init_when_empty,
            phantom: self.phantom,
        }
    }

    /// Whether an emptied map folds back to the initial value at once.
    pub fn revert_to_init_when_empty(self, revert_to_init_when_empty: bool) -> (r: Self)
        ensures
            r.add == self.add,
            r.remove == self.remove,
            r.update == self.update,
            r.specialized_initial == self.specialized_initial,
            r.revert_to_init_when_empty == revert_to_init_when_empty,
    {
        ClosureFold {
            add: self.add,
            remove: self.remove,
            update: self.update,
            specialized_initial: self.specialized_initial,
            revert_to_init_when_empty,
            phantom: self.phantom,
        }
    }
}

/// The accumulators of adding each entry of `es` with `add`.
pub open spec fn add_trace<R, V, FAdd: Fn(R, &u64, &V) -> R>(add: FAdd, init: R, es: Seq<(u64, V)>, accs: Seq<R>) -> bool {
    &&& accs.len() == es.len() + 1
    &&& accs[0] == init
    &&& forall|i: int| 0 <= i < es.len() ==> #[trigger] add.ensures((accs[i], &es[i].0, &es[i].1), accs[i + 1])
}

impl<
    V: Copy + PartialEq,
    R,
    FAdd: Fn(R, &u64, &V) -> R,
    FRemove: Fn(R, &u64, &V) -> R,
    FUpdate: Fn(R, &u64, &V, &V) -> R,
    FInitial: Fn(R, &SortedMap<V>) -> R,
> UnorderedFold<SortedMap<V>, u64, V, R> for ClosureFold<SortedMap<V>, u64, V, R, FAdd, FRemove, FUpdate, FInitial> {
    open spec fn add_requires(&self, acc: R, key: u64, value: V) -> bool {
        self.add.requires((acc, &key, &value))
    }

    open spec fn add_ensures(&self, acc: R, key: u64, value: V, out: R) -> bool {
        self.add.ensures((acc, &key, &value), out)
    }

    open spec fn remove_requires(&self, acc: R, key: u64, value: V) -> bool {
        self.remove.requires((acc, &key, &value))
    }

    open spec fn remove_ensures(&self, acc: R, key: u64, value: V, out: R) -> bool {
        self.remove.ensures((acc, &key, &value), out)
    }

    /// With an update closure, its condition; otherwise removing the old value and then
    /// adding the new one must be allowed.
    open spec fn update_requires(&self, acc: R, key: u64, old: V, new: V) -> bool {
        match self.update {
            Some(u) => u.requires((acc, &key, &old, &new)),
            None => self.remove.requires((acc, &key, &old)) && forall|mid: R|
                self.remove.ensures((acc, &key, &old), mid) ==> self.add.requires((mid, &key, &new)),
        }
    }

    open spec fn update_ensures(&self, acc: R, key: u64, old: V, new: V, out: R) -> bool {
        match self.update {
            Some(u) => u.ensures((acc, &key, &old, &new), out),
            None => exists|mid: R|
                self.remove.ensures((acc, &key, &old), mid) && self.add.ensures((mid, &key, &new), out),
        }
    }

    open spec fn revert_spec(&self) -> bool {
        self.revert_to_init_when_empty
    }

    open spec fn initial_requires(&self, acc: R, input: SortedMap<V>) -> bool {
        match self.specialized_initial {
            Some(f) => f.requires((acc, &input)),
            None => forall|a: R, k: u64, v: V| #[trigger] self.add.requires((a, &k, &v)),
        }
    }

    /// With a specialised initial fold, what it promises; otherwise the result of adding
    /// the entries one by one in key order.
    open spec fn initial_ensures(&self, acc: R, input: SortedMap<V>, out: R) -> bool {
        match self.specialized_initial {
            Some(f) => f.ensures((acc, &input), out),
            None => exists|accs: Seq<R>| add_trace(self.add, acc, input.spec_entries(), accs) && out == accs.last(),
        }
    }

    fn add(&self, acc: R, key: &u64, value: &V) -> (r: R) {
        (self.add)(acc, key, value)
    }

    fn remove(&self, acc: R, key: &u64, value: &V) -> (r: R) {
        (self.remove)(acc, key, value)
    }

    fn update(&self, acc: R, key: &u64, old: &V, new: &V) -> (r: R) {
        match &self.update {
            Some(closure) => closure(acc, key, old, new),
            None => {
                let r = (self.remove)(acc, key, old);
                (self.add)(r, key, new)
            },
        }
    }

    fn revert_to_init_when_empty(&self) -> (r: bool) {
        self.revert_to_init_when_empty
    }

    fn initial_fold(&self, acc: R, input: &SortedMap<V>) -> (r: R) {
        match &self.specialized_initial {
            Some(closure) => closure(acc, input),
            None => {
                let add_fn = &self.add;
                let step = |a: R, e: (u64, V)| -> (out: R)
                    requires
                        add_fn.requires((a, &e.0, &e.1)),
                    ensures
                        add_fn.ensures((a, &e.0, &e.1), out),
                    { add_fn(a, &e.0, &e.1) };
                let r = input.nonincremental_fold(acc, step);
                proof {
                    let accs = choose|accs: Seq<R>| closure_trace(step, acc, input.spec_entries(), accs) && r == accs.last();
                    let es = input.spec_entries();
                    assert forall|i: int| 0 <= i < es.len() implies #[trigger] self.add.ensures(
                        (accs[i], &es[i].0, &es[i].1),
                        accs[i + 1],
                    ) by {
                        assert(step.ensures((accs[i], es[i]), accs[i + 1]));
                    }
                    assert(add_trace(self.add, acc, input.spec_entries(), accs));
                }
                r
            },
        }
    }
}

/// The accumulators of applying the differences `d` to a fold value with `fold`: a key
/// that left is removed, a key that arrived is added, a changed key is updated.
pub open spec fn diff_fold_trace<V, R, F: UnorderedFold<SortedMap<V>, u64, V, R>>(
    fold: F,
    init: R,
    d: Seq<(u64, DiffElement<V>)>,
    accs: Seq<R>,
) -> bool {
    &&& accs.len() == d.len() + 1
    &&& accs[0] == init
    &&& forall|i: int|
        0 <= i < d.len() ==> match #[trigger] d[i].1 {
            DiffElement::Left(v) => fold.remove_ensures(accs[i], d[i].0, v, accs[i + 1]),
            DiffElement::Right(v) => fold.add_ensures(accs[i], d[i].0, v, accs[i + 1]),
            DiffElement::Unequal(o, n) => fold.update_ensures(accs[i], d[i].0, o, n, accs[i + 1]),
        }
}

/// One recomputation of an unordered fold of a map. The first time (no `old`), the whole
/// new map is folded into a clone of `init`. Later, from the previous map and fold
/// value: an emptied map goes back to a clone of `init` when the fold asks for it, and
/// otherwise each difference between the previous and the new map is applied to the
/// previous fold value in key order. The flag says whether the value may have changed.
pub fn unordered_fold_with<V: Copy + PartialEq, R: Clone, F: UnorderedFold<SortedMap<V>, u64, V, R>>(
    fold: &F,
    init: &R,
    old: Option<(&SortedMap<V>, R)>,
    new_in: &SortedMap<V>,
) -> (r: (R, bool))
    requires
        forall|a: R, k: u64, v: V| #[trigger] fold.add_requires(a, k, v),
        forall|a: R, k: u64, v: V| #[trigger] fold.remove_requires(a, k, v),
        forall|a: R, k: u64, o: V, n: V| #[trigger] fold.update_requires(a, k, o, n),
        old is None ==> forall|a: R| #[trigger] fold.initial_requires(a, *new_in),
    ensures
        old is None ==> r.1 && exists|start: R| cloned(*init, start) && fold.initial_ensures(start, *new_in, r.0),
        old matches Some((m, o)) ==> if fold.revert_spec() && new_in.spec_entries().len() == 0 {
            cloned(*init, r.0) && r.1 == (m.spec_entries().len() != 0)
        } else {
            V::obeys_eq_spec() ==> exists|accs: Seq<R>|
                diff_fold_trace(*fold, o, diff_spec(m.spec_entries(), new_in.spec_entries()), accs) && r.0
                    == accs.last() && r.1 == (diff_spec(m.spec_entries(), new_in.spec_entries()).len() > 0)
        },
{
    match old {
        None => {
            let start = R::clone(init);
            let ghost s0 = start;
            let res = fold.initial_fold(start, new_in);
            proof {
                assert(cloned(*init, s0));
                assert(fold.initial_ensures(s0, *new_in, res));
            }
            (res, true)
        },
        Some((old_in, old_out)) => {
            if fold.revert_to_init_when_empty() && new_in.entries().len() == 0 {
                return (init.clone(), old_in.entries().len() != 0);
            }
            let d = symmetric_diff(old_in.entries(), new_in.entries());
            let mut acc = old_out;
            let ghost mut accs: Seq<R> = seq![acc];
            let mut i: usize = 0;
            while i < d.len()
                invariant
                    i <= d@.len(),
                    accs.len() == i + 1,
                    accs[0] == old_out,
                    accs.last() == acc,
                    forall|j: int|
                        0 <= j < i ==> match #[trigger] d@[j].1 {
                            DiffElement::Left(v) => fold.remove_ensures(accs[j], d@[j].0, v, accs[j + 1]),
                            DiffElement::Right(v) => fold.add_ensures(accs[j], d@[j].0, v, accs[j + 1]),
                            DiffElement::Unequal(o, n) => fold.update_ensures(accs[j], d@[j].0, o, n, accs[j + 1]),
                        },
                    forall|a: R, k: u64, v: V| #[trigger] fold.add_requires(a, k, v),
                    forall|a: R, k: u64, v: V| #[trigger] fold.remove_requires(a, k, v),
                    forall|a: R, k: u64, o: V, n: V| #[trigger] fold.update_requires(a, k, o, n),
                decreases d@.len() - i,
            {
                let (k, e) = d[i];
                let next = match e {
                    DiffElement::Left(v) => fold.remove(acc, &k, &v),
                    DiffElement::Right(v) => fold.add(acc, &k, &v),
                    DiffElement::Unequal(o, n) => fold.update(acc, &k, &o, &n),
                };
                proof {
                    accs = accs.push(next);
                }
                acc = next;
                i = i + 1;
            }
            let changed = d.len() > 0;
            proof {
                assert(diff_fold_trace(*fold, old_out, d@, accs));
            }
            (acc, changed)
        },
    }
}

} // verus!
