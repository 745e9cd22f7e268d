use vstd::prelude::*;

verus! {

/// An update function `|acc, old, new| f(f_inv(acc, old), new)` built from a fold step
/// `f` and its inverse `f_inv`: take the old value out, then put the new one in.
pub fn make_update_fn_from_inverse<B, A, F: Fn(B, A) -> B, FInv: Fn(B, A) -> B>(f: F, f_inv: FInv) -> (r: impl Fn(
    B,
    A,
    A,
) -> B)
    ensures
        forall|acc: B, old_value: A, new_value: A|
            f_inv.requires((acc, old_value)) && (forall|mid: B|
                f_inv.ensures((acc, old_value), mid) ==> f.requires((mid, new_value))) ==> #[trigger] r.requires(
                (acc, old_value, new_value),
            ),
        forall|acc: B, old_value: A, new_value: A, out: B|
            #[trigger] r.ensures((acc, old_value, new_value), out) ==> exists|mid: B|
                f_inv.ensures((acc, old_value), mid) && f.ensures((mid, new_value), out),
{
    move |fold_value: B, old_value: A, new_value: A| -> (out: B)
        requires
            f_inv.requires((fold_value, old_value)),
            forall|mid: B| f_inv.ensures((fold_value, old_value), mid) ==> f.requires((mid, new_value)),
        ensures
            exists|mid: B| f_inv.ensures((fold_value, old_value), mid) && f.ensures((mid, new_value), out),
        {
            let mid = f_inv(fold_value, old_value);
            f(mid, new_value)
        }
}

/// Counts changes, to force a full recomputation of a fold every `n` of them.
#[derive(Copy, Clone, Debug, PartialEq, Eq)]
pub enum Cycle {
    EveryN { current: u32, n: u32 },
    Never,
}

/// One step of the counter: the counter after it and whether it wrapped around.
pub open spec fn spec_cycle_next(c: Cycle) -> (Cycle, bool) {
    match c {
        Cycle::EveryN { current, n } => if current + 1 >= n {
            (Cycle::EveryN { current: 0, n }, true)
        } else {
            (Cycle::EveryN { current: (current + 1) as u32, n }, false)
        },
        Cycle::Never => (Cycle::Never, false),
    }
}

impl Cycle {
    /// A counter that wraps every `n` changes, or never for `None`.
    pub fn new(every_n: Option<u32>) -> (r: Self)
        ensures
            every_n matches Some(n) ==> r == (Cycle::EveryN { current: 0, n }),
            every_n is None ==> r == Cycle::Never,
    {
        match every_n {
            Some(n) => Cycle::EveryN { current: 0, n },
            None => Cycle::Never,
        }
    }

    /// Make the next step wrap around.
    pub fn reset(&mut self)
        ensures
            *old(self) matches Cycle::EveryN { n, .. } ==> *final(self) == (Cycle::EveryN { current: n, n }),
            *old(self) is Never ==> *final(self) == Cycle::Never,
    {
        let v = match *self {
            Cycle::EveryN { n, .. } => Cycle::EveryN { current: n, n },
            Cycle::Never => Cycle::Never,
        };
        *self = v;
    }

    /// Count one change; whether the counter wrapped around.
    pub fn increment(&mut self) -> (wrapped: bool)
        requires
            *old(self) matches Cycle::EveryN { current, .. } ==> current < u32::MAX,
        ensures
            (*final(self), wrapped) == spec_cycle_next(*old(self)),
    {
        let mut v = *self;
        let w = v.next();
        *self = v;
        w
    }

    /// Count one change; whether the counter wrapped around.
    pub fn next(&mut self) -> (wrapped: bool)
        requires
            *old(self) matches Cycle::EveryN { current, .. } ==> current < u32::MAX,
        ensures
            (*final(self), wrapped) == spec_cycle_next(*old(self)),
    {
        match *self {
            Cycle::EveryN { current, n } => {
                if current + 1 >= n {
                    *self = Cycle::EveryN { current: 0, n };
                    true
                } else {
                    *self = Cycle::EveryN { current: current + 1, n };
                    false
                }
            },
            Cycle::Never => false,
        }
    }
}

/// The counter state after `k` steps from `c`.
pub open spec fn spec_cycle_after(c: Cycle, k: nat) -> Cycle
    decreases k,
{
    if k == 0 {
        c
    } else {
        spec_cycle_next(spec_cycle_after(c, (k - 1) as nat)).0
    }
}

/// Counting from a fresh counter for `n` changes, the steps before the `n`-th do not
/// wrap and the `n`-th does: the counter forces a full recomputation every `n` changes.
pub proof fn lemma_cycle_wraps_every_n(n: u32, k: nat)
    requires
        1 <= k <= n,
    ensures
        k < n ==> spec_cycle_after(Cycle::EveryN { current: 0, n }, k) == (Cycle::EveryN { current: k as u32, n }),
        !spec_cycle_next(spec_cycle_after(Cycle::EveryN { current: 0, n }, (k - 1) as nat)).1 <==> k < n,
    decreases k,
{
    if k > 1 {
        lemma_cycle_wraps_every_n(n, (k - 1) as nat);
    }
}

/// The state of an unordered fold over an array of inputs: the fold value kept between
/// recomputations (none until the first full computation, or after the counter
/// wrapped), `init`, the fold step `fold`, and `update`, which replaces one input's
/// contribution.
pub struct UnorderedArrayFold<R, I, F, U> {
    pub init: R,
    pub fold: F,
    pub update: U,
    pub fold_value: Option<R>,
    pub cycle: Cycle,
    pub inputs: core::marker::PhantomData<I>,
}

/// `accs` are the accumulators of folding `values` with `f` from `init`.
pub open spec fn fold_trace<R, I, F: Fn(R, &I) -> R>(f: F, init: R, values: Seq<I>, accs: Seq<R>) -> bool {
    &&& accs.len() == values.len() + 1
    &&& accs[0] == init
    &&& forall|i: int| 0 <= i < values.len() ==> #[trigger] f.ensures((accs[i], &values[i]), accs[i + 1])
}

impl<R: Clone, I, F: Fn(R, &I) -> R, U: Fn(R, I, I) -> R> UnorderedArrayFold<R, I, F, U> {
    /// A fold that has computed nothing yet and recomputes fully every
    /// `full_compute_every_n_changes` changes (or never).
    pub fn new(init: R, fold: F, update: U, full_compute_every_n_changes: Option<u32>) -> (r: Self)
        ensures
            r.init == init,
            r.fold == fold,
            r.update == update,
            r.fold_value is None,
            full_compute_every_n_changes matches Some(n) ==> r.cycle == (Cycle::EveryN { current: 0, n }),
            full_compute_every_n_changes is None ==> r.cycle == Cycle::Never,
    {
        UnorderedArrayFold {
            init,
            fold,
            update,
            fold_value: None,
            cycle: Cycle::new(full_compute_every_n_changes),
            inputs: core::marker::PhantomData,
        }
    }

    /// Fold all of `values` into a clone of `init`.
    pub fn full_compute(&self, values: &Vec<I>) -> (r: R)
        requires
            forall|acc: R, i: int| 0 <= i < values@.len() ==> #[trigger] self.fold.requires((acc, &values@[i])),
        ensures
            exists|start: R, accs: Seq<R>|
                cloned(self.init, start) && fold_trace(self.fold, start, values@, accs) && r == accs.last(),
    {
        let mut acc = self.init.clone();
        let ghost s0 = acc;
        let ghost mut accs: Seq<R> = seq![acc];
        let mut k: usize = 0;
        while k < values.len()
            invariant
                k <= values@.len(),
                accs.len() == k + 1,
                accs[0] == s0,
                accs.last() == acc,
                forall|i: int| 0 <= i < k ==> #[trigger] self.fold.ensures((accs[i], &values@[i]), accs[i + 1]),
                forall|acc: R, i: int| 0 <= i < values@.len() ==> #[trigger] self.fold.requires((acc, &values@[i])),
            decreases values@.len() - k,
        {
            let next = (self.fold)(acc, &values[k]);
            proof {
                accs = accs.push(next);
            }
            acc = next;
            k = k + 1;
        }
        proof {
            assert(fold_trace(self.fold, s0, values@, accs));
        }
        acc
    }

    /// The fold's value, computed in full first when none is kept (which restarts the
    /// counter).
    pub fn compute(&mut self, values: &Vec<I>) -> (r: R)
        requires
            forall|acc: R, i: int| 0 <= i < values@.len() ==> #[trigger] old(self).fold.requires((acc, &values@[i])),
        ensures
            final(self).init == old(self).init,
            final(self).fold == old(self).fold,
            final(self).update == old(self).update,
            old(self).fold_value is Some ==> final(self).fold_value == old(self).fold_value && final(self).cycle
                == old(self).cycle,
            old(self).fold_value is None ==> {
                &&& old(self).cycle matches Cycle::EveryN { n, .. } ==> final(self).cycle == (Cycle::EveryN {
                    current: n,
                    n,
                })
                &&& old(self).cycle is Never ==> final(self).cycle == Cycle::Never
                &&& final(self).fold_value matches Some(v) && exists|start: R, accs: Seq<R>|
                    cloned(old(self).init, start) && fold_trace(old(self).fold, start, values@, accs) && v
                        == accs.last()
            },
            final(self).fold_value matches Some(v) && cloned(v, r),
    {
        if self.fold_value.is_none() {
            self.cycle.reset();
            let v = self.full_compute(values);
            self.fold_value = Some(v);
        }
        match &self.fold_value {
            Some(v) => v.clone(),
            None => {
                proof {
                    assert(false);
                }
                self.init.clone()
            },
        }
    }

    /// Input number `k` changed from `old_value_opt` to `new_value`: count the change and,
    /// unless the counter wrapped or nothing is kept, replace its contribution with
    /// `update`; otherwise drop the kept value so that the next computation is a full one.
    pub fn child_changed(&mut self, old_value_opt: Option<I>, new_value: I)
        requires
            old(self).cycle matches Cycle::EveryN { current, .. } ==> current < u32::MAX,
            old(self).fold_value is Some && !spec_cycle_next(old(self).cycle).1 ==> old_value_opt is Some
                && old(self).update.requires((old(self).fold_value.unwrap(), old_value_opt.unwrap(), new_value)),
        ensures
            final(self).init == old(self).init,
            final(self).fold == old(self).fold,
            final(self).update == old(self).update,
            final(self).cycle == spec_cycle_next(old(self).cycle).0,
            spec_cycle_next(old(self).cycle).1 || old(self).fold_value is None ==> final(self).fold_value is None,
            !spec_cycle_next(old(self).cycle).1 && old(self).fold_value is Some ==> (final(self).fold_value matches Some(
                x,
            ) && old(self).update.ensures((old(self).fold_value.unwrap(), old_value_opt.unwrap(), new_value), x)),
    {
        let wrapped = self.cycle.increment();
        let old = self.fold_value.take();
        match old {
            Some(fv) => {
                if wrapped {
                    self.fold_value = None;
                } else {
                    let old_value = old_value_opt.unwrap();
                    let x = (self.update)(fv, old_value, new_value);
                    self.fold_value = Some(x);
                }
            },
            None => {
                self.fold_value = None;
            },
        }
    }
}

} // verus!
