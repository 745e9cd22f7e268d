use vstd::prelude::*;

use crate::graph::{lemma_ids_ok_same_links, lemma_indices_below, Graph, Node};
use crate::public::IncrStatus;
use crate::recompute_heap::RecomputeHeap;
use crate::stabilisation_num::StabilisationNum;

verus! {

/// A variable: a value set from outside, watched by graph node `node`. A value set
/// during a stabilisation waits in `value_set_during_stabilisation` until its end.
pub struct Var<T> {
    pub value: T,
    pub value_set_during_stabilisation: Option<T>,
    pub node: usize,
}

impl Graph {
    /// `self` is `g0` where node `node` may have been set at `set_at` and may have been
    /// queued in the recompute heap.
    pub open spec fn var_set_from(&self, g0: &Graph, node: int, set_at: StabilisationNum) -> bool {
        &&& self.len() == g0.len()
        &&& forall|i: int|
            0 <= i < self.len() && i != node ==> #[trigger] self.nodes@[i] == g0.nodes@[i]
        &&& self.nodes@[node] == (Node {
            height_in_recompute_heap: self.nodes@[node].height_in_recompute_heap,
            set_at,
            ..g0.nodes@[node]
        })
    }
}

impl<T> Var<T> {
    /// A variable holding `value`, watched by node `node`.
    pub fn new(value: T, node: usize) -> (r: Self)
        ensures
            r.value == value,
            r.value_set_during_stabilisation is None,
            r.node == node,
    {
        Var { value, value_set_during_stabilisation: None, node }
    }

    /// A clone of the current value.
    pub fn get(&self) -> (r: T)
        where
            T: Clone,
        ensures
            cloned(self.value, r),
    {
        self.value.clone()
    }

    /// Record that the variable was set during the stabilisation after `now - 1`: the
    /// first set since then marks the watch node as set at `now` and, when the node is
    /// needed and not queued, queues it for recomputation.
    fn did_set_var_while_not_stabilising(&self, g: &mut Graph, rch: &mut RecomputeHeap, now: StabilisationNum)
        requires
            old(g).ids_ok(),
            self.node < old(g).len(),
            old(rch).wf(),
            old(g).rch_consistent(old(rch)),
            old(g).spec_is_necessary(self.node as int) ==> 0 <= old(g).height(self.node as int)
                <= old(rch).max_allowed(),
        ensures
            final(g).ids_ok(),
            final(rch).wf(),
            final(rch).max_allowed() == old(rch).max_allowed(),
            final(g).rch_consistent(final(rch)),
            old(g).nodes@[self.node as int].set_at.0 < now.0 ==> {
                &&& final(g).var_set_from(old(g), self.node as int, now)
                &&& final(rch)@ == if old(g).spec_is_necessary(self.node as int) && !old(rch)@.contains_key(
                    self.node,
                ) {
                    old(rch)@.insert(self.node, old(g).height(self.node as int))
                } else {
                    old(rch)@
                }
            },
            !(old(g).nodes@[self.node as int].set_at.0 < now.0) ==> *final(g) == *old(g) && *final(rch) == *old(rch),
    {
        let node = self.node;
        if g.nodes[node].set_at.0 < now.0 {
            let ghost g0 = *g;
            g.nodes[node].set_at = now;
            proof {
                assert forall|i: int| 0 <= i < g0.len() implies {
                    &&& (#[trigger] g0.nodes@[i]).parents@ == g.nodes@[i].parents@
                    &&& g0.nodes@[i].children@ == g.nodes@[i].children@
                    &&& g0.nodes@[i].rhs_nodes@ == g.nodes@[i].rhs_nodes@
                    &&& g0.nodes@[i].created_in == g.nodes@[i].created_in
                } by {}
                lemma_ids_ok_same_links(&g0, g);
                assert(g.spec_is_necessary(node as int) == g0.spec_is_necessary(node as int));
            }
            if g.is_necessary(node) && g.nodes[node].height_in_recompute_heap < 0 {
                let h = g.nodes[node].height;
                proof {
                    rch.lemma_wf();
                    assert(g.nodes.len() == g.nodes@.len());
                    assert forall|x: usize| #[trigger] rch@.dom().contains(x) implies x < g.nodes.len() by {
                        assert(rch@.contains_key(x));
                    }
                    if rch@.contains_key(node) {
                        assert(g.nodes@[node as int].height_in_recompute_heap == rch@[node]);
                    }
                    lemma_indices_below(rch@.dom(), g.nodes.len(), node);
                }
                let ghost g1 = *g;
                rch.insert(node, h);
                g.nodes[node].height_in_recompute_heap = h;
                proof {
                    assert forall|x: usize| #[trigger] rch@.contains_key(x) implies x < g.len() by {
                        if x != node {
                            assert(old(rch)@.contains_key(x));
                        }
                    }
                    assert forall|i: int| 0 <= i < g.len() implies #[trigger] g.nodes@[i].height_in_recompute_heap == (if rch@.contains_key(
                        i as usize,
                    ) {
                        rch@[i as usize]
                    } else {
                        -1
                    }) by {
                        if i != node as int {
                            assert(g.nodes@[i] == g1.nodes@[i]);
                        }
                    }
                    assert forall|i: int| 0 <= i < g0.len() implies {
                        &&& (#[trigger] g0.nodes@[i]).parents@ == g.nodes@[i].parents@
                        &&& g0.nodes@[i].children@ == g.nodes@[i].children@
                        &&& g0.nodes@[i].rhs_nodes@ == g.nodes@[i].rhs_nodes@
                        &&& g0.nodes@[i].created_in == g.nodes@[i].created_in
                    } by {}
                    lemma_ids_ok_same_links(&g0, g);
                }
            } else {
                proof {
                    rch.lemma_wf();
                    if g.spec_is_necessary(node as int) && !rch@.contains_key(node) {
                        assert(g.nodes@[node as int].height_in_recompute_heap == -1);
                    }
                    if rch@.contains_key(node) {
                        assert(g.nodes@[node as int].height_in_recompute_heap == rch@[node]);
                    }
                }
            }
        }
    }

    /// Set the value outside a stabilisation.
    fn set_var_while_not_stabilising(&mut self, g: &mut Graph, rch: &mut RecomputeHeap, now: StabilisationNum, value: T)
        requires
            old(g).ids_ok(),
            old(self).node < old(g).len(),
            old(rch).wf(),
            old(g).rch_consistent(old(rch)),
            old(g).spec_is_necessary(old(self).node as int) ==> 0 <= old(g).height(old(self).node as int)
                <= old(rch).max_allowed(),
        ensures
            final(self).value == value,
            final(self).value_set_during_stabilisation == old(self).value_set_during_stabilisation,
            final(self).node == old(self).node,
            final(g).ids_ok(),
            final(rch).wf(),
            final(rch).max_allowed() == old(rch).max_allowed(),
            final(g).rch_consistent(final(rch)),
            old(g).nodes@[old(self).node as int].set_at.0 < now.0 ==> {
                &&& final(g).var_set_from(old(g), old(self).node as int, now)
                &&& final(rch)@ == if old(g).spec_is_necessary(old(self).node as int) && !old(rch)@.contains_key(
                    old(self).node,
                ) {
                    old(rch)@.insert(old(self).node, old(g).height(old(self).node as int))
                } else {
                    old(rch)@
                }
            },
            !(old(g).nodes@[old(self).node as int].set_at.0 < now.0) ==> *final(g) == *old(g) && *final(rch)
                == *old(rch),
    {
        self.value = value;
        self.did_set_var_while_not_stabilising(g, rch, now);
    }

    /// Set the value. Outside a stabilisation it takes effect at once (see
    /// [`Self::did_set_var_while_not_stabilising`]); during one it waits for the end, and
    /// the variable's watch node goes on the `pending` list the first time.
    pub fn set(
        &mut self,
        g: &mut Graph,
        rch: &mut RecomputeHeap,
        status: IncrStatus,
        now: StabilisationNum,
        pending: &mut Vec<usize>,
        value: T,
    )
        requires
            old(g).ids_ok(),
            old(self).node < old(g).len(),
            old(rch).wf(),
            old(g).rch_consistent(old(rch)),
            old(g).spec_is_necessary(old(self).node as int) ==> 0 <= old(g).height(old(self).node as int)
                <= old(rch).max_allowed(),
        ensures
            final(self).node == old(self).node,
            final(g).ids_ok(),
            final(rch).wf(),
            final(rch).max_allowed() == old(rch).max_allowed(),
            final(g).rch_consistent(final(rch)),
            status == IncrStatus::Stabilising ==> {
                &&& final(self).value == old(self).value
                &&& final(self).value_set_during_stabilisation == Some(value)
                &&& final(pending)@ == if old(self).value_set_during_stabilisation is None {
                    old(pending)@.push(old(self).node)
                } else {
                    old(pending)@
                }
                &&& *final(g) == *old(g)
                &&& *final(rch) == *old(rch)
            },
            status != IncrStatus::Stabilising ==> {
                &&& final(self).value == value
                &&& final(self).value_set_during_stabilisation == old(self).value_set_during_stabilisation
                &&& final(pending)@ == old(pending)@
                &&& old(g).nodes@[old(self).node as int].set_at.0 < now.0 ==> {
                    &&& final(g).var_set_from(old(g), old(self).node as int, now)
                    &&& final(rch)@ == if old(g).spec_is_necessary(old(self).node as int) && !old(
                        rch,
                    )@.contains_key(old(self).node) {
                        old(rch)@.insert(old(self).node, old(g).height(old(self).node as int))
                    } else {
                        old(rch)@
                    }
                }
                &&& !(old(g).nodes@[old(self).node as int].set_at.0 < now.0) ==> *final(g) == *old(g)
                    && *final(rch) == *old(rch)
            },
    {
        match status {
            IncrStatus::RunningOnUpdateHandlers | IncrStatus::NotStabilising => {
                self.set_var_while_not_stabilising(g, rch, now, value);
            },
            IncrStatus::Stabilising => {
                if self.value_set_during_stabilisation.is_none() {
                    pending.push(self.node);
                }
                self.value_set_during_stabilisation = Some(value);
            },
        }
    }

    /// Put `value` in place of the current value, which comes back, as a cell's
    /// `replace` does. Outside a stabilisation the new value takes effect at once (see
    /// `set`); during one it waits for the end as `set` says, and what comes back is the
    /// value already waiting, or else a clone of the current value.
    pub fn replace(
        &mut self,
        g: &mut Graph,
        rch: &mut RecomputeHeap,
        status: IncrStatus,
        now: StabilisationNum,
        pending: &mut Vec<usize>,
        value: T,
    ) -> (r: T)
        where
            T: Clone,
        requires
            old(g).ids_ok(),
            old(self).node < old(g).len(),
            old(rch).wf(),
            old(g).rch_consistent(old(rch)),
            old(g).spec_is_necessary(old(self).node as int) ==> 0 <= old(g).height(old(self).node as int)
                <= old(rch).max_allowed(),
        ensures
            final(self).node == old(self).node,
            final(g).ids_ok(),
            final(rch).wf(),
            final(rch).max_allowed() == old(rch).max_allowed(),
            final(g).rch_consistent(final(rch)),
            status == IncrStatus::Stabilising ==> {
                &&& final(self).value == old(self).value
                &&& final(self).value_set_during_stabilisation == Some(value)
                &&& final(pending)@ == if old(self).value_set_during_stabilisation is None {
                    old(pending)@.push(old(self).node)
                } else {
                    old(pending)@
                }
                &&& *final(g) == *old(g)
                &&& *final(rch) == *old(rch)
                &&& match old(self).value_set_during_stabilisation {
                    Some(d) => r == d,
                    None => cloned(old(self).value, r),
                }
            },
            status != IncrStatus::Stabilising ==> {
                &&& r == old(self).value
                &&& final(self).value == value
                &&& final(self).value_set_during_stabilisation == old(self).value_set_during_stabilisation
                &&& final(pending)@ == old(pending)@
                &&& old(g).nodes@[old(self).node as int].set_at.0 < now.0 ==> {
                    &&& final(g).var_set_from(old(g), old(self).node as int, now)
                    &&& final(rch)@ == if old(g).spec_is_necessary(old(self).node as int) && !old(
                        rch,
                    )@.contains_key(old(self).node) {
                        old(rch)@.insert(old(self).node, old(g).height(old(self).node as int))
                    } else {
                        old(rch)@
                    }
                }
                &&& !(old(g).nodes@[old(self).node as int].set_at.0 < now.0) ==> *final(g) == *old(g)
                    && *final(rch) == *old(rch)
            },
    {
        match status {
            IncrStatus::RunningOnUpdateHandlers | IncrStatus::NotStabilising => {
                let mut v = value;
                std::mem::swap(&mut self.value, &mut v);
                self.did_set_var_while_not_stabilising(g, rch, now);
                v
            },
            IncrStatus::Stabilising => {
                let r = match self.value_set_during_stabilisation.take() {
                    Some(d) => d,
                    None => {
                        pending.push(self.node);
                        self.value.clone()
                    },
                };
                self.value_set_during_stabilisation = Some(value);
                r
            },
        }
    }

    /// At the end of a stabilisation: a value set during it takes effect now, as a set
    /// between stabilisations does: the watch node is marked set at `now` and, when it is
    /// needed and not queued, queued for recomputation.
    pub fn set_var_stabilise_end(&mut self, g: &mut Graph, rch: &mut RecomputeHeap, now: StabilisationNum)
        requires
            old(g).ids_ok(),
            old(self).node < old(g).len(),
            old(rch).wf(),
            old(g).rch_consistent(old(rch)),
            old(g).spec_is_necessary(old(self).node as int) ==> 0 <= old(g).height(old(self).node as int)
                <= old(rch).max_allowed(),
        ensures
            final(self).node == old(self).node,
            final(self).value_set_during_stabilisation is None,
            final(g).ids_ok(),
            final(rch).wf(),
            final(rch).max_allowed() == old(rch).max_allowed(),
            final(g).rch_consistent(final(rch)),
            old(self).value_set_during_stabilisation is None ==> final(self).value == old(self).value && *final(g)
                == *old(g) && *final(rch) == *old(rch),
            old(self).value_set_during_stabilisation matches Some(v) ==> {
                &&& final(self).value == v
                &&& old(g).nodes@[old(self).node as int].set_at.0 < now.0 ==> {
                    &&& final(g).var_set_from(old(g), old(self).node as int, now)
                    &&& final(rch)@ == if old(g).spec_is_necessary(old(self).node as int) && !old(
                        rch,
                    )@.contains_key(old(self).node) {
                        old(rch)@.insert(old(self).node, old(g).height(old(self).node as int))
                    } else {
                        old(rch)@
                    }
                }
                &&& !(old(g).nodes@[old(self).node as int].set_at.0 < now.0) ==> *final(g) == *old(g)
                    && *final(rch) == *old(rch)
            },
    {
        let v_opt = self.value_set_during_stabilisation.take();
        match v_opt {
            Some(v) => {
                self.set_var_while_not_stabilising(g, rch, now, v);
            },
            None => {},
        }
    }

    /// Replace the value by `f` of it. Outside a stabilisation it takes effect at once
    /// (see `set`); during one, `f` is applied to the value waiting for the end if there
    /// is one, and otherwise to a clone of the current value, which then waits for the
    /// end while the watch node goes on the `pending` list.
    pub fn update<F: FnOnce(T) -> T>(
        &mut self,
        g: &mut Graph,
        rch: &mut RecomputeHeap,
        status: IncrStatus,
        now: StabilisationNum,
        pending: &mut Vec<usize>,
        f: F,
    )
        where
            T: Default + Clone,
        requires
            old(g).ids_ok(),
            old(self).node < old(g).len(),
            old(rch).wf(),
            old(g).rch_consistent(old(rch)),
            old(g).spec_is_necessary(old(self).node as int) ==> 0 <= old(g).height(old(self).node as int)
                <= old(rch).max_allowed(),
            forall|t: T| f.requires((t,)),
        ensures
            final(self).node == old(self).node,
            final(g).ids_ok(),
            final(rch).wf(),
            final(rch).max_allowed() == old(rch).max_allowed(),
            final(g).rch_consistent(final(rch)),
            status == IncrStatus::Stabilising ==> {
                &&& final(self).value == old(self).value
                &&& *final(g) == *old(g)
                &&& *final(rch) == *old(rch)
                &&& final(self).value_set_during_stabilisation matches Some(v) && match old(
                    self,
                ).value_set_during_stabilisation {
                    Some(d) => f.ensures((d,), v),
                    None => exists|c: T| cloned(old(self).value, c) && f.ensures((c,), v),
                }
                &&& final(pending)@ == if old(self).value_set_during_stabilisation is None {
                    old(pending)@.push(old(self).node)
                } else {
                    old(pending)@
                }
            },
            status != IncrStatus::Stabilising ==> {
                &&& f.ensures((old(self).value,), final(self).value)
                &&& final(self).value_set_during_stabilisation == old(self).value_set_during_stabilisation
                &&& final(pending)@ == old(pending)@
                &&& old(g).nodes@[old(self).node as int].set_at.0 < now.0 ==> {
                    &&& final(g).var_set_from(old(g), old(self).node as int, now)
                    &&& final(rch)@ == if old(g).spec_is_necessary(old(self).node as int) && !old(
                        rch,
                    )@.contains_key(old(self).node) {
                        old(rch)@.insert(old(self).node, old(g).height(old(self).node as int))
                    } else {
                        old(rch)@
                    }
                }
                &&& !(old(g).nodes@[old(self).node as int].set_at.0 < now.0) ==> *final(g) == *old(g)
                    && *final(rch) == *old(rch)
            },
    {
        match status {
            IncrStatus::RunningOnUpdateHandlers | IncrStatus::NotStabilising => {
                let mut taken = T::default();
                core::mem::swap(&mut taken, &mut self.value);
                self.value = f(taken);
                self.did_set_var_while_not_stabilising(g, rch, now);
            },
            IncrStatus::Stabilising => {
                match self.value_set_during_stabilisation.take() {
                    Some(delayed) => {
                        self.value_set_during_stabilisation = Some(f(delayed));
                    },
                    None => {
                        pending.push(self.node);
                        let current = self.value.clone();
                        let ghost c = current;
                        let v = f(current);
                        proof {
                            assert(cloned(self.value, c) && f.ensures((c,), v));
                        }
                        self.value_set_during_stabilisation = Some(v);
                    },
                }
            },
        }
    }
}

impl Graph {
    /// Every needed node has a height the recompute heap can hold.
    pub open spec fn placed_within(&self, max: int) -> bool {
        forall|i: int| 0 <= i < self.len() && #[trigger] self.spec_is_necessary(i) ==> 0 <= self.height(i) <= max
    }
}

/// The variable of `vars` watched by node `node`, if there is one.
pub fn find_var<T>(vars: &Vec<Var<T>>, node: usize) -> (r: Option<usize>)
    ensures
        match r {
            Some(j) => j < vars@.len() && vars@[j as int].node == node,
            None => forall|j: int| 0 <= j < vars@.len() ==> #[trigger] vars@[j].node != node,
        },
{
    let n = vars.len();
    let mut j: usize = 0;
    while j < n
        invariant
            n == vars@.len(),
            j <= n,
            forall|k: int| 0 <= k < j ==> #[trigger] vars@[k].node != node,
        decreases n - j,
    {
        if vars[j].node == node {
            return Some(j);
        }
        j = j + 1;
    }
    None
}

/// The end of stabilisation `old(num)`: the counter moves on to the next stabilisation;
/// each variable of `vars` set while stabilising (the nodes watching them are on
/// `set_during`, latest on top) takes its pending value now, as a set between
/// stabilisations would (see [`Var::set_var_stabilise_end`]), so the watch node of each
/// such variable that is needed ends up in the recompute heap for the next
/// stabilisation; a node that no variable of `vars` watches any more is skipped. The nodes waiting on `handle_after` for their
/// update handlers then move, in order, to `run_queue`, the handlers to run next.
pub fn stabilise_end<T>(
    g: &mut Graph,
    rch: &mut RecomputeHeap,
    num: &mut StabilisationNum,
    vars: &mut Vec<Var<T>>,
    set_during: &mut Vec<usize>,
    handle_after: &mut Vec<usize>,
    run_queue: &mut Vec<usize>,
)
    requires
        old(num).0 < i32::MAX,
        old(g).ids_ok(),
        old(rch).wf(),
        old(g).rch_consistent(old(rch)),
        old(g).placed_within(old(rch).max_allowed()),
        forall|j: int| 0 <= j < old(vars)@.len() ==> #[trigger] old(vars)@[j].node < old(g).len(),
        forall|j: int, k: int|
            0 <= j < old(vars)@.len() && 0 <= k < old(vars)@.len() && j != k ==> #[trigger] old(vars)@[j].node
                != #[trigger] old(vars)@[k].node,
        forall|i: int| 0 <= i < old(g).len() ==> (#[trigger] old(g).nodes@[i]).set_at.0 <= old(num).0,
    ensures
        final(num).0 == old(num).0 + 1,
        final(set_during)@.len() == 0,
        final(handle_after)@.len() == 0,
        final(run_queue)@ == old(run_queue)@ + old(handle_after)@,
        final(vars)@.len() == old(vars)@.len(),
        forall|j: int| 0 <= j < final(vars)@.len() ==> #[trigger] final(vars)@[j].node == old(vars)@[j].node,
        forall|j: int|
            0 <= j < final(vars)@.len() && !old(set_during)@.contains(old(vars)@[j].node)
                ==> #[trigger] final(vars)@[j] == old(vars)@[j],
        forall|j: int|
            0 <= j < final(vars)@.len() && old(set_during)@.contains(old(vars)@[j].node) ==> (
            #[trigger] final(vars)@[j]).value_set_during_stabilisation is None,
        forall|j: int|
            0 <= j < final(vars)@.len() && old(set_during)@.contains(old(vars)@[j].node)
                ==> match old(vars)@[j].value_set_during_stabilisation {
                Some(v) => (#[trigger] final(vars)@[j]).value == v && final(g).nodes@[old(vars)@[j].node as int].set_at
                    == *final(num) && (old(g).spec_is_necessary(old(vars)@[j].node as int) ==> final(rch)@.contains_key(
                    old(vars)@[j].node,
                )),
                None => final(vars)@[j] == old(vars)@[j],
            },
        forall|i: int| 0 <= i < final(g).len() ==> #[trigger] final(g).spec_is_necessary(i) == old(g).spec_is_necessary(i),
        forall|n: usize| #[trigger] old(rch)@.contains_key(n) ==> final(rch)@.contains_key(n),
        final(g).ids_ok(),
        final(g).len() == old(g).len(),
        final(rch).wf(),
        final(rch).max_allowed() == old(rch).max_allowed(),
        final(g).rch_consistent(final(rch)),
        final(g).placed_within(final(rch).max_allowed()),
{
    *num = num.add1();
    let now = *num;
    let ghost g0 = *g;
    let ghost v0 = vars@;
    let ghost sd0 = set_during@;
    let vlen = vars.len();
    while set_during.len() > 0
        invariant
            vlen == vars@.len(),
            now.0 == old(num).0 + 1,
            g.ids_ok(),
            g.len() == g0.len(),
            rch.wf(),
            rch.max_allowed() == old(rch).max_allowed(),
            g.rch_consistent(rch),
            g.placed_within(rch.max_allowed()),
            vars@.len() == v0.len(),
            forall|j: int| 0 <= j < vars@.len() ==> #[trigger] vars@[j].node == v0[j].node,
            forall|j: int, k: int|
                0 <= j < v0.len() && 0 <= k < v0.len() && j != k ==> #[trigger] v0[j].node != #[trigger] v0[k].node,
            forall|j: int| 0 <= j < v0.len() ==> #[trigger] v0[j].node < g0.len(),
            set_during@ == sd0.subrange(0, set_during@.len() as int),
            set_during@.len() <= sd0.len(),
            forall|j: int|
                0 <= j < vars@.len() && !sd0.subrange(set_during@.len() as int, sd0.len() as int).contains(v0[j].node)
                    ==> #[trigger] vars@[j] == v0[j],
            forall|j: int|
                0 <= j < vars@.len() && sd0.subrange(set_during@.len() as int, sd0.len() as int).contains(v0[j].node)
                    ==> (#[trigger] vars@[j]).value_set_during_stabilisation is None,
            forall|j: int|
                0 <= j < vars@.len() && sd0.subrange(set_during@.len() as int, sd0.len() as int).contains(v0[j].node)
                    ==> match v0[j].value_set_during_stabilisation {
                    Some(v) => (#[trigger] vars@[j]).value == v && g.nodes@[v0[j].node as int].set_at == now
                        && (g0.spec_is_necessary(v0[j].node as int) ==> rch@.contains_key(v0[j].node)),
                    None => vars@[j] == v0[j],
                },
            forall|i: int| 0 <= i < g.len() ==> #[trigger] g.spec_is_necessary(i) == g0.spec_is_necessary(i),
            forall|n: usize| #[trigger] old(rch)@.contains_key(n) ==> rch@.contains_key(n),
            forall|j: int|
                0 <= j < vars@.len() && !sd0.subrange(set_during@.len() as int, sd0.len() as int).contains(v0[j].node)
                    ==> (#[trigger] g.nodes@[v0[j].node as int]).set_at.0 <= old(num).0,
        decreases set_during@.len(),
    {
        let ghost len0 = set_during@.len();
        let ghost done0 = sd0.subrange(len0 as int, sd0.len() as int);
        let nd = set_during.pop().unwrap();
        let ghost done1 = sd0.subrange(set_during@.len() as int, sd0.len() as int);
        proof {
            assert(nd == sd0[set_during@.len() as int]);
            assert(done1 =~= seq![nd] + done0);
            assert forall|x: usize| #[trigger] done1.contains(x) <==> (x == nd || done0.contains(x)) by {
                if done1.contains(x) {
                    let k = choose|k: int| 0 <= k < done1.len() && done1[k] == x;
                    if k > 0 {
                        assert(done0[k - 1] == x);
                    }
                }
                if done0.contains(x) {
                    let k = choose|k: int| 0 <= k < done0.len() && done0[k] == x;
                    assert(done1[k + 1] == x);
                }
                if x == nd {
                    assert(done1[0] == x);
                }
            }
            assert(set_during@ == sd0.subrange(0, set_during@.len() as int));
        }
        match find_var(vars, nd) {
            None => {
                proof {
                    assert forall|j: int| 0 <= j < vars@.len() implies (done1.contains(#[trigger] v0[j].node)
                        <==> done0.contains(v0[j].node)) by {
                        assert(vars@[j].node != nd);
                    }
                }
            },
            Some(i) => {
                let ghost gb = *g;
                let ghost vb = vars@;
                let ghost rb = rch@;
                proof {
                    assert(vb[i as int].node == v0[i as int].node);
                    if vb[i as int].value_set_during_stabilisation is Some {
                        assert(!done0.contains(v0[i as int].node));
                        assert(gb.nodes@[v0[i as int].node as int].set_at.0 < now.0);
                    }
                }
                vars[i].set_var_stabilise_end(g, rch, now);
                proof {
                    let n = v0[i as int].node as int;
                    assert(vars@ == vb.update(i as int, vars@[i as int]));
                    assert forall|k: int| 0 <= k < g.len() && k != n implies #[trigger] g.nodes@[k] == gb.nodes@[k] by {}
                    assert forall|k: int| 0 <= k < g.len() implies #[trigger] g.spec_is_necessary(k) == gb.spec_is_necessary(k)
                        && g.height(k) == gb.height(k) by {
                        assert(g.nodes@[k].parents == gb.nodes@[k].parents);
                    }
                    assert forall|k: int| 0 <= k < g.len() && #[trigger] g.spec_is_necessary(k) implies 0 <= g.height(k)
                        <= rch.max_allowed() by {
                        assert(gb.spec_is_necessary(k));
                    }
                    assert forall|j: int|
                        0 <= j < vars@.len() && !done1.contains(v0[j].node) implies #[trigger] vars@[j] == v0[j] by {
                        assert(j != i as int);
                        assert(!done0.contains(v0[j].node));
                    }
                    assert forall|j: int|
                        0 <= j < vars@.len() && done1.contains(v0[j].node) implies (#[trigger] vars@[j]).value_set_during_stabilisation
                            is None by {
                        if j != i as int {
                            assert(v0[j].node != nd);
                            assert(done0.contains(v0[j].node));
                        }
                    }
                    assert forall|j: int|
                        0 <= j < vars@.len() && done1.contains(v0[j].node) implies match v0[j].value_set_during_stabilisation {
                            Some(v) => (#[trigger] vars@[j]).value == v && g.nodes@[v0[j].node as int].set_at == now,
                            None => vars@[j] == v0[j],
                        } by {
                        if j != i as int {
                            assert(v0[j].node != nd);
                            assert(done0.contains(v0[j].node));
                            assert(g.nodes@[v0[j].node as int] == gb.nodes@[v0[j].node as int]);
                            if vb[i as int].value_set_during_stabilisation is Some {
                                assert(rb.contains_key(v0[j].node) ==> rch@.contains_key(v0[j].node));
                            }
                        } else if done0.contains(v0[j].node) {
                            assert(vb[j].value_set_during_stabilisation is None);
                        } else {
                            assert(vb[j] == v0[j]);
                        }
                    }
                    assert forall|j: int|
                        0 <= j < vars@.len() && !done1.contains(v0[j].node) implies (#[trigger] g.nodes@[v0[j].node as int]).set_at.0
                            <= old(num).0 by {
                        assert(j != i as int);
                        assert(!done0.contains(v0[j].node));
                        assert(v0[j].node != v0[i as int].node);
                    }
                }
            },
        }
    }
    proof {
        assert(sd0.subrange(set_during@.len() as int, sd0.len() as int) =~= sd0);
    }
    run_queue.append(handle_after);
}

} // verus!
