use vstd::prelude::*;

use crate::adjust_heights_heap::AdjustHeightsHeap;
use crate::cutoff::Cutoff;
use crate::graph::{Graph, Kind, Node};
use crate::invalidity::stack_ok;
use crate::necessity::lemma_wf_same_links;
use crate::public::{bumped, Stats};
use crate::recompute_heap::RecomputeHeap;
use crate::stabilisation_num::StabilisationNum;

verus! {

/// What running a node's own function gave, handed back to the engine by whoever runs
/// it.
pub enum Recomputed<T> {
    /// A new value, which the node's cutoff compares with the old one.
    Value(T),
    /// A new value and whether it changed, as the node decided itself.
    Manual(Option<T>, bool),
    /// For a bind's left-hand-side change node: the bind's main node, the right-hand
    /// side the bind's function returned, and the nodes it made in the bind's scope.
    BindRhs { main: usize, rhs: usize, created: Vec<usize> },
    /// The node found itself invalid (an expert node whose check failed).
    Invalid,
}

/// Why a recomputation step stopped part-way.
#[derive(Copy, Clone, PartialEq, Eq, Debug)]
pub enum StepError {
    /// Switching the bind to its new right-hand side was refused (see
    /// [`Graph::bind_lhs_changed`]).
    BindRefused,
    /// The change node itself was invalidated while its bind switched.
    ChangeNodeInvalidated,
    /// Invalidating the node was refused (see [`Graph::invalidate_node`]).
    InvalidationRefused,
}

/// Every parent of a node is needed, so it has a height, at most `max`.
proof fn lemma_parents_placed(g: &Graph, n: int, max: int)
    requires
        g.wf(),
        g.necessary_placed(),
        g.parents_needed(),
        g.heights_within(max),
        0 <= n < g.len(),
    ensures
        forall|pi: int|
            0 <= pi < g.parents(n).len() ==> 0 <= #[trigger] g.height(g.parents(n)[pi] as int) <= max,
{
    assert forall|pi: int| 0 <= pi < g.parents(n).len() implies 0 <= #[trigger] g.height(g.parents(n)[pi] as int)
        <= max by {
        assert(g.child_link_ok(n, pi));
        let p = g.parents(n)[pi] as int;
        let ci = g.mci(n)[pi] as int;
        assert(g.is_registered(n, ci, p));
        assert(p < g.len());
    }
}

/// Only change and recomputation times and heap positions moved: every structural
/// invariant carries over.
proof fn lemma_stamps_only(g0: &Graph, g: &Graph, max: int)
    requires
        g0.wf(),
        g0.inputs_distinct(),
        g0.necessary_placed(),
        g0.parents_needed(),
        g0.heights_within(max),
        g.len() == g0.len(),
        forall|i: int|
            0 <= i < g.len() ==> #[trigger] g.nodes@[i] == (Node {
                height_in_recompute_heap: g.nodes@[i].height_in_recompute_heap,
                changed_at: g.nodes@[i].changed_at,
                recomputed_at: g.nodes@[i].recomputed_at,
                ..g0.nodes@[i]
            }),
    ensures
        g.wf(),
        g.inputs_distinct(),
        g.necessary_placed(),
        g.parents_needed(),
        g.heights_within(max),
        forall|i: int| 0 <= i < g.len() ==> #[trigger] g.children(i) == g0.children(i),
{
    assert forall|i: int| 0 <= i < g.len() implies {
        &&& (#[trigger] g.nodes@[i]).parents@ == g0.nodes@[i].parents@
        &&& g.nodes@[i].children@ == g0.nodes@[i].children@
        &&& g.nodes@[i].my_parent_index_in_child_at_index@ == g0.nodes@[i].my_parent_index_in_child_at_index@
        &&& g.nodes@[i].my_child_index_in_parent_at_index@ == g0.nodes@[i].my_child_index_in_parent_at_index@
        &&& g.nodes@[i].rhs_nodes@ == g0.nodes@[i].rhs_nodes@
        &&& g.nodes@[i].created_in == g0.nodes@[i].created_in
        &&& g.spec_is_necessary(i) == g0.spec_is_necessary(i)
        &&& g.height(i) == g0.height(i)
        &&& g.children(i) == g0.children(i)
    } by {
        assert(g.nodes@[i] == (Node {
            height_in_recompute_heap: g.nodes@[i].height_in_recompute_heap,
            changed_at: g.nodes@[i].changed_at,
            recomputed_at: g.nodes@[i].recomputed_at,
            ..g0.nodes@[i]
        }));
    }
    lemma_wf_same_links(g0, g);
    assert forall|p: int| 0 <= p < g.len() implies {
        &&& (#[trigger] g.children(p)).no_duplicates()
        &&& forall|ci: int| 0 <= ci < g.children(p).len() ==> g.children(p)[ci] != p
    } by {
        assert(g0.children(p).no_duplicates());
    }
    assert forall|i: int| 0 <= i < g.len() implies -1 <= #[trigger] g.height(i) <= max by {
        assert(-1 <= g0.height(i) <= max);
    }
}

impl Graph {
    /// One recomputation of the valid node `node` during stabilisation `now`, given
    /// what running its function gave (`outcome`); the node to recompute next comes
    /// back, with whether `node` changed.
    ///
    /// - `Value(v)`: the node holds `v`, and changed as its `cutoff` decides from its old
    ///   value and `v`.
    /// - `Manual(v, c)`: the node holds `v`, and changed exactly when `c`.
    /// - `BindRhs { main, rhs, created }`: the bind switches to `rhs`, invalidating what
    ///   its scope made the previous time, `created` becomes what the scope holds, and
    ///   the change node counts as changed.
    /// - `Invalid`: the node is invalidated; the nodes to revisit wait on `stack` for
    ///   `propagate_invalidity`.
    ///
    /// Each changed node's parents are scheduled as [`Self::recompute_one`] does.
    #[verifier::spinoff_prover]
    #[verifier::rlimit(60)]
    pub fn recompute_step<T: PartialEq, F: Fn(&T, &T) -> bool>(
        &mut self,
        ahh: &mut AdjustHeightsHeap,
        rch: &mut RecomputeHeap,
        stats: &mut Stats,
        handle_after: &mut Vec<usize>,
        stack: &mut Vec<usize>,
        values: &mut Vec<Option<T>>,
        cutoff: &Cutoff<T, F>,
        node: usize,
        outcome: Recomputed<T>,
        now: StabilisationNum,
    ) -> (r: Result<(Option<usize>, bool), StepError>)
        requires
            old(self).wf(),
            old(self).inputs_distinct(),
            old(self).necessary_placed(),
            old(self).parents_needed(),
            old(self).heights_within(old(ahh).max_allowed()),
            old(ahh).max_allowed() <= old(rch).max_allowed(),
            old(rch).wf(),
            old(self).rch_consistent(old(rch)),
            old(ahh).wf(),
            stack_ok(old(stack)@, old(self)),
            node < old(self).len(),
            old(self).nodes@[node as int].is_valid,
            old(values)@.len() == old(self).len(),
            !(cutoff is __Phantom),
            outcome matches Recomputed::Value(v) ==> (old(values)@[node as int] matches Some(o) ==> (
            cutoff matches Cutoff::Custom(f) ==> f.requires((&o, &v)))),
            outcome matches Recomputed::BindRhs { main, rhs, created } ==> {
                &&& main < old(self).len()
                &&& rhs < old(self).len()
                &&& rhs != main
                &&& rhs != node
                &&& old(self).nodes@[node as int].kind == Kind::BindLhsChange
                &&& old(self).nodes@[main as int].kind == Kind::BindMain
                &&& (old(self).children(main as int).len() == 1 || old(self).children(main as int).len() == 2)
                &&& old(self).children(main as int)[0] == node
                &&& forall|j: int| 0 <= j < created@.len() ==> #[trigger] created@[j] < old(self).len()
            },
        ensures
            final(self).wf(),
            final(self).inputs_distinct(),
            final(self).heights_within(final(ahh).max_allowed()),
            final(self).len() == old(self).len(),
            final(rch).wf(),
            final(rch).max_allowed() == old(rch).max_allowed(),
            final(self).rch_consistent(final(rch)),
            final(ahh).wf(),
            final(ahh).max_allowed() == old(ahh).max_allowed(),
            stack_ok(final(stack)@, final(self)),
            final(values)@.len() == old(values)@.len(),
            r is Ok ==> final(self).necessary_placed() && final(self).parents_needed(),
            r matches Ok((next, changed)) ==> {
                &&& (outcome is Invalid ==> !final(self).nodes@[node as int].is_valid && !final(rch)@.contains_key(node)
                    && next is None && !changed)
                &&& (!(outcome is Invalid) ==> {
                    &&& final(self).nodes@[node as int].recomputed_at == now
                    &&& changed ==> final(self).nodes@[node as int].changed_at == now
                    &&& forall|pi: int|
                        0 <= pi < final(self).parents(node as int).len() && changed ==> (#[trigger] final(self).parents(node as int)[pi] == next->0 && next is Some) || final(rch)@.contains_key(
                            final(self).parents(node as int)[pi],
                        )
                    &&& next matches Some(p) ==> changed && final(self).parents(node as int).len() > 0 && p
                        == final(self).parents(node as int)[0]
                })
            },
            outcome matches Recomputed::Value(v) ==> r matches Ok((next, changed)) && cutoff.decides_change(
                old(values)@[node as int],
                v,
                changed,
            ) && final(values)@ == old(values)@.update(node as int, Some(v)) && final(self).nodes@[node as int].changed_at
                == (if changed {
                now
            } else {
                old(self).nodes@[node as int].changed_at
            }) && final(stats).recomputed == bumped(old(stats).recomputed),
            outcome matches Recomputed::Manual(v, c) ==> r matches Ok((next, changed)) && changed == c
                && final(values)@ == old(values)@.update(node as int, v) && final(self).nodes@[node as int].changed_at
                == (if c {
                now
            } else {
                old(self).nodes@[node as int].changed_at
            }) && final(stats).recomputed == bumped(old(stats).recomputed),
            outcome matches Recomputed::BindRhs { main, rhs, created } ==> {
                &&& final(values)@ == old(values)@
                &&& r matches Ok((next, changed)) ==> {
                    &&& changed
                    &&& final(self).children(main as int) == seq![node, rhs]
                    &&& final(self).nodes@[node as int].rhs_nodes@ == created@
                    &&& forall|j: int|
                        0 <= j < old(self).nodes@[node as int].rhs_nodes@.len() ==> !final(self).nodes@[#[trigger] old(self).nodes@[node as int].rhs_nodes@[j] as int].is_valid
                    &&& (old(self).children(main as int).len() == 2 && old(self).children(main as int)[1] != rhs
                        ==> !final(self).parents(old(self).children(main as int)[1] as int).contains(main))
                }
                &&& r is Err ==> r == Err::<(Option<usize>, bool), StepError>(StepError::BindRefused) || r
                    == Err::<(Option<usize>, bool), StepError>(StepError::ChangeNodeInvalidated)
            },
            outcome is Invalid ==> final(values)@ == old(values)@ && (r is Err ==> r == Err::<
                (Option<usize>, bool),
                StepError,
            >(StepError::InvalidationRefused)),
    {
        let ghost g0 = *self;
        match outcome {
            Recomputed::Value(v) => {
                proof {
                    lemma_parents_placed(self, node as int, ahh.max_allowed());
                }
                let (next, changed) = self.recompute_one_value(rch, stats, handle_after, values, cutoff, node, v, now);
                proof {
                    lemma_stamps_only(&g0, self, ahh.max_allowed());
                    assert forall|k: int| 0 <= k < stack@.len() implies #[trigger] stack@[k] < self.len() by {}
                    assert forall|pi: int|
                        0 <= pi < self.parents(node as int).len() && changed implies (#[trigger] self.parents(
                            node as int,
                        )[pi] == next->0 && next is Some) || rch@.contains_key(self.parents(node as int)[pi]) by {
                        assert(self.parents(node as int) == g0.parents(node as int));
                        assert(g0.parents(node as int).contains(g0.parents(node as int)[pi]));
                    }
                }
                Ok((next, changed))
            },
            Recomputed::Manual(v, c) => {
                proof {
                    lemma_parents_placed(self, node as int, ahh.max_allowed());
                }
                values.set(node, v);
                let next = self.recompute_one(rch, stats, handle_after, node, c, now);
                proof {
                    lemma_stamps_only(&g0, self, ahh.max_allowed());
                    assert forall|k: int| 0 <= k < stack@.len() implies #[trigger] stack@[k] < self.len() by {}
                    assert forall|pi: int|
                        0 <= pi < self.parents(node as int).len() && c implies (#[trigger] self.parents(node as int)[pi]
                            == next->0 && next is Some) || rch@.contains_key(self.parents(node as int)[pi]) by {
                        assert(self.parents(node as int) == g0.parents(node as int));
                        assert(g0.parents(node as int).contains(g0.parents(node as int)[pi]));
                    }
                }
                Ok((next, c))
            },
            Recomputed::BindRhs { main, rhs, created } => {
                if !self.bind_lhs_changed(ahh, rch, stack, stats, handle_after, node, main, rhs, created, now) {
                    return Err(StepError::BindRefused);
                }
                if !self.nodes[node].is_valid {
                    return Err(StepError::ChangeNodeInvalidated);
                }
                let ghost g1 = *self;
                proof {
                    lemma_parents_placed(self, node as int, ahh.max_allowed());
                }
                let next = self.recompute_one(rch, stats, handle_after, node, true, now);
                proof {
                    lemma_stamps_only(&g1, self, ahh.max_allowed());
                    assert forall|k: int| 0 <= k < stack@.len() implies #[trigger] stack@[k] < self.len() by {}
                    assert forall|pi: int|
                        0 <= pi < self.parents(node as int).len() implies (#[trigger] self.parents(node as int)[pi]
                            == next->0 && next is Some) || rch@.contains_key(self.parents(node as int)[pi]) by {
                        assert(self.parents(node as int) == g1.parents(node as int));
                        assert(g1.parents(node as int).contains(g1.parents(node as int)[pi]));
                    }
                    assert(self.children(main as int) == g1.children(main as int));
                    assert(self.nodes@[node as int].rhs_nodes@ == g1.nodes@[node as int].rhs_nodes@);
                    assert forall|j: int|
                        0 <= j < g0.nodes@[node as int].rhs_nodes@.len() implies !self.nodes@[#[trigger] g0.nodes@[
                        node as int].rhs_nodes@[j] as int].is_valid by {
                        let x = g0.nodes@[node as int].rhs_nodes@[j];
                        assert(x < g0.len());
                        assert(!g1.nodes@[x as int].is_valid);
                    }
                    if g0.children(main as int).len() == 2 && g0.children(main as int)[1] != rhs {
                        assert(g0.children(main as int)[1] < g0.len());
                        assert(self.parents(g0.children(main as int)[1] as int) == g1.parents(
                            g0.children(main as int)[1] as int,
                        ));
                    }
                }
                Ok((next, true))
            },
            Recomputed::Invalid => {
                if !self.invalidate_node(ahh, rch, stack, stats, handle_after, now, node) {
                    return Err(StepError::InvalidationRefused);
                }
                proof {
                    assert forall|c: int, ci: int, p: int|
                        0 <= p < self.len() && #[trigger] self.is_registered(c, ci, p) implies self.spec_is_necessary(p) by {
                        assert(g0.is_registered(c, ci, p));
                        assert(g0.parent_fine(p));
                    }
                }
                Ok((None, false))
            },
        }
    }
}

} // verus!
