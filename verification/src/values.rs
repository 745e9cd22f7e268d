use vstd::prelude::*;

use crate::cutoff::Cutoff;
use crate::graph::{Graph, Node};
use crate::public::{bumped, Stats};
use crate::recompute_heap::RecomputeHeap;
use crate::stabilisation_num::StabilisationNum;

verus! {

impl Graph {
    /// After `node` was recomputed to `new_value`: the node now holds `new_value`
    /// (`values` holds each node's value, by node), and, where `did_change` says the
    /// value changed, the change is recorded and the parents are scheduled as
    /// [`Self::maybe_change_value`] does.
    pub fn maybe_change_value_manual<T>(
        &mut self,
        rch: &mut RecomputeHeap,
        stats: &mut Stats,
        handle_after: &mut Vec<usize>,
        values: &mut Vec<Option<T>>,
        node: usize,
        new_value: Option<T>,
        did_change: bool,
        now: StabilisationNum,
    ) -> (r: Option<usize>)
        requires
            old(self).ids_ok(),
            node < old(self).len(),
            old(rch).wf(),
            old(self).rch_consistent(old(rch)),
            forall|pi: int|
                0 <= pi < old(self).parents(node as int).len() ==> 0 <= #[trigger] old(self).height(
                    old(self).parents(node as int)[pi] as int,
                ) <= old(rch).max_allowed(),
            old(values)@.len() == old(self).len(),
        ensures
            final(rch).wf(),
            final(rch).max_allowed() == old(rch).max_allowed(),
            final(self).rch_consistent(final(rch)),
            final(self).rescheduled_from(old(self), node as int, now, did_change),
            *final(stats) == (if did_change {
                Stats { changed: bumped(old(stats).changed), ..*old(stats) }
            } else {
                *old(stats)
            }),
            final(handle_after)@ == (if did_change && old(self).nodes@[node as int].num_on_update_handlers > 0
                && !old(handle_after)@.contains(node) {
                old(handle_after)@.push(node)
            } else {
                old(handle_after)@
            }),
            !did_change ==> r is None && *final(rch) == *old(rch),
            forall|m: usize|
                #[trigger] final(rch)@.contains_key(m) <==> (old(rch)@.contains_key(m) || (did_change
                    && old(self).parents(node as int).contains(m) && r != Some(m))),
            forall|m: usize| #[trigger]
                final(rch)@.contains_key(m) ==> final(rch)@[m] == (if old(rch)@.contains_key(m) {
                    old(rch)@[m]
                } else {
                    old(self).height(m as int)
                }),
            r matches Some(p) ==> {
                &&& did_change
                &&& old(self).parents(node as int).len() > 0
                &&& p == old(self).parents(node as int)[0]
                &&& !old(rch)@.contains_key(p)
                &&& (old(self).spec_can_recompute_now(p as int, node as int) || old(self).height(p as int)
                    <= final(rch).lower_bound())
            },
            old(self).first_parent_queued(old(rch)@, final(rch)@, node as int, did_change, r),
            final(values)@ == old(values)@.update(node as int, new_value),
    {
        values.set(node, new_value);
        self.maybe_change_value(rch, stats, handle_after, node, did_change, now)
    }

    /// After `node` was recomputed to `value`: it counts as changed exactly when it had
    /// no value yet or `cutoff` does not cut the change from its old value off (the
    /// second result); it holds `value` either way, and a change is recorded and
    /// scheduled as [`Self::maybe_change_value`] does.
    pub fn maybe_change_value_cutoff<T: PartialEq, F: Fn(&T, &T) -> bool>(
        &mut self,
        rch: &mut RecomputeHeap,
        stats: &mut Stats,
        handle_after: &mut Vec<usize>,
        values: &mut Vec<Option<T>>,
        cutoff: &Cutoff<T, F>,
        node: usize,
        value: T,
        now: StabilisationNum,
    ) -> (r: (Option<usize>, bool))
        requires
            old(self).ids_ok(),
            node < old(self).len(),
            old(rch).wf(),
            old(self).rch_consistent(old(rch)),
            forall|pi: int|
                0 <= pi < old(self).parents(node as int).len() ==> 0 <= #[trigger] old(self).height(
                    old(self).parents(node as int)[pi] as int,
                ) <= old(rch).max_allowed(),
            old(values)@.len() == old(self).len(),
            !(cutoff is __Phantom),
            old(values)@[node as int] matches Some(o) ==> (cutoff matches Cutoff::Custom(f) ==> f.requires((&o, &value))),
        ensures
            cutoff.decides_change(old(values)@[node as int], value, r.1),
            final(rch).wf(),
            final(rch).max_allowed() == old(rch).max_allowed(),
            final(self).rch_consistent(final(rch)),
            final(self).rescheduled_from(old(self), node as int, now, r.1),
            *final(stats) == (if r.1 {
                Stats { changed: bumped(old(stats).changed), ..*old(stats) }
            } else {
                *old(stats)
            }),
            final(handle_after)@ == (if r.1 && old(self).nodes@[node as int].num_on_update_handlers > 0
                && !old(handle_after)@.contains(node) {
                old(handle_after)@.push(node)
            } else {
                old(handle_after)@
            }),
            !r.1 ==> r.0 is None && *final(rch) == *old(rch),
            forall|m: usize|
                #[trigger] final(rch)@.contains_key(m) <==> (old(rch)@.contains_key(m) || (r.1
                    && old(self).parents(node as int).contains(m) && r.0 != Some(m))),
            forall|m: usize| #[trigger]
                final(rch)@.contains_key(m) ==> final(rch)@[m] == (if old(rch)@.contains_key(m) {
                    old(rch)@[m]
                } else {
                    old(self).height(m as int)
                }),
            r.0 matches Some(p) ==> {
                &&& r.1
                &&& old(self).parents(node as int).len() > 0
                &&& p == old(self).parents(node as int)[0]
                &&& !old(rch)@.contains_key(p)
                &&& (old(self).spec_can_recompute_now(p as int, node as int) || old(self).height(p as int)
                    <= final(rch).lower_bound())
            },
            old(self).first_parent_queued(old(rch)@, final(rch)@, node as int, r.1, r.0),
            final(values)@ == old(values)@.update(node as int, Some(value)),
    {
        let changed = cutoff.value_changed(values[node].as_ref(), &value);
        values.set(node, Some(value));
        let p = self.maybe_change_value(rch, stats, handle_after, node, changed, now);
        (p, changed)
    }

    /// Recomputing the valid node `node` gave `value`: as [`Self::recompute_one`], with
    /// the change decided by the node's `cutoff` from its old value and `value` (the
    /// second result), and `value` stored as the node's value.
    pub fn recompute_one_value<T: PartialEq, F: Fn(&T, &T) -> bool>(
        &mut self,
        rch: &mut RecomputeHeap,
        stats: &mut Stats,
        handle_after: &mut Vec<usize>,
        values: &mut Vec<Option<T>>,
        cutoff: &Cutoff<T, F>,
        node: usize,
        value: T,
        now: StabilisationNum,
    ) -> (r: (Option<usize>, bool))
        requires
            old(self).ids_ok(),
            node < old(self).len(),
            old(self).nodes@[node as int].is_valid,
            old(rch).wf(),
            old(self).rch_consistent(old(rch)),
            forall|pi: int|
                0 <= pi < old(self).parents(node as int).len() ==> 0 <= #[trigger] old(self).height(
                    old(self).parents(node as int)[pi] as int,
                ) <= old(rch).max_allowed(),
            old(values)@.len() == old(self).len(),
            !(cutoff is __Phantom),
            old(values)@[node as int] matches Some(o) ==> (cutoff matches Cutoff::Custom(f) ==> f.requires((&o, &value))),
        ensures
            cutoff.decides_change(old(values)@[node as int], value, r.1),
            final(rch).wf(),
            final(rch).max_allowed() == old(rch).max_allowed(),
            final(self).rch_consistent(final(rch)),
            final(self).len() == old(self).len(),
            forall|i: int|
                0 <= i < final(self).len() ==> #[trigger] final(self).nodes@[i] == (Node {
                    height_in_recompute_heap: final(self).nodes@[i].height_in_recompute_heap,
                    changed_at: if r.1 && i == node {
                        now
                    } else {
                        old(self).nodes@[i].changed_at
                    },
                    recomputed_at: if i == node {
                        now
                    } else {
                        old(self).nodes@[i].recomputed_at
                    },
                    ..old(self).nodes@[i]
                }),
            *final(stats) == (Stats {
                recomputed: bumped(old(stats).recomputed),
                changed: if r.1 {
                    bumped(old(stats).changed)
                } else {
                    old(stats).changed
                },
                ..*old(stats)
            }),
            final(handle_after)@ == (if r.1 && old(self).nodes@[node as int].num_on_update_handlers > 0
                && !old(handle_after)@.contains(node) {
                old(handle_after)@.push(node)
            } else {
                old(handle_after)@
            }),
            !r.1 ==> r.0 is None && *final(rch) == *old(rch),
            forall|m: usize|
                #[trigger] final(rch)@.contains_key(m) <==> (old(rch)@.contains_key(m) || (r.1
                    && old(self).parents(node as int).contains(m) && r.0 != Some(m))),
            forall|m: usize| #[trigger]
                final(rch)@.contains_key(m) ==> final(rch)@[m] == (if old(rch)@.contains_key(m) {
                    old(rch)@[m]
                } else {
                    old(self).height(m as int)
                }),
            r.0 matches Some(p) ==> {
                &&& r.1
                &&& old(self).parents(node as int).len() > 0
                &&& p == old(self).parents(node as int)[0]
                &&& !old(rch)@.contains_key(p)
                &&& (old(self).spec_can_recompute_now(p as int, node as int) || old(self).height(p as int)
                    <= final(rch).lower_bound())
            },
            old(self).first_parent_queued(old(rch)@, final(rch)@, node as int, r.1, r.0),
            final(values)@ == old(values)@.update(node as int, Some(value)),
    {
        let changed = cutoff.value_changed(values[node].as_ref(), &value);
        values.set(node, Some(value));
        let p = self.recompute_one(rch, stats, handle_after, node, changed, now);
        (p, changed)
    }
}

} // verus!
