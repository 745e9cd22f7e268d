use vstd::prelude::*;

use crate::adjust_heights_heap::AdjustHeightsHeap;
use crate::graph::{Graph, Node};
use crate::invalidity::stack_ok;
use crate::node_state::{handle_after_grown, handle_after_stabilisation, lemma_handle_after_trans};
use crate::necessity::lemma_wf_same_links;
use crate::observer::{observer_step, InternalObserver, ObserverState};
use crate::public::Stats;
use crate::recompute_heap::RecomputeHeap;
use crate::stabilisation_num::StabilisationNum;

verus! {

/// Changing only the counts of observers and update handlers of `node` keeps the link
/// invariants, and changes the neededness of `node` alone.
proof fn lemma_observers_changed(g0: &Graph, g: &Graph, rch: &RecomputeHeap, node: int)
    requires
        g0.wf(),
        g0.inputs_distinct(),
        g0.rch_consistent(rch),
        0 <= node < g0.len(),
        g.len() == g0.len(),
        forall|i: int| 0 <= i < g.len() && i != node ==> #[trigger] g.nodes@[i] == g0.nodes@[i],
        g.nodes@[node] == (Node {
            num_observers: g.nodes@[node].num_observers,
            num_on_update_handlers: g.nodes@[node].num_on_update_handlers,
            ..g0.nodes@[node]
        }),
    ensures
        g.wf(),
        g.inputs_distinct(),
        g.rch_consistent(rch),
        forall|i: int| 0 <= i < g.len() ==> #[trigger] g.height(i) == g0.height(i),
        forall|i: int| 0 <= i < g.len() && i != node ==> #[trigger] g.spec_is_necessary(i) == g0.spec_is_necessary(i),
        forall|c: int, ci: int, p: int| 0 <= p < g.len() ==> (#[trigger] g.is_registered(c, ci, p) == g0.is_registered(c, ci, p)),
        forall|m: int| g0.heights_within(m) ==> #[trigger] g.heights_within(m),
        g0.necessary_placed() && g0.height(node) >= 0 ==> g.necessary_placed(),
        g0.necessary_placed() && g.nodes@[node].num_observers == g0.nodes@[node].num_observers
            ==> g.necessary_placed(),
        g0.necessary_placed() ==> g.necessary_placed_except(node),
        g0.parents_needed() && (g.spec_is_necessary(node) || !g0.spec_is_necessary(node)) ==> g.parents_needed(),
{
    assert forall|i: int| 0 <= i < g.len() implies {
        &&& (#[trigger] g.nodes@[i]).parents@ == g0.nodes@[i].parents@
        &&& g.nodes@[i].children@ == g0.nodes@[i].children@
        &&& g.nodes@[i].my_parent_index_in_child_at_index@ == g0.nodes@[i].my_parent_index_in_child_at_index@
        &&& g.nodes@[i].my_child_index_in_parent_at_index@ == g0.nodes@[i].my_child_index_in_parent_at_index@
        &&& g.nodes@[i].rhs_nodes@ == g0.nodes@[i].rhs_nodes@
        &&& g.nodes@[i].created_in == g0.nodes@[i].created_in
    } by {}
    lemma_wf_same_links(g0, g);
    assert forall|p: int| 0 <= p < g.len() implies {
        &&& (#[trigger] g.children(p)).no_duplicates()
        &&& forall|ci: int| 0 <= ci < g.children(p).len() ==> g.children(p)[ci] != p
    } by {
        assert(g.children(p) == g0.children(p));
        assert(g0.children(p).no_duplicates());
    }
    assert forall|i: int| 0 <= i < g.len() implies #[trigger] g.height(i) == g0.height(i) by {}
    assert forall|i: int| 0 <= i < g.len() && i != node implies #[trigger] g.spec_is_necessary(i) == g0.spec_is_necessary(i) by {
        assert(g.nodes@[i] == g0.nodes@[i]);
    }
    assert forall|i: int| 0 <= i < g.len() implies #[trigger] g.nodes@[i].height_in_recompute_heap == (if rch@.contains_key(
        i as usize,
    ) {
        rch@[i as usize]
    } else {
        -1
    }) by {
        assert(g.nodes@[i].height_in_recompute_heap == g0.nodes@[i].height_in_recompute_heap);
    }
    assert forall|m: int| g0.heights_within(m) implies #[trigger] g.heights_within(m) by {
        assert forall|i: int| 0 <= i < g.len() implies -1 <= #[trigger] g.height(i) <= m by {
            assert(g.height(i) == g0.height(i));
            assert(-1 <= g0.height(i) <= m);
        }
    }
    if g0.necessary_placed() {
        assert forall|i: int| 0 <= i < g.len() && i != node && #[trigger] g.spec_is_necessary(i) implies g.height(i) >= 0 by {
            assert(g.nodes@[i] == g0.nodes@[i]);
        }
        if g0.height(node) >= 0 || g.nodes@[node].num_observers == g0.nodes@[node].num_observers {
            assert forall|i: int| 0 <= i < g.len() && #[trigger] g.spec_is_necessary(i) implies g.height(i) >= 0 by {
                if i != node {
                    assert(g.nodes@[i] == g0.nodes@[i]);
                } else if g0.height(node) < 0 {
                    assert(g.parents(i) == g0.parents(i));
                    assert(g0.spec_is_necessary(i));
                }
            }
        }
    }
    if g0.parents_needed() && (g.spec_is_necessary(node) || !g0.spec_is_necessary(node)) {
        assert forall|c: int, ci: int, p: int| 0 <= p < g.len() && #[trigger] g.is_registered(c, ci, p) implies g.spec_is_necessary(p) by {
            assert(g0.is_registered(c, ci, p));
            if p != node {
                assert(g.nodes@[p] == g0.nodes@[p]);
            }
        }
    }
}

impl Graph {
    /// An observer of `node` comes into use: the node counts one more observer, and if
    /// nothing needed it before, it becomes necessary and the invalidity met while it
    /// attached to its inputs is propagated. `false` comes back, with the work stopped
    /// part-way, as `became_necessary` and `propagate_invalidity` say.
    pub fn add_observer(
        &mut self,
        ahh: &mut AdjustHeightsHeap,
        rch: &mut RecomputeHeap,
        stack: &mut Vec<usize>,
        stats: &mut Stats,
        handle_after: &mut Vec<usize>,
        now: StabilisationNum,
        node: usize,
    ) -> (ok: bool)
        requires
            old(self).wf(),
            old(self).inputs_distinct(),
            old(self).necessary_placed(),
            old(self).parents_needed(),
            old(self).heights_within(old(ahh).max_allowed()),
            node < old(self).len(),
            old(self).nodes@[node as int].num_observers < usize::MAX,
            old(rch).wf(),
            old(self).rch_consistent(old(rch)),
            old(ahh).wf(),
            stack_ok(old(stack)@, old(self)),
        ensures
            final(self).wf(),
            final(self).inputs_distinct(),
            final(self).heights_within(final(ahh).max_allowed()),
            final(self).len() == old(self).len(),
            final(self).nodes@[node as int].num_observers == old(self).nodes@[node as int].num_observers + 1,
            forall|i: int|
                0 <= i < final(self).len() && i != node as int ==> #[trigger] final(self).nodes@[i].num_observers
                    == old(self).nodes@[i].num_observers,
            forall|i: int|
                0 <= i < final(self).len() ==> #[trigger] final(self).nodes@[i].num_on_update_handlers
                    == old(self).nodes@[i].num_on_update_handlers,
            final(self).spec_is_necessary(node as int),
            ok ==> final(self).necessary_placed(),
            ok ==> final(self).parents_needed(),
            final(rch).wf(),
            final(self).rch_consistent(final(rch)),
            final(ahh).wf(),
            final(ahh)@ == old(ahh)@,
            final(ahh).max_allowed() == old(ahh).max_allowed(),
            stack_ok(final(stack)@, final(self)),
            old(self).spec_is_necessary(node as int) ==> {
                &&& ok
                &&& final(self).nodes@ == old(self).nodes@.update(
                    node as int,
                    Node { num_observers: final(self).nodes@[node as int].num_observers, ..old(self).nodes@[node as int] },
                )
                &&& final(rch)@ == old(rch)@
                &&& final(stack)@ == old(stack)@
            },
            !old(self).spec_is_necessary(node as int) && ok ==> final(stack)@.len() == 0,
            !ok ==> final(self).attach_blocked(final(ahh).max_allowed(), final(rch)) || final(self).scope_too_high(
                final(ahh).max_allowed(),
            ) || final(self).unqueueable(final(rch)),
            final(stats).link_counts_grown(*old(stats)),
            handle_after_grown(old(handle_after)@, final(handle_after)@, old(self)),
    {
        let ghost g0 = *self;
        let was_necessary = self.is_necessary(node);
        self.nodes[node].num_observers = self.nodes[node].num_observers + 1;
        proof {
            lemma_observers_changed(&g0, self, rch, node as int);
            assert(self.spec_is_necessary(node as int));
        }
        if !was_necessary {
            proof {
                assert forall|c: int, ci: int| !(#[trigger] self.is_registered(c, ci, node as int)) by {
                    if self.is_registered(c, ci, node as int) {
                        assert(g0.is_registered(c, ci, node as int));
                    }
                }
                assert forall|k: int| 0 <= k < stack@.len() implies #[trigger] stack@[k] < self.len() by {
                    assert(old(stack)@[k] < g0.len());
                }
            }
            let ghost g1 = *self;
            let okb = self.attach_needed(ahh, rch, stack, stats, handle_after, node);
            let ghost hb = handle_after@;
            proof {
                assert forall|i: int| 0 <= i < g0.len() implies #[trigger] g1.nodes@[i].num_on_update_handlers
                    <= g0.nodes@[i].num_on_update_handlers by {}
                lemma_handle_after_trans(old(handle_after)@, old(handle_after)@, handle_after@, &g0, &g1);
                assert forall|i: int| 0 <= i < self.len() implies #[trigger] self.observed_as(&g1, i) by {
                    assert(self.nodes@[i].num_observers == g1.nodes@[i].num_observers);
                }
                assert forall|i: int| 0 <= i < self.len() && i != node as int implies #[trigger] g1.nodes@[i]
                    == g0.nodes@[i] by {}
                assert(self.observed_as(&g1, node as int));
                assert forall|i: int| 0 <= i < self.len() implies #[trigger] self.nodes@[i].num_on_update_handlers
                    == g0.nodes@[i].num_on_update_handlers by {
                    assert(self.observed_as(&g1, i));
                }
                assert forall|i: int| 0 <= i < self.len() && i != node as int implies #[trigger] self.nodes@[i].num_observers
                    == g0.nodes@[i].num_observers by {
                    assert(self.observed_as(&g1, i));
                }
            }
            if !okb {
                return false;
            }
            let ghost g2 = *self;
            let okp = self.propagate_invalidity(ahh, rch, stack, stats, handle_after, now);
            proof {
                assert forall|i: int| 0 <= i < g0.len() implies #[trigger] g2.nodes@[i].num_on_update_handlers
                    <= g0.nodes@[i].num_on_update_handlers by {
                    assert(g2.observed_as(&g1, i));
                }
                lemma_handle_after_trans(old(handle_after)@, hb, handle_after@, &g0, &g2);
                assert forall|i: int| 0 <= i < self.len() implies #[trigger] self.observed_as(&g1, i) by {
                    assert(self.observed_as(&g2, i));
                    assert(g2.observed_as(&g1, i));
                }
                assert(self.observed_as(&g1, node as int));
                assert forall|i: int| 0 <= i < self.len() implies #[trigger] self.nodes@[i].num_on_update_handlers
                    == g0.nodes@[i].num_on_update_handlers by {
                    assert(self.observed_as(&g1, i));
                }
                assert forall|i: int| 0 <= i < self.len() && i != node as int implies #[trigger] self.nodes@[i].num_observers
                    == g0.nodes@[i].num_observers by {
                    assert(self.observed_as(&g1, i));
                }
            }
            if !okp {
                return false;
            }
            return true;
        }
        proof {
            assert(self.nodes@ =~= g0.nodes@.update(
                node as int,
                Node { num_observers: self.nodes@[node as int].num_observers, ..g0.nodes@[node as int] },
            ));
        }
        true
    }

    /// An observer of `node` is unlinked: the node counts one observer less, and if
    /// nothing needs it any more it becomes unnecessary.
    pub fn remove_observer(
        &mut self,
        rch: &mut RecomputeHeap,
        stats: &mut Stats,
        handle_after: &mut Vec<usize>,
        node: usize,
    )
        requires
            old(self).wf(),
            old(self).inputs_distinct(),
            old(self).necessary_placed(),
            node < old(self).len(),
            old(self).nodes@[node as int].num_observers > 0,
            old(rch).wf(),
            old(self).rch_consistent(old(rch)),
        ensures
            final(self).wf(),
            final(self).inputs_distinct(),
            final(self).necessary_placed(),
            final(self).len() == old(self).len(),
            final(self).nodes@[node as int].num_observers == old(self).nodes@[node as int].num_observers - 1,
            forall|i: int|
                0 <= i < final(self).len() && i != node as int ==> #[trigger] final(self).nodes@[i].num_observers
                    == old(self).nodes@[i].num_observers,
            forall|i: int|
                0 <= i < final(self).len() ==> #[trigger] final(self).nodes@[i].num_on_update_handlers
                    == old(self).nodes@[i].num_on_update_handlers,
            final(self).needs_only_lost(old(self)),
            final(rch).wf(),
            final(self).rch_consistent(final(rch)),
            Graph::heap_shrunk(final(rch), old(rch)),
            old(self).parents_needed() ==> final(self).parents_needed(),
            final(self).spec_is_necessary(node as int) == (old(self).parents(node as int).len() > 0
                || old(self).nodes@[node as int].num_observers > 1 || old(self).nodes@[node as int].force_necessary),
            !final(self).spec_is_necessary(node as int) ==> {
                &&& final(self).height(node as int) == -1
                &&& forall|c: int, ci: int| !(#[trigger] final(self).is_registered(c, ci, node as int))
                &&& !final(rch)@.contains_key(node)
            },
            final(self).spec_is_necessary(node as int) ==> final(self).nodes@ == old(self).nodes@.update(
                node as int,
                Node { num_observers: final(self).nodes@[node as int].num_observers, ..old(self).nodes@[node as int] },
            ) && final(rch)@ == old(rch)@,
            final(stats).link_counts_grown(*old(stats)),
            old(stats).became_necessary == final(stats).became_necessary,
            old(stats).invalidated == final(stats).invalidated,
            handle_after_grown(old(handle_after)@, final(handle_after)@, old(self)),
    {
        let ghost g0 = *self;
        self.nodes[node].num_observers = self.nodes[node].num_observers - 1;
        proof {
            assert(g0.spec_is_necessary(node as int));
            lemma_observers_changed(&g0, self, rch, node as int);
        }
        let ghost g1 = *self;
        self.check_if_unnecessary(rch, stats, handle_after, node);
        proof {
            assert forall|i: int| 0 <= i < g0.len() implies #[trigger] g1.nodes@[i].num_on_update_handlers
                == g0.nodes@[i].num_on_update_handlers by {}
            lemma_handle_after_trans(old(handle_after)@, old(handle_after)@, handle_after@, &g0, &g1);
            assert(self.nodes@[node as int].num_observers == g1.nodes@[node as int].num_observers);
            if g0.parents_needed() {
                assert forall|p: int| 0 <= p < self.len() && p != node as int && #[trigger] g0.parent_fine(p) implies g1.parent_fine(p) by {
                    assert forall|c: int, ci: int| #[trigger] g1.is_registered(c, ci, p) implies g1.spec_is_necessary(p) by {
                        assert(g0.is_registered(c, ci, p));
                    }
                }
                assert forall|c: int, ci: int, p: int|
                    0 <= p < self.len() && #[trigger] self.is_registered(c, ci, p) implies self.spec_is_necessary(p) by {
                    assert forall|c2: int, ci2: int| #[trigger] g0.is_registered(c2, ci2, p) implies g0.spec_is_necessary(
                        p,
                    ) by {}
                    assert(g0.parent_fine(p));
                    if p != node as int {
                        assert(g1.parent_fine(p));
                        assert(self.parent_fine(p));
                    } else {
                        assert(self.parent_fine(node as int));
                    }
                }
            }
            if self.spec_is_necessary(node as int) {
                assert(g1.spec_is_necessary(node as int));
                assert(self.nodes@ =~= g0.nodes@.update(
                    node as int,
                    Node { num_observers: self.nodes@[node as int].num_observers, ..g0.nodes@[node as int] },
                ));
            }
        }
    }
}


/// A list that gained `x` unless it held it already holds what it held, and `x`.
proof fn lemma_list_gained(before: Seq<usize>, after: Seq<usize>, x: usize)
    requires
        after == (if before.contains(x) {
            before
        } else {
            before.push(x)
        }),
    ensures
        forall|n: usize| #[trigger] after.contains(n) <==> before.contains(n) || n == x,
{
    assert forall|n: usize| #[trigger] after.contains(n) <==> before.contains(n) || n == x by {
        if !before.contains(x) {
            if before.contains(n) {
                let i = choose|i: int| 0 <= i < before.len() && before[i] == n;
                assert(after[i] == n);
            }
            if n == x {
                assert(after[before.len() as int] == x);
            }
            if after.contains(n) && n != x {
                let i = choose|i: int| 0 <= i < after.len() && after[i] == n;
                assert(i < before.len());
                assert(before[i] == n);
            }
        }
    }
}

/// Bringing the listed new observers into use stopped at position `k`: every observer
/// listed before it is no longer newly created, and the one at `k` is in use (it was
/// already, or it came into use and its node could not count its subscriptions or could
/// not be attached), or is disallowed, or is newly created while its node cannot count
/// one more observer.
pub open spec fn stopped_at_new<H>(g: &Graph, observers: Seq<InternalObserver<H>>, new_observers: Seq<usize>, k: int) -> bool {
    &&& forall|j: int| 0 <= j < k ==> (#[trigger] observers[new_observers[j] as int]).spec_state() != ObserverState::Created
    &&& {
        let o = observers[new_observers[k] as int];
        ||| o.spec_state() == ObserverState::InUse
        ||| o.spec_state() == ObserverState::Disallowed
        ||| (o.spec_state() == ObserverState::Created && g.nodes@[o.spec_observing() as int].num_observers == usize::MAX)
    }
}

/// Observer `o` is in state `state` and watches `node`.
pub open spec fn watching_in<H>(o: InternalObserver<H>, state: ObserverState, node: int) -> bool {
    o.spec_state() == state && o.spec_observing() as int == node
}

/// How many of the first `k` observers listed in `listed` are in state `state` and
/// watch `node`.
pub open spec fn listed_watchers<H>(
    observers: Seq<InternalObserver<H>>,
    listed: Seq<usize>,
    state: ObserverState,
    node: int,
    k: int,
) -> int
    decreases k,
{
    if k <= 0 {
        0
    } else {
        listed_watchers(observers, listed, state, node, k - 1) + (if watching_in(
            observers[listed[k - 1] as int],
            state,
            node,
        ) {
            1int
        } else {
            0int
        })
    }
}

/// How many subscriptions the first `k` observers listed in `listed` that are in state
/// `state` and watch `node` carry together.
pub open spec fn listed_subscriptions<H>(
    observers: Seq<InternalObserver<H>>,
    listed: Seq<usize>,
    state: ObserverState,
    node: int,
    k: int,
) -> int
    decreases k,
{
    if k <= 0 {
        0
    } else {
        listed_subscriptions(observers, listed, state, node, k - 1) + (if watching_in(
            observers[listed[k - 1] as int],
            state,
            node,
        ) {
            observers[listed[k - 1] as int].tokens().len() as int
        } else {
            0int
        })
    }
}

/// At the start of a stabilisation, the observers listed in `new_observers` (indices
/// into `observers`) come into use: each one still newly created is marked in use, its
/// node counts one more observer and its subscriptions among its update handlers, the
/// node is put on the `handle_after` list so that those handlers run after this
/// stabilisation, and the node is attached as `Graph::add_observer` says; one unlinked
/// before it came into use is skipped. When all goes well, every node ends with as many
/// more observers and update handlers as the listed newly created observers of it bring.
/// `false` comes back, with the work stopped part-way, at an observer already in use or
/// disallowed, at a node that cannot count one more observer or its subscriptions, or
/// as `Graph::add_observer` says.
pub fn add_new_observers<H>(
    g: &mut Graph,
    ahh: &mut AdjustHeightsHeap,
    rch: &mut RecomputeHeap,
    stack: &mut Vec<usize>,
    stats: &mut Stats,
    handle_after: &mut Vec<usize>,
    now: StabilisationNum,
    observers: &mut Vec<InternalObserver<H>>,
    new_observers: &Vec<usize>,
) -> (ok: bool)
    requires
        old(g).wf(),
        old(g).inputs_distinct(),
        old(g).necessary_placed(),
        old(g).parents_needed(),
        old(g).heights_within(old(ahh).max_allowed()),
        old(rch).wf(),
        old(g).rch_consistent(old(rch)),
        old(ahh).wf(),
        stack_ok(old(stack)@, old(g)),
        forall|i: int|
            0 <= i < old(observers)@.len() ==> {
                &&& (#[trigger] old(observers)@[i]).wf()
                &&& old(observers)@[i].spec_observing() < old(g).len()
                &&& old(observers)@[i].tokens().len() <= i32::MAX
            },
        forall|k: int| 0 <= k < new_observers@.len() ==> #[trigger] new_observers@[k] < old(observers)@.len(),
    ensures
        final(g).wf(),
        final(g).inputs_distinct(),
        final(g).heights_within(final(ahh).max_allowed()),
        final(g).len() == old(g).len(),
        ok ==> final(g).necessary_placed(),
        ok ==> final(g).parents_needed(),
        final(rch).wf(),
        final(g).rch_consistent(final(rch)),
        final(ahh).wf(),
        final(observers)@.len() == old(observers)@.len(),
        forall|i: int|
            0 <= i < final(observers)@.len() ==> {
                &&& (#[trigger] final(observers)@[i]).wf()
                &&& final(observers)@[i].spec_id() == old(observers)@[i].spec_id()
                &&& final(observers)@[i].spec_observing() == old(observers)@[i].spec_observing()
                &&& final(observers)@[i].tokens() == old(observers)@[i].tokens()
                &&& observer_step(old(observers)@[i].spec_state(), final(observers)@[i].spec_state())
            },
        ok ==> forall|k: int|
            0 <= k < new_observers@.len() ==> (#[trigger] final(observers)@[new_observers@[k] as int]).spec_state()
                != ObserverState::Created,
        ok ==> forall|n: int|
            0 <= n < final(g).len() ==> {
                &&& #[trigger] final(g).nodes@[n].num_observers == old(g).nodes@[n].num_observers + listed_watchers(
                    old(observers)@,
                    new_observers@,
                    ObserverState::Created,
                    n,
                    new_observers@.len() as int,
                )
                &&& final(g).nodes@[n].num_on_update_handlers == old(g).nodes@[n].num_on_update_handlers
                    + listed_subscriptions(old(observers)@, new_observers@, ObserverState::Created, n, new_observers@.len() as int)
            },
        ok ==> forall|k: int, n: int|
            0 <= k < new_observers@.len() && #[trigger] watching_in(
                old(observers)@[new_observers@[k] as int],
                ObserverState::Created,
                n,
            ) ==> final(handle_after)@.contains(n as usize),
        ok ==> forall|n: usize|
            #[trigger] final(handle_after)@.contains(n) ==> old(handle_after)@.contains(n) || (exists|k: int|
                0 <= k < new_observers@.len() && #[trigger] watching_in(
                    old(observers)@[new_observers@[k] as int],
                    ObserverState::Created,
                    n as int,
                )) || ((n as int) < final(g).len() && final(g).nodes@[n as int].num_on_update_handlers > 0),
        forall|n: usize| #[trigger] old(handle_after)@.contains(n) ==> final(handle_after)@.contains(n),
        !ok ==> exists|k: int|
            0 <= k < new_observers@.len() && #[trigger] stopped_at_new(
                final(g),
                final(observers)@,
                new_observers@,
                k,
            ),
        final(stats).link_counts_grown(*old(stats)),
{
    let mut k: usize = 0;
    while k < new_observers.len()
        invariant
            g.wf(),
            g.inputs_distinct(),
            g.necessary_placed(),
            g.parents_needed(),
            g.heights_within(ahh.max_allowed()),
            g.len() == old(g).len(),
            rch.wf(),
            g.rch_consistent(rch),
            ahh.wf(),
            stack_ok(stack@, g),
            k <= new_observers@.len(),
            observers@.len() == old(observers)@.len(),
            forall|k2: int| 0 <= k2 < new_observers@.len() ==> #[trigger] new_observers@[k2] < observers@.len(),
            forall|i: int|
                0 <= i < observers@.len() ==> {
                    &&& (#[trigger] observers@[i]).wf()
                    &&& observers@[i].spec_id() == old(observers)@[i].spec_id()
                    &&& observers@[i].spec_observing() == old(observers)@[i].spec_observing()
                    &&& observers@[i].tokens() == old(observers)@[i].tokens()
                    &&& observer_step(old(observers)@[i].spec_state(), observers@[i].spec_state())
                    &&& observers@[i].spec_observing() < g.len()
                    &&& observers@[i].tokens().len() <= i32::MAX
                },
            forall|i: int|
                0 <= i < observers@.len() && (#[trigger] observers@[i]).spec_state() != old(observers)@[i].spec_state()
                    ==> observers@[i].spec_state() == ObserverState::InUse && old(observers)@[i].spec_state()
                    == ObserverState::Created,
            forall|k2: int|
                0 <= k2 < k ==> (#[trigger] observers@[new_observers@[k2] as int]).spec_state() != ObserverState::Created,
            forall|n: int|
                0 <= n < g.len() ==> {
                    &&& #[trigger] g.nodes@[n].num_observers == old(g).nodes@[n].num_observers + listed_watchers(
                        old(observers)@,
                        new_observers@,
                        ObserverState::Created,
                        n,
                        k as int,
                    )
                    &&& g.nodes@[n].num_on_update_handlers == old(g).nodes@[n].num_on_update_handlers
                        + listed_subscriptions(old(observers)@, new_observers@, ObserverState::Created, n, k as int)
                },
            forall|n: usize| #[trigger] old(handle_after)@.contains(n) ==> handle_after@.contains(n),
            forall|k2: int, n: int|
                0 <= k2 < k && #[trigger] watching_in(
                    old(observers)@[new_observers@[k2] as int],
                    ObserverState::Created,
                    n,
                ) ==> handle_after@.contains(n as usize),
            forall|n: usize|
                #[trigger] handle_after@.contains(n) ==> old(handle_after)@.contains(n) || (exists|k2: int|
                    0 <= k2 < k && #[trigger] watching_in(
                        old(observers)@[new_observers@[k2] as int],
                        ObserverState::Created,
                        n as int,
                    )) || ((n as int) < g.len() && g.nodes@[n as int].num_on_update_handlers > 0),
            stats.link_counts_grown(*old(stats)),
        decreases new_observers@.len() - k,
    {
        let idx = new_observers[k];
        let ghost before = observers@;
        let ghost gk = *g;
        let ghost hk = handle_after@;
        match observers[idx].state() {
            ObserverState::InUse | ObserverState::Disallowed => {
                proof {
                    assert(stopped_at_new(g, observers@, new_observers@, k as int));
                }
                return false;
            },
            ObserverState::Unlinked => {
                proof {
                    assert(old(observers)@[idx as int].spec_state() == ObserverState::Unlinked);
                    assert forall|n: int| 0 <= n < g.len() implies listed_watchers(
                        old(observers)@,
                        new_observers@,
                        ObserverState::Created,
                        n,
                        k + 1,
                    ) == listed_watchers(old(observers)@, new_observers@, ObserverState::Created, n, k as int)
                        && listed_subscriptions(
                        old(observers)@,
                        new_observers@,
                        ObserverState::Created,
                        n,
                        k + 1,
                    ) == listed_subscriptions(old(observers)@, new_observers@, ObserverState::Created, n, k as int) by {}
                    assert forall|k2: int, n: int|
                        0 <= k2 < k + 1 && #[trigger] watching_in(
                            old(observers)@[new_observers@[k2] as int],
                            ObserverState::Created,
                            n,
                        ) implies handle_after@.contains(n as usize) by {
                        assert(k2 != k as int);
                    }
                    assert forall|n: usize|
                        #[trigger] handle_after@.contains(n) implies old(handle_after)@.contains(n) || (exists|k2: int|
                            0 <= k2 < k + 1 && #[trigger] watching_in(
                                old(observers)@[new_observers@[k2] as int],
                                ObserverState::Created,
                                n as int,
                            )) || ((n as int) < g.len() && g.nodes@[n as int].num_on_update_handlers > 0) by {
                        if exists|k2: int|
                            0 <= k2 < k && #[trigger] watching_in(
                                old(observers)@[new_observers@[k2] as int],
                                ObserverState::Created,
                                n as int,
                            ) {
                            let k2 = choose|k2: int|
                                0 <= k2 < k && #[trigger] watching_in(
                                    old(observers)@[new_observers@[k2] as int],
                                    ObserverState::Created,
                                    n as int,
                                );
                            assert(0 <= k2 < k + 1);
                        }
                    }
                }
            },
            ObserverState::Created => {
                let node = observers[idx].observing();
                if g.nodes[node].num_observers == usize::MAX {
                    proof {
                        assert(stopped_at_new(g, observers@, new_observers@, k as int));
                    }
                    return false;
                }
                let mut o = observers.remove(idx);
                let added = o.make_in_use();
                observers.insert(idx, o);
                proof {
                    assert(old(observers)@[idx as int].spec_state() == ObserverState::Created);
                    assert(observers@ =~= before.update(idx as int, observers@[idx as int]));
                    assert forall|i: int| 0 <= i < observers@.len() implies {
                        &&& (#[trigger] observers@[i]).wf()
                        &&& observers@[i].spec_id() == old(observers)@[i].spec_id()
                        &&& observers@[i].spec_observing() == old(observers)@[i].spec_observing()
                        &&& observers@[i].tokens() == old(observers)@[i].tokens()
                        &&& observer_step(old(observers)@[i].spec_state(), observers@[i].spec_state())
                        &&& observers@[i].spec_observing() < g.len()
                        &&& observers@[i].tokens().len() <= i32::MAX
                    } by {
                        if i != idx as int {
                            assert(observers@[i] == before[i]);
                        } else {
                            assert(before[i].spec_state() == ObserverState::Created);
                            assert(observer_step(old(observers)@[i].spec_state(), before[i].spec_state()));
                        }
                    }
                    assert forall|i: int|
                        0 <= i < observers@.len() && (#[trigger] observers@[i]).spec_state() != old(
                            observers,
                        )@[i].spec_state() implies observers@[i].spec_state() == ObserverState::InUse && old(
                            observers,
                        )@[i].spec_state() == ObserverState::Created by {
                        if i != idx as int {
                            assert(observers@[i] == before[i]);
                        }
                    }
                    assert forall|j: int| 0 <= j < k implies (#[trigger] observers@[new_observers@[j] as int]).spec_state()
                        != ObserverState::Created by {
                        if new_observers@[j] != idx {
                            assert(observers@[new_observers@[j] as int] == before[new_observers@[j] as int]);
                        }
                    }
                }
                if g.nodes[node].num_on_update_handlers > i32::MAX - added {
                    proof {
                        assert(stopped_at_new(g, observers@, new_observers@, k as int));
                    }
                    return false;
                }
                g.nodes[node].num_on_update_handlers = g.nodes[node].num_on_update_handlers + added;
                proof {
                    lemma_observers_changed(&gk, g, rch, node as int);
                    assert(stack_ok(stack@, g));
                }
                handle_after_stabilisation(handle_after, node);
                proof {
                    lemma_list_gained(hk, handle_after@, node);
                }
                let ghost g1 = *g;
                let ghost h1 = handle_after@;
                let okad = g.add_observer(ahh, rch, stack, stats, handle_after, now, node);
                proof {
                    assert forall|n: usize| #[trigger] old(handle_after)@.contains(n) implies handle_after@.contains(n) by {
                        assert(hk.contains(n));
                        assert(h1.contains(n));
                    }
                }
                if !okad {
                    proof {
                        assert(stopped_at_new(g, observers@, new_observers@, k as int));
                    }
                    return false;
                }
                proof {
                    assert forall|n: int| 0 <= n < g.len() implies {
                        &&& #[trigger] g.nodes@[n].num_observers == old(g).nodes@[n].num_observers + listed_watchers(
                            old(observers)@,
                            new_observers@,
                            ObserverState::Created,
                            n,
                            k + 1,
                        )
                        &&& g.nodes@[n].num_on_update_handlers == old(g).nodes@[n].num_on_update_handlers
                            + listed_subscriptions(old(observers)@, new_observers@, ObserverState::Created, n, k + 1)
                    } by {
                        assert(gk.nodes@[n].num_observers == old(g).nodes@[n].num_observers + listed_watchers(
                            old(observers)@,
                            new_observers@,
                            ObserverState::Created,
                            n,
                            k as int,
                        ));
                        if n != node as int {
                            assert(g1.nodes@[n] == gk.nodes@[n]);
                        }
                    }
                    assert forall|k2: int, n: int|
                        0 <= k2 < k + 1 && #[trigger] watching_in(
                            old(observers)@[new_observers@[k2] as int],
                            ObserverState::Created,
                            n,
                        ) implies handle_after@.contains(n as usize) by {
                        if k2 < k {
                            assert(hk.contains(n as usize));
                            assert(h1.contains(n as usize));
                        } else {
                            assert(n == node as int);
                            assert(h1.contains(node));
                        }
                    }
                    assert forall|n: usize|
                        #[trigger] handle_after@.contains(n) implies old(handle_after)@.contains(n) || (exists|k2: int|
                            0 <= k2 < k + 1 && #[trigger] watching_in(
                                old(observers)@[new_observers@[k2] as int],
                                ObserverState::Created,
                                n as int,
                            )) || ((n as int) < g.len() && g.nodes@[n as int].num_on_update_handlers > 0) by {
                        assert(watching_in(old(observers)@[new_observers@[k as int] as int], ObserverState::Created, node as int));
                        if h1.contains(n) {
                            if n != node {
                                assert(hk.contains(n));
                                if exists|k2: int|
                                    0 <= k2 < k && #[trigger] watching_in(
                                        old(observers)@[new_observers@[k2] as int],
                                        ObserverState::Created,
                                        n as int,
                                    ) {
                                    let k2 = choose|k2: int|
                                        0 <= k2 < k && #[trigger] watching_in(
                                            old(observers)@[new_observers@[k2] as int],
                                            ObserverState::Created,
                                            n as int,
                                        );
                                    assert(0 <= k2 < k + 1);
                                } else if !old(handle_after)@.contains(n) {
                                    assert(gk.nodes@[n as int].num_on_update_handlers > 0);
                                    assert(g1.nodes@[n as int] == gk.nodes@[n as int]);
                                    assert(g.nodes@[n as int].num_on_update_handlers == g1.nodes@[n as int].num_on_update_handlers);
                                }
                            }
                        } else {
                            assert(g.nodes@[n as int].num_on_update_handlers == g1.nodes@[n as int].num_on_update_handlers);
                        }
                    }
                }
            },
        }
        proof {
            assert forall|k2: int|
                0 <= k2 < k + 1 implies (#[trigger] observers@[new_observers@[k2] as int]).spec_state()
                    != ObserverState::Created by {
                if k2 < k {
                    let j = new_observers@[k2] as int;
                    if j == idx as int {
                        assert(observers@[j].spec_state() != ObserverState::Created);
                    } else {
                        assert(observers@[j] == before[j]);
                    }
                }
            }
        }
        k = k + 1;
    }
    true
}

/// Unlinking the listed observers stopped at position `k`: every observer listed before
/// it is unlinked, and the one at `k` is not disallowed, or its node counts no observer.
pub open spec fn stopped_at_disallowed<H>(
    g: &Graph,
    observers: Seq<InternalObserver<H>>,
    disallowed: Seq<usize>,
    k: int,
) -> bool {
    &&& forall|j: int| 0 <= j < k ==> (#[trigger] observers[disallowed[j] as int]).spec_state() == ObserverState::Unlinked
    &&& {
        let o = observers[disallowed[k] as int];
        ||| o.spec_state() != ObserverState::Disallowed
        ||| g.nodes@[o.spec_observing() as int].num_observers == 0
    }
}

/// At the start of a stabilisation, the observers listed in `disallowed` (indices into
/// `observers`) are unlinked: each one is marked unlinked, its node counts one observer
/// less and drops its subscriptions from its update handlers, and the node becomes
/// unnecessary if nothing else needs it (see `Graph::remove_observer`). When all goes
/// well, every node ends with as many fewer observers and update handlers as the listed
/// disallowed observers of it took away, and no node became needed. `false` comes back,
/// with the work stopped part-way, at an observer that is not disallowed, or at a node
/// that counts no observer or cannot drop the subscriptions from its count.
pub fn unlink_disallowed_observers<H>(
    g: &mut Graph,
    rch: &mut RecomputeHeap,
    stats: &mut Stats,
    handle_after: &mut Vec<usize>,
    observers: &mut Vec<InternalObserver<H>>,
    disallowed: &Vec<usize>,
) -> (ok: bool)
    requires
        old(g).wf(),
        old(g).inputs_distinct(),
        old(g).necessary_placed(),
        old(rch).wf(),
        old(g).rch_consistent(old(rch)),
        forall|i: int|
            0 <= i < old(observers)@.len() ==> {
                &&& (#[trigger] old(observers)@[i]).wf()
                &&& old(observers)@[i].spec_observing() < old(g).len()
                &&& old(observers)@[i].tokens().len() <= i32::MAX
            },
        forall|k: int| 0 <= k < disallowed@.len() ==> #[trigger] disallowed@[k] < old(observers)@.len(),
    ensures
        final(g).wf(),
        final(g).inputs_distinct(),
        final(g).necessary_placed(),
        final(g).len() == old(g).len(),
        old(g).parents_needed() ==> final(g).parents_needed(),
        final(g).needs_only_lost(old(g)),
        final(rch).wf(),
        final(g).rch_consistent(final(rch)),
        final(observers)@.len() == old(observers)@.len(),
        forall|i: int|
            0 <= i < final(observers)@.len() ==> {
                &&& (#[trigger] final(observers)@[i]).wf()
                &&& final(observers)@[i].spec_id() == old(observers)@[i].spec_id()
                &&& final(observers)@[i].spec_observing() == old(observers)@[i].spec_observing()
                &&& final(observers)@[i].tokens() == old(observers)@[i].tokens()
                &&& observer_step(old(observers)@[i].spec_state(), final(observers)@[i].spec_state())
            },
        ok ==> forall|k: int|
            0 <= k < disallowed@.len() ==> (#[trigger] final(observers)@[disallowed@[k] as int]).spec_state()
                == ObserverState::Unlinked,
        ok ==> forall|n: int|
            0 <= n < final(g).len() ==> {
                &&& #[trigger] final(g).nodes@[n].num_observers == old(g).nodes@[n].num_observers - listed_watchers(
                    old(observers)@,
                    disallowed@,
                    ObserverState::Disallowed,
                    n,
                    disallowed@.len() as int,
                )
                &&& final(g).nodes@[n].num_on_update_handlers == old(g).nodes@[n].num_on_update_handlers
                    - listed_subscriptions(
                    old(observers)@,
                    disallowed@,
                    ObserverState::Disallowed,
                    n,
                    disallowed@.len() as int,
                )
            },
        !ok ==> exists|k: int|
            0 <= k < disallowed@.len() && #[trigger] stopped_at_disallowed(final(g), final(observers)@, disallowed@, k),
        final(stats).link_counts_grown(*old(stats)),
        old(stats).became_necessary == final(stats).became_necessary,
        old(stats).invalidated == final(stats).invalidated,
        handle_after_grown(old(handle_after)@, final(handle_after)@, old(g)),
{
    let mut k: usize = 0;
    while k < disallowed.len()
        invariant
            g.wf(),
            g.inputs_distinct(),
            g.necessary_placed(),
            g.len() == old(g).len(),
            old(g).parents_needed() ==> g.parents_needed(),
            g.needs_only_lost(old(g)),
            rch.wf(),
            g.rch_consistent(rch),
            k <= disallowed@.len(),
            observers@.len() == old(observers)@.len(),
            forall|k2: int| 0 <= k2 < disallowed@.len() ==> #[trigger] disallowed@[k2] < observers@.len(),
            forall|i: int|
                0 <= i < observers@.len() ==> {
                    &&& (#[trigger] observers@[i]).wf()
                    &&& observers@[i].spec_id() == old(observers)@[i].spec_id()
                    &&& observers@[i].spec_observing() == old(observers)@[i].spec_observing()
                    &&& observers@[i].tokens() == old(observers)@[i].tokens()
                    &&& observer_step(old(observers)@[i].spec_state(), observers@[i].spec_state())
                    &&& observers@[i].spec_observing() < g.len()
                    &&& observers@[i].tokens().len() <= i32::MAX
                },
            forall|k2: int|
                0 <= k2 < k ==> (#[trigger] observers@[disallowed@[k2] as int]).spec_state() == ObserverState::Unlinked,
            forall|i: int|
                0 <= i < observers@.len() && (#[trigger] observers@[i]).spec_state() != old(observers)@[i].spec_state()
                    ==> observers@[i].spec_state() == ObserverState::Unlinked && old(observers)@[i].spec_state()
                    == ObserverState::Disallowed,
            forall|n: int|
                0 <= n < g.len() ==> {
                    &&& #[trigger] g.nodes@[n].num_observers == old(g).nodes@[n].num_observers - listed_watchers(
                        old(observers)@,
                        disallowed@,
                        ObserverState::Disallowed,
                        n,
                        k as int,
                    )
                    &&& g.nodes@[n].num_on_update_handlers == old(g).nodes@[n].num_on_update_handlers
                        - listed_subscriptions(old(observers)@, disallowed@, ObserverState::Disallowed, n, k as int)
                },
            forall|n: int| 0 <= n < g.len() ==> #[trigger] g.nodes@[n].num_on_update_handlers
                <= old(g).nodes@[n].num_on_update_handlers,
            stats.link_counts_grown(*old(stats)),
            old(stats).became_necessary == stats.became_necessary,
            old(stats).invalidated == stats.invalidated,
            handle_after_grown(old(handle_after)@, handle_after@, old(g)),
        decreases disallowed@.len() - k,
    {
        let idx = disallowed[k];
        let ghost before = observers@;
        let ghost gk = *g;
        match observers[idx].state() {
            ObserverState::Disallowed => {},
            _ => {
                proof {
                    assert(stopped_at_disallowed(g, observers@, disallowed@, k as int));
                }
                return false;
            },
        }
        let node = observers[idx].observing();
        if g.nodes[node].num_observers == 0 {
            proof {
                assert(stopped_at_disallowed(g, observers@, disallowed@, k as int));
            }
            return false;
        }
        let mut o = observers.remove(idx);
        let removed = o.unlink();
        observers.insert(idx, o);
        proof {
            assert(old(observers)@[idx as int].spec_state() == ObserverState::Disallowed);
            assert(observers@ =~= before.update(idx as int, observers@[idx as int]));
            assert forall|i: int| 0 <= i < observers@.len() implies {
                &&& (#[trigger] observers@[i]).wf()
                &&& observers@[i].spec_id() == old(observers)@[i].spec_id()
                &&& observers@[i].spec_observing() == old(observers)@[i].spec_observing()
                &&& observers@[i].tokens() == old(observers)@[i].tokens()
                &&& observer_step(old(observers)@[i].spec_state(), observers@[i].spec_state())
                &&& observers@[i].spec_observing() < g.len()
                &&& observers@[i].tokens().len() <= i32::MAX
            } by {
                if i != idx as int {
                    assert(observers@[i] == before[i]);
                } else {
                    assert(before[i].spec_state() == ObserverState::Disallowed);
                    assert(old(observers)@[i].spec_state() == ObserverState::Disallowed);
                }
            }
            assert forall|i: int|
                0 <= i < observers@.len() && (#[trigger] observers@[i]).spec_state() != old(observers)@[i].spec_state()
                    implies observers@[i].spec_state() == ObserverState::Unlinked && old(observers)@[i].spec_state()
                    == ObserverState::Disallowed by {
                if i != idx as int {
                    assert(observers@[i] == before[i]);
                } else {
                    assert(before[i].spec_state() == ObserverState::Disallowed);
                }
            }
            assert forall|k2: int|
                0 <= k2 < k + 1 implies (#[trigger] observers@[disallowed@[k2] as int]).spec_state()
                    == ObserverState::Unlinked by {
                if k2 < k {
                    let j = disallowed@[k2] as int;
                    if j != idx as int {
                        assert(observers@[j] == before[j]);
                    }
                }
            }
        }
        if g.nodes[node].num_on_update_handlers < i32::MIN + removed {
            proof {
                assert(stopped_at_disallowed(g, observers@, disallowed@, k as int));
            }
            return false;
        }
        g.nodes[node].num_on_update_handlers = g.nodes[node].num_on_update_handlers - removed;
        proof {
            lemma_observers_changed(&gk, g, rch, node as int);
            assert forall|i: int| 0 <= i < g.len() && #[trigger] g.spec_is_necessary(i) implies old(g).spec_is_necessary(i) by {
                assert(gk.spec_is_necessary(i));
            }
        }
        let ghost g1 = *g;
        let ghost h1 = handle_after@;
        g.remove_observer(rch, stats, handle_after, node);
        proof {
            assert forall|n: int| 0 <= n < g1.len() implies #[trigger] g1.nodes@[n].num_on_update_handlers
                <= old(g).nodes@[n].num_on_update_handlers by {
                if n != node as int {
                    assert(g1.nodes@[n] == gk.nodes@[n]);
                }
            }
            lemma_handle_after_trans(old(handle_after)@, h1, handle_after@, old(g), &g1);
            assert forall|n: int| 0 <= n < g.len() implies #[trigger] g.nodes@[n].num_on_update_handlers
                <= old(g).nodes@[n].num_on_update_handlers by {
                assert(g.nodes@[n].num_on_update_handlers == g1.nodes@[n].num_on_update_handlers);
            }
            assert forall|i: int| 0 <= i < g.len() && #[trigger] g.spec_is_necessary(i) implies old(g).spec_is_necessary(i) by {
                assert(g1.spec_is_necessary(i));
            }
            assert forall|n: int| 0 <= n < g.len() implies {
                &&& #[trigger] g.nodes@[n].num_observers == old(g).nodes@[n].num_observers - listed_watchers(
                    old(observers)@,
                    disallowed@,
                    ObserverState::Disallowed,
                    n,
                    k + 1,
                )
                &&& g.nodes@[n].num_on_update_handlers == old(g).nodes@[n].num_on_update_handlers
                    - listed_subscriptions(old(observers)@, disallowed@, ObserverState::Disallowed, n, k + 1)
            } by {
                assert(gk.nodes@[n].num_observers == old(g).nodes@[n].num_observers - listed_watchers(
                    old(observers)@,
                    disallowed@,
                    ObserverState::Disallowed,
                    n,
                    k as int,
                ));
                if n != node as int {
                    assert(g1.nodes@[n] == gk.nodes@[n]);
                }
            }
        }
        k = k + 1;
    }
    true
}

} // verus!
