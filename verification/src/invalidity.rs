use vstd::prelude::*;

use crate::adjust_heights_heap::AdjustHeightsHeap;
use crate::graph::{lemma_indices_below, Graph, Kind, Node};
use crate::necessity::lemma_slot_filled;
use crate::node_state::{handle_after_grown, lemma_handle_after_trans};
use crate::public::Stats;
use crate::recompute_heap::RecomputeHeap;
use crate::stabilisation_num::StabilisationNum;

verus! {

/// Number of valid nodes among the first `n`.
pub open spec fn count_valid(g: &Graph, n: int) -> nat
    decreases n,
{
    if n <= 0 {
        0
    } else {
        count_valid(g, n - 1) + (if g.nodes@[n - 1].is_valid {
            1nat
        } else {
            0nat
        })
    }
}

/// Number of right-hand-side nodes recorded by the first `n` nodes.
pub open spec fn rhs_total(g: &Graph, n: int) -> nat
    decreases n,
{
    if n <= 0 {
        0
    } else {
        rhs_total(g, n - 1) + g.nodes@[n - 1].rhs_nodes@.len()
    }
}

/// What invalidation uses up: valid nodes, and recorded right-hand-side nodes.
pub open spec fn invalidation_measure(g: &Graph) -> nat {
    count_valid(g, g.len()) + rhs_total(g, g.len())
}

/// Every entry of the invalidity stack is a node of `g`.
pub open spec fn stack_ok(stack: Seq<usize>, g: &Graph) -> bool {
    forall|k: int| 0 <= k < stack.len() ==> #[trigger] stack[k] < g.len()
}

/// Nodes only lose validity and recorded right-hand-side nodes: the measure does not
/// grow, and it shrinks when one node loses either.
proof fn lemma_measure(g1: &Graph, g2: &Graph, n: int, p: int)
    requires
        0 <= n <= g1.len(),
        g1.len() == g2.len(),
        forall|i: int|
            0 <= i < g1.len() ==> (#[trigger] g2.nodes@[i].is_valid ==> g1.nodes@[i].is_valid)
                && g2.nodes@[i].rhs_nodes@.len() <= g1.nodes@[i].rhs_nodes@.len(),
    ensures
        count_valid(g2, n) <= count_valid(g1, n),
        rhs_total(g2, n) <= rhs_total(g1, n),
        0 <= p < n && g1.nodes@[p].is_valid && !g2.nodes@[p].is_valid ==> count_valid(g2, n) < count_valid(
            g1,
            n,
        ),
        0 <= p < n && g2.nodes@[p].rhs_nodes@.len() < g1.nodes@[p].rhs_nodes@.len() ==> rhs_total(g2, n)
            < rhs_total(g1, n),
    decreases n,
{
    if n > 0 {
        lemma_measure(g1, g2, n - 1, p);
        assert(g2.nodes@[n - 1].is_valid ==> g1.nodes@[n - 1].is_valid);
    }
}

/// Shorthand for the measure comparison of two whole graphs.
proof fn lemma_measure_le(g1: &Graph, g2: &Graph, p: int)
    requires
        g1.len() == g2.len(),
        forall|i: int|
            0 <= i < g1.len() ==> (#[trigger] g2.nodes@[i].is_valid ==> g1.nodes@[i].is_valid)
                && g2.nodes@[i].rhs_nodes@.len() <= g1.nodes@[i].rhs_nodes@.len(),
    ensures
        invalidation_measure(g2) <= invalidation_measure(g1),
        0 <= p < g1.len() && g1.nodes@[p].is_valid && !g2.nodes@[p].is_valid ==> invalidation_measure(g2)
            < invalidation_measure(g1),
        0 <= p < g1.len() && g2.nodes@[p].rhs_nodes@.len() < g1.nodes@[p].rhs_nodes@.len()
            ==> invalidation_measure(g2) < invalidation_measure(g1),
{
    lemma_measure(g1, g2, g1.len(), p);
}

/// Changing fields that hold no parent/child bookkeeping (or emptying the recorded
/// right-hand-side nodes, or giving a node a height of at least `0`) keeps the
/// structural invariants.
proof fn lemma_bookkeeping_kept(g0: &Graph, g: &Graph, rch: &RecomputeHeap)
    requires
        g0.wf(),
        g0.inputs_distinct(),
        g0.necessary_placed(),
        g0.rch_consistent(rch),
        g.len() == g0.len(),
        forall|i: int|
            0 <= i < g.len() ==> {
                &&& (#[trigger] g.nodes@[i]).parents@ == g0.nodes@[i].parents@
                &&& g.nodes@[i].children@ == g0.nodes@[i].children@
                &&& g.nodes@[i].my_parent_index_in_child_at_index@ == g0.nodes@[i].my_parent_index_in_child_at_index@
                &&& g.nodes@[i].my_child_index_in_parent_at_index@ == g0.nodes@[i].my_child_index_in_parent_at_index@
                &&& g.nodes@[i].created_in == g0.nodes@[i].created_in
                &&& g.nodes@[i].num_observers == g0.nodes@[i].num_observers
                &&& g.nodes@[i].force_necessary == g0.nodes@[i].force_necessary
                &&& (g.nodes@[i].rhs_nodes@ == g0.nodes@[i].rhs_nodes@ || g.nodes@[i].rhs_nodes@.len() == 0)
                &&& (g.nodes@[i].height == g0.nodes@[i].height || g.nodes@[i].height >= 0)
            },
    ensures
        g.wf(),
        g.inputs_distinct(),
        g.necessary_placed(),
        (forall|i: int|
            0 <= i < g.len() ==> #[trigger] g.nodes@[i].height_in_recompute_heap
                == g0.nodes@[i].height_in_recompute_heap) ==> g.rch_consistent(rch),
        forall|i: int| 0 <= i < g.len() ==> #[trigger] g.spec_is_necessary(i) == g0.spec_is_necessary(i),
        forall|i: int| 0 <= i < g.len() ==> #[trigger] g.children(i) == g0.children(i),
        forall|c: int, ci: int, p: int| 0 <= p < g.len() ==> (#[trigger] g.is_registered(c, ci, p) == g0.is_registered(c, ci, p)),
{
    assert forall|c: int, pi: int|
        0 <= c < g.len() && 0 <= pi < g.parents(c).len() implies #[trigger] g.parents(c)[pi] < g.len() by {
        assert(g.nodes@[c].parents@ == g0.nodes@[c].parents@);
        assert(g0.parents(c)[pi] < g0.len());
    }
    assert forall|p: int, ci: int|
        0 <= p < g.len() && 0 <= ci < g.children(p).len() implies #[trigger] g.children(p)[ci] < g.len() by {
        assert(g.nodes@[p].children@ == g0.nodes@[p].children@);
        assert(g0.children(p)[ci] < g0.len());
    }
    assert forall|b: int, r: int|
        0 <= b < g.len() && 0 <= r < g.nodes@[b].rhs_nodes@.len() implies #[trigger] g.nodes@[b].rhs_nodes@[r]
            < g.len() by {
        assert(g.nodes@[b].rhs_nodes@ == g0.nodes@[b].rhs_nodes@);
    }
    assert forall|n: int| 0 <= n < g.len() implies match #[trigger] g.nodes@[n].created_in {
        Some(s) => s < g.len(),
        None => true,
    } by {
        assert(g.nodes@[n].created_in == g0.nodes@[n].created_in);
        assert(match g0.nodes@[n].created_in {
            Some(s) => s < g0.len(),
            None => true,
        });
    }
    assert forall|c: int, pi: int| 0 <= c < g.len() && 0 <= pi < g.parents(c).len() implies #[trigger] g.child_link_ok(c, pi) by {
        assert(g0.child_link_ok(c, pi));
        assert(g.nodes@[c].parents@ == g0.nodes@[c].parents@);
        let p = g0.parents(c)[pi] as int;
        assert(g0.parents(c)[pi] < g0.len());
        assert(g.nodes@[p].children@ == g0.nodes@[p].children@);
    }
    assert forall|p: int, ci: int|
        0 <= p < g.len() && 0 <= ci < g.mpi(p).len() && g.mpi(p)[ci] >= 0 implies #[trigger] g.parent_link_ok(p, ci) by {
        assert(g.nodes@[p].parents@ == g0.nodes@[p].parents@);
        assert(g0.parent_link_ok(p, ci));
        let c = g0.children(p)[ci] as int;
        assert(g0.children(p)[ci] < g0.len());
        assert(g.nodes@[c].parents@ == g0.nodes@[c].parents@);
    }
    assert forall|p: int| 0 <= p < g.len() implies {
        &&& (#[trigger] g.children(p)).no_duplicates()
        &&& forall|ci: int| 0 <= ci < g.children(p).len() ==> g.children(p)[ci] != p
    } by {
        assert(g.children(p) == g0.children(p));
        assert(g0.children(p).no_duplicates());
    }
    assert forall|i: int| 0 <= i < g.len() implies #[trigger] g.spec_is_necessary(i) == g0.spec_is_necessary(i) by {
        assert(g.nodes@[i].parents@ == g0.nodes@[i].parents@);
    }
    assert forall|i: int| 0 <= i < g.len() && #[trigger] g.spec_is_necessary(i) implies g.height(i) >= 0 by {
        assert(g.spec_is_necessary(i) == g0.spec_is_necessary(i));
    }
    if forall|i: int|
        0 <= i < g.len() ==> #[trigger] g.nodes@[i].height_in_recompute_heap == g0.nodes@[i].height_in_recompute_heap {
        assert forall|i: int| 0 <= i < g.len() implies #[trigger] g.nodes@[i].height_in_recompute_heap == (if rch@.contains_key(
            i as usize,
        ) {
            rch@[i as usize]
        } else {
            -1
        }) by {
            assert(g.nodes@[i].height_in_recompute_heap == g0.nodes@[i].height_in_recompute_heap);
        }
    }
    assert forall|c: int, ci: int, p: int| 0 <= p < g.len() implies (#[trigger] g.is_registered(c, ci, p) == g0.is_registered(
        c,
        ci,
        p,
    )) by {
        assert(g.nodes@[p].children@ == g0.nodes@[p].children@);
    }
}

/// Heights that did not move stay within bounds.
proof fn lemma_heights_same(g0: &Graph, g: &Graph, max: int)
    requires
        g0.heights_within(max),
        g.len() == g0.len(),
        forall|i: int| 0 <= i < g.len() ==> #[trigger] g.nodes@[i].height == g0.nodes@[i].height,
    ensures
        g.heights_within(max),
{
    assert forall|i: int| 0 <= i < g.len() implies -1 <= #[trigger] g.height(i) <= max by {
        assert(g.nodes@[i].height == g0.nodes@[i].height);
        assert(-1 <= g0.height(i) <= max);
    }
}

/// Node `node` was stamped first and then made invalid, while the nodes between were
/// stamped as `stamped_invalid` says: the whole run is stamped that way.
proof fn lemma_invalidated(
    g0: &Graph,
    ga: &Graph,
    g3: &Graph,
    g5: &Graph,
    gf: &Graph,
    node: int,
    now: StabilisationNum,
)
    requires
        0 <= node < g0.len(),
        ga.len() == g0.len(),
        g3.len() == g0.len(),
        g5.len() == g0.len(),
        gf.len() == g0.len(),
        g0.nodes@[node].is_valid,
        forall|i: int| 0 <= i < g0.len() && i != node ==> #[trigger] Graph::same_stamps(ga.nodes@[i], g0.nodes@[i]),
        ga.nodes@[node].is_valid,
        !ga.nodes@[node].has_value,
        ga.nodes@[node].changed_at == now,
        ga.nodes@[node].recomputed_at == now,
        forall|i: int| 0 <= i < g0.len() ==> #[trigger] Graph::same_stamps(g3.nodes@[i], ga.nodes@[i]),
        g5.stamped_invalid(g3, now),
        forall|i: int| 0 <= i < g0.len() && i != node ==> #[trigger] Graph::same_stamps(gf.nodes@[i], g5.nodes@[i]),
        !gf.nodes@[node].is_valid,
        gf.nodes@[node].has_value == g5.nodes@[node].has_value,
        gf.nodes@[node].changed_at == g5.nodes@[node].changed_at,
        gf.nodes@[node].recomputed_at == g5.nodes@[node].recomputed_at,
    ensures
        gf.stamped_invalid(g0, now),
{
    assert(Graph::same_stamps(g3.nodes@[node], ga.nodes@[node]));
    assert forall|i: int| 0 <= i < gf.len() implies (#[trigger] gf.nodes@[i].is_valid ==> g0.nodes@[i].is_valid) by {
        if i != node {
            assert(Graph::same_stamps(gf.nodes@[i], g5.nodes@[i]));
            assert(Graph::same_stamps(g3.nodes@[i], ga.nodes@[i]));
            assert(Graph::same_stamps(ga.nodes@[i], g0.nodes@[i]));
            assert(g5.nodes@[i].is_valid ==> g3.nodes@[i].is_valid);
        }
    }
    assert forall|i: int| 0 <= i < gf.len() && (gf.nodes@[i].is_valid || !g0.nodes@[i].is_valid) implies {
        &&& (#[trigger] gf.nodes@[i]).has_value == g0.nodes@[i].has_value
        &&& gf.nodes@[i].changed_at == g0.nodes@[i].changed_at
        &&& gf.nodes@[i].recomputed_at == g0.nodes@[i].recomputed_at
    } by {
        assert(Graph::same_stamps(gf.nodes@[i], g5.nodes@[i]));
        assert(Graph::same_stamps(g3.nodes@[i], ga.nodes@[i]));
        assert(Graph::same_stamps(ga.nodes@[i], g0.nodes@[i]));
        assert(g5.nodes@[i].is_valid ==> g3.nodes@[i].is_valid);
        assert(g5.nodes@[i] == g5.nodes@[i]);
    }
    assert forall|i: int| 0 <= i < gf.len() && !gf.nodes@[i].is_valid && g0.nodes@[i].is_valid implies {
        &&& !(#[trigger] gf.nodes@[i]).has_value
        &&& gf.nodes@[i].changed_at == now
        &&& gf.nodes@[i].recomputed_at == now
    } by {
        assert(Graph::same_stamps(g3.nodes@[i], ga.nodes@[i]));
        assert(g5.nodes@[i] == g5.nodes@[i]);
        assert(g5.nodes@[i].is_valid ==> g3.nodes@[i].is_valid);
        if i != node {
            assert(Graph::same_stamps(gf.nodes@[i], g5.nodes@[i]));
            assert(Graph::same_stamps(ga.nodes@[i], g0.nodes@[i]));
        }
    }
}

/// The invalidation frame composes.
#[verifier::spinoff_prover]
proof fn lemma_frame_trans(
    g0: &Graph,
    g1: &Graph,
    g2: &Graph,
    r0: &RecomputeHeap,
    r1: &RecomputeHeap,
    r2: &RecomputeHeap,
)
    requires
        g0.rch_consistent(r0),
        g1.invalidation_frame(g0, r1, r0),
        g2.invalidation_frame(g1, r2, r1),
    ensures
        g2.invalidation_frame(g0, r2, r0),
{
    assert forall|i: int| 0 <= i < g2.len() implies #[trigger] g2.children(i) == g0.children(i) by {
        assert(g1.children(i) == g0.children(i));
    }
    assert forall|c: int, ci: int, p: int|
        0 <= p < g2.len() && #[trigger] g2.is_registered(c, ci, p) implies g0.is_registered(c, ci, p) by {
        assert(g1.is_registered(c, ci, p));
    }
    assert forall|i: int| 0 <= i < g2.len() && #[trigger] g2.spec_is_necessary(i) implies g0.spec_is_necessary(i) by {
        assert(g1.spec_is_necessary(i));
    }
    assert forall|i: int| 0 <= i < g2.len() implies (#[trigger] g2.nodes@[i].is_valid ==> g0.nodes@[i].is_valid)
        && g2.nodes@[i].rhs_nodes@.len() <= g0.nodes@[i].rhs_nodes@.len() by {
        assert(g1.nodes@[i].is_valid ==> g0.nodes@[i].is_valid);
        assert(g2.nodes@[i].is_valid ==> g1.nodes@[i].is_valid);
    }
    assert forall|n: usize| #[trigger] r2@.contains_key(n) implies r0@.contains_key(n) && r2@[n] == r0@[n] by {
        assert(r1@.contains_key(n));
    }
    assert forall|i: int|
        0 <= i < g2.len() implies (#[trigger] g2.nodes@[i].num_observers) == g0.nodes@[i].num_observers
            && g2.nodes@[i].num_on_update_handlers == g0.nodes@[i].num_on_update_handlers
            && g2.nodes@[i].force_necessary == g0.nodes@[i].force_necessary && g2.nodes@[i].kind
            == g0.nodes@[i].kind by {
        assert(g1.nodes@[i].num_observers == g0.nodes@[i].num_observers);
        assert(g2.nodes@[i].num_observers == g1.nodes@[i].num_observers);
    }
    assert forall|n: usize|
        #[trigger] r0@.contains_key(n) && !r2@.contains_key(n) implies !g2.nodes@[n as int].is_valid
            || !g2.spec_is_necessary(n as int) by {
        assert(n < g0.len());
        if r1@.contains_key(n) {
        } else {
            assert(!g1.nodes@[n as int].is_valid || !g1.spec_is_necessary(n as int));
            assert(g2.nodes@[n as int].is_valid ==> g1.nodes@[n as int].is_valid);
            if g2.spec_is_necessary(n as int) {
                assert(g1.spec_is_necessary(n as int));
            }
        }
    }
    assert forall|p: int| 0 <= p < g2.len() && #[trigger] g0.parent_fine(p) implies g2.parent_fine(p) by {
        assert(g1.parent_fine(p));
    }
    assert(g2.needs_only_lost(g0));
    assert(Graph::heap_shrunk(r2, r0));
    assert(g2.left_heap_settled(r2, r0));
}

/// A graph fresh from `g0` with its own stamps changed at some node, then unhooked, is in
/// the invalidation frame of `g0`.
proof fn lemma_frame_from_unhook(g0: &Graph, g1: &Graph, g2: &Graph, r0: &RecomputeHeap, r2: &RecomputeHeap)
    requires
        g0.rch_consistent(r0),
        g1.wf(),
        g1.len() == g0.len(),
        forall|i: int|
            0 <= i < g1.len() ==> {
                &&& (#[trigger] g1.nodes@[i]).parents@ == g0.nodes@[i].parents@
                &&& g1.nodes@[i].children@ == g0.nodes@[i].children@
                &&& g1.nodes@[i].my_parent_index_in_child_at_index@ == g0.nodes@[i].my_parent_index_in_child_at_index@
                &&& g1.nodes@[i].num_observers == g0.nodes@[i].num_observers
                &&& g1.nodes@[i].num_on_update_handlers == g0.nodes@[i].num_on_update_handlers
                &&& g1.nodes@[i].force_necessary == g0.nodes@[i].force_necessary
                &&& g1.nodes@[i].kind == g0.nodes@[i].kind
                &&& g1.nodes@[i].is_valid == g0.nodes@[i].is_valid
                &&& g1.nodes@[i].rhs_nodes@ == g0.nodes@[i].rhs_nodes@
                &&& g1.nodes@[i].height_in_recompute_heap == g0.nodes@[i].height_in_recompute_heap
            },
        g2.wf(),
        g2.inputs_distinct(),
        g2.necessary_placed(),
        g2.unhooked_from(g1),
        g2.fine_kept(g1),
        r2.wf(),
        g2.rch_consistent(r2),
        Graph::heap_shrunk(r2, r0),
        g2.left_heap_unneeded(r2, r0),
    ensures
        g2.invalidation_frame(g0, r2, r0),
        forall|i: int| 0 <= i < g2.len() ==> #[trigger] Graph::same_stamps(g2.nodes@[i], g1.nodes@[i]),
        forall|i: int| 0 <= i < g2.len() ==> #[trigger] g2.nodes@[i].rhs_nodes@ == g1.nodes@[i].rhs_nodes@,
{
    assert forall|i: int| 0 <= i < g2.len() implies #[trigger] g2.children(i) == g0.children(i) by {
        assert(g2.nodes@[i].children@ == g1.nodes@[i].children@);
    }
    assert forall|c: int, ci: int, p: int|
        0 <= p < g2.len() && #[trigger] g2.is_registered(c, ci, p) implies g0.is_registered(c, ci, p) by {
        assert(g1.is_registered(c, ci, p));
        assert(g1.nodes@[p].children@ == g0.nodes@[p].children@);
    }
    assert forall|i: int| 0 <= i < g2.len() && #[trigger] g2.spec_is_necessary(i) implies g0.spec_is_necessary(i) by {
        assert(g1.spec_is_necessary(i));
        assert(g1.nodes@[i].parents@ == g0.nodes@[i].parents@);
    }
    assert forall|i: int| 0 <= i < g2.len() implies #[trigger] Graph::same_stamps(g2.nodes@[i], g1.nodes@[i]) by {
        assert(g2.nodes@[i].is_valid == g1.nodes@[i].is_valid);
    }
    assert forall|i: int| 0 <= i < g2.len() implies #[trigger] g2.nodes@[i].rhs_nodes@ == g1.nodes@[i].rhs_nodes@ by {
        assert(g2.nodes@[i].is_valid == g1.nodes@[i].is_valid);
    }
    assert forall|i: int| 0 <= i < g2.len() implies (#[trigger] g2.nodes@[i].is_valid ==> g0.nodes@[i].is_valid)
        && g2.nodes@[i].rhs_nodes@.len() <= g0.nodes@[i].rhs_nodes@.len() by {
        assert(g2.nodes@[i].rhs_nodes@ == g1.nodes@[i].rhs_nodes@);
        assert(Graph::same_stamps(g2.nodes@[i], g1.nodes@[i]));
    }
    assert forall|n: usize|
        #[trigger] r0@.contains_key(n) && !r2@.contains_key(n) implies !g2.nodes@[n as int].is_valid
            || !g2.spec_is_necessary(n as int) by {}
    assert forall|i: int|
        0 <= i < g2.len() implies (#[trigger] g2.nodes@[i].num_observers) == g0.nodes@[i].num_observers
            && g2.nodes@[i].num_on_update_handlers == g0.nodes@[i].num_on_update_handlers
            && g2.nodes@[i].force_necessary == g0.nodes@[i].force_necessary && g2.nodes@[i].kind
            == g0.nodes@[i].kind by {
        assert(g2.nodes@[i].kind == g1.nodes@[i].kind);
    }
    assert forall|p: int| 0 <= p < g2.len() && #[trigger] g0.parent_fine(p) implies g2.parent_fine(p) by {
        assert forall|c: int, ci: int| #[trigger] g1.is_registered(c, ci, p) implies g1.spec_is_necessary(p) by {
            assert(g1.nodes@[p].children@ == g0.nodes@[p].children@);
            assert(g0.is_registered(c, ci, p));
            assert(g1.nodes@[p].parents@ == g0.nodes@[p].parents@);
        }
        assert(g1.parent_fine(p));
    }
}

/// A settled node stays settled through an invalidation step.
proof fn lemma_settled_kept(g0: &Graph, g1: &Graph, r0: &RecomputeHeap, r1: &RecomputeHeap)
    requires
        g0.len() <= usize::MAX,
        g0.rch_consistent(r0),
        g1.invalidation_frame(g0, r1, r0),
    ensures
        forall|n: int| 0 <= n < g0.len() && #[trigger] g0.settled(r0, n) ==> g1.settled(r1, n),
{
    assert forall|n: int| 0 <= n < g0.len() && #[trigger] g0.settled(r0, n) implies g1.settled(r1, n) by {
        assert(g1.nodes@[n].is_valid ==> g0.nodes@[n].is_valid);
        if g1.spec_is_necessary(n) {
            assert(g0.spec_is_necessary(n));
        }
        assert((n as usize) as int == n);
        if r0@.contains_key(n as usize) && !r1@.contains_key(n as usize) {
            assert(!g1.nodes@[(n as usize) as int].is_valid || !g1.spec_is_necessary((n as usize) as int));
        }
    }
}

/// Stamps that did not move keep a stamping.
proof fn lemma_stamped_same(g0: &Graph, g1: &Graph, g2: &Graph, now: StabilisationNum)
    requires
        g1.len() == g0.len(),
        g2.len() == g1.len(),
        g1.stamped_invalid(g0, now),
        forall|i: int| 0 <= i < g2.len() ==> #[trigger] Graph::same_stamps(g2.nodes@[i], g1.nodes@[i]),
    ensures
        g2.stamped_invalid(g0, now),
{
    assert forall|i: int| 0 <= i < g2.len() implies (#[trigger] g2.nodes@[i].is_valid ==> g0.nodes@[i].is_valid) by {
        assert(Graph::same_stamps(g2.nodes@[i], g1.nodes@[i]));
        assert(g1.nodes@[i].is_valid ==> g0.nodes@[i].is_valid);
    }
    assert forall|i: int| 0 <= i < g2.len() && (g2.nodes@[i].is_valid || !g0.nodes@[i].is_valid) implies {
        &&& (#[trigger] g2.nodes@[i]).has_value == g0.nodes@[i].has_value
        &&& g2.nodes@[i].changed_at == g0.nodes@[i].changed_at
        &&& g2.nodes@[i].recomputed_at == g0.nodes@[i].recomputed_at
    } by {
        assert(Graph::same_stamps(g2.nodes@[i], g1.nodes@[i]));
        assert(g1.nodes@[i] == g1.nodes@[i]);
    }
    assert forall|i: int| 0 <= i < g2.len() && !g2.nodes@[i].is_valid && g0.nodes@[i].is_valid implies {
        &&& !(#[trigger] g2.nodes@[i]).has_value
        &&& g2.nodes@[i].changed_at == now
        &&& g2.nodes@[i].recomputed_at == now
    } by {
        assert(Graph::same_stamps(g2.nodes@[i], g1.nodes@[i]));
        assert(g1.nodes@[i] == g1.nodes@[i]);
    }
}

/// An invalidation step does not grow the measure, and shrinks it when a node lost
/// validity.
proof fn lemma_measure_frame(g0: &Graph, g1: &Graph, r0: &RecomputeHeap, r1: &RecomputeHeap, p: int)
    requires
        g1.invalidation_frame(g0, r1, r0),
    ensures
        invalidation_measure(g1) <= invalidation_measure(g0),
        0 <= p < g0.len() && g0.nodes@[p].is_valid && !g1.nodes@[p].is_valid ==> invalidation_measure(g1)
            < invalidation_measure(g0),
{
    assert forall|i: int| 0 <= i < g0.len() implies (#[trigger] g1.nodes@[i].is_valid ==> g0.nodes@[i].is_valid)
        && g1.nodes@[i].rhs_nodes@.len() <= g0.nodes@[i].rhs_nodes@.len() by {
        assert(g1.nodes@[i].is_valid ==> g0.nodes@[i].is_valid);
    }
    lemma_measure_le(g0, g1, p);
}

/// Nodes kept fine keep every registered parent needed.
proof fn lemma_needed_kept(g0: &Graph, g: &Graph)
    requires
        g.len() == g0.len(),
        g.fine_kept(g0),
    ensures
        g0.parents_needed() ==> g.parents_needed(),
{
    if g0.parents_needed() {
        assert forall|c: int, ci: int, p: int|
            0 <= p < g.len() && #[trigger] g.is_registered(c, ci, p) implies g.spec_is_necessary(p) by {
            assert forall|c2: int, ci2: int| #[trigger] g0.is_registered(c2, ci2, p) implies g0.spec_is_necessary(p) by {}
            assert(g0.parent_fine(p));
            assert(g.parent_fine(p));
        }
    }
}

/// Stamping composes.
proof fn lemma_stamped_trans(g0: &Graph, g1: &Graph, g2: &Graph, now: StabilisationNum)
    requires
        g1.len() == g0.len(),
        g2.len() == g1.len(),
        g1.stamped_invalid(g0, now),
        g2.stamped_invalid(g1, now),
    ensures
        g2.stamped_invalid(g0, now),
{
    assert forall|i: int| 0 <= i < g2.len() implies (#[trigger] g2.nodes@[i].is_valid ==> g0.nodes@[i].is_valid) by {
        assert(g2.nodes@[i].is_valid ==> g1.nodes@[i].is_valid);
        assert(g1.nodes@[i].is_valid ==> g0.nodes@[i].is_valid);
    }
    assert forall|i: int| 0 <= i < g2.len() && (g2.nodes@[i].is_valid || !g0.nodes@[i].is_valid) implies {
        &&& (#[trigger] g2.nodes@[i]).has_value == g0.nodes@[i].has_value
        &&& g2.nodes@[i].changed_at == g0.nodes@[i].changed_at
        &&& g2.nodes@[i].recomputed_at == g0.nodes@[i].recomputed_at
    } by {
        assert(g2.nodes@[i].is_valid ==> g1.nodes@[i].is_valid);
        assert(g1.nodes@[i].is_valid ==> g0.nodes@[i].is_valid);
        assert(g1.nodes@[i] == g1.nodes@[i]);
    }
    assert forall|i: int| 0 <= i < g2.len() && !g2.nodes@[i].is_valid && g0.nodes@[i].is_valid implies {
        &&& !(#[trigger] g2.nodes@[i]).has_value
        &&& g2.nodes@[i].changed_at == now
        &&& g2.nodes@[i].recomputed_at == now
    } by {
        assert(g1.nodes@[i] == g1.nodes@[i]);
        assert(g2.nodes@[i].is_valid ==> g1.nodes@[i].is_valid);
    }
}

/// Taking a node out of the recompute heap and clearing its recorded position keeps
/// the heap and the graph in step.
proof fn lemma_heap_slot_cleared(gb: &Graph, g: &Graph, rb: &RecomputeHeap, rch: &RecomputeHeap, node: int)
    requires
        gb.rch_consistent(rb),
        0 <= node < gb.len(),
        g.len() == gb.len(),
        gb.len() <= usize::MAX,
        forall|i: int| 0 <= i < g.len() && i != node ==> #[trigger] g.nodes@[i] == gb.nodes@[i],
        g.nodes@[node] == (crate::graph::Node { height_in_recompute_heap: -1i32, ..gb.nodes@[node] }),
        rch@ == rb@.remove(node as usize),
    ensures
        g.rch_consistent(rch),
        !rch@.contains_key(node as usize),
{
    assert forall|i: int| 0 <= i < g.len() implies #[trigger] g.nodes@[i].height_in_recompute_heap == (if rch@.contains_key(
        i as usize,
    ) {
        rch@[i as usize]
    } else {
        -1
    }) by {
        if i != node {
            assert(g.nodes@[i] == gb.nodes@[i]);
            assert(gb.nodes@[i].height_in_recompute_heap == (if rb@.contains_key(i as usize) {
                rb@[i as usize]
            } else {
                -1
            }));
            assert(i as usize != node as usize);
        }
    }
}

/// Each step of invalidation keeps the update handlers of every node.
pub(crate) proof fn lemma_frame_handlers(g: &Graph, g0: &Graph, r: &RecomputeHeap, r0: &RecomputeHeap)
    requires
        g.invalidation_frame(g0, r, r0),
    ensures
        g.len() == g0.len(),
        forall|i: int| 0 <= i < g0.len() ==> #[trigger] g.nodes@[i].num_on_update_handlers
            == g0.nodes@[i].num_on_update_handlers,
{
    assert forall|i: int| 0 <= i < g0.len() implies #[trigger] g.nodes@[i].num_on_update_handlers
        == g0.nodes@[i].num_on_update_handlers by {
        assert(g.nodes@[i].num_observers == g0.nodes@[i].num_observers);
    }
}

/// A node that had to be invalidated because of its inputs still has to be while it is
/// valid: inputs and kinds stay, and inputs only lose validity.
proof fn lemma_still_due(g0: &Graph, g: &Graph, n: int)
    requires
        g.len() == g0.len(),
        0 <= n < g.len(),
        forall|i: int| 0 <= i < g.len() ==> #[trigger] g.children(i) == g0.children(i),
        forall|i: int| 0 <= i < g.len() ==> #[trigger] g.nodes@[i].kind == g0.nodes@[i].kind,
        forall|i: int| 0 <= i < g.len() ==> (#[trigger] g.nodes@[i].is_valid ==> g0.nodes@[i].is_valid),
        g.ids_ok(),
        g0.spec_should_be_invalidated(n),
        g.nodes@[n].is_valid,
    ensures
        g.spec_should_be_invalidated(n),
{
    assert(g.children(n) == g0.children(n));
    assert(g.nodes@[n].kind == g0.nodes@[n].kind);
    match g0.nodes@[n].kind {
        Kind::Constant | Kind::Var | Kind::Expert => {},
        Kind::BindLhsChange | Kind::BindMain => {
            let c = g0.children(n)[0] as int;
            assert(g.children(n)[0] < g.len());
            assert(g.nodes@[c].is_valid ==> g0.nodes@[c].is_valid);
        },
        _ => {
            let ci = choose|ci: int|
                0 <= ci < g0.children(n).len() && !(#[trigger] g0.nodes@[g0.children(n)[ci] as int]).is_valid;
            let c = g0.children(n)[ci] as int;
            assert(g.children(n)[ci] < g.len());
            assert(g.nodes@[c].is_valid ==> g0.nodes@[c].is_valid);
            assert(!g.nodes@[g.children(n)[ci] as int].is_valid);
        },
    }
}

impl Graph {
    /// Two versions of a node agree on validity, value and stamps.
    pub open spec fn same_stamps(a: Node, b: Node) -> bool {
        &&& a.is_valid == b.is_valid
        &&& a.has_value == b.has_value
        &&& a.changed_at == b.changed_at
        &&& a.recomputed_at == b.recomputed_at
    }

    /// No node is needed that was not needed in `other`.
    pub open spec fn needs_only_lost(&self, other: &Graph) -> bool {
        forall|i: int| 0 <= i < self.len() && #[trigger] self.spec_is_necessary(i) ==> other.spec_is_necessary(i)
    }

    /// Every node that left the recompute heap since `old_rch` is invalid or no longer
    /// needed.
    pub open spec fn left_heap_settled(&self, rch: &RecomputeHeap, old_rch: &RecomputeHeap) -> bool {
        forall|n: usize|
            #[trigger] old_rch@.contains_key(n) && !rch@.contains_key(n) ==> !self.nodes@[n as int].is_valid
                || !self.spec_is_necessary(n as int)
    }

    /// Node `i` has the observers, update handlers and forcing it has in `other`.
    pub open spec fn observed_as(&self, other: &Graph, i: int) -> bool {
        &&& self.nodes@[i].num_observers == other.nodes@[i].num_observers
        &&& self.nodes@[i].num_on_update_handlers == other.nodes@[i].num_on_update_handlers
        &&& self.nodes@[i].force_necessary == other.nodes@[i].force_necessary
    }

    /// Some valid node cannot be given the height just above the scope it was created
    /// in: that height would exceed `max`.
    pub open spec fn scope_too_high(&self, max: int) -> bool {
        exists|n: int| 0 <= n < self.len() && self.nodes@[n].is_valid && #[trigger] self.scope_height(n) >= max
    }

    /// Some valid node that its inputs do not invalidate waits outside the recompute
    /// heap without a height that the heap can hold.
    pub open spec fn unqueueable(&self, rch: &RecomputeHeap) -> bool {
        exists|n: int|
            0 <= n < self.len() && #[trigger] self.unqueueable_at(rch, n)
    }

    /// Node `n` is as `unqueueable` says.
    pub open spec fn unqueueable_at(&self, rch: &RecomputeHeap, n: int) -> bool {
        &&& self.nodes@[n].is_valid
        &&& !self.spec_should_be_invalidated(n)
        &&& !rch@.contains_key(n as usize)
        &&& (self.height(n) < 0 || self.height(n) > rch.max_allowed())
    }

    /// Node `n` is invalid, queued for recomputation, or not needed.
    pub open spec fn settled(&self, rch: &RecomputeHeap, n: int) -> bool {
        ||| !self.nodes@[n].is_valid
        ||| rch@.contains_key(n as usize)
        ||| !self.spec_is_necessary(n)
    }

    /// Nodes that are still valid, or were invalid already, keep their value and stamps;
    /// nodes that lost validity lost their value and were stamped with `now`.
    pub open spec fn stamped_invalid(&self, other: &Graph, now: StabilisationNum) -> bool {
        &&& forall|i: int|
            0 <= i < self.len() ==> (#[trigger] self.nodes@[i].is_valid ==> other.nodes@[i].is_valid)
        &&& forall|i: int|
            0 <= i < self.len() && (self.nodes@[i].is_valid || !other.nodes@[i].is_valid) ==> {
                &&& (#[trigger] self.nodes@[i]).has_value == other.nodes@[i].has_value
                &&& self.nodes@[i].changed_at == other.nodes@[i].changed_at
                &&& self.nodes@[i].recomputed_at == other.nodes@[i].recomputed_at
            }
        &&& forall|i: int|
            0 <= i < self.len() && !self.nodes@[i].is_valid && other.nodes@[i].is_valid ==> {
                &&& !(#[trigger] self.nodes@[i]).has_value
                &&& self.nodes@[i].changed_at == now
                &&& self.nodes@[i].recomputed_at == now
            }
    }

    /// What every invalidation step keeps, from `old` with heap `old_rch` to `self`
    /// with heap `rch`: the structural invariants; the same nodes and inputs; parent
    /// registrations, neededness, validity and recorded right-hand-side nodes only go;
    /// the heap only loses nodes, and each one it loses is invalid or no longer needed.
    pub open spec fn invalidation_frame(
        &self,
        old: &Graph,
        rch: &RecomputeHeap,
        old_rch: &RecomputeHeap,
    ) -> bool {
        &&& self.wf()
        &&& self.inputs_distinct()
        &&& self.necessary_placed()
        &&& self.len() == old.len()
        &&& forall|i: int| 0 <= i < self.len() ==> #[trigger] self.children(i) == old.children(i)
        &&& forall|c: int, ci: int, p: int|
            0 <= p < self.len() && #[trigger] self.is_registered(c, ci, p) ==> old.is_registered(c, ci, p)
        &&& self.needs_only_lost(old)
        &&& self.fine_kept(old)
        &&& forall|i: int|
            0 <= i < self.len() ==> (#[trigger] self.nodes@[i].is_valid ==> old.nodes@[i].is_valid)
                && self.nodes@[i].rhs_nodes@.len() <= old.nodes@[i].rhs_nodes@.len()
        &&& forall|i: int|
            0 <= i < self.len() ==> (#[trigger] self.nodes@[i].num_observers) == old.nodes@[i].num_observers
                && self.nodes@[i].num_on_update_handlers == old.nodes@[i].num_on_update_handlers
                && self.nodes@[i].force_necessary == old.nodes@[i].force_necessary
                && self.nodes@[i].kind == old.nodes@[i].kind
        &&& rch.wf()
        &&& self.rch_consistent(rch)
        &&& Graph::heap_shrunk(rch, old_rch)
        &&& self.left_heap_settled(rch, old_rch)
    }

    /// First step of invalidating the valid node `node`: it loses its value and is
    /// stamped with `now`; if it is needed it stops reading its inputs and is given the
    /// height just above the scope it was created in. `false` comes back, with the height
    /// left as it was, when that height would exceed the allowed maximum.
    fn clear_node(
        &mut self,
        ahh: &mut AdjustHeightsHeap,
        rch: &mut RecomputeHeap,
        stats: &mut Stats,
        handle_after: &mut Vec<usize>,
        now: StabilisationNum,
        node: usize,
    ) -> (ok: bool)
        requires
            old(self).wf(),
            old(self).inputs_distinct(),
            old(self).necessary_placed(),
            old(self).heights_within(old(ahh).max_allowed()),
            node < old(self).len(),
            old(self).nodes@[node as int].is_valid,
            old(rch).wf(),
            old(self).rch_consistent(old(rch)),
            old(ahh).wf(),
        ensures
            final(self).invalidation_frame(old(self), final(rch), old(rch)),
            final(self).heights_within(final(ahh).max_allowed()),
            final(ahh).wf(),
            final(ahh)@ == old(ahh)@,
            final(ahh).max_allowed() == old(ahh).max_allowed(),
            final(ahh).lower_bound() == old(ahh).lower_bound(),
            forall|i: int|
                0 <= i < final(self).len() ==> #[trigger] final(self).nodes@[i].rhs_nodes@ == old(
                    self,
                ).nodes@[i].rhs_nodes@,
            forall|i: int|
                0 <= i < final(self).len() && i != node ==> #[trigger] Graph::same_stamps(
                    final(self).nodes@[i],
                    old(self).nodes@[i],
                ),
            final(self).nodes@[node as int].is_valid,
            !final(self).nodes@[node as int].has_value,
            final(self).nodes@[node as int].changed_at == now,
            final(self).nodes@[node as int].recomputed_at == now,
            final(self).nodes@[node as int].kind == old(self).nodes@[node as int].kind,
            ok && old(self).spec_is_necessary(node as int) ==> forall|c: int, ci: int|
                0 <= ci < final(self).children(node as int).len() ==> !(#[trigger] final(self).is_registered(
                    c,
                    ci,
                    node as int,
                )),
            ok && old(self).spec_is_necessary(node as int) ==> final(self).height(node as int)
                == final(self).scope_height(node as int) + 1 || old(self).nodes@[node as int].created_in == Some(
                node,
            ),
            !ok ==> final(self).scope_too_high(final(ahh).max_allowed()),
            final(stats).link_counts_grown(*old(stats)),
            old(stats).invalidated == final(stats).invalidated,
            old(stats).became_necessary == final(stats).became_necessary,
            handle_after_grown(old(handle_after)@, final(handle_after)@, old(self)),
        decreases invalidation_measure(old(self)), 2nat,
    {
        let ghost g0 = *self;
        self.nodes[node].has_value = false;
        self.nodes[node].changed_at = now;
        self.nodes[node].recomputed_at = now;
        proof {
            lemma_bookkeeping_kept(&g0, self, rch);
            lemma_heights_same(&g0, self, ahh.max_allowed());
        }
        if self.is_necessary(node) {
            let ghost g1 = *self;
            self.remove_children(rch, stats, handle_after, node);
            proof {
                assert forall|i: int| 0 <= i < g0.len() implies #[trigger] g1.nodes@[i].num_on_update_handlers
                    == g0.nodes@[i].num_on_update_handlers by {
                    assert(g1.nodes@[i].num_observers == g0.nodes@[i].num_observers);
                }
                lemma_handle_after_trans(old(handle_after)@, old(handle_after)@, handle_after@, &g0, &g1);
                assert forall|i: int| 0 <= i < self.len() implies -1 <= #[trigger] self.height(i) <= ahh.max_allowed() by {
                    assert(self.height(i) == g1.height(i) || (self.height(i) == -1 && !self.spec_is_necessary(i)));
                    assert(-1 <= g1.height(i) <= ahh.max_allowed());
                }
            }
            let h = self.created_in_height(node);
            if h >= ahh.max_height_allowed() {
                proof {
                    lemma_frame_from_unhook(&g0, &g1, self, old(rch), rch);
                    assert(self.nodes@[node as int].is_valid && self.scope_height(node as int) >= ahh.max_allowed());
                }
                return false;
            }
            proof {
                assert(h >= -1) by {
                    match self.nodes@[node as int].created_in {
                        Some(sc) => {
                            assert(sc < self.len());
                            assert(-1 <= self.height(sc as int));
                        },
                        None => {},
                    }
                }
            }
            let ghost g2 = *self;
            let set = ahh.set_height(self, node, h + 1);
            proof {
                assert(set);
                lemma_bookkeeping_kept(&g2, self, rch);
                lemma_frame_from_unhook(&g0, &g1, &g2, old(rch), rch);
                assert forall|i: int| 0 <= i < self.len() implies -1 <= #[trigger] self.height(i) <= ahh.max_allowed() by {
                    if i != node as int {
                        assert(self.nodes@[i] == g2.nodes@[i]);
                        assert(-1 <= g2.height(i) <= ahh.max_allowed());
                    }
                }
                assert forall|i: int| 0 <= i < self.len() implies #[trigger] Graph::same_stamps(self.nodes@[i], g2.nodes@[i])
                    && self.nodes@[i].rhs_nodes@ == g2.nodes@[i].rhs_nodes@ by {
                    assert(self.nodes@[i].is_valid == g2.nodes@[i].is_valid);
                }
                assert forall|i: int| 0 <= i < self.len() implies #[trigger] Graph::same_stamps(g2.nodes@[i], g1.nodes@[i])
                    && g2.nodes@[i].rhs_nodes@ == g1.nodes@[i].rhs_nodes@ by {
                    assert(g2.nodes@[i].is_valid == g1.nodes@[i].is_valid);
                }
                assert forall|i: int| 0 <= i < self.len() && i != node as int implies #[trigger] Graph::same_stamps(
                    self.nodes@[i],
                    g0.nodes@[i],
                ) by {
                    assert(Graph::same_stamps(self.nodes@[i], g2.nodes@[i]));
                    assert(Graph::same_stamps(g2.nodes@[i], g1.nodes@[i]));
                    assert(g1.nodes@[i] == g0.nodes@[i]);
                }
                lemma_frame_trans(&g0, &g2, self, old(rch), rch, rch);
            }
        } else {
            proof {
                assert forall|i: int| 0 <= i < self.len() && i != node as int implies #[trigger] Graph::same_stamps(
                    self.nodes@[i],
                    g0.nodes@[i],
                ) by {
                    assert(self.nodes@[i] == g0.nodes@[i]);
                }
                assert forall|i: int| 0 <= i < self.len() implies (#[trigger] self.nodes@[i].is_valid ==> g0.nodes@[i].is_valid)
                    && self.nodes@[i].rhs_nodes@.len() <= g0.nodes@[i].rhs_nodes@.len() by {
                    if i != node as int {
                        assert(self.nodes@[i] == g0.nodes@[i]);
                    }
                }
            }
        }
        true
    }

    /// Invalidate every node recorded as created on the right-hand side of the bind
    /// whose left-hand-side change node is `lhs`, forgetting the record. `false` comes
    /// back as soon as one invalidation fails.
    pub(crate) fn invalidate_rhs_of(
        &mut self,
        ahh: &mut AdjustHeightsHeap,
        rch: &mut RecomputeHeap,
        stack: &mut Vec<usize>,
        stats: &mut Stats,
        handle_after: &mut Vec<usize>,
        now: StabilisationNum,
        lhs: usize,
    ) -> (ok: bool)
        requires
            old(self).wf(),
            old(self).inputs_distinct(),
            old(self).necessary_placed(),
            old(self).heights_within(old(ahh).max_allowed()),
            lhs < old(self).len(),
            old(rch).wf(),
            old(self).rch_consistent(old(rch)),
            old(ahh).wf(),
            stack_ok(old(stack)@, old(self)),
        ensures
            final(self).invalidation_frame(old(self), final(rch), old(rch)),
            final(self).heights_within(final(ahh).max_allowed()),
            final(ahh).wf(),
            final(ahh)@ == old(ahh)@,
            final(ahh).max_allowed() == old(ahh).max_allowed(),
            final(ahh).lower_bound() == old(ahh).lower_bound(),
            stack_ok(final(stack)@, final(self)),
            old(stack)@.len() <= final(stack)@.len(),
            final(stack)@.subrange(0, old(stack)@.len() as int) == old(stack)@,
            ok ==> final(self).stamped_invalid(old(self), now),
            ok ==> final(self).nodes@[lhs as int].rhs_nodes@.len() == 0,
            ok ==> forall|j: int|
                0 <= j < old(self).nodes@[lhs as int].rhs_nodes@.len() ==> !final(self).nodes@[#[trigger] old(
                    self,
                ).nodes@[lhs as int].rhs_nodes@[j] as int].is_valid,
            final(stats).link_counts_grown(*old(stats)),
            old(stats).became_necessary == final(stats).became_necessary,
            handle_after_grown(old(handle_after)@, final(handle_after)@, old(self)),
            !ok ==> final(self).scope_too_high(final(ahh).max_allowed()),
        decreases invalidation_measure(old(self)), 0nat,
    {
        let ghost g0 = *self;
        let rhs = self.nodes[lhs].rhs_nodes.clone();
        proof {
            assert(rhs@ =~= g0.nodes@[lhs as int].rhs_nodes@);
        }
        self.nodes[lhs].rhs_nodes = Vec::new();
        let ghost g1 = *self;
        proof {
            lemma_bookkeeping_kept(&g0, self, rch);
            lemma_heights_same(&g0, self, ahh.max_allowed());
            lemma_measure_le(&g0, self, lhs as int);
            assert forall|j: int| 0 <= j < rhs@.len() implies #[trigger] rhs@[j] < self.len() by {
                assert(g0.nodes@[lhs as int].rhs_nodes@[j] < g0.len());
            }
            assert forall|i: int| 0 <= i < self.len() implies #[trigger] Graph::same_stamps(self.nodes@[i], g0.nodes@[i])
                && self.nodes@[i].rhs_nodes@.len() <= g0.nodes@[i].rhs_nodes@.len() by {
                if i != lhs as int {
                    assert(self.nodes@[i] == g0.nodes@[i]);
                }
            }
            assert(self.stamped_invalid(&g0, now));
        }
        let mut k: usize = 0;
        while k < rhs.len()
            invariant
                g0 == *old(self),
                lhs < self.len(),
                k <= rhs@.len(),
                forall|j: int| 0 <= j < rhs@.len() ==> #[trigger] rhs@[j] < self.len(),
                rhs@.len() > 0 ==> invalidation_measure(&g1) < invalidation_measure(&g0),
                g0.rch_consistent(old(rch)),
                g1.rch_consistent(old(rch)),
                self.invalidation_frame(&g1, rch, old(rch)),
                self.invalidation_frame(&g0, rch, old(rch)),
                self.heights_within(ahh.max_allowed()),
                self.stamped_invalid(&g0, now),
                self.nodes@[lhs as int].rhs_nodes@.len() == 0,
                ahh.wf(),
                ahh@ == old(ahh)@,
                ahh.max_allowed() == old(ahh).max_allowed(),
                ahh.lower_bound() == old(ahh).lower_bound(),
                stack_ok(stack@, self),
                old(stack)@.len() <= stack@.len(),
                stack@.subrange(0, old(stack)@.len() as int) == old(stack)@,
                rhs@ == g0.nodes@[lhs as int].rhs_nodes@,
                forall|j: int| 0 <= j < k ==> !self.nodes@[#[trigger] rhs@[j] as int].is_valid,
                stats.link_counts_grown(*old(stats)),
                old(stats).became_necessary == stats.became_necessary,
                handle_after_grown(old(handle_after)@, handle_after@, &g0),
            decreases rhs@.len() - k,
        {
            let r = rhs[k];
            let ghost gk = *self;
            let ghost rk = *rch;
            let ghost sk = stack@;
            let ghost hk = handle_after@;
            proof {
                lemma_measure_frame(&g1, self, old(rch), rch, 0);
            }
            let okr = self.invalidate_node(ahh, rch, stack, stats, handle_after, now, r);
            proof {
                lemma_frame_handlers(&gk, &g0, &rk, old(rch));
                lemma_handle_after_trans(old(handle_after)@, hk, handle_after@, &g0, &gk);
                assert(stack@.subrange(0, old(stack)@.len() as int) =~= old(stack)@) by {
                    assert forall|j: int| 0 <= j < old(stack)@.len() implies stack@[j] == old(stack)@[j] by {
                        assert(stack@.subrange(0, sk.len() as int)[j] == sk[j]);
                        assert(sk.subrange(0, old(stack)@.len() as int)[j] == old(stack)@[j]);
                    }
                }
                lemma_frame_trans(&g0, &gk, self, old(rch), &rk, rch);
                assert(self.nodes@[lhs as int].is_valid ==> gk.nodes@[lhs as int].is_valid);
                assert(self.nodes@[lhs as int].rhs_nodes@.len() <= gk.nodes@[lhs as int].rhs_nodes@.len());
            }
            if !okr {
                return false;
            }
            proof {
                lemma_stamped_trans(&g0, &gk, self, now);
                lemma_frame_trans(&g1, &gk, self, old(rch), &rk, rch);
                assert forall|j: int| 0 <= j < k + 1 implies !self.nodes@[#[trigger] rhs@[j] as int].is_valid by {
                    if j < k {
                        assert(!gk.nodes@[rhs@[j] as int].is_valid);
                        assert(rhs@[j] < self.len());
                    }
                }
            }
            k = k + 1;
        }
        true
    }

    /// Last step of invalidating node `node`: it is marked invalid, its parents are
    /// pushed on `stack`, and it leaves the recompute heap.
    fn finish_invalid(&mut self, rch: &mut RecomputeHeap, stack: &mut Vec<usize>, node: usize)
        requires
            old(self).wf(),
            old(self).inputs_distinct(),
            old(self).necessary_placed(),
            node < old(self).len(),
            old(rch).wf(),
            old(self).rch_consistent(old(rch)),
            stack_ok(old(stack)@, old(self)),
        ensures
            final(self).invalidation_frame(old(self), final(rch), old(rch)),
            forall|i: int| 0 <= i < final(self).len() ==> #[trigger] final(self).height(i) == old(self).height(i),
            forall|i: int|
                0 <= i < final(self).len() ==> #[trigger] final(self).nodes@[i].rhs_nodes@ == old(
                    self,
                ).nodes@[i].rhs_nodes@,
            forall|i: int|
                0 <= i < final(self).len() && i != node ==> #[trigger] Graph::same_stamps(
                    final(self).nodes@[i],
                    old(self).nodes@[i],
                ),
            !final(self).nodes@[node as int].is_valid,
            final(self).nodes@[node as int].has_value == old(self).nodes@[node as int].has_value,
            final(self).nodes@[node as int].changed_at == old(self).nodes@[node as int].changed_at,
            final(self).nodes@[node as int].recomputed_at == old(self).nodes@[node as int].recomputed_at,
            final(self).parents(node as int) == old(self).parents(node as int),
            !final(rch)@.contains_key(node),
            stack_ok(final(stack)@, final(self)),
            final(stack)@ == old(stack)@ + final(self).parents(node as int),
    {
        let ghost g0 = *self;
        self.nodes[node].is_valid = false;
        proof {
            lemma_bookkeeping_kept(&g0, self, rch);
        }
        let ghost g1 = *self;
        let np = self.nodes[node].parents.len();
        let ghost st = stack@;
        let mut j: usize = 0;
        while j < np
            invariant
                *self == g1,
                node < self.len(),
                self.ids_ok(),
                j <= np,
                np == self.parents(node as int).len(),
                stack@ == st + self.parents(node as int).subrange(0, j as int),
            decreases np - j,
        {
            let p = self.nodes[node].parents[j];
            stack.push(p);
            j = j + 1;
            proof {
                assert(stack@ =~= st + self.parents(node as int).subrange(0, j as int));
            }
        }
        proof {
            assert(stack@ =~= st + self.parents(node as int));
            assert forall|k: int| 0 <= k < stack@.len() implies #[trigger] stack@[k] < self.len() by {
                if k >= st.len() {
                    assert(stack@[k] == self.parents(node as int)[k - st.len()]);
                    assert(self.parents(node as int)[k - st.len()] < self.len());
                } else {
                    assert(st[k] < g0.len());
                }
            }
        }
        if self.nodes[node].height_in_recompute_heap >= 0 {
            let hh = self.nodes[node].height_in_recompute_heap;
            let ghost rb = *rch;
            proof {
                assert(rch@.contains_key(node)) by {
                    rch.lemma_wf();
                    if !rch@.contains_key(node) {
                        assert(self.nodes@[node as int].height_in_recompute_heap == -1);
                    }
                }
            }
            rch.remove(node, hh);
            self.nodes[node].height_in_recompute_heap = -1;
            let total = self.nodes.len();
            proof {
                assert(total == self.len());
                lemma_heap_slot_cleared(&g1, self, &rb, rch, node as int);
                lemma_bookkeeping_kept(&g1, self, &rb);
            }
        } else {
            proof {
                rch.lemma_wf();
                if rch@.contains_key(node) {
                    assert(self.nodes@[node as int].height_in_recompute_heap == rch@[node]);
                }
            }
        }
        proof {
            assert forall|i: int| 0 <= i < self.len() implies #[trigger] self.height(i) == g0.height(i) && self.nodes@[i].rhs_nodes@
                == g0.nodes@[i].rhs_nodes@ && (i != node ==> self.nodes@[i] == g0.nodes@[i]) by {}
            assert forall|i: int| 0 <= i < self.len() implies (#[trigger] self.nodes@[i].is_valid ==> g0.nodes@[i].is_valid)
                && self.nodes@[i].rhs_nodes@.len() <= g0.nodes@[i].rhs_nodes@.len() by {
                assert(self.height(i) == g0.height(i));
            }
            assert forall|n: usize|
                #[trigger] old(rch)@.contains_key(n) && !rch@.contains_key(n) implies !self.nodes@[n as int].is_valid
                    || !self.spec_is_necessary(n as int) by {
                assert(n == node);
            }
        }
    }

    /// Node `node` becomes invalid: it loses its value and is stamped as changed and
    /// recomputed at `now`; if it is needed it stops reading its inputs and drops to just
    /// above the scope it was created in; a bind's main node invalidates every node
    /// created on its right-hand side; the node's parents are pushed on `stack`, and the
    /// node leaves the recompute heap. `stats` counts every node invalidated on the way,
    /// and each of them with update handlers goes on `handle_after`, so that its handlers
    /// see it invalidated. A node that is invalid already is left alone. `false` comes
    /// back, with the work stopped part-way, when the new height would exceed the allowed
    /// maximum.
    pub fn invalidate_node(
        &mut self,
        ahh: &mut AdjustHeightsHeap,
        rch: &mut RecomputeHeap,
        stack: &mut Vec<usize>,
        stats: &mut Stats,
        handle_after: &mut Vec<usize>,
        now: StabilisationNum,
        node: usize,
    ) -> (ok: bool)
        requires
            old(self).wf(),
            old(self).inputs_distinct(),
            old(self).necessary_placed(),
            old(self).heights_within(old(ahh).max_allowed()),
            node < old(self).len(),
            old(rch).wf(),
            old(self).rch_consistent(old(rch)),
            old(ahh).wf(),
            stack_ok(old(stack)@, old(self)),
        ensures
            final(self).invalidation_frame(old(self), final(rch), old(rch)),
            final(self).heights_within(final(ahh).max_allowed()),
            final(ahh).wf(),
            final(ahh)@ == old(ahh)@,
            final(ahh).max_allowed() == old(ahh).max_allowed(),
            final(ahh).lower_bound() == old(ahh).lower_bound(),
            stack_ok(final(stack)@, final(self)),
            old(stack)@.len() <= final(stack)@.len(),
            final(stack)@.subrange(0, old(stack)@.len() as int) == old(stack)@,
            ok ==> final(self).stamped_invalid(old(self), now),
            !old(self).nodes@[node as int].is_valid ==> ok && *final(self) == *old(self) && final(rch)@ == old(
                rch,
            )@ && final(stack)@ == old(stack)@,
            old(self).nodes@[node as int].is_valid && ok ==> {
                &&& !final(self).nodes@[node as int].is_valid
                &&& !final(rch)@.contains_key(node)
                &&& final(stack)@.len() >= old(stack)@.len() + final(self).parents(node as int).len()
                &&& final(stack)@.subrange(
                    final(stack)@.len() - final(self).parents(node as int).len(),
                    final(stack)@.len() as int,
                ) == final(self).parents(node as int)
            },
            old(self).nodes@[node as int].is_valid && old(self).spec_is_necessary(node as int) && ok ==> forall|
                c: int,
                ci: int,
            |
                0 <= ci < final(self).children(node as int).len() ==> !(#[trigger] final(self).is_registered(
                    c,
                    ci,
                    node as int,
                )),
            final(stats).link_counts_grown(*old(stats)),
            old(stats).became_necessary == final(stats).became_necessary,
            handle_after_grown(old(handle_after)@, final(handle_after)@, old(self)),
            old(self).nodes@[node as int].is_valid && old(stats).invalidated < usize::MAX ==> old(
                stats,
            ).invalidated < final(stats).invalidated,
            old(self).nodes@[node as int].is_valid && old(self).nodes@[node as int].num_on_update_handlers > 0
                ==> final(handle_after)@.contains(node),
            !ok ==> final(self).scope_too_high(final(ahh).max_allowed()),
        decreases invalidation_measure(old(self)), 1nat,
    {
        if !self.nodes[node].is_valid {
            return true;
        }
        self.maybe_handle_after_stabilisation(handle_after, node);
        stats.count_invalidated();
        let ghost h1 = handle_after@;
        let ghost g0 = *self;
        let ghost r0 = *rch;
        let okc = self.clear_node(ahh, rch, stats, handle_after, now, node);
        proof {
            lemma_handle_after_trans(old(handle_after)@, h1, handle_after@, &g0, &g0);
        }
        if !okc {
            return false;
        }
        let ghost hc = handle_after@;
        let ghost g1 = *self;
        let ghost r1 = *rch;
        proof {
            assert forall|i: int| 0 <= i < g1.len() && i != node as int implies #[trigger] Graph::same_stamps(
                g1.nodes@[i],
                g0.nodes@[i],
            ) by {}
        }
        if matches!(self.nodes[node].kind, Kind::BindMain) && self.nodes[node].children.len() > 0 {
            let lhs = self.nodes[node].children[0];
            proof {
                assert(self.children(node as int)[0] < self.len());
                assert(g0.nodes@[lhs as int].rhs_nodes@ == self.nodes@[lhs as int].rhs_nodes@);
                lemma_measure_frame(&g0, self, &r0, rch, node as int);
                if self.nodes@[lhs as int].rhs_nodes@.len() > 0 {
                    assert(invalidation_measure(self) <= invalidation_measure(&g0));
                }
            }
            let ghost gr = *self;
            let ghost rr = *rch;
            let okr = self.invalidate_rhs_of(ahh, rch, stack, stats, handle_after, now, lhs);
            proof {
                lemma_frame_trans(&g0, &g1, self, &r0, &r1, rch);
                lemma_frame_handlers(&gr, &g0, &rr, &r0);
                lemma_handle_after_trans(old(handle_after)@, hc, handle_after@, &g0, &gr);
            }
            if !okr {
                return false;
            }
        } else {
            proof {
                assert(self.stamped_invalid(&g1, now));
            }
        }
        let ghost g2 = *self;
        let ghost r2 = *rch;
        let ghost s2 = stack@;
        self.finish_invalid(rch, stack, node);
        proof {
            lemma_frame_trans(&g0, &g2, self, &r0, &r2, rch);
            lemma_invalidated(&g0, &g1, &g1, &g2, self, node as int, now);
            assert(stack@.subrange(0, old(stack)@.len() as int) =~= old(stack)@) by {
                assert forall|j: int| 0 <= j < old(stack)@.len() implies stack@[j] == old(stack)@[j] by {
                    assert(s2.subrange(0, old(stack)@.len() as int)[j] == old(stack)@[j]);
                }
            }
            assert(stack@.subrange(
                stack@.len() - self.parents(node as int).len(),
                stack@.len() as int,
            ) =~= self.parents(node as int));
            assert forall|c: int, ci: int|
                0 <= ci < self.children(node as int).len() && g0.spec_is_necessary(node as int) implies !(#[trigger] self.is_registered(
                c,
                ci,
                node as int,
            )) by {
                if self.is_registered(c, ci, node as int) {
                    assert(g2.is_registered(c, ci, node as int));
                    assert(g1.is_registered(c, ci, node as int));
                }
            }
        }
        true
    }

    /// Work through `stack`, the nodes to look at because an input of theirs became
    /// invalid: each one still valid is invalidated if its inputs call for it (which
    /// pushes its own parents in turn), and is otherwise queued for recomputation unless
    /// it is queued already. `false` comes back, with the work stopped part-way, where a
    /// node would get a height above the allowed maximum, or would be queued without a
    /// height that the recompute heap can hold.
    #[verifier::spinoff_prover]
    pub fn propagate_invalidity(
        &mut self,
        ahh: &mut AdjustHeightsHeap,
        rch: &mut RecomputeHeap,
        stack: &mut Vec<usize>,
        stats: &mut Stats,
        handle_after: &mut Vec<usize>,
        now: StabilisationNum,
    ) -> (ok: bool)
        requires
            old(self).wf(),
            old(self).inputs_distinct(),
            old(self).necessary_placed(),
            old(self).heights_within(old(ahh).max_allowed()),
            old(rch).wf(),
            old(self).rch_consistent(old(rch)),
            old(ahh).wf(),
            stack_ok(old(stack)@, old(self)),
        ensures
            final(self).wf(),
            final(self).inputs_distinct(),
            final(self).necessary_placed(),
            final(self).heights_within(final(ahh).max_allowed()),
            final(self).len() == old(self).len(),
            forall|i: int| 0 <= i < final(self).len() ==> #[trigger] final(self).children(i) == old(self).children(i),
            final(self).needs_only_lost(old(self)),
            old(self).parents_needed() ==> final(self).parents_needed(),
            forall|i: int|
                0 <= i < final(self).len() ==> #[trigger] final(self).observed_as(old(self), i),
            final(stats).link_counts_grown(*old(stats)),
            old(stats).became_necessary == final(stats).became_necessary,
            handle_after_grown(old(handle_after)@, final(handle_after)@, old(self)),
            final(rch).wf(),
            final(self).rch_consistent(final(rch)),
            final(ahh).wf(),
            final(ahh)@ == old(ahh)@,
            final(ahh).max_allowed() == old(ahh).max_allowed(),
            final(ahh).lower_bound() == old(ahh).lower_bound(),
            stack_ok(final(stack)@, final(self)),
            ok ==> final(stack)@.len() == 0,
            ok ==> final(self).stamped_invalid(old(self), now),
            ok ==> forall|k: int|
                0 <= k < old(stack)@.len() ==> #[trigger] final(self).settled(final(rch), old(stack)@[k] as int),
            ok ==> forall|k: int|
                0 <= k < old(stack)@.len() && #[trigger] old(self).spec_should_be_invalidated(old(stack)@[k] as int)
                    ==> !final(self).nodes@[old(stack)@[k] as int].is_valid,
            !ok ==> final(self).scope_too_high(final(ahh).max_allowed()) || final(self).unqueueable(final(rch)),
    {
        let ghost g0 = *self;
        let ghost s0 = stack@;
        proof {
            assert(self.stamped_invalid(&g0, now));
        }
        while stack.len() > 0
            invariant
                g0 == *old(self),
                s0 == old(stack)@,
                stack_ok(s0, &g0),
                self.wf(),
                self.inputs_distinct(),
                self.necessary_placed(),
                self.heights_within(ahh.max_allowed()),
                self.len() == g0.len(),
                forall|i: int| 0 <= i < self.len() ==> #[trigger] self.children(i) == g0.children(i),
                self.needs_only_lost(&g0),
                forall|i: int| 0 <= i < self.len() ==> #[trigger] self.observed_as(&g0, i),
                self.fine_kept(&g0),
                forall|i: int|
                    0 <= i < self.len() ==> (#[trigger] self.nodes@[i].is_valid ==> g0.nodes@[i].is_valid),
                self.stamped_invalid(&g0, now),
                rch.wf(),
                self.rch_consistent(rch),
                ahh.wf(),
                ahh@ == old(ahh)@,
                ahh.max_allowed() == old(ahh).max_allowed(),
                ahh.lower_bound() == old(ahh).lower_bound(),
                stack_ok(stack@, self),
                forall|k: int|
                    0 <= k < s0.len() ==> (k < stack@.len() && stack@[k] == s0[k]) || #[trigger] self.settled(
                        rch,
                        s0[k] as int,
                    ),
                forall|i: int| 0 <= i < self.len() ==> #[trigger] self.nodes@[i].kind == g0.nodes@[i].kind,
                stats.link_counts_grown(*old(stats)),
                old(stats).became_necessary == stats.became_necessary,
                handle_after_grown(old(handle_after)@, handle_after@, &g0),
                forall|k: int|
                    0 <= k < s0.len() ==> (k < stack@.len() && stack@[k] == s0[k]) || (
                    #[trigger] g0.spec_should_be_invalidated(s0[k] as int) ==> !self.nodes@[s0[k] as int].is_valid),
            decreases invalidation_measure(self), stack@.len(),
        {
            let ghost gp = *self;
            let ghost rp = *rch;
            let ghost sp = stack@;
            let node = match stack.pop() {
                Some(n) => n,
                None => {
                    return true;
                },
            };
            proof {
                assert(node == sp[sp.len() - 1]);
                assert(stack@ =~= sp.subrange(0, sp.len() - 1));
                assert(node < self.len());
            }
            if self.nodes[node].is_valid {
                if self.should_be_invalidated(node) {
                    let ghost sq = stack@;
                    let ghost hp = handle_after@;
                    let okn = self.invalidate_node(ahh, rch, stack, stats, handle_after, now, node);
                    proof {
                        assert forall|i: int| 0 <= i < g0.len() implies #[trigger] gp.nodes@[i].num_on_update_handlers
                            == g0.nodes@[i].num_on_update_handlers by {
                            assert(gp.observed_as(&g0, i));
                        }
                        lemma_handle_after_trans(old(handle_after)@, hp, handle_after@, &g0, &gp);
                        assert forall|i: int| 0 <= i < self.len() implies #[trigger] self.observed_as(&g0, i) by {
                            assert(self.nodes@[i].num_observers == gp.nodes@[i].num_observers);
                            assert(gp.observed_as(&g0, i));
                        }
                        assert forall|p: int| 0 <= p < self.len() && #[trigger] g0.parent_fine(p) implies self.parent_fine(p) by {
                            assert(gp.parent_fine(p));
                        }
                        lemma_needed_kept(&g0, self);
                    }
                    if !okn {
                        return false;
                    }
                    proof {
                        lemma_measure_frame(&gp, self, &rp, rch, node as int);
                        lemma_stamped_trans(&g0, &gp, self, now);
                        assert forall|p: int| 0 <= p < self.len() && #[trigger] g0.parent_fine(p) implies self.parent_fine(p) by {
                            assert(gp.parent_fine(p));
                        }
                        assert(gp.len() == gp.nodes.len());
                        lemma_settled_kept(&gp, self, &rp, rch);
                        assert forall|i: int| 0 <= i < self.len() implies #[trigger] self.children(i) == g0.children(i) by {
                            assert(gp.children(i) == g0.children(i));
                        }
                        assert forall|i: int| 0 <= i < self.len() && #[trigger] self.spec_is_necessary(i) implies g0.spec_is_necessary(i) by {
                            assert(gp.spec_is_necessary(i));
                        }
                        assert forall|i: int|
                            0 <= i < self.len() implies (#[trigger] self.nodes@[i].is_valid ==> g0.nodes@[i].is_valid) by {
                            assert(self.nodes@[i].is_valid ==> gp.nodes@[i].is_valid);
                        }
                        assert forall|k: int|
                            0 <= k < s0.len() implies (k < stack@.len() && stack@[k] == s0[k]) || #[trigger] self.settled(
                                rch,
                                s0[k] as int,
                            ) by {
                            assert(s0[k] < g0.len());
                            if k < sp.len() && sp[k] == s0[k] {
                                if k < sq.len() {
                                    assert(stack@.subrange(0, sq.len() as int)[k] == sq[k]);
                                    assert(sq[k] == sp[k]);
                                } else {
                                    assert(k == sp.len() - 1);
                                    assert(self.settled(rch, node as int));
                                }
                            } else {
                                assert(gp.settled(&rp, s0[k] as int));
                            }
                        }
                        assert forall|i: int| 0 <= i < self.len() implies #[trigger] self.nodes@[i].kind
                            == g0.nodes@[i].kind by {
                            assert(self.nodes@[i].num_observers == gp.nodes@[i].num_observers);
                            assert(gp.nodes@[i].kind == g0.nodes@[i].kind);
                        }
                        assert forall|k: int|
                            0 <= k < s0.len() implies (k < stack@.len() && stack@[k] == s0[k]) || (
                            #[trigger] g0.spec_should_be_invalidated(s0[k] as int)
                                ==> !self.nodes@[s0[k] as int].is_valid) by {
                            assert(s0[k] < g0.len());
                            if k < sp.len() && sp[k] == s0[k] {
                                if k < sq.len() {
                                    assert(stack@.subrange(0, sq.len() as int)[k] == sq[k]);
                                    assert(sq[k] == sp[k]);
                                } else {
                                    assert(k == sp.len() - 1);
                                }
                            } else {
                                assert(self.nodes@[s0[k] as int].is_valid ==> gp.nodes@[s0[k] as int].is_valid);
                            }
                        }
                    }
                } else {
                    if self.nodes[node].height_in_recompute_heap < 0 {
                        let h = self.nodes[node].height;
                        if h < 0 || h > rch.max_height_allowed() {
                            proof {
                                lemma_needed_kept(&g0, self);
                                rch.lemma_wf();
                                if rch@.contains_key(node) {
                                    assert(self.nodes@[node as int].height_in_recompute_heap == rch@[node]);
                                }
                                assert(self.unqueueable_at(rch, node as int));
                            }
                            return false;
                        }
                        proof {
                            rch.lemma_wf();
                            if rch@.contains_key(node) {
                                assert(self.nodes@[node as int].height_in_recompute_heap == rch@[node]);
                            }
                            assert(self.nodes.len() == self.nodes@.len());
                            assert forall|x: usize| #[trigger] rch@.dom().contains(x) implies x < self.nodes.len() by {
                                assert(rch@.contains_key(x));
                            }
                            lemma_indices_below(rch@.dom(), self.nodes.len(), node);
                        }
                        rch.insert(node, h);
                        self.nodes[node].height_in_recompute_heap = h;
                        let total = self.nodes.len();
                        proof {
                            assert(total == self.len());
                            lemma_slot_filled(&gp, self, &rp, rch, node as int);
                            lemma_bookkeeping_kept(&gp, self, &rp);
                            lemma_heights_same(&gp, self, ahh.max_allowed());
                        }
                    }
                    proof {
                        assert forall|i: int| 0 <= i < self.len() implies #[trigger] Graph::same_stamps(
                            self.nodes@[i],
                            gp.nodes@[i],
                        ) && self.nodes@[i].rhs_nodes@ == gp.nodes@[i].rhs_nodes@ && self.spec_is_necessary(i)
                            == gp.spec_is_necessary(i) by {
                            if i != node as int {
                                assert(self.nodes@[i] == gp.nodes@[i]);
                            }
                        }
                        assert forall|i: int| 0 <= i < self.len() implies (#[trigger] self.nodes@[i].is_valid
                            ==> gp.nodes@[i].is_valid) && self.nodes@[i].rhs_nodes@.len() <= gp.nodes@[i].rhs_nodes@.len() by {
                            assert(Graph::same_stamps(self.nodes@[i], gp.nodes@[i]));
                        }
                        lemma_measure_le(&gp, self, node as int);
                        lemma_stamped_same(&g0, &gp, self, now);
                        assert forall|p: int| 0 <= p < self.len() && #[trigger] g0.parent_fine(p) implies self.parent_fine(p) by {
                            assert(gp.parent_fine(p));
                            assert forall|c: int, ci: int| #[trigger] self.is_registered(c, ci, p) implies self.spec_is_necessary(p) by {
                                if p != node as int {
                                    assert(self.nodes@[p] == gp.nodes@[p]);
                                }
                                assert(gp.is_registered(c, ci, p));
                            }
                        }
                        assert forall|i: int| 0 <= i < self.len() implies #[trigger] self.observed_as(&g0, i) by {
                            if i != node as int {
                                assert(self.nodes@[i] == gp.nodes@[i]);
                            }
                            assert(gp.observed_as(&g0, i));
                        }
                        assert forall|k: int|
                            0 <= k < s0.len() implies (k < stack@.len() && stack@[k] == s0[k]) || #[trigger] self.settled(
                                rch,
                                s0[k] as int,
                            ) by {
                            assert(s0[k] < g0.len());
                            if k < sp.len() && sp[k] == s0[k] && k < stack@.len() {
                                assert(stack@[k] == sp[k]);
                            } else if k < sp.len() && sp[k] == s0[k] {
                                assert(k == sp.len() - 1);
                                assert(rch@.contains_key(node));
                            } else {
                                assert(gp.settled(&rp, s0[k] as int));
                                assert(Graph::same_stamps(self.nodes@[s0[k] as int], gp.nodes@[s0[k] as int]));
                                assert(self.spec_is_necessary(s0[k] as int) == gp.spec_is_necessary(s0[k] as int));
                                assert(rp@.contains_key(s0[k]) ==> rch@.contains_key(s0[k]));
                            }
                        }
                        assert forall|i: int| 0 <= i < self.len() implies #[trigger] self.nodes@[i].kind
                            == g0.nodes@[i].kind by {
                            assert(Graph::same_stamps(self.nodes@[i], gp.nodes@[i]));
                            if i != node as int {
                                assert(self.nodes@[i] == gp.nodes@[i]);
                            }
                            assert(gp.nodes@[i].kind == g0.nodes@[i].kind);
                        }
                        if g0.spec_should_be_invalidated(node as int) {
                            lemma_still_due(&g0, &gp, node as int);
                        }
                        assert forall|k: int|
                            0 <= k < s0.len() implies (k < stack@.len() && stack@[k] == s0[k]) || (
                            #[trigger] g0.spec_should_be_invalidated(s0[k] as int)
                                ==> !self.nodes@[s0[k] as int].is_valid) by {
                            assert(s0[k] < g0.len());
                            assert(Graph::same_stamps(self.nodes@[s0[k] as int], gp.nodes@[s0[k] as int]));
                            if k < sp.len() && sp[k] == s0[k] && k < stack@.len() {
                                assert(stack@[k] == sp[k]);
                            } else if k < sp.len() && sp[k] == s0[k] {
                                assert(k == sp.len() - 1);
                            }
                        }
                    }
                }
            } else {
                proof {
                    assert forall|k: int|
                        0 <= k < s0.len() implies (k < stack@.len() && stack@[k] == s0[k]) || #[trigger] self.settled(
                            rch,
                            s0[k] as int,
                        ) by {
                        if k < sp.len() && sp[k] == s0[k] && k < stack@.len() {
                            assert(stack@[k] == sp[k]);
                        } else if k < sp.len() && sp[k] == s0[k] {
                            assert(k == sp.len() - 1);
                        } else {
                            assert(gp.settled(&rp, s0[k] as int));
                        }
                    }
                    assert forall|k: int|
                        0 <= k < s0.len() implies (k < stack@.len() && stack@[k] == s0[k]) || (
                        #[trigger] g0.spec_should_be_invalidated(s0[k] as int) ==> !self.nodes@[s0[k] as int].is_valid) by {
                        if k < sp.len() && sp[k] == s0[k] && k < stack@.len() {
                            assert(stack@[k] == sp[k]);
                        } else if k < sp.len() && sp[k] == s0[k] {
                            assert(k == sp.len() - 1);
                        }
                    }
                }
            }
        }
        proof {
            lemma_needed_kept(&g0, self);
        }
        true
    }
}

} // verus!
