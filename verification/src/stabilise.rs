use vstd::prelude::*;

use crate::graph::{lemma_ids_ok_same_links, Graph, Node};
use crate::necessity::lemma_wf_same_links;
use crate::public::Stats;
use crate::recompute_heap::RecomputeHeap;
use crate::stabilisation_num::StabilisationNum;

verus! {

impl Graph {
    /// `self` is `other` where nodes may have been recomputed, changed, and moved in or
    /// out of the recompute heap; nothing else differs.
    pub open spec fn same_shape(&self, other: &Graph) -> bool {
        &&& self.len() == other.len()
        &&& forall|i: int|
            0 <= i < self.len() ==> #[trigger] self.nodes@[i] == (Node {
                height_in_recompute_heap: self.nodes@[i].height_in_recompute_heap,
                changed_at: self.nodes@[i].changed_at,
                recomputed_at: self.nodes@[i].recomputed_at,
                ..other.nodes@[i]
            })
    }

    /// During stabilisation `now`: every node was recomputed now or not at all, changed
    /// now or not at all, and changed only when recomputed.
    pub open spec fn stamped_since(&self, other: &Graph, now: StabilisationNum) -> bool {
        forall|i: int|
            0 <= i < self.len() ==> {
                &&& ((#[trigger] self.nodes@[i]).recomputed_at == other.nodes@[i].recomputed_at
                    || self.nodes@[i].recomputed_at == now)
                &&& (self.nodes@[i].changed_at == other.nodes@[i].changed_at || self.nodes@[i].changed_at == now)
                &&& (self.nodes@[i].changed_at != other.nodes@[i].changed_at ==> self.nodes@[i].recomputed_at == now)
            }
    }

    /// Every height lies between `-1` and `max`.
    pub open spec fn heights_within(&self, max: int) -> bool {
        forall|i: int| 0 <= i < self.len() ==> -1 <= #[trigger] self.height(i) <= max
    }

    /// Every queued node is queued at its height.
    pub open spec fn queued_at_height(&self, rch: &RecomputeHeap) -> bool {
        forall|n: usize| #[trigger] rch@.contains_key(n) ==> rch@[n] == self.height(n as int)
    }

    /// Every node's change is no later than the last recomputation of each of its
    /// parents, unless that parent waits in `rch`.
    pub open spec fn inputs_seen(&self, rch: &RecomputeHeap) -> bool {
        forall|c: int, pi: int|
            0 <= c < self.len() && 0 <= pi < self.parents(c).len() ==> self.changed_at(c) <= self.recomputed_at(
                #[trigger] self.parents(c)[pi] as int,
            ) || rch@.contains_key(self.parents(c)[pi])
    }

    /// No node was changed or recomputed after stabilisation `now`.
    pub open spec fn stamps_at_most(&self, now: StabilisationNum) -> bool {
        forall|i: int|
            0 <= i < self.len() ==> (#[trigger] self.nodes@[i]).changed_at.0 <= now.0 && self.nodes@[i].recomputed_at.0
                <= now.0
    }

    /// `p` has a change of one of its inputs coming: it waits in `rch`, was recomputed
    /// during `now`, or is one of the `pending` nodes about to be recomputed.
    pub open spec fn parent_reached(&self, p: usize, rch: &RecomputeHeap, now: StabilisationNum, pending: Set<usize>) -> bool {
        ||| rch@.contains_key(p)
        ||| self.nodes@[p as int].recomputed_at == now
        ||| pending.contains(p)
    }

    /// Every parent of a node whose change time moved since `other` has that change
    /// coming (see `parent_reached`).
    pub open spec fn changes_delivered(
        &self,
        other: &Graph,
        rch: &RecomputeHeap,
        now: StabilisationNum,
        pending: Set<usize>,
    ) -> bool {
        forall|c: int, pi: int|
            0 <= c < self.len() && 0 <= pi < self.parents(c).len() && self.nodes@[c].changed_at
                != other.nodes@[c].changed_at ==> #[trigger] self.parent_reached(self.parents(c)[pi], rch, now, pending)
    }
}

/// Whether changes were delivered reads only links and stamps.
proof fn lemma_delivered_same(
    g1: &Graph,
    g2: &Graph,
    g0: &Graph,
    rch: &RecomputeHeap,
    now: StabilisationNum,
    pending: Set<usize>,
)
    requires
        g1.changes_delivered(g0, rch, now, pending),
        g1.len() == g2.len(),
        forall|i: int|
            0 <= i < g2.len() ==> #[trigger] g2.parents(i) == g1.parents(i) && g2.nodes@[i].changed_at == g1.nodes@[i].changed_at
                && g2.nodes@[i].recomputed_at == g1.nodes@[i].recomputed_at,
        g1.ids_ok(),
    ensures
        g2.changes_delivered(g0, rch, now, pending),
{
    assert forall|c: int, pi: int|
        0 <= c < g2.len() && 0 <= pi < g2.parents(c).len() && g2.nodes@[c].changed_at != g0.nodes@[c].changed_at
            implies #[trigger] g2.parent_reached(g2.parents(c)[pi], rch, now, pending) by {
        assert(g2.parents(c) == g1.parents(c));
        assert(g1.parent_reached(g1.parents(c)[pi], rch, now, pending));
        assert(g1.parents(c)[pi] < g1.len());
        assert(g2.parents(g1.parents(c)[pi] as int) == g1.parents(g1.parents(c)[pi] as int));
    }
}

/// Graphs of the same shape have the same edges, and keep the same structural
/// invariants.
proof fn lemma_same_shape(g0: &Graph, g: &Graph)
    requires
        g.same_shape(g0),
    ensures
        g0.ids_ok() ==> g.ids_ok(),
        g0.heights_ok() ==> g.heights_ok(),
        forall|i: int| 0 <= i < g.len() ==> #[trigger] g.height(i) == g0.height(i),
        forall|i: int| 0 <= i < g.len() ==> #[trigger] g.parents(i) == g0.parents(i),
        forall|c: int, p: int| 0 <= c < g.len() && 0 <= p < g.len() ==> (#[trigger] g.is_edge(c, p) == g0.is_edge(c, p)),
        forall|i: int| 0 <= i < g.len() ==> #[trigger] g.nodes@[i].is_valid == g0.nodes@[i].is_valid,
        g0.ids_ok() && g0.parents_valid() ==> g.parents_valid(),
{
    assert forall|i: int| 0 <= i < g.len() implies {
        &&& (#[trigger] g.nodes@[i]).parents@ == g0.nodes@[i].parents@
        &&& g.nodes@[i].children@ == g0.nodes@[i].children@
        &&& g.nodes@[i].rhs_nodes@ == g0.nodes@[i].rhs_nodes@
        &&& g.nodes@[i].created_in == g0.nodes@[i].created_in
        &&& g.nodes@[i].height == g0.nodes@[i].height
        &&& g.nodes@[i].kind == g0.nodes@[i].kind
        &&& g.nodes@[i].num_observers == g0.nodes@[i].num_observers
        &&& g.nodes@[i].force_necessary == g0.nodes@[i].force_necessary
        &&& g.nodes@[i].is_valid == g0.nodes@[i].is_valid
    } by {
        assert(g.nodes@[i] == (Node {
            height_in_recompute_heap: g.nodes@[i].height_in_recompute_heap,
            changed_at: g.nodes@[i].changed_at,
            recomputed_at: g.nodes@[i].recomputed_at,
            ..g0.nodes@[i]
        }));
    }
    if g0.ids_ok() {
        assert forall|i: int| 0 <= i < g0.len() implies {
            &&& (#[trigger] g0.nodes@[i]).parents@ == g.nodes@[i].parents@
            &&& g0.nodes@[i].children@ == g.nodes@[i].children@
            &&& g0.nodes@[i].rhs_nodes@ == g.nodes@[i].rhs_nodes@
            &&& g0.nodes@[i].created_in == g.nodes@[i].created_in
        } by {
            assert(g.nodes@[i].parents@ == g0.nodes@[i].parents@);
        }
        lemma_ids_ok_same_links(g0, g);
    }
    if g0.ids_ok() && g0.parents_valid() {
        assert forall|c: int, pi: int| 0 <= c < g.len() && 0 <= pi < g.parents(c).len() implies g.nodes@[#[trigger] g.parents(
            c,
        )[pi] as int].is_valid by {
            assert(g.parents(c) == g0.parents(c));
            assert(g0.parents(c)[pi] < g0.len());
            assert(g0.nodes@[g0.parents(c)[pi] as int].is_valid);
        }
    }
    assert forall|c: int, p: int| 0 <= c < g.len() && 0 <= p < g.len() implies (#[trigger] g.is_edge(c, p) == g0.is_edge(
        c,
        p,
    )) by {
        assert(g.nodes@[c].parents@ == g0.nodes@[c].parents@);
        assert(g.nodes@[p].parents@ == g0.nodes@[p].parents@);
    }
}

/// A graph has its own shape.
proof fn lemma_same_shape_refl(g: &Graph)
    ensures
        g.same_shape(g),
{
    assert forall|i: int| 0 <= i < g.len() implies #[trigger] g.nodes@[i] == (Node {
        height_in_recompute_heap: g.nodes@[i].height_in_recompute_heap,
        changed_at: g.nodes@[i].changed_at,
        recomputed_at: g.nodes@[i].recomputed_at,
        ..g.nodes@[i]
    }) by {}
}

/// Being of the same shape chains.
proof fn lemma_same_shape_trans(g0: &Graph, g1: &Graph, g2: &Graph)
    requires
        g1.same_shape(g0),
        g2.same_shape(g1),
    ensures
        g2.same_shape(g0),
{
    assert forall|i: int| 0 <= i < g2.len() implies #[trigger] g2.nodes@[i] == (Node {
        height_in_recompute_heap: g2.nodes@[i].height_in_recompute_heap,
        changed_at: g2.nodes@[i].changed_at,
        recomputed_at: g2.nodes@[i].recomputed_at,
        ..g0.nodes@[i]
    }) by {
        assert(g1.nodes@[i] == (Node {
            height_in_recompute_heap: g1.nodes@[i].height_in_recompute_heap,
            changed_at: g1.nodes@[i].changed_at,
            recomputed_at: g1.nodes@[i].recomputed_at,
            ..g0.nodes@[i]
        }));
        assert(g2.nodes@[i] == (Node {
            height_in_recompute_heap: g2.nodes@[i].height_in_recompute_heap,
            changed_at: g2.nodes@[i].changed_at,
            recomputed_at: g2.nodes@[i].recomputed_at,
            ..g1.nodes@[i]
        }));
    }
}

/// One step of `recompute`: once `cur` is recomputed (changing when `did`), every
/// change is still on its way to every parent, the first parent of `cur` coming back
/// as `r` now being the one about to be recomputed.
proof fn lemma_delivered_step(
    g0: &Graph,
    gb: &Graph,
    g: &Graph,
    rbh: &RecomputeHeap,
    rch: &RecomputeHeap,
    now: StabilisationNum,
    cur: usize,
    did: bool,
    r: Option<usize>,
)
    requires
        g0.ids_ok(),
        cur < g0.len(),
        gb.len() == g0.len(),
        g.len() == g0.len(),
        forall|i: int| 0 <= i < g0.len() ==> #[trigger] gb.parents(i) == g0.parents(i),
        forall|i: int| 0 <= i < g0.len() ==> #[trigger] g.parents(i) == g0.parents(i),
        gb.changes_delivered(g0, rbh, now, set![cur]),
        forall|i: int|
            0 <= i < g.len() ==> (#[trigger] g.nodes@[i]).recomputed_at == (if i == cur {
                now
            } else {
                gb.nodes@[i].recomputed_at
            }) && g.nodes@[i].changed_at == (if did && i == cur {
                now
            } else {
                gb.nodes@[i].changed_at
            }),
        forall|m: usize|
            #[trigger] rch@.contains_key(m) <==> (rbh@.contains_key(m) || (did && gb.parents(cur as int).contains(m) && r
                != Some(m))),
    ensures
        g.changes_delivered(
            g0,
            rch,
            now,
            match r {
                Some(p) => set![p],
                None => Set::empty(),
            },
        ),
        r is None ==> g.changes_delivered(g0, rch, now, set![cur]),
{
    let pend: Set<usize> = match r {
        Some(p) => set![p],
        None => Set::empty(),
    };
    assert forall|c: int, pi: int|
        0 <= c < g.len() && 0 <= pi < g.parents(c).len() && g.nodes@[c].changed_at != g0.nodes@[c].changed_at
            implies #[trigger] g.parent_reached(g.parents(c)[pi], rch, now, pend) by {
        assert(g.parents(c) == g0.parents(c));
        assert(gb.parents(c) == g0.parents(c));
        let p = g.parents(c)[pi];
        assert(p < g0.len());
        if gb.nodes@[c].changed_at != g0.nodes@[c].changed_at {
            assert(gb.parent_reached(gb.parents(c)[pi], rbh, now, set![cur]));
            if rbh@.contains_key(p) {
                assert(rch@.contains_key(p));
            } else if gb.nodes@[p as int].recomputed_at == now {
                assert(g.nodes@[p as int].recomputed_at == now);
            } else {
                assert(set![cur].contains(p));
                assert(g.nodes@[p as int].recomputed_at == now);
            }
        } else {
            assert(c == cur as int);
            assert(gb.parents(cur as int)[pi] == p);
            assert(gb.parents(cur as int).contains(p));
            if r != Some(p) {
                assert(rch@.contains_key(p));
            }
        }
    }
    if r is None {
        assert forall|c: int, pi: int|
            0 <= c < g.len() && 0 <= pi < g.parents(c).len() && g.nodes@[c].changed_at != g0.nodes@[c].changed_at
                implies #[trigger] g.parent_reached(g.parents(c)[pi], rch, now, set![cur]) by {
            assert(g.parent_reached(g.parents(c)[pi], rch, now, pend));
        }
    }
}

/// Delivery holds with a heap and pending set that cover the old ones (or where the
/// node has been recomputed meanwhile).
proof fn lemma_delivered_weaken(
    g: &Graph,
    g0: &Graph,
    r1: &RecomputeHeap,
    r2: &RecomputeHeap,
    now: StabilisationNum,
    p1: Set<usize>,
    p2: Set<usize>,
)
    requires
        g.changes_delivered(g0, r1, now, p1),
        forall|x: usize| #[trigger] r1@.contains_key(x) ==> r2@.contains_key(x) || p2.contains(x),
        forall|x: usize| #[trigger] p1.contains(x) ==> r2@.contains_key(x) || p2.contains(x),
    ensures
        g.changes_delivered(g0, r2, now, p2),
{
    assert forall|c: int, pi: int|
        0 <= c < g.len() && 0 <= pi < g.parents(c).len() && g.nodes@[c].changed_at != g0.nodes@[c].changed_at
            implies #[trigger] g.parent_reached(g.parents(c)[pi], r2, now, p2) by {
        assert(g.parent_reached(g.parents(c)[pi], r1, now, p1));
    }
}

/// After recomputing one node of the pending ones from `gk` to `g`, changes that were
/// on their way since `g0` still are, and so are the new ones.
proof fn lemma_delivered_chain(
    g0: &Graph,
    gk: &Graph,
    g: &Graph,
    rk: &RecomputeHeap,
    rch: &RecomputeHeap,
    now: StabilisationNum,
    pk: Set<usize>,
    pnew: Set<usize>,
)
    requires
        gk.ids_ok(),
        g.len() == gk.len(),
        gk.changes_delivered(g0, rk, now, pk),
        g.changes_delivered(gk, rch, now, Set::empty()),
        forall|i: int| 0 <= i < g.len() ==> #[trigger] g.parents(i) == gk.parents(i),
        forall|i: int|
            0 <= i < g.len() ==> (#[trigger] g.nodes@[i]).recomputed_at == gk.nodes@[i].recomputed_at
                || g.nodes@[i].recomputed_at == now,
        forall|x: usize| #[trigger] rk@.contains_key(x) ==> rch@.contains_key(x),
        forall|x: usize| #[trigger] pk.contains(x) ==> pnew.contains(x) || g.nodes@[x as int].recomputed_at == now,
    ensures
        g.changes_delivered(g0, rch, now, pnew),
{
    assert forall|c: int, pi: int|
        0 <= c < g.len() && 0 <= pi < g.parents(c).len() && g.nodes@[c].changed_at != g0.nodes@[c].changed_at
            implies #[trigger] g.parent_reached(g.parents(c)[pi], rch, now, pnew) by {
        assert(g.parents(c) == gk.parents(c));
        let p = g.parents(c)[pi];
        assert(p < gk.len());
        if g.nodes@[c].changed_at != gk.nodes@[c].changed_at {
            assert(g.parent_reached(g.parents(c)[pi], rch, now, Set::empty()));
        } else {
            assert(gk.parent_reached(gk.parents(c)[pi], rk, now, pk));
            if gk.nodes@[p as int].recomputed_at == now {
                assert(g.nodes@[p as int].recomputed_at == now);
            }
        }
    }
}

/// After a stabilisation that recomputed every node queued at its start and
/// delivered every change to every parent, no parent has missed a change of one of
/// its inputs, provided none had before, apart from those waiting to be recomputed.
proof fn lemma_inputs_seen(g0: &Graph, g: &Graph, rch0: &RecomputeHeap, rch: &RecomputeHeap, now: StabilisationNum)
    requires
        g0.ids_ok(),
        g.same_shape(g0),
        g.stamped_since(g0, now),
        forall|n: usize| #[trigger] rch0@.contains_key(n) ==> g.nodes@[n as int].recomputed_at == now,
        forall|c: int, pi: int|
            0 <= c < g0.len() && 0 <= pi < g.parents(c).len() && g.nodes@[c].changed_at != g0.nodes@[c].changed_at
                ==> g.nodes@[#[trigger] g.parents(c)[pi] as int].recomputed_at == now,
        g0.inputs_seen(rch0),
        g0.stamps_at_most(now),
    ensures
        g.inputs_seen(rch),
{
    lemma_same_shape(g0, g);
    assert forall|c: int, pi: int| 0 <= c < g.len() && 0 <= pi < g.parents(c).len() implies g.changed_at(c)
        <= g.recomputed_at(#[trigger] g.parents(c)[pi] as int) || rch@.contains_key(g.parents(c)[pi]) by {
        let p = g.parents(c)[pi];
        assert(g.parents(c) == g0.parents(c));
        assert(p < g0.len());
        assert(g.nodes@[p as int].recomputed_at == g0.nodes@[p as int].recomputed_at || g.nodes@[p as int].recomputed_at
            == now);
        assert(g0.nodes@[p as int].recomputed_at.0 <= now.0);
        assert(g0.nodes@[c].changed_at.0 <= now.0);
        assert(g.nodes@[c].changed_at == g0.nodes@[c].changed_at || g.nodes@[c].changed_at == now);
        if g.nodes@[c].changed_at != g0.nodes@[c].changed_at {
            assert(g.nodes@[g.parents(c)[pi] as int].recomputed_at == now);
        } else {
            assert(g0.changed_at(c) <= g0.recomputed_at(g0.parents(c)[pi] as int) || rch0@.contains_key(
                g0.parents(c)[pi],
            ));
        }
    }
}

/// `compute` can only answer `true` for `n`: whatever it does, it reports a change.
pub open spec fn answers_true<F: Fn(usize) -> bool>(compute: &F, n: usize) -> bool {
    forall|b: bool| compute.ensures((n,), b) ==> b
}

impl Graph {
    /// Take the lowest layer of the recompute heap out for recomputation: every node
    /// queued at the least height that holds any comes back, each once, and no longer
    /// counts as queued (its recorded heap position is reset to `-1`); the nodes left in
    /// the heap all sit higher. `None` comes back when nothing is queued.
    pub fn take_min_layer(&mut self, rch: &mut RecomputeHeap) -> (r: Option<Vec<usize>>)
        requires
            old(self).wf(),
            old(rch).wf(),
            old(self).rch_consistent(old(rch)),
        ensures
            final(self).wf(),
            final(self).len() == old(self).len(),
            final(rch).wf(),
            final(rch).max_allowed() == old(rch).max_allowed(),
            final(self).rch_consistent(final(rch)),
            r is None <==> old(rch)@.len() == 0,
            r is None ==> *final(self) == *old(self) && final(rch)@ == old(rch)@,
            r matches Some(layer) ==> {
                let h = final(rch).lower_bound();
                &&& layer@.len() > 0
                &&& layer@.no_duplicates()
                &&& forall|n: usize| #[trigger] old(rch)@.contains_key(n) ==> h <= old(rch)@[n]
                &&& forall|n: usize|
                    #[trigger] layer@.contains(n) <==> (old(rch)@.contains_key(n) && old(rch)@[n] == h)
                &&& final(rch)@ == old(rch)@.remove_keys(layer@.to_set())
                &&& forall|n: usize| #[trigger] final(rch)@.contains_key(n) ==> h < final(rch)@[n]
                &&& forall|i: int|
                    0 <= i < final(self).len() ==> #[trigger] final(self).nodes@[i] == (if layer@.contains(i as usize) {
                        Node { height_in_recompute_heap: -1i32, ..old(self).nodes@[i] }
                    } else {
                        old(self).nodes@[i]
                    })
            },
    {
        let ghost g0 = *self;
        let ghost r0 = rch@;
        let layer = match rch.remove_min_layer() {
            None => {
                return None;
            },
            Some(layer) => layer,
        };
        let n = layer.len();
        let mut k: usize = 0;
        proof {
            assert forall|j: int| 0 <= j < n implies (#[trigger] layer@[j] as int) < g0.len() by {
                assert(layer@.contains(layer@[j]));
                assert(r0.contains_key(layer@[j]));
            }
        }
        while k < n
            invariant
                n == layer@.len(),
                k <= n,
                self.len() == g0.len(),
                g0.wf(),
                forall|j: int| 0 <= j < n ==> (#[trigger] layer@[j] as int) < g0.len(),
                forall|i: int|
                    0 <= i < self.len() ==> #[trigger] self.nodes@[i] == (if layer@.subrange(0, k as int).contains(
                        i as usize,
                    ) {
                        Node { height_in_recompute_heap: -1i32, ..g0.nodes@[i] }
                    } else {
                        g0.nodes@[i]
                    }),
            decreases n - k,
        {
            let x = layer[k];
            proof {
                assert(layer@.contains(x));
            }
            let ghost gk = *self;
            self.nodes[x].height_in_recompute_heap = -1;
            proof {
                assert forall|i: int|
                    0 <= i < self.len() implies #[trigger] self.nodes@[i] == (if layer@.subrange(0, k + 1).contains(
                        i as usize,
                    ) {
                        Node { height_in_recompute_heap: -1i32, ..g0.nodes@[i] }
                    } else {
                        g0.nodes@[i]
                    }) by {
                    assert(gk.nodes@[i] == (if layer@.subrange(0, k as int).contains(i as usize) {
                        Node { height_in_recompute_heap: -1i32, ..g0.nodes@[i] }
                    } else {
                        g0.nodes@[i]
                    }));
                    if layer@.subrange(0, k as int).contains(i as usize) {
                        let j = choose|j: int| 0 <= j < k && #[trigger] layer@.subrange(0, k as int)[j] == i as usize;
                        assert(layer@.subrange(0, k + 1)[j] == i as usize);
                    }
                    assert(layer@.subrange(0, k + 1)[k as int] == x);
                    assert(self.nodes.len() == self.nodes@.len());
                    assert(i as usize as int == i);
                    if i == x as int {
                    } else if layer@.subrange(0, k + 1).contains(i as usize) {
                        let j = choose|j: int| 0 <= j < k + 1 && #[trigger] layer@.subrange(0, k + 1)[j] == i as usize;
                        assert(j != k as int);
                        assert(layer@.subrange(0, k as int)[j] == i as usize);
                    }
                }
            }
            k = k + 1;
        }
        proof {
            assert(layer@.subrange(0, n as int) =~= layer@);
            lemma_wf_same_links(&g0, self);
            assert forall|i: int| 0 <= i < self.len() implies #[trigger] self.nodes@[i].height_in_recompute_heap == (
            if rch@.contains_key(i as usize) {
                rch@[i as usize]
            } else {
                -1
            }) by {
                assert(g0.nodes@[i].height_in_recompute_heap == (if r0.contains_key(i as usize) {
                    r0[i as usize]
                } else {
                    -1
                }));
                if !layer@.contains(i as usize) {
                    assert(!layer@.to_set().contains(i as usize));
                    assert(rch@.contains_key(i as usize) == r0.contains_key(i as usize));
                } else {
                    assert(layer@.to_set().contains(i as usize));
                }
            }
        }
        Some(layer)
    }
}

impl Graph {
    /// Recompute `node` (with `compute`, which brings its value up to date and says
    /// whether it changed) and then, as long as [`Self::recompute_one`] hands back a
    /// parent that can go right away, that parent. Heights strictly increase along the
    /// way, so this ends; every node queued on the way sits above `node`. A node counts
    /// as changed exactly when `compute` said so for it.
    #[verifier::spinoff_prover]
    #[verifier::rlimit(60)]
    pub fn recompute<F: Fn(usize) -> bool>(
        &mut self,
        rch: &mut RecomputeHeap,
        stats: &mut Stats,
        handle_after: &mut Vec<usize>,
        node: usize,
        now: StabilisationNum,
        compute: &F,
    )
        requires
            old(self).ids_ok(),
            old(self).heights_ok(),
            old(self).parents_valid(),
            node < old(self).len(),
            old(self).nodes@[node as int].is_valid,
            0 <= old(self).height(node as int),
            old(self).heights_within(old(rch).max_allowed()),
            old(rch).wf(),
            old(self).rch_consistent(old(rch)),
            old(self).queued_at_height(old(rch)),
            forall|x: usize| #[trigger] compute.requires((x,)),
        ensures
            final(self).same_shape(old(self)),
            final(self).stamped_since(old(self), now),
            final(self).nodes@[node as int].recomputed_at == now,
            final(rch).wf(),
            final(rch).max_allowed() == old(rch).max_allowed(),
            final(self).rch_consistent(final(rch)),
            final(self).queued_at_height(final(rch)),
            forall|n: usize| #[trigger] old(rch)@.contains_key(n) ==> final(rch)@.contains_key(n),
            forall|n: usize|
                #[trigger] final(rch)@.contains_key(n) && !old(rch)@.contains_key(n) ==> old(self).height(n as int)
                    > old(self).height(node as int) && old(self).nodes@[n as int].is_valid,
            forall|i: int|
                0 <= i < old(self).len() && (#[trigger] final(self).nodes@[i]).changed_at != old(self).nodes@[i].changed_at
                    ==> compute.ensures((i as usize,), true),
            answers_true(compute, node) ==> final(self).nodes@[node as int].changed_at == now,
            final(self).changes_delivered(old(self), final(rch), now, Set::empty()),
            *final(stats) == (Stats { recomputed: final(stats).recomputed, changed: final(stats).changed, ..*old(stats) }),
            old(stats).recomputed <= final(stats).recomputed,
            old(stats).changed <= final(stats).changed,
            old(stats).recomputed < usize::MAX ==> old(stats).recomputed < final(stats).recomputed,
            forall|n: usize| #[trigger] old(handle_after)@.contains(n) ==> final(handle_after)@.contains(n),
            forall|n: usize|
                #[trigger] final(handle_after)@.contains(n) ==> old(handle_after)@.contains(n) || ((n as int) < old(
                    self,
                ).len() && final(self).nodes@[n as int].changed_at == now && old(self).nodes@[n as int].num_on_update_handlers
                    > 0),
            forall|i: int|
                0 <= i < old(self).len() && (#[trigger] final(self).nodes@[i]).changed_at != old(self).nodes@[i].changed_at
                    && old(self).nodes@[i].num_on_update_handlers > 0 ==> final(handle_after)@.contains(i as usize),
    {
        let ghost g0 = *self;
        let ghost rch0 = rch@;
        let ghost max = rch.max_allowed();
        let mut cur = node;
        proof {
            lemma_same_shape_refl(self);
        }
        loop
            invariant
                g0 == *old(self),
                rch0 == old(rch)@,
                max == old(rch).max_allowed(),
                g0.ids_ok(),
                g0.heights_ok(),
                g0.heights_within(max),
                self.same_shape(&g0),
                self.stamped_since(&g0, now),
                node < g0.len(),
                cur < g0.len(),
                0 <= g0.height(node as int) <= g0.height(cur as int),
                cur != node ==> self.nodes@[node as int].recomputed_at == now,
                rch.wf(),
                rch.max_allowed() == max,
                self.rch_consistent(rch),
                self.queued_at_height(rch),
                forall|n: usize| #[trigger] rch0.contains_key(n) ==> rch@.contains_key(n),
                forall|n: usize|
                    #[trigger] rch@.contains_key(n) && !rch0.contains_key(n) ==> g0.height(n as int) > g0.height(
                        node as int,
                    ) && g0.nodes@[n as int].is_valid,
                forall|x: usize| #[trigger] compute.requires((x,)),
                g0.parents_valid(),
                g0.nodes@[cur as int].is_valid,
                forall|i: int|
                    0 <= i < g0.len() && (#[trigger] self.nodes@[i]).changed_at != g0.nodes@[i].changed_at
                        ==> compute.ensures((i as usize,), true),
                cur != node ==> (answers_true(compute, node) ==> self.nodes@[node as int].changed_at == now),
                self.changes_delivered(&g0, rch, now, set![cur]),
                *stats == (Stats { recomputed: stats.recomputed, changed: stats.changed, ..*old(stats) }),
                old(stats).recomputed <= stats.recomputed,
                old(stats).changed <= stats.changed,
                cur != node && old(stats).recomputed < usize::MAX ==> old(stats).recomputed < stats.recomputed,
                forall|n: usize| #[trigger] old(handle_after)@.contains(n) ==> handle_after@.contains(n),
                forall|n: usize|
                    #[trigger] handle_after@.contains(n) ==> old(handle_after)@.contains(n) || ((n as int) < g0.len()
                        && self.nodes@[n as int].changed_at == now && g0.nodes@[n as int].num_on_update_handlers > 0),
                forall|i: int|
                    0 <= i < g0.len() && (#[trigger] self.nodes@[i]).changed_at != g0.nodes@[i].changed_at
                        && g0.nodes@[i].num_on_update_handlers > 0 ==> handle_after@.contains(i as usize),
            ensures
                self.same_shape(&g0),
                self.stamped_since(&g0, now),
                self.nodes@[node as int].recomputed_at == now,
                rch.wf(),
                rch.max_allowed() == max,
                self.rch_consistent(rch),
                self.queued_at_height(rch),
                forall|n: usize| #[trigger] rch0.contains_key(n) ==> rch@.contains_key(n),
                forall|n: usize|
                    #[trigger] rch@.contains_key(n) && !rch0.contains_key(n) ==> g0.height(n as int) > g0.height(
                        node as int,
                    ) && g0.nodes@[n as int].is_valid,
                forall|i: int|
                    0 <= i < g0.len() && (#[trigger] self.nodes@[i]).changed_at != g0.nodes@[i].changed_at
                        ==> compute.ensures((i as usize,), true),
                answers_true(compute, node) ==> self.nodes@[node as int].changed_at == now,
                self.changes_delivered(&g0, rch, now, Set::empty()),
                *stats == (Stats { recomputed: stats.recomputed, changed: stats.changed, ..*old(stats) }),
                old(stats).recomputed <= stats.recomputed,
                old(stats).changed <= stats.changed,
                old(stats).recomputed < usize::MAX ==> old(stats).recomputed < stats.recomputed,
                forall|n: usize| #[trigger] old(handle_after)@.contains(n) ==> handle_after@.contains(n),
                forall|n: usize|
                    #[trigger] handle_after@.contains(n) ==> old(handle_after)@.contains(n) || ((n as int) < g0.len()
                        && self.nodes@[n as int].changed_at == now && g0.nodes@[n as int].num_on_update_handlers > 0),
                forall|i: int|
                    0 <= i < g0.len() && (#[trigger] self.nodes@[i]).changed_at != g0.nodes@[i].changed_at
                        && g0.nodes@[i].num_on_update_handlers > 0 ==> handle_after@.contains(i as usize),
            decreases max + 1 - g0.height(cur as int),
        {
            let did = compute(cur);
            let ghost gb = *self;
            let ghost rb = rch@;
            let ghost rbh = *rch;
            proof {
                lemma_same_shape(&g0, self);
                assert forall|pi: int| 0 <= pi < self.parents(cur as int).len() implies 0 <= #[trigger] self.height(
                    self.parents(cur as int)[pi] as int,
                ) <= rch.max_allowed() by {
                    let p = self.parents(cur as int)[pi] as int;
                    assert(g0.parents(cur as int)[pi] < g0.len());
                    assert(g0.parents(cur as int).contains(p as usize));
                    assert(g0.is_edge(cur as int, p));
                    assert(g0.height(cur as int) < g0.height(p));
                }
            }
            let ghost sb = *stats;
            let ghost hb = handle_after@;
            let r = self.recompute_one(rch, stats, handle_after, cur, did, now);
            proof {
                assert(self.same_shape(&gb)) by {
                    assert forall|i: int| 0 <= i < self.len() implies #[trigger] self.nodes@[i] == (Node {
                        height_in_recompute_heap: self.nodes@[i].height_in_recompute_heap,
                        changed_at: self.nodes@[i].changed_at,
                        recomputed_at: self.nodes@[i].recomputed_at,
                        ..gb.nodes@[i]
                    }) by {}
                }
                lemma_same_shape_trans(&g0, &gb, self);
                lemma_same_shape(&gb, self);
                assert forall|i: int| 0 <= i < self.len() implies {
                    &&& ((#[trigger] self.nodes@[i]).recomputed_at == g0.nodes@[i].recomputed_at
                        || self.nodes@[i].recomputed_at == now)
                    &&& (self.nodes@[i].changed_at == g0.nodes@[i].changed_at || self.nodes@[i].changed_at == now)
                    &&& (self.nodes@[i].changed_at != g0.nodes@[i].changed_at ==> self.nodes@[i].recomputed_at == now)
                } by {
                    assert(gb.nodes@[i].recomputed_at == g0.nodes@[i].recomputed_at || gb.nodes@[i].recomputed_at == now);
                }
                assert forall|n: usize| #[trigger] rch@.contains_key(n) implies rch@[n] == self.height(n as int) by {
                    if rb.contains_key(n) {
                    } else {
                        assert(gb.height(n as int) == self.height(n as int));
                    }
                }
                assert forall|n: usize|
                    #[trigger] rch@.contains_key(n) && !rch0.contains_key(n) implies g0.height(n as int) > g0.height(
                        node as int,
                    ) && g0.nodes@[n as int].is_valid by {
                    if !rb.contains_key(n) {
                        assert(gb.parents(cur as int).contains(n));
                        let j = choose|j: int| 0 <= j < gb.parents(cur as int).len() && gb.parents(cur as int)[j] == n;
                        assert(g0.parents(cur as int)[j] == n);
                        assert(g0.parents(cur as int).contains(n));
                        assert(n < g0.len());
                        assert(g0.is_edge(cur as int, n as int));
                        assert(g0.nodes@[g0.parents(cur as int)[j] as int].is_valid);
                    }
                }
                assert forall|i: int|
                    0 <= i < g0.len() && (#[trigger] self.nodes@[i]).changed_at != g0.nodes@[i].changed_at
                        implies compute.ensures((i as usize,), true) by {
                    if gb.nodes@[i].changed_at == g0.nodes@[i].changed_at {
                        assert(i == cur as int && did);
                    }
                }
                assert forall|n: usize| #[trigger] old(handle_after)@.contains(n) implies handle_after@.contains(n) by {
                    assert(hb.contains(n));
                    if handle_after@ != hb {
                        let k = choose|k: int| 0 <= k < hb.len() && hb[k] == n;
                        assert(handle_after@[k] == n);
                    }
                }
                assert forall|n: usize|
                    #[trigger] handle_after@.contains(n) implies old(handle_after)@.contains(n) || ((n as int) < g0.len()
                        && self.nodes@[n as int].changed_at == now && g0.nodes@[n as int].num_on_update_handlers > 0) by {
                    let k = choose|k: int| 0 <= k < handle_after@.len() && handle_after@[k] == n;
                    if k < hb.len() {
                        assert(hb[k] == n);
                        assert(hb.contains(n));
                        if !old(handle_after)@.contains(n) {
                            assert(gb.nodes@[n as int].changed_at == now);
                        }
                    } else {
                        assert(n == cur);
                    }
                }
                assert forall|i: int|
                    0 <= i < g0.len() && (#[trigger] self.nodes@[i]).changed_at != g0.nodes@[i].changed_at
                        && g0.nodes@[i].num_on_update_handlers > 0 implies handle_after@.contains(i as usize) by {
                    if gb.nodes@[i].changed_at != g0.nodes@[i].changed_at {
                        assert(hb.contains(i as usize));
                        if handle_after@ != hb {
                            let k = choose|k: int| 0 <= k < hb.len() && hb[k] == i as usize;
                            assert(handle_after@[k] == i as usize);
                        }
                    } else {
                        assert(i == cur as int && did);
                        if !hb.contains(cur) {
                            assert(handle_after@[hb.len() as int] == cur);
                        } else {
                            assert(handle_after@ == hb);
                        }
                    }
                }
                assert forall|n: usize| #[trigger] rch0.contains_key(n) implies rch@.contains_key(n) by {
                    assert(rb.contains_key(n));
                }
            }
            proof {
                lemma_delivered_step(&g0, &gb, self, &rbh, rch, now, cur, did, r);
            }
            match r {
                None => {
                    break;
                },
                Some(p) => {
                    proof {
                        assert(g0.parents(cur as int)[0] == p);
                        assert(g0.nodes@[g0.parents(cur as int)[0] as int].is_valid);
                        assert(g0.parents(cur as int)[0] < g0.len());
                        assert(g0.parents(cur as int).contains(p));
                        assert(g0.is_edge(cur as int, p as int));
                        assert(g0.height(cur as int) < g0.height(p as int));
                    }
                    cur = p;
                },
            }
        }
    }

    /// Stabilise: take the lowest layer of the recompute heap, recompute each of its nodes
    /// (see [`Self::recompute`]), and go on until the heap is empty. Every node queued at
    /// the start is recomputed; nodes queued on the way always sit above the layer being
    /// worked on, so the layers come out in increasing height and this ends.
    pub fn stabilise<F: Fn(usize) -> bool>(
        &mut self,
        rch: &mut RecomputeHeap,
        stats: &mut Stats,
        handle_after: &mut Vec<usize>,
        now: StabilisationNum,
        compute: &F,
    )
        requires
            old(self).ids_ok(),
            old(self).heights_ok(),
            old(self).parents_valid(),
            forall|n: usize| #[trigger] old(rch)@.contains_key(n) ==> old(self).nodes@[n as int].is_valid,
            old(self).heights_within(old(rch).max_allowed()),
            old(rch).wf(),
            old(self).rch_consistent(old(rch)),
            old(self).queued_at_height(old(rch)),
            forall|x: usize| #[trigger] compute.requires((x,)),
        ensures
            final(self).same_shape(old(self)),
            final(self).stamped_since(old(self), now),
            final(rch).wf(),
            final(rch).max_allowed() == old(rch).max_allowed(),
            final(rch)@.len() == 0,
            final(self).rch_consistent(final(rch)),
            forall|n: usize| #[trigger] old(rch)@.contains_key(n) ==> final(self).nodes@[n as int].recomputed_at == now,
            forall|c: int, pi: int|
                0 <= c < old(self).len() && 0 <= pi < final(self).parents(c).len() && final(self).nodes@[c].changed_at
                    != old(self).nodes@[c].changed_at ==> final(self).nodes@[#[trigger] final(self).parents(
                    c,
                )[pi] as int].recomputed_at == now,
            old(self).inputs_seen(old(rch)) && old(self).stamps_at_most(now) ==> final(self).inputs_seen(final(rch)),
            forall|n: usize|
                #[trigger] old(rch)@.contains_key(n) && answers_true(compute, n) ==> final(self).nodes@[n as int].changed_at
                    == now,
            forall|i: int|
                0 <= i < old(self).len() && (#[trigger] final(self).nodes@[i]).changed_at != old(self).nodes@[i].changed_at
                    ==> compute.ensures((i as usize,), true),
            *final(stats) == (Stats { recomputed: final(stats).recomputed, changed: final(stats).changed, ..*old(stats) }),
            old(stats).recomputed <= final(stats).recomputed,
            old(stats).changed <= final(stats).changed,
            forall|n: usize| #[trigger] old(handle_after)@.contains(n) ==> final(handle_after)@.contains(n),
            forall|n: usize|
                #[trigger] final(handle_after)@.contains(n) ==> old(handle_after)@.contains(n) || ((n as int) < old(
                    self,
                ).len() && final(self).nodes@[n as int].changed_at == now && old(self).nodes@[n as int].num_on_update_handlers
                    > 0),
            forall|i: int|
                0 <= i < old(self).len() && (#[trigger] final(self).nodes@[i]).changed_at != old(self).nodes@[i].changed_at
                    && old(self).nodes@[i].num_on_update_handlers > 0 ==> final(handle_after)@.contains(i as usize),
    {
        let ghost g0 = *self;
        let ghost rch0 = rch@;
        let ghost rch0h = *rch;
        let ghost max = rch.max_allowed();
        let ghost mut last: int = -1;
        proof {
            lemma_same_shape_refl(self);
            rch.lemma_wf();
        }
        loop
            invariant
                g0 == *old(self),
                rch0 == old(rch)@,
                max == old(rch).max_allowed(),
                g0.ids_ok(),
                g0.heights_ok(),
                g0.heights_within(max),
                self.same_shape(&g0),
                self.stamped_since(&g0, now),
                rch.wf(),
                rch.max_allowed() == max,
                self.rch_consistent(rch),
                self.queued_at_height(rch),
                -1 <= last <= max,
                forall|x: usize| #[trigger] rch0.contains_key(x) ==> x < g0.len(),
                forall|n: usize| #[trigger] rch@.contains_key(n) ==> last < rch@[n],
                forall|n: usize|
                    #[trigger] rch0.contains_key(n) ==> rch@.contains_key(n) || self.nodes@[n as int].recomputed_at
                        == now,
                forall|x: usize| #[trigger] compute.requires((x,)),
                g0.parents_valid(),
                forall|i: int|
                    0 <= i < g0.len() && (#[trigger] self.nodes@[i]).changed_at != g0.nodes@[i].changed_at
                        ==> compute.ensures((i as usize,), true),
                *stats == (Stats { recomputed: stats.recomputed, changed: stats.changed, ..*old(stats) }),
                old(stats).recomputed <= stats.recomputed,
                old(stats).changed <= stats.changed,
                forall|n: usize| #[trigger] rch@.contains_key(n) ==> g0.nodes@[n as int].is_valid,
                forall|m: usize|
                    #[trigger] rch0.contains_key(m) && !rch@.contains_key(m) && answers_true(compute, m)
                        ==> self.nodes@[m as int].changed_at == now,
                self.changes_delivered(&g0, rch, now, Set::empty()),
                forall|n: usize| #[trigger] old(handle_after)@.contains(n) ==> handle_after@.contains(n),
                forall|n: usize|
                    #[trigger] handle_after@.contains(n) ==> old(handle_after)@.contains(n) || ((n as int) < g0.len()
                        && self.nodes@[n as int].changed_at == now && g0.nodes@[n as int].num_on_update_handlers > 0),
                forall|i: int|
                    0 <= i < g0.len() && (#[trigger] self.nodes@[i]).changed_at != g0.nodes@[i].changed_at
                        && g0.nodes@[i].num_on_update_handlers > 0 ==> handle_after@.contains(i as usize),
            ensures
                self.same_shape(&g0),
                self.stamped_since(&g0, now),
                rch.wf(),
                rch.max_allowed() == max,
                rch@.len() == 0,
                self.rch_consistent(rch),
                forall|n: usize| #[trigger] rch0.contains_key(n) ==> self.nodes@[n as int].recomputed_at == now,
                forall|i: int|
                    0 <= i < g0.len() && (#[trigger] self.nodes@[i]).changed_at != g0.nodes@[i].changed_at
                        ==> compute.ensures((i as usize,), true),
                *stats == (Stats { recomputed: stats.recomputed, changed: stats.changed, ..*old(stats) }),
                old(stats).recomputed <= stats.recomputed,
                old(stats).changed <= stats.changed,
                forall|m: usize|
                    #[trigger] rch0.contains_key(m) && answers_true(compute, m) ==> self.nodes@[m as int].changed_at == now,
                forall|c: int, pi: int|
                    0 <= c < g0.len() && 0 <= pi < self.parents(c).len() && self.nodes@[c].changed_at
                        != g0.nodes@[c].changed_at ==> self.nodes@[#[trigger] self.parents(c)[pi] as int].recomputed_at
                        == now,
                forall|n: usize| #[trigger] old(handle_after)@.contains(n) ==> handle_after@.contains(n),
                forall|n: usize|
                    #[trigger] handle_after@.contains(n) ==> old(handle_after)@.contains(n) || ((n as int) < g0.len()
                        && self.nodes@[n as int].changed_at == now && g0.nodes@[n as int].num_on_update_handlers > 0),
                forall|i: int|
                    0 <= i < g0.len() && (#[trigger] self.nodes@[i]).changed_at != g0.nodes@[i].changed_at
                        && g0.nodes@[i].num_on_update_handlers > 0 ==> handle_after@.contains(i as usize),
            decreases max - last,
        {
            let ghost rb = rch@;
            let ghost gs = *self;
            proof {
                rch.lemma_wf();
                lemma_same_shape(&g0, self);
                assert forall|m: usize| #[trigger] rb.contains_key(m) implies rb[m] == g0.height(m as int) by {
                    assert(rb[m] == self.height(m as int));
                }
            }
            let ghost rbh = *rch;
            let layer = match rch.remove_min_layer() {
                None => {
                    proof {
                        lemma_delivered_weaken(self, &g0, &rbh, rch, now, Set::empty(), Set::empty());
                        assert forall|c: int, pi: int|
                            0 <= c < g0.len() && 0 <= pi < self.parents(c).len() && self.nodes@[c].changed_at
                                != g0.nodes@[c].changed_at implies self.nodes@[#[trigger] self.parents(c)[pi] as int].recomputed_at
                                == now by {
                            assert(self.parent_reached(self.parents(c)[pi], rch, now, Set::empty()));
                            if rch@.contains_key(self.parents(c)[pi]) {
                                assert(rch@.dom().contains(self.parents(c)[pi]));
                                assert(rch@.len() > 0);
                            }
                        }
                        rch.lemma_wf();
                        assert forall|n: usize| #[trigger] rch0.contains_key(n) implies self.nodes@[n as int].recomputed_at
                            == now by {
                            if rch@.contains_key(n) {
                                assert(rch@.len() > 0) by {
                                    assert(rch@.dom().contains(n));
                                }
                            }
                        }
                        assert forall|m: usize|
                            #[trigger] rch0.contains_key(m) && answers_true(compute, m) implies self.nodes@[m as int].changed_at
                                == now by {
                            if rch@.contains_key(m) {
                                assert(rch@.len() > 0) by {
                                    assert(rch@.dom().contains(m));
                                }
                            }
                        }
                    }
                    break;
                },
                Some(layer) => layer,
            };
            proof {
                assert forall|x: usize| #[trigger] rbh@.contains_key(x) implies rch@.contains_key(x) || layer@.to_set().contains(
                    x,
                ) by {
                    if !layer@.to_set().contains(x) {
                        assert(rch@ == rbh@.remove_keys(layer@.to_set()));
                    }
                }
                lemma_delivered_weaken(self, &g0, &rbh, rch, now, Set::empty(), layer@.to_set());
            }
            let ghost h = rch.lower_bound();
            proof {
                let n0 = layer@[0];
                assert(layer@.contains(n0));
                assert(rb.contains_key(n0) && rb[n0] == h);
                assert(last < h <= max);
            }
            let n = layer.len();
            let mut k: usize = 0;
            proof {
                assert(layer@.subrange(0, n as int) =~= layer@);
                assert forall|i: int|
                    0 <= i < self.len() implies #[trigger] self.nodes@[i].height_in_recompute_heap == (if layer@.subrange(
                        0,
                        n as int,
                    ).contains(i as usize) {
                        h
                    } else if rch@.contains_key(i as usize) {
                        rch@[i as usize]
                    } else {
                        -1
                    }) by {
                    assert(self.nodes@[i].height_in_recompute_heap == (if rb.contains_key(i as usize) {
                        rb[i as usize]
                    } else {
                        -1
                    }));
                    if layer@.contains(i as usize) {
                        assert(rb.contains_key(i as usize) && rb[i as usize] == h);
                    } else {
                        assert(layer@.to_set().contains(i as usize) == layer@.contains(i as usize));
                    }
                }
            }
            while k < n
                invariant
                    g0.ids_ok(),
                    self.same_shape(&g0),
                    self.stamped_since(&g0, now),
                    n == layer@.len(),
                    k <= n,
                    layer@.no_duplicates(),
                    forall|m: usize| #[trigger] layer@.contains(m) <==> (rb.contains_key(m) && rb[m] == h),
                    rch@ == rb.remove_keys(layer@.to_set()),
                    self.queued_at_height(rch),
                    forall|x: usize| #[trigger] rb.contains_key(x) ==> x < self.len(),
                    forall|i: int|
                        0 <= i < self.len() ==> #[trigger] self.nodes@[i].recomputed_at == gs.nodes@[i].recomputed_at,
                    forall|i: int|
                        0 <= i < self.len() ==> #[trigger] self.nodes@[i].changed_at == gs.nodes@[i].changed_at,
                    self.len() == gs.len(),
                    forall|n: usize| #[trigger] old(handle_after)@.contains(n) ==> handle_after@.contains(n),
                    forall|n: usize|
                        #[trigger] handle_after@.contains(n) ==> old(handle_after)@.contains(n) || ((n as int) < g0.len()
                            && self.nodes@[n as int].changed_at == now && g0.nodes@[n as int].num_on_update_handlers > 0),
                    forall|i: int|
                        0 <= i < g0.len() && (#[trigger] self.nodes@[i]).changed_at != g0.nodes@[i].changed_at
                            && g0.nodes@[i].num_on_update_handlers > 0 ==> handle_after@.contains(i as usize),
                    forall|i: int|
                        0 <= i < self.len() ==> #[trigger] self.nodes@[i].height_in_recompute_heap == (if layer@.subrange(
                            k as int,
                            n as int,
                        ).contains(i as usize) {
                            h
                        } else if rch@.contains_key(i as usize) {
                            rch@[i as usize]
                        } else {
                            -1
                        }),
                decreases n - k,
            {
                let x = layer[k];
                proof {
                    assert(layer@.contains(x));
                    assert(rb.contains_key(x));
                }
                let ghost gk = *self;
                self.nodes[x].height_in_recompute_heap = -1;
                proof {
                    assert(self.same_shape(&g0)) by {
                        assert forall|i: int| 0 <= i < self.len() implies #[trigger] self.nodes@[i] == (Node {
                            height_in_recompute_heap: self.nodes@[i].height_in_recompute_heap,
                            changed_at: self.nodes@[i].changed_at,
                            recomputed_at: self.nodes@[i].recomputed_at,
                            ..g0.nodes@[i]
                        }) by {
                            assert(gk.nodes@[i] == (Node {
                                height_in_recompute_heap: gk.nodes@[i].height_in_recompute_heap,
                                changed_at: gk.nodes@[i].changed_at,
                                recomputed_at: gk.nodes@[i].recomputed_at,
                                ..g0.nodes@[i]
                            }));
                        }
                    }
                    assert forall|i: int|
                        0 <= i < self.len() implies {
                            &&& ((#[trigger] self.nodes@[i]).recomputed_at == g0.nodes@[i].recomputed_at
                                || self.nodes@[i].recomputed_at == now)
                            &&& (self.nodes@[i].changed_at == g0.nodes@[i].changed_at || self.nodes@[i].changed_at
                                == now)
                            &&& (self.nodes@[i].changed_at != g0.nodes@[i].changed_at ==> self.nodes@[i].recomputed_at
                                == now)
                        } by {
                        assert(gk.nodes@[i].recomputed_at == self.nodes@[i].recomputed_at);
                        assert(gk.nodes@[i].changed_at == self.nodes@[i].changed_at);
                    }
                    assert forall|i: int|
                        0 <= i < self.len() implies #[trigger] self.nodes@[i].height_in_recompute_heap == (if layer@.subrange(
                            k + 1,
                            n as int,
                        ).contains(i as usize) {
                            h
                        } else if rch@.contains_key(i as usize) {
                            rch@[i as usize]
                        } else {
                            -1
                        }) by {
                        let rest = layer@.subrange(k as int, n as int);
                        let rest2 = layer@.subrange(k + 1, n as int);
                        assert(rest =~= seq![x] + rest2);
                        if i == x as int {
                            assert(!rest2.contains(x)) by {
                                if rest2.contains(x) {
                                    let j = choose|j: int| 0 <= j < rest2.len() && rest2[j] == x;
                                    assert(layer@[k + 1 + j] == layer@[k as int]);
                                }
                            }
                            assert(!rch@.contains_key(x)) by {
                                assert(layer@.to_set().contains(x));
                            }
                        } else {
                            assert(self.nodes.len() == self.nodes@.len());
                            assert(i as usize != x);
                            assert(self.nodes@[i] == gk.nodes@[i]);
                            let y = i as usize;
                            if rest.contains(y) {
                                let j = choose|j: int| 0 <= j < rest.len() && rest[j] == y;
                                assert(j != 0);
                                assert(rest2[j - 1] == y);
                            }
                            if rest2.contains(y) {
                                let j = choose|j: int| 0 <= j < rest2.len() && rest2[j] == y;
                                assert(rest[j + 1] == y);
                            }
                            assert(rest.contains(i as usize) == rest2.contains(i as usize));
                        }
                    }
                }
                k = k + 1;
            }
            proof {
                assert forall|i: int| 0 <= i < self.len() implies #[trigger] self.nodes@[i].height_in_recompute_heap == (if rch@.contains_key(
                    i as usize,
                ) {
                    rch@[i as usize]
                } else {
                    -1
                }) by {
                    assert(layer@.subrange(n as int, n as int).len() == 0);
                }
                assert forall|x: usize| #[trigger] rch@.contains_key(x) implies x < self.len() by {
                    assert(rb.contains_key(x));
                }
            }
            let mut k: usize = 0;
            proof {
                lemma_same_shape(&g0, self);
                lemma_same_shape(&g0, &gs);
                assert forall|ii: int| 0 <= ii < self.len() implies #[trigger] self.parents(ii) == gs.parents(ii)
                    && self.nodes@[ii].changed_at == gs.nodes@[ii].changed_at && self.nodes@[ii].recomputed_at
                    == gs.nodes@[ii].recomputed_at by {
                    assert(self.parents(ii) == g0.parents(ii));
                    assert(gs.parents(ii) == g0.parents(ii));
                }
                lemma_delivered_same(&gs, self, &g0, rch, now, layer@.to_set());
                assert(layer@.subrange(0, n as int) =~= layer@);
            }
            while k < n
                invariant
                    g0.ids_ok(),
                    g0.heights_ok(),
                    g0.heights_within(max),
                    self.same_shape(&g0),
                    self.stamped_since(&g0, now),
                    n == layer@.len(),
                    k <= n,
                    forall|m: usize| #[trigger] layer@.contains(m) <==> (rb.contains_key(m) && rb[m] == h),
                    forall|x: usize| #[trigger] rb.contains_key(x) ==> x < self.len(),
                    0 <= h <= max,
                    rch.wf(),
                    rch.max_allowed() == max,
                    self.rch_consistent(rch),
                    self.queued_at_height(rch),
                    forall|m: usize| #[trigger] rch@.contains_key(m) ==> h < rch@[m],
                    forall|j: int| 0 <= j < k ==> self.nodes@[#[trigger] layer@[j] as int].recomputed_at == now,
                    forall|m: usize|
                        #[trigger] rb.contains_key(m) && !layer@.contains(m) ==> rch@.contains_key(m)
                            || self.nodes@[m as int].recomputed_at == now,
                    forall|m: usize| #[trigger] rb.contains_key(m) ==> rb[m] == g0.height(m as int),
                    forall|m: usize|
                        #[trigger] rch0.contains_key(m) ==> rb.contains_key(m) || gs.nodes@[m as int].recomputed_at == now,
                    forall|x: usize| #[trigger] rch0.contains_key(x) ==> x < g0.len(),
                    self.len() == gs.len(),
                    forall|i: int|
                        0 <= i < self.len() && gs.nodes@[i].recomputed_at == now ==> #[trigger] self.nodes@[i].recomputed_at
                            == now,
                    forall|x: usize| #[trigger] compute.requires((x,)),
                    g0.parents_valid(),
                    forall|i: int|
                        0 <= i < g0.len() && (#[trigger] self.nodes@[i]).changed_at != g0.nodes@[i].changed_at
                            ==> compute.ensures((i as usize,), true),
                    *stats == (Stats { recomputed: stats.recomputed, changed: stats.changed, ..*old(stats) }),
                    old(stats).recomputed <= stats.recomputed,
                    old(stats).changed <= stats.changed,
                    forall|m: usize| #[trigger] rb.contains_key(m) ==> g0.nodes@[m as int].is_valid,
                    forall|m: usize| #[trigger] rch@.contains_key(m) ==> g0.nodes@[m as int].is_valid,
                    forall|m: usize| #[trigger] rb.contains_key(m) && !layer@.contains(m) ==> rch@.contains_key(m),
                    forall|m: usize|
                        #[trigger] rch0.contains_key(m) && !rb.contains_key(m) && answers_true(compute, m)
                            ==> self.nodes@[m as int].changed_at == now,
                    forall|j: int|
                        0 <= j < k && answers_true(compute, #[trigger] layer@[j]) ==> self.nodes@[layer@[j] as int].changed_at
                            == now,
                    self.changes_delivered(&g0, rch, now, layer@.subrange(k as int, n as int).to_set()),
                    forall|n: usize| #[trigger] old(handle_after)@.contains(n) ==> handle_after@.contains(n),
                    forall|n: usize|
                        #[trigger] handle_after@.contains(n) ==> old(handle_after)@.contains(n) || ((n as int) < g0.len()
                            && self.nodes@[n as int].changed_at == now && g0.nodes@[n as int].num_on_update_handlers > 0),
                    forall|i: int|
                        0 <= i < g0.len() && (#[trigger] self.nodes@[i]).changed_at != g0.nodes@[i].changed_at
                            && g0.nodes@[i].num_on_update_handlers > 0 ==> handle_after@.contains(i as usize),
                decreases n - k,
            {
                let x = layer[k];
                let ghost gk = *self;
                let ghost rk = rch@;
                proof {
                    assert(layer@.contains(x));
                    assert(rb.contains_key(x) && rb[x] == h);
                    lemma_same_shape(&g0, self);
                    assert(g0.height(x as int) == h);
                }
                proof {
                    assert(g0.nodes@[x as int].is_valid);
                }
                let ghost hk = handle_after@;
                let ghost rkh = *rch;
                self.recompute(rch, stats, handle_after, x, now, compute);
                proof {
                    lemma_same_shape(&gk, self);
                    let pk = layer@.subrange(k as int, n as int).to_set();
                    let pnew = layer@.subrange(k + 1, n as int).to_set();
                    assert forall|y: usize| #[trigger] pk.contains(y) implies pnew.contains(y) || self.nodes@[y as int].recomputed_at
                        == now by {
                        let q = choose|q: int| 0 <= q < n - k && layer@.subrange(k as int, n as int)[q] == y;
                        if q == 0 {
                            assert(y == x);
                        } else {
                            assert(layer@.subrange(k + 1, n as int)[q - 1] == y);
                            assert(layer@.subrange(k + 1, n as int).contains(y));
                        }
                    }
                    assert forall|y: usize| #[trigger] rkh@.contains_key(y) implies rch@.contains_key(y) by {}
                    lemma_delivered_chain(&g0, &gk, self, &rkh, rch, now, pk, pnew);
                    assert forall|nn: usize| #[trigger] old(handle_after)@.contains(nn) implies handle_after@.contains(nn) by {
                        assert(hk.contains(nn));
                    }
                    assert forall|nn: usize|
                        #[trigger] handle_after@.contains(nn) implies old(handle_after)@.contains(nn) || ((nn as int)
                            < g0.len() && self.nodes@[nn as int].changed_at == now && g0.nodes@[nn as int].num_on_update_handlers
                            > 0) by {
                        if hk.contains(nn) {
                            if !old(handle_after)@.contains(nn) {
                                assert(gk.nodes@[nn as int].changed_at == now);
                            }
                        } else {
                            assert(gk.nodes@[nn as int].num_on_update_handlers == g0.nodes@[nn as int].num_on_update_handlers);
                        }
                    }
                    assert forall|i: int|
                        0 <= i < g0.len() && (#[trigger] self.nodes@[i]).changed_at != g0.nodes@[i].changed_at
                            && g0.nodes@[i].num_on_update_handlers > 0 implies handle_after@.contains(i as usize) by {
                        assert(gk.nodes@[i].num_on_update_handlers == g0.nodes@[i].num_on_update_handlers);
                        if gk.nodes@[i].changed_at != g0.nodes@[i].changed_at {
                            assert(hk.contains(i as usize));
                        }
                    }
                    assert forall|i: int|
                        0 <= i < g0.len() && (#[trigger] self.nodes@[i]).changed_at != g0.nodes@[i].changed_at
                            implies compute.ensures((i as usize,), true) by {
                        if gk.nodes@[i].changed_at != g0.nodes@[i].changed_at {
                            assert(gk.nodes@[i].changed_at == now);
                        }
                    }
                    assert forall|m: usize| #[trigger] rch@.contains_key(m) implies g0.nodes@[m as int].is_valid by {
                        if !rk.contains_key(m) {
                            assert(gk.nodes@[m as int].is_valid);
                        }
                    }
                    assert forall|m: usize| #[trigger] rb.contains_key(m) && !layer@.contains(m) implies rch@.contains_key(m) by {
                        assert(rk.contains_key(m));
                    }
                    assert forall|m: usize|
                        #[trigger] rch0.contains_key(m) && !rb.contains_key(m) && answers_true(compute, m)
                            implies self.nodes@[m as int].changed_at == now by {
                        assert(gk.nodes@[m as int].changed_at == now);
                    }
                    assert forall|j: int|
                        0 <= j < k + 1 && answers_true(compute, #[trigger] layer@[j]) implies self.nodes@[layer@[j] as int].changed_at
                            == now by {
                        let y = layer@[j];
                        assert(layer@.contains(y));
                        assert(rb.contains_key(y));
                        if j < k {
                            assert(gk.nodes@[y as int].changed_at == now);
                        } else {
                            assert(y == x);
                        }
                    }
                    lemma_same_shape_trans(&g0, &gk, self);
                    lemma_same_shape(&gk, self);
                    assert forall|i: int| 0 <= i < self.len() implies {
                        &&& ((#[trigger] self.nodes@[i]).recomputed_at == g0.nodes@[i].recomputed_at
                            || self.nodes@[i].recomputed_at == now)
                        &&& (self.nodes@[i].changed_at == g0.nodes@[i].changed_at || self.nodes@[i].changed_at == now)
                        &&& (self.nodes@[i].changed_at != g0.nodes@[i].changed_at ==> self.nodes@[i].recomputed_at
                            == now)
                    } by {
                        assert(gk.nodes@[i].recomputed_at == g0.nodes@[i].recomputed_at || gk.nodes@[i].recomputed_at
                            == now);
                    }
                    assert forall|j: int| 0 <= j < k + 1 implies self.nodes@[#[trigger] layer@[j] as int].recomputed_at
                        == now by {
                        if j < k {
                            let y = layer@[j];
                            assert(layer@.contains(y));
                            assert(gk.nodes@[y as int].recomputed_at == now);
                        }
                    }
                    assert forall|m: usize| #[trigger] rch@.contains_key(m) implies h < rch@[m] by {
                        if !rk.contains_key(m) {
                            assert(gk.height(m as int) > gk.height(x as int));
                        }
                    }
                    assert forall|m: usize|
                        #[trigger] rb.contains_key(m) && !layer@.contains(m) implies rch@.contains_key(m)
                            || self.nodes@[m as int].recomputed_at == now by {
                        if rk.contains_key(m) {
                        } else {
                            assert(gk.nodes@[m as int].recomputed_at == now);
                        }
                    }
                    assert forall|i: int|
                        0 <= i < self.len() && gs.nodes@[i].recomputed_at == now implies #[trigger] self.nodes@[i].recomputed_at
                            == now by {
                        assert(gk.nodes@[i].recomputed_at == now);
                    }
                }
                k = k + 1;
            }
            proof {
                last = h;
                assert(layer@.subrange(k as int, n as int).to_set() =~= Set::<usize>::empty()) by {
                    assert(layer@.subrange(k as int, n as int).len() == 0);
                }
                assert forall|m: usize|
                    #[trigger] rch0.contains_key(m) && !rch@.contains_key(m) && answers_true(compute, m)
                        implies self.nodes@[m as int].changed_at == now by {
                    if rb.contains_key(m) {
                        assert(layer@.contains(m));
                        let j = choose|j: int| 0 <= j < layer@.len() && layer@[j] == m;
                        assert(answers_true(compute, layer@[j]));
                    }
                }
                assert forall|m: usize|
                    #[trigger] rch0.contains_key(m) implies rch@.contains_key(m) || self.nodes@[m as int].recomputed_at
                        == now by {
                    if rb.contains_key(m) {
                        if layer@.contains(m) {
                            let j = choose|j: int| 0 <= j < layer@.len() && layer@[j] == m;
                            assert(0 <= j < k);
                            assert(self.nodes@[layer@[j] as int].recomputed_at == now);
                        } else {
                            assert(rch@.contains_key(m) || self.nodes@[m as int].recomputed_at == now);
                        }
                    } else {
                        assert(gs.nodes@[m as int].recomputed_at == now);
                        assert((m as int) < self.len());
                    }
                }
            }
        }
        proof {
            if g0.inputs_seen(&rch0h) && g0.stamps_at_most(now) {
                lemma_inputs_seen(&g0, self, &rch0h, rch, now);
            }
        }
    }
}

} // verus!
