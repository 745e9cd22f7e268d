use vstd::prelude::*;

use crate::adjust_heights_heap::AdjustHeightsHeap;
use crate::graph::{lemma_indices_below, lemma_reach_self, lemma_reach_step, Graph, Kind};
use crate::recompute_heap::RecomputeHeap;

verus! {

/// Why raising heights after adding an edge gave up.
#[derive(Copy, Clone, PartialEq, Eq, Debug)]
pub enum AdjustHeightsError {
    /// The new edge closes a cycle: its child is reachable from its parent.
    Cycle,
    /// Some node would need a height above the allowed maximum.
    HeightTooLarge,
}

/// Sum over the first `n` nodes of how far each lies below `top`; raising any height
/// makes it smaller.
pub open spec fn slack(g: &Graph, top: int, n: int) -> int
    decreases n,
{
    if n <= 0 {
        0
    } else {
        slack(g, top, n - 1) + (top - g.height(n - 1))
    }
}

/// Some node that the raise reaches (or the new edge's own child, below
/// `original_parent`) already stands at `max` in `g` while a node is kept above it in
/// `g0`: that node would need a height above `max`.
pub open spec fn height_overflows(g0: &Graph, g: &Graph, original_parent: int, max: int) -> bool {
    exists|c: int, p: int|
        0 <= c < g0.len() && 0 <= p < g0.len() && #[trigger] g0.is_edge(c, p) && (g0.reachable(original_parent, c)
            || p == original_parent) && g.height(c) >= max
}

proof fn lemma_slack_nonneg(g: &Graph, top: int, n: int)
    requires
        n <= g.len(),
        forall|i: int| 0 <= i < g.len() ==> #[trigger] g.height(i) <= top,
    ensures
        slack(g, top, n) >= 0,
    decreases n,
{
    if n > 0 {
        lemma_slack_nonneg(g, top, n - 1);
    }
}

proof fn lemma_slack_eq(g1: &Graph, g2: &Graph, top: int, n: int)
    requires
        n <= g1.len(),
        g1.len() == g2.len(),
        forall|i: int| 0 <= i < g1.len() ==> #[trigger] g2.height(i) == g1.height(i),
    ensures
        slack(g2, top, n) == slack(g1, top, n),
    decreases n,
{
    if n > 0 {
        lemma_slack_eq(g1, g2, top, n - 1);
        assert(g2.height(n - 1) == g1.height(n - 1));
    }
}

proof fn lemma_slack_raise(g1: &Graph, g2: &Graph, top: int, n: int, p: int)
    requires
        n <= g1.len(),
        g1.len() == g2.len(),
        0 <= p < g1.len(),
        forall|i: int| 0 <= i < g1.len() && i != p ==> #[trigger] g2.height(i) == g1.height(i),
        g2.height(p) > g1.height(p),
    ensures
        p < n ==> slack(g2, top, n) < slack(g1, top, n),
        p >= n ==> slack(g2, top, n) == slack(g1, top, n),
    decreases n,
{
    if n > 0 {
        lemma_slack_raise(g1, g2, top, n - 1, p);
        if n - 1 != p {
            assert(g2.height(n - 1) == g1.height(n - 1));
        }
    }
}

/// Graphs with the same structure have the same edges.
proof fn lemma_same_edges(g1: &Graph, g2: &Graph)
    requires
        g1.same_structure(g2),
    ensures
        forall|c: int, p: int|
            0 <= c < g1.len() && 0 <= p < g1.len() ==> (#[trigger] g1.is_edge(c, p) == g2.is_edge(c, p)),
{
    assert forall|c: int, p: int| 0 <= c < g1.len() && 0 <= p < g1.len() implies (#[trigger] g1.is_edge(c, p)
        == g2.is_edge(c, p)) by {
        assert(g1.nodes@[c].parents@ == g2.nodes@[c].parents@);
        assert(g1.nodes@[p].parents@ == g2.nodes@[p].parents@);
    }
}

impl Graph {
    /// The nodes other than `node` are unchanged, and `node` differs at most in its
    /// height and previous height.
    pub open spec fn only_height_at(&self, other: &Graph, node: int) -> bool {
        &&& self.same_structure(other)
        &&& forall|i: int| 0 <= i < self.len() && i != node ==> #[trigger] self.nodes@[i] == other.nodes@[i]
        &&& self.nodes@[node].height_in_recompute_heap == other.nodes@[node].height_in_recompute_heap
        &&& self.nodes@[node].height_in_adjust_heights_heap
            == other.nodes@[node].height_in_adjust_heights_heap
    }
}

impl AdjustHeightsHeap {
    /// The heap holds nodes of `g`, and each node records the height it is queued at.
    pub open spec fn tracks(&self, g: &Graph) -> bool {
        &&& forall|n: usize| #[trigger] self@.contains_key(n) ==> n < g.len()
        &&& forall|i: int|
            0 <= i < g.len() ==> #[trigger] g.nodes@[i].height_in_adjust_heights_heap == (if self@.contains_key(
                i as usize,
            ) {
                self@[i as usize]
            } else {
                -1
            })
    }

    /// The bookkeeping that holds throughout a height adjustment started from the
    /// graph `g0` by an edge into `op`: heights only went up and stay allowed, queued
    /// nodes were raised since they were queued, the recompute heap follows the heights
    /// (a queued node at its queued height), and every node raised so far, queued or not,
    /// is reachable from `op`.
    pub open spec fn adjusting(&self, g0: &Graph, g: &Graph, rch: &RecomputeHeap, op: int) -> bool {
        &&& g0.ids_ok()
        &&& g.same_structure(g0)
        &&& self.wf()
        &&& self.tracks(g)
        &&& rch.wf()
        &&& g.rch_consistent(rch)
        &&& rch.max_allowed() >= self.max_allowed()
        &&& forall|i: int| 0 <= i < g.len() ==> g0.height(i) <= #[trigger] g.height(i) <= self.max_allowed()
        &&& forall|i: int| 0 <= i < g.len() ==> -1 <= #[trigger] g0.height(i)
        &&& forall|n: usize| #[trigger]
            self@.contains_key(n) ==> self@[n] < g.height(n as int) && g0.reachable(op, n as int)
        &&& forall|n: usize| #[trigger]
            rch@.contains_key(n) ==> rch@[n] == (if self@.contains_key(n) {
                self@[n]
            } else {
                g.height(n as int)
            })
        &&& forall|i: int| 0 <= i < g.len() && #[trigger] g.height(i) != g0.height(i) ==> g0.reachable(op, i)
    }

    /// Every edge out of a node other than `cur` is satisfied: by the node's height when
    /// the node is not queued, and by the height it was queued at when it is.
    pub open spec fn edges_settled(&self, g0: &Graph, g: &Graph, cur: int) -> bool {
        forall|c: int, p: int|
            0 <= c < g.len() && 0 <= p < g.len() && #[trigger] g0.is_edge(c, p) && c != cur ==> (if self@.contains_key(
                c as usize,
            ) {
                self@[c as usize] < g.height(p)
            } else {
                g.height(c) < g.height(p)
            })
    }

    /// While the edges out of `child` are being fixed: `child` was taken off the queue at
    /// the lower bound `lb`, every other edge is settled, and every node that `child` is
    /// kept below is still above `lb`.
    pub open spec fn processing(
        &self,
        g0: &Graph,
        g: &Graph,
        rch: &RecomputeHeap,
        original_child: int,
        original_parent: int,
        child: int,
        lb: int,
    ) -> bool {
        &&& self.adjusting(g0, g, rch, original_parent)
        &&& self.edges_settled(g0, g, child)
        &&& 0 <= child < g.len()
        &&& 0 <= original_child < g.len()
        &&& !self@.contains_key(child as usize)
        &&& g0.reachable(original_parent, child)
        &&& self.lower_bound() == lb
        &&& forall|p: int| 0 <= p < g.len() && #[trigger] g0.is_edge(child, p) ==> lb < g.height(p)
        &&& forall|c: int| 0 <= c < g.len() && #[trigger] g0.is_edge(c, c) ==> c == original_child
    }

    /// The common part of what fixing the edges out of `child` guarantees.
    pub open spec fn processed_step(
        &self,
        old_self: &AdjustHeightsHeap,
        g0: &Graph,
        g: &Graph,
        old_g: &Graph,
        rch: &RecomputeHeap,
        original_child: int,
        original_parent: int,
        child: int,
        lb: int,
    ) -> bool {
        &&& self.processing(g0, g, rch, original_child, original_parent, child, lb)
        &&& g.height(child) == old_g.height(child)
        &&& self.max_allowed() == old_self.max_allowed()
        &&& forall|i: int| 0 <= i < g.len() ==> old_g.height(i) <= #[trigger] g.height(i)
        &&& slack(g, self.max_allowed() + 1, g.len()) <= slack(old_g, self.max_allowed() + 1, g.len())
        &&& (slack(g, self.max_allowed() + 1, g.len()) == slack(old_g, self.max_allowed() + 1, g.len())
            ==> self@ == old_self@)
    }

    /// Give `node` height `height`, remembering its previous height. A height above the
    /// allowed maximum is refused with `false`, and nothing changes.
    pub fn set_height(&mut self, g: &mut Graph, node: usize, height: i32) -> (ok: bool)
        requires
            old(self).wf(),
            node < old(g).len(),
        ensures
            final(self).wf(),
            final(self)@ == old(self)@,
            final(self).max_allowed() == old(self).max_allowed(),
            final(self).lower_bound() == old(self).lower_bound(),
            ok == (height <= old(self).max_allowed()),
            !ok ==> *final(g) == *old(g),
            ok ==> final(g).only_height_at(old(g), node as int),
            ok ==> final(g).nodes@[node as int].height == height,
            ok ==> final(g).nodes@[node as int].old_height == old(g).nodes@[node as int].height,
    {
        if !self.note_height(height) {
            return false;
        }
        let old_height = g.nodes[node].height;
        g.nodes[node].height = height;
        g.nodes[node].old_height = old_height;
        true
    }

    /// Queue `node` at its current height, unless it is queued already.
    pub fn add_unless_mem(&mut self, g: &mut Graph, node: usize)
        requires
            old(self).wf(),
            old(self).tracks(old(g)),
            node < old(g).len(),
            !old(self)@.contains_key(node) ==> old(self).lower_bound() <= old(g).height(node as int)
                <= old(self).max_allowed(),
        ensures
            final(self).wf(),
            final(self).tracks(final(g)),
            final(self)@ == (if old(self)@.contains_key(node) {
                old(self)@
            } else {
                old(self)@.insert(node, old(g).height(node as int))
            }),
            final(self).max_allowed() == old(self).max_allowed(),
            final(self).max_seen() == old(self).max_seen(),
            final(self).lower_bound() == old(self).lower_bound(),
            final(g).same_structure(old(g)),
            forall|i: int| 0 <= i < final(g).len() && i != node ==> #[trigger] final(g).nodes@[i] == old(g).nodes@[i],
            final(g).nodes@[node as int].height == old(g).nodes@[node as int].height,
            final(g).nodes@[node as int].old_height == old(g).nodes@[node as int].old_height,
            final(g).nodes@[node as int].height_in_recompute_heap
                == old(g).nodes@[node as int].height_in_recompute_heap,
    {
        if g.nodes[node].height_in_adjust_heights_heap == -1 {
            let height = g.nodes[node].height;
            proof {
                self.lemma_wf();
                assert(!self@.contains_key(node)) by {
                    if self@.contains_key(node) {
                        assert(g.nodes@[node as int].height_in_adjust_heights_heap == self@[node]);
                    }
                }
                assert forall|k: usize| #[trigger] self@.dom().contains(k) implies k < g.nodes.len() by {
                    assert(self@.contains_key(k));
                }
                lemma_indices_below(self@.dom(), g.nodes.len(), node);
            }
            let ghost g1 = *g;
            self.push(node, height);
            g.nodes[node].height_in_adjust_heights_heap = height;
            proof {
                assert forall|i: int| 0 <= i < g.len() implies #[trigger] g.nodes@[i].height_in_adjust_heights_heap == (if self@.contains_key(
                    i as usize,
                ) {
                    self@[i as usize]
                } else {
                    -1
                }) by {
                    if i != node as int {
                        assert(g.nodes@[i] == g1.nodes@[i]);
                        assert(g1.nodes@[i].height_in_adjust_heights_heap == (if old(self)@.contains_key(i as usize) {
                            old(self)@[i as usize]
                        } else {
                            -1
                        }));
                    }
                }
                assert forall|n: usize| #[trigger] self@.contains_key(n) implies n < g.len() by {
                    if n != node {
                        assert(old(self)@.contains_key(n));
                    }
                }
            }
        } else {
            assert(self@.contains_key(node));
        }
    }

    /// Make sure `parent` sits above `child`, queueing and raising it when it does not.
    /// Refused when `parent` is the child of the edge being added (a cycle), or when
    /// the raised height would be too large.
    fn ensure_height_requirement(
        &mut self,
        g: &mut Graph,
        rch: &RecomputeHeap,
        Ghost(g0): Ghost<Graph>,
        original_child: usize,
        original_parent: usize,
        child: usize,
        parent: usize,
    ) -> (r: Result<(), AdjustHeightsError>)
        requires
            old(self).adjusting(&g0, old(g), rch, original_parent as int),
            old(self).edges_settled(&g0, old(g), child as int),
            child < old(g).len(),
            parent < old(g).len(),
            original_child < old(g).len(),
            g0.is_edge(child as int, parent as int),
            !old(self)@.contains_key(child),
            parent == child ==> parent == original_child,
            parent != original_child ==> old(self).lower_bound() <= old(g).height(parent as int),
            g0.reachable(original_parent as int, child as int) || parent == original_parent,
        ensures
            final(g).same_structure(old(g)),
            final(self).max_allowed() == old(self).max_allowed(),
            final(self).wf(),
            final(self).lower_bound() == old(self).lower_bound(),
            r is Ok ==> {
                &&& final(self).adjusting(&g0, final(g), rch, original_parent as int)
                &&& final(self).edges_settled(&g0, final(g), child as int)
                &&& final(g).height(child as int) == old(g).height(child as int)
                &&& final(g).height(child as int) < final(g).height(parent as int)
                &&& !final(self)@.contains_key(child)
                &&& forall|n: usize| #[trigger] old(self)@.contains_key(n) ==> final(self)@.contains_key(n)
                    && final(self)@[n] == old(self)@[n]
                &&& forall|i: int| 0 <= i < final(g).len() ==> old(g).height(i) <= #[trigger] final(g).height(i)
                &&& (final(g).height(parent as int) == old(g).height(parent as int) ==> {
                    &&& final(g).nodes@ == old(g).nodes@
                    &&& final(self)@ == old(self)@
                })
                &&& (final(g).height(parent as int) != old(g).height(parent as int) ==> {
                    &&& forall|i: int| 0 <= i < final(g).len() && i != parent ==> #[trigger] final(g).height(i) == old(g).height(i)
                    &&& final(self)@.len() <= old(self)@.len() + 1
                })
            },
            r == Err::<(), AdjustHeightsError>(AdjustHeightsError::Cycle) ==> parent == original_child,
            r == Err::<(), AdjustHeightsError>(AdjustHeightsError::HeightTooLarge) ==> height_overflows(
                &g0,
                final(g),
                original_parent as int,
                final(self).max_allowed() as int,
            ),
    {
        if parent == original_child {
            return Err(AdjustHeightsError::Cycle);
        }
        if g.nodes[child].height >= g.nodes[parent].height {
            let ghost g1 = *g;
            let ghost q1 = self@;
            proof {
                self.lemma_wf();
                if g0.reachable(original_parent as int, child as int) {
                    lemma_reach_step(&g0, original_parent as int, child as int, parent as int);
                } else {
                    lemma_reach_self(&g0, parent as int);
                }
                assert(g.height(parent as int) <= self.max_allowed());
            }
            assert(g.height(child as int) <= self.max_allowed());
            self.add_unless_mem(g, parent);
            let h = g.nodes[child].height + 1;
            let ghost g2 = *g;
            if !self.set_height(g, parent, h) {
                proof {
                    assert(g.height(child as int) >= self.max_allowed());
                    assert(g0.is_edge(child as int, parent as int));
                }
                return Err(AdjustHeightsError::HeightTooLarge);
            }
            proof {
                assert(g.nodes.len() == g.nodes@.len());
                let p = parent as int;
                assert(forall|i: int| 0 <= i < g.len() && i != p ==> #[trigger] g.nodes@[i] == g1.nodes@[i]);
                assert(forall|i: int| 0 <= i < g.len() && i != p ==> #[trigger] g.height(i) == g1.height(i));
                assert(g.nodes@[p].height_in_recompute_heap == g1.nodes@[p].height_in_recompute_heap);
                assert(self@.len() <= q1.len() + 1);
                assert forall|i: int| 0 <= i < g.len() implies #[trigger] g.nodes@[i].height_in_adjust_heights_heap == (if self@.contains_key(
                    i as usize,
                ) {
                    self@[i as usize]
                } else {
                    -1
                }) by {
                    assert(g2.nodes@[i].height_in_adjust_heights_heap == g.nodes@[i].height_in_adjust_heights_heap);
                }
                assert forall|i: int| 0 <= i < g.len() implies #[trigger] g.nodes@[i].height_in_recompute_heap == (if rch@.contains_key(
                    i as usize,
                ) {
                    rch@[i as usize]
                } else {
                    -1
                }) by {
                    assert(g1.nodes@[i].height_in_recompute_heap == g.nodes@[i].height_in_recompute_heap);
                }
                assert forall|n: usize| #[trigger] self@.contains_key(n) implies self@[n] < g.height(n as int)
                    && g0.reachable(original_parent as int, n as int) by {
                    if n != parent {
                        assert(q1.contains_key(n));
                    }
                }
                assert forall|n: usize| #[trigger] rch@.contains_key(n) implies rch@[n] == (if self@.contains_key(n) {
                    self@[n]
                } else {
                    g.height(n as int)
                }) by {
                    if n == parent {
                        assert(self@.contains_key(n));
                        assert(g1.nodes@[p].height_in_recompute_heap == rch@[n]);
                    }
                }
                assert forall|c: int, pp: int|
                    0 <= c < g.len() && 0 <= pp < g.len() && #[trigger] g0.is_edge(c, pp) && c != child
                        implies (if self@.contains_key(c as usize) {
                    self@[c as usize] < g.height(pp)
                } else {
                    g.height(c) < g.height(pp)
                }) by {
                    assert(g1.height(pp) <= g.height(pp));
                    assert(c != child as int);
                    assert(old(self).edges_settled(&g0, &g1, child as int));
                    assert(g0.is_edge(c, pp));
                    if c == p {
                        assert(self@.contains_key(c as usize));
                        if !q1.contains_key(c as usize) {
                            assert(self@[c as usize] == g1.height(c));
                            assert(g1.height(c) < g1.height(pp));
                        } else {
                            assert(q1[c as usize] < g1.height(pp));
                        }
                    } else {
                        assert(g.height(c) == g1.height(c));
                        assert(self@.contains_key(c as usize) == q1.contains_key(c as usize));
                    }
                }
                assert forall|i: int| 0 <= i < g.len() && #[trigger] g.height(i) != g0.height(i) implies g0.reachable(
                    original_parent as int,
                    i,
                ) by {
                    if i != p {
                        assert(g.height(i) == g1.height(i));
                    }
                }
                assert(g.same_structure(&g0));
            }
        }
        Ok(())
    }

    /// Make sure every parent of `child` sits above it.
    fn ensure_parent_height_requirements(
        &mut self,
        g: &mut Graph,
        rch: &RecomputeHeap,
        Ghost(g0): Ghost<Graph>,
        Ghost(lb): Ghost<int>,
        original_child: usize,
        original_parent: usize,
        child: usize,
    ) -> (r: Result<(), AdjustHeightsError>)
        requires
            old(self).processing(&g0, old(g), rch, original_child as int, original_parent as int, child as int, lb),
        ensures
            final(g).same_structure(old(g)),
            final(self).max_allowed() == old(self).max_allowed(),
            final(self).wf(),
            r is Ok ==> final(self).processed_step(
                old(self),
                &g0,
                final(g),
                old(g),
                rch,
                original_child as int,
                original_parent as int,
                child as int,
                lb,
            ),
            r is Ok ==> forall|k: int|
                0 <= k < final(g).parents(child as int).len() ==> final(g).height(child as int) < final(g).height(
                    #[trigger] final(g).parents(child as int)[k] as int,
                ),
            r == Err::<(), AdjustHeightsError>(AdjustHeightsError::Cycle) ==> g0.reachable(
                original_parent as int,
                original_child as int,
            ),
            r == Err::<(), AdjustHeightsError>(AdjustHeightsError::HeightTooLarge) ==> height_overflows(
                &g0,
                final(g),
                original_parent as int,
                final(self).max_allowed() as int,
            ),
    {
        let n = g.nodes[child].parents.len();
        let mut k: usize = 0;
        let ghost top = self.max_allowed() + 1;
        proof {
            lemma_slack_nonneg(g, top, g.len());
        }
        while k < n
            invariant
                self.processed_step(
                    old(self),
                    &g0,
                    g,
                    old(g),
                    rch,
                    original_child as int,
                    original_parent as int,
                    child as int,
                    lb,
                ),
                g.same_structure(old(g)),
                top == self.max_allowed() + 1,
                k <= n,
                n == g.parents(child as int).len(),
                forall|j: int|
                    0 <= j < k ==> g.height(child as int) < g.height(#[trigger] g.parents(child as int)[j] as int),
            decreases n - k,
        {
            let parent = g.nodes[child].parents[k];
            let ghost gk = *g;
            let ghost qk = self@;
            proof {
                assert(g.nodes@[child as int].parents@ == g0.nodes@[child as int].parents@);
                assert(g0.parents(child as int).contains(parent));
                assert(g0.is_edge(child as int, parent as int));
                assert(g0.ids_ok());
                assert(g0.parents(child as int)[k as int] < g0.len());
                assert(lb < g.height(parent as int));
            }
            let res = self.ensure_height_requirement(g, rch, Ghost(g0), original_child, original_parent, child, parent);
            match res {
                Err(e) => {
                    proof {
                        if e == AdjustHeightsError::Cycle {
                            lemma_reach_step(&g0, original_parent as int, child as int, parent as int);
                        }
                    }
                    return Err(e);
                },
                Ok(()) => {},
            }
            proof {
                if g.height(parent as int) != gk.height(parent as int) {
                    lemma_slack_raise(&gk, g, top, g.len(), parent as int);
                } else {
                    assert forall|i: int| 0 <= i < g.len() implies #[trigger] g.height(i) == gk.height(i) by {
                        assert(g.nodes@[i] == gk.nodes@[i]);
                    }
                    lemma_slack_eq(&gk, g, top, g.len());
                }
                assert forall|p: int| 0 <= p < g.len() && #[trigger] g0.is_edge(child as int, p) implies lb < g.height(p) by {
                    assert(gk.height(p) <= g.height(p));
                }
                assert forall|j: int| 0 <= j < k + 1 implies g.height(child as int) < g.height(
                    #[trigger] g.parents(child as int)[j] as int,
                ) by {
                    if j < k {
                        assert(gk.parents(child as int)[j] == g.parents(child as int)[j]);
                        assert(gk.height(gk.parents(child as int)[j] as int) <= g.height(g.parents(child as int)[j] as int));
                    }
                }
            }
            k = k + 1;
        }
        Ok(())
    }

    /// A bind's left-hand-side change node must sit below every necessary node created
    /// on its right-hand side.
    fn adjust_heights_bind_lhs_change(
        &mut self,
        g: &mut Graph,
        rch: &RecomputeHeap,
        Ghost(g0): Ghost<Graph>,
        Ghost(lb): Ghost<int>,
        original_child: usize,
        original_parent: usize,
        child: usize,
    ) -> (r: Result<(), AdjustHeightsError>)
        requires
            old(self).processing(&g0, old(g), rch, original_child as int, original_parent as int, child as int, lb),
        ensures
            final(g).same_structure(old(g)),
            final(self).max_allowed() == old(self).max_allowed(),
            final(self).wf(),
            r is Ok ==> final(self).processed_step(
                old(self),
                &g0,
                final(g),
                old(g),
                rch,
                original_child as int,
                original_parent as int,
                child as int,
                lb,
            ),
            r is Ok ==> (final(g).nodes@[child as int].kind == Kind::BindLhsChange ==> forall|k: int|
                0 <= k < final(g).nodes@[child as int].rhs_nodes@.len() && final(g).spec_is_necessary(
                    #[trigger] final(g).nodes@[child as int].rhs_nodes@[k] as int,
                ) ==> final(g).height(child as int) < final(g).height(
                    final(g).nodes@[child as int].rhs_nodes@[k] as int,
                )),
            r == Err::<(), AdjustHeightsError>(AdjustHeightsError::Cycle) ==> g0.reachable(
                original_parent as int,
                original_child as int,
            ),
            r == Err::<(), AdjustHeightsError>(AdjustHeightsError::HeightTooLarge) ==> height_overflows(
                &g0,
                final(g),
                original_parent as int,
                final(self).max_allowed() as int,
            ),
    {
        let ghost top = self.max_allowed() + 1;
        proof {
            lemma_slack_nonneg(g, top, g.len());
        }
        match g.nodes[child].kind {
            Kind::BindLhsChange => {},
            _ => {
                return Ok(());
            },
        }
        let n = g.nodes[child].rhs_nodes.len();
        let mut k: usize = 0;
        while k < n
            invariant
                self.processed_step(
                    old(self),
                    &g0,
                    g,
                    old(g),
                    rch,
                    original_child as int,
                    original_parent as int,
                    child as int,
                    lb,
                ),
                g.same_structure(old(g)),
                g.nodes@[child as int].kind == Kind::BindLhsChange,
                top == self.max_allowed() + 1,
                k <= n,
                n == g.nodes@[child as int].rhs_nodes@.len(),
                forall|j: int|
                    0 <= j < k && g.spec_is_necessary(#[trigger] g.nodes@[child as int].rhs_nodes@[j] as int)
                        ==> g.height(child as int) < g.height(g.nodes@[child as int].rhs_nodes@[j] as int),
            decreases n - k,
        {
            let node = g.nodes[child].rhs_nodes[k];
            proof {
                assert(g0.ids_ok());
                assert(g.nodes@[child as int].rhs_nodes@ == g0.nodes@[child as int].rhs_nodes@);
                assert(g0.nodes@[child as int].rhs_nodes@[k as int] < g0.len());
            }
            if g.is_necessary(node) {
                let ghost gk = *g;
                proof {
                    lemma_same_edges(g, &g0);
                    assert(g0.nodes@[child as int].rhs_nodes@.contains(node));
                    assert(g0.is_edge(child as int, node as int));
                    assert(lb < g.height(node as int));
                }
                let res = self.ensure_height_requirement(g, rch, Ghost(g0), original_child, original_parent, child, node);
                match res {
                    Err(e) => {
                        proof {
                            if e == AdjustHeightsError::Cycle {
                                lemma_reach_step(&g0, original_parent as int, child as int, node as int);
                            }
                        }
                        return Err(e);
                    },
                    Ok(()) => {},
                }
                proof {
                    if g.height(node as int) != gk.height(node as int) {
                        lemma_slack_raise(&gk, g, top, g.len(), node as int);
                    } else {
                        assert forall|i: int| 0 <= i < g.len() implies #[trigger] g.height(i) == gk.height(i) by {
                            assert(g.nodes@[i] == gk.nodes@[i]);
                        }
                        lemma_slack_eq(&gk, g, top, g.len());
                    }
                    assert forall|p: int| 0 <= p < g.len() && #[trigger] g0.is_edge(child as int, p) implies lb < g.height(p) by {
                        assert(gk.height(p) <= g.height(p));
                    }
                    assert forall|j: int|
                        0 <= j < k + 1 && g.spec_is_necessary(#[trigger] g.nodes@[child as int].rhs_nodes@[j] as int)
                            implies g.height(child as int) < g.height(g.nodes@[child as int].rhs_nodes@[j] as int) by {
                        let x = g.nodes@[child as int].rhs_nodes@[j] as int;
                        assert(gk.nodes@[child as int].rhs_nodes@[j] == g.nodes@[child as int].rhs_nodes@[j]);
                        assert(gk.nodes@[x].parents@ == g.nodes@[x].parents@);
                        if j < k {
                            assert(gk.height(x) <= g.height(x));
                        }
                    }
                }
            } else {
                proof {
                    assert(!g.spec_is_necessary(node as int));
                }
            }
            k = k + 1;
        }
        Ok(())
    }

    /// Take the next node off the queue, record that it left, and move it in the
    /// recompute heap to its raised height.
    fn next_to_process(
        &mut self,
        g: &mut Graph,
        rch: &mut RecomputeHeap,
        Ghost(g0): Ghost<Graph>,
        original_child: usize,
        original_parent: usize,
    ) -> (r: Option<usize>)
        requires
            old(self).adjusting(&g0, old(g), old(rch), original_parent as int),
            old(self).edges_settled(&g0, old(g), -1),
            forall|c: int| 0 <= c < old(g).len() && #[trigger] g0.is_edge(c, c) ==> c == original_child,
            original_child < old(g).len(),
            original_parent < old(g).len(),
        ensures
            final(g).same_structure(old(g)),
            forall|i: int| 0 <= i < final(g).len() ==> #[trigger] final(g).height(i) == old(g).height(i),
            final(rch)@.dom() == old(rch)@.dom(),
            final(rch).max_allowed() == old(rch).max_allowed(),
            final(self).max_allowed() == old(self).max_allowed(),
            r is None ==> {
                &&& old(self)@.len() == 0
                &&& final(self)@ == old(self)@
                &&& final(self).adjusting(&g0, final(g), final(rch), original_parent as int)
                &&& final(self).edges_settled(&g0, final(g), -1)
            },
            r matches Some(child) ==> {
                &&& final(self).processing(
                    &g0,
                    final(g),
                    final(rch),
                    original_child as int,
                    original_parent as int,
                    child as int,
                    final(self).lower_bound(),
                )
                &&& final(self)@.len() + 1 == old(self)@.len()
            },
    {
        let ghost gs = *g;
        let ghost old_q = self@;
        let popped = self.remove_min();
        let child = match popped {
            None => {
                return None;
            },
            Some(child) => child,
        };
        let ghost lb = self.lower_bound();
        let ghost q1 = self@;
        proof {
            assert(g.nodes@[child as int].height_in_adjust_heights_heap == lb);
            assert(g.height(child as int) <= self.max_allowed());
        }
        let ghost rch0 = rch@;
        proof {
            self.lemma_wf();
            assert(rch0.contains_key(child) ==> gs.nodes@[child as int].height_in_recompute_heap == rch0[child]);
            assert(rch0.contains_key(child) ==> rch0[child] == lb && lb >= 0);
        }
        g.nodes[child].height_in_adjust_heights_heap = -1;
        if g.nodes[child].height_in_recompute_heap >= 0 {
            let old_h = g.nodes[child].height_in_recompute_heap;
            let new_h = g.nodes[child].height;
            proof {
                assert(rch@.contains_key(child));
                assert(rch@[child] == lb);
            }
            rch.increase_height(child, old_h, new_h);
            g.nodes[child].height_in_recompute_heap = new_h;
        }
        proof {
            assert(g.same_structure(&g0));
            assert forall|i: int| 0 <= i < g.len() implies g0.height(i) <= #[trigger] g.height(i) <= self.max_allowed() by {
                assert(g.nodes@[i].height == gs.nodes@[i].height);
                assert(gs.height(i) <= self.max_allowed());
            }
            assert(g.nodes.len() == g.nodes@.len());
            assert forall|i: int| 0 <= i < g.len() implies #[trigger] g.nodes@[i].height_in_adjust_heights_heap == (if self@.contains_key(
                i as usize,
            ) {
                self@[i as usize]
            } else {
                -1
            }) by {
                if i != child as int {
                    assert(g.nodes@[i] == gs.nodes@[i]);
                    assert(gs.nodes@[i].height_in_adjust_heights_heap == (if old_q.contains_key(i as usize) {
                        old_q[i as usize]
                    } else {
                        -1
                    }));
                }
            }
            assert forall|i: int| 0 <= i < g.len() implies #[trigger] g.nodes@[i].height_in_recompute_heap == (if rch@.contains_key(
                i as usize,
            ) {
                rch@[i as usize]
            } else {
                -1
            }) by {}
            assert forall|n: usize| #[trigger] rch@.contains_key(n) implies rch@[n] == (if self@.contains_key(n) {
                self@[n]
            } else {
                g.height(n as int)
            }) by {
                assert(rch0.contains_key(n));
                if n != child {
                    assert(rch@[n] == rch0[n]);
                    assert(g.nodes@[n as int] == gs.nodes@[n as int]);
                    assert(self@.contains_key(n) == old_q.contains_key(n));
                } else {
                    assert(g.nodes@[child as int].height_in_recompute_heap >= 0);
                }
            }
            assert forall|i: int| 0 <= i < g.len() && #[trigger] g.height(i) != g0.height(i) implies g0.reachable(
                original_parent as int,
                i,
            ) by {
                assert(g.height(i) == gs.height(i));
            }
            assert forall|n: usize| #[trigger] self@.contains_key(n) implies self@[n] < g.height(n as int)
                && g0.reachable(original_parent as int, n as int) by {
                assert(q1.contains_key(n));
            }
            assert(self.adjusting(&g0, g, rch, original_parent as int));
            assert forall|p: int| 0 <= p < g.len() && #[trigger] g0.is_edge(child as int, p) implies lb < g.height(p) by {}
            assert(self.processing(
                &g0,
                g,
                rch,
                original_child as int,
                original_parent as int,
                child as int,
                lb,
            ));
            assert forall|i: int| 0 <= i < g.len() implies #[trigger] g.height(i) == gs.height(i) by {
                assert(g.nodes@[i].height == gs.nodes@[i].height);
            }
            self.lemma_wf();
            assert(self@ == old_q.remove(child));
        }
        Some(child)
    }

    /// After the edge from `original_child` up to `original_parent` was added, raise
    /// heights until every node again sits strictly above the nodes it is kept above.
    /// Nodes are taken in increasing order of the height they were queued at; a node
    /// waiting in the recompute heap moves there to its new height.
    ///
    /// Fails with [`AdjustHeightsError::Cycle`] when the new edge closes a cycle, which
    /// shows up as `original_child` needing to be raised, and with
    /// [`AdjustHeightsError::HeightTooLarge`] when a height would pass the maximum.
    pub fn adjust_heights(
        &mut self,
        g: &mut Graph,
        rch: &mut RecomputeHeap,
        original_child: usize,
        original_parent: usize,
    ) -> (r: Result<(), AdjustHeightsError>)
        requires
            old(g).ids_ok(),
            original_child < old(g).len(),
            original_parent < old(g).len(),
            old(g).is_edge(original_child as int, original_parent as int),
            old(self).wf(),
            old(self)@.len() == 0,
            old(self).tracks(old(g)),
            old(rch).wf(),
            old(g).rch_consistent(old(rch)),
            old(rch).max_allowed() >= old(self).max_allowed(),
            forall|n: usize| #[trigger] old(rch)@.contains_key(n) ==> old(rch)@[n] == old(g).height(n as int),
            forall|i: int| 0 <= i < old(g).len() ==> -1 <= #[trigger] old(g).height(i) <= old(self).max_allowed(),
            0 <= old(g).height(original_parent as int),
            forall|c: int, p: int|
                0 <= c < old(g).len() && 0 <= p < old(g).len() && #[trigger] old(g).is_edge(c, p) && !(c
                    == original_child && p == original_parent) ==> old(g).height(c) < old(g).height(p),
        ensures
            final(g).same_structure(old(g)),
            final(self).wf(),
            final(self).max_allowed() == old(self).max_allowed(),
            final(rch).wf(),
            final(rch).max_allowed() == old(rch).max_allowed(),
            final(rch)@.dom() == old(rch)@.dom(),
            r is Ok ==> {
                &&& final(g).heights_ok()
                &&& final(self)@.len() == 0
                &&& final(self).tracks(final(g))
                &&& final(g).rch_consistent(final(rch))
                &&& forall|n: usize| #[trigger] final(rch)@.contains_key(n) ==> final(rch)@[n] == final(g).height(n as int)
                &&& forall|i: int|
                    0 <= i < final(g).len() ==> old(g).height(i) <= #[trigger] final(g).height(i)
                        <= final(self).max_allowed()
                &&& forall|i: int|
                    0 <= i < final(g).len() && #[trigger] final(g).height(i) != old(g).height(i) ==> old(g).reachable(
                        original_parent as int,
                        i,
                    )
            },
            r == Err::<(), AdjustHeightsError>(AdjustHeightsError::Cycle) ==> old(g).reachable(
                original_parent as int,
                original_child as int,
            ),
            r == Err::<(), AdjustHeightsError>(AdjustHeightsError::HeightTooLarge) ==> height_overflows(
                old(g),
                final(g),
                original_parent as int,
                final(self).max_allowed() as int,
            ),
    {
        let ghost g0 = *g;
        let ghost rch_dom = rch@.dom();
        let ghost top = self.max_allowed() + 1;
        proof {
            assert forall|c: int| 0 <= c < g.len() && #[trigger] g0.is_edge(c, c) implies c == original_child by {
                if c != original_child {
                    assert(g0.height(c) < g0.height(c));
                }
            }
        }
        let h = g.nodes[original_parent].height;
        self.set_lower_bound(h);
        proof {
            self.lemma_wf();
            lemma_reach_self(&g0, original_parent as int);
            assert(g.same_structure(&g0));
            assert forall|c: int, p: int|
                0 <= c < g.len() && 0 <= p < g.len() && #[trigger] g0.is_edge(c, p) && c != original_child
                    implies (if self@.contains_key(c as usize) {
                self@[c as usize] < g.height(p)
            } else {
                g.height(c) < g.height(p)
            }) by {}
        }
        let first = self.ensure_height_requirement(
            g,
            rch,
            Ghost(g0),
            original_child,
            original_parent,
            original_child,
            original_parent,
        );
        match first {
            Err(e) => {
                proof {
                    if e == AdjustHeightsError::Cycle {
                        lemma_reach_self(&g0, original_parent as int);
                    }
                    assert(rch@.dom() == rch_dom);
                }
                return Err(e);
            },
            Ok(()) => {},
        }
        proof {
            assert forall|c: int, p: int|
                0 <= c < g.len() && 0 <= p < g.len() && #[trigger] g0.is_edge(c, p) && c != -1 implies (if self@.contains_key(
                c as usize,
            ) {
                self@[c as usize] < g.height(p)
            } else {
                g.height(c) < g.height(p)
            }) by {
                if c == original_child as int {
                    if p != original_parent as int {
                        assert(g0.height(c) < g0.height(p));
                    }
                }
            }
            lemma_slack_nonneg(g, top, g.len());
        }
        loop
            invariant
                self.adjusting(&g0, g, rch, original_parent as int),
                self.edges_settled(&g0, g, -1),
                forall|c: int| 0 <= c < g.len() && #[trigger] g0.is_edge(c, c) ==> c == original_child,
                original_child < g.len(),
                original_parent < g.len(),
                rch@.dom() == rch_dom,
                rch_dom == old(rch)@.dom(),
                top == self.max_allowed() + 1,
                self.max_allowed() == old(self).max_allowed(),
                rch.max_allowed() == old(rch).max_allowed(),
                g0 == *old(g),
                slack(g, top, g.len()) >= 0,
            decreases slack(g, top, g.len()), self@.len(),
        {
            let ghost gs = *g;
            let ghost old_q = self@;
            let popped = self.next_to_process(g, rch, Ghost(g0), original_child, original_parent);
            let child = match popped {
                None => {
                    proof {
                        self.lemma_wf();
                        lemma_same_edges(g, &g0);
                        assert forall|c: int, p: int|
                            0 <= c < g.len() && 0 <= p < g.len() && #[trigger] g.is_edge(c, p) implies g.height(c)
                                < g.height(p) by {
                            assert(g0.is_edge(c, p));
                        }
                    }
                    return Ok(());
                },
                Some(child) => child,
            };
            let ghost lb = self.lower_bound();
            proof {
                lemma_slack_eq(&gs, g, top, g.len());
            }
            let ghost gp = *g;
            let ghost qp = self@;
            let r1 = self.ensure_parent_height_requirements(
                g,
                rch,
                Ghost(g0),
                Ghost(lb),
                original_child,
                original_parent,
                child,
            );
            match r1 {
                Err(e) => {
                    return Err(e);
                },
                Ok(()) => {},
            }
            let ghost g2 = *g;
            let ghost q2 = self@;
            let r2 = self.adjust_heights_bind_lhs_change(
                g,
                rch,
                Ghost(g0),
                Ghost(lb),
                original_child,
                original_parent,
                child,
            );
            match r2 {
                Err(e) => {
                    return Err(e);
                },
                Ok(()) => {},
            }
            proof {
                let c0 = child as int;
                assert(g.nodes.len() == g.nodes@.len());
                assert(g.nodes@[c0].parents@ == g0.nodes@[c0].parents@);
                assert(g.nodes@[c0].rhs_nodes@ == g0.nodes@[c0].rhs_nodes@);
                assert(g.nodes@[c0].kind == g0.nodes@[c0].kind);
                lemma_same_edges(g, &g0);
                assert forall|c: int, p: int|
                    0 <= c < g.len() && 0 <= p < g.len() && #[trigger] g0.is_edge(c, p) && c != -1 implies (if self@.contains_key(
                    c as usize,
                ) {
                    self@[c as usize] < g.height(p)
                } else {
                    g.height(c) < g.height(p)
                }) by {
                    if c == c0 {
                        assert(g.is_edge(c, p));
                        if g.parents(c).contains(p as usize) {
                            let k = choose|k: int| 0 <= k < g.parents(c).len() && g.parents(c)[k] == p as usize;
                            assert(g2.parents(c)[k] == g.parents(c)[k]);
                            assert(g2.height(c) < g2.height(g2.parents(c)[k] as int));
                            assert(g2.height(p) <= g.height(p));
                        } else {
                            let k = choose|k: int|
                                0 <= k < g.nodes@[c].rhs_nodes@.len() && g.nodes@[c].rhs_nodes@[k] == p as usize;
                            assert(g.nodes@[c].rhs_nodes@[k] as int == p);
                            assert(g.spec_is_necessary(g.nodes@[c].rhs_nodes@[k] as int));
                            assert(g.height(c) < g.height(p));
                        }
                    }
                }
                lemma_slack_nonneg(g, top, g.len());
                assert(slack(&gp, top, g.len()) == slack(&gs, top, g.len()));
                assert(slack(g, top, g.len()) <= slack(&g2, top, g.len()));
                assert(slack(&g2, top, g.len()) <= slack(&gp, top, g.len()));
                if slack(g, top, g.len()) == slack(&gs, top, g.len()) {
                    assert(q2 == qp);
                    assert(self@ == q2);
                }
            }
        }
    }
}

} // verus!
