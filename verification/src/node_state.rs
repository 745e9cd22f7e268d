use vstd::prelude::*;

use crate::graph::{lemma_ids_ok_same_links, lemma_indices_below, Graph, Kind, Node};
use crate::recompute_heap::RecomputeHeap;
use crate::public::{bumped, Stats};
use crate::stabilisation_num::StabilisationNum;

verus! {

/// Put `node` on `handle_after`, the nodes whose update handlers run once the
/// stabilisation ends, unless it is there already.
pub fn handle_after_stabilisation(handle_after: &mut Vec<usize>, node: usize)
    ensures
        final(handle_after)@ == (if old(handle_after)@.contains(node) {
            old(handle_after)@
        } else {
            old(handle_after)@.push(node)
        }),
{
    let n = handle_after.len();
    let mut k: usize = 0;
    while k < n
        invariant
            n == handle_after@.len(),
            handle_after@ == old(handle_after)@,
            k <= n,
            forall|j: int| 0 <= j < k ==> handle_after@[j] != node,
        decreases n - k,
    {
        if handle_after[k] == node {
            return;
        }
        k = k + 1;
    }
    handle_after.push(node);
}

/// `after` holds every node `before` held, and otherwise only nodes of `g` that have
/// update handlers.
pub open spec fn handle_after_grown(before: Seq<usize>, after: Seq<usize>, g: &Graph) -> bool {
    &&& forall|n: usize| #[trigger] before.contains(n) ==> after.contains(n)
    &&& forall|n: usize|
        #[trigger] after.contains(n) ==> before.contains(n) || ((n as int) < g.len()
            && g.nodes@[n as int].num_on_update_handlers > 0)
}

/// Growing the list twice, the second time over a graph whose nodes have no more
/// update handlers than in `g0`, grows it.
pub proof fn lemma_handle_after_trans(a: Seq<usize>, b: Seq<usize>, c: Seq<usize>, g0: &Graph, g1: &Graph)
    requires
        handle_after_grown(a, b, g0),
        handle_after_grown(b, c, g1),
        g1.len() == g0.len(),
        forall|i: int| 0 <= i < g0.len() ==> #[trigger] g1.nodes@[i].num_on_update_handlers
            <= g0.nodes@[i].num_on_update_handlers,
    ensures
        handle_after_grown(a, c, g0),
{
    assert forall|n: usize| #[trigger] c.contains(n) implies a.contains(n) || ((n as int) < g0.len()
        && g0.nodes@[n as int].num_on_update_handlers > 0) by {
        if !b.contains(n) {
            assert(g1.nodes@[n as int].num_on_update_handlers <= g0.nodes@[n as int].num_on_update_handlers);
        }
    }
}

impl Graph {
    pub open spec fn changed_at(&self, i: int) -> int {
        self.nodes@[i].changed_at.0 as int
    }

    pub open spec fn recomputed_at(&self, i: int) -> int {
        self.nodes@[i].recomputed_at.0 as int
    }

    /// Some input of `i` changed after `i` was last recomputed.
    pub open spec fn spec_stale_wrt_child(&self, i: int) -> bool {
        exists|ci: int|
            0 <= ci < self.children(i).len() && self.recomputed_at(i) < #[trigger] self.changed_at(
                self.children(i)[ci] as int,
            )
    }

    /// Whether the value of `i` may be out of date. An invalid node never is.
    pub open spec fn spec_is_stale(&self, i: int) -> bool {
        let n = self.nodes@[i];
        if !n.is_valid {
            false
        } else {
            match n.kind {
                Kind::Var => n.set_at.0 > n.recomputed_at.0,
                Kind::Constant => n.recomputed_at.0 == -1,
                Kind::Expert => n.force_stale || n.recomputed_at.0 == -1 || self.spec_stale_wrt_child(i),
                _ => n.recomputed_at.0 == -1 || self.spec_stale_wrt_child(i),
            }
        }
    }

    /// Some input of `i` is invalid.
    pub open spec fn spec_has_invalid_child(&self, i: int) -> bool {
        exists|ci: int|
            0 <= ci < self.children(i).len() && !(#[trigger] self.nodes@[self.children(i)[ci] as int]).is_valid
    }

    /// After `node` changed (`changed`) with parents and no parent came back (`next`),
    /// its first parent is queued (heap `after`, from `before`): it was queued already,
    /// or it comes again later among the parents, or it could not be recomputed right
    /// after `node`.
    #[verifier::opaque]
    pub open spec fn first_parent_queued(
        &self,
        before: Map<usize, int>,
        after: Map<usize, int>,
        node: int,
        changed: bool,
        next: Option<usize>,
    ) -> bool {
        changed && self.parents(node).len() > 0 && next is None ==> {
            let p = self.parents(node)[0];
            &&& after.contains_key(p)
            &&& before.contains_key(p) || self.parents(node).subrange(1, self.parents(node).len() as int).contains(p)
                || !self.spec_can_recompute_now(p as int, node)
        }
    }

    /// Put `node` on the `handle_after` list when it has update handlers, so that they
    /// run after this stabilisation.
    pub fn maybe_handle_after_stabilisation(&self, handle_after: &mut Vec<usize>, node: usize)
        requires
            node < self.len(),
        ensures
            handle_after_grown(old(handle_after)@, final(handle_after)@, self),
            self.nodes@[node as int].num_on_update_handlers > 0 ==> final(handle_after)@.contains(node),
            self.nodes@[node as int].num_on_update_handlers <= 0 ==> final(handle_after)@ == old(handle_after)@,
    {
        if self.nodes[node].num_on_update_handlers > 0 {
            let ghost before = handle_after@;
            handle_after_stabilisation(handle_after, node);
            proof {
                assert forall|n: usize| #[trigger] handle_after@.contains(n) <==> before.contains(n) || n == node by {
                    if !before.contains(node) {
                        if before.contains(n) {
                            let i = choose|i: int| 0 <= i < before.len() && before[i] == n;
                            assert(handle_after@[i] == n);
                        }
                        if n == node {
                            assert(handle_after@[before.len() as int] == node);
                        }
                        if handle_after@.contains(n) && n != node {
                            let i = choose|i: int| 0 <= i < handle_after@.len() && handle_after@[i] == n;
                            assert(before[i] == n);
                        }
                    }
                }
            }
        }
    }

    /// Whether `i` must be invalidated because of its inputs. A bind's two nodes depend
    /// on their first input only (the left-hand side, resp. the left-hand-side change
    /// node); an expert node cannot tell before it runs.
    pub open spec fn spec_should_be_invalidated(&self, i: int) -> bool {
        let n = self.nodes@[i];
        if !n.is_valid {
            false
        } else {
            match n.kind {
                Kind::Constant | Kind::Var | Kind::Expert => false,
                Kind::BindLhsChange | Kind::BindMain => n.children@.len() > 0
                    && !self.nodes@[n.children@[0] as int].is_valid,
                _ => self.spec_has_invalid_child(i),
            }
        }
    }

    /// Height of the scope a node was created in: the top scope is at height 0, a bind's
    /// right-hand side at the height of its left-hand-side change node.
    pub open spec fn scope_height(&self, i: int) -> int {
        match self.nodes@[i].created_in {
            None => 0,
            Some(s) => self.height(s as int),
        }
    }

    /// Whether `parent` may be recomputed right after its input `child` without waiting
    /// for other nodes: only nodes with a single input qualify, once the scope they were
    /// created in (for a bind's main node, its left-hand-side change node) is settled.
    pub open spec fn spec_can_recompute_now(&self, parent: int, child: int) -> bool {
        let n = self.nodes@[parent];
        match n.kind {
            Kind::Map1 | Kind::MapRef | Kind::MapWithOld | Kind::BindLhsChange => self.height(child)
                > self.scope_height(parent),
            Kind::BindMain => n.children@.len() > 0 && self.height(child) > self.height(
                n.children@[0] as int,
            ),
            _ => false,
        }
    }

    /// Whether node `i` is queued in the recompute heap.
    pub open spec fn spec_in_recompute_heap(&self, i: int) -> bool {
        self.nodes@[i].height_in_recompute_heap >= 0
    }

    /// Whether `child` changed after `parent` was last recomputed.
    pub fn edge_is_stale(&self, child: usize, parent: usize) -> (r: bool)
        requires
            child < self.len(),
            parent < self.len(),
        ensures
            r == (self.changed_at(child as int) > self.recomputed_at(parent as int)),
    {
        self.nodes[child].changed_at.0 > self.nodes[parent].recomputed_at.0
    }

    /// Whether node `i` is queued in the recompute heap.
    pub fn is_in_recompute_heap(&self, i: usize) -> (r: bool)
        requires
            i < self.len(),
        ensures
            r == self.spec_in_recompute_heap(i as int),
    {
        self.nodes[i].height_in_recompute_heap >= 0
    }

    /// Whether some input of `i` changed after `i` was last recomputed.
    pub fn is_stale_with_respect_to_a_child(&self, i: usize) -> (r: bool)
        requires
            self.ids_ok(),
            i < self.len(),
        ensures
            r == self.spec_stale_wrt_child(i as int),
    {
        let n = self.nodes[i].children.len();
        let recomputed_at = self.nodes[i].recomputed_at.0;
        let mut k: usize = 0;
        while k < n
            invariant
                self.ids_ok(),
                i < self.len(),
                n == self.children(i as int).len(),
                recomputed_at == self.recomputed_at(i as int),
                k <= n,
                forall|j: int| 0 <= j < k ==> #[trigger] self.changed_at(self.children(i as int)[j] as int) <= recomputed_at,
            decreases n - k,
        {
            let c = self.nodes[i].children[k];
            proof {
                assert(self.children(i as int)[k as int] < self.len());
            }
            if self.nodes[c].changed_at.0 > recomputed_at {
                assert(self.recomputed_at(i as int) < self.changed_at(self.children(i as int)[k as int] as int));
                return true;
            }
            k = k + 1;
        }
        false
    }

    /// Whether the value of node `i` may be out of date.
    pub fn is_stale(&self, i: usize) -> (r: bool)
        requires
            self.ids_ok(),
            i < self.len(),
        ensures
            r == self.spec_is_stale(i as int),
    {
        if !self.nodes[i].is_valid {
            return false;
        }
        let recomputed_at = self.nodes[i].recomputed_at;
        match self.nodes[i].kind {
            Kind::Var => self.nodes[i].set_at.0 > recomputed_at.0,
            Kind::Constant => recomputed_at.is_never(),
            Kind::Expert => self.nodes[i].force_stale || recomputed_at.is_never()
                || self.is_stale_with_respect_to_a_child(i),
            _ => recomputed_at.is_never() || self.is_stale_with_respect_to_a_child(i),
        }
    }

    /// Whether node `i` is needed and out of date.
    pub fn needs_to_be_computed(&self, i: usize) -> (r: bool)
        requires
            self.ids_ok(),
            i < self.len(),
        ensures
            r == (self.spec_is_necessary(i as int) && self.spec_is_stale(i as int)),
    {
        self.is_necessary(i) && self.is_stale(i)
    }

    /// Whether some input of node `i` is invalid.
    pub fn has_invalid_child(&self, i: usize) -> (r: bool)
        requires
            self.ids_ok(),
            i < self.len(),
        ensures
            r == self.spec_has_invalid_child(i as int),
    {
        let n = self.nodes[i].children.len();
        let mut k: usize = 0;
        while k < n
            invariant
                self.ids_ok(),
                i < self.len(),
                n == self.children(i as int).len(),
                k <= n,
                forall|j: int| 0 <= j < k ==> (#[trigger] self.nodes@[self.children(i as int)[j] as int]).is_valid,
            decreases n - k,
        {
            let c = self.nodes[i].children[k];
            proof {
                assert(self.children(i as int)[k as int] < self.len());
            }
            if !self.nodes[c].is_valid {
                assert(!self.nodes@[self.children(i as int)[k as int] as int].is_valid);
                return true;
            }
            k = k + 1;
        }
        false
    }

    /// Whether node `i` must be invalidated because of its inputs.
    pub fn should_be_invalidated(&self, i: usize) -> (r: bool)
        requires
            self.ids_ok(),
            i < self.len(),
        ensures
            r == self.spec_should_be_invalidated(i as int),
    {
        if !self.nodes[i].is_valid {
            return false;
        }
        match self.nodes[i].kind {
            Kind::Constant | Kind::Var | Kind::Expert => false,
            Kind::BindLhsChange | Kind::BindMain => {
                if self.nodes[i].children.len() == 0 {
                    false
                } else {
                    let c = self.nodes[i].children[0];
                    proof {
                        assert(self.children(i as int)[0] < self.len());
                    }
                    !self.nodes[c].is_valid
                }
            },
            _ => self.has_invalid_child(i),
        }
    }

    /// Height of the scope node `i` was created in.
    pub fn created_in_height(&self, i: usize) -> (r: i32)
        requires
            self.ids_ok(),
            i < self.len(),
        ensures
            r == self.scope_height(i as int),
    {
        match self.nodes[i].created_in {
            None => 0,
            Some(s) => {
                proof {
                    assert(match self.nodes@[i as int].created_in {
                        Some(s) => s < self.len(),
                        None => true,
                    });
                }
                self.nodes[s].height
            },
        }
    }

    /// Decide whether `parent` can be recomputed right after its input `child`. When it
    /// cannot, and it is above the lowest queued height, it is queued in the recompute
    /// heap and `false` comes back.
    pub fn parent_iter_can_recompute_now(&mut self, rch: &mut RecomputeHeap, parent: usize, child: usize) -> (r:
        bool)
        requires
            old(self).ids_ok(),
            parent < old(self).len(),
            child < old(self).len(),
            old(rch).wf(),
            old(self).rch_consistent(old(rch)),
            !old(rch)@.contains_key(parent),
            0 <= old(self).height(parent as int) <= old(rch).max_allowed(),
        ensures
            r == (old(self).spec_can_recompute_now(parent as int, child as int) || old(self).height(parent as int)
                <= old(rch).lower_bound()),
            r ==> *final(rch) == *old(rch) && final(self).nodes@ == old(self).nodes@,
            !r ==> final(rch)@ == old(rch)@.insert(parent, old(self).height(parent as int)),
            !r ==> final(self).nodes@ == old(self).nodes@.update(
                parent as int,
                Node { height_in_recompute_heap: old(self).nodes@[parent as int].height, ..old(self).nodes@[parent as int] },
            ),
            final(rch).wf(),
            final(rch).max_allowed() == old(rch).max_allowed(),
            final(self).rch_consistent(final(rch)),
    {
        let can_recompute_now = match self.nodes[parent].kind {
            Kind::Map1 | Kind::MapRef | Kind::MapWithOld | Kind::BindLhsChange => {
                self.nodes[child].height > self.created_in_height(parent)
            },
            Kind::BindMain => {
                if self.nodes[parent].children.len() == 0 {
                    false
                } else {
                    let lhs_change = self.nodes[parent].children[0];
                    proof {
                        assert(self.children(parent as int)[0] < self.len());
                    }
                    self.nodes[child].height > self.nodes[lhs_change].height
                }
            },
            _ => false,
        };
        if can_recompute_now || self.nodes[parent].height <= rch.min_height() {
            true
        } else {
            let h = self.nodes[parent].height;
            proof {
                rch.lemma_wf();
                assert(self.nodes.len() == self.nodes@.len());
                assert forall|k: usize| #[trigger] rch@.dom().contains(k) implies k < self.nodes.len() by {
                    assert(rch@.contains_key(k));
                }
                lemma_indices_below(rch@.dom(), self.nodes.len(), parent);
            }
            rch.insert(parent, h);
            self.nodes[parent].height_in_recompute_heap = h;
            proof {
                assert forall|n: usize| #[trigger] rch@.contains_key(n) implies n < self.len() by {
                    if n != parent {
                        assert(old(rch)@.contains_key(n));
                    }
                }
                assert forall|i: int| 0 <= i < self.len() implies #[trigger] self.nodes@[i].height_in_recompute_heap == (if rch@.contains_key(
                    i as usize,
                ) {
                    rch@[i as usize]
                } else {
                    -1
                }) by {
                    if i != parent as int {
                        assert(self.nodes@[i] == old(self).nodes@[i]);
                    }
                }
            }
            false
        }
    }

    /// `self` is `g0` where node `node` may be marked changed at `now` and nodes may have
    /// moved in or out of the recompute heap; nothing else differs.
    pub open spec fn rescheduled_from(&self, g0: &Graph, node: int, now: StabilisationNum, changed: bool) -> bool {
        &&& self.len() == g0.len()
        &&& forall|i: int|
            0 <= i < self.len() ==> #[trigger] self.nodes@[i] == (Node {
                height_in_recompute_heap: self.nodes@[i].height_in_recompute_heap,
                changed_at: if changed && i == node {
                    now
                } else {
                    g0.nodes@[i].changed_at
                },
                ..g0.nodes@[i]
            })
    }

    /// Queue node `p` in the recompute heap at its height.
    fn queue(&mut self, rch: &mut RecomputeHeap, p: usize, Ghost(g0): Ghost<Graph>, Ghost(node): Ghost<int>, Ghost(now): Ghost<StabilisationNum>, Ghost(changed): Ghost<bool>)
        requires
            old(self).rescheduled_from(&g0, node, now, changed),
            g0.ids_ok(),
            p < old(self).len(),
            old(rch).wf(),
            old(self).rch_consistent(old(rch)),
            !old(rch)@.contains_key(p),
            0 <= old(self).height(p as int) <= old(rch).max_allowed(),
        ensures
            final(self).rescheduled_from(&g0, node, now, changed),
            final(rch).wf(),
            final(rch).max_allowed() == old(rch).max_allowed(),
            final(self).rch_consistent(final(rch)),
            final(rch)@ == old(rch)@.insert(p, old(self).height(p as int)),
            final(rch).lower_bound() <= old(rch).lower_bound(),
    {
        let h = self.nodes[p].height;
        proof {
            rch.lemma_wf();
            assert(self.nodes.len() == self.nodes@.len());
            assert forall|x: usize| #[trigger] rch@.dom().contains(x) implies x < self.nodes.len() by {
                assert(rch@.contains_key(x));
            }
            lemma_indices_below(rch@.dom(), self.nodes.len(), p);
        }
        rch.insert(p, h);
        self.nodes[p].height_in_recompute_heap = h;
        proof {
            assert forall|x: usize| #[trigger] rch@.contains_key(x) implies x < self.len() by {
                if x != p {
                    assert(old(rch)@.contains_key(x));
                }
            }
            assert forall|i: int| 0 <= i < self.len() implies #[trigger] self.nodes@[i].height_in_recompute_heap == (if rch@.contains_key(
                i as usize,
            ) {
                rch@[i as usize]
            } else {
                -1
            }) by {
                if i != p as int {
                    assert(self.nodes@[i] == old(self).nodes@[i]);
                }
            }
            assert forall|i: int| 0 <= i < self.len() implies #[trigger] self.nodes@[i] == (Node {
                height_in_recompute_heap: self.nodes@[i].height_in_recompute_heap,
                changed_at: if changed && i == node {
                    now
                } else {
                    g0.nodes@[i].changed_at
                },
                ..g0.nodes@[i]
            }) by {
                assert(old(self).nodes@[i] == (Node {
                    height_in_recompute_heap: old(self).nodes@[i].height_in_recompute_heap,
                    changed_at: if changed && i == node {
                        now
                    } else {
                        g0.nodes@[i].changed_at
                    },
                    ..g0.nodes@[i]
                }));
            }
        }
    }

    /// Queue the parents of `node` after the first, those not queued already.
    fn queue_later_parents(&mut self, rch: &mut RecomputeHeap, node: usize, Ghost(g0): Ghost<Graph>, Ghost(now): Ghost<StabilisationNum>)
        requires
            old(self).rescheduled_from(&g0, node as int, now, true),
            g0.ids_ok(),
            node < old(self).len(),
            old(rch).wf(),
            old(self).rch_consistent(old(rch)),
            forall|pi: int|
                0 <= pi < g0.parents(node as int).len() ==> 0 <= #[trigger] g0.height(
                    g0.parents(node as int)[pi] as int,
                ) <= old(rch).max_allowed(),
        ensures
            final(self).rescheduled_from(&g0, node as int, now, true),
            final(rch).wf(),
            final(rch).max_allowed() == old(rch).max_allowed(),
            final(self).rch_consistent(final(rch)),
            forall|m: usize|
                #[trigger] final(rch)@.contains_key(m) <==> (old(rch)@.contains_key(m) || exists|j: int|
                    1 <= j < g0.parents(node as int).len() && g0.parents(node as int)[j] == m),
            forall|m: usize| #[trigger]
                final(rch)@.contains_key(m) ==> final(rch)@[m] == (if old(rch)@.contains_key(m) {
                    old(rch)@[m]
                } else {
                    g0.height(m as int)
                }),
    {
        let n = self.nodes[node].parents.len();
        let mut k: usize = 1;
        proof {
            assert(self.nodes@[node as int].parents@ == g0.nodes@[node as int].parents@);
        }
        while k < n
            invariant
                self.rescheduled_from(&g0, node as int, now, true),
                g0.ids_ok(),
                node < self.len(),
                n == g0.parents(node as int).len(),
                1 <= k || n == 0,
                k <= n || n == 0,
                rch.wf(),
                rch.max_allowed() == old(rch).max_allowed(),
                self.rch_consistent(rch),
                forall|pi: int|
                    0 <= pi < g0.parents(node as int).len() ==> 0 <= #[trigger] g0.height(
                        g0.parents(node as int)[pi] as int,
                    ) <= old(rch).max_allowed(),
                forall|m: usize|
                    #[trigger] rch@.contains_key(m) <==> (old(rch)@.contains_key(m) || exists|j: int|
                        1 <= j < k && j < n && g0.parents(node as int)[j] == m),
                forall|m: usize| #[trigger]
                    rch@.contains_key(m) ==> rch@[m] == (if old(rch)@.contains_key(m) {
                        old(rch)@[m]
                    } else {
                        g0.height(m as int)
                    }),
            decreases n - k,
        {
            let p = self.nodes[node].parents[k];
            let ghost rch1 = rch@;
            proof {
                assert(self.nodes@[node as int] == (Node {
                    height_in_recompute_heap: self.nodes@[node as int].height_in_recompute_heap,
                    changed_at: now,
                    ..g0.nodes@[node as int]
                }));
                assert(g0.parents(node as int)[k as int] == p);
                assert(p < g0.len());
                assert(self.nodes@[p as int] == (Node {
                    height_in_recompute_heap: self.nodes@[p as int].height_in_recompute_heap,
                    changed_at: if p == node {
                        now
                    } else {
                        g0.nodes@[p as int].changed_at
                    },
                    ..g0.nodes@[p as int]
                }));
                assert(0 <= g0.height(g0.parents(node as int)[k as int] as int) <= old(rch).max_allowed());
                rch.lemma_wf();
            }
            if self.nodes[p].height_in_recompute_heap < 0 {
                proof {
                    if rch@.contains_key(p) {
                        assert(self.nodes@[p as int].height_in_recompute_heap == rch@[p]);
                    }
                }
                self.queue(rch, p, Ghost(g0), Ghost(node as int), Ghost(now), Ghost(true));
            }
            proof {
                assert forall|m: usize|
                    #[trigger] rch@.contains_key(m) <==> (old(rch)@.contains_key(m) || exists|j: int|
                        1 <= j < k + 1 && j < n && g0.parents(node as int)[j] == m) by {
                    if exists|j: int| 1 <= j < k + 1 && j < n && g0.parents(node as int)[j] == m {
                        let j = choose|j: int| 1 <= j < k + 1 && j < n && g0.parents(node as int)[j] == m;
                        if j < k {
                            assert(rch1.contains_key(m));
                        } else {
                            assert(m == p);
                        }
                    }
                    if rch@.contains_key(m) && m != p {
                        assert(rch1.contains_key(m));
                    }
                }
            }
            k = k + 1;
        }
    }

    /// After `node` was recomputed: when its value changed, record that it changed at
    /// `now` and schedule every parent, all but the first by queueing it in the
    /// recompute heap (unless it is queued already). The first parent comes back to be
    /// recomputed straight away when [`Self::parent_iter_can_recompute_now`] allows it,
    /// and is queued otherwise. When the value did not change, nothing happens.
    #[verifier::spinoff_prover]
    #[verifier::rlimit(50)]
    pub fn maybe_change_value(
        &mut self,
        rch: &mut RecomputeHeap,
        stats: &mut Stats,
        handle_after: &mut Vec<usize>,
        node: usize,
        did_change: bool,
        now: StabilisationNum,
    ) -> (r: Option<usize>)
        requires
            old(self).ids_ok(),
            node < old(self).len(),
            old(rch).wf(),
            old(self).rch_consistent(old(rch)),
            forall|pi: int|
                0 <= pi < old(self).parents(node as int).len() ==> 0 <= #[trigger] old(self).height(
                    old(self).parents(node as int)[pi] as int,
                ) <= old(rch).max_allowed(),
        ensures
            final(rch).wf(),
            final(rch).max_allowed() == old(rch).max_allowed(),
            final(self).rch_consistent(final(rch)),
            final(self).rescheduled_from(old(self), node as int, now, did_change),
            *final(stats) == (if did_change {
                Stats { changed: bumped(old(stats).changed), ..*old(stats) }
            } else {
                *old(stats)
            }),
            final(handle_after)@ == (if did_change && old(self).nodes@[node as int].num_on_update_handlers > 0
                && !old(handle_after)@.contains(node) {
                old(handle_after)@.push(node)
            } else {
                old(handle_after)@
            }),
            !did_change ==> r is None && *final(rch) == *old(rch),
            forall|m: usize|
                #[trigger] final(rch)@.contains_key(m) <==> (old(rch)@.contains_key(m) || (did_change
                    && old(self).parents(node as int).contains(m) && r != Some(m))),
            forall|m: usize| #[trigger]
                final(rch)@.contains_key(m) ==> final(rch)@[m] == (if old(rch)@.contains_key(m) {
                    old(rch)@[m]
                } else {
                    old(self).height(m as int)
                }),
            r matches Some(p) ==> {
                &&& did_change
                &&& old(self).parents(node as int).len() > 0
                &&& p == old(self).parents(node as int)[0]
                &&& !old(rch)@.contains_key(p)
                &&& (old(self).spec_can_recompute_now(p as int, node as int) || old(self).height(p as int)
                    <= final(rch).lower_bound())
            },
            old(self).first_parent_queued(old(rch)@, final(rch)@, node as int, did_change, r),
    {
        let ghost g0 = *old(self);
        proof {
            reveal(Graph::first_parent_queued);
        }
        if !did_change {
            proof {
                assert forall|i: int| 0 <= i < self.len() implies #[trigger] self.nodes@[i] == (Node {
                    height_in_recompute_heap: self.nodes@[i].height_in_recompute_heap,
                    changed_at: self.nodes@[i].changed_at,
                    ..self.nodes@[i]
                }) by {}
            }
            return None;
        }
        stats.count_changed();
        if self.nodes[node].num_on_update_handlers > 0 {
            handle_after_stabilisation(handle_after, node);
        }
        self.nodes[node].changed_at = now;
        proof {
            assert forall|i: int| 0 <= i < self.len() implies #[trigger] self.nodes@[i] == (Node {
                height_in_recompute_heap: self.nodes@[i].height_in_recompute_heap,
                changed_at: if i == node {
                    now
                } else {
                    g0.nodes@[i].changed_at
                },
                ..g0.nodes@[i]
            }) by {}
            assert forall|i: int| 0 <= i < self.len() implies #[trigger] self.nodes@[i].height_in_recompute_heap
                == g0.nodes@[i].height_in_recompute_heap by {}
        }
        let n = self.nodes[node].parents.len();
        if n == 0 {
            proof {
                assert forall|m: usize| #[trigger] g0.parents(node as int).contains(m) implies false by {
                    let j = choose|j: int| 0 <= j < g0.parents(node as int).len() && g0.parents(node as int)[j] == m;
                }
            }
            return None;
        }
        self.queue_later_parents(rch, node, Ghost(g0), Ghost(now));
        let ghost rch1 = rch@;
        let p0 = self.nodes[node].parents[0];
        proof {
            assert(self.nodes@[node as int] == (Node {
                height_in_recompute_heap: self.nodes@[node as int].height_in_recompute_heap,
                changed_at: now,
                ..g0.nodes@[node as int]
            }));
            assert(g0.parents(node as int)[0] < g0.len());
            assert(self.nodes@[p0 as int] == (Node {
                height_in_recompute_heap: self.nodes@[p0 as int].height_in_recompute_heap,
                changed_at: if p0 == node {
                    now
                } else {
                    g0.nodes@[p0 as int].changed_at
                },
                ..g0.nodes@[p0 as int]
            }));
            rch.lemma_wf();
        }
        let mut result: Option<usize> = None;
        if self.nodes[p0].height_in_recompute_heap < 0 {
            proof {
                if rch@.contains_key(p0) {
                    assert(self.nodes@[p0 as int].height_in_recompute_heap == rch@[p0]);
                }
                assert(0 <= g0.height(g0.parents(node as int)[0] as int));
                lemma_rescheduled_decision(&g0, self, node as int, now, p0 as int, node as int);
            }
            let ghost g1 = *self;
            let now_ok = self.parent_iter_can_recompute_now(rch, p0, node);
            if now_ok {
                result = Some(p0);
            }
            proof {
                if !now_ok {
                    assert forall|i: int| 0 <= i < self.len() implies #[trigger] self.nodes@[i] == (Node {
                        height_in_recompute_heap: self.nodes@[i].height_in_recompute_heap,
                        changed_at: if i == node {
                            now
                        } else {
                            g0.nodes@[i].changed_at
                        },
                        ..g0.nodes@[i]
                    }) by {
                        assert(g1.nodes@[i] == (Node {
                            height_in_recompute_heap: g1.nodes@[i].height_in_recompute_heap,
                            changed_at: if i == node {
                                now
                            } else {
                                g0.nodes@[i].changed_at
                            },
                            ..g0.nodes@[i]
                        }));
                    }
                }
            }
        }
        proof {
            reveal(Graph::first_parent_queued);
            if result is None && !old(rch)@.contains_key(p0) && rch1.contains_key(p0) {
                let j = choose|j: int| 1 <= j < n && g0.parents(node as int)[j] == p0;
                assert(g0.parents(node as int).subrange(1, n as int)[j - 1] == p0);
            }
            assert forall|m: usize|
                #[trigger] rch@.contains_key(m) <==> (g0.parents(node as int).contains(m) && result != Some(m)
                    || old(rch)@.contains_key(m)) by {
                if g0.parents(node as int).contains(m) {
                    let j = choose|j: int| 0 <= j < g0.parents(node as int).len() && g0.parents(node as int)[j] == m;
                    if j >= 1 {
                        assert(rch1.contains_key(m));
                    } else {
                        assert(m == p0);
                    }
                }
                if rch1.contains_key(m) && !old(rch)@.contains_key(m) {
                    let j = choose|j: int| 1 <= j < n && g0.parents(node as int)[j] == m;
                    assert(g0.parents(node as int).contains(m));
                }
            }
        }
        result
    }
}

impl Graph {
    /// The bookkeeping of recomputing the valid node `node` during stabilisation `now`,
    /// once its new value is known to differ (`did_change`, as
    /// [`crate::Cutoff::value_changed`] decides it from the old value, the new one and
    /// the node's cutoff) or not: it counts as recomputed at `now`, and
    /// [`Self::maybe_change_value`] counts the change, queues the node for its update
    /// handlers and schedules its parents. The parent that comes back is to be
    /// recomputed next. [`Self::recompute_one_value`] takes the value itself and decides
    /// the change with the cutoff; [`Self::recompute_step`] also switches a bind to its
    /// new right-hand side and invalidates a node whose computation finds it invalid.
    pub fn recompute_one(
        &mut self,
        rch: &mut RecomputeHeap,
        stats: &mut Stats,
        handle_after: &mut Vec<usize>,
        node: usize,
        did_change: bool,
        now: StabilisationNum,
    ) -> (r: Option<usize>)
        requires
            old(self).ids_ok(),
            node < old(self).len(),
            old(self).nodes@[node as int].is_valid,
            old(rch).wf(),
            old(self).rch_consistent(old(rch)),
            forall|pi: int|
                0 <= pi < old(self).parents(node as int).len() ==> 0 <= #[trigger] old(self).height(
                    old(self).parents(node as int)[pi] as int,
                ) <= old(rch).max_allowed(),
        ensures
            final(rch).wf(),
            final(rch).max_allowed() == old(rch).max_allowed(),
            final(self).rch_consistent(final(rch)),
            final(self).len() == old(self).len(),
            forall|i: int|
                0 <= i < final(self).len() ==> #[trigger] final(self).nodes@[i] == (Node {
                    height_in_recompute_heap: final(self).nodes@[i].height_in_recompute_heap,
                    changed_at: if did_change && i == node {
                        now
                    } else {
                        old(self).nodes@[i].changed_at
                    },
                    recomputed_at: if i == node {
                        now
                    } else {
                        old(self).nodes@[i].recomputed_at
                    },
                    ..old(self).nodes@[i]
                }),
            *final(stats) == (Stats {
                recomputed: bumped(old(stats).recomputed),
                changed: if did_change {
                    bumped(old(stats).changed)
                } else {
                    old(stats).changed
                },
                ..*old(stats)
            }),
            final(handle_after)@ == (if did_change && old(self).nodes@[node as int].num_on_update_handlers > 0
                && !old(handle_after)@.contains(node) {
                old(handle_after)@.push(node)
            } else {
                old(handle_after)@
            }),
            !did_change ==> r is None && *final(rch) == *old(rch),
            forall|m: usize|
                #[trigger] final(rch)@.contains_key(m) <==> (old(rch)@.contains_key(m) || (did_change
                    && old(self).parents(node as int).contains(m) && r != Some(m))),
            forall|m: usize| #[trigger]
                final(rch)@.contains_key(m) ==> final(rch)@[m] == (if old(rch)@.contains_key(m) {
                    old(rch)@[m]
                } else {
                    old(self).height(m as int)
                }),
            r matches Some(p) ==> {
                &&& did_change
                &&& old(self).parents(node as int).len() > 0
                &&& p == old(self).parents(node as int)[0]
                &&& !old(rch)@.contains_key(p)
                &&& (old(self).spec_can_recompute_now(p as int, node as int) || old(self).height(p as int)
                    <= final(rch).lower_bound())
            },
            old(self).first_parent_queued(old(rch)@, final(rch)@, node as int, did_change, r),
    {
        let ghost g0 = *old(self);
        stats.count_recomputed();
        self.nodes[node].recomputed_at = now;
        let ghost g1 = *self;
        proof {
            assert forall|i: int| 0 <= i < g0.len() implies {
                &&& (#[trigger] g0.nodes@[i]).parents@ == g1.nodes@[i].parents@
                &&& g0.nodes@[i].children@ == g1.nodes@[i].children@
                &&& g0.nodes@[i].rhs_nodes@ == g1.nodes@[i].rhs_nodes@
                &&& g0.nodes@[i].created_in == g1.nodes@[i].created_in
            } by {}
            lemma_ids_ok_same_links(&g0, &g1);
            assert(g1.parents(node as int) == g0.parents(node as int));
            assert forall|i: int| 0 <= i < g1.len() implies #[trigger] g1.height(i) == g0.height(i) by {}
            assert forall|i: int| 0 <= i < g1.len() implies #[trigger] g1.nodes@[i].height_in_recompute_heap
                == g0.nodes@[i].height_in_recompute_heap by {}
        }
        let r = self.maybe_change_value(rch, stats, handle_after, node, did_change, now);
        proof {
            assert forall|i: int| 0 <= i < self.len() implies #[trigger] self.nodes@[i] == (Node {
                height_in_recompute_heap: self.nodes@[i].height_in_recompute_heap,
                changed_at: if did_change && i == node {
                    now
                } else {
                    g0.nodes@[i].changed_at
                },
                recomputed_at: if i == node {
                    now
                } else {
                    g0.nodes@[i].recomputed_at
                },
                ..g0.nodes@[i]
            }) by {
                assert(self.nodes@[i] == (Node {
                    height_in_recompute_heap: self.nodes@[i].height_in_recompute_heap,
                    changed_at: if did_change && i == node {
                        now
                    } else {
                        g1.nodes@[i].changed_at
                    },
                    ..g1.nodes@[i]
                }));
            }
            reveal(Graph::first_parent_queued);
            if g0.parents(node as int).len() > 0 {
                let p = g0.parents(node as int)[0] as int;
                let c = node as int;
                assert(g0.parents(c)[0] < g0.len());
                assert(g1.nodes@[p] == (Node { recomputed_at: g1.nodes@[p].recomputed_at, ..g0.nodes@[p] }));
                match g0.nodes@[p].created_in {
                    Some(s) => {
                        assert(g0.nodes@[p].created_in matches Some(s) ==> s < g0.len());
                        assert(g1.height(s as int) == g0.height(s as int));
                    },
                    None => {},
                }
                if g0.nodes@[p].children@.len() > 0 {
                    assert(g0.children(p)[0] < g0.len());
                }
                assert(g1.spec_can_recompute_now(p, c) == g0.spec_can_recompute_now(p, c));
            }
        }
        r
    }
}

/// A graph changed only in change times and recompute-heap positions decides in the same
/// way whether a parent can be recomputed right away.
proof fn lemma_rescheduled_decision(g0: &Graph, g: &Graph, node: int, now: StabilisationNum, p: int, c: int)
    requires
        g.rescheduled_from(g0, node, now, true),
        g0.ids_ok(),
        0 <= p < g0.len(),
        0 <= c < g0.len(),
    ensures
        g.spec_can_recompute_now(p, c) == g0.spec_can_recompute_now(p, c),
        g.height(p) == g0.height(p),
        g.ids_ok(),
{
    assert forall|i: int| 0 <= i < g0.len() implies {
        &&& (#[trigger] g0.nodes@[i]).parents@ == g.nodes@[i].parents@
        &&& g0.nodes@[i].children@ == g.nodes@[i].children@
        &&& g0.nodes@[i].rhs_nodes@ == g.nodes@[i].rhs_nodes@
        &&& g0.nodes@[i].created_in == g.nodes@[i].created_in
    } by {
        assert(g.nodes@[i] == (Node {
            height_in_recompute_heap: g.nodes@[i].height_in_recompute_heap,
            changed_at: if i == node {
                now
            } else {
                g0.nodes@[i].changed_at
            },
            ..g0.nodes@[i]
        }));
    }
    lemma_ids_ok_same_links(g0, g);
    assert(g.nodes@[p] == (Node {
        height_in_recompute_heap: g.nodes@[p].height_in_recompute_heap,
        changed_at: if p == node {
            now
        } else {
            g0.nodes@[p].changed_at
        },
        ..g0.nodes@[p]
    }));
    assert(g.nodes@[c] == (Node {
        height_in_recompute_heap: g.nodes@[c].height_in_recompute_heap,
        changed_at: if c == node {
            now
        } else {
            g0.nodes@[c].changed_at
        },
        ..g0.nodes@[c]
    }));
    match g0.nodes@[p].created_in {
        Some(s) => {
            assert(g0.nodes@[p].created_in matches Some(s) ==> s < g0.len());
            assert(g.nodes@[s as int].height == g0.nodes@[s as int].height) by {
                assert(g.nodes@[s as int] == (Node {
                    height_in_recompute_heap: g.nodes@[s as int].height_in_recompute_heap,
                    changed_at: if s == node {
                        now
                    } else {
                        g0.nodes@[s as int].changed_at
                    },
                    ..g0.nodes@[s as int]
                }));
            }
        },
        None => {},
    }
    if g0.nodes@[p].children@.len() > 0 {
        let l = g0.nodes@[p].children@[0] as int;
        assert(g0.children(p)[0] < g0.len());
        assert(g.nodes@[l] == (Node {
            height_in_recompute_heap: g.nodes@[l].height_in_recompute_heap,
            changed_at: if l == node {
                now
            } else {
                g0.nodes@[l].changed_at
            },
            ..g0.nodes@[l]
        }));
    }
}

/// When a node must be invalidated because of its inputs: never when it is invalid
/// already, nor for a constant, a variable or an expert node (which finds out only when
/// it runs); a bind's left-hand-side change node and a bind's main node exactly when
/// their first input (the left-hand side, resp. the change node) is invalid, whatever
/// the right-hand side is; any other node exactly when one of its inputs is invalid.
pub proof fn lemma_invalidation_is_due(g: &Graph, i: int)
    requires
        0 <= i < g.len(),
    ensures
        !g.nodes@[i].is_valid ==> !g.spec_should_be_invalidated(i),
        (g.nodes@[i].kind == Kind::Constant || g.nodes@[i].kind == Kind::Var || g.nodes@[i].kind == Kind::Expert)
            ==> !g.spec_should_be_invalidated(i),
        g.nodes@[i].is_valid && (g.nodes@[i].kind == Kind::BindMain || g.nodes@[i].kind == Kind::BindLhsChange)
            && g.children(i).len() > 0 ==> (g.spec_should_be_invalidated(i) <==> !g.nodes@[g.children(i)[0] as int].is_valid),
        g.nodes@[i].is_valid && (g.nodes@[i].kind == Kind::BindMain || g.nodes@[i].kind == Kind::BindLhsChange)
            && g.children(i).len() == 0 ==> !g.spec_should_be_invalidated(i),
        g.nodes@[i].is_valid && g.nodes@[i].kind != Kind::BindMain && g.nodes@[i].kind != Kind::BindLhsChange
            && g.nodes@[i].kind != Kind::Constant && g.nodes@[i].kind != Kind::Var && g.nodes@[i].kind != Kind::Expert
            ==> (g.spec_should_be_invalidated(i) <==> exists|ci: int|
            0 <= ci < g.children(i).len() && !g.nodes@[#[trigger] g.children(i)[ci] as int].is_valid),
{
}

} // verus!
