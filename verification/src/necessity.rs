use vstd::prelude::*;

use crate::adjust_heights_heap::AdjustHeightsHeap;
use crate::graph::{lemma_indices_below, Graph};
use crate::invalidity::stack_ok;
use crate::node_state::{handle_after_grown, lemma_handle_after_trans};
use crate::public::Stats;
use crate::recompute_heap::RecomputeHeap;

verus! {

/// Number of nodes among the first `n` that have a height (are placed in the graph).
pub open spec fn count_placed(g: &Graph, n: int) -> nat
    decreases n,
{
    if n <= 0 {
        0
    } else {
        count_placed(g, n - 1) + (if g.height(n - 1) >= 0 {
            1nat
        } else {
            0nat
        })
    }
}

/// Taking heights away (down to `-1`) never adds placed nodes; taking one away from a
/// placed node removes one.
proof fn lemma_count_placed(g1: &Graph, g2: &Graph, n: int, p: int)
    requires
        0 <= n <= g1.len(),
        g1.len() == g2.len(),
        forall|i: int| 0 <= i < g1.len() ==> #[trigger] g2.height(i) == g1.height(i) || g2.height(i) == -1,
    ensures
        count_placed(g2, n) <= count_placed(g1, n),
        0 <= p < n && g1.height(p) >= 0 && g2.height(p) == -1 ==> count_placed(g2, n) < count_placed(g1, n),
    decreases n,
{
    if n > 0 {
        lemma_count_placed(g1, g2, n - 1, p);
        assert(g2.height(n - 1) == g1.height(n - 1) || g2.height(n - 1) == -1);
    }
}

/// A graph with the same content as `g0` keeps every node's update handlers.
pub(crate) proof fn lemma_same_content_handlers(g: &Graph, g0: &Graph)
    requires
        g.same_content(g0),
    ensures
        g.len() == g0.len(),
        forall|i: int| 0 <= i < g0.len() ==> #[trigger] g.nodes@[i].num_on_update_handlers
            <= g0.nodes@[i].num_on_update_handlers,
{
    assert forall|i: int| 0 <= i < g0.len() implies #[trigger] g.nodes@[i].num_on_update_handlers
        <= g0.nodes@[i].num_on_update_handlers by {
        assert(g.nodes@[i].kind == g0.nodes@[i].kind);
    }
}

/// A graph unhooked from `g0` keeps every node's update handlers.
pub(crate) proof fn lemma_unhooked_handlers(g: &Graph, g0: &Graph)
    requires
        g.unhooked_from(g0),
    ensures
        g.len() == g0.len(),
        forall|i: int| 0 <= i < g0.len() ==> #[trigger] g.nodes@[i].num_on_update_handlers
            == g0.nodes@[i].num_on_update_handlers,
{
    assert forall|i: int| 0 <= i < g0.len() implies #[trigger] g.nodes@[i].num_on_update_handlers
        == g0.nodes@[i].num_on_update_handlers by {
        assert(g.nodes@[i].kind == g0.nodes@[i].kind);
    }
}

impl Graph {
    /// No node reads the same input twice, and no node reads itself.
    pub open spec fn inputs_distinct(&self) -> bool {
        forall|p: int|
            0 <= p < self.len() ==> {
                &&& (#[trigger] self.children(p)).no_duplicates()
                &&& forall|ci: int| 0 <= ci < self.children(p).len() ==> self.children(p)[ci] != p
            }
    }

    /// Every needed node has a height.
    pub open spec fn necessary_placed(&self) -> bool {
        forall|i: int| 0 <= i < self.len() && #[trigger] self.spec_is_necessary(i) ==> self.height(i) >= 0
    }

    /// Only parent/child bookkeeping, heights and heap positions differ from `other`.
    pub open spec fn same_content(&self, other: &Graph) -> bool {
        &&& self.len() == other.len()
        &&& forall|i: int|
            0 <= i < self.len() ==> {
                let a = #[trigger] self.nodes@[i];
                let b = other.nodes@[i];
                &&& a.kind == b.kind
                &&& a.children@ == b.children@
                &&& a.rhs_nodes@ == b.rhs_nodes@
                &&& a.created_in == b.created_in
                &&& a.num_observers == b.num_observers
                &&& a.num_on_update_handlers == b.num_on_update_handlers
                &&& a.force_necessary == b.force_necessary
                &&& a.is_valid == b.is_valid
                &&& a.has_value == b.has_value
                &&& a.recomputed_at == b.recomputed_at
                &&& a.changed_at == b.changed_at
                &&& a.set_at == b.set_at
                &&& a.force_stale == b.force_stale
                &&& a.height_in_adjust_heights_heap == b.height_in_adjust_heights_heap
            }
    }

    /// Compared with `other`: nodes only lost parents, and every node whose height went
    /// is no longer needed and has height `-1`.
    pub open spec fn unhooked_from(&self, other: &Graph) -> bool {
        &&& self.same_content(other)
        &&& forall|i: int| 0 <= i < self.len() && #[trigger] self.spec_is_necessary(i) ==> other.spec_is_necessary(i)
        &&& forall|i: int|
            0 <= i < self.len() ==> #[trigger] self.height(i) == other.height(i) || (self.height(i) == -1
                && !self.spec_is_necessary(i))
        &&& forall|c: int, ci: int, p: int|
            0 <= p < self.len() && #[trigger] self.is_registered(c, ci, p) ==> other.is_registered(c, ci, p)
    }

    /// Node `p` is registered as a parent only if it is needed.
    pub open spec fn parent_fine(&self, p: int) -> bool {
        forall|c: int, ci: int| #[trigger] self.is_registered(c, ci, p) ==> self.spec_is_necessary(p)
    }

    /// Every node registered only as a needed parent in `other` still is.
    pub open spec fn fine_kept(&self, other: &Graph) -> bool {
        forall|p: int| 0 <= p < self.len() && #[trigger] other.parent_fine(p) ==> self.parent_fine(p)
    }

    /// Every node that left the recompute heap since `old_rch` is no longer needed.
    pub open spec fn left_heap_unneeded(&self, rch: &RecomputeHeap, old_rch: &RecomputeHeap) -> bool {
        forall|n: usize|
            #[trigger] old_rch@.contains_key(n) && !rch@.contains_key(n) ==> !self.spec_is_necessary(n as int)
    }

    /// The recompute heap only lost nodes compared with `old_rch`.
    pub open spec fn heap_shrunk(rch: &RecomputeHeap, old_rch: &RecomputeHeap) -> bool {
        &&& rch.max_allowed() == old_rch.max_allowed()
        &&& forall|n: usize| #[trigger] rch@.contains_key(n) ==> old_rch@.contains_key(n) && rch@[n] == old_rch@[n]
    }

    /// Node `node` is checked after losing a parent: if nothing needs it any more, it
    /// becomes unnecessary (see `became_unnecessary`); otherwise nothing changes.
    pub fn check_if_unnecessary(
        &mut self,
        rch: &mut RecomputeHeap,
        stats: &mut Stats,
        handle_after: &mut Vec<usize>,
        node: usize,
    )
        requires
            old(self).wf(),
            old(self).inputs_distinct(),
            old(self).necessary_placed(),
            node < old(self).len(),
            old(self).height(node as int) >= 0,
            old(rch).wf(),
            old(self).rch_consistent(old(rch)),
        ensures
            final(self).wf(),
            final(self).inputs_distinct(),
            final(self).necessary_placed(),
            final(self).unhooked_from(old(self)),
            count_placed(final(self), final(self).len()) <= count_placed(old(self), old(self).len()),
            final(rch).wf(),
            final(self).rch_consistent(final(rch)),
            Graph::heap_shrunk(final(rch), old(rch)),
            final(self).left_heap_unneeded(final(rch), old(rch)),
            final(self).fine_kept(old(self)),
            final(self).parent_fine(node as int),
            forall|c: int, ci: int, p: int|
                0 <= p < final(self).len() && #[trigger] old(self).is_registered(c, ci, p) && !final(self).is_registered(
                    c,
                    ci,
                    p,
                ) ==> !final(self).spec_is_necessary(p),
            old(self).spec_is_necessary(node as int) ==> *final(self) == *old(self) && final(rch)@ == old(rch)@,
            !old(self).spec_is_necessary(node as int) ==> {
                &&& final(self).height(node as int) == -1
                &&& forall|c: int, ci: int| !(#[trigger] final(self).is_registered(c, ci, node as int))
                &&& !final(rch)@.contains_key(node)
            },
            final(stats).link_counts_grown(*old(stats)),
            old(stats).became_necessary == final(stats).became_necessary,
            old(stats).invalidated == final(stats).invalidated,
            handle_after_grown(old(handle_after)@, final(handle_after)@, old(self)),
            !old(self).spec_is_necessary(node as int) && old(self).nodes@[node as int].num_on_update_handlers > 0
                ==> final(handle_after)@.contains(node),
        decreases count_placed(old(self), old(self).len()), 1nat,
    {
        if !self.is_necessary(node) {
            self.became_unnecessary(rch, stats, handle_after, node);
        } else {
            proof {
                lemma_unhook_same(self);
            }
        }
    }

    /// Node `node` is no longer needed: it loses its height, stops being a parent of its
    /// inputs (each input that is then no longer needed follows, recursively), and
    /// leaves the recompute heap. `stats` counts each node that became unnecessary, and
    /// each of them with update handlers goes on `handle_after`.
    pub fn became_unnecessary(
        &mut self,
        rch: &mut RecomputeHeap,
        stats: &mut Stats,
        handle_after: &mut Vec<usize>,
        node: usize,
    )
        requires
            old(self).wf(),
            old(self).inputs_distinct(),
            old(self).necessary_placed(),
            node < old(self).len(),
            !old(self).spec_is_necessary(node as int),
            old(self).height(node as int) >= 0,
            old(rch).wf(),
            old(self).rch_consistent(old(rch)),
        ensures
            final(self).wf(),
            final(self).inputs_distinct(),
            final(self).necessary_placed(),
            final(self).unhooked_from(old(self)),
            final(self).height(node as int) == -1,
            forall|c: int, ci: int| !(#[trigger] final(self).is_registered(c, ci, node as int)),
            count_placed(final(self), final(self).len()) < count_placed(old(self), old(self).len()),
            final(rch).wf(),
            final(self).rch_consistent(final(rch)),
            Graph::heap_shrunk(final(rch), old(rch)),
            final(self).left_heap_unneeded(final(rch), old(rch)),
            final(self).fine_kept(old(self)),
            final(self).parent_fine(node as int),
            forall|c: int, ci: int, p: int|
                0 <= p < final(self).len() && #[trigger] old(self).is_registered(c, ci, p) && !final(self).is_registered(
                    c,
                    ci,
                    p,
                ) ==> !final(self).spec_is_necessary(p),
            !final(rch)@.contains_key(node),
            final(stats).link_counts_grown(*old(stats)),
            old(stats).became_necessary == final(stats).became_necessary,
            old(stats).invalidated == final(stats).invalidated,
            handle_after_grown(old(handle_after)@, final(handle_after)@, old(self)),
            old(self).nodes@[node as int].num_on_update_handlers > 0 ==> final(handle_after)@.contains(node),
            old(stats).became_unnecessary < usize::MAX ==> old(stats).became_unnecessary
                < final(stats).became_unnecessary,
        decreases count_placed(old(self), old(self).len()), 0nat,
    {
        self.maybe_handle_after_stabilisation(handle_after, node);
        stats.count_became_unnecessary();
        let ghost h1 = handle_after@;
        let ghost g0 = *self;
        let h = self.nodes[node].height;
        self.nodes[node].old_height = h;
        self.nodes[node].height = -1;
        proof {
            lemma_unhook_refl(&g0, self, node as int);
            lemma_count_placed(&g0, self, g0.len(), node as int);
        }
        let ghost g1 = *self;
        self.remove_children(rch, stats, handle_after, node);
        proof {
            assert forall|i: int| 0 <= i < g0.len() implies #[trigger] g1.nodes@[i].num_on_update_handlers
                == g0.nodes@[i].num_on_update_handlers by {}
            lemma_handle_after_trans(old(handle_after)@, h1, handle_after@, &g0, &g1);
            lemma_unhook_trans(&g0, &g1, self);
            lemma_count_placed(&g1, self, g1.len(), node as int);
            lemma_fine_same(&g0, &g1);
            lemma_fine_trans(&g0, &g1, self);
        }
        if self.nodes[node].height_in_recompute_heap >= 0 {
            let hh = self.nodes[node].height_in_recompute_heap;
            let ghost gb = *self;
            let ghost rb = *rch;
            proof {
                assert(rch@.contains_key(node)) by {
                    rch.lemma_wf();
                    if !rch@.contains_key(node) {
                        assert(self.nodes@[node as int].height_in_recompute_heap == -1);
                    }
                }
            }
            rch.remove(node, hh);
            self.nodes[node].height_in_recompute_heap = -1;
            let total = self.nodes.len();
            proof {
                lemma_heap_field_only(&g0, &gb, self, node as int);
                lemma_fine_same(&gb, self);
                lemma_fine_trans(&g0, &gb, self);
                lemma_count_placed(&gb, self, gb.len(), node as int);
                assert forall|x: usize| #[trigger] rch@.contains_key(x) implies x < self.len() by {
                    assert(gb.len() == self.len());
                }
                assert forall|i: int| 0 <= i < self.len() implies #[trigger] self.nodes@[i].height_in_recompute_heap == (if rch@.contains_key(
                    i as usize,
                ) {
                    rch@[i as usize]
                } else {
                    -1
                }) by {
                    if i != node as int {
                        assert(self.nodes@[i] == gb.nodes@[i]);
                        assert(gb.nodes@[i].height_in_recompute_heap == (if rb@.contains_key(i as usize) {
                            rb@[i as usize]
                        } else {
                            -1
                        }));
                        assert(i < total);
                        assert(i as usize != node);
                    }
                }
            }
        } else {
            proof {
                rch.lemma_wf();
                if rch@.contains_key(node) {
                    assert(self.nodes@[node as int].height_in_recompute_heap == rch@[node]);
                }
            }
        }
        proof {
            assert forall|c: int, j: int| !(#[trigger] self.is_registered(c, j, node as int)) by {
                if self.is_registered(c, j, node as int) {
                    assert(self.parent_link_ok(node as int, j));
                }
            }
            assert forall|c: int, ci: int, p: int|
                0 <= p < self.len() && #[trigger] g0.is_registered(c, ci, p) && !self.is_registered(c, ci, p)
                    implies !self.spec_is_necessary(p) by {
                assert(g1.is_registered(c, ci, p) == g0.is_registered(c, ci, p));
                if p == node as int {
                    assert(!g0.spec_is_necessary(p));
                }
            }
        }
    }

    /// Node `node` stops being a parent of each of its inputs; each input that is then
    /// no longer needed becomes unnecessary in turn.
    pub fn remove_children(
        &mut self,
        rch: &mut RecomputeHeap,
        stats: &mut Stats,
        handle_after: &mut Vec<usize>,
        node: usize,
    )
        requires
            old(self).wf(),
            old(self).inputs_distinct(),
            old(self).necessary_placed(),
            node < old(self).len(),
            old(rch).wf(),
            old(self).rch_consistent(old(rch)),
        ensures
            final(self).wf(),
            final(self).inputs_distinct(),
            final(self).necessary_placed(),
            final(self).unhooked_from(old(self)),
            forall|c: int, ci: int|
                0 <= ci < final(self).children(node as int).len() ==> !(#[trigger] final(self).is_registered(
                    c,
                    ci,
                    node as int,
                )),
            count_placed(final(self), final(self).len()) <= count_placed(old(self), old(self).len()),
            final(rch).wf(),
            final(self).rch_consistent(final(rch)),
            Graph::heap_shrunk(final(rch), old(rch)),
            final(self).left_heap_unneeded(final(rch), old(rch)),
            final(self).fine_kept(old(self)),
            final(self).parent_fine(node as int),
            forall|c: int, ci: int, p: int|
                0 <= p < final(self).len() && #[trigger] old(self).is_registered(c, ci, p) && !final(self).is_registered(
                    c,
                    ci,
                    p,
                ) ==> p == node || !final(self).spec_is_necessary(p),
            final(stats).link_counts_grown(*old(stats)),
            old(stats).became_necessary == final(stats).became_necessary,
            old(stats).invalidated == final(stats).invalidated,
            handle_after_grown(old(handle_after)@, final(handle_after)@, old(self)),
        decreases count_placed(old(self), old(self).len()), 2nat,
    {
        let ghost g0 = *self;
        proof {
            lemma_unhook_same(self);
            lemma_count_placed(&g0, self, g0.len(), node as int);
        }
        let n = self.nodes[node].children.len();
        let mut ci: usize = 0;
        while ci < n
            invariant
                g0 == *old(self),
                node < g0.len(),
                self.wf(),
                self.inputs_distinct(),
                self.necessary_placed(),
                self.unhooked_from(&g0),
                n == self.children(node as int).len(),
                ci <= n,
                forall|c: int, j: int| 0 <= j < ci ==> !(#[trigger] self.is_registered(c, j, node as int)),
                count_placed(self, self.len()) <= count_placed(&g0, g0.len()),
                rch.wf(),
                self.rch_consistent(rch),
                Graph::heap_shrunk(rch, old(rch)),
                self.left_heap_unneeded(rch, old(rch)),
                g0.rch_consistent(old(rch)),
                self.fine_kept(&g0),
                forall|c: int, j: int, p: int|
                    0 <= p < self.len() && #[trigger] g0.is_registered(c, j, p) && !self.is_registered(c, j, p) ==> p
                        == node || !self.spec_is_necessary(p),
                stats.link_counts_grown(*old(stats)),
                old(stats).became_necessary == stats.became_necessary,
                old(stats).invalidated == stats.invalidated,
                handle_after_grown(old(handle_after)@, handle_after@, &g0),
            decreases n - ci,
        {
            let ghost gi = *self;
            if ci < self.nodes[node].my_parent_index_in_child_at_index.len()
                && self.nodes[node].my_parent_index_in_child_at_index[ci] >= 0 {
                let c = self.nodes[node].children[ci];
                proof {
                    lemma_remove_parent_ok(self, node as int, ci as int);
                }
                self.remove_parent(c, ci, node);
                proof {
                    lemma_after_remove_parent(&g0, &gi, self, node as int, ci as int, c as int);
                    lemma_count_placed(&gi, self, gi.len(), node as int);
                    lemma_fine_detached(&gi, self, c as int);
                }
                let ghost gr = *self;
                let ghost rr = *rch;
                proof {
                    assert(gi.parents(c as int).len() > 0) by {
                        assert(gi.parent_link_ok(node as int, ci as int));
                    }
                    assert(gi.spec_is_necessary(c as int));
                    assert(gi.height(c as int) >= 0);
                    assert(self.height(c as int) == gi.height(c as int));
                }
                let ghost hr = handle_after@;
                self.check_if_unnecessary(rch, stats, handle_after, c);
                proof {
                    lemma_unhooked_handlers(&gr, &g0);
                    lemma_handle_after_trans(old(handle_after)@, hr, handle_after@, &g0, &gr);
                    lemma_unhook_trans(&g0, &gr, self);
                    assert forall|cc: int, j: int, p: int|
                        0 <= p < self.len() && #[trigger] g0.is_registered(cc, j, p) && !self.is_registered(cc, j, p)
                            implies p == node || !self.spec_is_necessary(p) by {
                        if !gr.is_registered(cc, j, p) {
                            if gi.is_registered(cc, j, p) {
                                assert(cc == c && j == ci && p == node);
                            } else if p != node && self.spec_is_necessary(p) {
                                assert(gr.spec_is_necessary(p));
                                assert(gi.spec_is_necessary(p));
                            }
                        }
                    }
                    assert forall|p: int| 0 <= p < self.len() && #[trigger] g0.parent_fine(p) implies self.parent_fine(p) by {
                        assert(gi.parent_fine(p));
                        if p != c as int {
                            assert(gr.parent_fine(p));
                        }
                    }
                    assert forall|cc: int, j: int| 0 <= j < ci + 1 implies !(#[trigger] self.is_registered(
                        cc,
                        j,
                        node as int,
                    )) by {
                        if self.is_registered(cc, j, node as int) {
                            assert(gr.is_registered(cc, j, node as int));
                        }
                    }
                    assert forall|nn: usize| #[trigger] rch@.contains_key(nn) implies old(rch)@.contains_key(nn)
                        && rch@[nn] == old(rch)@[nn] by {
                        assert(rr@.contains_key(nn) && rch@[nn] == rr@[nn]);
                    }
                    assert forall|nn: usize|
                        #[trigger] old(rch)@.contains_key(nn) && !rch@.contains_key(nn) implies !self.spec_is_necessary(
                        nn as int,
                    ) by {
                        assert(nn < g0.len());
                        if rr@.contains_key(nn) {
                            assert(!self.spec_is_necessary(nn as int));
                        } else {
                            assert(!gi.spec_is_necessary(nn as int));
                            assert(!gr.spec_is_necessary(nn as int));
                        }
                    }
                }
            }
            ci = ci + 1;
        }
        proof {
            assert forall|c: int, j: int| #[trigger] self.is_registered(c, j, node as int) implies self.spec_is_necessary(
                node as int,
            ) by {
                assert(self.parent_link_ok(node as int, j));
            }
        }
    }
}

/// `x`, or `usize::MAX` where `x` is larger: where a saturating counter ends up.
pub open spec fn capped(x: int) -> int {
    if x < usize::MAX {
        x
    } else {
        usize::MAX as int
    }
}

/// The nodes needed in `g` that were not needed in `g0`.
pub open spec fn newly_needed(g0: &Graph, g: &Graph) -> Set<int> {
    Set::new(|i: int| 0 <= i < g.len() && g.spec_is_necessary(i) && !g0.spec_is_necessary(i))
}

/// There are finitely many newly needed nodes, at most one per node.
proof fn lemma_newly_bounded(g0: &Graph, g: &Graph)
    ensures
        newly_needed(g0, g).finite(),
        newly_needed(g0, g).len() <= g.len(),
{
    vstd::set_lib::lemma_int_range(0, g.len());
    assert(newly_needed(g0, g).subset_of(vstd::set_lib::set_int_range(0, g.len())));
    vstd::set_lib::lemma_len_subset(newly_needed(g0, g), vstd::set_lib::set_int_range(0, g.len()));
}

/// Nodes that became needed in two steps, where neededness only grows, are those of
/// the first step and those of the second.
proof fn lemma_newly_chain(g0: &Graph, g1: &Graph, g2: &Graph)
    requires
        g1.len() == g0.len(),
        g2.len() == g0.len(),
        forall|i: int| 0 <= i < g0.len() && #[trigger] g0.spec_is_necessary(i) ==> g1.spec_is_necessary(i),
        forall|i: int| 0 <= i < g0.len() && #[trigger] g1.spec_is_necessary(i) ==> g2.spec_is_necessary(i),
    ensures
        newly_needed(g0, g2).len() == newly_needed(g0, g1).len() + newly_needed(g1, g2).len(),
{
    lemma_newly_bounded(g0, g1);
    lemma_newly_bounded(g1, g2);
    assert(newly_needed(g0, g2) =~= newly_needed(g0, g1) + newly_needed(g1, g2));
    assert(newly_needed(g0, g1).disjoint(newly_needed(g1, g2)));
    vstd::set_lib::lemma_set_disjoint_lens(newly_needed(g0, g1), newly_needed(g1, g2));
}

/// Graphs that agree on neededness have the same newly needed nodes.
proof fn lemma_newly_same(g0: &Graph, g1: &Graph, g2: &Graph)
    requires
        g1.len() == g2.len(),
        forall|i: int| 0 <= i < g1.len() ==> #[trigger] g1.spec_is_necessary(i) == g2.spec_is_necessary(i),
    ensures
        newly_needed(g0, g2) == newly_needed(g0, g1),
{
    assert(newly_needed(g0, g2) =~= newly_needed(g0, g1));
}

/// A graph is unhooked from itself.
proof fn lemma_unhook_same(g: &Graph)
    ensures
        g.unhooked_from(g),
{
}

/// The link invariants read only the parent/child bookkeeping.
pub(crate) proof fn lemma_wf_same_links(g0: &Graph, g: &Graph)
    requires
        g0.wf(),
        g.len() == g0.len(),
        forall|i: int|
            0 <= i < g.len() ==> {
                &&& (#[trigger] g.nodes@[i]).parents@ == g0.nodes@[i].parents@
                &&& g.nodes@[i].children@ == g0.nodes@[i].children@
                &&& g.nodes@[i].my_parent_index_in_child_at_index@ == g0.nodes@[i].my_parent_index_in_child_at_index@
                &&& g.nodes@[i].my_child_index_in_parent_at_index@ == g0.nodes@[i].my_child_index_in_parent_at_index@
                &&& g.nodes@[i].rhs_nodes@ == g0.nodes@[i].rhs_nodes@
                &&& g.nodes@[i].created_in == g0.nodes@[i].created_in
            },
    ensures
        g.wf(),
        forall|c: int, ci: int, p: int| 0 <= p < g.len() ==> (#[trigger] g.is_registered(c, ci, p) == g0.is_registered(c, ci, p)),
{
    assert forall|i: int| 0 <= i < g0.len() implies {
        &&& (#[trigger] g0.nodes@[i]).parents@ == g.nodes@[i].parents@
        &&& g0.nodes@[i].children@ == g.nodes@[i].children@
        &&& g0.nodes@[i].rhs_nodes@ == g.nodes@[i].rhs_nodes@
        &&& g0.nodes@[i].created_in == g.nodes@[i].created_in
    } by {
        assert(g.nodes@[i].parents@ == g0.nodes@[i].parents@);
    }
    crate::graph::lemma_ids_ok_same_links(g0, g);
    assert forall|c: int, pi: int| 0 <= c < g.len() && 0 <= pi < g.parents(c).len() implies #[trigger] g.child_link_ok(c, pi) by {
        assert(g0.child_link_ok(c, pi));
        assert(g.nodes@[c].parents@ == g0.nodes@[c].parents@);
        let p = g0.parents(c)[pi] as int;
        assert(g0.parents(c)[pi] < g0.len());
        assert(g.nodes@[p].children@ == g0.nodes@[p].children@);
    }
    assert forall|p: int, ci: int|
        0 <= p < g.len() && 0 <= ci < g.mpi(p).len() && g.mpi(p)[ci] >= 0 implies #[trigger] g.parent_link_ok(p, ci) by {
        assert(g.nodes@[p].parents@ == g0.nodes@[p].parents@);
        assert(g0.parent_link_ok(p, ci));
        let c = g0.children(p)[ci] as int;
        assert(g0.children(p)[ci] < g0.len());
        assert(g.nodes@[c].parents@ == g0.nodes@[c].parents@);
    }
    assert forall|c: int, ci: int, p: int| 0 <= p < g.len() implies (#[trigger] g.is_registered(c, ci, p) == g0.is_registered(
        c,
        ci,
        p,
    )) by {
        assert(g.nodes@[p].parents@ == g0.nodes@[p].parents@);
    }
}

/// Giving an unneeded node height `-1` keeps every invariant.
proof fn lemma_unhook_refl(g0: &Graph, g: &Graph, node: int)
    requires
        g0.wf(),
        g0.inputs_distinct(),
        g0.necessary_placed(),
        0 <= node < g0.len(),
        !g0.spec_is_necessary(node),
        g.len() == g0.len(),
        forall|i: int| 0 <= i < g.len() && i != node ==> #[trigger] g.nodes@[i] == g0.nodes@[i],
        g.nodes@[node] == (crate::graph::Node { height: -1i32, old_height: g.nodes@[node].old_height, ..g0.nodes@[node] }),
    ensures
        g.wf(),
        g.inputs_distinct(),
        g.necessary_placed(),
        g.unhooked_from(g0),
        forall|i: int| 0 <= i < g.len() ==> #[trigger] g.height(i) == g0.height(i) || g.height(i) == -1,
        forall|c: int, ci: int, p: int| 0 <= p < g.len() ==> (#[trigger] g.is_registered(c, ci, p) == g0.is_registered(c, ci, p)),
        forall|i: int| 0 <= i < g.len() ==> #[trigger] g.spec_is_necessary(i) == g0.spec_is_necessary(i),
{
    assert forall|i: int| 0 <= i < g.len() implies {
        &&& (#[trigger] g.nodes@[i]).parents@ == g0.nodes@[i].parents@
        &&& g.nodes@[i].children@ == g0.nodes@[i].children@
        &&& g.nodes@[i].my_parent_index_in_child_at_index@ == g0.nodes@[i].my_parent_index_in_child_at_index@
        &&& g.nodes@[i].my_child_index_in_parent_at_index@ == g0.nodes@[i].my_child_index_in_parent_at_index@
        &&& g.nodes@[i].rhs_nodes@ == g0.nodes@[i].rhs_nodes@
        &&& g.nodes@[i].created_in == g0.nodes@[i].created_in
    } by {}
    lemma_wf_same_links(g0, g);
    assert forall|p: int| 0 <= p < g.len() implies {
        &&& (#[trigger] g.children(p)).no_duplicates()
        &&& forall|ci: int| 0 <= ci < g.children(p).len() ==> g.children(p)[ci] != p
    } by {
        assert(g.children(p) == g0.children(p));
        assert(g0.children(p).no_duplicates());
    }
    assert forall|i: int| 0 <= i < g.len() && #[trigger] g.spec_is_necessary(i) implies g.height(i) >= 0 by {
        assert(g.nodes@[i].parents@ == g0.nodes@[i].parents@);
        assert(g0.spec_is_necessary(i));
    }
    assert forall|i: int| 0 <= i < g.len() && #[trigger] g.spec_is_necessary(i) implies g0.spec_is_necessary(i) by {
        assert(g.nodes@[i].parents@ == g0.nodes@[i].parents@);
    }
    assert forall|i: int| 0 <= i < g.len() implies #[trigger] g.height(i) == g0.height(i) || (g.height(i) == -1
        && !g.spec_is_necessary(i)) by {
        assert(g.nodes@[i].parents@ == g0.nodes@[i].parents@);
    }
    assert forall|i: int| 0 <= i < g.len() implies #[trigger] g.spec_is_necessary(i) == g0.spec_is_necessary(i) by {
        assert(g.nodes@[i].parents@ == g0.nodes@[i].parents@);
    }
}

/// The conditions for detaching a registered input of a node that reads no input twice.
pub(crate) proof fn lemma_remove_parent_ok(g: &Graph, node: int, ci: int)
    requires
        g.wf(),
        g.inputs_distinct(),
        0 <= node < g.len(),
        0 <= ci < g.children(node).len(),
        ci < g.mpi(node).len(),
        g.mpi(node)[ci] >= 0,
    ensures
        ({
            let c = g.children(node)[ci] as int;
            let pi = g.mpi(node)[ci] as int;
            let last = g.parents(c).len() - 1;
            &&& 0 <= c < g.len()
            &&& c != node
            &&& g.is_registered(c, ci, node)
            &&& 0 <= pi <= last
            &&& g.parents(c)[pi] == node
            &&& (pi < last ==> g.parents(c)[last] != node && g.parents(c)[last] != c)
        }),
{
    let c = g.children(node)[ci] as int;
    let pi = g.mpi(node)[ci] as int;
    assert(g.children(node)[ci] < g.len());
    assert(g.parent_link_ok(node, ci));
    let last = g.parents(c).len() - 1;
    if pi < last {
        assert(g.child_link_ok(c, last));
        let p = g.parents(c)[last] as int;
        let cj = g.mci(c)[last] as int;
        assert(g.parents(c)[last] < g.len());
        if p == node {
            assert(g.children(node)[cj] == c);
            assert(g.children(node).no_duplicates());
            assert(cj == ci);
        }
        if p == c {
            assert(g.children(c)[cj] == c);
        }
    }
}

/// After detaching input `c` at child index `ci` of `node`, the invariants of the
/// unhooking hold again, one more child index done.
proof fn lemma_after_remove_parent(g0: &Graph, gi: &Graph, g: &Graph, node: int, ci: int, c: int)
    requires
        gi.wf(),
        gi.inputs_distinct(),
        gi.necessary_placed(),
        gi.unhooked_from(g0),
        0 <= node < gi.len(),
        0 <= ci < gi.children(node).len(),
        c == gi.children(node)[ci],
        gi.is_registered(c, ci, node),
        forall|cc: int, j: int| 0 <= j < ci ==> !(#[trigger] gi.is_registered(cc, j, node)),
        g.wf(),
        g.same_except_links(gi),
        forall|i: int| 0 <= i < g.len() && i != c ==> #[trigger] g.parents(i) == gi.parents(i),
        g.parents(c).len() == gi.parents(c).len() - 1,
        !g.is_registered(c, ci, node),
        forall|cc: int, cj: int, p: int|
            0 <= p < g.len() && (cc != c || cj != ci || p != node) ==> (#[trigger] g.is_registered(cc, cj, p)
                <==> gi.is_registered(cc, cj, p)),
    ensures
        g.inputs_distinct(),
        g.necessary_placed(),
        g.unhooked_from(g0),
        g.unhooked_from(gi),
        forall|cc: int, j: int| 0 <= j < ci + 1 ==> !(#[trigger] g.is_registered(cc, j, node)),
        forall|i: int| 0 <= i < g.len() ==> #[trigger] g.height(i) == gi.height(i),
        forall|i: int| 0 <= i < g.len() ==> #[trigger] g.nodes@[i].height_in_recompute_heap == gi.nodes@[i].height_in_recompute_heap,
{
    assert forall|i: int| 0 <= i < g.len() implies #[trigger] g.height(i) == gi.height(i) by {
        assert(g.nodes@[i].height == gi.nodes@[i].height);
    }
    assert forall|i: int| 0 <= i < g.len() implies #[trigger] g.nodes@[i].height_in_recompute_heap == gi.nodes@[i].height_in_recompute_heap by {}
    assert forall|p: int| 0 <= p < g.len() implies {
        &&& (#[trigger] g.children(p)).no_duplicates()
        &&& forall|cj: int| 0 <= cj < g.children(p).len() ==> g.children(p)[cj] != p
    } by {
        assert(g.children(p) == gi.children(p));
        assert(gi.children(p).no_duplicates());
    }
    assert forall|i: int| 0 <= i < g.len() && #[trigger] g.spec_is_necessary(i) implies gi.spec_is_necessary(i) by {
        if i != c {
            assert(g.parents(i) == gi.parents(i));
        }
        assert(g.nodes@[i].num_observers == gi.nodes@[i].num_observers);
        assert(g.nodes@[i].force_necessary == gi.nodes@[i].force_necessary);
    }
    assert forall|i: int| 0 <= i < g.len() && #[trigger] g.spec_is_necessary(i) implies g.height(i) >= 0 by {
        assert(gi.spec_is_necessary(i));
        assert(gi.height(i) >= 0);
    }
    assert(g.same_content(g0)) by {
        assert forall|i: int| 0 <= i < g.len() implies {
            let a = #[trigger] g.nodes@[i];
            let b = g0.nodes@[i];
            &&& a.kind == b.kind
            &&& a.children@ == b.children@
            &&& a.rhs_nodes@ == b.rhs_nodes@
            &&& a.created_in == b.created_in
            &&& a.num_observers == b.num_observers
            &&& a.num_on_update_handlers == b.num_on_update_handlers
            &&& a.force_necessary == b.force_necessary
            &&& a.is_valid == b.is_valid
            &&& a.has_value == b.has_value
            &&& a.recomputed_at == b.recomputed_at
            &&& a.changed_at == b.changed_at
            &&& a.set_at == b.set_at
            &&& a.force_stale == b.force_stale
            &&& a.height_in_adjust_heights_heap == b.height_in_adjust_heights_heap
        } by {
            assert(gi.nodes@[i].kind == g0.nodes@[i].kind);
        }
    }
    assert(g.same_content(gi)) by {
        assert forall|i: int| 0 <= i < g.len() implies {
            let a = #[trigger] g.nodes@[i];
            let b = gi.nodes@[i];
            &&& a.kind == b.kind
            &&& a.children@ == b.children@
            &&& a.rhs_nodes@ == b.rhs_nodes@
            &&& a.created_in == b.created_in
            &&& a.num_observers == b.num_observers
            &&& a.num_on_update_handlers == b.num_on_update_handlers
            &&& a.force_necessary == b.force_necessary
            &&& a.is_valid == b.is_valid
            &&& a.has_value == b.has_value
            &&& a.recomputed_at == b.recomputed_at
            &&& a.changed_at == b.changed_at
            &&& a.set_at == b.set_at
            &&& a.force_stale == b.force_stale
            &&& a.height_in_adjust_heights_heap == b.height_in_adjust_heights_heap
        } by {}
    }
    assert forall|i: int| 0 <= i < g.len() implies #[trigger] g.height(i) == g0.height(i) || (g.height(i) == -1
        && !g.spec_is_necessary(i)) by {
        assert(gi.height(i) == g0.height(i) || (gi.height(i) == -1 && !gi.spec_is_necessary(i)));
    }
    assert forall|i: int| 0 <= i < g.len() implies #[trigger] g.height(i) == gi.height(i) || (g.height(i) == -1
        && !g.spec_is_necessary(i)) by {}
    assert forall|cc: int, cj: int, p: int| 0 <= p < g.len() && #[trigger] g.is_registered(cc, cj, p) implies gi.is_registered(
        cc,
        cj,
        p,
    ) by {}
    assert forall|cc: int, cj: int, p: int| 0 <= p < g.len() && #[trigger] g.is_registered(cc, cj, p) implies g0.is_registered(
        cc,
        cj,
        p,
    ) by {
        assert(gi.is_registered(cc, cj, p));
    }
    assert forall|i: int| 0 <= i < g.len() && #[trigger] g.spec_is_necessary(i) implies g0.spec_is_necessary(i) by {
        assert(gi.spec_is_necessary(i));
    }
    assert forall|cc: int, j: int| 0 <= j < ci + 1 implies !(#[trigger] g.is_registered(cc, j, node)) by {
        if j < ci {
            if g.is_registered(cc, j, node) {
                assert(gi.is_registered(cc, j, node));
            }
        } else if g.is_registered(cc, j, node) {
            assert(g.children(node)[j] == cc);
            assert(g.children(node) == gi.children(node));
            assert(cc == c);
        }
    }
}

/// Unhooking chains.
proof fn lemma_unhook_trans(g0: &Graph, g1: &Graph, g2: &Graph)
    requires
        g1.unhooked_from(g0),
        g2.unhooked_from(g1),
    ensures
        g2.unhooked_from(g0),
{
    assert(g2.same_content(g0)) by {
        assert forall|i: int| 0 <= i < g2.len() implies {
            let a = #[trigger] g2.nodes@[i];
            let b = g0.nodes@[i];
            &&& a.kind == b.kind
            &&& a.children@ == b.children@
            &&& a.rhs_nodes@ == b.rhs_nodes@
            &&& a.created_in == b.created_in
            &&& a.num_observers == b.num_observers
            &&& a.num_on_update_handlers == b.num_on_update_handlers
            &&& a.force_necessary == b.force_necessary
            &&& a.is_valid == b.is_valid
            &&& a.has_value == b.has_value
            &&& a.recomputed_at == b.recomputed_at
            &&& a.changed_at == b.changed_at
            &&& a.set_at == b.set_at
            &&& a.force_stale == b.force_stale
            &&& a.height_in_adjust_heights_heap == b.height_in_adjust_heights_heap
        } by {
            assert(g1.nodes@[i].kind == g0.nodes@[i].kind);
            assert(g2.nodes@[i].kind == g1.nodes@[i].kind);
        }
    }
    assert forall|i: int| 0 <= i < g2.len() && #[trigger] g2.spec_is_necessary(i) implies g0.spec_is_necessary(i) by {
        assert(g1.spec_is_necessary(i));
    }
    assert forall|i: int| 0 <= i < g2.len() implies #[trigger] g2.height(i) == g0.height(i) || (g2.height(i) == -1
        && !g2.spec_is_necessary(i)) by {
        assert(g1.height(i) == g0.height(i) || (g1.height(i) == -1 && !g1.spec_is_necessary(i)));
        assert(g2.height(i) == g1.height(i) || (g2.height(i) == -1 && !g2.spec_is_necessary(i)));
        if g2.spec_is_necessary(i) {
            assert(g1.spec_is_necessary(i));
        }
    }
    assert forall|c: int, ci: int, p: int| 0 <= p < g2.len() && #[trigger] g2.is_registered(c, ci, p) implies g0.is_registered(
        c,
        ci,
        p,
    ) by {
        assert(g1.is_registered(c, ci, p));
    }
}

/// Leaving the recompute heap changes nothing but the node's recorded position.
proof fn lemma_heap_field_only(g0: &Graph, gb: &Graph, g: &Graph, node: int)
    requires
        gb.wf(),
        gb.inputs_distinct(),
        gb.necessary_placed(),
        gb.unhooked_from(g0),
        0 <= node < gb.len(),
        g.len() == gb.len(),
        forall|i: int| 0 <= i < g.len() && i != node ==> #[trigger] g.nodes@[i] == gb.nodes@[i],
        g.nodes@[node] == (crate::graph::Node { height_in_recompute_heap: -1i32, ..gb.nodes@[node] }),
    ensures
        g.wf(),
        g.inputs_distinct(),
        g.necessary_placed(),
        g.unhooked_from(g0),
        forall|i: int| 0 <= i < g.len() ==> #[trigger] g.height(i) == gb.height(i),
        forall|c: int, ci: int, p: int| 0 <= p < g.len() ==> (#[trigger] g.is_registered(c, ci, p) == gb.is_registered(c, ci, p)),
        forall|i: int| 0 <= i < g.len() ==> #[trigger] g.spec_is_necessary(i) == gb.spec_is_necessary(i),
{
    assert forall|i: int| 0 <= i < g.len() implies {
        &&& (#[trigger] g.nodes@[i]).parents@ == gb.nodes@[i].parents@
        &&& g.nodes@[i].children@ == gb.nodes@[i].children@
        &&& g.nodes@[i].my_parent_index_in_child_at_index@ == gb.nodes@[i].my_parent_index_in_child_at_index@
        &&& g.nodes@[i].my_child_index_in_parent_at_index@ == gb.nodes@[i].my_child_index_in_parent_at_index@
        &&& g.nodes@[i].rhs_nodes@ == gb.nodes@[i].rhs_nodes@
        &&& g.nodes@[i].created_in == gb.nodes@[i].created_in
    } by {}
    lemma_wf_same_links(gb, g);
    assert forall|i: int| 0 <= i < g.len() implies #[trigger] g.height(i) == gb.height(i) by {}
    assert forall|p: int| 0 <= p < g.len() implies {
        &&& (#[trigger] g.children(p)).no_duplicates()
        &&& forall|ci: int| 0 <= ci < g.children(p).len() ==> g.children(p)[ci] != p
    } by {
        assert(g.children(p) == gb.children(p));
        assert(gb.children(p).no_duplicates());
    }
    assert forall|i: int| 0 <= i < g.len() && #[trigger] g.spec_is_necessary(i) implies gb.spec_is_necessary(i) by {
        assert(g.nodes@[i].parents@ == gb.nodes@[i].parents@);
    }
    assert forall|i: int| 0 <= i < g.len() && #[trigger] g.spec_is_necessary(i) implies g.height(i) >= 0 by {
        assert(gb.spec_is_necessary(i));
    }
    assert(g.same_content(g0)) by {
        assert forall|i: int| 0 <= i < g.len() implies {
            let a = #[trigger] g.nodes@[i];
            let b = g0.nodes@[i];
            &&& a.kind == b.kind
            &&& a.children@ == b.children@
            &&& a.rhs_nodes@ == b.rhs_nodes@
            &&& a.created_in == b.created_in
            &&& a.num_observers == b.num_observers
            &&& a.num_on_update_handlers == b.num_on_update_handlers
            &&& a.force_necessary == b.force_necessary
            &&& a.is_valid == b.is_valid
            &&& a.has_value == b.has_value
            &&& a.recomputed_at == b.recomputed_at
            &&& a.changed_at == b.changed_at
            &&& a.set_at == b.set_at
            &&& a.force_stale == b.force_stale
            &&& a.height_in_adjust_heights_heap == b.height_in_adjust_heights_heap
        } by {
            assert(gb.nodes@[i].kind == g0.nodes@[i].kind);
        }
    }
    assert forall|i: int| 0 <= i < g.len() implies #[trigger] g.height(i) == g0.height(i) || (g.height(i) == -1
        && !g.spec_is_necessary(i)) by {
        assert(gb.height(i) == g0.height(i) || (gb.height(i) == -1 && !gb.spec_is_necessary(i)));
        assert(g.nodes@[i].parents@ == gb.nodes@[i].parents@);
    }
    assert forall|c: int, ci: int, p: int| 0 <= p < g.len() && #[trigger] g.is_registered(c, ci, p) implies g0.is_registered(
        c,
        ci,
        p,
    ) by {
        assert(gb.is_registered(c, ci, p));
    }
    assert forall|i: int| 0 <= i < g.len() && #[trigger] g.spec_is_necessary(i) implies g0.spec_is_necessary(i) by {
        assert(gb.spec_is_necessary(i));
    }
    assert forall|i: int| 0 <= i < g.len() implies #[trigger] g.spec_is_necessary(i) == gb.spec_is_necessary(i) by {
        assert(g.nodes@[i].parents@ == gb.nodes@[i].parents@);
    }
}


/// Number of nodes among the first `n` that nothing needs.
pub open spec fn count_unneeded(g: &Graph, n: int) -> nat
    decreases n,
{
    if n <= 0 {
        0
    } else {
        count_unneeded(g, n - 1) + (if g.spec_is_necessary(n - 1) {
            0nat
        } else {
            1nat
        })
    }
}

/// Neededness only spreading never adds unneeded nodes; a node that became needed
/// removes one.
proof fn lemma_count_unneeded(g1: &Graph, g2: &Graph, n: int, p: int)
    requires
        0 <= n <= g1.len(),
        g1.len() == g2.len(),
        forall|i: int| 0 <= i < g1.len() && #[trigger] g1.spec_is_necessary(i) ==> g2.spec_is_necessary(i),
    ensures
        count_unneeded(g2, n) <= count_unneeded(g1, n),
        0 <= p < n && !g1.spec_is_necessary(p) && g2.spec_is_necessary(p) ==> count_unneeded(g2, n)
            < count_unneeded(g1, n),
    decreases n,
{
    if n > 0 {
        lemma_count_unneeded(g1, g2, n - 1, p);
        assert(g1.spec_is_necessary(n - 1) ==> g2.spec_is_necessary(n - 1));
    }
}

impl Graph {
    /// Every needed node but `x` has a height.
    pub open spec fn necessary_placed_except(&self, x: int) -> bool {
        forall|i: int| 0 <= i < self.len() && i != x && #[trigger] self.spec_is_necessary(i) ==> self.height(i) >= 0
    }

    /// Node `n` cannot take its place in the graph: it is valid while the scope it was
    /// created in is not needed; the height just above its scope, or above one of its
    /// inputs, would exceed `max`; one of its inputs has as many parents, or it has as
    /// many inputs, as an index can count; or it is stale and waits outside the
    /// recompute heap with a height that the heap cannot hold.
    pub open spec fn attach_blocked_at(&self, n: int, max: int, rch: &RecomputeHeap) -> bool {
        ||| (self.nodes@[n].is_valid && match self.nodes@[n].created_in {
            Some(sc) => !self.spec_is_necessary(sc as int),
            None => false,
        })
        ||| self.scope_height(n) >= max
        ||| exists|ci: int|
            0 <= ci < self.children(n).len() && self.height(#[trigger] self.children(n)[ci] as int) >= max
        ||| exists|ci: int|
            0 <= ci < self.children(n).len() && (self.parents(#[trigger] self.children(n)[ci] as int).len()
                >= 0x7fff_ffff || ci >= 0x7fff_ffff)
        ||| (self.spec_is_stale(n) && !rch@.contains_key(n as usize) && self.height(n) > rch.max_allowed())
    }

    /// Some needed node cannot take its place in the graph (see `attach_blocked_at`).
    pub open spec fn attach_blocked(&self, max: int, rch: &RecomputeHeap) -> bool {
        exists|n: int| 0 <= n < self.len() && self.spec_is_necessary(n) && #[trigger] self.attach_blocked_at(n, max, rch)
    }

    /// Only needed nodes are registered as parents.
    pub open spec fn parents_needed(&self) -> bool {
        forall|c: int, ci: int, p: int|
            0 <= p < self.len() && #[trigger] self.is_registered(c, ci, p) ==> self.spec_is_necessary(p)
    }

    /// The recompute heap only gained nodes compared with `old_rch`.
    pub open spec fn heap_grown(rch: &RecomputeHeap, old_rch: &RecomputeHeap) -> bool {
        &&& rch.max_allowed() == old_rch.max_allowed()
        &&& forall|n: usize| #[trigger] old_rch@.contains_key(n) ==> rch@.contains_key(n) && rch@[n] == old_rch@[n]
    }

    /// Compared with `other`: the same nodes with the same contents; parent
    /// registrations and neededness only spread; a node that was needed kept its height,
    /// except possibly `x`.
    pub open spec fn attached_from(&self, other: &Graph, x: int) -> bool {
        &&& self.same_content(other)
        &&& forall|c: int, ci: int, p: int|
            0 <= p < self.len() && #[trigger] other.is_registered(c, ci, p) ==> self.is_registered(c, ci, p)
        &&& forall|i: int| 0 <= i < self.len() && #[trigger] other.spec_is_necessary(i) ==> self.spec_is_necessary(i)
        &&& forall|i: int|
            0 <= i < self.len() && i != x && other.spec_is_necessary(i) ==> #[trigger] self.height(i) == other.height(i)
    }

    /// Node `node`, newly needed, takes its place in the graph: it gets a height above
    /// the scope it was created in, registers as a parent with each of its inputs (each
    /// input that was not needed before becomes needed in turn, and each invalid input
    /// puts `node` on `stack` for `propagate_invalidity`), rises above all its inputs, and
    /// is queued for recomputation exactly if it is stale. `stats` counts it and every
    /// node that became needed with it, and each of them with update handlers goes on
    /// `handle_after`. A valid node can only become needed while the
    /// scope it was created in is needed. `false` comes back, with the work stopped
    /// part-way, where an input that becomes needed with it is valid while its own scope
    /// is not needed, where a height would exceed the allowed maximum or not fit the
    /// recompute heap, or where a node would get more parents or inputs than an index can
    /// count.
    pub fn became_necessary(
        &mut self,
        ahh: &mut AdjustHeightsHeap,
        rch: &mut RecomputeHeap,
        stack: &mut Vec<usize>,
        stats: &mut Stats,
        handle_after: &mut Vec<usize>,
        node: usize,
    ) -> (ok: bool)
        requires
            old(self).nodes@[node as int].is_valid ==> match old(self).nodes@[node as int].created_in {
                Some(sc) => sc < old(self).len() && old(self).spec_is_necessary(sc as int),
                None => true,
            },
            old(self).wf(),
            old(self).inputs_distinct(),
            old(self).necessary_placed_except(node as int),
            old(self).parents_needed(),
            old(self).heights_within(old(ahh).max_allowed()),
            node < old(self).len(),
            old(self).spec_is_necessary(node as int),
            forall|c: int, ci: int| !(#[trigger] old(self).is_registered(c, ci, node as int)),
            old(rch).wf(),
            old(self).rch_consistent(old(rch)),
            old(ahh).wf(),
            stack_ok(old(stack)@, old(self)),
        ensures
            final(self).wf(),
            final(self).inputs_distinct(),
            final(self).parents_needed(),
            final(self).heights_within(final(ahh).max_allowed()),
            final(self).attached_from(old(self), node as int),
            ok ==> final(self).necessary_placed(),
            forall|c: int, ci: int, p: int|
                0 <= p < final(self).len() && #[trigger] final(self).is_registered(c, ci, p) && !old(self).is_registered(
                    c,
                    ci,
                    p,
                ) ==> p == node || !old(self).spec_is_necessary(p),
            final(rch).wf(),
            final(self).rch_consistent(final(rch)),
            Graph::heap_grown(final(rch), old(rch)),
            final(ahh).wf(),
            final(ahh)@ == old(ahh)@,
            final(ahh).max_allowed() == old(ahh).max_allowed(),
            final(ahh).lower_bound() == old(ahh).lower_bound(),
            stack_ok(final(stack)@, final(self)),
            old(stack)@.len() <= final(stack)@.len(),
            final(stack)@.subrange(0, old(stack)@.len() as int) == old(stack)@,
            ok ==> forall|ci: int|
                0 <= ci < final(self).children(node as int).len() ==> #[trigger] final(self).is_registered(
                    final(self).children(node as int)[ci] as int,
                    ci,
                    node as int,
                ),
            ok ==> forall|ci: int|
                0 <= ci < final(self).children(node as int).len() ==> final(self).height(
                    #[trigger] final(self).children(node as int)[ci] as int,
                ) < final(self).height(node as int),
            ok ==> final(self).height(node as int) > old(self).scope_height(node as int),
            ok && old(self).spec_is_stale(node as int) ==> final(rch)@.contains_key(node),
            ok ==> (final(rch)@.contains_key(node) <==> (old(rch)@.contains_key(node) || old(self).spec_is_stale(
                node as int,
            ))),
            forall|m: usize|
                #[trigger] final(rch)@.contains_key(m) && !old(rch)@.contains_key(m) ==> m == node
                    || !old(self).spec_is_necessary(m as int),
            !ok ==> final(self).attach_blocked(final(ahh).max_allowed(), final(rch)),
            *final(stats) == (Stats { became_necessary: final(stats).became_necessary, ..*old(stats) }),
            old(stats).became_necessary <= final(stats).became_necessary,
            ok && old(stats).became_necessary < usize::MAX ==> old(stats).became_necessary < final(stats).became_necessary,
            ok ==> final(stats).became_necessary == capped(
                old(stats).became_necessary + 1 + newly_needed(old(self), final(self)).len(),
            ),
            handle_after_grown(old(handle_after)@, final(handle_after)@, old(self)),
            ok && old(self).nodes@[node as int].num_on_update_handlers > 0 ==> final(handle_after)@.contains(node),
    {
        self.attach_needed(ahh, rch, stack, stats, handle_after, node)
    }

    /// Node `node`, newly needed, takes its place in the graph, as
    /// [`Self::became_necessary`] says; a valid node whose scope is not needed is
    /// refused with `false` here, as is any input below it in that case.
    pub(crate) fn attach_needed(
        &mut self,
        ahh: &mut AdjustHeightsHeap,
        rch: &mut RecomputeHeap,
        stack: &mut Vec<usize>,
        stats: &mut Stats,
        handle_after: &mut Vec<usize>,
        node: usize,
    ) -> (ok: bool)
        requires
            old(self).wf(),
            old(self).inputs_distinct(),
            old(self).necessary_placed_except(node as int),
            old(self).parents_needed(),
            old(self).heights_within(old(ahh).max_allowed()),
            node < old(self).len(),
            old(self).spec_is_necessary(node as int),
            forall|c: int, ci: int| !(#[trigger] old(self).is_registered(c, ci, node as int)),
            old(rch).wf(),
            old(self).rch_consistent(old(rch)),
            old(ahh).wf(),
            stack_ok(old(stack)@, old(self)),
        ensures
            final(self).wf(),
            final(self).inputs_distinct(),
            final(self).parents_needed(),
            final(self).heights_within(final(ahh).max_allowed()),
            final(self).attached_from(old(self), node as int),
            ok ==> final(self).necessary_placed(),
            forall|c: int, ci: int, p: int|
                0 <= p < final(self).len() && #[trigger] final(self).is_registered(c, ci, p) && !old(self).is_registered(
                    c,
                    ci,
                    p,
                ) ==> p == node || !old(self).spec_is_necessary(p),
            final(rch).wf(),
            final(self).rch_consistent(final(rch)),
            Graph::heap_grown(final(rch), old(rch)),
            final(ahh).wf(),
            final(ahh)@ == old(ahh)@,
            final(ahh).max_allowed() == old(ahh).max_allowed(),
            final(ahh).lower_bound() == old(ahh).lower_bound(),
            stack_ok(final(stack)@, final(self)),
            old(stack)@.len() <= final(stack)@.len(),
            final(stack)@.subrange(0, old(stack)@.len() as int) == old(stack)@,
            ok ==> forall|ci: int|
                0 <= ci < final(self).children(node as int).len() ==> #[trigger] final(self).is_registered(
                    final(self).children(node as int)[ci] as int,
                    ci,
                    node as int,
                ),
            ok ==> forall|ci: int|
                0 <= ci < final(self).children(node as int).len() ==> final(self).height(
                    #[trigger] final(self).children(node as int)[ci] as int,
                ) < final(self).height(node as int),
            ok ==> final(self).height(node as int) > old(self).scope_height(node as int),
            ok && old(self).spec_is_stale(node as int) ==> final(rch)@.contains_key(node),
            ok ==> (final(rch)@.contains_key(node) <==> (old(rch)@.contains_key(node) || old(self).spec_is_stale(
                node as int,
            ))),
            forall|m: usize|
                #[trigger] final(rch)@.contains_key(m) && !old(rch)@.contains_key(m) ==> m == node
                    || !old(self).spec_is_necessary(m as int),
            !ok ==> final(self).attach_blocked(final(ahh).max_allowed(), final(rch)),
            *final(stats) == (Stats { became_necessary: final(stats).became_necessary, ..*old(stats) }),
            old(stats).became_necessary <= final(stats).became_necessary,
            ok && old(stats).became_necessary < usize::MAX ==> old(stats).became_necessary < final(stats).became_necessary,
            ok ==> final(stats).became_necessary == capped(
                old(stats).became_necessary + 1 + newly_needed(old(self), final(self)).len(),
            ),
            handle_after_grown(old(handle_after)@, final(handle_after)@, old(self)),
            ok && old(self).nodes@[node as int].num_on_update_handlers > 0 ==> final(handle_after)@.contains(node),
        decreases count_unneeded(old(self), old(self).len()), 1nat,
    {
        let ghost g0 = *self;
        if self.nodes[node].is_valid {
            match self.nodes[node].created_in {
                Some(sc) => {
                    proof {
                        assert(match g0.nodes@[node as int].created_in {
                            Some(s) => s < g0.len(),
                            None => true,
                        });
                    }
                    if !self.is_necessary(sc) {
                        proof {
                            lemma_attached_refl(self, node as int);
                            assert(self.attach_blocked_at(node as int, ahh.max_allowed(), rch));
                        }
                        return false;
                    }
                },
                None => {},
            }
        }
        stats.count_became_necessary();
        self.maybe_handle_after_stabilisation(handle_after, node);
        let sh = self.created_in_height(node);
        if sh >= ahh.max_height_allowed() {
            proof {
                lemma_attached_refl(self, node as int);
                assert(self.attach_blocked_at(node as int, ahh.max_allowed(), rch));
            }
            return false;
        }
        proof {
            assert(sh >= -1) by {
                match self.nodes@[node as int].created_in {
                    Some(sc) => {
                        assert(sc < self.len());
                        assert(-1 <= self.height(sc as int));
                    },
                    None => {},
                }
            }
        }
        let mut h: i32 = sh + 1;
        let ghost mut hw: int = -1;
        let set = ahh.set_height(self, node, h);
        proof {
            assert(set);
            lemma_height_set(&g0, self, old(rch), node as int);
            lemma_count_unneeded(&g0, self, g0.len(), 0);
            ahh.lemma_wf();
        }
        proof {
            assert(newly_needed(&g0, self) =~= Set::empty());
        }
        let n = self.nodes[node].children.len();
        let mut ci: usize = 0;
        while ci < n
            invariant
                g0 == *old(self),
                node < self.len(),
                n == self.children(node as int).len(),
                ci <= n,
                0 <= h <= ahh.max_allowed() + 1,
                h > g0.scope_height(node as int),
                self.height(node as int) == sh + 1,
                sh == g0.scope_height(node as int),
                g0.spec_is_necessary(node as int),
                self.spec_is_necessary(node as int),
                count_unneeded(self, self.len()) <= count_unneeded(&g0, g0.len()),
                forall|c: int, j: int, p: int|
                    0 <= p < self.len() && #[trigger] self.is_registered(c, j, p) && !g0.is_registered(c, j, p) ==> p
                        == node || !g0.spec_is_necessary(p),
                self.wf(),
                self.inputs_distinct(),
                self.necessary_placed(),
                self.parents_needed(),
                self.heights_within(ahh.max_allowed()),
                self.attached_from(&g0, node as int),
                forall|j: int| 0 <= j < ci ==> #[trigger] self.is_registered(self.children(node as int)[j] as int, j, node as int),
                forall|j: int| 0 <= j < ci ==> self.height(#[trigger] self.children(node as int)[j] as int) < h,
                forall|c: int, j: int| ci <= j ==> !(#[trigger] self.is_registered(c, j, node as int)),
                hw == -1 ==> h == sh + 1,
                hw != -1 ==> 0 <= hw < ci && h == self.height(self.children(node as int)[hw] as int) + 1,
                rch.wf(),
                self.rch_consistent(rch),
                Graph::heap_grown(rch, old(rch)),
                ahh.wf(),
                ahh@ == old(ahh)@,
                ahh.max_allowed() == old(ahh).max_allowed(),
                ahh.lower_bound() == old(ahh).lower_bound(),
                stack_ok(stack@, self),
                old(stack)@.len() <= stack@.len(),
                stack@.subrange(0, old(stack)@.len() as int) == old(stack)@,
                forall|m: usize| #[trigger] rch@.contains_key(m) && !old(rch)@.contains_key(m) ==> !g0.spec_is_necessary(
                    m as int,
                ),
                *stats == (Stats { became_necessary: stats.became_necessary, ..*old(stats) }),
                old(stats).became_necessary <= stats.became_necessary,
                old(stats).became_necessary < usize::MAX ==> old(stats).became_necessary < stats.became_necessary,
                stats.became_necessary == capped(old(stats).became_necessary + 1 + newly_needed(&g0, self).len()),
                handle_after_grown(old(handle_after)@, handle_after@, &g0),
                g0.nodes@[node as int].num_on_update_handlers > 0 ==> handle_after@.contains(node),
            decreases n - ci,
        {
            let c = self.nodes[node].children[ci];
            proof {
                assert(self.children(node as int)[ci as int] < self.len());
                assert(self.children(node as int)[ci as int] != node);
            }
            if self.nodes[c].parents.len() >= 0x7fff_ffff || ci >= 0x7fff_ffff {
                proof {
                    lemma_attached_trans(&g0, &g0, self, node as int);
                    assert(self.attach_blocked_at(node as int, ahh.max_allowed(), rch)) by {
                        assert(self.parents(self.children(node as int)[ci as int] as int).len() >= 0x7fff_ffff
                            || ci >= 0x7fff_ffff);
                    }
                }
                return false;
            }
            let ghost gk = *self;
            let ghost rk = *rch;
            let ghost sk = stack@;
            let ghost stk = *stats;
            let ghost hi = handle_after@;
            let ghost gi = *self;
            let okc = self.add_parent_without_adjusting_heights(ahh, rch, stack, stats, handle_after, c, ci, node);
            proof {
                lemma_same_content_handlers(&gi, &g0);
                lemma_handle_after_trans(old(handle_after)@, hi, handle_after@, &g0, &gi);
            }
            proof {
                lemma_attached_trans(&g0, &gk, self, node as int);
                lemma_count_unneeded(&g0, self, g0.len(), 0);
                assert forall|c2: int, j: int, p: int|
                    0 <= p < self.len() && #[trigger] self.is_registered(c2, j, p) && !g0.is_registered(c2, j, p) implies p
                        == node || !g0.spec_is_necessary(p) by {
                    if !gk.is_registered(c2, j, p) {
                        if p != node {
                            assert(!gk.spec_is_necessary(p));
                        }
                    }
                }
                assert(stack@.subrange(0, old(stack)@.len() as int) =~= old(stack)@) by {
                    assert forall|j: int| 0 <= j < old(stack)@.len() implies stack@[j] == old(stack)@[j] by {
                        assert(stack@.subrange(0, sk.len() as int)[j] == sk[j]);
                        assert(sk.subrange(0, old(stack)@.len() as int)[j] == old(stack)@[j]);
                    }
                }
                assert forall|nn: usize| #[trigger] old(rch)@.contains_key(nn) implies rch@.contains_key(nn) && rch@[nn]
                    == old(rch)@[nn] by {
                    assert(rk@.contains_key(nn));
                }
                assert(gk.spec_is_necessary(node as int));
                assert(self.height(node as int) == gk.height(node as int));
                assert forall|m: usize| #[trigger] rch@.contains_key(m) && !old(rch)@.contains_key(m) implies !g0.spec_is_necessary(
                    m as int,
                ) by {
                    if !rk@.contains_key(m) {
                        assert(!gk.spec_is_necessary(m as int));
                        assert(m < self.len());
                    }
                }
                assert forall|j: int| 0 <= j < ci implies #[trigger] self.is_registered(self.children(node as int)[j] as int, j, node as int) by {
                    assert(gk.is_registered(gk.children(node as int)[j] as int, j, node as int));
                    assert(gk.children(node as int) == self.children(node as int));
                }
                assert forall|j: int| 0 <= j < ci implies self.height(#[trigger] self.children(node as int)[j] as int) < h by {
                    let cj = gk.children(node as int)[j] as int;
                    assert(gk.is_registered(cj, j, node as int));
                    assert(gk.children(node as int)[j] < gk.len());
                    assert(gk.parent_link_ok(node as int, j));
                    assert(gk.parents(cj).len() > 0);
                    assert(gk.spec_is_necessary(cj));
                    assert(self.height(cj) == gk.height(cj));
                    assert(gk.children(node as int) == self.children(node as int));
                }
                if hw != -1 {
                    let cw = gk.children(node as int)[hw] as int;
                    assert(gk.is_registered(cw, hw, node as int));
                    assert(gk.children(node as int)[hw] < gk.len());
                    assert(gk.parent_link_ok(node as int, hw));
                    assert(gk.spec_is_necessary(cw));
                    assert(self.height(cw) == gk.height(cw));
                    assert(gk.children(node as int) == self.children(node as int));
                }
            }
            if !okc {
                return false;
            }
            proof {
                lemma_newly_chain(&g0, &gk, self);
                lemma_newly_bounded(&g0, &gk);
                lemma_newly_bounded(&gk, self);
            }
            let hc = self.nodes[c].height;
            proof {
                assert(-1 <= self.height(c as int) <= ahh.max_allowed());
                ahh.lemma_wf();
            }
            if hc >= h {
                h = hc + 1;
                proof {
                    hw = ci as int;
                }
            }
            ci = ci + 1;
            proof {
                assert forall|c2: int, j: int| ci <= j implies !(#[trigger] self.is_registered(c2, j, node as int)) by {
                    if self.is_registered(c2, j, node as int) {
                        assert(gk.is_registered(c2, j, node as int) || (c2 == c as int && j == ci - 1));
                    }
                }
            }
        }
        let ghost gl = *self;
        let set2 = ahh.set_height(self, node, h);
        if !set2 {
            proof {
                lemma_attached_trans(&g0, &g0, self, node as int);
                assert(hw != -1);
                assert(self.attach_blocked_at(node as int, ahh.max_allowed(), rch)) by {
                    assert(self.height(self.children(node as int)[hw] as int) >= ahh.max_allowed());
                }
            }
            return false;
        }
        proof {
            lemma_height_set(&gl, self, rch, node as int);
            lemma_attached_trans(&g0, &gl, self, node as int);
            assert forall|c2: int, j: int, p: int|
                0 <= p < self.len() && #[trigger] self.is_registered(c2, j, p) && !g0.is_registered(c2, j, p) implies p
                    == node || !g0.spec_is_necessary(p) by {
                assert(gl.is_registered(c2, j, p));
            }
            assert forall|j: int| 0 <= j < n implies self.height(#[trigger] self.children(node as int)[j] as int) < self.height(
                node as int,
            ) by {
                assert(gl.children(node as int)[j] != node);
                assert(gl.children(node as int)[j] < gl.len());
                assert(self.height(gl.children(node as int)[j] as int) == gl.height(gl.children(node as int)[j] as int));
            }
            assert forall|j: int| 0 <= j < n implies #[trigger] self.is_registered(self.children(node as int)[j] as int, j, node as int) by {
                assert(gl.is_registered(gl.children(node as int)[j] as int, j, node as int));
            }
        }
        proof {
            lemma_stale_same(&g0, self, node as int);
        }
        if self.is_stale(node) && self.nodes[node].height_in_recompute_heap < 0 {
            if h > rch.max_height_allowed() {
                proof {
                    rch.lemma_wf();
                    if rch@.contains_key(node) {
                        assert(self.nodes@[node as int].height_in_recompute_heap == rch@[node]);
                    }
                    assert(self.attach_blocked_at(node as int, ahh.max_allowed(), rch));
                }
                return false;
            }
            let ghost gb = *self;
            let ghost rb = *rch;
            proof {
                rch.lemma_wf();
                if rch@.contains_key(node) {
                    assert(self.nodes@[node as int].height_in_recompute_heap == rch@[node]);
                }
                assert(self.nodes.len() == self.nodes@.len());
                assert forall|x: usize| #[trigger] rch@.dom().contains(x) implies x < self.nodes.len() by {
                    assert(rch@.contains_key(x));
                }
                lemma_indices_below(rch@.dom(), self.nodes.len(), node);
            }
            rch.insert(node, h);
            self.nodes[node].height_in_recompute_heap = h;
            proof {
                lemma_slot_filled(&gb, self, &rb, rch, node as int);
                lemma_attached_trans(&g0, &gb, self, node as int);
                assert forall|c2: int, j: int, p: int|
                    0 <= p < self.len() && #[trigger] self.is_registered(c2, j, p) && !g0.is_registered(c2, j, p) implies p
                        == node || !g0.spec_is_necessary(p) by {
                    assert(gb.is_registered(c2, j, p));
                }
                assert forall|nn: usize| #[trigger] old(rch)@.contains_key(nn) implies rch@.contains_key(nn) && rch@[nn]
                    == old(rch)@[nn] by {
                    assert(rb@.contains_key(nn));
                    assert(nn != node);
                }
            }
        }
        proof {
            assert forall|ii: int| 0 <= ii < self.len() implies #[trigger] self.spec_is_necessary(ii) == gl.spec_is_necessary(ii) by {
                assert(self.nodes@[ii].parents@ == gl.nodes@[ii].parents@);
                assert(self.nodes@[ii].num_observers == gl.nodes@[ii].num_observers);
                assert(self.nodes@[ii].force_necessary == gl.nodes@[ii].force_necessary);
            }
            lemma_newly_same(&g0, &gl, self);
        }
        proof {
            if g0.spec_is_stale(node as int) {
                assert(self.nodes@[node as int].height_in_recompute_heap >= 0);
                assert(node < self.len());
                assert(self.nodes@[node as int].height_in_recompute_heap == (if rch@.contains_key((node as int) as usize) {
                    rch@[(node as int) as usize]
                } else {
                    -1
                }));
            }
        }
        true
    }

    /// `parent`, which is needed, starts reading `child` at child index `child_index`.
    /// A child that was not needed before becomes needed (see `became_necessary`); an
    /// invalid child puts `parent` on `stack` for `propagate_invalidity`. Heights are
    /// not adjusted. `stats` counts the nodes that became needed. `false` comes back as
    /// `became_necessary` says.
    pub fn add_parent_without_adjusting_heights(
        &mut self,
        ahh: &mut AdjustHeightsHeap,
        rch: &mut RecomputeHeap,
        stack: &mut Vec<usize>,
        stats: &mut Stats,
        handle_after: &mut Vec<usize>,
        child: usize,
        child_index: usize,
        parent: usize,
    ) -> (ok: bool)
        requires
            old(self).wf(),
            old(self).inputs_distinct(),
            old(self).necessary_placed(),
            old(self).parents_needed(),
            old(self).heights_within(old(ahh).max_allowed()),
            child < old(self).len(),
            parent < old(self).len(),
            child != parent,
            child_index < old(self).children(parent as int).len(),
            old(self).children(parent as int)[child_index as int] == child,
            !old(self).is_registered(child as int, child_index as int, parent as int),
            old(self).spec_is_necessary(parent as int),
            old(self).parents(child as int).len() < i32::MAX,
            child_index < i32::MAX,
            old(rch).wf(),
            old(self).rch_consistent(old(rch)),
            old(ahh).wf(),
            stack_ok(old(stack)@, old(self)),
        ensures
            final(self).wf(),
            final(self).inputs_distinct(),
            final(self).parents_needed(),
            final(self).heights_within(final(ahh).max_allowed()),
            final(self).attached_from(old(self), child as int),
            old(self).spec_is_necessary(child as int) ==> final(self).height(child as int) == old(self).height(
                child as int,
            ),
            final(self).is_registered(child as int, child_index as int, parent as int),
            forall|c: int, ci: int|
                #[trigger] final(self).is_registered(c, ci, parent as int) ==> old(self).is_registered(c, ci, parent as int)
                    || (c == child && ci == child_index),
            ok ==> final(self).necessary_placed(),
            forall|c: int, ci: int, p: int|
                0 <= p < final(self).len() && #[trigger] final(self).is_registered(c, ci, p) && !old(self).is_registered(
                    c,
                    ci,
                    p,
                ) ==> (c == child && ci == child_index && p == parent) || !old(self).spec_is_necessary(p),
            final(rch).wf(),
            final(self).rch_consistent(final(rch)),
            Graph::heap_grown(final(rch), old(rch)),
            final(ahh).wf(),
            final(ahh)@ == old(ahh)@,
            final(ahh).max_allowed() == old(ahh).max_allowed(),
            final(ahh).lower_bound() == old(ahh).lower_bound(),
            stack_ok(final(stack)@, final(self)),
            old(stack)@.len() <= final(stack)@.len(),
            final(stack)@.subrange(0, old(stack)@.len() as int) == old(stack)@,
            !old(self).nodes@[child as int].is_valid ==> final(stack)@[old(stack)@.len() as int] == parent,
            forall|m: usize|
                #[trigger] final(rch)@.contains_key(m) && !old(rch)@.contains_key(m) ==> !old(self).spec_is_necessary(
                    m as int,
                ),
            !ok ==> final(self).attach_blocked(final(ahh).max_allowed(), final(rch)),
            *final(stats) == (Stats { became_necessary: final(stats).became_necessary, ..*old(stats) }),
            old(stats).became_necessary <= final(stats).became_necessary,
            ok && !old(self).spec_is_necessary(child as int) && old(stats).became_necessary < usize::MAX ==> old(stats).became_necessary < final(stats).became_necessary,
            ok ==> final(stats).became_necessary == capped(
                old(stats).became_necessary + newly_needed(old(self), final(self)).len(),
            ),
            handle_after_grown(old(handle_after)@, final(handle_after)@, old(self)),
        decreases count_unneeded(old(self), old(self).len()), 0nat,
    {
        let ghost g0 = *self;
        let was_necessary = self.is_necessary(child);
        self.add_parent(child, child_index, parent);
        let ghost g1 = *self;
        proof {
            lemma_link_added(&g0, self, old(rch), child as int, child_index as int, parent as int);
            lemma_count_unneeded(&g0, self, g0.len(), child as int);
        }
        if !self.nodes[child].is_valid {
            stack.push(parent);
            proof {
                assert(stack@.subrange(0, old(stack)@.len() as int) =~= old(stack)@);
                assert forall|k: int| 0 <= k < stack@.len() implies #[trigger] stack@[k] < self.len() by {
                    if k < old(stack)@.len() {
                        assert(old(stack)@[k] < g0.len());
                    }
                }
            }
        }
        if !was_necessary {
            let ghost gs = stack@;
            let ghost ha = handle_after@;
            let okc = self.attach_needed(ahh, rch, stack, stats, handle_after, child);
            proof {
                assert forall|i: int| 0 <= i < g0.len() implies #[trigger] g1.nodes@[i].num_on_update_handlers
                    <= g0.nodes@[i].num_on_update_handlers by {
                    assert(g1.nodes@[i].num_on_update_handlers == g0.nodes@[i].num_on_update_handlers);
                }
                lemma_handle_after_trans(old(handle_after)@, ha, handle_after@, &g0, &g1);
            }
            proof {
                lemma_attached_trans(&g0, &g1, self, child as int);
                assert(stack@.subrange(0, old(stack)@.len() as int) =~= old(stack)@) by {
                    assert forall|j: int| 0 <= j < old(stack)@.len() implies stack@[j] == old(stack)@[j] by {
                        assert(stack@.subrange(0, gs.len() as int)[j] == gs[j]);
                        assert(gs.subrange(0, old(stack)@.len() as int)[j] == old(stack)@[j]);
                    }
                }
                if !g0.nodes@[child as int].is_valid {
                    assert(stack@.subrange(0, gs.len() as int)[old(stack)@.len() as int] == gs[old(stack)@.len() as int]);
                }
                assert(g1.is_registered(child as int, child_index as int, parent as int));
                assert forall|c: int, ci: int, p: int|
                    0 <= p < self.len() && #[trigger] self.is_registered(c, ci, p) && !g0.is_registered(c, ci, p) implies (c
                        == child && ci == child_index && p == parent) || !g0.spec_is_necessary(p) by {
                    if !g1.is_registered(c, ci, p) {
                        if p != child as int {
                            assert(!g1.spec_is_necessary(p));
                            assert(g1.spec_is_necessary(p) == g0.spec_is_necessary(p));
                        }
                    }
                }
                assert forall|c: int, ci: int|
                    #[trigger] self.is_registered(c, ci, parent as int) implies g0.is_registered(c, ci, parent as int)
                        || (c == child && ci == child_index) by {
                    if !g0.is_registered(c, ci, parent as int) {
                        assert(g0.spec_is_necessary(parent as int));
                    }
                }
                assert forall|m: usize| #[trigger] rch@.contains_key(m) && !old(rch)@.contains_key(m) implies !g0.spec_is_necessary(
                    m as int,
                ) by {
                    if m != child {
                        assert(m < self.len());
                        assert(g1.spec_is_necessary(m as int) == g0.spec_is_necessary(m as int));
                    }
                }
            }
            proof {
                if okc {
                    lemma_newly_chain(&g0, &g1, self);
                    assert(newly_needed(&g0, &g1) =~= set![child as int]) by {
                        assert forall|x: int| #[trigger] newly_needed(&g0, &g1).contains(x) implies x == child as int by {
                            if x != child as int {
                                assert(g1.spec_is_necessary(x) == g0.spec_is_necessary(x));
                            }
                        }
                    }
                    assert(set![child as int].len() == 1);
                }
            }
            okc
        } else {
            proof {
                lemma_attached_trans(&g0, &g0, self, child as int);
                assert(newly_needed(&g0, self) =~= Set::empty()) by {
                    assert forall|x: int| #[trigger] newly_needed(&g0, self).contains(x) implies false by {
                        if x != child as int {
                            assert(g1.spec_is_necessary(x) == g0.spec_is_necessary(x));
                        }
                    }
                }
            }
            true
        }
    }
}

/// A graph is attached from itself.
proof fn lemma_attached_refl(g: &Graph, x: int)
    ensures
        g.attached_from(g, x),
{
}

/// Attachment chains.
proof fn lemma_attached_trans(g0: &Graph, g1: &Graph, g2: &Graph, x: int)
    requires
        g1.attached_from(g0, x),
        g2.attached_from(g1, x),
    ensures
        g2.attached_from(g0, x),
{
    lemma_unhook_same(g0);
    assert(g2.same_content(g0)) by {
        assert forall|i: int| 0 <= i < g2.len() implies {
            let a = #[trigger] g2.nodes@[i];
            let b = g0.nodes@[i];
            &&& a.kind == b.kind
            &&& a.children@ == b.children@
            &&& a.rhs_nodes@ == b.rhs_nodes@
            &&& a.created_in == b.created_in
            &&& a.num_observers == b.num_observers
            &&& a.num_on_update_handlers == b.num_on_update_handlers
            &&& a.force_necessary == b.force_necessary
            &&& a.is_valid == b.is_valid
            &&& a.has_value == b.has_value
            &&& a.recomputed_at == b.recomputed_at
            &&& a.changed_at == b.changed_at
            &&& a.set_at == b.set_at
            &&& a.force_stale == b.force_stale
            &&& a.height_in_adjust_heights_heap == b.height_in_adjust_heights_heap
        } by {
            assert(g1.nodes@[i].kind == g0.nodes@[i].kind);
            assert(g2.nodes@[i].kind == g1.nodes@[i].kind);
        }
    }
    assert forall|c: int, ci: int, p: int| 0 <= p < g2.len() && #[trigger] g0.is_registered(c, ci, p) implies g2.is_registered(
        c,
        ci,
        p,
    ) by {
        assert(g1.is_registered(c, ci, p));
    }
    assert forall|i: int| 0 <= i < g2.len() && #[trigger] g0.spec_is_necessary(i) implies g2.spec_is_necessary(i) by {
        assert(g1.spec_is_necessary(i));
    }
    assert forall|i: int| 0 <= i < g2.len() && i != x && g0.spec_is_necessary(i) implies #[trigger] g2.height(i) == g0.height(
        i,
    ) by {
        assert(g1.spec_is_necessary(i));
        assert(g1.height(i) == g0.height(i));
    }
}


/// Only the height of `node` moved (to at least `0`): every invariant and every
/// relation to the graph before stays.
proof fn lemma_height_set(g0: &Graph, g: &Graph, rch: &RecomputeHeap, node: int)
    requires
        g0.wf(),
        g0.inputs_distinct(),
        g0.parents_needed(),
        g0.rch_consistent(rch),
        0 <= node < g0.len(),
        g.only_height_at(g0, node),
        g.height(node) >= 0,
    ensures
        g.wf(),
        g.inputs_distinct(),
        g.parents_needed(),
        g.rch_consistent(rch),
        g.attached_from(g0, node),
        forall|c: int, ci: int, p: int| 0 <= p < g.len() ==> (#[trigger] g.is_registered(c, ci, p) == g0.is_registered(c, ci, p)),
        forall|i: int| 0 <= i < g.len() ==> #[trigger] g.spec_is_necessary(i) == g0.spec_is_necessary(i),
        forall|i: int| 0 <= i < g.len() && i != node ==> #[trigger] g.height(i) == g0.height(i),
        g0.necessary_placed_except(node) ==> g.necessary_placed(),
        forall|m: int| g0.heights_within(m) && g.height(node) <= m ==> #[trigger] g.heights_within(m),
{
    assert forall|i: int| 0 <= i < g.len() implies {
        &&& (#[trigger] g.nodes@[i]).parents@ == g0.nodes@[i].parents@
        &&& g.nodes@[i].children@ == g0.nodes@[i].children@
        &&& g.nodes@[i].my_parent_index_in_child_at_index@ == g0.nodes@[i].my_parent_index_in_child_at_index@
        &&& g.nodes@[i].my_child_index_in_parent_at_index@ == g0.nodes@[i].my_child_index_in_parent_at_index@
        &&& g.nodes@[i].rhs_nodes@ == g0.nodes@[i].rhs_nodes@
        &&& g.nodes@[i].created_in == g0.nodes@[i].created_in
    } by {}
    lemma_wf_same_links(g0, g);
    assert forall|p: int| 0 <= p < g.len() implies {
        &&& (#[trigger] g.children(p)).no_duplicates()
        &&& forall|ci: int| 0 <= ci < g.children(p).len() ==> g.children(p)[ci] != p
    } by {
        assert(g.children(p) == g0.children(p));
        assert(g0.children(p).no_duplicates());
    }
    assert forall|i: int| 0 <= i < g.len() implies #[trigger] g.spec_is_necessary(i) == g0.spec_is_necessary(i) by {
        assert(g.nodes@[i].parents@ == g0.nodes@[i].parents@);
    }
    assert forall|c: int, ci: int, p: int| 0 <= p < g.len() && #[trigger] g.is_registered(c, ci, p) implies g.spec_is_necessary(p) by {
        assert(g0.is_registered(c, ci, p));
        assert(g.spec_is_necessary(p) == g0.spec_is_necessary(p));
    }
    assert forall|i: int| 0 <= i < g.len() implies #[trigger] g.nodes@[i].height_in_recompute_heap == (if rch@.contains_key(
        i as usize,
    ) {
        rch@[i as usize]
    } else {
        -1
    }) by {
        assert(g.nodes@[i].height_in_recompute_heap == g0.nodes@[i].height_in_recompute_heap);
    }
    assert forall|i: int| 0 <= i < g.len() && i != node implies #[trigger] g.height(i) == g0.height(i) by {
        assert(g.nodes@[i] == g0.nodes@[i]);
    }
    if g0.necessary_placed_except(node) {
        assert forall|i: int| 0 <= i < g.len() && #[trigger] g.spec_is_necessary(i) implies g.height(i) >= 0 by {
            assert(g.spec_is_necessary(i) == g0.spec_is_necessary(i));
            if i != node {
                assert(g.height(i) == g0.height(i));
            }
        }
    }
    assert forall|m: int| g0.heights_within(m) && g.height(node) <= m implies #[trigger] g.heights_within(m) by {
        assert forall|i: int| 0 <= i < g.len() implies -1 <= #[trigger] g.height(i) <= m by {
            if i != node {
                assert(g.height(i) == g0.height(i));
                assert(-1 <= g0.height(i) <= m);
            }
        }
    }
    assert(g.same_content(g0)) by {
        assert forall|i: int| 0 <= i < g.len() implies {
            let a = #[trigger] g.nodes@[i];
            let b = g0.nodes@[i];
            &&& a.kind == b.kind
            &&& a.children@ == b.children@
            &&& a.rhs_nodes@ == b.rhs_nodes@
            &&& a.created_in == b.created_in
            &&& a.num_observers == b.num_observers
            &&& a.num_on_update_handlers == b.num_on_update_handlers
            &&& a.force_necessary == b.force_necessary
            &&& a.is_valid == b.is_valid
            &&& a.has_value == b.has_value
            &&& a.recomputed_at == b.recomputed_at
            &&& a.changed_at == b.changed_at
            &&& a.set_at == b.set_at
            &&& a.force_stale == b.force_stale
            &&& a.height_in_adjust_heights_heap == b.height_in_adjust_heights_heap
        } by {
            if i != node {
                assert(g.nodes@[i] == g0.nodes@[i]);
            }
        }
    }
}

/// After registering `parent` with `child` at `child_index`: every invariant and every
/// relation to the graph before stays, `child` is needed, and only `child` may lack a
/// height.
proof fn lemma_link_added(g0: &Graph, g: &Graph, rch: &RecomputeHeap, child: int, child_index: int, parent: int)
    requires
        g0.wf(),
        g0.inputs_distinct(),
        g0.necessary_placed(),
        g0.parents_needed(),
        g0.rch_consistent(rch),
        0 <= child < g0.len(),
        0 <= parent < g0.len(),
        child != parent,
        g0.spec_is_necessary(parent),
        g.wf(),
        g.same_except_links(g0),
        g.parents(child) == g0.parents(child).push(parent as usize),
        forall|i: int| 0 <= i < g.len() && i != child ==> #[trigger] g.parents(i) == g0.parents(i),
        g.is_registered(child, child_index, parent),
        forall|c: int, ci: int, p: int|
            0 <= p < g.len() && (c != child || ci != child_index || p != parent) ==> (#[trigger] g.is_registered(c, ci, p)
                <==> g0.is_registered(c, ci, p)),
    ensures
        g.inputs_distinct(),
        g.parents_needed(),
        g.rch_consistent(rch),
        g.attached_from(g0, child),
        g.necessary_placed_except(child),
        g0.spec_is_necessary(child) ==> g.necessary_placed(),
        g.spec_is_necessary(child),
        forall|i: int| 0 <= i < g.len() && i != child ==> #[trigger] g.spec_is_necessary(i) == g0.spec_is_necessary(i),
        forall|i: int| 0 <= i < g.len() ==> #[trigger] g.height(i) == g0.height(i),
        forall|c: int, ci: int| #[trigger] g.is_registered(c, ci, child) == g0.is_registered(c, ci, child),
        forall|m: int| g0.heights_within(m) ==> #[trigger] g.heights_within(m),
{
    assert forall|p: int| 0 <= p < g.len() implies {
        &&& (#[trigger] g.children(p)).no_duplicates()
        &&& forall|ci: int| 0 <= ci < g.children(p).len() ==> g.children(p)[ci] != p
    } by {
        assert(g.children(p) == g0.children(p));
        assert(g0.children(p).no_duplicates());
    }
    assert forall|i: int| 0 <= i < g.len() implies #[trigger] g.height(i) == g0.height(i) by {
        assert(g.nodes@[i].height == g0.nodes@[i].height);
    }
    assert forall|i: int| 0 <= i < g.len() && #[trigger] g0.spec_is_necessary(i) implies g.spec_is_necessary(i) by {
        if i != child {
            assert(g.parents(i) == g0.parents(i));
        }
        assert(g.nodes@[i].num_observers == g0.nodes@[i].num_observers);
        assert(g.nodes@[i].force_necessary == g0.nodes@[i].force_necessary);
    }
    assert forall|i: int| 0 <= i < g.len() && i != child implies #[trigger] g.spec_is_necessary(i) == g0.spec_is_necessary(i) by {
        assert(g.parents(i) == g0.parents(i));
        assert(g.nodes@[i].num_observers == g0.nodes@[i].num_observers);
        assert(g.nodes@[i].force_necessary == g0.nodes@[i].force_necessary);
    }
    assert(g.spec_is_necessary(child));
    assert forall|c: int, ci: int, p: int| 0 <= p < g.len() && #[trigger] g.is_registered(c, ci, p) implies g.spec_is_necessary(p) by {
        if c != child || ci != child_index || p != parent {
            assert(g0.is_registered(c, ci, p));
            assert(g0.spec_is_necessary(p));
        }
    }
    assert forall|c: int, ci: int| #[trigger] g.is_registered(c, ci, child) == g0.is_registered(c, ci, child) by {
        if 0 <= child < g.len() {
        }
    }
    assert forall|i: int| 0 <= i < g.len() implies #[trigger] g.nodes@[i].height_in_recompute_heap == (if rch@.contains_key(
        i as usize,
    ) {
        rch@[i as usize]
    } else {
        -1
    }) by {
        assert(g.nodes@[i].height_in_recompute_heap == g0.nodes@[i].height_in_recompute_heap);
    }
    assert forall|m: int| g0.heights_within(m) implies #[trigger] g.heights_within(m) by {
        assert forall|i: int| 0 <= i < g.len() implies -1 <= #[trigger] g.height(i) <= m by {
            assert(g.height(i) == g0.height(i));
            assert(-1 <= g0.height(i) <= m);
        }
    }
    assert(g.same_content(g0)) by {
        assert forall|i: int| 0 <= i < g.len() implies {
            let a = #[trigger] g.nodes@[i];
            let b = g0.nodes@[i];
            &&& a.kind == b.kind
            &&& a.children@ == b.children@
            &&& a.rhs_nodes@ == b.rhs_nodes@
            &&& a.created_in == b.created_in
            &&& a.num_observers == b.num_observers
            &&& a.num_on_update_handlers == b.num_on_update_handlers
            &&& a.force_necessary == b.force_necessary
            &&& a.is_valid == b.is_valid
            &&& a.has_value == b.has_value
            &&& a.recomputed_at == b.recomputed_at
            &&& a.changed_at == b.changed_at
            &&& a.set_at == b.set_at
            &&& a.force_stale == b.force_stale
            &&& a.height_in_adjust_heights_heap == b.height_in_adjust_heights_heap
        } by {
            assert(g.nodes@[i].kind == g0.nodes@[i].kind);
        }
    }
    assert forall|c: int, ci: int, p: int| 0 <= p < g.len() && #[trigger] g0.is_registered(c, ci, p) implies g.is_registered(
        c,
        ci,
        p,
    ) by {}
}

/// Queueing `node` and recording its position keeps every invariant.
pub(crate) proof fn lemma_slot_filled(gb: &Graph, g: &Graph, rb: &RecomputeHeap, rch: &RecomputeHeap, node: int)
    requires
        gb.wf(),
        gb.inputs_distinct(),
        gb.rch_consistent(rb),
        0 <= node < gb.len(),
        g.len() == gb.len(),
        gb.len() <= usize::MAX,
        forall|i: int| 0 <= i < g.len() && i != node ==> #[trigger] g.nodes@[i] == gb.nodes@[i],
        g.nodes@[node] == (crate::graph::Node {
            height_in_recompute_heap: g.nodes@[node].height_in_recompute_heap,
            ..gb.nodes@[node]
        }),
        rch@ == rb@.insert(node as usize, g.nodes@[node].height_in_recompute_heap as int),
    ensures
        g.wf(),
        g.inputs_distinct(),
        gb.necessary_placed() ==> g.necessary_placed(),
        gb.parents_needed() ==> g.parents_needed(),
        g.rch_consistent(rch),
        g.attached_from(gb, node),
        forall|i: int| 0 <= i < g.len() ==> #[trigger] g.height(i) == gb.height(i),
        forall|m: int| gb.heights_within(m) ==> #[trigger] g.heights_within(m),
        forall|c: int, ci: int, p: int| 0 <= p < g.len() ==> (#[trigger] g.is_registered(c, ci, p) == gb.is_registered(c, ci, p)),
        forall|i: int| 0 <= i < g.len() ==> #[trigger] g.spec_is_necessary(i) == gb.spec_is_necessary(i),
        forall|i: int| 0 <= i < g.len() ==> #[trigger] g.children(i) == gb.children(i),
        forall|i: int| 0 <= i < g.len() ==> #[trigger] g.parents(i) == gb.parents(i),
{
    assert forall|i: int| 0 <= i < g.len() implies {
        &&& (#[trigger] g.nodes@[i]).parents@ == gb.nodes@[i].parents@
        &&& g.nodes@[i].children@ == gb.nodes@[i].children@
        &&& g.nodes@[i].my_parent_index_in_child_at_index@ == gb.nodes@[i].my_parent_index_in_child_at_index@
        &&& g.nodes@[i].my_child_index_in_parent_at_index@ == gb.nodes@[i].my_child_index_in_parent_at_index@
        &&& g.nodes@[i].rhs_nodes@ == gb.nodes@[i].rhs_nodes@
        &&& g.nodes@[i].created_in == gb.nodes@[i].created_in
    } by {}
    lemma_wf_same_links(gb, g);
    assert forall|i: int| 0 <= i < g.len() implies #[trigger] g.height(i) == gb.height(i) by {}
    assert forall|p: int| 0 <= p < g.len() implies {
        &&& (#[trigger] g.children(p)).no_duplicates()
        &&& forall|ci: int| 0 <= ci < g.children(p).len() ==> g.children(p)[ci] != p
    } by {
        assert(g.children(p) == gb.children(p));
        assert(gb.children(p).no_duplicates());
    }
    assert forall|i: int| 0 <= i < g.len() implies #[trigger] g.spec_is_necessary(i) == gb.spec_is_necessary(i) by {
        assert(g.nodes@[i].parents@ == gb.nodes@[i].parents@);
    }
    if gb.parents_needed() {
        assert forall|c: int, ci: int, p: int| 0 <= p < g.len() && #[trigger] g.is_registered(c, ci, p) implies g.spec_is_necessary(p) by {
            assert(gb.is_registered(c, ci, p));
            assert(g.spec_is_necessary(p) == gb.spec_is_necessary(p));
        }
    }
    if gb.necessary_placed() {
        assert forall|i: int| 0 <= i < g.len() && #[trigger] g.spec_is_necessary(i) implies g.height(i) >= 0 by {
            assert(g.spec_is_necessary(i) == gb.spec_is_necessary(i));
        }
    }
    assert forall|i: int| 0 <= i < g.len() implies #[trigger] g.children(i) == gb.children(i) by {}
    assert forall|i: int| 0 <= i < g.len() implies #[trigger] g.parents(i) == gb.parents(i) by {}
    assert forall|m: int| gb.heights_within(m) implies #[trigger] g.heights_within(m) by {
        assert forall|i: int| 0 <= i < g.len() implies -1 <= #[trigger] g.height(i) <= m by {
            assert(g.height(i) == gb.height(i));
            assert(-1 <= gb.height(i) <= m);
        }
    }
    assert forall|x: usize| #[trigger] rch@.contains_key(x) implies x < g.len() by {
        if x != node as usize {
            assert(rb@.contains_key(x));
        }
    }
    assert forall|i: int| 0 <= i < g.len() implies #[trigger] g.nodes@[i].height_in_recompute_heap == (if rch@.contains_key(
        i as usize,
    ) {
        rch@[i as usize]
    } else {
        -1
    }) by {
        if i != node {
            assert(g.nodes@[i] == gb.nodes@[i]);
            assert(gb.nodes@[i].height_in_recompute_heap == (if rb@.contains_key(i as usize) {
                rb@[i as usize]
            } else {
                -1
            }));
            assert(i as usize != node as usize);
        }
    }
    assert(g.same_content(gb)) by {
        assert forall|i: int| 0 <= i < g.len() implies {
            let a = #[trigger] g.nodes@[i];
            let b = gb.nodes@[i];
            &&& a.kind == b.kind
            &&& a.children@ == b.children@
            &&& a.rhs_nodes@ == b.rhs_nodes@
            &&& a.created_in == b.created_in
            &&& a.num_observers == b.num_observers
            &&& a.num_on_update_handlers == b.num_on_update_handlers
            &&& a.force_necessary == b.force_necessary
            &&& a.is_valid == b.is_valid
            &&& a.has_value == b.has_value
            &&& a.recomputed_at == b.recomputed_at
            &&& a.changed_at == b.changed_at
            &&& a.set_at == b.set_at
            &&& a.force_stale == b.force_stale
            &&& a.height_in_adjust_heights_heap == b.height_in_adjust_heights_heap
        } by {}
    }
}

/// Staleness reads only what `same_content` keeps.
proof fn lemma_stale_same(g0: &Graph, g: &Graph, node: int)
    requires
        g0.ids_ok(),
        g.same_content(g0),
        0 <= node < g0.len(),
    ensures
        g.spec_is_stale(node) == g0.spec_is_stale(node),
{
    assert(g.nodes@[node].children@ == g0.nodes@[node].children@);
    assert forall|ci: int| 0 <= ci < g.children(node).len() implies #[trigger] g.changed_at(g.children(node)[ci] as int)
        == g0.changed_at(g0.children(node)[ci] as int) by {
        assert(g0.children(node)[ci] < g0.len());
        assert(g.nodes@[g0.children(node)[ci] as int].changed_at == g0.nodes@[g0.children(node)[ci] as int].changed_at);
    }
    if g.spec_stale_wrt_child(node) {
        let ci = choose|ci: int|
            0 <= ci < g.children(node).len() && g.recomputed_at(node) < #[trigger] g.changed_at(g.children(node)[ci] as int);
        assert(g0.recomputed_at(node) < g0.changed_at(g0.children(node)[ci] as int));
    }
    if g0.spec_stale_wrt_child(node) {
        let ci = choose|ci: int|
            0 <= ci < g0.children(node).len() && g0.recomputed_at(node) < #[trigger] g0.changed_at(
                g0.children(node)[ci] as int,
            );
        assert(g.changed_at(g.children(node)[ci] as int) == g0.changed_at(g0.children(node)[ci] as int));
        assert(g.recomputed_at(node) < g.changed_at(g.children(node)[ci] as int));
    }
}


/// Same registrations and neededness: the same nodes are registered only when needed.
proof fn lemma_fine_same(g0: &Graph, g: &Graph)
    requires
        g.len() == g0.len(),
        forall|c: int, ci: int, p: int| 0 <= p < g.len() ==> (#[trigger] g.is_registered(c, ci, p) == g0.is_registered(c, ci, p)),
        forall|i: int| 0 <= i < g.len() ==> #[trigger] g.spec_is_necessary(i) == g0.spec_is_necessary(i),
    ensures
        g.fine_kept(g0),
{
    assert forall|p: int| 0 <= p < g.len() && #[trigger] g0.parent_fine(p) implies g.parent_fine(p) by {
        assert forall|c: int, ci: int| #[trigger] g.is_registered(c, ci, p) implies g.spec_is_necessary(p) by {
            assert(g0.is_registered(c, ci, p));
        }
    }
}

/// Keeping fine nodes fine composes.
proof fn lemma_fine_trans(g0: &Graph, g1: &Graph, g2: &Graph)
    requires
        g1.len() == g0.len(),
        g2.len() == g1.len(),
        g1.fine_kept(g0),
        g2.fine_kept(g1),
    ensures
        g2.fine_kept(g0),
{
    assert forall|p: int| 0 <= p < g2.len() && #[trigger] g0.parent_fine(p) implies g2.parent_fine(p) by {
        assert(g1.parent_fine(p));
    }
}

/// Detaching a parent from `c` keeps every other node as fine as it was.
proof fn lemma_fine_detached(gi: &Graph, g: &Graph, c: int)
    requires
        g.len() == gi.len(),
        forall|i: int| 0 <= i < g.len() && i != c ==> #[trigger] g.parents(i) == gi.parents(i),
        g.same_except_links(gi),
        forall|cc: int, cj: int, p: int| 0 <= p < g.len() && #[trigger] g.is_registered(cc, cj, p) ==> gi.is_registered(cc, cj, p),
    ensures
        forall|p: int| 0 <= p < g.len() && p != c && #[trigger] gi.parent_fine(p) ==> g.parent_fine(p),
{
    assert forall|p: int| 0 <= p < g.len() && p != c && #[trigger] gi.parent_fine(p) implies g.parent_fine(p) by {
        assert forall|cc: int, cj: int| #[trigger] g.is_registered(cc, cj, p) implies g.spec_is_necessary(p) by {
            assert(gi.is_registered(cc, cj, p));
            assert(g.parents(p) == gi.parents(p));
            assert(g.nodes@[p].num_observers == gi.nodes@[p].num_observers);
            assert(g.nodes@[p].force_necessary == gi.nodes@[p].force_necessary);
        }
    }
}

} // verus!
