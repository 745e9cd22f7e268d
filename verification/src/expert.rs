use vstd::prelude::*;

use crate::graph::{lemma_ids_ok_same_links, lemma_indices_below, Graph, Kind, Node};
use crate::necessity::{lemma_remove_parent_ok, lemma_slot_filled, lemma_wf_same_links};
use crate::node_state::{handle_after_grown, lemma_handle_after_trans};
use crate::public::{MakeStale, Stats};
use crate::recompute_heap::RecomputeHeap;

verus! {

/// Index `i` with `a` and `b` exchanged.
pub open spec fn swapped(i: int, a: int, b: int) -> int {
    if i == a {
        b
    } else if i == b {
        a
    } else {
        i
    }
}

/// The child index that the child-slot `k` of node `c` records after exchanging child
/// indices `a` and `b` of node `pp`.
pub open spec fn swap_mci(g0: &Graph, pp: int, a: int, b: int, c: int, k: int) -> int {
    let c1 = g0.children(pp)[a] as int;
    let c2 = g0.children(pp)[b] as int;
    let p1 = g0.mpi(pp)[a] as int;
    let p2 = g0.mpi(pp)[b] as int;
    if p1 >= 0 && c == c1 && k == p1 {
        b
    } else if p2 >= 0 && c == c2 && k == p2 {
        a
    } else {
        g0.mci(c)[k] as int
    }
}

/// `g` is `g0` with child indices `a` and `b` of node `pp` exchanged.
pub open spec fn swap_result(g0: &Graph, g: &Graph, pp: int, a: int, b: int) -> bool {
    &&& g0.wf()
    &&& 0 <= pp < g0.len()
    &&& a != b
    &&& 0 <= a < g0.children(pp).len()
    &&& 0 <= b < g0.children(pp).len()
    &&& a < g0.mpi(pp).len()
    &&& b < g0.mpi(pp).len()
    &&& g0.children(pp)[a] != pp
    &&& g0.children(pp)[b] != pp
    &&& g.len() == g0.len()
    &&& forall|i: int| 0 <= i < g.len() ==> #[trigger] g.parents(i) == g0.parents(i)
    &&& forall|i: int| 0 <= i < g.len() && i != pp ==> #[trigger] g.children(i) == g0.children(i)
    &&& forall|i: int| 0 <= i < g.len() && i != pp ==> #[trigger] g.mpi(i) == g0.mpi(i)
    &&& g.children(pp) == g0.children(pp).update(a, g0.children(pp)[b]).update(b, g0.children(pp)[a])
    &&& g.mpi(pp) == g0.mpi(pp).update(a, g0.mpi(pp)[b]).update(b, g0.mpi(pp)[a])
    &&& forall|c: int| 0 <= c < g.len() ==> #[trigger] g.mci(c).len() == g0.mci(c).len()
    &&& forall|c: int, k: int| 0 <= c < g.len() && 0 <= k < g.mci(c).len() ==> #[trigger] g.mci(c)[k] == swap_mci(g0, pp, a, b, c, k)
    &&& forall|i: int|
        0 <= i < g.len() ==> (#[trigger] g.nodes@[i]).rhs_nodes@ == g0.nodes@[i].rhs_nodes@ && g.nodes@[i].created_in
            == g0.nodes@[i].created_in
}

proof fn lemma_swap_ids(g0: &Graph, g: &Graph, pp: int, a: int, b: int)
    requires
        swap_result(g0, g, pp, a, b),
    ensures
        g.ids_ok(),
{
    assert forall|c: int, pi: int|
        0 <= c < g.len() && 0 <= pi < g.parents(c).len() implies #[trigger] g.parents(c)[pi] < g.len() by {
        assert(g0.parents(c)[pi] < g0.len());
    }
    assert forall|p: int, ci: int|
        0 <= p < g.len() && 0 <= ci < g.children(p).len() implies #[trigger] g.children(p)[ci] < g.len() by {
        if p == pp {
            let j = swapped(ci, a, b);
            assert(g.children(p)[ci] == g0.children(p)[j]);
            assert(g0.children(p)[j] < g0.len());
        } else {
            assert(g0.children(p)[ci] < g0.len());
        }
    }
    assert forall|bb: int, r: int|
        0 <= bb < g.len() && 0 <= r < g.nodes@[bb].rhs_nodes@.len() implies #[trigger] g.nodes@[bb].rhs_nodes@[r]
            < g.len() by {
        assert(g.nodes@[bb].rhs_nodes@ == g0.nodes@[bb].rhs_nodes@);
        assert(g0.nodes@[bb].rhs_nodes@[r] < g0.len());
    }
    assert forall|n: int| 0 <= n < g.len() implies match #[trigger] g.nodes@[n].created_in {
        Some(s) => s < g.len(),
        None => true,
    } by {
        assert(g.nodes@[n].created_in == g0.nodes@[n].created_in);
        assert(match g0.nodes@[n].created_in {
            Some(s) => s < g0.len(),
            None => true,
        });
    }
}

proof fn lemma_swap_child_links(g0: &Graph, g: &Graph, pp: int, a: int, b: int)
    requires
        swap_result(g0, g, pp, a, b),
    ensures
        forall|c: int, pi: int| 0 <= c < g.len() && 0 <= pi < g.parents(c).len() ==> #[trigger] g.child_link_ok(c, pi),
{
    let c1 = g0.children(pp)[a] as int;
    let c2 = g0.children(pp)[b] as int;
    let p1 = g0.mpi(pp)[a] as int;
    let p2 = g0.mpi(pp)[b] as int;
    if p1 >= 0 {
        assert(g0.parent_link_ok(pp, a));
    }
    if p2 >= 0 {
        assert(g0.parent_link_ok(pp, b));
    }
    assert forall|c: int, pi: int| 0 <= c < g.len() && 0 <= pi < g.parents(c).len() implies #[trigger] g.child_link_ok(c, pi) by {
        assert(g0.child_link_ok(c, pi));
        assert(g.mci(c)[pi] == swap_mci(g0, pp, a, b, c, pi));
        if p1 >= 0 && c == c1 && pi == p1 {
        } else if p2 >= 0 && c == c2 && pi == p2 {
        } else {
            let p = g0.parents(c)[pi] as int;
            let ci = g0.mci(c)[pi] as int;
            if p == pp {
                if ci == a {
                    assert(g0.mpi(pp)[a] == pi);
                    assert(c == c1);
                }
                if ci == b {
                    assert(g0.mpi(pp)[b] == pi);
                    assert(c == c2);
                }
            }
        }
    }
}

proof fn lemma_swap_parent_links(g0: &Graph, g: &Graph, pp: int, a: int, b: int)
    requires
        swap_result(g0, g, pp, a, b),
    ensures
        forall|p: int, ci: int|
            0 <= p < g.len() && 0 <= ci < g.mpi(p).len() && g.mpi(p)[ci] >= 0 ==> #[trigger] g.parent_link_ok(p, ci),
{
    let c1 = g0.children(pp)[a] as int;
    let c2 = g0.children(pp)[b] as int;
    let p1 = g0.mpi(pp)[a] as int;
    let p2 = g0.mpi(pp)[b] as int;
    if p1 >= 0 {
        assert(g0.parent_link_ok(pp, a));
        assert(g0.child_link_ok(c1, p1));
    }
    if p2 >= 0 {
        assert(g0.parent_link_ok(pp, b));
        assert(g0.child_link_ok(c2, p2));
    }
    assert forall|p: int, ci: int|
        0 <= p < g.len() && 0 <= ci < g.mpi(p).len() && g.mpi(p)[ci] >= 0 implies #[trigger] g.parent_link_ok(p, ci) by {
        if p == pp && ci == a {
            assert(g.mci(c2)[p2] == swap_mci(g0, pp, a, b, c2, p2));
            if p1 >= 0 && c2 == c1 {
                assert(p1 != p2);
            }
        } else if p == pp && ci == b {
            assert(g.mci(c1)[p1] == swap_mci(g0, pp, a, b, c1, p1));
        } else {
            assert(g.mpi(p)[ci] == g0.mpi(p)[ci]);
            assert(g0.parent_link_ok(p, ci));
            assert(g.children(p)[ci] == g0.children(p)[ci]);
            let c = g0.children(p)[ci] as int;
            let pi = g0.mpi(p)[ci] as int;
            assert(g0.child_link_ok(c, pi));
            assert(g.mci(c)[pi] == swap_mci(g0, pp, a, b, c, pi));
        }
    }
}

proof fn lemma_swap_registered(g0: &Graph, g: &Graph, pp: int, a: int, b: int)
    requires
        swap_result(g0, g, pp, a, b),
        g.wf(),
    ensures
        forall|c: int, ci: int, p: int|
            0 <= p < g.len() ==> (#[trigger] g.is_registered(c, ci, p) <==> g0.is_registered(
                c,
                if p == pp {
                    swapped(ci, a, b)
                } else {
                    ci
                },
                p,
            )),
{
    assert forall|c: int, ci: int, p: int|
        0 <= p < g.len() implies (#[trigger] g.is_registered(c, ci, p) <==> g0.is_registered(
            c,
            if p == pp {
                swapped(ci, a, b)
            } else {
                ci
            },
            p,
        )) by {
        if p == pp {
            let j = swapped(ci, a, b);
            if 0 <= ci < g.mpi(p).len() {
                assert(0 <= j < g0.mpi(p).len());
                assert(g.mpi(p)[ci] == g0.mpi(p)[j]);
                if g.mpi(p)[ci] >= 0 {
                    assert(g.parent_link_ok(p, ci));
                    assert(g0.parent_link_ok(p, j));
                    assert(g.children(p)[ci] == g0.children(p)[j]);
                }
            } else {
                assert(!(0 <= j < g0.mpi(p).len()));
            }
        }
    }
}

impl Graph {
    /// Exchange the inputs of `parent` at child indices `ci1` and `ci2`, together with
    /// the bookkeeping that links each registered input back to its child index, so
    /// that every registered edge stays consistent.
    #[verifier::spinoff_prover]
    #[verifier::rlimit(80)]
    pub fn expert_swap_children(&mut self, parent: usize, ci1: usize, ci2: usize)
        requires
            old(self).wf(),
            parent < old(self).len(),
            ci1 != ci2,
            ci1 < old(self).children(parent as int).len(),
            ci2 < old(self).children(parent as int).len(),
            ci1 < old(self).mpi(parent as int).len(),
            ci2 < old(self).mpi(parent as int).len(),
            old(self).children(parent as int).len() <= i32::MAX,
            old(self).children(parent as int)[ci1 as int] != parent,
            old(self).children(parent as int)[ci2 as int] != parent,
        ensures
            final(self).wf(),
            final(self).len() == old(self).len(),
            final(self).children(parent as int) == old(self).children(parent as int).update(
                ci1 as int,
                old(self).children(parent as int)[ci2 as int],
            ).update(ci2 as int, old(self).children(parent as int)[ci1 as int]),
            forall|i: int| 0 <= i < final(self).len() && i != parent ==> #[trigger] final(self).children(i) == old(self).children(i),
            forall|i: int| 0 <= i < final(self).len() ==> #[trigger] final(self).parents(i) == old(self).parents(i),
            forall|c: int, ci: int, p: int|
                0 <= p < final(self).len() ==> (#[trigger] final(self).is_registered(c, ci, p) <==> old(self).is_registered(
                    c,
                    if p == parent {
                        swapped(ci, ci1 as int, ci2 as int)
                    } else {
                        ci
                    },
                    p,
                )),
            forall|i: int|
                0 <= i < final(self).len() ==> (#[trigger] final(self).nodes@[i]).kind == old(self).nodes@[i].kind
                    && final(self).nodes@[i].height == old(self).nodes@[i].height
                    && final(self).nodes@[i].height_in_recompute_heap == old(self).nodes@[i].height_in_recompute_heap
                    && final(self).nodes@[i].rhs_nodes@ == old(self).nodes@[i].rhs_nodes@
                    && final(self).nodes@[i].created_in == old(self).nodes@[i].created_in
                    && final(self).nodes@[i].is_valid == old(self).nodes@[i].is_valid
                    && final(self).nodes@[i].changed_at == old(self).nodes@[i].changed_at
                    && final(self).nodes@[i].recomputed_at == old(self).nodes@[i].recomputed_at
                    && final(self).nodes@[i].num_observers == old(self).nodes@[i].num_observers
                    && final(self).nodes@[i].num_on_update_handlers == old(self).nodes@[i].num_on_update_handlers
                    && final(self).nodes@[i].force_necessary == old(self).nodes@[i].force_necessary,
    {
        let ghost g0 = *self;
        let c1 = self.nodes[parent].children[ci1];
        let c2 = self.nodes[parent].children[ci2];
        let p1 = self.nodes[parent].my_parent_index_in_child_at_index[ci1];
        let p2 = self.nodes[parent].my_parent_index_in_child_at_index[ci2];
        proof {
            assert(g0.children(parent as int)[ci1 as int] < g0.len());
            assert(g0.children(parent as int)[ci2 as int] < g0.len());
            if p1 >= 0 {
                assert(g0.parent_link_ok(parent as int, ci1 as int));
                assert(g0.child_link_ok(c1 as int, p1 as int));
            }
            if p2 >= 0 {
                assert(g0.parent_link_ok(parent as int, ci2 as int));
                assert(g0.child_link_ok(c2 as int, p2 as int));
            }
            if p1 >= 0 && p2 >= 0 && c1 == c2 {
                assert(p1 != p2);
            }
        }
        if p1 >= 0 {
            self.nodes[c1].my_child_index_in_parent_at_index.set(p1 as usize, ci2 as i32);
        }
        if p2 >= 0 {
            self.nodes[c2].my_child_index_in_parent_at_index.set(p2 as usize, ci1 as i32);
        }
        self.nodes[parent].my_parent_index_in_child_at_index.set(ci1, p2);
        self.nodes[parent].my_parent_index_in_child_at_index.set(ci2, p1);
        self.nodes[parent].children.set(ci1, c2);
        self.nodes[parent].children.set(ci2, c1);
        proof {
            let pp = parent as int;
            let a = ci1 as int;
            let b = ci2 as int;
            assert(forall|i: int| 0 <= i < self.len() ==> #[trigger] self.parents(i) == g0.parents(i));
            assert(forall|i: int| 0 <= i < self.len() && i != pp ==> #[trigger] self.children(i) == g0.children(i));
            assert(forall|i: int| 0 <= i < self.len() && i != pp ==> #[trigger] self.mpi(i) == g0.mpi(i));
            assert(self.children(pp) == g0.children(pp).update(a, c2).update(b, c1));
            assert(self.mpi(pp) == g0.mpi(pp).update(a, p2).update(b, p1));
            assert forall|c: int, k: int| 0 <= c < self.len() && 0 <= k < self.mci(c).len() implies #[trigger] self.mci(c)[k]
                == swap_mci(&g0, pp, a, b, c, k) by {}
            assert(forall|c: int| 0 <= c < self.len() ==> #[trigger] self.mci(c).len() == g0.mci(c).len());
            assert forall|i: int|
                0 <= i < self.len() implies (#[trigger] self.nodes@[i]).kind == g0.nodes@[i].kind
                    && self.nodes@[i].height == g0.nodes@[i].height
                    && self.nodes@[i].height_in_recompute_heap == g0.nodes@[i].height_in_recompute_heap
                    && self.nodes@[i].rhs_nodes@ == g0.nodes@[i].rhs_nodes@
                    && self.nodes@[i].created_in == g0.nodes@[i].created_in
                    && self.nodes@[i].is_valid == g0.nodes@[i].is_valid
                    && self.nodes@[i].changed_at == g0.nodes@[i].changed_at
                    && self.nodes@[i].recomputed_at == g0.nodes@[i].recomputed_at
                    && self.nodes@[i].num_observers == g0.nodes@[i].num_observers
                    && self.nodes@[i].force_necessary == g0.nodes@[i].force_necessary by {}
            lemma_swap_ids(&g0, self, pp, a, b);
            lemma_swap_child_links(&g0, self, pp, a, b);
            lemma_swap_parent_links(&g0, self, pp, a, b);
            lemma_swap_registered(&g0, self, pp, a, b);
        }
    }

    /// Mark expert node `node` stale, unless it is stale already.
    pub fn make_stale(&mut self, node: usize) -> (r: MakeStale)
        requires
            node < old(self).len(),
        ensures
            old(self).nodes@[node as int].force_stale ==> r == MakeStale::AlreadyStale && *final(self) == *old(self),
            !old(self).nodes@[node as int].force_stale ==> r == MakeStale::MadeStale && final(self).nodes@
                == old(self).nodes@.update(node as int, Node { force_stale: true, ..old(self).nodes@[node as int] }),
    {
        if self.nodes[node].force_stale {
            MakeStale::AlreadyStale
        } else {
            self.nodes[node].force_stale = true;
            MakeStale::MadeStale
        }
    }

    /// Make a valid expert node stale from outside its computation: once it is stale, a
    /// needed node that is not queued is queued in the recompute heap.
    pub fn expert_make_stale(&mut self, rch: &mut RecomputeHeap, node: usize)
        requires
            old(self).ids_ok(),
            node < old(self).len(),
            old(rch).wf(),
            old(self).rch_consistent(old(rch)),
            old(self).spec_is_necessary(node as int) ==> 0 <= old(self).height(node as int) <= old(rch).max_allowed(),
        ensures
            final(self).ids_ok(),
            final(rch).wf(),
            final(rch).max_allowed() == old(rch).max_allowed(),
            final(self).rch_consistent(final(rch)),
            final(self).len() == old(self).len(),
            !(old(self).nodes@[node as int].is_valid && old(self).nodes@[node as int].kind == Kind::Expert
                && !old(self).nodes@[node as int].force_stale) ==> *final(self) == *old(self) && *final(rch)
                == *old(rch),
            old(self).nodes@[node as int].is_valid && old(self).nodes@[node as int].kind == Kind::Expert
                && !old(self).nodes@[node as int].force_stale ==> {
                &&& forall|i: int| 0 <= i < final(self).len() && i != node ==> #[trigger] final(self).nodes@[i] == old(self).nodes@[i]
                &&& final(self).nodes@[node as int] == (Node {
                    force_stale: true,
                    height_in_recompute_heap: final(self).nodes@[node as int].height_in_recompute_heap,
                    ..old(self).nodes@[node as int]
                })
                &&& final(rch)@ == if old(self).spec_is_necessary(node as int) && !old(rch)@.contains_key(node) {
                    old(rch)@.insert(node, old(self).height(node as int))
                } else {
                    old(rch)@
                }
            },
    {
        if !self.nodes[node].is_valid {
            return;
        }
        match self.nodes[node].kind {
            Kind::Expert => {},
            _ => {
                return;
            },
        }
        let ghost g0 = *self;
        match self.make_stale(node) {
            MakeStale::AlreadyStale => {},
            MakeStale::MadeStale => {
                proof {
                    assert forall|i: int| 0 <= i < g0.len() implies {
                        &&& (#[trigger] g0.nodes@[i]).parents@ == self.nodes@[i].parents@
                        &&& g0.nodes@[i].children@ == self.nodes@[i].children@
                        &&& g0.nodes@[i].rhs_nodes@ == self.nodes@[i].rhs_nodes@
                        &&& g0.nodes@[i].created_in == self.nodes@[i].created_in
                    } by {}
                    lemma_ids_ok_same_links(&g0, self);
                    assert(self.spec_is_necessary(node as int) == g0.spec_is_necessary(node as int));
                    rch.lemma_wf();
                    if rch@.contains_key(node) {
                        assert(self.nodes@[node as int].height_in_recompute_heap == rch@[node]);
                    }
                }
                if self.is_necessary(node) && self.nodes[node].height_in_recompute_heap < 0 {
                    let h = self.nodes[node].height;
                    proof {
                        assert(self.nodes.len() == self.nodes@.len());
                        assert forall|x: usize| #[trigger] rch@.dom().contains(x) implies x < self.nodes.len() by {
                            assert(rch@.contains_key(x));
                        }
                        lemma_indices_below(rch@.dom(), self.nodes.len(), node);
                    }
                    let ghost g1 = *self;
                    rch.insert(node, h);
                    self.nodes[node].height_in_recompute_heap = h;
                    proof {
                        assert forall|x: usize| #[trigger] rch@.contains_key(x) implies x < self.len() by {
                            if x != node {
                                assert(old(rch)@.contains_key(x));
                            }
                        }
                        assert forall|i: int| 0 <= i < self.len() implies #[trigger] self.nodes@[i].height_in_recompute_heap == (if rch@.contains_key(
                            i as usize,
                        ) {
                            rch@[i as usize]
                        } else {
                            -1
                        }) by {
                            if i != node as int {
                                assert(self.nodes@[i] == g1.nodes@[i]);
                            }
                        }
                        assert forall|i: int| 0 <= i < g0.len() implies {
                            &&& (#[trigger] g0.nodes@[i]).parents@ == self.nodes@[i].parents@
                            &&& g0.nodes@[i].children@ == self.nodes@[i].children@
                            &&& g0.nodes@[i].rhs_nodes@ == self.nodes@[i].rhs_nodes@
                            &&& g0.nodes@[i].created_in == self.nodes@[i].created_in
                        } by {}
                        lemma_ids_ok_same_links(&g0, self);
                    }
                }
            },
        }
    }

    /// Expert node `node` stops depending on its input at child index `edge_index`: the
    /// last input takes that index, and the input is dropped from the end. If `node` is
    /// needed, the input loses `node` as a parent (and may become unnecessary in turn),
    /// and `node` is queued for recomputation. The node is marked stale either way.
    /// Other nodes are left alone. `false` comes back, with the work stopped part-way,
    /// where a needed node is not registered with that input, or would be queued
    /// without a height that the recompute heap can hold.
    #[verifier::spinoff_prover]
    #[verifier::rlimit(60)]
    pub fn expert_remove_dependency(
        &mut self,
        rch: &mut RecomputeHeap,
        stats: &mut Stats,
        handle_after: &mut Vec<usize>,
        node: usize,
        edge_index: usize,
    ) -> (ok: bool)
        requires
            old(self).wf(),
            old(self).inputs_distinct(),
            old(self).necessary_placed(),
            old(self).parents_needed(),
            node < old(self).len(),
            edge_index < old(self).children(node as int).len(),
            old(self).children(node as int).len() <= i32::MAX,
            old(rch).wf(),
            old(self).rch_consistent(old(rch)),
        ensures
            final(self).wf(),
            final(self).inputs_distinct(),
            final(self).necessary_placed(),
            final(self).len() == old(self).len(),
            final(rch).wf(),
            final(self).rch_consistent(final(rch)),
            old(self).nodes@[node as int].kind != Kind::Expert ==> ok && *final(self) == *old(self) && *final(rch)
                == *old(rch),
            old(self).nodes@[node as int].kind == Kind::Expert && !ok ==> {
                let cs = old(self).children(node as int);
                &&& old(self).spec_is_necessary(node as int)
                &&& {
                    ||| !old(self).is_registered(cs[edge_index as int] as int, edge_index as int, node as int)
                    ||| !old(self).is_registered(cs.last() as int, cs.len() - 1, node as int)
                    ||| final(self).height(node as int) < 0
                    ||| final(self).height(node as int) > final(rch).max_allowed()
                }
            },
            old(self).nodes@[node as int].kind == Kind::Expert && ok ==> {
                let cs = old(self).children(node as int);
                &&& final(self).children(node as int) == cs.update(edge_index as int, cs.last()).drop_last()
                &&& final(self).nodes@[node as int].force_stale
                &&& old(self).spec_is_necessary(node as int) ==> final(rch)@.contains_key(node)
                &&& old(self).spec_is_necessary(node as int) ==> !final(self).parents(
                    cs[edge_index as int] as int,
                ).contains(node)
            },
            final(stats).link_counts_grown(*old(stats)),
            old(stats).became_necessary == final(stats).became_necessary,
            old(stats).invalidated == final(stats).invalidated,
            handle_after_grown(old(handle_after)@, final(handle_after)@, old(self)),
    {
        match self.nodes[node].kind {
            Kind::Expert => {},
            _ => {
                return true;
            },
        }
        let ghost g0 = *self;
        let necessary = self.is_necessary(node);
        let n = self.nodes[node].children.len();
        let last = n - 1;
        if necessary && self.nodes[node].my_parent_index_in_child_at_index.len() < n {
            proof {
                assert(!g0.is_registered(g0.children(node as int).last() as int, last as int, node as int));
            }
            return false;
        }
        if edge_index != last {
            proof {
                assert(self.children(node as int)[edge_index as int] != node);
                assert(self.children(node as int)[last as int] != node);
            }
            if necessary {
                self.expert_swap_children(node, edge_index, last);
                proof {
                    lemma_swap_keeps(&g0, self, node as int, edge_index as int, last as int);
                }
            } else {
                let a = self.nodes[node].children[edge_index];
                let b = self.nodes[node].children[last];
                self.nodes[node].children.set(edge_index, b);
                self.nodes[node].children.set(last, a);
                proof {
                    lemma_unneeded_swap(&g0, self, node as int, edge_index as int, last as int);
                }
            }
        }
        let ghost g1 = *self;
        proof {
            assert(self.children(node as int) =~= g0.children(node as int).update(
                edge_index as int,
                g0.children(node as int).last(),
            ).update(last as int, g0.children(node as int)[edge_index as int]));
        }
        let c = self.nodes[node].children[last];
        proof {
            assert(c == g0.children(node as int)[edge_index as int]);
            assert(c < self.len());
        }
        if necessary {
            if last >= self.nodes[node].my_parent_index_in_child_at_index.len()
                || self.nodes[node].my_parent_index_in_child_at_index[last] < 0 {
                proof {
                    assert(!self.is_registered(c as int, last as int, node as int));
                    if edge_index != last {
                        assert(swapped(last as int, edge_index as int, last as int) == edge_index as int);
                        assert(!g0.is_registered(c as int, edge_index as int, node as int));
                    } else {
                        assert(*self == g0);
                    }
                }
                return false;
            }
            proof {
                lemma_remove_parent_ok(self, node as int, last as int);
            }
            let ghost gr = *self;
            self.remove_parent(c, last, node);
            proof {
                lemma_detached(&gr, self, rch, node as int, last as int, c as int);
            }
            let ghost gc = *self;
            self.check_if_unnecessary(rch, stats, handle_after, c);
            proof {
                assert forall|i: int| 0 <= i < g0.len() implies #[trigger] gc.nodes@[i].num_on_update_handlers
                    <= g0.nodes@[i].num_on_update_handlers by {
                    assert(gc.nodes@[i].num_on_update_handlers == gr.nodes@[i].num_on_update_handlers);
                    assert(gr.nodes@[i].num_on_update_handlers == g0.nodes@[i].num_on_update_handlers);
                }
                lemma_handle_after_trans(old(handle_after)@, old(handle_after)@, handle_after@, &g0, &gc);
                assert(gc.same_content(&gc));
                assert(self.children(node as int) == gc.children(node as int));
                assert(!self.parents(c as int).contains(node)) by {
                    if self.parents(c as int).contains(node) {
                        let k = choose|k: int| 0 <= k < self.parents(c as int).len() && self.parents(c as int)[k] == node;
                        assert(self.child_link_ok(c as int, k));
                        let cj = self.mci(c as int)[k] as int;
                        assert(self.is_registered(c as int, cj, node as int));
                        assert(gc.is_registered(c as int, cj, node as int));
                        assert(gr.is_registered(c as int, cj, node as int));
                        assert(gr.children(node as int)[cj] == c);
                        assert(gr.children(node as int)[last as int] == c);
                        assert(gr.children(node as int).no_duplicates());
                        assert(cj == last);
                    }
                }
            }
        }
        let ghost g2 = *self;
        self.nodes[node].children.pop();
        self.nodes[node].force_stale = true;
        proof {
            lemma_child_popped(&g2, self, rch, node as int);
        }
        if necessary && self.nodes[node].height_in_recompute_heap < 0 {
            let h = self.nodes[node].height;
            if h < 0 || h > rch.max_height_allowed() {
                return false;
            }
            proof {
                rch.lemma_wf();
                if rch@.contains_key(node) {
                    assert(self.nodes@[node as int].height_in_recompute_heap == rch@[node]);
                }
                assert(self.nodes.len() == self.nodes@.len());
                assert forall|x: usize| #[trigger] rch@.dom().contains(x) implies x < self.nodes.len() by {
                    assert(rch@.contains_key(x));
                }
                lemma_indices_below(rch@.dom(), self.nodes.len(), node);
            }
            let ghost g3 = *self;
            let ghost r3 = *rch;
            rch.insert(node, h);
            self.nodes[node].height_in_recompute_heap = h;
            proof {
                lemma_slot_filled(&g3, self, &r3, rch, node as int);
            }
        }
        proof {
            if necessary {
                if self.nodes@[node as int].height_in_recompute_heap >= 0 {
                    assert(self.nodes@[node as int].height_in_recompute_heap == (if rch@.contains_key((node as int) as usize) {
                        rch@[(node as int) as usize]
                    } else {
                        -1
                    }));
                }
            }
        }
        true
    }
}


/// Exchanging two inputs of a node, links and all, keeps every invariant.
proof fn lemma_swap_keeps(g0: &Graph, g: &Graph, pp: int, a: int, b: int)
    requires
        g0.wf(),
        g0.inputs_distinct(),
        g0.necessary_placed(),
        g0.parents_needed(),
        0 <= pp < g0.len(),
        0 <= a < g0.children(pp).len(),
        0 <= b < g0.children(pp).len(),
        a != b,
        g.wf(),
        g.len() == g0.len(),
        g.children(pp) == g0.children(pp).update(a, g0.children(pp)[b]).update(b, g0.children(pp)[a]),
        forall|i: int| 0 <= i < g.len() && i != pp ==> #[trigger] g.children(i) == g0.children(i),
        forall|i: int| 0 <= i < g.len() ==> #[trigger] g.parents(i) == g0.parents(i),
        forall|c: int, ci: int, p: int|
            0 <= p < g.len() ==> (#[trigger] g.is_registered(c, ci, p) <==> g0.is_registered(
                c,
                if p == pp {
                    swapped(ci, a, b)
                } else {
                    ci
                },
                p,
            )),
        forall|i: int|
            0 <= i < g.len() ==> (#[trigger] g.nodes@[i]).kind == g0.nodes@[i].kind && g.nodes@[i].height
                == g0.nodes@[i].height && g.nodes@[i].height_in_recompute_heap == g0.nodes@[i].height_in_recompute_heap
                && g.nodes@[i].num_observers == g0.nodes@[i].num_observers && g.nodes@[i].force_necessary
                == g0.nodes@[i].force_necessary,
    ensures
        g.inputs_distinct(),
        g.necessary_placed(),
        g.parents_needed(),
        forall|i: int| 0 <= i < g.len() ==> #[trigger] g.spec_is_necessary(i) == g0.spec_is_necessary(i),
        forall|i: int| 0 <= i < g.len() ==> #[trigger] g.nodes@[i].height_in_recompute_heap == g0.nodes@[i].height_in_recompute_heap,
        forall|i: int| 0 <= i < g.len() ==> #[trigger] g.height(i) == g0.height(i),
{
    assert forall|i: int| 0 <= i < g.len() implies #[trigger] g.spec_is_necessary(i) == g0.spec_is_necessary(i) by {
        assert(g.parents(i) == g0.parents(i));
    }
    assert forall|p: int| 0 <= p < g.len() implies {
        &&& (#[trigger] g.children(p)).no_duplicates()
        &&& forall|ci: int| 0 <= ci < g.children(p).len() ==> g.children(p)[ci] != p
    } by {
        assert(g0.children(p).no_duplicates());
        if p == pp {
            assert forall|x: int, y: int| 0 <= x < y < g.children(p).len() implies g.children(p)[x] != g.children(p)[y] by {
                assert(g.children(p)[x] == g0.children(p)[swapped(x, a, b)]);
                assert(g.children(p)[y] == g0.children(p)[swapped(y, a, b)]);
            }
            assert forall|ci: int| 0 <= ci < g.children(p).len() implies g.children(p)[ci] != p by {
                assert(g.children(p)[ci] == g0.children(p)[swapped(ci, a, b)]);
            }
        }
    }
    assert forall|i: int| 0 <= i < g.len() && #[trigger] g.spec_is_necessary(i) implies g.height(i) >= 0 by {
        assert(g.spec_is_necessary(i) == g0.spec_is_necessary(i));
        assert(g.nodes@[i].height == g0.nodes@[i].height);
    }
    assert forall|c: int, ci: int, p: int| 0 <= p < g.len() && #[trigger] g.is_registered(c, ci, p) implies g.spec_is_necessary(p) by {
        if p == pp {
            assert(g0.is_registered(c, swapped(ci, a, b), p));
        } else {
            assert(g0.is_registered(c, ci, p));
        }
        assert(g.spec_is_necessary(p) == g0.spec_is_necessary(p));
    }
    assert forall|i: int| 0 <= i < g.len() implies #[trigger] g.height(i) == g0.height(i) by {
        assert(g.nodes@[i].height == g0.nodes@[i].height);
    }
    assert forall|i: int| 0 <= i < g.len() implies #[trigger] g.nodes@[i].height_in_recompute_heap == g0.nodes@[i].height_in_recompute_heap by {
        assert(g.nodes@[i].height == g0.nodes@[i].height);
    }
}

/// Exchanging two inputs of a node that reads none of them registered keeps every
/// invariant.
proof fn lemma_unneeded_swap(g0: &Graph, g: &Graph, pp: int, a: int, b: int)
    requires
        g0.wf(),
        g0.inputs_distinct(),
        g0.necessary_placed(),
        g0.parents_needed(),
        0 <= pp < g0.len(),
        !g0.spec_is_necessary(pp),
        0 <= a < g0.children(pp).len(),
        0 <= b < g0.children(pp).len(),
        a != b,
        g.len() == g0.len(),
        forall|i: int| 0 <= i < g.len() && i != pp ==> #[trigger] g.nodes@[i] == g0.nodes@[i],
        g.nodes@[pp] == (Node { children: g.nodes@[pp].children, ..g0.nodes@[pp] }),
        g.children(pp) == g0.children(pp).update(a, g0.children(pp)[b]).update(b, g0.children(pp)[a]),
    ensures
        g.wf(),
        g.inputs_distinct(),
        g.necessary_placed(),
        g.parents_needed(),
        forall|i: int| 0 <= i < g.len() ==> #[trigger] g.spec_is_necessary(i) == g0.spec_is_necessary(i),
        forall|i: int| 0 <= i < g.len() ==> #[trigger] g.nodes@[i].height_in_recompute_heap == g0.nodes@[i].height_in_recompute_heap,
        forall|i: int| 0 <= i < g.len() ==> #[trigger] g.height(i) == g0.height(i),
        forall|c: int, ci: int| !(#[trigger] g.is_registered(c, ci, pp)),
{
    assert forall|ci: int| 0 <= ci < g0.mpi(pp).len() implies #[trigger] g0.mpi(pp)[ci] < 0 by {
        if g0.mpi(pp)[ci] >= 0 {
            assert(g0.parent_link_ok(pp, ci));
            assert(g0.is_registered(g0.children(pp)[ci] as int, ci, pp));
        }
    }
    assert forall|c: int, pi: int| 0 <= c < g0.len() && 0 <= pi < g0.parents(c).len() implies #[trigger] g0.parents(c)[pi]
        != pp by {
        assert(g0.child_link_ok(c, pi));
        if g0.parents(c)[pi] == pp {
            let ci = g0.mci(c)[pi] as int;
            assert(g0.mpi(pp)[ci] == pi);
        }
    }
    assert forall|i: int| 0 <= i < g.len() implies #[trigger] g.spec_is_necessary(i) == g0.spec_is_necessary(i) by {
        assert(g.nodes@[i].parents == g0.nodes@[i].parents);
    }
    assert forall|i: int| 0 <= i < g.len() implies #[trigger] g.height(i) == g0.height(i) by {}
    assert forall|i: int| 0 <= i < g.len() implies #[trigger] g.nodes@[i].height_in_recompute_heap == g0.nodes@[i].height_in_recompute_heap by {}
    assert forall|c: int, pi: int| 0 <= c < g.len() && 0 <= pi < g.parents(c).len() implies #[trigger] g.parents(c)[pi] < g.len() by {
        assert(g.parents(c) == g0.parents(c));
    }
    assert forall|p: int, ci: int| 0 <= p < g.len() && 0 <= ci < g.children(p).len() implies #[trigger] g.children(p)[ci] < g.len() by {
        if p == pp {
            assert(g.children(p)[ci] == g0.children(p)[swapped(ci, a, b)]);
            assert(g0.children(p)[swapped(ci, a, b)] < g0.len());
        } else {
            assert(g0.children(p)[ci] < g0.len());
        }
    }
    assert forall|bb: int, r: int| 0 <= bb < g.len() && 0 <= r < g.nodes@[bb].rhs_nodes@.len() implies #[trigger] g.nodes@[bb].rhs_nodes@[r]
        < g.len() by {
        assert(g.nodes@[bb].rhs_nodes == g0.nodes@[bb].rhs_nodes);
    }
    assert forall|nn: int| 0 <= nn < g.len() implies match #[trigger] g.nodes@[nn].created_in {
        Some(sc) => sc < g.len(),
        None => true,
    } by {
        assert(g.nodes@[nn].created_in == g0.nodes@[nn].created_in);
    }
    assert forall|c: int, pi: int| 0 <= c < g.len() && 0 <= pi < g.parents(c).len() implies #[trigger] g.child_link_ok(c, pi) by {
        assert(g0.child_link_ok(c, pi));
        assert(g0.parents(c)[pi] != pp);
        assert(g.nodes@[c].parents == g0.nodes@[c].parents);
    }
    assert forall|p: int, ci: int|
        0 <= p < g.len() && 0 <= ci < g.mpi(p).len() && g.mpi(p)[ci] >= 0 implies #[trigger] g.parent_link_ok(p, ci) by {
        if p == pp {
            assert(g0.mpi(pp)[ci] < 0);
        }
        assert(g0.parent_link_ok(p, ci));
        assert(g0.children(p)[ci] < g0.len());
    }
    assert forall|c: int, ci: int| !(#[trigger] g.is_registered(c, ci, pp)) by {
        if 0 <= ci < g.mpi(pp).len() {
            assert(g0.mpi(pp)[ci] < 0);
        }
    }
    assert forall|p: int| 0 <= p < g.len() implies {
        &&& (#[trigger] g.children(p)).no_duplicates()
        &&& forall|ci: int| 0 <= ci < g.children(p).len() ==> g.children(p)[ci] != p
    } by {
        assert(g0.children(p).no_duplicates());
        if p == pp {
            assert forall|x: int, y: int| 0 <= x < y < g.children(p).len() implies g.children(p)[x] != g.children(p)[y] by {
                assert(g.children(p)[x] == g0.children(p)[swapped(x, a, b)]);
                assert(g.children(p)[y] == g0.children(p)[swapped(y, a, b)]);
            }
            assert forall|ci: int| 0 <= ci < g.children(p).len() implies g.children(p)[ci] != p by {
                assert(g.children(p)[ci] == g0.children(p)[swapped(ci, a, b)]);
            }
        }
    }
    assert forall|i: int| 0 <= i < g.len() && #[trigger] g.spec_is_necessary(i) implies g.height(i) >= 0 by {
        assert(g.spec_is_necessary(i) == g0.spec_is_necessary(i));
    }
    assert forall|c: int, ci: int, p: int| 0 <= p < g.len() && #[trigger] g.is_registered(c, ci, p) implies g.spec_is_necessary(p) by {
        if p == pp {
            assert(g0.mpi(pp)[ci] < 0);
        }
        assert(g0.is_registered(c, ci, p));
        assert(g.spec_is_necessary(p) == g0.spec_is_necessary(p));
    }
}

/// After `node` stopped reading input `c` at child index `ci`: every invariant stays,
/// and the heights and heap positions are those from before.
pub(crate) proof fn lemma_detached(g0: &Graph, g: &Graph, rch: &RecomputeHeap, node: int, ci: int, c: int)
    requires
        g0.wf(),
        g0.inputs_distinct(),
        g0.necessary_placed(),
        g0.rch_consistent(rch),
        0 <= node < g0.len(),
        0 <= c < g0.len(),
        c != node,
        g0.is_registered(c, ci, node),
        g.wf(),
        g.same_except_links(g0),
        forall|i: int| 0 <= i < g.len() && i != c ==> #[trigger] g.parents(i) == g0.parents(i),
        g.parents(c).len() == g0.parents(c).len() - 1,
        !g.is_registered(c, ci, node),
        forall|cc: int, cj: int, p: int|
            0 <= p < g.len() && (cc != c || cj != ci || p != node) ==> (#[trigger] g.is_registered(cc, cj, p)
                <==> g0.is_registered(cc, cj, p)),
    ensures
        g.inputs_distinct(),
        g.necessary_placed(),
        g.rch_consistent(rch),
        g.height(c) >= 0,
        forall|i: int| 0 <= i < g.len() ==> #[trigger] g.children(i) == g0.children(i),
        forall|i: int| 0 <= i < g.len() ==> #[trigger] g.height(i) == g0.height(i),
        forall|cc: int, cj: int, p: int| 0 <= p < g.len() && #[trigger] g.is_registered(cc, cj, p) ==> g0.is_registered(cc, cj, p),
{
    assert forall|i: int| 0 <= i < g.len() implies #[trigger] g.children(i) == g0.children(i) by {
        assert(g.nodes@[i].children@ == g0.nodes@[i].children@);
    }
    assert forall|i: int| 0 <= i < g.len() implies #[trigger] g.height(i) == g0.height(i) by {
        assert(g.nodes@[i].height == g0.nodes@[i].height);
    }
    assert forall|p: int| 0 <= p < g.len() implies {
        &&& (#[trigger] g.children(p)).no_duplicates()
        &&& forall|cj: int| 0 <= cj < g.children(p).len() ==> g.children(p)[cj] != p
    } by {
        assert(g.children(p) == g0.children(p));
        assert(g0.children(p).no_duplicates());
    }
    assert forall|i: int| 0 <= i < g.len() && #[trigger] g.spec_is_necessary(i) implies g0.spec_is_necessary(i) by {
        if i != c {
            assert(g.parents(i) == g0.parents(i));
        }
        assert(g.nodes@[i].num_observers == g0.nodes@[i].num_observers);
        assert(g.nodes@[i].force_necessary == g0.nodes@[i].force_necessary);
    }
    assert forall|i: int| 0 <= i < g.len() && #[trigger] g.spec_is_necessary(i) implies g.height(i) >= 0 by {
        assert(g0.spec_is_necessary(i));
        assert(g.height(i) == g0.height(i));
    }
    assert(g0.parent_link_ok(node, ci));
    assert(g0.parents(c).len() > 0);
    assert(g0.spec_is_necessary(c));
    assert(g.height(c) == g0.height(c));
    assert forall|i: int| 0 <= i < g.len() implies #[trigger] g.nodes@[i].height_in_recompute_heap == (if rch@.contains_key(
        i as usize,
    ) {
        rch@[i as usize]
    } else {
        -1
    }) by {
        assert(g.nodes@[i].height_in_recompute_heap == g0.nodes@[i].height_in_recompute_heap);
    }
    assert forall|cc: int, cj: int, p: int| 0 <= p < g.len() && #[trigger] g.is_registered(cc, cj, p) implies g0.is_registered(
        cc,
        cj,
        p,
    ) by {}
}

/// Dropping the last input of `node`, whose slot is no longer registered, and marking
/// `node` stale keeps every invariant.
proof fn lemma_child_popped(g0: &Graph, g: &Graph, rch: &RecomputeHeap, node: int)
    requires
        g0.wf(),
        g0.inputs_distinct(),
        g0.necessary_placed(),
        g0.rch_consistent(rch),
        0 <= node < g0.len(),
        g0.children(node).len() > 0,
        forall|c: int| !(#[trigger] g0.is_registered(c, g0.children(node).len() - 1, node)),
        g.len() == g0.len(),
        forall|i: int| 0 <= i < g.len() && i != node ==> #[trigger] g.nodes@[i] == g0.nodes@[i],
        g.nodes@[node] == (Node { children: g.nodes@[node].children, force_stale: true, ..g0.nodes@[node] }),
        g.children(node) == g0.children(node).drop_last(),
    ensures
        g.wf(),
        g.inputs_distinct(),
        g.necessary_placed(),
        g.rch_consistent(rch),
        forall|i: int| 0 <= i < g.len() ==> #[trigger] g.spec_is_necessary(i) == g0.spec_is_necessary(i),
        forall|i: int| 0 <= i < g.len() ==> #[trigger] g.height(i) == g0.height(i),
        forall|i: int| 0 <= i < g.len() ==> #[trigger] g.parents(i) == g0.parents(i),
{
    let last = g0.children(node).len() - 1;
    assert forall|i: int| 0 <= i < g.len() implies #[trigger] g.spec_is_necessary(i) == g0.spec_is_necessary(i) by {
        assert(g.nodes@[i].parents == g0.nodes@[i].parents);
    }
    assert forall|i: int| 0 <= i < g.len() implies #[trigger] g.height(i) == g0.height(i) by {}
    assert forall|i: int| 0 <= i < g.len() implies #[trigger] g.parents(i) == g0.parents(i) by {}
    assert(g0.mpi(node).len() > last ==> g0.mpi(node)[last] < 0) by {
        if g0.mpi(node).len() > last && g0.mpi(node)[last] >= 0 {
            assert(g0.parent_link_ok(node, last));
            assert(g0.is_registered(g0.children(node)[last] as int, last, node));
        }
    }
    assert forall|c: int, pi: int| 0 <= c < g.len() && 0 <= pi < g.parents(c).len() implies #[trigger] g.parents(c)[pi] < g.len() by {
        assert(g0.parents(c)[pi] < g0.len());
    }
    assert forall|p: int, ci: int| 0 <= p < g.len() && 0 <= ci < g.children(p).len() implies #[trigger] g.children(p)[ci] < g.len() by {
        if p == node {
            assert(g.children(p)[ci] == g0.children(p)[ci]);
        }
        assert(g0.children(p)[ci] < g0.len());
    }
    assert forall|bb: int, r: int| 0 <= bb < g.len() && 0 <= r < g.nodes@[bb].rhs_nodes@.len() implies #[trigger] g.nodes@[bb].rhs_nodes@[r]
        < g.len() by {
        assert(g.nodes@[bb].rhs_nodes == g0.nodes@[bb].rhs_nodes);
    }
    assert forall|nn: int| 0 <= nn < g.len() implies match #[trigger] g.nodes@[nn].created_in {
        Some(sc) => sc < g.len(),
        None => true,
    } by {
        assert(g.nodes@[nn].created_in == g0.nodes@[nn].created_in);
        assert(match g0.nodes@[nn].created_in {
            Some(sc) => sc < g0.len(),
            None => true,
        });
    }
    assert forall|c: int, pi: int| 0 <= c < g.len() && 0 <= pi < g.parents(c).len() implies #[trigger] g.child_link_ok(c, pi) by {
        assert(g0.child_link_ok(c, pi));
        let p = g0.parents(c)[pi] as int;
        let ci = g0.mci(c)[pi] as int;
        assert(g0.parents(c)[pi] < g0.len());
        if p == node {
            assert(ci != last);
            assert(g.children(p)[ci] == g0.children(p)[ci]);
        }
    }
    assert forall|p: int, ci: int|
        0 <= p < g.len() && 0 <= ci < g.mpi(p).len() && g.mpi(p)[ci] >= 0 implies #[trigger] g.parent_link_ok(p, ci) by {
        assert(g0.parent_link_ok(p, ci));
        assert(g0.children(p)[ci] < g0.len());
        if p == node {
            assert(ci != last);
            assert(g.children(p)[ci] == g0.children(p)[ci]);
        }
    }
    assert forall|p: int| 0 <= p < g.len() implies {
        &&& (#[trigger] g.children(p)).no_duplicates()
        &&& forall|ci: int| 0 <= ci < g.children(p).len() ==> g.children(p)[ci] != p
    } by {
        assert(g0.children(p).no_duplicates());
        if p == node {
            assert forall|x: int, y: int| 0 <= x < y < g.children(p).len() implies g.children(p)[x] != g.children(p)[y] by {
                assert(g.children(p)[x] == g0.children(p)[x]);
                assert(g.children(p)[y] == g0.children(p)[y]);
            }
            assert forall|ci: int| 0 <= ci < g.children(p).len() implies g.children(p)[ci] != p by {
                assert(g.children(p)[ci] == g0.children(p)[ci]);
            }
        }
    }
    assert forall|i: int| 0 <= i < g.len() && #[trigger] g.spec_is_necessary(i) implies g.height(i) >= 0 by {
        assert(g.spec_is_necessary(i) == g0.spec_is_necessary(i));
    }
    assert forall|i: int| 0 <= i < g.len() implies #[trigger] g.nodes@[i].height_in_recompute_heap == (if rch@.contains_key(
        i as usize,
    ) {
        rch@[i as usize]
    } else {
        -1
    }) by {
        assert(g.nodes@[i].height_in_recompute_heap == g0.nodes@[i].height_in_recompute_heap);
    }
}

} // verus!
