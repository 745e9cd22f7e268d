use vstd::prelude::*;

use crate::adjust_heights_heap::AdjustHeightsHeap;
use crate::expert::lemma_detached;
use crate::graph::{Graph, Kind, Node};
use crate::invalidity::{lemma_frame_handlers, stack_ok};
use crate::node_state::{handle_after_grown, lemma_handle_after_trans};
use crate::necessity::{lemma_remove_parent_ok, lemma_unhooked_handlers, lemma_wf_same_links};
use crate::public::{bumped, Stats};
use crate::recompute_heap::RecomputeHeap;
use crate::stabilisation_num::StabilisationNum;

verus! {

/// Recording what a bind's scope holds and when its left-hand-side change node changed
/// touches no link, height or heap position: every invariant carries over.
proof fn lemma_scope_recorded(g0: &Graph, g: &Graph, rch: &RecomputeHeap, b: int, max: int)
    requires
        g0.wf(),
        g0.inputs_distinct(),
        g0.necessary_placed(),
        g0.parents_needed(),
        g0.heights_within(max),
        g0.rch_consistent(rch),
        0 <= b < g0.len(),
        forall|j: int| 0 <= j < g.nodes@[b].rhs_nodes@.len() ==> #[trigger] g.nodes@[b].rhs_nodes@[j] < g0.len(),
        g.len() == g0.len(),
        forall|i: int| 0 <= i < g.len() && i != b ==> #[trigger] g.nodes@[i] == g0.nodes@[i],
        g.nodes@[b] == (Node { rhs_nodes: g.nodes@[b].rhs_nodes, changed_at: g.nodes@[b].changed_at, ..g0.nodes@[b] }),
    ensures
        g.wf(),
        g.inputs_distinct(),
        g.necessary_placed(),
        g.parents_needed(),
        g.heights_within(max),
        g.rch_consistent(rch),
        forall|i: int| 0 <= i < g.len() ==> #[trigger] g.children(i) == g0.children(i),
        forall|c: int, ci: int, p: int| 0 <= p < g.len() ==> (#[trigger] g.is_registered(c, ci, p) == g0.is_registered(c, ci, p)),
        forall|i: int| 0 <= i < g.len() ==> #[trigger] g.spec_is_necessary(i) == g0.spec_is_necessary(i),
{
    assert forall|i: int| 0 <= i < g.len() implies {
        &&& #[trigger] g.parents(i) == g0.parents(i)
        &&& g.children(i) == g0.children(i)
        &&& g.mpi(i) == g0.mpi(i)
        &&& g.mci(i) == g0.mci(i)
        &&& g.nodes@[i].created_in == g0.nodes@[i].created_in
        &&& g.height(i) == g0.height(i)
        &&& g.nodes@[i].height_in_recompute_heap == g0.nodes@[i].height_in_recompute_heap
        &&& g.spec_is_necessary(i) == g0.spec_is_necessary(i)
    } by {}
    assert(g.ids_ok()) by {
        assert forall|c: int, pi: int|
            0 <= c < g.len() && 0 <= pi < g.parents(c).len() implies #[trigger] g.parents(c)[pi] < g.len() by {
            assert(g0.parents(c)[pi] < g0.len());
        }
        assert forall|q: int, ci: int|
            0 <= q < g.len() && 0 <= ci < g.children(q).len() implies #[trigger] g.children(q)[ci] < g.len() by {
            assert(g0.children(q)[ci] < g0.len());
        }
        assert forall|c: int, r: int|
            0 <= c < g.len() && 0 <= r < g.nodes@[c].rhs_nodes@.len() implies #[trigger] g.nodes@[c].rhs_nodes@[r]
                < g.len() by {
            if c != b {
                assert(g0.nodes@[c].rhs_nodes@[r] < g0.len());
            }
        }
        assert forall|n: int|
            0 <= n < g.len() implies match #[trigger] g.nodes@[n].created_in {
                Some(s) => s < g.len(),
                None => true,
            } by {
            assert(match g0.nodes@[n].created_in {
                Some(s) => s < g0.len(),
                None => true,
            });
        }
    }
    assert forall|c: int, pi: int| 0 <= c < g.len() && 0 <= pi < g.parents(c).len() implies #[trigger] g.child_link_ok(c, pi) by {
        assert(g0.child_link_ok(c, pi));
        assert(g0.parents(c)[pi] < g0.len());
    }
    assert forall|q: int, cj: int|
        0 <= q < g.len() && 0 <= cj < g.mpi(q).len() && g.mpi(q)[cj] >= 0 implies #[trigger] g.parent_link_ok(q, cj) by {
        assert(g0.parent_link_ok(q, cj));
        assert(g0.children(q)[cj] < g0.len());
    }
    assert forall|c: int, ci: int, p: int| 0 <= p < g.len() implies (#[trigger] g.is_registered(c, ci, p)
        == g0.is_registered(c, ci, p)) by {}
    assert forall|q: int| 0 <= q < g.len() implies {
        &&& (#[trigger] g.children(q)).no_duplicates()
        &&& forall|cj: int| 0 <= cj < g.children(q).len() ==> g.children(q)[cj] != q
    } by {
        assert(g.children(q) == g0.children(q));
        assert(g0.children(q).no_duplicates());
    }
    assert forall|i: int| 0 <= i < g.len() implies -1 <= #[trigger] g.height(i) <= max by {
        assert(-1 <= g0.height(i) <= max);
    }
}

/// Setting or clearing the flag that forces node `n` to be needed touches no link:
/// every invariant but neededness of `n` carries over.
proof fn lemma_force_set(g0: &Graph, g: &Graph, rch: &RecomputeHeap, n: int, v: bool)
    requires
        g0.wf(),
        g0.inputs_distinct(),
        g0.rch_consistent(rch),
        0 <= n < g0.len(),
        g.len() == g0.len(),
        forall|i: int| 0 <= i < g.len() && i != n ==> #[trigger] g.nodes@[i] == g0.nodes@[i],
        g.nodes@[n] == (Node { force_necessary: v, ..g0.nodes@[n] }),
    ensures
        g.wf(),
        g.inputs_distinct(),
        g.rch_consistent(rch),
        forall|c: int, ci: int, p: int| 0 <= p < g.len() ==> (#[trigger] g.is_registered(c, ci, p) == g0.is_registered(c, ci, p)),
        forall|i: int| 0 <= i < g.len() ==> #[trigger] g.height(i) == g0.height(i),
        forall|i: int| 0 <= i < g.len() ==> #[trigger] g.parents(i) == g0.parents(i),
        forall|i: int| 0 <= i < g.len() ==> #[trigger] g.children(i) == g0.children(i),
        forall|i: int| 0 <= i < g.len() && i != n ==> #[trigger] g.spec_is_necessary(i) == g0.spec_is_necessary(i),
        v ==> g.spec_is_necessary(n),
        !v ==> forall|i: int| 0 <= i < g.len() && #[trigger] g.spec_is_necessary(i) ==> g0.spec_is_necessary(i),
        g0.necessary_placed() && (v ==> g0.height(n) >= 0) ==> g.necessary_placed(),
        g0.parents_needed() && v ==> g.parents_needed(),
        forall|p: int| 0 <= p < g.len() && p != n && #[trigger] g0.parent_fine(p) ==> g.parent_fine(p),
{
    assert forall|i: int| 0 <= i < g.len() implies {
        &&& (#[trigger] g.nodes@[i]).parents@ == g0.nodes@[i].parents@
        &&& g.nodes@[i].children@ == g0.nodes@[i].children@
        &&& g.nodes@[i].my_parent_index_in_child_at_index@ == g0.nodes@[i].my_parent_index_in_child_at_index@
        &&& g.nodes@[i].my_child_index_in_parent_at_index@ == g0.nodes@[i].my_child_index_in_parent_at_index@
        &&& g.nodes@[i].rhs_nodes@ == g0.nodes@[i].rhs_nodes@
        &&& g.nodes@[i].created_in == g0.nodes@[i].created_in
        &&& g.nodes@[i].height == g0.nodes@[i].height
        &&& g.nodes@[i].height_in_recompute_heap == g0.nodes@[i].height_in_recompute_heap
    } by {}
    lemma_wf_same_links(g0, g);
    assert forall|i: int| 0 <= i < g.len() implies #[trigger] g.parents(i) == g0.parents(i) by {}
    assert forall|i: int| 0 <= i < g.len() implies #[trigger] g.children(i) == g0.children(i) by {}
    assert forall|i: int| 0 <= i < g.len() implies #[trigger] g.height(i) == g0.height(i) by {}
    if g0.necessary_placed() && (v ==> g0.height(n) >= 0) {
        assert forall|i: int| 0 <= i < g.len() && #[trigger] g.spec_is_necessary(i) implies g.height(i) >= 0 by {
            if i != n || !v {
                assert(g0.spec_is_necessary(i));
            }
        }
    }
}

/// Putting `new` into input slot `ci` of `p` (in place of an input that `p` is not
/// registered with, or as a new last input) keeps every invariant and every
/// registration.
proof fn lemma_slot_set(g0: &Graph, g: &Graph, rch: &RecomputeHeap, p: int, ci: int, new: usize)
    requires
        g0.wf(),
        g0.inputs_distinct(),
        g0.necessary_placed(),
        g0.parents_needed(),
        g0.rch_consistent(rch),
        0 <= p < g0.len(),
        0 <= new < g0.len(),
        new != p,
        0 <= ci <= g0.children(p).len(),
        ci < g0.mpi(p).len() ==> g0.mpi(p)[ci] < 0,
        forall|j: int| 0 <= j < g0.children(p).len() && j != ci ==> g0.children(p)[j] != new,
        g.len() == g0.len(),
        forall|i: int| 0 <= i < g.len() && i != p ==> #[trigger] g.nodes@[i] == g0.nodes@[i],
        g.nodes@[p] == (Node { children: g.nodes@[p].children, ..g0.nodes@[p] }),
        g.children(p) == (if ci < g0.children(p).len() {
            g0.children(p).update(ci, new)
        } else {
            g0.children(p).push(new)
        }),
    ensures
        g.wf(),
        g.inputs_distinct(),
        g.necessary_placed(),
        g.parents_needed(),
        g.rch_consistent(rch),
        forall|i: int| 0 <= i < g.len() ==> #[trigger] g.spec_is_necessary(i) == g0.spec_is_necessary(i),
        forall|i: int| 0 <= i < g.len() ==> #[trigger] g.height(i) == g0.height(i),
        forall|i: int| 0 <= i < g.len() ==> #[trigger] g.parents(i) == g0.parents(i),
        forall|c: int, cj: int, q: int| 0 <= q < g.len() ==> (#[trigger] g.is_registered(c, cj, q) == g0.is_registered(c, cj, q)),
        forall|c: int| !(#[trigger] g.is_registered(c, ci, p)),
{
    assert forall|i: int| 0 <= i < g.len() implies {
        &&& #[trigger] g.parents(i) == g0.parents(i)
        &&& g.mpi(i) == g0.mpi(i)
        &&& g.mci(i) == g0.mci(i)
        &&& g.nodes@[i].rhs_nodes@ == g0.nodes@[i].rhs_nodes@
        &&& g.nodes@[i].created_in == g0.nodes@[i].created_in
        &&& (i != p ==> g.children(i) == g0.children(i))
        &&& g.spec_is_necessary(i) == g0.spec_is_necessary(i)
        &&& g.height(i) == g0.height(i)
        &&& g.nodes@[i].height_in_recompute_heap == g0.nodes@[i].height_in_recompute_heap
    } by {
        if i == p {
            assert(g.nodes@[p].parents == g0.nodes@[p].parents);
        }
    }
    assert forall|j: int| 0 <= j < g.children(p).len() && j != ci implies g.children(p)[j] == g0.children(p)[j] by {}
    assert(g.children(p)[ci] == new);
    assert(g.children(p).len() == (if ci < g0.children(p).len() {
        g0.children(p).len()
    } else {
        g0.children(p).len() + 1
    }));
    assert forall|q: int, cj: int|
        0 <= q < g.len() && 0 <= cj < g.children(q).len() implies #[trigger] g.children(q)[cj] < g.len() by {
        if q == p {
            if cj != ci {
                assert(g0.children(p)[cj] < g0.len());
            }
        } else {
            assert(g0.children(q)[cj] < g0.len());
        }
    }
    assert(g.ids_ok()) by {
        assert forall|c: int, pi: int|
            0 <= c < g.len() && 0 <= pi < g.parents(c).len() implies #[trigger] g.parents(c)[pi] < g.len() by {
            assert(g0.parents(c)[pi] < g0.len());
        }
        assert forall|b: int, r: int|
            0 <= b < g.len() && 0 <= r < g.nodes@[b].rhs_nodes@.len() implies #[trigger] g.nodes@[b].rhs_nodes@[r]
                < g.len() by {
            assert(g0.nodes@[b].rhs_nodes@[r] < g0.len());
        }
        assert forall|n: int|
            0 <= n < g.len() implies match #[trigger] g.nodes@[n].created_in {
                Some(s) => s < g.len(),
                None => true,
            } by {
            assert(match g0.nodes@[n].created_in {
                Some(s) => s < g0.len(),
                None => true,
            });
        }
    }
    assert forall|c: int, pi: int| 0 <= c < g.len() && 0 <= pi < g.parents(c).len() implies #[trigger] g.child_link_ok(c, pi) by {
        assert(g0.child_link_ok(c, pi));
        let q = g0.parents(c)[pi] as int;
        let cj = g0.mci(c)[pi] as int;
        assert(g0.parents(c)[pi] < g0.len());
        if q == p {
            assert(cj != ci);
        }
    }
    assert forall|q: int, cj: int|
        0 <= q < g.len() && 0 <= cj < g.mpi(q).len() && g.mpi(q)[cj] >= 0 implies #[trigger] g.parent_link_ok(q, cj) by {
        assert(g0.parent_link_ok(q, cj));
        if q == p {
            assert(cj != ci);
        }
    }
    assert forall|c: int, cj: int, q: int| 0 <= q < g.len() implies (#[trigger] g.is_registered(c, cj, q)
        == g0.is_registered(c, cj, q)) by {
        if q == p && 0 <= cj < g0.mpi(p).len() && g0.mpi(p)[cj] >= 0 {
            assert(g0.parent_link_ok(p, cj));
            assert(cj != ci);
            assert(g.children(p)[cj] == g0.children(p)[cj]);
        }
    }
    assert forall|q: int| 0 <= q < g.len() implies {
        &&& (#[trigger] g.children(q)).no_duplicates()
        &&& forall|cj: int| 0 <= cj < g.children(q).len() ==> g.children(q)[cj] != q
    } by {
        assert(g0.children(q).no_duplicates());
        if q == p {
            assert forall|a: int, b: int|
                0 <= a < g.children(p).len() && 0 <= b < g.children(p).len() && a != b implies g.children(p)[a]
                    != g.children(p)[b] by {
                if a != ci && b != ci {
                    assert(g0.children(p)[a] != g0.children(p)[b]);
                } else if a == ci {
                    assert(g.children(p)[b] == g0.children(p)[b]);
                } else {
                    assert(g.children(p)[a] == g0.children(p)[a]);
                }
            }
            assert forall|cj: int| 0 <= cj < g.children(p).len() implies g.children(p)[cj] != p by {
                if cj != ci {
                    assert(g.children(p)[cj] == g0.children(p)[cj]);
                    assert(g0.children(p)[cj] != p);
                }
            }
        } else {
            assert forall|cj: int| 0 <= cj < g.children(q).len() implies g.children(q)[cj] != q by {
                assert(g0.children(q)[cj] != q);
            }
        }
    }
}

impl Graph {
    /// A bind reading `lhs`, made in scope `created_in`: a left-hand-side change node
    /// with `lhs` as its only input, and the bind's main node, which reads the change
    /// node and, once a right-hand side is known, that node too. Both start
    /// unnecessary; nothing else changes.
    pub fn create_bind(&mut self, stats: &mut Stats, lhs: usize, created_in: Option<usize>) -> (r: (usize, usize))
        requires
            old(self).wf(),
            old(self).len() + 2 <= usize::MAX,
            lhs < old(self).len(),
            match created_in {
                Some(s) => s < old(self).len(),
                None => true,
            },
        ensures
            final(self).wf(),
            r.0 == old(self).len(),
            r.1 == old(self).len() + 1,
            final(self).len() == old(self).len() + 2,
            forall|i: int| 0 <= i < old(self).len() ==> #[trigger] final(self).nodes@[i] == old(self).nodes@[i],
            final(self).nodes@[r.0 as int].kind == Kind::BindLhsChange,
            final(self).children(r.0 as int) == seq![lhs],
            final(self).nodes@[r.0 as int].created_in == created_in,
            final(self).nodes@[r.1 as int].kind == Kind::BindMain,
            final(self).children(r.1 as int) == seq![r.0],
            final(self).nodes@[r.1 as int].created_in == created_in,
            forall|i: int|
                old(self).len() <= i < final(self).len() ==> {
                    &&& !final(self).spec_is_necessary(i)
                    &&& final(self).height(i) == -1
                    &&& (#[trigger] final(self).nodes@[i]).is_valid
                    &&& final(self).nodes@[i].rhs_nodes@.len() == 0
                },
            *final(stats) == (Stats { created: bumped(bumped(old(stats).created)), ..*old(stats) }),
    {
        let ghost g0 = *self;
        let lhs_change = self.create(stats, Kind::BindLhsChange, vec![lhs], created_in);
        let ghost g1 = *self;
        let main = self.create(stats, Kind::BindMain, vec![lhs_change], created_in);
        proof {
            assert(self.nodes@[lhs_change as int] == g1.nodes@[lhs_change as int]);
            assert(self.children(lhs_change as int) =~= seq![lhs]);
            assert(self.children(main as int) =~= seq![lhs_change]);
        }
        (lhs_change, main)
    }

    /// The bind's main node `main` takes `new_rhs` as its right-hand side, its input at
    /// index 1 after the left-hand-side change node. When `main` is needed, the old
    /// right-hand side stops having `main` as a parent (and is kept needed meanwhile, so
    /// that it is not detached and reattached on the way, then checked for being
    /// unnecessary once the new one is attached), and the new right-hand side is
    /// registered with `main` (becoming needed with everything it reads, where it was
    /// not). Heights are not raised here: where the new right-hand side ends up at or
    /// above `main`, the caller adjusts heights for that edge. `false` comes back, with
    /// the work stopped part-way, where a needed `main` is not registered with its old
    /// right-hand side, where `new_rhs` has as many parents as an index can count, or
    /// where attaching it is blocked (see `attach_blocked`).
    #[verifier::spinoff_prover]
    #[verifier::rlimit(80)]
    pub fn change_bind_rhs(
        &mut self,
        ahh: &mut AdjustHeightsHeap,
        rch: &mut RecomputeHeap,
        stack: &mut Vec<usize>,
        stats: &mut Stats,
        handle_after: &mut Vec<usize>,
        main: usize,
        new_rhs: usize,
    ) -> (ok: bool)
        requires
            old(self).wf(),
            old(self).inputs_distinct(),
            old(self).necessary_placed(),
            old(self).parents_needed(),
            old(self).heights_within(old(ahh).max_allowed()),
            main < old(self).len(),
            new_rhs < old(self).len(),
            new_rhs != main,
            old(self).nodes@[main as int].kind == Kind::BindMain,
            old(self).children(main as int).len() == 1 || old(self).children(main as int).len() == 2,
            old(self).children(main as int)[0] != new_rhs,
            old(rch).wf(),
            old(self).rch_consistent(old(rch)),
            old(ahh).wf(),
            stack_ok(old(stack)@, old(self)),
        ensures
            final(self).wf(),
            final(self).inputs_distinct(),
            final(self).parents_needed(),
            final(self).heights_within(final(ahh).max_allowed()),
            final(self).len() == old(self).len(),
            final(rch).wf(),
            final(rch).max_allowed() == old(rch).max_allowed(),
            final(self).rch_consistent(final(rch)),
            final(ahh).wf(),
            final(ahh).max_allowed() == old(ahh).max_allowed(),
            stack_ok(final(stack)@, final(self)),
            old(stack)@.len() <= final(stack)@.len(),
            forall|i: int| 0 <= i < final(self).len() ==> (#[trigger] final(self).nodes@[i]).rhs_nodes@ == old(
                self,
            ).nodes@[i].rhs_nodes@,
            ok ==> final(self).necessary_placed(),
            ok ==> final(self).children(main as int) == seq![old(self).children(main as int)[0], new_rhs],
            !old(self).spec_is_necessary(main as int) ==> ok,
            ok && old(self).spec_is_necessary(main as int) && !(old(self).children(main as int).len() == 2
                && old(self).children(main as int)[1] == new_rhs) ==> final(self).is_registered(
                new_rhs as int,
                1,
                main as int,
            ) || !final(self).spec_is_necessary(main as int),
            ok && old(self).children(main as int).len() == 2 && old(self).children(main as int)[1] != new_rhs
                ==> !final(self).parents(old(self).children(main as int)[1] as int).contains(main),
            !ok ==> {
                ||| (old(self).children(main as int).len() == 2 && !old(self).is_registered(
                    old(self).children(main as int)[1] as int,
                    1,
                    main as int,
                ))
                ||| old(self).parents(new_rhs as int).len() >= 0x7fff_ffff
                ||| final(self).attach_blocked(final(ahh).max_allowed(), final(rch))
            },
            final(stats).link_counts_grown(*old(stats)),
            old(stats).invalidated == final(stats).invalidated,
            handle_after_grown(old(handle_after)@, final(handle_after)@, final(self)),
    {
        let ghost g0 = *self;
        let n = self.nodes[main].children.len();
        let necessary = self.is_necessary(main);
        proof {
            assert(g0.children(main as int)[0] < g0.len());
        }
        if n == 2 {
            let old_rhs = self.nodes[main].children[1];
            proof {
                assert(old_rhs < g0.len());
                assert(old_rhs != main);
                assert(g0.children(main as int)[0] != old_rhs);
            }
            if old_rhs == new_rhs {
                proof {
                    assert(self.children(main as int) =~= seq![g0.children(main as int)[0], new_rhs]);
                }
                return true;
            }
            if !necessary {
                proof {
                    assert(!(1 < g0.mpi(main as int).len() && g0.mpi(main as int)[1] >= 0)) by {
                        if 1 < g0.mpi(main as int).len() && g0.mpi(main as int)[1] >= 0 {
                            assert(g0.parent_link_ok(main as int, 1));
                            assert(g0.is_registered(old_rhs as int, 1, main as int));
                        }
                    }
                }
                self.nodes[main].children.set(1, new_rhs);
                proof {
                    lemma_slot_set(&g0, self, rch, main as int, 1, new_rhs);
                    assert(self.children(main as int) =~= seq![g0.children(main as int)[0], new_rhs]);
                    assert forall|i: int| 0 <= i < self.len() implies -1 <= #[trigger] self.height(i) <= ahh.max_allowed() by {
                        assert(self.height(i) == g0.height(i));
                    }
                    assert forall|k: int| 0 <= k < stack@.len() implies #[trigger] stack@[k] < self.len() by {}
                    assert(!self.parents(old_rhs as int).contains(main)) by {
                        if self.parents(old_rhs as int).contains(main) {
                            let k = choose|k: int| 0 <= k < self.parents(old_rhs as int).len() && self.parents(old_rhs as int)[k] == main;
                            assert(self.child_link_ok(old_rhs as int, k));
                        }
                    }
                }
                return true;
            }
            if self.nodes[main].my_parent_index_in_child_at_index.len() < 2
                || self.nodes[main].my_parent_index_in_child_at_index[1] < 0 {
                return false;
            }
            if self.nodes[new_rhs].parents.len() >= 0x7fff_ffff {
                return false;
            }
            proof {
                assert(g0.parent_link_ok(main as int, 1));
                assert(g0.is_registered(old_rhs as int, 1, main as int));
            }
            self.replace_registered_rhs(ahh, rch, stack, stats, handle_after, main, old_rhs, new_rhs)
        } else {
            proof {
                assert(!(1 < g0.mpi(main as int).len() && g0.mpi(main as int)[1] >= 0)) by {
                    if 1 < g0.mpi(main as int).len() && g0.mpi(main as int)[1] >= 0 {
                        assert(g0.parent_link_ok(main as int, 1));
                    }
                }
            }
            self.nodes[main].children.push(new_rhs);
            proof {
                lemma_slot_set(&g0, self, rch, main as int, 1, new_rhs);
                assert(self.children(main as int) =~= seq![g0.children(main as int)[0], new_rhs]);
                assert forall|i: int| 0 <= i < self.len() implies -1 <= #[trigger] self.height(i) <= ahh.max_allowed() by {
                    assert(self.height(i) == g0.height(i));
                }
                assert forall|k: int| 0 <= k < stack@.len() implies #[trigger] stack@[k] < self.len() by {}
            }
            if necessary {
                if self.nodes[new_rhs].parents.len() >= 0x7fff_ffff {
                    return false;
                }
                let ghost gb = *self;
                let okc = self.add_parent_without_adjusting_heights(ahh, rch, stack, stats, handle_after, new_rhs, 1, main);
                if !okc {
                    return false;
                }
                proof {
                    assert(self.children(main as int) == gb.children(main as int));
                }
            }
            true
        }
    }

    /// `main`, needed and registered with its right-hand side `old_rhs` at input index 1,
    /// takes `new_rhs` there instead: `old_rhs` is kept needed while `main` leaves its
    /// parents and `new_rhs` is attached, and is checked for being unnecessary after.
    #[verifier::spinoff_prover]
    #[verifier::rlimit(60)]
    fn replace_registered_rhs(
        &mut self,
        ahh: &mut AdjustHeightsHeap,
        rch: &mut RecomputeHeap,
        stack: &mut Vec<usize>,
        stats: &mut Stats,
        handle_after: &mut Vec<usize>,
        main: usize,
        old_rhs: usize,
        new_rhs: usize,
    ) -> (ok: bool)
        requires
            old(self).wf(),
            old(self).inputs_distinct(),
            old(self).necessary_placed(),
            old(self).parents_needed(),
            old(self).heights_within(old(ahh).max_allowed()),
            main < old(self).len(),
            new_rhs < old(self).len(),
            old_rhs < old(self).len(),
            new_rhs != main,
            new_rhs != old_rhs,
            old(self).children(main as int).len() == 2,
            old(self).children(main as int)[1] == old_rhs,
            old(self).children(main as int)[0] != new_rhs,
            old(self).spec_is_necessary(main as int),
            old(self).is_registered(old_rhs as int, 1, main as int),
            old(self).parents(new_rhs as int).len() < 0x7fff_ffff,
            old(rch).wf(),
            old(self).rch_consistent(old(rch)),
            old(ahh).wf(),
            stack_ok(old(stack)@, old(self)),
        ensures
            final(self).wf(),
            final(self).inputs_distinct(),
            final(self).parents_needed(),
            final(self).heights_within(final(ahh).max_allowed()),
            final(self).len() == old(self).len(),
            final(rch).wf(),
            final(rch).max_allowed() == old(rch).max_allowed(),
            final(self).rch_consistent(final(rch)),
            final(ahh).wf(),
            final(ahh).max_allowed() == old(ahh).max_allowed(),
            stack_ok(final(stack)@, final(self)),
            old(stack)@.len() <= final(stack)@.len(),
            forall|i: int| 0 <= i < final(self).len() ==> (#[trigger] final(self).nodes@[i]).rhs_nodes@ == old(
                self,
            ).nodes@[i].rhs_nodes@,
            ok ==> final(self).necessary_placed(),
            ok ==> final(self).children(main as int) == seq![old(self).children(main as int)[0], new_rhs],
            ok ==> final(self).is_registered(new_rhs as int, 1, main as int) || !final(self).spec_is_necessary(
                main as int,
            ),
            ok ==> !final(self).parents(old_rhs as int).contains(main),
            !ok ==> final(self).attach_blocked(final(ahh).max_allowed(), final(rch)),
            final(stats).link_counts_grown(*old(stats)),
            old(stats).invalidated == final(stats).invalidated,
            handle_after_grown(old(handle_after)@, final(handle_after)@, final(self)),
    {
        let ghost g0 = *self;
        proof {
            assert(g0.children(main as int)[0] < g0.len());
        }
        proof {
            assert(g0.parent_link_ok(main as int, 1));
            assert(g0.parents(old_rhs as int).len() > 0);
            assert(g0.spec_is_necessary(old_rhs as int));
            assert(g0.height(old_rhs as int) >= 0);
        }
        let ghost ga = *self;
        self.nodes[old_rhs].force_necessary = true;
        proof {
            lemma_force_set(&ga, self, rch, old_rhs as int, true);
            lemma_remove_parent_ok(self, main as int, 1);
        }
        let ghost gf = *self;
        self.remove_parent(old_rhs, 1, main);
        proof {
            lemma_detached(&gf, self, rch, main as int, 1, old_rhs as int);
            assert forall|c: int, ci: int, p: int|
                0 <= p < self.len() && #[trigger] self.is_registered(c, ci, p) implies self.spec_is_necessary(p) by {
                assert(gf.is_registered(c, ci, p));
                assert(gf.spec_is_necessary(p));
                if p != old_rhs as int {
                    assert(self.parents(p) == gf.parents(p));
                }
            }
            assert(self.spec_is_necessary(main as int)) by {
                assert(self.parents(main as int) == gf.parents(main as int));
            }
            assert(!(1 < self.mpi(main as int).len() && self.mpi(main as int)[1] >= 0)) by {
                if 1 < self.mpi(main as int).len() && self.mpi(main as int)[1] >= 0 {
                    assert(self.parent_link_ok(main as int, 1));
                    assert(self.is_registered(old_rhs as int, 1, main as int));
                }
            }
        }
        let ghost gs = *self;
        self.nodes[main].children.set(1, new_rhs);
        proof {
            lemma_slot_set(&gs, self, rch, main as int, 1, new_rhs);
            assert forall|i: int| 0 <= i < self.len() implies -1 <= #[trigger] self.height(i) <= ahh.max_allowed() by {
                assert(self.height(i) == g0.height(i));
            }
            assert forall|k: int| 0 <= k < stack@.len() implies #[trigger] stack@[k] < self.len() by {}
            assert(self.parents(new_rhs as int) == g0.parents(new_rhs as int));
        }
        let ghost gb = *self;
        let okc = self.add_parent_without_adjusting_heights(ahh, rch, stack, stats, handle_after, new_rhs, 1, main);
        if !okc {
            return false;
        }
        let ghost gc = *self;
        proof {
            assert(gb.spec_is_necessary(old_rhs as int));
            assert(gc.height(old_rhs as int) == gb.height(old_rhs as int));
            assert(gc.height(old_rhs as int) >= 0);
        }
        self.nodes[old_rhs].force_necessary = false;
        proof {
            lemma_force_set(&gc, self, rch, old_rhs as int, false);
        }
        let ghost gu = *self;
        self.check_if_unnecessary(rch, stats, handle_after, old_rhs);
        proof {
            lemma_unhooked_handlers(self, &gu);
            lemma_handle_after_trans(old(handle_after)@, old(handle_after)@, handle_after@, self, &gu);
            assert forall|c: int, ci: int, p: int|
                0 <= p < self.len() && #[trigger] self.is_registered(c, ci, p) implies self.spec_is_necessary(p) by {
                if p != old_rhs as int {
                    assert(gc.parent_fine(p));
                    assert(gu.parent_fine(p));
                }
            }
            assert forall|i: int| 0 <= i < self.len() implies -1 <= #[trigger] self.height(i) <= ahh.max_allowed() by {
                assert(gu.height(i) == gc.height(i));
            }
            assert forall|k: int| 0 <= k < stack@.len() implies #[trigger] stack@[k] < self.len() by {}
            assert(self.children(main as int) == gb.children(main as int));
            assert(self.children(main as int) =~= seq![g0.children(main as int)[0], new_rhs]);
            if self.spec_is_necessary(main as int) {
                assert(gc.is_registered(new_rhs as int, 1, main as int));
                assert(gu.is_registered(new_rhs as int, 1, main as int));
            }
            assert(!self.parents(old_rhs as int).contains(main)) by {
                if self.parents(old_rhs as int).contains(main) {
                    let k = choose|k: int| 0 <= k < self.parents(old_rhs as int).len() && self.parents(old_rhs as int)[k] == main;
                    assert(self.child_link_ok(old_rhs as int, k));
                }
            }
        }
        true
    }

    /// The left-hand side of the bind with change node `lhs_change` and main node `main`
    /// changed during stabilisation `now`, and the bind's function gave `new_rhs`, making
    /// the nodes `created` in the bind's scope on the way: `main` switches to `new_rhs`
    /// (see [`Self::change_bind_rhs`]), every node made in the scope the previous time is
    /// invalidated (the nodes to revisit wait on `stack` for `propagate_invalidity`),
    /// `created` becomes what the scope holds, and the change node records that it
    /// changed now. `false` comes back, with the work stopped part-way, where switching
    /// the right-hand side fails or where an invalidated node's scope sits too high.
    pub fn bind_lhs_changed(
        &mut self,
        ahh: &mut AdjustHeightsHeap,
        rch: &mut RecomputeHeap,
        stack: &mut Vec<usize>,
        stats: &mut Stats,
        handle_after: &mut Vec<usize>,
        lhs_change: usize,
        main: usize,
        new_rhs: usize,
        created: Vec<usize>,
        now: StabilisationNum,
    ) -> (ok: bool)
        requires
            old(self).wf(),
            old(self).inputs_distinct(),
            old(self).necessary_placed(),
            old(self).parents_needed(),
            old(self).heights_within(old(ahh).max_allowed()),
            lhs_change < old(self).len(),
            main < old(self).len(),
            new_rhs < old(self).len(),
            new_rhs != main,
            new_rhs != lhs_change,
            old(self).nodes@[lhs_change as int].kind == Kind::BindLhsChange,
            old(self).nodes@[main as int].kind == Kind::BindMain,
            old(self).children(main as int).len() == 1 || old(self).children(main as int).len() == 2,
            old(self).children(main as int)[0] == lhs_change,
            forall|j: int| 0 <= j < created@.len() ==> #[trigger] created@[j] < old(self).len(),
            old(rch).wf(),
            old(self).rch_consistent(old(rch)),
            old(ahh).wf(),
            stack_ok(old(stack)@, old(self)),
        ensures
            final(self).wf(),
            final(self).inputs_distinct(),
            final(self).heights_within(final(ahh).max_allowed()),
            final(self).len() == old(self).len(),
            final(rch).wf(),
            final(rch).max_allowed() == old(rch).max_allowed(),
            final(self).rch_consistent(final(rch)),
            final(ahh).wf(),
            final(ahh).max_allowed() == old(ahh).max_allowed(),
            stack_ok(final(stack)@, final(self)),
            old(stack)@.len() <= final(stack)@.len(),
            ok ==> final(self).necessary_placed(),
            ok ==> final(self).parents_needed(),
            ok ==> final(self).children(main as int) == seq![lhs_change, new_rhs],
            ok ==> final(self).nodes@[lhs_change as int].changed_at == now,
            ok ==> final(self).nodes@[lhs_change as int].rhs_nodes@ == created@,
            ok ==> forall|j: int|
                0 <= j < old(self).nodes@[lhs_change as int].rhs_nodes@.len() ==> !final(self).nodes@[#[trigger] old(
                    self,
                ).nodes@[lhs_change as int].rhs_nodes@[j] as int].is_valid,
            ok && old(self).children(main as int).len() == 2 && old(self).children(main as int)[1] != new_rhs
                ==> !final(self).parents(old(self).children(main as int)[1] as int).contains(main),
            !ok ==> {
                ||| (old(self).children(main as int).len() == 2 && !old(self).is_registered(
                    old(self).children(main as int)[1] as int,
                    1,
                    main as int,
                ))
                ||| old(self).parents(new_rhs as int).len() >= 0x7fff_ffff
                ||| final(self).attach_blocked(final(ahh).max_allowed(), final(rch))
                ||| final(self).scope_too_high(final(ahh).max_allowed())
            },
            final(stats).link_counts_grown(*old(stats)),
            handle_after_grown(old(handle_after)@, final(handle_after)@, final(self)),
    {
        let ghost g0 = *self;
        let okc = self.change_bind_rhs(ahh, rch, stack, stats, handle_after, main, new_rhs);
        if !okc {
            return false;
        }
        let ghost g1 = *self;
        let ghost s1 = stack@;
        let ghost r1 = *rch;
        let ghost h1 = handle_after@;
        let oki = self.invalidate_rhs_of(ahh, rch, stack, stats, handle_after, now, lhs_change);
        proof {
            lemma_frame_handlers(self, &g1, rch, &r1);
            assert forall|i: int| 0 <= i < self.len() implies #[trigger] g1.nodes@[i].num_on_update_handlers
                == self.nodes@[i].num_on_update_handlers by {}
            lemma_handle_after_trans(old(handle_after)@, h1, handle_after@, &g1, &g1);
            lemma_handle_after_trans(old(handle_after)@, old(handle_after)@, handle_after@, self, &g1);
        }
        if !oki {
            return false;
        }
        let ghost g2 = *self;
        proof {
            assert forall|c: int, ci: int, p: int|
                0 <= p < g2.len() && #[trigger] g2.is_registered(c, ci, p) implies g2.spec_is_necessary(p) by {
                assert(g1.is_registered(c, ci, p));
                assert(g1.parent_fine(p));
            }
            assert(g2.children(main as int) == g1.children(main as int));
            assert(g1.nodes@[lhs_change as int].rhs_nodes@ == g0.nodes@[lhs_change as int].rhs_nodes@);
            if g0.children(main as int).len() == 2 && g0.children(main as int)[1] != new_rhs {
                let o = g0.children(main as int)[1] as int;
                assert(!g2.parents(o).contains(main)) by {
                    if g2.parents(o).contains(main) {
                        let k = choose|k: int| 0 <= k < g2.parents(o).len() && g2.parents(o)[k] == main;
                        assert(g2.child_link_ok(o, k));
                        assert(g2.children(main as int) == seq![lhs_change, new_rhs]);
                    }
                }
            }
        }
        self.nodes[lhs_change].rhs_nodes = created;
        self.nodes[lhs_change].changed_at = now;
        proof {
            lemma_scope_recorded(&g2, self, rch, lhs_change as int, ahh.max_allowed());
            assert forall|k: int| 0 <= k < stack@.len() implies #[trigger] stack@[k] < self.len() by {
                assert(stack@[k] < g2.len());
            }
            assert(self.children(main as int) == seq![lhs_change, new_rhs]);
            assert forall|j: int|
                0 <= j < g0.nodes@[lhs_change as int].rhs_nodes@.len() implies !self.nodes@[#[trigger] g0.nodes@[
                lhs_change as int].rhs_nodes@[j] as int].is_valid by {
                let x = g0.nodes@[lhs_change as int].rhs_nodes@[j];
                assert(!g2.nodes@[x as int].is_valid);
                assert(x < g0.len());
                if x == lhs_change {
                    assert(self.nodes@[x as int].is_valid == g2.nodes@[x as int].is_valid);
                }
            }
            if g0.children(main as int).len() == 2 && g0.children(main as int)[1] != new_rhs {
                let o = g0.children(main as int)[1] as int;
                assert(g0.children(main as int)[1] < g0.len());
                assert(self.parents(o) == g2.parents(o));
            }
        }
        true
    }
}

} // verus!
