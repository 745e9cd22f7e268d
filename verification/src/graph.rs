use vstd::prelude::*;
use vstd::set_lib::FiniteRange;

use crate::public::{bumped, Stats};
use crate::recompute_heap::RecomputeHeap;
use crate::stabilisation_num::StabilisationNum;

verus! {

/// A finite set of node indices all below `bound` that misses one index below
/// `bound` has fewer than `bound` elements.
pub proof fn lemma_indices_below(keys: Set<usize>, bound: usize, missing: usize)
    requires
        keys.finite(),
        forall|k: usize| #[trigger] keys.contains(k) ==> k < bound,
        missing < bound,
        !keys.contains(missing),
    ensures
        keys.len() < bound,
{
    let all = usize::range_set(0, bound).remove(missing);
    vstd::set_lib::range_set_properties::<usize>(0, bound);
    assert(usize::range_set(0, bound).contains(missing));
    assert(keys.subset_of(all));
    vstd::set_lib::lemma_len_subset(keys, all);
}

/// Every node reaches itself.
pub proof fn lemma_reach_self(g: &Graph, a: int)
    requires
        0 <= a < g.len(),
    ensures
        g.reachable(a, a),
{
    let s = seq![a];
    assert(g.is_path(s));
}

/// A walk to `c` followed by the edge from `c` to `p` is a walk to `p`.
pub proof fn lemma_reach_step(g: &Graph, a: int, c: int, p: int)
    requires
        g.reachable(a, c),
        g.is_edge(c, p),
        0 <= p < g.len(),
    ensures
        g.reachable(a, p),
{
    let s = choose|s: Seq<int>| #[trigger] g.is_path(s) && s[0] == a && s.last() == c;
    let t = s.push(p);
    assert forall|i: int| 0 <= i < t.len() - 1 implies #[trigger] g.edge_at(t, i) by {
        if i < s.len() - 1 {
            assert(g.edge_at(s, i));
        }
    }
    assert forall|i: int| 0 <= i < t.len() implies 0 <= #[trigger] t[i] < g.len() by {
        if i < s.len() {
            assert(0 <= s[i] < g.len());
        }
    }
    assert(g.is_path(t) && t[0] == a && t.last() == p);
}

/// Whether the stored indices stay in range depends only on the stored indices.
pub proof fn lemma_ids_ok_same_links(g1: &Graph, g2: &Graph)
    requires
        g1.ids_ok(),
        g1.len() == g2.len(),
        forall|i: int|
            0 <= i < g1.len() ==> {
                &&& (#[trigger] g1.nodes@[i]).parents@ == g2.nodes@[i].parents@
                &&& g1.nodes@[i].children@ == g2.nodes@[i].children@
                &&& g1.nodes@[i].rhs_nodes@ == g2.nodes@[i].rhs_nodes@
                &&& g1.nodes@[i].created_in == g2.nodes@[i].created_in
            },
    ensures
        g2.ids_ok(),
{
    assert forall|c: int, pi: int|
        0 <= c < g2.len() && 0 <= pi < g2.parents(c).len() implies #[trigger] g2.parents(c)[pi] < g2.len() by {
        assert(g1.nodes@[c].parents@ == g2.nodes@[c].parents@);
        assert(g1.parents(c)[pi] < g1.len());
    }
    assert forall|p: int, ci: int|
        0 <= p < g2.len() && 0 <= ci < g2.children(p).len() implies #[trigger] g2.children(p)[ci] < g2.len() by {
        assert(g1.nodes@[p].children@ == g2.nodes@[p].children@);
        assert(g1.children(p)[ci] < g1.len());
    }
    assert forall|b: int, r: int|
        0 <= b < g2.len() && 0 <= r < g2.nodes@[b].rhs_nodes@.len() implies #[trigger] g2.nodes@[b].rhs_nodes@[r]
            < g2.len() by {
        assert(g1.nodes@[b].rhs_nodes@ == g2.nodes@[b].rhs_nodes@);
    }
    assert forall|n: int| 0 <= n < g2.len() implies match #[trigger] g2.nodes@[n].created_in {
        Some(s) => s < g2.len(),
        None => true,
    } by {
        assert(g1.nodes@[n].created_in == g2.nodes@[n].created_in);
    }
}

/// What a node computes, as far as the engine's bookkeeping is concerned.
#[derive(Copy, Clone, PartialEq, Eq, Debug)]
pub enum Kind {
    Constant,
    Var,
    Map1,
    MapRef,
    MapWithOld,
    Map2,
    Map3,
    Map4,
    Map5,
    Map6,
    ArrayFold,
    BindLhsChange,
    BindMain,
    Expert,
}

impl Kind {
    /// How the kind describes its type in debugging output.
    pub open spec fn spec_debug_ty(self) -> Seq<char> {
        match self {
            Kind::Constant => "Constant"@,
            Kind::Var => "Var"@,
            Kind::Map1 => "Map<(...) -> ...>"@,
            Kind::MapRef => "MapRef<(...) -> ...>"@,
            Kind::MapWithOld => "MapWithOld<(...) -> ...>"@,
            Kind::Map2 => "Map2<(...) -> ...>"@,
            Kind::Map3 => "Map3<(...) -> ...>"@,
            Kind::Map4 => "Map4<(...) -> ...>"@,
            Kind::Map5 => "Map5<(...) -> ...>"@,
            Kind::Map6 => "Map6<(...) -> ...>"@,
            Kind::ArrayFold => "ArrayFold"@,
            Kind::BindLhsChange => "BindLhsChange"@,
            Kind::BindMain => "BindMain<(lhs: dynamic) -> (dynamic)>"@,
            Kind::Expert => "Expert"@,
        }
    }

    /// The kind's description of its type, for debugging output.
    pub fn debug_ty(&self) -> (r: &'static str)
        ensures
            r@ == self.spec_debug_ty(),
    {
        match self {
            Kind::Constant => "Constant",
            Kind::Var => "Var",
            Kind::Map1 => "Map<(...) -> ...>",
            Kind::MapRef => "MapRef<(...) -> ...>",
            Kind::MapWithOld => "MapWithOld<(...) -> ...>",
            Kind::Map2 => "Map2<(...) -> ...>",
            Kind::Map3 => "Map3<(...) -> ...>",
            Kind::Map4 => "Map4<(...) -> ...>",
            Kind::Map5 => "Map5<(...) -> ...>",
            Kind::Map6 => "Map6<(...) -> ...>",
            Kind::ArrayFold => "ArrayFold",
            Kind::BindLhsChange => "BindLhsChange",
            Kind::BindMain => "BindMain<(lhs: dynamic) -> (dynamic)>",
            Kind::Expert => "Expert",
        }
    }
}

/// One node of the dependency graph. Recall that a node's *children* are its inputs,
/// and its *parents* are the nodes computed from it.
pub struct Node {
    pub kind: Kind,
    /// Height in the graph; `-1` while the node is unnecessary.
    pub height: i32,
    /// Height before the last adjustment.
    pub old_height: i32,
    /// Height the node is queued at in the recompute heap, `-1` when not queued.
    pub height_in_recompute_heap: i32,
    /// Height the node is queued at in the adjust-heights heap, `-1` when not queued.
    pub height_in_adjust_heights_heap: i32,
    /// The parents that this node currently reports its changes to.
    pub parents: Vec<usize>,
    /// The inputs of this node, by child index.
    pub children: Vec<usize>,
    /// For each child index, the index this node has among that child's parents
    /// (`-1` when this node is not registered with that child).
    pub my_parent_index_in_child_at_index: Vec<i32>,
    /// For each parent index, the child index this node has in that parent.
    pub my_child_index_in_parent_at_index: Vec<i32>,
    /// For a bind's left-hand-side change node: the nodes created on the right-hand side.
    pub rhs_nodes: Vec<usize>,
    /// The bind left-hand-side change node whose scope the node was created in, if any.
    pub created_in: Option<usize>,
    pub num_observers: usize,
    pub force_necessary: bool,
    pub is_valid: bool,
    pub has_value: bool,
    pub recomputed_at: StabilisationNum,
    pub changed_at: StabilisationNum,
    /// For a variable: when it was last set.
    pub set_at: StabilisationNum,
    /// For an expert node: whether it was explicitly made stale.
    pub force_stale: bool,
    /// How many update handlers watch the node.
    pub num_on_update_handlers: i32,
}

/// The dependency graph: an arena of nodes addressed by index.
pub struct Graph {
    pub nodes: Vec<Node>,
}

impl Graph {
    pub open spec fn len(&self) -> int {
        self.nodes@.len() as int
    }

    pub open spec fn parents(&self, c: int) -> Seq<usize> {
        self.nodes@[c].parents@
    }

    pub open spec fn children(&self, p: int) -> Seq<usize> {
        self.nodes@[p].children@
    }

    pub open spec fn mpi(&self, p: int) -> Seq<i32> {
        self.nodes@[p].my_parent_index_in_child_at_index@
    }

    pub open spec fn mci(&self, c: int) -> Seq<i32> {
        self.nodes@[c].my_child_index_in_parent_at_index@
    }

    /// Every index stored in the graph points at a node of the graph.
    pub open spec fn ids_ok(&self) -> bool {
        &&& forall|c: int, pi: int|
            0 <= c < self.len() && 0 <= pi < self.parents(c).len() ==> #[trigger] self.parents(c)[pi]
                < self.len()
        &&& forall|p: int, ci: int|
            0 <= p < self.len() && 0 <= ci < self.children(p).len() ==> #[trigger] self.children(p)[ci]
                < self.len()
        &&& forall|b: int, r: int|
            0 <= b < self.len() && 0 <= r < self.nodes@[b].rhs_nodes@.len()
                ==> #[trigger] self.nodes@[b].rhs_nodes@[r] < self.len()
        &&& forall|n: int|
            0 <= n < self.len() ==> match #[trigger] self.nodes@[n].created_in {
                Some(s) => s < self.len(),
                None => true,
            }
    }

    /// The `pi`-th parent of `c` knows `c` at the child index that `c` recorded for it.
    pub open spec fn child_link_ok(&self, c: int, pi: int) -> bool {
        let p = self.parents(c)[pi] as int;
        let ci = self.mci(c)[pi] as int;
        &&& pi < self.mci(c).len()
        &&& 0 <= ci < self.children(p).len()
        &&& self.children(p)[ci] == c
        &&& ci < self.mpi(p).len()
        &&& self.mpi(p)[ci] == pi
    }

    /// A registered child index of `p` points at a parent slot of the child that
    /// points back at `p`.
    pub open spec fn parent_link_ok(&self, p: int, ci: int) -> bool {
        let c = self.children(p)[ci] as int;
        let pi = self.mpi(p)[ci] as int;
        &&& ci < self.children(p).len()
        &&& pi < self.parents(c).len()
        &&& self.parents(c)[pi] == p
        &&& self.mci(c)[pi] == ci
    }

    /// The registered parent/child edges agree from both ends: the child's parent
    /// index and the parent's child index point at each other.
    pub open spec fn links_wf(&self) -> bool {
        &&& forall|c: int, pi: int|
            0 <= c < self.len() && 0 <= pi < self.parents(c).len() ==> #[trigger] self.child_link_ok(c, pi)
        &&& forall|p: int, ci: int|
            0 <= p < self.len() && 0 <= ci < self.mpi(p).len() && self.mpi(p)[ci] >= 0
                ==> #[trigger] self.parent_link_ok(p, ci)
    }

    pub open spec fn wf(&self) -> bool {
        &&& self.ids_ok()
        &&& self.links_wf()
    }

    /// Whether node `i` is registered as a parent of child `c` at child index `ci`.
    pub open spec fn is_registered(&self, c: int, ci: int, p: int) -> bool {
        &&& 0 <= ci < self.mpi(p).len()
        &&& self.mpi(p)[ci] >= 0
        &&& self.children(p)[ci] == c
    }

    pub open spec fn spec_is_necessary(&self, i: int) -> bool {
        ||| self.parents(i).len() > 0
        ||| self.nodes@[i].num_observers > 0
        ||| self.nodes@[i].force_necessary
    }

    /// The nodes other than the graph at `i` are unchanged, and so are the fields of
    /// node `i` that hold no parent/child bookkeeping.
    pub open spec fn same_except_links(&self, other: &Graph) -> bool {
        &&& self.len() == other.len()
        &&& forall|i: int|
            0 <= i < self.len() ==> {
                let a = #[trigger] self.nodes@[i];
                let b = other.nodes@[i];
                &&& a.kind == b.kind
                &&& a.height == b.height
                &&& a.old_height == b.old_height
                &&& a.height_in_recompute_heap == b.height_in_recompute_heap
                &&& a.height_in_adjust_heights_heap == b.height_in_adjust_heights_heap
                &&& a.children@ == b.children@
                &&& a.rhs_nodes@ == b.rhs_nodes@
                &&& a.created_in == b.created_in
                &&& a.num_observers == b.num_observers
                &&& a.num_on_update_handlers == b.num_on_update_handlers
                &&& a.force_necessary == b.force_necessary
                &&& a.is_valid == b.is_valid
                &&& a.has_value == b.has_value
                &&& a.recomputed_at == b.recomputed_at
                &&& a.changed_at == b.changed_at
                &&& a.set_at == b.set_at
                &&& a.force_stale == b.force_stale
            }
    }

    /// `p` is kept above `c` in height: `c` is an input of `p`, or `c` is a bind's
    /// left-hand-side change node and `p` a necessary node created on its right-hand side.
    pub open spec fn is_edge(&self, c: int, p: int) -> bool {
        ||| self.parents(c).contains(p as usize)
        ||| (self.nodes@[c].kind == Kind::BindLhsChange && self.nodes@[c].rhs_nodes@.contains(p as usize)
            && self.spec_is_necessary(p))
    }

    pub open spec fn height(&self, i: int) -> int {
        self.nodes@[i].height as int
    }

    /// Every node is strictly lower than the nodes kept above it.
    pub open spec fn heights_ok(&self) -> bool {
        forall|c: int, p: int|
            0 <= c < self.len() && 0 <= p < self.len() && #[trigger] self.is_edge(c, p) ==> self.height(c)
                < self.height(p)
    }

    /// Same nodes with the same edges and bookkeeping; only heights and heap
    /// positions may differ.
    pub open spec fn same_structure(&self, other: &Graph) -> bool {
        &&& self.len() == other.len()
        &&& forall|i: int|
            0 <= i < self.len() ==> {
                let a = #[trigger] self.nodes@[i];
                let b = other.nodes@[i];
                &&& a.kind == b.kind
                &&& a.parents@ == b.parents@
                &&& a.children@ == b.children@
                &&& a.my_parent_index_in_child_at_index@ == b.my_parent_index_in_child_at_index@
                &&& a.my_child_index_in_parent_at_index@ == b.my_child_index_in_parent_at_index@
                &&& a.rhs_nodes@ == b.rhs_nodes@
                &&& a.created_in == b.created_in
                &&& a.num_observers == b.num_observers
                &&& a.num_on_update_handlers == b.num_on_update_handlers
                &&& a.force_necessary == b.force_necessary
                &&& a.is_valid == b.is_valid
                &&& a.has_value == b.has_value
                &&& a.recomputed_at == b.recomputed_at
                &&& a.changed_at == b.changed_at
                &&& a.set_at == b.set_at
                &&& a.force_stale == b.force_stale
            }
    }

    /// The recompute heap holds nodes of this graph, and each node records the height
    /// it is queued at there.
    pub open spec fn rch_consistent(&self, rch: &RecomputeHeap) -> bool {
        &&& forall|n: usize| #[trigger] rch@.contains_key(n) ==> n < self.len()
        &&& forall|i: int|
            0 <= i < self.len() ==> #[trigger] self.nodes@[i].height_in_recompute_heap == (if rch@.contains_key(
                i as usize,
            ) {
                rch@[i as usize]
            } else {
                -1
            })
    }

    /// Step `i` of the walk `s` follows an edge.
    pub open spec fn edge_at(&self, s: Seq<int>, i: int) -> bool {
        self.is_edge(s[i], s[i + 1])
    }

    /// `s` is a non-empty walk through nodes of the graph along edges.
    pub open spec fn is_path(&self, s: Seq<int>) -> bool {
        &&& s.len() > 0
        &&& forall|i: int| 0 <= i < s.len() ==> 0 <= #[trigger] s[i] < self.len()
        &&& forall|i: int| 0 <= i < s.len() - 1 ==> #[trigger] self.edge_at(s, i)
    }

    /// Only valid nodes are registered as parents: an invalidated node has left its
    /// inputs.
    pub open spec fn parents_valid(&self) -> bool {
        forall|c: int, pi: int|
            0 <= c < self.len() && 0 <= pi < self.parents(c).len() ==> self.nodes@[#[trigger] self.parents(
                c,
            )[pi] as int].is_valid
    }

    /// Node `b` can be reached from node `a` by following edges upwards.
    pub open spec fn reachable(&self, a: int, b: int) -> bool {
        exists|s: Seq<int>| #[trigger] self.is_path(s) && s[0] == a && s.last() == b
    }

    /// Whether node `i` is needed: something reads it, observes it, or forces it.
    pub fn is_necessary(&self, i: usize) -> (r: bool)
        requires
            i < self.len(),
        ensures
            r == self.spec_is_necessary(i as int),
    {
        let n = &self.nodes[i];
        n.parents.len() > 0 || n.num_observers > 0 || n.force_necessary
    }

    /// An empty graph.
    pub fn new() -> (g: Self)
        ensures
            g.wf(),
            g.len() == 0,
    {
        Graph { nodes: Vec::new() }
    }

    /// Number of nodes.
    pub fn num_nodes(&self) -> (r: usize)
        ensures
            r == self.len(),
    {
        self.nodes.len()
    }

    /// Create a node of `kind` computed from `children`, in the scope of the bind
    /// left-hand-side change node `created_in` (or at top level). The node starts
    /// unnecessary, invalid-free, never computed, and in no heap; `stats` counts it.
    pub fn create(&mut self, stats: &mut Stats, kind: Kind, children: Vec<usize>, created_in: Option<usize>) -> (id: usize)
        requires
            old(self).wf(),
            old(self).len() < usize::MAX,
            forall|ci: int| 0 <= ci < children@.len() ==> #[trigger] children@[ci] < old(self).len(),
            match created_in {
                Some(s) => s < old(self).len(),
                None => true,
            },
        ensures
            final(self).wf(),
            id == old(self).len(),
            final(self).len() == old(self).len() + 1,
            forall|i: int| 0 <= i < old(self).len() ==> #[trigger] final(self).nodes@[i] == old(self).nodes@[i],
            ({
                let n = final(self).nodes@[id as int];
                &&& n.kind == kind
                &&& n.children@ == children@
                &&& n.created_in == created_in
                &&& n.parents@.len() == 0
                &&& n.my_parent_index_in_child_at_index@.len() == 0
                &&& n.rhs_nodes@.len() == 0
                &&& n.height == -1
                &&& n.height_in_recompute_heap == -1
                &&& n.height_in_adjust_heights_heap == -1
                &&& n.num_observers == 0
                &&& !n.force_necessary
                &&& n.is_valid
                &&& !n.has_value
                &&& n.recomputed_at.0 == -1
                &&& n.changed_at.0 == -1
                &&& n.set_at.0 == -1
                &&& !n.force_stale
                &&& n.num_on_update_handlers == 0
            }),
            *final(stats) == (Stats { created: bumped(old(stats).created), ..*old(stats) }),
    {
        stats.count_created();
        let id = self.nodes.len();
        let mut mci: Vec<i32> = Vec::new();
        mci.push(-1);
        let node = Node {
            kind,
            height: -1,
            old_height: -1,
            height_in_recompute_heap: -1,
            height_in_adjust_heights_heap: -1,
            parents: Vec::new(),
            children,
            my_parent_index_in_child_at_index: Vec::new(),
            my_child_index_in_parent_at_index: mci,
            rhs_nodes: Vec::new(),
            created_in,
            num_observers: 0,
            force_necessary: false,
            is_valid: true,
            has_value: false,
            recomputed_at: StabilisationNum::init(),
            changed_at: StabilisationNum::init(),
            set_at: StabilisationNum::init(),
            force_stale: false,
            num_on_update_handlers: 0,
        };
        self.nodes.push(node);
        assert(forall|i: int| 0 <= i < old(self).len() ==> #[trigger] self.nodes@[i] == old(self).nodes@[i]);
        proof {
            let g0 = old(self);
            assert(forall|i: int| 0 <= i < g0.len() ==> #[trigger] self.parents(i) == g0.parents(i));
            assert(forall|i: int| 0 <= i < g0.len() ==> #[trigger] self.children(i) == g0.children(i));
            assert(forall|i: int| 0 <= i < g0.len() ==> #[trigger] self.mpi(i) == g0.mpi(i));
            assert(forall|i: int| 0 <= i < g0.len() ==> #[trigger] self.mci(i) == g0.mci(i));
            assert(self.parents(id as int).len() == 0);
            assert(self.mpi(id as int).len() == 0);
            assert forall|c: int, pi: int|
                0 <= c < self.len() && 0 <= pi < self.parents(c).len() implies #[trigger] self.child_link_ok(c, pi) by {
                assert(c < g0.len());
                assert(g0.child_link_ok(c, pi));
                let p = g0.parents(c)[pi] as int;
                assert(p < g0.len());
                assert(self.children(p) == g0.children(p));
                assert(self.mpi(p) == g0.mpi(p));
            }
            assert forall|p: int, ci: int|
                0 <= p < self.len() && 0 <= ci < self.mpi(p).len() && self.mpi(p)[ci] >= 0 implies #[trigger] self.parent_link_ok(p, ci) by {
                assert(p < g0.len());
                assert(g0.parent_link_ok(p, ci));
                let c = g0.children(p)[ci] as int;
                assert(c < g0.len());
                assert(self.parents(c) == g0.parents(c));
                assert(self.mci(c) == g0.mci(c));
            }
            assert forall|c: int, pi: int|
                0 <= c < self.len() && 0 <= pi < self.parents(c).len() implies #[trigger] self.parents(c)[pi]
                    < self.len() by {
                assert(c < g0.len());
            }
            assert forall|p: int, ci: int|
                0 <= p < self.len() && 0 <= ci < self.children(p).len() implies #[trigger] self.children(p)[ci]
                    < self.len() by {
                if p < g0.len() {
                } else {
                    assert(self.children(p) == children@);
                }
            }
            assert forall|b: int, r: int|
                0 <= b < self.len() && 0 <= r < self.nodes@[b].rhs_nodes@.len()
                    implies #[trigger] self.nodes@[b].rhs_nodes@[r] < self.len() by {
                if b < g0.len() {
                    assert(self.nodes@[b] == g0.nodes@[b]);
                } else {
                    assert(self.nodes@[b].rhs_nodes@.len() == 0);
                }
            }
            assert forall|n: int|
                0 <= n < self.len() implies match #[trigger] self.nodes@[n].created_in {
                    Some(s) => s < self.len(),
                    None => true,
                } by {
                if n < g0.len() {
                    assert(self.nodes@[n] == g0.nodes@[n]);
                }
            }
            assert(self.ids_ok());
            assert(self.links_wf());
        }
        id
    }

    /// Record that `parent` reads `child` at child index `child_index`: the parent is
    /// appended to the child's parents, and both ends remember each other's index.
    pub fn add_parent(&mut self, child: usize, child_index: usize, parent: usize)
        requires
            old(self).wf(),
            child < old(self).len(),
            parent < old(self).len(),
            child != parent,
            child_index < old(self).children(parent as int).len(),
            old(self).children(parent as int)[child_index as int] == child,
            !old(self).is_registered(child as int, child_index as int, parent as int),
            old(self).parents(child as int).len() < i32::MAX,
            child_index < i32::MAX,
        ensures
            final(self).wf(),
            final(self).same_except_links(old(self)),
            final(self).parents(child as int) == old(self).parents(child as int).push(parent),
            forall|i: int| 0 <= i < final(self).len() && i != child ==> #[trigger] final(self).parents(i) == old(self).parents(i),
            final(self).is_registered(child as int, child_index as int, parent as int),
            forall|c: int, ci: int, p: int|
                0 <= p < final(self).len() && (c != child || ci != child_index || p != parent) ==> (
                #[trigger] final(self).is_registered(c, ci, p) <==> old(self).is_registered(c, ci, p)),
    {
        let parent_index = self.nodes[child].parents.len();
        while self.nodes[child].my_child_index_in_parent_at_index.len() <= parent_index
            invariant
                self.nodes@.len() == old(self).nodes@.len(),
                child < self.nodes@.len(),
                parent_index == old(self).parents(child as int).len(),
                forall|i: int| 0 <= i < self.len() && i != child ==> #[trigger] self.nodes@[i] == old(self).nodes@[i],
                self.nodes@[child as int].parents == old(self).nodes@[child as int].parents,
                self.nodes@[child as int].my_parent_index_in_child_at_index == old(self).nodes@[child as int].my_parent_index_in_child_at_index,
                self.mci(child as int).len() >= old(self).mci(child as int).len(),
                forall|k: int| 0 <= k < old(self).mci(child as int).len() ==> #[trigger] self.mci(child as int)[k] == old(self).mci(child as int)[k],
                self.same_except_links(old(self)),
            decreases parent_index + 1 - self.mci(child as int).len(),
        {
            self.nodes[child].my_child_index_in_parent_at_index.push(-1);
        }
        self.nodes[child].my_child_index_in_parent_at_index.set(parent_index, child_index as i32);
        while self.nodes[parent].my_parent_index_in_child_at_index.len() <= child_index
            invariant
                self.nodes@.len() == old(self).nodes@.len(),
                child < self.nodes@.len(),
                parent < self.nodes@.len(),
                parent_index == old(self).parents(child as int).len(),
                forall|i: int| 0 <= i < self.len() && i != child && i != parent ==> #[trigger] self.nodes@[i] == old(self).nodes@[i],
                self.nodes@[child as int].parents == old(self).nodes@[child as int].parents,
                self.nodes@[parent as int].parents == old(self).nodes@[parent as int].parents,
                self.nodes@[parent as int].my_child_index_in_parent_at_index == old(self).nodes@[parent as int].my_child_index_in_parent_at_index,
                self.mci(child as int).len() > parent_index,
                self.mci(child as int)[parent_index as int] == child_index,
                forall|k: int| 0 <= k < old(self).mci(child as int).len() && k != parent_index ==> #[trigger] self.mci(child as int)[k] == old(self).mci(child as int)[k],
                self.mpi(parent as int).len() >= old(self).mpi(parent as int).len(),
                forall|k: int| 0 <= k < old(self).mpi(parent as int).len() ==> #[trigger] self.mpi(parent as int)[k] == old(self).mpi(parent as int)[k],
                forall|k: int| old(self).mpi(parent as int).len() <= k < self.mpi(parent as int).len() ==> #[trigger] self.mpi(parent as int)[k] == -1,
                self.nodes@[child as int].my_parent_index_in_child_at_index == old(self).nodes@[child as int].my_parent_index_in_child_at_index,
                self.same_except_links(old(self)),
                child != parent,
            decreases child_index + 1 - self.mpi(parent as int).len(),
        {
            self.nodes[parent].my_parent_index_in_child_at_index.push(-1);
        }
        self.nodes[parent].my_parent_index_in_child_at_index.set(child_index, parent_index as i32);
        self.nodes[child].parents.push(parent);
        proof {
            let g0 = old(self);
            let c0 = child as int;
            let p0 = parent as int;
            let ci0 = child_index as int;
            let pi0 = parent_index as int;
            assert(self.parents(c0) == g0.parents(c0).push(parent));
            assert(forall|i: int| 0 <= i < self.len() && i != c0 ==> #[trigger] self.parents(i) == g0.parents(i));
            assert(forall|i: int| 0 <= i < self.len() && i != p0 ==> #[trigger] self.mpi(i) == g0.mpi(i));
            assert(forall|i: int| 0 <= i < self.len() ==> #[trigger] self.children(i) == g0.children(i));
            assert(forall|k: int| 0 <= k < self.mpi(p0).len() && k != ci0 ==> #[trigger] self.mpi(p0)[k] == (if k < g0.mpi(p0).len() { g0.mpi(p0)[k] as int } else { -1 }));
            assert(forall|k: int| 0 <= k < g0.mci(c0).len() && k != pi0 ==> #[trigger] self.mci(c0)[k] == g0.mci(c0)[k]);
            assert(forall|i: int| 0 <= i < self.len() && i != c0 ==> #[trigger] self.mci(i) == g0.mci(i));
            assert forall|c: int, pi: int|
                0 <= c < self.len() && 0 <= pi < self.parents(c).len() implies #[trigger] self.parents(c)[pi]
                    < self.len() by {
                if c == c0 && pi == pi0 {
                } else {
                    assert(self.parents(c)[pi] == g0.parents(c)[pi]);
                }
            }
            assert forall|b: int, r: int|
                0 <= b < self.len() && 0 <= r < self.nodes@[b].rhs_nodes@.len()
                    implies #[trigger] self.nodes@[b].rhs_nodes@[r] < self.len() by {
                assert(self.nodes@[b].rhs_nodes@ == g0.nodes@[b].rhs_nodes@);
            }
            assert forall|n: int|
                0 <= n < self.len() implies match #[trigger] self.nodes@[n].created_in {
                    Some(s) => s < self.len(),
                    None => true,
                } by {
                assert(self.nodes@[n].created_in == g0.nodes@[n].created_in);
            }
            assert forall|c: int, pi: int|
                0 <= c < self.len() && 0 <= pi < self.parents(c).len() implies #[trigger] self.child_link_ok(c, pi) by {
                if c == c0 && pi == pi0 {
                } else {
                    assert(pi < g0.parents(c).len());
                    assert(g0.child_link_ok(c, pi));
                    assert(self.parents(c)[pi] == g0.parents(c)[pi]);
                    let p = g0.parents(c)[pi] as int;
                    let ci = g0.mci(c)[pi] as int;
                    assert(self.mci(c)[pi] == g0.mci(c)[pi]);
                    assert(g0.mpi(p)[ci] == pi);
                    if p == p0 && ci == ci0 {
                        assert(g0.is_registered(c0, ci0, p0));
                    }
                    assert(ci != ci0 || p != p0);
                    assert(self.mpi(p)[ci] == g0.mpi(p)[ci]);
                }
            }
            assert forall|p: int, ci: int|
                0 <= p < self.len() && 0 <= ci < self.mpi(p).len() && self.mpi(p)[ci] >= 0 implies #[trigger] self.parent_link_ok(p, ci) by {
                if p == p0 && ci == ci0 {
                } else {
                    assert(ci < g0.mpi(p).len() && g0.mpi(p)[ci] == self.mpi(p)[ci]);
                    assert(g0.parent_link_ok(p, ci));
                    let c = g0.children(p)[ci] as int;
                    let pi = g0.mpi(p)[ci] as int;
                    assert(g0.parents(c)[pi] == p);
                    assert(pi < g0.parents(c).len());
                    assert(self.parents(c)[pi] == p);
                    if c == c0 {
                        assert(pi != pi0);
                        assert(g0.child_link_ok(c, pi));
                        assert(self.mci(c)[pi] == g0.mci(c)[pi]);
                    }
                }
            }
            assert forall|c: int, ci: int, p: int|
                0 <= p < self.len() && (c != c0 || ci != ci0 || p != p0) implies (#[trigger] self.is_registered(c, ci, p)
                    <==> g0.is_registered(c, ci, p)) by {
                if p == p0 && ci == ci0 {
                    assert(c != c0);
                    assert(self.children(p)[ci] == c0);
                    assert(g0.children(p)[ci] == c0);
                } else if p == p0 {
                    if 0 <= ci < self.mpi(p).len() {
                        if ci < g0.mpi(p).len() {
                            assert(self.mpi(p)[ci] == g0.mpi(p)[ci]);
                        } else {
                            assert(self.mpi(p)[ci] == -1);
                        }
                    }
                } else if 0 <= p < self.len() {
                    assert(self.mpi(p) == g0.mpi(p));
                    assert(self.children(p) == g0.children(p));
                }
            }
        }
    }

    /// Undo [`Self::add_parent`]: `parent` stops reading `child` at `child_index`. The
    /// child's last parent moves into the freed slot, and its indices follow it.
    pub fn remove_parent(&mut self, child: usize, child_index: usize, parent: usize)
        requires
            old(self).wf(),
            child < old(self).len(),
            parent < old(self).len(),
            child != parent,
            old(self).is_registered(child as int, child_index as int, parent as int),
            ({
                let pi = old(self).mpi(parent as int)[child_index as int] as int;
                let last = old(self).parents(child as int).len() - 1;
                pi < last ==> old(self).parents(child as int)[last] != parent
                    && old(self).parents(child as int)[last] != child
            }),
        ensures
            final(self).wf(),
            final(self).same_except_links(old(self)),
            ({
                let pi = old(self).mpi(parent as int)[child_index as int] as int;
                let ps = old(self).parents(child as int);
                final(self).parents(child as int) == ps.update(pi, ps.last()).drop_last()
            }),
            forall|i: int| 0 <= i < final(self).len() && i != child ==> #[trigger] final(self).parents(i) == old(self).parents(i),
            !final(self).is_registered(child as int, child_index as int, parent as int),
            forall|c: int, ci: int, p: int|
                0 <= p < final(self).len() && (c != child || ci != child_index || p != parent) ==> (
                #[trigger] final(self).is_registered(c, ci, p) <==> old(self).is_registered(c, ci, p)),
    {
        let ghost g0 = *self;
        let pi = self.nodes[parent].my_parent_index_in_child_at_index[child_index];
        let parent_index = pi as usize;
        proof {
            assert(g0.parent_link_ok(parent as int, child_index as int));
        }
        let last = self.nodes[child].parents.len() - 1;
        proof {
            assert(g0.child_link_ok(child as int, last as int));
        }
        let ghost moved: (int, int) = (-1, -1);
        if parent_index < last {
            let end_p = self.nodes[child].parents[last];
            let end_ci = self.nodes[child].my_child_index_in_parent_at_index[last];
            proof {
                assert(g0.child_link_ok(child as int, last as int));
                moved = (end_p as int, end_ci as int);
            }
            self.nodes[end_p].my_parent_index_in_child_at_index.set(end_ci as usize, pi);
            self.nodes[child].my_child_index_in_parent_at_index.set(parent_index, end_ci);
        }
        self.nodes[parent].my_parent_index_in_child_at_index.set(child_index, -1);
        self.nodes[child].my_child_index_in_parent_at_index.set(last, -1);
        self.nodes[child].parents.swap_remove(parent_index);
        proof {
            let c0 = child as int;
            let p0 = parent as int;
            let ci0 = child_index as int;
            let pi0 = parent_index as int;
            let l0 = last as int;
            let ps = g0.parents(c0);
            assert(self.parents(c0) == ps.update(pi0, ps.last()).drop_last());
            assert(forall|i: int| 0 <= i < self.len() && i != c0 ==> #[trigger] self.parents(i) == g0.parents(i));
            assert(forall|i: int| 0 <= i < self.len() ==> #[trigger] self.children(i) == g0.children(i));
            assert(forall|i: int| 0 <= i < self.len() ==> #[trigger] self.mpi(i).len() == g0.mpi(i).len());
            assert(forall|i: int| 0 <= i < self.len() ==> #[trigger] self.mci(i).len() == g0.mci(i).len());
            // The only index entries that changed.
            assert forall|p: int, ci: int| 0 <= p < self.len() && 0 <= ci < self.mpi(p).len() implies
                #[trigger] self.mpi(p)[ci] == (if p == p0 && ci == ci0 {
                    -1
                } else if pi0 < l0 && p == moved.0 && ci == moved.1 {
                    pi0
                } else {
                    g0.mpi(p)[ci] as int
                }) by {}
            assert forall|c: int, k: int| 0 <= c < self.len() && 0 <= k < self.mci(c).len() implies
                #[trigger] self.mci(c)[k] == (if c == c0 && k == l0 {
                    -1
                } else if pi0 < l0 && c == c0 && k == pi0 {
                    moved.1
                } else {
                    g0.mci(c)[k] as int
                }) by {}
            if pi0 < l0 {
                assert(g0.child_link_ok(c0, l0));
                assert(moved.0 == ps[l0]);
                assert(g0.children(moved.0)[moved.1] == c0);
                assert(g0.mpi(moved.0)[moved.1] == l0);
            }
            assert forall|c: int, pi: int|
                0 <= c < self.len() && 0 <= pi < self.parents(c).len() implies #[trigger] self.parents(c)[pi]
                    < self.len() by {
                if c == c0 {
                    if pi == pi0 {
                        assert(self.parents(c)[pi] == ps[l0]);
                    } else {
                        assert(self.parents(c)[pi] == ps[pi]);
                    }
                } else {
                    assert(self.parents(c)[pi] == g0.parents(c)[pi]);
                }
            }
            assert forall|b: int, r: int|
                0 <= b < self.len() && 0 <= r < self.nodes@[b].rhs_nodes@.len()
                    implies #[trigger] self.nodes@[b].rhs_nodes@[r] < self.len() by {
                assert(self.nodes@[b].rhs_nodes@ == g0.nodes@[b].rhs_nodes@);
            }
            assert forall|n: int|
                0 <= n < self.len() implies match #[trigger] self.nodes@[n].created_in {
                    Some(s) => s < self.len(),
                    None => true,
                } by {
                assert(self.nodes@[n].created_in == g0.nodes@[n].created_in);
            }
            assert forall|c: int, pi: int|
                0 <= c < self.len() && 0 <= pi < self.parents(c).len() implies #[trigger] self.child_link_ok(c, pi) by {
                if c == c0 {
                    if pi == pi0 {
                        assert(pi0 < l0);
                        assert(self.parents(c)[pi] == ps[l0]);
                        assert(self.mci(c)[pi] == moved.1);
                    } else {
                        assert(pi < l0);
                        assert(g0.child_link_ok(c, pi));
                        assert(self.parents(c)[pi] == ps[pi]);
                        assert(self.mci(c)[pi] == g0.mci(c)[pi]);
                        let p = ps[pi] as int;
                        let ci = g0.mci(c)[pi] as int;
                        if p == p0 && ci == ci0 {
                            assert(g0.mpi(p0)[ci0] == pi);
                        }
                        if pi0 < l0 && p == moved.0 && ci == moved.1 {
                            assert(g0.mpi(p)[ci] == l0);
                        }
                    }
                } else {
                    assert(g0.child_link_ok(c, pi));
                    assert(self.parents(c)[pi] == g0.parents(c)[pi]);
                    let p = g0.parents(c)[pi] as int;
                    let ci = g0.mci(c)[pi] as int;
                    assert(self.mci(c)[pi] == g0.mci(c)[pi]);
                    assert(g0.children(p)[ci] == c);
                    if p == p0 && ci == ci0 {
                        assert(g0.children(p0)[ci0] == c0);
                    }
                    if pi0 < l0 && p == moved.0 && ci == moved.1 {
                        assert(g0.children(moved.0)[moved.1] == c0);
                    }
                }
            }
            assert forall|p: int, ci: int|
                0 <= p < self.len() && 0 <= ci < self.mpi(p).len() && self.mpi(p)[ci] >= 0 implies #[trigger] self.parent_link_ok(p, ci) by {
                if pi0 < l0 && p == moved.0 && ci == moved.1 && !(p == p0 && ci == ci0) {
                    assert(self.mpi(p)[ci] == pi0);
                    assert(self.children(p)[ci] == c0);
                    assert(self.parents(c0)[pi0] == ps[l0]);
                    assert(self.mci(c0)[pi0] == moved.1);
                } else {
                    assert(!(p == p0 && ci == ci0));
                    assert(self.mpi(p)[ci] == g0.mpi(p)[ci]);
                    assert(g0.parent_link_ok(p, ci));
                    let c = g0.children(p)[ci] as int;
                    let pi = g0.mpi(p)[ci] as int;
                    if c == c0 {
                        assert(pi != pi0);
                        if pi == l0 {
                            assert(g0.child_link_ok(c0, l0));
                        }
                        assert(pi != l0);
                        assert(self.parents(c)[pi] == ps[pi]);
                        assert(self.mci(c)[pi] == g0.mci(c)[pi]);
                    } else {
                        assert(self.parents(c) == g0.parents(c));
                        assert(self.mci(c)[pi] == g0.mci(c)[pi]);
                    }
                }
            }
            assert forall|c: int, ci: int, p: int|
                0 <= p < self.len() && (c != c0 || ci != ci0 || p != p0) implies (#[trigger] self.is_registered(c, ci, p)
                    <==> g0.is_registered(c, ci, p)) by {
                if pi0 < l0 && p == moved.0 && ci == moved.1 {
                    assert(g0.mpi(p)[ci] == l0);
                }
            }
        }
    }
}

} // verus!
