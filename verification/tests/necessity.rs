use lib::{AdjustHeightsHeap, Graph, Kind, RecomputeHeap, StabilisationNum, Stats};

/// v is read by m and m2; m is read by m2; m2 is kept necessary by force.
fn diamond() -> (Graph, usize, usize, usize) {
    let mut g = Graph::new();
    let v = g.create(&mut Stats::new(), Kind::Var, vec![], None);
    let m = g.create(&mut Stats::new(), Kind::Map1, vec![v], None);
    let m2 = g.create(&mut Stats::new(), Kind::Map2, vec![v, m], None);
    g.add_parent(v, 0, m);
    g.add_parent(v, 0, m2);
    g.add_parent(m, 1, m2);
    g.nodes[v].height = 0;
    g.nodes[m].height = 1;
    g.nodes[m2].height = 2;
    g.nodes[m2].force_necessary = true;
    (g, v, m, m2)
}

/// v is read by a, a by b; b is kept necessary by force.
fn chain(kind_a: Kind) -> (Graph, usize, usize, usize) {
    let mut g = Graph::new();
    let v = g.create(&mut Stats::new(), Kind::Var, vec![], None);
    let a = g.create(&mut Stats::new(), kind_a, vec![v], None);
    let b = g.create(&mut Stats::new(), Kind::Map1, vec![a], None);
    g.add_parent(v, 0, a);
    g.add_parent(a, 0, b);
    g.nodes[v].height = 0;
    g.nodes[a].height = 1;
    g.nodes[b].height = 2;
    g.nodes[b].force_necessary = true;
    (g, v, a, b)
}

#[test]
fn became_unnecessary_cascades_to_inputs() {
    let (mut g, v, m, m2) = diamond();
    let mut rch = RecomputeHeap::new(10);
    rch.insert(m, 1);
    g.nodes[m].height_in_recompute_heap = 1;
    g.nodes[m2].force_necessary = false;
    g.became_unnecessary(&mut rch, &mut Stats::new(), &mut vec![], m2);
    for n in [v, m, m2] {
        assert_eq!(g.nodes[n].height, -1);
        assert!(g.nodes[n].parents.is_empty());
        assert!(!g.is_necessary(n));
    }
    assert_eq!(g.nodes[m2].old_height, 2);
    assert_eq!(g.nodes[m].height_in_recompute_heap, -1);
    assert!(rch.is_empty());
    assert!(g.nodes[m2].my_parent_index_in_child_at_index.iter().all(|&i| i == -1));
}

#[test]
fn check_if_unnecessary_leaves_needed_nodes_alone() {
    let (mut g, v, m, m2) = diamond();
    let mut rch = RecomputeHeap::new(10);
    g.check_if_unnecessary(&mut rch, &mut Stats::new(), &mut vec![], m);
    assert_eq!(g.nodes[m].height, 1);
    assert_eq!(g.nodes[m].parents, vec![m2]);
    assert_eq!(g.nodes[v].parents, vec![m, m2]);
}

#[test]
fn remove_children_keeps_inputs_needed_elsewhere() {
    let (mut g, v, m, m2) = diamond();
    let mut rch = RecomputeHeap::new(10);
    g.remove_children(&mut rch, &mut Stats::new(), &mut vec![], m);
    // v is still read by m2, so it keeps its height
    assert_eq!(g.nodes[v].parents, vec![m2]);
    assert_eq!(g.nodes[v].height, 0);
    assert_eq!(g.nodes[m].my_parent_index_in_child_at_index, vec![-1]);
    assert_eq!(g.nodes[m].children, vec![v]);
}

#[test]
fn invalidate_node_stamps_and_notifies_parents() {
    let (mut g, v, a, _b) = chain(Kind::Map1);
    let mut ahh = AdjustHeightsHeap::new(10);
    let mut rch = RecomputeHeap::new(10);
    g.nodes[v].has_value = true;
    let mut stack = vec![];
    let now = StabilisationNum(7);
    assert!(g.invalidate_node(&mut ahh, &mut rch, &mut stack, &mut Stats::new(), &mut vec![], now, v));
    assert!(!g.nodes[v].is_valid);
    assert!(!g.nodes[v].has_value);
    assert_eq!(g.nodes[v].changed_at, now);
    assert_eq!(g.nodes[v].recomputed_at, now);
    // v is needed, so it drops to just above the top scope
    assert_eq!(g.nodes[v].height, 1);
    assert_eq!(stack, vec![a]);
    // a second invalidation does nothing
    assert!(g.invalidate_node(&mut ahh, &mut rch, &mut stack, &mut Stats::new(), &mut vec![], StabilisationNum(8), v));
    assert_eq!(g.nodes[v].changed_at, now);
    assert_eq!(stack, vec![a]);
}

#[test]
fn invalidate_node_refuses_a_height_above_the_maximum() {
    let (mut g, v, _a, _b) = chain(Kind::Map1);
    let mut ahh = AdjustHeightsHeap::new(0);
    let mut rch = RecomputeHeap::new(10);
    let mut stack = vec![];
    assert!(!g.invalidate_node(&mut ahh, &mut rch, &mut stack, &mut Stats::new(), &mut vec![], StabilisationNum(1), v));
    assert!(g.nodes[v].is_valid);
}

#[test]
fn invalidate_node_leaves_the_recompute_heap() {
    let (mut g, v, a, b) = chain(Kind::Map1);
    let mut ahh = AdjustHeightsHeap::new(10);
    let mut rch = RecomputeHeap::new(10);
    rch.insert(b, 2);
    g.nodes[b].height_in_recompute_heap = 2;
    let mut stack = vec![];
    assert!(g.invalidate_node(&mut ahh, &mut rch, &mut stack, &mut Stats::new(), &mut vec![], StabilisationNum(1), b));
    assert!(rch.is_empty());
    assert_eq!(g.nodes[b].height_in_recompute_heap, -1);
    // b stopped reading a, and a, no longer needed, stopped reading v
    assert_eq!(g.nodes[a].height, -1);
    assert_eq!(g.nodes[v].height, -1);
    assert!(g.nodes[v].parents.is_empty());
    assert!(stack.is_empty());
}

#[test]
fn invalidating_a_bind_main_node_invalidates_its_right_hand_side() {
    let mut g = Graph::new();
    let lhs = g.create(&mut Stats::new(), Kind::BindLhsChange, vec![], None);
    let main = g.create(&mut Stats::new(), Kind::BindMain, vec![lhs], None);
    let r = g.create(&mut Stats::new(), Kind::Var, vec![], Some(lhs));
    g.nodes[lhs].rhs_nodes = vec![r];
    let mut ahh = AdjustHeightsHeap::new(10);
    let mut rch = RecomputeHeap::new(10);
    let mut stack = vec![];
    assert!(g.invalidate_node(&mut ahh, &mut rch, &mut stack, &mut Stats::new(), &mut vec![], StabilisationNum(3), main));
    assert!(!g.nodes[main].is_valid);
    assert!(!g.nodes[r].is_valid);
    assert!(g.nodes[lhs].is_valid);
    assert!(g.nodes[lhs].rhs_nodes.is_empty());
}

#[test]
fn propagate_invalidity_reaches_every_dependent() {
    let (mut g, v, a, b) = chain(Kind::Map1);
    let mut ahh = AdjustHeightsHeap::new(10);
    let mut rch = RecomputeHeap::new(10);
    let mut stack = vec![];
    let now = StabilisationNum(2);
    assert!(g.invalidate_node(&mut ahh, &mut rch, &mut stack, &mut Stats::new(), &mut vec![], now, v));
    assert!(g.propagate_invalidity(&mut ahh, &mut rch, &mut stack, &mut Stats::new(), &mut vec![], now));
    assert!(stack.is_empty());
    for n in [v, a, b] {
        assert!(!g.nodes[n].is_valid);
        assert_eq!(g.nodes[n].changed_at, now);
    }
    assert!(rch.is_empty());
    // b is still forced necessary, and now reads nothing
    assert_eq!(g.nodes[b].height, 1);
}

#[test]
fn propagate_invalidity_queues_nodes_that_may_survive() {
    let (mut g, v, e, b) = chain(Kind::Expert);
    let mut ahh = AdjustHeightsHeap::new(10);
    let mut rch = RecomputeHeap::new(10);
    let mut stack = vec![];
    let now = StabilisationNum(2);
    assert!(g.invalidate_node(&mut ahh, &mut rch, &mut stack, &mut Stats::new(), &mut vec![], now, v));
    assert!(g.propagate_invalidity(&mut ahh, &mut rch, &mut stack, &mut Stats::new(), &mut vec![], now));
    // an expert node cannot tell yet: it stays valid and waits in the recompute heap
    assert!(g.nodes[e].is_valid);
    assert_eq!(g.nodes[e].height_in_recompute_heap, 1);
    assert_eq!(rch.len(), 1);
    assert!(g.nodes[b].is_valid);
}

#[test]
fn propagate_invalidity_skips_invalid_nodes() {
    let (mut g, v, a, _b) = chain(Kind::Map1);
    let mut ahh = AdjustHeightsHeap::new(10);
    let mut rch = RecomputeHeap::new(10);
    g.nodes[a].is_valid = false;
    let mut stack = vec![a];
    assert!(g.propagate_invalidity(&mut ahh, &mut rch, &mut stack, &mut Stats::new(), &mut vec![], StabilisationNum(1)));
    assert!(g.nodes[v].is_valid);
    assert!(rch.is_empty());
}

#[test]
fn became_necessary_attaches_to_inputs_recursively() {
    let mut g = Graph::new();
    let v = g.create(&mut Stats::new(), Kind::Var, vec![], None);
    let a = g.create(&mut Stats::new(), Kind::Map1, vec![v], None);
    let b = g.create(&mut Stats::new(), Kind::Map2, vec![a, v], None);
    let mut ahh = AdjustHeightsHeap::new(10);
    let mut rch = RecomputeHeap::new(10);
    let mut stack = vec![];
    g.nodes[b].force_necessary = true;
    let mut stats = Stats::new();
    assert!(g.became_necessary(&mut ahh, &mut rch, &mut stack, &mut stats, &mut vec![], b));
    // b, then a, then v became necessary
    assert_eq!(stats.became_necessary, 3);
    // every node now reads its inputs and sits above them
    assert_eq!(g.nodes[v].parents, vec![a, b]);
    assert_eq!(g.nodes[a].parents, vec![b]);
    assert_eq!(g.nodes[v].height, 1);
    assert_eq!(g.nodes[a].height, 2);
    assert_eq!(g.nodes[b].height, 3);
    // the two maps were never computed, so they are queued at their heights; the
    // variable was never set, so it is not stale
    assert_eq!(rch.len(), 2);
    assert_eq!(g.nodes[b].height_in_recompute_heap, 3);
    assert_eq!(g.nodes[a].height_in_recompute_heap, 2);
    assert_eq!(g.nodes[v].height_in_recompute_heap, -1);
    assert!(stack.is_empty());
}

#[test]
fn became_necessary_reports_invalid_inputs() {
    let mut g = Graph::new();
    let v = g.create(&mut Stats::new(), Kind::Var, vec![], None);
    let m = g.create(&mut Stats::new(), Kind::Map1, vec![v], None);
    g.nodes[v].is_valid = false;
    g.nodes[m].force_necessary = true;
    let mut ahh = AdjustHeightsHeap::new(10);
    let mut rch = RecomputeHeap::new(10);
    let mut stack = vec![];
    assert!(g.became_necessary(&mut ahh, &mut rch, &mut stack, &mut Stats::new(), &mut vec![], m));
    assert_eq!(stack, vec![m]);
}

#[test]
fn became_necessary_refuses_an_input_in_an_unneeded_scope() {
    let mut g = Graph::new();
    let lhs = g.create(&mut Stats::new(), Kind::BindLhsChange, vec![], None);
    let r = g.create(&mut Stats::new(), Kind::Var, vec![], Some(lhs));
    let m = g.create(&mut Stats::new(), Kind::Map1, vec![r], None);
    g.nodes[m].force_necessary = true;
    let mut ahh = AdjustHeightsHeap::new(10);
    let mut rch = RecomputeHeap::new(10);
    let mut stack = vec![];
    assert!(!g.became_necessary(&mut ahh, &mut rch, &mut stack, &mut Stats::new(), &mut vec![], m));
}

#[test]
fn became_necessary_refuses_a_height_above_the_maximum() {
    let mut g = Graph::new();
    let v = g.create(&mut Stats::new(), Kind::Var, vec![], None);
    let a = g.create(&mut Stats::new(), Kind::Map1, vec![v], None);
    let b = g.create(&mut Stats::new(), Kind::Map1, vec![a], None);
    g.nodes[b].force_necessary = true;
    let mut ahh = AdjustHeightsHeap::new(2);
    let mut rch = RecomputeHeap::new(10);
    let mut stack = vec![];
    assert!(!g.became_necessary(&mut ahh, &mut rch, &mut stack, &mut Stats::new(), &mut vec![], b));
}

#[test]
fn add_parent_without_adjusting_heights_keeps_needed_children_in_place() {
    let (mut g, v, m, m2) = diamond();
    let extra = g.create(&mut Stats::new(), Kind::Map1, vec![m], None);
    g.nodes[extra].force_necessary = true;
    g.nodes[extra].height = 5;
    let mut ahh = AdjustHeightsHeap::new(10);
    let mut rch = RecomputeHeap::new(10);
    let mut stack = vec![];
    assert!(g.add_parent_without_adjusting_heights(&mut ahh, &mut rch, &mut stack, &mut Stats::new(), &mut vec![], m, 0, extra));
    assert_eq!(g.nodes[m].parents, vec![m2, extra]);
    assert_eq!(g.nodes[m].height, 1);
    assert_eq!(g.nodes[v].parents, vec![m, m2]);
    assert!(rch.is_empty());
}

#[test]
fn invalidation_counts_and_queues_nodes_with_update_handlers() {
    let (mut g, v, a, b) = chain(Kind::Map1);
    g.nodes[a].num_on_update_handlers = 2;
    let mut ahh = AdjustHeightsHeap::new(10);
    let mut rch = RecomputeHeap::new(10);
    let mut stack = vec![];
    let mut stats = Stats::new();
    let mut handle_after = vec![];
    let now = StabilisationNum(3);
    assert!(g.invalidate_node(&mut ahh, &mut rch, &mut stack, &mut stats, &mut handle_after, now, v));
    assert!(g.propagate_invalidity(&mut ahh, &mut rch, &mut stack, &mut stats, &mut handle_after, now));
    assert!(!g.nodes[a].is_valid);
    assert!(!g.nodes[b].is_valid);
    assert_eq!(stats.invalidated, 3);
    // only the node with update handlers waits for them to run
    assert_eq!(handle_after, vec![a]);
}

#[test]
fn becoming_unnecessary_counts_and_queues_nodes_with_update_handlers() {
    let (mut g, _v, m, m2) = diamond();
    g.nodes[m].num_on_update_handlers = 1;
    g.nodes[m2].force_necessary = false;
    let mut rch = RecomputeHeap::new(10);
    let mut stats = Stats::new();
    let mut handle_after = vec![];
    g.became_unnecessary(&mut rch, &mut stats, &mut handle_after, m2);
    assert_eq!(stats.became_unnecessary, 3);
    assert_eq!(stats.became_necessary, 0);
    assert_eq!(handle_after, vec![m]);
}

#[test]
fn becoming_necessary_queues_nodes_with_update_handlers() {
    let mut g = Graph::new();
    let v = g.create(&mut Stats::new(), Kind::Var, vec![], None);
    let a = g.create(&mut Stats::new(), Kind::Map1, vec![v], None);
    let b = g.create(&mut Stats::new(), Kind::Map1, vec![a], None);
    g.nodes[a].num_on_update_handlers = 1;
    g.nodes[b].force_necessary = true;
    let mut ahh = AdjustHeightsHeap::new(10);
    let mut rch = RecomputeHeap::new(10);
    let mut stack = vec![];
    let mut handle_after = vec![];
    assert!(g.became_necessary(&mut ahh, &mut rch, &mut stack, &mut Stats::new(), &mut handle_after, b));
    assert_eq!(handle_after, vec![a]);
}
