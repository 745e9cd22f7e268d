use lib::{AdjustHeightsError, AdjustHeightsHeap, Graph, Kind, RecomputeHeap, StabilisationNum, Stats};

fn small_graph() -> (Graph, usize, usize, usize) {
    // v is read by m, and m is read by m2
    let mut g = Graph::new();
    let v = g.create(&mut Stats::new(), Kind::Var, vec![], None);
    let m = g.create(&mut Stats::new(), Kind::Map1, vec![v], None);
    let m2 = g.create(&mut Stats::new(), Kind::Map1, vec![m], None);
    (g, v, m, m2)
}

#[test]
fn create_gives_consecutive_ids() {
    let (g, v, m, m2) = small_graph();
    assert_eq!((v, m, m2), (0, 1, 2));
    assert_eq!(g.num_nodes(), 3);
    assert_eq!(g.nodes[m].children, vec![v]);
    assert_eq!(g.nodes[m].height, -1);
    assert!(g.nodes[m].recomputed_at.is_never());
}

#[test]
fn add_then_remove_parent_restores_the_links() {
    let (mut g, v, m, m2) = small_graph();
    g.add_parent(v, 0, m);
    assert_eq!(g.nodes[v].parents, vec![m]);
    assert_eq!(g.nodes[m].my_parent_index_in_child_at_index, vec![0]);
    assert_eq!(g.nodes[v].my_child_index_in_parent_at_index[0], 0);
    assert!(g.is_necessary(v));
    g.add_parent(m, 0, m2);
    g.remove_parent(v, 0, m);
    assert!(g.nodes[v].parents.is_empty());
    assert_eq!(g.nodes[m].my_parent_index_in_child_at_index, vec![-1]);
    assert!(!g.is_necessary(v));
    assert_eq!(g.nodes[m].parents, vec![m2]);
}

#[test]
fn remove_parent_moves_the_last_parent_into_the_gap() {
    let mut g = Graph::new();
    let v = g.create(&mut Stats::new(), Kind::Var, vec![], None);
    let a = g.create(&mut Stats::new(), Kind::Map1, vec![v], None);
    let b = g.create(&mut Stats::new(), Kind::Map1, vec![v], None);
    let c = g.create(&mut Stats::new(), Kind::Map1, vec![v], None);
    g.add_parent(v, 0, a);
    g.add_parent(v, 0, b);
    g.add_parent(v, 0, c);
    g.remove_parent(v, 0, a);
    assert_eq!(g.nodes[v].parents, vec![c, b]);
    assert_eq!(g.nodes[c].my_parent_index_in_child_at_index, vec![0]);
    assert_eq!(g.nodes[b].my_parent_index_in_child_at_index, vec![1]);
}

#[test]
fn adjust_heights_raises_the_parents_above_the_child() {
    let (mut g, v, m, m2) = small_graph();
    g.add_parent(m, 0, m2);
    g.nodes[v].height = 0;
    g.nodes[m].height = 0;
    g.nodes[m2].height = 1;
    g.add_parent(v, 0, m);
    let mut ahh = AdjustHeightsHeap::new(10);
    let mut rch = RecomputeHeap::new(10);
    assert_eq!(ahh.adjust_heights(&mut g, &mut rch, v, m), Ok(()));
    assert_eq!(g.nodes[v].height, 0);
    assert_eq!(g.nodes[m].height, 1);
    assert_eq!(g.nodes[m2].height, 2);
    assert_eq!(g.nodes[m].old_height, 0);
    assert!(ahh.is_empty());
}

#[test]
fn adjust_heights_moves_queued_nodes_in_the_recompute_heap() {
    let (mut g, v, m, m2) = small_graph();
    g.add_parent(m, 0, m2);
    g.nodes[v].height = 3;
    g.nodes[m].height = 1;
    g.nodes[m2].height = 2;
    let mut rch = RecomputeHeap::new(10);
    rch.insert(m2, 2);
    g.nodes[m2].height_in_recompute_heap = 2;
    g.add_parent(v, 0, m);
    let mut ahh = AdjustHeightsHeap::new(10);
    assert_eq!(ahh.adjust_heights(&mut g, &mut rch, v, m), Ok(()));
    assert_eq!(g.nodes[m].height, 4);
    assert_eq!(g.nodes[m2].height, 5);
    assert_eq!(g.nodes[m2].height_in_recompute_heap, 5);
    assert_eq!(rch.len(), 1);
    assert_eq!(rch.remove_min_layer(), Some(vec![m2]));
}

#[test]
fn adjust_heights_finds_a_cycle() {
    let mut g = Graph::new();
    let a = g.create(&mut Stats::new(), Kind::Map1, vec![], None);
    let b = g.create(&mut Stats::new(), Kind::Map1, vec![a], None);
    g.nodes[a].children = vec![b];
    g.add_parent(a, 0, b);
    g.nodes[a].height = 0;
    g.nodes[b].height = 1;
    g.add_parent(b, 0, a);
    let mut ahh = AdjustHeightsHeap::new(10);
    let mut rch = RecomputeHeap::new(10);
    assert_eq!(ahh.adjust_heights(&mut g, &mut rch, b, a), Err(AdjustHeightsError::Cycle));
}

#[test]
fn adjust_heights_refuses_too_large_heights() {
    let (mut g, v, m, m2) = small_graph();
    g.add_parent(m, 0, m2);
    g.nodes[v].height = 2;
    g.nodes[m].height = 1;
    g.nodes[m2].height = 2;
    g.add_parent(v, 0, m);
    let mut ahh = AdjustHeightsHeap::new(3);
    let mut rch = RecomputeHeap::new(3);
    assert_eq!(ahh.adjust_heights(&mut g, &mut rch, v, m), Err(AdjustHeightsError::HeightTooLarge));
}

#[test]
fn staleness_follows_the_kinds() {
    let (mut g, v, m, _m2) = small_graph();
    // a variable is stale once set after its last recomputation
    g.nodes[v].recomputed_at = StabilisationNum(1);
    g.nodes[v].set_at = StabilisationNum(1);
    assert!(!g.is_stale(v));
    g.nodes[v].set_at = StabilisationNum(2);
    assert!(g.is_stale(v));
    // a map is stale when never computed or an input changed since
    assert!(g.is_stale(m));
    g.nodes[m].recomputed_at = StabilisationNum(3);
    g.nodes[v].changed_at = StabilisationNum(2);
    assert!(!g.is_stale(m));
    assert!(!g.is_stale_with_respect_to_a_child(m));
    g.nodes[v].changed_at = StabilisationNum(4);
    assert!(g.is_stale(m));
    assert!(g.edge_is_stale(v, m));
    // invalid nodes are never stale
    g.nodes[m].is_valid = false;
    assert!(!g.is_stale(m));
    // constants are stale only before their first computation
    let c = g.create(&mut Stats::new(), Kind::Constant, vec![], None);
    assert!(g.is_stale(c));
    g.nodes[c].recomputed_at = StabilisationNum(0);
    assert!(!g.is_stale(c));
}

#[test]
fn needs_to_be_computed_wants_necessary_and_stale() {
    let (mut g, v, m, _m2) = small_graph();
    assert!(!g.needs_to_be_computed(m));
    g.nodes[m].force_necessary = true;
    assert!(g.needs_to_be_computed(m));
    g.add_parent(v, 0, m);
    g.nodes[v].recomputed_at = StabilisationNum(0);
    assert!(!g.needs_to_be_computed(v));
}

#[test]
fn invalid_inputs_invalidate() {
    let mut g = Graph::new();
    let a = g.create(&mut Stats::new(), Kind::Var, vec![], None);
    let b = g.create(&mut Stats::new(), Kind::Var, vec![], None);
    let m2 = g.create(&mut Stats::new(), Kind::Map2, vec![a, b], None);
    let lhs_change = g.create(&mut Stats::new(), Kind::BindLhsChange, vec![a], None);
    let main = g.create(&mut Stats::new(), Kind::BindMain, vec![lhs_change, b], None);
    let e = g.create(&mut Stats::new(), Kind::Expert, vec![a], None);
    assert!(!g.should_be_invalidated(m2));
    g.nodes[b].is_valid = false;
    assert!(g.has_invalid_child(m2));
    assert!(g.should_be_invalidated(m2));
    assert!(!g.should_be_invalidated(main));
    g.nodes[a].is_valid = false;
    assert!(g.should_be_invalidated(lhs_change));
    assert!(!g.should_be_invalidated(e));
    assert!(!g.should_be_invalidated(a));
}

#[test]
fn a_single_input_parent_can_run_right_away() {
    let (mut g, v, m, _m2) = small_graph();
    g.nodes[v].height = 1;
    g.nodes[m].height = 2;
    let mut rch = RecomputeHeap::new(10);
    assert_eq!(g.created_in_height(m), 0);
    assert!(g.parent_iter_can_recompute_now(&mut rch, m, v));
    assert!(rch.is_empty());
}

#[test]
fn a_many_input_parent_waits_in_the_heap() {
    let mut g = Graph::new();
    let a = g.create(&mut Stats::new(), Kind::Var, vec![], None);
    let b = g.create(&mut Stats::new(), Kind::Var, vec![], None);
    let m2 = g.create(&mut Stats::new(), Kind::Map2, vec![a, b], None);
    let other = g.create(&mut Stats::new(), Kind::Var, vec![], None);
    g.nodes[a].height = 1;
    g.nodes[b].height = 1;
    g.nodes[m2].height = 3;
    g.nodes[other].height = 2;
    let mut rch = RecomputeHeap::new(10);
    rch.insert(other, 2);
    g.nodes[other].height_in_recompute_heap = 2;
    assert!(!g.parent_iter_can_recompute_now(&mut rch, m2, a));
    assert!(g.is_in_recompute_heap(m2));
    assert_eq!(g.nodes[m2].height_in_recompute_heap, 3);
    assert_eq!(rch.len(), 2);
}

#[test]
fn a_change_schedules_every_parent() {
    let mut g = Graph::new();
    let v = g.create(&mut Stats::new(), Kind::Var, vec![], None);
    let p1 = g.create(&mut Stats::new(), Kind::Map1, vec![v], None);
    let p2 = g.create(&mut Stats::new(), Kind::Map1, vec![v], None);
    let p3 = g.create(&mut Stats::new(), Kind::Map2, vec![v, v], None);
    g.add_parent(v, 0, p1);
    g.add_parent(v, 0, p2);
    g.add_parent(v, 0, p3);
    g.nodes[v].height = 0;
    g.nodes[p1].height = 1;
    g.nodes[p2].height = 1;
    g.nodes[p3].height = 1;
    let mut rch = RecomputeHeap::new(10);
    let mut stats = Stats::new();
    let mut handle_after: Vec<usize> = vec![];
    let next = g.recompute_one(&mut rch, &mut stats, &mut handle_after, v, true, StabilisationNum(5));
    assert_eq!(stats.recomputed, 1);
    assert_eq!(stats.changed, 1);
    assert_eq!(next, Some(p1));
    assert_eq!(g.nodes[v].changed_at, StabilisationNum(5));
    assert_eq!(g.nodes[v].recomputed_at, StabilisationNum(5));
    assert_eq!(rch.len(), 2);
    assert!(g.is_in_recompute_heap(p2));
    assert!(g.is_in_recompute_heap(p3));
    assert!(!g.is_in_recompute_heap(p1));
}

#[test]
fn an_unchanged_value_schedules_nothing() {
    let (mut g, v, m, _m2) = small_graph();
    g.add_parent(v, 0, m);
    g.nodes[v].height = 0;
    g.nodes[m].height = 1;
    let mut rch = RecomputeHeap::new(10);
    let mut stats = Stats::new();
    let mut handle_after: Vec<usize> = vec![];
    assert_eq!(g.maybe_change_value(&mut rch, &mut stats, &mut handle_after, v, false, StabilisationNum(2)), None);
    assert_eq!(stats.changed, 0);
    assert!(rch.is_empty());
    assert!(g.nodes[v].changed_at.is_never());
}

#[test]
fn kinds_describe_their_types() {
    assert_eq!(Kind::Constant.debug_ty(), "Constant");
    assert_eq!(Kind::Map2.debug_ty(), "Map2<(...) -> ...>");
    assert_eq!(Kind::BindMain.debug_ty(), "BindMain<(lhs: dynamic) -> (dynamic)>");
    assert_eq!(Kind::Expert.debug_ty(), "Expert");
}

#[test]
fn creating_nodes_counts_them() {
    let mut g = Graph::new();
    let mut stats = Stats::new();
    let v = g.create(&mut stats, Kind::Var, vec![], None);
    assert_eq!(stats.created, 1);
    let _ = g.create_bind(&mut stats, v, None);
    assert_eq!(stats.created, 3);
    assert_eq!(stats.changed, 0);
}
