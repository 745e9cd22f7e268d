use lib::{AdjustHeightsHeap, Graph, Kind, RecomputeHeap, StabilisationNum, Stats};

/// A bind over a variable `v`, kept needed by force: `v` is read by the change node
/// `lc`, which is read by the main node `m`.
fn needed_bind() -> (Graph, usize, usize, usize) {
    let mut g = Graph::new();
    let v = g.create(&mut Stats::new(), Kind::Var, vec![], None);
    let (lc, m) = g.create_bind(&mut Stats::new(), v, None);
    g.add_parent(v, 0, lc);
    g.add_parent(lc, 0, m);
    g.nodes[v].height = 0;
    g.nodes[lc].height = 1;
    g.nodes[m].height = 2;
    g.nodes[m].force_necessary = true;
    (g, v, lc, m)
}

#[test]
fn create_bind_makes_the_change_node_and_the_main_node() {
    let mut g = Graph::new();
    let v = g.create(&mut Stats::new(), Kind::Var, vec![], None);
    let (lc, m) = g.create_bind(&mut Stats::new(), v, None);
    assert_eq!((lc, m), (1, 2));
    assert_eq!(g.nodes[lc].kind, Kind::BindLhsChange);
    assert_eq!(g.nodes[lc].children, vec![v]);
    assert_eq!(g.nodes[m].kind, Kind::BindMain);
    assert_eq!(g.nodes[m].children, vec![lc]);
    assert_eq!(g.nodes[m].height, -1);
    assert!(g.nodes[v].parents.is_empty());
}

#[test]
fn an_unneeded_bind_switches_its_right_hand_side_without_registering() {
    let mut g = Graph::new();
    let v = g.create(&mut Stats::new(), Kind::Var, vec![], None);
    let (lc, m) = g.create_bind(&mut Stats::new(), v, None);
    let r = g.create(&mut Stats::new(), Kind::Constant, vec![], Some(lc));
    let mut ahh = AdjustHeightsHeap::new(10);
    let mut rch = RecomputeHeap::new(10);
    let mut stack = vec![];
    assert!(g.change_bind_rhs(&mut ahh, &mut rch, &mut stack, &mut Stats::new(), &mut vec![], m, r));
    assert_eq!(g.nodes[m].children, vec![lc, r]);
    assert!(g.nodes[r].parents.is_empty());
    assert_eq!(g.nodes[r].height, -1);
}

#[test]
fn a_needed_bind_registers_its_new_right_hand_side_and_drops_the_old_one() {
    let (mut g, _v, lc, m) = needed_bind();
    let r1 = g.create(&mut Stats::new(), Kind::Constant, vec![], None);
    let r2 = g.create(&mut Stats::new(), Kind::Constant, vec![], None);
    let mut ahh = AdjustHeightsHeap::new(10);
    let mut rch = RecomputeHeap::new(10);
    let mut stack = vec![];
    assert!(g.change_bind_rhs(&mut ahh, &mut rch, &mut stack, &mut Stats::new(), &mut vec![], m, r1));
    assert_eq!(g.nodes[m].children, vec![lc, r1]);
    assert_eq!(g.nodes[r1].parents, vec![m]);
    assert_eq!(g.nodes[r1].height, 1);
    // the new constant has never been computed: it waits in the recompute heap
    assert!(g.is_in_recompute_heap(r1));

    assert!(g.change_bind_rhs(&mut ahh, &mut rch, &mut stack, &mut Stats::new(), &mut vec![], m, r2));
    assert_eq!(g.nodes[m].children, vec![lc, r2]);
    assert_eq!(g.nodes[r2].parents, vec![m]);
    assert!(g.nodes[r1].parents.is_empty());
    assert_eq!(g.nodes[r1].height, -1);
    assert!(!g.is_in_recompute_heap(r1));
}

#[test]
fn switching_to_the_same_right_hand_side_changes_nothing() {
    let (mut g, _v, lc, m) = needed_bind();
    let r = g.create(&mut Stats::new(), Kind::Constant, vec![], None);
    let mut ahh = AdjustHeightsHeap::new(10);
    let mut rch = RecomputeHeap::new(10);
    let mut stack = vec![];
    assert!(g.change_bind_rhs(&mut ahh, &mut rch, &mut stack, &mut Stats::new(), &mut vec![], m, r));
    assert!(g.change_bind_rhs(&mut ahh, &mut rch, &mut stack, &mut Stats::new(), &mut vec![], m, r));
    assert_eq!(g.nodes[m].children, vec![lc, r]);
    assert_eq!(g.nodes[r].parents, vec![m]);
}

#[test]
fn a_left_hand_side_change_invalidates_what_the_scope_made_before() {
    let (mut g, v, lc, m) = needed_bind();
    let mut ahh = AdjustHeightsHeap::new(10);
    let mut rch = RecomputeHeap::new(10);
    let mut stack = vec![];
    let r1 = g.create(&mut Stats::new(), Kind::Map1, vec![v], Some(lc));
    assert!(g.bind_lhs_changed(&mut ahh, &mut rch, &mut stack, &mut Stats::new(), &mut vec![], lc, m, r1, vec![r1], StabilisationNum(1)));
    assert_eq!(g.nodes[lc].changed_at, StabilisationNum(1));
    assert_eq!(g.nodes[lc].rhs_nodes, vec![r1]);
    assert_eq!(g.nodes[m].children, vec![lc, r1]);
    assert!(g.nodes[r1].is_valid);

    let r2 = g.create(&mut Stats::new(), Kind::Map1, vec![v], Some(lc));
    assert!(g.bind_lhs_changed(&mut ahh, &mut rch, &mut stack, &mut Stats::new(), &mut vec![], lc, m, r2, vec![r2], StabilisationNum(2)));
    assert_eq!(g.nodes[lc].changed_at, StabilisationNum(2));
    assert_eq!(g.nodes[lc].rhs_nodes, vec![r2]);
    assert_eq!(g.nodes[m].children, vec![lc, r2]);
    assert!(!g.nodes[r1].is_valid);
    assert!(g.nodes[r2].is_valid);
    assert!(!g.nodes[v].parents.contains(&r1));
    assert!(g.nodes[v].parents.contains(&r2));
}
