use lib::{AdjustHeightsHeap, Cutoff, Graph, Kind, RecomputeHeap, Recomputed, StabilisationNum, Stats};

type Plain = Cutoff<i32, fn(&i32, &i32) -> bool>;

/// `v` is read by `m`, which an observer keeps needed.
fn observed_pair() -> (Graph, RecomputeHeap, AdjustHeightsHeap, usize, usize) {
    let mut g = Graph::new();
    let v = g.create(&mut Stats::new(), Kind::Var, vec![], None);
    let m = g.create(&mut Stats::new(), Kind::Map1, vec![v], None);
    let mut ahh = AdjustHeightsHeap::new(10);
    let mut rch = RecomputeHeap::new(10);
    let mut stack = vec![];
    assert!(g.add_observer(&mut ahh, &mut rch, &mut stack, &mut Stats::new(), &mut vec![], StabilisationNum(0), m));
    // the observed node is queued for its first computation; take it out again
    let _ = g.take_min_layer(&mut rch);
    let _ = g.take_min_layer(&mut rch);
    (g, rch, ahh, v, m)
}

#[test]
fn an_equal_value_is_cut_off_and_still_stored() {
    let (mut g, mut rch, _ahh, v, m) = observed_pair();
    let mut stats = Stats::new();
    let mut handle_after = vec![];
    let mut values = vec![Some(3), None];
    let (next, changed) = g.maybe_change_value_cutoff(
        &mut rch,
        &mut stats,
        &mut handle_after,
        &mut values,
        &Plain::PartialEq,
        v,
        3,
        StabilisationNum(1),
    );
    assert!(!changed);
    assert_eq!(next, None);
    assert_eq!(values[v], Some(3));
    assert_eq!(stats.changed, 0);
    assert!(g.nodes[v].changed_at.is_never());
    let (next, changed) = g.maybe_change_value_cutoff(
        &mut rch,
        &mut stats,
        &mut handle_after,
        &mut values,
        &Plain::PartialEq,
        v,
        4,
        StabilisationNum(1),
    );
    assert!(changed);
    assert_eq!(next, Some(m));
    assert_eq!(values[v], Some(4));
    assert_eq!(stats.changed, 1);
    assert_eq!(g.nodes[v].changed_at, StabilisationNum(1));
}

#[test]
fn a_first_value_always_counts_as_a_change() {
    let (mut g, mut rch, _ahh, v, _m) = observed_pair();
    let mut stats = Stats::new();
    let mut handle_after = vec![];
    let mut values: Vec<Option<i32>> = vec![None, None];
    let (_, changed) = g.maybe_change_value_cutoff(
        &mut rch,
        &mut stats,
        &mut handle_after,
        &mut values,
        &Plain::Always,
        v,
        9,
        StabilisationNum(2),
    );
    assert!(changed);
    assert_eq!(values[v], Some(9));
    // once there is a value, `Always` cuts every change off
    let (_, changed) = g.maybe_change_value_cutoff(
        &mut rch,
        &mut stats,
        &mut handle_after,
        &mut values,
        &Plain::Always,
        v,
        10,
        StabilisationNum(3),
    );
    assert!(!changed);
    assert_eq!(values[v], Some(10));
    assert_eq!(g.nodes[v].changed_at, StabilisationNum(2));
}

#[test]
fn a_custom_cutoff_decides_from_the_old_and_the_new_value() {
    let (mut g, mut rch, _ahh, v, _m) = observed_pair();
    let mut stats = Stats::new();
    let mut handle_after = vec![];
    let mut values = vec![Some(10), None];
    let close = |a: &i32, b: &i32| (a - b).abs() < 3;
    let (_, changed) = g.maybe_change_value_cutoff(
        &mut rch,
        &mut stats,
        &mut handle_after,
        &mut values,
        &Cutoff::Custom(close),
        v,
        12,
        StabilisationNum(1),
    );
    assert!(!changed);
    assert_eq!(values[v], Some(12));
    let (_, changed) = g.maybe_change_value_cutoff(
        &mut rch,
        &mut stats,
        &mut handle_after,
        &mut values,
        &Cutoff::Custom(close),
        v,
        20,
        StabilisationNum(1),
    );
    assert!(changed);
    assert_eq!(values[v], Some(20));
}

#[test]
fn a_manual_change_stores_the_value_either_way() {
    let (mut g, mut rch, _ahh, v, m) = observed_pair();
    let mut stats = Stats::new();
    let mut handle_after = vec![];
    let mut values = vec![Some(1), None];
    let next = g.maybe_change_value_manual(
        &mut rch,
        &mut stats,
        &mut handle_after,
        &mut values,
        v,
        Some(5),
        false,
        StabilisationNum(4),
    );
    assert_eq!(next, None);
    assert_eq!(values[v], Some(5));
    assert!(g.nodes[v].changed_at.is_never());
    assert_eq!(stats.changed, 0);
    let next = g.maybe_change_value_manual(
        &mut rch,
        &mut stats,
        &mut handle_after,
        &mut values,
        v,
        None,
        true,
        StabilisationNum(4),
    );
    assert_eq!(next, Some(m));
    assert_eq!(values[v], None);
    assert_eq!(g.nodes[v].changed_at, StabilisationNum(4));
    assert_eq!(stats.changed, 1);
}

#[test]
fn recompute_one_value_counts_the_recomputation_and_the_change() {
    let (mut g, mut rch, _ahh, v, m) = observed_pair();
    let mut stats = Stats::new();
    let mut handle_after = vec![];
    let mut values = vec![Some(1), Some(2)];
    let (next, changed) = g.recompute_one_value(
        &mut rch,
        &mut stats,
        &mut handle_after,
        &mut values,
        &Plain::PartialEq,
        m,
        7,
        StabilisationNum(6),
    );
    assert!(changed);
    assert_eq!(next, None);
    assert_eq!(values, vec![Some(1), Some(7)]);
    assert_eq!(stats.recomputed, 1);
    assert_eq!(stats.changed, 1);
    assert_eq!(g.nodes[m].recomputed_at, StabilisationNum(6));
    assert_eq!(g.nodes[m].changed_at, StabilisationNum(6));
    assert!(g.nodes[v].recomputed_at.is_never());
}

#[test]
fn a_step_with_a_value_applies_the_cutoff() {
    let (mut g, mut rch, mut ahh, _v, m) = observed_pair();
    let mut stats = Stats::new();
    let mut handle_after = vec![];
    let mut stack = vec![];
    let mut values = vec![Some(1), Some(2)];
    let r = g.recompute_step(
        &mut ahh,
        &mut rch,
        &mut stats,
        &mut handle_after,
        &mut stack,
        &mut values,
        &Plain::PartialEq,
        m,
        Recomputed::Value(2),
        StabilisationNum(3),
    );
    assert_eq!(r, Ok((None, false)));
    assert_eq!(values[m], Some(2));
    assert_eq!(g.nodes[m].recomputed_at, StabilisationNum(3));
    assert!(g.nodes[m].changed_at.is_never());
    let r = g.recompute_step(
        &mut ahh,
        &mut rch,
        &mut stats,
        &mut handle_after,
        &mut stack,
        &mut values,
        &Plain::PartialEq,
        m,
        Recomputed::Manual(Some(8), true),
        StabilisationNum(4),
    );
    assert_eq!(r, Ok((None, true)));
    assert_eq!(values[m], Some(8));
    assert_eq!(g.nodes[m].changed_at, StabilisationNum(4));
}

#[test]
fn a_step_that_finds_the_node_invalid_invalidates_it() {
    let (mut g, mut rch, mut ahh, _v, m) = observed_pair();
    let mut stats = Stats::new();
    let mut handle_after = vec![];
    let mut stack = vec![];
    let mut values = vec![Some(1), Some(2)];
    let r = g.recompute_step(
        &mut ahh,
        &mut rch,
        &mut stats,
        &mut handle_after,
        &mut stack,
        &mut values,
        &Plain::PartialEq,
        m,
        Recomputed::Invalid,
        StabilisationNum(5),
    );
    assert_eq!(r, Ok((None, false)));
    assert!(!g.nodes[m].is_valid);
    assert!(!g.is_in_recompute_heap(m));
}

#[test]
fn a_step_of_a_bind_switches_to_the_new_right_hand_side() {
    let mut g = Graph::new();
    let v = g.create(&mut Stats::new(), Kind::Var, vec![], None);
    let (lc, m) = g.create_bind(&mut Stats::new(), v, None);
    g.add_parent(v, 0, lc);
    g.add_parent(lc, 0, m);
    g.nodes[v].height = 0;
    g.nodes[lc].height = 1;
    g.nodes[m].height = 2;
    g.nodes[m].force_necessary = true;
    let mut ahh = AdjustHeightsHeap::new(10);
    let mut rch = RecomputeHeap::new(10);
    let mut stats = Stats::new();
    let mut handle_after = vec![];
    let mut stack = vec![];
    let r1 = g.create(&mut Stats::new(), Kind::Map1, vec![v], Some(lc));
    let mut values: Vec<Option<i32>> = vec![None, None, None, None];
    let r = g.recompute_step(
        &mut ahh,
        &mut rch,
        &mut stats,
        &mut handle_after,
        &mut stack,
        &mut values,
        &Plain::Never,
        lc,
        Recomputed::BindRhs { main: m, rhs: r1, created: vec![r1] },
        StabilisationNum(1),
    );
    assert!(r.is_ok());
    assert_eq!(g.nodes[m].children, vec![lc, r1]);
    assert_eq!(g.nodes[lc].rhs_nodes, vec![r1]);
    assert_eq!(g.nodes[lc].changed_at, StabilisationNum(1));
    let r2 = g.create(&mut Stats::new(), Kind::Map1, vec![v], Some(lc));
    values.push(None);
    let r = g.recompute_step(
        &mut ahh,
        &mut rch,
        &mut stats,
        &mut handle_after,
        &mut stack,
        &mut values,
        &Plain::Never,
        lc,
        Recomputed::BindRhs { main: m, rhs: r2, created: vec![r2] },
        StabilisationNum(2),
    );
    assert!(r.is_ok());
    assert_eq!(g.nodes[m].children, vec![lc, r2]);
    assert_eq!(g.nodes[lc].rhs_nodes, vec![r2]);
    assert!(!g.nodes[r1].is_valid);
    assert!(g.nodes[r2].is_valid);
}

#[test]
fn taking_the_lowest_layer_resets_the_queue_positions() {
    let mut g = Graph::new();
    let v = g.create(&mut Stats::new(), Kind::Var, vec![], None);
    let m = g.create(&mut Stats::new(), Kind::Map1, vec![v], None);
    let mut ahh = AdjustHeightsHeap::new(10);
    let mut rch = RecomputeHeap::new(10);
    let mut stack = vec![];
    assert!(g.add_observer(&mut ahh, &mut rch, &mut stack, &mut Stats::new(), &mut vec![], StabilisationNum(0), m));
    let h_v = g.nodes[v].height_in_recompute_heap;
    assert!(h_v >= 0 || g.nodes[m].height_in_recompute_heap >= 0);
    let before = rch.len();
    let layer = g.take_min_layer(&mut rch).unwrap();
    assert!(!layer.is_empty());
    assert_eq!(rch.len(), before - layer.len());
    for &n in layer.iter() {
        assert_eq!(g.nodes[n].height_in_recompute_heap, -1);
        assert!(!g.is_in_recompute_heap(n));
    }
    while g.take_min_layer(&mut rch).is_some() {}
    assert!(rch.is_empty());
    assert!(g.take_min_layer(&mut rch).is_none());
}
