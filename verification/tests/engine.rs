use lib::{
    handle_after_stabilisation, stabilise_end, Graph, IncrStatus, Kind, MakeStale, RecomputeHeap, StabilisationNum, Stats,
    Var,
};
use std::cell::RefCell;

/// v is read by m and m2; m is read by m2.
fn diamond() -> (Graph, usize, usize, usize) {
    let mut g = Graph::new();
    let v = g.create(&mut Stats::new(), Kind::Var, vec![], None);
    let m = g.create(&mut Stats::new(), Kind::Map1, vec![v], None);
    let m2 = g.create(&mut Stats::new(), Kind::Map2, vec![v, m], None);
    g.add_parent(v, 0, m);
    g.add_parent(v, 0, m2);
    g.add_parent(m, 1, m2);
    g.nodes[v].height = 0;
    g.nodes[m].height = 1;
    g.nodes[m2].height = 2;
    g.nodes[m2].force_necessary = true;
    (g, v, m, m2)
}

#[test]
fn stabilise_recomputes_everything_downstream_once() {
    let (mut g, v, m, m2) = diamond();
    let mut rch = RecomputeHeap::new(10);
    rch.insert(v, 0);
    g.nodes[v].height_in_recompute_heap = 0;
    let order = RefCell::new(Vec::new());
    let compute = |n: usize| {
        order.borrow_mut().push(n);
        true
    };
    let now = StabilisationNum(1);
    let mut stats = Stats::new();
    let mut handle_after: Vec<usize> = vec![];
    g.stabilise(&mut rch, &mut stats, &mut handle_after, now, &compute);
    assert!(rch.is_empty());
    assert_eq!(*order.borrow(), vec![v, m, m2]);
    assert_eq!(stats.recomputed, 3);
    assert_eq!(stats.changed, 3);
    for n in [v, m, m2] {
        assert_eq!(g.nodes[n].recomputed_at, now);
        assert_eq!(g.nodes[n].changed_at, now);
        assert_eq!(g.nodes[n].height_in_recompute_heap, -1);
    }
}

#[test]
fn stabilise_stops_at_unchanged_values() {
    let (mut g, v, m, m2) = diamond();
    let mut rch = RecomputeHeap::new(10);
    rch.insert(v, 0);
    g.nodes[v].height_in_recompute_heap = 0;
    let compute = |_n: usize| false;
    let mut stats = Stats::new();
    let mut handle_after: Vec<usize> = vec![];
    g.stabilise(&mut rch, &mut stats, &mut handle_after, StabilisationNum(4), &compute);
    assert!(rch.is_empty());
    assert_eq!(stats.recomputed, 1);
    assert_eq!(stats.changed, 0);
    assert_eq!(g.nodes[v].recomputed_at, StabilisationNum(4));
    assert!(g.nodes[v].changed_at.is_never());
    assert!(g.nodes[m].recomputed_at.is_never());
    assert!(g.nodes[m2].recomputed_at.is_never());
}

#[test]
fn recompute_runs_a_single_input_chain_directly() {
    let mut g = Graph::new();
    let v = g.create(&mut Stats::new(), Kind::Var, vec![], None);
    let a = g.create(&mut Stats::new(), Kind::Map1, vec![v], None);
    let b = g.create(&mut Stats::new(), Kind::Map1, vec![a], None);
    g.add_parent(v, 0, a);
    g.add_parent(a, 0, b);
    g.nodes[v].height = 0;
    g.nodes[a].height = 1;
    g.nodes[b].height = 2;
    let mut rch = RecomputeHeap::new(10);
    let order = RefCell::new(Vec::new());
    let compute = |n: usize| {
        order.borrow_mut().push(n);
        true
    };
    let mut stats = Stats::new();
    let mut handle_after: Vec<usize> = vec![];
    g.recompute(&mut rch, &mut stats, &mut handle_after, v, StabilisationNum(0), &compute);
    assert_eq!(stats.recomputed, 3);
    // nothing is queued: the heap is empty, so each parent is at or below its lowest height
    assert_eq!(*order.borrow(), vec![v, a, b]);
    assert!(rch.is_empty());
}

#[test]
fn setting_a_var_queues_its_watch_node() {
    let (mut g, v, m, _m2) = diamond();
    let mut rch = RecomputeHeap::new(10);
    let mut var = Var::new(5, v);
    let mut pending = Vec::new();
    var.set(&mut g, &mut rch, IncrStatus::NotStabilising, StabilisationNum(3), &mut pending, 6);
    assert_eq!(var.get(), 6);
    assert_eq!(g.nodes[v].set_at, StabilisationNum(3));
    assert!(g.is_in_recompute_heap(v));
    assert_eq!(rch.len(), 1);
    // a second set in the same round changes the value only
    var.set(&mut g, &mut rch, IncrStatus::NotStabilising, StabilisationNum(3), &mut pending, 7);
    assert_eq!(var.value, 7);
    assert_eq!(rch.len(), 1);
    assert!(pending.is_empty());
    assert!(!g.is_in_recompute_heap(m));
}

#[test]
fn replacing_a_var_gives_back_the_old_value() {
    let (mut g, v, _m, _m2) = diamond();
    let mut rch = RecomputeHeap::new(10);
    let mut var = Var::new(5, v);
    let mut pending = Vec::new();
    assert_eq!(var.replace(&mut g, &mut rch, IncrStatus::NotStabilising, StabilisationNum(3), &mut pending, 6), 5);
    assert_eq!(var.value, 6);
    assert_eq!(g.nodes[v].set_at, StabilisationNum(3));
    assert!(g.is_in_recompute_heap(v));
    // during a stabilisation the new value waits for the end
    assert_eq!(var.replace(&mut g, &mut rch, IncrStatus::Stabilising, StabilisationNum(3), &mut pending, 7), 6);
    assert_eq!(var.replace(&mut g, &mut rch, IncrStatus::Stabilising, StabilisationNum(3), &mut pending, 8), 7);
    assert_eq!(var.value, 6);
    assert_eq!(pending, vec![v]);
    var.set_var_stabilise_end(&mut g, &mut rch, StabilisationNum(4));
    assert_eq!(var.value, 8);
}

#[test]
fn setting_a_var_during_stabilisation_waits_for_the_end() {
    let (mut g, v, _m, _m2) = diamond();
    let mut rch = RecomputeHeap::new(10);
    let mut var = Var::new(5, v);
    let mut pending = Vec::new();
    var.set(&mut g, &mut rch, IncrStatus::Stabilising, StabilisationNum(3), &mut pending, 6);
    var.set(&mut g, &mut rch, IncrStatus::Stabilising, StabilisationNum(3), &mut pending, 8);
    assert_eq!(var.value, 5);
    assert_eq!(pending, vec![v]);
    assert!(rch.is_empty());
    var.set_var_stabilise_end(&mut g, &mut rch, StabilisationNum(4));
    assert_eq!(var.value, 8);
    assert_eq!(var.value_set_during_stabilisation, None);
    assert_eq!(g.nodes[v].set_at, StabilisationNum(4));
    assert!(g.is_in_recompute_heap(v));
}

#[test]
fn an_unneeded_var_is_not_queued() {
    let mut g = Graph::new();
    let v = g.create(&mut Stats::new(), Kind::Var, vec![], None);
    let mut rch = RecomputeHeap::new(10);
    let mut var = Var::new(1, v);
    let mut pending = Vec::new();
    var.set(&mut g, &mut rch, IncrStatus::RunningOnUpdateHandlers, StabilisationNum(0), &mut pending, 2);
    assert_eq!(g.nodes[v].set_at, StabilisationNum(0));
    assert!(rch.is_empty());
}

#[test]
fn swapping_expert_children_keeps_the_links() {
    let mut g = Graph::new();
    let a = g.create(&mut Stats::new(), Kind::Var, vec![], None);
    let b = g.create(&mut Stats::new(), Kind::Var, vec![], None);
    let e = g.create(&mut Stats::new(), Kind::Expert, vec![a, b], None);
    g.add_parent(a, 0, e);
    g.add_parent(b, 1, e);
    g.expert_swap_children(e, 0, 1);
    assert_eq!(g.nodes[e].children, vec![b, a]);
    assert_eq!(g.nodes[e].my_parent_index_in_child_at_index, vec![0, 0]);
    assert_eq!(g.nodes[a].my_child_index_in_parent_at_index[0], 1);
    assert_eq!(g.nodes[b].my_child_index_in_parent_at_index[0], 0);
    // removing the edge at its new index works
    g.remove_parent(a, 1, e);
    assert!(g.nodes[a].parents.is_empty());
}

#[test]
fn making_an_expert_node_stale() {
    let mut g = Graph::new();
    let e = g.create(&mut Stats::new(), Kind::Expert, vec![], None);
    let mut rch = RecomputeHeap::new(10);
    g.nodes[e].force_necessary = true;
    g.nodes[e].height = 1;
    g.expert_make_stale(&mut rch, e);
    assert!(g.nodes[e].force_stale);
    assert!(g.is_in_recompute_heap(e));
    assert_eq!(g.make_stale(e), MakeStale::AlreadyStale);
    let m = g.create(&mut Stats::new(), Kind::Map1, vec![], None);
    assert_eq!(g.make_stale(m), MakeStale::MadeStale);
    let other = g.create(&mut Stats::new(), Kind::Map1, vec![], None);
    g.expert_make_stale(&mut rch, other);
    assert!(!g.nodes[other].force_stale);
}

/// An expert node e, forced necessary, reading three variables.
fn expert_over_three() -> (Graph, usize, usize, usize, usize) {
    let mut g = Graph::new();
    let v1 = g.create(&mut Stats::new(), Kind::Var, vec![], None);
    let v2 = g.create(&mut Stats::new(), Kind::Var, vec![], None);
    let v3 = g.create(&mut Stats::new(), Kind::Var, vec![], None);
    let e = g.create(&mut Stats::new(), Kind::Expert, vec![v1, v2, v3], None);
    g.add_parent(v1, 0, e);
    g.add_parent(v2, 1, e);
    g.add_parent(v3, 2, e);
    for v in [v1, v2, v3] {
        g.nodes[v].height = 0;
    }
    g.nodes[e].height = 1;
    g.nodes[e].force_necessary = true;
    (g, v1, v2, v3, e)
}

#[test]
fn expert_remove_dependency_moves_the_last_input_into_the_gap() {
    let (mut g, v1, v2, v3, e) = expert_over_three();
    let mut rch = RecomputeHeap::new(10);
    assert!(g.expert_remove_dependency(&mut rch, &mut Stats::new(), &mut vec![], e, 0));
    assert_eq!(g.nodes[e].children, vec![v3, v2]);
    assert!(g.nodes[e].force_stale);
    // v1 lost its only parent and with it its height
    assert!(g.nodes[v1].parents.is_empty());
    assert_eq!(g.nodes[v1].height, -1);
    // the other inputs still read into e, at their new indices
    assert_eq!(g.nodes[v3].parents, vec![e]);
    assert_eq!(g.nodes[v3].my_child_index_in_parent_at_index, vec![0]);
    assert_eq!(g.nodes[v2].my_child_index_in_parent_at_index, vec![1]);
    // e is queued for recomputation at its height
    assert_eq!(g.nodes[e].height_in_recompute_heap, 1);
    assert_eq!(rch.len(), 1);
}

#[test]
fn expert_remove_dependency_of_the_last_input() {
    let (mut g, v1, v2, v3, e) = expert_over_three();
    let mut rch = RecomputeHeap::new(10);
    assert!(g.expert_remove_dependency(&mut rch, &mut Stats::new(), &mut vec![], e, 2));
    assert_eq!(g.nodes[e].children, vec![v1, v2]);
    assert!(g.nodes[v3].parents.is_empty());
    assert_eq!(g.nodes[v1].parents, vec![e]);
}

#[test]
fn expert_remove_dependency_on_an_unneeded_node() {
    let mut g = Graph::new();
    let a = g.create(&mut Stats::new(), Kind::Var, vec![], None);
    let b = g.create(&mut Stats::new(), Kind::Var, vec![], None);
    let e = g.create(&mut Stats::new(), Kind::Expert, vec![a, b], None);
    let mut rch = RecomputeHeap::new(10);
    assert!(g.expert_remove_dependency(&mut rch, &mut Stats::new(), &mut vec![], e, 0));
    assert_eq!(g.nodes[e].children, vec![b]);
    assert!(g.nodes[e].force_stale);
    assert!(rch.is_empty());
}

#[test]
fn expert_remove_dependency_ignores_other_kinds() {
    let mut g = Graph::new();
    let a = g.create(&mut Stats::new(), Kind::Var, vec![], None);
    let m = g.create(&mut Stats::new(), Kind::Map1, vec![a], None);
    let mut rch = RecomputeHeap::new(10);
    assert!(g.expert_remove_dependency(&mut rch, &mut Stats::new(), &mut vec![], m, 0));
    assert_eq!(g.nodes[m].children, vec![a]);
    assert!(!g.nodes[m].force_stale);
}

#[test]
fn updating_a_var_applies_the_function() {
    let (mut g, v, _m, _m2) = diamond();
    let mut rch = RecomputeHeap::new(10);
    let mut var = Var::new(5, v);
    let mut pending = Vec::new();
    var.update(&mut g, &mut rch, IncrStatus::NotStabilising, StabilisationNum(2), &mut pending, |x: i32| x * 10);
    assert_eq!(var.value, 50);
    assert_eq!(g.nodes[v].set_at, StabilisationNum(2));
    assert!(g.is_in_recompute_heap(v));
    assert!(pending.is_empty());
}

#[test]
fn updating_a_var_during_stabilisation_builds_on_the_waiting_value() {
    let (mut g, v, _m, _m2) = diamond();
    let mut rch = RecomputeHeap::new(10);
    let mut var = Var::new(5, v);
    let mut pending = Vec::new();
    var.update(&mut g, &mut rch, IncrStatus::Stabilising, StabilisationNum(2), &mut pending, |x: i32| x + 1);
    var.update(&mut g, &mut rch, IncrStatus::Stabilising, StabilisationNum(2), &mut pending, |x: i32| x * 2);
    assert_eq!(var.value, 5);
    assert_eq!(var.value_set_during_stabilisation, Some(12));
    assert_eq!(pending, vec![v]);
    assert!(rch.is_empty());
    var.set_var_stabilise_end(&mut g, &mut rch, StabilisationNum(3));
    assert_eq!(var.value, 12);
}

#[test]
fn changed_nodes_with_update_handlers_wait_for_the_end_of_stabilisation() {
    let (mut g, v, m, m2) = diamond();
    g.nodes[m].num_on_update_handlers = 1;
    g.nodes[m2].num_on_update_handlers = 2;
    let mut rch = RecomputeHeap::new(10);
    rch.insert(v, 0);
    g.nodes[v].height_in_recompute_heap = 0;
    let compute = |n: usize| n != m2;
    let mut stats = Stats::new();
    let mut handle_after: Vec<usize> = vec![];
    g.stabilise(&mut rch, &mut stats, &mut handle_after, StabilisationNum(1), &compute);
    // m2 was recomputed but did not change, so only m waits for its handlers
    assert_eq!(handle_after, vec![m]);
    assert_eq!(stats.recomputed, 3);
    assert_eq!(stats.changed, 2);
}

#[test]
fn a_node_waits_for_its_handlers_once() {
    let mut handle_after = vec![4usize];
    handle_after_stabilisation(&mut handle_after, 7);
    handle_after_stabilisation(&mut handle_after, 4);
    handle_after_stabilisation(&mut handle_after, 7);
    assert_eq!(handle_after, vec![4, 7]);
}

#[test]
fn stabilise_end_moves_on_applies_waiting_sets_and_queues_handlers() {
    let (mut g, v, m, m2) = diamond();
    let mut rch = RecomputeHeap::new(10);
    let mut pending = Vec::new();
    let mut var = Var::new(5, v);
    var.set(&mut g, &mut rch, IncrStatus::Stabilising, StabilisationNum(3), &mut pending, 8);
    let mut vars = vec![var];
    let mut num = StabilisationNum(3);
    let mut handle_after = vec![m2, m];
    let mut run_queue = vec![];
    stabilise_end(&mut g, &mut rch, &mut num, &mut vars, &mut pending, &mut handle_after, &mut run_queue);
    assert_eq!(num, StabilisationNum(4));
    assert_eq!(vars[0].value, 8);
    assert_eq!(vars[0].value_set_during_stabilisation, None);
    assert_eq!(g.nodes[v].set_at, StabilisationNum(4));
    assert!(g.is_in_recompute_heap(v));
    assert!(pending.is_empty());
    assert!(handle_after.is_empty());
    assert_eq!(run_queue, vec![m2, m]);
}

#[test]
fn a_var_set_while_stabilising_is_seen_by_the_next_stabilisation() {
    let (mut g, v, _m, _m2) = diamond();
    let mut rch = RecomputeHeap::new(10);
    let mut vars = vec![Var::new(10, v)];
    let mut num = StabilisationNum(1);
    let mut seen = vec![];
    for _ in 0..3 {
        // the stabilisation reads the value, and sets the variable to ten more
        let x = vars[0].value;
        seen.push(x);
        let mut pending = Vec::new();
        vars[0].set(&mut g, &mut rch, IncrStatus::Stabilising, num, &mut pending, x + 10);
        assert_eq!(vars[0].value, x);
        let mut handle_after = vec![];
        let mut run_queue = vec![];
        stabilise_end(&mut g, &mut rch, &mut num, &mut vars, &mut pending, &mut handle_after, &mut run_queue);
        // the watch node is queued, so the next stabilisation recomputes it
        assert!(g.is_in_recompute_heap(v));
        while g.take_min_layer(&mut rch).is_some() {}
    }
    assert_eq!(seen, vec![10, 20, 30]);
}
