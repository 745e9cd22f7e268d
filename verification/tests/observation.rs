use lib::{
    add_new_observers, unlink_disallowed_observers, AdjustHeightsHeap, Graph, InternalObserver, Kind, ObserverId,
    ObserverState, RecomputeHeap, StabilisationNum, Stats,
};

/// v is read by m; nothing is needed yet.
fn pair() -> (Graph, usize, usize) {
    let mut g = Graph::new();
    let v = g.create(&mut Stats::new(), Kind::Var, vec![], None);
    let m = g.create(&mut Stats::new(), Kind::Map1, vec![v], None);
    (g, v, m)
}

#[test]
fn add_observer_makes_the_node_and_its_inputs_necessary() {
    let (mut g, v, m) = pair();
    let mut ahh = AdjustHeightsHeap::new(10);
    let mut rch = RecomputeHeap::new(10);
    let mut stack = vec![];
    assert!(g.add_observer(&mut ahh, &mut rch, &mut stack, &mut Stats::new(), &mut vec![], StabilisationNum(0), m));
    assert_eq!(g.nodes[m].num_observers, 1);
    assert!(g.is_necessary(m));
    assert!(g.is_necessary(v));
    assert_eq!(g.nodes[v].parents, vec![m]);
    assert_eq!(g.nodes[v].height, 1);
    assert_eq!(g.nodes[m].height, 2);
    // a second observer only counts
    assert!(g.add_observer(&mut ahh, &mut rch, &mut stack, &mut Stats::new(), &mut vec![], StabilisationNum(0), m));
    assert_eq!(g.nodes[m].num_observers, 2);
    assert_eq!(g.nodes[m].height, 2);
}

#[test]
fn add_observer_propagates_invalid_inputs() {
    let (mut g, v, m) = pair();
    g.nodes[v].is_valid = false;
    let mut ahh = AdjustHeightsHeap::new(10);
    let mut rch = RecomputeHeap::new(10);
    let mut stack = vec![];
    let now = StabilisationNum(4);
    assert!(g.add_observer(&mut ahh, &mut rch, &mut stack, &mut Stats::new(), &mut vec![], now, m));
    assert!(!g.nodes[m].is_valid);
    assert_eq!(g.nodes[m].changed_at, now);
    assert!(stack.is_empty());
}

#[test]
fn remove_observer_makes_the_node_unnecessary_again() {
    let (mut g, v, m) = pair();
    let mut ahh = AdjustHeightsHeap::new(10);
    let mut rch = RecomputeHeap::new(10);
    let mut stack = vec![];
    assert!(g.add_observer(&mut ahh, &mut rch, &mut stack, &mut Stats::new(), &mut vec![], StabilisationNum(0), m));
    assert!(g.add_observer(&mut ahh, &mut rch, &mut stack, &mut Stats::new(), &mut vec![], StabilisationNum(0), m));
    g.remove_observer(&mut rch, &mut Stats::new(), &mut vec![], m);
    assert_eq!(g.nodes[m].num_observers, 1);
    assert_eq!(g.nodes[m].height, 2);
    g.remove_observer(&mut rch, &mut Stats::new(), &mut vec![], m);
    assert_eq!(g.nodes[m].num_observers, 0);
    assert!(!g.is_necessary(m));
    assert!(!g.is_necessary(v));
    assert_eq!(g.nodes[m].height, -1);
    assert_eq!(g.nodes[v].height, -1);
    assert!(rch.is_empty());
}

#[test]
fn new_observers_come_into_use_and_disallowed_ones_are_unlinked() {
    let (mut g, _v, m) = pair();
    let mut ahh = AdjustHeightsHeap::new(10);
    let mut rch = RecomputeHeap::new(10);
    let mut stack = vec![];
    let mut last = 0;
    let mut observers = vec![
        InternalObserver::<u32>::new(ObserverId::next(&mut last), m),
        InternalObserver::<u32>::new(ObserverId::next(&mut last), m),
    ];
    let mut active = 2;
    // two subscriptions made before the first stabilisation are counted by the node
    // only once the observer comes into use
    let mut not_yet_counted = 0;
    assert!(observers[0].subscribe(7, &mut not_yet_counted).is_ok());
    assert!(observers[0].subscribe(8, &mut not_yet_counted).is_ok());
    assert_eq!(not_yet_counted, 0);
    // the second observer is stopped before it is ever used
    assert!(!observers[1].disallow_future_use(&mut active));
    let mut handle_after = vec![];
    assert!(add_new_observers(&mut g, &mut ahh, &mut rch, &mut stack, &mut Stats::new(), &mut handle_after, StabilisationNum(0), &mut observers, &vec![0, 1]));
    assert_eq!(observers[0].state(), ObserverState::InUse);
    assert_eq!(observers[1].state(), ObserverState::Unlinked);
    assert_eq!(g.nodes[m].num_observers, 1);
    assert_eq!(g.nodes[m].num_on_update_handlers, 2);
    assert_eq!(handle_after, vec![m]);
    assert!(g.is_necessary(m));
    // an observer cannot come into use twice
    assert!(!add_new_observers(&mut g, &mut ahh, &mut rch, &mut stack, &mut Stats::new(), &mut handle_after, StabilisationNum(0), &mut observers, &vec![0]));
    assert!(observers[0].disallow_future_use(&mut active));
    assert!(unlink_disallowed_observers(&mut g, &mut rch, &mut Stats::new(), &mut vec![], &mut observers, &vec![0]));
    assert_eq!(observers[0].state(), ObserverState::Unlinked);
    assert_eq!(g.nodes[m].num_observers, 0);
    assert_eq!(g.nodes[m].num_on_update_handlers, 0);
    assert!(!g.is_necessary(m));
    // only disallowed observers are unlinked
    assert!(!unlink_disallowed_observers(&mut g, &mut rch, &mut Stats::new(), &mut vec![], &mut observers, &vec![0]));
}
