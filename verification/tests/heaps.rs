use lib::{AdjustHeightsHeap, RecomputeHeap, StabilisationNum};

#[test]
fn recompute_heap_hands_out_the_lowest_layer_first() {
    let mut rch = RecomputeHeap::new(5);
    assert_eq!(rch.max_height_allowed(), 5);
    assert!(rch.is_empty());
    rch.insert(7, 3);
    rch.insert(8, 1);
    rch.insert(9, 3);
    assert_eq!(rch.len(), 3);
    assert_eq!(rch.min_height(), 1);
    assert_eq!(rch.remove_min_layer(), Some(vec![8]));
    let mut layer = rch.remove_min_layer().unwrap();
    layer.sort();
    assert_eq!(layer, vec![7, 9]);
    assert_eq!(rch.remove_min_layer(), None);
}

#[test]
fn recompute_heap_moves_and_removes_nodes() {
    let mut rch = RecomputeHeap::new(5);
    rch.insert(1, 1);
    rch.insert(2, 2);
    rch.increase_height(1, 1, 4);
    rch.remove(2, 2);
    assert_eq!(rch.len(), 1);
    rch.raise_min_height();
    assert_eq!(rch.min_height(), 4);
    rch.clear();
    assert!(rch.is_empty());
}

#[test]
fn recompute_heap_can_grow() {
    let mut rch = RecomputeHeap::new(2);
    rch.set_max_height_allowed(8);
    assert_eq!(rch.max_height_allowed(), 7);
}

#[test]
fn adjust_heights_heap_hands_out_nodes_by_queued_height() {
    let mut ahh = AdjustHeightsHeap::new(6);
    assert_eq!(ahh.max_height_allowed(), 6);
    ahh.set_lower_bound(0);
    ahh.push(4, 2);
    ahh.push(5, 1);
    assert_eq!(ahh.remove_min(), Some(5));
    assert_eq!(ahh.remove_min(), Some(4));
    assert_eq!(ahh.remove_min(), None);
    assert!(ahh.is_empty());
}

#[test]
fn adjust_heights_heap_checks_heights() {
    let mut ahh = AdjustHeightsHeap::new(3);
    assert!(ahh.note_height(3));
    assert!(!ahh.note_height(4));
    ahh.set_max_height_allowed(9);
    assert_eq!(ahh.max_height_allowed(), 8);
    ahh.clear();
    assert!(ahh.is_empty());
}

#[test]
fn stabilisation_numbers() {
    let n = StabilisationNum::init();
    assert!(n.is_never());
    let n = n.add1();
    assert_eq!(n, StabilisationNum(0));
    assert!(!n.is_never());
}
