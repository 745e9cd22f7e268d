use lib::{make_update_fn_from_inverse, Cycle, UnorderedArrayFold};

#[test]
fn test_cycle() {
    let mut cycle = Cycle::EveryN { current: 8, n: 10 };
    let wrapped = cycle.next();
    assert_eq!(wrapped, false);
    let wrapped = cycle.next();
    assert_eq!(wrapped, true);
    let wrapped = cycle.next();
    assert_eq!(wrapped, false);
}

#[test]
fn cycle_wraps_every_n_steps_from_new() {
    let mut cycle = Cycle::new(Some(3));
    assert_eq!(cycle.next(), false);
    assert_eq!(cycle.next(), false);
    assert_eq!(cycle.next(), true);
    assert_eq!(cycle, Cycle::EveryN { current: 0, n: 3 });
    assert_eq!(cycle.increment(), false);
}

#[test]
fn cycle_never_wraps_without_n() {
    let mut cycle = Cycle::new(None);
    for _ in 0..5 {
        assert_eq!(cycle.next(), false);
    }
    assert_eq!(cycle, Cycle::Never);
}

#[test]
fn cycle_reset_makes_the_next_step_wrap() {
    let mut cycle = Cycle::new(Some(4));
    cycle.reset();
    assert_eq!(cycle, Cycle::EveryN { current: 4, n: 4 });
    assert_eq!(cycle.next(), true);
    let mut never = Cycle::Never;
    never.reset();
    assert_eq!(never, Cycle::Never);
}

#[test]
fn update_from_inverse_replaces_one_contribution() {
    let update = make_update_fn_from_inverse(|acc: i64, x: i64| acc + x, |acc: i64, x: i64| acc - x);
    assert_eq!(update(10, 3, 7), 14);
}

#[test]
fn array_fold_computes_in_full_then_updates() {
    let mut fold = UnorderedArrayFold::new(
        0i64,
        |acc: i64, x: &i64| acc + *x,
        |acc: i64, old: i64, new: i64| acc - old + new,
        Some(2),
    );
    let values = vec![1i64, 2, 3];
    assert_eq!(fold.compute(&values), 6);
    // the first change after a full computation wraps the counter reset by it
    fold.child_changed(Some(2), 5);
    assert_eq!(fold.fold_value, None);
    let values = vec![1i64, 5, 3];
    assert_eq!(fold.compute(&values), 9);
    fold.child_changed(Some(1), 0);
    assert_eq!(fold.fold_value, None);
    assert_eq!(fold.compute(&vec![0i64, 5, 3]), 8);
}

#[test]
fn array_fold_updates_between_full_computations() {
    let mut fold = UnorderedArrayFold::new(
        0i64,
        |acc: i64, x: &i64| acc + *x,
        |acc: i64, old: i64, new: i64| acc - old + new,
        None,
    );
    assert_eq!(fold.compute(&vec![4i64, 4]), 8);
    fold.child_changed(Some(4), 10);
    assert_eq!(fold.fold_value, Some(14));
    assert_eq!(fold.compute(&vec![4i64, 10]), 14);
}
