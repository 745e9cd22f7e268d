use lib::incrsan::{check_not_observer, AssertNotObserver};
use lib::{Cutoff, NodeId, ShouldEmit, Stats, StatsDiff, Update};

#[test]
fn update_values() {
    assert_eq!(Update::Initialised(3).value(), Some(3));
    assert_eq!(Update::Changed(4).value(), Some(4));
    assert_eq!(Update::<i32>::Invalidated.value(), None);
    let s = String::from("x");
    assert_eq!(Update::Changed(&s).cloned(), Update::Changed(String::from("x")));
    assert_eq!(Update::<&String>::Invalidated.cloned(), Update::Invalidated);
}

#[test]
fn stats_diff_subtracts_each_counter() {
    let a = Stats { created: 10, changed: 5, recomputed: 7, invalidated: 0, became_necessary: 3, became_unnecessary: 1, necessary: 2 };
    let b = Stats { created: 4, changed: 6, recomputed: 7, invalidated: 2, became_necessary: 0, became_unnecessary: 1, necessary: 9 };
    assert_eq!(
        a.diff(b),
        StatsDiff { created: 6, changed: -1, recomputed: 0, invalidated: -2, became_necessary: 3, became_unnecessary: 0, necessary: -7 }
    );
    assert_eq!(a - b, a.diff(b));
    assert_eq!(a - a, StatsDiff::default());
}

#[test]
fn cutoffs_decide_as_named() {
    let always: Cutoff<i32, fn(&i32, &i32) -> bool> = Cutoff::Always;
    let never: Cutoff<i32, fn(&i32, &i32) -> bool> = Cutoff::Never;
    let eq: Cutoff<i32, fn(&i32, &i32) -> bool> = Cutoff::PartialEq;
    assert!(always.should_cutoff(&1, &2));
    assert!(!never.should_cutoff(&1, &1));
    assert!(eq.should_cutoff(&1, &1));
    assert!(!eq.should_cutoff(&1, &2));
    let close = Cutoff::Custom(|a: &i32, b: &i32| (a - b).abs() < 3);
    assert!(close.should_cutoff(&1, &2));
    assert!(!close.should_cutoff(&1, &9));
    let boxed = close.boxed();
    assert!(boxed.should_cutoff(&5, &6));
    assert!(matches!(Cutoff::<i32, fn(&i32, &i32) -> bool>::Never.boxed(), Cutoff::Never));
}

#[test]
fn should_emit_on_a_different_value() {
    assert!(1.should_emit(&2));
    assert!(!1.should_emit(&1));
}

#[test]
fn node_ids_count_up() {
    let mut last = 41usize;
    assert_eq!(NodeId::next(&mut last), NodeId(42));
    assert_eq!(NodeId::next(&mut last), NodeId(43));
    assert_eq!(last, 43);
}

#[test]
fn not_observer_checks_pass_values_through() {
    assert_eq!(check_not_observer(7), 7);
    let wrapped = AssertNotObserver(vec![1, 2]);
    assert_eq!(wrapped.0, vec![1, 2]);
}

#[test]
fn a_value_counts_as_changed_unless_its_cutoff_cuts_it_off() {
    let always: Cutoff<i32, fn(&i32, &i32) -> bool> = Cutoff::Always;
    let never: Cutoff<i32, fn(&i32, &i32) -> bool> = Cutoff::Never;
    let eq: Cutoff<i32, fn(&i32, &i32) -> bool> = Cutoff::PartialEq;
    // a node without a value always changes
    assert!(always.value_changed(None, &1));
    assert!(eq.value_changed(None, &1));
    assert!(!always.value_changed(Some(&1), &2));
    assert!(never.value_changed(Some(&1), &1));
    assert!(!eq.value_changed(Some(&3), &3));
    assert!(eq.value_changed(Some(&3), &4));
    let close = Cutoff::Custom(|a: &i32, b: &i32| (a - b).abs() < 3);
    assert!(!close.value_changed(Some(&1), &2));
    assert!(close.value_changed(Some(&1), &9));
}
