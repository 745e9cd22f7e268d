use lib::{IncrStatus, InternalObserver, ObserverError, ObserverId, ObserverState};

fn observer() -> InternalObserver<&'static str> {
    let mut last = 0usize;
    let id = ObserverId::next(&mut last);
    InternalObserver::new(id, 3)
}

#[test]
fn observer_ids_count_up() {
    let mut last = 0usize;
    let a = ObserverId::next(&mut last);
    let b = ObserverId::next(&mut last);
    assert_eq!(a.value(), 1);
    assert_eq!(b.value(), 2);
    assert_ne!(a, b);
}

#[test]
fn a_new_observer_has_no_value_yet() {
    let o = observer();
    assert_eq!(o.state(), ObserverState::Created);
    assert_eq!(o.observing(), 3);
    assert!(o.use_is_allowed());
    assert_eq!(o.value(Some(IncrStatus::NotStabilising), Some(5)), Err(ObserverError::NeverStabilised));
}

#[test]
fn observer_values_depend_on_the_engine_status() {
    let mut o = observer();
    assert_eq!(o.make_in_use(), 0);
    assert_eq!(o.value(Some(IncrStatus::NotStabilising), Some(5)), Ok(5));
    assert_eq!(o.value(Some(IncrStatus::RunningOnUpdateHandlers), Some(5)), Ok(5));
    assert_eq!(o.value(Some(IncrStatus::Stabilising), Some(5)), Err(ObserverError::CurrentlyStabilising));
    assert_eq!(o.value::<i32>(None, Some(5)), Err(ObserverError::ObservingInvalid));
    assert_eq!(o.value::<i32>(Some(IncrStatus::NotStabilising), None), Err(ObserverError::ObservingInvalid));
}

#[test]
fn subscriptions_get_increasing_tokens() {
    let mut o = observer();
    let mut count = 0i32;
    let t1 = o.subscribe("first", &mut count).unwrap();
    let t2 = o.subscribe("second", &mut count).unwrap();
    assert_ne!(t1, t2);
    assert_eq!(t2, t1.succ());
    assert_eq!(t1.observer_id(), o.id());
    assert_eq!(count, 0);
    assert_eq!(o.num_handlers(), 2);
    assert_eq!(o.make_in_use(), 2);
    let _t3 = o.subscribe("third", &mut count).unwrap();
    assert_eq!(count, 1);
    assert_eq!(o.unsubscribe(t1, &mut count), Ok(()));
    assert_eq!(o.num_handlers(), 2);
    assert_eq!(count, 2);
}

#[test]
fn unsubscribing_with_a_foreign_token_is_refused() {
    let mut last = 10usize;
    let mut a = InternalObserver::new(ObserverId::next(&mut last), 0);
    let mut b: InternalObserver<()> = InternalObserver::new(ObserverId::next(&mut last), 0);
    let mut count = 0i32;
    let t = a.subscribe((), &mut count).unwrap();
    assert_eq!(b.unsubscribe(t, &mut count), Err(ObserverError::Mismatch));
    assert_eq!(a.unsubscribe(t, &mut count), Ok(()));
    assert_eq!(a.num_handlers(), 0);
}

#[test]
fn disallowing_an_unused_observer_unlinks_it() {
    let mut o = observer();
    let mut active = 1usize;
    let mut count = 0i32;
    o.subscribe("h", &mut count).unwrap();
    assert!(!o.disallow_future_use(&mut active));
    assert_eq!(o.state(), ObserverState::Unlinked);
    assert_eq!(active, 0);
    assert_eq!(o.num_handlers(), 0);
    assert!(!o.use_is_allowed());
    assert_eq!(o.subscribe("late", &mut count), Err(ObserverError::Disallowed));
    assert_eq!(o.value(Some(IncrStatus::NotStabilising), Some(1)), Err(ObserverError::Disallowed));
}

#[test]
fn disallowing_an_observer_in_use_waits_for_the_next_stabilisation() {
    let mut o = observer();
    let mut active = 2usize;
    o.make_in_use();
    assert!(o.disallow_future_use(&mut active));
    assert_eq!(o.state(), ObserverState::Disallowed);
    assert_eq!(active, 1);
    assert!(!o.disallow_future_use(&mut active));
    assert_eq!(active, 1);
    assert_eq!(o.unlink(), 0);
    assert_eq!(o.state(), ObserverState::Unlinked);
}
