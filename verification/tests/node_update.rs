use lib::{NodeUpdate, NodeUpdateDelayed, OnUpdateHandler, Previously, StabilisationNum};

#[test]
fn a_handler_waits_for_the_stabilisation_after_its_creation() {
    let mut h = OnUpdateHandler::new(StabilisationNum(3));
    assert_eq!(h.run(NodeUpdateDelayed::Changed, StabilisationNum(3)), None);
    assert_eq!(h.previous_update_kind, Previously::NeverBeenUpdated);
}

#[test]
fn a_first_change_is_an_initialisation() {
    let mut h = OnUpdateHandler::new(StabilisationNum(0));
    assert_eq!(h.run(NodeUpdateDelayed::Changed, StabilisationNum(1)), Some(NodeUpdateDelayed::Necessary));
    assert_eq!(h.previous_update_kind, Previously::Necessary);
    assert_eq!(h.run(NodeUpdateDelayed::Changed, StabilisationNum(2)), Some(NodeUpdateDelayed::Changed));
    assert_eq!(h.run(NodeUpdateDelayed::Necessary, StabilisationNum(3)), None);
}

#[test]
fn nothing_follows_an_invalidation() {
    let mut h = OnUpdateHandler::new(StabilisationNum(0));
    assert_eq!(h.run(NodeUpdateDelayed::Invalidated, StabilisationNum(1)), Some(NodeUpdateDelayed::Invalidated));
    assert_eq!(h.run(NodeUpdateDelayed::Changed, StabilisationNum(2)), None);
    assert_eq!(h.run(NodeUpdateDelayed::Necessary, StabilisationNum(3)), None);
    assert_eq!(h.previous_update_kind, Previously::Invalidated);
}

#[test]
fn repeated_unnecessary_is_not_passed_on() {
    let mut h = OnUpdateHandler::new(StabilisationNum(0));
    assert_eq!(h.run(NodeUpdateDelayed::Unnecessary, StabilisationNum(1)), Some(NodeUpdateDelayed::Unnecessary));
    assert_eq!(h.run(NodeUpdateDelayed::Unnecessary, StabilisationNum(2)), None);
    assert_eq!(h.run(NodeUpdateDelayed::Changed, StabilisationNum(3)), Some(NodeUpdateDelayed::Necessary));
}

#[test]
fn updates_carry_the_value() {
    match NodeUpdate::from_delayed(NodeUpdateDelayed::Changed, Some(4)) {
        NodeUpdate::Changed(v) => assert_eq!(v, 4),
        _ => panic!("wrong kind"),
    }
    match NodeUpdate::<i32>::from_delayed(NodeUpdateDelayed::Invalidated, None) {
        NodeUpdate::Invalidated => {}
        _ => panic!("wrong kind"),
    }
}
