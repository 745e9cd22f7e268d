use lib::{merge_once, DiffElement, MergeElement, MergeOnce};

#[test]
fn symmetric_fold_test_merge_once() {
    let v = merge_once(vec![1i32, 2, 3], vec![2i32, 4]);
    assert_eq!(v, vec![1, 2, 3, 4]);
}

#[test]
fn test_merge_once() {
    let mut m = MergeOnce::new(vec![1i32, 2, 3], vec![2i32, 4]);
    let v = m.collect_all();
    assert_eq!(v, vec![1, 2, 3, 4]);
}

#[test]
fn merge_once_steps_one_at_a_time() {
    let mut m = MergeOnce::new(vec![1, 5], vec![2, 5, 7, 9]);
    assert_eq!(m.next(), Some(1));
    assert_eq!(m.next(), Some(2));
    assert_eq!(m.next(), Some(5));
    assert_eq!(m.next(), Some(7));
    assert_eq!(m.next(), Some(9));
    assert_eq!(m.next(), None);
    assert_eq!(m.next(), None);
}

#[test]
fn merge_once_with_an_empty_side() {
    assert_eq!(merge_once(vec![], vec![3, 4]), vec![3, 4]);
    assert_eq!(merge_once(vec![3, 4], vec![]), vec![3, 4]);
    assert_eq!(merge_once(vec![], vec![]), Vec::<i32>::new());
}

#[test]
fn merge_once_of_equal_sequences_is_one_copy() {
    assert_eq!(merge_once(vec![-3, 0, 8], vec![-3, 0, 8]), vec![-3, 0, 8]);
}

#[test]
fn merge_element_cloned_copies_the_values() {
    let a = String::from("left");
    let b = String::from("right");
    let e: MergeElement<&String, &String> = MergeElement::Both(&a, &b);
    assert_eq!(e.cloned(), MergeElement::Both(String::from("left"), String::from("right")));
    let l: MergeElement<&String, &String> = MergeElement::Left(&a);
    assert_eq!(l.cloned(), MergeElement::Left(String::from("left")));
    let r: MergeElement<&String, &String> = MergeElement::Right(&b);
    assert_eq!(r.cloned(), MergeElement::Right(String::from("right")));
}

#[test]
fn diff_elements_compare_by_value() {
    assert_eq!(DiffElement::Unequal(1, 2), DiffElement::Unequal(1, 2));
    assert_ne!(DiffElement::Left(1), DiffElement::Right(1));
}
