use lib::{
    symmetric_diff, unordered_fold_with, ClosureFold, DiffElement, GenericMap, MergeElement, SortedMap,
    SymmetricFoldMap, SymmetricMapMap, UnorderedFold,
};

fn map_of(entries: &[(u64, i64)]) -> SortedMap<i64> {
    let mut m = SortedMap::new();
    for (k, v) in entries {
        m.insert_entry(*k, *v);
    }
    m
}

#[test]
fn sorted_map_keeps_keys_in_order() {
    let mut m = SortedMap::new();
    assert!(m.is_empty());
    assert_eq!(m.insert_entry(3, "c"), None);
    assert_eq!(m.insert_entry(1, "a"), None);
    assert_eq!(m.insert_entry(2, "b"), None);
    assert_eq!(m.insert_entry(2, "B"), Some("b"));
    assert_eq!(m.entries(), &vec![(1, "a"), (2, "B"), (3, "c")]);
    assert_eq!(m.len(), 3);
    assert_eq!(m.remove_entry(1), Some("a"));
    assert_eq!(m.remove_entry(1), None);
    assert_eq!(m.entries(), &vec![(2, "B"), (3, "c")]);
}

#[test]
fn generic_map_operations() {
    let mut m = map_of(&[(1, 10)]);
    assert_eq!(GenericMap::insert(m.make_mut(), 2, 20), None);
    assert_eq!(GenericMap::remove(&mut m, &1), Some(10));
    assert_eq!(m.entries(), &vec![(2, 20)]);
}

#[test]
fn symmetric_diff_lists_each_difference() {
    let a = vec![(1u64, "hi"), (2, "lo"), (3, "nice")];
    let b = vec![(1u64, "hi"), (3, "updated in b"), (4, "inserted in b")];
    let d = symmetric_diff(&a, &b);
    assert_eq!(
        d,
        vec![
            (2, DiffElement::Left("lo")),
            (3, DiffElement::Unequal("nice", "updated in b")),
            (4, DiffElement::Right("inserted in b")),
        ]
    );
}

#[test]
fn symmetric_fold_counts_the_differences() {
    let a = map_of(&[(1, 1), (2, 2)]);
    let b = map_of(&[(2, 3), (5, 5)]);
    let n = a.symmetric_fold(&b, 0usize, |acc: usize, _e: (u64, DiffElement<i64>)| acc + 1);
    assert_eq!(n, 3);
    let total = b.nonincremental_fold(0i64, |acc: i64, e: (u64, i64)| acc + e.1);
    assert_eq!(total, 8);
    assert_eq!(SymmetricFoldMap::len(&b), 2);
    assert!(!SymmetricFoldMap::is_empty(&b));
}

#[test]
fn filter_map_collect_keeps_the_chosen_entries() {
    let m = map_of(&[(1, 1), (2, 2), (3, 3), (4, 4)]);
    let odd = m.filter_map_collect(&|_k: u64, v: &i64| if *v % 2 == 1 { Some(*v * 10) } else { None });
    assert_eq!(odd.entries(), &vec![(1, 10), (3, 30)]);
}

#[test]
fn test_types() {
    let fold = ClosureFold::new()
        .add(|acc: i64, _k: &u64, v: &i64| acc + v)
        .remove(|acc: i64, _k: &u64, v: &i64| acc - v)
        .update(|acc: i64, _k: &u64, old: &i64, new: &i64| acc - old + new)
        .revert_to_init_when_empty(true);
    let m = map_of(&[(1, 2), (2, 4), (3, 6)]);
    let (v, changed) = unordered_fold_with(&fold, &0, None, &m);
    assert_eq!(v, 12);
    assert!(changed);
}

#[test]
fn unordered_fold_follows_the_changes() {
    let fold = ClosureFold::new_add_remove(|acc: i64, _k: &u64, v: &i64| acc + v, |acc: i64, _k: &u64, v: &i64| acc - v);
    let old = map_of(&[(1, 2), (2, 4), (3, 6)]);
    let (v, _) = unordered_fold_with(&fold, &0, None, &old);
    assert_eq!(v, 12);
    let new = map_of(&[(1, 2), (3, 7), (9, 100)]);
    let (v2, changed) = unordered_fold_with(&fold, &0, Some((&old, v)), &new);
    assert_eq!(v2, 109);
    assert!(changed);
    let (v3, changed) = unordered_fold_with(&fold, &0, Some((&new, v2)), &new);
    assert_eq!(v3, 109);
    assert!(!changed);
}

#[test]
fn an_emptied_map_reverts_to_init_when_asked() {
    let fold = ClosureFold::new_add_remove(|acc: i64, _k: &u64, v: &i64| acc + v, |acc: i64, _k: &u64, v: &i64| acc - v)
        .revert_to_init_when_empty(true);
    let old = map_of(&[(1, 2)]);
    let empty = SortedMap::new();
    assert_eq!(unordered_fold_with(&fold, &-1, Some((&old, 2)), &empty), (-1, true));
    assert_eq!(unordered_fold_with(&fold, &-1, Some((&empty, 5)), &empty), (-1, false));
}

#[test]
fn specialised_initial_fold_and_default_update() {
    let fold = ClosureFold::new_add_remove(|acc: i64, _k: &u64, v: &i64| acc + v, |acc: i64, _k: &u64, v: &i64| acc - v)
        .specialized_initial(|acc: i64, m: &SortedMap<i64>| acc + 1000 * (m.entries().len() as i64));
    let m = map_of(&[(1, 2), (2, 4)]);
    assert_eq!(UnorderedFold::initial_fold(&fold, 0, &m), 2000);
    assert_eq!(UnorderedFold::update(&fold, 10, &1, &2, &5), 13);
    assert!(!UnorderedFold::revert_to_init_when_empty(&fold));
}

#[test]
fn the_incremental_value_is_the_fold_of_the_current_map() {
    let fold = ClosureFold::new()
        .add(|acc: i64, _k: &u64, v: &i64| acc + v)
        .remove(|acc: i64, _k: &u64, v: &i64| acc - v)
        .update(|acc: i64, _k: &u64, old: &i64, new: &i64| acc - old + new);
    let old = map_of(&[(1, 10), (2, 20), (5, 1)]);
    let (v, _) = unordered_fold_with(&fold, &0, None, &old);
    let new = map_of(&[(2, 25), (3, 30), (5, 1)]);
    let (incremental, changed) = unordered_fold_with(&fold, &0, Some((&old, v)), &new);
    let (fresh, _) = unordered_fold_with(&fold, &0, None, &new);
    assert!(changed);
    assert_eq!(incremental, fresh);
    assert_eq!(incremental, 56);
}

#[test]
fn filter_map_update_looks_only_at_the_keys_that_differ() {
    let calls = std::cell::Cell::new(0);
    let f = |k: u64, v: &i64| {
        calls.set(calls.get() + 1);
        if *v % 20 == 0 { None } else { Some(*v + k as i64) }
    };
    let old_input = map_of(&[(1, 10), (2, 20), (3, 30)]);
    let old_output = old_input.filter_map_collect(&f);
    assert_eq!(old_output.entries(), &vec![(1, 11), (3, 33)]);
    calls.set(0);
    let input = map_of(&[(1, 10), (2, 21), (4, 40)]);
    let (out, changed) = SortedMap::filter_map_update(&old_input, &input, old_output, &f);
    assert!(changed);
    // key 2 changed and key 4 was added: only they are looked at again
    assert_eq!(calls.get(), 2);
    assert_eq!(out.entries(), &vec![(1, 11), (2, 23)]);
    assert_eq!(out.entries(), input.filter_map_collect(&f).entries());
}

#[test]
fn filter_map_update_of_the_same_input_changes_nothing() {
    let f = |_k: u64, v: &i64| if *v > 0 { Some(*v) } else { None };
    let input = map_of(&[(1, 5), (2, -5)]);
    let output = input.filter_map_collect(&f);
    let (out, changed) = SortedMap::filter_map_update(&input, &input, output, &f);
    assert!(!changed);
    assert_eq!(out.entries(), &vec![(1, 5)]);
}

#[test]
fn filter_map_update_of_an_empty_input_is_empty() {
    let f = |_k: u64, v: &i64| Some(*v);
    let old_input = map_of(&[(1, 5)]);
    let output = old_input.filter_map_collect(&f);
    let (out, changed) = SortedMap::filter_map_update(&old_input, &SortedMap::new(), output, &f);
    assert!(changed);
    assert!(out.is_empty());
}

fn str_map(entries: &[(u64, &'static str)]) -> SortedMap<&'static str> {
    let mut m = SortedMap::new();
    for (k, v) in entries {
        m.insert_entry(*k, *v);
    }
    m
}

fn owned(entries: &[(u64, &str)]) -> Vec<(u64, String)> {
    entries.iter().map(|(k, v)| (*k, v.to_string())).collect()
}

#[test]
fn integration_test_merge() {
    let empty = str_map(&[]);
    let left = str_map(&[(1, "a"), (2, "a")]);
    let right = str_map(&[(2, "b"), (3, "b")]);

    let only_left = |_k: u64, m: MergeElement<&'static str, &'static str>| match m {
        MergeElement::Left(l) | MergeElement::Both(l, _) => Some(l),
        MergeElement::Right(_) => None,
    };
    let only_right = |_k: u64, m: MergeElement<&'static str, &'static str>| match m {
        MergeElement::Right(r) | MergeElement::Both(_, r) => Some(r),
        MergeElement::Left(_) => None,
    };
    let describe = |_k: u64, m: MergeElement<&'static str, &'static str>| match m {
        MergeElement::Left(left) => Some(format!("left: {left}")),
        MergeElement::Right(right) => Some(format!("right: {right}")),
        MergeElement::Both(left, right) => Some(format!("both: {left} + {right}")),
    };

    let (l, _) = SortedMap::merge_update(&empty, &empty, SortedMap::new(), &left, &right, &only_left);
    assert_eq!(l.entries(), &vec![(1, "a"), (2, "a")]);
    let (r, _) = SortedMap::merge_update(&empty, &empty, SortedMap::new(), &left, &right, &only_right);
    assert_eq!(r.entries(), &vec![(2, "b"), (3, "b")]);
    let (m, changed) = SortedMap::merge_update(&empty, &empty, SortedMap::new(), &left, &right, &describe);
    assert!(changed);
    assert_eq!(m.entries(), &owned(&[(1, "left: a"), (2, "both: a + b"), (3, "right: b")]));

    // Now update. We should merge again with the updated key
    let right2 = str_map(&[(2, "b (updated)"), (3, "b")]);
    let (m, _) = SortedMap::merge_update(&left, &right, m, &left, &right2, &describe);
    assert_eq!(m.entries(), &owned(&[(1, "left: a"), (2, "both: a + b (updated)"), (3, "right: b")]));

    // concurrent modify delete
    let left3 = str_map(&[(1, "a")]);
    let right3 = str_map(&[(2, "b (updated 2)")]);
    let (m, _) = SortedMap::merge_update(&left, &right2, m, &left3, &right3, &describe);
    assert_eq!(m.entries(), &owned(&[(1, "left: a"), (2, "right: b (updated 2)")]));
}

#[test]
fn merge_update_looks_only_at_the_keys_that_differ() {
    let calls = std::cell::Cell::new(0);
    let f = |k: u64, m: MergeElement<i64, i64>| {
        calls.set(calls.get() + 1);
        match m {
            MergeElement::Both(a, b) => Some(a + b + k as i64),
            MergeElement::Left(a) => Some(a),
            MergeElement::Right(_) => None,
        }
    };
    let empty = map_of(&[]);
    let left = map_of(&[(1, 10), (2, 20), (3, 30)]);
    let right = map_of(&[(2, 200), (4, 400)]);
    let (out, _) = SortedMap::merge_update(&empty, &empty, SortedMap::new(), &left, &right, &f);
    assert_eq!(out.entries(), &vec![(1, 10), (2, 222), (3, 30)]);
    assert_eq!(calls.get(), 4);
    calls.set(0);
    // only key 3 changes on the left, and key 2 on both sides: two keys to look at
    let left2 = map_of(&[(1, 10), (2, 21), (3, 31)]);
    let right2 = map_of(&[(2, 201), (4, 400)]);
    let (out, changed) = SortedMap::merge_update(&left, &right, out, &left2, &right2, &f);
    assert!(changed);
    assert_eq!(calls.get(), 2);
    assert_eq!(out.entries(), &vec![(1, 10), (2, 224), (3, 31)]);
    // nothing changed: nothing looked at
    calls.set(0);
    let (same, changed) = SortedMap::merge_update(&left2, &right2, out, &left2, &right2, &f);
    assert!(!changed);
    assert_eq!(calls.get(), 0);
    assert_eq!(same.entries(), &vec![(1, 10), (2, 224), (3, 31)]);
}
