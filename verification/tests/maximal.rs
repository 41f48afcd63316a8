use std::collections::HashSet;
use subsrch::indices::Indices;
use subsrch::maximal::MaximalRange;
use subsrch::range::{Done, RangeStrategy, RunTest};

fn set(items: &[usize]) -> Indices {
    let mut s = HashSet::new();
    for &item in items {
        s.insert(item);
    }
    s
}

#[test]
fn maximal_empty_list_should_test_once() {
    let range = MaximalRange::new(0);

    assert_eq!(range.next(), RunTest(set(&[])));
}

#[test]
fn maximal_empty_list_failed_test_final_range_is_none() {
    let mut range = MaximalRange::new(0);

    range.test_failed(set(&[]));
    assert_eq!(range.next(), Done(None));
}

#[test]
fn maximal_empty_list_passed_test_final_range_is_empty() {
    let mut range = MaximalRange::new(0);

    range.test_passed(set(&[]));
    assert_eq!(range.next(), Done(Some(set(&[]))));
}

#[test]
fn single_element_is_test_empty() {
    let range = MaximalRange::new(1);

    assert_eq!(range.next(), RunTest(set(&[])));
}

#[test]
fn single_element_failed_is_empty_set() {
    let mut range = MaximalRange::new(1);

    range.test_passed(set(&[]));
    range.test_failed(set(&[0]));
    assert_eq!(range.next(), Done(Some(set(&[]))));
}

#[test]
fn single_element_passed_test_is_done() {
    let mut range = MaximalRange::new(1);

    range.test_passed(set(&[0]));
    assert_eq!(range.next(), Done(Some(set(&[0]))));
}

#[test]
fn maximal_two_elements_failed() {
    let mut range = MaximalRange::new(2);

    range.test_failed(set(&[]));
    assert_eq!(range.next(), Done(None));
}

#[test]
fn two_elements_only_one() {
    let mut range = MaximalRange::new(2);

    range.test_passed(set(&[0]));
    range.test_failed(set(&[0, 1]));
    assert_eq!(range.next(), Done(Some(set(&[0]))));
}

#[test]
fn maximal_two_elements_first_required() {
    let mut range = MaximalRange::new(2);

    range.test_passed(set(&[]));
    range.test_failed(set(&[0, 1]));
    range.test_failed(set(&[1]));
    assert_eq!(range.next(), RunTest(set(&[0])));
}

#[test]
fn ignores_smaller_passes() {
    let mut range = MaximalRange::new(2);

    range.test_passed(set(&[0, 1]));
    range.test_passed(set(&[1]));
    assert_eq!(range.next(), Done(Some(set(&[0, 1]))));
}

#[test]
fn four_elements_rejects_middle_two() {
    let mut range = MaximalRange::new(4);

    range.test_passed(set(&[]));
    range.test_failed(set(&[0, 1, 2, 3]));
    range.test_failed(set(&[0, 1]));
    range.test_failed(set(&[2, 3]));
    match range.next() {
        RunTest(v) => assert!(v.len() == 1, "{:?} should have length 1", v),
        _ => assert!(false),
    }
}

#[test]
fn maximal_first_probe_is_nothing() {
    let range = MaximalRange::new(3);

    assert_eq!(range.next(), RunTest(set(&[])));
}

#[test]
fn maximal_first_chunk_is_the_lower_half_of_the_rest() {
    let mut range = MaximalRange::new(5);

    range.test_passed(set(&[4]));
    assert_eq!(range.next(), RunTest(set(&[0, 1, 4])));
}

#[test]
fn maximal_second_chunk_is_the_upper_half_of_the_rest() {
    let mut range = MaximalRange::new(5);

    range.test_passed(set(&[4]));
    range.test_failed(set(&[0, 1, 4]));
    assert_eq!(range.next(), RunTest(set(&[2, 3, 4])));
}

#[test]
fn maximal_new_baseline_drops_failures_that_do_not_hold_it() {
    let mut range = MaximalRange::new(4);

    range.test_passed(set(&[]));
    range.test_failed(set(&[0, 1]));
    range.test_failed(set(&[2, 3]));
    range.test_passed(set(&[2]));
    assert_eq!(range.passed, Some(set(&[2])));
    assert_eq!(range.failures, vec![set(&[2, 3])]);
}

#[test]
fn maximal_pass_that_is_not_preferred_changes_nothing() {
    let mut range = MaximalRange::new(2);

    range.test_passed(set(&[0, 1]));
    range.test_failed(set(&[0]));
    range.test_passed(set(&[1]));
    assert_eq!(range.passed, Some(set(&[0, 1])));
    assert_eq!(range.failures, vec![set(&[0])]);
}

#[test]
fn maximal_retain_indices_is_superset() {
    assert!(MaximalRange::retain_indices(&set(&[1]), &set(&[0, 1])));
    assert!(MaximalRange::retain_indices(&set(&[0, 1]), &set(&[0, 1])));
    assert!(!MaximalRange::retain_indices(&set(&[0, 1]), &set(&[1])));
    assert!(!MaximalRange::retain_indices(&set(&[1]), &set(&[0])));
}
