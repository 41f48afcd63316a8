use std::collections::HashSet;
use subsrch::indices::Indices;
use subsrch::minimal::MinimalRange;
use subsrch::range::{Done, RangeStrategy, RunTest};

fn set(items: &[usize]) -> Indices {
    let mut s = HashSet::new();
    for &item in items {
        s.insert(item);
    }
    s
}

#[test]
fn minimal_empty_list_should_test_once() {
    let range = MinimalRange::new(0);

    assert_eq!(range.next(), RunTest(set(&[])));
}

#[test]
fn minimal_empty_list_failed_test_final_range_is_none() {
    let mut range = MinimalRange::new(0);

    range.test_failed(set(&[]));
    assert_eq!(range.next(), Done(None));
}

#[test]
fn minimal_empty_list_passed_test_final_range_is_empty() {
    let mut range = MinimalRange::new(0);

    range.test_passed(set(&[]));
    assert_eq!(range.next(), Done(Some(set(&[]))));
}

#[test]
fn single_element_is_test_all() {
    let range = MinimalRange::new(1);

    assert_eq!(range.next(), RunTest(set(&[0])));
}

#[test]
fn single_element_failed_test_is_none() {
    let mut range = MinimalRange::new(1);

    range.test_failed(set(&[0]));
    assert_eq!(range.next(), Done(None));
}

#[test]
fn single_element_passed_test_is_test_empty() {
    let mut range = MinimalRange::new(1);

    range.test_passed(set(&[0]));
    assert_eq!(range.next(), RunTest(set(&[])));
}

#[test]
fn single_element_required_is_done() {
    let mut range = MinimalRange::new(1);

    range.test_passed(set(&[0]));
    range.test_failed(set(&[]));
    assert_eq!(range.next(), Done(Some(set(&[0]))));
}

#[test]
fn empty_passed_with_one_element_is_done() {
    let mut range = MinimalRange::new(1);

    range.test_passed(set(&[]));
    assert_eq!(range.next(), Done(Some(set(&[]))));
}

#[test]
fn minimal_two_elements_failed() {
    let mut range = MinimalRange::new(2);

    range.test_failed(set(&[0, 1]));
    assert_eq!(range.next(), Done(None));
}

#[test]
fn two_elements_required() {
    let mut range = MinimalRange::new(2);

    range.test_passed(set(&[0, 1]));
    range.test_failed(set(&[1]));
    range.test_failed(set(&[0]));
    assert_eq!(range.next(), Done(Some(set(&[0, 1]))));
}

#[test]
fn minimal_two_elements_first_required() {
    let mut range = MinimalRange::new(2);

    range.test_passed(set(&[0, 1]));
    range.test_failed(set(&[1]));
    assert_eq!(range.next(), RunTest(set(&[0])));
}

#[test]
fn ignores_larger_passes() {
    let mut range = MinimalRange::new(2);

    range.test_passed(set(&[1]));
    range.test_passed(set(&[0, 1]));
    assert_eq!(range.next(), RunTest(set(&[])));
}

#[test]
fn four_elements_requires_middle_two() {
    let mut range = MinimalRange::new(4);

    range.test_passed(set(&[0, 1, 2, 3]));
    range.test_failed(set(&[0, 1]));
    range.test_failed(set(&[2, 3]));
    match range.next() {
        RunTest(v) => assert!(v.len() == 3, "{:?} should have length 3", v),
        _ => assert!(false),
    }
}

#[test]
fn minimal_first_probe_is_everything() {
    let range = MinimalRange::new(3);

    assert_eq!(range.next(), RunTest(set(&[0, 1, 2])));
}

#[test]
fn minimal_first_chunk_is_the_lower_half() {
    let mut range = MinimalRange::new(5);

    range.test_passed(set(&[0, 1, 2, 3, 4]));
    assert_eq!(range.next(), RunTest(set(&[2, 3, 4])));
}

#[test]
fn minimal_second_chunk_is_the_upper_half() {
    let mut range = MinimalRange::new(5);

    range.test_passed(set(&[0, 1, 2, 3, 4]));
    range.test_failed(set(&[2, 3, 4]));
    assert_eq!(range.next(), RunTest(set(&[0, 1])));
}

#[test]
fn minimal_halves_failed_chunks_in_order() {
    let mut range = MinimalRange::new(4);

    range.test_passed(set(&[0, 1, 2, 3]));
    range.test_failed(set(&[2, 3]));
    range.test_failed(set(&[0, 1]));
    assert_eq!(range.next(), RunTest(set(&[1, 2, 3])));
    range.test_failed(set(&[1, 2, 3]));
    assert_eq!(range.next(), RunTest(set(&[0, 2, 3])));
    range.test_failed(set(&[0, 2, 3]));
    assert_eq!(range.next(), RunTest(set(&[0, 1, 3])));
    range.test_failed(set(&[0, 1, 3]));
    assert_eq!(range.next(), RunTest(set(&[0, 1, 2])));
    range.test_failed(set(&[0, 1, 2]));
    assert_eq!(range.next(), Done(Some(set(&[0, 1, 2, 3]))));
}

#[test]
fn minimal_new_baseline_drops_failures_outside_it() {
    let mut range = MinimalRange::new(4);

    range.test_passed(set(&[0, 1, 2, 3]));
    range.test_failed(set(&[2, 3]));
    range.test_failed(set(&[0]));
    range.test_passed(set(&[0, 1]));
    assert_eq!(range.passed, Some(set(&[0, 1])));
    assert_eq!(range.failures, vec![set(&[0])]);
}

#[test]
fn minimal_pass_that_is_not_preferred_changes_nothing() {
    let mut range = MinimalRange::new(2);

    range.test_passed(set(&[0]));
    range.test_failed(set(&[1]));
    range.test_passed(set(&[0, 1]));
    assert_eq!(range.passed, Some(set(&[0])));
    assert_eq!(range.failures, vec![set(&[1])]);
}

#[test]
fn minimal_first_pass_prunes_earlier_failures() {
    let mut range = MinimalRange::new(2);

    range.test_failed(set(&[0, 1]));
    range.test_failed(set(&[0]));
    range.test_passed(set(&[0]));
    assert_eq!(range.passed, Some(set(&[0])));
    assert_eq!(range.failures, vec![set(&[0])]);
}

#[test]
fn minimal_next_does_not_change_the_state() {
    let mut range = MinimalRange::new(2);

    range.test_passed(set(&[0, 1]));
    let first = range.next();
    let second = range.next();
    assert_eq!(first, second);
    assert_eq!(range.passed, Some(set(&[0, 1])));
    assert!(range.failures.is_empty());
}

#[test]
fn minimal_retain_indices_is_subset() {
    assert!(MinimalRange::retain_indices(&set(&[0, 1]), &set(&[1])));
    assert!(MinimalRange::retain_indices(&set(&[0, 1]), &set(&[0, 1])));
    assert!(!MinimalRange::retain_indices(&set(&[1]), &set(&[0, 1])));
    assert!(!MinimalRange::retain_indices(&set(&[1]), &set(&[0])));
}
