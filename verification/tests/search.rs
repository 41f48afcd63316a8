use std::cell::RefCell;
use std::collections::HashSet;
use subsrch::indices::{Indices, SelectIndices};
use subsrch::maximal::MaximalRange;
use subsrch::minimal::MinimalRange;
use subsrch::range::{Done, Range, RangeStrategy, RunTest};
use subsrch::searcher::Searcher;

fn lines(items: &[usize]) -> Vec<String> {
    items.iter().map(|i| i.to_string()).collect()
}

fn has(probe: &[String], item: usize) -> bool {
    probe.contains(&item.to_string())
}

fn sorted(indices: &Indices) -> Vec<usize> {
    let mut v: Vec<usize> = indices.iter().cloned().collect();
    v.sort();
    v
}

/// Runs a whole search over `n` positions and returns the probes in order,
/// the baselines in order, and the answer.
fn trace<R: RangeStrategy>(
    n: usize,
    oracle: &dyn Fn(&Indices) -> bool,
) -> (Vec<Vec<usize>>, Vec<Vec<usize>>, Option<Vec<usize>>) {
    let mut range = Range::<R>::new(n);
    let mut probes = Vec::new();
    let mut baselines = Vec::new();
    loop {
        match range.next() {
            Done(answer) => return (probes, baselines, answer.map(|a| sorted(&a))),
            RunTest(indices) => {
                probes.push(sorted(&indices));
                if oracle(&indices) {
                    range.test_passed(indices);
                } else {
                    range.test_failed(indices);
                }
                if let Some(best) = &range.passed {
                    baselines.push(sorted(best));
                }
            }
        }
    }
}

#[test]
fn minimal_finds_both_ends() {
    let mut searcher = Searcher::new(|probe: &[String]| has(probe, 0) && has(probe, 3));

    assert_eq!(searcher.search::<MinimalRange>(lines(&[0, 1, 2, 3])), Some(lines(&[0, 3])));
}

#[test]
fn minimal_of_nothing_accepted() {
    let mut searcher = Searcher::new(|_: &[String]| true);

    assert_eq!(searcher.search::<MinimalRange>(lines(&[])), Some(lines(&[])));
}

#[test]
fn minimal_of_nothing_rejected() {
    let mut searcher = Searcher::new(|_: &[String]| false);

    assert_eq!(searcher.search::<MinimalRange>(lines(&[])), None);
}

#[test]
fn maximal_finds_the_middle() {
    let mut searcher = Searcher::new(|probe: &[String]| !has(probe, 0) && !has(probe, 3));

    assert_eq!(searcher.search::<MaximalRange>(lines(&[0, 1, 2, 3])), Some(lines(&[1, 2])));
}

#[test]
fn maximal_of_two_when_only_nothing_is_accepted() {
    let mut searcher = Searcher::new(|probe: &[String]| probe.is_empty());

    assert_eq!(searcher.search::<MaximalRange>(lines(&[0, 1])), Some(lines(&[])));
}

#[test]
fn minimal_of_two_finds_the_first() {
    let mut searcher = Searcher::new(|probe: &[String]| has(probe, 0));

    assert_eq!(searcher.search::<MinimalRange>(lines(&[0, 1])), Some(lines(&[0])));
}

#[test]
fn maximal_rejected_at_the_start() {
    let mut searcher = Searcher::new(|_: &[String]| false);

    assert_eq!(searcher.search::<MaximalRange>(lines(&[0, 1, 2])), None);
}

#[test]
fn minimal_rejected_at_the_start() {
    let mut searcher = Searcher::new(|probe: &[String]| probe.len() > 5);

    assert_eq!(searcher.search::<MinimalRange>(lines(&[0, 1, 2])), None);
}

#[test]
fn maximal_accepts_everything() {
    let mut searcher = Searcher::new(|_: &[String]| true);

    assert_eq!(searcher.search::<MaximalRange>(lines(&[0, 1, 2])), Some(lines(&[0, 1, 2])));
}

#[test]
fn minimal_accepts_everything() {
    let mut searcher = Searcher::new(|_: &[String]| true);

    assert_eq!(searcher.search::<MinimalRange>(lines(&[0, 1, 2])), Some(lines(&[])));
}

#[test]
fn test_asks_the_oracle() {
    let mut searcher = Searcher::new(|probe: &[String]| probe.len() == 2);

    assert!(searcher.test(&lines(&[4, 5])));
    assert!(!searcher.test(&lines(&[4])));
}

#[test]
fn search_hands_the_oracle_the_kept_items_in_order() {
    let seen: RefCell<Vec<Vec<String>>> = RefCell::new(Vec::new());
    let full = vec!["x".to_string(), "y".to_string(), "z".to_string()];
    let found = {
        let mut searcher = Searcher::new(|probe: &[String]| {
            seen.borrow_mut().push(probe.to_vec());
            probe.contains(&"y".to_string())
        });
        searcher.search::<MinimalRange>(full)
    };

    assert_eq!(found, Some(vec!["y".to_string()]));
    let seen = seen.into_inner();
    assert_eq!(seen[0], vec!["x".to_string(), "y".to_string(), "z".to_string()]);
    assert_eq!(seen[1], vec!["y".to_string(), "z".to_string()]);
    assert_eq!(seen[2], vec!["z".to_string()]);
    assert_eq!(seen[3], vec!["y".to_string()]);
    assert_eq!(seen[4], Vec::<String>::new());
    assert_eq!(seen.len(), 5);
}

#[test]
fn search_with_repeated_items() {
    let full = vec!["a".to_string(), "a".to_string(), "b".to_string()];
    let mut searcher = Searcher::new(|probe: &[String]| {
        probe.iter().filter(|l| l.as_str() == "a").count() >= 1
    });

    assert_eq!(searcher.search::<MinimalRange>(full), Some(vec!["a".to_string()]));
}

#[test]
fn same_oracle_same_answer() {
    let oracle = |probe: &Indices| probe.contains(&1) && probe.contains(&6);
    let first = trace::<MinimalRange>(8, &oracle);
    let second = trace::<MinimalRange>(8, &oracle);

    assert_eq!(first, second);
    assert_eq!(first.2, Some(vec![1, 6]));
}

#[test]
fn no_probe_comes_twice() {
    let minimal = trace::<MinimalRange>(9, &|probe: &Indices| {
        probe.contains(&2) && probe.contains(&3) && probe.contains(&8)
    });
    let maximal = trace::<MaximalRange>(9, &|probe: &Indices| {
        !probe.contains(&2) && !probe.contains(&5)
    });

    for probes in [minimal.0, maximal.0] {
        let distinct: HashSet<Vec<usize>> = probes.iter().cloned().collect();
        assert_eq!(distinct.len(), probes.len());
    }
}

#[test]
fn no_probe_comes_twice_with_an_oracle_that_is_not_monotonic() {
    let (probes, _, _) = trace::<MinimalRange>(8, &|probe: &Indices| probe.len() % 3 != 1);
    let distinct: HashSet<Vec<usize>> = probes.iter().cloned().collect();

    assert_eq!(distinct.len(), probes.len());
}

#[test]
fn minimal_baselines_never_grow() {
    let (_, baselines, answer) = trace::<MinimalRange>(10, &|probe: &Indices| {
        probe.contains(&0) && probe.contains(&9)
    });

    assert!(baselines.windows(2).all(|w| w[1].len() <= w[0].len()));
    assert_eq!(baselines[0].len(), 10);
    assert_eq!(answer, Some(vec![0, 9]));
}

#[test]
fn maximal_baselines_never_shrink() {
    let (_, baselines, answer) = trace::<MaximalRange>(10, &|probe: &Indices| {
        !probe.contains(&0) && !probe.contains(&9)
    });

    assert!(baselines.windows(2).all(|w| w[1].len() >= w[0].len()));
    assert_eq!(baselines[0].len(), 0);
    assert_eq!(answer, Some(vec![1, 2, 3, 4, 5, 6, 7, 8]));
}

#[test]
fn minimal_answer_loses_the_oracle_with_any_item_less() {
    let needed = [3usize, 4, 11];
    let oracle = |probe: &Indices| needed.iter().all(|i| probe.contains(i));
    let (_, _, answer) = trace::<MinimalRange>(12, &oracle);
    let answer = answer.unwrap();

    assert_eq!(answer, vec![3, 4, 11]);
    for &item in &answer {
        let mut smaller: Indices = answer.iter().cloned().collect();
        smaller.remove(&item);
        assert!(!oracle(&smaller));
    }
}

#[test]
fn maximal_answer_loses_the_oracle_with_any_item_more() {
    let banned = [0usize, 5, 6];
    let oracle = |probe: &Indices| banned.iter().all(|i| !probe.contains(i));
    let (_, _, answer) = trace::<MaximalRange>(9, &oracle);
    let answer = answer.unwrap();

    assert_eq!(answer, vec![1, 2, 3, 4, 7, 8]);
    for item in 0..9 {
        if !answer.contains(&item) {
            let mut larger: Indices = answer.iter().cloned().collect();
            larger.insert(item);
            assert!(!oracle(&larger));
        }
    }
}

#[test]
fn probes_preferred_over_the_answer_were_rejected() {
    let oracle = |probe: &Indices| probe.len() >= 3 && probe.contains(&4);
    let (probes, _, answer) = trace::<MinimalRange>(7, &oracle);
    let answer: Indices = answer.unwrap().into_iter().collect();

    assert!(oracle(&answer));
    for probe in probes {
        let probe: Indices = probe.into_iter().collect();
        if probe.is_subset(&answer) && probe != answer {
            assert!(!oracle(&probe));
        }
    }
}

#[test]
fn searches_end_for_every_oracle_on_three_items() {
    for accepted in 0u32..256 {
        let oracle = |probe: &Indices| {
            let code = probe.iter().fold(0usize, |code, i| code | (1 << i));
            accepted & (1 << code) != 0
        };
        let (probes, _, answer) = trace::<MinimalRange>(3, &oracle);
        assert!(probes.len() <= 8);
        assert_eq!(answer.is_some(), oracle(&(0..3).collect()));
        let (probes, _, answer) = trace::<MaximalRange>(3, &oracle);
        assert!(probes.len() <= 8);
        assert_eq!(answer.is_some(), oracle(&HashSet::new()));
    }
}

#[test]
fn every_answer_was_accepted_by_the_oracle() {
    for accepted in 0u32..256 {
        let oracle = |probe: &Indices| {
            let code = probe.iter().fold(0usize, |code, i| code | (1 << i));
            accepted & (1 << code) != 0
        };
        if let (_, _, Some(answer)) = trace::<MinimalRange>(3, &oracle) {
            assert!(oracle(&answer.iter().cloned().collect()));
        }
        if let (_, _, Some(answer)) = trace::<MaximalRange>(3, &oracle) {
            assert!(oracle(&answer.iter().cloned().collect()));
        }
    }
}

#[test]
fn driver_reports_the_probe_not_the_items() {
    let full = lines(&[7, 8, 9]);
    let mut range = MinimalRange::new(full.len());
    let first = match range.next() {
        RunTest(indices) => indices,
        Done(_) => panic!("a search starts with a probe"),
    };

    assert_eq!(full.clone().select_indices(&first), lines(&[7, 8, 9]));
    range.test_passed(first);
    assert_eq!(range.passed.as_ref().map(sorted), Some(vec![0, 1, 2]));
}
