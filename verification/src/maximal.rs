//! The direction that looks for the largest satisfying subset: it starts
//! from nothing and adds chunks.
use crate::delta::{
    lemma_nothing_untried, lemma_untried_chunk, lemma_untried_shrinks, next_chunk, untried_chunk,
    untried_count,
};
use crate::indices::{
    difference, full_range, is_superset, lemma_ascending, union, universe, views, Indices,
};
use crate::range::{NextModel, Range, RangeModel, RangeStrategy};
use crate::run::{
    asked, follows, lemma_answer_satisfies, lemma_baseline_only_advances, lemma_run_keeps_len,
    lemma_run_step, outcome, run,
};
use std::collections::HashSet;
use vstd::prelude::*;

verus! {

/// The search for the largest subset that satisfies the oracle.
pub struct MaximalRange;

impl MaximalRange {
    /// The chunks whose addition to the baseline needs no probe: the empty
    /// one, and for each failure what it held beyond the baseline.
    pub open spec fn tried(range: RangeModel) -> Seq<Set<usize>> {
        seq![Set::<usize>::empty()] + range.failures.map_values(
            |f: Set<usize>| f.difference(range.passed->0),
        )
    }
}

impl RangeStrategy for MaximalRange {
    /// Larger is better: a candidate replaces a baseline that it contains.
    open spec fn prefers(best: Set<usize>, candidate: Set<usize>) -> bool {
        best.subset_of(candidate)
    }

    /// Nothing: a pass gives a baseline to grow.
    open spec fn initial_probe(initial_len: nat) -> Set<usize> {
        Set::empty()
    }

    /// The baseline with the next untried chunk. The chunks are the halves of
    /// what the baseline leaves out of all positions, then the halves of each
    /// chunk tried before.
    open spec fn next_probe(range: RangeModel) -> Option<Set<usize>> {
        let best = range.passed->0;
        match untried_chunk(universe(range.initial_len).difference(best), Self::tried(range)) {
            Some(chunk) => Some(best.union(chunk)),
            None => None,
        }
    }

    /// A baseline can grow as often as there are positions outside it.
    open spec fn rank(best: Set<usize>) -> nat {
        best.complement().len()
    }

    /// The index sets that are not among the tried chunks.
    open spec fn untried(range: RangeModel) -> nat {
        untried_count(Self::tried(range))
    }

    proof fn lemma_prefers_orders(a: Set<usize>, b: Set<usize>, c: Set<usize>) {
        if Self::prefers(a, b) && Self::prefers(b, a) {
            assert(a =~= b);
        }
    }

    proof fn lemma_rank_falls(best: Set<usize>, candidate: Set<usize>) {
        let outside = best.complement();
        let beyond = candidate.complement();
        lemma_ascending(outside);
        lemma_ascending(beyond);
        vstd::set_lib::lemma_len_subset(beyond, outside);
        if beyond.len() == outside.len() {
            vstd::set_lib::lemma_subset_equality(beyond, outside);
            assert(best =~= candidate) by {
                assert forall|x: usize| candidate.contains(x) implies best.contains(x) by {
                    assert(!beyond.contains(x));
                }
            }
        }
    }

    proof fn lemma_next_probe_is_new(range: RangeModel) {
        let best = range.passed->0;
        let tried = Self::tried(range);
        let unpassed = universe(range.initial_len).difference(best);
        let chunk = untried_chunk(unpassed, tried)->0;
        let probe = best.union(chunk);
        lemma_untried_chunk(unpassed, tried);
        assert(tried[0] == Set::<usize>::empty());
        assert(chunk.disjoint(best)) by {
            if !chunk.subset_of(unpassed) {
                let k = choose|k: int|
                    0 <= k < tried.len() && chunk.subset_of(#[trigger] tried[k]);
                if k > 0 {
                    assert(tried[k] == range.failures[k - 1].difference(best));
                }
            }
        }
        assert(probe != best) by {
            if chunk =~= Set::<usize>::empty() {
                assert(tried.contains(chunk));
            } else {
                let x = choose|x: usize| chunk.contains(x);
                assert(!best.contains(x) && probe.contains(x));
            }
        }
        assert(probe.difference(best) =~= chunk);
        if range.failures.contains(probe) {
            let i = choose|i: int| 0 <= i < range.failures.len() && range.failures[i] == probe;
            assert(tried[i + 1] == chunk);
        }
        assert(Self::tried(range.test_failed(probe)) =~= tried.push(chunk));
        lemma_untried_shrinks(tried, chunk);
    }

    fn retain_indices(passed: &Indices, new_indices: &Indices) -> (retain: bool) {
        is_superset(new_indices, passed)
    }

    fn initial_test(_range: &Range<Self>) -> (probe: Indices) {
        HashSet::new()
    }

    fn next_indices(range: &Range<Self>) -> (probe: Option<Indices>) {
        let passed = range.passed.as_ref().unwrap();
        let mut past_includes: Vec<Indices> = Vec::new();
        past_includes.push(HashSet::new());
        let ghost rebase = |f: Set<usize>| f.difference(passed@);
        for k in 0..range.failures.len()
            invariant
                rebase == |f: Set<usize>| f.difference(passed@),
                views(past_includes@) == seq![Set::<usize>::empty()] + views(range.failures@).take(
                    k as int,
                ).map_values(rebase),
        {
            let ghost shorter = views(past_includes@);
            past_includes.push(difference(&range.failures[k], passed));
            proof {
                let failures = views(range.failures@);
                assert(failures.take(k + 1) =~= failures.take(k as int).push(failures[k as int]));
                assert(views(past_includes@) =~= shorter.push(rebase(failures[k as int])));
                assert(views(past_includes@) =~= seq![Set::<usize>::empty()] + failures.take(
                    k + 1,
                ).map_values(rebase));
            }
        }
        proof {
            let failures = views(range.failures@);
            assert(failures.take(failures.len() as int) =~= failures);
            assert(views(past_includes@) == Self::tried(range@));
        }
        let all_elements = full_range(range.initial_len);
        let unpassed = difference(&all_elements, passed);
        match next_chunk(&unpassed, &past_includes) {
            Some(next_include) => Some(union(passed, &next_include)),
            None => None,
        }
    }
}

impl MaximalRange {
    /// Monotonic convergence of the maximal search: its baseline never shrinks.
    pub proof fn lemma_never_shrinks(initial_len: nat, answers: Seq<bool>, first: int, later: int)
        requires
            0 <= first <= later <= answers.len(),
            run::<Self>(initial_len, answers.take(first)).passed is Some,
        ensures
            run::<Self>(initial_len, answers.take(later)).passed is Some,
            run::<Self>(initial_len, answers.take(first)).passed->0.len()
                <= run::<Self>(initial_len, answers.take(later)).passed->0.len(),
    {
        lemma_baseline_only_advances::<Self>(initial_len, answers, first, later);
        let early = run::<Self>(initial_len, answers.take(first)).passed->0;
        let late = run::<Self>(initial_len, answers.take(later)).passed->0;
        lemma_ascending(late);
        vstd::set_lib::lemma_len_subset(early, late);
    }

    /// Every recorded failure holds the baseline and was rejected by the oracle.
    spec fn failures_stand(range: RangeModel, oracle: spec_fn(Set<usize>) -> bool) -> bool {
        range.passed matches Some(best) ==> forall|k: int|
            0 <= k < range.failures.len() ==> best.subset_of(#[trigger] range.failures[k])
                && !oracle(range.failures[k])
    }

    proof fn lemma_failures_stand(
        initial_len: nat,
        oracle: spec_fn(Set<usize>) -> bool,
        answers: Seq<bool>,
        upto: int,
    )
        requires
            follows::<Self>(initial_len, oracle, answers),
            0 <= upto <= answers.len(),
        ensures
            Self::failures_stand(run::<Self>(initial_len, answers.take(upto)), oracle),
        decreases upto,
    {
        if upto > 0 {
            Self::lemma_failures_stand(initial_len, oracle, answers, upto - 1);
            lemma_run_step::<Self>(initial_len, answers, upto - 1);
            let before = run::<Self>(initial_len, answers.take(upto - 1));
            let after = run::<Self>(initial_len, answers.take(upto));
            assert(asked::<Self>(initial_len, answers, upto - 1) is RunTest);
            let probe = before.next::<Self>()->RunTest_0;
            if before.passed is Some {
                Self::lemma_next_probe_is_new(before);
            }
            if answers[upto - 1] {
                let consistent = |f: Set<usize>| Self::prefers(probe, f);
                assert forall|k: int| 0 <= k < after.failures.len() implies probe.subset_of(
                    #[trigger] after.failures[k],
                ) && !oracle(after.failures[k]) by {
                    before.failures.lemma_filter_pred(consistent, k);
                    assert(after.failures.contains(after.failures[k]));
                    before.failures.lemma_filter_contains_rev(consistent, after.failures[k]);
                    let j = choose|j: int|
                        0 <= j < before.failures.len() && before.failures[j] == after.failures[k];
                    assert(before.failures[j] == after.failures[k]);
                }
            } else if before.passed is Some {
                let best = before.passed->0;
                assert forall|k: int| 0 <= k < after.failures.len() implies best.subset_of(
                    #[trigger] after.failures[k],
                ) && !oracle(after.failures[k]) by {
                    if k < before.failures.len() {
                        assert(after.failures[k] == before.failures[k]);
                    }
                }
            }
        }
    }

    /// Extremality of the maximal search: the answer is accepted by the oracle,
    /// and with any one more of the positions it was probed and rejected.
    pub proof fn lemma_answer_is_one_maximal(
        initial_len: nat,
        oracle: spec_fn(Set<usize>) -> bool,
        answers: Seq<bool>,
        x: usize,
    )
        requires
            follows::<Self>(initial_len, oracle, answers),
            outcome::<Self>(initial_len, answers) matches NextModel::Done(Some(answer))
                && !answer.contains(x),
            x < initial_len,
        ensures
            oracle(outcome::<Self>(initial_len, answers)->Done_0->0),
            run::<Self>(initial_len, answers).failures.contains(
                outcome::<Self>(initial_len, answers)->Done_0->0.insert(x),
            ),
            !oracle(outcome::<Self>(initial_len, answers)->Done_0->0.insert(x)),
    {
        let range = run::<Self>(initial_len, answers);
        let answer = range.passed->0;
        let tried = Self::tried(range);
        let single = Set::<usize>::empty().insert(x);
        lemma_answer_satisfies::<Self>(initial_len, oracle, answers);
        lemma_run_keeps_len::<Self>(initial_len, answers);
        Self::lemma_failures_stand(initial_len, oracle, answers, answers.len() as int);
        assert(answers.take(answers.len() as int) =~= answers);
        lemma_nothing_untried(universe(initial_len).difference(answer), tried, x);
        let k = choose|k: int| 0 <= k < tried.len() && tried[k] == single;
        assert(tried[0] == Set::<usize>::empty());
        assert(single.contains(x));
        let failure = range.failures[k - 1];
        assert(tried[k] == failure.difference(answer));
        assert(failure =~= answer.insert(x)) by {
            assert forall|y: usize| failure.contains(y) <==> answer.insert(x).contains(y) by {
                if failure.contains(y) && !answer.contains(y) {
                    assert(single.contains(y));
                }
                if y == x {
                    assert(failure.difference(answer).contains(x));
                }
            }
        }
    }
}

} // verus!
