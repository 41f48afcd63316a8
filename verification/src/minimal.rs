//! The direction that looks for the smallest satisfying subset: it starts
//! from everything and takes chunks away.
use crate::delta::{
    lemma_nothing_untried, lemma_untried_chunk, lemma_untried_shrinks, next_chunk, untried_chunk,
    untried_count,
};
use crate::indices::{difference, full_range, is_subset, lemma_ascending, universe, views, Indices};
use crate::range::{NextModel, Range, RangeModel, RangeStrategy};
use crate::run::{
    asked, follows, lemma_answer_satisfies, lemma_baseline_only_advances, lemma_run_keeps_len,
    lemma_run_step, outcome, run,
};
use std::collections::HashSet;
use vstd::prelude::*;

verus! {

/// The search for the smallest subset that satisfies the oracle.
pub struct MinimalRange;

impl MinimalRange {
    /// The chunks whose removal from the baseline needs no probe: the empty
    /// one, and for each failure the part of the baseline that it left out.
    pub open spec fn tried(range: RangeModel) -> Seq<Set<usize>> {
        seq![Set::<usize>::empty()] + range.failures.map_values(
            |f: Set<usize>| range.passed->0.difference(f),
        )
    }
}

impl RangeStrategy for MinimalRange {
    /// Smaller is better: a candidate replaces a baseline that contains it.
    open spec fn prefers(best: Set<usize>, candidate: Set<usize>) -> bool {
        candidate.subset_of(best)
    }

    /// Everything: a pass gives a baseline to shrink.
    open spec fn initial_probe(initial_len: nat) -> Set<usize> {
        universe(initial_len)
    }

    /// The baseline without the next untried chunk. The chunks are the halves
    /// of the baseline, then the halves of each chunk tried before.
    open spec fn next_probe(range: RangeModel) -> Option<Set<usize>> {
        let best = range.passed->0;
        match untried_chunk(best, Self::tried(range)) {
            Some(chunk) => Some(best.difference(chunk)),
            None => None,
        }
    }

    /// A baseline can shrink as often as it has positions.
    open spec fn rank(best: Set<usize>) -> nat {
        best.len()
    }

    /// The index sets that are not among the tried chunks.
    open spec fn untried(range: RangeModel) -> nat {
        untried_count(Self::tried(range))
    }

    proof fn lemma_prefers_orders(a: Set<usize>, b: Set<usize>, c: Set<usize>) {
        if Self::prefers(a, b) && Self::prefers(b, a) {
            assert(a =~= b);
        }
    }

    proof fn lemma_rank_falls(best: Set<usize>, candidate: Set<usize>) {
        lemma_ascending(best);
        lemma_ascending(candidate);
        vstd::set_lib::lemma_len_subset(candidate, best);
        if candidate.len() == best.len() {
            vstd::set_lib::lemma_subset_equality(candidate, best);
        }
    }

    proof fn lemma_next_probe_is_new(range: RangeModel) {
        let best = range.passed->0;
        let tried = Self::tried(range);
        let chunk = untried_chunk(best, tried)->0;
        let probe = best.difference(chunk);
        lemma_untried_chunk(best, tried);
        assert(tried[0] == Set::<usize>::empty());
        assert(chunk.subset_of(best)) by {
            if !chunk.subset_of(best) {
                let k = choose|k: int|
                    0 <= k < tried.len() && chunk.subset_of(#[trigger] tried[k]);
                if k > 0 {
                    assert(tried[k] == best.difference(range.failures[k - 1]));
                }
            }
        }
        assert(probe != best) by {
            if chunk =~= Set::<usize>::empty() {
                assert(tried.contains(chunk));
            } else {
                let x = choose|x: usize| chunk.contains(x);
                assert(best.contains(x) && !probe.contains(x));
            }
        }
        assert(best.difference(probe) =~= chunk);
        if range.failures.contains(probe) {
            let i = choose|i: int| 0 <= i < range.failures.len() && range.failures[i] == probe;
            assert(tried[i + 1] == chunk);
        }
        assert(Self::tried(range.test_failed(probe)) =~= tried.push(chunk));
        lemma_untried_shrinks(tried, chunk);
    }

    fn retain_indices(passed: &Indices, new_indices: &Indices) -> (retain: bool) {
        is_subset(new_indices, passed)
    }

    fn initial_test(range: &Range<Self>) -> (probe: Indices) {
        full_range(range.initial_len)
    }

    fn next_indices(range: &Range<Self>) -> (probe: Option<Indices>) {
        let passed = range.passed.as_ref().unwrap();
        let mut past_rejects: Vec<Indices> = Vec::new();
        past_rejects.push(HashSet::new());
        let ghost rebase = |f: Set<usize>| passed@.difference(f);
        for k in 0..range.failures.len()
            invariant
                rebase == |f: Set<usize>| passed@.difference(f),
                views(past_rejects@) == seq![Set::<usize>::empty()] + views(range.failures@).take(
                    k as int,
                ).map_values(rebase),
        {
            let ghost shorter = views(past_rejects@);
            past_rejects.push(difference(passed, &range.failures[k]));
            proof {
                let failures = views(range.failures@);
                assert(failures.take(k + 1) =~= failures.take(k as int).push(failures[k as int]));
                assert(views(past_rejects@) =~= shorter.push(rebase(failures[k as int])));
                assert(views(past_rejects@) =~= seq![Set::<usize>::empty()] + failures.take(
                    k + 1,
                ).map_values(rebase));
            }
        }
        proof {
            let failures = views(range.failures@);
            assert(failures.take(failures.len() as int) =~= failures);
            assert(views(past_rejects@) == Self::tried(range@));
        }
        match next_chunk(passed, &past_rejects) {
            Some(next_reject) => Some(difference(passed, &next_reject)),
            None => None,
        }
    }
}

impl MinimalRange {
    /// Monotonic convergence of the minimal search: its baseline never grows.
    pub proof fn lemma_never_grows(initial_len: nat, answers: Seq<bool>, first: int, later: int)
        requires
            0 <= first <= later <= answers.len(),
            run::<Self>(initial_len, answers.take(first)).passed is Some,
        ensures
            run::<Self>(initial_len, answers.take(later)).passed is Some,
            run::<Self>(initial_len, answers.take(later)).passed->0.len()
                <= run::<Self>(initial_len, answers.take(first)).passed->0.len(),
    {
        lemma_baseline_only_advances::<Self>(initial_len, answers, first, later);
        let early = run::<Self>(initial_len, answers.take(first)).passed->0;
        let late = run::<Self>(initial_len, answers.take(later)).passed->0;
        lemma_ascending(early);
        vstd::set_lib::lemma_len_subset(late, early);
    }

    /// Every recorded failure lies within the baseline and was rejected by the
    /// oracle.
    spec fn failures_stand(range: RangeModel, oracle: spec_fn(Set<usize>) -> bool) -> bool {
        range.passed matches Some(best) ==> forall|k: int|
            0 <= k < range.failures.len() ==> (#[trigger] range.failures[k]).subset_of(best)
                && !oracle(range.failures[k])
    }

    proof fn lemma_failures_stand(
        initial_len: nat,
        oracle: spec_fn(Set<usize>) -> bool,
        answers: Seq<bool>,
        upto: int,
    )
        requires
            follows::<Self>(initial_len, oracle, answers),
            0 <= upto <= answers.len(),
        ensures
            Self::failures_stand(run::<Self>(initial_len, answers.take(upto)), oracle),
        decreases upto,
    {
        if upto > 0 {
            Self::lemma_failures_stand(initial_len, oracle, answers, upto - 1);
            lemma_run_step::<Self>(initial_len, answers, upto - 1);
            let before = run::<Self>(initial_len, answers.take(upto - 1));
            let after = run::<Self>(initial_len, answers.take(upto));
            assert(asked::<Self>(initial_len, answers, upto - 1) is RunTest);
            let probe = before.next::<Self>()->RunTest_0;
            if before.passed is Some {
                Self::lemma_next_probe_is_new(before);
            }
            if answers[upto - 1] {
                let consistent = |f: Set<usize>| Self::prefers(probe, f);
                let kept = after.failures;
                assert forall|k: int| 0 <= k < kept.len() implies (#[trigger] kept[k]).subset_of(
                    probe,
                ) && !oracle(kept[k]) by {
                    before.failures.lemma_filter_pred(consistent, k);
                    assert(after.failures.contains(after.failures[k]));
                    before.failures.lemma_filter_contains_rev(consistent, after.failures[k]);
                    let j = choose|j: int|
                        0 <= j < before.failures.len() && before.failures[j] == after.failures[k];
                    assert(before.failures[j] == after.failures[k]);
                }
            } else if before.passed is Some {
                let more = after.failures;
                let best = before.passed->0;
                assert forall|k: int| 0 <= k < more.len() implies (#[trigger] more[k]).subset_of(
                    best,
                ) && !oracle(more[k]) by {
                    if k < before.failures.len() {
                        assert(after.failures[k] == before.failures[k]);
                    }
                }
            }
        }
    }

    /// Extremality of the minimal search: the answer is accepted by the oracle,
    /// and without any one of its positions it was probed and rejected.
    pub proof fn lemma_answer_is_one_minimal(
        initial_len: nat,
        oracle: spec_fn(Set<usize>) -> bool,
        answers: Seq<bool>,
        x: usize,
    )
        requires
            follows::<Self>(initial_len, oracle, answers),
            outcome::<Self>(initial_len, answers) matches NextModel::Done(Some(answer))
                && answer.contains(x),
        ensures
            oracle(outcome::<Self>(initial_len, answers)->Done_0->0),
            run::<Self>(initial_len, answers).failures.contains(
                outcome::<Self>(initial_len, answers)->Done_0->0.remove(x),
            ),
            !oracle(outcome::<Self>(initial_len, answers)->Done_0->0.remove(x)),
    {
        let range = run::<Self>(initial_len, answers);
        let answer = range.passed->0;
        let tried = Self::tried(range);
        let single = Set::<usize>::empty().insert(x);
        lemma_answer_satisfies::<Self>(initial_len, oracle, answers);
        Self::lemma_failures_stand(initial_len, oracle, answers, answers.len() as int);
        assert(answers.take(answers.len() as int) =~= answers);
        lemma_nothing_untried(answer, tried, x);
        let k = choose|k: int| 0 <= k < tried.len() && tried[k] == single;
        assert(tried[0] == Set::<usize>::empty());
        assert(single.contains(x));
        let failure = range.failures[k - 1];
        assert(tried[k] == answer.difference(failure));
        assert(failure =~= answer.remove(x)) by {
            assert forall|y: usize| failure.contains(y) <==> answer.remove(x).contains(y) by {
                if answer.contains(y) && !failure.contains(y) {
                    assert(single.contains(y));
                }
                if failure.contains(y) && y == x {
                    assert(!answer.difference(failure).contains(x));
                }
            }
        }
    }
}

} // verus!
