//! Whole searches: the course of the state machine under a sequence of oracle
//! verdicts, and what holds of every such course.
use crate::range::{NextModel, RangeModel, RangeStrategy};
use vstd::prelude::*;

verus! {

/// The state after the oracle gave `accepted` for the probe that `range` asks
/// for. A search that is over stays as it is.
pub open spec fn step<R: RangeStrategy>(range: RangeModel, accepted: bool) -> RangeModel {
    match range.next::<R>() {
        NextModel::RunTest(probe) => if accepted {
            range.test_passed::<R>(probe)
        } else {
            range.test_failed(probe)
        },
        NextModel::Done(_) => range,
    }
}

/// The state of a search over `initial_len` items after the oracle gave
/// `answers`, one for each probe in turn.
pub open spec fn run<R: RangeStrategy>(initial_len: nat, answers: Seq<bool>) -> RangeModel
    decreases answers.len(),
{
    if answers.len() == 0 {
        RangeModel::initial(initial_len)
    } else {
        step::<R>(run::<R>(initial_len, answers.drop_last()), answers.last())
    }
}

/// What the search asks for after the first `at` of the answers.
pub open spec fn asked<R: RangeStrategy>(
    initial_len: nat,
    answers: Seq<bool>,
    at: int,
) -> NextModel {
    run::<R>(initial_len, answers.take(at)).next::<R>()
}

/// How the search ends after all of the answers, if it ends there.
pub open spec fn outcome<R: RangeStrategy>(initial_len: nat, answers: Seq<bool>) -> NextModel {
    run::<R>(initial_len, answers).next::<R>()
}

/// Each of the answers is the verdict of `oracle` on the probe that the
/// search asked for at that point.
pub open spec fn follows<R: RangeStrategy>(
    initial_len: nat,
    oracle: spec_fn(Set<usize>) -> bool,
    answers: Seq<bool>,
) -> bool {
    forall|at: int|
        0 <= at < answers.len() ==> (#[trigger] asked::<R>(
            initial_len,
            answers,
            at,
        ) matches NextModel::RunTest(probe) && answers[at] == oracle(probe))
}

/// The probe `probe` can not be asked for again in the state `range`: it is
/// the baseline, or not preferred over the baseline, or a recorded failure.
pub open spec fn settled<R: RangeStrategy>(range: RangeModel, probe: Set<usize>) -> bool {
    match range.passed {
        Some(best) => probe == best || !R::prefers(best, probe) || range.failures.contains(probe),
        None => range.failures.contains(probe),
    }
}

/// The three parts of what a step makes smaller, most significant first:
/// whether a baseline is still missing, how far the baseline can advance, and
/// how many chunks are left to try against it.
pub open spec fn remaining<R: RangeStrategy>(range: RangeModel) -> (nat, nat, nat) {
    match range.passed {
        Some(best) => (0, R::rank(best), R::untried(range)),
        None => if range.failures.len() == 0 {
            (2, 0, 0)
        } else {
            (1, 0, 0)
        },
    }
}

/// One answer more is one step more.
pub proof fn lemma_run_step<R: RangeStrategy>(initial_len: nat, answers: Seq<bool>, at: int)
    requires
        0 <= at < answers.len(),
    ensures
        run::<R>(initial_len, answers.take(at + 1)) == step::<R>(
            run::<R>(initial_len, answers.take(at)),
            answers[at],
        ),
        at + 1 == answers.len() ==> answers.take(at + 1) == answers,
{
    assert(answers.take(at + 1).drop_last() =~= answers.take(at));
    if at + 1 == answers.len() {
        assert(answers.take(at + 1) =~= answers);
    }
}

/// A search does not change the number of items that it is over.
pub proof fn lemma_run_keeps_len<R: RangeStrategy>(initial_len: nat, answers: Seq<bool>)
    ensures
        run::<R>(initial_len, answers).initial_len == initial_len,
    decreases answers.len(),
{
    if answers.len() > 0 {
        lemma_run_keeps_len::<R>(initial_len, answers.drop_last());
    }
}

/// A probe that was asked for is settled once it is answered, and it is the
/// baseline if it was accepted.
pub proof fn lemma_answer_settles<R: RangeStrategy>(range: RangeModel, accepted: bool)
    requires
        range.next::<R>() is RunTest,
    ensures
        settled::<R>(step::<R>(range, accepted), range.next::<R>()->RunTest_0),
        accepted ==> step::<R>(range, accepted).passed == Some(range.next::<R>()->RunTest_0),
{
    let probe = range.next::<R>()->RunTest_0;
    if accepted {
        if range.passed is Some {
            R::lemma_next_probe_is_new(range);
        }
    } else {
        assert(range.test_failed(probe).failures.last() == probe);
    }
}

/// A settled probe stays settled.
proof fn lemma_settled_stays<R: RangeStrategy>(range: RangeModel, accepted: bool, probe: Set<usize>)
    requires
        settled::<R>(range, probe),
    ensures
        settled::<R>(step::<R>(range, accepted), probe),
{
    match range.next::<R>() {
        NextModel::RunTest(next) => {
            if accepted {
                match range.passed {
                    Some(best) => {
                        R::lemma_next_probe_is_new(range);
                        R::lemma_prefers_orders(best, next, probe);
                        R::lemma_prefers_orders(best, next, best);
                        if probe != best && R::prefers(best, probe) && R::prefers(next, probe) {
                            let consistent = |f: Set<usize>| R::prefers(next, f);
                            let i = choose|i: int|
                                0 <= i < range.failures.len() && range.failures[i] == probe;
                            range.failures.lemma_filter_contains(consistent, i);
                        }
                    },
                    None => {},
                }
            } else if range.failures.contains(probe) {
                let i = choose|i: int| 0 <= i < range.failures.len() && range.failures[i] == probe;
                assert(range.test_failed(next).failures[i] == probe);
            }
        },
        NextModel::Done(_) => {},
    }
}

/// What is asked for is not settled.
proof fn lemma_asked_is_open<R: RangeStrategy>(range: RangeModel, probe: Set<usize>)
    requires
        settled::<R>(range, probe),
        range.next::<R>() is RunTest,
    ensures
        range.next::<R>()->RunTest_0 != probe,
{
    if range.passed is Some {
        R::lemma_next_probe_is_new(range);
    }
}

proof fn lemma_settled_later<R: RangeStrategy>(
    initial_len: nat,
    answers: Seq<bool>,
    first: int,
    later: int,
)
    requires
        0 <= first < later <= answers.len(),
        asked::<R>(initial_len, answers, first) is RunTest,
    ensures
        settled::<R>(
            run::<R>(initial_len, answers.take(later)),
            asked::<R>(initial_len, answers, first)->RunTest_0,
        ),
    decreases later - first,
{
    lemma_run_step::<R>(initial_len, answers, later - 1);
    let before = run::<R>(initial_len, answers.take(later - 1));
    if later == first + 1 {
        lemma_answer_settles::<R>(before, answers[later - 1]);
    } else {
        lemma_settled_later::<R>(initial_len, answers, first, later - 1);
        lemma_settled_stays::<R>(
            before,
            answers[later - 1],
            asked::<R>(initial_len, answers, first)->RunTest_0,
        );
    }
}

/// No probe repeats: whatever the oracle answers, a search never asks for
/// the same subset twice.
pub proof fn lemma_no_probe_repeats<R: RangeStrategy>(
    initial_len: nat,
    answers: Seq<bool>,
    first: int,
    later: int,
)
    requires
        0 <= first < later <= answers.len(),
        asked::<R>(initial_len, answers, first) is RunTest,
        asked::<R>(initial_len, answers, later) is RunTest,
    ensures
        asked::<R>(initial_len, answers, first)->RunTest_0 != asked::<R>(
            initial_len,
            answers,
            later,
        )->RunTest_0,
{
    lemma_settled_later::<R>(initial_len, answers, first, later);
    lemma_asked_is_open::<R>(
        run::<R>(initial_len, answers.take(later)),
        asked::<R>(initial_len, answers, first)->RunTest_0,
    );
}

/// A step keeps the baseline or replaces it by one that is preferred.
proof fn lemma_step_advances<R: RangeStrategy>(range: RangeModel, accepted: bool)
    requires
        range.passed is Some,
    ensures
        step::<R>(range, accepted).passed is Some,
        R::prefers(range.passed->0, step::<R>(range, accepted).passed->0),
{
    let best = range.passed->0;
    R::lemma_prefers_orders(best, best, best);
}

/// Monotonic convergence: once there is a baseline there always is one, and
/// each later baseline is preferred over each earlier one.
pub proof fn lemma_baseline_only_advances<R: RangeStrategy>(
    initial_len: nat,
    answers: Seq<bool>,
    first: int,
    later: int,
)
    requires
        0 <= first <= later <= answers.len(),
        run::<R>(initial_len, answers.take(first)).passed is Some,
    ensures
        run::<R>(initial_len, answers.take(later)).passed is Some,
        R::prefers(
            run::<R>(initial_len, answers.take(first)).passed->0,
            run::<R>(initial_len, answers.take(later)).passed->0,
        ),
    decreases later - first,
{
    let early = run::<R>(initial_len, answers.take(first)).passed->0;
    if later == first {
        R::lemma_prefers_orders(early, early, early);
    } else {
        lemma_baseline_only_advances::<R>(initial_len, answers, first, later - 1);
        lemma_run_step::<R>(initial_len, answers, later - 1);
        let before = run::<R>(initial_len, answers.take(later - 1));
        lemma_step_advances::<R>(before, answers[later - 1]);
        R::lemma_prefers_orders(
            early,
            before.passed->0,
            run::<R>(initial_len, answers.take(later)).passed->0,
        );
    }
}

proof fn lemma_same_oracle_same_start<R: RangeStrategy>(
    initial_len: nat,
    oracle: spec_fn(Set<usize>) -> bool,
    one: Seq<bool>,
    other: Seq<bool>,
    upto: int,
)
    requires
        follows::<R>(initial_len, oracle, one),
        follows::<R>(initial_len, oracle, other),
        0 <= upto <= one.len(),
        upto <= other.len(),
    ensures
        one.take(upto) == other.take(upto),
    decreases upto,
{
    if upto == 0 {
        assert(one.take(0) =~= other.take(0));
    } else {
        lemma_same_oracle_same_start::<R>(initial_len, oracle, one, other, upto - 1);
        assert(asked::<R>(initial_len, one, upto - 1) == asked::<R>(initial_len, other, upto - 1));
        assert(one[upto - 1] == other[upto - 1]);
        assert(one.take(upto) =~= one.take(upto - 1).push(one[upto - 1]));
        assert(other.take(upto) =~= other.take(upto - 1).push(other[upto - 1]));
    }
}

/// Idempotence of the answer: an oracle that is a function of the probed
/// subset admits one course of the search only, so every search with it ends
/// in the same way.
pub proof fn lemma_search_is_deterministic<R: RangeStrategy>(
    initial_len: nat,
    oracle: spec_fn(Set<usize>) -> bool,
    one: Seq<bool>,
    other: Seq<bool>,
)
    requires
        follows::<R>(initial_len, oracle, one),
        follows::<R>(initial_len, oracle, other),
        outcome::<R>(initial_len, one) is Done,
        outcome::<R>(initial_len, other) is Done,
    ensures
        one == other,
        outcome::<R>(initial_len, one) == outcome::<R>(initial_len, other),
{
    let shared = if one.len() <= other.len() {
        one.len() as int
    } else {
        other.len() as int
    };
    lemma_same_oracle_same_start::<R>(initial_len, oracle, one, other, shared);
    assert(one.take(one.len() as int) =~= one);
    assert(other.take(other.len() as int) =~= other);
    if one.len() < other.len() {
        assert(asked::<R>(initial_len, other, shared) is RunTest);
    } else if other.len() < one.len() {
        assert(asked::<R>(initial_len, one, shared) is RunTest);
    }
}

proof fn lemma_baseline_was_accepted<R: RangeStrategy>(
    initial_len: nat,
    oracle: spec_fn(Set<usize>) -> bool,
    answers: Seq<bool>,
    upto: int,
)
    requires
        follows::<R>(initial_len, oracle, answers),
        0 <= upto <= answers.len(),
    ensures
        ({
            let range = run::<R>(initial_len, answers.take(upto));
            &&& range.passed matches Some(best) ==> oracle(best)
            &&& range.passed is None && range.failures.len() > 0 ==> !oracle(
                R::initial_probe(initial_len),
            )
        }),
    decreases upto,
{
    if upto > 0 {
        lemma_baseline_was_accepted::<R>(initial_len, oracle, answers, upto - 1);
        lemma_run_step::<R>(initial_len, answers, upto - 1);
        lemma_run_keeps_len::<R>(initial_len, answers.take(upto - 1));
        assert(asked::<R>(initial_len, answers, upto - 1) is RunTest);
    }
}

/// The answer satisfies the oracle; and where the search ends without an
/// answer, the oracle rejected the initial probe.
pub proof fn lemma_answer_satisfies<R: RangeStrategy>(
    initial_len: nat,
    oracle: spec_fn(Set<usize>) -> bool,
    answers: Seq<bool>,
)
    requires
        follows::<R>(initial_len, oracle, answers),
    ensures
        outcome::<R>(initial_len, answers) matches NextModel::Done(Some(best)) ==> oracle(best),
        outcome::<R>(initial_len, answers) == NextModel::Done(None) ==> !oracle(
            R::initial_probe(initial_len),
        ),
{
    lemma_baseline_was_accepted::<R>(initial_len, oracle, answers, answers.len() as int);
    assert(answers.take(answers.len() as int) =~= answers);
}

/// Extremality: every probe of the search that is preferred over the answer,
/// and is not the answer itself, was rejected by the oracle.
pub proof fn lemma_answer_is_extremal<R: RangeStrategy>(
    initial_len: nat,
    oracle: spec_fn(Set<usize>) -> bool,
    answers: Seq<bool>,
    at: int,
)
    requires
        follows::<R>(initial_len, oracle, answers),
        outcome::<R>(initial_len, answers) matches NextModel::Done(Some(_)),
        0 <= at < answers.len(),
        R::prefers(
            outcome::<R>(initial_len, answers)->Done_0->0,
            asked::<R>(initial_len, answers, at)->RunTest_0,
        ),
        asked::<R>(initial_len, answers, at)->RunTest_0 != outcome::<R>(
            initial_len,
            answers,
        )->Done_0->0,
    ensures
        !oracle(asked::<R>(initial_len, answers, at)->RunTest_0),
{
    let answer = outcome::<R>(initial_len, answers)->Done_0->0;
    let probe = asked::<R>(initial_len, answers, at)->RunTest_0;
    assert(asked::<R>(initial_len, answers, at) is RunTest);
    if answers[at] {
        lemma_run_step::<R>(initial_len, answers, at);
        lemma_answer_settles::<R>(run::<R>(initial_len, answers.take(at)), true);
        lemma_baseline_only_advances::<R>(initial_len, answers, at + 1, answers.len() as int);
        assert(answers.take(answers.len() as int) =~= answers);
        R::lemma_prefers_orders(answer, probe, answer);
    }
}

/// Each answered probe brings the search nearer to its end.
pub proof fn lemma_step_nears_end<R: RangeStrategy>(range: RangeModel, accepted: bool)
    requires
        range.next::<R>() is RunTest,
    ensures
        ({
            let before = remaining::<R>(range);
            let after = remaining::<R>(step::<R>(range, accepted));
            after.0 < before.0 || (after.0 == before.0 && (after.1 < before.1 || (after.1
                == before.1 && after.2 < before.2)))
        }),
{
    if range.passed is Some {
        R::lemma_next_probe_is_new(range);
        if accepted {
            R::lemma_rank_falls(range.passed->0, range.next::<R>()->RunTest_0);
        }
    }
}

/// From any point of a search on, answers chosen by `policy` from the answers
/// before them bring the search to its end.
proof fn lemma_finishes<R: RangeStrategy>(
    initial_len: nat,
    answers: Seq<bool>,
    policy: spec_fn(Seq<bool>) -> bool,
) -> (all: Seq<bool>)
    ensures
        answers.len() <= all.len(),
        all.take(answers.len() as int) == answers,
        outcome::<R>(initial_len, all) is Done,
        forall|at: int|
            answers.len() <= at < all.len() ==> all[at] == policy(all.take(at))
                && #[trigger] asked::<R>(initial_len, all, at) is RunTest,
    decreases
        remaining::<R>(run::<R>(initial_len, answers)).0,
        remaining::<R>(run::<R>(initial_len, answers)).1,
        remaining::<R>(run::<R>(initial_len, answers)).2,
{
    let range = run::<R>(initial_len, answers);
    if range.next::<R>() is Done {
        assert(answers.take(answers.len() as int) =~= answers);
        answers
    } else {
        let longer = answers.push(policy(answers));
        assert(longer.drop_last() =~= answers);
        lemma_step_nears_end::<R>(range, policy(answers));
        let all = lemma_finishes::<R>(initial_len, longer, policy);
        assert(all.take(answers.len() as int) =~= all.take(longer.len() as int).take(
            answers.len() as int,
        ));
        assert(longer.take(answers.len() as int) =~= answers);
        assert(all[answers.len() as int] == all.take(longer.len() as int)[answers.len() as int]);
        all
    }
}

/// Termination: whatever verdicts the oracle gives, in whatever order, the
/// search is over after finitely many of them.
pub proof fn lemma_search_terminates<R: RangeStrategy>(
    initial_len: nat,
    verdicts: spec_fn(nat) -> bool,
) -> (count: nat)
    ensures
        outcome::<R>(initial_len, Seq::new(count, |at: int| verdicts(at as nat))) is Done,
{
    let policy = |before: Seq<bool>| verdicts(before.len());
    let all = lemma_finishes::<R>(initial_len, Seq::empty(), policy);
    assert forall|at: int| 0 <= at < all.len() implies all[at] == verdicts(at as nat) by {
        assert(asked::<R>(initial_len, all, at) is RunTest);
    }
    assert(all =~= Seq::new(all.len(), |at: int| verdicts(at as nat)));
    all.len()
}

/// Every oracle admits a search that follows it to the end.
pub proof fn lemma_search_has_an_end<R: RangeStrategy>(
    initial_len: nat,
    oracle: spec_fn(Set<usize>) -> bool,
) -> (answers: Seq<bool>)
    ensures
        follows::<R>(initial_len, oracle, answers),
        outcome::<R>(initial_len, answers) is Done,
{
    let policy = |before: Seq<bool>| oracle(run::<R>(initial_len, before).next::<R>()->RunTest_0);
    lemma_finishes::<R>(initial_len, Seq::empty(), policy)
}

} // verus!
