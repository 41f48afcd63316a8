//! The search driver: it asks the state machine what to probe, hands the
//! probed items to the oracle, and reports the verdict back, until the state
//! machine is done.
use crate::indices::{kept, SelectIndices};
use crate::range::{NextModel, Range, RangeNext, RangeStrategy};
use crate::run::{
    asked, follows, lemma_search_is_deterministic, lemma_step_nears_end, outcome, remaining, run,
};
use vstd::prelude::*;

verus! {

/// A search driver around an oracle, which says of a sequence of items
/// whether it is accepted.
pub struct Searcher<F> {
    oracle: F,
}

/// The items that were found, if any were.
pub open spec fn found_items(found: Option<Vec<String>>) -> Option<Seq<String>> {
    match found {
        Some(items) => Some(items@),
        None => None,
    }
}

impl<F: Fn(&[String]) -> bool> Searcher<F> {
    /// The oracle that the searcher asks.
    pub closed spec fn oracle(&self) -> F {
        self.oracle
    }

    /// The oracle can be asked about every selection of the items of `full`.
    pub open spec fn answers_within(&self, full: Seq<String>) -> bool {
        forall|items: &[String], indices: Set<usize>|
            #![trigger call_requires(self.oracle(), (items,)), kept(full, indices)]
            items@ == kept(full, indices) ==> call_requires(self.oracle(), (items,))
    }

    /// The verdict of the oracle depends on the items alone, as `verdict` says.
    pub open spec fn decides_by(&self, verdict: spec_fn(Seq<String>) -> bool) -> bool {
        forall|items: &[String], accepted: bool|
            call_ensures(self.oracle(), (items,), accepted) ==> accepted == verdict(items@)
    }

    /// `verdict` is an answer that the oracle can give for `items`.
    pub open spec fn can_answer(&self, items: Seq<String>, verdict: bool) -> bool {
        exists|probe: &[String]| probe@ == items && call_ensures(self.oracle(), (probe,), verdict)
    }

    /// `answers` are verdicts of the oracle on the probes of a search over
    /// `full`, in the order in which the search asks for them.
    pub open spec fn heard<R: RangeStrategy>(&self, full: Seq<String>, answers: Seq<bool>) -> bool {
        forall|at: int|
            0 <= at < answers.len() ==> (#[trigger] asked::<R>(
                full.len(),
                answers,
                at,
            ) matches NextModel::RunTest(probe) && self.can_answer(kept(full, probe), answers[at]))
    }

    /// `found` is how a search over `full` ends after it heard `answers`.
    pub open spec fn finds<R: RangeStrategy>(
        &self,
        full: Seq<String>,
        answers: Seq<bool>,
        found: Option<Seq<String>>,
    ) -> bool {
        &&& self.heard::<R>(full, answers)
        &&& outcome::<R>(full.len(), answers) matches NextModel::Done(answer)
        &&& found == match answer {
            Some(indices) => Some(kept(full, indices)),
            None => None,
        }
    }

    /// With an oracle that decides by the items alone, the answers that a
    /// search hears are those of a function of the probed positions.
    pub proof fn lemma_heard_follows<R: RangeStrategy>(
        &self,
        full: Seq<String>,
        verdict: spec_fn(Seq<String>) -> bool,
        answers: Seq<bool>,
    )
        requires
            self.decides_by(verdict),
            self.heard::<R>(full, answers),
        ensures
            follows::<R>(full.len(), |indices: Set<usize>| verdict(kept(full, indices)), answers),
    {
        let oracle = |indices: Set<usize>| verdict(kept(full, indices));
        assert forall|at: int| 0 <= at < answers.len() implies (#[trigger] asked::<R>(
            full.len(),
            answers,
            at,
        ) matches NextModel::RunTest(probe) && answers[at] == oracle(probe)) by {
            let probe = asked::<R>(full.len(), answers, at)->RunTest_0;
            let items = choose|items: &[String]|
                items@ == kept(full, probe) && call_ensures(self.oracle(), (items,), answers[at]);
            assert(answers[at] == verdict(items@));
        }
    }

    /// What a search heard, and the verdict on the probe that it asks for next,
    /// is what a search heard as well.
    pub proof fn lemma_heard_more<R: RangeStrategy>(
        &self,
        full: Seq<String>,
        answers: Seq<bool>,
        verdict: bool,
    )
        requires
            self.heard::<R>(full, answers),
            outcome::<R>(full.len(), answers) matches NextModel::RunTest(probe) && self.can_answer(
                kept(full, probe),
                verdict,
            ),
        ensures
            self.heard::<R>(full, answers.push(verdict)),
    {
        let longer = answers.push(verdict);
        assert forall|at: int| 0 <= at < longer.len() implies (#[trigger] asked::<R>(
            full.len(),
            longer,
            at,
        ) matches NextModel::RunTest(probe) && self.can_answer(kept(full, probe), longer[at])) by {
            if at < answers.len() {
                assert(longer.take(at) =~= answers.take(at));
                assert(asked::<R>(full.len(), answers, at) is RunTest);
            } else {
                assert(longer.take(at) =~= answers);
            }
        }
    }

    /// Idempotence of the answer: with an oracle that decides by the items
    /// alone, every search over the same items hears the same answers and
    /// finds the same.
    pub proof fn lemma_found_is_unique<R: RangeStrategy>(
        &self,
        full: Seq<String>,
        verdict: spec_fn(Seq<String>) -> bool,
        one: (Seq<bool>, Option<Seq<String>>),
        other: (Seq<bool>, Option<Seq<String>>),
    )
        requires
            self.decides_by(verdict),
            self.finds::<R>(full, one.0, one.1),
            self.finds::<R>(full, other.0, other.1),
        ensures
            one == other,
    {
        let oracle = |indices: Set<usize>| verdict(kept(full, indices));
        self.lemma_heard_follows::<R>(full, verdict, one.0);
        self.lemma_heard_follows::<R>(full, verdict, other.0);
        lemma_search_is_deterministic::<R>(full.len(), oracle, one.0, other.0);
    }

    /// A searcher that asks `oracle`.
    pub fn new(oracle: F) -> (searcher: Self)
        ensures
            searcher.oracle() == oracle,
    {
        Searcher { oracle }
    }

    /// Asks the oracle whether it accepts `test_lines`.
    pub fn test(&mut self, test_lines: &[String]) -> (accepted: bool)
        requires
            call_requires(old(self).oracle(), (test_lines,)),
        ensures
            call_ensures(old(self).oracle(), (test_lines,), accepted),
            final(self).oracle() == old(self).oracle(),
    {
        (self.oracle)(test_lines)
    }

    /// Searches `full` in the direction `R` for an extremal subsequence that
    /// the oracle accepts. Returns nothing when the oracle rejects the
    /// initial probe.
    pub fn search<R: RangeStrategy>(&mut self, full: Vec<String>) -> (found: Option<Vec<String>>)
        requires
            old(self).answers_within(full@),
        ensures
            final(self).oracle() == old(self).oracle(),
            exists|answers: Seq<bool>| old(self).finds::<R>(full@, answers, found_items(found)),
    {
        let mut range = Range::<R>::new(full.len());
        let ghost mut answers: Seq<bool> = Seq::empty();
        loop
            invariant
                self.oracle() == old(self).oracle(),
                self.answers_within(full@),
                range@ == run::<R>(full@.len(), answers),
                self.heard::<R>(full@, answers),
            decreases
                remaining::<R>(range@).0,
                remaining::<R>(range@).1,
                remaining::<R>(range@).2,
        {
            match range.next() {
                RangeNext::Done(answer) => {
                    let found = match answer {
                        Some(indices) => Some(full.select_indices(&indices)),
                        None => None,
                    };
                    assert(old(self).finds::<R>(full@, answers, found_items(found)));
                    return found;
                },
                RangeNext::RunTest(indices) => {
                    let probe = full.clone().select_indices(&indices);
                    let test_lines = probe.as_slice();
                    let accepted = self.test(test_lines);
                    proof {
                        assert(self.can_answer(kept(full@, indices@), accepted)) by {
                            assert(test_lines@ == kept(full@, indices@));
                        }
                        self.lemma_heard_more::<R>(full@, answers, accepted);
                        lemma_step_nears_end::<R>(range@, accepted);
                        assert(answers.push(accepted).drop_last() =~= answers);
                        answers = answers.push(accepted);
                    }
                    if accepted {
                        range.test_passed(indices);
                    } else {
                        range.test_failed(indices);
                    }
                },
            }
        }
    }
}

} // verus!
