//! The search state machine: the best satisfying subset seen so far and the
//! probes that failed since, which together decide what is probed next.
use crate::indices::{duplicate, opt_view, views, Indices};
use std::marker::PhantomData;
use vstd::prelude::*;

pub use self::RangeNext::{Done, RunTest};

verus! {

/// What a `Range` holds, as plain sets.
pub struct RangeModel {
    /// The most extreme probe that satisfied the oracle, if any did.
    pub passed: Option<Set<usize>>,
    /// The probes that failed, oldest first, as far as they still matter.
    pub failures: Seq<Set<usize>>,
    /// The number of items that are searched.
    pub initial_len: nat,
}

/// What a `RangeNext` holds, as plain sets.
pub enum NextModel {
    /// The subset to probe.
    RunTest(Set<usize>),
    /// The answer of a search that is over.
    Done(Option<Set<usize>>),
}

impl RangeModel {
    /// The state in which a search starts.
    pub open spec fn initial(initial_len: nat) -> RangeModel {
        RangeModel { passed: None, failures: Seq::empty(), initial_len }
    }

    /// The state after `probe` failed: it joins the failures.
    pub open spec fn test_failed(self, probe: Set<usize>) -> RangeModel {
        RangeModel { failures: self.failures.push(probe), ..self }
    }

    /// The state after `probe` passed. It becomes the baseline unless there is
    /// one already that it does not improve on; a new baseline drops the
    /// failures that are not consistent with it.
    pub open spec fn test_passed<R: RangeStrategy>(self, probe: Set<usize>) -> RangeModel {
        if self.passed matches Some(best) && !R::prefers(best, probe) {
            self
        } else {
            RangeModel {
                passed: Some(probe),
                failures: self.failures.filter(|f: Set<usize>| R::prefers(probe, f)),
                initial_len: self.initial_len,
            }
        }
    }

    /// What the search does next in this state.
    pub open spec fn next<R: RangeStrategy>(self) -> NextModel {
        match self.passed {
            Some(best) => match R::next_probe(self) {
                Some(probe) => NextModel::RunTest(probe),
                None => NextModel::Done(Some(best)),
            },
            None => if self.failures.len() == 0 {
                NextModel::RunTest(R::initial_probe(self.initial_len))
            } else {
                NextModel::Done(None)
            },
        }
    }
}

/// The state of one search over `initial_len` items, in the direction `R`.
pub struct Range<R> {
    /// The most extreme probe that satisfied the oracle, if any did.
    pub passed: Option<Indices>,
    /// The probes that failed, oldest first, as far as they still matter.
    pub failures: Vec<Indices>,
    /// The number of items that are searched.
    pub initial_len: usize,
    /// The direction, which holds no data.
    pub _strategy: PhantomData<R>,
}

impl<R> View for Range<R> {
    type V = RangeModel;

    open spec fn view(&self) -> RangeModel {
        RangeModel {
            passed: opt_view(self.passed),
            failures: views(self.failures@),
            initial_len: self.initial_len as nat,
        }
    }
}

/// What the caller of `Range::next` has to do.
#[derive(PartialEq, Eq, Debug)]
pub enum RangeNext {
    /// Evaluate the oracle on this subset and report the outcome.
    RunTest(Indices),
    /// The search is over: with the extremal subset, or with nothing when the
    /// first probe failed.
    Done(Option<Indices>),
}

impl View for RangeNext {
    type V = NextModel;

    open spec fn view(&self) -> NextModel {
        match self {
            RangeNext::RunTest(probe) => NextModel::RunTest(probe@),
            RangeNext::Done(answer) => NextModel::Done(opt_view(*answer)),
        }
    }
}

/// A direction of search: which probe comes first, when a passing probe
/// replaces the baseline, and which probe follows from a baseline and the
/// failures recorded against it.
pub trait RangeStrategy: Sized {
    /// Whether `candidate` should replace `best` as the baseline. The same
    /// relation decides which failures stay when the baseline changes.
    spec fn prefers(best: Set<usize>, candidate: Set<usize>) -> bool;

    /// The first probe of a search over `initial_len` items.
    spec fn initial_probe(initial_len: nat) -> Set<usize>;

    /// The probe that follows in a state with a baseline, or nothing when the
    /// baseline cannot be improved by further halving.
    spec fn next_probe(range: RangeModel) -> Option<Set<usize>>;

    /// A bound on how many more times a baseline can be replaced.
    spec fn rank(best: Set<usize>) -> nat;

    /// A bound on how many more probes can fail against the current baseline.
    spec fn untried(range: RangeModel) -> nat;

    /// `prefers` orders the index sets: it is reflexive, transitive and
    /// antisymmetric.
    proof fn lemma_prefers_orders(a: Set<usize>, b: Set<usize>, c: Set<usize>)
        ensures
            Self::prefers(a, a),
            Self::prefers(a, b) && Self::prefers(b, c) ==> Self::prefers(a, c),
            Self::prefers(a, b) && Self::prefers(b, a) ==> a == b,
    ;

    /// A baseline that is replaced by a different one loses rank.
    proof fn lemma_rank_falls(best: Set<usize>, candidate: Set<usize>)
        requires
            Self::prefers(best, candidate),
            best != candidate,
        ensures
            Self::rank(candidate) < Self::rank(best),
    ;

    /// The next probe is preferred over the baseline and differs from it and
    /// from every recorded failure; if it fails, fewer chunks are left to try.
    proof fn lemma_next_probe_is_new(range: RangeModel)
        requires
            range.passed is Some,
            Self::next_probe(range) is Some,
        ensures
            Self::prefers(range.passed->0, Self::next_probe(range)->0),
            Self::next_probe(range)->0 != range.passed->0,
            !range.failures.contains(Self::next_probe(range)->0),
            Self::untried(range.test_failed(Self::next_probe(range)->0)) < Self::untried(range),
    ;

    /// Whether `new_indices` should replace the baseline `last_passed`; and,
    /// of a failure `new_indices`, whether it stays on record under the new
    /// baseline `last_passed`.
    fn retain_indices(last_passed: &Indices, new_indices: &Indices) -> (retain: bool)
        ensures
            retain == Self::prefers(last_passed@, new_indices@),
    ;

    /// The first probe of the search.
    fn initial_test(range: &Range<Self>) -> (probe: Indices)
        ensures
            probe@ == Self::initial_probe(range@.initial_len),
    ;

    /// The probe that follows from the baseline and the failures recorded
    /// against it, or nothing when the search is over.
    fn next_indices(range: &Range<Self>) -> (probe: Option<Indices>)
        requires
            range.passed is Some,
        ensures
            opt_view(probe) == Self::next_probe(range@),
    ;

    /// A search in this direction over `initial_len` items.
    fn new(initial_len: usize) -> (range: Range<Self>)
        ensures
            range@ == RangeModel::initial(initial_len as nat),
    {
        Range::<Self>::new(initial_len)
    }
}

impl<R> Range<R> {
    /// A search over `initial_len` items that has probed nothing yet.
    pub fn new(initial_len: usize) -> (range: Range<R>)
        ensures
            range@ == RangeModel::initial(initial_len as nat),
    {
        let range = Range {
            passed: None,
            failures: Vec::new(),
            initial_len,
            _strategy: PhantomData,
        };
        assert(range@.failures =~= Seq::empty());
        range
    }
}

impl<R: RangeStrategy> Range<R> {
    /// Records that the probe `included_indices` satisfied the oracle.
    pub fn test_passed(&mut self, included_indices: Indices)
        ensures
            final(self)@ == old(self)@.test_passed::<R>(included_indices@),
    {
        let advances = match &self.passed {
            None => true,
            Some(best) => R::retain_indices(best, &included_indices),
        };
        if advances {
            let ghost consistent = |f: Set<usize>| R::prefers(included_indices@, f);
            let ghost before = views(self.failures@);
            let mut earlier: Vec<Indices> = Vec::new();
            core::mem::swap(&mut self.failures, &mut earlier);
            let mut retained: Vec<Indices> = Vec::new();
            proof {
                reveal(Seq::filter);
                assert(before.take(0) =~= Seq::empty());
                assert(views(retained@) =~= before.take(0).filter(consistent));
            }
            for failure in it: earlier.into_iter()
                invariant
                    it.seq() == earlier@,
                    before == views(earlier@),
                    consistent == |f: Set<usize>| R::prefers(included_indices@, f),
                    views(retained@) == before.take(it.index()).filter(consistent),
                    it.index() == it.seq().len() ==> views(retained@) == before.filter(consistent),
            {
                proof {
                    let at = it.index();
                    assert(before.take(at + 1) =~= before.take(at).push(failure@));
                    before.take(at).lemma_filter_push(failure@, consistent);
                    if at + 1 == before.len() {
                        assert(before.take(at + 1) =~= before);
                    }
                }
                let ghost shorter = views(retained@);
                if R::retain_indices(&included_indices, &failure) {
                    retained.push(failure);
                    assert(views(retained@) =~= shorter.push(failure@));
                }
            }
            self.failures = retained;
            self.passed = Some(included_indices);
        }
    }

    /// Records that the probe `indices` did not satisfy the oracle.
    pub fn test_failed(&mut self, indices: Indices)
        ensures
            final(self)@ == old(self)@.test_failed(indices@),
    {
        self.failures.push(indices);
        assert(views(self.failures@) =~= views(old(self).failures@).push(indices@));
    }

    /// What to do next: probe a subset, or stop with the answer. The state is
    /// not changed.
    pub fn next(&self) -> (action: RangeNext)
        ensures
            action@ == self@.next::<R>(),
    {
        match &self.passed {
            Some(best) => match R::next_indices(self) {
                Some(probe) => RangeNext::RunTest(probe),
                None => RangeNext::Done(Some(duplicate(best))),
            },
            None => if self.failures.len() == 0 {
                RangeNext::RunTest(R::initial_test(self))
            } else {
                RangeNext::Done(None)
            },
        }
    }
}

} // verus!
