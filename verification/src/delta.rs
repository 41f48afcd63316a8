//! The delta search that both directions share: halve a list of sources and
//! pick the first half that has not been tried yet.
use crate::indices::{
    contains_indices, halve, lemma_ascending, lemma_halves, lower_half, opt_view, upper_half,
    views, Indices,
};
use vstd::prelude::*;
use vstd::set_lib::FiniteFull;

verus! {

/// The halves of each source, lower before upper, source by source.
pub open spec fn halves_of(sources: Seq<Set<usize>>) -> Seq<Set<usize>> {
    Seq::new(
        2 * sources.len(),
        |i: int|
            if i % 2 == 0 {
                lower_half(sources[i / 2])
            } else {
                upper_half(sources[i / 2])
            },
    )
}

/// The first of `chunks` that `tried` does not hold.
pub open spec fn first_untried(chunks: Seq<Set<usize>>, tried: Seq<Set<usize>>) -> Option<
    Set<usize>,
>
    decreases chunks.len(),
{
    if chunks.len() == 0 {
        None
    } else if !tried.contains(chunks[0]) {
        Some(chunks[0])
    } else {
        first_untried(chunks.drop_first(), tried)
    }
}

/// The chunk to try next: the sources are `first_source` and then every chunk
/// tried so far, and the answer is the first half of a source that has not
/// been tried.
pub open spec fn untried_chunk(first_source: Set<usize>, tried: Seq<Set<usize>>) -> Option<
    Set<usize>,
> {
    first_untried(halves_of(seq![first_source] + tried), tried)
}

/// How many index sets are not in `tried`.
pub open spec fn untried_count(tried: Seq<Set<usize>>) -> nat {
    Set::<Set<usize>>::full().difference(tried.to_set()).len()
}

/// `first_untried` finds the entry at `at` when that one is untried and all
/// before it are tried.
pub proof fn lemma_first_untried_at(chunks: Seq<Set<usize>>, tried: Seq<Set<usize>>, at: int)
    requires
        0 <= at < chunks.len(),
        !tried.contains(chunks[at]),
        forall|j: int| 0 <= j < at ==> tried.contains(#[trigger] chunks[j]),
    ensures
        first_untried(chunks, tried) == Some(chunks[at]),
    decreases chunks.len(),
{
    if at > 0 {
        let rest = chunks.drop_first();
        assert(tried.contains(chunks[0]));
        assert forall|j: int| 0 <= j < at - 1 implies tried.contains(#[trigger] rest[j]) by {
            assert(rest[j] == chunks[j + 1]);
        }
        assert(rest[at - 1] == chunks[at]);
        lemma_first_untried_at(rest, tried, at - 1);
    }
}

/// What `first_untried` returns is an untried entry with only tried entries
/// before it, and it returns nothing only when every entry is tried.
pub proof fn lemma_first_untried(chunks: Seq<Set<usize>>, tried: Seq<Set<usize>>)
    ensures
        match first_untried(chunks, tried) {
            Some(c) => !tried.contains(c) && exists|at: int|
                0 <= at < chunks.len() && #[trigger] chunks[at] == c && forall|j: int|
                    0 <= j < at ==> tried.contains(#[trigger] chunks[j]),
            None => forall|j: int| 0 <= j < chunks.len() ==> tried.contains(#[trigger] chunks[j]),
        },
    decreases chunks.len(),
{
    if chunks.len() == 0 {
    } else if !tried.contains(chunks[0]) {
        assert(chunks[0] == chunks[0]);
    } else {
        let rest = chunks.drop_first();
        lemma_first_untried(rest, tried);
        match first_untried(rest, tried) {
            Some(c) => {
                let at = choose|at: int|
                    0 <= at < rest.len() && #[trigger] rest[at] == c && forall|j: int|
                        0 <= j < at ==> tried.contains(#[trigger] rest[j]);
                assert(chunks[at + 1] == c);
                assert forall|j: int| 0 <= j < at + 1 implies tried.contains(
                    #[trigger] chunks[j],
                ) by {
                    if j > 0 {
                        assert(rest[j - 1] == chunks[j]);
                    }
                }
            },
            None => {
                assert forall|j: int| 0 <= j < chunks.len() implies tried.contains(
                    #[trigger] chunks[j],
                ) by {
                    if j > 0 {
                        assert(rest[j - 1] == chunks[j]);
                    }
                }
            },
        }
    }
}

/// The chunk to try next is new, and it is part of the first source or of a
/// chunk tried before.
pub proof fn lemma_untried_chunk(first_source: Set<usize>, tried: Seq<Set<usize>>)
    requires
        untried_chunk(first_source, tried) is Some,
    ensures
        ({
            let chunk = untried_chunk(first_source, tried)->0;
            &&& !tried.contains(chunk)
            &&& chunk.subset_of(first_source) || exists|k: int|
                0 <= k < tried.len() && chunk.subset_of(#[trigger] tried[k])
        }),
{
    let sources = seq![first_source] + tried;
    let chunks = halves_of(sources);
    lemma_first_untried(chunks, tried);
    let chunk = untried_chunk(first_source, tried)->0;
    let at = choose|at: int|
        0 <= at < chunks.len() && #[trigger] chunks[at] == chunk && forall|j: int|
            0 <= j < at ==> tried.contains(#[trigger] chunks[j]);
    let source = sources[at / 2];
    lemma_halves(source);
    assert(chunk.subset_of(source));
    if at / 2 > 0 {
        assert(source == tried[at / 2 - 1]);
    }
}

/// Within a source whose halves are all tried, and the halves of those, every
/// single position has been tried by itself.
proof fn lemma_halved_to_singles(
    first_source: Set<usize>,
    tried: Seq<Set<usize>>,
    source_at: int,
    x: usize,
)
    requires
        untried_chunk(first_source, tried) is None,
        0 <= source_at <= tried.len(),
        (seq![first_source] + tried)[source_at].contains(x),
    ensures
        tried.contains(Set::<usize>::empty().insert(x)),
    decreases (seq![first_source] + tried)[source_at].len(),
{
    let sources = seq![first_source] + tried;
    let chunks = halves_of(sources);
    let source = sources[source_at];
    let single = Set::<usize>::empty().insert(x);
    lemma_first_untried(chunks, tried);
    lemma_halves(source);
    lemma_ascending(source);
    let lower = lower_half(source);
    let upper = upper_half(source);
    assert(chunks[2 * source_at] == lower);
    assert(chunks[2 * source_at + 1] == upper);
    assert(tried.contains(lower));
    assert(tried.contains(upper));
    assert(lower.contains(x) || upper.contains(x)) by {
        assert(lower.union(upper).contains(x));
    }
    assert(source.len() >= 1) by {
        if source.len() == 0 {
            assert(source.is_empty());
        }
    }
    if source.len() == 1 {
        assert(lower.is_empty());
        assert(upper =~= source);
        assert(source =~= single) by {
            assert(source.remove(x).len() == 0);
            assert(source.remove(x).is_empty());
            assert forall|y: usize| source.contains(y) implies y == x by {
                if y != x {
                    assert(source.remove(x).contains(y));
                }
            }
        }
    } else {
        let half = if lower.contains(x) {
            lower
        } else {
            upper
        };
        let k = choose|k: int| 0 <= k < tried.len() && tried[k] == half;
        assert(sources[k + 1] == half);
        lemma_halved_to_singles(first_source, tried, k + 1, x);
    }
}

/// When no chunk is left to try, every single position of the first source
/// has been tried by itself.
pub proof fn lemma_nothing_untried(first_source: Set<usize>, tried: Seq<Set<usize>>, x: usize)
    requires
        untried_chunk(first_source, tried) is None,
        first_source.contains(x),
    ensures
        tried.contains(Set::<usize>::empty().insert(x)),
{
    lemma_halved_to_singles(first_source, tried, 0, x);
}

/// The sets of positions that lie within `s`.
spec fn subsets_of(s: Set<usize>) -> Set<Set<usize>> {
    Set::new(|c: Set<usize>| c.subset_of(s))
}

proof fn lemma_subsets_finite(s: Set<usize>)
    requires
        s.finite(),
    ensures
        subsets_of(s).finite(),
    decreases s.len(),
{
    if s.is_empty() {
        let none = Set::<usize>::empty();
        assert forall|c: Set<usize>| subsets_of(s).contains(c) implies c == none by {
            assert(c =~= none);
        }
        assert(subsets_of(s) =~= Set::<Set<usize>>::empty().insert(none));
    } else {
        let a = s.choose();
        let rest = s.remove(a);
        lemma_subsets_finite(rest);
        let without = subsets_of(rest);
        let with = without.map(|c: Set<usize>| c.insert(a));
        without.lemma_map_finite(|c: Set<usize>| c.insert(a));
        assert forall|c: Set<usize>| subsets_of(s).contains(c) implies without.union(with).contains(
            c,
        ) by {
            if c.contains(a) {
                let smaller = c.remove(a);
                assert(smaller.subset_of(rest));
                assert(without.contains(smaller));
                assert(smaller.insert(a) =~= c);
            } else {
                assert(c.subset_of(rest));
            }
        }
        assert forall|c: Set<usize>| without.union(with).contains(c) implies subsets_of(s).contains(
            c,
        ) by {
            if with.contains(c) {
                let smaller = choose|x: Set<usize>| without.contains(x) && c == x.insert(a);
                assert(c.subset_of(s));
            } else {
                assert(c.subset_of(rest));
            }
        }
        assert(subsets_of(s) =~= without.union(with));
    }
}

/// There are only finitely many sets of positions.
pub proof fn lemma_index_sets_finite()
    ensures
        Set::<Set<usize>>::full().finite(),
{
    usize::full_properties();
    lemma_subsets_finite(Set::<usize>::full());
    assert(Set::<Set<usize>>::full() =~= subsets_of(Set::<usize>::full()));
}

/// Trying one more chunk leaves fewer untried.
pub proof fn lemma_untried_shrinks(tried: Seq<Set<usize>>, chunk: Set<usize>)
    requires
        !tried.contains(chunk),
    ensures
        untried_count(tried.push(chunk)) < untried_count(tried),
{
    lemma_index_sets_finite();
    let all = Set::<Set<usize>>::full();
    let before = all.difference(tried.to_set());
    let after = all.difference(tried.push(chunk).to_set());
    tried.lemma_push_to_set_commute(chunk);
    assert(after =~= before.remove(chunk));
    assert(before.contains(chunk));
}

/// Halves the sources in order and returns the first half that is not among
/// `tried`, or nothing when every half has been tried.
pub fn next_chunk(first_source: &Indices, tried: &Vec<Indices>) -> (chunk: Option<Indices>)
    ensures
        opt_view(chunk) == untried_chunk(first_source@, views(tried@)),
{
    let ghost sources = seq![first_source@] + views(tried@);
    let ghost chunks = halves_of(sources);
    let (lower, upper) = halve(first_source);
    if !contains_indices(tried, &lower) {
        proof {
            lemma_first_untried_at(chunks, views(tried@), 0);
        }
        return Some(lower);
    }
    if !contains_indices(tried, &upper) {
        proof {
            lemma_first_untried_at(chunks, views(tried@), 1);
        }
        return Some(upper);
    }
    for k in 0..tried.len()
        invariant
            sources == seq![first_source@] + views(tried@),
            chunks == halves_of(sources),
            forall|j: int| 0 <= j < 2 * (k + 1) ==> views(tried@).contains(#[trigger] chunks[j]),
    {
        let (lower, upper) = halve(&tried[k]);
        assert(sources[k + 1] == tried@[k as int]@);
        assert(chunks[2 * (k + 1)] == lower@);
        assert(chunks[2 * (k + 1) + 1] == upper@);
        if !contains_indices(tried, &lower) {
            proof {
                lemma_first_untried_at(chunks, views(tried@), 2 * (k + 1));
            }
            return Some(lower);
        }
        if !contains_indices(tried, &upper) {
            proof {
                lemma_first_untried_at(chunks, views(tried@), 2 * (k + 1) + 1);
            }
            return Some(upper);
        }
    }
    proof {
        lemma_first_untried(chunks, views(tried@));
    }
    None
}

} // verus!
