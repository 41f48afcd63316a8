//! Sets of positions in the searched sequence, and the operations on them that
//! the search needs: comparison, union, difference, halving, and projection of
//! an index set onto a sequence.
use std::collections::HashSet;
use vstd::prelude::*;

verus! {

/// A set of positions. Two index sets are equal when they hold the same positions.
pub type Indices = HashSet<usize>;

/// The positions `0..n`.
pub open spec fn universe(n: nat) -> Set<usize> {
    Set::new(|i: usize| (i as nat) < n)
}

/// What an optional index set holds.
pub open spec fn opt_view(o: Option<Indices>) -> Option<Set<usize>> {
    match o {
        Some(s) => Some(s@),
        None => None,
    }
}

/// What a list of index sets holds, entry by entry.
pub open spec fn views(list: Seq<Indices>) -> Seq<Set<usize>> {
    list.map_values(|s: Indices| s@)
}

/// Each element is smaller than every later one.
pub open spec fn strictly_ascending(v: Seq<usize>) -> bool {
    forall|i: int, j: int| 0 <= i < j < v.len() ==> v[i] < v[j]
}

/// `v` lists exactly the members of `s`, smallest first.
pub open spec fn enumerates(v: Seq<usize>, s: Set<usize>) -> bool {
    strictly_ascending(v) && v.to_set() == s
}

/// The members of `s` in ascending order.
pub open spec fn ascending(s: Set<usize>) -> Seq<usize> {
    choose|v: Seq<usize>| enumerates(v, s)
}

/// The smaller half of `s`: its first `|s| / 2` members in ascending order.
pub open spec fn lower_half(s: Set<usize>) -> Set<usize> {
    ascending(s).take((s.len() / 2) as int).to_set()
}

/// The larger half of `s`: what remains when the lower half is taken away.
pub open spec fn upper_half(s: Set<usize>) -> Set<usize> {
    ascending(s).skip((s.len() / 2) as int).to_set()
}

/// The items whose positions are in `indices`, in the order in which they stand.
pub open spec fn kept<T>(items: Seq<T>, indices: Set<usize>) -> Seq<T> {
    ascending(indices.intersect(universe(items.len()))).map_values(|i: usize| items[i as int])
}

/// The items whose positions are not in `indices`, in the order in which they stand.
pub open spec fn dropped<T>(items: Seq<T>, indices: Set<usize>) -> Seq<T> {
    kept(items, indices.complement())
}

/// The members of `s` below `bound`, smallest first.
spec fn members_below(s: Set<usize>, bound: nat) -> Seq<usize>
    decreases bound,
{
    if bound == 0 {
        Seq::empty()
    } else {
        let rest = members_below(s, (bound - 1) as nat);
        if bound - 1 <= usize::MAX && s.contains((bound - 1) as usize) {
            rest.push((bound - 1) as usize)
        } else {
            rest
        }
    }
}

proof fn lemma_members_below(s: Set<usize>, bound: nat)
    ensures
        strictly_ascending(members_below(s, bound)),
        forall|x: usize|
            #![trigger members_below(s, bound).contains(x)]
            #![trigger s.contains(x)]
            members_below(s, bound).contains(x) <==> s.contains(x) && x < bound,
    decreases bound,
{
    if bound > 0 {
        let rest = members_below(s, (bound - 1) as nat);
        lemma_members_below(s, (bound - 1) as nat);
        if bound - 1 <= usize::MAX && s.contains((bound - 1) as usize) {
            let top = (bound - 1) as usize;
            let v = rest.push(top);
            assert forall|i: int, j: int| 0 <= i < j < v.len() implies v[i] < v[j] by {
                assert(v[i] == rest[i]);
                if j < rest.len() {
                    assert(v[j] == rest[j]);
                    assert(rest[i] < rest[j]);
                } else {
                    assert(v[j] == top);
                    assert(rest.contains(rest[i]));
                    assert(rest[i] < bound - 1);
                }
            }
            assert forall|x: usize| v.contains(x) <==> s.contains(x) && x < bound by {
                if v.contains(x) {
                    let i = choose|i: int| 0 <= i < v.len() && v[i] == x;
                    if i < rest.len() {
                        assert(rest[i] == x);
                        assert(rest.contains(x));
                    }
                }
                if s.contains(x) && x < bound {
                    if x == top {
                        assert(v[rest.len() as int] == x);
                    } else {
                        assert(rest.contains(x));
                        let i = choose|i: int| 0 <= i < rest.len() && rest[i] == x;
                        assert(v[i] == x);
                    }
                }
            }
        } else {
            assert forall|x: usize| rest.contains(x) <==> s.contains(x) && x < bound by {
                if s.contains(x) && x < bound {
                    assert(x < bound - 1);
                }
            }
        }
    }
}

/// Every set of positions is finite, and its ascending enumeration lists it
/// without repetition.
pub proof fn lemma_ascending(s: Set<usize>)
    ensures
        s.finite(),
        enumerates(ascending(s), s),
        ascending(s).no_duplicates(),
        ascending(s).len() == s.len(),
{
    let v = members_below(s, (usize::MAX + 1) as nat);
    lemma_members_below(s, (usize::MAX + 1) as nat);
    assert(v.to_set() =~= s);
    assert(enumerates(v, s));
    let w = ascending(s);
    vstd::seq_lib::seq_to_set_is_finite(w);
    w.unique_seq_to_set();
}

/// A set of positions has only one ascending enumeration.
pub proof fn lemma_ascending_unique(v: Seq<usize>, s: Set<usize>)
    requires
        enumerates(v, s),
    ensures
        v == ascending(s),
{
    lemma_ascending(s);
    lemma_enumerations_agree(v, ascending(s), s);
}

/// Without its last entry, an ascending enumeration lists the set without its
/// greatest member.
proof fn lemma_without_greatest(v: Seq<usize>, s: Set<usize>)
    requires
        enumerates(v, s),
        v.len() > 0,
    ensures
        enumerates(v.drop_last(), s.remove(v.last())),
        s.contains(v.last()),
        forall|x: usize| s.contains(x) ==> x <= v.last(),
{
    let rest = v.drop_last();
    assert(v.contains(v.last()));
    assert forall|x: usize| s.contains(x) implies x <= v.last() by {
        assert(v.contains(x));
    }
    assert forall|x: usize| rest.to_set().contains(x) <==> s.remove(v.last()).contains(x) by {
        if rest.contains(x) {
            let i = choose|i: int| 0 <= i < rest.len() && rest[i] == x;
            assert(v[i] == x);
            assert(v.contains(x));
        }
        if s.remove(v.last()).contains(x) {
            assert(v.contains(x));
            let i = choose|i: int| 0 <= i < v.len() && v[i] == x;
            assert(rest[i] == x);
        }
    }
    assert(rest.to_set() =~= s.remove(v.last()));
}

proof fn lemma_enumerations_agree(v: Seq<usize>, w: Seq<usize>, s: Set<usize>)
    requires
        enumerates(v, s),
        enumerates(w, s),
    ensures
        v == w,
    decreases v.len(),
{
    v.unique_seq_to_set();
    w.unique_seq_to_set();
    if v.len() == 0 {
        assert(v =~= w);
    } else {
        lemma_without_greatest(v, s);
        lemma_without_greatest(w, s);
        lemma_enumerations_agree(v.drop_last(), w.drop_last(), s.remove(v.last()));
        assert(v =~= v.drop_last().push(v.last()));
        assert(w =~= w.drop_last().push(w.last()));
    }
}

/// The two halves of a set share no member, together make up the set, and the
/// lower one is the smaller when the count is odd.
pub proof fn lemma_halves(s: Set<usize>)
    ensures
        lower_half(s).finite(),
        upper_half(s).finite(),
        lower_half(s).union(upper_half(s)) == s,
        lower_half(s).disjoint(upper_half(s)),
        lower_half(s).len() == s.len() / 2,
        upper_half(s).len() == s.len() - s.len() / 2,
        forall|x: usize, y: usize| lower_half(s).contains(x) && upper_half(s).contains(y) ==> x < y,
{
    lemma_ascending(s);
    let v = ascending(s);
    let mid = (s.len() / 2) as int;
    let lo = v.take(mid);
    let hi = v.skip(mid);
    assert(lo.no_duplicates());
    assert(hi.no_duplicates());
    lo.unique_seq_to_set();
    hi.unique_seq_to_set();
    vstd::seq_lib::seq_to_set_is_finite(lo);
    vstd::seq_lib::seq_to_set_is_finite(hi);
    assert forall|x: usize| lo.contains(x) || hi.contains(x) implies s.contains(x) by {
        if lo.contains(x) {
            let i = choose|i: int| 0 <= i < lo.len() && lo[i] == x;
            assert(v[i] == x);
        } else {
            let i = choose|i: int| 0 <= i < hi.len() && hi[i] == x;
            assert(v[i + mid] == x);
        }
        assert(v.contains(x));
    }
    assert forall|x: usize| s.contains(x) implies lo.contains(x) || hi.contains(x) by {
        assert(v.contains(x));
        let i = choose|i: int| 0 <= i < v.len() && v[i] == x;
        if i < mid {
            assert(lo[i] == x);
        } else {
            assert(hi[i - mid] == x);
        }
    }
    assert(lower_half(s).union(upper_half(s)) =~= s);
    assert forall|x: usize, y: usize| lower_half(s).contains(x) && upper_half(s).contains(
        y,
    ) implies x < y by {
        let i = choose|i: int| 0 <= i < lo.len() && lo[i] == x;
        let j = choose|j: int| 0 <= j < hi.len() && hi[j] == y;
        assert(v[i] == x);
        assert(v[j + mid] == y);
    }
}

proof fn lemma_prefix_grows(s: Seq<usize>, k: int)
    requires
        0 <= k < s.len(),
    ensures
        s.take(k + 1).to_set() == s.take(k).to_set().insert(s[k]),
        k + 1 == s.len() ==> s.take(k + 1) == s,
{
    assert(s.take(k + 1) =~= s.take(k).push(s[k]));
    s.take(k).lemma_push_to_set_commute(s[k]);
    if k + 1 == s.len() {
        assert(s.take(k + 1) =~= s);
    }
}

/// Whether every position of `a` is also in `b`.
pub fn is_subset(a: &Indices, b: &Indices) -> (r: bool)
    ensures
        r == a@.subset_of(b@),
{
    for x in it: a.iter()
        invariant
            it.seq().unref().to_set() == a@,
            it.seq().unref().take(it.index()).to_set().subset_of(b@),
            it.index() == it.seq().len() ==> a@.subset_of(b@),
    {
        if !b.contains(x) {
            assert(it.seq().unref()[it.index()] == *x);
            assert(a@.contains(*x));
            return false;
        }
        proof {
            lemma_prefix_grows(it.seq().unref(), it.index());
        }
    }
    true
}

/// Whether every position of `b` is also in `a`.
pub fn is_superset(a: &Indices, b: &Indices) -> (r: bool)
    ensures
        r == b@.subset_of(a@),
{
    is_subset(b, a)
}

/// Whether `a` and `b` hold the same positions.
pub fn same_indices(a: &Indices, b: &Indices) -> (r: bool)
    ensures
        r == (a@ == b@),
{
    let r = is_subset(a, b) && is_subset(b, a);
    assert(r ==> a@ =~= b@);
    r
}

/// The positions of `a` that are not in `b`.
pub fn difference(a: &Indices, b: &Indices) -> (r: Indices)
    ensures
        r@ == a@.difference(b@),
{
    let mut r: Indices = HashSet::new();
    for x in it: a.iter()
        invariant
            it.seq().unref().to_set() == a@,
            r@ == it.seq().unref().take(it.index()).to_set().difference(b@),
            it.index() == it.seq().len() ==> r@ == a@.difference(b@),
    {
        if !b.contains(x) {
            r.insert(*x);
        }
        proof {
            lemma_prefix_grows(it.seq().unref(), it.index());
        }
    }
    r
}

/// The positions that are in `a` or in `b`.
pub fn union(a: &Indices, b: &Indices) -> (r: Indices)
    ensures
        r@ == a@.union(b@),
{
    let mut r: Indices = duplicate(a);
    for x in it: b.iter()
        invariant
            it.seq().unref().to_set() == b@,
            r@ == a@.union(it.seq().unref().take(it.index()).to_set()),
            it.index() == it.seq().len() ==> r@ == a@.union(b@),
    {
        r.insert(*x);
        proof {
            lemma_prefix_grows(it.seq().unref(), it.index());
        }
    }
    r
}

/// A new set with the positions of `a`.
pub fn duplicate(a: &Indices) -> (r: Indices)
    ensures
        r@ == a@,
{
    let mut r: Indices = HashSet::new();
    for x in it: a.iter()
        invariant
            it.seq().unref().to_set() == a@,
            r@ == it.seq().unref().take(it.index()).to_set(),
            it.index() == it.seq().len() ==> r@ == a@,
    {
        r.insert(*x);
        proof {
            lemma_prefix_grows(it.seq().unref(), it.index());
        }
    }
    r
}

/// The set of the positions `0..n`.
pub fn full_range(n: usize) -> (r: Indices)
    ensures
        r@ == universe(n as nat),
{
    let mut r: Indices = HashSet::new();
    for i in 0..n
        invariant
            r@ == universe(i as nat),
    {
        r.insert(i);
        assert(r@ =~= universe((i + 1) as nat));
    }
    r
}

/// Whether some entry of `list` holds the same positions as `wanted`.
pub fn contains_indices(list: &Vec<Indices>, wanted: &Indices) -> (r: bool)
    ensures
        r == views(list@).contains(wanted@),
{
    for k in 0..list.len()
        invariant
            forall|j: int| 0 <= j < k ==> list@[j]@ != wanted@,
    {
        if same_indices(&list[k], wanted) {
            assert(views(list@)[k as int] == wanted@);
            return true;
        }
    }
    assert forall|j: int| 0 <= j < views(list@).len() implies views(list@)[j] != wanted@ by {
        assert(views(list@)[j] == list@[j]@);
    }
    false
}

/// The positions of `a`, smallest first.
pub fn sorted_members(a: &Indices) -> (v: Vec<usize>)
    ensures
        v@ == ascending(a@),
{
    let mut v: Vec<usize> = Vec::new();
    for x in it: a.iter()
        invariant
            it.seq().unref().to_set() == a@,
            it.seq().no_duplicates(),
            strictly_ascending(v@),
            v@.to_set() == it.seq().unref().take(it.index()).to_set(),
            it.index() == it.seq().len() ==> v@.to_set() == a@,
    {
        let ghost seen = it.seq().unref().take(it.index());
        assert(!v@.contains(*x)) by {
            if v@.contains(*x) {
                assert(v@.to_set().contains(*x));
                assert(seen.contains(*x));
                let i = choose|i: int| 0 <= i < seen.len() && seen[i] == *x;
                assert(x == it.seq()[it.index()]);
                assert(seen[i] == *it.seq()[i]);
                assert(it.seq()[i] == it.seq()[it.index()]);
            }
        }
        let mut at: usize = 0;
        while at < v.len() && v[at] < *x
            invariant
                at <= v.len(),
                forall|j: int| 0 <= j < at ==> v@[j] < *x,
            decreases v.len() - at,
        {
            at += 1;
        }
        let ghost before = v@;
        v.insert(at, *x);
        proof {
            assert forall|i: int, j: int| 0 <= i < j < v@.len() implies v@[i] < v@[j] by {
                if at < before.len() {
                    assert(before.contains(before[at as int]));
                }
                if i < at && j > at {
                    assert(v@[i] == before[i]);
                    assert(v@[j] == before[j - 1]);
                } else if i > at {
                    assert(v@[i] == before[i - 1]);
                    assert(v@[j] == before[j - 1]);
                }
            }
            assert(v@.to_set() =~= before.to_set().insert(*x)) by {
                assert forall|y: usize| v@.contains(y) <==> before.contains(y) || y == *x by {
                    if v@.contains(y) {
                        let i = choose|i: int| 0 <= i < v@.len() && v@[i] == y;
                        if i < at {
                            assert(before[i] == y);
                        } else if i > at {
                            assert(before[i - 1] == y);
                        }
                    }
                    if before.contains(y) {
                        let i = choose|i: int| 0 <= i < before.len() && before[i] == y;
                        if i < at {
                            assert(v@[i] == y);
                        } else {
                            assert(v@[i + 1] == y);
                        }
                    }
                    if y == *x {
                        assert(v@[at as int] == y);
                    }
                }
            }
            lemma_prefix_grows(it.seq().unref(), it.index());
        }
    }
    proof {
        lemma_ascending_unique(v@, a@);
    }
    v
}

/// The set of the positions that `v` lists.
pub fn from_members(v: &Vec<usize>) -> (r: Indices)
    ensures
        r@ == v@.to_set(),
{
    let mut r: Indices = HashSet::new();
    for k in 0..v.len()
        invariant
            r@ == v@.take(k as int).to_set(),
    {
        r.insert(v[k]);
        proof {
            lemma_prefix_grows(v@, k as int);
        }
    }
    assert(v@.take(v@.len() as int) =~= v@);
    r
}

/// Splits a set at the midpoint of its ascending enumeration. The lower half
/// is the smaller one when the count is odd.
pub fn halve(indices: &Indices) -> (halves: (Indices, Indices))
    ensures
        halves.0@ == lower_half(indices@),
        halves.1@ == upper_half(indices@),
{
    let mut first = sorted_members(indices);
    proof {
        lemma_ascending(indices@);
    }
    let mid: usize = first.len() / 2;
    let second = first.split_off(mid);
    (from_members(&first), from_members(&second))
}

/// Nothing can be kept of an empty sequence.
proof fn lemma_kept_of_none<T>(items: Seq<T>, indices: Set<usize>)
    requires
        items.len() == 0,
    ensures
        kept(items, indices) == Seq::<T>::empty(),
{
    let none = indices.intersect(universe(0));
    assert(none =~= Set::<usize>::empty());
    lemma_ascending(none);
    assert(kept(items, indices) =~= Seq::<T>::empty());
}

/// Taking one more item into account either appends it to what is kept, or
/// changes nothing.
proof fn lemma_kept_grows<T>(items: Seq<T>, indices: Set<usize>, k: int)
    requires
        0 <= k < items.len(),
        k <= usize::MAX,
    ensures
        kept(items.take(k + 1), indices) == if indices.contains(k as usize) {
            kept(items.take(k), indices).push(items[k])
        } else {
            kept(items.take(k), indices)
        },
{
    let short = items.take(k);
    let long = items.take(k + 1);
    let below = indices.intersect(universe(k as nat));
    let upto = indices.intersect(universe((k + 1) as nat));
    lemma_ascending(below);
    lemma_ascending(upto);
    let asc = ascending(below);
    if indices.contains(k as usize) {
        let more = asc.push(k as usize);
        assert forall|i: int, j: int| 0 <= i < j < more.len() implies more[i] < more[j] by {
            assert(asc.contains(asc[i]));
            assert(below.contains(asc[i]));
            if j < asc.len() {
                assert(more[j] == asc[j]);
            }
        }
        asc.lemma_push_to_set_commute(k as usize);
        assert(more.to_set() =~= upto);
        lemma_ascending_unique(more, upto);
        assert forall|i: int| 0 <= i < asc.len() implies asc[i] < k by {
            assert(asc.contains(asc[i]));
            assert(below.contains(asc[i]));
        }
        assert(kept(long, indices) =~= kept(short, indices).push(items[k]));
    } else {
        assert(upto =~= below);
        assert forall|i: int| 0 <= i < asc.len() implies asc[i] < k by {
            assert(asc.contains(asc[i]));
            assert(below.contains(asc[i]));
        }
        assert(kept(long, indices) =~= kept(short, indices));
    }
}

/// Projection of an index set onto a collection.
pub trait SelectIndices: Sized {
    /// What the collection holds.
    type Item;

    /// The items of the collection, in order.
    spec fn items(&self) -> Seq<Self::Item>;

    /// Keeps the items whose positions are in `indices`, in the order in which they stand.
    fn select_indices(self, indices: &Indices) -> (selected: Self)
        ensures
            selected.items() == kept(self.items(), indices@),
    ;

    /// Keeps the items whose positions are not in `indices`, in the order in which they stand.
    fn reject_indices(self, indices: &Indices) -> (rest: Self)
        ensures
            rest.items() == dropped(self.items(), indices@),
    ;
}

impl<T> SelectIndices for Vec<T> {
    type Item = T;

    open spec fn items(&self) -> Seq<T> {
        self@
    }

    fn select_indices(self, indices: &Indices) -> (selected: Self) {
        let ghost all = self@;
        let mut selected: Vec<T> = Vec::new();
        let mut at: usize = 0;
        proof {
            assert(all.len() == self.len());
            lemma_kept_of_none(all.take(0), indices@);
        }
        for item in it: self.into_iter()
            invariant
                it.seq() == all,
                all.len() <= usize::MAX,
                at == it.index(),
                selected@ == kept(all.take(at as int), indices@),
        {
            proof {
                lemma_kept_grows(all, indices@, at as int);
            }
            if indices.contains(&at) {
                selected.push(item);
            }
            at += 1;
        }
        assert(all.take(at as int) =~= all);
        selected
    }

    fn reject_indices(self, indices: &Indices) -> (rest: Self) {
        let ghost all = self@;
        let mut rest: Vec<T> = Vec::new();
        let mut at: usize = 0;
        proof {
            assert(all.len() == self.len());
            lemma_kept_of_none(all.take(0), indices@.complement());
        }
        for item in it: self.into_iter()
            invariant
                it.seq() == all,
                all.len() <= usize::MAX,
                at == it.index(),
                rest@ == dropped(all.take(at as int), indices@),
        {
            proof {
                lemma_kept_grows(all, indices@.complement(), at as int);
            }
            if !indices.contains(&at) {
                rest.push(item);
            }
            at += 1;
        }
        assert(all.take(at as int) =~= all);
        rest
    }
}

} // verus!
