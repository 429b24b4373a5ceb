//! Closure operators on the subsets of a base set, and what the step to the
//! next closed set finds: the least closed set after the one it starts from.

use crate::lectic::{
    agree_before, candidate, lectic_less, lectic_less_at, lectic_next, lemma_accepted_is_greater,
    lemma_candidate_members, lemma_included_not_after, lemma_lectic_asymmetric,
};
use crate::names::{included, same_members};
use vstd::prelude::*;

verus! {

/// `cl` is a closure operator on the subsets of `set`: it is defined on
/// them; what it gives is a subset of `set` that holds what was given; it
/// gives more for more; and what it gives it gives again.
pub open spec fn closure_operator(
    set: Seq<Seq<char>>,
    cl: spec_fn(Seq<Seq<char>>) -> Option<Seq<Seq<char>>>,
) -> bool {
    &&& forall|x: Seq<Seq<char>>| included(x, set) ==> (#[trigger] cl(x)) is Some
    &&& forall|x: Seq<Seq<char>>|
        included(x, set) && (#[trigger] cl(x)) is Some ==> included(cl(x)->0, set)
    &&& forall|x: Seq<Seq<char>>|
        included(x, set) && (#[trigger] cl(x)) is Some ==> included(x, cl(x)->0)
    &&& forall|x: Seq<Seq<char>>, y: Seq<Seq<char>>|
        included(x, y) && (#[trigger] cl(x)) is Some && (#[trigger] cl(y)) is Some ==> included(
            cl(x)->0,
            cl(y)->0,
        )
    &&& forall|x: Seq<Seq<char>>, y: Seq<Seq<char>>|
        #![trigger cl(x), closed_under(cl, y)]
        cl(x) == Some(y) ==> closed_under(cl, y)
}

/// `x` is closed: its closure holds the same names.
pub open spec fn closed_under(
    cl: spec_fn(Seq<Seq<char>>) -> Option<Seq<Seq<char>>>,
    x: Seq<Seq<char>>,
) -> bool {
    cl(x) is Some && same_members(x, cl(x)->0)
}

/// The scan accepts at position `i`: `subset` does not hold the position,
/// and the closure of the candidate holds the same positions as the
/// candidate up to and including `i`.
pub open spec fn accepts_at(
    set: Seq<Seq<char>>,
    subset: Seq<Seq<char>>,
    cl: spec_fn(Seq<Seq<char>>) -> Option<Seq<Seq<char>>>,
    i: int,
) -> bool {
    &&& 0 <= i < set.len()
    &&& !subset.contains(set[i])
    &&& cl(candidate(set, subset, i)) is Some
    &&& agree_before(set, candidate(set, subset, i), cl(candidate(set, subset, i))->0, i + 1)
}

/// A result of the scan is the closure of a candidate at a position where
/// the scan accepts.
pub proof fn lemma_scan_result(
    set: Seq<Seq<char>>,
    subset: Seq<Seq<char>>,
    cl: spec_fn(Seq<Seq<char>>) -> Option<Seq<Seq<char>>>,
    upto: int,
)
    requires
        upto <= set.len(),
    ensures
        lectic_next(set, subset, cl, upto) is Some ==> exists|i: int|
            #[trigger] accepts_at(set, subset, cl, i) && i < upto && lectic_next(
                set,
                subset,
                cl,
                upto,
            ) == cl(candidate(set, subset, i)),
    decreases upto,
{
    if upto > 0 {
        lemma_scan_result(set, subset, cl, upto - 1);
        if lectic_next(set, subset, cl, upto) is Some {
            if !subset.contains(set[upto - 1]) && cl(candidate(set, subset, upto - 1)) is Some
                && agree_before(
                set,
                candidate(set, subset, upto - 1),
                cl(candidate(set, subset, upto - 1))->0,
                upto,
            ) {
                assert(accepts_at(set, subset, cl, upto - 1));
            } else {
                let i = choose|i: int|
                    #[trigger] accepts_at(set, subset, cl, i) && i < upto - 1 && lectic_next(
                        set,
                        subset,
                        cl,
                        upto - 1,
                    ) == cl(candidate(set, subset, i));
                assert(accepts_at(set, subset, cl, i) && i < upto);
            }
        }
    }
}

/// Where the scan accepts at a position below `upto`, it has a result, found
/// at that position or a later one.
pub proof fn lemma_scan_finds(
    set: Seq<Seq<char>>,
    subset: Seq<Seq<char>>,
    cl: spec_fn(Seq<Seq<char>>) -> Option<Seq<Seq<char>>>,
    upto: int,
    j: int,
)
    requires
        closure_operator(set, cl),
        upto <= set.len(),
        j < upto,
        accepts_at(set, subset, cl, j),
    ensures
        exists|i: int|
            #[trigger] accepts_at(set, subset, cl, i) && j <= i < upto && lectic_next(
                set,
                subset,
                cl,
                upto,
            ) == cl(candidate(set, subset, i)),
    decreases upto,
{
    let last = upto - 1;
    if subset.contains(set[last]) {
        lemma_scan_finds(set, subset, cl, last, j);
        let i = choose|i: int|
            #[trigger] accepts_at(set, subset, cl, i) && j <= i < last && lectic_next(
                set,
                subset,
                cl,
                last,
            ) == cl(candidate(set, subset, i));
        assert(accepts_at(set, subset, cl, i) && j <= i < upto);
    } else {
        lemma_candidate_members(set, subset, last);
        assert(cl(candidate(set, subset, last)) is Some);
        if agree_before(set, candidate(set, subset, last), cl(candidate(set, subset, last))->0, upto) {
            assert(accepts_at(set, subset, cl, last) && j <= last < upto);
        } else {
            lemma_scan_finds(set, subset, cl, last, j);
            let i = choose|i: int|
                #[trigger] accepts_at(set, subset, cl, i) && j <= i < last && lectic_next(
                    set,
                    subset,
                    cl,
                    last,
                ) == cl(candidate(set, subset, i));
            assert(accepts_at(set, subset, cl, i) && j <= i < upto);
        }
    }
}

/// Before a closed set that comes after `subset`, the scan accepts at the
/// position where the two first differ, and the closure of the candidate
/// there is included in the closed set.
pub proof fn lemma_accepts_below_closed(
    set: Seq<Seq<char>>,
    subset: Seq<Seq<char>>,
    cl: spec_fn(Seq<Seq<char>>) -> Option<Seq<Seq<char>>>,
    closed: Seq<Seq<char>>,
    j: int,
)
    requires
        set.no_duplicates(),
        closure_operator(set, cl),
        closed_under(cl, closed),
        lectic_less_at(set, subset, closed, j),
    ensures
        accepts_at(set, subset, cl, j),
        included(cl(candidate(set, subset, j))->0, closed),
{
    let cand = candidate(set, subset, j);
    lemma_candidate_members(set, subset, j);
    assert(cl(cand) is Some);
    let c = cl(cand)->0;
    assert forall|x: Seq<char>| cand.contains(x) implies closed.contains(x) by {
        if x != set[j] {
            assert(subset.contains(x) && set.take(j).contains(x));
            let p = choose|p: int| 0 <= p < set.take(j).len() && set.take(j)[p] == x;
            assert(set[p] == x);
            assert(subset.contains(set[p]) == closed.contains(set[p]));
        }
    }
    assert(included(cand, closed));
    assert(included(c, cl(closed)->0));
    assert(included(c, closed));
    assert(included(cand, c));
    assert forall|p: int| 0 <= p < j + 1 && p < set.len() implies cand.contains(set[p])
        == c.contains(set[p]) by {
        if p < j {
            if c.contains(set[p]) {
                assert(closed.contains(set[p]));
                assert(subset.contains(set[p]));
            }
        }
    }
}

/// The step from `subset` finds the least closed set after it. If there is
/// a result, it is closed and comes after `subset`, and no closed subset of
/// `set` that comes after `subset` comes before it. If there is none, no
/// closed subset of `set` comes after `subset`.
pub proof fn lemma_next_closure_least(
    set: Seq<Seq<char>>,
    subset: Seq<Seq<char>>,
    cl: spec_fn(Seq<Seq<char>>) -> Option<Seq<Seq<char>>>,
)
    requires
        set.no_duplicates(),
        closure_operator(set, cl),
    ensures
        lectic_next(set, subset, cl, set.len() as int) matches Some(next) ==> {
            &&& closed_under(cl, next)
            &&& included(next, set)
            &&& lectic_less(set, subset, next)
            &&& forall|other: Seq<Seq<char>>|
                #[trigger] closed_under(cl, other) && lectic_less(set, subset, other)
                    ==> !lectic_less(set, other, next)
        },
        lectic_next(set, subset, cl, set.len() as int) is None ==> forall|other: Seq<Seq<char>>|
            #[trigger] closed_under(cl, other) ==> !lectic_less(set, subset, other),
{
    let width = set.len() as int;
    let found = lectic_next(set, subset, cl, width);
    lemma_scan_result(set, subset, cl, width);
    if found is Some {
        let next = found->0;
        let at = choose|i: int|
            #[trigger] accepts_at(set, subset, cl, i) && i < width && found == cl(
                candidate(set, subset, i),
            );
        lemma_accepted_is_greater(set, subset, next, at);
        lemma_candidate_members(set, subset, at);
        assert(lectic_less_at(set, subset, next, at));
        assert(closed_under(cl, next));
    }
    assert forall|other: Seq<Seq<char>>|
        #[trigger] closed_under(cl, other) && lectic_less(set, subset, other) implies found
        is Some && !lectic_less(set, other, found->0) by {
        let j = choose|j: int| lectic_less_at(set, subset, other, j);
        lemma_accepts_below_closed(set, subset, cl, other, j);
        lemma_scan_finds(set, subset, cl, width, j);
        let i = choose|i: int|
            #[trigger] accepts_at(set, subset, cl, i) && j <= i < width && found == cl(
                candidate(set, subset, i),
            );
        let next = found->0;
        if i == j {
            lemma_included_not_after(set, next, other);
        } else {
            lemma_accepted_is_greater(set, subset, next, i);
            assert(!next.contains(set[j])) by {
                assert(subset.contains(set[j]) == next.contains(set[j]));
            }
            assert(lectic_less_at(set, next, other, j)) by {
                assert forall|p: int| 0 <= p < j && p < set.len() implies next.contains(set[p])
                    == other.contains(set[p]) by {
                    assert(subset.contains(set[p]) == next.contains(set[p]));
                    assert(subset.contains(set[p]) == other.contains(set[p]));
                }
            }
            lemma_lectic_asymmetric(set, next, other);
        }
    }
}

} // verus!
