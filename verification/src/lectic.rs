//! The lectic order on the subsets of an ordered base set, and the step
//! from one closed set to the next.
//!
//! The base set is a sequence of names; its order is the order of the
//! positions. A subset is any sequence of names, and it holds position `i`
//! when it contains the name at `i`. Of two subsets the one that holds the
//! first position in which they differ is the greater.

use crate::names::{
    as_names, contains_name, included, lemma_restrict_contains, restrict, restrict_names,
    same_members,
};
use vstd::prelude::*;
use vstd::slice::slice_subrange;

verus! {

/// `a` and `b` hold the same positions of `set` among the first `k`.
pub open spec fn agree_before(
    set: Seq<Seq<char>>,
    a: Seq<Seq<char>>,
    b: Seq<Seq<char>>,
    k: int,
) -> bool {
    forall|j: int| 0 <= j < k && j < set.len() ==> a.contains(set[j]) == b.contains(set[j])
}

/// `b` is greater than `a`, and position `i` is the first in which they differ.
pub open spec fn lectic_less_at(
    set: Seq<Seq<char>>,
    a: Seq<Seq<char>>,
    b: Seq<Seq<char>>,
    i: int,
) -> bool {
    &&& 0 <= i < set.len()
    &&& !a.contains(set[i])
    &&& b.contains(set[i])
    &&& agree_before(set, a, b, i)
}

/// `a` comes before `b` in the lectic order over `set`.
pub open spec fn lectic_less(set: Seq<Seq<char>>, a: Seq<Seq<char>>, b: Seq<Seq<char>>) -> bool {
    exists|i: int| lectic_less_at(set, a, b, i)
}

/// The set that is closed at position `i`: what `subset` holds before `i`,
/// in the order of `subset`, and then the name at `i`.
pub open spec fn candidate(set: Seq<Seq<char>>, subset: Seq<Seq<char>>, i: int) -> Seq<Seq<char>> {
    restrict(subset, set.take(i)).push(set[i])
}

/// The result of scanning the positions below `upto` from the last to the
/// first. A position that `subset` holds is passed over. At any other, the
/// closure of the candidate is the result if it holds the same positions as
/// the candidate up to and including that one. A closure that is undefined
/// ends the scan with no result.
pub open spec fn lectic_next(
    set: Seq<Seq<char>>,
    subset: Seq<Seq<char>>,
    cl: spec_fn(Seq<Seq<char>>) -> Option<Seq<Seq<char>>>,
    upto: int,
) -> Option<Seq<Seq<char>>>
    decreases upto,
{
    if upto <= 0 {
        None
    } else if subset.contains(set[upto - 1]) {
        lectic_next(set, subset, cl, upto - 1)
    } else {
        match cl(candidate(set, subset, upto - 1)) {
            None => None,
            Some(c) => if agree_before(set, candidate(set, subset, upto - 1), c, upto) {
                Some(c)
            } else {
                lectic_next(set, subset, cl, upto - 1)
            },
        }
    }
}

/// The subset as a number: its digits in base two are the first `k`
/// positions, the first position the most significant, 1 where the subset
/// holds the position.
pub open spec fn lectic_rank(set: Seq<Seq<char>>, a: Seq<Seq<char>>, k: int) -> nat
    decreases k,
{
    if k <= 0 {
        0
    } else if a.contains(set[k - 1]) {
        2 * lectic_rank(set, a, k - 1) + 1
    } else {
        2 * lectic_rank(set, a, k - 1)
    }
}

/// Two to the power `k`: more than any rank over `k` positions.
pub open spec fn lectic_bound(k: int) -> nat
    decreases k,
{
    if k <= 0 {
        1
    } else {
        2 * lectic_bound(k - 1)
    }
}

/// A rank over `k` positions is below two to the power `k`.
pub proof fn lemma_rank_bound(set: Seq<Seq<char>>, a: Seq<Seq<char>>, k: int)
    ensures
        lectic_rank(set, a, k) < lectic_bound(k),
    decreases k,
{
    if k > 0 {
        lemma_rank_bound(set, a, k - 1);
    }
}

/// Subsets that hold the same positions among the first `k` have the same
/// rank over them.
pub proof fn lemma_rank_agree(set: Seq<Seq<char>>, a: Seq<Seq<char>>, b: Seq<Seq<char>>, k: int)
    requires
        k <= set.len(),
        agree_before(set, a, b, k),
    ensures
        lectic_rank(set, a, k) == lectic_rank(set, b, k),
    decreases k,
{
    if k > 0 {
        lemma_rank_agree(set, a, b, k - 1);
    }
}

/// The rank follows the lectic order: the greater subset has the greater
/// rank, over any number of positions that reaches the first difference.
pub proof fn lemma_rank_less(
    set: Seq<Seq<char>>,
    a: Seq<Seq<char>>,
    b: Seq<Seq<char>>,
    i: int,
    k: int,
)
    requires
        lectic_less_at(set, a, b, i),
        i < k <= set.len(),
    ensures
        lectic_rank(set, a, k) < lectic_rank(set, b, k),
    decreases k,
{
    if k == i + 1 {
        lemma_rank_agree(set, a, b, i);
    } else {
        lemma_rank_less(set, a, b, i, k - 1);
    }
}

/// Where `set` repeats no name, the closure of the candidate at `i` that is
/// accepted there is greater than `subset`, with `i` the first difference.
pub proof fn lemma_accepted_is_greater(
    set: Seq<Seq<char>>,
    subset: Seq<Seq<char>>,
    c: Seq<Seq<char>>,
    i: int,
)
    requires
        set.no_duplicates(),
        0 <= i < set.len(),
        !subset.contains(set[i]),
        agree_before(set, candidate(set, subset, i), c, i + 1),
    ensures
        lectic_less_at(set, subset, c, i),
{
    let cand = candidate(set, subset, i);
    let kept = restrict(subset, set.take(i));
    assert(cand[kept.len() as int] == set[i]);
    assert(cand.contains(set[i]));
    assert forall|j: int| 0 <= j < i implies subset.contains(set[j]) == c.contains(set[j]) by {
        lemma_restrict_contains(subset, set.take(i), set[j]);
        assert(set.take(i)[j] == set[j]);
        if cand.contains(set[j]) {
            let k = choose|k: int| 0 <= k < cand.len() && cand[k] == set[j];
            assert(kept[k] == set[j]);
        }
        if kept.contains(set[j]) {
            let k = choose|k: int| 0 <= k < kept.len() && kept[k] == set[j];
            assert(cand[k] == set[j]);
        }
    }
}

/// Where `set` repeats no name, a result of the scan is greater than
/// `subset`, whatever `cl` is.
pub proof fn lemma_next_is_greater(
    set: Seq<Seq<char>>,
    subset: Seq<Seq<char>>,
    cl: spec_fn(Seq<Seq<char>>) -> Option<Seq<Seq<char>>>,
    upto: int,
)
    requires
        set.no_duplicates(),
        upto <= set.len(),
    ensures
        lectic_next(set, subset, cl, upto) matches Some(c) ==> lectic_less(set, subset, c)
            && lectic_rank(set, subset, set.len() as int) < lectic_rank(
            set,
            c,
            set.len() as int,
        ),
    decreases upto,
{
    if upto > 0 {
        lemma_next_is_greater(set, subset, cl, upto - 1);
        if !subset.contains(set[upto - 1]) {
            if let Some(c) = cl(candidate(set, subset, upto - 1)) {
                if agree_before(set, candidate(set, subset, upto - 1), c, upto) {
                    lemma_accepted_is_greater(set, subset, c, upto - 1);
                    lemma_rank_less(set, subset, c, upto - 1, set.len() as int);
                }
            }
        }
    }
}

/// The candidate at `i` holds the name at `i` and, before `i`, the positions
/// that `subset` holds; and all its names are names of `set`.
pub proof fn lemma_candidate_members(set: Seq<Seq<char>>, subset: Seq<Seq<char>>, i: int)
    requires
        0 <= i < set.len(),
    ensures
        candidate(set, subset, i).contains(set[i]),
        included(candidate(set, subset, i), set),
        forall|x: Seq<char>|
            #[trigger] candidate(set, subset, i).contains(x) <==> x == set[i] || (subset.contains(
                x,
            ) && set.take(i).contains(x)),
        set.no_duplicates() ==> forall|p: int|
            0 <= p < i ==> #[trigger] candidate(set, subset, i).contains(set[p])
                == subset.contains(set[p]),
{
    let cand = candidate(set, subset, i);
    let kept = restrict(subset, set.take(i));
    assert(cand[kept.len() as int] == set[i]);
    assert forall|x: Seq<char>|
        cand.contains(x) <==> x == set[i] || (subset.contains(x) && set.take(i).contains(
            x,
        )) by {
        lemma_restrict_contains(subset, set.take(i), x);
        if cand.contains(x) {
            let k = choose|k: int| 0 <= k < cand.len() && cand[k] == x;
            if k < kept.len() {
                assert(kept[k] == x);
            }
        }
        if kept.contains(x) {
            let k = choose|k: int| 0 <= k < kept.len() && kept[k] == x;
            assert(cand[k] == x);
        }
    }
    assert forall|x: Seq<char>| cand.contains(x) implies set.contains(x) by {
        if x != set[i] {
            let k = choose|k: int| 0 <= k < set.take(i).len() && set.take(i)[k] == x;
            assert(set[k] == x);
        }
    }
    if set.no_duplicates() {
        assert forall|p: int| 0 <= p < i implies cand.contains(set[p]) == subset.contains(
            set[p],
        ) by {
            assert(set.take(i)[p] == set[p]);
        }
    }
}

/// The lectic order has no two subsets each before the other.
pub proof fn lemma_lectic_asymmetric(set: Seq<Seq<char>>, a: Seq<Seq<char>>, b: Seq<Seq<char>>)
    requires
        lectic_less(set, a, b),
    ensures
        !lectic_less(set, b, a),
{
    let i = choose|i: int| lectic_less_at(set, a, b, i);
    if lectic_less(set, b, a) {
        let p = choose|p: int| lectic_less_at(set, b, a, p);
        if i < p {
            assert(b.contains(set[i]) == a.contains(set[i]));
        } else if p < i {
            assert(a.contains(set[p]) == b.contains(set[p]));
        }
    }
}

/// What comes before a subset comes before all that the subset comes before.
pub proof fn lemma_lectic_transitive(
    set: Seq<Seq<char>>,
    a: Seq<Seq<char>>,
    b: Seq<Seq<char>>,
    c: Seq<Seq<char>>,
)
    requires
        lectic_less(set, a, b),
        lectic_less(set, b, c),
    ensures
        lectic_less(set, a, c),
{
    let i = choose|i: int| lectic_less_at(set, a, b, i);
    let p = choose|p: int| lectic_less_at(set, b, c, p);
    if i < p {
        assert(b.contains(set[i]) == c.contains(set[i]));
        assert(lectic_less_at(set, a, c, i));
    } else if p < i {
        assert(a.contains(set[p]) == b.contains(set[p]));
        assert(lectic_less_at(set, a, c, p));
    }
}

/// Two subsets hold the same positions, or one comes before the other.
pub proof fn lemma_lectic_total(set: Seq<Seq<char>>, a: Seq<Seq<char>>, b: Seq<Seq<char>>, k: int)
    requires
        0 <= k <= set.len(),
    ensures
        agree_before(set, a, b, k) || lectic_less(set, a, b) || lectic_less(set, b, a),
    decreases k,
{
    if k > 0 {
        lemma_lectic_total(set, a, b, k - 1);
        if agree_before(set, a, b, k - 1) && a.contains(set[k - 1]) != b.contains(set[k - 1]) {
            if b.contains(set[k - 1]) {
                assert(lectic_less_at(set, a, b, k - 1));
            } else {
                assert(lectic_less_at(set, b, a, k - 1));
            }
        }
    }
}

/// Subsets of `set` that hold the same positions hold the same names.
pub proof fn lemma_agree_same_members(set: Seq<Seq<char>>, a: Seq<Seq<char>>, b: Seq<Seq<char>>)
    requires
        included(a, set),
        included(b, set),
        agree_before(set, a, b, set.len() as int),
    ensures
        same_members(a, b),
{
    assert forall|x: Seq<char>| a.contains(x) == b.contains(x) by {
        if a.contains(x) || b.contains(x) {
            let i = choose|i: int| 0 <= i < set.len() && set[i] == x;
            assert(a.contains(set[i]) == b.contains(set[i]));
        }
    }
}

/// A subset does not come before what it includes.
pub proof fn lemma_included_not_after(set: Seq<Seq<char>>, part: Seq<Seq<char>>, whole: Seq<Seq<char>>)
    requires
        included(part, whole),
    ensures
        !lectic_less(set, whole, part),
{
    if lectic_less(set, whole, part) {
        let i = choose|i: int| lectic_less_at(set, whole, part, i);
        assert(part.contains(set[i]));
    }
}

/// Every answer of the executable `f` is the value of `cl` on the same names.
pub open spec fn agrees<F: Fn(&[String]) -> Option<Vec<String>>>(
    f: F,
    cl: spec_fn(Seq<Seq<char>>) -> Option<Seq<Seq<char>>>,
) -> bool {
    forall|s: &[String], r: Option<Vec<String>>| #[trigger]
        call_ensures(f, (s,), r) ==> r.deep_view() == cl(s.deep_view())
}

/// The first position of `m` that only one of `a` and `b` holds, or the
/// length of `m` if they hold the same positions.
pub fn lexical_m(m: &[String], a: &[String], b: &[String]) -> (at: usize)
    ensures
        at <= m.len(),
        agree_before(m.deep_view(), a.deep_view(), b.deep_view(), at as int),
        at < m.len() ==> a.deep_view().contains(m.deep_view()[at as int]) != b.deep_view().contains(
            m.deep_view()[at as int],
        ),
{
    let mut i: usize = 0;
    while i < m.len()
        invariant
            i <= m.len(),
            agree_before(m.deep_view(), a.deep_view(), b.deep_view(), i as int),
        decreases m.len() - i,
    {
        if contains_name(a, &m[i]) != contains_name(b, &m[i]) {
            return i;
        }
        i += 1;
    }
    i
}

/// The scan passes position `q`: `subset` holds it, or `closure` may answer
/// the candidate there with a set that is not accepted.
pub open spec fn passes_at<F: Fn(&[String]) -> Option<Vec<String>>>(
    closure: F,
    set: Seq<Seq<char>>,
    subset: Seq<Seq<char>>,
    q: int,
) -> bool {
    subset.contains(set[q]) || exists|s: &[String], r: Vec<String>|
        s.deep_view() == candidate(set, subset, q) && #[trigger] call_ensures(
            closure,
            (s,),
            Some(r),
        ) && !agree_before(set, candidate(set, subset, q), r.deep_view(), q + 1)
}

/// The scan may come to ask `closure` at position `i`: `subset` does not
/// hold the position, and the scan passes every later one.
pub open spec fn asks_at<F: Fn(&[String]) -> Option<Vec<String>>>(
    closure: F,
    set: Seq<Seq<char>>,
    subset: Seq<Seq<char>>,
    i: int,
) -> bool {
    &&& 0 <= i < set.len()
    &&& !subset.contains(set[i])
    &&& forall|q: int| i < q < set.len() ==> #[trigger] passes_at(closure, set, subset, q)
}

/// The closed set that follows `subset` in the lectic order over `set`.
///
/// The positions are scanned from the last to the first, as `lectic_next`
/// says, and `closure` is asked for the closure of each candidate that the
/// scan comes to. There it has to take the candidate and to answer with a
/// set: a closure that knows no answer for a candidate is no closure.
/// Whatever `closure` answers, a result is greater than `subset` in the
/// lectic order when `set` repeats no name. Where `closure` computes a
/// function `cl` of the names it is given, the result is `lectic_next` for
/// `cl`; and `None` says that no position accepts.
pub fn next_closure<F>(set: &[String], subset: &[String], closure: F) -> (next: Option<
    Vec<String>,
>) where F: Fn(&[String]) -> Option<Vec<String>>
    requires
        forall|s: &[String], i: int|
            #![trigger call_requires(closure, (s,)), asks_at(closure, set.deep_view(), subset.deep_view(), i)]
            asks_at(closure, set.deep_view(), subset.deep_view(), i) && s.deep_view() == candidate(
                set.deep_view(),
                subset.deep_view(),
                i,
            ) ==> call_requires(closure, (s,)),
        forall|s: &[String], i: int, r: Option<Vec<String>>|
            #![trigger call_ensures(closure, (s,), r), asks_at(closure, set.deep_view(), subset.deep_view(), i)]
            asks_at(closure, set.deep_view(), subset.deep_view(), i) && s.deep_view() == candidate(
                set.deep_view(),
                subset.deep_view(),
                i,
            ) && call_ensures(closure, (s,), r) ==> r is Some,
    ensures
        forall|cl: spec_fn(Seq<Seq<char>>) -> Option<Seq<Seq<char>>>| #[trigger]
            agrees(closure, cl) ==> next.deep_view() == lectic_next(
                set.deep_view(),
                subset.deep_view(),
                cl,
                set.len() as int,
            ),
        next matches Some(c) ==> exists|i: int|
            {
                &&& 0 <= i < set.len()
                &&& !subset.deep_view().contains(set.deep_view()[i])
                &&& #[trigger] agree_before(
                    set.deep_view(),
                    candidate(set.deep_view(), subset.deep_view(), i),
                    c.deep_view(),
                    i + 1,
                )
            },
        next is Some && set.deep_view().no_duplicates() ==> lectic_less(
            set.deep_view(),
            subset.deep_view(),
            next->0.deep_view(),
        ),
        next is None ==> forall|q: int|
            0 <= q < set.len() ==> #[trigger] passes_at(
                closure,
                set.deep_view(),
                subset.deep_view(),
                q,
            ),
{
    let ghost base = set.deep_view();
    let ghost start = subset.deep_view();
    let mut upto: usize = set.len();
    while upto > 0
        invariant
            upto <= set.len(),
            base == set.deep_view(),
            start == subset.deep_view(),
            forall|s: &[String], i: int|
                #![trigger call_requires(closure, (s,)), asks_at(closure, base, start, i)]
                asks_at(closure, base, start, i) && s.deep_view() == candidate(base, start, i)
                    ==> call_requires(closure, (s,)),
            forall|s: &[String], i: int, r: Option<Vec<String>>|
                #![trigger call_ensures(closure, (s,), r), asks_at(closure, base, start, i)]
                asks_at(closure, base, start, i) && s.deep_view() == candidate(base, start, i)
                    && call_ensures(closure, (s,), r) ==> r is Some,
            forall|q: int|
                upto <= q < set.len() ==> #[trigger] passes_at(closure, base, start, q),
            forall|cl: spec_fn(Seq<Seq<char>>) -> Option<Seq<Seq<char>>>| #[trigger]
                agrees(closure, cl) ==> lectic_next(base, start, cl, set.len() as int)
                    == lectic_next(base, start, cl, upto as int),
        decreases upto,
    {
        let i: usize = upto - 1;
        if !contains_name(subset, &set[i]) {
            let earlier = slice_subrange(set, 0, i);
            let mut trial = restrict_names(subset, earlier);
            let ghost kept = trial.deep_view();
            trial.push(set[i].clone());
            proof {
                assert(earlier.deep_view() =~= base.take(i as int));
                assert(trial.deep_view() =~= kept.push(base[i as int]));
                assert(trial.deep_view() == candidate(base, start, i as int));
                assert(asks_at(closure, base, start, i as int));
            }
            let asked = as_names(&trial);
            let answered = closure(asked);
            assert(call_ensures(closure, (asked,), answered));
            let next = answered.unwrap();
            let answer = as_names(&next);
            if lexical_m(set, asked, answer) >= upto {
                proof {
                    assert forall|cl: spec_fn(Seq<Seq<char>>) -> Option<Seq<Seq<char>>>| #[trigger]
                        agrees(closure, cl) implies lectic_next(base, start, cl, set.len() as int)
                        == Some(next.deep_view()) by {
                        assert(call_ensures(closure, (asked,), Some(next)));
                    }
                    assert(agree_before(
                        base,
                        candidate(base, start, i as int),
                        next.deep_view(),
                        i + 1,
                    ));
                    if base.no_duplicates() {
                        lemma_accepted_is_greater(base, start, next.deep_view(), i as int);
                    }
                }
                return Some(next);
            }
            proof {
                assert(call_ensures(closure, (asked,), Some(next)));
                assert(passes_at(closure, base, start, i as int));
                assert forall|cl: spec_fn(Seq<Seq<char>>) -> Option<Seq<Seq<char>>>| #[trigger]
                    agrees(closure, cl) implies lectic_next(base, start, cl, set.len() as int)
                    == lectic_next(base, start, cl, i as int) by {
                    assert(call_ensures(closure, (asked,), Some(next)));
                }
            }
        }
        upto = i;
    }
    None
}

} // verus!
