//! Implications between sets of attributes, and the closure of a set of
//! attributes under a family of implications.

use crate::closed_sets::{closed_under, closure_operator};
use crate::names::{as_names, includes_all, included};
use crate::order::{insert_all, lemma_sorted_unique, strictly_sorted};
use vstd::prelude::*;

verus! {

/// Whatever has all of `premise` has all of `conclusion`.
#[derive(Clone, Debug, PartialEq)]
pub struct Implication {
    pub premise: Vec<String>,
    pub conclusion: Vec<String>,
}

/// An implication as a mathematical value.
pub struct ImplicationView {
    pub premise: Seq<Seq<char>>,
    pub conclusion: Seq<Seq<char>>,
}

impl View for Implication {
    type V = ImplicationView;

    open spec fn view(&self) -> ImplicationView {
        ImplicationView {
            premise: self.premise.deep_view(),
            conclusion: self.conclusion.deep_view(),
        }
    }
}

impl DeepView for Implication {
    type V = ImplicationView;

    open spec fn deep_view(&self) -> ImplicationView {
        self@
    }
}

/// The set `t` meets the implication: it holds the conclusion if it holds
/// the premise.
pub open spec fn holds_in(implication: ImplicationView, t: Set<Seq<char>>) -> bool {
    (forall|n: Seq<char>| implication.premise.contains(n) ==> t.contains(n)) ==> (forall|
        n: Seq<char>,
    |
        implication.conclusion.contains(n) ==> t.contains(n))
}

/// The set `t` meets every implication of `basis`.
pub open spec fn respects(basis: Seq<ImplicationView>, t: Set<Seq<char>>) -> bool {
    forall|k: int| 0 <= k < basis.len() ==> holds_in(#[trigger] basis[k], t)
}

/// The least set that holds the names of `x` and meets every implication of
/// `basis`: what all such sets have in common.
pub open spec fn saturation(basis: Seq<ImplicationView>, x: Seq<Seq<char>>) -> Set<Seq<char>> {
    Set::new(
        |n: Seq<char>|
            forall|t: Set<Seq<char>>|
                #[trigger] respects(basis, t) && (forall|m: Seq<char>|
                    x.contains(m) ==> t.contains(m)) ==> t.contains(n),
    )
}

/// The names of a set in the order of names, each once. For a set that
/// cannot be listed so, which an infinite one cannot, the value is left open.
pub open spec fn listing(s: Set<Seq<char>>) -> Seq<Seq<char>> {
    choose|q: Seq<Seq<char>>| strictly_sorted(q) && forall|n: Seq<char>| q.contains(n) == s.contains(n)
}

/// The closure of `x` under `basis`, listed in the order of names.
pub open spec fn closure_under(basis: Seq<ImplicationView>, x: Seq<Seq<char>>) -> Seq<Seq<char>> {
    listing(saturation(basis, x))
}

/// The closure under `basis`, as a function.
pub open spec fn under(basis: Seq<ImplicationView>) -> spec_fn(Seq<Seq<char>>) -> Option<
    Seq<Seq<char>>,
> {
    |x: Seq<Seq<char>>| Some(closure_under(basis, x))
}

/// The implications of a vector as a slice.
pub fn as_rules(basis: &Vec<Implication>) -> (slice: &[Implication])
    ensures
        slice.deep_view() == basis.deep_view(),
{
    let slice = basis.as_slice();
    assert(slice.deep_view() =~= basis.deep_view());
    slice
}

/// The names that a sequence holds, as a set.
pub open spec fn members(x: Seq<Seq<char>>) -> Set<Seq<char>> {
    Set::new(|n: Seq<char>| x.contains(n))
}

/// The conclusions of all implications, one after the other.
pub open spec fn all_conclusions(basis: Seq<ImplicationView>) -> Seq<Seq<char>>
    decreases basis.len(),
{
    if basis.len() == 0 {
        Seq::empty()
    } else {
        all_conclusions(basis.drop_last()) + basis.last().conclusion
    }
}

/// A name of a conclusion is among all conclusions.
proof fn lemma_all_conclusions(basis: Seq<ImplicationView>, k: int, n: Seq<char>)
    requires
        0 <= k < basis.len(),
        basis[k].conclusion.contains(n),
    ensures
        all_conclusions(basis).contains(n),
    decreases basis.len(),
{
    let front = all_conclusions(basis.drop_last());
    let whole = all_conclusions(basis);
    if k == basis.len() - 1 {
        let at = choose|at: int|
            0 <= at < basis[k].conclusion.len() && basis[k].conclusion[at] == n;
        assert(whole[front.len() + at] == n);
    } else {
        lemma_all_conclusions(basis.drop_last(), k, n);
        let at = choose|at: int| 0 <= at < front.len() && front[at] == n;
        assert(whole[at] == n);
    }
}

/// The saturation holds what it starts from and meets every implication.
pub proof fn lemma_saturation_closed(basis: Seq<ImplicationView>, x: Seq<Seq<char>>)
    ensures
        respects(basis, saturation(basis, x)),
        forall|n: Seq<char>| x.contains(n) ==> saturation(basis, x).contains(n),
{
    let least = saturation(basis, x);
    assert forall|k: int| 0 <= k < basis.len() implies holds_in(#[trigger] basis[k], least) by {
        if forall|n: Seq<char>| basis[k].premise.contains(n) ==> least.contains(n) {
            assert forall|n: Seq<char>| basis[k].conclusion.contains(n) implies least.contains(
                n,
            ) by {
                assert forall|t: Set<Seq<char>>|
                    #[trigger] respects(basis, t) && (forall|m: Seq<char>|
                        x.contains(m) ==> t.contains(m)) implies t.contains(n) by {
                    assert(holds_in(basis[k], t));
                    assert forall|m: Seq<char>| basis[k].premise.contains(m) implies t.contains(
                        m,
                    ) by {
                        assert(least.contains(m));
                    }
                }
            }
        }
    }
}

/// The saturation is included in every set that holds what it starts from
/// and meets every implication.
pub proof fn lemma_saturation_least(
    basis: Seq<ImplicationView>,
    x: Seq<Seq<char>>,
    t: Set<Seq<char>>,
)
    requires
        respects(basis, t),
        forall|m: Seq<char>| x.contains(m) ==> t.contains(m),
    ensures
        forall|n: Seq<char>| saturation(basis, x).contains(n) ==> t.contains(n),
{
}

/// The closure under a family of implications lists the saturation, in the
/// order of names.
pub proof fn lemma_closure_under(basis: Seq<ImplicationView>, x: Seq<Seq<char>>)
    ensures
        strictly_sorted(closure_under(basis, x)),
        forall|n: Seq<char>|
            closure_under(basis, x).contains(n) == saturation(basis, x).contains(n),
{
    let pool = x + all_conclusions(basis);
    let reach = members(pool);
    assert(respects(basis, reach)) by {
        assert forall|k: int| 0 <= k < basis.len() implies holds_in(#[trigger] basis[k], reach) by {
            assert forall|n: Seq<char>| basis[k].conclusion.contains(n) implies reach.contains(
                n,
            ) by {
                lemma_all_conclusions(basis, k, n);
                let at = choose|at: int|
                    0 <= at < all_conclusions(basis).len() && all_conclusions(basis)[at] == n;
                assert(pool[x.len() + at] == n);
            }
        }
    }
    assert forall|m: Seq<char>| x.contains(m) implies reach.contains(m) by {
        let at = choose|at: int| 0 <= at < x.len() && x[at] == m;
        assert(pool[at] == m);
    }
    lemma_saturation_least(basis, x, reach);
    let q = crate::order::sorted_listing(pool, saturation(basis, x));
    lemma_listing(q, saturation(basis, x));
}

/// The closure under a family of implications whose conclusions are among
/// the names of `set` is a closure operator on the subsets of `set`.
pub proof fn lemma_under_is_closure_operator(set: Seq<Seq<char>>, basis: Seq<ImplicationView>)
    requires
        forall|k: int| 0 <= k < basis.len() ==> included((#[trigger] basis[k]).conclusion, set),
    ensures
        closure_operator(set, under(basis)),
{
    let cl = under(basis);
    assert forall|x: Seq<Seq<char>>| included(x, set) implies (#[trigger] cl(x)) is Some
        && included(cl(x)->0, set) by {
        lemma_closure_under(basis, x);
        assert(respects(basis, members(set))) by {
            assert forall|k: int| 0 <= k < basis.len() implies holds_in(
                #[trigger] basis[k],
                members(set),
            ) by {}
        }
        lemma_saturation_least(basis, x, members(set));
    }
    assert forall|x: Seq<Seq<char>>| (#[trigger] cl(x)) is Some implies included(x, cl(x)->0) by {
        lemma_closure_under(basis, x);
        lemma_saturation_closed(basis, x);
    }
    assert forall|x: Seq<Seq<char>>, y: Seq<Seq<char>>|
        included(x, y) && (#[trigger] cl(x)) is Some && (#[trigger] cl(y))
            is Some implies included(cl(x)->0, cl(y)->0) by {
        lemma_closure_under(basis, x);
        lemma_closure_under(basis, y);
        lemma_saturation_closed(basis, y);
        lemma_saturation_least(basis, x, saturation(basis, y));
    }
    assert forall|x: Seq<Seq<char>>, y: Seq<Seq<char>>|
        #![trigger cl(x), closed_under(cl, y)]
        cl(x) == Some(y) implies closed_under(cl, y) by {
        lemma_closure_under(basis, x);
        lemma_closure_under(basis, y);
        lemma_saturation_closed(basis, x);
        lemma_saturation_closed(basis, y);
        assert(respects(basis, members(y))) by {
            assert(members(y) =~= saturation(basis, x));
        }
        lemma_saturation_least(basis, y, members(y));
    }
}

/// A set that meets every implication is closed under them.
pub proof fn lemma_respecting_is_closed(basis: Seq<ImplicationView>, y: Seq<Seq<char>>)
    requires
        respects(basis, members(y)),
    ensures
        closed_under(under(basis), y),
{
    lemma_closure_under(basis, y);
    lemma_saturation_closed(basis, y);
    lemma_saturation_least(basis, y, members(y));
}

/// The number of entries that are not set.
pub open spec fn unset(flags: Seq<bool>) -> nat
    decreases flags.len(),
{
    if flags.len() == 0 {
        0
    } else if flags.last() {
        unset(flags.drop_last())
    } else {
        unset(flags.drop_last()) + 1
    }
}

proof fn lemma_unset_all(flags: Seq<bool>)
    requires
        forall|k: int| 0 <= k < flags.len() ==> !flags[k],
    ensures
        unset(flags) == flags.len(),
    decreases flags.len(),
{
    if flags.len() > 0 {
        lemma_unset_all(flags.drop_last());
    }
}

proof fn lemma_unset_update(flags: Seq<bool>, k: int)
    requires
        0 <= k < flags.len(),
        !flags[k],
    ensures
        unset(flags.update(k, true)) + 1 == unset(flags),
    decreases flags.len(),
{
    if k == flags.len() - 1 {
        assert(flags.update(k, true).drop_last() =~= flags.drop_last());
    } else {
        lemma_unset_update(flags.drop_last(), k);
        assert(flags.update(k, true).drop_last() =~= flags.drop_last().update(k, true));
    }
}

/// A sequence that lists a set is the listing of that set.
pub proof fn lemma_listing(q: Seq<Seq<char>>, s: Set<Seq<char>>)
    requires
        strictly_sorted(q),
        forall|n: Seq<char>| q.contains(n) == s.contains(n),
    ensures
        listing(s) == q,
{
    let chosen = listing(s);
    lemma_sorted_unique(chosen, q);
}

/// The closure of `set` under the implications of `basis`: the least set of
/// names that holds `set` and, with the premise of any of the implications,
/// its conclusion. The names come in the order of names, each once.
pub fn preclosure_operator(basis: &[Implication], set: &[String]) -> (closed: Vec<String>)
    ensures
        closed.deep_view() == closure_under(basis.deep_view(), set.deep_view()),
        strictly_sorted(closed.deep_view()),
        forall|n: Seq<char>|
            closed.deep_view().contains(n) == saturation(
                basis.deep_view(),
                set.deep_view(),
            ).contains(n),
{
    let ghost rules = basis.deep_view();
    let ghost given = set.deep_view();
    let mut x: Vec<String> = Vec::new();
    insert_all(&mut x, set);
    let mut used: Vec<bool> = Vec::new();
    let mut k: usize = 0;
    while k < basis.len()
        invariant
            k <= basis.len(),
            used.len() == k,
            forall|j: int| 0 <= j < k ==> !used[j],
        decreases basis.len() - k,
    {
        used.push(false);
        k += 1;
    }
    proof {
        lemma_unset_all(used@);
    }
    let mut stable = false;
    while !stable
        invariant
            rules == basis.deep_view(),
            given == set.deep_view(),
            used.len() == basis.len(),
            strictly_sorted(x.deep_view()),
            included(given, x.deep_view()),
            forall|t: Set<Seq<char>>|
                #[trigger] respects(rules, t) && (forall|m: Seq<char>|
                    given.contains(m) ==> t.contains(m)) ==> forall|n: Seq<char>|
                    x.deep_view().contains(n) ==> t.contains(n),
            forall|j: int|
                0 <= j < used.len() && used[j] ==> included(
                    (#[trigger] rules[j]).conclusion,
                    x.deep_view(),
                ),
            stable ==> forall|j: int|
                0 <= j < used.len() && !used[j] ==> !included(
                    (#[trigger] rules[j]).premise,
                    x.deep_view(),
                ),
        decreases
                unset(used@) + if stable {
                    0nat
                } else {
                    1nat
                },
    {
        let ghost at_start = x.deep_view();
        let ghost unset_at_start = unset(used@);
        let mut fired = false;
        let mut k: usize = 0;
        while k < basis.len()
            invariant
                k <= basis.len(),
                rules == basis.deep_view(),
                given == set.deep_view(),
                used.len() == basis.len(),
                strictly_sorted(x.deep_view()),
                included(given, x.deep_view()),
                forall|t: Set<Seq<char>>|
                    #[trigger] respects(rules, t) && (forall|m: Seq<char>|
                        given.contains(m) ==> t.contains(m)) ==> forall|n: Seq<char>|
                        x.deep_view().contains(n) ==> t.contains(n),
                forall|j: int|
                    0 <= j < used.len() && used[j] ==> included(
                        (#[trigger] rules[j]).conclusion,
                        x.deep_view(),
                    ),
                fired ==> unset(used@) < unset_at_start,
                !fired ==> unset(used@) == unset_at_start && x.deep_view() == at_start
                    && forall|j: int|
                    0 <= j < k && !used[j] ==> !included(
                        (#[trigger] rules[j]).premise,
                        x.deep_view(),
                    ),
            decreases basis.len() - k,
        {
            let rule = &basis[k];
            assert(rules[k as int] == rule@);
            if !used[k] && includes_all(as_names(&rule.premise), as_names(&x)) {
                let ghost before = x.deep_view();
                let ghost adding = rule@.conclusion;
                insert_all(&mut x, as_names(&rule.conclusion));
                proof {
                    lemma_unset_update(used@, k as int);
                    assert(included(adding, x.deep_view()));
                    assert forall|t: Set<Seq<char>>|
                        #[trigger] respects(rules, t) && (forall|m: Seq<char>|
                            given.contains(m) ==> t.contains(m)) implies forall|n: Seq<char>|
                        x.deep_view().contains(n) ==> t.contains(n) by {
                        assert(holds_in(rules[k as int], t));
                        assert(forall|n: Seq<char>| before.contains(n) ==> t.contains(n));
                    }
                }
                used.set(k, true);
                fired = true;
            }
            k += 1;
        }
        if !fired {
            stable = true;
        }
    }
    proof {
        let listed = x.deep_view();
        let least = saturation(rules, given);
        let held = Set::new(|n: Seq<char>| listed.contains(n));
        assert(respects(rules, held)) by {
            assert forall|j: int| 0 <= j < rules.len() implies holds_in(
                #[trigger] rules[j],
                held,
            ) by {
                if forall|n: Seq<char>| rules[j].premise.contains(n) ==> held.contains(n) {
                    assert forall|n: Seq<char>| rules[j].premise.contains(n) implies listed.contains(
                        n,
                    ) by {
                        assert(held.contains(n));
                    }
                    assert(included(rules[j].premise, listed));
                    assert(used[j]);
                    assert(included(rules[j].conclusion, listed));
                }
            }
        }
        assert forall|n: Seq<char>| listed.contains(n) == least.contains(n) by {
            if least.contains(n) {
                assert(held.contains(n));
            }
        }
        lemma_listing(listed, least);
    }
    x
}

} // verus!
