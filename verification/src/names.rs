//! Finite sets of names, held as sequences.
//!
//! Objects and attributes are known by their names. A set of them is a
//! sequence of names, and what counts is which names occur in it. A name is
//! modelled by the sequence of its characters.

use vstd::prelude::*;

verus! {

/// Every name of `a` occurs in `b`.
pub open spec fn included(a: Seq<Seq<char>>, b: Seq<Seq<char>>) -> bool {
    forall|x: Seq<char>| a.contains(x) ==> b.contains(x)
}

/// `a` and `b` hold the same names, in whatever order and however often.
pub open spec fn same_members(a: Seq<Seq<char>>, b: Seq<Seq<char>>) -> bool {
    forall|x: Seq<char>| a.contains(x) == b.contains(x)
}

/// Holding the same names is including each other.
pub proof fn lemma_same_members(a: Seq<Seq<char>>, b: Seq<Seq<char>>)
    ensures
        same_members(a, b) <==> included(a, b) && included(b, a),
{
}

/// Of two sequences without repeats, one that holds only names of the other
/// and not all of them is the shorter one.
pub proof fn lemma_proper_part_is_shorter(part: Seq<Seq<char>>, whole: Seq<Seq<char>>)
    requires
        part.no_duplicates(),
        whole.no_duplicates(),
        included(part, whole),
        !included(whole, part),
    ensures
        part.len() < whole.len(),
{
    broadcast use vstd::set::group_set_axioms;

    part.unique_seq_to_set();
    whole.unique_seq_to_set();
    vstd::seq_lib::seq_to_set_is_finite(whole);
    let x = choose|x: Seq<char>| whole.contains(x) && !part.contains(x);
    let smaller = whole.to_set().remove(x);
    assert(part.to_set().subset_of(smaller)) by {
        assert forall|n: Seq<char>| part.to_set().contains(n) implies smaller.contains(n) by {
            assert(part.contains(n));
            assert(whole.contains(n));
        }
    }
    assert(whole.to_set().contains(x));
    vstd::set_lib::lemma_len_subset(part.to_set(), smaller);
}

/// The names of `names` at the positions where `keep` is set, in their order.
pub open spec fn pick(names: Seq<Seq<char>>, keep: Seq<bool>) -> Seq<Seq<char>>
    decreases names.len(),
{
    if names.len() == 0 {
        Seq::empty()
    } else if keep.last() {
        pick(names.drop_last(), keep.drop_last()).push(names.last())
    } else {
        pick(names.drop_last(), keep.drop_last())
    }
}

/// A picked name stands at a kept position, and every kept position is picked.
pub proof fn lemma_pick_contains(names: Seq<Seq<char>>, keep: Seq<bool>, x: Seq<char>)
    requires
        keep.len() == names.len(),
    ensures
        pick(names, keep).contains(x) <==> exists|j: int|
            0 <= j < names.len() && keep[j] && names[j] == x,
    decreases names.len(),
{
    if names.len() == 0 {
    } else {
        let front = pick(names.drop_last(), keep.drop_last());
        lemma_pick_contains(names.drop_last(), keep.drop_last(), x);
        let last = names.len() - 1;
        if pick(names, keep).contains(x) {
            if keep.last() && names.last() == x {
                assert(keep[last] && names[last] == x);
            } else {
                if keep.last() {
                    let k = choose|k: int| 0 <= k < front.push(names.last()).len() && front.push(
                        names.last(),
                    )[k] == x;
                    assert(front[k] == x);
                }
                assert(front.contains(x));
                let j = choose|j: int|
                    0 <= j < names.drop_last().len() && keep.drop_last()[j] && names.drop_last()[j]
                        == x;
                assert(keep[j] && names[j] == x);
            }
        }
        if exists|j: int| 0 <= j < names.len() && keep[j] && names[j] == x {
            let j = choose|j: int| 0 <= j < names.len() && keep[j] && names[j] == x;
            if j == last {
                assert(front.push(names.last())[front.len() as int] == x);
            } else {
                assert(keep.drop_last()[j] && names.drop_last()[j] == x);
                assert(front.contains(x));
                let k = choose|k: int| 0 <= k < front.len() && front[k] == x;
                if keep.last() {
                    assert(front.push(names.last())[k] == x);
                }
            }
        }
    }
}

/// The names of `subset` that occur in `allowed`, in their order.
pub open spec fn restrict(subset: Seq<Seq<char>>, allowed: Seq<Seq<char>>) -> Seq<Seq<char>> {
    pick(subset, Seq::new(subset.len(), |k: int| allowed.contains(subset[k])))
}

/// A name is in `restrict(subset, allowed)` when it is in both.
pub proof fn lemma_restrict_contains(
    subset: Seq<Seq<char>>,
    allowed: Seq<Seq<char>>,
    x: Seq<char>,
)
    ensures
        restrict(subset, allowed).contains(x) <==> subset.contains(x) && allowed.contains(x),
{
    let keep = Seq::new(subset.len(), |k: int| allowed.contains(subset[k]));
    lemma_pick_contains(subset, keep, x);
    if subset.contains(x) && allowed.contains(x) {
        let j = choose|j: int| 0 <= j < subset.len() && subset[j] == x;
        assert(keep[j] && subset[j] == x);
    }
}

/// The names of a vector as a slice.
pub fn as_names(names: &Vec<String>) -> (slice: &[String])
    ensures
        slice.deep_view() == names.deep_view(),
        slice.len() == names.len(),
{
    let slice = names.as_slice();
    assert(slice.deep_view() =~= names.deep_view());
    slice
}

/// Whether `name` occurs in `names`.
pub fn contains_name(names: &[String], name: &String) -> (found: bool)
    ensures
        found == names.deep_view().contains(name@),
{
    let mut i: usize = 0;
    while i < names.len()
        invariant
            i <= names.len(),
            forall|k: int| 0 <= k < i ==> names.deep_view()[k] != name@,
        decreases names.len() - i,
    {
        if names[i] == *name {
            assert(names.deep_view()[i as int] == name@);
            return true;
        }
        i += 1;
    }
    false
}

/// The first position of `name` in `names`, if it occurs there.
pub fn position_of(names: &[String], name: &String) -> (at: Option<usize>)
    ensures
        match at {
            Some(i) => i < names.len() && names.deep_view()[i as int] == name@ && forall|k: int|
                0 <= k < i ==> names.deep_view()[k] != name@,
            None => !names.deep_view().contains(name@),
        },
{
    let mut i: usize = 0;
    while i < names.len()
        invariant
            i <= names.len(),
            forall|k: int| 0 <= k < i ==> names.deep_view()[k] != name@,
        decreases names.len() - i,
    {
        if names[i] == *name {
            return Some(i);
        }
        i += 1;
    }
    None
}

/// Whether every name of `a` occurs in `b`.
pub fn includes_all(a: &[String], b: &[String]) -> (all: bool)
    ensures
        all == included(a.deep_view(), b.deep_view()),
{
    let mut i: usize = 0;
    while i < a.len()
        invariant
            i <= a.len(),
            forall|k: int| 0 <= k < i ==> b.deep_view().contains(#[trigger] a.deep_view()[k]),
        decreases a.len() - i,
    {
        if !contains_name(b, &a[i]) {
            assert(a.deep_view().contains(a.deep_view()[i as int]));
            return false;
        }
        i += 1;
    }
    true
}

/// Whether `a` and `b` are the same names in the same order.
pub fn same_sequence(a: &[String], b: &[String]) -> (same: bool)
    ensures
        same == (a.deep_view() == b.deep_view()),
{
    if a.len() != b.len() {
        assert(a.deep_view().len() != b.deep_view().len());
        return false;
    }
    let mut i: usize = 0;
    while i < a.len()
        invariant
            i <= a.len(),
            a.len() == b.len(),
            forall|k: int| 0 <= k < i ==> a.deep_view()[k] == b.deep_view()[k],
        decreases a.len() - i,
    {
        if a[i] != b[i] {
            assert(a.deep_view()[i as int] != b.deep_view()[i as int]);
            return false;
        }
        i += 1;
    }
    assert(a.deep_view() =~= b.deep_view());
    true
}

/// The names at the kept positions, in their order.
pub fn pick_names(names: &[String], keep: &Vec<bool>) -> (picked: Vec<String>)
    requires
        keep.len() == names.len(),
    ensures
        picked.deep_view() == pick(names.deep_view(), keep@),
{
    let mut picked: Vec<String> = Vec::new();
    let mut i: usize = 0;
    assert(names.deep_view().take(0) =~= Seq::empty());
    while i < names.len()
        invariant
            i <= names.len(),
            keep.len() == names.len(),
            picked.deep_view() == pick(names.deep_view().take(i as int), keep@.take(i as int)),
        decreases names.len() - i,
    {
        let ghost before = picked.deep_view();
        proof {
            let front = names.deep_view().take(i + 1);
            assert(front.drop_last() =~= names.deep_view().take(i as int));
            assert(keep@.take(i + 1).drop_last() =~= keep@.take(i as int));
            assert(front.last() == names.deep_view()[i as int]);
        }
        if keep[i] {
            picked.push(names[i].clone());
            assert(picked.deep_view() =~= before.push(names.deep_view()[i as int]));
        }
        i += 1;
    }
    assert(names.deep_view().take(i as int) =~= names.deep_view());
    assert(keep@.take(i as int) =~= keep@);
    picked
}

/// The names of `subset` that occur in `allowed`, in their order.
pub fn restrict_names(subset: &[String], allowed: &[String]) -> (kept: Vec<String>)
    ensures
        kept.deep_view() == restrict(subset.deep_view(), allowed.deep_view()),
{
    let mut keep: Vec<bool> = Vec::new();
    let mut i: usize = 0;
    while i < subset.len()
        invariant
            i <= subset.len(),
            keep.len() == i,
            forall|k: int|
                0 <= k < i ==> keep[k] == allowed.deep_view().contains(subset.deep_view()[k]),
        decreases subset.len() - i,
    {
        keep.push(contains_name(allowed, &subset[i]));
        i += 1;
    }
    assert(keep@ =~= Seq::new(
        subset.deep_view().len(),
        |k: int| allowed.deep_view().contains(subset.deep_view()[k]),
    ));
    pick_names(subset, &keep)
}

/// Whether no name occurs twice.
pub fn all_different(names: &[String]) -> (different: bool)
    ensures
        different == names.deep_view().no_duplicates(),
{
    let mut j: usize = 0;
    while j < names.len()
        invariant
            j <= names.len(),
            forall|a: int, b: int|
                0 <= a < b < j ==> names.deep_view()[a] != names.deep_view()[b],
        decreases names.len() - j,
    {
        let mut i: usize = 0;
        while i < j
            invariant
                i <= j < names.len(),
                forall|a: int| 0 <= a < i ==> names.deep_view()[a] != names.deep_view()[j as int],
            decreases j - i,
        {
            if names[i] == names[j] {
                assert(names.deep_view()[i as int] == names.deep_view()[j as int]);
                return false;
            }
            i += 1;
        }
        j += 1;
    }
    true
}

/// A fresh vector with the same names in the same order.
pub fn copy_names(names: &[String]) -> (copy: Vec<String>)
    ensures
        copy.deep_view() == names.deep_view(),
{
    let mut copy: Vec<String> = Vec::new();
    let mut i: usize = 0;
    while i < names.len()
        invariant
            i <= names.len(),
            copy.len() == i,
            forall|k: int| 0 <= k < i ==> copy.deep_view()[k] == names.deep_view()[k],
        decreases names.len() - i,
    {
        copy.push(names[i].clone());
        i += 1;
    }
    assert(copy.deep_view() =~= names.deep_view());
    copy
}

} // verus!
