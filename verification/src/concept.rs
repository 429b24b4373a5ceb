//! Formal concepts: a set of objects together with the set of attributes
//! that they share.

use crate::names::{
    as_names, included, includes_all, lemma_proper_part_is_shorter, lemma_same_members,
    same_members,
};
use std::cmp::Ordering;
use vstd::prelude::*;

verus! {

/// A set of objects and a set of attributes. In a concept of a context the
/// attributes are those that the objects share, and the objects are those
/// that have the attributes.
#[derive(Debug, PartialEq, Eq)]
pub struct Concept {
    pub extents: Vec<String>,
    pub intents: Vec<String>,
}

/// A concept as a mathematical value.
pub struct ConceptView {
    pub extents: Seq<Seq<char>>,
    pub intents: Seq<Seq<char>>,
}

impl View for Concept {
    type V = ConceptView;

    open spec fn view(&self) -> ConceptView {
        ConceptView { extents: self.extents.deep_view(), intents: self.intents.deep_view() }
    }
}

impl DeepView for Concept {
    type V = ConceptView;

    open spec fn deep_view(&self) -> ConceptView {
        self@
    }
}

/// The two concepts are the same: they hold the same attributes and the
/// same objects.
pub open spec fn alike(x: ConceptView, y: ConceptView) -> bool {
    same_members(x.intents, y.intents) && same_members(x.extents, y.extents)
}

/// How `x` ranks against `y`. A concept ranks equal to itself: to any that
/// holds the same attributes and objects. Otherwise the concept with more
/// attributes is the more specific one and ranks above. If the attributes of
/// `x` are among those of `y`, then `x` ranks below, and above in the
/// converse case. If neither holds, the objects decide in the opposite sense:
/// `x` ranks above if its objects are among those of `y`, and below in the
/// converse case. What is left is ranked by the number of attributes, the
/// fewer the lower, and then by the number of objects, the more the lower.
pub open spec fn ranking(x: ConceptView, y: ConceptView) -> Ordering {
    if alike(x, y) {
        Ordering::Equal
    } else if included(x.intents, y.intents) {
        Ordering::Less
    } else if included(y.intents, x.intents) {
        Ordering::Greater
    } else if included(x.extents, y.extents) {
        Ordering::Greater
    } else if included(y.extents, x.extents) {
        Ordering::Less
    } else if x.intents.len() < y.intents.len() {
        Ordering::Less
    } else if x.intents.len() > y.intents.len() {
        Ordering::Greater
    } else if y.extents.len() < x.extents.len() {
        Ordering::Less
    } else if y.extents.len() > x.extents.len() {
        Ordering::Greater
    } else {
        Ordering::Equal
    }
}

/// `x` ranks below `y`.
pub open spec fn below(x: ConceptView, y: ConceptView) -> bool {
    ranking(x, y) is Less
}

/// `x` is the more specific concept: it has the attributes of `y` and more.
pub open spec fn more_specific(x: ConceptView, y: ConceptView) -> bool {
    included(y.intents, x.intents) && !included(x.intents, y.intents)
}

/// Neither concept names an object or an attribute twice.
pub open spec fn without_repeats(x: ConceptView) -> bool {
    x.intents.no_duplicates() && x.extents.no_duplicates()
}

/// The two concepts go together as two concepts of one context do: their
/// attribute sets differ, and the one has the attributes of the other just
/// when the other has the objects of the one.
pub open spec fn go_together(x: ConceptView, y: ConceptView) -> bool {
    &&& !same_members(x.intents, y.intents)
    &&& included(x.intents, y.intents) <==> included(y.extents, x.extents)
    &&& included(y.intents, x.intents) <==> included(x.extents, y.extents)
}

/// `x` has fewer attributes than `y`, or as many and more objects.
pub open spec fn counts_below(x: ConceptView, y: ConceptView) -> bool {
    x.intents.len() < y.intents.len() || (x.intents.len() == y.intents.len() && x.extents.len()
        > y.extents.len())
}

/// A concept ranks equal to itself.
pub proof fn lemma_ranks_equal_to_itself(x: ConceptView)
    ensures
        ranking(x, x) == Ordering::Equal,
{
}

/// Among concepts that go together, the rank is by the numbers of
/// attributes and objects; and the more specific of two ranks above.
pub proof fn lemma_rank_by_counts(x: ConceptView, y: ConceptView)
    requires
        without_repeats(x),
        without_repeats(y),
        go_together(x, y),
    ensures
        below(x, y) <==> counts_below(x, y),
        more_specific(y, x) ==> below(x, y),
{
    if included(x.intents, y.intents) {
        lemma_proper_part_is_shorter(x.intents, y.intents);
    } else if included(y.intents, x.intents) {
        lemma_proper_part_is_shorter(y.intents, x.intents);
    }
}

impl Concept {
    /// How this concept ranks against `other`: the order in which concepts
    /// are placed in a lattice, the highest first.
    pub fn cmp(&self, other: &Self) -> (order: Ordering)
        ensures
            order == ranking(self@, other@),
    {
        assert(self.intents.deep_view().len() == self.intents.len());
        assert(other.intents.deep_view().len() == other.intents.len());
        assert(self.extents.deep_view().len() == self.extents.len());
        assert(other.extents.deep_view().len() == other.extents.len());
        proof {
            lemma_same_members(self@.intents, other@.intents);
            lemma_same_members(self@.extents, other@.extents);
        }
        let fewer_attributes = includes_all(as_names(&self.intents), as_names(&other.intents));
        let more_attributes = includes_all(as_names(&other.intents), as_names(&self.intents));
        let fewer_objects = includes_all(as_names(&self.extents), as_names(&other.extents));
        let more_objects = includes_all(as_names(&other.extents), as_names(&self.extents));
        if fewer_attributes && more_attributes && fewer_objects && more_objects {
            Ordering::Equal
        } else if fewer_attributes {
            Ordering::Less
        } else if more_attributes {
            Ordering::Greater
        } else if fewer_objects {
            Ordering::Greater
        } else if more_objects {
            Ordering::Less
        } else if self.intents.len() < other.intents.len() {
            Ordering::Less
        } else if self.intents.len() > other.intents.len() {
            Ordering::Greater
        } else if other.extents.len() < self.extents.len() {
            Ordering::Less
        } else if other.extents.len() > self.extents.len() {
            Ordering::Greater
        } else {
            Ordering::Equal
        }
    }

    /// The same as `cmp`: any two concepts are ranked.
    pub fn partial_cmp(&self, other: &Self) -> (order: Option<Ordering>)
        ensures
            order == Some(ranking(self@, other@)),
    {
        Some(self.cmp(other))
    }

    /// Whether this concept ranks below `other`.
    pub fn ranks_below(&self, other: &Self) -> (lower: bool)
        ensures
            lower == below(self@, other@),
    {
        match self.cmp(other) {
            Ordering::Less => true,
            Ordering::Equal => false,
            Ordering::Greater => false,
        }
    }
}

} // verus!
