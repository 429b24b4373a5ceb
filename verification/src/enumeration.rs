//! The concepts of a context, one after the other in the lectic order of
//! their attribute sets.

use crate::closed_sets::{accepts_at, closed_under, lemma_next_closure_least, lemma_scan_result};
use crate::concept::{Concept, ConceptView};
use crate::context::{lemma_derive_defined, lemma_derive_within, Context, ContextView};
use crate::lectic::{
    agree_before, agrees, asks_at, candidate, lectic_bound, lectic_less, lectic_next, lectic_rank,
    lemma_accepted_is_greater, lemma_agree_same_members, lemma_included_not_after,
    lemma_lectic_total, lemma_lectic_transitive, lemma_next_is_greater, lemma_rank_bound,
    lemma_rank_less, next_closure,
};
use crate::names::{as_names, copy_names, included, same_members};
use vstd::prelude::*;

verus! {

impl ContextView {
    /// `all` is the run of the concepts from the closure of no attribute at
    /// all onwards: each one's attributes are the next closed set after
    /// those of the one before, each one's objects are those that have its
    /// attributes, and after the last one there is no next closed set.
    pub open spec fn enumerated_by(self, all: Seq<ConceptView>) -> bool {
        let width = self.attributes.len() as int;
        &&& all.len() > 0
        &&& Some(all[0].intents) == self.closure_extents(Seq::empty())
        &&& forall|k: int|
            0 <= k < all.len() ==> Some((#[trigger] all[k]).extents) == self.extents(all[k].intents)
        &&& forall|k: int|
            0 <= k < all.len() - 1 ==> lectic_next(
                self.attributes,
                (#[trigger] all[k]).intents,
                self.closing(),
                width,
            ) == Some(all[k + 1].intents)
        &&& lectic_next(self.attributes, all.last().intents, self.closing(), width) is None
    }
}

impl ContextView {
    /// `concept` is a concept of the context: its objects are those that
    /// have its attributes, and its attributes are those that its objects
    /// share. So an object is among the objects of just the concepts whose
    /// attributes it has, and an attribute among the attributes of just the
    /// concepts whose objects all have it.
    pub open spec fn has_concept(self, concept: ConceptView) -> bool {
        &&& self.extents(concept.intents) == Some(concept.extents)
        &&& self.intents(concept.extents) == Some(concept.intents)
    }

    /// `all` lists the concepts of the context: each of `all` is a concept,
    /// they come in rising lectic order of their attributes, so that none
    /// comes twice, and every concept is among them.
    pub open spec fn lists_concepts(self, all: Seq<ConceptView>) -> bool {
        &&& forall|k: int| 0 <= k < all.len() ==> self.has_concept(#[trigger] all[k])
        &&& forall|k: int, l: int|
            0 <= k < l < all.len() ==> lectic_less(
                self.attributes,
                (#[trigger] all[k]).intents,
                (#[trigger] all[l]).intents,
            )
        &&& forall|concept: ConceptView| #[trigger]
            self.has_concept(concept) ==> exists|k: int|
                0 <= k < all.len() && #[trigger] all[k] == concept
    }

    /// The attributes of each concept of a run are closed, and exactly so:
    /// their closure is the same sequence.
    proof fn lemma_run_is_closed(self, all: Seq<ConceptView>, k: int)
        requires
            self.wf(),
            self.distinct_names(),
            self.enumerated_by(all),
            0 <= k < all.len(),
        ensures
            self.closure_extents(all[k].intents) == Some(all[k].intents),
            included(all[k].intents, self.attributes),
            self.has_concept(all[k]),
    {
        let width = self.attributes.len() as int;
        if k == 0 {
            self.lemma_closure_extents_idempotent(Seq::empty());
            self.lemma_closure_exists(Seq::empty());
        } else {
            let before = all[k - 1];
            assert(lectic_next(self.attributes, before.intents, self.closing(), width) == Some(
                all[k].intents,
            ));
            lemma_scan_result(self.attributes, before.intents, self.closing(), width);
            let i = choose|i: int|
                #[trigger] accepts_at(self.attributes, before.intents, self.closing(), i) && i
                    < width && lectic_next(self.attributes, before.intents, self.closing(), width)
                    == self.closing()(candidate(self.attributes, before.intents, i));
            let asked = candidate(self.attributes, before.intents, i);
            self.lemma_closure_extents_idempotent(asked);
            crate::lectic::lemma_candidate_members(self.attributes, before.intents, i);
            assert(asked.contains(self.attributes[i]) && self.attributes.contains(
                self.attributes[i],
            ));
            self.lemma_closure_exists(asked);
        }
    }

    /// The concepts of a run come in rising lectic order.
    proof fn lemma_run_rises(self, all: Seq<ConceptView>, k: int, l: int)
        requires
            self.attributes.no_duplicates(),
            self.enumerated_by(all),
            0 <= k < l < all.len(),
        ensures
            lectic_less(self.attributes, all[k].intents, all[l].intents),
        decreases l - k,
    {
        let width = self.attributes.len() as int;
        assert(lectic_next(self.attributes, all[l - 1].intents, self.closing(), width) == Some(
            all[l].intents,
        ));
        lemma_next_is_greater(self.attributes, all[l - 1].intents, self.closing(), width);
        if k < l - 1 {
            self.lemma_run_rises(all, k, l - 1);
            lemma_lectic_transitive(
                self.attributes,
                all[k].intents,
                all[l - 1].intents,
                all[l].intents,
            );
        }
    }

    /// A closed set of attributes that does not come before the `k`-th
    /// concept of a run holds the attributes of that concept or a later one.
    proof fn lemma_run_reaches(self, all: Seq<ConceptView>, closed: Seq<Seq<char>>, k: int) -> (at:
        int)
        requires
            self.wf(),
            self.distinct_names(),
            self.enumerated_by(all),
            0 <= k < all.len(),
            included(closed, self.attributes),
            closed_under(self.closing(), closed),
            !lectic_less(self.attributes, closed, all[k].intents),
        ensures
            0 <= at < all.len(),
            same_members(all[at].intents, closed),
        decreases all.len() - k,
    {
        let width = self.attributes.len() as int;
        let here = all[k].intents;
        self.lemma_run_is_closed(all, k);
        lemma_lectic_total(self.attributes, here, closed, width);
        if agree_before(self.attributes, here, closed, width) {
            lemma_agree_same_members(self.attributes, here, closed);
            k
        } else {
            self.lemma_closing_is_closure_operator();
            lemma_next_closure_least(self.attributes, here, self.closing());
            if k == all.len() - 1 {
                assert(all.last() == all[k]);
                assert(false);
                k
            } else {
                assert(lectic_next(self.attributes, here, self.closing(), width) == Some(
                    all[k + 1].intents,
                ));
                self.lemma_run_reaches(all, closed, k + 1)
            }
        }
    }

    /// A run of the concepts lists the concepts. In a context whose names
    /// are all different, the run from the closure of no attribute onwards,
    /// each step to the next closed set, gives every concept and each once;
    /// and the closure of any set of attributes is the attribute set of one
    /// of them.
    pub proof fn lemma_run_lists_concepts(self, all: Seq<ConceptView>)
        requires
            self.wf(),
            self.distinct_names(),
            self.enumerated_by(all),
        ensures
            self.lists_concepts(all),
            forall|x: Seq<Seq<char>>|
                (#[trigger] self.closure_extents(x)) is Some ==> exists|k: int|
                    0 <= k < all.len() && (#[trigger] all[k]).intents == self.closure_extents(x)->0,
    {
        assert forall|k: int| 0 <= k < all.len() implies self.has_concept(#[trigger] all[k]) by {
            self.lemma_run_is_closed(all, k);
        }
        assert forall|k: int, l: int| 0 <= k < l < all.len() implies lectic_less(
            self.attributes,
            (#[trigger] all[k]).intents,
            (#[trigger] all[l]).intents,
        ) by {
            self.lemma_run_rises(all, k, l);
        }
        assert forall|x: Seq<Seq<char>>| (#[trigger] self.closure_extents(x)) is Some implies exists|
            k: int,
        |
            0 <= k < all.len() && (#[trigger] all[k]).intents == self.closure_extents(x)->0 by {
            let closed = self.closure_extents(x)->0;
            self.lemma_closure_extents_idempotent(x);
            lemma_derive_within(
                self.objects,
                self.extents(x)->0,
                self.incidence,
                self.attributes,
            );
            assert(closed_under(self.closing(), closed));
            self.lemma_run_is_closed(all, 0);
            self.lemma_closure_exists(Seq::empty());
            self.lemma_closure_extents_monotone(Seq::empty(), closed);
            lemma_included_not_after(self.attributes, all[0].intents, closed);
            let at = self.lemma_run_reaches(all, closed, 0);
            self.lemma_run_is_closed(all, at);
            self.lemma_closure_by_members(all[at].intents, closed);
            assert(all[at].intents == closed);
        }
        assert forall|concept: ConceptView| #[trigger] self.has_concept(concept) implies exists|
            k: int,
        |
            0 <= k < all.len() && #[trigger] all[k] == concept by {
            assert(self.closure_extents(concept.intents) == Some(concept.intents));
            let k = choose|k: int|
                0 <= k < all.len() && (#[trigger] all[k]).intents == self.closure_extents(
                    concept.intents,
                )->0;
            assert(all[k].extents == concept.extents);
            assert(all[k] == concept);
        }
    }
}

/// A set of attributes that is empty or holds an attribute of the context
/// has an extent.
proof fn lemma_extent_exists(context: ContextView, attributes: Seq<Seq<char>>)
    requires
        attributes.len() == 0 || exists|x: Seq<char>|
            attributes.contains(x) && context.attributes.contains(x),
    ensures
        context.extents(attributes) is Some,
{
    lemma_derive_defined(context.attributes, attributes, context.columns(), context.objects);
}

impl Context {
    /// All concepts of the context, in the lectic order of their attribute
    /// sets over the attributes of the context.
    ///
    /// The concepts are found one after the other, each by the step to the
    /// next closed set of attributes. Where no two objects share a name,
    /// that is every concept, each once.
    pub fn concepts(&self) -> (all: Vec<Concept>)
        requires
            self.wf(),
            self@.attributes.no_duplicates(),
        ensures
            self@.enumerated_by(all.deep_view()),
            self@.objects.no_duplicates() ==> self@.lists_concepts(all.deep_view()),
    {
        let a = copy_names(self.attribute_names());
        let ghost base = self@.attributes;
        let ghost width = base.len() as int;
        let ghost cl = self@.closing();
        let mut concepts: Vec<Concept> = Vec::new();
        let nothing: Vec<String> = Vec::new();
        assert(nothing.deep_view() =~= Seq::empty());
        let mut current = self.closure_extents(as_names(&nothing));
        proof {
            lemma_derive_defined(base, Seq::empty(), self@.columns(), self@.objects);
            let objects = self@.extents(Seq::empty())->0;
            lemma_derive_within(base, Seq::empty(), self@.columns(), self@.objects);
            lemma_derive_defined(self@.objects, objects, self@.incidence, base);
            if objects.len() > 0 {
                assert(objects.contains(objects[0]));
            }
            lemma_derive_within(self@.objects, objects, self@.incidence, base);
            let first = current.deep_view()->0;
            if first.len() > 0 {
                assert(first.contains(first[0]));
            }
        }
        while current.is_some()
            invariant
                self.wf(),
                base == self@.attributes,
                base.no_duplicates(),
                width == base.len(),
                a.deep_view() == base,
                cl == self@.closing(),
                current matches Some(c) ==> c.deep_view().len() == 0 || exists|x: Seq<char>|
                    c.deep_view().contains(x) && base.contains(x),
                concepts.len() == 0 ==> current.deep_view() == self@.closure_extents(Seq::empty())
                    && current is Some,
                concepts.len() > 0 ==> {
                    &&& Some(concepts.deep_view()[0].intents) == self@.closure_extents(Seq::empty())
                    &&& current.deep_view() == lectic_next(
                        base,
                        concepts.deep_view().last().intents,
                        cl,
                        width,
                    )
                },
                forall|k: int|
                    0 <= k < concepts.len() ==> Some((#[trigger] concepts.deep_view()[k]).extents)
                        == self@.extents(concepts.deep_view()[k].intents),
                forall|k: int|
                    0 <= k < concepts.len() - 1 ==> lectic_next(
                        base,
                        (#[trigger] concepts.deep_view()[k]).intents,
                        cl,
                        width,
                    ) == Some(concepts.deep_view()[k + 1].intents),
            decreases
                    match current {
                        Some(c) => lectic_bound(width) - lectic_rank(base, c.deep_view(), width),
                        None => 0,
                    },
        {
            let c = current.unwrap();
            let ghost found = concepts.deep_view();
            proof {
                lemma_extent_exists(self@, c.deep_view());
                lemma_rank_bound(base, c.deep_view(), width);
            }
            let concept = Concept {
                extents: self.extents(as_names(&c)).unwrap(),
                intents: copy_names(as_names(&c)),
            };
            concepts.push(concept);
            assert(concepts.deep_view() =~= found.push(concept@));
            let closure = |n: &[String]| -> (r: Option<Vec<String>>)
                ensures
                    r.deep_view() == self@.closure_extents(n.deep_view()),
                { self.closure_extents(n) };
            assert(agrees(closure, cl));
            assert forall|s: &[String], i: int, r: Option<Vec<String>>|
                #![trigger call_ensures(closure, (s,), r), asks_at(closure, base, c.deep_view(), i)]
                asks_at(closure, base, c.deep_view(), i) && s.deep_view() == candidate(
                    base,
                    c.deep_view(),
                    i,
                ) && call_ensures(closure, (s,), r) implies r is Some by {
                crate::lectic::lemma_candidate_members(base, c.deep_view(), i);
                assert(s.deep_view().contains(base[i]) && base.contains(base[i]));
                self@.lemma_closure_exists(s.deep_view());
            }
            current = next_closure(as_names(&a), as_names(&c), closure);
            proof {
                if current is Some {
                    let next = current->0;
                    let i = choose|i: int|
                        {
                            &&& 0 <= i < base.len()
                            &&& !c.deep_view().contains(base[i])
                            &&& #[trigger] agree_before(
                                base,
                                candidate(base, c.deep_view(), i),
                                next.deep_view(),
                                i + 1,
                            )
                        };
                    lemma_accepted_is_greater(base, c.deep_view(), next.deep_view(), i);
                    lemma_rank_less(base, c.deep_view(), next.deep_view(), i, width);
                    lemma_rank_bound(base, next.deep_view(), width);
                    assert(next.deep_view().contains(base[i]) && base.contains(base[i]));
                }
            }
        }
        proof {
            if self@.objects.no_duplicates() {
                self@.lemma_run_lists_concepts(concepts.deep_view());
            }
        }
        concepts
    }
}

} // verus!
