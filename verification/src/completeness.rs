//! What the canonical basis is worth: its implications hold in the context,
//! none of them is trivial, and the closure under them is the closure in
//! the context.

use crate::basis::{basis_from, recorded};
use crate::closed_sets::{closed_under, lemma_next_closure_least};
use crate::context::{chosen, common_mask, ContextView};
use crate::galois::{lemma_derive_as_pick, lemma_pick_member};
use crate::implications::{
    closure_under, holds_in, lemma_closure_under, lemma_respecting_is_closed,
    lemma_saturation_closed, lemma_saturation_least, lemma_under_is_closure_operator, members,
    respects, saturation, under, ImplicationView,
};
use crate::lectic::{
    agree_before, lectic_bound, lectic_less, lectic_less_at, lectic_next, lectic_rank,
    lemma_agree_same_members, lemma_lectic_total, lemma_next_is_greater, lemma_rank_bound,
};
use crate::names::{included, lemma_pick_contains, same_members};
use vstd::prelude::*;

verus! {

impl ContextView {
    /// The object at `i` has every attribute that `attributes` names.
    pub open spec fn object_has_all(self, i: int, attributes: Seq<Seq<char>>) -> bool {
        forall|j: int| chosen(self.attributes, attributes, j) ==> self.incidence[i][j]
    }

    /// The implication holds in the context: every object that has all of
    /// the premise has all of the conclusion.
    pub open spec fn satisfies(self, implication: ImplicationView) -> bool {
        forall|i: int|
            0 <= i < self.objects.len() && #[trigger] self.object_has_all(i, implication.premise)
                ==> self.object_has_all(i, implication.conclusion)
    }

    /// The implication is one that the construction records: its premise is
    /// a set of attributes of the context that is not closed, and its
    /// conclusion is the closure of the premise.
    pub open spec fn records(self, implication: ImplicationView) -> bool {
        &&& included(implication.premise, self.attributes)
        &&& self.closure_extents(implication.premise) == Some(implication.conclusion)
        &&& !same_members(implication.premise, implication.conclusion)
    }

    /// The closure of `x` under `basis` holds the same attributes as its
    /// closure in the context.
    pub open spec fn closes_alike(self, basis: Seq<ImplicationView>, x: Seq<Seq<char>>) -> bool {
        &&& self.closure_extents(x) is Some
        &&& same_members(closure_under(basis, x), self.closure_extents(x)->0)
    }

    /// The implication holds in the context and concludes more than it
    /// presumes.
    pub open spec fn holds_properly(self, implication: ImplicationView) -> bool {
        &&& self.satisfies(implication)
        &&& included(implication.premise, implication.conclusion)
        &&& !included(implication.conclusion, implication.premise)
    }

    /// Every implication of `basis` has a premise that meets the other
    /// implications: nothing follows from the others for what it presumes.
    pub open spec fn premises_stand_alone(basis: Seq<ImplicationView>) -> bool {
        forall|k: int|
            0 <= k < basis.len() ==> respects(
                basis.remove(k),
                members((#[trigger] basis[k]).premise),
            )
    }

    /// `basis` is a basis of the implications of the context: each of its
    /// implications holds in the context and concludes more than it
    /// presumes, and the closure of any set of attributes under `basis`
    /// holds the same attributes as its closure in the context. And none of
    /// the implications follows from the others: under the others, the
    /// closure of its premise is the premise, which is less than it
    /// concludes.
    pub open spec fn has_basis(self, basis: Seq<ImplicationView>) -> bool {
        &&& forall|k: int| 0 <= k < basis.len() ==> self.holds_properly(#[trigger] basis[k])
        &&& forall|x: Seq<Seq<char>>|
            included(x, self.attributes) ==> #[trigger] self.closes_alike(basis, x)
        &&& forall|k: int|
            0 <= k < basis.len() ==> same_members(
                closure_under(basis.remove(k), (#[trigger] basis[k]).premise),
                basis[k].premise,
            )
    }

    /// An implication from a set of attributes to its closure holds.
    pub proof fn lemma_recorded_holds(self, implication: ImplicationView)
        requires
            self.wf(),
            self.attributes.no_duplicates(),
            self.closure_extents(implication.premise) == Some(implication.conclusion),
        ensures
            self.satisfies(implication),
    {
        let premise = implication.premise;
        let objects = self.extents(premise)->0;
        lemma_derive_as_pick(self.attributes, premise, self.columns(), self.objects);
        lemma_derive_as_pick(self.objects, objects, self.incidence, self.attributes);
        let having = common_mask(self.attributes, premise, self.columns(), self.objects.len());
        let shared = common_mask(self.objects, objects, self.incidence, self.attributes.len());
        assert forall|i: int|
            0 <= i < self.objects.len() && #[trigger] self.object_has_all(
                i,
                premise,
            ) implies self.object_has_all(i, implication.conclusion) by {
            assert forall|j: int| chosen(self.attributes, premise, j) implies self.columns()[j][i] by {
                assert(self.incidence[i][j]);
            }
            assert(having[i]);
            lemma_pick_contains(self.objects, having, self.objects[i]);
            assert(chosen(self.objects, objects, i));
            assert forall|j: int|
                chosen(self.attributes, implication.conclusion, j) implies self.incidence[i][j] by {
                lemma_pick_member(self.attributes, shared, j);
                assert(shared[j]);
            }
        }
    }

    /// What the construction ends with holds what it had found, and all of
    /// it is recorded as the construction records.
    pub proof fn lemma_basis_from_records(self, basis: Seq<ImplicationView>, attributes: Seq<Seq<char>>)
        requires
            self.wf(),
            self.distinct_names(),
            included(attributes, self.attributes),
            forall|k: int| 0 <= k < basis.len() ==> self.records(#[trigger] basis[k]),
        ensures
            basis.is_prefix_of(basis_from(self, basis, attributes)),
            forall|k: int|
                0 <= k < basis_from(self, basis, attributes).len() ==> self.records(
                    #[trigger] basis_from(self, basis, attributes)[k],
                ),
        decreases
                lectic_bound(self.attributes.len() as int) - lectic_rank(
                    self.attributes,
                    attributes,
                    self.attributes.len() as int,
                ),
    {
        let width = self.attributes.len() as int;
        if attributes != self.attributes {
            let longer = recorded(self, basis, attributes);
            self.lemma_recorded(basis, attributes);
            lemma_under_is_closure_operator(self.attributes, longer);
            lemma_next_closure_least(self.attributes, attributes, under(longer));
            if let Some(next) = lectic_next(self.attributes, attributes, under(longer), width) {
                lemma_next_is_greater(self.attributes, attributes, under(longer), width);
                lemma_rank_bound(self.attributes, next, width);
                self.lemma_basis_from_records(longer, next);
            }
        }
    }

    /// Recording at a set of attributes keeps what was found and adds at
    /// most an implication that the construction records.
    proof fn lemma_recorded(self, basis: Seq<ImplicationView>, attributes: Seq<Seq<char>>)
        requires
            included(attributes, self.attributes),
            forall|k: int| 0 <= k < basis.len() ==> self.records(#[trigger] basis[k]),
        ensures
            basis.is_prefix_of(recorded(self, basis, attributes)),
            self.closure_extents(attributes) is Some,
            forall|k: int|
                0 <= k < recorded(self, basis, attributes).len() ==> self.records(
                    #[trigger] recorded(self, basis, attributes)[k],
                ) && included(recorded(self, basis, attributes)[k].conclusion, self.attributes),
    {
        if attributes.len() > 0 {
            assert(attributes.contains(attributes[0]));
        }
        self.lemma_closure_exists(attributes);
        let longer = recorded(self, basis, attributes);
        assert forall|k: int| 0 <= k < longer.len() implies self.records(#[trigger] longer[k])
            && included(longer[k].conclusion, self.attributes) by {
            if k < basis.len() {
                assert(longer[k] == basis[k]);
                let premise = basis[k].premise;
                if premise.len() > 0 {
                    assert(premise.contains(premise[0]));
                }
                self.lemma_closure_exists(premise);
            }
        }
    }

    /// A set of attributes that meets every implication that the
    /// construction ends with, and that does not come before the set at
    /// which the construction stands, is closed in the context.
    proof fn lemma_basis_from_complete(
        self,
        basis: Seq<ImplicationView>,
        attributes: Seq<Seq<char>>,
        y: Seq<Seq<char>>,
    )
        requires
            self.wf(),
            self.distinct_names(),
            included(attributes, self.attributes),
            forall|k: int| 0 <= k < basis.len() ==> self.records(#[trigger] basis[k]),
            included(y, self.attributes),
            respects(basis_from(self, basis, attributes), members(y)),
            !lectic_less(self.attributes, y, attributes),
        ensures
            closed_under(self.closing(), y),
        decreases
                lectic_bound(self.attributes.len() as int) - lectic_rank(
                    self.attributes,
                    attributes,
                    self.attributes.len() as int,
                ),
    {
        let width = self.attributes.len() as int;
        let cl = self.closing();
        let end = basis_from(self, basis, attributes);
        self.lemma_closing_is_closure_operator();
        if y.len() > 0 {
            assert(y.contains(y[0]));
        }
        self.lemma_closure_exists(y);
        lemma_lectic_total(self.attributes, attributes, y, width);
        if agree_before(self.attributes, attributes, y, width) {
            lemma_agree_same_members(self.attributes, attributes, y);
            self.lemma_closure_by_members(attributes, y);
            let closure = self.closure_extents(attributes)->0;
            self.lemma_closure_extents_extensive(attributes);
            assert(included(attributes, closure)) by {
                assert forall|n: Seq<char>| attributes.contains(n) implies closure.contains(n) by {
                    assert(self.attributes.contains(n));
                }
            }
            if !same_members(attributes, closure) {
                assert(attributes != self.attributes);
                let longer = recorded(self, basis, attributes);
                self.lemma_recorded(basis, attributes);
                self.lemma_basis_from_records(basis, attributes);
                self.lemma_basis_from_step(basis, attributes);
                let added = longer[basis.len() as int];
                assert(end[basis.len() as int] == added);
                assert(holds_in(end[basis.len() as int], members(y)));
                assert forall|n: Seq<char>| added.premise.contains(n) implies members(y).contains(
                    n,
                ) by {}
                assert forall|n: Seq<char>| closure.contains(n) implies y.contains(n) by {
                    assert(added.conclusion.contains(n));
                    assert(members(y).contains(n));
                }
            }
        } else {
            assert(lectic_less(self.attributes, attributes, y));
            let at = choose|i: int| lectic_less_at(self.attributes, attributes, y, i);
            assert(!attributes.contains(self.attributes[at]));
            assert(self.attributes.contains(self.attributes[at]));
            assert(attributes != self.attributes);
            let longer = recorded(self, basis, attributes);
            self.lemma_recorded(basis, attributes);
            self.lemma_basis_from_step(basis, attributes);
            assert(respects(longer, members(y))) by {
                assert forall|k: int| 0 <= k < longer.len() implies holds_in(
                    #[trigger] longer[k],
                    members(y),
                ) by {
                    assert(end[k] == longer[k]);
                }
            }
            lemma_respecting_is_closed(longer, y);
            lemma_under_is_closure_operator(self.attributes, longer);
            lemma_next_closure_least(self.attributes, attributes, under(longer));
            let found = lectic_next(self.attributes, attributes, under(longer), width);
            assert(found is Some);
            let next = found->0;
            lemma_next_is_greater(self.attributes, attributes, under(longer), width);
            lemma_rank_bound(self.attributes, next, width);
            self.lemma_basis_from_complete(longer, next, y);
        }
    }

    /// What the construction ends with keeps every premise apart from the
    /// other implications, if what it had found did so, all the premises
    /// found come before the set where it stands, and that set meets what
    /// was found.
    proof fn lemma_basis_from_stands_alone(
        self,
        basis: Seq<ImplicationView>,
        attributes: Seq<Seq<char>>,
    )
        requires
            self.wf(),
            self.distinct_names(),
            included(attributes, self.attributes),
            forall|k: int| 0 <= k < basis.len() ==> self.records(#[trigger] basis[k]),
            forall|k: int|
                0 <= k < basis.len() ==> lectic_less(
                    self.attributes,
                    (#[trigger] basis[k]).premise,
                    attributes,
                ),
            respects(basis, members(attributes)),
            Self::premises_stand_alone(basis),
        ensures
            Self::premises_stand_alone(basis_from(self, basis, attributes)),
        decreases
                lectic_bound(self.attributes.len() as int) - lectic_rank(
                    self.attributes,
                    attributes,
                    self.attributes.len() as int,
                ),
    {
        let width = self.attributes.len() as int;
        if attributes != self.attributes {
            let longer = recorded(self, basis, attributes);
            self.lemma_recorded(basis, attributes);
            assert(Self::premises_stand_alone(longer)) by {
                if longer.len() > basis.len() {
                    let added = longer[basis.len() as int];
                    assert(longer =~= basis.push(added));
                    assert forall|k: int| 0 <= k < longer.len() implies respects(
                        longer.remove(k),
                        members((#[trigger] longer[k]).premise),
                    ) by {
                        let others = longer.remove(k);
                        if k == basis.len() {
                            assert(others =~= basis);
                        } else {
                            assert(others =~= basis.remove(k).push(added));
                            let premise = basis[k].premise;
                            assert forall|m: int| 0 <= m < others.len() implies holds_in(
                                #[trigger] others[m],
                                members(premise),
                            ) by {
                                if m < others.len() - 1 {
                                    assert(others[m] == basis.remove(k)[m]);
                                    assert(holds_in(basis.remove(k)[m], members(premise)));
                                } else {
                                    assert(others[m] == added);
                                    if forall|n: Seq<char>|
                                        added.premise.contains(n) ==> members(premise).contains(
                                            n,
                                        ) {
                                        assert forall|n: Seq<char>|
                                            attributes.contains(n) implies premise.contains(
                                            n,
                                        ) by {
                                            assert(members(premise).contains(n));
                                        }
                                        crate::lectic::lemma_included_not_after(
                                            self.attributes,
                                            attributes,
                                            premise,
                                        );
                                        assert(lectic_less(
                                            self.attributes,
                                            basis[k].premise,
                                            attributes,
                                        ));
                                    }
                                }
                            }
                        }
                    }
                }
            }
            lemma_under_is_closure_operator(self.attributes, longer);
            lemma_next_closure_least(self.attributes, attributes, under(longer));
            if let Some(next) = lectic_next(self.attributes, attributes, under(longer), width) {
                lemma_next_is_greater(self.attributes, attributes, under(longer), width);
                lemma_rank_bound(self.attributes, next, width);
                assert forall|k: int| 0 <= k < longer.len() implies lectic_less(
                    self.attributes,
                    (#[trigger] longer[k]).premise,
                    next,
                ) by {
                    if k < basis.len() {
                        assert(longer[k] == basis[k]);
                        crate::lectic::lemma_lectic_transitive(
                            self.attributes,
                            basis[k].premise,
                            attributes,
                            next,
                        );
                    }
                }
                assert(respects(longer, members(next))) by {
                    lemma_closure_under(longer, next);
                    lemma_saturation_closed(longer, next);
                    assert(members(next) =~= saturation(longer, next));
                }
                self.lemma_basis_from_stands_alone(longer, next);
            }
        }
    }

    /// No implication of the canonical basis follows from the others: under
    /// the others, the closure of its premise is the premise.
    pub proof fn lemma_canonical_basis_irredundant(self, k: int)
        requires
            self.wf(),
            self.distinct_names(),
            0 <= k < self.canonical_basis().len(),
        ensures
            same_members(
                closure_under(self.canonical_basis().remove(k), self.canonical_basis()[k].premise),
                self.canonical_basis()[k].premise,
            ),
            !included(
                self.canonical_basis()[k].conclusion,
                closure_under(self.canonical_basis().remove(k), self.canonical_basis()[k].premise),
            ),
    {
        let basis = self.canonical_basis();
        let nothing = Seq::<Seq<char>>::empty();
        let none = Seq::<ImplicationView>::empty();
        assert(respects(none, members(nothing)));
        self.lemma_basis_from_stands_alone(none, nothing);
        assert(respects(basis.remove(k), members(basis[k].premise)));
        lemma_respecting_is_closed(basis.remove(k), basis[k].premise);
        self.lemma_canonical_basis_holds(k);
    }

    /// Away from the set of all attributes, what the construction ends with
    /// begins with what is recorded at the set where it stands.
    proof fn lemma_basis_from_step(self, basis: Seq<ImplicationView>, attributes: Seq<Seq<char>>)
        requires
            self.wf(),
            self.distinct_names(),
            included(attributes, self.attributes),
            forall|k: int| 0 <= k < basis.len() ==> self.records(#[trigger] basis[k]),
            attributes != self.attributes,
        ensures
            recorded(self, basis, attributes).is_prefix_of(basis_from(self, basis, attributes)),
            lectic_next(
                self.attributes,
                attributes,
                under(recorded(self, basis, attributes)),
                self.attributes.len() as int,
            ) matches Some(next) ==> basis_from(self, basis, attributes) == basis_from(
                self,
                recorded(self, basis, attributes),
                next,
            ) && included(next, self.attributes),
    {
        let width = self.attributes.len() as int;
        let longer = recorded(self, basis, attributes);
        self.lemma_recorded(basis, attributes);
        lemma_under_is_closure_operator(self.attributes, longer);
        lemma_next_closure_least(self.attributes, attributes, under(longer));
        if let Some(next) = lectic_next(self.attributes, attributes, under(longer), width) {
            self.lemma_basis_from_records(longer, next);
        }
    }

    /// Each implication of the canonical basis is one that the construction
    /// records, holds in the context, and concludes more than it presumes.
    pub proof fn lemma_canonical_basis_holds(self, k: int)
        requires
            self.wf(),
            self.distinct_names(),
            0 <= k < self.canonical_basis().len(),
        ensures
            self.records(self.canonical_basis()[k]),
            self.satisfies(self.canonical_basis()[k]),
            included(self.canonical_basis()[k].premise, self.canonical_basis()[k].conclusion),
            !included(self.canonical_basis()[k].conclusion, self.canonical_basis()[k].premise),
    {
        let basis = self.canonical_basis();
        self.lemma_basis_from_records(Seq::empty(), Seq::empty());
        assert(self.records(basis[k]));
        self.lemma_recorded_holds(basis[k]);
        self.lemma_closure_extents_extensive(basis[k].premise);
        assert forall|n: Seq<char>| basis[k].premise.contains(n) implies basis[k].conclusion.contains(
            n,
        ) by {
            assert(self.attributes.contains(n));
        }
    }

    /// The closure of a set of attributes under the canonical basis holds
    /// the same attributes as its closure in the context.
    pub proof fn lemma_canonical_basis_closes(self, x: Seq<Seq<char>>)
        requires
            self.wf(),
            self.distinct_names(),
            included(x, self.attributes),
        ensures
            self.closure_extents(x) is Some,
            same_members(closure_under(self.canonical_basis(), x), self.closure_extents(x)->0),
    {
        let basis = self.canonical_basis();
        let nothing = Seq::<Seq<char>>::empty();
        self.lemma_basis_from_records(Seq::empty(), nothing);
        self.lemma_closing_is_closure_operator();
        if x.len() > 0 {
            assert(x.contains(x[0]));
        }
        self.lemma_closure_exists(x);
        let closure = self.closure_extents(x)->0;
        let y = closure_under(basis, x);
        lemma_closure_under(basis, x);
        lemma_saturation_closed(basis, x);
        self.lemma_closure_extents_extensive(x);
        self.lemma_closure_extents_idempotent(x);
        // The closure in the context meets every implication of the basis.
        assert(respects(basis, members(closure))) by {
            assert forall|k: int| 0 <= k < basis.len() implies holds_in(
                #[trigger] basis[k],
                members(closure),
            ) by {
                assert(self.records(basis[k]));
                if forall|n: Seq<char>|
                    basis[k].premise.contains(n) ==> members(closure).contains(n) {
                    assert forall|n: Seq<char>|
                        basis[k].premise.contains(n) implies closure.contains(n) by {
                        assert(members(closure).contains(n));
                    }
                    assert(included(basis[k].premise, closure));
                    self.lemma_closure_extents_monotone(basis[k].premise, closure);
                }
            }
        }
        assert forall|m: Seq<char>| x.contains(m) implies members(closure).contains(m) by {
            assert(self.attributes.contains(m));
        }
        lemma_saturation_least(basis, x, members(closure));
        assert(included(y, closure)) by {
            assert forall|n: Seq<char>| y.contains(n) implies closure.contains(n) by {
                assert(saturation(basis, x).contains(n));
                assert(members(closure).contains(n));
            }
        }
        // What is closed under the basis is closed in the context.
        assert(included(y, self.attributes));
        assert(respects(basis, members(y))) by {
            assert(members(y) =~= saturation(basis, x));
        }
        assert(!lectic_less(self.attributes, y, nothing)) by {
            if lectic_less(self.attributes, y, nothing) {
                let i = choose|i: int| lectic_less_at(self.attributes, y, nothing, i);
                assert(nothing.contains(self.attributes[i]));
            }
        }
        self.lemma_basis_from_complete(Seq::empty(), nothing, y);
        assert(included(x, y)) by {
            assert forall|n: Seq<char>| x.contains(n) implies y.contains(n) by {
                assert(saturation(basis, x).contains(n));
            }
        }
        self.lemma_closure_extents_monotone(x, y);
        assert(included(closure, y));
    }

    /// The canonical basis is a basis of the implications of the context.
    /// In a context whose names are all different, each implication of the
    /// canonical basis holds in the context and concludes more than it
    /// presumes; and the closure of a set of attributes under the canonical
    /// basis holds the same attributes as its closure in the context.
    pub proof fn lemma_canonical_basis(self)
        requires
            self.wf(),
            self.distinct_names(),
        ensures
            self.has_basis(self.canonical_basis()),
    {
        let basis = self.canonical_basis();
        assert forall|k: int| 0 <= k < basis.len() implies self.holds_properly(
            #[trigger] basis[k],
        ) by {
            self.lemma_canonical_basis_holds(k);
        }
        assert forall|x: Seq<Seq<char>>| included(x, self.attributes) implies #[trigger] self.closes_alike(
            basis,
            x,
        ) by {
            self.lemma_canonical_basis_closes(x);
        }
        assert forall|k: int| 0 <= k < basis.len() implies same_members(
            closure_under(basis.remove(k), (#[trigger] basis[k]).premise),
            basis[k].premise,
        ) by {
            self.lemma_canonical_basis_irredundant(k);
        }
    }
}

} // verus!
