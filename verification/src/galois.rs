//! What holds of the derivation operators and their closures: the two
//! derivations turn inclusion round, and each closure is extensive, monotone
//! and idempotent.
//!
//! Names that a context does not know are passed over by its operators, and
//! an object is known by its name alone. So what is said here of closures is
//! said of contexts in which no two objects and no two attributes share a
//! name. In a context with attributes `a`, `a` and one object that has only
//! the first of them, the closure of no attribute is `a`, and the closure of
//! `a` is `a`, `a`.

use crate::closed_sets::{closed_under, closure_operator};
use crate::context::{
    chosen, common, common_mask, derivation, lemma_derive_defined, lemma_derive_within, ContextView,
};
use crate::names::{included, lemma_pick_contains, pick, same_members};
use vstd::prelude::*;

verus! {

/// `across` is `lanes` turned round: `rows` lanes of `cols` cells on one
/// side, `cols` lanes of `rows` cells on the other, with the same cells.
pub open spec fn crossed(lanes: Seq<Seq<bool>>, across: Seq<Seq<bool>>, rows: nat, cols: nat) -> bool {
    &&& lanes.len() == rows
    &&& across.len() == cols
    &&& forall|i: int| 0 <= i < rows ==> (#[trigger] lanes[i]).len() == cols
    &&& forall|j: int| 0 <= j < cols ==> (#[trigger] across[j]).len() == rows
    &&& forall|i: int, j: int| 0 <= i < rows && 0 <= j < cols ==> lanes[i][j] == across[j][i]
}

/// The derivation of the derivation: from names of `domain` to names of
/// `outputs` and back.
pub open spec fn round_trip(
    domain: Seq<Seq<char>>,
    inputs: Seq<Seq<char>>,
    lanes: Seq<Seq<bool>>,
    outputs: Seq<Seq<char>>,
    across: Seq<Seq<bool>>,
) -> Option<Seq<Seq<char>>> {
    match derivation(domain, inputs, lanes, outputs) {
        Some(between) => derivation(outputs, between, across, domain),
        None => None,
    }
}

/// Picking at every position gives all the names.
pub proof fn lemma_pick_all(names: Seq<Seq<char>>, keep: Seq<bool>)
    requires
        keep.len() == names.len(),
        forall|j: int| 0 <= j < keep.len() ==> keep[j],
    ensures
        pick(names, keep) == names,
    decreases names.len(),
{
    if names.len() > 0 {
        lemma_pick_all(names.drop_last(), keep.drop_last());
        assert(names =~= names.drop_last().push(names.last()));
    } else {
        assert(names =~= Seq::empty());
    }
}

/// Among names that are all different, a name is picked when its position
/// is kept.
pub proof fn lemma_pick_member(names: Seq<Seq<char>>, keep: Seq<bool>, j: int)
    requires
        keep.len() == names.len(),
        names.no_duplicates(),
        0 <= j < names.len(),
    ensures
        pick(names, keep).contains(names[j]) == keep[j],
{
    lemma_pick_contains(names, keep, names[j]);
}

/// What is picked from names that are all different is all different.
pub proof fn lemma_pick_no_duplicates(names: Seq<Seq<char>>, keep: Seq<bool>)
    requires
        keep.len() == names.len(),
        names.no_duplicates(),
    ensures
        pick(names, keep).no_duplicates(),
    decreases names.len(),
{
    if names.len() > 0 {
        let front = names.drop_last();
        let picked = pick(front, keep.drop_last());
        lemma_pick_no_duplicates(front, keep.drop_last());
        if keep.last() {
            lemma_pick_contains(front, keep.drop_last(), names.last());
            assert(!picked.contains(names.last())) by {
                if picked.contains(names.last()) {
                    let j = choose|j: int|
                        0 <= j < front.len() && keep.drop_last()[j] && front[j] == names.last();
                    assert(names[j] == names[names.len() - 1]);
                }
            }
            assert forall|a: int, b: int|
                0 <= a < b < picked.push(names.last()).len() implies picked.push(names.last())[a]
                != picked.push(names.last())[b] by {
                if b == picked.len() {
                    assert(picked.contains(picked[a]));
                }
            }
        }
    }
}

/// A derivation gives no name twice, where no two of `outputs` are the same.
pub proof fn lemma_derive_no_duplicates(
    domain: Seq<Seq<char>>,
    inputs: Seq<Seq<char>>,
    lanes: Seq<Seq<bool>>,
    outputs: Seq<Seq<char>>,
)
    requires
        outputs.no_duplicates(),
    ensures
        derivation(domain, inputs, lanes, outputs) matches Some(r) ==> r.no_duplicates(),
{
    lemma_derive_as_pick(domain, inputs, lanes, outputs);
    lemma_pick_no_duplicates(outputs, common_mask(domain, inputs, lanes, outputs.len()));
}

/// A derivation that has a result picks the names of `outputs` at which
/// every chosen lane is set; with no name given, that is at every one.
pub proof fn lemma_derive_as_pick(
    domain: Seq<Seq<char>>,
    inputs: Seq<Seq<char>>,
    lanes: Seq<Seq<bool>>,
    outputs: Seq<Seq<char>>,
)
    ensures
        derivation(domain, inputs, lanes, outputs) matches Some(r) ==> r == pick(
            outputs,
            common_mask(domain, inputs, lanes, outputs.len()),
        ),
{
    if inputs.len() == 0 {
        let mask = common_mask(domain, inputs, lanes, outputs.len());
        assert forall|j: int| 0 <= j < mask.len() implies mask[j] by {
            assert forall|i: int| chosen(domain, inputs, i) implies lanes[i][j] by {
                assert(inputs.contains(domain[i]));
            }
        }
        lemma_pick_all(outputs, mask);
    }
}

/// The derivations turn inclusion round: more names have less in common.
pub proof fn lemma_derive_antitone(
    domain: Seq<Seq<char>>,
    fewer: Seq<Seq<char>>,
    more: Seq<Seq<char>>,
    lanes: Seq<Seq<bool>>,
    outputs: Seq<Seq<char>>,
)
    requires
        included(fewer, more),
        derivation(domain, fewer, lanes, outputs) is Some,
        derivation(domain, more, lanes, outputs) is Some,
    ensures
        included(derivation(domain, more, lanes, outputs)->0, derivation(domain, fewer, lanes, outputs)->0),
{
    let of_fewer = derivation(domain, fewer, lanes, outputs)->0;
    let of_more = derivation(domain, more, lanes, outputs)->0;
    lemma_derive_as_pick(domain, fewer, lanes, outputs);
    lemma_derive_as_pick(domain, more, lanes, outputs);
    let mask_fewer = common_mask(domain, fewer, lanes, outputs.len());
    let mask_more = common_mask(domain, more, lanes, outputs.len());
    assert forall|x: Seq<char>| of_more.contains(x) implies of_fewer.contains(x) by {
        lemma_pick_contains(outputs, mask_more, x);
        lemma_pick_contains(outputs, mask_fewer, x);
        let j = choose|j: int| 0 <= j < outputs.len() && mask_more[j] && outputs[j] == x;
        assert forall|i: int| chosen(domain, fewer, i) implies lanes[i][j] by {
            assert(chosen(domain, more, i));
        }
        assert(mask_fewer[j] && outputs[j] == x);
    }
}

/// A derivation looks at the names given only for which names they are.
pub proof fn lemma_derive_by_members(
    domain: Seq<Seq<char>>,
    one: Seq<Seq<char>>,
    other: Seq<Seq<char>>,
    lanes: Seq<Seq<bool>>,
    outputs: Seq<Seq<char>>,
)
    requires
        same_members(one, other),
    ensures
        derivation(domain, one, lanes, outputs) == derivation(domain, other, lanes, outputs),
{
    if one.len() > 0 {
        assert(one.contains(one[0]));
    }
    if other.len() > 0 {
        assert(other.contains(other[0]));
    }
    assert forall|i: int| chosen(domain, one, i) == chosen(domain, other, i) by {}
    if exists|i: int| chosen(domain, one, i) {
        let i = choose|i: int| chosen(domain, one, i);
        assert(chosen(domain, other, i));
    }
    if exists|i: int| chosen(domain, other, i) {
        let i = choose|i: int| chosen(domain, other, i);
        assert(chosen(domain, one, i));
    }
    assert(common_mask(domain, one, lanes, outputs.len()) =~= common_mask(
        domain,
        other,
        lanes,
        outputs.len(),
    )) by {
        assert forall|j: int| common(domain, one, lanes, j) == common(domain, other, lanes, j) by {
            if common(domain, one, lanes, j) {
                assert forall|i: int| chosen(domain, other, i) implies lanes[i][j] by {
                    assert(chosen(domain, one, i));
                }
            }
            if common(domain, other, lanes, j) {
                assert forall|i: int| chosen(domain, one, i) implies lanes[i][j] by {
                    assert(chosen(domain, other, i));
                }
            }
        }
    }
}

/// The derivation of a closure is the derivation of what was closed.
pub proof fn lemma_derive_of_closure(
    domain: Seq<Seq<char>>,
    inputs: Seq<Seq<char>>,
    lanes: Seq<Seq<bool>>,
    outputs: Seq<Seq<char>>,
    across: Seq<Seq<bool>>,
)
    requires
        crossed(lanes, across, domain.len(), outputs.len()),
        domain.no_duplicates(),
        outputs.no_duplicates(),
        round_trip(domain, inputs, lanes, outputs, across) is Some,
    ensures
        derivation(domain, round_trip(domain, inputs, lanes, outputs, across)->0, lanes, outputs)
            == derivation(domain, inputs, lanes, outputs),
{
    let between = derivation(domain, inputs, lanes, outputs)->0;
    let closed = derivation(outputs, between, across, domain)->0;
    lemma_derive_as_pick(domain, inputs, lanes, outputs);
    lemma_derive_as_pick(outputs, between, across, domain);
    lemma_derive_within(outputs, between, across, domain);
    lemma_derive_defined(domain, closed, lanes, outputs);
    if closed.len() > 0 {
        assert(closed.contains(closed[0]));
    }
    lemma_derive_as_pick(domain, closed, lanes, outputs);
    let mask = common_mask(domain, inputs, lanes, outputs.len());
    let back = common_mask(outputs, between, across, domain.len());
    let again = common_mask(domain, closed, lanes, outputs.len());
    assert forall|i: int| 0 <= i < domain.len() implies chosen(domain, closed, i) == back[i] by {
        lemma_pick_member(domain, back, i);
    }
    assert forall|j: int| 0 <= j < outputs.len() implies chosen(outputs, between, j)
        == mask[j] by {
        lemma_pick_member(outputs, mask, j);
    }
    assert forall|j: int| 0 <= j < outputs.len() implies again[j] == mask[j] by {
        if mask[j] {
            assert forall|i: int| chosen(domain, closed, i) implies lanes[i][j] by {
                assert(back[i]);
                assert(chosen(outputs, between, j));
                assert(across[j][i]);
            }
        }
        if again[j] {
            assert forall|i: int| chosen(domain, inputs, i) implies lanes[i][j] by {
                assert forall|k: int| chosen(outputs, between, k) implies across[k][i] by {
                    assert(mask[k]);
                    assert(lanes[i][k]);
                }
                assert(back[i]);
                assert(chosen(domain, closed, i));
            }
        }
    }
    assert(again =~= mask);
}

/// A closure is closed: closing it again gives the same.
pub proof fn lemma_round_trip_idempotent(
    domain: Seq<Seq<char>>,
    inputs: Seq<Seq<char>>,
    lanes: Seq<Seq<bool>>,
    outputs: Seq<Seq<char>>,
    across: Seq<Seq<bool>>,
)
    requires
        crossed(lanes, across, domain.len(), outputs.len()),
        domain.no_duplicates(),
        outputs.no_duplicates(),
        round_trip(domain, inputs, lanes, outputs, across) is Some,
    ensures
        round_trip(
            domain,
            round_trip(domain, inputs, lanes, outputs, across)->0,
            lanes,
            outputs,
            across,
        ) == round_trip(domain, inputs, lanes, outputs, across),
{
    lemma_derive_of_closure(domain, inputs, lanes, outputs, across);
}

/// A closure holds what was closed, as far as `domain` knows the names.
pub proof fn lemma_round_trip_extensive(
    domain: Seq<Seq<char>>,
    inputs: Seq<Seq<char>>,
    lanes: Seq<Seq<bool>>,
    outputs: Seq<Seq<char>>,
    across: Seq<Seq<bool>>,
    x: Seq<char>,
)
    requires
        crossed(lanes, across, domain.len(), outputs.len()),
        outputs.no_duplicates(),
        round_trip(domain, inputs, lanes, outputs, across) is Some,
        inputs.contains(x),
        domain.contains(x),
    ensures
        round_trip(domain, inputs, lanes, outputs, across)->0.contains(x),
{
    let between = derivation(domain, inputs, lanes, outputs)->0;
    lemma_derive_as_pick(domain, inputs, lanes, outputs);
    lemma_derive_as_pick(outputs, between, across, domain);
    let mask = common_mask(domain, inputs, lanes, outputs.len());
    let back = common_mask(outputs, between, across, domain.len());
    let i = choose|i: int| 0 <= i < domain.len() && domain[i] == x;
    assert(chosen(domain, inputs, i));
    assert forall|j: int| chosen(outputs, between, j) implies across[j][i] by {
        lemma_pick_member(outputs, mask, j);
        assert(mask[j]);
        assert(lanes[i][j]);
    }
    assert(back[i]);
    lemma_pick_contains(domain, back, x);
}

/// The closure of more names holds the closure of fewer.
pub proof fn lemma_round_trip_monotone(
    domain: Seq<Seq<char>>,
    fewer: Seq<Seq<char>>,
    more: Seq<Seq<char>>,
    lanes: Seq<Seq<bool>>,
    outputs: Seq<Seq<char>>,
    across: Seq<Seq<bool>>,
)
    requires
        included(fewer, more),
        round_trip(domain, fewer, lanes, outputs, across) is Some,
        round_trip(domain, more, lanes, outputs, across) is Some,
    ensures
        included(
            round_trip(domain, fewer, lanes, outputs, across)->0,
            round_trip(domain, more, lanes, outputs, across)->0,
        ),
{
    lemma_derive_antitone(domain, fewer, more, lanes, outputs);
    lemma_derive_antitone(
        outputs,
        derivation(domain, more, lanes, outputs)->0,
        derivation(domain, fewer, lanes, outputs)->0,
        across,
        domain,
    );
}

impl ContextView {
    /// The rows and the columns of a context are each other turned round.
    pub proof fn lemma_crossed(self)
        requires
            self.wf(),
        ensures
            crossed(self.incidence, self.columns(), self.objects.len(), self.attributes.len()),
            crossed(self.columns(), self.incidence, self.attributes.len(), self.objects.len()),
    {
    }

    /// A set of attributes that is empty or holds an attribute of the
    /// context has an extent, and a closure among the attributes.
    pub proof fn lemma_closure_exists(self, attributes: Seq<Seq<char>>)
        requires
            attributes.len() == 0 || exists|x: Seq<char>|
                attributes.contains(x) && self.attributes.contains(x),
        ensures
            self.extents(attributes) is Some,
            self.closure_extents(attributes) is Some,
            included(self.closure_extents(attributes)->0, self.attributes),
    {
        lemma_derive_defined(self.attributes, attributes, self.columns(), self.objects);
        let objects = self.extents(attributes)->0;
        lemma_derive_within(self.attributes, attributes, self.columns(), self.objects);
        lemma_derive_defined(self.objects, objects, self.incidence, self.attributes);
        if objects.len() > 0 {
            assert(objects.contains(objects[0]));
        }
        lemma_derive_within(self.objects, objects, self.incidence, self.attributes);
    }

    /// A set of attributes of the context has a closure among the attributes
    /// of the context.
    pub proof fn lemma_closure_of_attributes(self, attributes: Seq<Seq<char>>)
        requires
            included(attributes, self.attributes),
        ensures
            self.closure_extents(attributes) is Some,
            included(self.closure_extents(attributes)->0, self.attributes),
    {
        if attributes.len() > 0 {
            assert(attributes.contains(attributes[0]));
        }
        self.lemma_closure_exists(attributes);
    }

    /// The closure of attribute sets looks at a set only for which names it
    /// holds.
    pub proof fn lemma_closure_by_members(self, one: Seq<Seq<char>>, other: Seq<Seq<char>>)
        requires
            same_members(one, other),
        ensures
            self.closure_extents(one) == self.closure_extents(other),
            self.extents(one) == self.extents(other),
    {
        lemma_derive_by_members(self.attributes, one, other, self.columns(), self.objects);
    }

    /// In a context whose names are all different, the closure of attribute
    /// sets is a closure operator on the sets of its attributes.
    pub proof fn lemma_closing_is_closure_operator(self)
        requires
            self.wf(),
            self.distinct_names(),
        ensures
            closure_operator(self.attributes, self.closing()),
    {
        let cl = self.closing();
        assert forall|x: Seq<Seq<char>>| included(x, self.attributes) implies (#[trigger] cl(
            x,
        )) is Some && included(cl(x)->0, self.attributes) && included(x, cl(x)->0) by {
            if x.len() > 0 {
                assert(x.contains(x[0]));
            }
            self.lemma_closure_exists(x);
            self.lemma_closure_extents_extensive(x);
        }
        assert forall|x: Seq<Seq<char>>, y: Seq<Seq<char>>|
            included(x, y) && (#[trigger] cl(x)) is Some && (#[trigger] cl(y))
                is Some implies included(cl(x)->0, cl(y)->0) by {
            self.lemma_closure_extents_monotone(x, y);
        }
        assert forall|x: Seq<Seq<char>>, y: Seq<Seq<char>>|
            #![trigger cl(x), closed_under(cl, y)]
            cl(x) == Some(y) implies closed_under(cl, y) by {
            self.lemma_closure_extents_idempotent(x);
        }
    }

    /// More objects share fewer attributes.
    pub proof fn lemma_intents_antitone(self, fewer: Seq<Seq<char>>, more: Seq<Seq<char>>)
        requires
            included(fewer, more),
            self.intents(fewer) is Some,
            self.intents(more) is Some,
        ensures
            included(self.intents(more)->0, self.intents(fewer)->0),
    {
        lemma_derive_antitone(self.objects, fewer, more, self.incidence, self.attributes);
    }

    /// More attributes are had by fewer objects.
    pub proof fn lemma_extents_antitone(self, fewer: Seq<Seq<char>>, more: Seq<Seq<char>>)
        requires
            included(fewer, more),
            self.extents(fewer) is Some,
            self.extents(more) is Some,
        ensures
            included(self.extents(more)->0, self.extents(fewer)->0),
    {
        lemma_derive_antitone(self.attributes, fewer, more, self.columns(), self.objects);
    }

    /// The derivation of nothing is everything.
    pub proof fn lemma_empty_derivation(self)
        ensures
            self.intents(Seq::empty()) == Some(self.attributes),
            self.extents(Seq::empty()) == Some(self.objects),
    {
    }

    /// The closure of a set of attributes is closed.
    pub proof fn lemma_closure_extents_idempotent(self, attributes: Seq<Seq<char>>)
        requires
            self.wf(),
            self.distinct_names(),
        ensures
            self.closure_extents(attributes) matches Some(closed) ==> self.closure_extents(closed)
                == Some(closed),
    {
        self.lemma_crossed();
        if self.closure_extents(attributes) is Some {
            lemma_round_trip_idempotent(
                self.attributes,
                attributes,
                self.columns(),
                self.objects,
                self.incidence,
            );
        }
    }

    /// The closure of a set of objects is closed.
    pub proof fn lemma_closure_intents_idempotent(self, objects: Seq<Seq<char>>)
        requires
            self.wf(),
            self.distinct_names(),
        ensures
            self.closure_intents(objects) matches Some(closed) ==> self.closure_intents(closed)
                == Some(closed),
    {
        self.lemma_crossed();
        if self.closure_intents(objects) is Some {
            lemma_round_trip_idempotent(
                self.objects,
                objects,
                self.incidence,
                self.attributes,
                self.columns(),
            );
        }
    }

    /// The closure of a set of attributes holds the attributes of the set.
    pub proof fn lemma_closure_extents_extensive(self, attributes: Seq<Seq<char>>)
        requires
            self.wf(),
            self.objects.no_duplicates(),
        ensures
            self.closure_extents(attributes) matches Some(closed) ==> forall|x: Seq<char>|
                attributes.contains(x) && self.attributes.contains(x) ==> closed.contains(x),
    {
        self.lemma_crossed();
        if let Some(closed) = self.closure_extents(attributes) {
            assert forall|x: Seq<char>|
                attributes.contains(x) && self.attributes.contains(x) implies closed.contains(
                x,
            ) by {
                lemma_round_trip_extensive(
                    self.attributes,
                    attributes,
                    self.columns(),
                    self.objects,
                    self.incidence,
                    x,
                );
            }
        }
    }

    /// The closure of a set of objects holds the objects of the set.
    pub proof fn lemma_closure_intents_extensive(self, objects: Seq<Seq<char>>)
        requires
            self.wf(),
            self.attributes.no_duplicates(),
        ensures
            self.closure_intents(objects) matches Some(closed) ==> forall|x: Seq<char>|
                objects.contains(x) && self.objects.contains(x) ==> closed.contains(x),
    {
        self.lemma_crossed();
        if let Some(closed) = self.closure_intents(objects) {
            assert forall|x: Seq<char>|
                objects.contains(x) && self.objects.contains(x) implies closed.contains(x) by {
                lemma_round_trip_extensive(
                    self.objects,
                    objects,
                    self.incidence,
                    self.attributes,
                    self.columns(),
                    x,
                );
            }
        }
    }

    /// More attributes have the larger closure.
    pub proof fn lemma_closure_extents_monotone(self, fewer: Seq<Seq<char>>, more: Seq<Seq<char>>)
        requires
            included(fewer, more),
            self.closure_extents(fewer) is Some,
            self.closure_extents(more) is Some,
        ensures
            included(self.closure_extents(fewer)->0, self.closure_extents(more)->0),
    {
        lemma_round_trip_monotone(
            self.attributes,
            fewer,
            more,
            self.columns(),
            self.objects,
            self.incidence,
        );
    }

    /// More objects have the larger closure.
    pub proof fn lemma_closure_intents_monotone(self, fewer: Seq<Seq<char>>, more: Seq<Seq<char>>)
        requires
            included(fewer, more),
            self.closure_intents(fewer) is Some,
            self.closure_intents(more) is Some,
        ensures
            included(self.closure_intents(fewer)->0, self.closure_intents(more)->0),
    {
        lemma_round_trip_monotone(
            self.objects,
            fewer,
            more,
            self.incidence,
            self.attributes,
            self.columns(),
        );
    }
}

} // verus!
