//! A formal context: objects, attributes, and which object has which
//! attribute; and the two derivation operators with their closures.

use crate::error::ContextError;
use crate::grid::{
    grid_append, grid_column_lanes, grid_default, grid_get, grid_row_lanes, grid_rows, grid_width,
    shape_fits, Grid,
};
use crate::names::{
    all_different, as_names, contains_name, copy_names, included, lemma_pick_contains, pick, pick_names,
    position_of,
};
use crate::text::{decimal, decimal_name, lemma_decimal_injective};
use std::borrow::Cow;
use vstd::prelude::*;

verus! {

/// Position `i` of `domain` is one that `inputs` names.
pub open spec fn chosen(domain: Seq<Seq<char>>, inputs: Seq<Seq<char>>, i: int) -> bool {
    0 <= i < domain.len() && inputs.contains(domain[i])
}

/// Every chosen lane is set at `j`.
pub open spec fn common(
    domain: Seq<Seq<char>>,
    inputs: Seq<Seq<char>>,
    lanes: Seq<Seq<bool>>,
    j: int,
) -> bool {
    forall|i: int| chosen(domain, inputs, i) ==> lanes[i][j]
}

/// For each of the first `width` cells, whether every chosen lane is set
/// there.
pub open spec fn common_mask(
    domain: Seq<Seq<char>>,
    inputs: Seq<Seq<char>>,
    lanes: Seq<Seq<bool>>,
    width: nat,
) -> Seq<bool> {
    Seq::new(width, |j: int| common(domain, inputs, lanes, j))
}

/// The derivation of `inputs`. The lanes stand for the members of `domain`,
/// position by position, and each has one cell for every name of `outputs`.
/// The derivation of no name at all is all of `outputs`. Otherwise the names
/// of `inputs` that `domain` does not hold are passed over; if it holds none
/// of them there is no result, and else the result is the names of `outputs`
/// at which every chosen lane is set.
pub open spec fn derivation(
    domain: Seq<Seq<char>>,
    inputs: Seq<Seq<char>>,
    lanes: Seq<Seq<bool>>,
    outputs: Seq<Seq<char>>,
) -> Option<Seq<Seq<char>>> {
    if inputs.len() == 0 {
        Some(outputs)
    } else if !(exists|i: int| chosen(domain, inputs, i)) {
        None
    } else {
        Some(pick(outputs, common_mask(domain, inputs, lanes, outputs.len())))
    }
}

/// A context as a mathematical value.
pub struct ContextView {
    /// The names of the objects, in their order.
    pub objects: Seq<Seq<char>>,
    /// The names of the attributes, in their order.
    pub attributes: Seq<Seq<char>>,
    /// One row for each object, with one cell for each attribute.
    pub incidence: Seq<Seq<bool>>,
}

impl ContextView {
    /// There is one row for each object and one cell in it for each attribute.
    pub open spec fn wf(self) -> bool {
        &&& self.incidence.len() == self.objects.len()
        &&& forall|i: int|
            0 <= i < self.incidence.len() ==> (#[trigger] self.incidence[i]).len()
                == self.attributes.len()
    }

    /// No two objects share a name, and no two attributes.
    pub open spec fn distinct_names(self) -> bool {
        self.objects.no_duplicates() && self.attributes.no_duplicates()
    }

    /// One lane for each attribute, with one cell for each object.
    pub open spec fn columns(self) -> Seq<Seq<bool>> {
        Seq::new(
            self.attributes.len(),
            |j: int| Seq::new(self.objects.len(), |i: int| self.incidence[i][j]),
        )
    }

    /// The attributes that all the named objects have.
    pub open spec fn intents(self, objects: Seq<Seq<char>>) -> Option<Seq<Seq<char>>> {
        derivation(self.objects, objects, self.incidence, self.attributes)
    }

    /// The objects that have all the named attributes.
    pub open spec fn extents(self, attributes: Seq<Seq<char>>) -> Option<Seq<Seq<char>>> {
        derivation(self.attributes, attributes, self.columns(), self.objects)
    }

    /// The objects that have every attribute that the named objects share.
    pub open spec fn closure_intents(self, objects: Seq<Seq<char>>) -> Option<Seq<Seq<char>>> {
        match self.intents(objects) {
            Some(attributes) => self.extents(attributes),
            None => None,
        }
    }

    /// The attributes of every object that has the named attributes.
    pub open spec fn closure_extents(self, attributes: Seq<Seq<char>>) -> Option<Seq<Seq<char>>> {
        match self.extents(attributes) {
            Some(objects) => self.intents(objects),
            None => None,
        }
    }

    /// The closure of attribute sets, as a function.
    pub open spec fn closing(self) -> spec_fn(Seq<Seq<char>>) -> Option<Seq<Seq<char>>> {
        |attributes: Seq<Seq<char>>| self.closure_extents(attributes)
    }

    /// Whether the named object has the named attribute: the cell of the
    /// first object and the first attribute of these names.
    pub open spec fn object_has_attribute(self, object: Seq<char>, attribute: Seq<char>) -> Option<
        bool,
    > {
        if self.objects.contains(object) && self.attributes.contains(attribute) {
            Some(
                self.incidence[self.objects.index_of_first(object).unwrap()][self.attributes.index_of_first(
                    attribute,
                ).unwrap()],
            )
        } else {
            None
        }
    }

    /// The context with one more object, which has the attributes that
    /// `attributes` names.
    pub open spec fn with_object(self, name: Seq<char>, attributes: Seq<Seq<char>>) -> ContextView {
        ContextView {
            objects: self.objects.push(name),
            attributes: self.attributes,
            incidence: self.incidence.push(
                Seq::new(self.attributes.len(), |j: int| attributes.contains(self.attributes[j])),
            ),
        }
    }
}

/// What a derivation gives is among the names of `outputs`.
pub proof fn lemma_derive_within(
    domain: Seq<Seq<char>>,
    inputs: Seq<Seq<char>>,
    lanes: Seq<Seq<bool>>,
    outputs: Seq<Seq<char>>,
)
    ensures
        derivation(domain, inputs, lanes, outputs) matches Some(r) ==> included(r, outputs),
{
    if let Some(r) = derivation(domain, inputs, lanes, outputs) {
        assert forall|x: Seq<char>| r.contains(x) implies outputs.contains(x) by {
            if inputs.len() > 0 {
                lemma_pick_contains(
                    outputs,
                    common_mask(domain, inputs, lanes, outputs.len()),
                    x,
                );
            }
        }
    }
}

/// A derivation has a result when no name is given or `domain` holds one of
/// the names given.
pub proof fn lemma_derive_defined(
    domain: Seq<Seq<char>>,
    inputs: Seq<Seq<char>>,
    lanes: Seq<Seq<bool>>,
    outputs: Seq<Seq<char>>,
)
    ensures
        derivation(domain, inputs, lanes, outputs) is Some <==> inputs.len() == 0 || exists|
            x: Seq<char>,
        |
            inputs.contains(x) && domain.contains(x),
{
    if inputs.len() > 0 {
        if exists|i: int| chosen(domain, inputs, i) {
            let i = choose|i: int| chosen(domain, inputs, i);
            assert(inputs.contains(domain[i]) && domain.contains(domain[i]));
        }
        if exists|x: Seq<char>| inputs.contains(x) && domain.contains(x) {
            let x = choose|x: Seq<char>| inputs.contains(x) && domain.contains(x);
            let i = choose|i: int| 0 <= i < domain.len() && domain[i] == x;
            assert(chosen(domain, inputs, i));
        }
    }
}

/// The names "1" to "count".
pub open spec fn numbered(count: nat) -> Seq<Seq<char>> {
    Seq::new(count, |i: int| decimal((i + 1) as nat))
}

/// The names "1" to "count" are all different.
pub proof fn lemma_numbered_distinct(count: nat)
    ensures
        numbered(count).no_duplicates(),
{
    assert forall|i: int, j: int| 0 <= i < j < count implies numbered(count)[i] != numbered(
        count,
    )[j] by {
        if decimal((i + 1) as nat) == decimal((j + 1) as nat) {
            lemma_decimal_injective((i + 1) as nat, (j + 1) as nat);
        }
    }
}

/// A formal context.
#[derive(Debug, PartialEq)]
pub struct Context {
    array: Grid,
    objects: Vec<String>,
    attributes: Vec<String>,
}

impl View for Context {
    type V = ContextView;

    closed spec fn view(&self) -> ContextView {
        ContextView {
            objects: self.objects.deep_view(),
            attributes: self.attributes.deep_view(),
            incidence: grid_rows(self.array),
        }
    }
}

/// The cell-by-cell conjunction of two lanes, as long as the shorter one.
pub fn bitand(accum: Vec<bool>, new: Vec<bool>) -> (both: Vec<bool>)
    ensures
        both.len() == if accum.len() <= new.len() {
            accum.len()
        } else {
            new.len()
        },
        forall|j: int| 0 <= j < both.len() ==> both[j] == (accum[j] && new[j]),
{
    let mut both: Vec<bool> = Vec::new();
    let mut j: usize = 0;
    while j < accum.len() && j < new.len()
        invariant
            j <= accum.len(),
            j <= new.len(),
            both.len() == j,
            forall|k: int| 0 <= k < j ==> both[k] == (accum[k] && new[k]),
        decreases accum.len() - j,
    {
        both.push(accum[j] && new[j]);
        j += 1;
    }
    both
}

fn copy_lane(lane: &Vec<bool>) -> (copy: Vec<bool>)
    ensures
        copy@ == lane@,
{
    let mut copy: Vec<bool> = Vec::new();
    let mut j: usize = 0;
    while j < lane.len()
        invariant
            j <= lane.len(),
            copy.len() == j,
            forall|k: int| 0 <= k < j ==> copy[k] == lane[k],
        decreases lane.len() - j,
    {
        copy.push(lane[j]);
        j += 1;
    }
    assert(copy@ =~= lane@);
    copy
}

/// The deep view of lanes is the lanes' views, one by one.
proof fn lemma_lanes_view(lanes: Vec<Vec<bool>>)
    ensures
        lanes.deep_view().len() == lanes.len(),
        forall|i: int| 0 <= i < lanes.len() ==> #[trigger] lanes.deep_view()[i] == lanes[i]@,
{
    assert forall|i: int| 0 <= i < lanes.len() implies #[trigger] lanes.deep_view()[i]
        == lanes[i]@ by {
        assert(lanes[i].deep_view() =~= lanes[i]@);
    }
}

/// Every chosen lane below `upto` is set at `j`.
spec fn common_below(
    domain: Seq<Seq<char>>,
    inputs: Seq<Seq<char>>,
    lanes: Seq<Seq<bool>>,
    j: int,
    upto: int,
) -> bool {
    forall|i: int| chosen(domain, inputs, i) && i < upto ==> lanes[i][j]
}

impl Context {
    /// The grid has the width that the attributes give it.
    pub closed spec fn grid_matches(&self) -> bool {
        grid_width(self.array) == self.attributes.len()
    }

    /// What every context that this library hands out satisfies.
    pub open spec fn wf(&self) -> bool {
        self@.wf() && self.grid_matches()
    }

    /// The objects are no more than a vector holds.
    pub proof fn lemma_objects_bounded(&self)
        ensures
            self@.objects.len() <= usize::MAX,
    {
        assert(self.objects.deep_view().len() == self.objects.len());
    }

    /// A context of `objects` objects and `attributes` attributes, named "1",
    /// "2" and so on, in which no object has any attribute.
    pub fn new(objects: usize, attributes: usize) -> (context: Self)
        requires
            shape_fits(objects as nat, attributes as nat),
        ensures
            context.wf(),
            context@.objects == numbered(objects as nat),
            context@.attributes == numbered(attributes as nat),
            context@.incidence == Seq::new(
                objects as nat,
                |i: int| Seq::new(attributes as nat, |j: int| false),
            ),
            context@.distinct_names(),
    {
        proof {
            lemma_numbered_distinct(objects as nat);
            lemma_numbered_distinct(attributes as nat);
        }
        let context = Self {
            objects: Self::numbered_names(objects),
            attributes: Self::numbered_names(attributes),
            array: grid_default(objects, attributes),
        };
        assert(context.attributes.deep_view().len() == context.attributes.len());
        assert(context.objects.deep_view().len() == context.objects.len());
        assert(context@.wf()) by {
            assert forall|i: int| 0 <= i < context@.incidence.len() implies (
            #[trigger] context@.incidence[i]).len() == context@.attributes.len() by {}
        }
        context
    }

    fn numbered_names(count: usize) -> (names: Vec<String>)
        ensures
            names.deep_view() == numbered(count as nat),
    {
        let mut names: Vec<String> = Vec::new();
        let mut i: usize = 0;
        while i < count
            invariant
                i <= count,
                names.len() == i,
                forall|k: int| 0 <= k < i ==> names.deep_view()[k] == decimal((k + 1) as nat),
            decreases count - i,
        {
            let ghost before = names.deep_view();
            let name = decimal_name(i + 1);
            names.push(name);
            assert(names.deep_view() =~= before.push(name@));
            i += 1;
        }
        assert(names.deep_view() =~= numbered(count as nat));
        names
    }

    /// The names of the objects, in their order.
    pub fn objects(&self) -> (names: Cow<[String]>)
        ensures
            names.deep_view() == self@.objects,
    {
        Cow::Borrowed(as_names(&self.objects))
    }

    /// Whether no two objects share a name, and no two attributes.
    pub fn has_distinct_names(&self) -> (distinct: bool)
        ensures
            distinct == self@.distinct_names(),
    {
        all_different(as_names(&self.objects)) && all_different(as_names(&self.attributes))
    }

    /// The names of the attributes as a slice.
    pub(crate) fn attribute_names(&self) -> (names: &[String])
        ensures
            names.deep_view() == self@.attributes,
    {
        as_names(&self.attributes)
    }

    /// The names of the attributes, in their order.
    pub fn attributes(&self) -> (names: Cow<[String]>)
        ensures
            names.deep_view() == self@.attributes,
    {
        Cow::Borrowed(as_names(&self.attributes))
    }

    /// The attributes that all the named objects have. No object named gives
    /// all attributes; names that no object has are passed over, and if no
    /// object has any of the names the answer is `None`.
    pub fn intents(&self, objects: &[String]) -> (shared: Option<Vec<String>>)
        requires
            self.wf(),
        ensures
            shared.deep_view() == self@.intents(objects.deep_view()),
            objects.len() == 0 ==> shared.deep_view() == Some(self@.attributes),
    {
        let lanes = grid_row_lanes(&self.array);
        proof {
            lemma_lanes_view(lanes);
            assert forall|i: int| 0 <= i < lanes.len() implies (#[trigger] lanes[i]).len()
                == self.attributes.len() by {
                assert(lanes.deep_view()[i] == self@.incidence[i]);
            }
        }
        Self::der(as_names(&self.objects), objects, &lanes, as_names(&self.attributes))
    }

    /// The objects that have all the named attributes. No attribute named
    /// gives all objects; names that no attribute has are passed over, and if
    /// no attribute has any of the names the answer is `None`.
    pub fn extents(&self, attributes: &[String]) -> (shared: Option<Vec<String>>)
        requires
            self.wf(),
        ensures
            shared.deep_view() == self@.extents(attributes.deep_view()),
            attributes.len() == 0 ==> shared.deep_view() == Some(self@.objects),
    {
        let lanes = grid_column_lanes(&self.array);
        proof {
            assert(lanes.deep_view() =~= self@.columns());
            lemma_lanes_view(lanes);
            assert forall|j: int| 0 <= j < lanes.len() implies (#[trigger] lanes[j]).len()
                == self.objects.len() by {
                assert(lanes.deep_view()[j] == self@.columns()[j]);
            }
        }
        Self::der(as_names(&self.attributes), attributes, &lanes, as_names(&self.objects))
    }

    /// The objects that have every attribute that the named objects share.
    pub fn closure_intents(&self, objects: &[String]) -> (closed: Option<Vec<String>>)
        requires
            self.wf(),
        ensures
            closed.deep_view() == self@.closure_intents(objects.deep_view()),
    {
        match self.intents(objects) {
            Some(attributes) => self.extents(as_names(&attributes)),
            None => None,
        }
    }

    /// The attributes of every object that has the named attributes.
    pub fn closure_extents(&self, attributes: &[String]) -> (closed: Option<Vec<String>>)
        requires
            self.wf(),
        ensures
            closed.deep_view() == self@.closure_extents(attributes.deep_view()),
    {
        match self.extents(attributes) {
            Some(objects) => self.intents(as_names(&objects)),
            None => None,
        }
    }

    fn der(
        inputs_named: &[String],
        inputs: &[String],
        set: &Vec<Vec<bool>>,
        outputs_named: &[String],
    ) -> (outputs: Option<Vec<String>>)
        requires
            set.len() == inputs_named.len(),
            forall|i: int| 0 <= i < set.len() ==> (#[trigger] set[i]).len() == outputs_named.len(),
        ensures
            outputs.deep_view() == derivation(
                inputs_named.deep_view(),
                inputs.deep_view(),
                set.deep_view(),
                outputs_named.deep_view(),
            ),
    {
        let ghost domain = inputs_named.deep_view();
        let ghost given = inputs.deep_view();
        let ghost lanes = set.deep_view();
        if inputs.len() == 0 {
            return Some(copy_names(outputs_named));
        }
        let mut reduced: Option<Vec<bool>> = None;
        let mut i: usize = 0;
        while i < set.len()
            invariant
                i <= set.len(),
                set.len() == inputs_named.len(),
                domain == inputs_named.deep_view(),
                given == inputs.deep_view(),
                lanes == set.deep_view(),
                forall|k: int|
                    0 <= k < set.len() ==> (#[trigger] set[k]).len() == outputs_named.len(),
                reduced is None <==> forall|k: int| 0 <= k < i ==> !chosen(domain, given, k),
                reduced matches Some(acc) ==> acc.len() == outputs_named.len() && forall|j: int|
                    0 <= j < acc.len() ==> acc[j] == common_below(domain, given, lanes, j, i as int),
            decreases set.len() - i,
        {
            if contains_name(inputs, &inputs_named[i]) {
                assert(chosen(domain, given, i as int));
                let lane = copy_lane(&set[i]);
                assert(forall|j: int| 0 <= j < lane.len() ==> lane[j] == lanes[i as int][j]);
                reduced = match reduced {
                    None => {
                        assert forall|j: int| 0 <= j < lane.len() implies lane[j] == common_below(
                            domain,
                            given,
                            lanes,
                            j,
                            i + 1,
                        ) by {
                            if lane[j] {
                                assert forall|k: int|
                                    chosen(domain, given, k) && k < i + 1 implies lanes[k][j] by {}
                            }
                        }
                        Some(lane)
                    },
                    Some(acc) => {
                        let ghost before = acc@;
                        let both = bitand(acc, lane);
                        assert forall|j: int| 0 <= j < both.len() implies both[j] == common_below(
                            domain,
                            given,
                            lanes,
                            j,
                            i + 1,
                        ) by {
                            assert(before[j] == common_below(domain, given, lanes, j, i as int));
                            if both[j] {
                                assert forall|k: int|
                                    chosen(domain, given, k) && k < i + 1 implies lanes[k][j] by {}
                            }
                        }
                        Some(both)
                    },
                };
            } else {
                assert(!chosen(domain, given, i as int));
                assert forall|j: int| common_below(domain, given, lanes, j, i as int)
                    == common_below(domain, given, lanes, j, i + 1) by {}
            }
            i += 1;
        }
        match reduced {
            None => {
                assert(!(exists|k: int| chosen(domain, given, k)));
                None
            },
            Some(acc) => {
                assert(exists|k: int| chosen(domain, given, k));
                assert(acc@ =~= common_mask(
                    domain,
                    given,
                    lanes,
                    outputs_named.deep_view().len(),
                )) by {
                    assert forall|j: int| 0 <= j < acc.len() implies acc[j] == common(
                        domain,
                        given,
                        lanes,
                        j,
                    ) by {
                        assert(acc[j] == common_below(domain, given, lanes, j, i as int));
                    }
                }
                Some(pick_names(outputs_named, &acc))
            },
        }
    }

    /// Whether the named object has the named attribute; `None` if there is
    /// no such object or no such attribute.
    pub fn object_has_attribute(&self, object: &str, attribute: &str) -> (has: Option<bool>)
        requires
            self.wf(),
        ensures
            has == self@.object_has_attribute(object@, attribute@),
    {
        let object_name = object.to_owned();
        let attribute_name = attribute.to_owned();
        proof {
            self@.objects.index_of_first_ensures(object@);
            self@.attributes.index_of_first_ensures(attribute@);
        }
        match position_of(as_names(&self.objects), &object_name) {
            None => None,
            Some(object_index) => match position_of(as_names(&self.attributes), &attribute_name) {
                None => None,
                Some(attribute_index) => grid_get(&self.array, object_index, attribute_index),
            },
        }
    }

    /// A context with the given attributes and no object.
    pub(crate) fn with_attributes(attributes: Vec<String>) -> (context: Self)
        requires
            shape_fits(0, attributes.len() as nat),
        ensures
            context.wf(),
            context@.objects == Seq::<Seq<char>>::empty(),
            context@.attributes == attributes.deep_view(),
            context@.incidence == Seq::<Seq<bool>>::empty(),
    {
        let objects: Vec<String> = Vec::new();
        let array = grid_default(0, attributes.len());
        let context = Self { array, objects, attributes };
        assert(context.objects.deep_view() =~= Seq::empty());
        assert(context@.incidence =~= Seq::empty());
        assert(context.attributes.deep_view().len() == context.attributes.len());
        context
    }

    /// Adds an object as the last one, with the given name and row of marks.
    pub(crate) fn push_row(&mut self, name: String, row: &Vec<bool>) -> (done: Result<
        (),
        ContextError,
    >)
        requires
            old(self).wf(),
            row.len() == old(self)@.attributes.len(),
        ensures
            final(self).wf(),
            done is Ok <==> shape_fits(old(self)@.objects.len() + 1, old(self)@.attributes.len()),
            done is Ok ==> final(self)@ == (ContextView {
                objects: old(self)@.objects.push(name@),
                attributes: old(self)@.attributes,
                incidence: old(self)@.incidence.push(row@),
            }),
            done is Err ==> final(self)@ == old(self)@,
            done matches Err(e) ==> e is InternalInvariantViolation,
            final(self)@.objects.len() <= usize::MAX,
    {
        assert(self.objects.deep_view().len() == self.objects.len());
        assert(self.attributes.deep_view().len() == self.attributes.len());
        if self.objects.len() == usize::MAX {
            proof {
                let rows = self@.objects.len() + 1;
                let factor = crate::grid::axis_factor(self@.attributes.len());
                assert(rows * factor >= rows) by (nonlinear_arith)
                    requires
                        rows >= 0,
                        factor >= 1,
                ;
            }
            return Err(ContextError::InternalInvariantViolation);
        }
        match grid_append(&mut self.array, row) {
            Err(_) => Err(ContextError::InternalInvariantViolation),
            Ok(()) => {
                let ghost before = self.objects.deep_view();
                self.objects.push(name);
                proof {
                    assert(self.objects.deep_view() =~= before.push(name@));
                    assert(self.objects.deep_view().len() == self.objects.len());
                }
                Ok(())
            },
        }
    }

    /// The names of the objects as a slice.
    pub(crate) fn object_names(&self) -> (names: &[String])
        ensures
            names.deep_view() == self@.objects,
    {
        as_names(&self.objects)
    }

    /// The rows of marks, one for each object.
    pub(crate) fn rows(&self) -> (lanes: Vec<Vec<bool>>)
        requires
            self.wf(),
        ensures
            lanes.deep_view() == self@.incidence,
            lanes.len() == self@.objects.len(),
            forall|i: int| 0 <= i < lanes.len() ==> #[trigger] lanes[i]@ == self@.incidence[i],
    {
        let lanes = grid_row_lanes(&self.array);
        proof {
            lemma_lanes_view(lanes);
        }
        lanes
    }

    /// Adds an object as the last one, with the attributes that `attributes`
    /// names; names that are no attribute of the context are passed over.
    /// Without a name the object is given the number of objects that the
    /// context then has. The object is added unless the incidence grid
    /// cannot hold one more row.
    pub fn add_object(&mut self, name: Option<String>, attributes: &[String]) -> (done: Result<
        (),
        ContextError,
    >)
        requires
            old(self).wf(),
        ensures
            final(self).wf(),
            done is Ok <==> shape_fits(old(self)@.objects.len() + 1, old(self)@.attributes.len()),
            done is Ok ==> final(self)@ == old(self)@.with_object(
                match name {
                    Some(given) => given@,
                    None => decimal(old(self)@.objects.len() + 1),
                },
                attributes.deep_view(),
            ),
            done is Err ==> final(self)@ == old(self)@,
            done matches Err(e) ==> e is InternalInvariantViolation,
            final(self)@.objects.len() <= usize::MAX,
    {
        let mut row: Vec<bool> = Vec::new();
        let mut j: usize = 0;
        while j < self.attributes.len()
            invariant
                j <= self.attributes.len(),
                row.len() == j,
                forall|k: int|
                    0 <= k < j ==> row[k] == attributes.deep_view().contains(
                        self.attributes.deep_view()[k],
                    ),
            decreases self.attributes.len() - j,
        {
            row.push(contains_name(attributes, &self.attributes[j]));
            j += 1;
        }
        proof {
            assert(self.attributes.deep_view().len() == self.attributes.len());
            assert(self.objects.deep_view().len() == self.objects.len());
            assert(row@ =~= Seq::new(
                self.attributes.deep_view().len(),
                |j: int| attributes.deep_view().contains(self.attributes.deep_view()[j]),
            ));
        }
        let name = match name {
            Some(given) => given,
            None => {
                if self.objects.len() == usize::MAX {
                    proof {
                        let rows = self@.objects.len() + 1;
                        let factor = crate::grid::axis_factor(self@.attributes.len());
                        assert(rows * factor >= rows) by (nonlinear_arith)
                            requires
                                rows >= 0,
                                factor >= 1,
                        ;
                    }
                    return Err(ContextError::InternalInvariantViolation);
                }
                decimal_name(self.objects.len() + 1)
            },
        };
        self.push_row(name, &row)
    }
}

} // verus!
