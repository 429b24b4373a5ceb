//! The canonical basis of the implications that hold in a context, and
//! attribute exploration, which builds it while an oracle may add objects.

use crate::context::{Context, ContextView};
use crate::error::ContextError;
use crate::grid::shape_fits;
use crate::closed_sets::lemma_next_closure_least;
use crate::implications::{
    as_rules, closure_under, lemma_under_is_closure_operator, preclosure_operator, under,
    Implication, ImplicationView,
};
use crate::lectic::{
    agree_before, agrees, candidate, lectic_bound, lectic_next, lectic_rank,
    lemma_accepted_is_greater, lemma_next_is_greater, lemma_rank_bound, lemma_rank_less,
    next_closure,
};
use crate::names::{
    as_names, copy_names, included, includes_all, lemma_same_members, same_members, same_sequence,
};
use crate::text::decimal;
use vstd::prelude::*;

verus! {

/// The implications `basis`, and after them the implication from
/// `attributes` to their closure in the context, unless the closure holds
/// the same attributes.
pub open spec fn recorded(
    context: ContextView,
    basis: Seq<ImplicationView>,
    attributes: Seq<Seq<char>>,
) -> Seq<ImplicationView> {
    match context.closure_extents(attributes) {
        Some(closure) => if same_members(attributes, closure) {
            basis
        } else {
            basis.push(ImplicationView { premise: attributes, conclusion: closure })
        },
        None => basis,
    }
}

/// The implications that the construction ends with when it stands at the
/// set `attributes` with `basis` found so far. At the sequence of all
/// attributes it ends. Elsewhere it records the implication of `attributes`
/// and goes on to the next set that is closed under what is then recorded,
/// or ends if there is none.
pub open spec fn basis_from(
    context: ContextView,
    basis: Seq<ImplicationView>,
    attributes: Seq<Seq<char>>,
) -> Seq<ImplicationView>
    decreases
            lectic_bound(context.attributes.len() as int) - lectic_rank(
                context.attributes,
                attributes,
                context.attributes.len() as int,
            ),
    when context.attributes.no_duplicates()
    via basis_from_decreases
{
    if attributes == context.attributes {
        basis
    } else {
        let longer = recorded(context, basis, attributes);
        match lectic_next(
            context.attributes,
            attributes,
            under(longer),
            context.attributes.len() as int,
        ) {
            None => longer,
            Some(next) => basis_from(context, longer, next),
        }
    }
}

#[via_fn]
proof fn basis_from_decreases(
    context: ContextView,
    basis: Seq<ImplicationView>,
    attributes: Seq<Seq<char>>,
) {
    let width = context.attributes.len() as int;
    if attributes != context.attributes {
        let longer = recorded(context, basis, attributes);
        if let Some(next) = lectic_next(context.attributes, attributes, under(longer), width) {
            lemma_next_is_greater(context.attributes, attributes, under(longer), width);
            lemma_rank_bound(context.attributes, next, width);
        }
    }
}

impl ContextView {
    /// The canonical basis: what the construction ends with when it starts
    /// at the empty set with nothing recorded.
    pub open spec fn canonical_basis(self) -> Seq<ImplicationView> {
        basis_from(self, Seq::empty(), Seq::empty())
    }

    /// What an exploration of the context ends with when the oracle answers
    /// as `answers` says.
    pub open spec fn explored(
        self,
        answers: spec_fn(Seq<Seq<char>>, Seq<Seq<char>>) -> Option<
            (Option<Seq<char>>, Seq<Seq<char>>),
        >,
    ) -> Option<(Seq<ImplicationView>, ContextView)> {
        explore_from(self, answers, Seq::empty(), Seq::empty())
    }

    /// `self` is `start` with more objects after those of `start`.
    pub open spec fn grown_from(self, start: ContextView) -> bool {
        &&& self.attributes == start.attributes
        &&& start.objects.is_prefix_of(self.objects)
        &&& start.incidence.is_prefix_of(self.incidence)
    }
}

/// The name of an object that is added when the context has `count`
/// objects: the name given, or the number of the object.
pub open spec fn named(name: Option<Seq<char>>, count: nat) -> Seq<char> {
    match name {
        Some(given) => given,
        None => decimal(count + 1),
    }
}

/// How an exploration goes on when the question at `attributes` is settled
/// with `basis` recorded: to the next set that is closed under `basis`, or
/// to its end if there is none.
pub open spec fn explore_on(
    context: ContextView,
    answers: spec_fn(Seq<Seq<char>>, Seq<Seq<char>>) -> Option<
        (Option<Seq<char>>, Seq<Seq<char>>),
    >,
    basis: Seq<ImplicationView>,
    attributes: Seq<Seq<char>>,
) -> Option<(Seq<ImplicationView>, ContextView)> {
    match lectic_next(
        context.attributes,
        attributes,
        under(basis),
        context.attributes.len() as int,
    ) {
        None => Some((basis, context)),
        Some(next) => explore_from(context, answers, basis, next),
    }
}

/// What an exploration ends with when it stands at the set `attributes`
/// with `basis` recorded, and the oracle answers as `answers` says: the
/// implications recorded and the context, or `None` if the grid cannot hold
/// an object that the oracle names.
///
/// At the sequence of all attributes the exploration ends. At a set that is
/// closed in the context it goes on. At any other the oracle is asked
/// whether the set implies its closure. If it confirms, the implication is
/// recorded and the exploration goes on. If it names an object, the object
/// is added with the attributes given and those of the set, and the
/// exploration stands at the same set in the context so grown.
pub open spec fn explore_from(
    context: ContextView,
    answers: spec_fn(Seq<Seq<char>>, Seq<Seq<char>>) -> Option<
        (Option<Seq<char>>, Seq<Seq<char>>),
    >,
    basis: Seq<ImplicationView>,
    attributes: Seq<Seq<char>>,
) -> Option<(Seq<ImplicationView>, ContextView)>
    decreases
            lectic_bound(context.attributes.len() as int) - lectic_rank(
                context.attributes,
                attributes,
                context.attributes.len() as int,
            ),
            isize::MAX - context.objects.len(),
    when context.attributes.no_duplicates()
    via explore_from_decreases
{
    if attributes == context.attributes {
        Some((basis, context))
    } else if context.closure_extents(attributes) is Some && !same_members(
        attributes,
        context.closure_extents(attributes)->0,
    ) && answers(attributes, context.closure_extents(attributes)->0) is Some {
        let answer = answers(attributes, context.closure_extents(attributes)->0)->0;
        if shape_fits(context.objects.len() + 1, context.attributes.len()) {
            explore_from(
                context.with_object(named(answer.0, context.objects.len()), answer.1 + attributes),
                answers,
                basis,
                attributes,
            )
        } else {
            None
        }
    } else {
        match lectic_next(
            context.attributes,
            attributes,
            under(recorded(context, basis, attributes)),
            context.attributes.len() as int,
        ) {
            None => Some((recorded(context, basis, attributes), context)),
            Some(next) => explore_from(
                context,
                answers,
                recorded(context, basis, attributes),
                next,
            ),
        }
    }
}

#[via_fn]
proof fn explore_from_decreases(
    context: ContextView,
    answers: spec_fn(Seq<Seq<char>>, Seq<Seq<char>>) -> Option<
        (Option<Seq<char>>, Seq<Seq<char>>),
    >,
    basis: Seq<ImplicationView>,
    attributes: Seq<Seq<char>>,
) {
    let width = context.attributes.len() as int;
    if attributes != context.attributes {
        if context.closure_extents(attributes) is Some && !same_members(
            attributes,
            context.closure_extents(attributes)->0,
        ) && answers(attributes, context.closure_extents(attributes)->0) is Some {
            if shape_fits(context.objects.len() + 1, context.attributes.len()) {
                lemma_fitting_rows(context.objects.len() + 1, context.attributes.len());
            }
        } else {
            let longer = recorded(context, basis, attributes);
            if let Some(next) = lectic_next(context.attributes, attributes, under(longer), width) {
                lemma_next_is_greater(context.attributes, attributes, under(longer), width);
                lemma_rank_bound(context.attributes, next, width);
            }
        }
    }
}

/// A grid that fits has no more rows than `isize::MAX`.
proof fn lemma_fitting_rows(rows: nat, width: nat)
    requires
        rows > 0,
        shape_fits(rows, width),
    ensures
        rows <= isize::MAX,
{
    let factor = crate::grid::axis_factor(width);
    assert(rows * factor >= rows) by (nonlinear_arith)
        requires
            factor >= 1,
    ;
}

/// A question that an exploration from `start` may put: from a set of
/// attributes of the context that is not closed in a context grown from
/// `start`, to its closure there.
pub open spec fn questioned(
    start: ContextView,
    premise: Seq<Seq<char>>,
    conclusion: Seq<Seq<char>>,
) -> bool {
    &&& included(premise, start.attributes)
    &&& !same_members(premise, conclusion)
    &&& exists|grown: ContextView|
        grown.grown_from(start) && #[trigger] grown.closure_extents(premise) == Some(conclusion)
}

/// Every answer of the executable oracle is the value of `answers` on the
/// same question.
pub open spec fn oracle_agrees<F: Fn(&[String], &[String]) -> Option<(Option<String>, Vec<String>)>>(
    oracle: F,
    answers: spec_fn(Seq<Seq<char>>, Seq<Seq<char>>) -> Option<
        (Option<Seq<char>>, Seq<Seq<char>>),
    >,
) -> bool {
    forall|p: &[String], c: &[String], r: Option<(Option<String>, Vec<String>)>| #[trigger]
        call_ensures(oracle, (p, c), r) ==> r.deep_view() == answers(p.deep_view(), c.deep_view())
}

/// What an exploration has come to, as a mathematical value.
pub open spec fn outcome(
    explored: Result<(Vec<Implication>, Context), ContextError>,
) -> Option<(Seq<ImplicationView>, ContextView)> {
    match explored {
        Ok((basis, grown)) => Some((basis.deep_view(), grown@)),
        Err(_) => None,
    }
}

/// The oracle confirms whatever it is asked.
pub open spec fn always_confirms<F: Fn(&[String], &[String]) -> Option<(Option<String>, Vec<String>)>>(
    oracle: F,
) -> bool {
    forall|p: &[String], c: &[String], r: Option<(Option<String>, Vec<String>)>| #[trigger]
        call_ensures(oracle, (p, c), r) ==> r is None
}

/// The implication is one that an exploration from `start` to `end` asks
/// for: its premise is a set of attributes that is not closed in a context
/// between the two, and its conclusion is the closure of the premise there.
pub open spec fn asked_between(
    start: ContextView,
    end: ContextView,
    implication: ImplicationView,
) -> bool {
    exists|midway: ContextView|
        {
            &&& midway.grown_from(start)
            &&& end.grown_from(midway)
            &&& #[trigger] midway.closure_extents(implication.premise) == Some(
                implication.conclusion,
            )
            &&& !same_members(implication.premise, implication.conclusion)
        }
}

/// What was asked on the way to a context was asked on the way to any
/// context grown from it.
pub proof fn lemma_asked_before(
    start: ContextView,
    end: ContextView,
    later: ContextView,
    implication: ImplicationView,
)
    requires
        asked_between(start, end, implication),
        later.grown_from(end),
    ensures
        asked_between(start, later, implication),
{
    let midway = choose|midway: ContextView|
        {
            &&& midway.grown_from(start)
            &&& end.grown_from(midway)
            &&& #[trigger] midway.closure_extents(implication.premise) == Some(
                implication.conclusion,
            )
            &&& !same_members(implication.premise, implication.conclusion)
        };
    assert(later.grown_from(midway));
}

/// The oracle has confirmed the implication: asked for it, it may answer
/// that it holds.
pub open spec fn confirmed<F: Fn(&[String], &[String]) -> Option<(Option<String>, Vec<String>)>>(
    oracle: F,
    implication: ImplicationView,
) -> bool {
    exists|p: &[String], c: &[String]|
        p.deep_view() == implication.premise && c.deep_view() == implication.conclusion
            && #[trigger] call_ensures(oracle, (p, c), None)
}

impl Context {
    /// The canonical basis of the implications between attributes that hold
    /// in the context.
    ///
    /// The result is what the construction of `basis_from` ends with. Where
    /// no two objects share a name, it is a basis of the implications of the
    /// context: its implications hold, and what follows from them is what
    /// holds.
    pub fn canonical_basis(&self) -> (basis: Vec<Implication>)
        requires
            self.wf(),
            self@.attributes.no_duplicates(),
        ensures
            basis.deep_view() == self@.canonical_basis(),
            self@.objects.no_duplicates() ==> self@.has_basis(basis.deep_view()),
    {
        let ghost base = self@.attributes;
        let ghost width = base.len() as int;
        let mut l: Vec<Implication> = Vec::new();
        let mut a: Vec<String> = Vec::new();
        let m = copy_names(self.attribute_names());
        let mut done = false;
        assert(l.deep_view() =~= Seq::empty());
        assert(a.deep_view() =~= Seq::empty());
        while !done
            invariant
                self.wf(),
                base == self@.attributes,
                base.no_duplicates(),
                width == base.len(),
                m.deep_view() == base,
                a.deep_view().len() == 0 || exists|x: Seq<char>|
                    a.deep_view().contains(x) && base.contains(x),
                !done ==> basis_from(self@, l.deep_view(), a.deep_view()) == self@.canonical_basis(),
                done ==> l.deep_view() == self@.canonical_basis(),
            decreases
                    if done {
                        0
                    } else {
                        1 + lectic_bound(width) - lectic_rank(base, a.deep_view(), width)
                    },
        {
            proof {
                lemma_rank_bound(base, a.deep_view(), width);
            }
            if same_sequence(as_names(&a), as_names(&m)) {
                done = true;
            } else {
                let ghost before = l.deep_view();
                proof {
                    self@.lemma_closure_exists(a.deep_view());
                }
                let closure = self.closure_extents(as_names(&a)).unwrap();
                proof {
                    lemma_same_members(a.deep_view(), closure.deep_view());
                }
                if !includes_all(as_names(&a), as_names(&closure)) || !includes_all(
                    as_names(&closure),
                    as_names(&a),
                ) {
                    let implication = Implication { premise: copy_names(as_names(&a)), conclusion: closure };
                    l.push(implication);
                    assert(l.deep_view() =~= before.push(implication@));
                }
                assert(l.deep_view() == recorded(self@, before, a.deep_view()));
                let preclosure = |n: &[String]| -> (r: Option<Vec<String>>)
                    ensures
                        r.deep_view() == Some(closure_under(l.deep_view(), n.deep_view())),
                    { Some(preclosure_operator(as_rules(&l), n)) };
                assert(agrees(preclosure, under(l.deep_view())));
                match next_closure(as_names(&m), as_names(&a), preclosure) {
                    None => {
                        done = true;
                    },
                    Some(next) => {
                        proof {
                            lemma_step_is_greater(base, a.deep_view(), next.deep_view());
                        }
                        a = next;
                    },
                }
            }
        }
        proof {
            if self@.objects.no_duplicates() {
                self@.lemma_canonical_basis();
            }
        }
        l
    }

    /// What an answer of the oracle does to an exploration that asked
    /// whether `premise` implies `conclusion`. The answer `None` confirms:
    /// the implication is added to `basis`, and the result is `true`. Any
    /// other answer names an object that has `premise` and not all of
    /// `conclusion`: the object is added to the context with the attributes
    /// given and those of `premise`, and the result is `false`, for the
    /// question is still open. Where the context cannot hold one more
    /// object, nothing changes and the error is returned.
    pub fn apply_answer(
        &mut self,
        basis: &mut Vec<Implication>,
        premise: &[String],
        conclusion: &[String],
        answer: Option<(Option<String>, Vec<String>)>,
    ) -> (settled: Result<bool, ContextError>)
        requires
            old(self).wf(),
        ensures
            final(self).wf(),
            final(self)@.objects.len() <= usize::MAX,
            settled matches Err(e) ==> e is InternalInvariantViolation,
            answer is None ==> {
                &&& settled == Ok::<bool, ContextError>(true)
                &&& final(self)@ == old(self)@
                &&& final(basis).deep_view() == old(basis).deep_view().push(
                    ImplicationView {
                        premise: premise.deep_view(),
                        conclusion: conclusion.deep_view(),
                    },
                )
            },
            answer matches Some((name, attributes)) ==> {
                &&& final(basis).deep_view() == old(basis).deep_view()
                &&& settled is Ok <==> shape_fits(
                    old(self)@.objects.len() + 1,
                    old(self)@.attributes.len(),
                )
                &&& settled is Ok ==> settled == Ok::<bool, ContextError>(false) && final(self)@
                    == old(self)@.with_object(
                    match name {
                        Some(given) => given@,
                        None => decimal(old(self)@.objects.len() + 1),
                    },
                    attributes.deep_view() + premise.deep_view(),
                )
                &&& settled is Err ==> final(self)@ == old(self)@
            },
    {
        match answer {
            None => {
                let ghost before = basis.deep_view();
                let implication = Implication {
                    premise: copy_names(premise),
                    conclusion: copy_names(conclusion),
                };
                basis.push(implication);
                assert(basis.deep_view() =~= before.push(implication@));
                proof {
                    self.lemma_objects_bounded();
                }
                Ok(true)
            },
            Some((name, attributes)) => {
                let mut attributes = attributes;
                let ghost given = attributes.deep_view();
                let mut also = copy_names(premise);
                attributes.append(&mut also);
                assert(attributes.deep_view() =~= given + premise.deep_view());
                match self.add_object(name, as_names(&attributes)) {
                    Ok(()) => Ok(false),
                    Err(e) => Err(e),
                }
            },
        }
    }

    /// The canonical basis of the implications that an oracle accepts, and
    /// the context with the objects that the oracle named.
    ///
    /// This is the construction of the canonical basis with one change. Of
    /// each implication that would be recorded the oracle is asked first. If
    /// it names an object that the implication does not hold of, the object
    /// is added to the context, and the closure is taken anew in the context
    /// so grown, until the oracle confirms or nothing is left to ask.
    ///
    /// The oracle is asked nothing but questions in the sense of
    /// `questioned`, and has to take those only. Where it computes a function
    /// `answers` of what it is asked, the result is `explored` for `answers`:
    /// the implications and the context that `explore_from` gives, or an
    /// error where the grid cannot hold an object that the oracle names.
    /// Whatever the oracle answers, the context that comes back is the one
    /// given with more objects after its own, and every implication that
    /// comes back was asked for on the way and confirmed. With an oracle that
    /// confirms everything, the result is the canonical basis of the context
    /// and the context itself.
    pub fn attribute_exploration<F>(self, oracle_callback: F) -> (explored: Result<
        (Vec<Implication>, Context),
        ContextError,
    >) where F: Fn(&[String], &[String]) -> Option<(Option<String>, Vec<String>)>
        requires
            self.wf(),
            self@.attributes.no_duplicates(),
            forall|p: &[String], c: &[String]|
                questioned(self@, p.deep_view(), c.deep_view()) ==> #[trigger] call_requires(
                    oracle_callback,
                    (p, c),
                ),
        ensures
            forall|
                answers: spec_fn(Seq<Seq<char>>, Seq<Seq<char>>) -> Option<
                    (Option<Seq<char>>, Seq<Seq<char>>),
                >,
            | #[trigger]
                oracle_agrees(oracle_callback, answers) ==> outcome(explored) == self@.explored(
                    answers,
                ),
            explored matches Ok((basis, grown)) ==> grown.wf() && grown@.grown_from(self@),
            explored matches Ok((basis, grown)) ==> forall|k: int|
                0 <= k < basis.len() ==> confirmed(
                    oracle_callback,
                    #[trigger] basis.deep_view()[k],
                ) && asked_between(self@, grown@, basis.deep_view()[k]),
            explored matches Err(e) ==> e is InternalInvariantViolation,
            always_confirms(oracle_callback) ==> (explored matches Ok((basis, grown))
                && basis.deep_view() == self@.canonical_basis() && grown@ == self@),
    {
        let ghost start = self@;
        let ghost base = self@.attributes;
        let ghost width = base.len() as int;
        let ghost confirming = always_confirms(oracle_callback);
        let mut context = self;
        let mut l: Vec<Implication> = Vec::new();
        let mut a: Vec<String> = Vec::new();
        let m = copy_names(context.attribute_names());
        let mut done = false;
        assert(l.deep_view() =~= Seq::empty());
        assert(a.deep_view() =~= Seq::empty());
        while !done
            invariant
                context.wf(),
                start == self@,
                context@.grown_from(start),
                base == start.attributes,
                base.no_duplicates(),
                width == base.len(),
                m.deep_view() == base,
                confirming == always_confirms(oracle_callback),
                forall|p: &[String], c: &[String]|
                    questioned(start, p.deep_view(), c.deep_view()) ==> #[trigger] call_requires(
                        oracle_callback,
                        (p, c),
                    ),
                forall|k: int|
                    0 <= k < l.len() ==> confirmed(oracle_callback, #[trigger] l.deep_view()[k])
                        && asked_between(start, context@, l.deep_view()[k]),
                forall|k: int|
                    0 <= k < l.len() ==> included((#[trigger] l.deep_view()[k]).conclusion, base),
                included(a.deep_view(), base),
                forall|
                    answers: spec_fn(Seq<Seq<char>>, Seq<Seq<char>>) -> Option<
                        (Option<Seq<char>>, Seq<Seq<char>>),
                    >,
                | #[trigger]
                    oracle_agrees(oracle_callback, answers) ==> start.explored(answers) == if done {
                        Some((l.deep_view(), context@))
                    } else {
                        explore_from(context@, answers, l.deep_view(), a.deep_view())
                    },
                confirming ==> context@ == start,
                confirming && !done ==> basis_from(start, l.deep_view(), a.deep_view())
                    == start.canonical_basis(),
                confirming && done ==> l.deep_view() == start.canonical_basis(),
            decreases
                    if done {
                        0
                    } else {
                        1 + lectic_bound(width) - lectic_rank(base, a.deep_view(), width)
                    },
        {
            proof {
                lemma_rank_bound(base, a.deep_view(), width);
            }
            if same_sequence(as_names(&a), as_names(&m)) {
                done = true;
            } else {
                let ghost before = l.deep_view();
                proof {
                    context@.lemma_closure_of_attributes(a.deep_view());
                    context.lemma_objects_bounded();
                }
                let mut closure = context.closure_extents(as_names(&a)).unwrap();
                let mut open = !includes_all(as_names(&a), as_names(&closure)) || !includes_all(
                    as_names(&closure),
                    as_names(&a),
                );
                proof {
                    lemma_same_members(a.deep_view(), closure.deep_view());
                }
                while open
                    invariant
                        context.wf(),
                        start == self@,
                        context@.grown_from(start),
                        context@.objects.len() <= usize::MAX,
                        base == start.attributes,
                        base.no_duplicates(),
                        a.deep_view() != base,
                        confirming == always_confirms(oracle_callback),
                        forall|p: &[String], c: &[String]|
                            questioned(start, p.deep_view(), c.deep_view())
                                ==> #[trigger] call_requires(oracle_callback, (p, c)),
                        forall|k: int|
                            0 <= k < l.len() ==> confirmed(
                                oracle_callback,
                                #[trigger] l.deep_view()[k],
                            ) && asked_between(start, context@, l.deep_view()[k]),
                        forall|k: int|
                            0 <= k < l.len() ==> included(
                                (#[trigger] l.deep_view()[k]).conclusion,
                                base,
                            ),
                        included(a.deep_view(), base),
                        open ==> Some(closure.deep_view()) == context@.closure_extents(
                            a.deep_view(),
                        ) && !same_members(a.deep_view(), closure.deep_view()),
                        forall|
                            answers: spec_fn(Seq<Seq<char>>, Seq<Seq<char>>) -> Option<
                                (Option<Seq<char>>, Seq<Seq<char>>),
                            >,
                        | #[trigger]
                            oracle_agrees(oracle_callback, answers) ==> start.explored(answers)
                                == if open {
                                explore_from(context@, answers, l.deep_view(), a.deep_view())
                            } else {
                                explore_on(context@, answers, l.deep_view(), a.deep_view())
                            },
                        confirming ==> context@ == start,
                        confirming && open ==> l.deep_view() == before,
                        confirming ==> l.deep_view() == if open {
                            before
                        } else {
                            recorded(start, before, a.deep_view())
                        },
                    decreases usize::MAX - context@.objects.len() + if open {
                        1int
                    } else {
                        0int
                    },
                {
                    let ghost asked = context@;
                    let ghost found = l.deep_view();
                    let premise = as_names(&a);
                    let conclusion = as_names(&closure);
                    assert(questioned(start, premise.deep_view(), conclusion.deep_view()));
                    let answer = oracle_callback(premise, conclusion);
                    let ghost said = answer;
                    let ghost confirms = answer is None;
                    proof {
                        assert(call_ensures(oracle_callback, (premise, conclusion), said));
                        if answer is None {
                            assert(confirmed(
                                oracle_callback,
                                ImplicationView {
                                    premise: premise.deep_view(),
                                    conclusion: conclusion.deep_view(),
                                },
                            ));
                        }
                    }
                    match context.apply_answer(&mut l, premise, conclusion, answer) {
                        Err(e) => {
                            assert forall|
                                answers: spec_fn(Seq<Seq<char>>, Seq<Seq<char>>) -> Option<
                                    (Option<Seq<char>>, Seq<Seq<char>>),
                                >,
                            | #[trigger]
                                oracle_agrees(
                                    oracle_callback,
                                    answers,
                                ) implies start.explored(answers) == None::<
                                (Seq<ImplicationView>, ContextView),
                            > by {
                                assert(said.deep_view() == answers(
                                    premise.deep_view(),
                                    conclusion.deep_view(),
                                ));
                                assert(start.explored(answers) == explore_from(
                                    asked,
                                    answers,
                                    found,
                                    a.deep_view(),
                                ));
                                assert(explore_from(asked, answers, found, a.deep_view()) is None);
                            }
                            let failed: Result<(Vec<Implication>, Context), ContextError> = Err(e);
                            assert(outcome(failed) is None);
                            return failed;
                        },
                        Ok(settled) => {
                            assert(context@.grown_from(asked)) by {
                                assert(asked.objects.is_prefix_of(context@.objects));
                                assert(asked.incidence.is_prefix_of(context@.incidence));
                            }
                            assert forall|k: int| 0 <= k < l.len() implies confirmed(
                                oracle_callback,
                                #[trigger] l.deep_view()[k],
                            ) && asked_between(start, context@, l.deep_view()[k]) && included(
                                l.deep_view()[k].conclusion,
                                base,
                            ) by {
                                if k < found.len() {
                                    assert(l.deep_view()[k] == found[k]);
                                    lemma_asked_before(start, asked, context@, found[k]);
                                } else {
                                    assert(asked.grown_from(start) && context@.grown_from(asked)
                                        && asked.closure_extents(premise.deep_view()) == Some(
                                        conclusion.deep_view(),
                                    ));
                                    assert(l.deep_view().len() == l.len());
                                    assert(confirms);
                                    assert(l.deep_view() == found.push(
                                        ImplicationView {
                                            premise: premise.deep_view(),
                                            conclusion: conclusion.deep_view(),
                                        },
                                    ));
                                    assert(k == found.len());
                                    assert(l.deep_view()[k] == ImplicationView {
                                        premise: premise.deep_view(),
                                        conclusion: conclusion.deep_view(),
                                    });
                                    asked.lemma_closure_of_attributes(premise.deep_view());
                                }
                            }
                            if settled {
                                open = false;
                                assert forall|
                                    answers: spec_fn(Seq<Seq<char>>, Seq<Seq<char>>) -> Option<
                                        (Option<Seq<char>>, Seq<Seq<char>>),
                                    >,
                                | #[trigger]
                                    oracle_agrees(
                                        oracle_callback,
                                        answers,
                                    ) implies start.explored(answers) == explore_on(
                                    context@,
                                    answers,
                                    l.deep_view(),
                                    a.deep_view(),
                                ) by {
                                    assert(said.deep_view() == answers(
                                        premise.deep_view(),
                                        conclusion.deep_view(),
                                    ));
                                    assert(l.deep_view() == recorded(asked, found, a.deep_view()));
                                }
                            } else {
                                proof {
                                    context@.lemma_closure_of_attributes(a.deep_view());
                                }
                                closure = context.closure_extents(as_names(&a)).unwrap();
                                open = !includes_all(as_names(&a), as_names(&closure))
                                    || !includes_all(as_names(&closure), as_names(&a));
                                proof {
                                    lemma_same_members(a.deep_view(), closure.deep_view());
                                    assert forall|
                                        answers: spec_fn(Seq<Seq<char>>, Seq<Seq<char>>) -> Option<
                                            (Option<Seq<char>>, Seq<Seq<char>>),
                                        >,
                                    | #[trigger]
                                        oracle_agrees(
                                            oracle_callback,
                                            answers,
                                        ) implies start.explored(answers) == if open {
                                        explore_from(
                                            context@,
                                            answers,
                                            l.deep_view(),
                                            a.deep_view(),
                                        )
                                    } else {
                                        explore_on(context@, answers, l.deep_view(), a.deep_view())
                                    } by {
                                        assert(said.deep_view() == answers(
                                            premise.deep_view(),
                                            conclusion.deep_view(),
                                        ));
                                        let told = answers(
                                            premise.deep_view(),
                                            conclusion.deep_view(),
                                        )->0;
                                        assert(context@ == asked.with_object(
                                            named(told.0, asked.objects.len()),
                                            told.1 + a.deep_view(),
                                        ));
                                        assert(start.explored(answers) == explore_from(
                                            context@,
                                            answers,
                                            l.deep_view(),
                                            a.deep_view(),
                                        ));
                                        if !open {
                                            assert(recorded(context@, l.deep_view(), a.deep_view())
                                                == l.deep_view());
                                        }
                                    }
                                }
                            }
                        },
                    }
                }
                let preclosure = |n: &[String]| -> (r: Option<Vec<String>>)
                    ensures
                        r.deep_view() == Some(closure_under(l.deep_view(), n.deep_view())),
                    { Some(preclosure_operator(as_rules(&l), n)) };
                assert(agrees(preclosure, under(l.deep_view())));
                proof {
                    lemma_under_is_closure_operator(base, l.deep_view());
                    lemma_next_closure_least(base, a.deep_view(), under(l.deep_view()));
                }
                match next_closure(as_names(&m), as_names(&a), preclosure) {
                    None => {
                        done = true;
                    },
                    Some(next) => {
                        proof {
                            lemma_step_is_greater(base, a.deep_view(), next.deep_view());
                        }
                        a = next;
                    },
                }
            }
        }
        Ok((l, context))
    }
}

/// What a step to the next closed set gives is greater than where it
/// started, and holds a name of the base set.
proof fn lemma_step_is_greater(base: Seq<Seq<char>>, a: Seq<Seq<char>>, next: Seq<Seq<char>>)
    requires
        base.no_duplicates(),
        exists|i: int|
            {
                &&& 0 <= i < base.len()
                &&& !a.contains(base[i])
                &&& #[trigger] agree_before(base, candidate(base, a, i), next, i + 1)
            },
    ensures
        lectic_rank(base, a, base.len() as int) < lectic_rank(base, next, base.len() as int),
        lectic_rank(base, next, base.len() as int) < lectic_bound(base.len() as int),
        exists|x: Seq<char>| next.contains(x) && base.contains(x),
{
    let i = choose|i: int|
        {
            &&& 0 <= i < base.len()
            &&& !a.contains(base[i])
            &&& #[trigger] agree_before(base, candidate(base, a, i), next, i + 1)
        };
    lemma_accepted_is_greater(base, a, next, i);
    lemma_rank_less(base, a, next, i, base.len() as int);
    lemma_rank_bound(base, next, base.len() as int);
    assert(next.contains(base[i]) && base.contains(base[i]));
}

} // verus!
