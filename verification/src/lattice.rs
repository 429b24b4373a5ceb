//! The concept lattice: the concepts from the most specific to the most
//! general, each with the concepts directly below it.

use crate::concept::{below, Concept, ConceptView};
use crate::covering::{family, lemma_lattice_is_reduced, reduced};
use crate::names::{as_names, included, includes_all};
use vstd::prelude::*;

verus! {

/// A concept in a lattice, with the places of the nodes directly below it.
#[derive(Debug, PartialEq)]
pub struct Node {
    pub concept: Concept,
    pub lower_neighbour_indices: Vec<usize>,
}

/// A node as a mathematical value.
pub struct NodeView {
    pub concept: ConceptView,
    pub lower_neighbour_indices: Seq<usize>,
}

impl View for Node {
    type V = NodeView;

    open spec fn view(&self) -> NodeView {
        NodeView {
            concept: self.concept@,
            lower_neighbour_indices: self.lower_neighbour_indices@,
        }
    }
}

impl DeepView for Node {
    type V = NodeView;

    open spec fn deep_view(&self) -> NodeView {
        self@
    }
}

/// The nodes of a concept lattice. A node stands after every node that it
/// names as a lower neighbour.
#[derive(Debug, PartialEq)]
pub struct Lattice {
    pub nodes: Vec<Node>,
}

impl View for Lattice {
    type V = Seq<NodeView>;

    open spec fn view(&self) -> Seq<NodeView> {
        self.nodes.deep_view()
    }
}

/// The place of the concept that leaves first among the first `upto`: the
/// last one that does not rank below the one that would leave without it.
pub open spec fn top(items: Seq<ConceptView>, upto: int) -> int
    decreases upto,
{
    if upto <= 1 {
        0
    } else if below(items[upto - 1], items[top(items, upto - 1)]) {
        top(items, upto - 1)
    } else {
        upto - 1
    }
}

/// The concepts in the order in which they leave the queue.
pub open spec fn drained(items: Seq<ConceptView>) -> Seq<ConceptView>
    decreases items.len(),
{
    if items.len() == 0 {
        Seq::empty()
    } else {
        proof {
            lemma_top_in_range(items, items.len() as int);
        }
        seq![items[top(items, items.len() as int)]] + drained(
            items.remove(top(items, items.len() as int)),
        )
    }
}

/// The place of `top` is a place of `items`.
pub proof fn lemma_top_in_range(items: Seq<ConceptView>, upto: int)
    requires
        0 < upto <= items.len(),
    ensures
        0 <= top(items, upto) < upto,
    decreases upto,
{
    if upto > 1 {
        lemma_top_in_range(items, upto - 1);
    }
}

/// Concepts waiting to be placed, the highest ranked leaving first.
pub struct ConceptQueue {
    items: Vec<Concept>,
}

impl View for ConceptQueue {
    type V = Seq<ConceptView>;

    closed spec fn view(&self) -> Seq<ConceptView> {
        self.items.deep_view()
    }
}

impl ConceptQueue {
    /// A queue of the given concepts.
    pub fn new(concepts: Vec<Concept>) -> (queue: Self)
        ensures
            queue@ == concepts.deep_view(),
    {
        ConceptQueue { items: concepts }
    }

    /// The number of concepts that wait.
    pub fn len(&self) -> (count: usize)
        ensures
            count == self@.len(),
    {
        assert(self.items.deep_view().len() == self.items.len());
        self.items.len()
    }

    /// Takes out the concept that ranks highest; of several that rank alike,
    /// the one that was given last.
    pub fn pop(&mut self) -> (first: Option<Concept>)
        ensures
            old(self)@.len() == 0 ==> first is None && final(self)@ == old(self)@,
            old(self)@.len() > 0 ==> first is Some && first->0@ == old(self)@[top(
                old(self)@,
                old(self)@.len() as int,
            )] && final(self)@ == old(self)@.remove(top(old(self)@, old(self)@.len() as int)),
    {
        let ghost before = self.items.deep_view();
        assert(before.len() == self.items.len());
        if self.items.len() == 0 {
            return None;
        }
        let mut best: usize = 0;
        let mut k: usize = 1;
        while k < self.items.len()
            invariant
                1 <= k <= self.items.len(),
                before == self.items.deep_view(),
                best < k,
                best == top(before, k as int),
            decreases self.items.len() - k,
        {
            assert(before[k as int] == self.items[k as int]@);
            assert(before[best as int] == self.items[best as int]@);
            if !self.items[k].ranks_below(&self.items[best]) {
                best = k;
            }
            k += 1;
        }
        let first = self.items.remove(best);
        assert(before[best as int] == first@);
        assert(self.items.deep_view() =~= before.remove(best as int));
        Some(first)
    }
}

/// The numbers ascend.
pub open spec fn ascending(places: Seq<usize>) -> bool {
    forall|a: int, b: int| 0 <= a < b < places.len() ==> places[a] < places[b]
}

/// The node at `j` stands before the node at `k` and has all its attributes.
pub open spec fn stands_under(nodes: Seq<NodeView>, k: int, j: int) -> bool {
    0 <= j < k && included(nodes[k].concept.intents, nodes[j].concept.intents)
}

/// The node at `j` is a lower neighbour of a node that stands under the node
/// at `k`.
pub open spec fn reached_under(nodes: Seq<NodeView>, k: int, j: usize) -> bool {
    exists|i: int| stands_under(nodes, k, i) && nodes[i].lower_neighbour_indices.contains(j)
}

/// The lower neighbours of the node at `k` are, in ascending order, the
/// nodes under it that no node under it has as a lower neighbour.
pub open spec fn reduced_at(nodes: Seq<NodeView>, k: int) -> bool {
    &&& ascending(nodes[k].lower_neighbour_indices)
    &&& forall|j: usize|
        nodes[k].lower_neighbour_indices.contains(j) <==> stands_under(nodes, k, j as int)
            && !reached_under(nodes, k, j)
}

/// The concepts of the nodes, in their order.
pub open spec fn concepts_of(nodes: Seq<NodeView>) -> Seq<ConceptView> {
    Seq::new(nodes.len(), |k: int| nodes[k].concept)
}

/// `nodes` is the lattice built from `concepts`: the concepts in the order
/// in which they leave the queue, each with its lower neighbours.
pub open spec fn built_from(nodes: Seq<NodeView>, concepts: Seq<ConceptView>) -> bool {
    &&& concepts_of(nodes) == drained(concepts)
    &&& forall|k: int| 0 <= k < nodes.len() ==> reduced_at(nodes, k)
}

/// What a sequence holds after one more is held before or is the one more.
proof fn lemma_push_contains(s: Seq<usize>, v: usize, x: usize)
    ensures
        s.push(v).contains(x) <==> s.contains(x) || x == v,
{
    if s.push(v).contains(x) {
        let at = choose|at: int| 0 <= at < s.push(v).len() && s.push(v)[at] == x;
        if at < s.len() {
            assert(s[at] == x);
        }
    }
    if s.contains(x) {
        let at = choose|at: int| 0 <= at < s.len() && s[at] == x;
        assert(s.push(v)[at] == x);
    }
    if x == v {
        assert(s.push(v)[s.len() as int] == x);
    }
}

/// What two sequences joined hold is what one of them holds.
proof fn lemma_join_contains(s: Seq<usize>, t: Seq<usize>, x: usize)
    ensures
        (s + t).contains(x) <==> s.contains(x) || t.contains(x),
{
    if (s + t).contains(x) {
        let at = choose|at: int| 0 <= at < (s + t).len() && (s + t)[at] == x;
        if at < s.len() {
            assert(s[at] == x);
        } else {
            assert(t[at - s.len()] == x);
        }
    }
    if s.contains(x) {
        let at = choose|at: int| 0 <= at < s.len() && s[at] == x;
        assert((s + t)[at] == x);
    }
    if t.contains(x) {
        let at = choose|at: int| 0 <= at < t.len() && t[at] == x;
        assert((s + t)[s.len() + at] == x);
    }
}

fn extend_places(places: &mut Vec<usize>, more: &Vec<usize>)
    ensures
        final(places)@ == old(places)@ + more@,
{
    let ghost before = places@;
    let mut n: usize = 0;
    while n < more.len()
        invariant
            n <= more.len(),
            places@ == before + more@.take(n as int),
        decreases more.len() - n,
    {
        places.push(more[n]);
        assert(places@ =~= before + more@.take(n + 1));
        n += 1;
    }
    assert(more@.take(n as int) =~= more@);
}

fn contains_index(places: &Vec<usize>, place: usize) -> (found: bool)
    ensures
        found == places@.contains(place),
{
    let mut i: usize = 0;
    while i < places.len()
        invariant
            i <= places.len(),
            forall|k: int| 0 <= k < i ==> places[k] != place,
        decreases places.len() - i,
    {
        if places[i] == place {
            return true;
        }
        i += 1;
    }
    false
}

/// The lower neighbours of a concept that is placed after `nodes`.
fn lower_neighbours(nodes: &Vec<Node>, concept: &Concept) -> (lower: Vec<usize>)
    ensures
        reduced_at(
            nodes.deep_view().push(NodeView { concept: concept@, lower_neighbour_indices: lower@ }),
            nodes.len() as int,
        ),
{
    let ghost placed = nodes.deep_view();
    let ghost count = nodes.len() as int;
    assert(placed.len() == count);
    let mut under: Vec<usize> = Vec::new();
    let mut reached: Vec<usize> = Vec::new();
    let mut i: usize = 0;
    while i < nodes.len()
        invariant
            i <= nodes.len(),
            placed == nodes.deep_view(),
            ascending(under@),
            forall|j: usize|
                under@.contains(j) <==> j < i && included(
                    concept@.intents,
                    placed[j as int].concept.intents,
                ),
            forall|j: usize|
                reached@.contains(j) <==> exists|c: int|
                    0 <= c < i && included(concept@.intents, placed[c].concept.intents)
                        && placed[c].lower_neighbour_indices.contains(j),
        decreases nodes.len() - i,
    {
        let node = &nodes[i];
        assert(placed[i as int] == node@);
        let ghost under_before = under@;
        let ghost reached_before = reached@;
        if includes_all(as_names(&concept.intents), as_names(&node.concept.intents)) {
            extend_places(&mut reached, &node.lower_neighbour_indices);
            under.push(i);
            proof {
                assert forall|j: usize|
                    under@.contains(j) <==> j < i + 1 && included(
                        concept@.intents,
                        placed[j as int].concept.intents,
                    ) by {
                    lemma_push_contains(under_before, i, j);
                }
                assert forall|a: int, b: int| 0 <= a < b < under@.len() implies under@[a]
                    < under@[b] by {
                    if b == under_before.len() {
                        assert(under_before.contains(under_before[a]));
                    }
                }
                assert forall|j: usize|
                    reached@.contains(j) <==> exists|c: int|
                        0 <= c < i + 1 && included(concept@.intents, placed[c].concept.intents)
                            && placed[c].lower_neighbour_indices.contains(j) by {
                    lemma_join_contains(reached_before, node.lower_neighbour_indices@, j);
                    if reached_before.contains(j) {
                        let c = choose|c: int|
                            0 <= c < i && included(concept@.intents, placed[c].concept.intents)
                                && placed[c].lower_neighbour_indices.contains(j);
                        assert(0 <= c < i + 1);
                    }
                    if node.lower_neighbour_indices@.contains(j) {
                        assert(0 <= i < i + 1 && included(
                            concept@.intents,
                            placed[i as int].concept.intents,
                        ) && placed[i as int].lower_neighbour_indices.contains(j));
                    }
                }
            }
        } else {
            proof {
                assert forall|j: usize|
                    reached@.contains(j) <==> exists|c: int|
                        0 <= c < i + 1 && included(concept@.intents, placed[c].concept.intents)
                            && placed[c].lower_neighbour_indices.contains(j) by {
                    if reached@.contains(j) {
                        let c = choose|c: int|
                            0 <= c < i && included(concept@.intents, placed[c].concept.intents)
                                && placed[c].lower_neighbour_indices.contains(j);
                        assert(0 <= c < i + 1);
                    }
                }
            }
        }
        i += 1;
    }
    let mut lower: Vec<usize> = Vec::new();
    let mut u: usize = 0;
    while u < under.len()
        invariant
            u <= under.len(),
            ascending(under@),
            ascending(lower@),
            forall|j: usize|
                lower@.contains(j) <==> (exists|m: int| 0 <= m < u && under@[m] == j)
                    && !reached@.contains(j),
        decreases under.len() - u,
    {
        let ghost lower_before = lower@;
        let place = under[u];
        let keep = !contains_index(&reached, place);
        if keep {
            lower.push(place);
            proof {
                assert forall|a: int, b: int| 0 <= a < b < lower@.len() implies lower@[a]
                    < lower@[b] by {
                    if b == lower_before.len() {
                        assert(lower_before.contains(lower_before[a]));
                        let m = choose|m: int| 0 <= m < u && under@[m] == lower_before[a];
                    }
                }
            }
        }
        proof {
            assert forall|j: usize|
                lower@.contains(j) <==> (exists|m: int| 0 <= m < u + 1 && under@[m] == j)
                    && !reached@.contains(j) by {
                if keep {
                    lemma_push_contains(lower_before, place, j);
                }
                if lower_before.contains(j) {
                    let m = choose|m: int| 0 <= m < u && under@[m] == j;
                    assert(0 <= m < u + 1);
                }
                if j == place {
                    assert(0 <= u < u + 1 && under@[u as int] == j);
                }
                if exists|m: int| 0 <= m < u + 1 && under@[m] == j {
                    let m = choose|m: int| 0 <= m < u + 1 && under@[m] == j;
                    if m < u {
                        assert(exists|m: int| 0 <= m < u && under@[m] == j);
                    }
                }
            }
        }
        u += 1;
    }
    proof {
        let grown = placed.push(NodeView { concept: concept@, lower_neighbour_indices: lower@ });
        assert forall|j: usize|
            grown[count].lower_neighbour_indices.contains(j) <==> stands_under(
                grown,
                count,
                j as int,
            ) && !reached_under(grown, count, j) by {
            if under@.contains(j) {
                let m = choose|m: int| 0 <= m < under@.len() && under@[m] == j;
            }
            if stands_under(grown, count, j as int) {
                assert(grown[j as int] == placed[j as int]);
                assert(under@.contains(j));
            }
            if reached_under(grown, count, j) {
                let c = choose|c: int|
                    stands_under(grown, count, c) && grown[c].lower_neighbour_indices.contains(j);
                assert(grown[c] == placed[c]);
                assert(reached@.contains(j));
            }
            if reached@.contains(j) {
                let c = choose|c: int|
                    0 <= c < count && included(concept@.intents, placed[c].concept.intents)
                        && placed[c].lower_neighbour_indices.contains(j);
                assert(grown[c] == placed[c]);
                assert(stands_under(grown, count, c));
            }
        }
    }
    lower
}

/// Placing one more node leaves the nodes before it as they were.
proof fn lemma_reduced_kept(nodes: Seq<NodeView>, node: NodeView, k: int)
    requires
        0 <= k < nodes.len(),
        reduced_at(nodes, k),
    ensures
        reduced_at(nodes.push(node), k),
{
    let grown = nodes.push(node);
    assert forall|j: usize|
        grown[k].lower_neighbour_indices.contains(j) <==> stands_under(grown, k, j as int)
            && !reached_under(grown, k, j) by {
        assert(stands_under(grown, k, j as int) == stands_under(nodes, k, j as int));
        if reached_under(grown, k, j) {
            let i = choose|i: int|
                stands_under(grown, k, i) && grown[i].lower_neighbour_indices.contains(j);
            assert(stands_under(nodes, k, i) && nodes[i].lower_neighbour_indices.contains(j));
        }
        if reached_under(nodes, k, j) {
            let i = choose|i: int|
                stands_under(nodes, k, i) && nodes[i].lower_neighbour_indices.contains(j);
            assert(stands_under(grown, k, i) && grown[i].lower_neighbour_indices.contains(j));
        }
    }
}

impl vstd::std_specs::convert::FromSpecImpl<Vec<Concept>> for Lattice {
    open spec fn obeys_from_spec() -> bool {
        false
    }

    open spec fn from_spec(concepts: Vec<Concept>) -> Self {
        arbitrary()
    }
}

impl From<Vec<Concept>> for Lattice {
    /// The lattice of the given concepts. The concepts are placed in the
    /// order of their rank, the highest first. The lower neighbours of a
    /// concept are found among the nodes placed before it: those that have
    /// all its attributes, without those that are a lower neighbour of one
    /// of them.
    ///
    /// Where the concepts are like those of one context, the lower
    /// neighbours of each node are the nodes directly below it.
    fn from(concepts: Vec<Concept>) -> (lattice: Self)
        ensures
            built_from(lattice@, concepts.deep_view()),
            family(concepts.deep_view()) ==> reduced(lattice@),
    {
        let ghost given = concepts.deep_view();
        let mut nodes: Vec<Node> = Vec::new();
        let mut queue = ConceptQueue::new(concepts);
        assert(concepts_of(nodes.deep_view()) + drained(queue@) =~= drained(given));
        while queue.len() > 0
            invariant
                concepts_of(nodes.deep_view()) + drained(queue@) == drained(given),
                forall|k: int| 0 <= k < nodes.len() ==> reduced_at(nodes.deep_view(), k),
            decreases queue@.len(),
        {
            let ghost waiting = queue@;
            let ghost placed = nodes.deep_view();
            assert(placed.len() == nodes.len());
            proof {
                lemma_top_in_range(waiting, waiting.len() as int);
            }
            let concept = queue.pop().unwrap();
            let lower = lower_neighbours(&nodes, &concept);
            let node = Node { concept, lower_neighbour_indices: lower };
            nodes.push(node);
            proof {
                let grown = nodes.deep_view();
                assert(grown =~= placed.push(node@));
                assert forall|k: int| 0 <= k < nodes.len() implies reduced_at(grown, k) by {
                    if k < placed.len() {
                        lemma_reduced_kept(placed, node@, k);
                    }
                }
                assert(concepts_of(grown) =~= concepts_of(placed) + seq![node@.concept]);
                assert(concepts_of(grown) + drained(queue@) =~= concepts_of(placed) + drained(
                    waiting,
                ));
            }
        }
        assert(drained(queue@) =~= Seq::empty());
        assert(concepts_of(nodes.deep_view()) =~= drained(given));
        proof {
            if family(given) {
                lemma_lattice_is_reduced(given, nodes.deep_view());
            }
        }
        Lattice { nodes }
    }
}

} // verus!
