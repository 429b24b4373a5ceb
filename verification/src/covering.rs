//! What the lower neighbours of a lattice are: for concepts that go
//! together as the concepts of one context do, the nodes directly below a
//! node, no more and no less.

use crate::concept::{
    below, go_together, lemma_rank_by_counts, more_specific, without_repeats, ConceptView,
};
use crate::names::included;
use crate::context::ContextView;
use crate::galois::lemma_derive_no_duplicates;
use crate::lattice::{
    built_from, concepts_of, drained, lemma_top_in_range, reached_under, reduced_at, stands_under,
    top, NodeView,
};
use crate::lectic::{lectic_less, lectic_less_at};
use vstd::prelude::*;

verus! {

/// The concepts are like the concepts of one context: none names an object
/// or an attribute twice, and any two of them go together.
pub open spec fn family(items: Seq<ConceptView>) -> bool {
    &&& forall|p: int| 0 <= p < items.len() ==> without_repeats(#[trigger] items[p])
    &&& forall|p: int, q: int|
        0 <= p < items.len() && 0 <= q < items.len() && p != q ==> go_together(
            #[trigger] items[p],
            #[trigger] items[q],
        )
}

/// No concept stands before one that is more specific.
pub open spec fn specific_first(items: Seq<ConceptView>) -> bool {
    forall|p: int, q: int|
        0 <= p < q < items.len() ==> !more_specific(#[trigger] items[q], #[trigger] items[p])
}

/// The node at `j` is directly below the node at `k`: it is more specific,
/// and no node is more specific than the one and less than the other.
pub open spec fn covers(nodes: Seq<NodeView>, j: int, k: int) -> bool {
    &&& 0 <= j < nodes.len()
    &&& more_specific(nodes[j].concept, nodes[k].concept)
    &&& forall|l: int|
        0 <= l < nodes.len() ==> !(more_specific(nodes[j].concept, (#[trigger] nodes[l]).concept)
            && more_specific(nodes[l].concept, nodes[k].concept))
}

/// The lower neighbours of every node are the nodes directly below it, all
/// of which stand before it.
pub open spec fn reduced(nodes: Seq<NodeView>) -> bool {
    forall|k: int, j: usize|
        0 <= k < nodes.len() ==> {
            &&& (#[trigger] nodes[k].lower_neighbour_indices.contains(j)) <==> covers(
                nodes,
                j as int,
                k,
            )
            &&& nodes[k].lower_neighbour_indices.contains(j) ==> j < k
        }
}

/// The concept that leaves first ranks below none of the others.
proof fn lemma_top_is_highest(items: Seq<ConceptView>, upto: int)
    requires
        family(items),
        0 < upto <= items.len(),
    ensures
        0 <= top(items, upto) < upto,
        forall|i: int|
            0 <= i < upto && i != top(items, upto) ==> !below(
                items[top(items, upto)],
                #[trigger] items[i],
            ),
    decreases upto,
{
    lemma_top_in_range(items, upto);
    if upto > 1 {
        lemma_top_is_highest(items, upto - 1);
        let before = top(items, upto - 1);
        let last = upto - 1;
        let t = top(items, upto);
        lemma_rank_by_counts(items[last], items[before]);
        lemma_rank_by_counts(items[before], items[last]);
        assert forall|i: int| 0 <= i < upto && i != t implies !below(items[t], #[trigger] items[i]) by {
            if t == last && i != before {
                lemma_rank_by_counts(items[before], items[i]);
                lemma_rank_by_counts(items[last], items[i]);
            }
        }
    }
}

/// Concepts that are like those of one context leave the queue with the
/// more specific first, and are then still like those of one context.
proof fn lemma_drained(items: Seq<ConceptView>)
    requires
        family(items),
    ensures
        drained(items).len() == items.len(),
        forall|q: int|
            0 <= q < items.len() ==> exists|i: int|
                0 <= i < items.len() && #[trigger] drained(items)[q] == items[i],
        family(drained(items)),
        specific_first(drained(items)),
    decreases items.len(),
{
    if items.len() > 0 {
        let t = top(items, items.len() as int);
        lemma_top_is_highest(items, items.len() as int);
        let rest = items.remove(t);
        assert forall|p: int| 0 <= p < rest.len() implies rest[p] == items[if p < t {
            p
        } else {
            p + 1
        }] by {}
        assert(family(rest)) by {
            assert forall|p: int| 0 <= p < rest.len() implies without_repeats(
                #[trigger] rest[p],
            ) by {
                assert(without_repeats(items[if p < t { p } else { p + 1 }]));
            }
            assert forall|p: int, q: int|
                0 <= p < rest.len() && 0 <= q < rest.len() && p != q implies go_together(
                #[trigger] rest[p],
                #[trigger] rest[q],
            ) by {
                assert(go_together(
                    items[if p < t { p } else { p + 1 }],
                    items[if q < t { q } else { q + 1 }],
                ));
            }
        }
        lemma_drained(rest);
        let tail = drained(rest);
        let all = drained(items);
        assert(all =~= seq![items[t]] + tail);
        assert forall|q: int| 0 <= q < items.len() implies exists|i: int|
            0 <= i < items.len() && #[trigger] all[q] == items[i] && (q > 0 ==> i != t) by {
            if q == 0 {
                assert(all[q] == items[t]);
            } else {
                let i = choose|i: int| 0 <= i < rest.len() && tail[q - 1] == rest[i];
                let at = if i < t { i } else { i + 1 };
                assert(all[q] == items[at]);
            }
        }
        assert forall|p: int| 0 <= p < all.len() implies without_repeats(#[trigger] all[p]) by {
            let i = choose|i: int| 0 <= i < items.len() && all[p] == items[i];
            assert(without_repeats(items[i]));
        }
        assert forall|p: int, q: int|
            0 <= p < all.len() && 0 <= q < all.len() && p != q implies go_together(
            #[trigger] all[p],
            #[trigger] all[q],
        ) by {
            if p > 0 && q > 0 {
                assert(go_together(tail[p - 1], tail[q - 1]));
            } else {
                let other = if p == 0 { q } else { p };
                let i = choose|i: int|
                    0 <= i < items.len() && all[other] == items[i] && (other > 0 ==> i != t);
                assert(go_together(items[t], items[i]));
                assert(go_together(items[i], items[t]));
            }
        }
        assert forall|p: int, q: int| 0 <= p < q < all.len() implies !more_specific(
            #[trigger] all[q],
            #[trigger] all[p],
        ) by {
            if p > 0 {
                assert(!more_specific(tail[q - 1], tail[p - 1]));
            } else {
                let i = choose|i: int|
                    0 <= i < items.len() && all[q] == items[i] && (q > 0 ==> i != t);
                assert(go_together(items[t], items[i]));
                lemma_rank_by_counts(items[t], items[i]);
                assert(!below(items[t], items[i]));
            }
        }
    }
}

/// A node under another, among nodes that go together, is more specific.
proof fn lemma_under_is_more_specific(nodes: Seq<NodeView>, k: int, j: int)
    requires
        family(concepts_of(nodes)),
        0 <= k < nodes.len(),
        stands_under(nodes, k, j),
    ensures
        more_specific(nodes[j].concept, nodes[k].concept),
{
    let all = concepts_of(nodes);
    assert(go_together(all[j], all[k]));
}

/// Among the nodes between the one at `j` and the one at `k`, the first.
proof fn first_between(nodes: Seq<NodeView>, j: int, k: int, l: int) -> (first: int)
    requires
        0 <= l < nodes.len(),
        more_specific(nodes[j].concept, nodes[l].concept),
        more_specific(nodes[l].concept, nodes[k].concept),
    ensures
        0 <= first <= l,
        more_specific(nodes[j].concept, nodes[first].concept),
        more_specific(nodes[first].concept, nodes[k].concept),
        forall|m: int|
            0 <= m < first ==> !(more_specific(nodes[j].concept, (#[trigger] nodes[m]).concept)
                && more_specific(nodes[m].concept, nodes[k].concept)),
    decreases l,
{
    if exists|m: int|
        0 <= m < l && more_specific(nodes[j].concept, (#[trigger] nodes[m]).concept)
            && more_specific(nodes[m].concept, nodes[k].concept) {
        let m = choose|m: int|
            0 <= m < l && more_specific(nodes[j].concept, (#[trigger] nodes[m]).concept)
                && more_specific(nodes[m].concept, nodes[k].concept);
        first_between(nodes, j, k, m)
    } else {
        l
    }
}

/// The lower neighbours of the node at `k` are the nodes directly below it.
proof fn lemma_cover_at(nodes: Seq<NodeView>, k: int, j: usize)
    requires
        family(concepts_of(nodes)),
        specific_first(concepts_of(nodes)),
        forall|n: int| 0 <= n < nodes.len() ==> reduced_at(nodes, n),
        0 <= k < nodes.len(),
    ensures
        nodes[k].lower_neighbour_indices.contains(j) <==> covers(nodes, j as int, k),
        nodes[k].lower_neighbour_indices.contains(j) ==> j < k,
    decreases k,
{
    let all = concepts_of(nodes);
    assert(reduced_at(nodes, k));
    if nodes[k].lower_neighbour_indices.contains(j) {
        assert(stands_under(nodes, k, j as int) && !reached_under(nodes, k, j));
        lemma_under_is_more_specific(nodes, k, j as int);
        assert forall|l: int| 0 <= l < nodes.len() implies !(more_specific(
            nodes[j as int].concept,
            (#[trigger] nodes[l]).concept,
        ) && more_specific(nodes[l].concept, nodes[k].concept)) by {
            if more_specific(nodes[j as int].concept, nodes[l].concept) && more_specific(
                nodes[l].concept,
                nodes[k].concept,
            ) {
                let first = first_between(nodes, j as int, k, l);
                assert(first < k) by {
                    assert(all[first] == nodes[first].concept && all[k] == nodes[k].concept);
                    if k < first {
                        assert(!more_specific(all[first], all[k]));
                    }
                }
                assert(covers(nodes, j as int, first)) by {
                    assert forall|m: int| 0 <= m < nodes.len() implies !(more_specific(
                        nodes[j as int].concept,
                        (#[trigger] nodes[m]).concept,
                    ) && more_specific(nodes[m].concept, nodes[first].concept)) by {
                        if more_specific(nodes[j as int].concept, nodes[m].concept)
                            && more_specific(nodes[m].concept, nodes[first].concept) {
                            assert(all[m] == nodes[m].concept && all[first]
                                == nodes[first].concept);
                            if first < m {
                                assert(!more_specific(all[m], all[first]));
                            }
                            assert(m < first);
                            assert(more_specific(nodes[m].concept, nodes[k].concept));
                        }
                    }
                }
                lemma_cover_at(nodes, first, j);
                assert(stands_under(nodes, k, first));
                assert(reached_under(nodes, k, j));
            }
        }
    }
    if covers(nodes, j as int, k) {
        assert(all[j as int] == nodes[j as int].concept && all[k] == nodes[k].concept);
        if k < j {
            assert(!more_specific(all[j as int], all[k]));
        }
        assert(j < k);
        assert(stands_under(nodes, k, j as int));
        if reached_under(nodes, k, j) {
            let i = choose|i: int|
                stands_under(nodes, k, i) && nodes[i].lower_neighbour_indices.contains(j);
            lemma_under_is_more_specific(nodes, k, i);
            lemma_cover_at(nodes, i, j);
            assert(more_specific(nodes[j as int].concept, nodes[i].concept));
            assert(!(more_specific(nodes[j as int].concept, nodes[i].concept) && more_specific(
                nodes[i].concept,
                nodes[k].concept,
            )));
        }
    }
}

/// The lower neighbours of a lattice are the nodes directly below.
///
/// Let the concepts be like the concepts of one context: none names an
/// object or an attribute twice, no two have the same attributes, and one
/// has the attributes of another just when the other has its objects. In
/// the lattice built from them, every node stands after the nodes that are
/// more specific, and its lower neighbours are exactly the more specific
/// nodes with no node between: the edges of the order of specificity with
/// nothing that follows from other edges.
pub proof fn lemma_lattice_is_reduced(concepts: Seq<ConceptView>, nodes: Seq<NodeView>)
    requires
        family(concepts),
        built_from(nodes, concepts),
    ensures
        specific_first(concepts_of(nodes)),
        reduced(nodes),
{
    lemma_drained(concepts);
    assert forall|k: int, j: usize| 0 <= k < nodes.len() implies {
        &&& (#[trigger] nodes[k].lower_neighbour_indices.contains(j)) <==> covers(nodes, j as int, k)
        &&& nodes[k].lower_neighbour_indices.contains(j) ==> j < k
    } by {
        lemma_cover_at(nodes, k, j);
    }
}

impl ContextView {
    /// The concepts of a context, as `concepts` lists them, are a family for
    /// which the lower neighbours of the lattice are the nodes directly
    /// below.
    pub proof fn lemma_concepts_are_family(self, all: Seq<ConceptView>)
        requires
            self.distinct_names(),
            self.lists_concepts(all),
        ensures
            family(all),
    {
        assert forall|p: int| 0 <= p < all.len() implies without_repeats(#[trigger] all[p]) by {
            assert(self.has_concept(all[p]));
            lemma_derive_no_duplicates(
                self.attributes,
                all[p].intents,
                self.columns(),
                self.objects,
            );
            lemma_derive_no_duplicates(
                self.objects,
                all[p].extents,
                self.incidence,
                self.attributes,
            );
        }
        assert forall|p: int, q: int|
            0 <= p < all.len() && 0 <= q < all.len() && p != q implies go_together(
            #[trigger] all[p],
            #[trigger] all[q],
        ) by {
            assert(self.has_concept(all[p]) && self.has_concept(all[q]));
            if p < q {
                assert(lectic_less(self.attributes, all[p].intents, all[q].intents));
                let i = choose|i: int|
                    lectic_less_at(self.attributes, all[p].intents, all[q].intents, i);
                assert(all[q].intents.contains(self.attributes[i]));
            } else {
                assert(lectic_less(self.attributes, all[q].intents, all[p].intents));
                let i = choose|i: int|
                    lectic_less_at(self.attributes, all[q].intents, all[p].intents, i);
                assert(all[p].intents.contains(self.attributes[i]));
            }
            if included(all[p].intents, all[q].intents) {
                self.lemma_extents_antitone(all[p].intents, all[q].intents);
            }
            if included(all[q].extents, all[p].extents) {
                self.lemma_intents_antitone(all[q].extents, all[p].extents);
            }
            if included(all[q].intents, all[p].intents) {
                self.lemma_extents_antitone(all[q].intents, all[p].intents);
            }
            if included(all[p].extents, all[q].extents) {
                self.lemma_intents_antitone(all[p].extents, all[q].extents);
            }
        }
    }
}

} // verus!
