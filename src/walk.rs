//! Walks through the word graph and what they cost.
use vstd::prelude::*;
use crate::word::{WORD_SPACE, letter_distance, lemma_letters_compose};
use crate::graph::{WordNode, word_of, linked, connections_in_range, words_ascending};

verus! {

/// A graph as the builder leaves it: connections in range, words distinct
/// and ascending, and every word a valid encoding.
pub open spec fn well_formed(nodes: Seq<WordNode>) -> bool {
    &&& connections_in_range(nodes)
    &&& words_ascending(nodes)
    &&& forall|u: int| 0 <= u < nodes.len() ==> 0 <= #[trigger] word_of(nodes, u) < WORD_SPACE
}

/// A walk through the graph: node indices, each step along a connection.
pub open spec fn is_path(nodes: Seq<WordNode>, p: Seq<int>) -> bool {
    &&& p.len() >= 1
    &&& forall|i: int| 0 <= i < p.len() ==> 0 <= #[trigger] p[i] < nodes.len()
    &&& forall|i: int| 0 <= i < p.len() - 1 ==> linked(nodes, #[trigger] p[i], p[i + 1])
}

/// Letter distance of one step of a walk.
pub open spec fn step_cost(nodes: Seq<WordNode>, u: int, v: int) -> int {
    letter_distance(word_of(nodes, u), word_of(nodes, v))
}

/// Sum of the letter distances between consecutive nodes of `p`.
pub open spec fn path_cost(nodes: Seq<WordNode>, p: Seq<int>) -> int
    decreases p.len(),
{
    if p.len() <= 1 {
        0
    } else {
        path_cost(nodes, p.drop_last()) + step_cost(nodes, p[p.len() - 2], p[p.len() - 1])
    }
}

/// Whether walk `p` leads from the node of word `a` to the node of word `b`.
pub open spec fn connects(nodes: Seq<WordNode>, p: Seq<int>, a: int, b: int) -> bool {
    is_path(nodes, p) && word_of(nodes, p[0]) == a && word_of(nodes, p.last()) == b
}

/// The encoded words along walk `p`.
pub open spec fn path_words(nodes: Seq<WordNode>, p: Seq<int>) -> Seq<int> {
    p.map_values(|u: int| word_of(nodes, u))
}

/// Whether `p` is a cheapest walk from word `a` to word `b`.
pub open spec fn is_cheapest(nodes: Seq<WordNode>, p: Seq<int>, a: int, b: int) -> bool {
    &&& connects(nodes, p, a, b)
    &&& forall|q: Seq<int>| #[trigger] connects(nodes, q, a, b) ==> path_cost(nodes, p) <= path_cost(nodes, q)
}

/// Whether any walk leads from word `a` to word `b`.
pub open spec fn reachable(nodes: Seq<WordNode>, a: int, b: int) -> bool {
    exists|q: Seq<int>| #[trigger] connects(nodes, q, a, b)
}

/// Letter distance obeys the triangle inequality.
pub proof fn lemma_triangle(a: int, b: int, c: int)
    ensures
        letter_distance(a, c) <= letter_distance(a, b) + letter_distance(b, c),
{
}

/// Only equal words are at letter distance zero.
pub proof fn lemma_distance_zero(a: int, b: int)
    requires
        0 <= a < WORD_SPACE,
        0 <= b < WORD_SPACE,
        letter_distance(a, b) == 0,
    ensures
        a == b,
{
    lemma_letters_compose(a);
    lemma_letters_compose(b);
}

/// The letter distance between the ends of a walk never exceeds its cost.
pub proof fn lemma_distance_below_cost(nodes: Seq<WordNode>, p: Seq<int>)
    requires
        is_path(nodes, p),
    ensures
        letter_distance(word_of(nodes, p[0]), word_of(nodes, p.last())) <= path_cost(nodes, p),
    decreases p.len(),
{
    if p.len() > 1 {
        let q = p.drop_last();
        lemma_distance_below_cost(nodes, q);
        lemma_triangle(word_of(nodes, p[0]), word_of(nodes, q.last()), word_of(nodes, p.last()));
    }
}

/// The cost of a walk splits at any of its nodes.
pub proof fn lemma_cost_split(nodes: Seq<WordNode>, p: Seq<int>, i: int)
    requires
        0 <= i < p.len(),
    ensures
        path_cost(nodes, p) == path_cost(nodes, p.take(i + 1)) + path_cost(nodes, p.skip(i)),
    decreases p.len(),
{
    if i == p.len() - 1 {
        assert(p.take(i + 1) =~= p);
    } else {
        let q = p.drop_last();
        lemma_cost_split(nodes, q, i);
        assert(q.take(i + 1) =~= p.take(i + 1));
        assert(p.skip(i).drop_last() =~= q.skip(i));
    }
}

/// The part of a walk up to index `i` and the part from index `i` on are walks.
pub proof fn lemma_prefix_path(nodes: Seq<WordNode>, p: Seq<int>, i: int)
    requires
        is_path(nodes, p),
        0 <= i < p.len(),
    ensures
        is_path(nodes, p.take(i + 1)),
        is_path(nodes, p.skip(i)),
{
    assert forall|j: int| 0 <= j < p.skip(i).len() - 1 implies linked(nodes, #[trigger] p.skip(i)[j], p.skip(i)[j + 1]) by {
        assert(linked(nodes, p[i + j], p[i + j + 1]));
    }
    assert forall|j: int| 0 <= j < p.take(i + 1).len() - 1 implies linked(nodes, #[trigger] p.take(i + 1)[j], p.take(i + 1)[j + 1]) by {
        assert(linked(nodes, p[j], p[j + 1]));
    }
}

/// Walk costs are never negative.
pub proof fn lemma_cost_nonneg(nodes: Seq<WordNode>, p: Seq<int>)
    ensures
        path_cost(nodes, p) >= 0,
    decreases p.len(),
{
    if p.len() > 1 {
        lemma_cost_nonneg(nodes, p.drop_last());
    }
}

/// Putting a step in front of a walk adds that step's cost.
pub proof fn lemma_cost_prepend(nodes: Seq<WordNode>, a: int, p: Seq<int>)
    requires
        p.len() >= 1,
    ensures
        path_cost(nodes, seq![a] + p) == step_cost(nodes, a, p[0]) + path_cost(nodes, p),
    decreases p.len(),
{
    let ap = seq![a] + p;
    if p.len() > 1 {
        lemma_cost_prepend(nodes, a, p.drop_last());
        assert(ap.drop_last() =~= seq![a] + p.drop_last());
        assert(ap[ap.len() - 2] == p[p.len() - 2]);
        assert(ap[ap.len() - 1] == p[p.len() - 1]);
        assert(p.drop_last()[0] == p[0]);
    } else {
        assert(ap.drop_last() =~= seq![a]);
        assert(ap[0] == a && ap[1] == p[0]);
        assert(path_cost(nodes, seq![a]) == 0);
    }
}

/// In a well-formed graph no node index exceeds its word, so the graph has at
/// most `WORD_SPACE` nodes.
pub proof fn lemma_nodes_bounded(nodes: Seq<WordNode>)
    requires
        well_formed(nodes),
    ensures
        nodes.len() <= WORD_SPACE,
{
    if nodes.len() > 0 {
        lemma_word_at_least_index(nodes, nodes.len() - 1);
    }
}

/// Strictly ascending words of a well-formed graph are at least their index.
pub proof fn lemma_word_at_least_index(nodes: Seq<WordNode>, u: int)
    requires
        well_formed(nodes),
        0 <= u < nodes.len(),
    ensures
        word_of(nodes, u) >= u,
    decreases u,
{
    if u > 0 {
        lemma_word_at_least_index(nodes, u - 1);
    }
}

} // verus!
