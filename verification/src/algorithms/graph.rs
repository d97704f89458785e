//! The mathematical reading of a graph: edges, walks and their weight.

use std::collections::HashMap;
use vstd::prelude::*;

verus! {

/// The adjacency lists of a graph as a map from a node to the sequence of
/// `(neighbor, weight)` pairs that leave it.
pub type Adjacency = Map<usize, Seq<(usize, usize)>>;

/// The adjacency lists held by `graph`.
pub open spec fn adjacency(graph: &HashMap<usize, Vec<(usize, usize)>>) -> Adjacency {
    Map::new(|u: usize| graph@.contains_key(u), |u: usize| graph@[u]@)
}

/// The edges that leave `u`; none where the graph has no entry for `u`.
pub open spec fn edges_from(g: Adjacency, u: usize) -> Seq<(usize, usize)> {
    if g.contains_key(u) {
        g[u]
    } else {
        Seq::empty()
    }
}

/// There is an edge from `u` to `v` of weight `w`.
pub open spec fn has_edge(g: Adjacency, u: usize, v: usize, w: usize) -> bool {
    exists|j: int| 0 <= j < edges_from(g, u).len() && #[trigger] edges_from(g, u)[j] == (v, w)
}

/// `nodes` is a walk in `g` whose `i`-th step uses an edge of weight
/// `weights[i]`.
pub open spec fn is_walk(g: Adjacency, nodes: Seq<usize>, weights: Seq<usize>) -> bool {
    &&& nodes.len() == weights.len() + 1
    &&& forall|i: int|
        0 <= i < weights.len() ==> has_edge(g, #[trigger] nodes[i], nodes[i + 1], weights[i])
}

/// The sum of a sequence of edge weights.
pub open spec fn total(weights: Seq<usize>) -> nat
    decreases weights.len(),
{
    if weights.len() == 0 {
        0
    } else {
        total(weights.drop_last()) + weights.last() as nat
    }
}

/// `nodes` is a walk from `from` to `to`.
pub open spec fn joins(
    g: Adjacency,
    nodes: Seq<usize>,
    weights: Seq<usize>,
    from: usize,
    to: usize,
) -> bool {
    is_walk(g, nodes, weights) && nodes[0] == from && nodes.last() == to
}

/// Some walk leads from `from` to `to`.
pub open spec fn reachable(g: Adjacency, from: usize, to: usize) -> bool {
    exists|nodes: Seq<usize>, weights: Seq<usize>| joins(g, nodes, weights, from, to)
}

/// `nodes` is a walk from `from` to `to` whose edge weights add up to `cost`.
pub open spec fn weighs(g: Adjacency, nodes: Seq<usize>, from: usize, to: usize, cost: int) -> bool {
    exists|weights: Seq<usize>| #[trigger] joins(g, nodes, weights, from, to) && total(weights) == cost
}

/// No walk from `from` to `to` weighs less than `cost`.
pub open spec fn undercuts_none(g: Adjacency, from: usize, to: usize, cost: int) -> bool {
    forall|nodes: Seq<usize>, weights: Seq<usize>| #[trigger]
        joins(g, nodes, weights, from, to) ==> cost <= total(weights)
}

/// Every node is reached from itself, by the walk that stands still.
pub proof fn lemma_reachable_self(g: Adjacency, n: usize)
    ensures
        reachable(g, n, n),
        weighs(g, seq![n], n, n, 0),
{
    assert(joins(g, seq![n], Seq::<usize>::empty(), n, n));
}

/// Adding up weights one by one is adding them up at once.
pub proof fn lemma_total_push(weights: Seq<usize>, w: usize)
    ensures
        total(weights.push(w)) == total(weights) + w,
{
    assert(weights.push(w).drop_last() =~= weights);
}

/// The total of a sequence is the total of a prefix plus that of the rest.
pub proof fn lemma_total_split(weights: Seq<usize>, k: int)
    requires
        0 <= k <= weights.len(),
    ensures
        total(weights) == total(weights.take(k)) + total(weights.skip(k)),
    decreases weights.len(),
{
    if k == weights.len() {
        assert(weights.take(k) =~= weights);
        assert(weights.skip(k) =~= Seq::<usize>::empty());
    } else {
        lemma_total_split(weights.drop_last(), k);
        assert(weights.drop_last().take(k) =~= weights.take(k));
        assert(weights.drop_last().skip(k) =~= weights.skip(k).drop_last());
    }
}

} // verus!
