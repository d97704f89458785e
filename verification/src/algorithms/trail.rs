//! Walks written with running totals: each hop carries the weight of the
//! walk up to it, so that the weight of a prefix is read off its last hop.

use crate::algorithms::graph::{has_edge, is_walk, lemma_total_push, total, Adjacency};
use vstd::prelude::*;

verus! {

/// A node on a walk, with the weight of the walk up to it.
pub struct Hop {
    pub node: usize,
    pub at: int,
}

/// A walk as the sequence of its hops.
pub type Trail = Seq<Hop>;

/// The step from hop `i` to the next follows an edge of the graph.
pub open spec fn step_ok(g: Adjacency, t: Trail, i: int) -> bool {
    &&& 0 <= t[i + 1].at - t[i].at <= usize::MAX
    &&& has_edge(g, t[i].node, t[i + 1].node, (t[i + 1].at - t[i].at) as usize)
}

/// `t` is a walk in `g` whose totals start at 0.
pub open spec fn is_trail(g: Adjacency, t: Trail) -> bool {
    &&& t.len() >= 1
    &&& t[0].at == 0
    &&& forall|i: int| 0 <= i < t.len() - 1 ==> #[trigger] step_ok(g, t, i)
}

/// The nodes along a trail.
pub open spec fn nodes_of(t: Trail) -> Seq<usize> {
    Seq::new(t.len(), |i: int| t[i].node)
}

/// The weights of the edges along a trail.
pub open spec fn weights_of(t: Trail) -> Seq<usize> {
    Seq::new((t.len() - 1) as nat, |i: int| (t[i + 1].at - t[i].at) as usize)
}

/// The trail over a walk: the same nodes, each with the total of the weights
/// before it.
pub open spec fn trail_of(nodes: Seq<usize>, weights: Seq<usize>) -> Trail {
    Seq::new(nodes.len(), |i: int| Hop { node: nodes[i], at: total(weights.take(i)) as int })
}

/// A trail is a walk, and its last total is the walk's weight.
pub proof fn lemma_trail_is_walk(g: Adjacency, t: Trail)
    requires
        is_trail(g, t),
    ensures
        is_walk(g, nodes_of(t), weights_of(t)),
        total(weights_of(t)) == t.last().at,
        t.last().at >= 0,
    decreases t.len(),
{
    let nodes = nodes_of(t);
    let weights = weights_of(t);
    assert forall|i: int| 0 <= i < weights.len() implies has_edge(
        g,
        #[trigger] nodes[i],
        nodes[i + 1],
        weights[i],
    ) by {
        assert(step_ok(g, t, i));
    }
    if t.len() > 1 {
        let s = t.drop_last();
        assert forall|i: int| 0 <= i < s.len() - 1 implies #[trigger] step_ok(g, s, i) by {
            assert(step_ok(g, t, i));
        }
        lemma_trail_is_walk(g, s);
        assert(weights_of(s) =~= weights.drop_last());
        assert(step_ok(g, t, t.len() - 2));
    } else {
        assert(weights =~= Seq::<usize>::empty());
    }
}

/// A walk is a trail over the same nodes, with the same weight.
pub proof fn lemma_walk_is_trail(g: Adjacency, nodes: Seq<usize>, weights: Seq<usize>)
    requires
        is_walk(g, nodes, weights),
    ensures
        is_trail(g, trail_of(nodes, weights)),
        trail_of(nodes, weights).len() == nodes.len(),
        trail_of(nodes, weights).last().at == total(weights),
        forall|i: int| 0 <= i < nodes.len() ==> (#[trigger] trail_of(nodes, weights)[i]).node == nodes[i],
{
    let t = trail_of(nodes, weights);
    assert(weights.take(0) =~= Seq::<usize>::empty());
    assert(weights.take(weights.len() as int) =~= weights);
    assert forall|i: int| 0 <= i < t.len() - 1 implies #[trigger] step_ok(g, t, i) by {
        assert(weights.take(i + 1) =~= weights.take(i).push(weights[i]));
        lemma_total_push(weights.take(i), weights[i]);
        assert(has_edge(g, nodes[i], nodes[i + 1], weights[i]));
    }
}

} // verus!
