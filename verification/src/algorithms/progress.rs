//! Why the search stops: every cost that it records brings down a bounded
//! sum, and between two such records the frontier only shrinks.

use vstd::prelude::*;

verus! {

/// What a node contributes to the sum: its recorded cost, or one more than
/// any cost while it has none.
pub open spec fn share(dist: Map<usize, usize>, n: usize) -> nat {
    if dist.contains_key(n) {
        dist[n] as nat
    } else {
        (usize::MAX + 1) as nat
    }
}

/// The sum of the shares of the nodes listed in `order`.
pub open spec fn potential(order: Seq<usize>, dist: Map<usize, usize>) -> nat
    decreases order.len(),
{
    if order.len() == 0 {
        0
    } else {
        potential(order.drop_last(), dist) + share(dist, order.last())
    }
}

/// Recording a first or a lower cost for `v` never raises the sum, and
/// lowers it where `v` is listed.
pub proof fn lemma_potential_falls(order: Seq<usize>, dist: Map<usize, usize>, v: usize, c: usize)
    requires
        !dist.contains_key(v) || c < dist[v],
    ensures
        potential(order, dist.insert(v, c)) <= potential(order, dist),
        order.contains(v) ==> potential(order, dist.insert(v, c)) < potential(order, dist),
    decreases order.len(),
{
    if order.len() > 0 {
        let front = order.drop_last();
        lemma_potential_falls(front, dist, v, c);
        if order.contains(v) && order.last() != v {
            let i = choose|i: int| 0 <= i < order.len() && order[i] == v;
            assert(front[i] == v);
        }
    }
}

/// A listing of the keys of a map of positions.
pub open spec fn lists(order: Seq<usize>, positions: Map<usize, (isize, isize)>) -> bool {
    forall|n: usize| positions.contains_key(n) ==> #[trigger] order.contains(n)
}

/// The keys of a finite map can be listed.
pub proof fn lemma_listing(positions: Map<usize, (isize, isize)>)
    requires
        positions.dom().finite(),
    ensures
        lists(positions.dom().to_seq(), positions),
{
    positions.dom().lemma_to_seq_to_set_id();
    let order = positions.dom().to_seq();
    assert forall|n: usize| positions.contains_key(n) implies #[trigger] order.contains(n) by {
        assert(order.to_set().contains(n));
    }
}

} // verus!
