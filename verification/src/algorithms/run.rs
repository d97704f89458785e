//! The search as a whole: the invariant holds after any number of steps, so
//! whatever the search answers is right.

use crate::algorithms::frontier::Node;
use crate::algorithms::graph::{
    edges_from, has_edge, is_walk, joins, lemma_reachable_self, reachable, total, undercuts_none,
    weighs, Adjacency,
};
use crate::algorithms::search::{
    least, lemma_chain_unique, lemma_least_exists, Problem, SearchState,
};
use crate::algorithms::soundness::{
    at_edge, initial_routes, inv, lemma_finish, lemma_fits_can_relax, lemma_goal_reached,
    lemma_initial, lemma_least_is_floor, lemma_optimal, lemma_pop_live, lemma_pop_stale,
    lemma_relax, lemma_unreachable, relaxed_routes, without, Routes,
};
use crate::algorithms::trail::{nodes_of, weights_of};
use vstd::prelude::*;

verus! {

/// Where all of `edges` can be followed, so can the first `j` of them.
pub proof fn lemma_can_expand_take(
    pb: Problem,
    st: SearchState,
    from: Node,
    edges: Seq<(usize, usize)>,
    j: int,
)
    requires
        pb.can_expand(st, from, edges),
        0 <= j <= edges.len(),
    ensures
        pb.can_expand(st, from, edges.take(j)),
        j < edges.len() ==> pb.can_relax(pb.expand(st, from, edges.take(j)), from, edges[j]),
    decreases edges.len() - j,
{
    if j == edges.len() {
        assert(edges.take(j) =~= edges);
    } else {
        lemma_can_expand_take(pb, st, from, edges, j + 1);
        assert(edges.take(j + 1).drop_last() =~= edges.take(j));
    }
}

/// Following the first `k` edges of the current node keeps the invariant.
pub proof fn lemma_expand_keeps(
    pb: Problem,
    st: SearchState,
    routes: Routes,
    from: Node,
    k: int,
) -> (out: Routes)
    requires
        inv(pb, st, routes, Some(from.id), 0),
        from == pb.entry(from.id, st.dist[from.id] as int),
        0 <= k <= edges_from(pb.graph, from.id).len(),
        pb.can_expand(st, from, edges_from(pb.graph, from.id).take(k)),
    ensures
        inv(pb, pb.expand(st, from, edges_from(pb.graph, from.id).take(k)), out, Some(from.id), k),
        pb.expand(st, from, edges_from(pb.graph, from.id).take(k)).dist[from.id] == st.dist[from.id],
    decreases k,
{
    let edges = edges_from(pb.graph, from.id);
    if k == 0 {
        routes
    } else {
        assert(edges.take(k).drop_last() =~= edges.take(k - 1));
        let before = lemma_expand_keeps(pb, st, routes, from, k - 1);
        let mid = pb.expand(st, from, edges.take(k - 1));
        lemma_relax(pb, mid, before, from, k - 1);
        relaxed_routes(mid, before, from, edges[k - 1])
    }
}

/// A step that can be taken keeps the invariant.
pub proof fn lemma_step_keeps(pb: Problem, st: SearchState, routes: Routes) -> (out: Routes)
    requires
        inv(pb, st, routes, None, 0),
        !pb.finished(st),
        pb.can_step(st),
    ensures
        inv(pb, pb.step(st), out, None, 0),
{
    lemma_least_exists(st.frontier);
    let e = least(st.frontier);
    lemma_least_is_floor(pb, st, routes, e);
    if e.reached > st.dist[e.id] {
        lemma_pop_stale(pb, st, routes, e);
        routes
    } else {
        lemma_pop_live(pb, st, routes, e);
        let rest = without(st, e);
        let edges = edges_from(pb.graph, e.id);
        assert(edges.take(edges.len() as int) =~= edges);
        let out = lemma_expand_keeps(pb, rest, routes, e, edges.len() as int);
        lemma_finish(pb, pb.expand(rest, e, edges), out, e.id, edges.len() as int);
        out
    }
}

/// On a problem on which the search runs, the invariant holds after every
/// step up to the one at which it stops.
pub proof fn lemma_after_inv(pb: Problem, n: nat) -> (routes: Routes)
    requires
        pb.runs(),
        n == 0 || pb.unfinished((n - 1) as nat),
    ensures
        inv(pb, pb.after(n), routes, None, 0),
    decreases n,
{
    if n == 0 {
        lemma_initial(pb);
        initial_routes(pb)
    } else {
        let before = lemma_after_inv(pb, (n - 1) as nat);
        lemma_step_keeps(pb, pb.after((n - 1) as nat), before)
    }
}

/// On a problem that fits the machine, the first `k` edges of the current
/// node can be followed.
proof fn lemma_fits_can_expand(pb: Problem, st: SearchState, routes: Routes, from: Node, k: int)
    requires
        pb.fits(),
        inv(pb, st, routes, Some(from.id), 0),
        from == pb.entry(from.id, st.dist[from.id] as int),
        0 <= k <= edges_from(pb.graph, from.id).len(),
    ensures
        pb.can_expand(st, from, edges_from(pb.graph, from.id).take(k)),
    decreases k,
{
    let edges = edges_from(pb.graph, from.id);
    if k > 0 {
        lemma_fits_can_expand(pb, st, routes, from, k - 1);
        assert(edges.take(k).drop_last() =~= edges.take(k - 1));
        let before = lemma_expand_keeps(pb, st, routes, from, k - 1);
        let mid = pb.expand(st, from, edges.take(k - 1));
        assert(at_edge(pb, mid, before, from, k - 1));
        lemma_fits_can_relax(pb, mid, before, from, k - 1);
    }
}

/// On a problem that fits the machine, every step can be taken.
proof fn lemma_fits_can_step(pb: Problem, st: SearchState, routes: Routes)
    requires
        pb.fits(),
        inv(pb, st, routes, None, 0),
        !pb.finished(st),
    ensures
        pb.can_step(st),
{
    lemma_least_exists(st.frontier);
    let e = least(st.frontier);
    lemma_least_is_floor(pb, st, routes, e);
    if e.reached <= st.dist[e.id] {
        lemma_pop_live(pb, st, routes, e);
        let edges = edges_from(pb.graph, e.id);
        assert(edges.take(edges.len() as int) =~= edges);
        lemma_fits_can_expand(pb, without(st, e), routes, e, edges.len() as int);
    }
}

/// On a problem that fits the machine, the invariant holds after every step
/// up to the one at which the search stops, and the next step can be taken.
proof fn lemma_fits_after(pb: Problem, n: nat) -> (routes: Routes)
    requires
        pb.fits(),
        pb.can_start(),
        n == 0 || pb.unfinished((n - 1) as nat),
    ensures
        inv(pb, pb.after(n), routes, None, 0),
        !pb.finished(pb.after(n)) ==> pb.can_step(pb.after(n)),
    decreases n,
{
    let routes = if n == 0 {
        lemma_initial(pb);
        initial_routes(pb)
    } else {
        let before = lemma_fits_after(pb, (n - 1) as nat);
        lemma_step_keeps(pb, pb.after((n - 1) as nat), before)
    };
    if !pb.finished(pb.after(n)) {
        lemma_fits_can_step(pb, pb.after(n), routes);
    }
    routes
}

/// The search runs on every problem that fits the machine whatever way the
/// search takes: where the goal and every node that can be reached from the
/// start have a position, and the weight of no walk from the start that
/// visits no node twice, plus the estimate at its end, exceeds `usize`.
pub proof fn lemma_fits_runs(pb: Problem)
    requires
        pb.fits(),
    ensures
        pb.runs(),
{
    assert(joins(pb.graph, seq![pb.start], Seq::<usize>::empty(), pb.start, pb.start));
    assert(seq![pb.start].no_duplicates());
    assert(seq![pb.start].last() == pb.start);
    assert(pb.can_start());
    assert forall|n: nat| #[trigger] pb.unfinished(n) implies pb.can_step(pb.after(n)) by {
        let routes = lemma_fits_after(pb, n);
    }
}

/// The weights of a walk add up to no more than their number times a bound
/// on each.
proof fn lemma_total_bounded(g: Adjacency, nodes: Seq<usize>, weights: Seq<usize>, heaviest: nat)
    requires
        is_walk(g, nodes, weights),
        forall|u: usize, j: int|
            0 <= j < edges_from(g, u).len() ==> (#[trigger] edges_from(g, u)[j]).1 <= heaviest,
    ensures
        total(weights) <= weights.len() * heaviest,
    decreases weights.len(),
{
    if weights.len() > 0 {
        let last = weights.len() - 1;
        assert(is_walk(g, nodes.drop_last(), weights.drop_last())) by {
            assert forall|i: int| 0 <= i < weights.drop_last().len() implies has_edge(
                g,
                #[trigger] nodes.drop_last()[i],
                nodes.drop_last()[i + 1],
                weights.drop_last()[i],
            ) by {
                assert(has_edge(g, nodes[i], nodes[i + 1], weights[i]));
            }
        }
        lemma_total_bounded(g, nodes.drop_last(), weights.drop_last(), heaviest);
        assert(has_edge(g, nodes[last], nodes[last + 1], weights[last]));
        assert(weights.len() * heaviest == (weights.len() - 1) * heaviest + heaviest)
            by (nonlinear_arith);
    }
}

/// A problem fits the machine wherever both ends have a position, every
/// edge out of a node with a position leads to one with a position and
/// weighs no more than `heaviest`, no estimate exceeds `farthest`, and the
/// number of positions times `heaviest`, plus `farthest`, fits in `usize`.
pub proof fn lemma_bounded_fits(pb: Problem, heaviest: nat, farthest: nat)
    requires
        pb.positions.dom().finite(),
        pb.positions.contains_key(pb.start),
        pb.positions.contains_key(pb.end),
        forall|u: usize, j: int|
            0 <= j < edges_from(pb.graph, u).len() ==> (#[trigger] edges_from(pb.graph, u)[j]).1
                <= heaviest,
        forall|u: usize, j: int|
            pb.positions.contains_key(u) && 0 <= j < edges_from(pb.graph, u).len()
                ==> pb.positions.contains_key((#[trigger] edges_from(pb.graph, u)[j]).0),
        forall|n: usize| pb.positions.contains_key(n) ==> #[trigger] pb.estimate(n) <= farthest,
        pb.positions.dom().len() * heaviest + farthest <= usize::MAX,
    ensures
        pb.fits(),
{
    assert forall|nodes: Seq<usize>, weights: Seq<usize>|
        #![trigger is_walk(pb.graph, nodes, weights)]
        is_walk(pb.graph, nodes, weights) && nodes[0] == pb.start
            && nodes.no_duplicates() implies pb.positions.contains_key(nodes.last()) && total(weights)
        + pb.estimate(nodes.last()) <= usize::MAX by {
        assert forall|i: int| 0 <= i < nodes.len() implies pb.positions.contains_key(
            #[trigger] nodes[i],
        ) by {
            lemma_walk_stays(pb, nodes, weights, i);
        }
        assert(nodes.to_set().subset_of(pb.positions.dom()));
        nodes.unique_seq_to_set();
        vstd::set_lib::lemma_len_subset(nodes.to_set(), pb.positions.dom());
        lemma_total_bounded(pb.graph, nodes, weights, heaviest);
        let count = pb.positions.dom().len();
        assert(weights.len() * heaviest <= count * heaviest) by (nonlinear_arith)
            requires
                weights.len() <= count,
        ;
    }
}

/// Where edges lead from positions to positions, a walk from a node with a
/// position stays among such nodes.
proof fn lemma_walk_stays(pb: Problem, nodes: Seq<usize>, weights: Seq<usize>, i: int)
    requires
        is_walk(pb.graph, nodes, weights),
        pb.positions.contains_key(nodes[0]),
        forall|u: usize, j: int|
            pb.positions.contains_key(u) && 0 <= j < edges_from(pb.graph, u).len()
                ==> pb.positions.contains_key((#[trigger] edges_from(pb.graph, u)[j]).0),
        0 <= i < nodes.len(),
    ensures
        pb.positions.contains_key(nodes[i]),
    decreases i,
{
    if i > 0 {
        lemma_walk_stays(pb, nodes, weights, i - 1);
        assert(has_edge(pb.graph, nodes[i - 1], nodes[i], weights[i - 1]));
    }
}

/// Whatever the search answers is right. It answers nothing exactly where
/// no walk leads from the start to the goal. A path that it answers is a
/// walk from the start to the goal that visits no node twice and whose edge
/// weights add up to the cost answered with it; where the estimate is
/// admissible, no walk between the two weighs less. From a node to itself
/// it answers the node alone, at cost 0.
pub proof fn lemma_search_result_sound(pb: Problem, r: Option<(Seq<usize>, usize)>)
    requires
        pb.runs(),
        pb.is_search_result(r),
    ensures
        r is None <==> !reachable(pb.graph, pb.start, pb.end),
        r matches Some(f) ==> weighs(pb.graph, f.0, pb.start, pb.end, f.1 as int),
        r matches Some(f) ==> f.0.no_duplicates(),
        r matches Some(f) ==> (pb.admissible() ==> undercuts_none(
            pb.graph,
            pb.start,
            pb.end,
            f.1 as int,
        )),
        pb.start == pb.end ==> r == Some((seq![pb.start], 0usize)),
{
    let n = choose|n: nat| #[trigger] pb.halts_at(n) && pb.answers(pb.after(n), r);
    let st = pb.after(n);
    let routes = lemma_after_inv(pb, n);
    lemma_reachable_self(pb.graph, pb.start);
    match r {
        None => {
            lemma_unreachable(pb, st, routes);
        },
        Some(f) => {
            lemma_least_exists(st.frontier);
            let e = least(st.frontier);
            lemma_goal_reached(pb, st, routes, e);
            let t = routes[pb.end];
            lemma_chain_unique(st.prev, f.0, nodes_of(t), pb.end);
            assert(joins(pb.graph, f.0, weights_of(t), pb.start, pb.end));
            if pb.admissible() {
                assert forall|nodes: Seq<usize>, weights: Seq<usize>| #[trigger]
                    joins(pb.graph, nodes, weights, pb.start, pb.end) implies f.1 <= total(weights) by {
                    lemma_optimal(pb, st, routes, e, nodes, weights);
                }
            }
        },
    }
}

} // verus!
