//! Best-first search for a cheapest path, guided by the Manhattan distance
//! to the goal.

use crate::algorithms::frontier::{Frontier, Node};
use crate::algorithms::graph::{adjacency, edges_from, reachable, undercuts_none, weighs};
use crate::algorithms::heuristic::heuristic;
use crate::algorithms::progress::{lemma_listing, lemma_potential_falls, lists, potential};
use crate::algorithms::run::{lemma_after_inv, lemma_can_expand_take, lemma_search_result_sound};
use crate::algorithms::search::{is_chain, lemma_least_is, Problem, SearchState};
use crate::algorithms::soundness::lemma_goal_reached;
use crate::algorithms::trail::nodes_of;
use std::collections::HashMap;
use vstd::prelude::*;
use vstd::std_specs::hash::*;

verus! {

broadcast use group_hash_axioms;

/// The problem that the arguments of a search pose.
pub open spec fn problem(
    graph: &HashMap<usize, Vec<(usize, usize)>>,
    start: usize,
    end: usize,
    positions: &HashMap<usize, (isize, isize)>,
) -> Problem {
    Problem { graph: adjacency(graph), positions: positions@, start, end }
}

/// What a search returned, as a mathematical value.
pub open spec fn found(r: Option<(Vec<usize>, usize)>) -> Option<(Seq<usize>, usize)> {
    match r {
        Some(f) => Some((f.0@, f.1)),
        None => None,
    }
}

/// The search state that the three tables hold.
pub open spec fn state(
    dist: HashMap<usize, usize>,
    prev: HashMap<usize, usize>,
    frontier: Frontier,
) -> SearchState {
    SearchState { dist: dist@, prev: prev@, frontier: frontier@ }
}

/// Walks the predecessor table back from `end` and returns the nodes met, in
/// the order from the first to `end`.
fn trace(prev: &HashMap<usize, usize>, end: usize, Ghost(path): Ghost<Seq<usize>>) -> (out: Vec<
    usize,
>)
    requires
        is_chain(prev@, path, end),
    ensures
        out@ == path,
{
    let mut back: Vec<usize> = Vec::new();
    let mut curr: usize = end;
    let ghost mut i: int = path.len() - 1;
    loop
        invariant_except_break
            0 <= i < path.len(),
            curr == path[i],
            back@.len() == path.len() - 1 - i,
        invariant
            is_chain(prev@, path, end),
            forall|j: int| 0 <= j < back@.len() ==> back@[j] == path[path.len() - 1 - j],
        ensures
            back@.len() == path.len(),
        decreases i,
    {
        match prev.get(&curr) {
            Some(before) => {
                back.push(curr);
                curr = *before;
                proof {
                    assert(prev@.contains_key(path[i]));
                    i = i - 1;
                }
            },
            None => {
                back.push(curr);
                proof {
                    if i > 0 {
                        assert(prev@.contains_key(path[i]));
                    }
                }
                break ;
            },
        }
    }
    let mut out: Vec<usize> = Vec::new();
    let mut k: usize = back.len();
    while k > 0
        invariant
            k <= back.len(),
            out@.len() == back.len() - k,
            forall|j: int| 0 <= j < out@.len() ==> out@[j] == back@[back.len() - 1 - j],
        decreases k,
    {
        k -= 1;
        out.push(back[k]);
    }
    assert(out@ =~= path);
    out
}

/// Follows the edges of the node whose entry `node` has just left the
/// frontier: each edge that leads to a node not yet reached, or reached at
/// a higher cost, records the new cost and predecessor of that node and
/// queues it.
fn expand(
    graph: &HashMap<usize, Vec<(usize, usize)>>,
    positions: &HashMap<usize, (isize, isize)>,
    goal: (isize, isize),
    node: Node,
    dist: &mut HashMap<usize, usize>,
    prev: &mut HashMap<usize, usize>,
    frontier: &mut Frontier,
    Ghost(pb): Ghost<Problem>,
    Ghost(order): Ghost<Seq<usize>>,
)
    requires
        pb.graph == adjacency(graph),
        pb.positions == positions@,
        pb.positions.contains_key(pb.end),
        goal == pb.positions[pb.end],
        lists(order, positions@),
        old(frontier).well_formed(),
        pb.can_expand(
            state(*old(dist), *old(prev), *old(frontier)),
            node,
            edges_from(pb.graph, node.id),
        ),
    ensures
        final(frontier).well_formed(),
        state(*final(dist), *final(prev), *final(frontier)) == pb.expand(
            state(*old(dist), *old(prev), *old(frontier)),
            node,
            edges_from(pb.graph, node.id),
        ),
        potential(order, final(dist)@) <= potential(order, old(dist)@),
        potential(order, final(dist)@) == potential(order, old(dist)@) ==> final(frontier)@.len()
            == old(frontier)@.len(),
{
    let ghost st0 = state(*dist, *prev, *frontier);
    let ghost edges = edges_from(pb.graph, node.id);
    match graph.get(&node.id) {
        None => {},
        Some(neighbors) => {
            let mut i: usize = 0;
            while i < neighbors.len()
                invariant
                    0 <= i <= neighbors.len(),
                    neighbors@ == edges,
                    pb.positions == positions@,
                    pb.positions.contains_key(pb.end),
                    goal == pb.positions[pb.end],
                    lists(order, positions@),
                    frontier.well_formed(),
                    pb.can_expand(st0, node, edges),
                    state(*dist, *prev, *frontier) == pb.expand(st0, node, edges.take(i as int)),
                    potential(order, dist@) <= potential(order, st0.dist),
                    potential(order, dist@) == potential(order, st0.dist) ==> frontier@.len()
                        == st0.frontier.len(),
                decreases neighbors.len() - i,
            {
                let edge: (usize, usize) = neighbors[i];
                proof {
                    lemma_can_expand_take(pb, st0, node, edges, i as int);
                    assert(edges.take(i + 1).drop_last() =~= edges.take(i as int));
                }
                let better: bool = match dist.get(&edge.0) {
                    Some(known) => node.reached < *known && edge.1 < *known - node.reached,
                    None => true,
                };
                if better {
                    let reached: usize = node.reached + edge.1;
                    let there: (isize, isize) = *positions.get(&edge.0).unwrap();
                    let h: usize = heuristic(there, goal);
                    proof {
                        lemma_potential_falls(order, dist@, edge.0, reached);
                    }
                    dist.insert(edge.0, reached);
                    prev.insert(edge.0, node.id);
                    frontier.push(Node { id: edge.0, cost: reached + h, reached, heuristic: h });
                }
                i += 1;
            }
            proof {
                assert(edges.take(i as int) =~= edges);
            }
        },
    }
}

/// Searches `graph` for a cheapest path from `start` to `end`, looking first
/// at the node for which the cost so far plus the Manhattan distance to
/// `end` is least. Returns the path with its cost, or `None` where `end`
/// cannot be reached.
///
/// The search must run within the limits of the machine (`Problem::runs`):
/// it must find a position for each node that it comes to, and no cost that
/// it records may, with the estimate, exceed `usize`. It does so wherever
/// every node that can be reached from `start` has a position and no walk
/// weighs too much (`lemma_fits_runs`), and so wherever the weights, the
/// estimates and the number of positions are small enough
/// (`lemma_bounded_fits`).
///
/// The answer is a function of the arguments, the one that the state machine
/// of `Problem` gives. It is `None` exactly where no walk leads from `start`
/// to `end`. A path that is returned is a walk from `start` to `end` that
/// visits no node twice and whose edge weights add up to the returned cost;
/// where the estimate is admissible, no walk between the two weighs less.
pub fn astar(
    graph: &HashMap<usize, Vec<(usize, usize)>>,
    start: usize,
    end: usize,
    positions: &HashMap<usize, (isize, isize)>,
) -> (r: Option<(Vec<usize>, usize)>)
    requires
        problem(graph, start, end, positions).runs(),
    ensures
        problem(graph, start, end, positions).is_search_result(found(r)),
        r is None <==> !reachable(adjacency(graph), start, end),
        r matches Some(f) ==> weighs(adjacency(graph), f.0@, start, end, f.1 as int),
        r matches Some(f) ==> f.0@.no_duplicates(),
        r matches Some(f) ==> (problem(graph, start, end, positions).admissible() ==> undercuts_none(
            adjacency(graph),
            start,
            end,
            f.1 as int,
        )),
        start == end ==> found(r) == Some((seq![start], 0usize)),
{
    let ghost pb = problem(graph, start, end, positions);
    let ghost order = positions@.dom().to_seq();
    let ghost mut steps: nat = 0;
    proof {
        lemma_listing(positions@);
    }
    let origin: (isize, isize) = *positions.get(&start).unwrap();
    let goal: (isize, isize) = *positions.get(&end).unwrap();
    let h: usize = heuristic(origin, goal);
    let mut dist: HashMap<usize, usize> = HashMap::new();
    let mut prev: HashMap<usize, usize> = HashMap::new();
    let mut frontier = Frontier::new();
    dist.insert(start, 0);
    frontier.push(Node { id: start, cost: h, reached: 0, heuristic: h });
    assert(state(dist, prev, frontier) == pb.initial());
    loop
        invariant
            pb == problem(graph, start, end, positions),
            pb.runs(),
            pb.positions.contains_key(end),
            goal == pb.positions[end],
            lists(order, positions@),
            frontier.well_formed(),
            state(dist, prev, frontier) == pb.after(steps),
            steps == 0 || pb.unfinished((steps - 1) as nat),
        decreases potential(order, dist@), frontier@.len(),
    {
        let ghost st = state(dist, prev, frontier);
        match frontier.pop() {
            None => {
                proof {
                    assert(pb.halts_at(steps));
                    assert(pb.answers(st, None));
                    lemma_search_result_sound(pb, None);
                }
                return None;
            },
            Some(node) => {
                proof {
                    lemma_least_is(st.frontier, node);
                }
                if node.id == end {
                    let ghost mut chain: Seq<usize> = Seq::empty();
                    proof {
                        let routes = lemma_after_inv(pb, steps);
                        lemma_goal_reached(pb, st, routes, node);
                        chain = nodes_of(routes[end]);
                    }
                    let path = trace(&prev, end, Ghost(chain));
                    let cost: usize = *dist.get(&end).unwrap();
                    proof {
                        assert(pb.halts_at(steps));
                        assert(pb.answers(st, Some((path@, cost))));
                        lemma_search_result_sound(pb, Some((path@, cost)));
                    }
                    return Some((path, cost));
                }
                proof {
                    assert(pb.unfinished(steps));
                }
                let known: usize = match dist.get(&node.id) {
                    Some(d) => *d,
                    None => usize::MAX,
                };
                if node.reached <= known {
                    expand(
                        graph,
                        positions,
                        goal,
                        node,
                        &mut dist,
                        &mut prev,
                        &mut frontier,
                        Ghost(pb),
                        Ghost(order),
                    );
                }
                proof {
                    steps = steps + 1;
                }
            },
        }
    }
}

} // verus!
