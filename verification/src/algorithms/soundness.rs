//! What holds of the search between any two of its moves, and why each move
//! keeps it.
//!
//! Beside the state the proofs carry, for every discovered node, the walk by
//! which its recorded cost was reached. A node is *alive* while the frontier
//! holds an entry at its recorded cost, and *current* while its edges are
//! being followed.
//!
//! The invariant has four parts. `base`: each recorded walk leads from the
//! start to its node at the node's cost, and the predecessor table follows
//! the walks. `covered`: a node that is neither alive nor current has had
//! all its edges followed at its recorded cost; this is why an empty
//! frontier means that the goal cannot be reached, and why an admissible
//! estimate gives a cheapest path. `guarded` and `floor`: an alive node on
//! whose walk some node has since been reached more cheaply is not the next
//! to leave the frontier, because the cheaper entry, or one that came of it,
//! waits there at a lower estimated total. So the walk of the entry that
//! does leave is the chain of predecessors, node by node, and the cost that
//! is answered is the weight of the path that is answered: also where the
//! estimate overshoots.

use crate::algorithms::frontier::{is_least, precedes, Node};
use crate::algorithms::graph::{
    edges_from, has_edge, is_walk, joins, lemma_total_split, reachable, total, Adjacency,
};
use crate::algorithms::search::{is_chain, Problem, SearchState};
use crate::algorithms::trail::{
    is_trail, lemma_trail_is_walk, lemma_walk_is_trail, nodes_of, step_ok, trail_of, weights_of,
    Hop, Trail,
};
use vstd::prelude::*;

verus! {

/// The walk recorded for each discovered node.
pub type Routes = Map<usize, Trail>;

/// The frontier holds an entry for `n` at its recorded cost.
pub open spec fn live(pb: Problem, st: SearchState, n: usize) -> bool {
    st.dist.contains_key(n) && st.frontier.contains(pb.entry(n, st.dist[n] as int))
}

/// The nodes that are alive.
pub open spec fn alive(pb: Problem, st: SearchState) -> Set<usize> {
    Set::new(|n: usize| live(pb, st, n))
}

/// The alive nodes together with the current one.
pub open spec fn with_current(alive: Set<usize>, cur: Option<usize>) -> Set<usize> {
    match cur {
        Some(m) => alive.insert(m),
        None => alive,
    }
}

/// No node occurs twice on `t`.
pub open spec fn distinct(t: Trail) -> bool {
    forall|i: int, j: int| 0 <= i < j < t.len() ==> (#[trigger] t[i]).node != (#[trigger] t[j]).node
}

/// The node at hop `i` of the walk to `n` is known at no more than the
/// walk's weight up to it; where at exactly that, its own walk is this one
/// up to it.
pub open spec fn hop_ok(dist: Map<usize, usize>, routes: Routes, n: usize, i: int) -> bool {
    let t = routes[n];
    &&& dist.contains_key(t[i].node)
    &&& dist[t[i].node] <= t[i].at
    &&& dist[t[i].node] == t[i].at ==> routes[t[i].node] == t.take(i + 1)
}

/// The walk recorded for `n` leads from the start to `n` at the recorded
/// cost, and the recorded predecessor is the node before `n` on it.
pub open spec fn route_ok(
    pb: Problem,
    dist: Map<usize, usize>,
    prev: Map<usize, usize>,
    routes: Routes,
    n: usize,
) -> bool {
    let t = routes[n];
    &&& is_trail(pb.graph, t)
    &&& t[0].node == pb.start
    &&& t.last().node == n
    &&& t.last().at == dist[n]
    &&& distinct(t)
    &&& (n == pb.start ==> t.len() == 1)
    &&& (n != pb.start ==> t.len() >= 2 && prev.contains_key(n) && prev[n] == t[t.len() - 2].node)
    &&& forall|i: int| 0 <= i < t.len() ==> #[trigger] hop_ok(dist, routes, n, i)
    &&& pb.positions.contains_key(n)
    &&& dist[n] + pb.estimate(n) <= usize::MAX
}

/// A frontier entry is for a discovered node, at a cost no less than the
/// recorded one, and carries the estimate of its node.
pub open spec fn entry_ok(pb: Problem, dist: Map<usize, usize>, e: Node) -> bool {
    &&& dist.contains_key(e.id)
    &&& dist[e.id] <= e.reached
    &&& e == pb.entry(e.id, e.reached as int)
    &&& e.reached + pb.estimate(e.id) <= usize::MAX
}

/// The tables, the recorded walks and the frontier agree.
pub open spec fn base(pb: Problem, st: SearchState, routes: Routes) -> bool {
    &&& pb.positions.contains_key(pb.end)
    &&& routes.dom() == st.dist.dom()
    &&& st.prev.dom() == st.dist.dom().remove(pb.start)
    &&& st.dist.contains_key(pb.start)
    &&& st.dist[pb.start] == 0
    &&& forall|n: usize| st.dist.contains_key(n) ==> #[trigger] route_ok(pb, st.dist, st.prev, routes, n)
    &&& forall|e: Node| #[trigger] st.frontier.contains(e) ==> entry_ok(pb, st.dist, e)
    &&& (st.dist.contains_key(pb.end) ==> live(pb, st, pb.end))
}

/// The edge has been followed: its far end is known at no more than the cost
/// of `u` plus the edge's weight.
pub open spec fn settled(dist: Map<usize, usize>, u: usize, edge: (usize, usize)) -> bool {
    dist.contains_key(edge.0) && dist[edge.0] <= dist[u] + edge.1
}

/// Every edge of a discovered node that is not alive has been followed,
/// but for the edges of the current node from index `done` on.
pub open spec fn covered(
    pb: Problem,
    dist: Map<usize, usize>,
    alive: Set<usize>,
    cur: Option<usize>,
    done: int,
) -> bool {
    forall|u: usize, k: int|
        #![trigger edges_from(pb.graph, u)[k]]
        dist.contains_key(u) && 0 <= k < edges_from(pb.graph, u).len() && !alive.contains(u) && !(cur
            == Some(u) && k >= done) ==> settled(dist, u, edges_from(pb.graph, u)[k])
}

/// Hop `k` of the walk to `y` is at `a`, at the cost recorded for `a`.
pub open spec fn passes(dist: Map<usize, usize>, routes: Routes, y: usize, a: usize, k: int) -> bool {
    0 <= k < routes[y].len() && routes[y][k].node == a && routes[y][k].at == dist[a]
}

/// The walk to `y` leads over `a` at the cost recorded for `a`.
pub open spec fn through(dist: Map<usize, usize>, routes: Routes, y: usize, a: usize) -> bool {
    exists|k: int| #[trigger] passes(dist, routes, y, a, k)
}

/// The estimated total cost of `n` at its recorded cost.
pub open spec fn est(pb: Problem, dist: Map<usize, usize>, n: usize) -> int {
    dist[n] + pb.estimate(n)
}

/// The walk to `n` was extended over its hop `i` at an estimated total cost
/// that either is no more than that of `n`, or is still the recorded one for
/// that hop's node and no more than that of any active node whose walk does
/// not lead over it.
pub open spec fn shielded(
    pb: Problem,
    dist: Map<usize, usize>,
    routes: Routes,
    active: Set<usize>,
    n: usize,
    i: int,
) -> bool {
    let a = routes[n][i].node;
    let bar = routes[n][i].at + pb.estimate(a);
    ||| est(pb, dist, n) >= bar
    ||| (dist[a] == routes[n][i].at && forall|y: usize| #[trigger]
        active.contains(y) ==> est(pb, dist, y) >= bar || through(dist, routes, y, a))
}

/// Every active node is shielded at every hop before its last.
pub open spec fn guarded(
    pb: Problem,
    dist: Map<usize, usize>,
    routes: Routes,
    active: Set<usize>,
) -> bool {
    forall|n: usize, i: int|
        active.contains(n) && 0 <= i < routes[n].len() - 1 ==> #[trigger] shielded(
            pb,
            dist,
            routes,
            active,
            n,
            i,
        )
}

/// Every node on the walk to `n` is recorded at the walk's weight up to it.
pub open spec fn tight(dist: Map<usize, usize>, routes: Routes, n: usize) -> bool {
    forall|i: int| 0 <= i < routes[n].len() ==> dist[(#[trigger] routes[n][i]).node] == routes[n][i].at
}

/// The walk to `y` is the walk to `m` and one edge more.
pub open spec fn is_child(routes: Routes, y: usize, m: usize) -> bool {
    routes[y].len() >= 2 && routes[y].drop_last() == routes[m]
}

/// While the edges of `m` are followed: its walk is tight, and every alive
/// node either was queued from `m` or is estimated no cheaper than `m`.
pub open spec fn floor(
    pb: Problem,
    dist: Map<usize, usize>,
    routes: Routes,
    alive: Set<usize>,
    cur: Option<usize>,
) -> bool {
    match cur {
        None => true,
        Some(m) => {
            &&& dist.contains_key(m)
            &&& tight(dist, routes, m)
            &&& forall|y: usize| #[trigger]
                alive.contains(y) ==> est(pb, dist, y) >= est(pb, dist, m) || is_child(routes, y, m)
        },
    }
}

/// The invariant of the search. `cur` is the node whose edges are being
/// followed, if any, and `done` the number of them followed so far.
pub open spec fn inv(
    pb: Problem,
    st: SearchState,
    routes: Routes,
    cur: Option<usize>,
    done: int,
) -> bool {
    &&& base(pb, st, routes)
    &&& covered(pb, st.dist, alive(pb, st), cur, done)
    &&& guarded(pb, st.dist, routes, with_current(alive(pb, st), cur))
    &&& floor(pb, st.dist, routes, alive(pb, st), cur)
}

/// The walks recorded at the outset: the start is reached by standing still.
pub open spec fn initial_routes(pb: Problem) -> Routes {
    Map::<usize, Trail>::empty().insert(pb.start, seq![Hop { node: pb.start, at: 0 }])
}

/// The totals along a trail never fall.
pub proof fn lemma_trail_rises(g: Adjacency, t: Trail, i: int, j: int)
    requires
        is_trail(g, t),
        0 <= i <= j < t.len(),
    ensures
        t[i].at <= t[j].at,
    decreases j - i,
{
    if i < j {
        lemma_trail_rises(g, t, i, j - 1);
        assert(step_ok(g, t, j - 1));
    }
}

/// A trail without a repeated node is a walk without one.
pub proof fn lemma_distinct_nodes(t: Trail)
    requires
        distinct(t),
    ensures
        nodes_of(t).no_duplicates(),
{
    let nodes = nodes_of(t);
    assert forall|i: int, j: int| 0 <= i < nodes.len() && 0 <= j < nodes.len() && i != j implies nodes[i]
        != nodes[j] by {
        if i < j {
            assert(t[i].node != t[j].node);
        } else {
            assert(t[j].node != t[i].node);
        }
    }
}

/// The invariant holds before the first step.
pub proof fn lemma_initial(pb: Problem)
    requires
        pb.can_start(),
    ensures
        inv(pb, pb.initial(), initial_routes(pb), None, 0),
{
    broadcast use vstd::multiset::group_multiset_axioms;

    let st = pb.initial();
    let routes = initial_routes(pb);
    let t = seq![Hop { node: pb.start, at: 0 }];
    assert(routes[pb.start] == t);
    assert(routes.dom() =~= st.dist.dom());
    assert(st.prev.dom() =~= st.dist.dom().remove(pb.start));
    assert(is_trail(pb.graph, t));
    assert(distinct(t));
    assert(t.take(1) =~= t);
    assert(hop_ok(st.dist, routes, pb.start, 0));
    assert(route_ok(pb, st.dist, st.prev, routes, pb.start));
    assert forall|n: usize| st.dist.contains_key(n) implies #[trigger] route_ok(pb, st.dist, st.prev, routes, n) by {
        assert(n == pb.start);
    }
    let e0 = pb.entry(pb.start, 0);
    assert(st.frontier.contains(e0));
    assert forall|e: Node| #[trigger] st.frontier.contains(e) implies entry_ok(pb, st.dist, e) by {
        assert(e == e0);
    }
    assert(live(pb, st, pb.start));
    assert(alive(pb, st).contains(pb.start));
    assert(base(pb, st, routes));
}

/// The state with one entry taken out of the frontier.
pub open spec fn without(st: SearchState, e: Node) -> SearchState {
    SearchState { dist: st.dist, prev: st.prev, frontier: st.frontier.remove(e) }
}

/// Fewer active nodes need no more shielding.
pub proof fn lemma_guarded_shrinks(
    pb: Problem,
    dist: Map<usize, usize>,
    routes: Routes,
    big: Set<usize>,
    small: Set<usize>,
)
    requires
        guarded(pb, dist, routes, big),
        small.subset_of(big),
    ensures
        guarded(pb, dist, routes, small),
{
    assert forall|n: usize, i: int| small.contains(n) && 0 <= i < routes[n].len() - 1 implies #[trigger] shielded(
        pb,
        dist,
        routes,
        small,
        n,
        i,
    ) by {
        assert(big.contains(n));
        assert(shielded(pb, dist, routes, big, n, i));
    }
}

/// The node of the least entry is estimated no dearer than any alive node.
pub proof fn lemma_least_is_floor(pb: Problem, st: SearchState, routes: Routes, e: Node)
    requires
        base(pb, st, routes),
        is_least(st.frontier, e),
    ensures
        entry_ok(pb, st.dist, e),
        forall|y: usize| #[trigger]
            alive(pb, st).contains(y) ==> e.cost <= est(pb, st.dist, y) && est(pb, st.dist, e.id) <= est(
                pb,
                st.dist,
                y,
            ),
{
    assert(st.frontier.contains(e));
    assert(entry_ok(pb, st.dist, e));
    assert forall|y: usize| #[trigger] alive(pb, st).contains(y) implies e.cost <= est(pb, st.dist, y)
        && est(pb, st.dist, e.id) <= est(pb, st.dist, y) by {
        let ey = pb.entry(y, st.dist[y] as int);
        assert(st.frontier.contains(ey));
        assert(precedes(e, ey));
        assert(route_ok(pb, st.dist, st.prev, routes, y));
    }
}

/// Between steps, the walk to an alive node that no alive node undercuts is
/// tight from hop `i` on.
proof fn lemma_tight_hop(pb: Problem, st: SearchState, routes: Routes, n: usize, i: int)
    requires
        inv(pb, st, routes, None, 0),
        alive(pb, st).contains(n),
        forall|y: usize| #[trigger]
            alive(pb, st).contains(y) ==> est(pb, st.dist, n) <= est(pb, st.dist, y),
        0 <= i < routes[n].len(),
    ensures
        st.dist[routes[n][i].node] == routes[n][i].at,
    decreases routes[n].len() - i,
{
    let t = routes[n];
    assert(route_ok(pb, st.dist, st.prev, routes, n));
    if i < t.len() - 1 {
        lemma_tight_hop(pb, st, routes, n, i + 1);
        let a = t[i].node;
        let b = t[i + 1].node;
        assert(hop_ok(st.dist, routes, n, i));
        if st.dist[a] < t[i].at {
            assert(step_ok(pb.graph, t, i));
            let w = (t[i + 1].at - t[i].at) as usize;
            assert(has_edge(pb.graph, a, b, w));
            let k = choose|k: int|
                0 <= k < edges_from(pb.graph, a).len() && #[trigger] edges_from(pb.graph, a)[k] == (
                    b,
                    w,
                );
            assert(!settled(st.dist, a, edges_from(pb.graph, a)[k]));
            assert(alive(pb, st).contains(a));
            assert(shielded(pb, st.dist, routes, alive(pb, st), n, i));
            assert(false);
        }
    }
}

/// Between steps, the walk to an alive node that no alive node undercuts is
/// tight.
pub proof fn lemma_tight(pb: Problem, st: SearchState, routes: Routes, n: usize)
    requires
        inv(pb, st, routes, None, 0),
        alive(pb, st).contains(n),
        forall|y: usize| #[trigger]
            alive(pb, st).contains(y) ==> est(pb, st.dist, n) <= est(pb, st.dist, y),
    ensures
        tight(st.dist, routes, n),
{
    assert forall|i: int| 0 <= i < routes[n].len() implies st.dist[(#[trigger] routes[n][i]).node]
        == routes[n][i].at by {
        lemma_tight_hop(pb, st, routes, n, i);
    }
}

/// Dropping an entry that a cheaper way to its node has overtaken keeps the
/// invariant.
pub proof fn lemma_pop_stale(pb: Problem, st: SearchState, routes: Routes, e: Node)
    requires
        inv(pb, st, routes, None, 0),
        st.frontier.contains(e),
        e.reached > st.dist[e.id],
    ensures
        inv(pb, without(st, e), routes, None, 0),
{
    broadcast use vstd::multiset::group_multiset_axioms;

    let rest = without(st, e);
    assert(entry_ok(pb, st.dist, e));
    assert forall|y: usize| live(pb, rest, y) == live(pb, st, y) by {
        if st.dist.contains_key(y) {
            assert(route_ok(pb, st.dist, st.prev, routes, y));
            assert(pb.entry(y, st.dist[y] as int) != e);
        }
    }
    assert(alive(pb, rest) =~= alive(pb, st));
    assert forall|x: Node| #[trigger] rest.frontier.contains(x) implies entry_ok(pb, rest.dist, x) by {
        assert(st.frontier.contains(x));
    }
}

/// Taking out the least entry, where it is at its node's recorded cost and
/// not for the goal, makes its node the current one.
pub proof fn lemma_pop_live(pb: Problem, st: SearchState, routes: Routes, e: Node)
    requires
        inv(pb, st, routes, None, 0),
        is_least(st.frontier, e),
        e.reached <= st.dist[e.id],
        e.id != pb.end,
    ensures
        inv(pb, without(st, e), routes, Some(e.id), 0),
        e == pb.entry(e.id, st.dist[e.id] as int),
{
    broadcast use vstd::multiset::group_multiset_axioms;

    let rest = without(st, e);
    let m = e.id;
    lemma_least_is_floor(pb, st, routes, e);
    assert(alive(pb, st).contains(m));
    assert forall|y: usize| live(pb, rest, y) implies live(pb, st, y) by {}
    assert forall|y: usize| live(pb, st, y) && y != m implies live(pb, rest, y) by {
        assert(pb.entry(y, st.dist[y] as int) != e);
    }
    assert(alive(pb, rest).subset_of(alive(pb, st)));
    assert forall|x: Node| #[trigger] rest.frontier.contains(x) implies entry_ok(pb, rest.dist, x) by {
        assert(st.frontier.contains(x));
    }
    assert(base(pb, rest, routes));
    lemma_tight(pb, st, routes, m);
    assert(with_current(alive(pb, rest), Some(m)).subset_of(alive(pb, st)));
    lemma_guarded_shrinks(
        pb,
        st.dist,
        routes,
        alive(pb, st),
        with_current(alive(pb, rest), Some(m)),
    );
    assert forall|u: usize, k: int|
        #![trigger edges_from(pb.graph, u)[k]]
        rest.dist.contains_key(u) && 0 <= k < edges_from(pb.graph, u).len() && !alive(pb, rest).contains(
            u,
        ) && !(Some(m) == Some(u) && k >= 0) implies settled(
        rest.dist,
        u,
        edges_from(pb.graph, u)[k],
    ) by {
        assert(!alive(pb, st).contains(u));
    }
    assert forall|y: usize| #[trigger] alive(pb, rest).contains(y) implies est(pb, rest.dist, y) >= est(
        pb,
        rest.dist,
        m,
    ) || is_child(routes, y, m) by {
        assert(alive(pb, st).contains(y));
    }
}

/// Once all edges of the current node are followed, no node is current.
pub proof fn lemma_finish(pb: Problem, st: SearchState, routes: Routes, m: usize, done: int)
    requires
        inv(pb, st, routes, Some(m), done),
        done >= edges_from(pb.graph, m).len(),
    ensures
        inv(pb, st, routes, None, 0),
{
    lemma_guarded_shrinks(
        pb,
        st.dist,
        routes,
        with_current(alive(pb, st), Some(m)),
        alive(pb, st),
    );
}

/// Following `edge` out of `from` finds a new or cheaper way to its far end.
pub open spec fn improves(st: SearchState, from: Node, edge: (usize, usize)) -> bool {
    !st.dist.contains_key(edge.0) || from.reached + edge.1 < st.dist[edge.0]
}

/// The recorded walks after `edge` has been followed out of `from`.
pub open spec fn relaxed_routes(
    st: SearchState,
    routes: Routes,
    from: Node,
    edge: (usize, usize),
) -> Routes {
    if improves(st, from, edge) {
        routes.insert(edge.0, routes[from.id].push(Hop { node: edge.0, at: from.reached + edge.1 }))
    } else {
        routes
    }
}

/// The search stands before edge number `k` of the current node, whose
/// entry `from` has left the frontier.
pub open spec fn at_edge(pb: Problem, st: SearchState, routes: Routes, from: Node, k: int) -> bool {
    &&& inv(pb, st, routes, Some(from.id), k)
    &&& from == pb.entry(from.id, st.dist[from.id] as int)
    &&& 0 <= k < edges_from(pb.graph, from.id).len()
}

/// The search stands before edge number `k` of the current node and can
/// follow it.
pub open spec fn relaxing(pb: Problem, st: SearchState, routes: Routes, from: Node, k: int) -> bool {
    at_edge(pb, st, routes, from, k) && pb.can_relax(st, from, edges_from(pb.graph, from.id)[k])
}

/// An edge that improves on its far end does not lead back onto the walk to
/// its near end.
proof fn lemma_edge_leaves_route(
    pb: Problem,
    st: SearchState,
    routes: Routes,
    m: usize,
    edge: (usize, usize),
    i: int,
)
    requires
        base(pb, st, routes),
        st.dist.contains_key(m),
        !st.dist.contains_key(edge.0) || st.dist[m] + edge.1 < st.dist[edge.0],
        0 <= i < routes[m].len(),
    ensures
        routes[m][i].node != edge.0,
{
    assert(route_ok(pb, st.dist, st.prev, routes, m));
    assert(hop_ok(st.dist, routes, m, i));
    lemma_trail_rises(pb.graph, routes[m], i, routes[m].len() - 1);
}

/// The walk to the current node and one improving edge more is a walk from
/// the start without a repeated node.
pub proof fn lemma_extended_trail(
    pb: Problem,
    st: SearchState,
    routes: Routes,
    from: Node,
    k: int,
)
    requires
        at_edge(pb, st, routes, from, k),
        improves(st, from, edges_from(pb.graph, from.id)[k]),
    ensures
        from.reached == st.dist[from.id],
        is_trail(
            pb.graph,
            relaxed_routes(st, routes, from, edges_from(pb.graph, from.id)[k])[edges_from(
                pb.graph,
                from.id,
            )[k].0],
        ),
        distinct(
            relaxed_routes(st, routes, from, edges_from(pb.graph, from.id)[k])[edges_from(
                pb.graph,
                from.id,
            )[k].0],
        ),
        relaxed_routes(st, routes, from, edges_from(pb.graph, from.id)[k])[edges_from(
            pb.graph,
            from.id,
        )[k].0][0].node == pb.start,
        edges_from(pb.graph, from.id)[k].0 != pb.start,
        edges_from(pb.graph, from.id)[k].0 != from.id,
{
    let m = from.id;
    let edge = edges_from(pb.graph, m)[k];
    let v = edge.0;
    let w = edge.1;
    let t = routes[m];
    let c = st.dist[m] + w;
    let t2 = t.push(Hop { node: v, at: c });
    assert(route_ok(pb, st.dist, st.prev, routes, m));
    assert(relaxed_routes(st, routes, from, edge)[v] == t2);
    assert forall|i: int| 0 <= i < t2.len() - 1 implies #[trigger] step_ok(pb.graph, t2, i) by {
        if i < t.len() - 1 {
            assert(step_ok(pb.graph, t, i));
        } else {
            assert(t2[i] == t.last());
            assert(t2[i + 1].at - t2[i].at == w);
            assert(edges_from(pb.graph, m)[k] == (v, w));
            assert(has_edge(pb.graph, m, v, w));
        }
    }
    assert forall|i: int, j: int| 0 <= i < j < t2.len() implies (#[trigger] t2[i]).node != (
    #[trigger] t2[j]).node by {
        if j < t.len() {
            assert(t[i].node != t[j].node);
        } else {
            lemma_edge_leaves_route(pb, st, routes, m, edge, i);
        }
    }
    lemma_edge_leaves_route(pb, st, routes, m, edge, 0);
    lemma_edge_leaves_route(pb, st, routes, m, edge, t.len() - 1);
}

/// On a problem that fits the machine whatever way the search takes, the
/// next edge of the current node can be followed.
pub proof fn lemma_fits_can_relax(pb: Problem, st: SearchState, routes: Routes, from: Node, k: int)
    requires
        pb.fits(),
        at_edge(pb, st, routes, from, k),
    ensures
        pb.can_relax(st, from, edges_from(pb.graph, from.id)[k]),
{
    let edge = edges_from(pb.graph, from.id)[k];
    assert(route_ok(pb, st.dist, st.prev, routes, from.id));
    if improves(st, from, edge) {
        lemma_extended_trail(pb, st, routes, from, k);
        let t2 = relaxed_routes(st, routes, from, edge)[edge.0];
        lemma_trail_is_walk(pb.graph, t2);
        lemma_distinct_nodes(t2);
        assert(nodes_of(t2)[0] == pb.start);
        assert(nodes_of(t2).last() == edge.0);
        assert(is_walk(pb.graph, nodes_of(t2), weights_of(t2)));
    }
}

/// After an improving edge, its far end is alive beside the nodes that were.
proof fn lemma_relax_alive(pb: Problem, st: SearchState, routes: Routes, from: Node, k: int)
    requires
        relaxing(pb, st, routes, from, k),
        improves(st, from, edges_from(pb.graph, from.id)[k]),
    ensures
        alive(pb, pb.relax(st, from, edges_from(pb.graph, from.id)[k])) == alive(pb, st).insert(
            edges_from(pb.graph, from.id)[k].0,
        ),
{
    broadcast use vstd::multiset::group_multiset_axioms;

    let edge = edges_from(pb.graph, from.id)[k];
    let v = edge.0;
    let st2 = pb.relax(st, from, edge);
    lemma_extended_trail(pb, st, routes, from, k);
    let c = from.reached + edge.1;
    let e2 = pb.entry(v, c);
    assert(st2.frontier == st.frontier.insert(e2));
    assert(st2.dist == st.dist.insert(v, c as usize));
    assert forall|y: usize| live(pb, st2, y) == (y == v || live(pb, st, y)) by {
        if y != v {
            if st.dist.contains_key(y) {
                let ey = pb.entry(y, st.dist[y] as int);
                assert(ey != e2);
                assert(st2.frontier.contains(ey) == st.frontier.contains(ey));
            }
        } else {
            assert(st2.frontier.contains(e2));
        }
    }
    assert(alive(pb, st2) =~= alive(pb, st).insert(v));
}

/// An improving edge keeps the tables, the walks and the frontier in
/// agreement.
proof fn lemma_relax_base(pb: Problem, st: SearchState, routes: Routes, from: Node, k: int)
    requires
        relaxing(pb, st, routes, from, k),
        improves(st, from, edges_from(pb.graph, from.id)[k]),
    ensures
        base(
            pb,
            pb.relax(st, from, edges_from(pb.graph, from.id)[k]),
            relaxed_routes(st, routes, from, edges_from(pb.graph, from.id)[k]),
        ),
{
    broadcast use vstd::multiset::group_multiset_axioms;

    let m = from.id;
    let edge = edges_from(pb.graph, m)[k];
    let v = edge.0;
    let st2 = pb.relax(st, from, edge);
    let routes2 = relaxed_routes(st, routes, from, edge);
    lemma_extended_trail(pb, st, routes, from, k);
    lemma_relax_alive(pb, st, routes, from, k);
    let c = from.reached + edge.1;
    let t = routes[m];
    let t2 = t.push(Hop { node: v, at: c });
    assert(route_ok(pb, st.dist, st.prev, routes, m));
    assert(routes2.dom() =~= st2.dist.dom());
    assert(st2.prev.dom() =~= st2.dist.dom().remove(pb.start));
    assert forall|n: usize| st2.dist.contains_key(n) implies #[trigger] route_ok(
        pb,
        st2.dist,
        st2.prev,
        routes2,
        n,
    ) by {
        if n == v {
            assert(routes2[v] == t2);
            assert forall|i: int| 0 <= i < t2.len() implies #[trigger] hop_ok(st2.dist, routes2, v, i) by {
                if i < t.len() {
                    lemma_edge_leaves_route(pb, st, routes, m, edge, i);
                    assert(hop_ok(st.dist, routes, m, i));
                    assert(t2.take(i + 1) =~= t.take(i + 1));
                } else {
                    assert(t2.take(i + 1) =~= t2);
                }
            }
        } else {
            assert(route_ok(pb, st.dist, st.prev, routes, n));
            let s = routes[n];
            assert forall|i: int| 0 <= i < s.len() implies #[trigger] hop_ok(st2.dist, routes2, n, i) by {
                assert(hop_ok(st.dist, routes, n, i));
            }
        }
    }
    assert forall|e: Node| #[trigger] st2.frontier.contains(e) implies entry_ok(pb, st2.dist, e) by {
        if e != pb.entry(v, c) {
            assert(st.frontier.contains(e));
            assert(entry_ok(pb, st.dist, e));
        }
    }
    if st2.dist.contains_key(pb.end) {
        assert(alive(pb, st2).contains(pb.end));
    }
}

/// An improving edge leaves every followed edge followed, itself included.
proof fn lemma_relax_covered(pb: Problem, st: SearchState, routes: Routes, from: Node, k: int)
    requires
        relaxing(pb, st, routes, from, k),
        improves(st, from, edges_from(pb.graph, from.id)[k]),
    ensures
        covered(
            pb,
            pb.relax(st, from, edges_from(pb.graph, from.id)[k]).dist,
            alive(pb, pb.relax(st, from, edges_from(pb.graph, from.id)[k])),
            Some(from.id),
            k + 1,
        ),
{
    let m = from.id;
    let edge = edges_from(pb.graph, m)[k];
    let v = edge.0;
    let st2 = pb.relax(st, from, edge);
    lemma_extended_trail(pb, st, routes, from, k);
    lemma_relax_alive(pb, st, routes, from, k);
    assert forall|u: usize, j: int|
        #![trigger edges_from(pb.graph, u)[j]]
        st2.dist.contains_key(u) && 0 <= j < edges_from(pb.graph, u).len() && !alive(pb, st2).contains(u)
            && !(Some(m) == Some(u) && j >= k + 1) implies settled(
        st2.dist,
        u,
        edges_from(pb.graph, u)[j],
    ) by {
        assert(u != v);
        assert(!alive(pb, st).contains(u));
        if u == m && j == k {
        } else {
            assert(settled(st.dist, u, edges_from(pb.graph, u)[j]));
        }
    }
}

/// An improving edge keeps the current node's walk tight and queues a child
/// of the current node.
proof fn lemma_relax_floor(pb: Problem, st: SearchState, routes: Routes, from: Node, k: int)
    requires
        relaxing(pb, st, routes, from, k),
        improves(st, from, edges_from(pb.graph, from.id)[k]),
    ensures
        floor(
            pb,
            pb.relax(st, from, edges_from(pb.graph, from.id)[k]).dist,
            relaxed_routes(st, routes, from, edges_from(pb.graph, from.id)[k]),
            alive(pb, pb.relax(st, from, edges_from(pb.graph, from.id)[k])),
            Some(from.id),
        ),
{
    let m = from.id;
    let edge = edges_from(pb.graph, m)[k];
    let v = edge.0;
    let st2 = pb.relax(st, from, edge);
    let routes2 = relaxed_routes(st, routes, from, edge);
    lemma_extended_trail(pb, st, routes, from, k);
    lemma_relax_alive(pb, st, routes, from, k);
    let t = routes[m];
    assert(route_ok(pb, st.dist, st.prev, routes, m));
    assert(routes2[m] == t);
    assert forall|i: int| 0 <= i < routes2[m].len() implies st2.dist[(#[trigger] routes2[m][i]).node]
        == routes2[m][i].at by {
        lemma_edge_leaves_route(pb, st, routes, m, edge, i);
        assert(hop_ok(st.dist, routes, m, i));
        assert(st.dist[t[i].node] == t[i].at);
    }
    assert forall|y: usize| #[trigger] alive(pb, st2).contains(y) implies est(pb, st2.dist, y) >= est(
        pb,
        st2.dist,
        m,
    ) || is_child(routes2, y, m) by {
        if y == v {
            let t2 = t.push(Hop { node: v, at: from.reached + edge.1 });
            assert(routes2[v] == t2);
            assert(t2.drop_last() =~= t);
            assert(is_child(routes2, y, m));
        } else {
            assert(alive(pb, st).contains(y));
            assert(st2.dist[y] == st.dist[y]);
            assert(st2.dist[m] == st.dist[m]);
            assert(routes2[y] == routes[y]);
            if is_child(routes, y, m) {
                assert(is_child(routes2, y, m));
            } else {
                assert(est(pb, st.dist, y) >= est(pb, st.dist, m));
            }
        }
    }
}

/// After an improving edge, the far end is shielded at hop `i` of its new
/// walk.
proof fn lemma_shield_new(pb: Problem, st: SearchState, routes: Routes, from: Node, k: int, i: int)
    requires
        relaxing(pb, st, routes, from, k),
        improves(st, from, edges_from(pb.graph, from.id)[k]),
        0 <= i < routes[from.id].len(),
    ensures
        shielded(
            pb,
            pb.relax(st, from, edges_from(pb.graph, from.id)[k]).dist,
            relaxed_routes(st, routes, from, edges_from(pb.graph, from.id)[k]),
            with_current(
                alive(pb, pb.relax(st, from, edges_from(pb.graph, from.id)[k])),
                Some(from.id),
            ),
            edges_from(pb.graph, from.id)[k].0,
            i,
        ),
{
    let m = from.id;
    let edge = edges_from(pb.graph, m)[k];
    let v = edge.0;
    let st2 = pb.relax(st, from, edge);
    let routes2 = relaxed_routes(st, routes, from, edge);
    let act = with_current(alive(pb, st), Some(m));
    let act2 = with_current(alive(pb, st2), Some(m));
    lemma_extended_trail(pb, st, routes, from, k);
    lemma_relax_alive(pb, st, routes, from, k);
    let t = routes[m];
    let t2 = t.push(Hop { node: v, at: from.reached + edge.1 });
    assert(routes2[v] == t2);
    assert(route_ok(pb, st.dist, st.prev, routes, m));
    assert(hop_ok(st.dist, routes, m, i));
    lemma_edge_leaves_route(pb, st, routes, m, edge, i);
    let a = t[i].node;
    let bar = t[i].at + pb.estimate(a);
    assert(t2[i] == t[i]);
    assert(st.dist[a] == t[i].at);
    assert(st2.dist[a] == st.dist[a]);
    assert forall|y: usize| #[trigger] act2.contains(y) implies est(pb, st2.dist, y) >= bar || through(
        st2.dist,
        routes2,
        y,
        a,
    ) by {
        if y == v {
            assert(passes(st2.dist, routes2, v, a, i));
        } else {
            assert(act.contains(y));
            assert(st2.dist[y] == st.dist[y]);
            assert(routes2[y] == routes[y]);
            if y != m && is_child(routes, y, m) {
                assert(routes[y].drop_last()[i] == t[i]);
                assert(passes(st2.dist, routes2, y, a, i));
            } else if i == t.len() - 1 {
                assert(a == m);
                if y != m {
                    assert(alive(pb, st).contains(y));
                }
            } else {
                assert(act.contains(m));
                assert(shielded(pb, st.dist, routes, act, m, i));
                if est(pb, st.dist, m) >= bar {
                    if y != m {
                        assert(alive(pb, st).contains(y));
                    }
                } else if est(pb, st.dist, y) < bar {
                    assert(through(st.dist, routes, y, a));
                    let kk = choose|kk: int| #[trigger] passes(st.dist, routes, y, a, kk);
                    assert(passes(st2.dist, routes2, y, a, kk));
                }
            }
        }
    }
}

/// After an improving edge, a node that was active stays shielded at hop `i`
/// of its walk.
proof fn lemma_shield_old(
    pb: Problem,
    st: SearchState,
    routes: Routes,
    from: Node,
    k: int,
    n: usize,
    i: int,
)
    requires
        relaxing(pb, st, routes, from, k),
        improves(st, from, edges_from(pb.graph, from.id)[k]),
        with_current(alive(pb, st), Some(from.id)).contains(n),
        n != edges_from(pb.graph, from.id)[k].0,
        0 <= i < routes[n].len() - 1,
    ensures
        shielded(
            pb,
            pb.relax(st, from, edges_from(pb.graph, from.id)[k]).dist,
            relaxed_routes(st, routes, from, edges_from(pb.graph, from.id)[k]),
            with_current(
                alive(pb, pb.relax(st, from, edges_from(pb.graph, from.id)[k])),
                Some(from.id),
            ),
            n,
            i,
        ),
{
    let m = from.id;
    let edge = edges_from(pb.graph, m)[k];
    let v = edge.0;
    let st2 = pb.relax(st, from, edge);
    let routes2 = relaxed_routes(st, routes, from, edge);
    let act = with_current(alive(pb, st), Some(m));
    let act2 = with_current(alive(pb, st2), Some(m));
    lemma_extended_trail(pb, st, routes, from, k);
    lemma_relax_alive(pb, st, routes, from, k);
    let t = routes[m];
    let t2 = t.push(Hop { node: v, at: from.reached + edge.1 });
    assert(routes2[v] == t2);
    assert(route_ok(pb, st.dist, st.prev, routes, m));
    assert(st.dist.contains_key(n));
    assert(route_ok(pb, st.dist, st.prev, routes, n));
    let s = routes[n];
    assert(routes2[n] == s);
    assert(hop_ok(st.dist, routes, n, i));
    let a = s[i].node;
    let bar = s[i].at + pb.estimate(a);
    assert(st2.dist[n] == st.dist[n]);
    assert(st2.dist[m] == st.dist[m]);
    assert(act.contains(m));
    assert(shielded(pb, st.dist, routes, act, n, i));
    if est(pb, st.dist, n) < bar {
        // Only the second way of being shielded is left; so the current
        // node's walk leads over `a`, and `n` was queued from the current
        // node or the current node is estimated no cheaper than the bar.
        assert(st.dist[a] == s[i].at);
        assert(est(pb, st.dist, m) >= bar || through(st.dist, routes, m, a));
        let child = n != m && is_child(routes, n, m);
        if n != m {
            assert(alive(pb, st).contains(n));
            assert(est(pb, st.dist, n) >= est(pb, st.dist, m) || is_child(routes, n, m));
        }
        if child {
            assert(s.drop_last()[i] == t[i]);
            assert(hop_ok(st.dist, routes, m, i));
            assert(passes(st.dist, routes, m, a, i));
        } else {
            assert(through(st.dist, routes, m, a));
        }
        let km = choose|km: int| #[trigger] passes(st.dist, routes, m, a, km);
        lemma_edge_leaves_route(pb, st, routes, m, edge, km);
        assert(a != v);
        assert(st2.dist[a] == st.dist[a]);
        assert forall|y: usize| #[trigger] act2.contains(y) implies est(pb, st2.dist, y) >= bar
            || through(st2.dist, routes2, y, a) by {
            if y == v {
                assert(t2[km] == t[km]);
                assert(passes(st2.dist, routes2, v, a, km));
            } else {
                assert(act.contains(y));
                assert(st2.dist[y] == st.dist[y]);
                assert(routes2[y] == routes[y]);
                if est(pb, st.dist, y) < bar {
                    assert(through(st.dist, routes, y, a));
                    let ky = choose|ky: int| #[trigger] passes(st.dist, routes, y, a, ky);
                    assert(passes(st2.dist, routes2, y, a, ky));
                }
            }
        }
    }
}

/// An improving edge keeps every active node shielded.
proof fn lemma_relax_guarded(pb: Problem, st: SearchState, routes: Routes, from: Node, k: int)
    requires
        relaxing(pb, st, routes, from, k),
        improves(st, from, edges_from(pb.graph, from.id)[k]),
    ensures
        guarded(
            pb,
            pb.relax(st, from, edges_from(pb.graph, from.id)[k]).dist,
            relaxed_routes(st, routes, from, edges_from(pb.graph, from.id)[k]),
            with_current(
                alive(pb, pb.relax(st, from, edges_from(pb.graph, from.id)[k])),
                Some(from.id),
            ),
        ),
{
    let m = from.id;
    let edge = edges_from(pb.graph, m)[k];
    let v = edge.0;
    let st2 = pb.relax(st, from, edge);
    let routes2 = relaxed_routes(st, routes, from, edge);
    let act = with_current(alive(pb, st), Some(m));
    let act2 = with_current(alive(pb, st2), Some(m));
    lemma_extended_trail(pb, st, routes, from, k);
    lemma_relax_alive(pb, st, routes, from, k);
    assert forall|n: usize, i: int| act2.contains(n) && 0 <= i < routes2[n].len() - 1 implies #[trigger] shielded(
        pb,
        st2.dist,
        routes2,
        act2,
        n,
        i,
    ) by {
        if n == v {
            lemma_shield_new(pb, st, routes, from, k, i);
        } else {
            assert(act.contains(n));
            lemma_shield_old(pb, st, routes, from, k, n, i);
        }
    }
}

/// Following the next edge of the current node keeps the invariant, and
/// leaves the cost of the current node as it is.
pub proof fn lemma_relax(pb: Problem, st: SearchState, routes: Routes, from: Node, k: int)
    requires
        relaxing(pb, st, routes, from, k),
    ensures
        inv(
            pb,
            pb.relax(st, from, edges_from(pb.graph, from.id)[k]),
            relaxed_routes(st, routes, from, edges_from(pb.graph, from.id)[k]),
            Some(from.id),
            k + 1,
        ),
        from.reached == st.dist[from.id],
        pb.relax(st, from, edges_from(pb.graph, from.id)[k]).dist[from.id] == st.dist[from.id],
{
    let m = from.id;
    let edge = edges_from(pb.graph, m)[k];
    assert(route_ok(pb, st.dist, st.prev, routes, m));
    if improves(st, from, edge) {
        lemma_extended_trail(pb, st, routes, from, k);
        lemma_relax_base(pb, st, routes, from, k);
        lemma_relax_covered(pb, st, routes, from, k);
        lemma_relax_floor(pb, st, routes, from, k);
        lemma_relax_guarded(pb, st, routes, from, k);
    } else {
        assert forall|u: usize, j: int|
            #![trigger edges_from(pb.graph, u)[j]]
            st.dist.contains_key(u) && 0 <= j < edges_from(pb.graph, u).len() && !alive(pb, st).contains(
                u,
            ) && !(Some(m) == Some(u) && j >= k + 1) implies settled(
            st.dist,
            u,
            edges_from(pb.graph, u)[j],
        ) by {
            if u == m && j == k {
            } else {
                assert(settled(st.dist, u, edges_from(pb.graph, u)[j]));
            }
        }
    }
}

/// When the goal is the next to leave the frontier, the walk recorded for it
/// is the chain of its predecessors, and its weight is the recorded cost.
pub proof fn lemma_goal_reached(pb: Problem, st: SearchState, routes: Routes, e: Node)
    requires
        inv(pb, st, routes, None, 0),
        is_least(st.frontier, e),
        e.id == pb.end,
    ensures
        st.dist.contains_key(pb.end),
        is_chain(st.prev, nodes_of(routes[pb.end]), pb.end),
        joins(pb.graph, nodes_of(routes[pb.end]), weights_of(routes[pb.end]), pb.start, pb.end),
        total(weights_of(routes[pb.end])) == st.dist[pb.end],
        nodes_of(routes[pb.end]).no_duplicates(),
        pb.start == pb.end ==> nodes_of(routes[pb.end]) == seq![pb.start] && st.dist[pb.end] == 0,
{
    lemma_least_is_floor(pb, st, routes, e);
    let end = pb.end;
    assert(alive(pb, st).contains(end));
    assert(route_ok(pb, st.dist, st.prev, routes, end));
    lemma_distinct_nodes(routes[end]);
    assert forall|y: usize| #[trigger] alive(pb, st).contains(y) implies est(pb, st.dist, end) <= est(
        pb,
        st.dist,
        y,
    ) by {
        assert(e.cost <= est(pb, st.dist, y));
    }
    lemma_tight(pb, st, routes, end);
    let t = routes[end];
    let path = nodes_of(t);
    lemma_trail_is_walk(pb.graph, t);
    assert forall|i: int| 0 < i < path.len() implies st.prev.contains_key(#[trigger] path[i])
        && st.prev[path[i]] == path[i - 1] by {
        let a = t[i].node;
        assert(hop_ok(st.dist, routes, end, i));
        assert(st.dist[t[i].node] == t[i].at);
        assert(routes[a] == t.take(i + 1));
        assert(route_ok(pb, st.dist, st.prev, routes, a));
        assert(t.take(i + 1)[i - 1] == t[i - 1]);
    }
    assert(!st.prev.contains_key(path[0]));
    if pb.start == pb.end {
        assert(path =~= seq![pb.start]);
    }
}

/// Hop `j` of `p` is at an alive node known at no more than the weight of
/// `p` up to it.
pub open spec fn waits_at(pb: Problem, st: SearchState, p: Trail, j: int) -> bool {
    alive(pb, st).contains(p[j].node) && st.dist[p[j].node] <= p[j].at
}

/// Between steps, along any walk from the start: either a node up to hop `i`
/// waits in the frontier at no more than the walk's weight up to it, or the
/// node at hop `i` is known at no more than that.
proof fn lemma_frontier_on_walk(pb: Problem, st: SearchState, routes: Routes, p: Trail, i: int)
    requires
        inv(pb, st, routes, None, 0),
        is_trail(pb.graph, p),
        p[0].node == pb.start,
        0 <= i < p.len(),
    ensures
        (exists|j: int| 0 <= j <= i && #[trigger] waits_at(pb, st, p, j)) || (st.dist.contains_key(
            p[i].node,
        ) && st.dist[p[i].node] <= p[i].at),
    decreases i,
{
    if i > 0 {
        lemma_frontier_on_walk(pb, st, routes, p, i - 1);
        if exists|j: int| 0 <= j <= i - 1 && #[trigger] waits_at(pb, st, p, j) {
            let j = choose|j: int| 0 <= j <= i - 1 && #[trigger] waits_at(pb, st, p, j);
            assert(0 <= j <= i && waits_at(pb, st, p, j));
        } else {
            let u = p[i - 1].node;
            if alive(pb, st).contains(u) {
                assert(waits_at(pb, st, p, i - 1));
            } else {
                assert(step_ok(pb.graph, p, i - 1));
                let w = (p[i].at - p[i - 1].at) as usize;
                assert(has_edge(pb.graph, u, p[i].node, w));
                let k = choose|k: int|
                    0 <= k < edges_from(pb.graph, u).len() && #[trigger] edges_from(pb.graph, u)[k] == (
                        p[i].node,
                        w,
                    );
                assert(settled(st.dist, u, edges_from(pb.graph, u)[k]));
            }
        }
    }
}

/// When the frontier runs empty, no walk leads from the start to the goal.
pub proof fn lemma_unreachable(pb: Problem, st: SearchState, routes: Routes)
    requires
        inv(pb, st, routes, None, 0),
        st.frontier.len() == 0,
    ensures
        !reachable(pb.graph, pb.start, pb.end),
{
    broadcast use vstd::multiset::group_multiset_axioms;

    if reachable(pb.graph, pb.start, pb.end) {
        let (nodes, weights) = choose|nodes: Seq<usize>, weights: Seq<usize>|
            joins(pb.graph, nodes, weights, pb.start, pb.end);
        lemma_walk_is_trail(pb.graph, nodes, weights);
        let p = trail_of(nodes, weights);
        assert(p[0].node == nodes[0]);
        assert(p[p.len() - 1].node == nodes[p.len() - 1]);
        lemma_frontier_on_walk(pb, st, routes, p, p.len() - 1);
        assert forall|y: usize| !alive(pb, st).contains(y) by {
            let ey = pb.entry(y, st.dist[y] as int);
            assert(st.frontier.count(ey) <= st.frontier.len());
        }
        assert(st.dist.contains_key(pb.end));
        assert(alive(pb, st).contains(pb.end));
    }
}

/// Under an admissible estimate, when the goal is the next to leave the
/// frontier, no walk from the start to the goal weighs less than the cost
/// recorded for the goal.
pub proof fn lemma_optimal(
    pb: Problem,
    st: SearchState,
    routes: Routes,
    e: Node,
    nodes: Seq<usize>,
    weights: Seq<usize>,
)
    requires
        inv(pb, st, routes, None, 0),
        is_least(st.frontier, e),
        e.id == pb.end,
        pb.admissible(),
        joins(pb.graph, nodes, weights, pb.start, pb.end),
    ensures
        st.dist.contains_key(pb.end),
        st.dist[pb.end] <= total(weights),
{
    lemma_least_is_floor(pb, st, routes, e);
    lemma_walk_is_trail(pb.graph, nodes, weights);
    let p = trail_of(nodes, weights);
    let last = p.len() - 1;
    assert(p[0].node == nodes[0]);
    assert(p[last].node == nodes[last]);
    lemma_frontier_on_walk(pb, st, routes, p, last);
    if !(st.dist.contains_key(p[last].node) && st.dist[p[last].node] <= p[last].at) {
        let j = choose|j: int| 0 <= j <= last && #[trigger] waits_at(pb, st, p, j);
        let u = p[j].node;
        assert(u == nodes[j]);
        assert(route_ok(pb, st.dist, st.prev, routes, u));
        lemma_trail_is_walk(pb.graph, routes[u]);
        assert(joins(pb.graph, nodes_of(routes[u]), weights_of(routes[u]), pb.start, u));
        let rest_nodes = nodes.skip(j);
        let rest_weights = weights.skip(j);
        assert forall|i: int| 0 <= i < rest_weights.len() implies has_edge(
            pb.graph,
            #[trigger] rest_nodes[i],
            rest_nodes[i + 1],
            rest_weights[i],
        ) by {
            assert(has_edge(pb.graph, nodes[j + i], nodes[j + i + 1], weights[j + i]));
        }
        assert(is_walk(pb.graph, rest_nodes, rest_weights));
        assert(rest_nodes.last() == pb.end);
        assert(rest_nodes[0] == u);
        lemma_total_split(weights, j);
        assert(est(pb, st.dist, pb.end) <= est(pb, st.dist, u));
    }
}

} // verus!
