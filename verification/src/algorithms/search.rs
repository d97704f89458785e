//! The search as a mathematical state machine: what is known after each
//! entry has left the frontier, and what the search answers when it stops.

use crate::algorithms::frontier::{is_least, lemma_least_unique, precedes, Node};
use crate::algorithms::graph::{edges_from, is_walk, reachable, total, Adjacency};
use crate::algorithms::heuristic::manhattan;
use vstd::multiset::Multiset;
use vstd::prelude::*;

verus! {

/// One search problem: the graph, where its nodes lie, and the two ends of
/// the path that is wanted.
pub struct Problem {
    pub graph: Adjacency,
    pub positions: Map<usize, (isize, isize)>,
    pub start: usize,
    pub end: usize,
}

/// What the search knows at one moment.
pub struct SearchState {
    /// The least cost found so far from the start to each discovered node.
    pub dist: Map<usize, usize>,
    /// The node from which that cost was reached.
    pub prev: Map<usize, usize>,
    /// The entries that wait to be looked at.
    pub frontier: Multiset<Node>,
}

impl Problem {
    /// The estimated cost from `n` to the goal.
    pub open spec fn estimate(self, n: usize) -> int {
        manhattan(self.positions[n], self.positions[self.end])
    }

    /// The frontier entry for `n` reached at cost `g`.
    pub open spec fn entry(self, n: usize, g: int) -> Node {
        Node {
            id: n,
            cost: (g + self.estimate(n)) as usize,
            reached: g as usize,
            heuristic: self.estimate(n) as usize,
        }
    }

    /// The problem fits the machine whatever way the search takes: the goal
    /// has a position, and so has the end of every walk that leaves the
    /// start and visits no node twice; and the weight of such a walk plus
    /// the estimate at its end fits in `usize`.
    pub open spec fn fits(self) -> bool {
        &&& self.positions.contains_key(self.end)
        &&& forall|nodes: Seq<usize>, weights: Seq<usize>|
            #![trigger is_walk(self.graph, nodes, weights)]
            is_walk(self.graph, nodes, weights) && nodes[0] == self.start
                && nodes.no_duplicates() ==> self.positions.contains_key(nodes.last()) && total(
                weights,
            ) + self.estimate(nodes.last()) <= usize::MAX
    }

    /// At no node that has a position and can be reached from the start
    /// does the estimate exceed the weight of a walk from there to the goal.
    pub open spec fn admissible(self) -> bool {
        forall|nodes: Seq<usize>, weights: Seq<usize>|
            #![trigger is_walk(self.graph, nodes, weights)]
            is_walk(self.graph, nodes, weights) && nodes.last() == self.end
                && self.positions.contains_key(nodes[0]) && reachable(
                self.graph,
                self.start,
                nodes[0],
            ) ==> self.estimate(nodes[0]) <= total(weights)
    }

    /// The state before the first step: the start is known at cost 0 and
    /// waits in the frontier.
    pub open spec fn initial(self) -> SearchState {
        SearchState {
            dist: Map::<usize, usize>::empty().insert(self.start, 0),
            prev: Map::<usize, usize>::empty(),
            frontier: Multiset::<Node>::empty().insert(self.entry(self.start, 0)),
        }
    }

    /// Follows one edge out of `from`: where it leads to a node that is new
    /// or reached more cheaply than before, the node's cost and predecessor
    /// are replaced and the node is queued.
    pub open spec fn relax(self, st: SearchState, from: Node, edge: (usize, usize)) -> SearchState {
        let cand = from.reached + edge.1;
        if !st.dist.contains_key(edge.0) || cand < st.dist[edge.0] {
            SearchState {
                dist: st.dist.insert(edge.0, cand as usize),
                prev: st.prev.insert(edge.0, from.id),
                frontier: st.frontier.insert(self.entry(edge.0, cand)),
            }
        } else {
            st
        }
    }

    /// Follows `edges` out of `from`, in their order.
    pub open spec fn expand(
        self,
        st: SearchState,
        from: Node,
        edges: Seq<(usize, usize)>,
    ) -> SearchState
        decreases edges.len(),
    {
        if edges.len() == 0 {
            st
        } else {
            self.relax(self.expand(st, from, edges.drop_last()), from, edges.last())
        }
    }

    /// One step: the least entry leaves the frontier; unless a cheaper way
    /// to its node has been found since it was queued, the node's edges are
    /// followed.
    pub open spec fn step(self, st: SearchState) -> SearchState {
        let n = least(st.frontier);
        let rest = SearchState { dist: st.dist, prev: st.prev, frontier: st.frontier.remove(n) };
        if st.dist.contains_key(n.id) && n.reached > st.dist[n.id] {
            rest
        } else {
            self.expand(rest, n, edges_from(self.graph, n.id))
        }
    }

    /// The search stops when nothing waits, or when the goal is the next to
    /// leave the frontier.
    pub open spec fn finished(self, st: SearchState) -> bool {
        st.frontier.len() == 0 || least(st.frontier).id == self.end
    }

    /// One edge can be followed within the limits of the machine: where it
    /// improves on its far end, that node has a position, and its new cost
    /// plus its estimate fits in `usize`.
    pub open spec fn can_relax(self, st: SearchState, from: Node, edge: (usize, usize)) -> bool {
        let cand = from.reached + edge.1;
        !st.dist.contains_key(edge.0) || cand < st.dist[edge.0] ==> self.positions.contains_key(
            edge.0,
        ) && cand + self.estimate(edge.0) <= usize::MAX
    }

    /// Each of `edges` can be followed in its turn.
    pub open spec fn can_expand(
        self,
        st: SearchState,
        from: Node,
        edges: Seq<(usize, usize)>,
    ) -> bool
        decreases edges.len(),
    {
        edges.len() == 0 || (self.can_expand(st, from, edges.drop_last()) && self.can_relax(
            self.expand(st, from, edges.drop_last()),
            from,
            edges.last(),
        ))
    }

    /// The step from `st` can be taken.
    pub open spec fn can_step(self, st: SearchState) -> bool {
        let n = least(st.frontier);
        let rest = SearchState { dist: st.dist, prev: st.prev, frontier: st.frontier.remove(n) };
        (st.dist.contains_key(n.id) && n.reached > st.dist[n.id]) || self.can_expand(
            rest,
            n,
            edges_from(self.graph, n.id),
        )
    }

    /// The search can start: both ends have a position, and the estimate at
    /// the start fits in `usize`.
    pub open spec fn can_start(self) -> bool {
        &&& self.positions.contains_key(self.start)
        &&& self.positions.contains_key(self.end)
        &&& self.estimate(self.start) <= usize::MAX
    }

    /// The search has not stopped after `n` steps, nor before.
    pub open spec fn unfinished(self, n: nat) -> bool
        decreases n,
    {
        !self.finished(self.after(n)) && (n == 0 || self.unfinished((n - 1) as nat))
    }

    /// The search runs within the limits of the machine: it can start, and
    /// it can take every step that it comes to. This leaves out the problems
    /// on which the search would look up the position of a node that has
    /// none, or record a cost that, with the estimate, exceeds `usize`.
    pub open spec fn runs(self) -> bool {
        self.can_start() && forall|n: nat| #[trigger] self.unfinished(n) ==> self.can_step(self.after(n))
    }

    /// The state after `n` steps.
    pub open spec fn after(self, n: nat) -> SearchState
        decreases n,
    {
        if n == 0 {
            self.initial()
        } else {
            self.step(self.after((n - 1) as nat))
        }
    }

    /// The search stops after exactly `n` steps.
    pub open spec fn halts_at(self, n: nat) -> bool {
        self.finished(self.after(n)) && (n == 0 || self.unfinished((n - 1) as nat))
    }

    /// What is answered from the state in which the search stopped: nothing
    /// where the frontier ran empty; else the chain of predecessors that
    /// ends in the goal, and the goal's cost.
    pub open spec fn answers(self, st: SearchState, r: Option<(Seq<usize>, usize)>) -> bool {
        match r {
            None => st.frontier.len() == 0,
            Some(found) => {
                &&& st.frontier.len() != 0
                &&& is_chain(st.prev, found.0, self.end)
                &&& st.dist.contains_key(self.end)
                &&& found.1 == st.dist[self.end]
            },
        }
    }

    /// `r` is what the search answers on this problem.
    pub open spec fn is_search_result(self, r: Option<(Seq<usize>, usize)>) -> bool {
        exists|n: nat| #[trigger] self.halts_at(n) && self.answers(self.after(n), r)
    }
}

/// The entry that leaves a frontier next.
pub open spec fn least(frontier: Multiset<Node>) -> Node {
    choose|n: Node| is_least(frontier, n)
}

/// `path` runs along predecessors from a node that has none to `end`.
pub open spec fn is_chain(prev: Map<usize, usize>, path: Seq<usize>, end: usize) -> bool {
    &&& path.len() >= 1
    &&& path.last() == end
    &&& !prev.contains_key(path[0])
    &&& forall|i: int|
        0 < i < path.len() ==> prev.contains_key(#[trigger] path[i]) && prev[path[i]] == path[i - 1]
}

/// A frontier that is not empty has a least entry.
pub proof fn lemma_least_exists(frontier: Multiset<Node>)
    requires
        frontier.len() > 0,
    ensures
        is_least(frontier, least(frontier)),
    decreases frontier.len(),
{
    broadcast use vstd::multiset::group_multiset_axioms;

    let x = frontier.choose();
    let rest = frontier.remove(x);
    assert(frontier.contains(x));
    if rest.len() == 0 {
        assert forall|o: Node| frontier.contains(o) implies precedes(x, o) by {
            if o != x {
                assert(rest.contains(o));
                assert(rest.count(o) <= rest.len());
            }
        }
        assert(is_least(frontier, x));
    } else {
        lemma_least_exists(rest);
        let y = least(rest);
        assert(frontier.contains(y));
        let z = if precedes(x, y) {
            x
        } else {
            y
        };
        assert forall|o: Node| frontier.contains(o) implies precedes(z, o) by {
            if o != x {
                assert(rest.contains(o));
                assert(precedes(y, o));
            }
        }
        assert(is_least(frontier, z));
    }
}

/// The least entry of a frontier is the one entry that precedes all others.
pub proof fn lemma_least_is(frontier: Multiset<Node>, n: Node)
    requires
        is_least(frontier, n),
    ensures
        least(frontier) == n,
{
    lemma_least_unique(frontier, n, least(frontier));
}

/// Two chains of predecessors that end in the same node are the same chain.
pub proof fn lemma_chain_unique(prev: Map<usize, usize>, p: Seq<usize>, q: Seq<usize>, end: usize)
    requires
        is_chain(prev, p, end),
        is_chain(prev, q, end),
    ensures
        p == q,
{
    if p.len() < q.len() {
        lemma_chain_agree(prev, p, q, end, p.len() - 1);
        assert(prev.contains_key(q[q.len() - p.len()]));
    }
    if q.len() < p.len() {
        lemma_chain_agree(prev, p, q, end, q.len() - 1);
        assert(prev.contains_key(p[p.len() - q.len()]));
    }
    assert forall|i: int| 0 <= i < p.len() implies #[trigger] p[i] == q[i] by {
        lemma_chain_agree(prev, p, q, end, p.len() - 1 - i);
    }
    assert(p =~= q);
}

proof fn lemma_chain_agree(prev: Map<usize, usize>, p: Seq<usize>, q: Seq<usize>, end: usize, k: int)
    requires
        is_chain(prev, p, end),
        is_chain(prev, q, end),
        0 <= k < p.len(),
        k < q.len(),
    ensures
        p[p.len() - 1 - k] == q[q.len() - 1 - k],
    decreases k,
{
    if k > 0 {
        lemma_chain_agree(prev, p, q, end, k - 1);
        let i = p.len() - k;
        let j = q.len() - k;
        assert(prev[p[i]] == p[i - 1]);
        assert(prev[q[j]] == q[j - 1]);
    }
}

/// A search that has not stopped after `n` steps had not stopped after
/// fewer.
pub proof fn lemma_unfinished_before(pb: Problem, n: nat, k: nat)
    requires
        pb.unfinished(n),
        k <= n,
    ensures
        !pb.finished(pb.after(k)),
    decreases n,
{
    if k < n {
        lemma_unfinished_before(pb, (n - 1) as nat, k);
    }
}

/// The search is a function of the problem: it has at most one answer.
pub proof fn lemma_search_result_unique(
    pb: Problem,
    a: Option<(Seq<usize>, usize)>,
    b: Option<(Seq<usize>, usize)>,
)
    requires
        pb.is_search_result(a),
        pb.is_search_result(b),
    ensures
        a == b,
{
    let n = choose|n: nat| #[trigger] pb.halts_at(n) && pb.answers(pb.after(n), a);
    let m = choose|m: nat| #[trigger] pb.halts_at(m) && pb.answers(pb.after(m), b);
    if n < m {
        lemma_unfinished_before(pb, (m - 1) as nat, n);
    }
    if m < n {
        lemma_unfinished_before(pb, (n - 1) as nat, m);
    }
    let st = pb.after(n);
    match (a, b) {
        (Some(x), Some(y)) => {
            lemma_chain_unique(st.prev, x.0, y.0, pb.end);
        },
        _ => {},
    }
}

} // verus!
