use pathfinder::algorithms::astar::astar;
use std::collections::HashMap;

fn graph_of(edges: &[(usize, usize, usize)]) -> HashMap<usize, Vec<(usize, usize)>> {
    let mut graph: HashMap<usize, Vec<(usize, usize)>> = HashMap::new();
    for &(from, to, weight) in edges {
        graph.entry(from).or_insert_with(Vec::new).push((to, weight));
    }
    graph
}

fn positions_of(places: &[(usize, isize, isize)]) -> HashMap<usize, (isize, isize)> {
    let mut positions = HashMap::new();
    for &(node, x, y) in places {
        positions.insert(node, (x, y));
    }
    positions
}

fn square() -> (HashMap<usize, Vec<(usize, usize)>>, HashMap<usize, (isize, isize)>) {
    (
        graph_of(&[(1, 2, 1), (1, 3, 4), (2, 3, 1), (3, 4, 1)]),
        positions_of(&[(1, 0, 0), (2, 1, 0), (3, 1, 1), (4, 2, 1), (5, 3, 3)]),
    )
}

/// The least weight of a walk between two nodes, by repeated relaxation of
/// every edge.
fn least_weight(
    graph: &HashMap<usize, Vec<(usize, usize)>>,
    nodes: usize,
    start: usize,
    end: usize,
) -> Option<usize> {
    let mut best: Vec<Option<usize>> = vec![None; nodes];
    best[start] = Some(0);
    for _ in 0..nodes {
        for (from, edges) in graph {
            if let Some(so_far) = best[*from] {
                for &(to, weight) in edges {
                    let through = so_far + weight;
                    if best[to].map_or(true, |known| through < known) {
                        best[to] = Some(through);
                    }
                }
            }
        }
    }
    best[end]
}

/// Whether `path` is a walk in `graph` for which some choice of edges adds
/// up to `cost`.
fn walk_weighs(graph: &HashMap<usize, Vec<(usize, usize)>>, path: &[usize], cost: usize) -> bool {
    let mut sums: Vec<usize> = vec![0];
    for pair in path.windows(2) {
        let mut next: Vec<usize> = Vec::new();
        if let Some(edges) = graph.get(&pair[0]) {
            for &(to, weight) in edges {
                if to == pair[1] {
                    for sum in &sums {
                        next.push(sum + weight);
                    }
                }
            }
        }
        sums = next;
    }
    sums.contains(&cost)
}

#[test]
fn finds_the_cheaper_of_two_routes() {
    let (graph, positions) = square();
    assert_eq!(astar(&graph, 1, 4, &positions), Some((vec![1, 2, 3, 4], 3)));
}

#[test]
fn unreachable_node_gives_none() {
    let (graph, positions) = square();
    assert_eq!(astar(&graph, 1, 5, &positions), None);
}

#[test]
fn edges_are_directed() {
    let (graph, positions) = square();
    assert_eq!(astar(&graph, 4, 1, &positions), None);
    assert_eq!(astar(&graph, 3, 2, &positions), None);
}

#[test]
fn path_to_itself_is_one_node_at_no_cost() {
    let (graph, positions) = square();
    for node in 1..=5usize {
        assert_eq!(astar(&graph, node, node, &positions), Some((vec![node], 0)));
    }
}

#[test]
fn path_to_itself_ignores_loops_and_cycles() {
    let graph = graph_of(&[(0, 0, 3), (0, 1, 1), (1, 0, 1)]);
    let positions = positions_of(&[(0, 0, 0), (1, 1, 0)]);
    assert_eq!(astar(&graph, 0, 0, &positions), Some((vec![0], 0)));
}

#[test]
fn empty_graph() {
    let graph: HashMap<usize, Vec<(usize, usize)>> = HashMap::new();
    let positions = positions_of(&[(0, 0, 0), (1, 5, 5)]);
    assert_eq!(astar(&graph, 0, 1, &positions), None);
    assert_eq!(astar(&graph, 1, 1, &positions), Some((vec![1], 0)));
}

#[test]
fn single_edge() {
    let graph = graph_of(&[(7, 9, 12)]);
    let positions = positions_of(&[(7, -3, 4), (9, 2, -1)]);
    assert_eq!(astar(&graph, 7, 9, &positions), Some((vec![7, 9], 12)));
}

#[test]
fn takes_the_lightest_of_parallel_edges() {
    let graph = graph_of(&[(0, 1, 9), (0, 1, 4), (0, 1, 6), (1, 2, 5), (1, 2, 3)]);
    let positions = positions_of(&[(0, 0, 0), (1, 1, 0), (2, 2, 0)]);
    assert_eq!(astar(&graph, 0, 2, &positions), Some((vec![0, 1, 2], 7)));
}

#[test]
fn follows_edges_of_weight_zero() {
    let graph = graph_of(&[(0, 1, 0), (1, 2, 0), (2, 0, 0), (2, 3, 0)]);
    let positions = positions_of(&[(0, 0, 0), (1, 0, 0), (2, 0, 0), (3, 0, 0)]);
    assert_eq!(astar(&graph, 0, 3, &positions), Some((vec![0, 1, 2, 3], 0)));
}

#[test]
fn a_cheaper_way_found_later_replaces_the_first() {
    // Node 3 is first reached at cost 10 and is queued; the way over 2 then
    // brings it down to 4, and the entry queued first must be passed over.
    let graph = graph_of(&[(1, 3, 10), (1, 2, 2), (2, 3, 2), (3, 4, 10)]);
    let positions = positions_of(&[(1, 0, 0), (2, 1, 0), (3, 2, 0), (4, 3, 0)]);
    assert_eq!(astar(&graph, 1, 4, &positions), Some((vec![1, 2, 3, 4], 14)));
}

#[test]
fn goal_reached_twice_keeps_the_cheaper_cost() {
    let graph = graph_of(&[(0, 2, 9), (0, 1, 1), (1, 2, 1)]);
    let positions = positions_of(&[(0, 0, 0), (1, 1, 0), (2, 2, 0)]);
    assert_eq!(astar(&graph, 0, 2, &positions), Some((vec![0, 1, 2], 2)));
}

#[test]
fn ties_go_to_the_lower_identifier() {
    // Both routes cost 2 and the two middle nodes share a position.
    let graph = graph_of(&[(0, 2, 1), (0, 1, 1), (2, 3, 1), (1, 3, 1)]);
    let positions = positions_of(&[(0, 0, 0), (1, 1, 0), (2, 1, 0), (3, 2, 0)]);
    assert_eq!(astar(&graph, 0, 3, &positions), Some((vec![0, 1, 3], 2)));
}

#[test]
fn repeated_calls_agree() {
    let graph = graph_of(&[(0, 2, 1), (0, 1, 1), (2, 3, 1), (1, 3, 1), (3, 0, 2), (3, 4, 7)]);
    let positions = positions_of(&[(0, 0, 0), (1, 1, 0), (2, 0, 1), (3, 1, 1), (4, 4, 5)]);
    for end in 0..5usize {
        let first = astar(&graph, 0, end, &positions);
        for _ in 0..10 {
            assert_eq!(astar(&graph, 0, end, &positions), first);
        }
    }
}

#[test]
fn inadmissible_estimate_still_gives_a_true_path() {
    // The straight edge is cheap but the node on the cheapest route lies far
    // off, so the estimate there overshoots.
    let graph = graph_of(&[(0, 1, 1), (1, 3, 1), (0, 2, 2), (2, 3, 2)]);
    let positions = positions_of(&[(0, 0, 0), (1, 50, 50), (2, 1, 0), (3, 2, 0)]);
    let (path, cost) = astar(&graph, 0, 3, &positions).unwrap();
    assert_eq!(path, vec![0, 2, 3]);
    assert_eq!(cost, 4);
    assert!(walk_weighs(&graph, &path, cost));
}

#[test]
fn cost_is_the_least_weight_on_a_grid() {
    // A 5 x 5 grid, each node joined to its right and lower neighbours by
    // edges that weigh at least the distance of 1 between them.
    let side: usize = 5;
    let mut edges: Vec<(usize, usize, usize)> = Vec::new();
    let mut places: Vec<(usize, isize, isize)> = Vec::new();
    for y in 0..side {
        for x in 0..side {
            let node = y * side + x;
            places.push((node, x as isize, y as isize));
            if x + 1 < side {
                edges.push((node, node + 1, 1 + (node * 7 + 3) % 5));
                edges.push((node + 1, node, 1 + (node * 5 + 1) % 4));
            }
            if y + 1 < side {
                edges.push((node, node + side, 1 + (node * 3 + 2) % 6));
                edges.push((node + side, node, 1 + (node * 11 + 4) % 3));
            }
        }
    }
    let graph = graph_of(&edges);
    let positions = positions_of(&places);
    for start in 0..side * side {
        for end in 0..side * side {
            let (path, cost) = astar(&graph, start, end, &positions).unwrap();
            assert_eq!(Some(cost), least_weight(&graph, side * side, start, end));
            assert_eq!(path.first(), Some(&start));
            assert_eq!(path.last(), Some(&end));
            assert!(walk_weighs(&graph, &path, cost));
        }
    }
}

#[test]
fn none_exactly_where_nothing_leads_there() {
    let graph = graph_of(&[(0, 1, 2), (1, 2, 2), (2, 0, 2), (3, 4, 1), (4, 3, 1), (2, 5, 0)]);
    let positions =
        positions_of(&[(0, 0, 0), (1, 1, 0), (2, 1, 1), (3, 9, 9), (4, 9, 8), (5, 1, 1)]);
    for start in 0..6usize {
        for end in 0..6usize {
            let result = astar(&graph, start, end, &positions);
            assert_eq!(result.is_none(), least_weight(&graph, 6, start, end).is_none());
            if let Some((path, cost)) = result {
                assert!(walk_weighs(&graph, &path, cost));
            }
        }
    }
}

#[test]
fn arguments_are_left_as_they_were() {
    let (graph, positions) = square();
    let graph_before = graph.clone();
    let positions_before = positions.clone();
    let _ = astar(&graph, 1, 4, &positions);
    assert_eq!(graph, graph_before);
    assert_eq!(positions, positions_before);
}

#[test]
fn neighbour_without_adjacency_entry_is_a_dead_end() {
    let graph = graph_of(&[(1, 2, 1), (1, 3, 5), (3, 4, 1)]);
    let positions = positions_of(&[(1, 0, 0), (2, 1, 0), (3, 0, 1), (4, 1, 1)]);
    assert_eq!(astar(&graph, 1, 4, &positions), Some((vec![1, 3, 4], 6)));
}

#[test]
fn cost_up_to_the_largest_number() {
    let graph = graph_of(&[(0, 1, usize::MAX - 3), (1, 2, 3)]);
    let positions = positions_of(&[(0, 0, 0), (1, 0, 0), (2, 0, 0)]);
    assert_eq!(astar(&graph, 0, 1, &positions), Some((vec![0, 1], usize::MAX - 3)));
    assert_eq!(astar(&graph, 0, 2, &positions), Some((vec![0, 1, 2], usize::MAX)));
}

#[test]
fn an_edge_too_heavy_to_improve_is_passed_over() {
    // From node 2 the edge back to 1 would bring the cost beyond any number,
    // but 1 is known at cost 1 already.
    let graph = graph_of(&[(0, 1, 1), (1, 2, 5), (2, 1, usize::MAX), (2, 3, 1)]);
    let positions = positions_of(&[(0, 0, 0), (1, 1, 0), (2, 2, 0), (3, 3, 0)]);
    assert_eq!(astar(&graph, 0, 3, &positions), Some((vec![0, 1, 2, 3], 7)));
}

#[test]
fn returned_path_visits_no_node_twice() {
    let graph = graph_of(&[(0, 1, 0), (1, 0, 0), (1, 2, 0), (2, 1, 0), (2, 3, 0), (3, 0, 0)]);
    let positions = positions_of(&[(0, 0, 0), (1, 0, 0), (2, 0, 0), (3, 0, 0)]);
    for start in 0..4usize {
        for end in 0..4usize {
            let (path, cost) = astar(&graph, start, end, &positions).unwrap();
            let mut seen = path.clone();
            seen.sort();
            seen.dedup();
            assert_eq!(seen.len(), path.len());
            assert_eq!(cost, 0);
            assert!(walk_weighs(&graph, &path, cost));
        }
    }
}

#[test]
fn far_apart_positions() {
    let graph = graph_of(&[(0, 1, 10)]);
    let positions = positions_of(&[(0, isize::MIN, 0), (1, isize::MAX, 0)]);
    assert_eq!(astar(&graph, 0, 0, &positions), Some((vec![0], 0)));
}
