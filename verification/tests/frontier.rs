use pathfinder::algorithms::frontier::{Frontier, Node};

fn entry(id: usize, reached: usize, heuristic: usize) -> Node {
    Node { id, cost: reached + heuristic, reached, heuristic }
}

#[test]
fn new_frontier_is_empty() {
    let mut frontier = Frontier::new();
    assert!(frontier.is_empty());
    assert_eq!(frontier.len(), 0);
    assert_eq!(frontier.pop(), None);
}

#[test]
fn entries_leave_by_rising_cost() {
    let mut frontier = Frontier::new();
    for (id, reached, heuristic) in [(1, 5, 2), (2, 1, 1), (3, 9, 0), (4, 0, 3), (5, 2, 2)] {
        frontier.push(entry(id, reached, heuristic));
    }
    assert_eq!(frontier.len(), 5);
    let mut ids = Vec::new();
    while let Some(node) = frontier.pop() {
        ids.push(node.id);
    }
    assert_eq!(ids, vec![2, 4, 5, 1, 3]);
    assert!(frontier.is_empty());
}

#[test]
fn equal_cost_goes_to_the_lower_identifier() {
    let mut frontier = Frontier::new();
    frontier.push(entry(9, 2, 2));
    frontier.push(entry(3, 1, 3));
    frontier.push(entry(6, 4, 0));
    assert_eq!(frontier.pop(), Some(entry(3, 1, 3)));
    assert_eq!(frontier.pop(), Some(entry(6, 4, 0)));
    assert_eq!(frontier.pop(), Some(entry(9, 2, 2)));
    assert_eq!(frontier.pop(), None);
}

#[test]
fn equal_cost_and_identifier_goes_to_the_lower_cost_so_far() {
    let mut frontier = Frontier::new();
    frontier.push(entry(4, 3, 1));
    frontier.push(entry(4, 1, 3));
    frontier.push(entry(4, 2, 2));
    assert_eq!(frontier.pop().map(|node| node.reached), Some(1));
    assert_eq!(frontier.pop().map(|node| node.reached), Some(2));
    assert_eq!(frontier.pop().map(|node| node.reached), Some(3));
}

#[test]
fn equal_entries_are_both_kept() {
    let mut frontier = Frontier::new();
    frontier.push(entry(1, 1, 1));
    frontier.push(entry(1, 1, 1));
    assert_eq!(frontier.len(), 2);
    assert_eq!(frontier.pop(), Some(entry(1, 1, 1)));
    assert_eq!(frontier.len(), 1);
    assert_eq!(frontier.pop(), Some(entry(1, 1, 1)));
    assert_eq!(frontier.pop(), None);
}

#[test]
fn pushes_and_pops_may_alternate() {
    let mut frontier = Frontier::new();
    frontier.push(entry(1, 10, 0));
    frontier.push(entry(2, 4, 0));
    assert_eq!(frontier.pop().map(|node| node.id), Some(2));
    frontier.push(entry(3, 1, 0));
    frontier.push(entry(4, 20, 0));
    assert_eq!(frontier.pop().map(|node| node.id), Some(3));
    assert_eq!(frontier.pop().map(|node| node.id), Some(1));
    assert_eq!(frontier.pop().map(|node| node.id), Some(4));
    assert!(frontier.is_empty());
}

#[test]
fn order_between_two_entries() {
    let cheap = entry(8, 1, 1);
    let dear = entry(2, 3, 4);
    assert!(cheap.goes_before(&dear));
    assert!(!dear.goes_before(&cheap));
    assert!(cheap.goes_before(&cheap));
    assert!(entry(1, 2, 2).goes_before(&entry(2, 1, 3)));
    assert!(!entry(2, 1, 3).goes_before(&entry(1, 2, 2)));
}
