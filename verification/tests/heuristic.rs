use pathfinder::algorithms::heuristic::{axis_gap, heuristic};

#[test]
fn manhattan_distance_of_the_corner_nodes() {
    assert_eq!(heuristic((0, 0), (2, 1)), 3);
    assert_eq!(heuristic((2, 1), (0, 0)), 3);
}

#[test]
fn distance_to_itself_is_zero() {
    assert_eq!(heuristic((0, 0), (0, 0)), 0);
    assert_eq!(heuristic((-7, 12), (-7, 12)), 0);
}

#[test]
fn negative_coordinates() {
    assert_eq!(heuristic((-3, 4), (2, -1)), 10);
    assert_eq!(heuristic((-3, -4), (-5, -9)), 7);
}

#[test]
fn one_axis_only() {
    assert_eq!(heuristic((5, 0), (-5, 0)), 10);
    assert_eq!(heuristic((0, -8), (0, 1)), 9);
}

#[test]
fn gap_across_the_whole_axis() {
    assert_eq!(axis_gap(isize::MIN, isize::MAX), usize::MAX);
    assert_eq!(axis_gap(isize::MAX, isize::MIN), usize::MAX);
    assert_eq!(axis_gap(isize::MIN, isize::MIN), 0);
    assert_eq!(axis_gap(isize::MAX, 0), isize::MAX as usize);
}

#[test]
fn largest_distance_that_fits() {
    assert_eq!(heuristic((isize::MIN, 0), (isize::MAX, 0)), usize::MAX);
    assert_eq!(heuristic((isize::MIN, 3), (-1, 3)), isize::MAX as usize);
}
