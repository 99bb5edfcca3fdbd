use drawrs::geometry::Point;
use drawrs::index::build_spatial_index;
use drawrs::trace::{find_connected_components, find_next_point};

fn pt(x: i32, y: i32) -> Point {
    Point::new(x, y)
}

#[test]
fn empty_input_yields_an_empty_path_list() {
    let lines = find_connected_components(Vec::new(), 3);
    assert!(lines.is_empty());
}

#[test]
fn near_equilateral_triangle_traces_one_path_from_the_smallest_point() {
    // Three points with pairwise squared distances 16, 13 and 13, all below
    // the squared radius of 25.
    let points = vec![pt(2, 3), pt(4, 0), pt(0, 0)];
    let lines = find_connected_components(points, 5);
    assert_eq!(lines.len(), 1);
    // The walk starts at the scan-order minimum and greedily takes the
    // nearer remaining point.
    assert_eq!(lines[0], vec![pt(0, 0), pt(2, 3), pt(4, 0)]);
}

#[test]
fn paths_of_two_points_or_fewer_are_dropped() {
    let points = vec![pt(0, 0), pt(1, 0)];
    let lines = find_connected_components(points, 3);
    assert!(lines.is_empty());
}

#[test]
fn the_paths_partition_the_drawable_points() {
    // One row of three connected points, and one far-away point that forms
    // a discarded single-point path.
    let points = vec![pt(0, 0), pt(1, 0), pt(2, 0), pt(50, 50)];
    let lines = find_connected_components(points, 2);
    assert_eq!(lines.len(), 1);
    assert_eq!(lines[0], vec![pt(0, 0), pt(1, 0), pt(2, 0)]);
    let mut seen = Vec::new();
    for line in &lines {
        for p in line {
            assert!(!seen.contains(p));
            seen.push(*p);
        }
    }
}

#[test]
fn longer_paths_come_first() {
    // A four-point chain and a three-point chain, far apart.
    let points = vec![
        pt(100, 0),
        pt(101, 0),
        pt(102, 0),
        pt(0, 0),
        pt(1, 0),
        pt(2, 0),
        pt(3, 0),
    ];
    let lines = find_connected_components(points, 1);
    assert_eq!(lines.len(), 2);
    assert_eq!(lines[0].len(), 4);
    assert_eq!(lines[1].len(), 3);
    assert_eq!(lines[0][0], pt(0, 0));
    assert_eq!(lines[1][0], pt(100, 0));
}

#[test]
fn equal_length_paths_are_ordered_by_starting_point() {
    let points = vec![pt(40, 0), pt(41, 0), pt(42, 0), pt(0, 0), pt(1, 0), pt(2, 0)];
    let lines = find_connected_components(points, 1);
    assert_eq!(lines.len(), 2);
    assert_eq!(lines[0][0], pt(0, 0));
    assert_eq!(lines[1][0], pt(40, 0));
}

#[test]
fn negative_coordinates_bucket_correctly() {
    let points = vec![pt(-3, -1), pt(-2, -1), pt(-1, -1)];
    let lines = find_connected_components(points, 2);
    assert_eq!(lines.len(), 1);
    assert_eq!(lines[0], vec![pt(-3, -1), pt(-2, -1), pt(-1, -1)]);
}

#[test]
fn find_next_point_returns_the_nearest_unvisited_point() {
    let points = vec![pt(0, 0), pt(5, 5), pt(2, 1)];
    let index = build_spatial_index(&points, 6);
    let visited = vec![true, false, false];
    let found = find_next_point(pt(0, 0), &index, &visited, 6);
    assert_eq!(found, Some(2));
}

#[test]
fn find_next_point_sees_nothing_outside_the_radius() {
    let points = vec![pt(0, 0), pt(50, 50)];
    let index = build_spatial_index(&points, 3);
    let visited = vec![true, false];
    let found = find_next_point(pt(0, 0), &index, &visited, 3);
    assert_eq!(found, None);
}

#[test]
fn zero_radius_keeps_every_point_alone() {
    let points = vec![pt(0, 0), pt(1, 0), pt(0, 1)];
    let lines = find_connected_components(points, 0);
    assert!(lines.is_empty());
}
