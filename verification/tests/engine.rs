//! End-to-end tests of the resolution engine: the grid-to-graph builder,
//! the shortest-path resolver, the all-paths enumerator and the rings
//! puzzle solver.

use arena_resolver::{build_graph, find_all_paths, find_shortest_path, solve_rings, Point};
use arena_resolver::{InvalidRingCountError, MalformedGridError, NoPathFoundError};

fn pt(x: usize, y: usize) -> Point {
    Point { x: Some(x), y: Some(y) }
}

#[test]
fn chinese_rings_test() {
    let resp_body = solve_rings(4).unwrap();
    let expected_output = vec![
        vec![false, false, false, false],
        vec![true, false, false, false],
        vec![true, true, false, false],
        vec![false, true, false, false],
        vec![false, true, true, false],
        vec![true, true, true, false],
        vec![true, false, true, false],
        vec![false, false, true, false],
        vec![false, false, true, true],
        vec![true, false, true, true],
        vec![true, true, true, true],
    ];
    assert_eq!(resp_body, expected_output);
}

#[test]
fn labyrinth_test() {
    let matrix_sample: Vec<Vec<i8>> = vec![vec![2, -1, 0], vec![0, -1, 0], vec![0, 0, 1]];
    let (graph, start, end) = build_graph(&matrix_sample).unwrap();
    let resp_body = find_shortest_path(&graph, 3, start, end).unwrap();
    let expected_output = vec![pt(2, 2), pt(2, 1), pt(2, 0), pt(1, 0), pt(0, 0)];
    assert_eq!(resp_body, expected_output);
}

#[test]
fn escape_ways_test() {
    let matrix_sample: Vec<Vec<i8>> = vec![vec![2, 0, 0], vec![0, -1, 0], vec![0, 0, 1]];
    let (graph, start, end) = build_graph(&matrix_sample).unwrap();
    let resp_body = find_all_paths(&graph, 3, start, end);
    let expected_output = vec![
        vec![pt(2, 1), pt(2, 0), pt(1, 0), pt(0, 0)],
        vec![pt(1, 2), pt(0, 2), pt(0, 1), pt(0, 0)],
    ];
    assert_eq!(resp_body, expected_output);
}

#[test]
fn build_graph_locates_markers_and_fields() {
    let matrix: Vec<Vec<i8>> = vec![vec![0, 2], vec![1, -1]];
    let (graph, start, end) = build_graph(&matrix).unwrap();
    assert_eq!(start, 1);
    assert_eq!(end, 2);
    assert_eq!(graph.fields.len(), 4);
    assert_eq!(graph.adjacency.len(), 4);
    let f = graph.fields[2];
    assert_eq!((f.x, f.y, f.passable, f.index), (1, 0, true, 2));
    assert!(!graph.fields[3].passable);
}

#[test]
fn no_edge_touches_a_blocked_field() {
    let matrix: Vec<Vec<i8>> = vec![vec![2, -1, 0], vec![0, -1, 0], vec![0, 0, 1]];
    let (graph, _, _) = build_graph(&matrix).unwrap();
    let blocked: Vec<usize> = vec![1, 4];
    for b in &blocked {
        assert!(graph.adjacency[*b].is_empty());
    }
    for row in &graph.adjacency {
        for nb in row {
            assert!(!blocked.contains(nb));
        }
    }
}

#[test]
fn adjacency_follows_up_down_left_right_order() {
    let matrix: Vec<Vec<i8>> = vec![vec![2, 0, 0], vec![0, 0, 0], vec![0, 0, 1]];
    let (graph, _, _) = build_graph(&matrix).unwrap();
    // centre cell (1, 1) = index 4: up 1, down 7, left 3, right 5
    assert_eq!(graph.adjacency[4], vec![1, 7, 3, 5]);
    // corner cell (0, 0) = index 0: down 3, right 1
    assert_eq!(graph.adjacency[0], vec![3, 1]);
}

#[test]
fn missing_start_marker_is_rejected() {
    let matrix: Vec<Vec<i8>> = vec![vec![0, 0], vec![0, 1]];
    assert_eq!(
        build_graph(&matrix).unwrap_err(),
        MalformedGridError::MissingOrDuplicateMarker
    );
}

#[test]
fn duplicate_start_marker_is_rejected() {
    let matrix: Vec<Vec<i8>> = vec![vec![2, 2], vec![0, 1]];
    assert_eq!(
        build_graph(&matrix).unwrap_err(),
        MalformedGridError::MissingOrDuplicateMarker
    );
}

#[test]
fn missing_end_marker_is_rejected() {
    let matrix: Vec<Vec<i8>> = vec![vec![2, 0], vec![0, 0]];
    assert_eq!(
        build_graph(&matrix).unwrap_err(),
        MalformedGridError::MissingOrDuplicateMarker
    );
}

#[test]
fn non_square_matrix_is_rejected() {
    let matrix: Vec<Vec<i8>> = vec![vec![2, 1, 0]];
    assert_eq!(
        build_graph(&matrix).unwrap_err(),
        MalformedGridError::NonSquareOrEmpty
    );
}

#[test]
fn ragged_matrix_is_rejected() {
    let matrix: Vec<Vec<i8>> = vec![vec![2, 1], vec![0]];
    assert_eq!(
        build_graph(&matrix).unwrap_err(),
        MalformedGridError::NonSquareOrEmpty
    );
}

#[test]
fn walled_off_end_yields_no_path_error() {
    let matrix: Vec<Vec<i8>> = vec![vec![2, -1, 0], vec![-1, -1, 0], vec![0, 0, 1]];
    let (graph, start, end) = build_graph(&matrix).unwrap();
    assert_eq!(find_shortest_path(&graph, 3, start, end), Err(NoPathFoundError));
}

#[test]
fn walled_off_end_yields_empty_enumeration() {
    let matrix: Vec<Vec<i8>> = vec![vec![2, -1, 0], vec![-1, -1, 0], vec![0, 0, 1]];
    let (graph, start, end) = build_graph(&matrix).unwrap();
    let paths = find_all_paths(&graph, 3, start, end);
    assert!(paths.is_empty());
}

#[test]
fn shortest_path_never_longer_than_any_enumerated_path() {
    let matrix: Vec<Vec<i8>> = vec![vec![2, 0, 0], vec![0, -1, 0], vec![0, 0, 1]];
    let (graph, start, end) = build_graph(&matrix).unwrap();
    let best = find_shortest_path(&graph, 3, start, end).unwrap();
    let best_edges = best.len() - 1;
    for path in find_all_paths(&graph, 3, start, end) {
        // an enumerated path omits the end point, so it has path.len() edges
        assert!(best_edges <= path.len());
    }
}

#[test]
fn zero_rings_is_rejected() {
    assert_eq!(solve_rings(0).unwrap_err(), InvalidRingCountError);
}

#[test]
fn one_ring_solves_in_one_move() {
    assert_eq!(solve_rings(1).unwrap(), vec![vec![false], vec![true]]);
}

#[test]
fn two_rings_solve_in_two_moves() {
    assert_eq!(
        solve_rings(2).unwrap(),
        vec![vec![false, false], vec![true, false], vec![true, true]]
    );
}

#[test]
fn ring_moves_are_single_legal_toggles() {
    let states = solve_rings(5).unwrap();
    assert!(states[0].iter().all(|b| !*b));
    assert!(states[states.len() - 1].iter().all(|b| *b));
    for w in states.windows(2) {
        let (a, b) = (&w[0], &w[1]);
        let diffs: Vec<usize> = (0..a.len()).filter(|i| a[*i] != b[*i]).collect();
        assert_eq!(diffs.len(), 1);
        let k = diffs[0];
        let legal = k == 0 || (a[k - 1] && a[..k - 1].iter().all(|b2| !*b2));
        assert!(legal);
    }
}
