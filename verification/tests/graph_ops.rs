use matrix_graph::Graph;
use matrix_graph::GraphError;

/// Reads the whole matrix back through the public accessor, row by row.
fn matrix_snapshot(g: &Graph) -> Vec<Vec<usize>> {
    let n = g.vertex_count();
    let mut rows: Vec<Vec<usize>> = Vec::new();
    let mut x = 0;
    while x < n {
        let mut row: Vec<usize> = Vec::new();
        let mut y = 0;
        while y < n {
            row.push(g.get_edge_value(x, y));
            y += 1;
        }
        rows.push(row);
        x += 1;
    }
    rows
}

#[test]
fn new_succeeds_on_matching_dimensions() {
    let g = Graph::new(vec![0; 9], vec![1, 2, 3]).unwrap();
    assert_eq!(g.vertex_count(), 3);
    assert_eq!(g.get_vertex_value(0), Some(1));
    assert_eq!(g.get_vertex_value(2), Some(3));
}

#[test]
fn new_accepts_empty_graph() {
    let g = Graph::new(Vec::new(), Vec::new()).unwrap();
    assert_eq!(g.vertex_count(), 0);
    assert_eq!(g.get_vertex_value(0), None);
}

#[test]
fn new_reports_dimension_mismatch() {
    let r = Graph::new(vec![0; 8], vec![1, 2, 3]);
    assert_eq!(
        r.unwrap_err(),
        GraphError::MatrixDimensionMismatch { matrix_len: 8, vertex_count: 3, expected_len: 9 }
    );
}

#[test]
fn edges_stay_symmetric_after_mutations() {
    let mut g = Graph::new(vec![0; 9], vec![10, 20, 30]).unwrap();
    g.add_edge(0, 1, 5);
    g.add_edge(1, 2, 7);
    g.add_edge(0, 2, 3);
    g.remove_edge(0, 1);
    g.add_edge(2, 2, 4);
    g.remove_edge(2, 0);
    for x in 0..3 {
        for y in 0..3 {
            assert_eq!(g.get_edge_value(x, y), g.get_edge_value(y, x));
        }
    }
}

#[test]
fn adjacent_agrees_with_positive_edge_value() {
    let mut g = Graph::new(vec![0; 16], vec![1, 2, 3, 4]).unwrap();
    g.add_edge(0, 1, 5);
    g.add_edge(2, 3, 1);
    for x in 0..4 {
        for y in 0..4 {
            assert_eq!(g.adjacent(x, y), g.get_edge_value(x, y) > 0);
        }
    }
}

#[test]
fn edge_round_trip() {
    let mut g = Graph::new(vec![0; 9], vec![1, 2, 3]).unwrap();
    g.add_edge(0, 2, 5);
    assert_eq!(g.get_edge_value(0, 2), 5);
    assert_eq!(g.get_edge_value(2, 0), 5);
    g.remove_edge(0, 2);
    assert_eq!(g.get_edge_value(0, 2), 0);
    assert_eq!(g.get_edge_value(2, 0), 0);
}

#[test]
fn grow_and_shrink_round_trip() {
    let mut g = Graph::new(vec![0; 4], vec![10, 20]).unwrap();
    g.add_edge(0, 1, 9);
    let count = g.add_vertex(30);
    assert_eq!(count, 3);
    assert_eq!(g.vertex_count(), 3);
    assert!(g.adjacent(0, 1));
    assert!(!g.adjacent(0, 2));
    assert!(!g.adjacent(1, 2));
    g.add_edge(0, 2, 4);
    g.remove_vertex(1);
    assert_eq!(g.vertex_count(), 2);
    assert_eq!(g.get_vertex_value(0), Some(10));
    assert_eq!(g.get_vertex_value(1), Some(30));
    assert_eq!(g.get_edge_value(0, 1), 4);
    assert_eq!(g.get_edge_value(1, 0), 4);
}

#[test]
fn neighbors_lists_adjacent_vertices_in_order() {
    let mut g = Graph::new(vec![0; 16], vec![1, 2, 3, 4]).unwrap();
    g.add_edge(0, 3, 2);
    g.add_edge(0, 1, 6);
    assert_eq!(g.neighbors(0), vec![1, 3]);
    assert_eq!(g.neighbors(1), vec![0]);
    assert_eq!(g.neighbors(2), Vec::<usize>::new());
}

#[test]
fn remove_edge_is_idempotent() {
    let mut g = Graph::new(vec![0; 9], vec![1, 2, 3]).unwrap();
    g.add_edge(0, 1, 5);
    g.add_edge(1, 2, 7);
    g.remove_edge(0, 1);
    let after_first = matrix_snapshot(&g);
    g.remove_edge(0, 1);
    assert_eq!(matrix_snapshot(&g), after_first);
}

#[test]
fn add_vertex_keeps_old_entries_and_isolates_the_new_vertex() {
    let mut g = Graph::new(vec![0; 9], vec![1, 2, 3]).unwrap();
    g.add_edge(0, 1, 5);
    g.add_edge(1, 2, 7);
    let count = g.add_vertex(4);
    assert_eq!(count, 4);
    assert_eq!(g.get_edge_value(0, 1), 5);
    assert_eq!(g.get_edge_value(1, 2), 7);
    for i in 0..4 {
        assert_eq!(g.get_edge_value(i, 3), 0);
        assert_eq!(g.get_edge_value(3, i), 0);
    }
    assert_eq!(g.get_vertex_value(3), Some(4));
}

#[test]
fn remove_vertex_shifts_higher_indices_down() {
    let mut g = Graph::new(vec![0; 16], vec![10, 20, 30, 40]).unwrap();
    g.add_edge(0, 2, 5);
    g.add_edge(2, 3, 8);
    g.remove_vertex(1);
    assert_eq!(g.vertex_count(), 3);
    assert_eq!(g.get_vertex_value(0), Some(10));
    assert_eq!(g.get_vertex_value(1), Some(30));
    assert_eq!(g.get_vertex_value(2), Some(40));
    assert_eq!(g.get_edge_value(0, 1), 5);
    assert_eq!(g.get_edge_value(1, 2), 8);
    assert_eq!(g.get_edge_value(0, 2), 0);
}

#[test]
fn set_edge_value_writes_one_direction_only() {
    let mut g = Graph::new(vec![0; 9], vec![1, 2, 3]).unwrap();
    g.add_edge(0, 1, 5);
    g.set_edge_value(0, 1, 9);
    assert_eq!(g.get_edge_value(0, 1), 9);
    assert_eq!(g.get_edge_value(1, 0), 5);
    assert!(g.adjacent(1, 0));
}

#[test]
fn vertex_values_can_be_read_and_overwritten() {
    let mut g = Graph::new(vec![0; 4], vec![10, 20]).unwrap();
    assert_eq!(g.get_vertex_value(1), Some(20));
    assert_eq!(g.get_vertex_value(2), None);
    g.set_vertex_value(1, 99);
    assert_eq!(g.get_vertex_value(1), Some(99));
    assert_eq!(g.get_vertex_value(0), Some(10));
    assert_eq!(g.get_edge_value(0, 1), 0);
}

#[test]
fn zero_cost_edge_means_absent() {
    let mut g = Graph::new(vec![0; 4], vec![1, 2]).unwrap();
    g.add_edge(0, 1, 0);
    assert!(!g.adjacent(0, 1));
    assert_eq!(g.neighbors(0), Vec::<usize>::new());
}
