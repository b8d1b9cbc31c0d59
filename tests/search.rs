use shortest_path::graph::{Edge, NO_PATH};
use shortest_path::load::{insert_edge, load_graph, LoadError};
use shortest_path::search::{get_shortest_path, shortest_distance};
use std::collections::HashMap;

fn text_lines(text: &str) -> Vec<Vec<u8>> {
    text.lines().map(|l| l.as_bytes().to_vec()).collect()
}

fn graph(text: &str) -> HashMap<usize, Vec<Edge>> {
    load_graph(&text_lines(text)).expect("graph should load")
}

#[test]
fn distance_through_middle_vertex() {
    let g = graph("3\n1\n2\n3\n3\n1 2 4\n2 3 1\n1 3 10\n");
    assert_eq!(get_shortest_path(&g, 1, 3), 5);
    assert_eq!(get_shortest_path(&g, 3, 1), 5);
    assert_eq!(get_shortest_path(&g, 1, 2), 4);
}

#[test]
fn no_edges_means_no_path() {
    let g = graph("2\n1\n2\n0\n");
    assert_eq!(get_shortest_path(&g, 1, 2), NO_PATH);
}

#[test]
fn single_vertex_to_itself() {
    let g = graph("1\n1\n0\n");
    assert_eq!(get_shortest_path(&g, 1, 1), 0);
}

#[test]
fn two_components() {
    let g = graph("4\n1\n2\n3\n4\n2\n1 2 7\n3 4 2\n");
    assert_eq!(get_shortest_path(&g, 1, 3), NO_PATH);
    assert_eq!(get_shortest_path(&g, 4, 2), NO_PATH);
    assert_eq!(get_shortest_path(&g, 1, 2), 7);
    assert_eq!(get_shortest_path(&g, 4, 3), 2);
}

#[test]
fn bad_vertex_count_is_parse_error() {
    let r = load_graph(&text_lines("three\n1\n2\n3\n0\n"));
    assert_eq!(r.err(), Some(LoadError::VertexCount));
    assert!(LoadError::VertexCount.is_parse_error());
}

#[test]
fn each_load_error() {
    assert_eq!(load_graph(&text_lines("2\n1\nx\n0\n")).err(), Some(LoadError::VertexId(2)));
    assert_eq!(load_graph(&text_lines("1\n1\n-1\n")).err(), Some(LoadError::EdgeCount(2)));
    assert_eq!(load_graph(&text_lines("2\n1\n2\n1\n1 2\n")).err(), Some(LoadError::EdgeLine(4)));
    assert_eq!(load_graph(&text_lines("2\n1\n2\n1\n1 2 3 4\n")).err(), Some(LoadError::EdgeLine(4)));
    assert_eq!(load_graph(&text_lines("2\n1\n2\n1\n1 5 3\n")).err(), Some(LoadError::UnknownVertex(4)));
    assert!(!LoadError::UnknownVertex(4).is_parse_error());
    assert!(LoadError::EdgeLine(4).is_parse_error());
}

#[test]
fn empty_text_is_empty_graph() {
    let g = graph("");
    assert!(g.is_empty());
}

#[test]
fn edge_count_is_not_enforced() {
    let g = graph("3\n1\n2\n3\n1\n1 2 1\n2 3 1\n");
    assert_eq!(get_shortest_path(&g, 1, 3), 2);
}

#[test]
fn edges_are_undirected() {
    let g = graph("2\n5\n9\n1\n5 9 3\n");
    assert_eq!(g[&5], vec![Edge { id: 9, cost: 3 }]);
    assert_eq!(g[&9], vec![Edge { id: 5, cost: 3 }]);
}

#[test]
fn distance_to_self_is_zero_everywhere() {
    let g = graph("3\n1\n2\n3\n2\n1 2 4\n2 3 1\n");
    for v in [1, 2, 3] {
        assert_eq!(get_shortest_path(&g, v, v), 0);
    }
}

#[test]
fn distance_is_symmetric() {
    let g = graph("5\n1\n2\n3\n4\n5\n6\n1 2 3\n2 3 4\n1 3 9\n3 4 1\n4 5 6\n2 5 20\n");
    for s in 1..=5 {
        for t in 1..=5 {
            assert_eq!(get_shortest_path(&g, s, t), get_shortest_path(&g, t, s));
        }
    }
    assert_eq!(get_shortest_path(&g, 1, 5), 14);
}

#[test]
fn redundant_edge_changes_nothing() {
    let mut g = graph("4\n1\n2\n3\n4\n3\n1 2 3\n2 3 4\n3 4 1\n");
    let before: Vec<usize> = (1..=4).flat_map(|s| (1..=4).map(move |t| (s, t))).map(|(s, t)| get_shortest_path(&g, s, t)).collect();
    assert!(insert_edge(&mut g, 1, 2, 8));
    let after: Vec<usize> = (1..=4).flat_map(|s| (1..=4).map(move |t| (s, t))).map(|(s, t)| get_shortest_path(&g, s, t)).collect();
    assert_eq!(before, after);
    assert_eq!(g[&1], vec![Edge { id: 2, cost: 3 }, Edge { id: 2, cost: 8 }]);
}

#[test]
fn insert_edge_needs_both_ends() {
    let mut g = graph("1\n1\n0\n");
    assert!(!insert_edge(&mut g, 1, 2, 1));
    assert_eq!(g[&1], Vec::<Edge>::new());
    assert_eq!(g.len(), 1);
}

#[test]
fn triangle_inequality() {
    let g = graph("4\n1\n2\n3\n4\n4\n1 2 2\n2 3 2\n1 3 5\n3 4 1\n");
    for s in 1..=4 {
        for m in 1..=4 {
            for t in 1..=4 {
                let d = get_shortest_path(&g, s, t) as u128;
                let via = get_shortest_path(&g, s, m) as u128 + get_shortest_path(&g, m, t) as u128;
                assert!(d <= via);
            }
        }
    }
}

#[test]
fn unreachable_vertex_is_no_path() {
    let g = graph("3\n1\n2\n3\n1\n1 2 1\n");
    assert_eq!(get_shortest_path(&g, 1, 3), NO_PATH);
    assert_eq!(get_shortest_path(&g, 3, 2), NO_PATH);
}

#[test]
fn sums_that_overflow_are_no_path() {
    let text = format!("3\n1\n2\n3\n2\n1 2 {}\n2 3 {}\n", usize::MAX - 1, 5);
    let g = graph(&text);
    assert_eq!(get_shortest_path(&g, 1, 2), usize::MAX - 1);
    assert_eq!(get_shortest_path(&g, 1, 3), NO_PATH);
}

#[test]
fn equal_costs_and_self_loops() {
    let g = graph("4\n1\n2\n3\n4\n5\n1 1 3\n1 2 2\n1 3 2\n2 4 2\n3 4 2\n");
    assert_eq!(get_shortest_path(&g, 1, 4), 4);
    assert_eq!(get_shortest_path(&g, 1, 1), 0);
}

#[test]
fn stale_entries_do_not_change_the_result() {
    // 1 reaches 3 first at cost 10, later at cost 3 through 2.
    let g = graph("4\n1\n2\n3\n4\n4\n1 3 10\n1 2 1\n2 3 2\n3 4 1\n");
    assert_eq!(get_shortest_path(&g, 1, 4), 4);
}

#[test]
fn duplicate_vertex_lines_keep_one_entry() {
    let g = graph("3\n1\n1\n2\n1\n1 2 6\n");
    assert_eq!(g.len(), 2);
    assert_eq!(get_shortest_path(&g, 2, 1), 6);
}

#[test]
fn query_needs_declared_vertices() {
    let g = graph("3\n1\n2\n3\n2\n1 2 4\n2 3 1\n");
    assert_eq!(shortest_distance(&g, 1, 3), Some(5));
    assert_eq!(shortest_distance(&g, 2, 2), Some(0));
    assert_eq!(shortest_distance(&g, 1, 7), None);
    assert_eq!(shortest_distance(&g, 7, 7), None);
}
