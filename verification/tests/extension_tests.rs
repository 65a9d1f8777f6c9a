use zx_graph::graph::{CartesianGraph, Graph, GroundGraph, VertexKind};
use zx_graph::phase::Phase;
use zx_graph::simple_graph::GGraph;

#[test]
fn positions_are_per_vertex_metadata() {
    let mut g = GGraph::new();
    let vs = g.add_vertices(2);
    assert_eq!(g.row(vs[0]), Some(0));
    assert_eq!(g.qubit(vs[0]), Some(0));
    assert!(g.set_row(vs[0], 3));
    assert!(g.set_qubit(vs[0], 1));
    assert!(g.set_position(vs[1], 2, 5));
    assert_eq!(g.row(vs[0]), Some(3));
    assert_eq!(g.qubit(vs[0]), Some(1));
    assert_eq!(g.row(vs[1]), Some(5));
    assert_eq!(g.qubit(vs[1]), Some(2));
    assert_eq!(g.row(44), None);
    assert!(!g.set_row(44, 1));
}

#[test]
fn depth_is_one_past_the_largest_row() {
    let mut g = GGraph::new();
    assert_eq!(g.depth(), 0);
    let vs = g.add_vertices(3);
    assert_eq!(g.depth(), 1);
    g.set_row(vs[1], 4);
    g.set_row(vs[2], 2);
    assert_eq!(g.depth(), 5);
    g.remove_vertex(vs[1]);
    assert_eq!(g.depth(), 3);
}

#[test]
fn qubit_count_counts_distinct_lines() {
    let mut g = GGraph::new();
    assert_eq!(g.qubit_count(), 0);
    let vs = g.add_vertices(4);
    assert_eq!(g.qubit_count(), 1);
    g.set_qubit(vs[1], 1);
    g.set_qubit(vs[2], 1);
    g.set_qubit(vs[3], 7);
    assert_eq!(g.qubit_count(), 3);
}

#[test]
fn grounds_lists_marked_vertices_in_order() {
    let mut g = GGraph::new();
    let vs = g.add_vertices(3);
    assert!(g.grounds().is_empty());
    assert!(g.set_ground(vs[2], true));
    assert!(g.set_ground(vs[0], true));
    assert_eq!(g.grounds(), vec![vs[0], vs[2]]);
    assert!(g.set_ground(vs[2], false));
    assert_eq!(g.grounds(), vec![vs[0]]);
    assert!(!g.set_ground(9, true));
    let v = g.add_vertex(VertexKind::Z, Phase::zero());
    assert!(g.vertex(v).is_some());
    g.remove_vertex(vs[0]);
    assert!(g.grounds().is_empty());
}
