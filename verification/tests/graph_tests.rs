use zx_graph::graph::{EData, EdgeKind, Graph, GraphError, GroundData, VData, VertexKind};
use zx_graph::phase::Phase;
use zx_graph::simple_graph::GGraph;

#[test]
fn new_graph_is_empty() {
    let g = GGraph::new();
    assert_eq!(g.num_vertices(), 0);
    assert_eq!(g.num_edges(), 0);
    assert!(g.vertices().is_empty());
    assert!(g.edges().is_empty());
    assert!(g.inputs().is_empty());
    assert!(g.outputs().is_empty());
}

#[test]
fn add_vertices_returns_fresh_handles_in_order() {
    let mut g = GGraph::new();
    let vs = g.add_vertices(3);
    assert_eq!(vs, vec![0, 1, 2]);
    assert_eq!(g.num_vertices(), 3);
    assert_eq!(g.vertices(), vec![0, 1, 2]);
    let vd = g.vertex(0).unwrap();
    assert_eq!(vd.kind(), VertexKind::Boundary);
    assert_eq!(vd.phase(), Phase::zero());
}

#[test]
fn add_vertex_sets_kind_and_phase_atomically() {
    let mut g = GGraph::new();
    let v = g.add_vertex(VertexKind::Z, Phase::new(1, 2));
    let vd = g.vertex(v).unwrap();
    assert_eq!(vd.kind(), VertexKind::Z);
    assert_eq!(vd.phase(), Phase::new(1, 2));
}

#[test]
fn add_edge_requires_live_endpoints() {
    let mut g = GGraph::new();
    let vs = g.add_vertices(2);
    let e = g.add_edge(vs[0], vs[1], EdgeKind::Regular).unwrap();
    assert_eq!(g.num_edges(), 1);
    assert_eq!(g.edge(e).unwrap().kind(), EdgeKind::Regular);
    assert_eq!(
        g.add_edge(vs[0], 17, EdgeKind::Regular),
        Err(GraphError::MissingEndpoint)
    );
    assert_eq!(g.num_edges(), 1);
}

#[test]
fn add_edge_is_order_independent() {
    let mut g1 = GGraph::new();
    let vs = g1.add_vertices(2);
    let e1 = g1.add_edge(vs[0], vs[1], EdgeKind::Hadam).unwrap();
    let mut g2 = GGraph::new();
    let ws = g2.add_vertices(2);
    let e2 = g2.add_edge(ws[1], ws[0], EdgeKind::Hadam).unwrap();
    assert_eq!(g1.edge_endpoints(e1), g2.edge_endpoints(e2));
    assert!(g1.connected(vs[0], vs[1]));
    assert!(g1.connected(vs[1], vs[0]));
}

#[test]
fn degree_matches_neighbour_enumeration() {
    let mut g = GGraph::new();
    let vs = g.add_vertices(3);
    g.add_edge(vs[0], vs[1], EdgeKind::Regular).unwrap();
    g.add_edge(vs[0], vs[2], EdgeKind::Regular).unwrap();
    // a multi-edge and a self-loop
    g.add_edge(vs[0], vs[1], EdgeKind::Hadam).unwrap();
    g.add_edge(vs[0], vs[0], EdgeKind::Regular).unwrap();
    for &v in &g.vertices() {
        assert_eq!(g.vertex_degree(v), g.neighbours(v).len());
    }
    assert_eq!(g.vertex_degree(vs[0]), 4);
    assert_eq!(g.neighbours(vs[0]), vec![vs[1], vs[2], vs[1], vs[0]]);
    assert_eq!(g.vertex_degree(vs[1]), 2);
}

#[test]
fn removing_a_vertex_cascades_to_incident_edges() {
    let mut g = GGraph::new();
    let vs = g.add_vertices(4);
    g.add_edge(vs[0], vs[1], EdgeKind::Regular).unwrap();
    g.add_edge(vs[0], vs[2], EdgeKind::Regular).unwrap();
    g.add_edge(vs[2], vs[3], EdgeKind::Regular).unwrap();
    assert_eq!(g.vertex_degree(vs[0]), 2);
    g.remove_vertex(vs[0]);
    assert_eq!(g.num_vertices(), 3);
    assert_eq!(g.num_edges(), 1);
    assert!(g.vertex(vs[0]).is_none());
    // re-removing is a no-op
    g.remove_vertex(vs[0]);
    assert_eq!(g.num_vertices(), 3);
    assert_eq!(g.num_edges(), 1);
}

#[test]
fn removing_an_absent_handle_twice_changes_nothing() {
    let mut g = GGraph::new();
    let vs = g.add_vertices(2);
    g.add_edge(vs[0], vs[1], EdgeKind::Regular).unwrap();
    let before = (g.num_vertices(), g.num_edges(), g.vertices(), g.edges());
    g.remove_vertex(99);
    let once = (g.num_vertices(), g.num_edges(), g.vertices(), g.edges());
    g.remove_vertex(99);
    let twice = (g.num_vertices(), g.num_edges(), g.vertices(), g.edges());
    assert_eq!(before, once);
    assert_eq!(once, twice);
}

#[test]
fn stale_handles_resolve_to_none() {
    let mut g = GGraph::new();
    let vs = g.add_vertices(2);
    let e = g.add_edge(vs[0], vs[1], EdgeKind::Regular).unwrap();
    g.remove_edge(e);
    assert!(g.edge(e).is_none());
    assert!(g.edge_endpoints(e).is_none());
    g.remove_vertex(vs[1]);
    assert!(g.vertex(vs[1]).is_none());
    // the other vertex's handle is still valid
    assert!(g.vertex(vs[0]).is_some());
}

#[test]
fn batch_removals_apply_in_order() {
    let mut g = GGraph::new();
    let vs = g.add_vertices(3);
    let e1 = g.add_edge(vs[0], vs[1], EdgeKind::Regular).unwrap();
    let e2 = g.add_edge(vs[1], vs[2], EdgeKind::Regular).unwrap();
    g.remove_edges(vec![e1, e2, e1]);
    assert_eq!(g.num_edges(), 0);
    g.remove_vertices(vec![vs[0], vs[2]]);
    assert_eq!(g.num_vertices(), 1);
    assert_eq!(g.vertices(), vec![vs[1]]);
}

#[test]
fn input_output_marking_is_ordered_and_consistent() {
    let mut g = GGraph::new();
    let vs = g.add_vertices(3);
    g.set_input(vs[2], true);
    g.set_input(vs[0], true);
    g.set_output(vs[1], true);
    assert_eq!(g.inputs(), vec![vs[2], vs[0]]);
    assert_eq!(g.outputs(), vec![vs[1]]);
    assert!(g.is_input(vs[0]));
    assert!(!g.is_input(vs[1]));
    assert!(g.is_output(vs[1]));
    // marking twice does not duplicate
    g.set_input(vs[0], true);
    assert_eq!(g.inputs(), vec![vs[2], vs[0]]);
    // unmarking removes from the ordered sequence
    g.set_input(vs[2], false);
    assert_eq!(g.inputs(), vec![vs[0]]);
    // removing a designated vertex removes its designation
    g.remove_vertex(vs[0]);
    assert!(g.inputs().is_empty());
    assert!(!g.is_input(vs[0]));
}

#[test]
fn attribute_writes_reach_the_stored_data() {
    let mut g = GGraph::new();
    let v = g.add_vertex(VertexKind::Z, Phase::zero());
    assert!(g.set_phase(v, Phase::new(1, 4)));
    assert!(g.set_vertex_kind(v, VertexKind::X));
    let vd = g.vertex(v).unwrap();
    assert_eq!(vd.phase(), Phase::new(1, 4));
    assert_eq!(vd.kind(), VertexKind::X);
    let w = g.add_vertex(VertexKind::Boundary, Phase::zero());
    let e = g.add_edge(v, w, EdgeKind::Regular).unwrap();
    assert!(g.set_edge_kind(e, EdgeKind::Hadam));
    assert_eq!(g.edge(e).unwrap().kind(), EdgeKind::Hadam);
    // stale handles are reported
    assert!(!g.set_phase(77, Phase::zero()));
    assert!(!g.set_edge_kind(55, EdgeKind::Regular));
}

#[test]
fn vertex_and_edge_payloads_expose_their_attributes() {
    let mut g = GGraph::new();
    let v = g.add_vertex(VertexKind::HBox, Phase::new(1, 3));
    let mut vd = g.vertex(v).unwrap();
    assert_eq!(vd.kind(), VertexKind::HBox);
    vd.set_kind(VertexKind::Z);
    vd.set_phase(Phase::new(1, 2));
    assert_eq!(vd.kind(), VertexKind::Z);
    assert_eq!(vd.phase(), Phase::new(1, 2));
    assert!(!vd.ground());
    vd.set_ground(true);
    assert!(vd.ground());
    let w = g.add_vertex(VertexKind::Boundary, Phase::zero());
    let e = g.add_edge(v, w, EdgeKind::Regular).unwrap();
    let mut ed = g.edge(e).unwrap();
    ed.set_kind(EdgeKind::Hadam);
    assert_eq!(ed.kind(), EdgeKind::Hadam);
}

#[test]
fn adjoint_swaps_io_and_negates_spider_phases() {
    let mut g = GGraph::new();
    let b_in = g.add_vertex(VertexKind::Boundary, Phase::zero());
    let z = g.add_vertex(VertexKind::Z, Phase::new(1, 2));
    let h = g.add_vertex(VertexKind::HBox, Phase::new(1, 4));
    let b_out = g.add_vertex(VertexKind::Boundary, Phase::zero());
    g.add_edge(b_in, z, EdgeKind::Regular).unwrap();
    g.add_edge(z, h, EdgeKind::Hadam).unwrap();
    g.add_edge(h, b_out, EdgeKind::Regular).unwrap();
    g.set_input(b_in, true);
    g.set_output(b_out, true);
    let (nv, ne) = (g.num_vertices(), g.num_edges());
    g.adjoint();
    assert_eq!(g.inputs(), vec![b_out]);
    assert_eq!(g.outputs(), vec![b_in]);
    // the Z spider's phase is negated, the H-box phase is untouched
    assert_eq!(g.vertex(z).unwrap().phase(), Phase::new(3, 2));
    assert_eq!(g.vertex(h).unwrap().phase(), Phase::new(1, 4));
    assert_eq!((g.num_vertices(), g.num_edges()), (nv, ne));
    // the adjoint is an involution
    g.adjoint();
    assert_eq!(g.inputs(), vec![b_in]);
    assert_eq!(g.outputs(), vec![b_out]);
    assert_eq!(g.vertex(z).unwrap().phase(), Phase::new(1, 2));
}

fn two_in_one_out() -> (GGraph, Vec<usize>) {
    // inputs [a1, a2], output [a3], one Z spider wired to all three
    let mut g = GGraph::new();
    let vs = g.add_vertices(4);
    g.set_vertex_kind(vs[3], VertexKind::Z);
    g.add_edge(vs[0], vs[3], EdgeKind::Regular).unwrap();
    g.add_edge(vs[1], vs[3], EdgeKind::Regular).unwrap();
    g.add_edge(vs[2], vs[3], EdgeKind::Regular).unwrap();
    g.set_input(vs[0], true);
    g.set_input(vs[1], true);
    g.set_output(vs[2], true);
    (g, vs)
}

#[test]
fn tensor_concatenates_boundaries_and_sums_counts() {
    let (mut a, avs) = two_in_one_out();
    // b: input [b1], outputs [b2, b3]
    let mut b = GGraph::new();
    let ws = b.add_vertices(3);
    b.add_edge(ws[0], ws[1], EdgeKind::Regular).unwrap();
    b.set_input(ws[0], true);
    b.set_output(ws[1], true);
    b.set_output(ws[2], true);
    let (nva, nea) = (a.num_vertices(), a.num_edges());
    let (nvb, neb) = (b.num_vertices(), b.num_edges());
    let off = 4;  // b's handles shift past a's four slots
    a.tensor(b);
    assert_eq!(a.inputs(), vec![avs[0], avs[1], ws[0] + off]);
    assert_eq!(a.outputs(), vec![avs[2], ws[1] + off, ws[2] + off]);
    assert_eq!(a.num_vertices(), nva + nvb);
    assert_eq!(a.num_edges(), nea + neb);
}

#[test]
fn compose_splices_paired_boundaries() {
    // a: Z spider wired to its single boundary output
    let mut a = GGraph::new();
    let na = a.add_vertex(VertexKind::Z, Phase::zero());
    let o = a.add_vertex(VertexKind::Boundary, Phase::zero());
    a.add_edge(na, o, EdgeKind::Regular).unwrap();
    a.set_output(o, true);
    // b: single boundary input wired to an X spider
    let mut b = GGraph::new();
    let i = b.add_vertex(VertexKind::Boundary, Phase::zero());
    let nb = b.add_vertex(VertexKind::X, Phase::zero());
    b.add_edge(i, nb, EdgeKind::Regular).unwrap();
    b.set_input(i, true);
    b.set_output(nb, true);
    let (nva, nvb) = (a.num_vertices(), b.num_vertices());
    assert!(a.compose(b).is_ok());
    // o and i are gone, their wires fused into one direct edge
    assert_eq!(a.num_vertices(), nva + nvb - 2);
    assert_eq!(a.num_edges(), 1);
    let nb_shifted = nb + 2;  // b's handles shift past a's two slots
    assert!(a.connected(na, nb_shifted));
    assert!(a.inputs().is_empty());
    assert_eq!(a.outputs(), vec![nb_shifted]);
    assert!(a.vertex(o).is_none());
}

#[test]
fn compose_fuses_hadamard_wires() {
    // both spliced wires are Hadamard: the fused wire is plain
    let mut a = GGraph::new();
    let na = a.add_vertex(VertexKind::Z, Phase::zero());
    let o = a.add_vertex(VertexKind::Boundary, Phase::zero());
    a.add_edge(na, o, EdgeKind::Hadam).unwrap();
    a.set_output(o, true);
    let mut b = GGraph::new();
    let i = b.add_vertex(VertexKind::Boundary, Phase::zero());
    let nb = b.add_vertex(VertexKind::Z, Phase::zero());
    b.add_edge(i, nb, EdgeKind::Hadam).unwrap();
    b.set_input(i, true);
    assert!(a.compose(b).is_ok());
    let e = a.edges()[0];
    assert_eq!(a.edge(e).unwrap().kind(), EdgeKind::Regular);
}

#[test]
fn compose_with_mismatched_boundaries_fails_cleanly() {
    let (mut a, _) = two_in_one_out();
    let mut b = GGraph::new();
    let ws = b.add_vertices(2);
    b.set_input(ws[0], true);
    b.set_input(ws[1], true);
    let (nva, nea) = (a.num_vertices(), a.num_edges());
    match a.compose(b) {
        Ok(()) => panic!("boundary counts do not match"),
        Err(returned) => {
            assert_eq!(returned.num_vertices(), 2);
            assert_eq!(returned.inputs(), vec![ws[0], ws[1]]);
        }
    }
    assert_eq!((a.num_vertices(), a.num_edges()), (nva, nea));
}

#[test]
fn compose_without_boundaries_is_a_plain_merge() {
    let mut a = GGraph::new();
    a.add_vertex(VertexKind::Z, Phase::zero());
    let mut b = GGraph::new();
    let w = b.add_vertex(VertexKind::X, Phase::zero());
    b.set_output(w, true);
    assert!(a.compose(b).is_ok());
    assert_eq!(a.num_vertices(), 2);
    assert_eq!(a.num_edges(), 0);
    assert_eq!(a.outputs(), vec![w + 1]);
}

#[test]
fn empty_graph_stats_has_no_degree_lines() {
    let g = GGraph::new();
    assert!(g.degree_histogram().is_empty());
    assert_eq!(
        g.stats(),
        "Graph(backend=GGraph-rs, num_vertices=0, num_edges=0)\ndegree distribution: \n"
    );
}

#[test]
fn stats_reports_backend_counts_and_degrees() {
    let mut g = GGraph::new();
    let vs = g.add_vertices(3);
    g.add_edge(vs[0], vs[1], EdgeKind::Regular).unwrap();
    assert_eq!(g.backend(), "GGraph-rs");
    assert_eq!(g.degree_histogram(), vec![(0, 1), (1, 2)]);
    assert_eq!(
        g.stats(),
        "Graph(backend=GGraph-rs, num_vertices=3, num_edges=1)\n\
         degree distribution: \n  0: 1\n  1: 2\n"
    );
}
