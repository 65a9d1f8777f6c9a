//! Kinds, per-element attribute contracts, and the graph capability contract.

use crate::model::{
    count_distinct, depth_of, ground_indices, hist_of, live_indices, nbrs, qubits_of, shift_seq,
    splice_pre, GModel,
};
use crate::phase::Phase;
use vstd::prelude::*;

verus! {

/// Kind of a vertex: a spider in one of the two complementary bases, a
/// boundary point of the diagram, or a generalized Hadamard box.
#[derive(Debug, Clone, Copy, PartialEq, Eq, Structural)]
pub enum VertexKind {
    Z,
    X,
    Boundary,
    HBox,
}

impl Default for VertexKind {
    /// The default vertex kind is `Boundary`.
    fn default() -> (r: VertexKind)
        ensures
            r == VertexKind::Boundary,
    {
        VertexKind::Boundary
    }
}

/// Kind of an edge: a plain wire, or a wire carrying an implicit Hadamard.
#[derive(Debug, Clone, Copy, PartialEq, Eq, Structural)]
pub enum EdgeKind {
    Regular,
    Hadam,
}

impl Default for EdgeKind {
    /// The default edge kind is `Regular`.
    fn default() -> (r: EdgeKind)
        ensures
            r == EdgeKind::Regular,
    {
        EdgeKind::Regular
    }
}

/// Error reported for a malformed mutation request.
#[derive(Debug, Clone, Copy, PartialEq, Eq, Structural)]
pub enum GraphError {
    /// An edge was requested between vertices that do not both exist.
    MissingEndpoint,
}

/// Attributes of a graph's vertex.
#[derive(Debug, Clone, Copy, PartialEq, Eq, Structural)]
pub struct VertexData {
    pub kind: VertexKind,
    pub phase: Phase,
    pub ground: bool,
    pub qubit: u32,
    pub row: u32,
}

/// Attributes of a graph's edge.
#[derive(Debug, Clone, Copy, PartialEq, Eq, Structural)]
pub struct EdgeData {
    pub kind: EdgeKind,
}

/// One stored edge: its kind and its unordered endpoint pair, held
/// normalized with `a <= b` so that the two argument orders of `add_edge`
/// build identical graphs.
#[derive(Debug, Clone, Copy, PartialEq, Eq, Structural)]
pub struct EdgeRec {
    pub kind: EdgeKind,
    pub a: usize,
    pub b: usize,
}

/// The read/write contract of any vertex payload.
pub trait VData: Sized {
    spec fn phase_spec(&self) -> Phase;

    spec fn kind_spec(&self) -> VertexKind;

    fn phase(&self) -> (p: Phase)
        ensures
            p == self.phase_spec(),
    ;

    fn kind(&self) -> (k: VertexKind)
        ensures
            k == self.kind_spec(),
    ;

    fn set_phase(&mut self, p: Phase)
        ensures
            final(self).phase_spec() == p,
            final(self).kind_spec() == old(self).kind_spec(),
    ;

    fn set_kind(&mut self, k: VertexKind)
        ensures
            final(self).kind_spec() == k,
            final(self).phase_spec() == old(self).phase_spec(),
    ;
}

impl VData for VertexData {
    open spec fn phase_spec(&self) -> Phase {
        self.phase
    }

    open spec fn kind_spec(&self) -> VertexKind {
        self.kind
    }

    fn phase(&self) -> (p: Phase) {
        self.phase
    }

    fn kind(&self) -> (k: VertexKind) {
        self.kind
    }

    fn set_phase(&mut self, p: Phase) {
        self.phase = p;
    }

    fn set_kind(&mut self, k: VertexKind) {
        self.kind = k;
    }
}

/// The read/write contract of any edge payload.
pub trait EData: Sized {
    spec fn kind_spec(&self) -> EdgeKind;

    fn kind(&self) -> (k: EdgeKind)
        ensures
            k == self.kind_spec(),
    ;

    fn set_kind(&mut self, k: EdgeKind)
        ensures
            final(self).kind_spec() == k,
    ;
}

impl EData for EdgeData {
    open spec fn kind_spec(&self) -> EdgeKind {
        self.kind
    }

    fn kind(&self) -> (k: EdgeKind) {
        self.kind
    }

    fn set_kind(&mut self, k: EdgeKind) {
        self.kind = k;
    }
}

/// The measurement-marker contract of a vertex payload.
pub trait GroundData: Sized {
    spec fn ground_spec(&self) -> bool;

    fn ground(&self) -> (g: bool)
        ensures
            g == self.ground_spec(),
    ;

    fn set_ground(&mut self, g: bool)
        ensures
            final(self).ground_spec() == g,
    ;
}

impl GroundData for VertexData {
    open spec fn ground_spec(&self) -> bool {
        self.ground
    }

    fn ground(&self) -> (g: bool) {
        self.ground
    }

    fn set_ground(&mut self, g: bool) {
        self.ground = g;
    }
}

/// The text of a diagnostics header for the given backend name and counts.
pub uninterp spec fn fmt_stats_header(backend: Seq<char>, nv: int, ne: int) -> Seq<char>;

/// The text of one line of the degree histogram.
pub uninterp spec fn fmt_degree_line(d: int, c: int) -> Seq<char>;

/// The text of a whole degree histogram, one line per entry.
pub open spec fn degree_lines(h: Seq<(usize, usize)>) -> Seq<char>
    decreases h.len(),
{
    if h.len() == 0 {
        Seq::empty()
    } else {
        degree_lines(h.drop_last()) + fmt_degree_line(h.last().0 as int, h.last().1 as int)
    }
}

/// Relies on std's `format!`: the text is a function of the values alone.
#[verifier::external_body]
pub fn render_stats_header(backend: &'static str, nv: usize, ne: usize) -> (r: String)
    ensures
        r@ == fmt_stats_header(backend@, nv as int, ne as int),
{
    format!(
        "Graph(backend={}, num_vertices={}, num_edges={})\ndegree distribution: \n",
        backend,
        nv,
        ne,
    )
}

/// Relies on std's `format!`: the text is a function of the values alone.
#[verifier::external_body]
pub fn render_degree_line(d: usize, c: usize) -> (r: String)
    ensures
        r@ == fmt_degree_line(d as int, c as int),
{
    format!("  {}: {}\n", d, c)
}

/// The capability contract of an open-multigraph backend.
///
/// Every operation is specified against the backend's [`GModel`]: vertex and
/// edge handles are slot indices into the model's sequences, and each
/// mutation's effect is the corresponding model transform.  `valid` is the
/// backend's representation invariant; every constructor establishes it and
/// every operation preserves it.
pub trait Graph: Sized {
    /// The state this backend presents to its callers.
    spec fn model(&self) -> GModel;

    /// The backend's representation invariant.
    spec fn valid(&self) -> bool;

    /// The backend's identity, as reported by `stats`.
    spec fn backend_spec() -> Seq<char>;

    /// A valid backend always presents a well-formed model.
    proof fn lemma_valid_wf(&self)
        requires
            self.valid(),
        ensures
            self.model().wf(),
    ;

    /// An empty diagram.
    fn new() -> (g: Self)
        ensures
            g.valid(),
            g.model() == GModel::empty(),
    ;

    /// Name of the graph backend.
    fn backend(&self) -> (s: &'static str)
        ensures
            s@ == Self::backend_spec(),
    ;

    /// Vertex count of the graph.
    fn num_vertices(&self) -> (n: usize)
        requires
            self.valid(),
        ensures
            n == self.model().vcount(),
    ;

    /// Edge count of the graph.
    fn num_edges(&self) -> (n: usize)
        requires
            self.valid(),
        ensures
            n == self.model().ecount(),
    ;

    /// Handles of all live vertices, in ascending order.
    fn vertices(&self) -> (r: Vec<usize>)
        requires
            self.valid(),
        ensures
            r@ == live_indices(self.model().verts),
    ;

    /// Handles of all live edges, in ascending order.
    fn edges(&self) -> (r: Vec<usize>)
        requires
            self.valid(),
        ensures
            r@ == live_indices(self.model().edges),
    ;

    /// Vertex data, or `None` for a stale or out-of-range handle.
    fn vertex(&self, v: usize) -> (r: Option<VertexData>)
        requires
            self.valid(),
        ensures
            r == if self.model().v_live(v) {
                self.model().verts[v as int]
            } else {
                None::<VertexData>
            },
    ;

    /// Edge data, or `None` for a stale or out-of-range handle.
    fn edge(&self, e: usize) -> (r: Option<EdgeData>)
        requires
            self.valid(),
        ensures
            r == if self.model().e_live(e) {
                Some(EdgeData { kind: self.model().edges[e as int].unwrap().kind })
            } else {
                None::<EdgeData>
            },
    ;

    /// The two endpoints of an edge (equal for a self-loop), or `None` for a
    /// stale handle.
    fn edge_endpoints(&self, e: usize) -> (r: Option<(usize, usize)>)
        requires
            self.valid(),
        ensures
            r == if self.model().e_live(e) {
                Some(
                    (
                        self.model().edges[e as int].unwrap().a,
                        self.model().edges[e as int].unwrap().b,
                    ),
                )
            } else {
                None::<(usize, usize)>
            },
    ;

    /// Number of edges incident to `v`; a self-loop counts once, so this
    /// always equals the length of `neighbours(v)`.
    fn vertex_degree(&self, v: usize) -> (n: usize)
        requires
            self.valid(),
        ensures
            n == self.model().degree(v),
    ;

    /// Neighbours of `v`, one entry per incident edge in edge-slot order.
    fn neighbours(&self, v: usize) -> (r: Vec<usize>)
        requires
            self.valid(),
        ensures
            r@ == nbrs(self.model().edges, v),
            r@.len() == self.model().degree(v),
    ;

    /// Whether any edge of any kind connects the two vertices.
    fn connected(&self, v: usize, u: usize) -> (r: bool)
        requires
            self.valid(),
        ensures
            r == self.model().connected(v, u),
            r == self.model().connected(u, v),
    ;

    /// Whether `v` is currently designated as an input.
    fn is_input(&self, v: usize) -> (r: bool)
        requires
            self.valid(),
        ensures
            r == self.model().inputs.contains(v),
    ;

    /// Whether `v` is currently designated as an output.
    fn is_output(&self, v: usize) -> (r: bool)
        requires
            self.valid(),
        ensures
            r == self.model().outputs.contains(v),
    ;

    /// The designated inputs, in designation order.
    fn inputs(&self) -> (r: Vec<usize>)
        requires
            self.valid(),
        ensures
            r@ == self.model().inputs,
    ;

    /// The designated outputs, in designation order.
    fn outputs(&self) -> (r: Vec<usize>)
        requires
            self.valid(),
        ensures
            r@ == self.model().outputs,
    ;

    /// Designate `v` as an input (appending to the ordered sequence) or
    /// withdraw the designation.
    fn set_input(&mut self, v: usize, flag: bool)
        requires
            old(self).valid(),
        ensures
            final(self).valid(),
            final(self).model() == old(self).model().set_input_m(v, flag),
    ;

    /// Designate `v` as an output, or withdraw the designation.
    fn set_output(&mut self, v: usize, flag: bool)
        requires
            old(self).valid(),
        ensures
            final(self).valid(),
            final(self).model() == old(self).model().set_output_m(v, flag),
    ;

    /// Add `count` unconnected vertices with default attributes, returning
    /// their fresh handles in creation order.
    fn add_vertices(&mut self, count: usize) -> (r: Vec<usize>)
        requires
            old(self).valid(),
            old(self).model().verts.len() + count <= usize::MAX,
        ensures
            final(self).valid(),
            final(self).model() == old(self).model().add_verts(count as nat),
            r@ == Seq::new(count as nat, |i: int| (old(self).model().verts.len() + i) as usize),
    ;

    /// Add a single vertex with the given kind and phase, atomically.
    fn add_vertex(&mut self, kind: VertexKind, phase: Phase) -> (v: usize)
        requires
            old(self).valid(),
            phase.canonical(),
            old(self).model().verts.len() < usize::MAX,
        ensures
            final(self).valid(),
            final(self).model() == old(self).model().add_vertex_m(kind, phase),
            v == old(self).model().verts.len(),
    ;

    /// Add an edge of the given kind between two existing vertices; fails
    /// without touching the graph if either endpoint does not exist.
    fn add_edge(&mut self, v: usize, u: usize, kind: EdgeKind) -> (r: Result<usize, GraphError>)
        requires
            old(self).valid(),
            old(self).model().edges.len() < usize::MAX,
        ensures
            final(self).valid(),
            r is Ok <==> old(self).model().v_live(v) && old(self).model().v_live(u),
            r matches Ok(e) ==> e == old(self).model().edges.len() && final(self).model()
                == old(self).model().add_edge_m(v, u, kind),
            r is Err ==> final(self).model() == old(self).model() && r == Err::<
                usize,
                GraphError,
            >(GraphError::MissingEndpoint),
    ;

    /// Transform the diagram into its adjoint, in place: input and output
    /// roles swap, and every spider's phase is negated modulo 2.  Vertex and
    /// edge counts, connectivity and edge kinds are unchanged.
    fn adjoint(&mut self)
        requires
            old(self).valid(),
        ensures
            final(self).valid(),
            final(self).model() == old(self).model().adjoint_m(),
    ;

    /// Parallel composition, in place: `other` is drained into this graph
    /// with its handles shifted past this graph's slots, and the boundary
    /// sequences concatenate (this graph's first).  No edges are added or
    /// removed beyond what each graph already had.
    fn tensor(&mut self, other: Self)
        requires
            old(self).valid(),
            other.valid(),
            old(self).model().verts.len() + other.model().verts.len() <= usize::MAX,
            old(self).model().edges.len() + other.model().edges.len() <= usize::MAX,
        ensures
            final(self).valid(),
            final(self).model() == old(self).model().tensor_m(other.model()),
    ;

    /// Sequential composition, in place: `other` is drained into this graph,
    /// and this graph's ordered outputs are spliced pairwise with `other`'s
    /// ordered inputs at the same position.  Each spliced boundary pair
    /// disappears and its two wires fuse into one direct wire (two Hadamard
    /// halves cancel to a plain wire).  The composite keeps this graph's
    /// inputs and takes `other`'s outputs.  On a boundary count mismatch
    /// nothing happens and `other` is handed back unchanged.
    fn compose(&mut self, other: Self) -> (r: Result<(), Self>)
        requires
            old(self).valid(),
            other.valid(),
            old(self).model().verts.len() + other.model().verts.len() <= usize::MAX,
            old(self).model().edges.len() + other.model().edges.len() + old(
                self,
            ).model().outputs.len() <= usize::MAX,
            old(self).model().outputs.len() == other.model().inputs.len() ==> splice_pre(
                old(self).model().merge_m(other.model()),
                old(self).model().outputs,
                shift_seq(other.model().inputs, old(self).model().verts.len() as nat),
            ),
        ensures
            final(self).valid(),
            r is Ok <==> old(self).model().outputs.len() == other.model().inputs.len(),
            r is Ok ==> final(self).model() == old(self).model().compose_m(other.model()),
            r matches Err(g) ==> g == other && final(self).model() == old(self).model(),
    ;

    /// Remove a vertex and every edge incident to it; removing an absent
    /// handle is a no-op.
    fn remove_vertex(&mut self, v: usize)
        requires
            old(self).valid(),
        ensures
            final(self).valid(),
            final(self).model() == old(self).model().rm_vertex(v),
    ;

    /// Remove an edge; removing an absent handle is a no-op.
    fn remove_edge(&mut self, e: usize)
        requires
            old(self).valid(),
        ensures
            final(self).valid(),
            final(self).model() == old(self).model().rm_edge(e),
    ;

    /// Remove the given vertices in order, as repeated `remove_vertex`.
    fn remove_vertices(&mut self, vs: Vec<usize>)
        requires
            old(self).valid(),
        ensures
            final(self).valid(),
            final(self).model() == old(self).model().rm_vertices(vs@),
    ;

    /// Remove the given edges in order, as repeated `remove_edge`.
    fn remove_edges(&mut self, es: Vec<usize>)
        requires
            old(self).valid(),
        ensures
            final(self).valid(),
            final(self).model() == old(self).model().rm_edges(es@),
    ;

    /// Overwrite the phase of a live vertex; reports whether the handle was
    /// live.  A stale handle changes nothing.
    fn set_phase(&mut self, v: usize, p: Phase) -> (r: bool)
        requires
            old(self).valid(),
            p.canonical(),
        ensures
            final(self).valid(),
            r == old(self).model().v_live(v),
            final(self).model() == (if old(self).model().v_live(v) {
                old(self).model().set_vdata(
                    v,
                    VertexData { phase: p, ..old(self).model().verts[v as int].unwrap() },
                )
            } else {
                old(self).model()
            }),
    ;

    /// Overwrite the kind of a live vertex; a stale handle changes nothing.
    fn set_vertex_kind(&mut self, v: usize, k: VertexKind) -> (r: bool)
        requires
            old(self).valid(),
        ensures
            final(self).valid(),
            r == old(self).model().v_live(v),
            final(self).model() == (if old(self).model().v_live(v) {
                old(self).model().set_vdata(
                    v,
                    VertexData { kind: k, ..old(self).model().verts[v as int].unwrap() },
                )
            } else {
                old(self).model()
            }),
    ;

    /// Overwrite the kind of a live edge; a stale handle changes nothing.
    fn set_edge_kind(&mut self, e: usize, k: EdgeKind) -> (r: bool)
        requires
            old(self).valid(),
        ensures
            final(self).valid(),
            r == old(self).model().e_live(e),
            final(self).model() == old(self).model().set_ekind(e, k),
    ;

    /// The degree-value histogram: one `(degree, count)` entry, ascending by
    /// degree, for every degree some live vertex has.
    fn degree_histogram(&self) -> (h: Vec<(usize, usize)>)
        requires
            self.valid(),
            self.model().edges.len() < usize::MAX,
        ensures
            h@ == hist_of(self.model()),
    ;

    /// A human-readable summary: backend identity, vertex and edge counts,
    /// and the degree histogram sorted by degree.
    fn stats(&self) -> (s: String)
        requires
            self.valid(),
            self.model().edges.len() < usize::MAX,
        ensures
            s@ == fmt_stats_header(
                Self::backend_spec(),
                self.model().vcount() as int,
                self.model().ecount() as int,
            ) + degree_lines(hist_of(self.model())),
    ;
}

/// A graph whose vertices carry a 2-D layout: a qubit line and a row.  The
/// coordinates are metadata and do not affect connectivity.
pub trait CartesianGraph: Graph {
    /// Row of a vertex, or `None` for a stale handle.
    fn row(&self, v: usize) -> (r: Option<u32>)
        requires
            self.valid(),
        ensures
            r == (if self.model().v_live(v) {
                Some(self.model().verts[v as int].unwrap().row)
            } else {
                None::<u32>
            }),
    ;

    /// Qubit line of a vertex, or `None` for a stale handle.
    fn qubit(&self, v: usize) -> (r: Option<u32>)
        requires
            self.valid(),
        ensures
            r == (if self.model().v_live(v) {
                Some(self.model().verts[v as int].unwrap().qubit)
            } else {
                None::<u32>
            }),
    ;

    /// Set the row of a live vertex; a stale handle changes nothing.
    fn set_row(&mut self, v: usize, r: u32) -> (ok: bool)
        requires
            old(self).valid(),
        ensures
            final(self).valid(),
            ok == old(self).model().v_live(v),
            final(self).model() == (if old(self).model().v_live(v) {
                old(self).model().set_vdata(
                    v,
                    VertexData { row: r, ..old(self).model().verts[v as int].unwrap() },
                )
            } else {
                old(self).model()
            }),
    ;

    /// Set the qubit line of a live vertex; a stale handle changes nothing.
    fn set_qubit(&mut self, v: usize, q: u32) -> (ok: bool)
        requires
            old(self).valid(),
        ensures
            final(self).valid(),
            ok == old(self).model().v_live(v),
            final(self).model() == (if old(self).model().v_live(v) {
                old(self).model().set_vdata(
                    v,
                    VertexData { qubit: q, ..old(self).model().verts[v as int].unwrap() },
                )
            } else {
                old(self).model()
            }),
    ;

    /// Set both coordinates of a live vertex at once.
    fn set_position(&mut self, v: usize, q: u32, r: u32) -> (ok: bool)
        requires
            old(self).valid(),
        ensures
            final(self).valid(),
            ok == old(self).model().v_live(v),
            final(self).model() == (if old(self).model().v_live(v) {
                old(self).model().set_vdata(
                    v,
                    VertexData {
                        qubit: q,
                        row: r,
                        ..old(self).model().verts[v as int].unwrap()
                    },
                )
            } else {
                old(self).model()
            }),
    ;

    /// Number of rows: one past the largest row in use, `0` when empty.
    fn depth(&self) -> (d: u64)
        requires
            self.valid(),
        ensures
            d == depth_of(self.model().verts),
    ;

    /// Number of distinct qubit lines in use.
    fn qubit_count(&self) -> (n: usize)
        requires
            self.valid(),
        ensures
            n == count_distinct(qubits_of(self.model().verts)),
    ;
}

/// A graph whose vertices can carry a measurement ("ground") marker.
pub trait GroundGraph: Graph {
    /// Handles of the grounded vertices, in ascending order.
    fn grounds(&self) -> (r: Vec<usize>)
        requires
            self.valid(),
        ensures
            r@ == ground_indices(self.model().verts),
    ;

    /// Mark or unmark a live vertex as grounded; a stale handle changes
    /// nothing.
    fn set_ground(&mut self, v: usize, g: bool) -> (ok: bool)
        requires
            old(self).valid(),
        ensures
            final(self).valid(),
            ok == old(self).model().v_live(v),
            final(self).model() == (if old(self).model().v_live(v) {
                old(self).model().set_vdata(
                    v,
                    VertexData { ground: g, ..old(self).model().verts[v as int].unwrap() },
                )
            } else {
                old(self).model()
            }),
    ;
}

} // verus!
