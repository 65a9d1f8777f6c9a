//! The reference backend: an adjacency-indexed undirected multigraph.
//!
//! Vertices and edges live in slot vectors; a handle is a slot index.  A
//! removed element leaves its slot permanently empty, so handles are stable
//! under addition and a stale handle is detected rather than silently
//! resolving to a newer element.

use crate::graph::{
    degree_lines, fmt_degree_line, fmt_stats_header, render_degree_line, render_stats_header,
    CartesianGraph, EdgeData, EdgeKind, EdgeRec, Graph, GraphError, GroundGraph, VertexData,
    VertexKind,
};
use crate::model::{
    adjoint_slot, adjoint_verts, bnd_ok, clear_inc, count_inc, count_some, is_inc,
    lemma_add_edge_wf, lemma_add_verts_wf, lemma_add_vertex_wf, lemma_adjoint_wf,
    lemma_clear_incident_count, lemma_count_some_le_len, lemma_count_some_push,
    lemma_count_some_update_none, lemma_inc_exists, lemma_inc_unique,
    lemma_nbrs_len, lemma_prefix_step, lemma_remove_val_props, lemma_rm_edge_wf,
    lemma_rm_vertex_wf, lemma_set_io_wf, lemma_splice_step, lemma_take_all, lemma_tensor_wf,
    lemma_the_inc, live_indices, nbrs, remove_val, shift_edge, shift_edges, shift_seq,
    splice_kind, splice_pre, the_inc, the_kind, the_nbr, GModel,
};
use crate::model::{
    count_deg, count_deg_upto, count_distinct, depth_of, ground_indices, hist_of, hist_upto,
    lemma_set_ekind_wf, lemma_set_vdata_wf, qubits_of,
};
use crate::phase::Phase;
use vstd::prelude::*;
use vstd::string::StringExecFns;

verus! {

/// Whether `s` holds `v`.
fn vec_contains(s: &Vec<usize>, v: usize) -> (r: bool)
    ensures
        r == s@.contains(v),
{
    let mut i: usize = 0;
    while i < s.len()
        invariant
            i <= s@.len(),
            forall|j: int| 0 <= j < i ==> s@[j] != v,
        decreases s@.len() - i,
    {
        if s[i] == v {
            return true;
        }
        i += 1;
    }
    false
}

/// A copy of `s` with every occurrence of `v` dropped.
fn vec_remove_val(s: &Vec<usize>, v: usize) -> (r: Vec<usize>)
    ensures
        r@ == remove_val(s@, v),
{
    let mut r: Vec<usize> = Vec::new();
    let mut i: usize = 0;
    while i < s.len()
        invariant
            i <= s@.len(),
            r@ == remove_val(s@.take(i as int), v),
        decreases s@.len() - i,
    {
        proof {
            lemma_prefix_step(s@, i as int);
        }
        if s[i] != v {
            r.push(s[i]);
            proof {
                assert(r@ =~= remove_val(s@.take(i as int), v) + seq![s@[i as int]]);
            }
        }
        i += 1;
    }
    proof {
        lemma_take_all(s@);
    }
    r
}

/// The first slot holding an edge incident to `v`, with its record.
fn find_incident(edges: &Vec<Option<EdgeRec>>, v: usize) -> (r: (usize, EdgeRec))
    requires
        count_inc(edges@, v) >= 1,
    ensures
        r.0 < edges@.len(),
        edges@[r.0 as int] == Some(r.1),
        is_inc(edges@[r.0 as int], v),
{
    let mut e: usize = 0;
    while e < edges.len()
        invariant
            e <= edges@.len(),
            forall|j: int| 0 <= j < e ==> !is_inc(#[trigger] edges@[j], v),
        decreases edges@.len() - e,
    {
        match edges[e] {
            Some(rec) => {
                if rec.a == v || rec.b == v {
                    return (e, rec);
                }
            },
            None => {},
        }
        e += 1;
    }
    proof {
        lemma_inc_exists(edges@, v);
        let w = choose|w: int| 0 <= w < edges@.len() && is_inc(#[trigger] edges@[w], v);
        assert(false);
    }
    (0, EdgeRec { kind: EdgeKind::Regular, a: 0, b: 0 })
}

/// The reference backend over dense slot storage.
pub struct GGraph {
    verts: Vec<Option<VertexData>>,
    edges: Vec<Option<EdgeRec>>,
    inputs: Vec<usize>,
    outputs: Vec<usize>,
    nv: usize,
    ne: usize,
}

impl GGraph {
    /// Overwrite a live vertex slot with new attributes.
    fn put_vdata(&mut self, v: usize, vd: VertexData) -> (r: bool)
        requires
            old(self).valid(),
            vd.phase.canonical(),
        ensures
            final(self).valid(),
            r == old(self).model().v_live(v),
            final(self).model() == (if old(self).model().v_live(v) {
                old(self).model().set_vdata(v, vd)
            } else {
                old(self).model()
            }),
    {
        if v < self.verts.len() && self.verts[v].is_some() {
            self.verts.set(v, Some(vd));
            proof {
                assert(self.model() =~= old(self).model().set_vdata(v, vd));
                lemma_set_vdata_wf(old(self).model(), v, vd);
            }
            true
        } else {
            false
        }
    }
}

impl Graph for GGraph {
    closed spec fn model(&self) -> GModel {
        GModel { verts: self.verts@, edges: self.edges@, inputs: self.inputs@, outputs: self.outputs@ }
    }

    closed spec fn valid(&self) -> bool {
        &&& self.model().wf()
        &&& self.nv == self.model().vcount()
        &&& self.ne == self.model().ecount()
    }

    closed spec fn backend_spec() -> Seq<char> {
        "GGraph-rs"@
    }

    proof fn lemma_valid_wf(&self) {
    }

    fn new() -> (g: Self) {
        let g = GGraph {
            verts: Vec::new(),
            edges: Vec::new(),
            inputs: Vec::new(),
            outputs: Vec::new(),
            nv: 0,
            ne: 0,
        };
        proof {
            assert(g.model() =~= GModel::empty());
        }
        g
    }

    fn backend(&self) -> (s: &'static str) {
        "GGraph-rs"
    }

    fn num_vertices(&self) -> (n: usize) {
        self.nv
    }

    fn num_edges(&self) -> (n: usize) {
        self.ne
    }

    fn vertices(&self) -> (r: Vec<usize>) {
        let mut r: Vec<usize> = Vec::new();
        let mut i: usize = 0;
        while i < self.verts.len()
            invariant
                i <= self.verts@.len(),
                r@ == live_indices(self.verts@.take(i as int)),
            decreases self.verts@.len() - i,
        {
            proof {
                lemma_prefix_step(self.verts@, i as int);
            }
            if self.verts[i].is_some() {
                r.push(i);
                proof {
                    assert(r@ =~= live_indices(self.verts@.take(i as int)) + seq![i]);
                }
            }
            i += 1;
        }
        proof {
            lemma_take_all(self.verts@);
        }
        r
    }

    fn edges(&self) -> (r: Vec<usize>) {
        let mut r: Vec<usize> = Vec::new();
        let mut i: usize = 0;
        while i < self.edges.len()
            invariant
                i <= self.edges@.len(),
                r@ == live_indices(self.edges@.take(i as int)),
            decreases self.edges@.len() - i,
        {
            proof {
                lemma_prefix_step(self.edges@, i as int);
            }
            if self.edges[i].is_some() {
                r.push(i);
                proof {
                    assert(r@ =~= live_indices(self.edges@.take(i as int)) + seq![i]);
                }
            }
            i += 1;
        }
        proof {
            lemma_take_all(self.edges@);
        }
        r
    }

    fn vertex(&self, v: usize) -> (r: Option<VertexData>) {
        if v < self.verts.len() {
            self.verts[v]
        } else {
            None
        }
    }

    fn edge(&self, e: usize) -> (r: Option<EdgeData>) {
        if e < self.edges.len() {
            match self.edges[e] {
                Some(rec) => Some(EdgeData { kind: rec.kind }),
                None => None,
            }
        } else {
            None
        }
    }

    fn edge_endpoints(&self, e: usize) -> (r: Option<(usize, usize)>) {
        if e < self.edges.len() {
            match self.edges[e] {
                Some(rec) => Some((rec.a, rec.b)),
                None => None,
            }
        } else {
            None
        }
    }

    fn vertex_degree(&self, v: usize) -> (n: usize) {
        let mut n: usize = 0;
        let mut e: usize = 0;
        proof {
            lemma_count_some_le_len(self.edges@);
        }
        while e < self.edges.len()
            invariant
                e <= self.edges@.len(),
                n == count_inc(self.edges@.take(e as int), v),
                n <= e,
            decreases self.edges@.len() - e,
        {
            proof {
                lemma_prefix_step(self.edges@, e as int);
            }
            let inc = match self.edges[e] {
                Some(rec) => rec.a == v || rec.b == v,
                None => false,
            };
            if inc {
                n += 1;
            }
            e += 1;
        }
        proof {
            lemma_take_all(self.edges@);
        }
        n
    }

    fn neighbours(&self, v: usize) -> (r: Vec<usize>) {
        let mut r: Vec<usize> = Vec::new();
        let mut e: usize = 0;
        while e < self.edges.len()
            invariant
                e <= self.edges@.len(),
                r@ == nbrs(self.edges@.take(e as int), v),
            decreases self.edges@.len() - e,
        {
            proof {
                lemma_prefix_step(self.edges@, e as int);
            }
            match self.edges[e] {
                Some(rec) => {
                    if rec.a == v {
                        r.push(rec.b);
                        proof {
                            assert(r@ =~= nbrs(self.edges@.take(e as int), v) + seq![rec.b]);
                        }
                    } else if rec.b == v {
                        r.push(rec.a);
                        proof {
                            assert(r@ =~= nbrs(self.edges@.take(e as int), v) + seq![rec.a]);
                        }
                    }
                },
                None => {},
            }
            e += 1;
        }
        proof {
            lemma_take_all(self.edges@);
            lemma_nbrs_len(self.edges@, v);
        }
        r
    }

    fn connected(&self, v: usize, u: usize) -> (r: bool) {
        let mut e: usize = 0;
        while e < self.edges.len()
            invariant
                e <= self.edges@.len(),
                forall|j: int|
                    0 <= j < e ==> !((#[trigger] self.edges@[j]) matches Some(rec)
                        && ((rec.a == v && rec.b == u) || (rec.a == u && rec.b == v))),
            decreases self.edges@.len() - e,
        {
            match self.edges[e] {
                Some(rec) => {
                    if (rec.a == v && rec.b == u) || (rec.a == u && rec.b == v) {
                        proof {
                            assert(self.model().connected(v, u));
                            assert(self.model().connected(u, v));
                        }
                        return true;
                    }
                },
                None => {},
            }
            e += 1;
        }
        false
    }

    fn is_input(&self, v: usize) -> (r: bool) {
        vec_contains(&self.inputs, v)
    }

    fn is_output(&self, v: usize) -> (r: bool) {
        vec_contains(&self.outputs, v)
    }

    fn inputs(&self) -> (r: Vec<usize>) {
        let mut r: Vec<usize> = Vec::new();
        let mut i: usize = 0;
        while i < self.inputs.len()
            invariant
                i <= self.inputs@.len(),
                r@ == self.inputs@.take(i as int),
            decreases self.inputs@.len() - i,
        {
            r.push(self.inputs[i]);
            proof {
                assert(r@ =~= self.inputs@.take(i as int + 1));
            }
            i += 1;
        }
        proof {
            lemma_take_all(self.inputs@);
        }
        r
    }

    fn outputs(&self) -> (r: Vec<usize>) {
        let mut r: Vec<usize> = Vec::new();
        let mut i: usize = 0;
        while i < self.outputs.len()
            invariant
                i <= self.outputs@.len(),
                r@ == self.outputs@.take(i as int),
            decreases self.outputs@.len() - i,
        {
            r.push(self.outputs[i]);
            proof {
                assert(r@ =~= self.outputs@.take(i as int + 1));
            }
            i += 1;
        }
        proof {
            lemma_take_all(self.outputs@);
        }
        r
    }

    fn set_input(&mut self, v: usize, flag: bool) {
        if flag {
            let live = v < self.verts.len() && self.verts[v].is_some();
            if live && !vec_contains(&self.inputs, v) {
                self.inputs.push(v);
            }
            proof {
                assert(self.model() =~= old(self).model().set_input_m(v, true));
                lemma_set_io_wf(old(self).model(), v, true);
            }
        } else {
            let ni = vec_remove_val(&self.inputs, v);
            self.inputs = ni;
            proof {
                assert(self.model() =~= old(self).model().set_input_m(v, false));
                lemma_set_io_wf(old(self).model(), v, false);
            }
        }
    }

    fn set_output(&mut self, v: usize, flag: bool) {
        if flag {
            let live = v < self.verts.len() && self.verts[v].is_some();
            if live && !vec_contains(&self.outputs, v) {
                self.outputs.push(v);
            }
            proof {
                assert(self.model() =~= old(self).model().set_output_m(v, true));
                lemma_set_io_wf(old(self).model(), v, true);
            }
        } else {
            let no = vec_remove_val(&self.outputs, v);
            self.outputs = no;
            proof {
                assert(self.model() =~= old(self).model().set_output_m(v, false));
                lemma_set_io_wf(old(self).model(), v, false);
            }
        }
    }

    fn add_vertices(&mut self, count: usize) -> (r: Vec<usize>) {
        let mut r: Vec<usize> = Vec::new();
        let mut k: usize = 0;
        let base = self.verts.len();
        while k < count
            invariant
                k <= count,
                base == old(self).verts@.len(),
                base + count <= usize::MAX,
                self.verts@ == old(self).verts@ + Seq::new(
                    k as nat,
                    |i: int| Some(
                        VertexData {
                            kind: VertexKind::Boundary,
                            phase: Phase::zero_spec(),
                            ground: false,
                            qubit: 0,
                            row: 0,
                        },
                    ),
                ),
                r@ == Seq::new(k as nat, |i: int| (base + i) as usize),
                self.edges@ == old(self).edges@,
                self.inputs@ == old(self).inputs@,
                self.outputs@ == old(self).outputs@,
                self.ne == old(self).ne,
                self.nv == count_some(self.verts@),
                old(self).valid(),
            decreases count - k,
        {
            let vd = VertexData {
                kind: VertexKind::Boundary,
                phase: Phase::zero(),
                ground: false,
                qubit: 0,
                row: 0,
            };
            proof {
                lemma_count_some_push(self.verts@, Some(vd));
                lemma_count_some_le_len(self.verts@);
            }
            r.push(self.verts.len());
            self.verts.push(Some(vd));
            self.nv = self.nv + 1;
            k += 1;
            proof {
                assert(self.verts@ =~= old(self).verts@ + Seq::new(
                    k as nat,
                    |i: int| Some(
                        VertexData {
                            kind: VertexKind::Boundary,
                            phase: Phase::zero_spec(),
                            ground: false,
                            qubit: 0,
                            row: 0,
                        },
                    ),
                ));
                assert(r@ =~= Seq::new(k as nat, |i: int| (base + i) as usize));
            }
        }
        proof {
            assert(self.model() =~= old(self).model().add_verts(count as nat));
            lemma_add_verts_wf(old(self).model(), count as nat);
        }
        r
    }

    fn add_vertex(&mut self, kind: VertexKind, phase: Phase) -> (v: usize) {
        let v = self.verts.len();
        let vd = VertexData { kind, phase, ground: false, qubit: 0, row: 0 };
        proof {
            lemma_count_some_push(self.verts@, Some(vd));
            lemma_count_some_le_len(self.verts@);
        }
        self.verts.push(Some(vd));
        self.nv = self.nv + 1;
        proof {
            assert(self.model() =~= old(self).model().add_vertex_m(kind, phase));
            lemma_add_vertex_wf(old(self).model(), kind, phase);
        }
        v
    }

    fn add_edge(&mut self, v: usize, u: usize, kind: EdgeKind) -> (r: Result<usize, GraphError>) {
        let v_ok = v < self.verts.len() && self.verts[v].is_some();
        let u_ok = u < self.verts.len() && self.verts[u].is_some();
        if v_ok && u_ok {
            let e = self.edges.len();
            let rec = if v <= u {
                EdgeRec { kind, a: v, b: u }
            } else {
                EdgeRec { kind, a: u, b: v }
            };
            proof {
                lemma_count_some_push(self.edges@, Some(rec));
                lemma_count_some_le_len(self.edges@);
            }
            self.edges.push(Some(rec));
            self.ne = self.ne + 1;
            proof {
                assert(self.model() =~= old(self).model().add_edge_m(v, u, kind));
                lemma_add_edge_wf(old(self).model(), v, u, kind);
            }
            Ok(e)
        } else {
            Err(GraphError::MissingEndpoint)
        }
    }

    fn adjoint(&mut self) {
        core::mem::swap(&mut self.inputs, &mut self.outputs);
        let ghost verts0 = self.verts@;
        let mut i: usize = 0;
        while i < self.verts.len()
            invariant
                i <= self.verts@.len(),
                self.verts@.len() == verts0.len(),
                verts0 == old(self).verts@,
                old(self).valid(),
                self.edges@ == old(self).edges@,
                self.inputs@ == old(self).outputs@,
                self.outputs@ == old(self).inputs@,
                self.nv == old(self).nv,
                self.ne == old(self).ne,
                forall|j: int| 0 <= j < i ==> self.verts@[j] == adjoint_slot(verts0[j]),
                forall|j: int| i <= j < verts0.len() ==> self.verts@[j] == verts0[j],
            decreases verts0.len() - i,
        {
            match self.verts[i] {
                Some(vd) => {
                    if vd.kind == VertexKind::Z || vd.kind == VertexKind::X {
                        proof {
                            assert(old(self).model().vert_ok(i as int));
                        }
                        let np = vd.phase.neg();
                        self.verts.set(
                            i,
                            Some(
                                VertexData {
                                    kind: vd.kind,
                                    phase: np,
                                    ground: vd.ground,
                                    qubit: vd.qubit,
                                    row: vd.row,
                                },
                            ),
                        );
                    }
                },
                None => {},
            }
            i += 1;
        }
        proof {
            assert forall|j: int| 0 <= j < verts0.len() implies self.verts@[j] == adjoint_verts(
                verts0,
            )[j] by {
                assert(adjoint_verts(verts0)[j] == adjoint_slot(verts0[j]));
            }
            assert(self.verts@ =~= adjoint_verts(verts0));
            assert(self.model() =~= old(self).model().adjoint_m());
            lemma_adjoint_wf(old(self).model());
        }
    }

    fn tensor(&mut self, other: Self) {
        let ghost m0 = old(self).model();
        let ghost om = other.model();
        let voff = self.verts.len();
        let mut k: usize = 0;
        while k < other.verts.len()
            invariant
                k <= other.verts@.len(),
                voff == old(self).verts@.len(),
                old(self).valid(),
                other.valid(),
                om == other.model(),
                m0 == old(self).model(),
                old(self).verts@.len() + other.verts@.len() <= usize::MAX,
                old(self).edges@.len() + other.edges@.len() <= usize::MAX,
                self.verts@ == old(self).verts@ + other.verts@.take(k as int),
                self.edges@ == old(self).edges@,
                self.inputs@ == old(self).inputs@,
                self.outputs@ == old(self).outputs@,
                self.nv == count_some(self.verts@),
                self.ne == old(self).ne,
            decreases other.verts@.len() - k,
        {
            proof {
                lemma_prefix_step(other.verts@, k as int);
                lemma_count_some_push(self.verts@, other.verts@[k as int]);
                lemma_count_some_le_len(self.verts@);
            }
            let slot = other.verts[k];
            self.verts.push(slot);
            if slot.is_some() {
                self.nv = self.nv + 1;
            }
            k += 1;
            proof {
                assert(self.verts@ =~= old(self).verts@ + other.verts@.take(k as int));
            }
        }
        proof {
            lemma_take_all(other.verts@);
        }
        let mut k: usize = 0;
        while k < other.edges.len()
            invariant
                k <= other.edges@.len(),
                voff == old(self).verts@.len(),
                old(self).valid(),
                other.valid(),
                om == other.model(),
                m0 == old(self).model(),
                old(self).verts@.len() + other.verts@.len() <= usize::MAX,
                old(self).edges@.len() + other.edges@.len() <= usize::MAX,
                self.verts@ == old(self).verts@ + other.verts@,
                self.edges@ == old(self).edges@ + shift_edges(
                    other.edges@.take(k as int),
                    voff as nat,
                ),
                self.inputs@ == old(self).inputs@,
                self.outputs@ == old(self).outputs@,
                self.nv == count_some(self.verts@),
                self.ne == count_some(self.edges@),
            decreases other.edges@.len() - k,
        {
            proof {
                lemma_prefix_step(other.edges@, k as int);
            }
            match other.edges[k] {
                Some(rec) => {
                    proof {
                        assert(om.edge_ok(k as int));
                        lemma_count_some_push(
                            self.edges@,
                            Some(EdgeRec { kind: rec.kind, a: (rec.a + voff) as usize, b: (rec.b + voff) as usize }),
                        );
                        lemma_count_some_le_len(self.edges@);
                    }
                    let nrec = EdgeRec { kind: rec.kind, a: rec.a + voff, b: rec.b + voff };
                    self.edges.push(Some(nrec));
                    self.ne = self.ne + 1;
                },
                None => {
                    proof {
                        lemma_count_some_push(self.edges@, None::<EdgeRec>);
                    }
                    self.edges.push(None);
                },
            }
            k += 1;
            proof {
                assert forall|j: int| 0 <= j < self.edges@.len() implies self.edges@[j] == (old(
                    self,
                ).edges@ + shift_edges(other.edges@.take(k as int), voff as nat))[j] by {
                    if j >= old(self).edges@.len() {
                        let jj = j - old(self).edges@.len();
                        assert(shift_edges(other.edges@.take(k as int), voff as nat)[jj]
                            == shift_edge(other.edges@.take(k as int)[jj], voff as nat));
                    }
                }
                assert(self.edges@ =~= old(self).edges@ + shift_edges(
                    other.edges@.take(k as int),
                    voff as nat,
                ));
            }
        }
        proof {
            lemma_take_all(other.edges@);
        }
        let mut k: usize = 0;
        while k < other.inputs.len()
            invariant
                k <= other.inputs@.len(),
                voff == old(self).verts@.len(),
                old(self).valid(),
                other.valid(),
                om == other.model(),
                m0 == old(self).model(),
                old(self).verts@.len() + other.verts@.len() <= usize::MAX,
                self.verts@ == old(self).verts@ + other.verts@,
                self.edges@ == old(self).edges@ + shift_edges(other.edges@, voff as nat),
                self.inputs@ == old(self).inputs@ + shift_seq(
                    other.inputs@.take(k as int),
                    voff as nat,
                ),
                self.outputs@ == old(self).outputs@,
                self.nv == count_some(self.verts@),
                self.ne == count_some(self.edges@),
            decreases other.inputs@.len() - k,
        {
            proof {
                lemma_prefix_step(other.inputs@, k as int);
                assert(om.v_live(om.inputs[k as int]));
            }
            let x = other.inputs[k];
            self.inputs.push(x + voff);
            k += 1;
            proof {
                assert forall|j: int| 0 <= j < self.inputs@.len() implies self.inputs@[j] == (old(
                    self,
                ).inputs@ + shift_seq(other.inputs@.take(k as int), voff as nat))[j] by {
                    if j >= old(self).inputs@.len() {
                        let jj = j - old(self).inputs@.len();
                        assert(shift_seq(other.inputs@.take(k as int), voff as nat)[jj] == (
                        (other.inputs@.take(k as int)[jj] + voff as nat) as usize));
                    }
                }
                assert(self.inputs@ =~= old(self).inputs@ + shift_seq(
                    other.inputs@.take(k as int),
                    voff as nat,
                ));
            }
        }
        proof {
            lemma_take_all(other.inputs@);
        }
        let mut k: usize = 0;
        while k < other.outputs.len()
            invariant
                k <= other.outputs@.len(),
                voff == old(self).verts@.len(),
                old(self).valid(),
                other.valid(),
                om == other.model(),
                m0 == old(self).model(),
                old(self).verts@.len() + other.verts@.len() <= usize::MAX,
                self.verts@ == old(self).verts@ + other.verts@,
                self.edges@ == old(self).edges@ + shift_edges(other.edges@, voff as nat),
                self.inputs@ == old(self).inputs@ + shift_seq(other.inputs@, voff as nat),
                self.outputs@ == old(self).outputs@ + shift_seq(
                    other.outputs@.take(k as int),
                    voff as nat,
                ),
                self.nv == count_some(self.verts@),
                self.ne == count_some(self.edges@),
            decreases other.outputs@.len() - k,
        {
            proof {
                lemma_prefix_step(other.outputs@, k as int);
                assert(om.v_live(om.outputs[k as int]));
            }
            let x = other.outputs[k];
            self.outputs.push(x + voff);
            k += 1;
            proof {
                assert forall|j: int| 0 <= j < self.outputs@.len() implies self.outputs@[j] == (
                old(self).outputs@ + shift_seq(other.outputs@.take(k as int), voff as nat))[j] by {
                    if j >= old(self).outputs@.len() {
                        let jj = j - old(self).outputs@.len();
                        assert(shift_seq(other.outputs@.take(k as int), voff as nat)[jj] == (
                        (other.outputs@.take(k as int)[jj] + voff as nat) as usize));
                    }
                }
                assert(self.outputs@ =~= old(self).outputs@ + shift_seq(
                    other.outputs@.take(k as int),
                    voff as nat,
                ));
            }
        }
        proof {
            lemma_take_all(other.outputs@);
            assert(self.model() =~= m0.tensor_m(om));
            lemma_tensor_wf(m0, om);
        }
    }

    fn compose(&mut self, other: Self) -> (r: Result<(), Self>) {
        if self.outputs.len() != other.inputs.len() {
            return Err(other);
        }
        let ghost m0 = old(self).model();
        let ghost om = other.model();
        let ghost voff = self.verts@.len() as nat;
        // set the boundary marking aside: the merge keeps this graph's
        // inputs and takes the other's outputs
        let mut outs: Vec<usize> = Vec::new();
        core::mem::swap(&mut outs, &mut self.outputs);
        let mut ins0: Vec<usize> = Vec::new();
        core::mem::swap(&mut ins0, &mut self.inputs);
        proof {
            let mid = self.model();
            assert forall|e: int| 0 <= e < mid.edges.len() implies mid.edge_ok(e) by {
                assert(m0.edge_ok(e));
            }
            assert forall|w: int| 0 <= w < mid.verts.len() implies mid.vert_ok(w) by {
                assert(m0.vert_ok(w));
            }
        }
        let ghost mid = self.model();
        self.tensor(other);
        let mut ins: Vec<usize> = Vec::new();
        core::mem::swap(&mut ins, &mut self.inputs);
        self.inputs = ins0;
        proof {
            assert(mid.tensor_m(om).inputs =~= shift_seq(om.inputs, voff));
            assert(mid.tensor_m(om).outputs =~= shift_seq(om.outputs, voff));
            assert(ins@ == shift_seq(om.inputs, voff));
            assert(self.model() =~= m0.merge_m(om));
            assert(splice_pre(self.model(), outs@, ins@));
        }
        let ghost merged = self.model();
        let k = outs.len();
        let mut j: usize = 0;
        while j < k
            invariant
                j <= k,
                k == outs@.len(),
                outs@.len() == ins@.len(),
                merged == m0.merge_m(om),
                m0 == old(self).model(),
                self.valid(),
                self.model() == merged.splice_all(outs@.take(j as int), ins@.take(j as int)),
                splice_pre(self.model(), outs@.skip(j as int), ins@.skip(j as int)),
                self.model().edges.len() == merged.edges.len() + j,
                merged.edges.len() + k <= usize::MAX,
            decreases k - j,
        {
            let ghost mcur = self.model();
            let ghost oskip = outs@.skip(j as int);
            let ghost iskip = ins@.skip(j as int);
            let o = outs[j];
            let i = ins[j];
            proof {
                assert(oskip[0] == outs@[j as int] && iskip[0] == ins@[j as int]);
                assert(bnd_ok(mcur, oskip, iskip, o));
                assert(bnd_ok(mcur, oskip, iskip, i));
                lemma_splice_step(mcur, oskip, iskip);
            }
            let (eo, reco) = find_incident(&self.edges, o);
            let (ei, reci) = find_incident(&self.edges, i);
            let na = if reco.a == o {
                reco.b
            } else {
                reco.a
            };
            let nb = if reci.a == i {
                reci.b
            } else {
                reci.a
            };
            let kk = if reco.kind == reci.kind {
                EdgeKind::Regular
            } else {
                EdgeKind::Hadam
            };
            proof {
                lemma_the_inc(mcur.edges, o);
                lemma_the_inc(mcur.edges, i);
                lemma_inc_unique(mcur.edges, o, eo as int, the_inc(mcur.edges, o));
                lemma_inc_unique(mcur.edges, i, ei as int, the_inc(mcur.edges, i));
                assert(na == the_nbr(mcur.edges, o));
                assert(nb == the_nbr(mcur.edges, i));
                assert(kk == splice_kind(the_kind(mcur.edges, o), the_kind(mcur.edges, i)));
            }
            self.remove_vertex(o);
            self.remove_vertex(i);
            let _spliced = self.add_edge(na, nb, kk);
            j += 1;
            proof {
                assert(self.model() == mcur.splice_one(o, i));
                lemma_prefix_step(outs@, j - 1);
                lemma_prefix_step(ins@, j - 1);
                assert(self.model() == merged.splice_all(
                    outs@.take(j as int),
                    ins@.take(j as int),
                ));
                assert(oskip.skip(1) =~= outs@.skip(j as int));
                assert(iskip.skip(1) =~= ins@.skip(j as int));
            }
        }
        proof {
            assert(outs@.take(k as int) =~= outs@);
            assert(ins@.take(k as int) =~= ins@);
            assert(self.model() == m0.compose_m(om));
        }
        Ok(())
    }

    fn remove_vertex(&mut self, v: usize) {
        if v < self.verts.len() && self.verts[v].is_some() {
            proof {
                lemma_count_some_update_none(self.verts@, v as int);
            }
            self.verts.set(v, None);
            self.nv = self.nv - 1;
            let ghost eds0 = self.edges@;
            let mut e: usize = 0;
            while e < self.edges.len()
                invariant
                    e <= self.edges@.len(),
                    self.edges@.len() == eds0.len(),
                    eds0 == old(self).edges@,
                    old(self).valid(),
                    v < old(self).verts@.len() && old(self).verts@[v as int] is Some,
                    self.verts@ == old(self).verts@.update(v as int, None),
                    self.inputs@ == old(self).inputs@,
                    self.outputs@ == old(self).outputs@,
                    self.nv == old(self).nv - 1,
                    forall|j: int|
                        0 <= j < e ==> self.edges@[j] == (if is_inc(eds0[j], v) {
                            None
                        } else {
                            eds0[j]
                        }),
                    forall|j: int| e <= j < eds0.len() ==> self.edges@[j] == eds0[j],
                    self.ne == count_some(self.edges@),
                decreases self.edges@.len() - e,
            {
                let inc = match self.edges[e] {
                    Some(rec) => rec.a == v || rec.b == v,
                    None => false,
                };
                if inc {
                    proof {
                        lemma_count_some_update_none(self.edges@, e as int);
                    }
                    self.edges.set(e, None);
                    self.ne = self.ne - 1;
                }
                e += 1;
            }
            let ni = vec_remove_val(&self.inputs, v);
            self.inputs = ni;
            let no = vec_remove_val(&self.outputs, v);
            self.outputs = no;
            proof {
                let m0 = old(self).model();
                assert forall|j: int| 0 <= j < eds0.len() implies self.edges@[j] == clear_inc(
                    eds0,
                    v,
                )[j] by {
                    assert(clear_inc(eds0, v)[j] == if is_inc(eds0[j], v) {
                        None
                    } else {
                        eds0[j]
                    });
                }
                assert(self.edges@ =~= clear_inc(eds0, v));
                assert(self.model() =~= m0.rm_vertex(v));
                lemma_rm_vertex_wf(m0, v);
                lemma_clear_incident_count(eds0, v);
            }
        }
    }

    fn remove_edge(&mut self, e: usize) {
        if e < self.edges.len() {
            if self.edges[e].is_some() {
                proof {
                    lemma_count_some_update_none(self.edges@, e as int);
                }
                self.edges.set(e, None);
                self.ne = self.ne - 1;
                proof {
                    assert(self.model() =~= old(self).model().rm_edge(e));
                    lemma_rm_edge_wf(old(self).model(), e);
                }
            } else {
                proof {
                    assert(self.edges@ =~= self.edges@.update(e as int, None::<EdgeRec>));
                    assert(self.model() =~= old(self).model().rm_edge(e));
                }
            }
        }
    }

    fn set_phase(&mut self, v: usize, p: Phase) -> (r: bool) {
        if v < self.verts.len() {
            match self.verts[v] {
                Some(vd) => {
                    self.put_vdata(
                        v,
                        VertexData {
                            kind: vd.kind,
                            phase: p,
                            ground: vd.ground,
                            qubit: vd.qubit,
                            row: vd.row,
                        },
                    );
                    true
                },
                None => false,
            }
        } else {
            false
        }
    }

    fn set_vertex_kind(&mut self, v: usize, k: VertexKind) -> (r: bool) {
        if v < self.verts.len() {
            match self.verts[v] {
                Some(vd) => {
                    proof {
                        assert(old(self).model().vert_ok(v as int));
                    }
                    self.put_vdata(
                        v,
                        VertexData {
                            kind: k,
                            phase: vd.phase,
                            ground: vd.ground,
                            qubit: vd.qubit,
                            row: vd.row,
                        },
                    );
                    true
                },
                None => false,
            }
        } else {
            false
        }
    }

    fn set_edge_kind(&mut self, e: usize, k: EdgeKind) -> (r: bool) {
        if e < self.edges.len() {
            match self.edges[e] {
                Some(rec) => {
                    self.edges.set(e, Some(EdgeRec { kind: k, a: rec.a, b: rec.b }));
                    proof {
                        assert(self.model() =~= old(self).model().set_ekind(e, k));
                        lemma_set_ekind_wf(old(self).model(), e, k);
                    }
                    true
                },
                None => false,
            }
        } else {
            false
        }
    }

    fn degree_histogram(&self) -> (h: Vec<(usize, usize)>) {
        let ghost m = self.model();
        let mut h: Vec<(usize, usize)> = Vec::new();
        let dmax = self.edges.len();
        let mut d: usize = 0;
        while d <= dmax
            invariant
                self.valid(),
                m == self.model(),
                d <= dmax + 1,
                dmax == self.edges@.len(),
                dmax < usize::MAX,
                h@ == hist_upto(m, d as int),
            decreases dmax + 1 - d,
        {
            let mut c: usize = 0;
            let mut v: usize = 0;
            while v < self.verts.len()
                invariant
                    self.valid(),
                    m == self.model(),
                    v <= self.verts@.len(),
                    c == count_deg_upto(m, d as nat, v as int),
                    c <= v,
                decreases self.verts@.len() - v,
            {
                if self.verts[v].is_some() {
                    let deg = self.vertex_degree(v);
                    if deg == d {
                        c += 1;
                    }
                }
                v += 1;
            }
            proof {
                assert(count_deg(m, d as nat) == c);
            }
            if c >= 1 {
                h.push((d, c));
                proof {
                    assert(h@ =~= hist_upto(m, d as int) + seq![(d, c)]);
                    assert(h@ =~= hist_upto(m, d as int + 1));
                }
            } else {
                proof {
                    assert(h@ =~= hist_upto(m, d as int + 1));
                }
            }
            d += 1;
        }
        h
    }

    fn stats(&self) -> (s: String) {
        let ghost m = self.model();
        let h = self.degree_histogram();
        let nv = self.num_vertices();
        let ne = self.num_edges();
        let name = self.backend();
        let mut s = render_stats_header(name, nv, ne);
        let mut i: usize = 0;
        while i < h.len()
            invariant
                self.valid(),
                m == self.model(),
                i <= h@.len(),
                h@ == hist_of(m),
                s@ == fmt_stats_header(
                    Self::backend_spec(),
                    m.vcount() as int,
                    m.ecount() as int,
                ) + degree_lines(h@.take(i as int)),
            decreases h@.len() - i,
        {
            let (dd, cc) = (h[i].0, h[i].1);
            let line = render_degree_line(dd, cc);
            s.append(line.as_str());
            proof {
                lemma_prefix_step(h@, i as int);
                assert(degree_lines(h@.take(i as int + 1)) == degree_lines(h@.take(i as int))
                    + fmt_degree_line(dd as int, cc as int));
                assert(s@ =~= fmt_stats_header(
                    Self::backend_spec(),
                    m.vcount() as int,
                    m.ecount() as int,
                ) + degree_lines(h@.take(i as int + 1)));
            }
            i += 1;
        }
        proof {
            lemma_take_all(h@);
        }
        s
    }

    fn remove_vertices(&mut self, vs: Vec<usize>) {
        let mut i: usize = 0;
        while i < vs.len()
            invariant
                i <= vs@.len(),
                self.valid(),
                self.model() == old(self).model().rm_vertices(vs@.take(i as int)),
            decreases vs@.len() - i,
        {
            proof {
                lemma_prefix_step(vs@, i as int);
            }
            self.remove_vertex(vs[i]);
            i += 1;
        }
        proof {
            lemma_take_all(vs@);
        }
    }

    fn remove_edges(&mut self, es: Vec<usize>) {
        let mut i: usize = 0;
        while i < es.len()
            invariant
                i <= es@.len(),
                self.valid(),
                self.model() == old(self).model().rm_edges(es@.take(i as int)),
            decreases es@.len() - i,
        {
            proof {
                lemma_prefix_step(es@, i as int);
            }
            self.remove_edge(es[i]);
            i += 1;
        }
        proof {
            lemma_take_all(es@);
        }
    }
}

impl CartesianGraph for GGraph {
    fn row(&self, v: usize) -> (r: Option<u32>) {
        if v < self.verts.len() {
            match self.verts[v] {
                Some(vd) => Some(vd.row),
                None => None,
            }
        } else {
            None
        }
    }

    fn qubit(&self, v: usize) -> (r: Option<u32>) {
        if v < self.verts.len() {
            match self.verts[v] {
                Some(vd) => Some(vd.qubit),
                None => None,
            }
        } else {
            None
        }
    }

    fn set_row(&mut self, v: usize, r: u32) -> (ok: bool) {
        if v < self.verts.len() {
            match self.verts[v] {
                Some(vd) => {
                    proof {
                        assert(old(self).model().vert_ok(v as int));
                    }
                    self.put_vdata(
                        v,
                        VertexData {
                            kind: vd.kind,
                            phase: vd.phase,
                            ground: vd.ground,
                            qubit: vd.qubit,
                            row: r,
                        },
                    );
                    true
                },
                None => false,
            }
        } else {
            false
        }
    }

    fn set_qubit(&mut self, v: usize, q: u32) -> (ok: bool) {
        if v < self.verts.len() {
            match self.verts[v] {
                Some(vd) => {
                    proof {
                        assert(old(self).model().vert_ok(v as int));
                    }
                    self.put_vdata(
                        v,
                        VertexData {
                            kind: vd.kind,
                            phase: vd.phase,
                            ground: vd.ground,
                            qubit: q,
                            row: vd.row,
                        },
                    );
                    true
                },
                None => false,
            }
        } else {
            false
        }
    }

    fn set_position(&mut self, v: usize, q: u32, r: u32) -> (ok: bool) {
        if v < self.verts.len() {
            match self.verts[v] {
                Some(vd) => {
                    proof {
                        assert(old(self).model().vert_ok(v as int));
                    }
                    self.put_vdata(
                        v,
                        VertexData {
                            kind: vd.kind,
                            phase: vd.phase,
                            ground: vd.ground,
                            qubit: q,
                            row: r,
                        },
                    );
                    true
                },
                None => false,
            }
        } else {
            false
        }
    }

    fn depth(&self) -> (d: u64) {
        let mut d: u64 = 0;
        let mut i: usize = 0;
        while i < self.verts.len()
            invariant
                i <= self.verts@.len(),
                d == depth_of(self.verts@.take(i as int)),
            decreases self.verts@.len() - i,
        {
            proof {
                lemma_prefix_step(self.verts@, i as int);
            }
            match self.verts[i] {
                Some(vd) => {
                    let rr = vd.row as u64 + 1;
                    if rr > d {
                        d = rr;
                    }
                },
                None => {},
            }
            i += 1;
        }
        proof {
            lemma_take_all(self.verts@);
        }
        d
    }

    fn qubit_count(&self) -> (n: usize) {
        let mut qs: Vec<u32> = Vec::new();
        let mut i: usize = 0;
        while i < self.verts.len()
            invariant
                i <= self.verts@.len(),
                qs@ == qubits_of(self.verts@.take(i as int)),
            decreases self.verts@.len() - i,
        {
            proof {
                lemma_prefix_step(self.verts@, i as int);
            }
            match self.verts[i] {
                Some(vd) => {
                    qs.push(vd.qubit);
                    proof {
                        assert(qs@ =~= qubits_of(self.verts@.take(i as int)) + seq![vd.qubit]);
                    }
                },
                None => {},
            }
            i += 1;
        }
        proof {
            lemma_take_all(self.verts@);
        }
        let mut n: usize = 0;
        let mut j: usize = 0;
        while j < qs.len()
            invariant
                j <= qs@.len(),
                n <= j,
                n == count_distinct(qs@.take(j as int)),
            decreases qs@.len() - j,
        {
            proof {
                lemma_prefix_step(qs@, j as int);
            }
            let mut seen = false;
            let mut t: usize = 0;
            while t < j
                invariant
                    t <= j,
                    j < qs@.len(),
                    seen == qs@.take(j as int).take(t as int).contains(qs@[j as int]),
                decreases j - t,
            {
                proof {
                    lemma_prefix_step(qs@.take(j as int), t as int);
                }
                if qs[t] == qs[j] {
                    proof {
                        assert(qs@.take(j as int)[t as int] == qs@[t as int]);
                        assert(qs@.take(j as int).take(t as int + 1).contains(qs@[j as int])) by {
                            assert(qs@.take(j as int).take(t as int + 1)[t as int] == qs@[
                            t as int]);
                        }
                    }
                    seen = true;
                } else {
                    proof {
                        assert(qs@.take(j as int).take(t as int + 1).contains(qs@[j as int])
                            == qs@.take(j as int).take(t as int).contains(qs@[j as int])) by {
                            if qs@.take(j as int).take(t as int + 1).contains(qs@[j as int]) {
                                let x = choose|x: int|
                                    0 <= x < t + 1 && #[trigger] qs@.take(j as int).take(
                                        t as int + 1,
                                    )[x] == qs@[j as int];
                                if x == t {
                                    assert(qs@.take(j as int)[t as int] == qs@[t as int]);
                                    assert(false);
                                } else {
                                    assert(qs@.take(j as int).take(t as int)[x] == qs@[j as int]);
                                }
                            } else {
                                if qs@.take(j as int).take(t as int).contains(qs@[j as int]) {
                                    let x = choose|x: int|
                                        0 <= x < t && #[trigger] qs@.take(j as int).take(
                                            t as int,
                                        )[x] == qs@[j as int];
                                    assert(qs@.take(j as int).take(t as int + 1)[x] == qs@[
                                    j as int]);
                                }
                            }
                        }
                    }
                }
                t += 1;
            }
            proof {
                assert(qs@.take(j as int).take(j as int) =~= qs@.take(j as int));
                assert(seen == qs@.take(j as int).contains(qs@[j as int]));
            }
            if !seen {
                n += 1;
            }
            j += 1;
        }
        proof {
            lemma_take_all(qs@);
        }
        n
    }
}

impl GroundGraph for GGraph {
    fn grounds(&self) -> (r: Vec<usize>) {
        let mut r: Vec<usize> = Vec::new();
        let mut i: usize = 0;
        while i < self.verts.len()
            invariant
                i <= self.verts@.len(),
                r@ == ground_indices(self.verts@.take(i as int)),
            decreases self.verts@.len() - i,
        {
            proof {
                lemma_prefix_step(self.verts@, i as int);
            }
            let is_ground = match self.verts[i] {
                Some(vd) => vd.ground,
                None => false,
            };
            if is_ground {
                r.push(i);
                proof {
                    assert(r@ =~= ground_indices(self.verts@.take(i as int)) + seq![i]);
                }
            }
            i += 1;
        }
        proof {
            lemma_take_all(self.verts@);
        }
        r
    }

    fn set_ground(&mut self, v: usize, g: bool) -> (ok: bool) {
        if v < self.verts.len() {
            match self.verts[v] {
                Some(vd) => {
                    proof {
                        assert(old(self).model().vert_ok(v as int));
                    }
                    self.put_vdata(
                        v,
                        VertexData {
                            kind: vd.kind,
                            phase: vd.phase,
                            ground: g,
                            qubit: vd.qubit,
                            row: vd.row,
                        },
                    );
                    true
                },
                None => false,
            }
        } else {
            false
        }
    }
}

} // verus!
