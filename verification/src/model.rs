//! The mathematical model of an open diagram.
//!
//! A graph backend exposes its state as a [`GModel`]: a sequence of vertex
//! slots, a sequence of edge slots, and the ordered input/output marking.
//! Handles are slot indices; a removed element leaves a permanent empty slot,
//! so a stale handle is detectable and never aliases a newer element.  All
//! contracts of the capability trait, and the structural laws, are stated
//! over this model.

use crate::graph::{EdgeKind, EdgeRec, VertexData, VertexKind};
use crate::phase::Phase;
use vstd::prelude::*;

verus! {

/// Model of an open diagram: vertex slots, edge slots, ordered boundary.
#[verifier::ext_equal]
pub ghost struct GModel {
    pub verts: Seq<Option<VertexData>>,
    pub edges: Seq<Option<EdgeRec>>,
    pub inputs: Seq<usize>,
    pub outputs: Seq<usize>,
}

/// Number of occupied slots.
pub open spec fn count_some<T>(s: Seq<Option<T>>) -> nat
    decreases s.len(),
{
    if s.len() == 0 {
        0
    } else {
        count_some(s.drop_last()) + if s.last() is Some {
            1nat
        } else {
            0nat
        }
    }
}

/// The edge slot `e` holds a live edge incident to `v`.
pub open spec fn is_inc(e: Option<EdgeRec>, v: usize) -> bool {
    e matches Some(r) && (r.a == v || r.b == v)
}

/// The endpoint of `r` opposite to `v` (for a self-loop, `v` itself).
pub open spec fn other_end(r: EdgeRec, v: usize) -> usize {
    if r.a == v {
        r.b
    } else {
        r.a
    }
}

/// Number of live edges incident to `v`; a self-loop counts once.
pub open spec fn count_inc(edges: Seq<Option<EdgeRec>>, v: usize) -> nat
    decreases edges.len(),
{
    if edges.len() == 0 {
        0
    } else {
        count_inc(edges.drop_last(), v) + if is_inc(edges.last(), v) {
            1nat
        } else {
            0nat
        }
    }
}

/// Neighbours of `v` in edge-slot order, one entry per incident edge.
pub open spec fn nbrs(edges: Seq<Option<EdgeRec>>, v: usize) -> Seq<usize>
    decreases edges.len(),
{
    if edges.len() == 0 {
        Seq::empty()
    } else {
        nbrs(edges.drop_last(), v) + if is_inc(edges.last(), v) {
            seq![other_end(edges.last().unwrap(), v)]
        } else {
            Seq::empty()
        }
    }
}

/// Indices of the occupied slots, in ascending order.
pub open spec fn live_indices<T>(s: Seq<Option<T>>) -> Seq<usize>
    decreases s.len(),
{
    if s.len() == 0 {
        Seq::empty()
    } else {
        live_indices(s.drop_last()) + if s.last() is Some {
            seq![(s.len() - 1) as usize]
        } else {
            Seq::empty()
        }
    }
}

/// `s` with every occurrence of `v` removed, order otherwise kept.
pub open spec fn remove_val(s: Seq<usize>, v: usize) -> Seq<usize>
    decreases s.len(),
{
    if s.len() == 0 {
        Seq::empty()
    } else {
        remove_val(s.drop_last(), v) + if s.last() == v {
            Seq::empty()
        } else {
            seq![s.last()]
        }
    }
}

/// A vertex slot after `adjoint`: spiders get their phase negated modulo 2.
pub open spec fn adjoint_slot(o: Option<VertexData>) -> Option<VertexData> {
    match o {
        Some(vd) => Some(
            if vd.kind == VertexKind::Z || vd.kind == VertexKind::X {
                VertexData { phase: vd.phase.neg_spec(), ..vd }
            } else {
                vd
            },
        ),
        None => None,
    }
}

/// An edge slot with both endpoints shifted by `off`.
pub open spec fn shift_edge(o: Option<EdgeRec>, off: nat) -> Option<EdgeRec> {
    match o {
        Some(r) => Some(
            EdgeRec { kind: r.kind, a: (r.a + off) as usize, b: (r.b + off) as usize },
        ),
        None => None,
    }
}

/// Every edge slot shifted by `off`.
pub open spec fn shift_edges(s: Seq<Option<EdgeRec>>, off: nat) -> Seq<Option<EdgeRec>> {
    s.map_values(|o: Option<EdgeRec>| shift_edge(o, off))
}

/// Every handle shifted by `off`.
pub open spec fn shift_seq(s: Seq<usize>, off: nat) -> Seq<usize> {
    s.map_values(|v: usize| (v + off) as usize)
}

/// Every vertex slot through `adjoint_slot`.
pub open spec fn adjoint_verts(s: Seq<Option<VertexData>>) -> Seq<Option<VertexData>> {
    s.map_values(|o: Option<VertexData>| adjoint_slot(o))
}

/// Every edge slot incident to `v` emptied.
pub open spec fn clear_inc(s: Seq<Option<EdgeRec>>, v: usize) -> Seq<Option<EdgeRec>> {
    s.map_values(|o: Option<EdgeRec>| if is_inc(o, v) { None } else { o })
}

/// The kind of a spliced wire: two Hadamard halves cancel, one survives.
pub open spec fn splice_kind(k1: EdgeKind, k2: EdgeKind) -> EdgeKind {
    if k1 == k2 {
        EdgeKind::Regular
    } else {
        EdgeKind::Hadam
    }
}

/// The slot of the edge incident to `v` (meaningful when `v` has degree 1).
pub open spec fn the_inc(edges: Seq<Option<EdgeRec>>, v: usize) -> int {
    choose|e: int| 0 <= e < edges.len() && is_inc(#[trigger] edges[e], v)
}

/// The far end of the unique wire at a degree-1 vertex `v`.
pub open spec fn the_nbr(edges: Seq<Option<EdgeRec>>, v: usize) -> usize {
    other_end(edges[the_inc(edges, v)].unwrap(), v)
}

/// The kind of the unique wire at a degree-1 vertex `v`.
pub open spec fn the_kind(edges: Seq<Option<EdgeRec>>, v: usize) -> EdgeKind {
    edges[the_inc(edges, v)].unwrap().kind
}

/// A boundary vertex that sequential composition may splice away: live, of
/// degree exactly 1, not part of the merged diagram's boundary marking, and
/// wired to a vertex that is itself not spliced away.
pub open spec fn bnd_ok(m: GModel, outs: Seq<usize>, ins: Seq<usize>, v: usize) -> bool {
    &&& m.v_live(v)
    &&& m.degree(v) == 1
    &&& !m.inputs.contains(v)
    &&& !m.outputs.contains(v)
    &&& !outs.contains(the_nbr(m.edges, v))
    &&& !ins.contains(the_nbr(m.edges, v))
}

/// What `splice_all` needs of the merged diagram: the paired boundary
/// vertices are pairwise distinct degree-1 vertices outside the boundary
/// marking, and no spliced wire ends in another spliced vertex.
pub open spec fn splice_pre(m: GModel, outs: Seq<usize>, ins: Seq<usize>) -> bool {
    &&& m.wf()
    &&& ins.len() == outs.len()
    &&& forall|j: int| 0 <= j < outs.len() ==> bnd_ok(m, outs, ins, #[trigger] outs[j])
    &&& forall|j: int| 0 <= j < ins.len() ==> bnd_ok(m, outs, ins, #[trigger] ins[j])
    &&& forall|i: int, j: int| 0 <= i < j < outs.len() ==> #[trigger] outs[i] != #[trigger] outs[j]
    &&& forall|i: int, j: int| 0 <= i < j < ins.len() ==> #[trigger] ins[i] != #[trigger] ins[j]
    &&& forall|i: int, j: int|
        0 <= i < outs.len() && 0 <= j < ins.len() ==> #[trigger] outs[i] != #[trigger] ins[j]
}

impl GModel {
    /// The empty diagram.
    pub open spec fn empty() -> GModel {
        GModel { verts: Seq::empty(), edges: Seq::empty(), inputs: Seq::empty(), outputs: Seq::empty() }
    }

    /// Vertex handle `v` resolves to a live vertex.
    pub open spec fn v_live(self, v: usize) -> bool {
        v < self.verts.len() && self.verts[v as int] is Some
    }

    /// Edge handle `e` resolves to a live edge.
    pub open spec fn e_live(self, e: usize) -> bool {
        e < self.edges.len() && self.edges[e as int] is Some
    }

    /// Number of live vertices.
    pub open spec fn vcount(self) -> nat {
        count_some(self.verts)
    }

    /// Number of live edges.
    pub open spec fn ecount(self) -> nat {
        count_some(self.edges)
    }

    /// Degree of `v`: incident edge count, a self-loop counting once.
    pub open spec fn degree(self, v: usize) -> nat {
        count_inc(self.edges, v)
    }

    /// Some live edge joins `u` and `v`, in either orientation.
    pub open spec fn connected(self, u: usize, v: usize) -> bool {
        exists|e: int|
            0 <= e < self.edges.len() && ((#[trigger] self.edges[e]) matches Some(r)
                && ((r.a == u && r.b == v) || (r.a == v && r.b == u)))
    }

    /// Edge slot `e` is well formed: live endpoints, normalized order.
    pub open spec fn edge_ok(self, e: int) -> bool {
        self.edges[e] matches Some(r) ==> self.v_live(r.a) && self.v_live(r.b) && r.a <= r.b
    }

    /// Vertex slot `v` is well formed: its phase is canonical.
    pub open spec fn vert_ok(self, v: int) -> bool {
        self.verts[v] matches Some(vd) ==> vd.phase.canonical()
    }

    /// The model invariant: every live edge joins live vertices with a
    /// normalized endpoint pair, every stored phase is canonical, and the
    /// boundary sequences list live vertices without repetition.
    pub open spec fn wf(self) -> bool {
        &&& forall|e: int| 0 <= e < self.edges.len() ==> self.edge_ok(e)
        &&& forall|v: int| 0 <= v < self.verts.len() ==> self.vert_ok(v)
        &&& forall|i: int|
            0 <= i < self.inputs.len() ==> self.v_live(#[trigger] self.inputs[i])
        &&& forall|i: int, j: int|
            0 <= i < j < self.inputs.len() ==> #[trigger] self.inputs[i] != #[trigger] self.inputs[j]
        &&& forall|i: int|
            0 <= i < self.outputs.len() ==> self.v_live(#[trigger] self.outputs[i])
        &&& forall|i: int, j: int|
            0 <= i < j < self.outputs.len() ==> #[trigger] self.outputs[i] != #[trigger] self.outputs[j]
    }

    /// Removing vertex `v`: its slot empties, incident edges empty, and it
    /// leaves the boundary sequences.  Removing an absent handle is a no-op.
    pub open spec fn rm_vertex(self, v: usize) -> GModel {
        if !self.v_live(v) {
            self
        } else {
            GModel {
                verts: self.verts.update(v as int, None),
                edges: clear_inc(self.edges, v),
                inputs: remove_val(self.inputs, v),
                outputs: remove_val(self.outputs, v),
            }
        }
    }

    /// Removing the vertices of `s`, first to last.
    pub open spec fn rm_vertices(self, s: Seq<usize>) -> GModel
        decreases s.len(),
    {
        if s.len() == 0 {
            self
        } else {
            self.rm_vertices(s.drop_last()).rm_vertex(s.last())
        }
    }

    /// Removing edge `e`; an absent handle is a no-op.
    pub open spec fn rm_edge(self, e: usize) -> GModel {
        if e < self.edges.len() {
            GModel { edges: self.edges.update(e as int, None), ..self }
        } else {
            self
        }
    }

    /// Removing the edges of `s`, first to last.
    pub open spec fn rm_edges(self, s: Seq<usize>) -> GModel
        decreases s.len(),
    {
        if s.len() == 0 {
            self
        } else {
            self.rm_edges(s.drop_last()).rm_edge(s.last())
        }
    }

    /// Appending `count` fresh unconnected vertices with default attributes.
    pub open spec fn add_verts(self, count: nat) -> GModel {
        GModel {
            verts: self.verts + Seq::new(
                count,
                |i: int| Some(
                    VertexData {
                        kind: VertexKind::Boundary,
                        phase: Phase::zero_spec(),
                        ground: false,
                        qubit: 0,
                        row: 0,
                    },
                ),
            ),
            ..self
        }
    }

    /// Appending one fresh vertex with the given kind and phase.
    pub open spec fn add_vertex_m(self, kind: VertexKind, phase: Phase) -> GModel {
        GModel {
            verts: self.verts + seq![
                Some(VertexData { kind, phase, ground: false, qubit: 0, row: 0 }),
            ],
            ..self
        }
    }

    /// Appending one edge of kind `kind` between `v` and `u` (normalized).
    pub open spec fn add_edge_m(self, v: usize, u: usize, kind: EdgeKind) -> GModel {
        GModel {
            edges: self.edges + seq![
                Some(
                    EdgeRec {
                        kind,
                        a: if v <= u { v } else { u },
                        b: if v <= u { u } else { v },
                    },
                ),
            ],
            ..self
        }
    }

    /// Updating the attributes of live vertex `v` by `f`'s result.
    pub open spec fn set_vdata(self, v: usize, vd: VertexData) -> GModel {
        if self.v_live(v) {
            GModel { verts: self.verts.update(v as int, Some(vd)), ..self }
        } else {
            self
        }
    }

    /// Updating the kind of live edge `e`.
    pub open spec fn set_ekind(self, e: usize, k: EdgeKind) -> GModel {
        if self.e_live(e) {
            GModel {
                edges: self.edges.update(
                    e as int,
                    Some(EdgeRec { kind: k, ..self.edges[e as int].unwrap() }),
                ),
                ..self
            }
        } else {
            self
        }
    }

    /// Marking or unmarking `v` as an input: marking appends `v` to the
    /// ordered input sequence if live and not yet there; unmarking removes it.
    pub open spec fn set_input_m(self, v: usize, flag: bool) -> GModel {
        if flag {
            if self.v_live(v) && !self.inputs.contains(v) {
                GModel { inputs: self.inputs + seq![v], ..self }
            } else {
                self
            }
        } else {
            GModel { inputs: remove_val(self.inputs, v), ..self }
        }
    }

    /// Marking or unmarking `v` as an output.
    pub open spec fn set_output_m(self, v: usize, flag: bool) -> GModel {
        if flag {
            if self.v_live(v) && !self.outputs.contains(v) {
                GModel { outputs: self.outputs + seq![v], ..self }
            } else {
                self
            }
        } else {
            GModel { outputs: remove_val(self.outputs, v), ..self }
        }
    }

    /// The adjoint diagram: inputs and outputs swap roles and every spider's
    /// phase is negated modulo 2; connectivity and edge kinds are unchanged.
    pub open spec fn adjoint_m(self) -> GModel {
        GModel {
            verts: adjoint_verts(self.verts),
            edges: self.edges,
            inputs: self.outputs,
            outputs: self.inputs,
        }
    }

    /// The parallel composite: `other`'s slots are appended after this
    /// diagram's (handles shifted), and the boundary sequences concatenate.
    pub open spec fn tensor_m(self, other: GModel) -> GModel {
        let voff = self.verts.len() as nat;
        GModel {
            verts: self.verts + other.verts,
            edges: self.edges + shift_edges(other.edges, voff),
            inputs: self.inputs + shift_seq(other.inputs, voff),
            outputs: self.outputs + shift_seq(other.outputs, voff),
        }
    }

    /// The merge step of sequential composition: like `tensor_m`, but the
    /// composite keeps this diagram's inputs and takes `other`'s outputs.
    pub open spec fn merge_m(self, other: GModel) -> GModel {
        let voff = self.verts.len() as nat;
        GModel {
            verts: self.verts + other.verts,
            edges: self.edges + shift_edges(other.edges, voff),
            inputs: self.inputs,
            outputs: shift_seq(other.outputs, voff),
        }
    }

    /// Splicing one paired boundary: the unique wires at `o` and `i` are
    /// replaced by one direct wire between their outer neighbours, and the
    /// two boundary vertices are discarded.
    pub open spec fn splice_one(self, o: usize, i: usize) -> GModel {
        let na = the_nbr(self.edges, o);
        let nb = the_nbr(self.edges, i);
        let kind = splice_kind(the_kind(self.edges, o), the_kind(self.edges, i));
        self.rm_vertex(o).rm_vertex(i).add_edge_m(na, nb, kind)
    }

    /// Splicing every paired boundary, first pair to last.
    pub open spec fn splice_all(self, outs: Seq<usize>, ins: Seq<usize>) -> GModel
        decreases outs.len(),
    {
        if outs.len() == 0 {
            self
        } else {
            self.splice_all(outs.drop_last(), ins.drop_last()).splice_one(outs.last(), ins.last())
        }
    }

    /// The sequential composite: merge, then splice each of this diagram's
    /// ordered outputs with `other`'s input at the same position.
    pub open spec fn compose_m(self, other: GModel) -> GModel {
        let voff = self.verts.len() as nat;
        self.merge_m(other).splice_all(self.outputs, shift_seq(other.inputs, voff))
    }
}

/// The step from a prefix of length `i` to one of length `i + 1`.
pub proof fn lemma_prefix_step<T>(s: Seq<T>, i: int)
    requires
        0 <= i < s.len(),
    ensures
        s.take(i + 1).drop_last() =~= s.take(i),
        s.take(i + 1).last() == s[i],
        s.take(i + 1).len() == i + 1,
{
}

/// A full-length prefix is the sequence itself.
pub proof fn lemma_take_all<T>(s: Seq<T>)
    ensures
        s.take(s.len() as int) =~= s,
{
}

pub proof fn lemma_count_some_push<T>(s: Seq<Option<T>>, x: Option<T>)
    ensures
        count_some(s.push(x)) == count_some(s) + if x is Some {
            1nat
        } else {
            0nat
        },
{
    assert(s.push(x).drop_last() =~= s);
    assert(s.push(x).last() == x);
}

pub proof fn lemma_count_some_update_none<T>(s: Seq<Option<T>>, i: int)
    requires
        0 <= i < s.len(),
        s[i] is Some,
    ensures
        count_some(s.update(i, None)) == count_some(s) - 1,
    decreases s.len(),
{
    let t = s.update(i, None);
    if i == s.len() - 1 {
        assert(t.drop_last() =~= s.drop_last());
        assert(t.last() is None);
        assert(s.last() is Some);
    } else {
        lemma_count_some_update_none(s.drop_last(), i);
        assert(t.drop_last() =~= s.drop_last().update(i, None));
        assert(t.last() == s.last());
    }
}

pub proof fn lemma_count_some_le_len<T>(s: Seq<Option<T>>)
    ensures
        count_some(s) <= s.len(),
    decreases s.len(),
{
    if s.len() > 0 {
        lemma_count_some_le_len(s.drop_last());
    }
}

/// A vertex's neighbour list has exactly one entry per incident edge.
pub proof fn lemma_nbrs_len(edges: Seq<Option<EdgeRec>>, v: usize)
    ensures
        nbrs(edges, v).len() == count_inc(edges, v),
    decreases edges.len(),
{
    if edges.len() > 0 {
        lemma_nbrs_len(edges.drop_last(), v);
    }
}

/// `remove_val` keeps order, keeps distinctness, drops exactly `v`.
pub proof fn lemma_remove_val_props(s: Seq<usize>, v: usize)
    ensures
        forall|j: int|
            0 <= j < remove_val(s, v).len() ==> s.contains(#[trigger] remove_val(s, v)[j])
                && remove_val(s, v)[j] != v,
        (forall|i: int, j: int| 0 <= i < j < s.len() ==> s[i] != s[j]) ==> forall|i: int, j: int|
            0 <= i < j < remove_val(s, v).len() ==> remove_val(s, v)[i] != remove_val(
                s,
                v,
            )[j],
    decreases s.len(),
{
    if s.len() > 0 {
        lemma_remove_val_props(s.drop_last(), v);
        let r = remove_val(s, v);
        let rp = remove_val(s.drop_last(), v);
        assert(forall|j: int|
            0 <= j < rp.len() ==> s.drop_last().contains(#[trigger] rp[j]) && rp[j] != v);
        assert(forall|x: usize| s.drop_last().contains(x) ==> s.contains(x)) by {
            assert forall|x: usize| s.drop_last().contains(x) implies s.contains(x) by {
                let i = choose|i: int| 0 <= i < s.drop_last().len() && s.drop_last()[i] == x;
                assert(s[i] == x);
            }
        }
        if s.last() != v {
            assert(s.contains(s.last())) by {
                assert(s[s.len() - 1] == s.last());
            }
        }
        if forall|i: int, j: int| 0 <= i < j < s.len() ==> s[i] != s[j] {
            assert(forall|i: int, j: int|
                0 <= i < j < s.drop_last().len() ==> s.drop_last()[i] != s.drop_last()[j]);
            if s.last() != v {
                assert forall|j: int| 0 <= j < rp.len() implies rp[j] != s.last() by {
                    let i = choose|i: int|
                        0 <= i < s.drop_last().len() && s.drop_last()[i] == rp[j];
                    assert(s[i] == rp[j]);
                    assert(s[s.len() - 1] == s.last());
                }
            }
        }
    }
}

pub proof fn lemma_count_some_append<T>(s: Seq<Option<T>>, t: Seq<Option<T>>)
    ensures
        count_some(s + t) == count_some(s) + count_some(t),
    decreases t.len(),
{
    if t.len() == 0 {
        assert(s + t =~= s);
    } else {
        lemma_count_some_append(s, t.drop_last());
        assert((s + t).drop_last() =~= s + t.drop_last());
        assert((s + t).last() == t.last());
    }
}

pub proof fn lemma_count_some_full<T>(t: Seq<Option<T>>)
    requires
        forall|i: int| 0 <= i < t.len() ==> t[i] is Some,
    ensures
        count_some(t) == t.len(),
    decreases t.len(),
{
    if t.len() > 0 {
        lemma_count_some_full(t.drop_last());
    }
}

/// Emptying every slot incident to `v` lowers the occupied count by the
/// degree of `v` and leaves other slots untouched.
pub proof fn lemma_clear_incident_count(edges: Seq<Option<EdgeRec>>, v: usize)
    ensures
        count_some(clear_inc(edges, v)) == count_some(edges) - count_inc(edges, v),
        count_inc(edges, v) <= count_some(edges),
    decreases edges.len(),
{
    let m = clear_inc(edges, v);
    if edges.len() == 0 {
        assert(m =~= edges);
    } else {
        lemma_clear_incident_count(edges.drop_last(), v);
        assert(m.drop_last() =~= clear_inc(edges.drop_last(), v));
        assert(m.last() == if is_inc(edges.last(), v) { None } else { edges.last() });
    }
}

/// Adding default vertices preserves the invariant and raises the vertex
/// count by exactly the number added.
pub proof fn lemma_add_verts_wf(m: GModel, count: nat)
    requires
        m.wf(),
    ensures
        m.add_verts(count).wf(),
        m.add_verts(count).vcount() == m.vcount() + count,
        m.add_verts(count).ecount() == m.ecount(),
{
    let m1 = m.add_verts(count);
    let fresh = Seq::new(
        count,
        |i: int| Some(
            VertexData {
                kind: VertexKind::Boundary,
                phase: Phase::zero_spec(),
                ground: false,
                qubit: 0,
                row: 0,
            },
        ),
    );
    lemma_count_some_append(m.verts, fresh);
    lemma_count_some_full(fresh);
    Phase::lemma_zero_spec();
    assert forall|e: int| 0 <= e < m1.edges.len() implies m1.edge_ok(e) by {
        assert(m.edge_ok(e));
    }
    assert forall|v: int| 0 <= v < m1.verts.len() implies m1.vert_ok(v) by {
        if v < m.verts.len() {
            assert(m.vert_ok(v));
        } else {
            assert(m1.verts[v] == fresh[v - m.verts.len()]);
        }
    }
}

/// Adding one attributed vertex preserves the invariant.
pub proof fn lemma_add_vertex_wf(m: GModel, kind: VertexKind, phase: Phase)
    requires
        m.wf(),
        phase.canonical(),
    ensures
        m.add_vertex_m(kind, phase).wf(),
        m.add_vertex_m(kind, phase).vcount() == m.vcount() + 1,
        m.add_vertex_m(kind, phase).ecount() == m.ecount(),
{
    let m1 = m.add_vertex_m(kind, phase);
    lemma_count_some_push(
        m.verts,
        Some(VertexData { kind, phase, ground: false, qubit: 0, row: 0 }),
    );
    assert(m1.verts =~= m.verts.push(
        Some(VertexData { kind, phase, ground: false, qubit: 0, row: 0 }),
    ));
    assert forall|e: int| 0 <= e < m1.edges.len() implies m1.edge_ok(e) by {
        assert(m.edge_ok(e));
    }
    assert forall|v: int| 0 <= v < m1.verts.len() implies m1.vert_ok(v) by {
        if v < m.verts.len() {
            assert(m.vert_ok(v));
        }
    }
}

/// Adding an edge between live vertices preserves the invariant.
pub proof fn lemma_add_edge_wf(m: GModel, v: usize, u: usize, kind: EdgeKind)
    requires
        m.wf(),
        m.v_live(v),
        m.v_live(u),
    ensures
        m.add_edge_m(v, u, kind).wf(),
        m.add_edge_m(v, u, kind).vcount() == m.vcount(),
        m.add_edge_m(v, u, kind).ecount() == m.ecount() + 1,
{
    let m1 = m.add_edge_m(v, u, kind);
    let rec = EdgeRec {
        kind,
        a: if v <= u { v } else { u },
        b: if v <= u { u } else { v },
    };
    lemma_count_some_push(m.edges, Some(rec));
    assert(m1.edges =~= m.edges.push(Some(rec)));
    assert forall|e: int| 0 <= e < m1.edges.len() implies m1.edge_ok(e) by {
        if e < m.edges.len() {
            assert(m.edge_ok(e));
        }
    }
    assert forall|w: int| 0 <= w < m1.verts.len() implies m1.vert_ok(w) by {
        assert(m.vert_ok(w));
    }
}

/// Removing an edge preserves the invariant; an absent handle changes
/// nothing.
pub proof fn lemma_rm_edge_wf(m: GModel, e: usize)
    requires
        m.wf(),
    ensures
        m.rm_edge(e).wf(),
        m.rm_edge(e).vcount() == m.vcount(),
        m.e_live(e) ==> m.rm_edge(e).ecount() == m.ecount() - 1,
        !m.e_live(e) ==> m.rm_edge(e) == m,
{
    let m1 = m.rm_edge(e);
    if m.e_live(e) {
        lemma_count_some_update_none(m.edges, e as int);
        assert forall|j: int| 0 <= j < m1.edges.len() implies m1.edge_ok(j) by {
            assert(m.edge_ok(j));
        }
        assert forall|w: int| 0 <= w < m1.verts.len() implies m1.vert_ok(w) by {
            assert(m.vert_ok(w));
        }
    } else {
        if e < m.edges.len() {
            assert(m.edges.update(e as int, None::<EdgeRec>) =~= m.edges);
            assert(m1 =~= m);
        }
    }
}

/// Removing a vertex cascades to exactly its incident edges and preserves
/// the invariant; an absent handle changes nothing.
pub proof fn lemma_rm_vertex_wf(m: GModel, v: usize)
    requires
        m.wf(),
    ensures
        m.rm_vertex(v).wf(),
        !m.v_live(v) ==> m.rm_vertex(v) == m,
        m.v_live(v) ==> m.rm_vertex(v).vcount() == m.vcount() - 1,
        m.v_live(v) ==> m.rm_vertex(v).ecount() == m.ecount() - m.degree(v),
        m.degree(v) <= m.ecount(),
{
    lemma_clear_incident_count(m.edges, v);
    if m.v_live(v) {
        let m1 = m.rm_vertex(v);
        lemma_count_some_update_none(m.verts, v as int);
        lemma_remove_val_props(m.inputs, v);
        lemma_remove_val_props(m.outputs, v);
        assert forall|j: int| 0 <= j < m1.edges.len() implies m1.edge_ok(j) by {
            assert(m.edge_ok(j));
            assert(m1.edges[j] == if is_inc(m.edges[j], v) { None } else { m.edges[j] });
        }
        assert forall|w: int| 0 <= w < m1.verts.len() implies m1.vert_ok(w) by {
            assert(m.vert_ok(w));
        }
        assert forall|j: int| 0 <= j < m1.inputs.len() implies m1.v_live(
            #[trigger] m1.inputs[j],
        ) by {
            assert(m.inputs.contains(m1.inputs[j]) && m1.inputs[j] != v);
            let i = choose|i: int| 0 <= i < m.inputs.len() && m.inputs[i] == m1.inputs[j];
            assert(m.v_live(m.inputs[i]));
        }
        assert forall|j: int| 0 <= j < m1.outputs.len() implies m1.v_live(
            #[trigger] m1.outputs[j],
        ) by {
            assert(m.outputs.contains(m1.outputs[j]) && m1.outputs[j] != v);
            let i = choose|i: int| 0 <= i < m.outputs.len() && m.outputs[i] == m1.outputs[j];
            assert(m.v_live(m.outputs[i]));
        }
    }
}

/// The adjoint preserves the invariant and all counts.
pub proof fn lemma_adjoint_wf(m: GModel)
    requires
        m.wf(),
    ensures
        m.adjoint_m().wf(),
        m.adjoint_m().vcount() == m.vcount(),
        m.adjoint_m().ecount() == m.ecount(),
        m.adjoint_m().verts.len() == m.verts.len(),
{
    let m1 = m.adjoint_m();
    lemma_count_some_adjoint(m.verts);
    assert forall|v: int| 0 <= v < m1.verts.len() implies m1.vert_ok(v) by {
        assert(m.vert_ok(v));
        match m.verts[v] {
            Some(vd) => vd.phase.lemma_neg_facts(),
            None => (),
        }
    }
    assert forall|e: int| 0 <= e < m1.edges.len() implies m1.edge_ok(e) by {
        assert(m.edge_ok(e));
    }
    assert forall|i: int| 0 <= i < m1.inputs.len() implies m1.v_live(#[trigger] m1.inputs[i]) by {
        assert(m.v_live(m.outputs[i]));
    }
    assert forall|i: int| 0 <= i < m1.outputs.len() implies m1.v_live(
        #[trigger] m1.outputs[i],
    ) by {
        assert(m.v_live(m.inputs[i]));
    }
}

proof fn lemma_count_some_adjoint(verts: Seq<Option<VertexData>>)
    ensures
        count_some(adjoint_verts(verts)) == count_some(verts),
    decreases verts.len(),
{
    if verts.len() == 0 {
        assert(adjoint_verts(verts) =~= verts);
    } else {
        lemma_count_some_adjoint(verts.drop_last());
        assert(adjoint_verts(verts).drop_last() =~= adjoint_verts(verts.drop_last()));
        assert(adjoint_verts(verts).last() == adjoint_slot(verts.last()));
    }
}

/// Taking the adjoint twice restores the diagram: phases negated twice
/// modulo 2 return to themselves, and the input/output roles swap back.
pub proof fn lemma_adjoint_involution(m: GModel)
    requires
        m.wf(),
    ensures
        m.adjoint_m().adjoint_m() == m,
{
    let m2 = m.adjoint_m().adjoint_m();
    assert forall|v: int| 0 <= v < m.verts.len() implies m2.verts[v] == m.verts[v] by {
        assert(m.vert_ok(v));
        match m.verts[v] {
            Some(vd) => {
                vd.phase.lemma_neg_facts();
                assert(adjoint_slot(adjoint_slot(Some(vd))) == Some(vd));
            },
            None => (),
        }
    }
    assert(m2.verts =~= m.verts);
    assert(m2 =~= m);
}

proof fn lemma_count_some_shift(edges: Seq<Option<EdgeRec>>, off: nat)
    ensures
        count_some(shift_edges(edges, off)) == count_some(edges),
    decreases edges.len(),
{
    if edges.len() == 0 {
        assert(shift_edges(edges, off) =~= edges);
    } else {
        lemma_count_some_shift(edges.drop_last(), off);
        assert(shift_edges(edges, off).drop_last() =~= shift_edges(edges.drop_last(), off));
        assert(shift_edges(edges, off).last() == shift_edge(edges.last(), off));
    }
}

/// The common well-formedness argument for the merged slot storage of
/// `tensor_m` and `merge_m`.
proof fn lemma_merge_slots_wf(m: GModel, o: GModel, t: GModel)
    requires
        m.wf(),
        o.wf(),
        m.verts.len() + o.verts.len() <= usize::MAX,
        t.verts == m.verts + o.verts,
        t.edges == m.edges + shift_edges(o.edges, m.verts.len() as nat),
    ensures
        forall|e: int| 0 <= e < t.edges.len() ==> t.edge_ok(e),
        forall|v: int| 0 <= v < t.verts.len() ==> t.vert_ok(v),
        count_some(t.verts) == m.vcount() + o.vcount(),
        count_some(t.edges) == m.ecount() + o.ecount(),
        forall|v: usize| m.v_live(v) ==> t.v_live(v),
        forall|v: usize|
            o.v_live(v) ==> t.v_live(#[trigger] ((v + m.verts.len()) as usize)),
{
    let voff = m.verts.len();
    lemma_count_some_append(m.verts, o.verts);
    lemma_count_some_append(m.edges, shift_edges(o.edges, voff as nat));
    lemma_count_some_shift(o.edges, voff as nat);
    assert forall|e: int| 0 <= e < t.edges.len() implies t.edge_ok(e) by {
        if e < m.edges.len() {
            assert(m.edge_ok(e));
        } else {
            assert(o.edge_ok(e - m.edges.len()));
            match o.edges[e - m.edges.len()] {
                Some(r) => {
                    assert(o.v_live(r.a) && o.v_live(r.b));
                    assert(t.edges[e] == Some(
                        EdgeRec {
                            kind: r.kind,
                            a: (r.a + voff) as usize,
                            b: (r.b + voff) as usize,
                        },
                    ));
                },
                None => (),
            }
        }
    }
    assert forall|v: int| 0 <= v < t.verts.len() implies t.vert_ok(v) by {
        if v < m.verts.len() {
            assert(m.vert_ok(v));
        } else {
            assert(o.vert_ok(v - m.verts.len()));
        }
    }
}

/// Parallel composition preserves the invariant; its boundary is the two
/// boundaries concatenated in order, and its element counts are the sums.
pub proof fn lemma_tensor_wf(m: GModel, o: GModel)
    requires
        m.wf(),
        o.wf(),
        m.verts.len() + o.verts.len() <= usize::MAX,
    ensures
        m.tensor_m(o).wf(),
        m.tensor_m(o).vcount() == m.vcount() + o.vcount(),
        m.tensor_m(o).ecount() == m.ecount() + o.ecount(),
        m.tensor_m(o).inputs == m.inputs + shift_seq(o.inputs, m.verts.len() as nat),
        m.tensor_m(o).outputs == m.outputs + shift_seq(o.outputs, m.verts.len() as nat),
{
    let voff = m.verts.len();
    let t = m.tensor_m(o);
    lemma_merge_slots_wf(m, o, t);
    lemma_io_concat_wf(m, o, t.inputs, m.inputs, o.inputs);
    lemma_io_concat_wf(m, o, t.outputs, m.outputs, o.outputs);
}

/// Liveness and distinctness of a concatenated, shifted boundary sequence.
proof fn lemma_io_concat_wf(m: GModel, o: GModel, all: Seq<usize>, own: Seq<usize>, theirs: Seq<usize>)
    requires
        m.wf(),
        o.wf(),
        m.verts.len() + o.verts.len() <= usize::MAX,
        all == own + shift_seq(theirs, m.verts.len() as nat),
        forall|i: int| 0 <= i < own.len() ==> m.v_live(#[trigger] own[i]),
        forall|i: int, j: int| 0 <= i < j < own.len() ==> #[trigger] own[i] != #[trigger] own[j],
        forall|i: int| 0 <= i < theirs.len() ==> o.v_live(#[trigger] theirs[i]),
        forall|i: int, j: int|
            0 <= i < j < theirs.len() ==> #[trigger] theirs[i] != #[trigger] theirs[j],
    ensures
        forall|i: int|
            0 <= i < all.len() ==> (m.verts + o.verts).len() > #[trigger] all[i] && (m.verts
                + o.verts)[all[i] as int] is Some,
        forall|i: int, j: int| 0 <= i < j < all.len() ==> #[trigger] all[i] != #[trigger] all[j],
{
    let voff = m.verts.len();
    assert forall|i: int|
        0 <= i < all.len() implies (m.verts + o.verts).len() > #[trigger] all[i] && (m.verts
        + o.verts)[all[i] as int] is Some by {
        if i < own.len() {
            assert(m.v_live(own[i]));
        } else {
            assert(o.v_live(theirs[i - own.len()]));
            assert(all[i] == (theirs[i - own.len()] + voff) as usize);
        }
    }
    assert forall|i: int, j: int|
        0 <= i < j < all.len() implies #[trigger] all[i] != #[trigger] all[j] by {
        if i < own.len() && j < own.len() {
        } else if i < own.len() && j >= own.len() {
            assert(m.v_live(own[i]));
            assert(all[j] == (theirs[j - own.len()] + voff) as usize);
        } else {
            assert(all[i] == (theirs[i - own.len()] + voff) as usize);
            assert(all[j] == (theirs[j - own.len()] + voff) as usize);
        }
    }
}

/// The merge step of sequential composition preserves the invariant.
pub proof fn lemma_merge_wf(m: GModel, o: GModel)
    requires
        m.wf(),
        o.wf(),
        m.verts.len() + o.verts.len() <= usize::MAX,
    ensures
        m.merge_m(o).wf(),
        m.merge_m(o).vcount() == m.vcount() + o.vcount(),
        m.merge_m(o).ecount() == m.ecount() + o.ecount(),
{
    let voff = m.verts.len();
    let t = m.merge_m(o);
    lemma_merge_slots_wf(m, o, t);
    assert(t.inputs =~= m.inputs + shift_seq(Seq::empty(), m.verts.len() as nat));
    lemma_io_concat_wf(m, o, t.inputs, m.inputs, Seq::empty());
    assert(t.outputs =~= Seq::<usize>::empty() + shift_seq(o.outputs, m.verts.len() as nat));
    lemma_io_concat_wf(m, o, t.outputs, Seq::empty(), o.outputs);
}

/// Removing a value that is not present changes nothing.
pub proof fn lemma_remove_val_absent(s: Seq<usize>, v: usize)
    requires
        !s.contains(v),
    ensures
        remove_val(s, v) == s,
    decreases s.len(),
{
    if s.len() > 0 {
        assert(!s.drop_last().contains(v)) by {
            if s.drop_last().contains(v) {
                let i = choose|i: int| 0 <= i < s.drop_last().len() && s.drop_last()[i] == v;
                assert(s[i] == v);
            }
        }
        assert(s[s.len() - 1] != v);
        lemma_remove_val_absent(s.drop_last(), v);
        assert(remove_val(s, v) =~= s);
    } else {
        assert(remove_val(s, v) =~= s);
    }
}

pub proof fn lemma_inc_count_pos(edges: Seq<Option<EdgeRec>>, v: usize, i: int)
    requires
        0 <= i < edges.len(),
        is_inc(edges[i], v),
    ensures
        count_inc(edges, v) >= 1,
    decreases edges.len(),
{
    if i < edges.len() - 1 {
        lemma_inc_count_pos(edges.drop_last(), v, i);
    }
}

pub proof fn lemma_inc_unique(edges: Seq<Option<EdgeRec>>, v: usize, i: int, j: int)
    requires
        count_inc(edges, v) == 1,
        0 <= i < edges.len(),
        0 <= j < edges.len(),
        is_inc(edges[i], v),
        is_inc(edges[j], v),
    ensures
        i == j,
    decreases edges.len(),
{
    let n = edges.len() as int;
    if i == n - 1 && j == n - 1 {
    } else if i < n - 1 && j < n - 1 {
        if is_inc(edges.last(), v) {
            lemma_inc_count_pos(edges.drop_last(), v, i);
            assert(false);
        } else {
            lemma_inc_unique(edges.drop_last(), v, i, j);
        }
    } else {
        // one of them is the last slot, the other is not: the prefix then
        // holds an incident edge while the last is incident too
        let k = if i < n - 1 { i } else { j };
        lemma_inc_count_pos(edges.drop_last(), v, k);
        assert(is_inc(edges.last(), v));
        assert(false);
    }
}

pub proof fn lemma_inc_exists(edges: Seq<Option<EdgeRec>>, v: usize)
    requires
        count_inc(edges, v) >= 1,
    ensures
        exists|e: int| 0 <= e < edges.len() && is_inc(#[trigger] edges[e], v),
    decreases edges.len(),
{
    if is_inc(edges.last(), v) {
        assert(is_inc(edges[edges.len() - 1], v));
    } else {
        lemma_inc_exists(edges.drop_last(), v);
        let e = choose|e: int|
            0 <= e < edges.drop_last().len() && is_inc(#[trigger] edges.drop_last()[e], v);
        assert(is_inc(edges[e], v));
    }
}

/// When `v` has at least one incident edge, `the_inc` names one of them.
pub proof fn lemma_the_inc(edges: Seq<Option<EdgeRec>>, v: usize)
    requires
        count_inc(edges, v) >= 1,
    ensures
        0 <= the_inc(edges, v) < edges.len(),
        is_inc(edges[the_inc(edges, v)], v),
    decreases edges.len(),
{
    lemma_inc_exists(edges, v);
}

proof fn lemma_inc_transfer(s1: Seq<Option<EdgeRec>>, s2: Seq<Option<EdgeRec>>, v: usize)
    requires
        s1.len() <= s2.len(),
        forall|e: int| 0 <= e < s1.len() ==> (is_inc(#[trigger] s2[e], v) <==> is_inc(s1[e], v)),
        forall|e: int| s1.len() <= e < s2.len() ==> !is_inc(#[trigger] s2[e], v),
    ensures
        count_inc(s2, v) == count_inc(s1, v),
    decreases s2.len(),
{
    if s2.len() > s1.len() {
        lemma_inc_transfer(s1, s2.drop_last(), v);
    } else if s2.len() > 0 {
        lemma_inc_transfer(s1.drop_last(), s2.drop_last(), v);
    }
}

/// A vertex whose incident slots are untouched keeps its degree, its unique
/// wire, and that wire's far end and kind.
pub proof fn lemma_the_inc_transfer(s1: Seq<Option<EdgeRec>>, s2: Seq<Option<EdgeRec>>, v: usize)
    requires
        s1.len() <= s2.len(),
        count_inc(s1, v) == 1,
        forall|e: int| 0 <= e < s1.len() ==> (is_inc(#[trigger] s2[e], v) <==> is_inc(s1[e], v)),
        forall|e: int| 0 <= e < s1.len() ==> (is_inc(#[trigger] s1[e], v) ==> s2[e] == s1[e]),
        forall|e: int| s1.len() <= e < s2.len() ==> !is_inc(#[trigger] s2[e], v),
    ensures
        count_inc(s2, v) == 1,
        the_nbr(s2, v) == the_nbr(s1, v),
        the_kind(s2, v) == the_kind(s1, v),
{
    lemma_inc_transfer(s1, s2, v);
    lemma_the_inc(s1, v);
    lemma_the_inc(s2, v);
    let e1 = the_inc(s1, v);
    let e2 = the_inc(s2, v);
    assert(e2 < s1.len());
    lemma_inc_unique(s1, v, e2, e1);
}

/// Input/output marking preserves the invariant.
pub proof fn lemma_set_io_wf(m: GModel, v: usize, flag: bool)
    requires
        m.wf(),
    ensures
        m.set_input_m(v, flag).wf(),
        m.set_output_m(v, flag).wf(),
{
    lemma_remove_val_props(m.inputs, v);
    lemma_remove_val_props(m.outputs, v);
    let mi = m.set_input_m(v, flag);
    let mo = m.set_output_m(v, flag);
    assert forall|e: int| 0 <= e < mi.edges.len() implies mi.edge_ok(e) && mo.edge_ok(e) by {
        assert(m.edge_ok(e));
    }
    assert forall|w: int| 0 <= w < mi.verts.len() implies mi.vert_ok(w) && mo.vert_ok(w) by {
        assert(m.vert_ok(w));
    }
    if !flag {
        assert forall|j: int| 0 <= j < mi.inputs.len() implies mi.v_live(
            #[trigger] mi.inputs[j],
        ) by {
            assert(m.inputs.contains(mi.inputs[j]));
            let i = choose|i: int| 0 <= i < m.inputs.len() && m.inputs[i] == mi.inputs[j];
            assert(m.v_live(m.inputs[i]));
        }
        assert forall|j: int| 0 <= j < mo.outputs.len() implies mo.v_live(
            #[trigger] mo.outputs[j],
        ) by {
            assert(m.outputs.contains(mo.outputs[j]));
            let i = choose|i: int| 0 <= i < m.outputs.len() && m.outputs[i] == mo.outputs[j];
            assert(m.v_live(m.outputs[i]));
        }
    }
}

/// One splice: what it does to the diagram, and that the remaining pairs
/// are still spliceable afterwards.
#[verifier::rlimit(100)]
pub proof fn lemma_splice_step(m: GModel, outs: Seq<usize>, ins: Seq<usize>)
    requires
        splice_pre(m, outs, ins),
        outs.len() > 0,
    ensures
        ({
            let m1 = m.splice_one(outs[0], ins[0]);
            &&& m1.wf()
            &&& splice_pre(m1, outs.skip(1), ins.skip(1))
            &&& m1.vcount() == m.vcount() - 2
            &&& m1.ecount() == m.ecount() - 1
            &&& m1.verts.len() == m.verts.len()
            &&& m1.edges.len() == m.edges.len() + 1
            &&& m1.inputs == m.inputs
            &&& m1.outputs == m.outputs
            &&& m1.connected(the_nbr(m.edges, outs[0]), the_nbr(m.edges, ins[0]))
            &&& forall|w: usize|
                m.v_live(w) && w != outs[0] && w != ins[0] ==> #[trigger] m1.v_live(w)
            &&& m.rm_vertex(outs[0]).rm_vertex(ins[0]).v_live(the_nbr(m.edges, outs[0]))
            &&& m.rm_vertex(outs[0]).rm_vertex(ins[0]).v_live(the_nbr(m.edges, ins[0]))
        }),
{
    let o = outs[0];
    let i = ins[0];
    assert(bnd_ok(m, outs, ins, o));
    assert(bnd_ok(m, outs, ins, i));
    assert(o != i);
    lemma_the_inc(m.edges, o);
    lemma_the_inc(m.edges, i);
    let eo = the_inc(m.edges, o);
    let ei = the_inc(m.edges, i);
    let na = the_nbr(m.edges, o);
    let nb = the_nbr(m.edges, i);
    let kk = splice_kind(the_kind(m.edges, o), the_kind(m.edges, i));
    assert(m.edge_ok(eo));
    assert(m.edge_ok(ei));
    if eo == ei {
        assert(na == i);
        assert(ins.contains(na)) by {
            assert(ins[0] == i);
        }
        assert(false);
    }
    assert(m.v_live(na) && m.v_live(nb));
    assert(na != o && na != i && nb != o && nb != i) by {
        assert(outs[0] == o && ins[0] == i);
    }
    // first removal
    let mp = m.rm_vertex(o);
    lemma_rm_vertex_wf(m, o);
    lemma_remove_val_absent(m.inputs, o);
    lemma_remove_val_absent(m.outputs, o);
    assert(mp.inputs == m.inputs && mp.outputs == m.outputs);
    assert(mp.edges == clear_inc(m.edges, o));
    assert forall|e: int| 0 <= e < m.edges.len() implies (is_inc(#[trigger] mp.edges[e], i)
        <==> is_inc(m.edges[e], i)) && (is_inc(m.edges[e], i) ==> mp.edges[e] == m.edges[e]) by {
        assert(mp.edges[e] == if is_inc(m.edges[e], o) {
            None
        } else {
            m.edges[e]
        });
        if is_inc(m.edges[e], i) {
            lemma_inc_unique(m.edges, i, e, ei);
            assert(!is_inc(m.edges[e], o));
        }
    }
    lemma_the_inc_transfer(m.edges, mp.edges, i);
    // second removal
    let mq = mp.rm_vertex(i);
    assert(mp.v_live(i));
    lemma_rm_vertex_wf(mp, i);
    lemma_remove_val_absent(mp.inputs, i);
    lemma_remove_val_absent(mp.outputs, i);
    assert(mq.inputs == m.inputs && mq.outputs == m.outputs);
    assert(mq.ecount() == m.ecount() - 2);
    assert(mq.vcount() == m.vcount() - 2);
    // the new wire
    assert(mq.v_live(na) && mq.v_live(nb)) by {
        assert(mq.verts == m.verts.update(o as int, None).update(i as int, None));
    }
    lemma_add_edge_wf(mq, na, nb, kk);
    let m1 = mq.add_edge_m(na, nb, kk);
    assert(m1 == m.splice_one(o, i));
    let rec = EdgeRec {
        kind: kk,
        a: if na <= nb { na } else { nb },
        b: if na <= nb { nb } else { na },
    };
    assert(m1.edges[m1.edges.len() - 1] == Some(rec));
    assert(m1.connected(na, nb));
    // every remaining pair is untouched
    assert(mq.edges == clear_inc(clear_inc(m.edges, o), i));
    assert(m1.edges == mq.edges + seq![Some(rec)]);
    assert forall|w: usize|
        bnd_ok(m, outs, ins, w) && w != o && w != i && (outs.contains(w) || ins.contains(
            w,
        )) implies m1.v_live(w) && #[trigger] m1.degree(w) == 1 && the_nbr(m1.edges, w)
        == the_nbr(m.edges, w) && the_kind(m1.edges, w) == the_kind(m.edges, w) by {
        lemma_the_inc(m.edges, w);
        let ew = the_inc(m.edges, w);
        let nw = the_nbr(m.edges, w);
        assert(nw != o && nw != i) by {
            assert(outs[0] == o && ins[0] == i);
        }
        assert forall|e: int| 0 <= e < m.edges.len() implies (is_inc(#[trigger] mq.edges[e], w)
            <==> is_inc(m.edges[e], w)) && (is_inc(m.edges[e], w) ==> mq.edges[e]
            == m.edges[e]) by {
            assert(mq.edges[e] == if is_inc(clear_inc(m.edges, o)[e], i) {
                None
            } else {
                clear_inc(m.edges, o)[e]
            });
            assert(clear_inc(m.edges, o)[e] == if is_inc(m.edges[e], o) {
                None
            } else {
                m.edges[e]
            });
            if is_inc(m.edges[e], w) {
                lemma_inc_unique(m.edges, w, e, ew);
                assert(!is_inc(m.edges[e], o) && !is_inc(m.edges[e], i));
            }
        }
        assert forall|e: int|
            m.edges.len() <= e < m1.edges.len() implies !is_inc(#[trigger] m1.edges[e], w) by {
            assert(m1.edges[e] == Some(rec));
            assert(na != w && nb != w);
        }
        assert forall|e: int| 0 <= e < m.edges.len() implies (is_inc(#[trigger] m1.edges[e], w)
            <==> is_inc(m.edges[e], w)) && (is_inc(m.edges[e], w) ==> m1.edges[e]
            == m.edges[e]) by {
            assert(m1.edges[e] == mq.edges[e]);
        }
        lemma_the_inc_transfer(m.edges, m1.edges, w);
        assert(m1.verts == m.verts.update(o as int, None).update(i as int, None));
    }
    // and the remaining lists still satisfy the precondition
    assert forall|j: int| 0 <= j < outs.skip(1).len() implies bnd_ok(
        m1,
        outs.skip(1),
        ins.skip(1),
        #[trigger] outs.skip(1)[j],
    ) by {
        let w = outs.skip(1)[j];
        assert(w == outs[j + 1]);
        assert(bnd_ok(m, outs, ins, w));
        assert(w != o && w != i);
        assert(outs.contains(w)) by {
            assert(outs[j + 1] == w);
        }
        assert(m1.degree(w) == 1);
        assert(!outs.skip(1).contains(the_nbr(m1.edges, w))) by {
            if outs.skip(1).contains(the_nbr(m1.edges, w)) {
                let x = choose|x: int|
                    0 <= x < outs.skip(1).len() && outs.skip(1)[x] == the_nbr(m1.edges, w);
                assert(outs[x + 1] == the_nbr(m.edges, w));
            }
        }
        assert(!ins.skip(1).contains(the_nbr(m1.edges, w))) by {
            if ins.skip(1).contains(the_nbr(m1.edges, w)) {
                let x = choose|x: int|
                    0 <= x < ins.skip(1).len() && ins.skip(1)[x] == the_nbr(m1.edges, w);
                assert(ins[x + 1] == the_nbr(m.edges, w));
            }
        }
    }
    assert forall|j: int| 0 <= j < ins.skip(1).len() implies bnd_ok(
        m1,
        outs.skip(1),
        ins.skip(1),
        #[trigger] ins.skip(1)[j],
    ) by {
        let w = ins.skip(1)[j];
        assert(w == ins[j + 1]);
        assert(bnd_ok(m, outs, ins, w));
        assert(w != o && w != i);
        assert(ins.contains(w)) by {
            assert(ins[j + 1] == w);
        }
        assert(m1.degree(w) == 1);
        assert(!outs.skip(1).contains(the_nbr(m1.edges, w))) by {
            if outs.skip(1).contains(the_nbr(m1.edges, w)) {
                let x = choose|x: int|
                    0 <= x < outs.skip(1).len() && outs.skip(1)[x] == the_nbr(m1.edges, w);
                assert(outs[x + 1] == the_nbr(m.edges, w));
            }
        }
        assert(!ins.skip(1).contains(the_nbr(m1.edges, w))) by {
            if ins.skip(1).contains(the_nbr(m1.edges, w)) {
                let x = choose|x: int|
                    0 <= x < ins.skip(1).len() && ins.skip(1)[x] == the_nbr(m1.edges, w);
                assert(ins[x + 1] == the_nbr(m.edges, w));
            }
        }
    }
    assert forall|a: int, b: int| 0 <= a < b < outs.skip(1).len() implies #[trigger] outs.skip(
        1,
    )[a] != #[trigger] outs.skip(1)[b] by {
        assert(outs.skip(1)[a] == outs[a + 1] && outs.skip(1)[b] == outs[b + 1]);
    }
    assert forall|a: int, b: int| 0 <= a < b < ins.skip(1).len() implies #[trigger] ins.skip(
        1,
    )[a] != #[trigger] ins.skip(1)[b] by {
        assert(ins.skip(1)[a] == ins[a + 1] && ins.skip(1)[b] == ins[b + 1]);
    }
    assert forall|a: int, b: int|
        0 <= a < outs.skip(1).len() && 0 <= b < ins.skip(1).len() implies #[trigger] outs.skip(
        1,
    )[a] != #[trigger] ins.skip(1)[b] by {
        assert(outs.skip(1)[a] == outs[a + 1] && ins.skip(1)[b] == ins[b + 1]);
    }
}

/// `splice_all` may equally be read front-first: splicing the first pair
/// and then the rest.
proof fn lemma_splice_all_shift(m: GModel, outs: Seq<usize>, ins: Seq<usize>)
    requires
        outs.len() == ins.len(),
        outs.len() > 0,
    ensures
        m.splice_all(outs, ins) == m.splice_one(outs[0], ins[0]).splice_all(
            outs.skip(1),
            ins.skip(1),
        ),
    decreases outs.len(),
{
    let m1 = m.splice_one(outs[0], ins[0]);
    assert(m.splice_all(outs, ins) == m.splice_all(outs.drop_last(), ins.drop_last()).splice_one(
        outs.last(),
        ins.last(),
    ));
    if outs.len() == 1 {
        assert(outs.drop_last().len() == 0);
        assert(m.splice_all(outs.drop_last(), ins.drop_last()) == m);
        assert(outs.skip(1).len() == 0);
        assert(m1.splice_all(outs.skip(1), ins.skip(1)) == m1);
        assert(outs.last() == outs[0] && ins.last() == ins[0]);
    } else {
        lemma_splice_all_shift(m, outs.drop_last(), ins.drop_last());
        assert(outs.skip(1).len() > 0);
        assert(m1.splice_all(outs.skip(1), ins.skip(1)) == m1.splice_all(
            outs.skip(1).drop_last(),
            ins.skip(1).drop_last(),
        ).splice_one(outs.skip(1).last(), ins.skip(1).last()));
        assert(outs.skip(1).drop_last() =~= outs.drop_last().skip(1));
        assert(ins.skip(1).drop_last() =~= ins.drop_last().skip(1));
        assert(outs.skip(1).last() == outs.last());
        assert(ins.skip(1).last() == ins.last());
        assert(outs.drop_last()[0] == outs[0] && ins.drop_last()[0] == ins[0]);
    }
}

/// Splicing `k` boundary pairs removes `2 k` vertices and `k` edges in all,
/// keeps the boundary marking, and preserves the invariant.
pub proof fn lemma_splice_all_props(m: GModel, outs: Seq<usize>, ins: Seq<usize>)
    requires
        splice_pre(m, outs, ins),
    ensures
        m.splice_all(outs, ins).wf(),
        m.splice_all(outs, ins).vcount() == m.vcount() - 2 * outs.len(),
        m.splice_all(outs, ins).ecount() == m.ecount() - outs.len(),
        m.splice_all(outs, ins).verts.len() == m.verts.len(),
        m.splice_all(outs, ins).edges.len() == m.edges.len() + outs.len(),
        m.splice_all(outs, ins).inputs == m.inputs,
        m.splice_all(outs, ins).outputs == m.outputs,
    decreases outs.len(),
{
    if outs.len() > 0 {
        lemma_splice_step(m, outs, ins);
        lemma_splice_all_shift(m, outs, ins);
        lemma_splice_all_props(m.splice_one(outs[0], ins[0]), outs.skip(1), ins.skip(1));
    }
}

/// Sequential composition: counts add, minus two vertices and one edge per
/// spliced boundary pair; the composite keeps this diagram's inputs and
/// takes the other's (shifted) outputs.
pub proof fn lemma_compose_props(a: GModel, b: GModel)
    requires
        a.wf(),
        b.wf(),
        a.verts.len() + b.verts.len() <= usize::MAX,
        a.outputs.len() == b.inputs.len(),
        splice_pre(a.merge_m(b), a.outputs, shift_seq(b.inputs, a.verts.len() as nat)),
    ensures
        a.compose_m(b).wf(),
        a.compose_m(b).vcount() == a.vcount() + b.vcount() - 2 * a.outputs.len(),
        a.compose_m(b).ecount() == a.ecount() + b.ecount() - a.outputs.len(),
        a.compose_m(b).inputs == a.inputs,
        a.compose_m(b).outputs == shift_seq(b.outputs, a.verts.len() as nat),
{
    lemma_merge_wf(a, b);
    lemma_splice_all_props(
        a.merge_m(b),
        a.outputs,
        shift_seq(b.inputs, a.verts.len() as nat),
    );
}

/// One spliced pair: for a diagram with a single degree-1 output wired to
/// `n_A` and another with a single degree-1 input wired to `n_B`, the
/// composite loses exactly those two boundary vertices and gains one direct
/// wire joining `n_A` and `n_B`.
pub proof fn lemma_compose_single_splice(a: GModel, b: GModel)
    requires
        a.wf(),
        b.wf(),
        a.verts.len() + b.verts.len() <= usize::MAX,
        a.outputs.len() == 1,
        b.inputs.len() == 1,
        splice_pre(a.merge_m(b), a.outputs, shift_seq(b.inputs, a.verts.len() as nat)),
    ensures
        a.compose_m(b).vcount() == a.vcount() + b.vcount() - 2,
        a.compose_m(b).ecount() == a.ecount() + b.ecount() - 1,
        a.compose_m(b).connected(
            the_nbr(a.merge_m(b).edges, a.outputs[0]),
            the_nbr(a.merge_m(b).edges, shift_seq(b.inputs, a.verts.len() as nat)[0]),
        ),
{
    let mm = a.merge_m(b);
    let outs = a.outputs;
    let ins = shift_seq(b.inputs, a.verts.len() as nat);
    lemma_merge_wf(a, b);
    lemma_compose_props(a, b);
    lemma_splice_step(mm, outs, ins);
    lemma_splice_all_shift(mm, outs, ins);
    assert(outs.skip(1).len() == 0);
    assert(a.compose_m(b) == mm.splice_one(outs[0], ins[0]));
}

/// Removing a live vertex of degree `k` removes exactly its `k` incident
/// edges; removing it again changes nothing.
pub proof fn lemma_removal_cascade(m: GModel, v: usize)
    requires
        m.wf(),
        m.v_live(v),
    ensures
        m.rm_vertex(v).vcount() == m.vcount() - 1,
        m.rm_vertex(v).ecount() == m.ecount() - m.degree(v),
        m.rm_vertex(v).rm_vertex(v) == m.rm_vertex(v),
{
    lemma_rm_vertex_wf(m, v);
    lemma_rm_vertex_wf(m.rm_vertex(v), v);
}

/// Removing an absent handle is a no-op, however often it is repeated.
pub proof fn lemma_remove_absent_noop(m: GModel, v: usize)
    requires
        !m.v_live(v),
    ensures
        m.rm_vertex(v) == m,
        m.rm_vertex(v).rm_vertex(v) == m,
{
}

/// Indices of the live vertices marked as grounded, in ascending order.
pub open spec fn ground_indices(s: Seq<Option<VertexData>>) -> Seq<usize>
    decreases s.len(),
{
    if s.len() == 0 {
        Seq::empty()
    } else {
        ground_indices(s.drop_last()) + if s.last() matches Some(vd) && vd.ground {
            seq![(s.len() - 1) as usize]
        } else {
            Seq::empty()
        }
    }
}

/// One more than the largest row of any live vertex; `0` for no vertices.
pub open spec fn depth_of(s: Seq<Option<VertexData>>) -> nat
    decreases s.len(),
{
    if s.len() == 0 {
        0
    } else {
        let rest = depth_of(s.drop_last());
        match s.last() {
            Some(vd) => if vd.row + 1 > rest {
                (vd.row + 1) as nat
            } else {
                rest
            },
            None => rest,
        }
    }
}

/// The qubit coordinates of the live vertices, in slot order.
pub open spec fn qubits_of(s: Seq<Option<VertexData>>) -> Seq<u32>
    decreases s.len(),
{
    if s.len() == 0 {
        Seq::empty()
    } else {
        qubits_of(s.drop_last()) + match s.last() {
            Some(vd) => seq![vd.qubit],
            None => Seq::empty(),
        }
    }
}

/// How many distinct values a sequence holds.
pub open spec fn count_distinct(s: Seq<u32>) -> nat
    decreases s.len(),
{
    if s.len() == 0 {
        0
    } else {
        count_distinct(s.drop_last()) + if s.drop_last().contains(s.last()) {
            0nat
        } else {
            1nat
        }
    }
}

/// Live vertices among the first `upto` slots whose degree is `d`.
pub open spec fn count_deg_upto(m: GModel, d: nat, upto: int) -> nat
    decreases upto,
{
    if upto <= 0 {
        0
    } else {
        count_deg_upto(m, d, upto - 1) + if m.verts[upto - 1] is Some && m.degree(
            (upto - 1) as usize,
        ) == d {
            1nat
        } else {
            0nat
        }
    }
}

/// Live vertices whose degree is `d`.
pub open spec fn count_deg(m: GModel, d: nat) -> nat {
    count_deg_upto(m, d, m.verts.len() as int)
}

/// The degree histogram up to degree `d - 1`: one `(degree, count)` entry
/// per degree value that occurs, ascending.
pub open spec fn hist_upto(m: GModel, d: int) -> Seq<(usize, usize)>
    decreases d,
{
    if d <= 0 {
        Seq::empty()
    } else {
        hist_upto(m, d - 1) + if count_deg(m, (d - 1) as nat) >= 1 {
            seq![(((d - 1) as usize), count_deg(m, (d - 1) as nat) as usize)]
        } else {
            Seq::empty()
        }
    }
}

/// The full degree histogram: no live vertex has a degree past the number
/// of edge slots, so every occurring degree is listed.
pub open spec fn hist_of(m: GModel) -> Seq<(usize, usize)> {
    hist_upto(m, m.edges.len() as int + 1)
}

pub proof fn lemma_count_some_update_some<T>(s: Seq<Option<T>>, i: int, x: T)
    requires
        0 <= i < s.len(),
        s[i] is Some,
    ensures
        count_some(s.update(i, Some(x))) == count_some(s),
    decreases s.len(),
{
    let t = s.update(i, Some(x));
    if i == s.len() - 1 {
        assert(t.drop_last() =~= s.drop_last());
    } else {
        lemma_count_some_update_some(s.drop_last(), i, x);
        assert(t.drop_last() =~= s.drop_last().update(i, Some(x)));
        assert(t.last() == s.last());
    }
}

/// Replacing a live vertex's attributes by canonical ones preserves the
/// invariant and all counts.
pub proof fn lemma_set_vdata_wf(m: GModel, v: usize, vd: VertexData)
    requires
        m.wf(),
        vd.phase.canonical(),
    ensures
        m.set_vdata(v, vd).wf(),
        m.set_vdata(v, vd).vcount() == m.vcount(),
        m.set_vdata(v, vd).ecount() == m.ecount(),
{
    let m1 = m.set_vdata(v, vd);
    if m.v_live(v) {
        lemma_count_some_update_some(m.verts, v as int, vd);
        assert forall|e: int| 0 <= e < m1.edges.len() implies m1.edge_ok(e) by {
            assert(m.edge_ok(e));
        }
        assert forall|w: int| 0 <= w < m1.verts.len() implies m1.vert_ok(w) by {
            assert(m.vert_ok(w));
        }
        assert forall|j: int| 0 <= j < m1.inputs.len() implies m1.v_live(
            #[trigger] m1.inputs[j],
        ) by {
            assert(m.v_live(m.inputs[j]));
        }
        assert forall|j: int| 0 <= j < m1.outputs.len() implies m1.v_live(
            #[trigger] m1.outputs[j],
        ) by {
            assert(m.v_live(m.outputs[j]));
        }
    }
}

/// Changing a live edge's kind preserves the invariant and all counts.
pub proof fn lemma_set_ekind_wf(m: GModel, e: usize, k: EdgeKind)
    requires
        m.wf(),
    ensures
        m.set_ekind(e, k).wf(),
        m.set_ekind(e, k).vcount() == m.vcount(),
        m.set_ekind(e, k).ecount() == m.ecount(),
{
    let m1 = m.set_ekind(e, k);
    if m.e_live(e) {
        lemma_count_some_update_some(
            m.edges,
            e as int,
            EdgeRec { kind: k, ..m.edges[e as int].unwrap() },
        );
        assert forall|j: int| 0 <= j < m1.edges.len() implies m1.edge_ok(j) by {
            assert(m.edge_ok(j));
        }
        assert forall|w: int| 0 <= w < m1.verts.len() implies m1.vert_ok(w) by {
            assert(m.vert_ok(w));
        }
    }
}

} // verus!
