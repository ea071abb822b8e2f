//! Deduplicating mesh builders.
//!
//! A builder accepts geometric faces, welds vertices by exact value (the
//! first occurrence of a vertex value is assigned the next index; later
//! identical vertices reuse it), and silently drops a face whose unordered
//! set of vertex indices was already added, whatever rotation or winding it
//! arrives in. `build` consumes the builder and emits the canonical mesh.
//!
//! The contracts pin the whole builder state to the spec-level model
//! `quad_add_face` / `tri_add_face`, so the output of a sequence of calls
//! is a function of the inputs alone.

use vstd::prelude::*;

use crate::mesh::{Mesh, Vertex, VertexIndex};

verus! {

/// No vertex value occurs twice.
pub open spec fn distinct(vs: Seq<Vertex>) -> bool {
    forall|i: int, j: int| 0 <= i < j < vs.len() ==> vs[i] != vs[j]
}

/// The index of `v` in a duplicate-free vertex list (meaningful only when
/// `v` is present).
pub open spec fn vert_index(vs: Seq<Vertex>, v: Vertex) -> int {
    choose|i: int| 0 <= i < vs.len() && vs[i] == v
}

pub proof fn lemma_vert_index(vs: Seq<Vertex>, v: Vertex)
    requires
        distinct(vs),
        vs.contains(v),
    ensures
        0 <= vert_index(vs, v) < vs.len(),
        vs[vert_index(vs, v)] == v,
        forall|j: int| 0 <= j < vs.len() && vs[j] == v ==> j == vert_index(vs, v),
{
    let i = choose|i: int| 0 <= i < vs.len() && vs[i] == v;
    assert(vs[i] == v);
}

/// Welds one vertex: an already-known value leaves the list unchanged, a
/// new value is appended.
pub open spec fn add_vert_seq(vs: Seq<Vertex>, v: Vertex) -> Seq<Vertex> {
    if vs.contains(v) {
        vs
    } else {
        vs.push(v)
    }
}

/// Welds four vertices in order.
pub open spec fn add_vert_seq4(vs: Seq<Vertex>, a: Vertex, b: Vertex, c: Vertex, d: Vertex) -> Seq<
    Vertex,
> {
    add_vert_seq(add_vert_seq(add_vert_seq(add_vert_seq(vs, a), b), c), d)
}

/// A retained quad, as the four vertex indices in original winding order.
#[derive(Clone, Copy, PartialEq, Eq, Structural, Debug)]
pub struct QuadFace {
    pub a: VertexIndex,
    pub b: VertexIndex,
    pub c: VertexIndex,
    pub d: VertexIndex,
}

/// One compare-and-swap of a sorting network.
pub open spec fn cswap(x: u32, y: u32) -> (u32, u32) {
    if x <= y {
        (x, y)
    } else {
        (y, x)
    }
}

/// The four values sorted ascending: the canonical form of an unordered
/// index quadruple.
pub open spec fn sort4(v0: u32, v1: u32, v2: u32, v3: u32) -> (u32, u32, u32, u32) {
    let (a0, a1) = cswap(v0, v1);
    let (b0, b1) = cswap(v2, v3);
    let (c0, c2) = cswap(a0, b0);
    let (c1, c3) = cswap(a1, b1);
    let (d1, d2) = cswap(c1, c2);
    (c0, d1, d2, c3)
}

/// The dedup key of a quad: its indices in ascending order, ignoring
/// rotation and winding.
pub open spec fn quad_key(f: QuadFace) -> (u32, u32, u32, u32) {
    sort4(f.a, f.b, f.c, f.d)
}

/// Some already-retained quad has the same unordered index set.
pub open spec fn quad_key_present(fs: Seq<QuadFace>, q: QuadFace) -> bool {
    exists|i: int| 0 <= i < fs.len() && quad_key(#[trigger] fs[i]) == quad_key(q)
}

/// The builder-state transition of one `add_face` call: weld the four
/// vertices, then retain the index quadruple unless its unordered set was
/// already retained.
pub open spec fn quad_add_face(
    vs: Seq<Vertex>,
    fs: Seq<QuadFace>,
    tl: Vertex,
    tr: Vertex,
    bl: Vertex,
    br: Vertex,
) -> (Seq<Vertex>, Seq<QuadFace>) {
    let vs1 = add_vert_seq4(vs, tl, tr, bl, br);
    let q = QuadFace {
        a: vert_index(vs1, tl) as u32,
        b: vert_index(vs1, tr) as u32,
        c: vert_index(vs1, bl) as u32,
        d: vert_index(vs1, br) as u32,
    };
    if quad_key_present(fs, q) {
        (vs1, fs)
    } else {
        (vs1, fs.push(q))
    }
}

/// A face's 4 vertex indices sorted ascending, used purely as a dedup key;
/// the winding-preserving original tuple is kept separately.
#[derive(Clone, Copy, PartialEq, Eq, Structural, Debug)]
pub struct SortedFace(pub VertexIndex, pub VertexIndex, pub VertexIndex, pub VertexIndex);

impl SortedFace {
    pub fn new(v0: VertexIndex, v1: VertexIndex, v2: VertexIndex, v3: VertexIndex) -> (r:
        SortedFace)
        ensures
            (r.0, r.1, r.2, r.3) == sort4(v0, v1, v2, v3),
    {
        let (a0, a1) = if v0 <= v1 {
            (v0, v1)
        } else {
            (v1, v0)
        };
        let (b0, b1) = if v2 <= v3 {
            (v2, v3)
        } else {
            (v3, v2)
        };
        let (c0, c2) = if a0 <= b0 {
            (a0, b0)
        } else {
            (b0, a0)
        };
        let (c1, c3) = if a1 <= b1 {
            (a1, b1)
        } else {
            (b1, a1)
        };
        let (d1, d2) = if c1 <= c2 {
            (c1, c2)
        } else {
            (c2, c1)
        };
        SortedFace(c0, d1, d2, c3)
    }
}

/// Constructs a `Mesh` from a series of quad faces, welding vertices and
/// dropping duplicate faces.
pub struct QuadMeshBuilder {
    vertices: Vec<Vertex>,
    faces: Vec<QuadFace>,
}

impl QuadMeshBuilder {
    /// The vertex values welded so far, in first-seen order; position is
    /// index.
    pub closed spec fn verts(&self) -> Seq<Vertex> {
        self.vertices@
    }

    /// The retained faces, in insertion order.
    pub closed spec fn faces(&self) -> Seq<QuadFace> {
        self.faces@
    }

    /// Vertices are unique, indices in range, and no two retained faces
    /// share an unordered index set.
    pub open spec fn wf(&self) -> bool {
        &&& distinct(self.verts())
        &&& self.verts().len() <= u32::MAX
        &&& forall|i: int|
            0 <= i < self.faces().len() ==> (#[trigger] self.faces()[i]).a < self.verts().len()
                && self.faces()[i].b < self.verts().len() && self.faces()[i].c < self.verts().len()
                && self.faces()[i].d < self.verts().len()
        &&& forall|i: int, j: int|
            0 <= i < j < self.faces().len() ==> quad_key(#[trigger] self.faces()[i]) != quad_key(
                #[trigger] self.faces()[j],
            )
    }

    pub fn new() -> (b: QuadMeshBuilder)
        ensures
            b.wf(),
            b.verts() == Seq::<Vertex>::empty(),
            b.faces() == Seq::<QuadFace>::empty(),
    {
        QuadMeshBuilder { vertices: Vec::new(), faces: Vec::new() }
    }

    /// Welds one vertex value and returns its index.
    fn add_vertex(&mut self, v: Vertex) -> (idx: VertexIndex)
        requires
            old(self).wf(),
            old(self).verts().len() < u32::MAX,
        ensures
            final(self).wf(),
            final(self).verts() == add_vert_seq(old(self).verts(), v),
            final(self).faces() == old(self).faces(),
            final(self).verts().contains(v),
            idx == vert_index(final(self).verts(), v),
            idx < final(self).verts().len(),
    {
        let n = self.vertices.len();
        let mut i: usize = 0;
        while i < n
            invariant
                *self == *old(self),
                old(self).wf(),
                n == self.vertices@.len(),
                i <= n,
                forall|j: int| 0 <= j < i ==> self.vertices@[j] != v,
            decreases n - i,
        {
            if self.vertices[i] == v {
                proof {
                    assert(self.verts()[i as int] == v);
                    assert(self.verts().contains(v));
                    lemma_vert_index(self.verts(), v);
                }
                return i as u32;
            }
            i += 1;
        }
        proof {
            assert(!self.verts().contains(v));
        }
        let ghost old_vs = self.vertices@;
        self.vertices.push(v);
        proof {
            assert(self.verts() == add_vert_seq(old_vs, v));
            assert(self.verts()[n as int] == v);
            assert(self.verts().contains(v));
            assert forall|a: int, b: int| 0 <= a < b < self.verts().len() implies self.verts()[a]
                != self.verts()[b] by {
                if b < n {
                } else {
                    assert(self.verts()[a] == old_vs[a]);
                    assert(!old_vs.contains(v) ==> old_vs[a] != v);
                }
            }
            lemma_vert_index(self.verts(), v);
            assert(self.faces() == old(self).faces());
            assert forall|k: int| 0 <= k < self.faces().len() implies (#[trigger] self.faces()[k]).a
                < self.verts().len() && self.faces()[k].b < self.verts().len()
                && self.faces()[k].c < self.verts().len() && self.faces()[k].d
                < self.verts().len() by {
                assert(old(self).faces()[k].a < old(self).verts().len());
                assert(old(self).faces()[k].b < old(self).verts().len());
                assert(old(self).faces()[k].c < old(self).verts().len());
                assert(old(self).faces()[k].d < old(self).verts().len());
            }
        }
        n as u32
    }

    /// Adds one quad, given in winding order top-left, top-right,
    /// bottom-left, bottom-right. Welds the four vertices; drops the face
    /// if its unordered index set was already added.
    pub fn add_face(&mut self, top_left: Vertex, top_right: Vertex, bottom_left: Vertex,
        bottom_right: Vertex)
        requires
            old(self).wf(),
            old(self).verts().len() + 4 <= u32::MAX,
        ensures
            final(self).wf(),
            final(self).verts() == quad_add_face(
                old(self).verts(),
                old(self).faces(),
                top_left,
                top_right,
                bottom_left,
                bottom_right,
            ).0,
            final(self).faces() == quad_add_face(
                old(self).verts(),
                old(self).faces(),
                top_left,
                top_right,
                bottom_left,
                bottom_right,
            ).1,
            final(self).verts().len() <= old(self).verts().len() + 4,
            final(self).faces().len() <= old(self).faces().len() + 1,
    {
        let ghost vs0 = self.verts();
        let tl_idx = self.add_vertex(top_left);
        let ghost vs_a = self.verts();
        let tr_idx = self.add_vertex(top_right);
        let ghost vs_b = self.verts();
        let bl_idx = self.add_vertex(bottom_left);
        let ghost vs_c = self.verts();
        let br_idx = self.add_vertex(bottom_right);
        let ghost vs1 = self.verts();
        proof {
            assert(vs1 == add_vert_seq4(vs0, top_left, top_right, bottom_left, bottom_right));
            lemma_add_vert_seq_stable(vs_a, top_left, top_right);
            lemma_add_vert_seq_stable(vs_b, top_left, bottom_left);
            lemma_add_vert_seq_stable(vs_c, top_left, bottom_right);
            lemma_add_vert_seq_stable(vs_b, top_right, bottom_left);
            lemma_add_vert_seq_stable(vs_c, top_right, bottom_right);
            lemma_add_vert_seq_stable(vs_c, bottom_left, bottom_right);
            assert(tl_idx == vert_index(vs1, top_left));
            assert(tr_idx == vert_index(vs1, top_right));
            assert(bl_idx == vert_index(vs1, bottom_left));
            assert(br_idx == vert_index(vs1, bottom_right));
        }
        let q = QuadFace { a: tl_idx, b: tr_idx, c: bl_idx, d: br_idx };
        let key = SortedFace::new(q.a, q.b, q.c, q.d);
        let ghost mid = *self;
        let n = self.faces.len();
        let mut i: usize = 0;
        while i < n
            invariant
                *self == mid,
                mid.wf(),
                mid.verts() == vs1,
                mid.faces() == old(self).faces(),
                vs1 == add_vert_seq4(
                    old(self).verts(),
                    top_left,
                    top_right,
                    bottom_left,
                    bottom_right,
                ),
                q.a == vert_index(vs1, top_left) && q.b == vert_index(vs1, top_right) && q.c
                    == vert_index(vs1, bottom_left) && q.d == vert_index(vs1, bottom_right),
                n == self.faces@.len(),
                i <= n,
                (key.0, key.1, key.2, key.3) == quad_key(q),
                forall|j: int| 0 <= j < i ==> quad_key(#[trigger] self.faces@[j]) != quad_key(q),
            decreases n - i,
        {
            let f = self.faces[i];
            let fkey = SortedFace::new(f.a, f.b, f.c, f.d);
            if fkey.0 == key.0 && fkey.1 == key.1 && fkey.2 == key.2 && fkey.3 == key.3 {
                proof {
                    assert(quad_key(self.faces@[i as int]) == quad_key(q));
                    assert(quad_key_present(self.faces(), q));
                }
                return ;
            }
            i += 1;
        }
        proof {
            assert(!quad_key_present(self.faces(), q));
        }
        self.faces.push(q);
    }

    /// Emits the final mesh: the welded vertex list in first-seen order,
    /// and every retained quad split into two triangles along the fixed
    /// diagonal, preserving the quad's winding. Every emitted index is a
    /// valid vertex index.
    pub fn build(self) -> (m: Mesh)
        requires
            self.wf(),
        ensures
            m.vertices@ == self.verts(),
            m.faces@ == expand_quads(self.faces()),
            m.faces@.len() == 6 * self.faces().len(),
            distinct(m.vertices@),
            m.wf(),
    {
        proof {
            lemma_expand_quads_len(self.faces());
        }
        let QuadMeshBuilder { vertices, faces } = self;
        proof {
            assert(vertices@ == self.verts());
            assert(faces@ == self.faces());
        }
        let n = faces.len();
        let mut out: Vec<VertexIndex> = Vec::new();
        let mut i: usize = 0;
        while i < n
            invariant
                n == faces@.len(),
                i <= n,
                out@ == expand_quads(faces@.take(i as int)),
                forall|k: int|
                    0 <= k < faces@.len() ==> (#[trigger] faces@[k]).a < vertices@.len()
                        && faces@[k].b < vertices@.len() && faces@[k].c < vertices@.len()
                        && faces@[k].d < vertices@.len(),
                forall|k: int| 0 <= k < out@.len() ==> (#[trigger] out@[k]) < vertices@.len(),
            decreases n - i,
        {
            let f = faces[i];
            out.push(f.a);
            out.push(f.c);
            out.push(f.d);
            out.push(f.b);
            out.push(f.a);
            out.push(f.d);
            proof {
                assert(faces@.take(i + 1).drop_last() == faces@.take(i as int));
                assert(faces@.take(i + 1).last() == faces@[i as int]);
                assert(out@ == expand_quads(faces@.take(i + 1)));
            }
            i += 1;
        }
        proof {
            assert(faces@.take(n as int) == faces@);
        }
        Mesh::from_geometry(vertices, out)
    }
}

/// The two triangles of a quad, split along the fixed diagonal and keeping
/// the quad's winding.
pub open spec fn expand_quad(f: QuadFace) -> Seq<VertexIndex> {
    seq![f.a, f.c, f.d, f.b, f.a, f.d]
}

/// The flattened triangle-index list of a retained-quad sequence.
pub open spec fn expand_quads(fs: Seq<QuadFace>) -> Seq<VertexIndex>
    decreases fs.len(),
{
    if fs.len() == 0 {
        Seq::empty()
    } else {
        expand_quads(fs.drop_last()) + expand_quad(fs.last())
    }
}

/// Welding one more value does not move any value already welded.
proof fn lemma_add_vert_seq_stable(vs: Seq<Vertex>, v: Vertex, u: Vertex)
    requires
        distinct(vs),
        vs.contains(v),
    ensures
        vert_index(add_vert_seq(vs, u), v) == vert_index(vs, v),
        add_vert_seq(vs, u).contains(v),
        distinct(add_vert_seq(vs, u)),
{
    let vs1 = add_vert_seq(vs, u);
    if vs.contains(u) {
    } else {
        assert(vs1 == vs.push(u));
        assert(vs1[vert_index(vs, v)] == v);
        assert forall|a: int, b: int| 0 <= a < b < vs1.len() implies vs1[a] != vs1[b] by {
            if b < vs.len() {
            } else {
                assert(vs1[a] == vs[a]);
                assert(vs[a] != u);
            }
        }
        lemma_vert_index(vs1, v);
        assert(vs[vert_index(vs1, v)] == v);
        lemma_vert_index(vs, v);
    }
}

/// Welding an arbitrary value keeps the list duplicate-free and keeps every
/// present value present.
proof fn lemma_add_vert_seq_basic(vs: Seq<Vertex>, u: Vertex)
    requires
        distinct(vs),
    ensures
        distinct(add_vert_seq(vs, u)),
        add_vert_seq(vs, u).contains(u),
        forall|x: Vertex| vs.contains(x) ==> add_vert_seq(vs, u).contains(x),
        vs.len() <= add_vert_seq(vs, u).len() <= vs.len() + 1,
{
    let vs1 = add_vert_seq(vs, u);
    if vs.contains(u) {
    } else {
        assert(vs1 == vs.push(u));
        assert(vs1[vs.len() as int] == u);
        assert forall|a: int, b: int| 0 <= a < b < vs1.len() implies vs1[a] != vs1[b] by {
            if b < vs.len() {
            } else {
                assert(vs1[a] == vs[a]);
                assert(vs[a] != u);
            }
        }
        assert forall|x: Vertex| vs.contains(x) implies vs1.contains(x) by {
            let j = choose|j: int| 0 <= j < vs.len() && vs[j] == x;
            assert(vs1[j] == x);
        }
    }
}

/// Sorting a quadruple is invariant under rotating it.
pub proof fn lemma_sort4_rotation(a: u32, b: u32, c: u32, d: u32)
    ensures
        sort4(b, c, d, a) == sort4(a, b, c, d),
        sort4(c, d, a, b) == sort4(a, b, c, d),
        sort4(d, a, b, c) == sort4(a, b, c, d),
{
}

/// Dedup law for the quad builder: after adding a face, adding it again
/// with the same four vertex values in any rotation changes neither the
/// welded vertex list nor the retained faces; and the first call grows the
/// vertex list by at most the four (not necessarily distinct) values it
/// welds, each new value only if it was absent.
pub proof fn lemma_quad_add_face_dedup(
    vs: Seq<Vertex>,
    fs: Seq<QuadFace>,
    a: Vertex,
    b: Vertex,
    c: Vertex,
    d: Vertex,
    e: Vertex,
    f: Vertex,
    g: Vertex,
    h: Vertex,
)
    requires
        distinct(vs),
        vs.len() + 4 <= u32::MAX,
        (e, f, g, h) == (a, b, c, d) || (e, f, g, h) == (b, c, d, a) || (e, f, g, h) == (
            c,
            d,
            a,
            b,
        ) || (e, f, g, h) == (d, a, b, c),
    ensures
        ({
            let (vs1, fs1) = quad_add_face(vs, fs, a, b, c, d);
            let (vs2, fs2) = quad_add_face(vs1, fs1, e, f, g, h);
            vs2 == vs1 && fs2 == fs1 && vs.len() <= vs1.len() <= vs.len() + 4
        }),
{
    let (vs1, fs1) = quad_add_face(vs, fs, a, b, c, d);
    lemma_add_vert_seq_basic(vs, a);
    lemma_add_vert_seq_basic(add_vert_seq(vs, a), b);
    lemma_add_vert_seq_basic(add_vert_seq(add_vert_seq(vs, a), b), c);
    lemma_add_vert_seq_basic(add_vert_seq(add_vert_seq(add_vert_seq(vs, a), b), c), d);
    assert(distinct(vs1));
    assert(vs1.contains(a) && vs1.contains(b) && vs1.contains(c) && vs1.contains(d));
    assert(add_vert_seq4(vs1, e, f, g, h) == vs1);
    let q1 = QuadFace {
        a: vert_index(vs1, a) as u32,
        b: vert_index(vs1, b) as u32,
        c: vert_index(vs1, c) as u32,
        d: vert_index(vs1, d) as u32,
    };
    let q2 = QuadFace {
        a: vert_index(vs1, e) as u32,
        b: vert_index(vs1, f) as u32,
        c: vert_index(vs1, g) as u32,
        d: vert_index(vs1, h) as u32,
    };
    lemma_sort4_rotation(q1.a, q1.b, q1.c, q1.d);
    assert(quad_key(q2) == quad_key(q1));
    if quad_key_present(fs, q1) {
        let i = choose|i: int| 0 <= i < fs.len() && quad_key(#[trigger] fs[i]) == quad_key(q1);
        assert(fs1 == fs);
        assert(quad_key(fs1[i]) == quad_key(q2));
        assert(quad_key_present(fs1, q2));
    } else {
        assert(fs1 == fs.push(q1));
        assert(quad_key(fs1[fs.len() as int]) == quad_key(q2));
        assert(quad_key_present(fs1, q2));
    }
}

/// A retained triangle, as the three vertex indices in original winding
/// order.
#[derive(Clone, Copy, PartialEq, Eq, Structural, Debug)]
pub struct TriFace {
    pub a: VertexIndex,
    pub b: VertexIndex,
    pub c: VertexIndex,
}

/// The three values sorted ascending.
pub open spec fn sort3(v0: u32, v1: u32, v2: u32) -> (u32, u32, u32) {
    let (a0, a1) = cswap(v0, v1);
    let (b0, b2) = cswap(a0, v2);
    let (c1, c2) = cswap(a1, b2);
    (b0, c1, c2)
}

/// The dedup key of a triangle: its indices in ascending order.
pub open spec fn tri_key(f: TriFace) -> (u32, u32, u32) {
    sort3(f.a, f.b, f.c)
}

/// Some already-retained triangle has the same unordered index set.
pub open spec fn tri_key_present(fs: Seq<TriFace>, q: TriFace) -> bool {
    exists|i: int| 0 <= i < fs.len() && tri_key(#[trigger] fs[i]) == tri_key(q)
}

/// The builder-state transition of one `add_triangle` call.
pub open spec fn tri_add_face(vs: Seq<Vertex>, fs: Seq<TriFace>, v0: Vertex, v1: Vertex, v2: Vertex) -> (
    Seq<Vertex>,
    Seq<TriFace>,
) {
    let vs1 = add_vert_seq(add_vert_seq(add_vert_seq(vs, v0), v1), v2);
    let q = TriFace {
        a: vert_index(vs1, v0) as u32,
        b: vert_index(vs1, v1) as u32,
        c: vert_index(vs1, v2) as u32,
    };
    if tri_key_present(fs, q) {
        (vs1, fs)
    } else {
        (vs1, fs.push(q))
    }
}

/// A triangle's 3 vertex indices sorted ascending, used purely as a dedup
/// key.
#[derive(Clone, Copy, PartialEq, Eq, Structural, Debug)]
pub struct SortedTriangle(pub VertexIndex, pub VertexIndex, pub VertexIndex);

impl SortedTriangle {
    pub fn new(v0: VertexIndex, v1: VertexIndex, v2: VertexIndex) -> (r: SortedTriangle)
        ensures
            (r.0, r.1, r.2) == sort3(v0, v1, v2),
    {
        let (a0, a1) = if v0 <= v1 {
            (v0, v1)
        } else {
            (v1, v0)
        };
        let (b0, b2) = if a0 <= v2 {
            (a0, v2)
        } else {
            (v2, a0)
        };
        let (c1, c2) = if a1 <= b2 {
            (a1, b2)
        } else {
            (b2, a1)
        };
        SortedTriangle(b0, c1, c2)
    }
}

/// Constructs a `Mesh` from a series of triangles, welding vertices and
/// dropping duplicate triangles.
pub struct TriMeshBuilder {
    vertices: Vec<Vertex>,
    faces: Vec<TriFace>,
}

impl TriMeshBuilder {
    /// The vertex values welded so far, in first-seen order.
    pub closed spec fn verts(&self) -> Seq<Vertex> {
        self.vertices@
    }

    /// The retained triangles, in insertion order.
    pub closed spec fn faces(&self) -> Seq<TriFace> {
        self.faces@
    }

    pub open spec fn wf(&self) -> bool {
        &&& distinct(self.verts())
        &&& self.verts().len() <= u32::MAX
        &&& forall|i: int|
            0 <= i < self.faces().len() ==> (#[trigger] self.faces()[i]).a < self.verts().len()
                && self.faces()[i].b < self.verts().len() && self.faces()[i].c < self.verts().len()
        &&& forall|i: int, j: int|
            0 <= i < j < self.faces().len() ==> tri_key(#[trigger] self.faces()[i]) != tri_key(
                #[trigger] self.faces()[j],
            )
    }

    pub fn new() -> (b: TriMeshBuilder)
        ensures
            b.wf(),
            b.verts() == Seq::<Vertex>::empty(),
            b.faces() == Seq::<TriFace>::empty(),
    {
        TriMeshBuilder { vertices: Vec::new(), faces: Vec::new() }
    }

    /// Welds one vertex value and returns its index.
    fn add_vertex(&mut self, v: Vertex) -> (idx: VertexIndex)
        requires
            old(self).wf(),
            old(self).verts().len() < u32::MAX,
        ensures
            final(self).wf(),
            final(self).verts() == add_vert_seq(old(self).verts(), v),
            final(self).faces() == old(self).faces(),
            final(self).verts().contains(v),
            idx == vert_index(final(self).verts(), v),
            idx < final(self).verts().len(),
    {
        let n = self.vertices.len();
        let mut i: usize = 0;
        while i < n
            invariant
                *self == *old(self),
                old(self).wf(),
                n == self.vertices@.len(),
                i <= n,
                forall|j: int| 0 <= j < i ==> self.vertices@[j] != v,
            decreases n - i,
        {
            if self.vertices[i] == v {
                proof {
                    assert(self.verts()[i as int] == v);
                    assert(self.verts().contains(v));
                    lemma_vert_index(self.verts(), v);
                }
                return i as u32;
            }
            i += 1;
        }
        proof {
            assert(!self.verts().contains(v));
        }
        let ghost old_vs = self.vertices@;
        self.vertices.push(v);
        proof {
            assert(self.verts() == add_vert_seq(old_vs, v));
            assert(self.verts()[n as int] == v);
            assert(self.verts().contains(v));
            assert forall|a: int, b: int| 0 <= a < b < self.verts().len() implies self.verts()[a]
                != self.verts()[b] by {
                if b < n {
                } else {
                    assert(self.verts()[a] == old_vs[a]);
                    assert(!old_vs.contains(v) ==> old_vs[a] != v);
                }
            }
            lemma_vert_index(self.verts(), v);
            assert(self.faces() == old(self).faces());
            assert forall|k: int| 0 <= k < self.faces().len() implies (#[trigger] self.faces()[k]).a
                < self.verts().len() && self.faces()[k].b < self.verts().len()
                && self.faces()[k].c < self.verts().len() by {
                assert(old(self).faces()[k].a < old(self).verts().len());
                assert(old(self).faces()[k].b < old(self).verts().len());
                assert(old(self).faces()[k].c < old(self).verts().len());
            }
        }
        n as u32
    }

    /// Adds one triangle in winding order. Welds the three vertices; drops
    /// the triangle if its unordered index set was already added.
    pub fn add_triangle(&mut self, v0: Vertex, v1: Vertex, v2: Vertex)
        requires
            old(self).wf(),
            old(self).verts().len() + 3 <= u32::MAX,
        ensures
            final(self).wf(),
            final(self).verts() == tri_add_face(old(self).verts(), old(self).faces(), v0, v1, v2).0,
            final(self).faces() == tri_add_face(old(self).verts(), old(self).faces(), v0, v1, v2).1,
            final(self).verts().len() <= old(self).verts().len() + 3,
            final(self).faces().len() <= old(self).faces().len() + 1,
    {
        let ghost vs0 = self.verts();
        let idx_0 = self.add_vertex(v0);
        let ghost vs_a = self.verts();
        let idx_1 = self.add_vertex(v1);
        let ghost vs_b = self.verts();
        let idx_2 = self.add_vertex(v2);
        let ghost vs1 = self.verts();
        proof {
            lemma_add_vert_seq_stable(vs_a, v0, v1);
            lemma_add_vert_seq_stable(vs_b, v0, v2);
            lemma_add_vert_seq_stable(vs_b, v1, v2);
            assert(idx_0 == vert_index(vs1, v0));
            assert(idx_1 == vert_index(vs1, v1));
            assert(idx_2 == vert_index(vs1, v2));
        }
        let q = TriFace { a: idx_0, b: idx_1, c: idx_2 };
        let key = SortedTriangle::new(q.a, q.b, q.c);
        let ghost mid = *self;
        let n = self.faces.len();
        let mut i: usize = 0;
        while i < n
            invariant
                *self == mid,
                mid.wf(),
                mid.verts() == vs1,
                mid.faces() == old(self).faces(),
                vs1 == add_vert_seq(add_vert_seq(add_vert_seq(old(self).verts(), v0), v1), v2),
                q.a == vert_index(vs1, v0) && q.b == vert_index(vs1, v1) && q.c == vert_index(
                    vs1,
                    v2,
                ),
                n == self.faces@.len(),
                i <= n,
                (key.0, key.1, key.2) == tri_key(q),
                forall|j: int| 0 <= j < i ==> tri_key(#[trigger] self.faces@[j]) != tri_key(q),
            decreases n - i,
        {
            let f = self.faces[i];
            let fkey = SortedTriangle::new(f.a, f.b, f.c);
            if fkey.0 == key.0 && fkey.1 == key.1 && fkey.2 == key.2 {
                proof {
                    assert(tri_key(self.faces@[i as int]) == tri_key(q));
                    assert(tri_key_present(self.faces(), q));
                }
                return ;
            }
            i += 1;
        }
        proof {
            assert(!tri_key_present(self.faces(), q));
        }
        self.faces.push(q);
    }

    /// Emits the final mesh: the welded vertex list in first-seen order and
    /// the retained triangles, flattened unchanged. Every emitted index is
    /// a valid vertex index.
    pub fn build(self) -> (m: Mesh)
        requires
            self.wf(),
        ensures
            m.vertices@ == self.verts(),
            m.faces@ == expand_tris(self.faces()),
            m.faces@.len() == 3 * self.faces().len(),
            distinct(m.vertices@),
            m.wf(),
    {
        proof {
            lemma_expand_tris_len(self.faces());
        }
        let TriMeshBuilder { vertices, faces } = self;
        proof {
            assert(vertices@ == self.verts());
            assert(faces@ == self.faces());
        }
        let n = faces.len();
        let mut out: Vec<VertexIndex> = Vec::new();
        let mut i: usize = 0;
        while i < n
            invariant
                n == faces@.len(),
                i <= n,
                out@ == expand_tris(faces@.take(i as int)),
                forall|k: int|
                    0 <= k < faces@.len() ==> (#[trigger] faces@[k]).a < vertices@.len()
                        && faces@[k].b < vertices@.len() && faces@[k].c < vertices@.len(),
                forall|k: int| 0 <= k < out@.len() ==> (#[trigger] out@[k]) < vertices@.len(),
            decreases n - i,
        {
            let f = faces[i];
            out.push(f.a);
            out.push(f.b);
            out.push(f.c);
            proof {
                assert(faces@.take(i + 1).drop_last() == faces@.take(i as int));
                assert(faces@.take(i + 1).last() == faces@[i as int]);
                assert(out@ == expand_tris(faces@.take(i + 1)));
            }
            i += 1;
        }
        proof {
            assert(faces@.take(n as int) == faces@);
        }
        Mesh::from_geometry(vertices, out)
    }
}

/// The flattened triangle-index list of a retained-triangle sequence.
pub open spec fn expand_tris(fs: Seq<TriFace>) -> Seq<VertexIndex>
    decreases fs.len(),
{
    if fs.len() == 0 {
        Seq::empty()
    } else {
        expand_tris(fs.drop_last()) + seq![fs.last().a, fs.last().b, fs.last().c]
    }
}

/// Sorting a triple is invariant under rotating it.
pub proof fn lemma_sort3_rotation(a: u32, b: u32, c: u32)
    ensures
        sort3(b, c, a) == sort3(a, b, c),
        sort3(c, a, b) == sort3(a, b, c),
{
}

/// Dedup law for the triangle builder, the counterpart of
/// `lemma_quad_add_face_dedup`.
pub proof fn lemma_tri_add_face_dedup(
    vs: Seq<Vertex>,
    fs: Seq<TriFace>,
    a: Vertex,
    b: Vertex,
    c: Vertex,
    e: Vertex,
    f: Vertex,
    g: Vertex,
)
    requires
        distinct(vs),
        vs.len() + 3 <= u32::MAX,
        (e, f, g) == (a, b, c) || (e, f, g) == (b, c, a) || (e, f, g) == (c, a, b),
    ensures
        ({
            let (vs1, fs1) = tri_add_face(vs, fs, a, b, c);
            let (vs2, fs2) = tri_add_face(vs1, fs1, e, f, g);
            vs2 == vs1 && fs2 == fs1 && vs.len() <= vs1.len() <= vs.len() + 3
        }),
{
    let (vs1, fs1) = tri_add_face(vs, fs, a, b, c);
    lemma_add_vert_seq_basic(vs, a);
    lemma_add_vert_seq_basic(add_vert_seq(vs, a), b);
    lemma_add_vert_seq_basic(add_vert_seq(add_vert_seq(vs, a), b), c);
    assert(distinct(vs1));
    assert(vs1.contains(a) && vs1.contains(b) && vs1.contains(c));
    assert(add_vert_seq(add_vert_seq(add_vert_seq(vs1, e), f), g) == vs1);
    let q1 = TriFace {
        a: vert_index(vs1, a) as u32,
        b: vert_index(vs1, b) as u32,
        c: vert_index(vs1, c) as u32,
    };
    let q2 = TriFace {
        a: vert_index(vs1, e) as u32,
        b: vert_index(vs1, f) as u32,
        c: vert_index(vs1, g) as u32,
    };
    lemma_sort3_rotation(q1.a, q1.b, q1.c);
    assert(tri_key(q2) == tri_key(q1));
    if tri_key_present(fs, q1) {
        let i = choose|i: int| 0 <= i < fs.len() && tri_key(#[trigger] fs[i]) == tri_key(q1);
        assert(fs1 == fs);
        assert(tri_key(fs1[i]) == tri_key(q2));
        assert(tri_key_present(fs1, q2));
    } else {
        assert(fs1 == fs.push(q1));
        assert(tri_key(fs1[fs.len() as int]) == tri_key(q2));
        assert(tri_key_present(fs1, q2));
    }
}

/// A quad sequence always expands to whole triangles: six indices per
/// retained quad.
pub proof fn lemma_expand_quads_len(fs: Seq<QuadFace>)
    ensures
        expand_quads(fs).len() == 6 * fs.len(),
    decreases fs.len(),
{
    if fs.len() > 0 {
        lemma_expand_quads_len(fs.drop_last());
    }
}

/// A triangle sequence expands to three indices per retained triangle.
pub proof fn lemma_expand_tris_len(fs: Seq<TriFace>)
    ensures
        expand_tris(fs).len() == 3 * fs.len(),
    decreases fs.len(),
{
    if fs.len() > 0 {
        lemma_expand_tris_len(fs.drop_last());
    }
}

} // verus!
