//! Face synthesis: from a pixel grid to the extruded mesh.
//!
//! For each edge point, the synthesizer finds its nearest bottom and right
//! neighbors along the wall graph and emits front and side quads per a
//! fixed rule table; the quads are welded by a `QuadMeshBuilder`. Every
//! stage is pinned to a spec-level model, so the whole pipeline is a
//! mathematical function of the grid: running it twice on the same grid
//! yields identical vertex and index sequences.

use vstd::prelude::*;

use crate::builder::{expand_quads, quad_add_face, QuadFace, QuadMeshBuilder};
use crate::coords::{lemma_sorted_unique_same_members, sorted_unique, EdgeCoord};
use crate::edges::{corner_gives, edge_points, is_edge_point, lemma_sorted_len_bound};
use crate::grid::PixelGrid;
use crate::mesh::{Mesh, Vertex, VertexIndex};
use crate::walls::{border_cells, bottom_at, cell_walls, right_at, wall_bottom, wall_right};

verus! {

/// Depth of the extruded back plane, in thousandths of a pixel unit.
pub const DEPTH_MILLI: i64 = -1000;

/// Whether the pixel sharing coordinates with corner (`r`, `c`) is
/// transparent.
pub open spec fn blank(g: &PixelGrid, r: int, c: int) -> bool {
    g.empty_at(r, c)
}

/// The 3D position of corner `e` at depth `z`: pixel space flipped
/// vertically and shifted to the cell-center convention, nudged by one
/// thousandth per axis for each opaque pixel adjacent to the corner. The
/// nudge keeps topologically distinct front and side vertices at concave
/// corners from being welded; it never collides with another corner's
/// position because it is at most two thousandths.
pub open spec fn cart_spec(g: &PixelGrid, z: i64, e: EdgeCoord) -> Vertex {
    let off_r = (if !blank(g, e.row as int, e.col as int) {
        -1
    } else {
        0int
    }) + (if !blank(g, e.row + 1, e.col as int) {
        1
    } else {
        0int
    }) + (if !blank(g, e.row as int, e.col + 1) {
        -1
    } else {
        0int
    }) + (if !blank(g, e.row + 1, e.col + 1) {
        1
    } else {
        0int
    });
    let off_c = (if !blank(g, e.row as int, e.col as int) {
        -1
    } else {
        0int
    }) + (if !blank(g, e.row + 1, e.col as int) {
        -1
    } else {
        0int
    }) + (if !blank(g, e.row as int, e.col + 1) {
        1
    } else {
        0int
    }) + (if !blank(g, e.row + 1, e.col + 1) {
        1
    } else {
        0int
    });
    Vertex {
        x: ((e.col + 1) * 1000 + off_c) as i64,
        y: ((g.height - e.row - 1) * 1000 - off_r) as i64,
        z,
    }
}

/// Computes `cart_spec` for an in-grid corner.
pub fn basic_cartesian(g: &PixelGrid, z: i64, edge: EdgeCoord) -> (v: Vertex)
    requires
        g.wf(),
        edge.row + 1 < g.height,
        edge.col + 1 < g.width,
    ensures
        v == cart_spec(g, z, edge),
{
    let mut off_r: i64 = 0;
    let mut off_c: i64 = 0;
    if !g.is_empty_pixel(edge.row, edge.col) {
        off_r = off_r - 1;
        off_c = off_c - 1;
    }
    if !g.is_empty_pixel(edge.row + 1, edge.col) {
        off_r = off_r + 1;
        off_c = off_c - 1;
    }
    if !g.is_empty_pixel(edge.row, edge.col + 1) {
        off_r = off_r - 1;
        off_c = off_c + 1;
    }
    if !g.is_empty_pixel(edge.row + 1, edge.col + 1) {
        off_r = off_r + 1;
        off_c = off_c + 1;
    }
    let x = (edge.col as i64 + 1) * 1000 + off_c;
    let y = (g.height as i64 - edge.row as i64 - 1) * 1000 - off_r;
    Vertex { x, y, z }
}

/// The first edge point at or below corner (`row`, `col`) scanning down
/// column `col`, stopping at a fully blank two-pixel strip or at the lower
/// grid margin.
pub open spec fn find_bottom_from(g: &PixelGrid, s: Seq<EdgeCoord>, col: int, row: int) -> Option<
    EdgeCoord,
>
    decreases g.height - row,
{
    if row < 0 || row >= g.height - 1 {
        None
    } else if blank(g, row, col) && blank(g, row, col + 1) {
        None
    } else if s.contains(EdgeCoord { row: row as usize, col: col as usize }) {
        Some(EdgeCoord { row: row as usize, col: col as usize })
    } else {
        find_bottom_from(g, s, col, row + 1)
    }
}

/// The nearest bottom neighbor of edge point `e` along the wall graph.
pub open spec fn spec_find_bottom(g: &PixelGrid, s: Seq<EdgeCoord>, e: EdgeCoord) -> Option<
    EdgeCoord,
> {
    find_bottom_from(g, s, e.col as int, e.row + 1)
}

/// The first edge point at or right of corner (`row`, `col`) scanning
/// along row `row`, stopping at a fully blank two-pixel strip or at the
/// right grid margin.
pub open spec fn find_right_from(g: &PixelGrid, s: Seq<EdgeCoord>, row: int, col: int) -> Option<
    EdgeCoord,
>
    decreases g.width - col,
{
    if col < 0 || col >= g.width - 1 {
        None
    } else if blank(g, row, col) && blank(g, row + 1, col) {
        None
    } else if s.contains(EdgeCoord { row: row as usize, col: col as usize }) {
        Some(EdgeCoord { row: row as usize, col: col as usize })
    } else {
        find_right_from(g, s, row, col + 1)
    }
}

/// The nearest right neighbor of edge point `e` along the wall graph.
pub open spec fn spec_find_right(g: &PixelGrid, s: Seq<EdgeCoord>, e: EdgeCoord) -> Option<
    EdgeCoord,
> {
    find_right_from(g, s, e.row as int, e.col + 1)
}

/// Whether `v` lists `e`.
fn contains_coord(v: &Vec<EdgeCoord>, e: &EdgeCoord) -> (r: bool)
    ensures
        r == v@.contains(*e),
{
    let n = v.len();
    let mut i: usize = 0;
    while i < n
        invariant
            n == v@.len(),
            i <= n,
            forall|j: int| 0 <= j < i ==> v@[j] != *e,
        decreases n - i,
    {
        if v[i].row == e.row && v[i].col == e.col {
            proof {
                assert(v@[i as int] == *e);
            }
            return true;
        }
        i += 1;
    }
    false
}

/// Finds the nearest bottom neighbor of `edge` in `features`.
pub fn try_find_bottom(g: &PixelGrid, features: &Vec<EdgeCoord>, edge: EdgeCoord) -> (r: Option<
    EdgeCoord,
>)
    requires
        g.wf(),
        edge.row < g.height,
        edge.col + 1 < g.width,
    ensures
        r == spec_find_bottom(g, features@, edge),
        r matches Some(b) ==> edge.row < b.row && b.row + 1 < g.height && b.col == edge.col,
{
    let height = g.height;
    let col = edge.col;
    let mut row: usize = edge.row + 1;
    while row + 1 < height
        invariant
            g.wf(),
            height == g.height,
            col == edge.col,
            col + 1 < g.width,
            edge.row < row <= height,
            spec_find_bottom(g, features@, edge) == find_bottom_from(
                g,
                features@,
                col as int,
                row as int,
            ),
        decreases height - row,
    {
        let e = EdgeCoord { row, col };
        if g.is_empty_pixel(row, col) && g.is_empty_pixel(row, col + 1) {
            return None;
        } else if contains_coord(features, &e) {
            return Some(e);
        }
        row += 1;
    }
    None
}

/// Finds the nearest right neighbor of `edge` in `features`.
pub fn try_find_right(g: &PixelGrid, features: &Vec<EdgeCoord>, edge: EdgeCoord) -> (r: Option<
    EdgeCoord,
>)
    requires
        g.wf(),
        edge.row + 1 < g.height,
        edge.col < g.width,
    ensures
        r == spec_find_right(g, features@, edge),
        r matches Some(b) ==> edge.col < b.col && b.col + 1 < g.width && b.row == edge.row,
{
    let width = g.width;
    let row = edge.row;
    let mut col: usize = edge.col + 1;
    while col + 1 < width
        invariant
            g.wf(),
            width == g.width,
            row == edge.row,
            row + 1 < g.height,
            edge.col < col <= width,
            spec_find_right(g, features@, edge) == find_right_from(
                g,
                features@,
                row as int,
                col as int,
            ),
        decreases width - col,
    {
        let e = EdgeCoord { row, col };
        if g.is_empty_pixel(row, col) && g.is_empty_pixel(row + 1, col) {
            return None;
        } else if contains_coord(features, &e) {
            return Some(e);
        }
        col += 1;
    }
    None
}

/// The builder-state change of synthesizing the faces of one edge point:
/// a front quad when both neighbors exist and the diagonal pixel is
/// opaque, and a side quad per neighbor whose adjacent diagonal is blank,
/// wound so the outward normal points away from the solid.
pub open spec fn emit_feature(
    g: &PixelGrid,
    st: (Seq<Vertex>, Seq<QuadFace>),
    e: EdgeCoord,
    s: Seq<EdgeCoord>,
) -> (Seq<Vertex>, Seq<QuadFace>) {
    let bottom = spec_find_bottom(g, s, e);
    let right = spec_find_right(g, s, e);
    let blank_tr = blank(g, e.row as int, e.col + 1);
    let blank_br = blank(g, e.row + 1, e.col + 1);
    let blank_bl = blank(g, e.row + 1, e.col as int);
    let st1 = match (bottom, right) {
        (Some(b), Some(r)) => {
            if !blank_br {
                let brc = EdgeCoord { row: b.row, col: r.col };
                quad_add_face(
                    st.0,
                    st.1,
                    cart_spec(g, 0, e),
                    cart_spec(g, 0, r),
                    cart_spec(g, 0, b),
                    cart_spec(g, 0, brc),
                )
            } else {
                st
            }
        },
        _ => st,
    };
    let st2 = match bottom {
        Some(b) => {
            if blank_bl || blank_br {
                let t = cart_spec(g, 0, e);
                let bq = cart_spec(g, 0, b);
                let tz = cart_spec(g, DEPTH_MILLI, e);
                let bz = cart_spec(g, DEPTH_MILLI, b);
                if blank_bl {
                    quad_add_face(st1.0, st1.1, bz, tz, bq, t)
                } else {
                    quad_add_face(st1.0, st1.1, tz, bz, t, bq)
                }
            } else {
                st1
            }
        },
        None => st1,
    };
    match right {
        Some(r) => {
            if blank_tr || blank_br {
                let l = cart_spec(g, 0, e);
                let rq = cart_spec(g, 0, r);
                let lz = cart_spec(g, DEPTH_MILLI, e);
                let rz = cart_spec(g, DEPTH_MILLI, r);
                if blank_tr {
                    quad_add_face(st2.0, st2.1, lz, rz, l, rq)
                } else {
                    quad_add_face(st2.0, st2.1, rz, lz, rq, l)
                }
            } else {
                st2
            }
        },
        None => st2,
    }
}

/// The builder state after synthesizing the first `n` edge points of `s`.
pub open spec fn finalize_state(g: &PixelGrid, s: Seq<EdgeCoord>, n: int) -> (
    Seq<Vertex>,
    Seq<QuadFace>,
)
    decreases n,
{
    if n <= 0 {
        (Seq::<Vertex>::empty(), Seq::<QuadFace>::empty())
    } else {
        emit_feature(g, finalize_state(g, s, n - 1), s[n - 1], s)
    }
}

/// Synthesizes and welds the faces of every edge point, in sorted order.
pub fn finalize(g: PixelGrid, features: Vec<EdgeCoord>) -> (m: Mesh)
    requires
        g.wf(),
        sorted_unique(features@),
        forall|e: EdgeCoord|
            #[trigger] features@.contains(e) ==> e.row + 1 < g.height && e.col + 1 < g.width,
        features@.len() <= 0x1000000,
    ensures
        m.vertices@ == finalize_state(&g, features@, features@.len() as int).0,
        m.faces@ == expand_quads(finalize_state(&g, features@, features@.len() as int).1),
        m.faces@.len() % 3 == 0,
        crate::builder::distinct(m.vertices@),
        m.wf(),
{
    let mut builder = QuadMeshBuilder::new();
    let n = features.len();
    let mut i: usize = 0;
    while i < n
        invariant
            g.wf(),
            sorted_unique(features@),
            forall|e: EdgeCoord|
                #[trigger] features@.contains(e) ==> e.row + 1 < g.height && e.col + 1 < g.width,
            n == features@.len(),
            n <= 0x1000000,
            i <= n,
            builder.wf(),
            builder.verts().len() <= 12 * i,
            builder.verts() == finalize_state(&g, features@, i as int).0,
            builder.faces() == finalize_state(&g, features@, i as int).1,
        decreases n - i,
    {
        let feature = features[i];
        proof {
            assert(features@.contains(features@[i as int]));
        }
        let bottom = try_find_bottom(&g, &features, feature);
        let right = try_find_right(&g, &features, feature);
        let blank_tr = g.is_empty_pixel(feature.row, feature.col + 1);
        let blank_br = g.is_empty_pixel(feature.row + 1, feature.col + 1);
        let blank_bl = g.is_empty_pixel(feature.row + 1, feature.col);
        if let (Some(b), Some(r)) = (bottom, right) {
            if !blank_br {
                let bottom_right = EdgeCoord { row: b.row, col: r.col };
                let tl = basic_cartesian(&g, 0, feature);
                let tr = basic_cartesian(&g, 0, r);
                let bl = basic_cartesian(&g, 0, b);
                let br = basic_cartesian(&g, 0, bottom_right);
                builder.add_face(tl, tr, bl, br);
            }
        }
        if let Some(b) = bottom {
            if blank_bl || blank_br {
                let t = basic_cartesian(&g, 0, feature);
                let bq = basic_cartesian(&g, 0, b);
                let tz = basic_cartesian(&g, DEPTH_MILLI, feature);
                let bz = basic_cartesian(&g, DEPTH_MILLI, b);
                if blank_bl {
                    builder.add_face(bz, tz, bq, t);
                } else {
                    builder.add_face(tz, bz, t, bq);
                }
            }
        }
        if let Some(r) = right {
            if blank_tr || blank_br {
                let l = basic_cartesian(&g, 0, feature);
                let rq = basic_cartesian(&g, 0, r);
                let lz = basic_cartesian(&g, DEPTH_MILLI, feature);
                let rz = basic_cartesian(&g, DEPTH_MILLI, r);
                if blank_tr {
                    builder.add_face(lz, rz, l, rq);
                } else {
                    builder.add_face(rz, lz, rq, l);
                }
            }
        }
        proof {
            assert(builder.verts() == finalize_state(&g, features@, i + 1).0);
            assert(builder.faces() == finalize_state(&g, features@, i + 1).1);
        }
        i += 1;
    }
    builder.build()
}

/// `corner_gives` with the wall flags replaced by their grid
/// characterization.
pub open spec fn grid_corner_gives(g: &PixelGrid, row: int, col: int, e: EdgeCoord) -> bool {
    ||| (wall_bottom(g, row - 1, col) && wall_right(g, row, col - 1) && e.row == row - 1 && e.col
        == col - 1)
    ||| (wall_bottom(g, row - 1, col) && wall_right(g, row, col) && e.row == row - 1 && e.col == col)
    ||| (wall_bottom(g, row, col) && wall_right(g, row, col - 1) && e.row == row && e.col == col - 1)
    ||| (wall_bottom(g, row, col) && wall_right(g, row, col) && e.row == row && e.col == col)
}

/// `e` is an edge point of the grid: two characterized walls cross at an
/// interior corner that yields it.
pub open spec fn grid_edge_point(g: &PixelGrid, e: EdgeCoord) -> bool {
    exists|row: int, col: int|
        1 <= row < g.height - 1 && 1 <= col < g.width - 1 && #[trigger] grid_corner_gives(
            g,
            row,
            col,
            e,
        )
}

/// The sorted listing of the grid's edge points (unique by
/// `lemma_sorted_unique_same_members`).
pub open spec fn edge_seq(g: &PixelGrid) -> Seq<EdgeCoord> {
    choose|s: Seq<EdgeCoord>|
        sorted_unique(s) && forall|e: EdgeCoord| #[trigger] s.contains(e) <==> grid_edge_point(g, e)
}

/// The whole pipeline as a function of the grid: the vertex list and the
/// flattened triangle-index list of the reified mesh.
pub open spec fn from_image_spec(g: &PixelGrid) -> (Seq<Vertex>, Seq<VertexIndex>) {
    let s = edge_seq(g);
    let st = finalize_state(g, s, s.len() as int);
    (st.0, expand_quads(st.1))
}

/// Reifies a pixel grid into an extruded, deduplicated triangle mesh:
/// border detection, wall tracing, edge-point extraction and face
/// synthesis in one pass. The result is pinned to `from_image_spec`, a
/// function of the grid alone, so repeated runs produce identical vertex
/// and index sequences.
pub fn from_image(g: PixelGrid) -> (m: Mesh)
    requires
        g.wf(),
    ensures
        m.vertices@ == from_image_spec(&g).0,
        m.faces@ == from_image_spec(&g).1,
        m.faces@.len() % 3 == 0,
        crate::builder::distinct(m.vertices@),
        m.wf(),
{
    let border = border_cells(&g);
    let walls = cell_walls(&g, border);
    let features = edge_points(walls);
    proof {
        let w = walls@;
        // the extracted set is exactly the grid's edge-point set
        assert forall|e: EdgeCoord| #[trigger] features@.contains(e) <==> grid_edge_point(
            &g,
            e,
        ) by {
            if features@.contains(e) {
                assert(is_edge_point(w, e));
                let (row, col) = choose|row: int, col: int|
                    1 <= row < w.len() - 1 && 1 <= col < w[0]@.len() - 1 && #[trigger] corner_gives(
                        w,
                        row,
                        col,
                        e,
                    );
                assert(grid_corner_gives(&g, row, col, e));
                assert(grid_edge_point(&g, e));
            }
            if grid_edge_point(&g, e) {
                let (row, col) = choose|row: int, col: int|
                    1 <= row < g.height - 1 && 1 <= col < g.width - 1
                        && #[trigger] grid_corner_gives(&g, row, col, e);
                assert(bottom_at(w, row - 1, col) == wall_bottom(&g, row - 1, col));
                assert(bottom_at(w, row, col) == wall_bottom(&g, row, col));
                assert(right_at(w, row, col - 1) == wall_right(&g, row, col - 1));
                assert(right_at(w, row, col) == wall_right(&g, row, col));
                assert(corner_gives(w, row, col, e));
                assert(is_edge_point(w, e));
            }
        }
        assert(features@ == edge_seq(&g)) by {
            let s0 = features@;
            assert(sorted_unique(s0) && forall|e: EdgeCoord|
                #[trigger] s0.contains(e) <==> grid_edge_point(&g, e));
            let s1 = edge_seq(&g);
            assert(sorted_unique(s1) && forall|e: EdgeCoord|
                #[trigger] s1.contains(e) <==> grid_edge_point(&g, e));
            lemma_sorted_unique_same_members(s0, s1);
        }
        // every edge point lies strictly inside the corner lattice
        assert forall|e: EdgeCoord| #[trigger] features@.contains(e) implies e.row + 1 < g.height
            && e.col + 1 < g.width by {
            let (row, col) = choose|row: int, col: int|
                1 <= row < g.height - 1 && 1 <= col < g.width - 1 && #[trigger] grid_corner_gives(
                    &g,
                    row,
                    col,
                    e,
                );
        }
        // and the sorted listing is no longer than the corner lattice
        assert forall|k: int|
            0 <= k < features@.len() implies (#[trigger] features@[k]).row < g.height
            && features@[k].col < g.width by {
            assert(features@.contains(features@[k]));
        }
        lemma_sorted_len_bound(features@, g.height as int, g.width as int);
        assert(g.height * g.width <= 0x1000000) by (nonlinear_arith)
            requires
                g.height <= 4096,
                g.width <= 4096,
        ;
    }
    finalize(g, features)
}

/// The grid's silhouette is exactly the axis-aligned rectangle spanning
/// rows `r0..=r1` and columns `c0..=c1`, kept off the outermost pixel
/// ring.
pub open spec fn rect_silhouette(g: &PixelGrid, r0: int, r1: int, c0: int, c1: int) -> bool {
    &&& 1 <= r0 <= r1 <= g.height - 2
    &&& 1 <= c0 <= c1 <= g.width - 2
    &&& forall|r: int, c: int|
        0 <= r < g.height && 0 <= c < g.width ==> (#[trigger] g.at(r, c) <==> (r0 <= r <= r1 && c0
            <= c <= c1))
}

/// No-bleed law for rectangular silhouettes: exactly the rectangle's
/// perimeter cells are border cells. With `r0 == r1` and `c0 == c1` this
/// says a single isolated opaque pixel is the one and only border cell.
pub proof fn lemma_rect_border(g: &PixelGrid, r0: int, r1: int, c0: int, c1: int)
    requires
        g.wf(),
        rect_silhouette(g, r0, r1, c0, c1),
    ensures
        forall|r: int, c: int|
            #[trigger] crate::walls::is_border(g, r, c) <==> (r0 <= r <= r1 && c0 <= c <= c1 && (r
                == r0 || r == r1 || c == c0 || c == c1)),
{
    assert forall|r: int, c: int|
        #[trigger] crate::walls::is_border(g, r, c) implies (r0 <= r <= r1 && c0 <= c <= c1 && (r
        == r0 || r == r1 || c == c0 || c == c1)) by {
        assert(g.at(r, c));
        if !(r == r0 || r == r1 || c == c0 || c == c1) {
            let (nr, nc) = choose|nr: int, nc: int|
                crate::walls::neighbor8(r, c, nr, nc) && !(#[trigger] g.at(nr, nc));
            assert(r0 <= nr <= r1 && c0 <= nc <= c1);
            assert(false);
        }
    }
    assert forall|r: int, c: int|
        (r0 <= r <= r1 && c0 <= c <= c1 && (r == r0 || r == r1 || c == c0 || c
            == c1)) implies #[trigger] crate::walls::is_border(g, r, c) by {
        assert(g.at(r, c));
        if r == r0 {
            assert(crate::walls::neighbor8(r, c, r - 1, c) && !g.at(r - 1, c));
        } else if r == r1 {
            assert(crate::walls::neighbor8(r, c, r + 1, c) && !g.at(r + 1, c));
        } else if c == c0 {
            assert(crate::walls::neighbor8(r, c, r, c - 1) && !g.at(r, c - 1));
        } else {
            assert(crate::walls::neighbor8(r, c, r, c + 1) && !g.at(r, c + 1));
        }
    }
}

proof fn lemma_rect_walls(g: &PixelGrid, r0: int, r1: int, c0: int, c1: int)
    requires
        g.wf(),
        rect_silhouette(g, r0, r1, c0, c1),
    ensures
        forall|fr: int, c: int|
            #[trigger] wall_bottom(g, fr, c) <==> ((fr == r0 - 1 || fr == r1) && c0 <= c <= c1),
        forall|r: int, fc: int|
            #[trigger] wall_right(g, r, fc) <==> ((fc == c0 - 1 || fc == c1) && r0 <= r <= r1),
{
    lemma_rect_border(g, r0, r1, c0, c1);
    assert forall|fr: int, c: int| #[trigger] wall_bottom(g, fr, c) implies ((fr == r0 - 1 || fr
        == r1) && c0 <= c <= c1) by {
        let (br, bc) = choose|br: int, bc: int|
            #[trigger] crate::walls::is_border(g, br, bc) && crate::walls::hmark(g, br, bc, c) && ((
            fr == br - 1 && g.empty_at(br - 1, bc)) || (fr == br && g.empty_at(br + 1, bc)));
        assert(g.at(br, c));
        if fr == br - 1 && g.empty_at(br - 1, bc) {
            assert(br == r0);
        } else {
            assert(br == r1);
        }
    }
    assert forall|fr: int, c: int|
        ((fr == r0 - 1 || fr == r1) && c0 <= c <= c1) implies #[trigger] wall_bottom(g, fr, c) by {
        if fr == r0 - 1 {
            assert(crate::walls::is_border(g, r0, c));
            assert(!g.at(r0 - 1, c));
            assert(forall|x: int| (c <= x <= c || c <= x <= c) ==> #[trigger] g.at(r0, x));
            assert(crate::walls::hmark(g, r0, c, c));
            assert(crate::walls::is_border(g, r0, c) && crate::walls::hmark(g, r0, c, c) && ((fr
                == r0 - 1 && g.empty_at(r0 - 1, c)) || (fr == r0 && g.empty_at(r0 + 1, c))));
        } else {
            assert(crate::walls::is_border(g, r1, c));
            assert(!g.at(r1 + 1, c));
            assert(forall|x: int| (c <= x <= c || c <= x <= c) ==> #[trigger] g.at(r1, x));
            assert(crate::walls::hmark(g, r1, c, c));
            assert(crate::walls::is_border(g, r1, c) && crate::walls::hmark(g, r1, c, c) && ((fr
                == r1 - 1 && g.empty_at(r1 - 1, c)) || (fr == r1 && g.empty_at(r1 + 1, c))));
        }
    }
    assert forall|r: int, fc: int| #[trigger] wall_right(g, r, fc) implies ((fc == c0 - 1 || fc
        == c1) && r0 <= r <= r1) by {
        let (br, bc) = choose|br: int, bc: int|
            #[trigger] crate::walls::is_border(g, br, bc) && crate::walls::vmark(g, br, bc, r) && ((
            fc == bc - 1 && g.empty_at(br, bc - 1)) || (fc == bc && g.empty_at(br, bc + 1)));
        assert(g.at(r, bc));
        if fc == bc - 1 && g.empty_at(br, bc - 1) {
            assert(bc == c0);
        } else {
            assert(bc == c1);
        }
    }
    assert forall|r: int, fc: int|
        ((fc == c0 - 1 || fc == c1) && r0 <= r <= r1) implies #[trigger] wall_right(g, r, fc) by {
        if fc == c0 - 1 {
            assert(crate::walls::is_border(g, r, c0));
            assert(!g.at(r, c0 - 1));
            assert(forall|x: int| (r <= x <= r || r <= x <= r) ==> #[trigger] g.at(x, c0));
            assert(crate::walls::vmark(g, r, c0, r));
            assert(crate::walls::is_border(g, r, c0) && crate::walls::vmark(g, r, c0, r) && ((fc
                == c0 - 1 && g.empty_at(r, c0 - 1)) || (fc == c0 && g.empty_at(r, c0 + 1))));
        } else {
            assert(crate::walls::is_border(g, r, c1));
            assert(!g.at(r, c1 + 1));
            assert(forall|x: int| (r <= x <= r || r <= x <= r) ==> #[trigger] g.at(x, c1));
            assert(crate::walls::vmark(g, r, c1, r));
            assert(crate::walls::is_border(g, r, c1) && crate::walls::vmark(g, r, c1, r) && ((fc
                == c1 - 1 && g.empty_at(r, c1 - 1)) || (fc == c1 && g.empty_at(r, c1 + 1))));
        }
    }
}

/// Corner-count law: a rectangular opaque silhouette has exactly four edge
/// points, its four corners, whatever the rectangle's size. The edge-point
/// listing of such a grid is the four corners in row-major order.
pub proof fn lemma_rect_edge_points(g: &PixelGrid, r0: int, r1: int, c0: int, c1: int)
    requires
        g.wf(),
        rect_silhouette(g, r0, r1, c0, c1),
    ensures
        forall|e: EdgeCoord|
            #[trigger] grid_edge_point(g, e) <==> ((e.row == r0 - 1 || e.row == r1) && (e.col == c0
                - 1 || e.col == c1)),
        edge_seq(g) == seq![
            EdgeCoord { row: (r0 - 1) as usize, col: (c0 - 1) as usize },
            EdgeCoord { row: (r0 - 1) as usize, col: c1 as usize },
            EdgeCoord { row: r1 as usize, col: (c0 - 1) as usize },
            EdgeCoord { row: r1 as usize, col: c1 as usize },
        ],
        edge_seq(g).len() == 4,
{
    lemma_rect_walls(g, r0, r1, c0, c1);
    assert forall|e: EdgeCoord| #[trigger] grid_edge_point(g, e) implies ((e.row == r0 - 1 || e.row
        == r1) && (e.col == c0 - 1 || e.col == c1)) by {
        let (row, col) = choose|row: int, col: int|
            1 <= row < g.height - 1 && 1 <= col < g.width - 1 && #[trigger] grid_corner_gives(
                g,
                row,
                col,
                e,
            );
        if wall_bottom(g, row - 1, col) && wall_right(g, row, col - 1) && e.row == row - 1 && e.col
            == col - 1 {
            assert(row == r0 && col == c0);
        } else if wall_bottom(g, row - 1, col) && wall_right(g, row, col) && e.row == row - 1
            && e.col == col {
            assert(row == r0 && col == c1);
        } else if wall_bottom(g, row, col) && wall_right(g, row, col - 1) && e.row == row && e.col
            == col - 1 {
            assert(row == r1 && col == c0);
        } else {
            assert(row == r1 && col == c1);
        }
    }
    assert forall|e: EdgeCoord|
        ((e.row == r0 - 1 || e.row == r1) && (e.col == c0 - 1 || e.col
            == c1)) implies #[trigger] grid_edge_point(g, e) by {
        if e.row == r0 - 1 && e.col == c0 - 1 {
            assert(wall_bottom(g, r0 - 1, c0) && wall_right(g, r0, c0 - 1));
            assert(grid_corner_gives(g, r0, c0, e));
        } else if e.row == r0 - 1 && e.col == c1 {
            assert(wall_bottom(g, r0 - 1, c1) && wall_right(g, r0, c1));
            assert(grid_corner_gives(g, r0, c1, e));
        } else if e.row == r1 && e.col == c0 - 1 {
            assert(wall_bottom(g, r1, c0) && wall_right(g, r1, c0 - 1));
            assert(grid_corner_gives(g, r1, c0, e));
        } else {
            assert(wall_bottom(g, r1, c1) && wall_right(g, r1, c1));
            assert(grid_corner_gives(g, r1, c1, e));
        }
    }
    let cs = seq![
        EdgeCoord { row: (r0 - 1) as usize, col: (c0 - 1) as usize },
        EdgeCoord { row: (r0 - 1) as usize, col: c1 as usize },
        EdgeCoord { row: r1 as usize, col: (c0 - 1) as usize },
        EdgeCoord { row: r1 as usize, col: c1 as usize },
    ];
    assert(sorted_unique(cs)) by {
        assert forall|i: int, j: int| 0 <= i < j < cs.len() implies crate::coords::edge_lt(
            #[trigger] cs[i],
            #[trigger] cs[j],
        ) by {
            assert(cs[0].row == r0 - 1 && cs[0].col == c0 - 1);
            assert(cs[1].row == r0 - 1 && cs[1].col == c1);
            assert(cs[2].row == r1 && cs[2].col == c0 - 1);
            assert(cs[3].row == r1 && cs[3].col == c1);
        }
    }
    assert forall|e: EdgeCoord| #[trigger] cs.contains(e) <==> grid_edge_point(g, e) by {
        if cs.contains(e) {
            let i = choose|i: int| 0 <= i < cs.len() && cs[i] == e;
            assert(i == 0 || i == 1 || i == 2 || i == 3);
            assert(grid_edge_point(g, e));
        }
        if grid_edge_point(g, e) {
            if e.row == r0 - 1 && e.col == c0 - 1 {
                assert(cs[0] == e);
            } else if e.row == r0 - 1 && e.col == c1 {
                assert(cs[1] == e);
            } else if e.row == r1 && e.col == c0 - 1 {
                assert(cs[2] == e);
            } else {
                assert(cs[3] == e);
            }
        }
    }
    let s1 = edge_seq(g);
    assert(sorted_unique(s1) && forall|e: EdgeCoord| #[trigger] s1.contains(e) <==> grid_edge_point(
        g,
        e,
    ));
    lemma_sorted_unique_same_members(cs, s1);
}

/// Welding a value not yet present appends it and moves nothing.
proof fn lemma_weld_fresh(vs: Seq<Vertex>, v: Vertex)
    requires
        crate::builder::distinct(vs),
        forall|i: int| 0 <= i < vs.len() ==> (#[trigger] vs[i]) != v,
    ensures
        crate::builder::add_vert_seq(vs, v) == vs.push(v),
        crate::builder::distinct(vs.push(v)),
        crate::builder::vert_index(vs.push(v), v) == vs.len(),
        forall|u: Vertex|
            #[trigger] vs.contains(u) ==> vs.push(v).contains(u) && crate::builder::vert_index(
                vs.push(v),
                u,
            ) == crate::builder::vert_index(vs, u),
{
    assert(!vs.contains(v));
    let p = vs.push(v);
    assert forall|a: int, b: int| 0 <= a < b < p.len() implies p[a] != p[b] by {
        if b < vs.len() {
        } else {
            assert(p[a] == vs[a]);
        }
    }
    assert(p[vs.len() as int] == v);
    assert(p.contains(v));
    crate::builder::lemma_vert_index(p, v);
    assert forall|u: Vertex| #[trigger] vs.contains(u) implies p.contains(u)
        && crate::builder::vert_index(p, u) == crate::builder::vert_index(vs, u) by {
        crate::builder::lemma_vert_index(vs, u);
        let i = crate::builder::vert_index(vs, u);
        assert(p[i] == u);
        assert(p.contains(u));
        crate::builder::lemma_vert_index(p, u);
    }
}

/// Welding an already-known value changes nothing.
proof fn lemma_weld_known(vs: Seq<Vertex>, v: Vertex)
    requires
        crate::builder::distinct(vs),
        vs.contains(v),
    ensures
        crate::builder::add_vert_seq(vs, v) == vs,
{
}

/// No-bleed law, face half: a single isolated opaque pixel reifies into
/// exactly five retained quads (the front face and the four side walls;
/// the rules emit no back face, so the box is open behind) over eight
/// welded vertices, hence thirty triangle indices.
#[verifier::rlimit(100)]
#[verifier::spinoff_prover]
pub proof fn lemma_isolated_pixel_mesh(g: &PixelGrid, r: int, c: int)
    requires
        g.wf(),
        rect_silhouette(g, r, r, c, c),
    ensures
        from_image_spec(g).0.len() == 8,
        from_image_spec(g).1.len() == 30,
{
    let h = g.height as int;
    lemma_rect_edge_points(g, r, r, c, c);
    let pa = EdgeCoord { row: (r - 1) as usize, col: (c - 1) as usize };
    let pb = EdgeCoord { row: (r - 1) as usize, col: c as usize };
    let pc = EdgeCoord { row: r as usize, col: (c - 1) as usize };
    let pd = EdgeCoord { row: r as usize, col: c as usize };
    let s = seq![pa, pb, pc, pd];
    assert(edge_seq(g) == s);
    assert(g.at(r, c));
    assert(!g.at(r - 1, c - 1) && !g.at(r - 1, c) && !g.at(r - 1, c + 1));
    assert(!g.at(r, c - 1) && !g.at(r, c + 1));
    assert(!g.at(r + 1, c - 1) && !g.at(r + 1, c) && !g.at(r + 1, c + 1));
    assert(s[0] == pa && s[1] == pb && s[2] == pc && s[3] == pd);

    // neighbor searches along the wall graph
    assert(spec_find_bottom(g, s, pa) == Some(pc)) by {
        assert(s.contains(pc)) by {
            assert(s[2] == pc);
        }
        assert(EdgeCoord { row: r as usize, col: (c - 1) as usize } == pc);
    }
    assert(spec_find_right(g, s, pa) == Some(pb)) by {
        assert(s.contains(pb)) by {
            assert(s[1] == pb);
        }
        assert(EdgeCoord { row: (r - 1) as usize, col: c as usize } == pb);
    }
    assert(spec_find_bottom(g, s, pb) == Some(pd)) by {
        assert(s.contains(pd)) by {
            assert(s[3] == pd);
        }
        assert(EdgeCoord { row: r as usize, col: c as usize } == pd);
    }
    assert(spec_find_right(g, s, pb) is None) by {
        if c + 1 < g.width - 1 {
            assert(blank(g, r - 1, c + 1) && blank(g, r, c + 1));
        }
    }
    assert(spec_find_bottom(g, s, pc) is None) by {
        if r + 1 < g.height - 1 {
            assert(blank(g, r + 1, c - 1) && blank(g, r + 1, c));
        }
    }
    assert(spec_find_right(g, s, pc) == Some(pd)) by {
        assert(s.contains(pd)) by {
            assert(s[3] == pd);
        }
        assert(EdgeCoord { row: r as usize, col: c as usize } == pd);
    }
    assert(spec_find_bottom(g, s, pd) is None) by {
        if r + 1 < g.height - 1 {
            assert(blank(g, r + 1, c) && blank(g, r + 1, c + 1));
        }
    }
    assert(spec_find_right(g, s, pd) is None) by {
        if c + 1 < g.width - 1 {
            assert(blank(g, r, c + 1) && blank(g, r + 1, c + 1));
        }
    }

    // the eight welded positions
    let a0 = cart_spec(g, 0, pa);
    let b0 = cart_spec(g, 0, pb);
    let c0 = cart_spec(g, 0, pc);
    let d0 = cart_spec(g, 0, pd);
    let az = cart_spec(g, DEPTH_MILLI, pa);
    let bz = cart_spec(g, DEPTH_MILLI, pb);
    let cz = cart_spec(g, DEPTH_MILLI, pc);
    let dz = cart_spec(g, DEPTH_MILLI, pd);
    assert(a0.x == c * 1000 + 1 && a0.y == (h - r) * 1000 - 1 && a0.z == 0);
    assert(b0.x == (c + 1) * 1000 - 1 && b0.y == (h - r) * 1000 - 1 && b0.z == 0);
    assert(c0.x == c * 1000 + 1 && c0.y == (h - r - 1) * 1000 + 1 && c0.z == 0);
    assert(d0.x == (c + 1) * 1000 - 1 && d0.y == (h - r - 1) * 1000 + 1 && d0.z == 0);
    assert(az.x == a0.x && az.y == a0.y && az.z == -1000);
    assert(bz.x == b0.x && bz.y == b0.y && bz.z == -1000);
    assert(cz.x == c0.x && cz.y == c0.y && cz.z == -1000);
    assert(dz.x == d0.x && dz.y == d0.y && dz.z == -1000);

    // feature pa: front quad, left wall, top wall
    let st0 = finalize_state(g, s, 0);
    assert(st0.0 =~= Seq::<Vertex>::empty());
    assert(st0.1 =~= Seq::<QuadFace>::empty());
    let st1 = finalize_state(g, s, 1);
    assert(st1 == emit_feature(g, st0, pa, s));
    let vq1 = seq![a0, b0, c0, d0];
    let q1 = QuadFace { a: 0, b: 1, c: 2, d: 3 };
    assert(blank(g, r, c) == false);
    assert(EdgeCoord { row: pc.row, col: pb.col } == pd);
    lemma_weld_fresh(Seq::<Vertex>::empty(), a0);
    lemma_weld_fresh(seq![a0], b0);
    lemma_weld_fresh(seq![a0, b0], c0);
    lemma_weld_fresh(seq![a0, b0, c0], d0);
    assert(seq![a0].push(b0) =~= seq![a0, b0]);
    assert(seq![a0, b0].push(c0) =~= seq![a0, b0, c0]);
    assert(seq![a0, b0, c0].push(d0) =~= vq1);
    assert(crate::builder::add_vert_seq4(Seq::<Vertex>::empty(), a0, b0, c0, d0) == vq1);
    assert(crate::builder::vert_index(vq1, a0) == 0 && crate::builder::vert_index(vq1, b0) == 1
        && crate::builder::vert_index(vq1, c0) == 2 && crate::builder::vert_index(vq1, d0) == 3) by {
        crate::builder::lemma_vert_index(vq1, a0);
        crate::builder::lemma_vert_index(vq1, b0);
        crate::builder::lemma_vert_index(vq1, c0);
        crate::builder::lemma_vert_index(vq1, d0);
    }
    let front = crate::builder::quad_add_face(st0.0, st0.1, a0, b0, c0, d0);
    assert(!crate::builder::quad_key_present(st0.1, q1));
    assert(front.0 == vq1 && front.1 =~= seq![q1]);
    // left wall from pa's bottom neighbor (its bottom-left diagonal is blank)
    assert(blank(g, r, c - 1));
    lemma_weld_fresh(vq1, cz);
    lemma_weld_fresh(vq1.push(cz), az);
    let vq2 = seq![a0, b0, c0, d0, cz, az];
    assert(vq1.push(cz).push(az) =~= vq2);
    assert(vq1.push(cz) =~= seq![a0, b0, c0, d0, cz]);
    let q2 = QuadFace { a: 4, b: 5, c: 2, d: 0 };
    assert(crate::builder::add_vert_seq4(vq1, cz, az, c0, a0) == vq2) by {
        lemma_weld_known(vq2, c0);
        lemma_weld_known(vq2, a0);
    }
    assert(crate::builder::vert_index(vq2, cz) == 4 && crate::builder::vert_index(vq2, az) == 5
        && crate::builder::vert_index(vq2, c0) == 2 && crate::builder::vert_index(vq2, a0) == 0) by {
        crate::builder::lemma_vert_index(vq2, cz);
        crate::builder::lemma_vert_index(vq2, az);
        crate::builder::lemma_vert_index(vq2, c0);
        crate::builder::lemma_vert_index(vq2, a0);
    }
    let left = crate::builder::quad_add_face(front.0, front.1, cz, az, c0, a0);
    assert(!crate::builder::quad_key_present(front.1, q2)) by {
        assert(crate::builder::quad_key(q1) == (0u32, 1u32, 2u32, 3u32));
        assert(crate::builder::quad_key(q2) == (0u32, 2u32, 4u32, 5u32));
    }
    assert(left.0 == vq2 && left.1 =~= seq![q1, q2]);
    // top wall from pa's right neighbor (its top-right diagonal is blank)
    assert(blank(g, r - 1, c));
    lemma_weld_fresh(vq2, bz);
    let vq3 = seq![a0, b0, c0, d0, cz, az, bz];
    assert(vq2.push(bz) =~= vq3);
    let q3 = QuadFace { a: 5, b: 6, c: 0, d: 1 };
    assert(crate::builder::add_vert_seq4(vq2, az, bz, a0, b0) == vq3) by {
        lemma_weld_known(vq2, az);
        lemma_weld_known(vq3, a0);
        lemma_weld_known(vq3, b0);
    }
    assert(crate::builder::vert_index(vq3, az) == 5 && crate::builder::vert_index(vq3, bz) == 6
        && crate::builder::vert_index(vq3, a0) == 0 && crate::builder::vert_index(vq3, b0) == 1) by {
        crate::builder::lemma_vert_index(vq3, az);
        crate::builder::lemma_vert_index(vq3, bz);
        crate::builder::lemma_vert_index(vq3, a0);
        crate::builder::lemma_vert_index(vq3, b0);
    }
    let top = crate::builder::quad_add_face(left.0, left.1, az, bz, a0, b0);
    assert(!crate::builder::quad_key_present(left.1, q3)) by {
        assert(crate::builder::quad_key(q1) == (0u32, 1u32, 2u32, 3u32));
        assert(crate::builder::quad_key(q2) == (0u32, 2u32, 4u32, 5u32));
        assert(crate::builder::quad_key(q3) == (0u32, 1u32, 5u32, 6u32));
    }
    assert(top.0 == vq3 && top.1 =~= seq![q1, q2, q3]);
    assert(st1 == (vq3, seq![q1, q2, q3]));

    // feature pb: right wall only (no right neighbor, bottom-left solid)
    let st2 = finalize_state(g, s, 2);
    assert(st2 == emit_feature(g, st1, pb, s));
    assert(blank(g, r, c) == false);  // pb's bottom-left
    assert(blank(g, r, c + 1));  // pb's bottom-right
    lemma_weld_fresh(vq3, dz);
    let vq4 = seq![a0, b0, c0, d0, cz, az, bz, dz];
    assert(vq3.push(dz) =~= vq4);
    let q4 = QuadFace { a: 6, b: 7, c: 1, d: 3 };
    assert(crate::builder::add_vert_seq4(vq3, bz, dz, b0, d0) == vq4) by {
        lemma_weld_known(vq3, bz);
        lemma_weld_known(vq4, b0);
        lemma_weld_known(vq4, d0);
    }
    assert(crate::builder::vert_index(vq4, bz) == 6 && crate::builder::vert_index(vq4, dz) == 7
        && crate::builder::vert_index(vq4, b0) == 1 && crate::builder::vert_index(vq4, d0) == 3) by {
        crate::builder::lemma_vert_index(vq4, bz);
        crate::builder::lemma_vert_index(vq4, dz);
        crate::builder::lemma_vert_index(vq4, b0);
        crate::builder::lemma_vert_index(vq4, d0);
    }
    let right_wall = crate::builder::quad_add_face(st1.0, st1.1, bz, dz, b0, d0);
    assert(!crate::builder::quad_key_present(st1.1, q4)) by {
        assert(crate::builder::quad_key(q1) == (0u32, 1u32, 2u32, 3u32));
        assert(crate::builder::quad_key(q2) == (0u32, 2u32, 4u32, 5u32));
        assert(crate::builder::quad_key(q3) == (0u32, 1u32, 5u32, 6u32));
        assert(crate::builder::quad_key(q4) == (1u32, 3u32, 6u32, 7u32));
        assert(st1.1[0] == q1 && st1.1[1] == q2 && st1.1[2] == q3);
    }
    assert(right_wall.0 == vq4 && right_wall.1 =~= seq![q1, q2, q3, q4]);
    assert(st2 == (vq4, seq![q1, q2, q3, q4]));

    // feature pc: bottom wall only
    let st3 = finalize_state(g, s, 3);
    assert(st3 == emit_feature(g, st2, pc, s));
    assert(blank(g, r, c) == false);  // pc's top-right
    assert(blank(g, r + 1, c));  // pc's bottom-right
    let q5 = QuadFace { a: 7, b: 4, c: 3, d: 2 };
    assert(crate::builder::add_vert_seq4(vq4, dz, cz, d0, c0) == vq4) by {
        lemma_weld_known(vq4, dz);
        lemma_weld_known(vq4, cz);
        lemma_weld_known(vq4, d0);
        lemma_weld_known(vq4, c0);
    }
    assert(crate::builder::vert_index(vq4, cz) == 4 && crate::builder::vert_index(vq4, c0)
        == 2) by {
        crate::builder::lemma_vert_index(vq4, cz);
        crate::builder::lemma_vert_index(vq4, c0);
    }
    let bottom_wall = crate::builder::quad_add_face(st2.0, st2.1, dz, cz, d0, c0);
    assert(!crate::builder::quad_key_present(st2.1, q5)) by {
        assert(crate::builder::quad_key(q1) == (0u32, 1u32, 2u32, 3u32));
        assert(crate::builder::quad_key(q2) == (0u32, 2u32, 4u32, 5u32));
        assert(crate::builder::quad_key(q3) == (0u32, 1u32, 5u32, 6u32));
        assert(crate::builder::quad_key(q4) == (1u32, 3u32, 6u32, 7u32));
        assert(crate::builder::quad_key(q5) == (2u32, 3u32, 4u32, 7u32));
        assert(st2.1[0] == q1 && st2.1[1] == q2 && st2.1[2] == q3 && st2.1[3] == q4);
    }
    assert(bottom_wall.0 == vq4 && bottom_wall.1 =~= seq![q1, q2, q3, q4, q5]);
    assert(st3 == (vq4, seq![q1, q2, q3, q4, q5]));

    // feature pd: no neighbors, nothing emitted
    let st4 = finalize_state(g, s, 4);
    assert(st4 == emit_feature(g, st3, pd, s));
    assert(st4 == st3);

    assert(s.len() == 4);
    assert(from_image_spec(g).0 == vq4);
    assert(from_image_spec(g).1 == crate::builder::expand_quads(st4.1));
    crate::builder::lemma_expand_quads_len(st4.1);
    assert(st4.1.len() == 5);
}

} // verus!
