use sprite_reify::builder::{QuadMeshBuilder, SortedFace, SortedTriangle, TriMeshBuilder};
use sprite_reify::mesh::Vertex;

fn v(x: i64, y: i64, z: i64) -> Vertex {
    Vertex { x, y, z }
}

#[test]
fn sorted_face_orders_ascending() {
    let f = SortedFace::new(7, 2, 9, 2);
    assert_eq!((f.0, f.1, f.2, f.3), (2, 2, 7, 9));
    let g = SortedFace::new(0, 1, 2, 3);
    assert_eq!((g.0, g.1, g.2, g.3), (0, 1, 2, 3));
}

#[test]
fn sorted_triangle_orders_ascending() {
    let t = SortedTriangle::new(5, 0, 3);
    assert_eq!((t.0, t.1, t.2), (0, 3, 5));
}

#[test]
fn quad_builder_welds_shared_vertices() {
    let mut b = QuadMeshBuilder::new();
    let a = v(0, 0, 0);
    let t = v(1000, 0, 0);
    let c = v(0, 1000, 0);
    let d = v(1000, 1000, 0);
    let e = v(2000, 0, 0);
    let f = v(2000, 1000, 0);
    b.add_face(a, t, c, d);
    b.add_face(t, e, d, f);
    let m = b.build();
    // the shared edge vertices appear once
    assert_eq!(m.vertices.len(), 6);
    assert_eq!(m.faces.len(), 12);
}

#[test]
fn quad_builder_drops_rotated_duplicate() {
    let mut b = QuadMeshBuilder::new();
    let a = v(0, 0, 0);
    let t = v(1000, 0, 0);
    let c = v(0, 1000, 0);
    let d = v(1000, 1000, 0);
    b.add_face(a, t, c, d);
    b.add_face(t, c, d, a);
    b.add_face(d, a, t, c);
    let m = b.build();
    assert_eq!(m.vertices.len(), 4);
    assert_eq!(m.faces.len(), 6);
}

#[test]
fn quad_builder_keeps_distinct_faces() {
    let mut b = QuadMeshBuilder::new();
    b.add_face(v(0, 0, 0), v(1, 0, 0), v(2, 0, 0), v(3, 0, 0));
    b.add_face(v(0, 0, 0), v(1, 0, 0), v(2, 0, 0), v(4, 0, 0));
    let m = b.build();
    assert_eq!(m.vertices.len(), 5);
    assert_eq!(m.faces.len(), 12);
}

#[test]
fn quad_builder_winding_split() {
    let mut b = QuadMeshBuilder::new();
    b.add_face(v(0, 0, 0), v(1, 0, 0), v(2, 0, 0), v(3, 0, 0));
    let m = b.build();
    // the fixed diagonal split: (tl, bl, br) then (tr, tl, br)
    assert_eq!(m.faces, vec![0, 2, 3, 1, 0, 3]);
}

#[test]
fn quad_builder_duplicate_vertex_values_reuse_index() {
    let mut b = QuadMeshBuilder::new();
    b.add_face(v(5, 5, 5), v(5, 5, 5), v(6, 6, 6), v(7, 7, 7));
    let m = b.build();
    assert_eq!(m.vertices.len(), 3);
    assert_eq!(m.faces[0], m.faces[4]);
}

#[test]
fn tri_builder_drops_rotated_duplicate() {
    let mut b = TriMeshBuilder::new();
    let a = v(0, 0, 0);
    let t = v(1000, 0, 0);
    let c = v(0, 1000, 0);
    b.add_triangle(a, t, c);
    b.add_triangle(t, c, a);
    b.add_triangle(c, a, t);
    let m = b.build();
    assert_eq!(m.vertices.len(), 3);
    assert_eq!(m.faces, vec![0, 1, 2]);
}

#[test]
fn tri_builder_passes_triangles_through() {
    let mut b = TriMeshBuilder::new();
    b.add_triangle(v(0, 0, 0), v(1, 0, 0), v(2, 0, 0));
    b.add_triangle(v(2, 0, 0), v(1, 0, 0), v(3, 0, 0));
    let m = b.build();
    assert_eq!(m.vertices.len(), 4);
    assert_eq!(m.faces, vec![0, 1, 2, 2, 1, 3]);
}

#[test]
fn empty_builders_build_empty_meshes() {
    let m1 = QuadMeshBuilder::new().build();
    assert!(m1.vertices.is_empty());
    assert!(m1.faces.is_empty());
    let m2 = TriMeshBuilder::new().build();
    assert!(m2.vertices.is_empty());
    assert!(m2.faces.is_empty());
}
