use sprite_reify::grid::PixelGrid;
use sprite_reify::mesh::{Mesh, Vertex};
use sprite_reify::obj_text::{from_obj_text, to_obj_text, ParseErrorKind};
use sprite_reify::reify::from_image;

fn v(x: i64, y: i64, z: i64) -> Vertex {
    Vertex { x, y, z }
}

#[test]
fn export_exact_text() {
    let mesh = Mesh::from_geometry(
        vec![v(5001, 2000, 0), v(1, 2999, -1000), v(-5, 10, 250)],
        vec![0, 1, 2],
    );
    let text = to_obj_text(&mesh);
    assert_eq!(
        text,
        "v 5.001 2 0\nv 0.001 2.999 -1\nv -0.005 0.01 0.25\nf 1 2 3\n"
    );
}

#[test]
fn round_trip_exact_values() {
    let mesh = Mesh::from_geometry(
        vec![
            v(0, 0, 0),
            v(123456, -987, -1000),
            v(2001, 2999, 0),
            v(-1, -10, -100),
        ],
        vec![0, 1, 2, 2, 1, 3],
    );
    let text = to_obj_text(&mesh);
    let back = from_obj_text(&text).expect("round trip parses");
    assert_eq!(back.vertices, mesh.vertices);
    assert_eq!(back.faces, mesh.faces);
}

#[test]
fn round_trip_reified_mesh() {
    let art = vec![
        "........".to_string(),
        ".####...".to_string(),
        ".#####..".to_string(),
        "..##.#..".to_string(),
        "........".to_string(),
    ];
    let rows: Vec<Vec<bool>> = art
        .iter()
        .map(|line| line.chars().map(|c| c == '#').collect())
        .collect();
    let mesh = from_image(PixelGrid::from_rows(rows).unwrap());
    let text = to_obj_text(&mesh);
    let back = from_obj_text(&text).expect("round trip parses");
    assert_eq!(back.vertices, mesh.vertices);
    assert_eq!(back.faces, mesh.faces);
}

#[test]
fn empty_mesh_round_trips() {
    let mesh = Mesh::new();
    let text = to_obj_text(&mesh);
    assert_eq!(text, "");
    let back = from_obj_text(&text).expect("empty parses");
    assert!(back.vertices.is_empty());
    assert!(back.faces.is_empty());
}

#[test]
fn parse_accepts_fractions_and_signs() {
    let m = from_obj_text("v 1.5 -2.25 0.125\n").expect("parses");
    assert_eq!(m.vertices, vec![v(1500, -2250, 125)]);
    assert!(m.faces.is_empty());
}

#[test]
fn parse_ignores_extra_fields() {
    let m = from_obj_text("v 1 2 3 anything else\nf 1 2 3 junk\n").expect("parses");
    assert_eq!(m.vertices, vec![v(1000, 2000, 3000)]);
    assert_eq!(m.faces, vec![0, 1, 2]);
}

#[test]
fn parse_accepts_missing_final_newline() {
    let m = from_obj_text("v 1 2 3").expect("parses");
    assert_eq!(m.vertices, vec![v(1000, 2000, 3000)]);
}

#[test]
fn bad_leading_token_is_reported() {
    let e = from_obj_text("x 1 2 3\n").unwrap_err();
    assert_eq!(e.line, 1);
    assert_eq!(e.offset, 0);
    assert_eq!(e.kind, ParseErrorKind::BadToken);
}

#[test]
fn empty_line_is_a_bad_token() {
    let e = from_obj_text("v 1 2 3\n\nf 1 2 3\n").unwrap_err();
    assert_eq!(e.line, 2);
    assert_eq!(e.offset, 0);
    assert_eq!(e.kind, ParseErrorKind::BadToken);
}

#[test]
fn junk_coordinate_is_reported_at_its_offset() {
    let e = from_obj_text("v 1 abc 3\n").unwrap_err();
    assert_eq!(e.line, 1);
    assert_eq!(e.offset, 4);
    assert_eq!(e.kind, ParseErrorKind::BadNumber);
}

#[test]
fn missing_field_is_reported_at_line_end() {
    let e = from_obj_text("v 1 2\n").unwrap_err();
    assert_eq!(e.line, 1);
    assert_eq!(e.offset, 5);
    assert_eq!(e.kind, ParseErrorKind::BadNumber);
}

#[test]
fn doubled_space_makes_an_empty_field() {
    let e = from_obj_text("v  1 2 3\n").unwrap_err();
    assert_eq!(e.line, 1);
    assert_eq!(e.offset, 2);
    assert_eq!(e.kind, ParseErrorKind::BadNumber);
}

#[test]
fn zero_face_index_is_rejected() {
    // the format is 1-based
    let e = from_obj_text("f 0 1 2\n").unwrap_err();
    assert_eq!(e.line, 1);
    assert_eq!(e.offset, 2);
    assert_eq!(e.kind, ParseErrorKind::BadNumber);
}

#[test]
fn oversized_face_index_is_rejected() {
    let e = from_obj_text("f 4294967297 1 2\n").unwrap_err();
    assert_eq!(e.offset, 2);
    assert_eq!(e.kind, ParseErrorKind::BadNumber);
    // the largest representable index still parses
    let m = from_obj_text("f 4294967296 1 2\n").expect("parses");
    assert_eq!(m.faces, vec![4294967295, 0, 1]);
}

#[test]
fn too_many_fraction_digits_rejected() {
    let e = from_obj_text("v 1.2345 0 0\n").unwrap_err();
    assert_eq!(e.offset, 2);
    assert_eq!(e.kind, ParseErrorKind::BadNumber);
}

#[test]
fn error_line_numbers_count_from_one() {
    let e = from_obj_text("v 1 2 3\nf 1 2 3\nv x 0 0\n").unwrap_err();
    assert_eq!(e.line, 3);
    assert_eq!(e.offset, 2);
}

#[test]
fn huge_coordinate_is_rejected() {
    let e = from_obj_text("v 99999999999999999999 0 0\n").unwrap_err();
    assert_eq!(e.kind, ParseErrorKind::BadNumber);
    // the extremes of the representable range still round-trip
    let mesh = Mesh::from_geometry(vec![v(i64::MAX, i64::MIN, 0)], vec![]);
    let text = to_obj_text(&mesh);
    let back = from_obj_text(&text).expect("extremes parse");
    assert_eq!(back.vertices, mesh.vertices);
}
