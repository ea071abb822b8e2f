use sprite_reify::coords::{EdgeCoord, ImageCoord};
use sprite_reify::edges::edge_points;
use sprite_reify::grid::PixelGrid;
use sprite_reify::reify::{basic_cartesian, from_image, try_find_bottom, try_find_right};
use sprite_reify::walls::{border_cells, cell_walls, WallInfo};

fn grid_from_art(art: &[&str]) -> PixelGrid {
    let rows: Vec<Vec<bool>> = art
        .iter()
        .map(|line| line.chars().map(|c| c == '#').collect())
        .collect();
    PixelGrid::from_rows(rows).expect("valid grid")
}

#[test]
fn wall_info_starts_unset() {
    let w = WallInfo::new();
    assert!(!w.right);
    assert!(!w.bottom);
}

#[test]
fn coord_offset_moves_both_axes() {
    let c = ImageCoord::new(3, 4);
    let d = c.offset(-1, 2);
    assert_eq!((d.row, d.col), (2, 6));
    let e = EdgeCoord::new(5, 5).offset(1, -5);
    assert_eq!((e.row, e.col), (6, 0));
}

#[test]
fn from_rows_rejects_ragged_and_empty() {
    assert!(PixelGrid::from_rows(vec![]).is_none());
    assert!(PixelGrid::from_rows(vec![vec![]]).is_none());
    assert!(PixelGrid::from_rows(vec![vec![true, false], vec![true]]).is_none());
    assert!(PixelGrid::from_rows(vec![vec![true, false], vec![false, true]]).is_some());
}

#[test]
fn isolated_pixel_single_border_cell() {
    let g = grid_from_art(&[".....", ".....", "..#..", ".....", "....."]);
    let border = border_cells(&g);
    assert_eq!(border.len(), 1);
    assert_eq!((border[0].row, border[0].col), (2, 2));
}

#[test]
fn isolated_pixel_walls() {
    let g = grid_from_art(&[".....", ".....", "..#..", ".....", "....."]);
    let border = border_cells(&g);
    let walls = cell_walls(&g, border);
    assert!(walls[1][2].bottom);
    assert!(walls[2][2].bottom);
    assert!(walls[2][1].right);
    assert!(walls[2][2].right);
    let mut set_count = 0;
    for row in &walls {
        for w in row {
            if w.bottom {
                set_count += 1;
            }
            if w.right {
                set_count += 1;
            }
        }
    }
    assert_eq!(set_count, 4);
}

#[test]
fn isolated_pixel_edge_points() {
    let g = grid_from_art(&[".....", ".....", "..#..", ".....", "....."]);
    let border = border_cells(&g);
    let walls = cell_walls(&g, border);
    let points = edge_points(walls);
    let coords: Vec<(usize, usize)> = points.iter().map(|e| (e.row, e.col)).collect();
    assert_eq!(coords, vec![(1, 1), (1, 2), (2, 1), (2, 2)]);
}

#[test]
fn isolated_pixel_box_mesh() {
    // one opaque pixel extrudes to a box open at the back: a front quad
    // and four side quads, each split into two triangles
    let g = grid_from_art(&[".....", ".....", "..#..", ".....", "....."]);
    let mesh = from_image(g);
    assert_eq!(mesh.vertices.len(), 8);
    assert_eq!(mesh.faces.len(), 30);
    for &idx in &mesh.faces {
        assert!((idx as usize) < mesh.vertices.len());
    }
}

#[test]
fn rectangle_has_four_edge_points() {
    let g = grid_from_art(&[
        "........",
        "..####..",
        "..####..",
        "..####..",
        "........",
        "........",
    ]);
    let border = border_cells(&g);
    let walls = cell_walls(&g, border);
    let points = edge_points(walls);
    let coords: Vec<(usize, usize)> = points.iter().map(|e| (e.row, e.col)).collect();
    assert_eq!(coords, vec![(0, 1), (0, 5), (3, 1), (3, 5)]);
}

#[test]
fn large_rectangle_still_four_edge_points() {
    let mut art: Vec<String> = Vec::new();
    for r in 0..40 {
        let mut line = String::new();
        for c in 0..60 {
            if (2..=30).contains(&r) && (3..=50).contains(&c) {
                line.push('#');
            } else {
                line.push('.');
            }
        }
        art.push(line);
    }
    let art_refs: Vec<&str> = art.iter().map(|s| s.as_str()).collect();
    let g = grid_from_art(&art_refs);
    let border = border_cells(&g);
    let walls = cell_walls(&g, border);
    let points = edge_points(walls);
    assert_eq!(points.len(), 4);
}

#[test]
fn pipeline_is_idempotent() {
    let art = &[
        "..........",
        "..##......",
        "..#####...",
        "..##..##..",
        "...#...#..",
        "..........",
    ];
    let m1 = from_image(grid_from_art(art));
    let m2 = from_image(grid_from_art(art));
    assert_eq!(m1.vertices, m2.vertices);
    assert_eq!(m1.faces, m2.faces);
}

#[test]
fn every_mesh_index_in_range() {
    let art = &[
        "........",
        ".####...",
        ".#..##..",
        ".#...#..",
        ".#####..",
        "........",
    ];
    let mesh = from_image(grid_from_art(art));
    assert!(mesh.faces.len() % 3 == 0);
    for &idx in &mesh.faces {
        assert!((idx as usize) < mesh.vertices.len());
    }
}

#[test]
fn silhouette_on_grid_edge_is_ignored() {
    // the outermost pixel ring is never scanned, so a sprite touching it
    // contributes no border cells
    let g = grid_from_art(&["##...", "##...", ".....", ".....", "....."]);
    let border = border_cells(&g);
    let coords: Vec<(usize, usize)> = border.iter().map(|c| (c.row, c.col)).collect();
    assert_eq!(coords, vec![(1, 1)]);
}

#[test]
fn basic_cartesian_nudges_toward_solid() {
    let g = grid_from_art(&[".....", ".....", "..#..", ".....", "....."]);
    // corner (1,1): only its bottom-right pixel (2,2) is opaque
    let v = basic_cartesian(&g, 0, EdgeCoord::new(1, 1));
    assert_eq!((v.x, v.y, v.z), (2001, 2999, 0));
    // corner (2,2): only its top-left pixel (2,2) is opaque
    let v2 = basic_cartesian(&g, -1000, EdgeCoord::new(2, 2));
    assert_eq!((v2.x, v2.y, v2.z), (3000 - 1, 2000 + 1, -1000));
}

#[test]
fn find_neighbors_along_walls() {
    let g = grid_from_art(&[".....", ".....", "..#..", ".....", "....."]);
    let border = border_cells(&g);
    let walls = cell_walls(&g, border);
    let points = edge_points(walls);
    let bottom = try_find_bottom(&g, &points, EdgeCoord::new(1, 1));
    assert_eq!(bottom.map(|e| (e.row, e.col)), Some((2, 1)));
    let right = try_find_right(&g, &points, EdgeCoord::new(1, 1));
    assert_eq!(right.map(|e| (e.row, e.col)), Some((1, 2)));
    let none_below = try_find_bottom(&g, &points, EdgeCoord::new(2, 1));
    assert_eq!(none_below.map(|e| (e.row, e.col)), None);
}

#[test]
fn two_by_two_block_mesh() {
    let g = grid_from_art(&["......", ".##...", ".##...", "......", "......"]);
    let mesh = from_image(g);
    // a rectangle reifies like a single pixel: front plus four sides
    assert_eq!(mesh.vertices.len(), 8);
    assert_eq!(mesh.faces.len(), 30);
}

#[test]
fn isolated_pixel_exact_mesh() {
    // hand-evaluated pipeline output for one opaque pixel at (2,2) of a
    // 5x5 grid: four nudged front corners, four back corners, and five
    // quads (front, then the four side walls in edge-point order)
    let g = grid_from_art(&[".....", ".....", "..#..", ".....", "....."]);
    let mesh = from_image(g);
    let v = |x: i64, y: i64, z: i64| sprite_reify::mesh::Vertex { x, y, z };
    assert_eq!(
        mesh.vertices,
        vec![
            v(2001, 2999, 0),
            v(2999, 2999, 0),
            v(2001, 2001, 0),
            v(2999, 2001, 0),
            v(2001, 2001, -1000),
            v(2001, 2999, -1000),
            v(2999, 2999, -1000),
            v(2999, 2001, -1000),
        ]
    );
    assert_eq!(
        mesh.faces,
        vec![
            0, 2, 3, 1, 0, 3, // front
            4, 2, 0, 5, 4, 0, // left wall
            5, 0, 1, 6, 5, 1, // top wall
            6, 1, 3, 7, 6, 3, // right wall
            7, 3, 2, 4, 7, 2, // bottom wall
        ]
    );
}
