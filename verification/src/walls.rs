//! Silhouette border detection and wall tracing.
//!
//! A border cell is an opaque interior pixel with at least one transparent
//! 8-neighbor. From every border cell, straight wall runs are traced along
//! the row and the column, recording per-cell `bottom` and `right` wall
//! flags. The contracts below characterize the traced flags exactly, as a
//! function of the pixel grid alone.

use vstd::prelude::*;

use crate::coords::ImageCoord;
use crate::grid::PixelGrid;

verus! {

/// Per-cell wall flags: `right` marks a vertical wall segment immediately to
/// the cell's right, `bottom` a horizontal wall segment immediately below it.
#[derive(Clone, Copy, PartialEq, Eq, Structural, Debug)]
pub struct WallInfo {
    pub right: bool,
    pub bottom: bool,
}

impl WallInfo {
    pub fn new() -> (w: WallInfo)
        ensures
            !w.right,
            !w.bottom,
    {
        WallInfo { right: false, bottom: false }
    }
}

/// Row-major strict order on pixel coordinates: the order in which
/// `border_cells` lists its result.
pub open spec fn img_lt(a: ImageCoord, b: ImageCoord) -> bool {
    a.row < b.row || (a.row == b.row && a.col < b.col)
}

/// The cell lies strictly inside the grid, off the outermost pixel ring.
pub open spec fn in_interior(g: &PixelGrid, r: int, c: int) -> bool {
    1 <= r <= g.height - 2 && 1 <= c <= g.width - 2
}

/// (nr, nc) is one of the eight neighbors of (r, c).
pub open spec fn neighbor8(r: int, c: int, nr: int, nc: int) -> bool {
    r - 1 <= nr <= r + 1 && c - 1 <= nc <= c + 1 && !(nr == r && nc == c)
}

/// The cell is on the silhouette border: an opaque interior cell with at
/// least one transparent 8-neighbor. Cells on the outermost pixel ring are
/// never border cells; sprites are expected to be authored with padding.
pub open spec fn is_border(g: &PixelGrid, r: int, c: int) -> bool {
    &&& in_interior(g, r, c)
    &&& g.at(r, c)
    &&& exists|nr: int, nc: int| neighbor8(r, c, nr, nc) && !(#[trigger] g.at(nr, nc))
}

/// Decides `is_border` for an interior cell.
fn is_border_cell(g: &PixelGrid, coord: &ImageCoord) -> (b: bool)
    requires
        g.wf(),
        in_interior(g, coord.row as int, coord.col as int),
    ensures
        b == is_border(g, coord.row as int, coord.col as int),
{
    let r = coord.row;
    let c = coord.col;
    if g.is_empty_pixel(r, c) {
        return false;
    }
    let found = g.is_empty_pixel(r - 1, c - 1) || g.is_empty_pixel(r - 1, c)
        || g.is_empty_pixel(r - 1, c + 1) || g.is_empty_pixel(r, c - 1)
        || g.is_empty_pixel(r, c + 1) || g.is_empty_pixel(r + 1, c - 1)
        || g.is_empty_pixel(r + 1, c) || g.is_empty_pixel(r + 1, c + 1);
    proof {
        if !found {
            assert forall|nr: int, nc: int| neighbor8(r as int, c as int, nr, nc) implies #[trigger] g.at(
                nr,
                nc,
            ) by {
                assert(nr == r - 1 || nr == r || nr == r + 1);
                assert(nc == c - 1 || nc == c || nc == c + 1);
            }
        }
    }
    found
}

/// Lists every border cell, in row-major order.
pub fn border_cells(g: &PixelGrid) -> (res: Vec<ImageCoord>)
    requires
        g.wf(),
    ensures
        forall|p: ImageCoord|
            #[trigger] res@.contains(p) <==> is_border(g, p.row as int, p.col as int),
        forall|i: int, j: int| 0 <= i < j < res@.len() ==> img_lt(res@[i], res@[j]),
{
    let mut res: Vec<ImageCoord> = Vec::new();
    let height = g.height;
    let width = g.width;
    let mut row: usize = 1;
    while row + 1 < height
        invariant
            g.wf(),
            height == g.height,
            width == g.width,
            1 <= row <= height,
            forall|p: ImageCoord|
                #[trigger] res@.contains(p) <==> is_border(g, p.row as int, p.col as int)
                    && p.row < row,
            forall|i: int, j: int| 0 <= i < j < res@.len() ==> img_lt(res@[i], res@[j]),
            forall|i: int| 0 <= i < res@.len() ==> (#[trigger] res@[i]).row < row,
        decreases height - row,
    {
        let mut col: usize = 1;
        while col + 1 < width
            invariant
                g.wf(),
                height == g.height,
                width == g.width,
                1 <= row,
                row + 1 < height,
                1 <= col <= width,
                forall|p: ImageCoord|
                    #[trigger] res@.contains(p) <==> is_border(g, p.row as int, p.col as int) && (
                    p.row < row || (p.row == row && p.col < col)),
                forall|i: int, j: int| 0 <= i < j < res@.len() ==> img_lt(res@[i], res@[j]),
                forall|i: int|
                    0 <= i < res@.len() ==> (#[trigger] res@[i]).row < row || ((#[trigger] res@[i]).row
                        == row && res@[i].col < col),
            decreases width - col,
        {
            let coord = ImageCoord::new(row, col);
            if is_border_cell(g, &coord) {
                let ghost old_res = res@;
                res.push(coord);
                proof {
                    assert forall|p: ImageCoord| #[trigger]
                        res@.contains(p) implies is_border(g, p.row as int, p.col as int) && (p.row
                        < row || (p.row == row && p.col < col + 1)) by {
                        let i = choose|i: int| 0 <= i < res@.len() && res@[i] == p;
                        if i < old_res.len() {
                            assert(old_res.contains(p));
                        } else {
                            assert(p == coord);
                        }
                    }
                    assert forall|p: ImageCoord|
                        is_border(g, p.row as int, p.col as int) && (p.row < row || (p.row == row
                            && p.col < col + 1)) implies #[trigger] res@.contains(p) by {
                        if p == coord {
                            assert(res@[res@.len() - 1] == p);
                        } else {
                            assert(old_res.contains(p));
                            let i = choose|i: int| 0 <= i < old_res.len() && old_res[i] == p;
                            assert(res@[i] == p);
                        }
                    }
                }
            }
            col += 1;
        }
        row += 1;
    }
    proof {
        assert forall|p: ImageCoord|
            is_border(g, p.row as int, p.col as int) implies #[trigger] res@.contains(p) by {
            assert(p.row < row);
        }
    }
    res
}

/// All pixels of `row` between columns `c1` and `c2` (inclusive, in either
/// order) are opaque.
pub open spec fn row_run_opaque(g: &PixelGrid, row: int, c1: int, c2: int) -> bool {
    forall|x: int| (c1 <= x <= c2 || c2 <= x <= c1) ==> #[trigger] g.at(row, x)
}

/// All pixels of column `col` between rows `r1` and `r2` (inclusive, in
/// either order) are opaque.
pub open spec fn col_run_opaque(g: &PixelGrid, col: int, r1: int, r2: int) -> bool {
    forall|x: int| (r1 <= x <= r2 || r2 <= x <= r1) ==> #[trigger] g.at(x, col)
}

/// Column `c` belongs to the horizontal run traced from the border cell
/// (`row`, `col`): it lies off the outermost columns and the whole stretch
/// of that row between the focus column and `c` is opaque.
pub open spec fn hmark(g: &PixelGrid, row: int, col: int, c: int) -> bool {
    1 <= c <= g.width - 2 && row_run_opaque(g, row, col, c)
}

/// Row `r` belongs to the vertical run traced from the border cell
/// (`row`, `col`).
pub open spec fn vmark(g: &PixelGrid, row: int, col: int, r: int) -> bool {
    1 <= r <= g.height - 2 && col_run_opaque(g, col, row, r)
}

/// The traced `bottom` flag of cell (`fr`, `c`), as a function of the grid:
/// some border cell with a transparent pixel directly above (marking the row
/// above itself) or directly below (marking its own row) reaches column `c`
/// along its opaque row run.
pub open spec fn wall_bottom(g: &PixelGrid, fr: int, c: int) -> bool {
    exists|br: int, bc: int|
        #[trigger] is_border(g, br, bc) && hmark(g, br, bc, c) && ((fr == br - 1 && g.empty_at(
            br - 1,
            bc,
        )) || (fr == br && g.empty_at(br + 1, bc)))
}

/// The traced `right` flag of cell (`r`, `fc`): some border cell with a
/// transparent pixel directly to its left (marking the column left of
/// itself) or to its right (marking its own column) reaches row `r` along
/// its opaque column run.
pub open spec fn wall_right(g: &PixelGrid, r: int, fc: int) -> bool {
    exists|br: int, bc: int|
        #[trigger] is_border(g, br, bc) && vmark(g, br, bc, r) && ((fc == bc - 1 && g.empty_at(
            br,
            bc - 1,
        )) || (fc == bc && g.empty_at(br, bc + 1)))
}

/// The wall grid has one `WallInfo` per pixel.
pub open spec fn walls_dims(w: Seq<Vec<WallInfo>>, h: int, wd: int) -> bool {
    w.len() == h && forall|r: int| 0 <= r < h ==> (#[trigger] w[r])@.len() == wd
}

pub open spec fn bottom_at(w: Seq<Vec<WallInfo>>, r: int, c: int) -> bool {
    w[r]@[c].bottom
}

pub open spec fn right_at(w: Seq<Vec<WallInfo>>, r: int, c: int) -> bool {
    w[r]@[c].right
}

/// Marks `bottom` on row `focus_row` for the whole contiguous opaque run of
/// `focus`'s row around `focus`'s column (clamped to the interior columns).
fn set_walls_horizontal(
    g: &PixelGrid,
    focus: ImageCoord,
    focus_row: usize,
    walls: &mut Vec<Vec<WallInfo>>,
)
    requires
        g.wf(),
        walls_dims(old(walls)@, g.height as int, g.width as int),
        is_border(g, focus.row as int, focus.col as int),
        (focus_row == focus.row - 1 && g.empty_at(focus.row - 1, focus.col as int)) || (focus_row
            == focus.row && g.empty_at(focus.row + 1, focus.col as int)),
    ensures
        walls_dims(final(walls)@, g.height as int, g.width as int),
        forall|r: int, c: int|
            0 <= r < g.height && 0 <= c < g.width ==> #[trigger] right_at(final(walls)@, r, c)
                == right_at(old(walls)@, r, c),
        forall|r: int, c: int|
            0 <= r < g.height && 0 <= c < g.width ==> #[trigger] bottom_at(final(walls)@, r, c) == (
            bottom_at(old(walls)@, r, c) || (r == focus_row && hmark(
                g,
                focus.row as int,
                focus.col as int,
                c,
            ))),
{
    let width = g.width;
    let frow = focus.row;
    let mut col_a: usize = focus.col;
    let mut stopped_a = false;
    while !stopped_a && col_a + 1 < width
        invariant
            g.wf(),
            width == g.width,
            frow == focus.row,
            is_border(g, focus.row as int, focus.col as int),
            focus_row < g.height,
            focus.col <= col_a <= width - 1,
            walls_dims(walls@, g.height as int, g.width as int),
            forall|x: int| focus.col <= x < col_a ==> g.at(frow as int, x),
            stopped_a ==> g.empty_at(frow as int, col_a as int),
            forall|r: int, c: int|
                0 <= r < g.height && 0 <= c < g.width ==> #[trigger] right_at(walls@, r, c)
                    == right_at(old(walls)@, r, c),
            forall|r: int, c: int|
                0 <= r < g.height && 0 <= c < g.width ==> #[trigger] bottom_at(walls@, r, c) == (
                bottom_at(old(walls)@, r, c) || (r == focus_row && focus.col <= c < col_a)),
        decreases width - col_a + (if stopped_a { 0int } else { 1int }),
    {
        if g.is_empty_pixel(frow, col_a) {
            stopped_a = true;
        } else {
            let ghost prev = walls@;
            walls[focus_row][col_a].bottom = true;
            proof {
                assert forall|r: int, c: int|
                    0 <= r < g.height && 0 <= c < g.width && !(r == focus_row && c
                        == col_a) implies walls@[r]@[c] == prev[r]@[c] by {}
                assert(walls@[focus_row as int]@[col_a as int].bottom);
                assert(walls@[focus_row as int]@[col_a as int].right
                    == prev[focus_row as int]@[col_a as int].right);
                assert forall|r: int, c: int|
                    0 <= r < g.height && 0 <= c < g.width implies #[trigger] bottom_at(walls@, r, c)
                    == (bottom_at(prev, r, c) || (r == focus_row && c == col_a)) by {}
                assert forall|r: int, c: int|
                    0 <= r < g.height && 0 <= c < g.width implies #[trigger] right_at(walls@, r, c)
                    == right_at(old(walls)@, r, c) by {
                    assert(right_at(prev, r, c) == right_at(old(walls)@, r, c));
                }
            }
            col_a += 1;
        }
    }
    let mut col_b: usize = focus.col;
    let mut stopped_b = false;
    while !stopped_b && col_b > 1
        invariant
            g.wf(),
            width == g.width,
            frow == focus.row,
            is_border(g, focus.row as int, focus.col as int),
            focus_row < g.height,
            focus.col <= col_a <= width - 1,
            1 <= col_b <= focus.col,
            walls_dims(walls@, g.height as int, g.width as int),
            forall|x: int| focus.col <= x < col_a ==> g.at(frow as int, x),
            stopped_a ==> g.empty_at(frow as int, col_a as int),
            stopped_a || col_a + 1 >= width,
            forall|x: int| col_b <= x < focus.col ==> g.at(frow as int, x),
            stopped_b ==> g.empty_at(frow as int, col_b - 1),
            forall|r: int, c: int|
                0 <= r < g.height && 0 <= c < g.width ==> #[trigger] right_at(walls@, r, c)
                    == right_at(old(walls)@, r, c),
            forall|r: int, c: int|
                0 <= r < g.height && 0 <= c < g.width ==> #[trigger] bottom_at(walls@, r, c) == (
                bottom_at(old(walls)@, r, c) || (r == focus_row && (focus.col <= c < col_a || col_b
                    <= c < focus.col))),
        decreases col_b + (if stopped_b { 0int } else { 1int }),
    {
        if g.is_empty_pixel(frow, col_b - 1) {
            stopped_b = true;
        } else {
            let ghost prev = walls@;
            walls[focus_row][col_b - 1].bottom = true;
            proof {
                assert forall|r: int, c: int|
                    0 <= r < g.height && 0 <= c < g.width && !(r == focus_row && c == col_b
                        - 1) implies walls@[r]@[c] == prev[r]@[c] by {}
                assert(walls@[focus_row as int]@[col_b - 1].bottom);
                assert(walls@[focus_row as int]@[col_b - 1].right
                    == prev[focus_row as int]@[col_b - 1].right);
                assert forall|r: int, c: int|
                    0 <= r < g.height && 0 <= c < g.width implies #[trigger] bottom_at(walls@, r, c)
                    == (bottom_at(prev, r, c) || (r == focus_row && c == col_b - 1)) by {}
                assert forall|r: int, c: int|
                    0 <= r < g.height && 0 <= c < g.width implies #[trigger] right_at(walls@, r, c)
                    == right_at(old(walls)@, r, c) by {
                    assert(right_at(prev, r, c) == right_at(old(walls)@, r, c));
                }
            }
            col_b -= 1;
        }
    }
    proof {
        let fr = focus.row as int;
        let fc = focus.col as int;
        assert forall|r: int, c: int|
            0 <= r < g.height && 0 <= c < g.width implies #[trigger] bottom_at(walls@, r, c) == (
        bottom_at(old(walls)@, r, c) || (r == focus_row && hmark(g, fr, fc, c))) by {
            if r == focus_row {
                // marked columns carry the run property
                if bottom_at(walls@, r, c) && !bottom_at(old(walls)@, r, c) {
                    assert(hmark(g, fr, fc, c));
                }
                // every hmark column was reached by one of the two scans
                if hmark(g, fr, fc, c) {
                    if c >= fc {
                        if c >= col_a {
                            if stopped_a {
                                assert(g.at(fr, col_a as int));
                                assert(false);
                            } else {
                                assert(col_a + 1 >= width);
                                assert(c <= g.width - 2);
                                assert(false);
                            }
                        }
                        assert(bottom_at(walls@, r, c));
                    } else {
                        if c < col_b {
                            if stopped_b {
                                assert(g.at(fr, col_b - 1));
                                assert(false);
                            } else {
                                assert(col_b == 1);
                                assert(false);
                            }
                        }
                        assert(bottom_at(walls@, r, c));
                    }
                }
            }
        }
    }
}

/// Marks `right` on column `focus_col` for the whole contiguous opaque run
/// of `focus`'s column around `focus`'s row (clamped to the interior rows).
fn set_walls_vertical(
    g: &PixelGrid,
    focus: ImageCoord,
    focus_col: usize,
    walls: &mut Vec<Vec<WallInfo>>,
)
    requires
        g.wf(),
        walls_dims(old(walls)@, g.height as int, g.width as int),
        is_border(g, focus.row as int, focus.col as int),
        (focus_col == focus.col - 1 && g.empty_at(focus.row as int, focus.col - 1)) || (focus_col
            == focus.col && g.empty_at(focus.row as int, focus.col + 1)),
    ensures
        walls_dims(final(walls)@, g.height as int, g.width as int),
        forall|r: int, c: int|
            0 <= r < g.height && 0 <= c < g.width ==> #[trigger] bottom_at(final(walls)@, r, c)
                == bottom_at(old(walls)@, r, c),
        forall|r: int, c: int|
            0 <= r < g.height && 0 <= c < g.width ==> #[trigger] right_at(final(walls)@, r, c) == (
            right_at(old(walls)@, r, c) || (c == focus_col && vmark(
                g,
                focus.row as int,
                focus.col as int,
                r,
            ))),
{
    let height = g.height;
    let fcol = focus.col;
    let mut row_a: usize = focus.row;
    let mut stopped_a = false;
    while !stopped_a && row_a + 1 < height
        invariant
            g.wf(),
            height == g.height,
            fcol == focus.col,
            is_border(g, focus.row as int, focus.col as int),
            focus_col < g.width,
            focus.row <= row_a <= height - 1,
            walls_dims(walls@, g.height as int, g.width as int),
            forall|x: int| focus.row <= x < row_a ==> g.at(x, fcol as int),
            stopped_a ==> g.empty_at(row_a as int, fcol as int),
            forall|r: int, c: int|
                0 <= r < g.height && 0 <= c < g.width ==> #[trigger] bottom_at(walls@, r, c)
                    == bottom_at(old(walls)@, r, c),
            forall|r: int, c: int|
                0 <= r < g.height && 0 <= c < g.width ==> #[trigger] right_at(walls@, r, c) == (
                right_at(old(walls)@, r, c) || (c == focus_col && focus.row <= r < row_a)),
        decreases height - row_a + (if stopped_a { 0int } else { 1int }),
    {
        if g.is_empty_pixel(row_a, fcol) {
            stopped_a = true;
        } else {
            let ghost prev = walls@;
            walls[row_a][focus_col].right = true;
            proof {
                assert forall|r: int, c: int|
                    0 <= r < g.height && 0 <= c < g.width && !(r == row_a && c
                        == focus_col) implies walls@[r]@[c] == prev[r]@[c] by {}
                assert(walls@[row_a as int]@[focus_col as int].right);
                assert(walls@[row_a as int]@[focus_col as int].bottom
                    == prev[row_a as int]@[focus_col as int].bottom);
                assert forall|r: int, c: int|
                    0 <= r < g.height && 0 <= c < g.width implies #[trigger] right_at(walls@, r, c)
                    == (right_at(prev, r, c) || (c == focus_col && r == row_a)) by {}
                assert forall|r: int, c: int|
                    0 <= r < g.height && 0 <= c < g.width implies #[trigger] bottom_at(walls@, r, c)
                    == bottom_at(old(walls)@, r, c) by {
                    assert(bottom_at(prev, r, c) == bottom_at(old(walls)@, r, c));
                }
            }
            row_a += 1;
        }
    }
    let mut row_b: usize = focus.row;
    let mut stopped_b = false;
    while !stopped_b && row_b > 1
        invariant
            g.wf(),
            height == g.height,
            fcol == focus.col,
            is_border(g, focus.row as int, focus.col as int),
            focus_col < g.width,
            focus.row <= row_a <= height - 1,
            1 <= row_b <= focus.row,
            walls_dims(walls@, g.height as int, g.width as int),
            forall|x: int| focus.row <= x < row_a ==> g.at(x, fcol as int),
            stopped_a ==> g.empty_at(row_a as int, fcol as int),
            stopped_a || row_a + 1 >= height,
            forall|x: int| row_b <= x < focus.row ==> g.at(x, fcol as int),
            stopped_b ==> g.empty_at(row_b - 1, fcol as int),
            forall|r: int, c: int|
                0 <= r < g.height && 0 <= c < g.width ==> #[trigger] bottom_at(walls@, r, c)
                    == bottom_at(old(walls)@, r, c),
            forall|r: int, c: int|
                0 <= r < g.height && 0 <= c < g.width ==> #[trigger] right_at(walls@, r, c) == (
                right_at(old(walls)@, r, c) || (c == focus_col && (focus.row <= r < row_a || row_b
                    <= r < focus.row))),
        decreases row_b + (if stopped_b { 0int } else { 1int }),
    {
        if g.is_empty_pixel(row_b - 1, fcol) {
            stopped_b = true;
        } else {
            let ghost prev = walls@;
            walls[row_b - 1][focus_col].right = true;
            proof {
                assert forall|r: int, c: int|
                    0 <= r < g.height && 0 <= c < g.width && !(r == row_b - 1 && c
                        == focus_col) implies walls@[r]@[c] == prev[r]@[c] by {}
                assert(walls@[row_b - 1]@[focus_col as int].right);
                assert(walls@[row_b - 1]@[focus_col as int].bottom
                    == prev[row_b - 1]@[focus_col as int].bottom);
                assert forall|r: int, c: int|
                    0 <= r < g.height && 0 <= c < g.width implies #[trigger] right_at(walls@, r, c)
                    == (right_at(prev, r, c) || (c == focus_col && r == row_b - 1)) by {}
                assert forall|r: int, c: int|
                    0 <= r < g.height && 0 <= c < g.width implies #[trigger] bottom_at(walls@, r, c)
                    == bottom_at(old(walls)@, r, c) by {
                    assert(bottom_at(prev, r, c) == bottom_at(old(walls)@, r, c));
                }
            }
            row_b -= 1;
        }
    }
    proof {
        let fr = focus.row as int;
        let fc = focus.col as int;
        assert forall|r: int, c: int|
            0 <= r < g.height && 0 <= c < g.width implies #[trigger] right_at(walls@, r, c) == (
        right_at(old(walls)@, r, c) || (c == focus_col && vmark(g, fr, fc, r))) by {
            if c == focus_col {
                if right_at(walls@, r, c) && !right_at(old(walls)@, r, c) {
                    assert(vmark(g, fr, fc, r));
                }
                if vmark(g, fr, fc, r) {
                    if r >= fr {
                        if r >= row_a {
                            if stopped_a {
                                assert(g.at(row_a as int, fc));
                                assert(false);
                            } else {
                                assert(row_a + 1 >= height);
                                assert(r <= g.height - 2);
                                assert(false);
                            }
                        }
                        assert(right_at(walls@, r, c));
                    } else {
                        if r < row_b {
                            if stopped_b {
                                assert(g.at(row_b - 1, fc));
                                assert(false);
                            } else {
                                assert(row_b == 1);
                                assert(false);
                            }
                        }
                        assert(right_at(walls@, r, c));
                    }
                }
            }
        }
    }
}

/// All four wall runs of border cell (`br`, `bc`) have been recorded in `w`.
pub open spec fn cell_done(g: &PixelGrid, w: Seq<Vec<WallInfo>>, br: int, bc: int) -> bool {
    &&& (g.empty_at(br - 1, bc) ==> forall|c: int|
        #[trigger] hmark(g, br, bc, c) ==> bottom_at(w, br - 1, c))
    &&& (g.empty_at(br + 1, bc) ==> forall|c: int|
        #[trigger] hmark(g, br, bc, c) ==> bottom_at(w, br, c))
    &&& (g.empty_at(br, bc - 1) ==> forall|r: int|
        #[trigger] vmark(g, br, bc, r) ==> right_at(w, r, bc - 1))
    &&& (g.empty_at(br, bc + 1) ==> forall|r: int|
        #[trigger] vmark(g, br, bc, r) ==> right_at(w, r, bc))
}

/// Traces all wall runs from the given border cells. The result is exactly
/// the `wall_bottom` / `wall_right` characterization of the grid, provided
/// `border` lists exactly the border cells.
pub fn cell_walls(g: &PixelGrid, border: Vec<ImageCoord>) -> (walls: Vec<Vec<WallInfo>>)
    requires
        g.wf(),
        forall|p: ImageCoord|
            #[trigger] border@.contains(p) <==> is_border(g, p.row as int, p.col as int),
    ensures
        walls_dims(walls@, g.height as int, g.width as int),
        forall|r: int, c: int|
            0 <= r < g.height && 0 <= c < g.width ==> #[trigger] bottom_at(walls@, r, c)
                == wall_bottom(g, r, c),
        forall|r: int, c: int|
            0 <= r < g.height && 0 <= c < g.width ==> #[trigger] right_at(walls@, r, c)
                == wall_right(g, r, c),
{
    let height = g.height;
    let width = g.width;
    let mut walls: Vec<Vec<WallInfo>> = Vec::new();
    let mut r: usize = 0;
    while r < height
        invariant
            height == g.height,
            width == g.width,
            walls@.len() == r,
            r <= height,
            forall|i: int| 0 <= i < r ==> (#[trigger] walls@[i])@.len() == width,
            forall|i: int, c: int|
                0 <= i < r && 0 <= c < width ==> !(#[trigger] walls@[i]@[c]).bottom && !walls@[i]@[c].right,
        decreases height - r,
    {
        let mut row: Vec<WallInfo> = Vec::new();
        let mut c: usize = 0;
        while c < width
            invariant
                row@.len() == c,
                c <= width,
                forall|j: int| 0 <= j < c ==> !(#[trigger] row@[j]).bottom && !row@[j].right,
            decreases width - c,
        {
            row.push(WallInfo::new());
            c += 1;
        }
        walls.push(row);
        r += 1;
    }
    let mut i: usize = 0;
    while i < border.len()
        invariant
            g.wf(),
            height == g.height,
            width == g.width,
            i <= border@.len(),
            forall|p: ImageCoord|
                #[trigger] border@.contains(p) <==> is_border(g, p.row as int, p.col as int),
            walls_dims(walls@, g.height as int, g.width as int),
            forall|r2: int, c2: int|
                0 <= r2 < g.height && 0 <= c2 < g.width && #[trigger] bottom_at(walls@, r2, c2)
                    ==> wall_bottom(g, r2, c2),
            forall|r2: int, c2: int|
                0 <= r2 < g.height && 0 <= c2 < g.width && #[trigger] right_at(walls@, r2, c2)
                    ==> wall_right(g, r2, c2),
            forall|j: int|
                0 <= j < i ==> cell_done(
                    g,
                    walls@,
                    (#[trigger] border@[j]).row as int,
                    border@[j].col as int,
                ),
        decreases border@.len() - i,
    {
        let focus = border[i];
        proof {
            assert(border@.contains(border@[i as int]));
        }
        let fr = focus.row;
        let fc = focus.col;
        let ghost w0 = walls@;
        if g.is_empty_pixel(fr - 1, fc) {
            set_walls_horizontal(g, focus, fr - 1, &mut walls);
        }
        let ghost w1 = walls@;
        if g.is_empty_pixel(fr + 1, fc) {
            set_walls_horizontal(g, focus, fr, &mut walls);
        }
        let ghost w2 = walls@;
        if g.is_empty_pixel(fr, fc - 1) {
            set_walls_vertical(g, focus, fc - 1, &mut walls);
        }
        let ghost w3 = walls@;
        if g.is_empty_pixel(fr, fc + 1) {
            set_walls_vertical(g, focus, fc, &mut walls);
        }
        proof {
            let fri = fr as int;
            let fci = fc as int;
            // each mark added in this iteration is justified by `focus`
            assert forall|r2: int, c2: int|
                0 <= r2 < g.height && 0 <= c2 < g.width && #[trigger] bottom_at(walls@, r2, c2)
                implies wall_bottom(g, r2, c2) by {
                if !bottom_at(w0, r2, c2) {
                    assert(is_border(g, fri, fci));
                    assert(hmark(g, fri, fci, c2));
                    assert((r2 == fri - 1 && g.empty_at(fri - 1, fci)) || (r2 == fri && g.empty_at(
                        fri + 1,
                        fci,
                    )));
                }
            }
            assert forall|r2: int, c2: int|
                0 <= r2 < g.height && 0 <= c2 < g.width && #[trigger] right_at(walls@, r2, c2)
                implies wall_right(g, r2, c2) by {
                if !right_at(w0, r2, c2) {
                    assert(is_border(g, fri, fci));
                    assert(vmark(g, fri, fci, r2));
                }
            }
            // monotonicity keeps earlier cells done, and `focus` is now done
            assert forall|j: int|
                0 <= j < i + 1 implies cell_done(
                g,
                walls@,
                (#[trigger] border@[j]).row as int,
                border@[j].col as int,
            ) by {
                let br = border@[j].row as int;
                let bc = border@[j].col as int;
                assert(border@.contains(border@[j]));
                if j < i {
                    assert(cell_done(g, w0, br, bc));
                    assert forall|c2: int|
                        g.empty_at(br - 1, bc) && #[trigger] hmark(g, br, bc, c2) implies bottom_at(
                        walls@,
                        br - 1,
                        c2,
                    ) by {}
                    assert forall|c2: int|
                        g.empty_at(br + 1, bc) && #[trigger] hmark(g, br, bc, c2) implies bottom_at(
                        walls@,
                        br,
                        c2,
                    ) by {}
                    assert forall|r2: int|
                        g.empty_at(br, bc - 1) && #[trigger] vmark(g, br, bc, r2) implies right_at(
                        walls@,
                        r2,
                        bc - 1,
                    ) by {}
                    assert forall|r2: int|
                        g.empty_at(br, bc + 1) && #[trigger] vmark(g, br, bc, r2) implies right_at(
                        walls@,
                        r2,
                        bc,
                    ) by {}
                } else {
                    assert forall|c2: int|
                        g.empty_at(br - 1, bc) && #[trigger] hmark(g, br, bc, c2) implies bottom_at(
                        walls@,
                        br - 1,
                        c2,
                    ) by {
                        assert(bottom_at(w1, br - 1, c2));
                    }
                    assert forall|c2: int|
                        g.empty_at(br + 1, bc) && #[trigger] hmark(g, br, bc, c2) implies bottom_at(
                        walls@,
                        br,
                        c2,
                    ) by {
                        assert(bottom_at(w2, br, c2));
                    }
                    assert forall|r2: int|
                        g.empty_at(br, bc - 1) && #[trigger] vmark(g, br, bc, r2) implies right_at(
                        walls@,
                        r2,
                        bc - 1,
                    ) by {
                        assert(right_at(w3, r2, bc - 1));
                    }
                    assert forall|r2: int|
                        g.empty_at(br, bc + 1) && #[trigger] vmark(g, br, bc, r2) implies right_at(
                        walls@,
                        r2,
                        bc,
                    ) by {}
                }
            }
        }
        i += 1;
    }
    proof {
        // completeness: every characterized wall flag was traced
        assert forall|r2: int, c2: int|
            0 <= r2 < g.height && 0 <= c2 < g.width && wall_bottom(g, r2, c2) implies #[trigger] bottom_at(
            walls@,
            r2,
            c2,
        ) by {
            let (br, bc) = choose|br: int, bc: int|
                #[trigger] is_border(g, br, bc) && hmark(g, br, bc, c2) && ((r2 == br - 1
                    && g.empty_at(br - 1, bc)) || (r2 == br && g.empty_at(br + 1, bc)));
            let p = ImageCoord { row: br as usize, col: bc as usize };
            assert(border@.contains(p));
            let j = choose|j: int| 0 <= j < border@.len() && border@[j] == p;
            assert(cell_done(g, walls@, br, bc));
        }
        assert forall|r2: int, c2: int|
            0 <= r2 < g.height && 0 <= c2 < g.width && wall_right(g, r2, c2) implies #[trigger] right_at(
            walls@,
            r2,
            c2,
        ) by {
            let (br, bc) = choose|br: int, bc: int|
                #[trigger] is_border(g, br, bc) && vmark(g, br, bc, r2) && ((c2 == bc - 1
                    && g.empty_at(br, bc - 1)) || (c2 == bc && g.empty_at(br, bc + 1)));
            let p = ImageCoord { row: br as usize, col: bc as usize };
            assert(border@.contains(p));
            let j = choose|j: int| 0 <= j < border@.len() && border@[j] == p;
            assert(cell_done(g, walls@, br, bc));
        }
    }
    walls
}

} // verus!
