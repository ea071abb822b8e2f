//! Edge-point extraction.
//!
//! An edge point is a sub-pixel corner where a traced bottom wall and a
//! traced right wall cross. For every interior corner, four neighbor-wall
//! combinations are tested, each yielding a specific corner coordinate.
//! The resulting set is kept as a strictly sorted sequence, so iteration
//! order is deterministic (row-major) and membership is exact.

use vstd::prelude::*;

use crate::coords::{edge_coord_lt, edge_lt, sorted_unique, EdgeCoord};
use crate::walls::{bottom_at, right_at, walls_dims, WallInfo};

verus! {

/// The corner scan at (`row`, `col`) yields `e`: one of the four
/// neighbor-wall crossings holds and `e` is the coordinate it produces.
pub open spec fn corner_gives(w: Seq<Vec<WallInfo>>, row: int, col: int, e: EdgeCoord) -> bool {
    ||| (bottom_at(w, row - 1, col) && right_at(w, row, col - 1) && e.row == row - 1 && e.col == col
        - 1)
    ||| (bottom_at(w, row - 1, col) && right_at(w, row, col) && e.row == row - 1 && e.col == col)
    ||| (bottom_at(w, row, col) && right_at(w, row, col - 1) && e.row == row && e.col == col - 1)
    ||| (bottom_at(w, row, col) && right_at(w, row, col) && e.row == row && e.col == col)
}

/// `e` is an edge point of the wall grid `w`: some interior corner scan
/// yields it.
pub open spec fn is_edge_point(w: Seq<Vec<WallInfo>>, e: EdgeCoord) -> bool {
    exists|row: int, col: int|
        1 <= row < w.len() - 1 && 1 <= col < w[0]@.len() - 1 && #[trigger] corner_gives(
            w,
            row,
            col,
            e,
        )
}

/// Inserts `e` into the strictly sorted sequence `v`, keeping it strictly
/// sorted; inserting a present element changes nothing.
fn insert_sorted(v: &mut Vec<EdgeCoord>, e: EdgeCoord)
    requires
        sorted_unique(old(v)@),
        old(v)@.len() < usize::MAX,
    ensures
        sorted_unique(final(v)@),
        forall|x: EdgeCoord|
            #[trigger] final(v)@.contains(x) <==> (old(v)@.contains(x) || x == e),
        final(v)@.len() <= old(v)@.len() + 1,
{
    let mut i: usize = 0;
    while i < v.len() && edge_coord_lt(&v[i], &e)
        invariant
            sorted_unique(v@),
            v@ == old(v)@,
            i <= v@.len(),
            forall|j: int| 0 <= j < i ==> edge_lt(#[trigger] v@[j], e),
        decreases v@.len() - i,
    {
        i += 1;
    }
    if i < v.len() && v[i].row == e.row && v[i].col == e.col {
        proof {
            assert(v@[i as int] == e);
            assert(v@.contains(e));
        }
        return ;
    }
    let ghost old_v = v@;
    v.insert(i, e);
    proof {
        assert forall|j: int| i < j < v@.len() implies edge_lt(e, #[trigger] v@[j]) by {
            assert(v@[j] == old_v[j - 1]);
            if i < old_v.len() {
                assert(!edge_lt(old_v[i as int], e));
                assert(old_v[i as int] != e);
                assert(edge_lt(e, old_v[i as int]));
                if j - 1 > i {
                    assert(edge_lt(old_v[i as int], old_v[j - 1]));
                }
            }
        }
        assert forall|a: int, b: int| 0 <= a < b < v@.len() implies edge_lt(
            #[trigger] v@[a],
            #[trigger] v@[b],
        ) by {
            if a < i && b < i {
            } else if a < i && b == i {
                assert(v@[a] == old_v[a]);
                assert(edge_lt(old_v[a], e));
            } else if a == i {
            } else if a > i {
                assert(v@[a] == old_v[a - 1]);
                assert(v@[b] == old_v[b - 1]);
            } else {
                assert(b > i);
                assert(v@[a] == old_v[a]);
                assert(edge_lt(v@[a], e));
                assert(edge_lt(e, v@[b]));
            }
        }
        assert forall|x: EdgeCoord| #[trigger]
            v@.contains(x) implies (old_v.contains(x) || x == e) by {
            let j = choose|j: int| 0 <= j < v@.len() && v@[j] == x;
            if j < i {
                assert(old_v[j] == x);
            } else if j > i {
                assert(old_v[j - 1] == x);
            }
        }
        assert forall|x: EdgeCoord| (old_v.contains(x) || x == e) implies #[trigger] v@.contains(
            x,
        ) by {
            if x == e {
                assert(v@[i as int] == x);
            } else {
                let j = choose|j: int| 0 <= j < old_v.len() && old_v[j] == x;
                if j < i {
                    assert(v@[j] == x);
                } else {
                    assert(v@[j + 1] == x);
                }
            }
        }
    }
}

/// Extracts the sorted set of edge points of a wall grid.
pub fn edge_points(walls: Vec<Vec<WallInfo>>) -> (res: Vec<EdgeCoord>)
    requires
        1 <= walls@.len() <= 4096,
        1 <= walls@[0]@.len() <= 4096,
        walls_dims(walls@, walls@.len() as int, walls@[0]@.len() as int),
    ensures
        sorted_unique(res@),
        forall|e: EdgeCoord| #[trigger] res@.contains(e) <==> is_edge_point(walls@, e),
{
    let height = walls.len();
    let width = walls[0].len();
    let mut res: Vec<EdgeCoord> = Vec::new();
    let mut row: usize = 1;
    while row + 1 < height
        invariant
            1 <= walls@.len(),
            walls_dims(walls@, walls@.len() as int, walls@[0]@.len() as int),
            height == walls@.len(),
            width == walls@[0]@.len(),
            1 <= height <= 4096,
            1 <= width <= 4096,
            1 <= row <= height,
            height >= 2 ==> row <= height - 1,
            height < 2 ==> row == 1,
            sorted_unique(res@),
            res@.len() <= 4 * (row * width),
            forall|e: EdgeCoord|
                #[trigger] res@.contains(e) <==> exists|r2: int, c2: int|
                    1 <= r2 < row && 1 <= c2 < width - 1 && #[trigger] corner_gives(
                        walls@,
                        r2,
                        c2,
                        e,
                    ),
        decreases height - row,
    {
        let mut col: usize = 1;
        while col + 1 < width
            invariant
                1 <= walls@.len(),
                walls_dims(walls@, walls@.len() as int, walls@[0]@.len() as int),
                height == walls@.len(),
                width == walls@[0]@.len(),
                1 <= height <= 4096,
                1 <= width <= 4096,
                1 <= row,
                row + 1 < height,
                1 <= col <= width,
                width >= 2 ==> col <= width - 1,
                width < 2 ==> col == 1,
                sorted_unique(res@),
                res@.len() <= 4 * (row * width + col),
                forall|e: EdgeCoord|
                    #[trigger] res@.contains(e) <==> exists|r2: int, c2: int|
                        ((1 <= r2 < row && 1 <= c2 < width - 1) || (r2 == row && 1 <= c2 < col))
                            && #[trigger] corner_gives(walls@, r2, c2, e),
            decreases width - col,
        {
            let ghost pre = res@;
            let b_above = walls[row - 1][col].bottom;
            let b_here = walls[row][col].bottom;
            let r_left = walls[row][col - 1].right;
            let r_here = walls[row][col].right;
            proof {
                assert(row * width + col + 1 <= height * width) by (nonlinear_arith)
                    requires
                        1 <= row,
                        row + 1 < height,
                        1 <= col,
                        col + 1 < width,
                ;
                assert(4 * (row * width + col) + 4 <= 4 * (height * width));
                assert(height * width <= 4096 * 4096) by (nonlinear_arith)
                    requires
                        height <= 4096,
                        width <= 4096,
                ;
            }
            if b_above && r_left {
                insert_sorted(&mut res, EdgeCoord { row: row - 1, col: col - 1 });
            }
            if b_above && r_here {
                insert_sorted(&mut res, EdgeCoord { row: row - 1, col });
            }
            if b_here && r_left {
                insert_sorted(&mut res, EdgeCoord { row, col: col - 1 });
            }
            if b_here && r_here {
                insert_sorted(&mut res, EdgeCoord { row, col });
            }
            proof {
                assert forall|e: EdgeCoord| #[trigger]
                    res@.contains(e) implies (pre.contains(e) || corner_gives(
                    walls@,
                    row as int,
                    col as int,
                    e,
                )) by {}
                assert forall|e: EdgeCoord|
                    (pre.contains(e) || corner_gives(walls@, row as int, col as int, e))
                    implies #[trigger] res@.contains(e) by {}
                assert forall|e: EdgeCoord| #[trigger]
                    res@.contains(e) implies exists|r2: int, c2: int|
                    ((1 <= r2 < row && 1 <= c2 < width - 1) || (r2 == row && 1 <= c2 < col + 1))
                        && #[trigger] corner_gives(walls@, r2, c2, e) by {
                    if pre.contains(e) {
                        let (r2, c2) = choose|r2: int, c2: int|
                            ((1 <= r2 < row && 1 <= c2 < width - 1) || (r2 == row && 1 <= c2 < col))
                                && #[trigger] corner_gives(walls@, r2, c2, e);
                        assert(corner_gives(walls@, r2, c2, e));
                    } else {
                        assert(corner_gives(walls@, row as int, col as int, e));
                    }
                }
            }
            col += 1;
        }
        proof {
            assert(4 * (row * width + width) == 4 * ((row + 1) * width)) by (nonlinear_arith);
            assert forall|e: EdgeCoord| #[trigger]
                res@.contains(e) implies exists|r2: int, c2: int|
                (1 <= r2 < row + 1 && 1 <= c2 < width - 1) && #[trigger] corner_gives(
                    walls@,
                    r2,
                    c2,
                    e,
                ) by {
                let (r2, c2) = choose|r2: int, c2: int|
                    ((1 <= r2 < row && 1 <= c2 < width - 1) || (r2 == row && 1 <= c2 < col))
                        && #[trigger] corner_gives(walls@, r2, c2, e);
                assert(corner_gives(walls@, r2, c2, e));
            }
        }
        row += 1;
    }
    proof {
        assert forall|e: EdgeCoord| #[trigger] res@.contains(e) implies is_edge_point(
            walls@,
            e,
        ) by {
            let (r2, c2) = choose|r2: int, c2: int|
                1 <= r2 < row && 1 <= c2 < width - 1 && #[trigger] corner_gives(walls@, r2, c2, e);
            assert(corner_gives(walls@, r2, c2, e));
        }
        assert forall|e: EdgeCoord| is_edge_point(walls@, e) implies #[trigger] res@.contains(
            e,
        ) by {
            let (r2, c2) = choose|r2: int, c2: int|
                1 <= r2 < walls@.len() - 1 && 1 <= c2 < walls@[0]@.len() - 1
                    && #[trigger] corner_gives(walls@, r2, c2, e);
            assert(r2 < row);
        }
    }
    res
}

/// Index key used to bound the length of a sorted coordinate sequence.
pub open spec fn edge_key(e: EdgeCoord, w: int) -> int {
    e.row * w + e.col
}

proof fn lemma_key_ge_index(s: Seq<EdgeCoord>, w: int, i: int)
    requires
        sorted_unique(s),
        forall|k: int| 0 <= k < s.len() ==> (#[trigger] s[k]).col < w,
        0 <= i < s.len(),
    ensures
        edge_key(s[i], w) >= i,
    decreases i,
{
    if i > 0 {
        lemma_key_ge_index(s, w, i - 1);
        assert(edge_lt(s[i - 1], s[i]));
        assert(edge_key(s[i], w) > edge_key(s[i - 1], w)) by (nonlinear_arith)
            requires
                edge_lt(s[i - 1], s[i]),
                s[i - 1].col < w,
                s[i].col < w,
        ;
    }
}

/// A strictly sorted sequence of corner coordinates within an `h` by `w`
/// box has at most `h * w` elements.
pub proof fn lemma_sorted_len_bound(s: Seq<EdgeCoord>, h: int, w: int)
    requires
        sorted_unique(s),
        0 < w,
        0 < h,
        forall|k: int| 0 <= k < s.len() ==> (#[trigger] s[k]).row < h && s[k].col < w,
    ensures
        s.len() <= h * w,
{
    if s.len() > 0 {
        let last = s.len() - 1;
        lemma_key_ge_index(s, w, last);
        assert(edge_key(s[last], w) <= h * w - 1) by (nonlinear_arith)
            requires
                s[last].row < h,
                s[last].col < w,
                0 < w,
        ;
    }
}

} // verus!
