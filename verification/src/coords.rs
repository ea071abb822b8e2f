//! Coordinate types for the two spaces the pipeline works in.
//!
//! `ImageCoord` addresses a pixel cell; `EdgeCoord` addresses the corner
//! shared by pixels `(r, c)`, `(r, c+1)`, `(r+1, c)` and `(r+1, c+1)`. The
//! two types carry identical fields but are deliberately distinct so that
//! pixel-space and corner-space values cannot be mixed up.

use vstd::prelude::*;

verus! {

/// A (row, col) pair in pixel space.
#[derive(Clone, Copy, PartialEq, Eq, Structural, Debug)]
pub struct ImageCoord {
    pub row: usize,
    pub col: usize,
}

/// A (row, col) pair in corner space: `EdgeCoord { row: r, col: c }` is the
/// corner shared by the four pixels whose rows are `r`, `r+1` and whose
/// columns are `c`, `c+1`.
#[derive(Clone, Copy, PartialEq, Eq, Structural, Debug)]
pub struct EdgeCoord {
    pub row: usize,
    pub col: usize,
}

impl ImageCoord {
    pub fn new(row: usize, col: usize) -> (r: ImageCoord)
        ensures
            r.row == row,
            r.col == col,
    {
        ImageCoord { row, col }
    }

    pub fn offset(&self, dr: i64, dc: i64) -> (r: ImageCoord)
        requires
            0 <= self.row + dr <= usize::MAX,
            0 <= self.col + dc <= usize::MAX,
        ensures
            r.row == self.row + dr,
            r.col == self.col + dc,
    {
        ImageCoord { row: offset_usize(self.row, dr), col: offset_usize(self.col, dc) }
    }
}

impl EdgeCoord {
    pub fn new(row: usize, col: usize) -> (r: EdgeCoord)
        ensures
            r.row == row,
            r.col == col,
    {
        EdgeCoord { row, col }
    }

    pub fn offset(&self, dr: i64, dc: i64) -> (r: EdgeCoord)
        requires
            0 <= self.row + dr <= usize::MAX,
            0 <= self.col + dc <= usize::MAX,
        ensures
            r.row == self.row + dr,
            r.col == self.col + dc,
    {
        EdgeCoord { row: offset_usize(self.row, dr), col: offset_usize(self.col, dc) }
    }
}

/// Shifts `base` by the signed delta `d`, which the caller has shown stays
/// within `usize` range.
fn offset_usize(base: usize, d: i64) -> (r: usize)
    requires
        0 <= base + d <= usize::MAX,
    ensures
        r == base + d,
{
    if d >= 0 {
        base + (d as usize)
    } else {
        // -(d + 1) avoids overflow when d is the smallest i64 value.
        let m: u64 = (-(d + 1)) as u64;
        base - (m as usize) - 1
    }
}

/// Strict lexicographic order on corner coordinates, row first. This is the
/// iteration order of the edge-point set and hence the tie-breaking order of
/// face synthesis.
pub open spec fn edge_lt(a: EdgeCoord, b: EdgeCoord) -> bool {
    a.row < b.row || (a.row == b.row && a.col < b.col)
}

/// A sequence of corner coordinates that is strictly increasing, hence also
/// free of duplicates.
pub open spec fn sorted_unique(s: Seq<EdgeCoord>) -> bool {
    forall|i: int, j: int| 0 <= i < j < s.len() ==> edge_lt(#[trigger] s[i], #[trigger] s[j])
}

/// Runtime comparison matching `edge_lt`.
pub fn edge_coord_lt(a: &EdgeCoord, b: &EdgeCoord) -> (r: bool)
    ensures
        r == edge_lt(*a, *b),
{
    a.row < b.row || (a.row == b.row && a.col < b.col)
}

/// Two strictly sorted sequences with the same members are equal.
pub proof fn lemma_sorted_unique_same_members(s1: Seq<EdgeCoord>, s2: Seq<EdgeCoord>)
    requires
        sorted_unique(s1),
        sorted_unique(s2),
        forall|e: EdgeCoord| s1.contains(e) <==> s2.contains(e),
    ensures
        s1 == s2,
    decreases s1.len(),
{
    if s1.len() == 0 {
        if s2.len() > 0 {
            assert(s2.contains(s2[0]));
            assert(s1.contains(s2[0]));
            assert(false);
        }
        assert(s1 =~= s2);
    } else {
        assert(s1.contains(s1[0]));
        assert(s2.contains(s1[0]));
        let j = choose|j: int| 0 <= j < s2.len() && s2[j] == s1[0];
        if j > 0 {
            assert(edge_lt(s2[0], s2[j]));
            assert(s2.contains(s2[0]));
            assert(s1.contains(s2[0]));
            let i = choose|i: int| 0 <= i < s1.len() && s1[i] == s2[0];
            if i > 0 {
                assert(edge_lt(s1[0], s1[i]));
            }
            assert(false);
        }
        assert(s2[0] == s1[0]);
        let t1 = s1.drop_first();
        let t2 = s2.drop_first();
        assert forall|e: EdgeCoord| t1.contains(e) <==> t2.contains(e) by {
            if t1.contains(e) {
                let i = choose|i: int| 0 <= i < t1.len() && t1[i] == e;
                assert(s1[i + 1] == e);
                assert(edge_lt(s1[0], e));
                assert(s1.contains(e));
                assert(s2.contains(e));
                let j2 = choose|j2: int| 0 <= j2 < s2.len() && s2[j2] == e;
                assert(j2 != 0);
                assert(t2[j2 - 1] == e);
            }
            if t2.contains(e) {
                let i = choose|i: int| 0 <= i < t2.len() && t2[i] == e;
                assert(s2[i + 1] == e);
                assert(edge_lt(s2[0], e));
                assert(s2.contains(e));
                assert(s1.contains(e));
                let j2 = choose|j2: int| 0 <= j2 < s1.len() && s1[j2] == e;
                assert(j2 != 0);
                assert(t1[j2 - 1] == e);
            }
        }
        assert(sorted_unique(t1)) by {
            assert forall|a: int, b: int| 0 <= a < b < t1.len() implies edge_lt(
                #[trigger] t1[a],
                #[trigger] t1[b],
            ) by {
                assert(t1[a] == s1[a + 1]);
                assert(t1[b] == s1[b + 1]);
            }
        }
        assert(sorted_unique(t2)) by {
            assert forall|a: int, b: int| 0 <= a < b < t2.len() implies edge_lt(
                #[trigger] t2[a],
                #[trigger] t2[b],
            ) by {
                assert(t2[a] == s2[a + 1]);
                assert(t2[b] == s2[b + 1]);
            }
        }
        lemma_sorted_unique_same_members(t1, t2);
        assert(s1 =~= s2) by {
            assert forall|k: int| 0 <= k < s1.len() implies s1[k] == s2[k] by {
                if k > 0 {
                    assert(t1[k - 1] == t2[k - 1]);
                }
            }
        }
    }
}

} // verus!
