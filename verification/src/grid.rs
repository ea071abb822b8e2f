//! The pixel grid the pipeline consumes.
//!
//! The algorithm only ever reads whether a pixel is opaque or transparent,
//! so the grid stores one boolean per pixel (`true` = opaque, i.e. the
//! pixel's alpha is above the near-zero threshold applied by whoever decoded
//! the image). Sprites are expected never to touch the grid border; the
//! detectors simply skip the outermost ring of pixels, so a silhouette on
//! the true edge degrades to an incomplete mesh rather than an error.

use vstd::prelude::*;

verus! {

/// Largest accepted grid side. Keeping dimensions small bounds the number
/// of mesh vertices well below the index range.
pub const MAX_GRID_SIDE: usize = 4096;

/// A rectangular grid of pixels, stored row-major, one `bool` per pixel
/// (`true` = opaque).
pub struct PixelGrid {
    pub width: usize,
    pub height: usize,
    pub rows: Vec<Vec<bool>>,
}

/// The shape every `PixelGrid` built by `from_rows` has: a rectangular,
/// non-empty grid no larger than `MAX_GRID_SIDE` on a side.
pub open spec fn rows_ok(rows: Seq<Vec<bool>>) -> bool {
    &&& 1 <= rows.len() <= MAX_GRID_SIDE
    &&& 1 <= rows[0]@.len() <= MAX_GRID_SIDE
    &&& forall|r: int| 0 <= r < rows.len() ==> (#[trigger] rows[r])@.len() == rows[0]@.len()
}

impl PixelGrid {
    pub open spec fn wf(&self) -> bool {
        &&& self.rows@.len() == self.height
        &&& forall|r: int|
            0 <= r < self.height ==> (#[trigger] self.rows@[r])@.len() == self.width
        &&& 1 <= self.height <= MAX_GRID_SIDE
        &&& 1 <= self.width <= MAX_GRID_SIDE
    }

    /// Whether the pixel at (row `r`, column `c`) is opaque.
    pub open spec fn at(&self, r: int, c: int) -> bool {
        self.rows@[r]@[c]
    }

    /// Whether the pixel at (row `r`, column `c`) is transparent.
    pub open spec fn empty_at(&self, r: int, c: int) -> bool {
        !self.at(r, c)
    }

    /// Builds a grid from row-major opacity flags. Returns `None` exactly
    /// when the rows are not a non-empty rectangle within `MAX_GRID_SIDE`.
    pub fn from_rows(rows: Vec<Vec<bool>>) -> (res: Option<PixelGrid>)
        ensures
            match res {
                Some(g) => {
                    &&& g.wf()
                    &&& g.rows@ == rows@
                    &&& g.height == rows@.len()
                    &&& g.width == rows@[0]@.len()
                },
                None => !rows_ok(rows@),
            },
    {
        let height = rows.len();
        if height == 0 || height > MAX_GRID_SIDE {
            return None;
        }
        let width = rows[0].len();
        if width == 0 || width > MAX_GRID_SIDE {
            return None;
        }
        let mut r: usize = 0;
        while r < height
            invariant
                height == rows@.len(),
                width == rows@[0]@.len(),
                r <= height,
                forall|i: int| 0 <= i < r ==> (#[trigger] rows@[i])@.len() == width,
            decreases height - r,
        {
            if rows[r].len() != width {
                return None;
            }
            r += 1;
        }
        Some(PixelGrid { width, height, rows })
    }

    /// Whether the pixel at (row `r`, column `c`) is opaque.
    pub fn get(&self, r: usize, c: usize) -> (b: bool)
        requires
            self.wf(),
            r < self.height,
            c < self.width,
        ensures
            b == self.at(r as int, c as int),
    {
        self.rows[r][c]
    }

    /// Whether the pixel at (row `r`, column `c`) is transparent.
    pub fn is_empty_pixel(&self, r: usize, c: usize) -> (b: bool)
        requires
            self.wf(),
            r < self.height,
            c < self.width,
        ensures
            b == self.empty_at(r as int, c as int),
    {
        !self.rows[r][c]
    }
}

} // verus!
