//! The pixel grid and the order in which its pixels are visited.
//!
//! Pixels are numbered row by row: pixel number `k` of a grid of width `w`
//! stands in column `k % w` of row `k / w`.

use vstd::prelude::*;
use vstd::arithmetic::div_mod::{
    lemma_fundamental_div_mod,
    lemma_fundamental_div_mod_converse,
    lemma_mod_bound,
    lemma_multiply_divide_lt,
    lemma_div_pos_is_pos,
};

verus! {

/// A raster of `width` columns and `height` rows.
#[derive(Clone, Copy, Debug)]
pub struct Grid {
    pub width: u32,
    pub height: u32,
}

impl Grid {
    /// The number of pixels.
    pub open spec fn cells(self) -> nat {
        (self.width * self.height) as nat
    }

    /// The pixel in column `col` of row `row` lies on the grid.
    pub open spec fn holds(self, col: int, row: int) -> bool {
        0 <= col < self.width && 0 <= row < self.height
    }

    /// Column and row of pixel number `k`.
    pub open spec fn cell_of(self, k: int) -> (int, int) {
        (k % (self.width as int), k / (self.width as int))
    }

    /// The number of the pixel in column `col` of row `row`.
    pub open spec fn index_of(self, col: int, row: int) -> int {
        row * self.width + col
    }

    /// A grid of the given size.
    pub fn new(width: u32, height: u32) -> (grid: Grid)
        ensures
            grid.width == width,
            grid.height == height,
    {
        Grid { width, height }
    }

    /// The number of pixels.
    pub fn len(&self) -> (n: u64)
        ensures
            n == self.cells(),
    {
        proof {
            assert(self.width * self.height <= 0xffff_ffff * 0xffff_ffff) by (nonlinear_arith)
                requires
                    0 <= self.width <= 0xffff_ffff,
                    0 <= self.height <= 0xffff_ffff,
            ;
        }
        (self.width as u64) * (self.height as u64)
    }

    /// Column and row of pixel number `k`, for the numbers below `len()`.
    pub fn cell(&self, k: u64) -> (pixel: Option<(u32, u32)>)
        ensures
            pixel is Some <==> k < self.cells(),
            pixel matches Some((col, row)) ==> self.holds(col as int, row as int) && (
                col as int,
                row as int,
            ) == self.cell_of(k as int),
    {
        if k < self.len() {
            proof {
                self.lemma_cell_on_grid(k as int);
            }
            let width = self.width as u64;
            Some(((k % width) as u32, (k / width) as u32))
        } else {
            None
        }
    }

    /// The number of the pixel in column `col` of row `row`, for the pixels
    /// on the grid.
    pub fn index(&self, col: u32, row: u32) -> (k: Option<u64>)
        ensures
            k is Some <==> self.holds(col as int, row as int),
            k matches Some(n) ==> n < self.cells() && n == self.index_of(col as int, row as int),
    {
        if col < self.width && row < self.height {
            proof {
                self.lemma_index_in_range(col as int, row as int);
                assert(0 <= row * self.width <= self.index_of(col as int, row as int));
                assert(self.width * self.height <= 0xffff_ffff * 0xffff_ffff) by (nonlinear_arith)
                    requires
                        0 <= self.width <= 0xffff_ffff,
                        0 <= self.height <= 0xffff_ffff,
                ;
            }
            Some((row as u64) * (self.width as u64) + (col as u64))
        } else {
            None
        }
    }

    /// Every number below the number of pixels names a pixel on the grid, and
    /// that pixel's number is the number itself.
    pub proof fn lemma_cell_on_grid(self, k: int)
        requires
            0 <= k < self.cells(),
        ensures
            self.width > 0,
            self.holds(self.cell_of(k).0, self.cell_of(k).1),
            self.index_of(self.cell_of(k).0, self.cell_of(k).1) == k,
    {
        let w = self.width as int;
        let h = self.height as int;
        assert(w > 0) by (nonlinear_arith)
            requires
                0 <= k < w * h,
                0 <= w,
        ;
        lemma_mod_bound(k, w);
        lemma_div_pos_is_pos(k, w);
        lemma_multiply_divide_lt(k, w, h);
        lemma_fundamental_div_mod(k, w);
        assert(w * (k / w) == (k / w) * w) by (nonlinear_arith);
    }

    /// Every pixel on the grid has a number below the number of pixels, and
    /// that number names the pixel.
    pub proof fn lemma_index_in_range(self, col: int, row: int)
        requires
            self.holds(col, row),
        ensures
            0 <= self.index_of(col, row) < self.cells(),
            self.cell_of(self.index_of(col, row)) == (col, row),
    {
        let w = self.width as int;
        let h = self.height as int;
        assert(0 <= row * w + col < w * h) by (nonlinear_arith)
            requires
                0 <= col < w,
                0 <= row < h,
        ;
        lemma_fundamental_div_mod_converse(row * w + col, w, row, col);
    }

    /// The numbering visits each pixel exactly once: a pixel on the grid is
    /// named by one number below the number of pixels, and by no other.
    pub proof fn lemma_each_pixel_once(self, col: int, row: int)
        requires
            self.holds(col, row),
        ensures
            0 <= self.index_of(col, row) < self.cells(),
            forall|k: int|
                0 <= k < self.cells() ==> (#[trigger] self.cell_of(k) == (col, row) <==> k
                    == self.index_of(col, row)),
    {
        self.lemma_index_in_range(col, row);
        assert forall|k: int| 0 <= k < self.cells() && #[trigger] self.cell_of(k) == (
            col,
            row,
        ) implies k == self.index_of(col, row) by {
            self.lemma_cell_on_grid(k);
        }
    }
}

} // verus!
