//! The raster driver: one shade for every pixel of a grid.

use vstd::prelude::*;
use crate::escape::{
    is_escape_count,
    lemma_escape_count_unique,
    mandelbrot,
    step_is_function,
    test_is_function,
};
use crate::grid::Grid;
use crate::shade::{shade, shade_of, Shade};

verus! {

/// `painted` is what the pixel in column `col` of row `row` is given: the
/// point of the plane that `locate` maps the pixel to, and the shade of an
/// escape count of that point.
pub open spec fn paints<Z, L: Fn(u32, u32) -> Z, D: Fn(Z) -> bool, S: Fn(Z, Z) -> Z>(
    col: int,
    row: int,
    budget: u32,
    locate: L,
    seed: Z,
    diverged: D,
    step: S,
    painted: (Z, Shade),
) -> bool {
    &&& 0 <= col <= u32::MAX
    &&& 0 <= row <= u32::MAX
    &&& call_ensures(locate, (col as u32, row as u32), painted.0)
    &&& exists|count: u32| #[trigger]
        is_escape_count(painted.0, budget, seed, diverged, step, count) && painted.1 == shade_of(
            count,
            budget,
        )
}

/// `image` is a rendering of `grid`: it has one entry for each pixel, in the
/// order of the pixels' numbers, and each entry is what its pixel is given.
pub open spec fn is_rendering<Z, L: Fn(u32, u32) -> Z, D: Fn(Z) -> bool, S: Fn(Z, Z) -> Z>(
    grid: Grid,
    budget: u32,
    locate: L,
    seed: Z,
    diverged: D,
    step: S,
    image: Seq<(Z, Shade)>,
) -> bool {
    &&& image.len() == grid.cells()
    &&& forall|k: int|
        0 <= k < image.len() ==> paints(
            grid.cell_of(k).0,
            grid.cell_of(k).1,
            budget,
            locate,
            seed,
            diverged,
            step,
            #[trigger] image[k],
        )
}

/// Visits every pixel of `grid` once, row by row, and returns for each the
/// point it stands for and its shade.
///
/// Entry number `k` of the result belongs to pixel number `k` of the grid.
/// Its point is what `locate` gave for the pixel's column and row; its shade
/// is that of the point's escape count under `budget`, counted from `seed`
/// with the bound test `diverged` and the recurrence `step`.
pub fn render<Z: Copy, L: Fn(u32, u32) -> Z, D: Fn(Z) -> bool, S: Fn(Z, Z) -> Z>(
    grid: &Grid,
    budget: u32,
    locate: &L,
    seed: Z,
    diverged: &D,
    step: &S,
) -> (image: Vec<(Z, Shade)>)
    requires
        forall|col: u32, row: u32|
            grid.holds(col as int, row as int) ==> call_requires(*locate, (col, row)),
        forall|z: Z| call_requires(*diverged, (z,)),
        forall|z: Z, c: Z| call_requires(*step, (z, c)),
    ensures
        is_rendering(*grid, budget, *locate, seed, *diverged, *step, image@),
{
    let total = grid.len();
    let mut image: Vec<(Z, Shade)> = Vec::new();
    let mut k: u64 = 0;
    while k < total
        invariant
            forall|col: u32, row: u32|
                grid.holds(col as int, row as int) ==> call_requires(*locate, (col, row)),
            forall|z: Z| call_requires(*diverged, (z,)),
            forall|z: Z, c: Z| call_requires(*step, (z, c)),
            total == grid.cells(),
            k <= total,
            image@.len() == k,
            forall|j: int|
                0 <= j < k ==> paints(
                    grid.cell_of(j).0,
                    grid.cell_of(j).1,
                    budget,
                    *locate,
                    seed,
                    *diverged,
                    *step,
                    #[trigger] image@[j],
                ),
        decreases total - k,
    {
        match grid.cell(k) {
            Some((col, row)) => {
                let c = locate(col, row);
                let count = mandelbrot(c, budget, seed, diverged, step);
                let painted = (c, shade(count, budget));
                assert(is_escape_count(painted.0, budget, seed, *diverged, *step, count)
                    && painted.1 == shade_of(count, budget));
                assert(paints(
                    col as int,
                    row as int,
                    budget,
                    *locate,
                    seed,
                    *diverged,
                    *step,
                    painted,
                ));
                image.push(painted);
            },
            None => {},
        }
        k += 1;
    }
    image
}

/// A rendering gives every pixel of the grid exactly one assignment: the
/// entry at the pixel's number is what the pixel is given, and no other entry
/// belongs to that pixel.
pub proof fn lemma_each_pixel_painted_once<
    Z,
    L: Fn(u32, u32) -> Z,
    D: Fn(Z) -> bool,
    S: Fn(Z, Z) -> Z,
>(
    grid: Grid,
    budget: u32,
    locate: L,
    seed: Z,
    diverged: D,
    step: S,
    image: Seq<(Z, Shade)>,
    col: int,
    row: int,
)
    requires
        is_rendering(grid, budget, locate, seed, diverged, step, image),
        grid.holds(col, row),
    ensures
        0 <= grid.index_of(col, row) < image.len(),
        paints(col, row, budget, locate, seed, diverged, step, image[grid.index_of(col, row)]),
        forall|k: int|
            0 <= k < image.len() && #[trigger] grid.cell_of(k) == (col, row) ==> k
                == grid.index_of(col, row),
{
    grid.lemma_each_pixel_once(col, row);
    grid.lemma_index_in_range(col, row);
}

/// `locate` gives each pixel one point only.
pub open spec fn locate_is_function<Z, L: Fn(u32, u32) -> Z>(locate: L) -> bool {
    forall|col: u32, row: u32, a: Z, b: Z|
        call_ensures(locate, (col, row), a) && call_ensures(locate, (col, row), b) ==> a == b
}

/// Rendering has no hidden state: where the three functions handed in are
/// single-valued, a grid and a budget have one rendering.
pub proof fn lemma_rendering_unique<Z, L: Fn(u32, u32) -> Z, D: Fn(Z) -> bool, S: Fn(Z, Z) -> Z>(
    grid: Grid,
    budget: u32,
    locate: L,
    seed: Z,
    diverged: D,
    step: S,
    first: Seq<(Z, Shade)>,
    second: Seq<(Z, Shade)>,
)
    requires
        locate_is_function(locate),
        test_is_function(diverged),
        step_is_function(step),
        is_rendering(grid, budget, locate, seed, diverged, step, first),
        is_rendering(grid, budget, locate, seed, diverged, step, second),
    ensures
        first == second,
{
    assert forall|k: int| 0 <= k < first.len() implies first[k] == second[k] by {
        let (col, row) = grid.cell_of(k);
        assert(paints(col, row, budget, locate, seed, diverged, step, first[k]));
        assert(paints(col, row, budget, locate, seed, diverged, step, second[k]));
        let c = first[k].0;
        let m = choose|count: u32| #[trigger]
            is_escape_count(c, budget, seed, diverged, step, count) && first[k].1 == shade_of(
                count,
                budget,
            );
        let n = choose|count: u32| #[trigger]
            is_escape_count(c, budget, seed, diverged, step, count) && second[k].1 == shade_of(
                count,
                budget,
            );
        lemma_escape_count_unique(c, budget, seed, diverged, step, m, n);
    }
    assert(first =~= second);
}

} // verus!
