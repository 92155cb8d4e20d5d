//! Row-major indexing of the pixel grid: linear indices, (row, column)
//! pairs, and the grid-adjacency relation.

use vstd::arithmetic::div_mod::{
    lemma_fundamental_div_mod, lemma_fundamental_div_mod_converse,
};
use vstd::prelude::*;

verus! {

/// A (row, column) position in the pixel grid.
#[derive(Clone, Copy, PartialEq, Eq, Structural, Debug)]
pub struct Pair {
    pub x: u32,
    pub y: u32,
}

/// Row-major linear index of the cell in row `x`, column `y`, with rows of
/// length `max_y`.
pub fn linearize(x: &u32, y: &u32, max_y: &u32) -> (idx: u32)
    requires
        (*x as int) * (*max_y as int) + (*y as int) <= u32::MAX as int,
    ensures
        idx as int == (*x as int) * (*max_y as int) + (*y as int),
{
    x * max_y + y
}

/// The (row, column) position of the cell with linear index `value`, for
/// rows of length `max_y`.
pub fn to_pair(value: &u32, max_y: &u32) -> (p: Pair)
    requires
        *max_y > 0,
    ensures
        p.x as int == (*value as int) / (*max_y as int),
        p.y as int == (*value as int) % (*max_y as int),
        p.y < *max_y,
        (p.x as int) * (*max_y as int) + (p.y as int) == *value as int,
{
    proof {
        lemma_fundamental_div_mod(*value as int, *max_y as int);
        assert(((*value as int) / (*max_y as int)) * (*max_y as int) == (*max_y as int) * ((*value
            as int) / (*max_y as int))) by (nonlinear_arith);
    }
    Pair { x: value / max_y, y: value % max_y }
}

/// Linear indices and (row, column) pairs correspond one to one: `linearize`
/// inverts `to_pair`, and `to_pair` inverts `linearize` on every in-range
/// pair.
pub proof fn lemma_index_pair_bijective(x: u32, y: u32, max_y: u32)
    requires
        max_y > 0,
        y < max_y,
    ensures
        ((x as int) * (max_y as int) + (y as int)) / (max_y as int) == x as int,
        ((x as int) * (max_y as int) + (y as int)) % (max_y as int) == y as int,
{
    lemma_fundamental_div_mod_converse(
        (x as int) * (max_y as int) + (y as int),
        max_y as int,
        x as int,
        y as int,
    );
}

/// The cells with linear indices `a` and `b` are grid neighbours: they sit
/// in the same row in adjacent columns, or in the same column in adjacent
/// rows (never diagonal).
pub open spec fn grid_adjacent(width: int, height: int, a: int, b: int) -> bool {
    let ra = a / width;
    let ca = a % width;
    let rb = b / width;
    let cb = b % width;
    &&& 0 < width
    &&& 0 <= a < width * height
    &&& 0 <= b < width * height
    &&& ((ra == rb && (ca == cb + 1 || cb == ca + 1)) || (ca == cb && (ra == rb + 1 || rb == ra
        + 1)))
}

/// A cell inside the grid has an in-range row-major index.
pub proof fn lemma_row_major_bounds(width: int, height: int, r: int, c: int)
    requires
        0 <= c < width,
        0 <= r < height,
    ensures
        0 <= r * width,
        0 <= r * width + c < width * height,
{
    assert(0 <= r * width && 0 <= r * width + c < width * height) by (nonlinear_arith)
        requires
            0 <= c < width,
            0 <= r < height,
    ;
}

/// The grid neighbours of the cell in row `r`, column `c` are exactly the
/// cells one step left, right, up or down, whenever those steps stay inside
/// the grid.
pub proof fn lemma_grid_neighbors(width: int, height: int, r: int, c: int, b: int)
    requires
        0 <= c < width,
        0 <= r < height,
    ensures
        grid_adjacent(width, height, r * width + c, b) <==> ((c > 0 && b == r * width + c - 1) || (
        c < width - 1 && b == r * width + c + 1) || (r > 0 && b == (r - 1) * width + c) || (r
            < height - 1 && b == (r + 1) * width + c)),
{
    let a = r * width + c;
    lemma_row_major_bounds(width, height, r, c);
    lemma_fundamental_div_mod_converse(a, width, r, c);
    if c > 0 {
        lemma_fundamental_div_mod_converse(a - 1, width, r, c - 1);
    }
    if c < width - 1 {
        lemma_row_major_bounds(width, height, r, c + 1);
        lemma_fundamental_div_mod_converse(a + 1, width, r, c + 1);
    }
    if r > 0 {
        lemma_row_major_bounds(width, height, r - 1, c);
        lemma_fundamental_div_mod_converse((r - 1) * width + c, width, r - 1, c);
        assert((r - 1) * width == r * width - width) by (nonlinear_arith);
    }
    if r < height - 1 {
        lemma_row_major_bounds(width, height, r + 1, c);
        lemma_fundamental_div_mod_converse((r + 1) * width + c, width, r + 1, c);
        assert((r + 1) * width == r * width + width) by (nonlinear_arith);
    }
    if grid_adjacent(width, height, a, b) {
        let rb = b / width;
        let cb = b % width;
        lemma_fundamental_div_mod(b, width);
        assert(b == width * (b / width) + b % width);
        assert(rb * width == width * rb) by (nonlinear_arith);
        if r == rb && c == cb + 1 {
            assert(b == r * width + c - 1);
        } else if r == rb && cb == c + 1 {
            assert(b == r * width + c + 1);
            assert(c < width - 1);
        } else if c == cb && r == rb + 1 {
            assert(b == (r - 1) * width + c) by (nonlinear_arith)
                requires
                    b == width * rb + c && r == rb + 1,
            ;
            assert(rb >= 0) by (nonlinear_arith)
                requires
                    b >= 0 && b == width * rb + c && 0 <= c < width,
            ;
            assert(r > 0);
        } else {
            assert(c == cb && rb == r + 1);
            assert(b == (r + 1) * width + c) by (nonlinear_arith)
                requires
                    b == width * rb + c && rb == r + 1,
            ;
            assert(rb < height) by (nonlinear_arith)
                requires
                    b < width * height && b == width * rb + c && 0 <= c < width,
            ;
            assert(r < height - 1);
        }
    }
}

} // verus!
