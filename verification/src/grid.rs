//! Index arithmetic of a row-major grid.

use vstd::prelude::*;
use vstd::arithmetic::div_mod::lemma_fundamental_div_mod_converse;

verus! {

/// The linear index of cell `(x, y)` in a grid `width` cells wide.
pub open spec fn cell_index(width: int, x: int, y: int) -> int {
    y * width + x
}

/// `(x, y)` lies within a `width` by `height` grid.
pub open spec fn cell_in_grid(width: int, height: int, x: int, y: int) -> bool {
    0 <= x < width && 0 <= y < height
}

/// The smaller of two integers.
pub open spec fn lesser(a: int, b: int) -> int {
    if a <= b {
        a
    } else {
        b
    }
}

/// The larger of two integers.
pub open spec fn greater(a: int, b: int) -> int {
    if a >= b {
        a
    } else {
        b
    }
}

/// A cell of the grid has an index below `width * height`, and the index
/// gives the cell back by division.
pub proof fn lemma_cell_index(width: int, height: int, x: int, y: int)
    requires
        cell_in_grid(width, height, x, y),
    ensures
        0 <= cell_index(width, x, y) < width * height,
        cell_index(width, x, y) % width == x,
        cell_index(width, x, y) / width == y,
{
    assert(y * width + x < width * height) by (nonlinear_arith)
        requires
            0 <= x < width,
            0 <= y < height,
    ;
    assert(0 <= y * width) by (nonlinear_arith)
        requires
            0 <= y,
            0 < width,
    ;
    assert(y * width == width * y) by (nonlinear_arith);
    lemma_fundamental_div_mod_converse(cell_index(width, x, y), width, y, x);
}

/// An index below `width * height` is the index of the cell it divides into.
pub proof fn lemma_index_cell(width: int, height: int, i: int)
    requires
        0 <= i < width * height,
        0 <= width,
        0 <= height,
    ensures
        cell_in_grid(width, height, i % width, i / width),
        cell_index(width, i % width, i / width) == i,
{
    assert(width > 0) by (nonlinear_arith)
        requires
            0 <= i < width * height,
            0 <= width,
    ;
    vstd::arithmetic::div_mod::lemma_fundamental_div_mod(i, width);
    vstd::arithmetic::div_mod::lemma_mod_bound(i, width);
    let q = i / width;
    assert(0 <= q) by (nonlinear_arith)
        requires
            i == width * q + i % width,
            0 <= i,
            0 <= i % width < width,
    ;
    assert(q < height) by (nonlinear_arith)
        requires
            i == width * q + i % width,
            i < width * height,
            0 <= i % width < width,
            0 <= height,
    ;
    assert(q * width == width * q) by (nonlinear_arith);
}

/// Two cells with columns inside the grid share an index only if they are
/// the same cell.
pub proof fn lemma_cell_index_injective(width: int, x: int, y: int, u: int, v: int)
    requires
        0 <= x < width,
        0 <= u < width,
        cell_index(width, x, y) == cell_index(width, u, v),
    ensures
        x == u,
        y == v,
{
    assert(y == v) by (nonlinear_arith)
        requires
            0 <= x < width,
            0 <= u < width,
            y * width + x == v * width + u,
    ;
}

} // verus!
