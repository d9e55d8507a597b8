use vstd::prelude::*;

verus! {

/// Position of cell `(y, x)` in a row-major grid with rows of `width` cells.
pub open spec fn flat(width: int, y: int, x: int) -> int {
    y * width + x
}

/// A cell inside a `height` by `width` grid has its position inside the buffer.
pub proof fn lemma_flat_in_bounds(height: int, width: int, y: int, x: int)
    requires
        0 <= y < height,
        0 <= x < width,
    ensures
        0 <= flat(width, y, x) < height * width,
        flat(width, y, x) / width == y,
        flat(width, y, x) % width == x,
{
    assert(y * width + x < height * width) by (nonlinear_arith)
        requires
            0 <= y < height,
            0 <= x < width,
    ;
    assert(0 <= y * width) by (nonlinear_arith)
        requires
            0 <= y,
            0 <= width,
    ;
    vstd::arithmetic::div_mod::lemma_fundamental_div_mod_converse(y * width + x, width, y, x);
}

/// Two different cells of one grid have different positions.
pub proof fn lemma_flat_injective(width: int, y1: int, x1: int, y2: int, x2: int)
    requires
        0 <= x1 < width,
        0 <= x2 < width,
        0 <= y1,
        0 <= y2,
        flat(width, y1, x1) == flat(width, y2, x2),
    ensures
        y1 == y2,
        x1 == x2,
{
    lemma_flat_in_bounds(y1 + 1, width, y1, x1);
    lemma_flat_in_bounds(y2 + 1, width, y2, x2);
}

/// Every position inside the buffer belongs to exactly one cell.
pub proof fn lemma_flat_of_position(height: int, width: int, i: int)
    requires
        0 <= i < height * width,
        0 < width,
    ensures
        0 <= i / width < height,
        0 <= i % width < width,
        flat(width, i / width, i % width) == i,
{
    vstd::arithmetic::div_mod::lemma_fundamental_div_mod(i, width);
    vstd::arithmetic::div_mod::lemma_mod_bound(i, width);
    let q = i / width;
    assert(width * q == q * width) by (nonlinear_arith);
    assert(q >= 0) by (nonlinear_arith)
        requires
            i >= 0,
            width > 0,
            q == i / width,
    ;
    assert(q < height) by (nonlinear_arith)
        requires
            q * width + i % width == i,
            0 <= i % width,
            i < height * width,
            width > 0,
    ;
}

/// Computes the position of cell `(y, x)`.
pub fn index_of(height: usize, width: usize, y: usize, x: usize) -> (i: usize)
    requires
        y < height,
        x < width,
        height * width <= usize::MAX,
    ensures
        i == flat(width as int, y as int, x as int),
        i < height * width,
{
    proof {
        lemma_flat_in_bounds(height as int, width as int, y as int, x as int);
        assert(0 <= y * width) by (nonlinear_arith)
            requires
                0 <= y,
                0 <= width,
        ;
    }
    y * width + x
}

} // verus!
