//! Row-major pixel grids: index arithmetic shared by the frame operations.
use vstd::prelude::*;

verus! {

/// All-black frame of `len` pixels.
pub open spec fn zeros(len: int) -> Seq<u32> {
    Seq::new(len as nat, |i: int| 0u32)
}

/// The pixel at row `y`, column `x` of a row-major grid `w` pixels wide.
pub open spec fn pixel_at(s: Seq<u32>, w: int, y: int, x: int) -> u32 {
    s[y * w + x]
}

/// Row of position `k` in a grid `w` pixels wide.
pub open spec fn row_of(k: int, w: int) -> int {
    k / w
}

/// Column of position `k` in a grid `w` pixels wide.
pub open spec fn col_of(k: int, w: int) -> int {
    k % w
}

/// Position `y * w + x` has row `y` and column `x`.
pub proof fn lemma_index_row_col(y: int, x: int, w: int)
    requires
        0 <= x < w,
        0 <= y,
    ensures
        row_of(y * w + x, w) == y,
        col_of(y * w + x, w) == x,
{
    vstd::arithmetic::div_mod::lemma_fundamental_div_mod_converse(y * w + x, w, y, x);
}

/// A cell inside a `w` by `h` grid has a position below `w * h`.
pub proof fn lemma_index_in_grid(y: int, x: int, w: int, h: int)
    requires
        0 <= x < w,
        0 <= y < h,
    ensures
        0 <= y * w + x < w * h,
        y * w + x <= w * h - 1,
{
    assert(y * w + x < w * h) by (nonlinear_arith)
        requires
            0 <= x < w,
            0 <= y < h,
    ;
    assert(0 <= y * w) by (nonlinear_arith)
        requires
            0 <= y,
            0 <= w,
    ;
}

/// Every position below `w * h` is a cell of the grid.
pub proof fn lemma_position_in_grid(k: int, w: int, h: int)
    requires
        0 <= k < w * h,
        0 < w,
    ensures
        0 <= row_of(k, w) < h,
        0 <= col_of(k, w) < w,
        k == row_of(k, w) * w + col_of(k, w),
{
    vstd::arithmetic::div_mod::lemma_fundamental_div_mod(k, w);
    vstd::arithmetic::div_mod::lemma_mod_pos_bound(k, w);
    vstd::arithmetic::div_mod::lemma_div_pos_is_pos(k, w);
    let y = k / w;
    assert(y * w == w * y) by (nonlinear_arith);
    if y >= h {
        assert(y * w >= h * w) by (nonlinear_arith)
            requires
                y >= h,
                w > 0,
        ;
        assert(h * w == w * h) by (nonlinear_arith);
    }
}

/// `a * b / c` is below `b` when `a < c`.
pub proof fn lemma_scaled_below(a: int, b: int, c: int)
    requires
        0 <= a < c,
        0 < b,
    ensures
        0 <= a * b / c < b,
{
    assert(0 <= a * b) by (nonlinear_arith)
        requires
            0 <= a,
            0 < b,
    ;
    assert(a * b < c * b) by (nonlinear_arith)
        requires
            0 <= a < c,
            0 < b,
    ;
    vstd::arithmetic::div_mod::lemma_div_pos_is_pos(a * b, c);
    vstd::arithmetic::div_mod::lemma_fundamental_div_mod(a * b, c);
    vstd::arithmetic::div_mod::lemma_mod_pos_bound(a * b, c);
    let q = a * b / c;
    if q >= b {
        assert(c * q >= c * b) by (nonlinear_arith)
            requires
                q >= b,
                c > 0,
        ;
    }
}

} // verus!
