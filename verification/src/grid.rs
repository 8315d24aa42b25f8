use vstd::prelude::*;

verus! {

/// Row-major position of column `x` of row `y` in a buffer `w` cells wide.
pub open spec fn cell_of(w: int, p: (int, int)) -> int {
    p.1 * w + p.0
}

/// Number of cells that a sweep over `rows` rows of `w` columns visits.
pub open spec fn grid_area(w: int, rows: int) -> int {
    if w > 0 && rows > 0 {
        w * rows
    } else {
        0
    }
}

/// Whether a row-major sweep over `rows` rows of `w` columns, visiting
/// index `row * w + col` of a buffer of `len` cells, computes its loop bounds
/// and indices within `i32` and stays inside the buffer.
pub open spec fn sweep_ok(w: int, rows: int, len: int) -> bool {
    &&& rows > i32::MIN
    &&& rows > 0 ==> w > i32::MIN
    &&& grid_area(w, rows) <= len
    &&& grid_area(w, rows) <= i32::MAX + 1
}

/// Whether `2 * h` and `2 * h - 1`, the bounds of a sweep over the bit
/// buffer's rows, are computed within `i32`.
pub open spec fn doubled_rows_ok(h: int) -> bool {
    i32::MIN <= 2 * h - 1 && 2 * h <= i32::MAX
}

/// Adding a row to a sweep adds `w` cells.
pub proof fn lemma_area_step(w: int, j: int)
    requires
        0 <= j,
    ensures
        grid_area(w, j + 1) == grid_area(w, j) + if w > 0 { w } else { 0 },
{
    if w > 0 {
        assert(w * (j + 1) == w * j + w) by (nonlinear_arith);
        if j == 0 {
            assert(w * 1 == w);
        }
    }
}

/// The area of a sweep with positive sides, written row-major.
pub proof fn lemma_area_rows(w: int, rows: int)
    requires
        w > 0,
        rows > 0,
    ensures
        grid_area(w, rows) == rows * w,
{
    assert(w * rows == rows * w) by (nonlinear_arith);
}

/// Whether cell `(col, row)` lies in the disc of radius `radius` about `(cx, cy)`.
pub open spec fn in_disc(col: int, row: int, cx: int, cy: int, radius: int) -> bool {
    (col - cx) * (col - cx) + (row - cy) * (row - cy) <= radius * radius
}

/// The farthest that a coordinate in `0..n` lies from `c`.
pub open spec fn axis_reach(c: int, n: int) -> int {
    let a = if c < 0 { -c } else { c };
    let e = if n - 1 - c < 0 { c - (n - 1) } else { n - 1 - c };
    if a < e { e } else { a }
}

/// Whether the squared distance from `(cx, cy)` to every cell of a sweep of
/// `rows` rows of `w` columns fits in `i32`.
pub open spec fn disc_fits(w: int, rows: int, cx: int, cy: int) -> bool {
    grid_area(w, rows) > 0 ==> axis_reach(cx, w) * axis_reach(cx, w) + axis_reach(cy, rows) * axis_reach(
        cy,
        rows,
    ) <= i32::MAX
}

/// A square bounded by a square is bounded, and a bounded square bounds its root.
pub proof fn lemma_square_bound(a: int, r: int)
    requires
        -r <= a <= r,
        r * r <= i32::MAX,
    ensures
        0 <= a * a <= r * r,
        -46341 < a < 46341,
{
    assert(a * a <= r * r) by (nonlinear_arith)
        requires
            -r <= a <= r,
    ;
    if r >= 46341 {
        assert(r * r >= 46341 * 46341) by (nonlinear_arith)
            requires
                r >= 46341,
        ;
    }
    assert(0 <= a * a) by (nonlinear_arith);
}

/// A quotient below `c + 1` times its divisor is at most `c`.
pub proof fn lemma_quotient_at_most(a: int, d: int, c: int)
    requires
        d > 0,
        0 <= a < d * (c + 1),
    ensures
        0 <= a / d <= c,
{
    vstd::arithmetic::div_mod::lemma_fundamental_div_mod(a, d);
    vstd::arithmetic::div_mod::lemma_mod_bound(a, d);
    vstd::arithmetic::div_mod::lemma_div_pos_is_pos(a, d);
    let q = a / d;
    if q > c {
        assert(d * q >= d * (c + 1)) by (nonlinear_arith)
            requires
                q >= c + 1,
                d > 0,
        ;
    }
}

/// A cell of a `rows` by `w` grid lies below `rows * w`.
pub proof fn lemma_cell_in_area(r: int, c: int, w: int, rows: int)
    requires
        0 <= r < rows,
        0 <= c < w,
    ensures
        0 <= r * w,
        0 <= r * w + c < rows * w,
        r * w + c <= rows * w - 1,
        r * w <= (rows - 1) * w,
{
    assert(0 <= r * w) by (nonlinear_arith)
        requires
            0 <= r,
            0 <= w,
    ;
    assert(r * w <= (rows - 1) * w) by (nonlinear_arith)
        requires
            r <= rows - 1,
            0 <= w,
    ;
    assert((rows - 1) * w == rows * w - w) by (nonlinear_arith);
}

/// Row-major indices of cells in earlier rows, or earlier in the same row, come first.
pub proof fn lemma_cell_order(r1: int, c1: int, r2: int, c2: int, w: int)
    requires
        0 <= c1 < w,
        0 <= c2 < w,
        r1 < r2 || (r1 == r2 && c1 < c2),
    ensures
        r1 * w + c1 < r2 * w + c2,
{
    if r1 < r2 {
        assert(r1 * w + w <= r2 * w) by (nonlinear_arith)
            requires
                r1 + 1 <= r2,
                0 <= w,
        ;
    }
}

/// A row-major index names one cell.
pub proof fn lemma_cell_unique(r1: int, c1: int, r2: int, c2: int, w: int)
    requires
        0 <= c1 < w,
        0 <= c2 < w,
        r1 * w + c1 == r2 * w + c2,
    ensures
        r1 == r2,
        c1 == c2,
{
    if r1 < r2 || (r1 == r2 && c1 < c2) {
        lemma_cell_order(r1, c1, r2, c2, w);
    } else if r2 < r1 || (r1 == r2 && c2 < c1) {
        lemma_cell_order(r2, c2, r1, c1, w);
    }
}

/// Every index below `rows * w` is a cell of the grid.
pub proof fn lemma_index_is_cell(k: int, w: int, rows: int)
    requires
        0 < w,
        0 <= k < rows * w,
    ensures
        0 <= k / w < rows,
        0 <= k % w < w,
        (k / w) * w + k % w == k,
{
    vstd::arithmetic::div_mod::lemma_fundamental_div_mod(k, w);
    assert(0 <= k % w < w) by {
        vstd::arithmetic::div_mod::lemma_mod_bound(k, w);
    }
    assert((k / w) * w == w * (k / w)) by (nonlinear_arith);
    let q = k / w;
    assert(0 <= q) by {
        vstd::arithmetic::div_mod::lemma_div_pos_is_pos(k, w);
    }
    if q >= rows {
        assert(q * w >= rows * w) by (nonlinear_arith)
            requires
                q >= rows,
                w > 0,
        ;
    }
}

} // verus!
