use vstd::prelude::*;

use crate::color::ansi_color;
use crate::grid::{grid_area, lemma_cell_in_area, lemma_cell_unique, lemma_index_is_cell};
use crate::pixel::{cell, darkened, px};

verus! {

/// The upper half-block glyph that a folded pixel shows.
pub open spec fn half_block() -> char {
    '\u{2580}'
}

/// Bit-buffer index of the upper cell behind pixel `q` of a buffer `w` wide.
pub open spec fn top_cell(w: int, q: int) -> int {
    2 * (q / w) * w + q % w
}

/// Bit-buffer index of the lower cell behind pixel `q` of a buffer `w` wide.
pub open spec fn bottom_cell(w: int, q: int) -> int {
    top_cell(w, q) + w
}

/// A pixel after folding its two cells into it: a lit upper cell sets the
/// foreground, a lit lower cell the background, and either one colours the
/// pixel and gives it the half-block glyph.
pub open spec fn fold_px(p: px, top: cell, bottom: cell) -> px {
    px {
        has_col: p.has_col || top.active || bottom.active,
        col: ansi_color {
            foreground: if top.active {
                top.col
            } else {
                p.col.foreground
            },
            background: if bottom.active {
                bottom.col
            } else {
                p.col.background
            },
        },
        char: if top.active || bottom.active {
            half_block()
        } else {
            p.char
        },
    }
}

/// The pixel buffer after folding the bit buffer into its first
/// `width * height` pixels; the other pixels stay.
pub open spec fn folded(p: Seq<px>, b: Seq<cell>, w: int, h: int) -> Seq<px> {
    Seq::new(
        p.len(),
        |q: int|
            if q < grid_area(w, h) {
                fold_px(p[q], b[top_cell(w, q)], b[bottom_cell(w, q)])
            } else {
                p[q]
            },
    )
}

/// A cell as it counts once the sweep has passed it, or dark before then.
pub open spec fn passed(c: cell, done: bool) -> cell {
    if done {
        c
    } else {
        darkened(c)
    }
}

/// The pixel buffer while the fold has swept the first `n` cells.
pub open spec fn folded_upto(p: Seq<px>, b: Seq<cell>, w: int, h: int, n: int) -> Seq<px> {
    Seq::new(
        p.len(),
        |q: int|
            if q < grid_area(w, h) {
                fold_px(
                    p[q],
                    passed(b[top_cell(w, q)], top_cell(w, q) < n),
                    passed(b[bottom_cell(w, q)], bottom_cell(w, q) < n),
                )
            } else {
                p[q]
            },
    )
}

/// Pixel index above bit-buffer index `k` of a buffer `w` wide.
pub open spec fn pixel_above(w: int, k: int) -> int {
    (k / w / 2) * w + k % w
}

/// Whether every lit cell of the first `2 * height` rows of `w` cells has its
/// pixel inside a pixel buffer of `len` entries.
pub open spec fn fold_fits(len: int, b: Seq<cell>, w: int, h: int) -> bool {
    forall|k: int|
        0 <= k < grid_area(w, 2 * h) && (#[trigger] b[k]).active ==> pixel_above(w, k) < len
}

/// What folding a lit cell of bit row `j` does to its pixel.
pub open spec fn fold_lit(p: px, j: int, col: crate::color::ColorValue) -> px {
    px {
        has_col: true,
        col: if j % 2 == 1 {
            ansi_color { foreground: p.col.foreground, background: col }
        } else {
            ansi_color { foreground: col, background: p.col.background }
        },
        char: half_block(),
    }
}

/// Where pixel `q` sits: its row and column, and its two cells.
pub proof fn lemma_pixel_cells(w: int, h: int, q: int)
    requires
        w > 0,
        h > 0,
        0 <= q < grid_area(w, h),
    ensures
        0 <= q / w < h,
        0 <= q % w < w,
        q == (q / w) * w + q % w,
        top_cell(w, q) == (2 * (q / w)) * w + q % w,
        bottom_cell(w, q) == (2 * (q / w) + 1) * w + q % w,
        0 <= top_cell(w, q) < bottom_cell(w, q) < 2 * h * w,
{
    assert(grid_area(w, h) == h * w) by (nonlinear_arith)
        requires
            grid_area(w, h) == w * h,
    ;
    lemma_index_is_cell(q, w, h);
    let r = q / w;
    let c = q % w;
    assert(2 * r * w == (2 * r) * w) by (nonlinear_arith);
    assert((2 * r + 1) * w == (2 * r) * w + w) by (nonlinear_arith);
    lemma_cell_in_area(2 * r + 1, c, w, 2 * h);
    lemma_cell_in_area(2 * r, c, w, 2 * h);
    assert(2 * h * w == (2 * h) * w) by (nonlinear_arith);
}

/// Sweeping past cell `j * w + i` changes at most the pixel above it.
pub proof fn lemma_fold_step(p: Seq<px>, b: Seq<cell>, w: int, h: int, j: int, i: int)
    requires
        w > 0,
        h > 0,
        0 <= j < 2 * h,
        0 <= i < w,
        b.len() >= 2 * grid_area(w, h),
    ensures
        ({
            let n = j * w + i;
            let q = (j / 2) * w + i;
            &&& 0 <= q < grid_area(w, h)
            &&& folded_upto(p, b, w, h, n + 1) == if b[n].active && q < p.len() {
                folded_upto(p, b, w, h, n).update(
                    q,
                    fold_lit(folded_upto(p, b, w, h, n)[q], j, b[n].col),
                )
            } else {
                folded_upto(p, b, w, h, n)
            }
        }),
{
    let n = j * w + i;
    let r = j / 2;
    let q = r * w + i;
    assert(grid_area(w, h) == h * w) by (nonlinear_arith)
        requires
            grid_area(w, h) == w * h,
    ;
    assert(0 <= r < h);
    lemma_cell_in_area(r, i, w, h);
    let before = folded_upto(p, b, w, h, n);
    let after = folded_upto(p, b, w, h, n + 1);
    // The pixel above the swept cell.
    lemma_pixel_cells(w, h, q);
    assert(q / w == r && q % w == i) by {
        lemma_cell_unique(q / w, q % w, r, i, w);
    }
    if j % 2 == 0 {
        assert(top_cell(w, q) == n);
    } else {
        assert(j == 2 * r + 1);
        assert(bottom_cell(w, q) == n);
    }
    assert forall|q2: int| 0 <= q2 < p.len() && q2 != q implies after[q2] == before[q2] by {
        if q2 < grid_area(w, h) {
            lemma_pixel_cells(w, h, q2);
            if top_cell(w, q2) == n {
                lemma_cell_unique(2 * (q2 / w), q2 % w, j, i, w);
                assert(q2 == q);
            }
            if bottom_cell(w, q2) == n {
                lemma_cell_unique(2 * (q2 / w) + 1, q2 % w, j, i, w);
                assert(q2 == q);
            }
        }
    }
    if b[n].active && q < p.len() {
        assert(after =~= before.update(q, fold_lit(before[q], j, b[n].col)));
    } else {
        assert(after =~= before);
    }
}

/// Before the sweep the buffer is as it was; after it, fully folded.
pub proof fn lemma_fold_ends(p: Seq<px>, b: Seq<cell>, w: int, h: int)
    requires
        w > 0,
        h > 0,
    ensures
        folded_upto(p, b, w, h, 0) == p,
        folded_upto(p, b, w, h, 2 * grid_area(w, h)) == folded(p, b, w, h),
{
    let start = folded_upto(p, b, w, h, 0);
    assert forall|q: int| 0 <= q < p.len() implies start[q] == p[q] by {
        if q < grid_area(w, h) {
            lemma_pixel_cells(w, h, q);
        }
    }
    assert(start =~= p);
    let end = folded_upto(p, b, w, h, 2 * grid_area(w, h));
    assert forall|q: int| 0 <= q < p.len() implies end[q] == folded(p, b, w, h)[q] by {
        if q < grid_area(w, h) {
            lemma_pixel_cells(w, h, q);
            assert(2 * h * w == 2 * grid_area(w, h)) by (nonlinear_arith)
                requires
                    grid_area(w, h) == w * h,
            ;
        }
    }
    assert(end =~= folded(p, b, w, h));
}

} // verus!
