use vstd::prelude::*;

use crate::grid::cell_of;
use crate::pixel::{cell, lit_cell};

verus! {

pub open spec fn iabs(v: int) -> int {
    if v < 0 {
        -v
    } else {
        v
    }
}

/// Whether the line between the two points advances one column per step
/// (its rise is at most its run) rather than one row per step.
pub open spec fn line_is_shallow(x1: int, y1: int, x2: int, y2: int) -> bool {
    iabs(y2 - y1) <= iabs(x2 - x1)
}

/// The endpoint a line is traced from: the left one for a shallow line, the
/// upper one (smaller row) for a steep one; the first point when they tie.
pub open spec fn line_start(x1: int, y1: int, x2: int, y2: int) -> (int, int) {
    if line_is_shallow(x1, y1, x2, y2) {
        if x2 - x1 >= 0 {
            (x1, y1)
        } else {
            (x2, y2)
        }
    } else {
        if y2 - y1 >= 0 {
            (x1, y1)
        } else {
            (x2, y2)
        }
    }
}

/// The direction along the minor axis: +1 when both coordinates grow
/// together, -1 otherwise.
pub open spec fn line_drift(x1: int, y1: int, x2: int, y2: int) -> int {
    if (x2 - x1) * (y2 - y1) > 0 {
        1
    } else {
        -1
    }
}

/// The number of steps traced after the start point: the run of a shallow
/// line, the rise of a steep one.
pub open spec fn line_steps(x1: int, y1: int, x2: int, y2: int) -> int {
    if line_is_shallow(x1, y1, x2, y2) {
        iabs(x2 - x1)
    } else {
        iabs(y2 - y1)
    }
}

/// How many rows a shallow line has climbed at step `k`: the slope times
/// `k + 1`, rounded to the nearest integer, halves rounded up.
pub open spec fn shallow_offset(run: int, rise: int, k: int) -> int {
    (2 * rise * (k + 1) + run) / (2 * run)
}

/// How many columns a steep line has moved at step `k`: the inverse slope
/// times `k + 1`, rounded to the nearest integer, halves rounded down.
pub open spec fn steep_offset(run: int, rise: int, k: int) -> int {
    (2 * run * (k + 1) + rise - 1) / (2 * rise)
}

/// The point plotted at step `k` (from 0): a shallow line plots column
/// `start + k`, a steep line row `start + k`, each at the rounded offset of
/// the next step along the other axis.
pub open spec fn line_step_point(x1: int, y1: int, x2: int, y2: int, k: int) -> (int, int) {
    let s = line_start(x1, y1, x2, y2);
    let run = iabs(x2 - x1);
    let rise = iabs(y2 - y1);
    let dir = line_drift(x1, y1, x2, y2);
    if line_is_shallow(x1, y1, x2, y2) {
        (s.0 + k, s.1 + dir * shallow_offset(run, rise, k))
    } else {
        (s.0 + dir * steep_offset(run, rise, k), s.1 + k)
    }
}

/// Every point that drawing the line plots, in order: the start point, then
/// one point per step.
pub open spec fn line_points(x1: int, y1: int, x2: int, y2: int) -> Seq<(int, int)> {
    seq![line_start(x1, y1, x2, y2)] + Seq::new(
        line_steps(x1, y1, x2, y2) as nat,
        |k: int| line_step_point(x1, y1, x2, y2, k),
    )
}

/// Whether one of the first `n` points lands on buffer index `m`.
pub open spec fn covers(w: int, pts: Seq<(int, int)>, n: int, m: int) -> bool {
    exists|t: int| 0 <= t < n && #[trigger] cell_of(w, pts[t]) == m
}

/// The buffer after lighting, in colour `col`, the cells under the first `n` points.
pub open spec fn paint_upto(b: Seq<cell>, w: int, pts: Seq<(int, int)>, n: int, col: crate::color::ColorValue) -> Seq<cell> {
    Seq::new(b.len(), |m: int| if covers(w, pts, n, m) { lit_cell(col) } else { b[m] })
}

/// The buffer after lighting, in colour `col`, the cells under all points.
pub open spec fn paint(b: Seq<cell>, w: int, pts: Seq<(int, int)>, col: crate::color::ColorValue) -> Seq<cell> {
    paint_upto(b, w, pts, pts.len() as int, col)
}

/// Whether plotting point `p` computes `y * w` and `y * w + x` within `i32`
/// and lands inside a buffer of `len` cells.
pub open spec fn plot_fits(w: int, len: int, p: (int, int)) -> bool {
    &&& i32::MIN <= p.1 * w <= i32::MAX
    &&& i32::MIN <= p.1 * w + p.0 <= i32::MAX
    &&& 0 <= p.1 * w + p.0 < len
}

/// Whether the line's own arithmetic stays within `i32`: the run and rise,
/// twice their magnitudes, and their product.
pub open spec fn line_arith_ok(x1: int, y1: int, x2: int, y2: int) -> bool {
    &&& i32::MIN <= x2 - x1 <= i32::MAX
    &&& i32::MIN <= y2 - y1 <= i32::MAX
    &&& 2 * iabs(x2 - x1) <= i32::MAX
    &&& 2 * iabs(y2 - y1) <= i32::MAX
    &&& i32::MIN <= (x2 - x1) * (y2 - y1) <= i32::MAX
}

/// Whether the line can be drawn into a buffer `w` cells wide holding `len` cells.
pub open spec fn line_fits(w: int, len: int, x1: int, y1: int, x2: int, y2: int) -> bool {
    &&& line_arith_ok(x1, y1, x2, y2)
    &&& forall|t: int|
        0 <= t < line_points(x1, y1, x2, y2).len() ==> plot_fits(
            w,
            len,
            #[trigger] line_points(x1, y1, x2, y2)[t],
        )
}

/// Lighting one more point updates one cell.
pub proof fn lemma_paint_step(b: Seq<cell>, w: int, pts: Seq<(int, int)>, n: int, col: crate::color::ColorValue)
    requires
        0 <= n < pts.len(),
        0 <= cell_of(w, pts[n]) < b.len(),
    ensures
        paint_upto(b, w, pts, n + 1, col) == paint_upto(b, w, pts, n, col).update(
            cell_of(w, pts[n]),
            lit_cell(col),
        ),
{
    let lhs = paint_upto(b, w, pts, n + 1, col);
    let rhs = paint_upto(b, w, pts, n, col).update(cell_of(w, pts[n]), lit_cell(col));
    assert forall|m: int| 0 <= m < b.len() implies lhs[m] == rhs[m] by {
        if covers(w, pts, n, m) {
            let t = choose|t: int| 0 <= t < n && #[trigger] cell_of(w, pts[t]) == m;
            assert(0 <= t < n + 1 && cell_of(w, pts[t]) == m);
        }
        if m == cell_of(w, pts[n]) {
            assert(covers(w, pts, n + 1, m));
        }
        if covers(w, pts, n + 1, m) && m != cell_of(w, pts[n]) {
            let t = choose|t: int| 0 <= t < n + 1 && #[trigger] cell_of(w, pts[t]) == m;
            assert(t != n);
            assert(covers(w, pts, n, m));
        }
    }
    assert(lhs =~= rhs);
}

/// Nothing is lit before the first point.
pub proof fn lemma_paint_none(b: Seq<cell>, w: int, pts: Seq<(int, int)>, col: crate::color::ColorValue)
    ensures
        paint_upto(b, w, pts, 0, col) == b,
{
    assert(paint_upto(b, w, pts, 0, col) =~= b);
}

/// After step `k` of a shallow line, a decision value in its band pins the
/// number of rows climbed to the rounded offset.
pub proof fn lemma_shallow_offset(run: int, rise: int, k: int, s: int, m: int)
    requires
        run > 0,
        0 <= k,
        m == 2 * rise * (k + 2) - run - 2 * run * s,
        2 * rise - 2 * run <= m < 2 * rise,
    ensures
        s == shallow_offset(run, rise, k),
{
    let a = 2 * rise * (k + 1) + run;
    let r = m - 2 * rise + 2 * run;
    assert(2 * rise * (k + 2) == 2 * rise * (k + 1) + 2 * rise) by (nonlinear_arith);
    assert(s * (2 * run) == 2 * run * s) by (nonlinear_arith);
    assert(a == s * (2 * run) + r);
    vstd::arithmetic::div_mod::lemma_fundamental_div_mod_converse(a, 2 * run, s, r);
}

/// After step `k` of a steep line, a decision value in its band pins the
/// number of columns moved to the rounded offset.
pub proof fn lemma_steep_offset(run: int, rise: int, k: int, t: int, m: int)
    requires
        rise > 0,
        0 <= k,
        m == 2 * run * (k + 2) - rise - 2 * rise * t,
        2 * run - 2 * rise < m <= 2 * run,
    ensures
        t == steep_offset(run, rise, k),
{
    let a = 2 * run * (k + 1) + rise - 1;
    let r = m - 2 * run + 2 * rise - 1;
    assert(2 * run * (k + 2) == 2 * run * (k + 1) + 2 * run) by (nonlinear_arith);
    assert(t * (2 * rise) == 2 * rise * t) by (nonlinear_arith);
    assert(a == t * (2 * rise) + r);
    vstd::arithmetic::div_mod::lemma_fundamental_div_mod_converse(a, 2 * rise, t, r);
}

/// A shallow line only climbs while it has rows left to climb.
pub proof fn lemma_shallow_climb_bound(run: int, rise: int, k: int, s: int, m: int)
    requires
        run > 0,
        0 <= rise,
        0 <= k < run,
        m == 2 * rise * (k + 1) - run - 2 * run * s,
        m >= 0,
    ensures
        s < rise,
{
    assert(2 * rise * (k + 1) <= 2 * rise * run) by (nonlinear_arith)
        requires
            k + 1 <= run,
            0 <= rise,
            m >= 0,
            m == 2 * rise * (k + 1) - run - 2 * run * s,
            run > 0,
    ;
    assert(s < rise) by (nonlinear_arith)
        requires
            run > 0,
            2 * run * s < 2 * rise * run,
    ;
}

/// A steep line only moves sideways while it has columns left to move.
pub proof fn lemma_steep_climb_bound(run: int, rise: int, k: int, t: int, m: int)
    requires
        rise > 0,
        0 <= run,
        0 <= k < rise,
        m == 2 * run * (k + 1) - rise - 2 * rise * t,
        m > 0,
    ensures
        t < run,
{
    assert(2 * run * (k + 1) <= 2 * run * rise) by (nonlinear_arith)
        requires
            k + 1 <= rise,
            0 <= run,
            m > 0,
            m == 2 * run * (k + 1) - rise - 2 * rise * t,
            rise > 0,
    ;
    assert(t < run) by (nonlinear_arith)
        requires
            rise > 0,
            2 * rise * t < 2 * run * rise,
    ;
}

pub proof fn lemma_product_sign(a: int, b: int)
    ensures
        a * b > 0 <==> (a > 0 && b > 0) || (a < 0 && b < 0),
{
    if a > 0 && b > 0 {
        assert(a * b > 0) by (nonlinear_arith)
            requires
                a > 0,
                b > 0,
        ;
    } else if a < 0 && b < 0 {
        assert(a * b > 0) by (nonlinear_arith)
            requires
                a < 0,
                b < 0,
        ;
    } else if a == 0 || b == 0 {
        assert(a * b == 0) by (nonlinear_arith)
            requires
                a == 0 || b == 0,
        ;
    } else if a > 0 {
        assert(a * b < 0) by (nonlinear_arith)
            requires
                a > 0,
                b < 0,
        ;
    } else {
        assert(a * b < 0) by (nonlinear_arith)
            requires
                a < 0,
                b > 0,
        ;
    }
}

/// Moving from the start point along the minor axis by the full rise (run)
/// in the drift direction reaches the other endpoint.
pub proof fn lemma_drift_reaches_end(x1: int, y1: int, x2: int, y2: int)
    ensures
        line_drift(x1, y1, x2, y2) == 1 || line_drift(x1, y1, x2, y2) == -1,
        line_is_shallow(x1, y1, x2, y2) ==> line_start(x1, y1, x2, y2).1 + line_drift(x1, y1, x2, y2)
            * iabs(y2 - y1) == (if x2 - x1 >= 0 {
            y2
        } else {
            y1
        }),
        line_is_shallow(x1, y1, x2, y2) ==> line_start(x1, y1, x2, y2).0 + iabs(x2 - x1) == (if x2 - x1
            >= 0 {
            x2
        } else {
            x1
        }),
        !line_is_shallow(x1, y1, x2, y2) ==> line_start(x1, y1, x2, y2).0 + line_drift(x1, y1, x2, y2)
            * iabs(x2 - x1) == (if y2 - y1 >= 0 {
            x2
        } else {
            x1
        }),
        !line_is_shallow(x1, y1, x2, y2) ==> line_start(x1, y1, x2, y2).1 + iabs(y2 - y1) == (if y2 - y1
            >= 0 {
            y2
        } else {
            y1
        }),
{
    lemma_product_sign(x2 - x1, y2 - y1);
}

} // verus!
