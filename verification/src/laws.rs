use vstd::prelude::*;

use crate::color::ColorValue;
use crate::fold::{bottom_cell, fold_fits, folded, lemma_pixel_cells, pixel_above, top_cell};
use crate::grid::{doubled_rows_ok, grid_area, lemma_area_rows, lemma_cell_in_area, lemma_index_is_cell, lemma_quotient_at_most, sweep_ok};
use crate::line::{covers, iabs, lemma_drift_reaches_end, line_arith_ok, line_drift, line_fits, line_is_shallow, line_points, line_start, line_step_point, line_steps, paint, plot_fits, shallow_offset, steep_offset};
use crate::pixel::{blank_px, cell, frame_text, lit_cell, px, text_px, written};
use crate::renderer::{triangle_painted, Renderer};
use crate::text::{byte_offset, lemma_offset_order, lemma_offset_step, lemma_offset_zero};

verus! {

/// A line traced from either end plots the same points.
pub proof fn lemma_line_reversible(x1: int, y1: int, x2: int, y2: int)
    ensures
        line_points(x1, y1, x2, y2) == line_points(x2, y2, x1, y1),
{
    assert((x1 - x2) * (y1 - y2) == (x2 - x1) * (y2 - y1)) by (nonlinear_arith);
    assert(line_start(x1, y1, x2, y2) == line_start(x2, y2, x1, y1));
    assert(line_steps(x1, y1, x2, y2) == line_steps(x2, y2, x1, y1));
    assert forall|k: int| true implies #[trigger] line_step_point(x1, y1, x2, y2, k) == line_step_point(
        x2,
        y2,
        x1,
        y1,
        k,
    ) by {}
    assert(line_points(x1, y1, x2, y2) =~= line_points(x2, y2, x1, y1));
}

/// Every point a line plots lies in the box spanned by its endpoints.
pub proof fn lemma_line_in_box(x1: int, y1: int, x2: int, y2: int, t: int)
    requires
        0 <= t < line_points(x1, y1, x2, y2).len(),
    ensures
        ({
            let p = line_points(x1, y1, x2, y2)[t];
            &&& (x1 <= p.0 <= x2 || x2 <= p.0 <= x1)
            &&& (y1 <= p.1 <= y2 || y2 <= p.1 <= y1)
        }),
{
    lemma_drift_reaches_end(x1, y1, x2, y2);
    let pts = line_points(x1, y1, x2, y2);
    let run = iabs(x2 - x1);
    let rise = iabs(y2 - y1);
    let dir = line_drift(x1, y1, x2, y2);
    let s = line_start(x1, y1, x2, y2);
    if t > 0 {
        let k = t - 1;
        assert(pts[t] == line_step_point(x1, y1, x2, y2, k));
        if line_is_shallow(x1, y1, x2, y2) {
            let a = 2 * rise * (k + 1) + run;
            assert(0 <= a < (2 * run) * (rise + 1)) by (nonlinear_arith)
                requires
                    0 <= k < run,
                    0 <= rise <= run,
                    a == 2 * rise * (k + 1) + run,
            ;
            lemma_quotient_at_most(a, 2 * run, rise);
            let off = shallow_offset(run, rise, k);
            assert(0 <= off <= rise);
            if dir == 1 {
                assert(pts[t].1 == s.1 + off);
            } else {
                assert(pts[t].1 == s.1 - off);
            }
        } else {
            let a = 2 * run * (k + 1) + rise - 1;
            assert(0 <= a < (2 * rise) * (run + 1)) by (nonlinear_arith)
                requires
                    0 <= k < rise,
                    0 <= run < rise,
                    a == 2 * run * (k + 1) + rise - 1,
            ;
            lemma_quotient_at_most(a, 2 * rise, run);
            let off = steep_offset(run, rise, k);
            assert(0 <= off <= run);
            if dir == 1 {
                assert(pts[t].0 == s.0 + off);
            } else {
                assert(pts[t].0 == s.0 - off);
            }
        }
    }
}

/// A line whose endpoints both lie in a grid of `rows` rows of `w` cells can
/// be drawn into a row-major buffer holding that grid.
pub proof fn lemma_line_fits_in_grid(w: int, rows: int, len: int, x1: int, y1: int, x2: int, y2: int)
    requires
        0 <= x1 < w,
        0 <= x2 < w,
        0 <= y1 < rows,
        0 <= y2 < rows,
        rows * w <= len,
        rows * w <= i32::MAX,
        2 * w <= i32::MAX,
        2 * rows <= i32::MAX,
    ensures
        line_fits(w, len, x1, y1, x2, y2),
{
    let dx = x2 - x1;
    let dy = y2 - y1;
    assert(-((w - 1) * (rows - 1)) <= dx * dy <= (w - 1) * (rows - 1)) by (nonlinear_arith)
        requires
            -(w - 1) <= dx <= w - 1,
            -(rows - 1) <= dy <= rows - 1,
    ;
    assert((w - 1) * (rows - 1) <= rows * w) by (nonlinear_arith)
        requires
            w >= 1,
            rows >= 1,
    ;
    assert(line_arith_ok(x1, y1, x2, y2));
    let pts = line_points(x1, y1, x2, y2);
    assert forall|t: int| 0 <= t < pts.len() implies plot_fits(w, len, #[trigger] pts[t]) by {
        lemma_line_in_box(x1, y1, x2, y2, t);
        lemma_cell_in_area(pts[t].1, pts[t].0, w, rows);
    }
}

/// Lighting the same points twice lights them once.
pub proof fn lemma_paint_idempotent(b: Seq<cell>, w: int, pts: Seq<(int, int)>, col: ColorValue)
    ensures
        paint(paint(b, w, pts, col), w, pts, col) == paint(b, w, pts, col),
{
    assert(paint(paint(b, w, pts, col), w, pts, col) =~= paint(b, w, pts, col));
}

/// Lighting two sets of points in one colour gives the same buffer in either order.
pub proof fn lemma_paint_commutes(b: Seq<cell>, w: int, p1: Seq<(int, int)>, p2: Seq<(int, int)>, col: ColorValue)
    ensures
        paint(paint(b, w, p1, col), w, p2, col) == paint(paint(b, w, p2, col), w, p1, col),
{
    assert(paint(paint(b, w, p1, col), w, p2, col) =~= paint(paint(b, w, p2, col), w, p1, col));
}

/// A triangle's outline does not depend on where its vertex list starts.
pub proof fn lemma_triangle_rotation(
    b: Seq<cell>,
    w: int,
    x1: int,
    y1: int,
    x2: int,
    y2: int,
    x3: int,
    y3: int,
    col: ColorValue,
)
    ensures
        triangle_painted(b, w, x1, y1, x2, y2, x3, y3, col) == triangle_painted(
            b,
            w,
            x2,
            y2,
            x3,
            y3,
            x1,
            y1,
            col,
        ),
{
    let a = line_points(x1, y1, x2, y2);
    let bb = line_points(x2, y2, x3, y3);
    let c = line_points(x3, y3, x1, y1);
    lemma_paint_commutes(paint(b, w, a, col), w, bb, c, col);
    lemma_paint_commutes(b, w, a, bb, col);
    lemma_paint_commutes(paint(b, w, bb, col), w, a, c, col);
}

/// A triangle's outline does not depend on the direction its vertices are listed in.
pub proof fn lemma_triangle_reflection(
    b: Seq<cell>,
    w: int,
    x1: int,
    y1: int,
    x2: int,
    y2: int,
    x3: int,
    y3: int,
    col: ColorValue,
)
    ensures
        triangle_painted(b, w, x1, y1, x2, y2, x3, y3, col) == triangle_painted(
            b,
            w,
            x1,
            y1,
            x3,
            y3,
            x2,
            y2,
            col,
        ),
{
    lemma_line_reversible(x1, y1, x2, y2);
    lemma_line_reversible(x2, y2, x3, y3);
    lemma_line_reversible(x3, y3, x1, y1);
    let a = line_points(x1, y1, x2, y2);
    let bb = line_points(x2, y2, x3, y3);
    let c = line_points(x3, y3, x1, y1);
    // reflected order is c, bb, a
    lemma_paint_commutes(b, w, a, c, col);
    lemma_paint_commutes(paint(b, w, c, col), w, a, bb, col);
    lemma_paint_commutes(b, w, c, a, col);
}

/// A renderer that `new` made with a positive size and `init_pbuff` then
/// filled is ready for frames.
pub proof fn lemma_new_then_init_ready(r: Renderer)
    requires
        r.width > 0,
        r.height > 0,
        r.width * r.height * 2 <= i32::MAX,
        r.b_buff@.len() == r.width * r.height * 2,
        r.p_buff@ == Seq::<px>::empty() + Seq::new(
            grid_area(r.width as int, r.height as int) as nat,
            |k: int| blank_px(),
        ),
    ensures
        r.frame_ready(),
{
    lemma_area_rows(r.width as int, r.height as int);
    assert(r.height * r.width == r.width * r.height) by (nonlinear_arith);
}

/// A ready renderer meets the needs of every whole-frame operation:
/// `reset_pbuff`, `px_to_string`, `reset_bbuff` and `bits_to_px`, whatever
/// the bit buffer holds.
pub proof fn lemma_ready_frame_ops(r: Renderer)
    requires
        r.frame_ready(),
    ensures
        sweep_ok(r.width as int, r.height as int, r.p_buff@.len() as int),
        doubled_rows_ok(r.height as int),
        sweep_ok(r.width as int, 2 * r.height, r.b_buff@.len() as int),
        fold_fits(r.p_buff@.len() as int, r.b_buff@, r.width as int, r.height as int),
{
    let w = r.width as int;
    let h = r.height as int;
    lemma_area_rows(w, h);
    lemma_area_rows(w, 2 * h);
    assert(h * w == w * h) by (nonlinear_arith);
    assert((2 * h) * w == w * h * 2) by (nonlinear_arith);
    assert(2 * h <= w * h * 2) by (nonlinear_arith)
        requires
            w >= 1,
            h >= 1,
    ;
    assert forall|k: int| 0 <= k < grid_area(w, 2 * h) && (#[trigger] r.b_buff@[k]).active implies pixel_above(
        w,
        k,
    ) < r.p_buff@.len() by {
        lemma_index_is_cell(k, w, 2 * h);
        let row = k / w;
        let half = row / 2;
        assert(0 <= half < h);
        lemma_cell_in_area(half, k % w, w, h);
    }
}

/// Folding a bit buffer with no lit cell in its swept rows changes no pixel.
pub proof fn lemma_fold_dark(p: Seq<px>, b: Seq<cell>, w: int, h: int)
    requires
        forall|k: int| 0 <= k < grid_area(w, 2 * h) ==> !(#[trigger] b[k]).active,
    ensures
        folded(p, b, w, h) == p,
{
    assert forall|q: int| 0 <= q < p.len() implies folded(p, b, w, h)[q] == p[q] by {
        if q < grid_area(w, h) {
            lemma_pixel_cells(w, h, q);
            lemma_area_rows(w, h);
            lemma_area_rows(w, 2 * h);
            assert((2 * h) * w == 2 * (h * w)) by (nonlinear_arith);
            assert(!b[top_cell(w, q)].active);
            assert(!b[bottom_cell(w, q)].active);
        }
    }
    assert(folded(p, b, w, h) =~= p);
}

/// Clearing the bit buffer and then folding it leaves the pixels as they were.
pub proof fn lemma_reset_then_fold(p: Seq<px>, b: Seq<cell>, w: int, h: int)
    requires
        grid_area(w, 2 * h) <= b.len(),
    ensures
        folded(
            p,
            Seq::new(
                b.len(),
                |k: int|
                    if k < grid_area(w, 2 * h) {
                        crate::pixel::darkened(b[k])
                    } else {
                        b[k]
                    },
            ),
            w,
            h,
        ) == p,
{
    let cleared = Seq::new(
        b.len(),
        |k: int|
            if k < grid_area(w, 2 * h) {
                crate::pixel::darkened(b[k])
            } else {
                b[k]
            },
    );
    lemma_fold_dark(p, cleared, w, h);
}

/// A frame whose first `n` pixels are blank renders as `n` spaces.
pub proof fn lemma_blank_frame_text(p: Seq<px>, n: int)
    requires
        0 <= n <= p.len(),
        forall|k: int| 0 <= k < n ==> #[trigger] p[k] == blank_px(),
    ensures
        frame_text(p, n) == Seq::new(n as nat, |i: int| ' '),
    decreases n,
{
    if n > 0 {
        lemma_blank_frame_text(p, n - 1);
        assert(p[n - 1] == blank_px());
        assert(frame_text(p, n) =~= Seq::new(n as nat, |i: int| ' '));
    } else {
        assert(frame_text(p, n) =~= Seq::new(n as nat, |i: int| ' '));
    }
}

/// Clearing the pixels and then rendering them gives one space per pixel.
pub proof fn lemma_reset_then_render(p: Seq<px>, w: int, h: int)
    requires
        grid_area(w, h) <= p.len(),
    ensures
        frame_text(
            Seq::new(p.len(), |k: int| if k < grid_area(w, h) { blank_px() } else { p[k] }),
            grid_area(w, h),
        ) == Seq::new(grid_area(w, h) as nat, |i: int| ' '),
{
    let cleared = Seq::new(p.len(), |k: int| if k < grid_area(w, h) { blank_px() } else { p[k] });
    if w > 0 && h > 0 {
        assert(grid_area(w, h) >= 0) by (nonlinear_arith)
            requires
                w > 0,
                h > 0,
                grid_area(w, h) == w * h,
        ;
    }
    lemma_blank_frame_text(cleared, grid_area(w, h));
}

/// Writing text puts each character at the byte where it starts, and leaves
/// every index where no character starts as it was.
pub proof fn lemma_written_places(p: Seq<px>, s: Seq<char>, n: int)
    requires
        0 <= n <= s.len(),
        n > 0 ==> byte_offset(s, n - 1) < p.len(),
    ensures
        written(p, s, n).len() == p.len(),
        forall|k: int|
            0 <= k < n ==> #[trigger] written(p, s, n)[byte_offset(s, k)] == (px {
                has_col: true,
                col: crate::color::ansi_color { foreground: ColorValue::white, background: ColorValue::black },
                char: s[k],
            }),
        forall|m: int|
            0 <= m < p.len() && (forall|k: int| 0 <= k < n ==> byte_offset(s, k) != m) ==> #[trigger] written(
                p,
                s,
                n,
            )[m] == p[m],
    decreases n,
{
    if n > 0 {
        if n > 1 {
            lemma_offset_order(s, n - 2, n - 1);
        }
        lemma_written_places(p, s, n - 1);
        assert forall|k: int| 0 <= k < n implies #[trigger] written(p, s, n)[byte_offset(s, k)] == text_px(
            s[k],
        ) by {
            if k < n - 1 {
                lemma_offset_order(s, k, n - 1);
                lemma_offset_order(s, 0, k);
                lemma_offset_zero(s);
            }
        }
    }
}

/// In ASCII text every character is one byte, so character `k` starts at byte `k`.
pub proof fn lemma_ascii_offsets(s: Seq<char>, k: int)
    requires
        0 <= k <= s.len(),
        forall|i: int| 0 <= i < s.len() ==> (#[trigger] s[i] as u32) < 0x80,
    ensures
        byte_offset(s, k) == k,
    decreases k,
{
    if k == 0 {
        lemma_offset_zero(s);
    } else {
        lemma_ascii_offsets(s, k - 1);
        lemma_offset_step(s, k - 1);
        assert(s[k - 1] as u32 <= 0x7F);
    }
}

/// Every point of a line is lit after drawing it, in the line's colour.
pub proof fn lemma_line_lit(b: Seq<cell>, w: int, x1: int, y1: int, x2: int, y2: int, col: ColorValue, t: int)
    requires
        0 <= t < line_points(x1, y1, x2, y2).len(),
        0 <= crate::grid::cell_of(w, line_points(x1, y1, x2, y2)[t]) < b.len(),
    ensures
        paint(b, w, line_points(x1, y1, x2, y2), col)[crate::grid::cell_of(
            w,
            line_points(x1, y1, x2, y2)[t],
        )] == lit_cell(col),
{
    let pts = line_points(x1, y1, x2, y2);
    assert(covers(w, pts, pts.len() as int, crate::grid::cell_of(w, pts[t])));
}

/// Drawing a disc of non-negative radius lights its centre when the centre
/// lies in the swept rows.
pub proof fn lemma_disc_center(b: Seq<cell>, w: int, h: int, cx: int, cy: int, radius: int)
    requires
        0 <= cx < w,
        0 <= cy < 2 * h,
        radius >= 0,
        grid_area(w, 2 * h) <= b.len(),
    ensures
        crate::renderer::disc(b, w, h, cx, cy, radius, grid_area(w, 2 * h))[cy * w + cx] == lit_cell(
            ColorValue::green,
        ),
{
    lemma_cell_in_area(cy, cx, w, 2 * h);
    lemma_area_rows(w, 2 * h);
    vstd::arithmetic::div_mod::lemma_fundamental_div_mod_converse(cy * w + cx, w, cy, cx);
    assert(0 <= radius * radius) by (nonlinear_arith);
}

/// Drawing a disc lights in green exactly the swept cells whose squared
/// Euclidean distance from the centre is at most the squared radius; every
/// other cell keeps its value.
pub proof fn lemma_disc_cells(b: Seq<cell>, w: int, h: int, cx: int, cy: int, radius: int)
    requires
        (2 * h) * w <= b.len(),
    ensures
        crate::renderer::disc(b, w, h, cx, cy, radius, grid_area(w, 2 * h)).len() == b.len(),
        forall|col: int, row: int|
            0 <= col < w && 0 <= row < 2 * h ==> #[trigger] crate::renderer::disc(
                b,
                w,
                h,
                cx,
                cy,
                radius,
                grid_area(w, 2 * h),
            )[row * w + col] == if (col - cx) * (col - cx) + (row - cy) * (row - cy) <= radius * radius {
                cell { active: true, col: ColorValue::green }
            } else {
                b[row * w + col]
            },
        forall|k: int|
            0 <= k < b.len() && !(0 <= k < (2 * h) * w) ==> #[trigger] crate::renderer::disc(
                b,
                w,
                h,
                cx,
                cy,
                radius,
                grid_area(w, 2 * h),
            )[k] == b[k],
{
    let d = crate::renderer::disc(b, w, h, cx, cy, radius, grid_area(w, 2 * h));
    assert forall|col: int, row: int| 0 <= col < w && 0 <= row < 2 * h implies #[trigger] d[row * w + col]
        == if (col - cx) * (col - cx) + (row - cy) * (row - cy) <= radius * radius {
        cell { active: true, col: ColorValue::green }
    } else {
        b[row * w + col]
    } by {
        lemma_cell_in_area(row, col, w, 2 * h);
        lemma_area_rows(w, 2 * h);
        vstd::arithmetic::div_mod::lemma_fundamental_div_mod_converse(row * w + col, w, row, col);
    }
    assert forall|k: int| 0 <= k < b.len() && !(0 <= k < (2 * h) * w) implies #[trigger] d[k] == b[k] by {
        if w > 0 && 2 * h > 0 {
            lemma_area_rows(w, 2 * h);
        }
    }
}

/// Folding is per half: the pixel in row `r`, column `c` takes the colour of
/// its lit upper cell (bit row `2r`) as foreground, whatever the lower cell
/// holds, and the colour of its lit lower cell (bit row `2r + 1`) as
/// background, whatever the upper cell holds; a dark cell leaves its half's
/// colour as it was; either lit cell colours the pixel and gives it the upper
/// half-block glyph. Pixels past the folded rows keep their values.
pub proof fn lemma_fold_halves(p: Seq<px>, b: Seq<cell>, w: int, h: int)
    requires
        h * w <= p.len(),
        (2 * h) * w <= b.len(),
    ensures
        folded(p, b, w, h).len() == p.len(),
        forall|r: int, c: int|
            0 <= r < h && 0 <= c < w ==> {
                let top = b[(2 * r) * w + c];
                let bottom = b[(2 * r + 1) * w + c];
                let before = p[r * w + c];
                let after = #[trigger] folded(p, b, w, h)[r * w + c];
                &&& top.active ==> after.col.foreground == top.col
                &&& !top.active ==> after.col.foreground == before.col.foreground
                &&& bottom.active ==> after.col.background == bottom.col
                &&& !bottom.active ==> after.col.background == before.col.background
                &&& after.has_col == (before.has_col || top.active || bottom.active)
                &&& after.char == if top.active || bottom.active {
                    '\u{2580}'
                } else {
                    before.char
                }
            },
        forall|k: int|
            0 <= k < p.len() && !(0 <= k < h * w) ==> #[trigger] folded(p, b, w, h)[k] == p[k],
{
    let f = folded(p, b, w, h);
    assert forall|r: int, c: int| 0 <= r < h && 0 <= c < w implies {
        let top = b[(2 * r) * w + c];
        let bottom = b[(2 * r + 1) * w + c];
        let before = p[r * w + c];
        let after = #[trigger] f[r * w + c];
        &&& top.active ==> after.col.foreground == top.col
        &&& !top.active ==> after.col.foreground == before.col.foreground
        &&& bottom.active ==> after.col.background == bottom.col
        &&& !bottom.active ==> after.col.background == before.col.background
        &&& after.has_col == (before.has_col || top.active || bottom.active)
        &&& after.char == if top.active || bottom.active {
            '\u{2580}'
        } else {
            before.char
        }
    } by {
        lemma_cell_in_area(r, c, w, h);
        lemma_area_rows(w, h);
        let q = r * w + c;
        vstd::arithmetic::div_mod::lemma_fundamental_div_mod_converse(q, w, r, c);
        assert(top_cell(w, q) == (2 * r) * w + c) by (nonlinear_arith)
            requires
                top_cell(w, q) == 2 * (q / w) * w + q % w,
                q / w == r,
                q % w == c,
        ;
        assert((2 * r + 1) * w + c == (2 * r) * w + c + w) by (nonlinear_arith);
    }
    assert forall|k: int| 0 <= k < p.len() && !(0 <= k < h * w) implies #[trigger] f[k] == p[k] by {
        if w > 0 && h > 0 {
            lemma_area_rows(w, h);
        }
    }
}

/// Each colour's palette number in the ANSI 256-colour palette.
pub proof fn lemma_palette_numbers()
    ensures
        crate::color::color_code(ColorValue::black) == 0,
        crate::color::color_code(ColorValue::red) == 1,
        crate::color::color_code(ColorValue::green) == 2,
        crate::color::color_code(ColorValue::yellow) == 3,
        crate::color::color_code(ColorValue::blue) == 4,
        crate::color::color_code(ColorValue::magenta) == 5,
        crate::color::color_code(ColorValue::cyan) == 6,
        crate::color::color_code(ColorValue::gray) == 7,
        crate::color::color_code(ColorValue::dark_gray) == 8,
        crate::color::color_code(ColorValue::bright_red) == 9,
        crate::color::color_code(ColorValue::bright_green) == 10,
        crate::color::color_code(ColorValue::bright_yellow) == 11,
        crate::color::color_code(ColorValue::bright_blue) == 12,
        crate::color::color_code(ColorValue::bright_magenta) == 13,
        crate::color::color_code(ColorValue::bright_cyan) == 14,
        crate::color::color_code(ColorValue::white) == 15,
{
}

/// A number below ten is written as its digit; one from ten to ninety-nine
/// as its tens digit followed by its units digit.
pub proof fn lemma_decimal_digits(n: nat)
    requires
        n < 100,
    ensures
        n < 10 ==> crate::text::decimal(n) == seq![('0' as u32 + n) as char],
        10 <= n ==> crate::text::decimal(n) == seq![('0' as u32 + n / 10) as char, ('0' as u32 + n % 10) as char],
{
    if n >= 10 {
        assert(crate::text::decimal(n / 10) == seq![crate::text::digit_char(n / 10)]);
    }
}

/// The escape text that selects a colour pair: `ESC[38;5;<foreground>m`
/// followed by `ESC[48;5;<background>m`, each number in decimal.
pub proof fn lemma_color_pair_text(col: crate::color::ansi_color)
    ensures
        crate::color::color_pair_text(col) == seq!['\x1B', '[', '3', '8', ';', '5', ';']
            + crate::text::decimal(crate::color::color_code(col.foreground)) + seq![
            'm',
            '\x1B',
            '[',
            '4',
            '8',
            ';',
            '5',
            ';',
        ] + crate::text::decimal(crate::color::color_code(col.background)) + seq!['m'],
{
    assert(crate::color::color_pair_text(col) =~= seq!['\x1B', '[', '3', '8', ';', '5', ';']
        + crate::text::decimal(crate::color::color_code(col.foreground)) + seq![
        'm',
        '\x1B',
        '[',
        '4',
        '8',
        ';',
        '5',
        ';',
    ] + crate::text::decimal(crate::color::color_code(col.background)) + seq!['m']);
}

/// A frame's text is built pixel by pixel: a pixel without colour adds one
/// space; a coloured pixel adds both colour escapes (foreground, then
/// background, whether or not they are equal), its glyph and `ESC[0m`.
pub proof fn lemma_frame_text_pixels(p: Seq<px>, n: int)
    requires
        0 <= n < p.len(),
    ensures
        frame_text(p, 0) == Seq::<char>::empty(),
        frame_text(p, n + 1) == frame_text(p, n) + if p[n].has_col {
            crate::color::color_pair_text(p[n].col) + seq![p[n].char, '\x1B', '[', '0', 'm']
        } else {
            seq![' ']
        },
{
    assert(crate::pixel::px_colored_text(p[n]) =~= crate::color::color_pair_text(p[n].col) + seq![
        p[n].char,
        '\x1B',
        '[',
        '0',
        'm',
    ]);
}

/// A pixel's coloured form: colour pair, glyph, `ESC[0m`.
pub proof fn lemma_px_colored_text(p: px)
    ensures
        crate::pixel::px_colored_text(p) == crate::color::color_pair_text(p.col) + seq![p.char, '\x1B', '[', '0', 'm'],
{
    assert(crate::pixel::px_colored_text(p) =~= crate::color::color_pair_text(p.col) + seq![
        p.char,
        '\x1B',
        '[',
        '0',
        'm',
    ]);
}

/// The foreground and background escapes of a colour pair.
pub proof fn lemma_single_escapes(col: crate::color::ansi_color)
    ensures
        crate::color::foreground_escape_text(col.foreground) == seq!['\x1B', '[', '3', '8', ';', '5', ';']
            + crate::text::decimal(crate::color::color_code(col.foreground)) + seq!['m'],
        crate::color::background_escape_text(col.background) == seq!['\x1B', '[', '4', '8', ';', '5', ';']
            + crate::text::decimal(crate::color::color_code(col.background)) + seq!['m'],
{
}

/// Whether one of `pts` lies on index `m` of a row-major buffer `w` wide.
pub open spec fn hits(w: int, pts: Seq<(int, int)>, m: int) -> bool {
    (exists|t: int| 0 <= t < pts.len() && #[trigger] pts[t].1 * w + pts[t].0 == m)
}

/// Lighting points sets exactly the cells under them to lit in the given
/// colour and keeps every other cell.
pub proof fn lemma_paint_cells(b: Seq<cell>, w: int, pts: Seq<(int, int)>, col: ColorValue)
    ensures
        paint(b, w, pts, col).len() == b.len(),
        forall|m: int|
            0 <= m < b.len() ==> #[trigger] paint(b, w, pts, col)[m] == if (exists|t: int| 0 <= t < pts.len() && #[trigger] pts[t].1 * w + pts[t].0 == m) {
                cell { active: true, col }
            } else {
                b[m]
            },
{
    assert forall|m: int| 0 <= m < b.len() implies #[trigger] paint(b, w, pts, col)[m] == if hits(
        w,
        pts,
        m,
    ) {
        cell { active: true, col }
    } else {
        b[m]
    } by {
        if hits(w, pts, m) {
            let t = choose|t: int| 0 <= t < pts.len() && #[trigger] pts[t].1 * w + pts[t].0 == m;
            assert(crate::grid::cell_of(w, pts[t]) == m);
        }
        if covers(w, pts, pts.len() as int, m) {
            let t = choose|t: int| 0 <= t < pts.len() && #[trigger] crate::grid::cell_of(w, pts[t]) == m;
            assert(pts[t].1 * w + pts[t].0 == m);
        }
    }
}

/// A triangle's outline lights exactly the cells on its three sides, the
/// lines from vertex 1 to 2, 2 to 3 and 3 to 1, and keeps every other cell.
pub proof fn lemma_triangle_cells(
    b: Seq<cell>,
    w: int,
    x1: int,
    y1: int,
    x2: int,
    y2: int,
    x3: int,
    y3: int,
    col: ColorValue,
)
    ensures
        triangle_painted(b, w, x1, y1, x2, y2, x3, y3, col).len() == b.len(),
        forall|m: int|
            0 <= m < b.len() ==> #[trigger] triangle_painted(b, w, x1, y1, x2, y2, x3, y3, col)[m] == if (exists|t: int| 0 <= t < line_points(x1, y1, x2, y2).len() && #[trigger] line_points(x1, y1, x2, y2)[t].1 * w + line_points(x1, y1, x2, y2)[t].0 == m) || (exists|t: int| 0 <= t < line_points(x2, y2, x3, y3).len() && #[trigger] line_points(x2, y2, x3, y3)[t].1 * w + line_points(x2, y2, x3, y3)[t].0 == m) || (exists|t: int| 0 <= t < line_points(x3, y3, x1, y1).len() && #[trigger] line_points(x3, y3, x1, y1)[t].1 * w + line_points(x3, y3, x1, y1)[t].0 == m) {
                cell { active: true, col }
            } else {
                b[m]
            },
{
    let a = line_points(x1, y1, x2, y2);
    let bb = line_points(x2, y2, x3, y3);
    let c = line_points(x3, y3, x1, y1);
    let s1 = paint(b, w, a, col);
    let s2 = paint(s1, w, bb, col);
    lemma_paint_cells(b, w, a, col);
    lemma_paint_cells(s1, w, bb, col);
    lemma_paint_cells(s2, w, c, col);
    assert forall|m: int| 0 <= m < b.len() implies #[trigger] triangle_painted(
        b,
        w,
        x1,
        y1,
        x2,
        y2,
        x3,
        y3,
        col,
    )[m] == if hits(w, a, m) || hits(w, bb, m) || hits(w, c, m) {
        cell { active: true, col }
    } else {
        b[m]
    } by {
        assert(s1[m] == if hits(w, a, m) { cell { active: true, col } } else { b[m] });
        assert(s2[m] == if hits(w, bb, m) { cell { active: true, col } } else { s1[m] });
    }
}

/// The points of a line, stated from its endpoints alone. With run
/// `|x2 - x1|` and rise `|y2 - y1|`: a line with rise at most run starts at
/// its left endpoint (the first on a tie) and has one point per column step
/// `k < run`, at column `start + k`, whose row distance `o` from the start,
/// taken towards the other endpoint, is the nearest integer to
/// `rise * (k + 1) / run`, halves rounded up; a steeper line starts at its
/// upper endpoint (smaller row, the first on a tie), has one point per row
/// step `k < rise`, at row `start + k`, whose column distance is the nearest
/// integer to `run * (k + 1) / rise`, halves rounded down.
pub proof fn lemma_line_points_closed_form(x1: int, y1: int, x2: int, y2: int, k: int)
    ensures
        ({
            let pts = line_points(x1, y1, x2, y2);
            let run = if x2 >= x1 { x2 - x1 } else { x1 - x2 };
            let rise = if y2 >= y1 { y2 - y1 } else { y1 - y2 };
            &&& rise <= run ==> {
                let (s, e) = if x1 <= x2 { ((x1, y1), (x2, y2)) } else { ((x2, y2), (x1, y1)) };
                &&& pts.len() == run + 1
                &&& pts[0] == s
                &&& 0 <= k < run ==> {
                    let o = if e.1 >= s.1 { pts[k + 1].1 - s.1 } else { s.1 - pts[k + 1].1 };
                    &&& pts[k + 1].0 == s.0 + k
                    &&& (e.1 >= s.1 ==> pts[k + 1].1 >= s.1)
                    &&& (e.1 < s.1 ==> pts[k + 1].1 <= s.1)
                    &&& -run < 2 * run * o - 2 * rise * (k + 1) <= run
                }
            }
            &&& rise > run ==> {
                let (s, e) = if y1 <= y2 { ((x1, y1), (x2, y2)) } else { ((x2, y2), (x1, y1)) };
                &&& pts.len() == rise + 1
                &&& pts[0] == s
                &&& 0 <= k < rise ==> {
                    let o = if e.0 >= s.0 { pts[k + 1].0 - s.0 } else { s.0 - pts[k + 1].0 };
                    &&& pts[k + 1].1 == s.1 + k
                    &&& (e.0 >= s.0 ==> pts[k + 1].0 >= s.0)
                    &&& (e.0 < s.0 ==> pts[k + 1].0 <= s.0)
                    &&& -rise <= 2 * rise * o - 2 * run * (k + 1) < rise
                }
            }
        }),
{
    lemma_drift_reaches_end(x1, y1, x2, y2);
    let pts = line_points(x1, y1, x2, y2);
    let run = iabs(x2 - x1);
    let rise = iabs(y2 - y1);
    let dir = line_drift(x1, y1, x2, y2);
    if rise <= run {
        if 0 <= k < run {
            assert(pts[k + 1] == line_step_point(x1, y1, x2, y2, k));
            let a = 2 * rise * (k + 1) + run;
            let q = shallow_offset(run, rise, k);
            vstd::arithmetic::div_mod::lemma_fundamental_div_mod(a, 2 * run);
            vstd::arithmetic::div_mod::lemma_mod_bound(a, 2 * run);
            assert((2 * run) * q == 2 * run * q) by (nonlinear_arith);
            assert(0 <= a < (2 * run) * (rise + 1)) by (nonlinear_arith)
                requires
                    0 <= k < run,
                    0 <= rise <= run,
                    a == 2 * rise * (k + 1) + run,
            ;
            lemma_quotient_at_most(a, 2 * run, rise);
            if rise == 0 {
                assert(q == 0) by {
                    assert(a < 2 * run);
                    vstd::arithmetic::div_mod::lemma_basic_div(a, 2 * run);
                }
            }
        }
    } else {
        if 0 <= k < rise {
            assert(pts[k + 1] == line_step_point(x1, y1, x2, y2, k));
            let a = 2 * run * (k + 1) + rise - 1;
            let q = steep_offset(run, rise, k);
            vstd::arithmetic::div_mod::lemma_fundamental_div_mod(a, 2 * rise);
            vstd::arithmetic::div_mod::lemma_mod_bound(a, 2 * rise);
            assert((2 * rise) * q == 2 * rise * q) by (nonlinear_arith);
            assert(0 <= a < (2 * rise) * (run + 1)) by (nonlinear_arith)
                requires
                    0 <= k < rise,
                    0 <= run < rise,
                    a == 2 * run * (k + 1) + rise - 1,
            ;
            lemma_quotient_at_most(a, 2 * rise, run);
            if run == 0 {
                assert(q == 0) by {
                    assert(a < 2 * rise) by (nonlinear_arith)
                        requires
                            run == 0,
                            a == 2 * run * (k + 1) + rise - 1,
                            rise > 0,
                    ;
                    vstd::arithmetic::div_mod::lemma_basic_div(a, 2 * rise);
                }
            }
        }
    }
}

/// Clearing the pixels blanks every pixel of the `width` by `height` grid
/// (uncoloured, black on black, a space) and keeps every other pixel.
pub proof fn lemma_cleared_pixels(p: Seq<px>, w: int, h: int)
    ensures
        ({
            let res = Seq::new(p.len(), |k: int| if k < grid_area(w, h) { blank_px() } else { p[k] });
            &&& res.len() == p.len()
            &&& forall|k: int|
                0 <= k < p.len() && w > 0 && h > 0 && k < h * w ==> #[trigger] res[k] == (px {
                    has_col: false,
                    col: crate::color::ansi_color { foreground: ColorValue::black, background: ColorValue::black },
                    char: ' ',
                })
            &&& forall|k: int| 0 <= k < p.len() && !(w > 0 && h > 0 && k < h * w) ==> #[trigger] res[k] == p[k]
        }),
{
    if w > 0 && h > 0 {
        lemma_area_rows(w, h);
    }
}

/// Switching off the bit buffer switches off every cell of the `2 * height`
/// rows of `width` cells, keeping each one's colour, and keeps every other cell.
pub proof fn lemma_darkened_cells(b: Seq<cell>, w: int, h: int)
    ensures
        ({
            let res = Seq::new(
                b.len(),
                |k: int|
                    if k < grid_area(w, 2 * h) {
                        crate::pixel::darkened(b[k])
                    } else {
                        b[k]
                    },
            );
            &&& res.len() == b.len()
            &&& forall|k: int|
                0 <= k < b.len() && w > 0 && h > 0 && k < (2 * h) * w ==> #[trigger] res[k] == (cell {
                    active: false,
                    col: b[k].col,
                })
            &&& forall|k: int| 0 <= k < b.len() && !(w > 0 && h > 0 && k < (2 * h) * w) ==> #[trigger] res[k] == b[k]
        }),
{
    if w > 0 && h > 0 {
        lemma_area_rows(w, 2 * h);
    }
}

/// Filling the pixel buffer appends `width * height` blank pixels when both
/// are positive, none otherwise.
pub proof fn lemma_filled_pixels(p: Seq<px>, w: int, h: int)
    ensures
        ({
            let res = p + Seq::new(grid_area(w, h) as nat, |k: int| blank_px());
            &&& res.len() == p.len() + if w > 0 && h > 0 { h * w } else { 0 }
            &&& forall|k: int| 0 <= k < p.len() ==> #[trigger] res[k] == p[k]
            &&& forall|k: int|
                p.len() <= k < res.len() ==> #[trigger] res[k] == (px {
                    has_col: false,
                    col: crate::color::ansi_color { foreground: ColorValue::black, background: ColorValue::black },
                    char: ' ',
                })
        }),
{
    if w > 0 && h > 0 {
        lemma_area_rows(w, h);
        assert(h * w >= 0) by (nonlinear_arith)
            requires
                w > 0,
                h > 0,
        ;
    }
}

/// A fresh bit buffer, as `new` makes it, holds dark black cells.
pub proof fn lemma_fresh_cells(b: Seq<cell>, n: nat)
    requires
        b == Seq::new(n, |i: int| crate::pixel::dark_cell()),
    ensures
        b.len() == n,
        forall|k: int| 0 <= k < n ==> #[trigger] b[k] == (cell { active: false, col: ColorValue::black }),
{
}

/// Text is laid out by UTF-8 width: the first character starts at byte 0
/// and each next one 1, 2, 3 or 4 bytes later, as its code point is below
/// 0x80, 0x800, 0x10000 or not.
pub proof fn lemma_byte_offsets(s: Seq<char>, k: int)
    requires
        0 <= k < s.len(),
    ensures
        byte_offset(s, 0) == 0,
        byte_offset(s, k + 1) - byte_offset(s, k) == if (s[k] as u32) < 0x80 {
            1int
        } else if (s[k] as u32) < 0x800 {
            2int
        } else if (s[k] as u32) < 0x10000 {
            3int
        } else {
            4int
        },
{
    lemma_offset_zero(s);
    lemma_offset_step(s, k);
    let v = s[k] as u32;
    vstd::utf8::char_is_scalar(s[k]);
    if v < 0x80 {
        assert(vstd::utf8::encode_scalar(v).len() == 1);
    } else if v < 0x800 {
        assert(vstd::utf8::encode_scalar(v).len() == 2);
    } else if v < 0x10000 {
        assert(vstd::utf8::encode_scalar(v).len() == 3);
    } else {
        assert(vstd::utf8::encode_scalar(v).len() == 4);
    }
}

} // verus!
