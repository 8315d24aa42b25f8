use vstd::prelude::*;

use crate::color::{ansi_color, ColorValue};
use crate::grid::{axis_reach, disc_fits, doubled_rows_ok, grid_area, in_disc, lemma_area_rows, lemma_area_step, lemma_cell_in_area, lemma_quotient_at_most, lemma_square_bound, sweep_ok};
use crate::line::{iabs, lemma_drift_reaches_end, lemma_paint_none, lemma_paint_step, lemma_shallow_climb_bound, lemma_shallow_offset, lemma_steep_climb_bound, lemma_steep_offset, line_arith_ok, line_drift, line_fits, line_is_shallow, line_points, line_start, line_step_point, line_steps, paint, paint_upto, plot_fits};
use crate::fold::{fold_fits, folded, folded_upto, lemma_fold_ends, lemma_fold_step, pixel_above};
use crate::pixel::{blank, blank_px, cell, dark, dark_cell, darkened, frame_text, lit_cell, push_px, px, px_frame_text, written};
use crate::text::{byte_offset, lemma_offset_order, lemma_offset_step, lemma_offset_zero, push_char, utf8_width};

verus! {

/// A frame under construction.
///
/// `b_buff` holds `2 * height` rows of `width` cells, two per terminal row;
/// `p_buff` holds `height` rows of `width` terminal characters; both are
/// row-major. `f_buff` holds `width * height` flags.
pub struct Renderer {
    pub f_buff: Vec<u8>,
    pub b_buff: Vec<cell>,
    pub p_buff: Vec<px>,
    pub width: i32,
    pub height: i32,
}

impl Renderer {
    /// A renderer of positive size whose buffers have the sizes `new` and
    /// `init_pbuff` give them: `2 * width * height` cells, `width * height` pixels.
    pub open spec fn frame_ready(&self) -> bool {
        &&& self.width > 0
        &&& self.height > 0
        &&& self.width * self.height * 2 <= i32::MAX
        &&& self.b_buff@.len() == self.width * self.height * 2
        &&& self.p_buff@.len() == self.width * self.height
    }

    /// A renderer of `width` by `height` characters: zeroed flags, a dark bit
    /// buffer of `2 * width * height` cells and an empty pixel buffer.
    pub fn new(width: i32, height: i32) -> (r: Renderer)
        requires
            0 <= width * height,
            width * height * 2 <= i32::MAX,
        ensures
            r.width == width,
            r.height == height,
            r.f_buff@ == Seq::new((width * height) as nat, |i: int| 0u8),
            r.b_buff@ == Seq::new((width * height * 2) as nat, |i: int| dark_cell()),
            r.p_buff@.len() == 0,
    {
        let f_buff: Vec<u8> = vec![0u8; (width * height) as usize];
        let b_buff: Vec<cell> = vec![dark(); (width * height * 2) as usize];
        let p_buff: Vec<px> = Vec::with_capacity((width * height) as usize);
        let r = Renderer { f_buff, b_buff, p_buff, width, height };
        assert(r.f_buff@ =~= Seq::new((width * height) as nat, |i: int| 0u8));
        assert(r.b_buff@ =~= Seq::new((width * height * 2) as nat, |i: int| dark_cell()));
        r
    }

    /// Whether the renderer is `frame_ready`.
    pub fn is_frame_ready(&self) -> (ok: bool)
        ensures
            ok == self.frame_ready(),
    {
        if self.width <= 0 || self.height <= 0 {
            return false;
        }
        let w = self.width as i64;
        let h = self.height as i64;
        proof {
            assert(0 < w * h < 0x4000_0000_0000_0000) by (nonlinear_arith)
                requires
                    0 < w <= 0x7fff_ffff,
                    0 < h <= 0x7fff_ffff,
            ;
        }
        let area = w * h;
        if area * 2 > 0x7fff_ffff {
            return false;
        }
        self.b_buff.len() == (area * 2) as usize && self.p_buff.len() == area as usize
    }

    /// Whether `draw_line(x1, y1, x2, y2, _)` may be called: `line_fits` for
    /// this renderer's width and bit buffer.
    pub fn can_draw_line(&self, x1: i32, y1: i32, x2: i32, y2: i32) -> (ok: bool)
        ensures
            ok == line_fits(
                self.width as int,
                self.b_buff@.len() as int,
                x1 as int,
                y1 as int,
                x2 as int,
                y2 as int,
            ),
    {
        let ghost pts = line_points(x1 as int, y1 as int, x2 as int, y2 as int);
        let w = self.width as i64;
        let len = self.b_buff.len();
        let dx = x2 as i64 - x1 as i64;
        let dy = y2 as i64 - y1 as i64;
        if dx < -0x8000_0000 || dx > 0x7fff_ffff || dy < -0x8000_0000 || dy > 0x7fff_ffff {
            return false;
        }
        let run = if dx < 0 { -dx } else { dx };
        let rise = if dy < 0 { -dy } else { dy };
        if 2 * run > 0x7fff_ffff || 2 * rise > 0x7fff_ffff {
            return false;
        }
        proof {
            assert(-0x1000_0000_0000_0000 <= dx * dy <= 0x1000_0000_0000_0000) by (nonlinear_arith)
                requires
                    -0x4000_0000 <= dx <= 0x4000_0000,
                    -0x4000_0000 <= dy <= 0x4000_0000,
            ;
        }
        let prod = dx * dy;
        if prod < -0x8000_0000 || prod > 0x7fff_ffff {
            return false;
        }
        assert(line_arith_ok(x1 as int, y1 as int, x2 as int, y2 as int));
        let shallow = rise <= run;
        let (xs, ys) = if shallow {
            if dx >= 0 { (x1 as i64, y1 as i64) } else { (x2 as i64, y2 as i64) }
        } else {
            if dy >= 0 { (x1 as i64, y1 as i64) } else { (x2 as i64, y2 as i64) }
        };
        let dir: i64 = if prod > 0 { 1 } else { -1 };
        let steps = if shallow { run } else { rise };
        assert(pts[0] == (xs as int, ys as int));
        if !plot_fits_exec(w, len, xs, ys) {
            return false;
        }
        let mut k: i64 = 0;
        while k < steps
            invariant
                pts == line_points(x1 as int, y1 as int, x2 as int, y2 as int),
                w == self.width,
                len == self.b_buff@.len(),
                line_arith_ok(x1 as int, y1 as int, x2 as int, y2 as int),
                run == iabs(x2 - x1),
                rise == iabs(y2 - y1),
                0 <= run <= 0x4000_0000,
                0 <= rise <= 0x4000_0000,
                shallow == line_is_shallow(x1 as int, y1 as int, x2 as int, y2 as int),
                (xs as int, ys as int) == line_start(x1 as int, y1 as int, x2 as int, y2 as int),
                -0x8000_0000 <= xs <= 0x7fff_ffff,
                -0x8000_0000 <= ys <= 0x7fff_ffff,
                dir == line_drift(x1 as int, y1 as int, x2 as int, y2 as int),
                steps == line_steps(x1 as int, y1 as int, x2 as int, y2 as int),
                pts.len() == steps + 1,
                0 <= k <= steps,
                forall|t: int| 0 <= t < k + 1 ==> plot_fits(self.width as int, len as int, #[trigger] pts[t]),
            decreases steps - k,
        {
            proof {
                assert(0 <= 2 * rise * (k + 1) <= 0x2000_0000_0000_0000) by (nonlinear_arith)
                    requires
                        0 <= rise <= 0x4000_0000,
                        0 <= k < 0x4000_0000,
                ;
                assert(0 <= 2 * run * (k + 1) <= 0x2000_0000_0000_0000) by (nonlinear_arith)
                    requires
                        0 <= run <= 0x4000_0000,
                        0 <= k < 0x4000_0000,
                ;
            }
            let (px_, py_) = if shallow {
                let num = 2 * rise * (k + 1) + run;
                let den = 2 * run;
                proof {
                    assert(0 <= num < den * (rise + 1)) by (nonlinear_arith)
                        requires
                            0 <= k < run,
                            0 <= rise <= run,
                            num == 2 * rise * (k + 1) + run,
                            den == 2 * run,
                    ;
                    lemma_quotient_at_most(num as int, den as int, rise as int);
                }
                let off = num / den;
                (xs + k, ys + dir * off)
            } else {
                let num = 2 * run * (k + 1) + rise - 1;
                let den = 2 * rise;
                proof {
                    assert(0 <= num < den * (run + 1)) by (nonlinear_arith)
                        requires
                            0 <= k < rise,
                            0 <= run < rise,
                            num == 2 * run * (k + 1) + rise - 1,
                            den == 2 * rise,
                    ;
                    lemma_quotient_at_most(num as int, den as int, run as int);
                }
                let off = num / den;
                (xs + dir * off, ys + k)
            };
            proof {
                assert(pts[k + 1] == line_step_point(x1 as int, y1 as int, x2 as int, y2 as int, k as int));
                assert(pts[k + 1] == (px_ as int, py_ as int));
            }
            if !plot_fits_exec(w, len, px_, py_) {
                return false;
            }
            k += 1;
        }
        true
    }

    /// Lights, in colour `col`, the cells of the bit buffer under every point
    /// of `line_points(x1, y1, x2, y2)`; nothing else changes.
    pub fn draw_line(&mut self, x1: i32, y1: i32, x2: i32, y2: i32, col: ColorValue)
        requires
            line_fits(
                old(self).width as int,
                old(self).b_buff@.len() as int,
                x1 as int,
                y1 as int,
                x2 as int,
                y2 as int,
            ),
        ensures
            final(self).b_buff@ == paint(
                old(self).b_buff@,
                old(self).width as int,
                line_points(x1 as int, y1 as int, x2 as int, y2 as int),
                col,
            ),
            final(self).f_buff == old(self).f_buff,
            final(self).p_buff == old(self).p_buff,
            final(self).width == old(self).width,
            final(self).height == old(self).height,
            old(self).frame_ready() ==> final(self).frame_ready(),
    {
        let ghost pts = line_points(x1 as int, y1 as int, x2 as int, y2 as int);
        let ghost b0 = self.b_buff@;
        let ghost w = self.width as int;
        let ghost len = b0.len() as int;
        let ghost dir = line_drift(x1 as int, y1 as int, x2 as int, y2 as int);
        let dist_x = x2 - x1;
        let dist_y = y2 - y1;
        let a_dist_x = if dist_x < 0 { -dist_x } else { dist_x };
        let a_dist_y = if dist_y < 0 { -dist_y } else { dist_y };
        let mut m_x = 2 * a_dist_y - a_dist_x;
        let mut m_y = 2 * a_dist_x - a_dist_y;
        if a_dist_y <= a_dist_x {
            let x_start: i32;
            let mut y_start: i32;
            let x_end: i32;
            let ghost y_end: int;
            if dist_x >= 0 {
                x_start = x1;
                y_start = y1;
                x_end = x2;
                proof { y_end = y2 as int; }
            } else {
                x_start = x2;
                y_start = y2;
                x_end = x1;
                proof { y_end = y1 as int; }
            }
            let ghost ys0 = y_start as int;
            proof {
                assert(pts[0] == (x_start as int, y_start as int));
                assert(plot_fits(w, len, pts[0]));
                lemma_drift_reaches_end(x1 as int, y1 as int, x2 as int, y2 as int);
                assert(ys0 + dir * a_dist_y == y_end);
            }
            let idx = y_start * self.width + x_start;
            self.b_buff[idx as usize].active = true;
            self.b_buff[idx as usize].col = col;
            proof {
                lemma_paint_none(b0, w, pts, col);
                lemma_paint_step(b0, w, pts, 0, col);
                assert(lit_cell(col) == cell { active: true, col });
            }
            let ghost mut s: int = 0;
            let mut x = x_start;
            proof {
                assert(2 * a_dist_y * (x - x_start + 1) == 2 * a_dist_y) by (nonlinear_arith)
                    requires
                        x == x_start,
                ;
                assert(2 * a_dist_x * s == 0) by (nonlinear_arith)
                    requires
                        s == 0,
                ;
            }
            while x < x_end
                invariant
                    self.width == w,
                    self.f_buff == old(self).f_buff,
                    self.p_buff == old(self).p_buff,
                    self.height == old(self).height,
                    b0 == old(self).b_buff@,
                    len == b0.len(),
                    w == old(self).width,
                    pts == line_points(x1 as int, y1 as int, x2 as int, y2 as int),
                    line_fits(w, len, x1 as int, y1 as int, x2 as int, y2 as int),
                    dist_x == x2 - x1,
                    dist_y == y2 - y1,
                    a_dist_x == iabs(x2 - x1),
                    a_dist_y == iabs(y2 - y1),
                    a_dist_y <= a_dist_x,
                    dir == line_drift(x1 as int, y1 as int, x2 as int, y2 as int),
                    line_start(x1 as int, y1 as int, x2 as int, y2 as int) == (x_start as int, ys0),
                    x_end - x_start == a_dist_x,
                    ys0 + dir * a_dist_y == y_end,
                    x_start <= x <= x_end,
                    0 <= s <= a_dist_y,
                    y_start == ys0 + dir * s,
                    a_dist_x > 0 ==> m_x == 2 * a_dist_y * (x - x_start + 1) - a_dist_x - 2 * a_dist_x * s,
                    a_dist_x > 0 ==> 2 * a_dist_y - 2 * a_dist_x <= m_x < 2 * a_dist_y,
                    self.b_buff@ == paint_upto(b0, w, pts, x - x_start + 1, col),
                decreases x_end - x,
            {
                let ghost k: int = x - x_start;
                if m_x < 0 {
                    m_x += 2 * a_dist_y;
                    proof {
                        assert(2 * a_dist_y * (k + 2) == 2 * a_dist_y * (k + 1) + 2 * a_dist_y) by (nonlinear_arith);
                    }
                } else {
                    proof {
                        lemma_shallow_climb_bound(a_dist_x as int, a_dist_y as int, k, s, m_x as int);
                        assert(2 * a_dist_y * (k + 2) == 2 * a_dist_y * (k + 1) + 2 * a_dist_y) by (nonlinear_arith);
                        assert(2 * a_dist_x * (s + 1) == 2 * a_dist_x * s + 2 * a_dist_x) by (nonlinear_arith);
                        lemma_drift_reaches_end(x1 as int, y1 as int, x2 as int, y2 as int);
                        if dir == 1 {
                            assert(y_start + 1 <= y_end);
                        } else {
                            assert(y_start - 1 >= y_end);
                        }
                    }
                    if dist_x * dist_y > 0 {
                        y_start += 1;
                    } else {
                        y_start -= 1;
                    }
                    proof { s = s + 1; }
                    m_x += 2 * (a_dist_y - a_dist_x);
                }
                proof {
                    lemma_shallow_offset(a_dist_x as int, a_dist_y as int, k, s, m_x as int);
                    assert(pts[k + 1] == line_step_point(x1 as int, y1 as int, x2 as int, y2 as int, k));
                    assert(pts[k + 1] == (x as int, y_start as int));
                    assert(plot_fits(w, len, pts[k + 1]));
                }
                let idx = y_start * self.width + x;
                self.b_buff[idx as usize].active = true;
                self.b_buff[idx as usize].col = col;
                proof {
                    lemma_paint_step(b0, w, pts, k + 1, col);
                }
                x += 1;
            }
        } else {
            let mut x_start: i32;
            let y_start: i32;
            let y_end: i32;
            let ghost x_end: int;
            if dist_y >= 0 {
                x_start = x1;
                y_start = y1;
                y_end = y2;
                proof { x_end = x2 as int; }
            } else {
                x_start = x2;
                y_start = y2;
                y_end = y1;
                proof { x_end = x1 as int; }
            }
            let ghost xs0 = x_start as int;
            proof {
                assert(pts[0] == (x_start as int, y_start as int));
                assert(plot_fits(w, len, pts[0]));
                lemma_drift_reaches_end(x1 as int, y1 as int, x2 as int, y2 as int);
                assert(xs0 + dir * a_dist_x == x_end);
            }
            let idx = y_start * self.width + x_start;
            self.b_buff[idx as usize].active = true;
            self.b_buff[idx as usize].col = col;
            proof {
                lemma_paint_none(b0, w, pts, col);
                lemma_paint_step(b0, w, pts, 0, col);
                assert(lit_cell(col) == cell { active: true, col });
            }
            let ghost mut t: int = 0;
            let mut y = y_start;
            proof {
                assert(2 * a_dist_x * (y - y_start + 1) == 2 * a_dist_x) by (nonlinear_arith)
                    requires
                        y == y_start,
                ;
                assert(2 * a_dist_y * t == 0) by (nonlinear_arith)
                    requires
                        t == 0,
                ;
            }
            while y < y_end
                invariant
                    self.width == w,
                    self.f_buff == old(self).f_buff,
                    self.p_buff == old(self).p_buff,
                    self.height == old(self).height,
                    b0 == old(self).b_buff@,
                    len == b0.len(),
                    w == old(self).width,
                    pts == line_points(x1 as int, y1 as int, x2 as int, y2 as int),
                    line_fits(w, len, x1 as int, y1 as int, x2 as int, y2 as int),
                    dist_x == x2 - x1,
                    dist_y == y2 - y1,
                    a_dist_x == iabs(x2 - x1),
                    a_dist_y == iabs(y2 - y1),
                    a_dist_x < a_dist_y,
                    dir == line_drift(x1 as int, y1 as int, x2 as int, y2 as int),
                    line_start(x1 as int, y1 as int, x2 as int, y2 as int) == (xs0, y_start as int),
                    y_end - y_start == a_dist_y,
                    xs0 + dir * a_dist_x == x_end,
                    y_start <= y <= y_end,
                    0 <= t <= a_dist_x,
                    x_start == xs0 + dir * t,
                    m_y == 2 * a_dist_x * (y - y_start + 1) - a_dist_y - 2 * a_dist_y * t,
                    2 * a_dist_x - 2 * a_dist_y < m_y <= 2 * a_dist_x,
                    self.b_buff@ == paint_upto(b0, w, pts, y - y_start + 1, col),
                decreases y_end - y,
            {
                let ghost k: int = y - y_start;
                if m_y <= 0 {
                    m_y += 2 * a_dist_x;
                    proof {
                        assert(2 * a_dist_x * (k + 2) == 2 * a_dist_x * (k + 1) + 2 * a_dist_x) by (nonlinear_arith);
                    }
                } else {
                    proof {
                        lemma_steep_climb_bound(a_dist_x as int, a_dist_y as int, k, t, m_y as int);
                        assert(2 * a_dist_x * (k + 2) == 2 * a_dist_x * (k + 1) + 2 * a_dist_x) by (nonlinear_arith);
                        assert(2 * a_dist_y * (t + 1) == 2 * a_dist_y * t + 2 * a_dist_y) by (nonlinear_arith);
                        lemma_drift_reaches_end(x1 as int, y1 as int, x2 as int, y2 as int);
                        if dir == 1 {
                            assert(x_start + 1 <= x_end);
                        } else {
                            assert(x_start - 1 >= x_end);
                        }
                    }
                    if dist_x * dist_y > 0 {
                        x_start += 1;
                    } else {
                        x_start -= 1;
                    }
                    proof { t = t + 1; }
                    m_y += 2 * (a_dist_x - a_dist_y);
                }
                proof {
                    lemma_steep_offset(a_dist_x as int, a_dist_y as int, k, t, m_y as int);
                    assert(pts[k + 1] == line_step_point(x1 as int, y1 as int, x2 as int, y2 as int, k));
                    assert(pts[k + 1] == (x_start as int, y as int));
                    assert(plot_fits(w, len, pts[k + 1]));
                }
                let idx = y * self.width + x_start;
                self.b_buff[idx as usize].active = true;
                self.b_buff[idx as usize].col = col;
                proof {
                    lemma_paint_step(b0, w, pts, k + 1, col);
                }
                y += 1;
            }
        }
    }
    /// Appends one row-major sweep of blank pixels: `width * height` of them
    /// when both are positive, none otherwise.
    pub fn init_pbuff(&mut self)
        requires
            old(self).height > i32::MIN,
            old(self).height > 0 ==> old(self).width > i32::MIN,
        ensures
            final(self).p_buff@ == old(self).p_buff@ + Seq::new(
                grid_area(old(self).width as int, old(self).height as int) as nat,
                |k: int| blank_px(),
            ),
            final(self).f_buff == old(self).f_buff,
            final(self).b_buff == old(self).b_buff,
            final(self).width == old(self).width,
            final(self).height == old(self).height,
    {
        let ghost p0 = self.p_buff@;
        let ghost w = self.width as int;
        let ghost h = self.height as int;
        let last_row = self.height - 1;
        let mut j: i32 = 0;
        while j <= last_row
            invariant
                self.width == w,
                self.height == h,
                last_row == h - 1,
                self.f_buff == old(self).f_buff,
                self.b_buff == old(self).b_buff,
                p0 == old(self).p_buff@,
                h > 0 ==> w > i32::MIN,
                0 <= j,
                h > 0 ==> j <= h,
                h <= 0 ==> j == 0,
                self.p_buff@ == p0 + Seq::new(grid_area(w, j as int) as nat, |k: int| blank_px()),
            decreases h - j,
        {
            let last_col = self.width - 1;
            let mut i: i32 = 0;
            while i <= last_col
                invariant
                    self.width == w,
                    self.height == h,
                    last_row == h - 1,
                    last_col == w - 1,
                    self.f_buff == old(self).f_buff,
                    self.b_buff == old(self).b_buff,
                    p0 == old(self).p_buff@,
                    0 <= j < h,
                    0 <= i,
                    w > 0 ==> i <= w,
                    w <= 0 ==> i == 0,
                    self.p_buff@ == p0 + Seq::new((grid_area(w, j as int) + i) as nat, |k: int| blank_px()),
                decreases w - i,
            {
                let c = ansi_color { foreground: ColorValue::black, background: ColorValue::black };
                let p = px { has_col: false, col: c, char: ' ' };
                self.p_buff.push(p);
                proof {
                    assert(self.p_buff@ =~= p0 + Seq::new((grid_area(w, j as int) + i + 1) as nat, |k: int| blank_px()));
                }
                i += 1;
            }
            proof {
                if w > 0 {
                    assert(grid_area(w, j + 1) == grid_area(w, j as int) + w) by (nonlinear_arith)
                        requires
                            w > 0,
                            j >= 0,
                            grid_area(w, j + 1) == w * (j + 1),
                            grid_area(w, j as int) == if j > 0 { w * j } else { 0 },
                    ;
                } else {
                    assert(grid_area(w, j + 1) == 0);
                }
            }
            j += 1;
        }
    }

    /// Clears the first `width * height` pixels (none unless both are
    /// positive) to uncoloured black-on-black spaces; the rest stay as they were.
    pub fn reset_pbuff(&mut self)
        requires
            sweep_ok(old(self).width as int, old(self).height as int, old(self).p_buff@.len() as int),
        ensures
            final(self).p_buff@ == Seq::new(
                old(self).p_buff@.len(),
                |k: int|
                    if k < grid_area(old(self).width as int, old(self).height as int) {
                        blank_px()
                    } else {
                        old(self).p_buff@[k]
                    },
            ),
            final(self).f_buff == old(self).f_buff,
            final(self).b_buff == old(self).b_buff,
            final(self).width == old(self).width,
            final(self).height == old(self).height,
            old(self).frame_ready() ==> final(self).frame_ready(),
    {
        let ghost p0 = self.p_buff@;
        let ghost w = self.width as int;
        let ghost h = self.height as int;
        let last_row = self.height - 1;
        let mut j: i32 = 0;
        while j <= last_row
            invariant
                self.width == w,
                self.height == h,
                last_row == h - 1,
                self.f_buff == old(self).f_buff,
                self.b_buff == old(self).b_buff,
                p0 == old(self).p_buff@,
                sweep_ok(w, h, p0.len() as int),
                0 <= j,
                h > 0 ==> j <= h,
                h <= 0 ==> j == 0,
                self.p_buff@ == Seq::new(p0.len(), |k: int| if k < grid_area(w, j as int) { blank_px() } else { p0[k] }),
            decreases h - j,
        {
            let last_col = self.width - 1;
            let mut i: i32 = 0;
            while i <= last_col
                invariant
                    self.width == w,
                    self.height == h,
                    last_row == h - 1,
                    last_col == w - 1,
                    self.f_buff == old(self).f_buff,
                    self.b_buff == old(self).b_buff,
                    p0 == old(self).p_buff@,
                    sweep_ok(w, h, p0.len() as int),
                    0 <= j < h,
                    0 <= i,
                    w > 0 ==> i <= w,
                    w <= 0 ==> i == 0,
                    w > 0 ==> grid_area(w, j as int) == j * w,
                    self.p_buff@ == Seq::new(p0.len(), |k: int| if k < grid_area(w, j as int) + i { blank_px() } else { p0[k] }),
                decreases w - i,
            {
                proof {
                    lemma_cell_in_area(j as int, i as int, w, h);
                    assert(grid_area(w, h) == h * w) by (nonlinear_arith)
                        requires
                            w > 0,
                            h > 0,
                            grid_area(w, h) == w * h,
                    ;
                }
                let c = ansi_color { foreground: ColorValue::black, background: ColorValue::black };
                let p = px { has_col: false, col: c, char: ' ' };
                let idx = j * self.width + i;
                self.p_buff.set(idx as usize, p);
                proof {
                    assert(self.p_buff@ =~= Seq::new(p0.len(), |k: int| if k < grid_area(w, j as int) + i + 1 { blank_px() } else { p0[k] }));
                }
                i += 1;
            }
            proof {
                if w > 0 {
                    assert(grid_area(w, j + 1) == grid_area(w, j as int) + w) by (nonlinear_arith)
                        requires
                            w > 0,
                            j >= 0,
                            grid_area(w, j + 1) == w * (j + 1),
                            grid_area(w, j as int) == if j > 0 { w * j } else { 0 },
                    ;
                } else {
                    assert(grid_area(w, j + 1) == 0);
                }
                assert(self.p_buff@ =~= Seq::new(p0.len(), |k: int| if k < grid_area(w, j + 1) { blank_px() } else { p0[k] }));
            }
            j += 1;
        }
        proof {
            assert(self.p_buff@ =~= Seq::new(p0.len(), |k: int| if k < grid_area(w, h) { blank_px() } else { p0[k] }));
        }
    }
    /// Switches off the first `2 * height * width` cells of the bit buffer
    /// (none unless both are positive), keeping their colours; the rest stay.
    pub fn reset_bbuff(&mut self)
        requires
            doubled_rows_ok(old(self).height as int),
            sweep_ok(old(self).width as int, 2 * old(self).height, old(self).b_buff@.len() as int),
        ensures
            final(self).b_buff@ == Seq::new(
                old(self).b_buff@.len(),
                |k: int|
                    if k < grid_area(old(self).width as int, 2 * old(self).height) {
                        darkened(old(self).b_buff@[k])
                    } else {
                        old(self).b_buff@[k]
                    },
            ),
            final(self).f_buff == old(self).f_buff,
            final(self).p_buff == old(self).p_buff,
            final(self).width == old(self).width,
            final(self).height == old(self).height,
            old(self).frame_ready() ==> final(self).frame_ready(),
    {
        let ghost b0 = self.b_buff@;
        let ghost w = self.width as int;
        let ghost rows = 2 * self.height;
        let last_row = self.height * 2 - 1;
        let mut j: i32 = 0;
        while j <= last_row
            invariant
                self.width == w,
                self.height == old(self).height,
                rows == 2 * self.height,
                last_row == rows - 1,
                self.f_buff == old(self).f_buff,
                self.p_buff == old(self).p_buff,
                b0 == old(self).b_buff@,
                sweep_ok(w, rows, b0.len() as int),
                rows <= i32::MAX,
                0 <= j,
                rows > 0 ==> j <= rows,
                rows <= 0 ==> j == 0,
                self.b_buff@ == Seq::new(b0.len(), |k: int| if k < grid_area(w, j as int) { darkened(b0[k]) } else { b0[k] }),
            decreases rows - j,
        {
            let last_col = self.width - 1;
            let mut i: i32 = 0;
            while i <= last_col
                invariant
                    self.width == w,
                    self.height == old(self).height,
                    rows == 2 * self.height,
                    last_row == rows - 1,
                    last_col == w - 1,
                    self.f_buff == old(self).f_buff,
                    self.p_buff == old(self).p_buff,
                    b0 == old(self).b_buff@,
                    sweep_ok(w, rows, b0.len() as int),
                    0 <= j < rows,
                    0 <= i,
                    w > 0 ==> i <= w,
                    w <= 0 ==> i == 0,
                    w > 0 ==> grid_area(w, j as int) == j * w,
                    self.b_buff@ == Seq::new(b0.len(), |k: int| if k < grid_area(w, j as int) + i { darkened(b0[k]) } else { b0[k] }),
                decreases w - i,
            {
                proof {
                    lemma_cell_in_area(j as int, i as int, w, rows);
                    lemma_area_rows(w, rows);
                }
                let idx = j * self.width + i;
                self.b_buff[idx as usize].active = false;
                proof {
                    assert(self.b_buff@ =~= Seq::new(b0.len(), |k: int| if k < grid_area(w, j as int) + i + 1 { darkened(b0[k]) } else { b0[k] }));
                }
                i += 1;
            }
            proof {
                lemma_area_step(w, j as int);
                if w > 0 {
                    lemma_area_rows(w, j + 1);
                }
                assert(self.b_buff@ =~= Seq::new(b0.len(), |k: int| if k < grid_area(w, j + 1) { darkened(b0[k]) } else { b0[k] }));
            }
            j += 1;
        }
        proof {
            assert(self.b_buff@ =~= Seq::new(b0.len(), |k: int| if k < grid_area(w, rows) { darkened(b0[k]) } else { b0[k] }));
        }
    }

    /// The frame's text: for each of the first `width * height` pixels in
    /// row-major order, its coloured form if it has a colour, a space if not.
    pub fn px_to_string(&mut self) -> (s: String)
        requires
            sweep_ok(old(self).width as int, old(self).height as int, old(self).p_buff@.len() as int),
        ensures
            s@ == frame_text(old(self).p_buff@, grid_area(old(self).width as int, old(self).height as int)),
            *final(self) == *old(self),
    {
        let ghost w = self.width as int;
        let ghost h = self.height as int;
        let mut str_buff = String::new();
        let last_row = self.height - 1;
        let mut j: i32 = 0;
        while j <= last_row
            invariant
                self == old(self),
                w == self.width,
                h == self.height,
                last_row == h - 1,
                sweep_ok(w, h, self.p_buff@.len() as int),
                0 <= j,
                h > 0 ==> j <= h,
                h <= 0 ==> j == 0,
                str_buff@ == frame_text(self.p_buff@, grid_area(w, j as int)),
            decreases h - j,
        {
            let last_col = self.width - 1;
            let mut i: i32 = 0;
            while i <= last_col
                invariant
                    self == old(self),
                    w == self.width,
                    h == self.height,
                    last_row == h - 1,
                    last_col == w - 1,
                    sweep_ok(w, h, self.p_buff@.len() as int),
                    0 <= j < h,
                    0 <= i,
                    w > 0 ==> i <= w,
                    w <= 0 ==> i == 0,
                    w > 0 ==> grid_area(w, j as int) == j * w,
                    str_buff@ == frame_text(self.p_buff@, grid_area(w, j as int) + i),
                decreases w - i,
            {
                proof {
                    lemma_cell_in_area(j as int, i as int, w, h);
                    lemma_area_rows(w, h);
                }
                let idx = j * self.width + i;
                let ghost before = str_buff@;
                if self.p_buff[idx as usize].has_col {
                    push_px(&mut str_buff, &self.p_buff[idx as usize]);
                } else {
                    push_char(&mut str_buff, ' ');
                }
                proof {
                    assert(str_buff@ =~= before + px_frame_text(self.p_buff@[idx as int]));
                }
                i += 1;
            }
            proof {
                lemma_area_step(w, j as int);
                if w > 0 {
                    lemma_area_rows(w, j + 1);
                } else {
                    assert(frame_text(self.p_buff@, 0) == Seq::<char>::empty());
                }
            }
            j += 1;
        }
        str_buff
    }
    /// Folds the bit buffer into the pixel buffer: each lit cell of bit row
    /// `j` colours pixel row `j / 2` with the half-block glyph, an even row
    /// setting the foreground, an odd row the background (`folded`).
    pub fn bits_to_px(&mut self)
        requires
            doubled_rows_ok(old(self).height as int),
            sweep_ok(old(self).width as int, 2 * old(self).height, old(self).b_buff@.len() as int),
            fold_fits(old(self).p_buff@.len() as int, old(self).b_buff@, old(self).width as int, old(self).height as int),
        ensures
            final(self).p_buff@ == folded(
                old(self).p_buff@,
                old(self).b_buff@,
                old(self).width as int,
                old(self).height as int,
            ),
            final(self).f_buff == old(self).f_buff,
            final(self).b_buff == old(self).b_buff,
            final(self).width == old(self).width,
            final(self).height == old(self).height,
            old(self).frame_ready() ==> final(self).frame_ready(),
    {
        let ghost p0 = self.p_buff@;
        let ghost b = self.b_buff@;
        let ghost w = self.width as int;
        let ghost h = self.height as int;
        let ghost rows = 2 * h;
        proof {
            if w > 0 && h > 0 {
                lemma_fold_ends(p0, b, w, h);
            }
        }
        let last_row = self.height * 2 - 1;
        let mut j: i32 = 0;
        while j <= last_row
            invariant
                self.width == w,
                self.height == h,
                rows == 2 * h,
                last_row == rows - 1,
                self.f_buff == old(self).f_buff,
                self.b_buff == old(self).b_buff,
                b == self.b_buff@,
                p0 == old(self).p_buff@,
                sweep_ok(w, rows, b.len() as int),
                fold_fits(p0.len() as int, b, w, h),
                rows <= i32::MAX,
                0 <= j,
                rows > 0 ==> j <= rows,
                rows <= 0 ==> j == 0,
                w > 0 && h > 0 ==> self.p_buff@ == folded_upto(p0, b, w, h, grid_area(w, j as int)),
                w <= 0 || h <= 0 ==> self.p_buff@ == p0,
            decreases rows - j,
        {
            let last_col = self.width - 1;
            let mut i: i32 = 0;
            while i <= last_col
                invariant
                    self.width == w,
                    self.height == h,
                    rows == 2 * h,
                    last_row == rows - 1,
                    last_col == w - 1,
                    self.f_buff == old(self).f_buff,
                    self.b_buff == old(self).b_buff,
                    b == self.b_buff@,
                    p0 == old(self).p_buff@,
                    sweep_ok(w, rows, b.len() as int),
                    fold_fits(p0.len() as int, b, w, h),
                    0 <= j < rows,
                    0 <= i,
                    w > 0 ==> i <= w,
                    w <= 0 ==> i == 0,
                    w > 0 ==> grid_area(w, j as int) == j * w,
                    w > 0 ==> self.p_buff@ == folded_upto(p0, b, w, h, grid_area(w, j as int) + i),
                    w <= 0 ==> self.p_buff@ == p0,
                decreases w - i,
            {
                proof {
                    lemma_cell_in_area(j as int, i as int, w, rows);
                    lemma_area_rows(w, rows);
                    assert(grid_area(w, rows) == 2 * grid_area(w, h)) by (nonlinear_arith)
                        requires
                            w > 0,
                            h > 0,
                            rows == 2 * h,
                            grid_area(w, rows) == w * rows,
                            grid_area(w, h) == w * h,
                    ;
                    lemma_fold_step(p0, b, w, h, j as int, i as int);
                }
                let idx = j * self.width + i;
                if self.b_buff[idx as usize].active {
                    proof {
                        let n = j * w + i;
                        vstd::arithmetic::div_mod::lemma_fundamental_div_mod_converse(n, w, j as int, i as int);
                        assert(pixel_above(w, n) == (j / 2) * w + i);
                        assert(b[n].active);
                    }
                    let pidx = (j / 2) * self.width + i;
                    let cell_col = self.b_buff[idx as usize].col;
                    self.p_buff[pidx as usize].has_col = true;
                    self.p_buff[pidx as usize].char = '\u{2580}';
                    if j % 2 == 1 {
                        self.p_buff[pidx as usize].col.background = cell_col;
                    } else {
                        self.p_buff[pidx as usize].col.foreground = cell_col;
                    }
                }
                proof {
                    assert(self.p_buff@ =~= folded_upto(p0, b, w, h, grid_area(w, j as int) + i + 1));
                }
                i += 1;
            }
            proof {
                lemma_area_step(w, j as int);
                if w > 0 {
                    lemma_area_rows(w, j + 1);
                }
            }
            j += 1;
        }
        proof {
            if w > 0 && h > 0 {
                assert(grid_area(w, rows) == 2 * grid_area(w, h)) by (nonlinear_arith)
                    requires
                        w > 0,
                        h > 0,
                        rows == 2 * h,
                        grid_area(w, rows) == w * rows,
                        grid_area(w, h) == w * h,
                ;
            } else {
                assert(p0 =~= folded(p0, b, w, h));
            }
        }
    }
    /// Lights in green every cell of the first `2 * height` bit rows whose
    /// squared distance from `(cx, cy)` is at most `radius * radius` (`disc`).
    pub fn draw_circle(&mut self, radius: i16, cx: i32, cy: i32)
        requires
            -181 <= radius <= 181,
            doubled_rows_ok(old(self).height as int),
            sweep_ok(old(self).width as int, 2 * old(self).height, old(self).b_buff@.len() as int),
            disc_fits(old(self).width as int, 2 * old(self).height, cx as int, cy as int),
        ensures
            final(self).b_buff@ == disc(
                old(self).b_buff@,
                old(self).width as int,
                old(self).height as int,
                cx as int,
                cy as int,
                radius as int,
                grid_area(old(self).width as int, 2 * old(self).height),
            ),
            final(self).f_buff == old(self).f_buff,
            final(self).p_buff == old(self).p_buff,
            final(self).width == old(self).width,
            final(self).height == old(self).height,
            old(self).frame_ready() ==> final(self).frame_ready(),
    {
        let ghost b0 = self.b_buff@;
        let ghost w = self.width as int;
        let ghost h = self.height as int;
        let ghost rows = 2 * h;
        proof {
            assert(-32768 <= radius * radius <= 32767) by (nonlinear_arith)
                requires
                    -181 <= radius <= 181,
            ;
        }
        let r2: i32 = (radius * radius) as i32;
        let last_row = self.height * 2 - 1;
        let mut j: i32 = 0;
        proof {
            assert(self.b_buff@ =~= disc(b0, w, h, cx as int, cy as int, radius as int, 0));
        }
        while j <= last_row
            invariant
                self.width == w,
                self.height == h,
                rows == 2 * h,
                last_row == rows - 1,
                r2 == radius * radius,
                self.f_buff == old(self).f_buff,
                self.p_buff == old(self).p_buff,
                b0 == old(self).b_buff@,
                sweep_ok(w, rows, b0.len() as int),
                disc_fits(w, rows, cx as int, cy as int),
                rows <= i32::MAX,
                0 <= j,
                rows > 0 ==> j <= rows,
                rows <= 0 ==> j == 0,
                self.b_buff@ == disc(b0, w, h, cx as int, cy as int, radius as int, grid_area(w, j as int)),
            decreases rows - j,
        {
            let last_col = self.width - 1;
            let mut i: i32 = 0;
            while i <= last_col
                invariant
                    self.width == w,
                    self.height == h,
                    rows == 2 * h,
                    last_row == rows - 1,
                    last_col == w - 1,
                    r2 == radius * radius,
                    self.f_buff == old(self).f_buff,
                    self.p_buff == old(self).p_buff,
                    b0 == old(self).b_buff@,
                    sweep_ok(w, rows, b0.len() as int),
                    disc_fits(w, rows, cx as int, cy as int),
                    0 <= j < rows,
                    0 <= i,
                    w > 0 ==> i <= w,
                    w <= 0 ==> i == 0,
                    w > 0 ==> grid_area(w, j as int) == j * w,
                    self.b_buff@ == disc(b0, w, h, cx as int, cy as int, radius as int, grid_area(w, j as int) + i),
                decreases w - i,
            {
                proof {
                    lemma_cell_in_area(j as int, i as int, w, rows);
                    lemma_area_rows(w, rows);
                    assert(grid_area(w, rows) > 0) by (nonlinear_arith)
                        requires
                            w > 0,
                            rows > 0,
                            grid_area(w, rows) == w * rows,
                    ;
                    let rx = axis_reach(cx as int, w);
                    let ry = axis_reach(cy as int, rows);
                    assert(rx * rx <= i32::MAX && ry * ry <= i32::MAX) by (nonlinear_arith)
                        requires
                            rx * rx + ry * ry <= i32::MAX,
                    ;
                    lemma_square_bound(i - cx, rx);
                    lemma_square_bound(j - cy, ry);
                    assert((i - cx) * (i - cx) + (j - cy) * (j - cy) <= i32::MAX);
                }
                let dx = i - cx;
                let dy = j - cy;
                let dist2 = dx * dx + dy * dy;
                let ghost n = j * w + i;
                proof {
                    vstd::arithmetic::div_mod::lemma_fundamental_div_mod_converse(n, w, j as int, i as int);
                }
                if dist2 <= r2 {
                    let idx = j * self.width + i;
                    self.b_buff[idx as usize].active = true;
                    self.b_buff[idx as usize].col = ColorValue::green;
                    proof {
                        assert(in_disc(n % w, n / w, cx as int, cy as int, radius as int));
                    }
                }
                proof {
                    assert(self.b_buff@ =~= disc(b0, w, h, cx as int, cy as int, radius as int, grid_area(w, j as int) + i + 1));
                }
                i += 1;
            }
            proof {
                lemma_area_step(w, j as int);
                if w > 0 {
                    lemma_area_rows(w, j + 1);
                } else {
                    assert(self.b_buff@ =~= disc(b0, w, h, cx as int, cy as int, radius as int, grid_area(w, j + 1)));
                }
            }
            j += 1;
        }
    }
    /// Writes `text` into the pixel buffer as white-on-black pixels, each
    /// character at the index of the byte where it starts in `text`'s UTF-8
    /// encoding (`written`).
    pub fn draw_string(&mut self, text: String)
        requires
            text@.len() > 0 ==> byte_offset(text@, text@.len() - 1) < old(self).p_buff@.len(),
        ensures
            final(self).p_buff@ == written(old(self).p_buff@, text@, text@.len() as int),
            final(self).f_buff == old(self).f_buff,
            final(self).b_buff == old(self).b_buff,
            final(self).width == old(self).width,
            final(self).height == old(self).height,
            old(self).frame_ready() ==> final(self).frame_ready(),
    {
        let ghost s = text@;
        let ghost p0 = self.p_buff@;
        let plen = self.p_buff.len();
        let mut i: usize = 0;
        let mut pending: usize = 0;
        proof {
            lemma_offset_zero(s);
        }
        for c in it: text.as_str().chars()
            invariant
                s == text@,
                p0 == old(self).p_buff@,
                plen == p0.len(),
                s.len() > 0 ==> byte_offset(s, s.len() - 1) < p0.len(),
                self.p_buff@.len() == p0.len(),
                self.f_buff == old(self).f_buff,
                self.b_buff == old(self).b_buff,
                self.width == old(self).width,
                self.height == old(self).height,
                it.seq() == s,
                0 <= it.index() <= s.len(),
                i + pending == byte_offset(s, it.index() as int),
                self.p_buff@ == written(p0, s, it.index() as int),
        {
            let ghost k = it.index() as int;
            proof {
                lemma_offset_order(s, k, s.len() - 1);
            }
            i = i + pending;
            self.p_buff[i].has_col = true;
            self.p_buff[i].col = ansi_color { foreground: ColorValue::white, background: ColorValue::black };
            self.p_buff[i].char = c;
            pending = utf8_width(c);
            proof {
                lemma_offset_step(s, k);
                assert(self.p_buff@ =~= written(p0, s, k + 1));
            }
        }
    }

    /// Draws the three sides of a triangle, `(x1, y1)` to `(x2, y2)`, then
    /// `(x2, y2)` to `(x3, y3)`, then `(x3, y3)` back to `(x1, y1)`.
    pub fn draw_triangle(&mut self, x1: i32, y1: i32, x2: i32, y2: i32, x3: i32, y3: i32, col: ColorValue)
        requires
            line_fits(old(self).width as int, old(self).b_buff@.len() as int, x1 as int, y1 as int, x2 as int, y2 as int),
            line_fits(old(self).width as int, old(self).b_buff@.len() as int, x2 as int, y2 as int, x3 as int, y3 as int),
            line_fits(old(self).width as int, old(self).b_buff@.len() as int, x3 as int, y3 as int, x1 as int, y1 as int),
        ensures
            final(self).b_buff@ == triangle_painted(
                old(self).b_buff@,
                old(self).width as int,
                x1 as int,
                y1 as int,
                x2 as int,
                y2 as int,
                x3 as int,
                y3 as int,
                col,
            ),
            final(self).f_buff == old(self).f_buff,
            final(self).p_buff == old(self).p_buff,
            final(self).width == old(self).width,
            final(self).height == old(self).height,
            old(self).frame_ready() ==> final(self).frame_ready(),
    {
        self.draw_line(x1, y1, x2, y2, col);
        self.draw_line(x2, y2, x3, y3, col);
        self.draw_line(x3, y3, x1, y1, col);
    }
}

/// Whether plotting `(x, y)` fits (`plot_fits`) in a buffer `w` wide holding `len` cells.
fn plot_fits_exec(w: i64, len: usize, x: i64, y: i64) -> (ok: bool)
    requires
        -0x8000_0000 <= w <= 0x7fff_ffff,
        -0xC000_0000 <= x <= 0xC000_0000,
        -0xC000_0000 <= y <= 0xC000_0000,
    ensures
        ok == plot_fits(w as int, len as int, (x as int, y as int)),
{
    proof {
        assert(-0x6000_0000_0000_0000 <= y * w <= 0x6000_0000_0000_0000) by (nonlinear_arith)
            requires
                -0x8000_0000 <= w <= 0x8000_0000,
                -0xC000_0000 <= y <= 0xC000_0000,
        ;
    }
    let row = y * w;
    if row < -0x8000_0000 || row > 0x7fff_ffff {
        return false;
    }
    let idx = row + x;
    if idx < 0 || idx > 0x7fff_ffff {
        return false;
    }
    (idx as usize) < len
}

/// The bit buffer after drawing the three sides of a triangle, in order.
pub open spec fn triangle_painted(
    b: Seq<cell>,
    w: int,
    x1: int,
    y1: int,
    x2: int,
    y2: int,
    x3: int,
    y3: int,
    col: ColorValue,
) -> Seq<cell> {
    paint(
        paint(paint(b, w, line_points(x1, y1, x2, y2), col), w, line_points(x2, y2, x3, y3), col),
        w,
        line_points(x3, y3, x1, y1),
        col,
    )
}

/// The bit buffer after lighting in green those of its first `n` cells
/// (row-major, `w` per row) that lie in the disc of `radius` about `(cx, cy)`.
pub open spec fn disc(b: Seq<cell>, w: int, h: int, cx: int, cy: int, radius: int, n: int) -> Seq<cell> {
    Seq::new(
        b.len(),
        |k: int|
            if k < n && in_disc(k % w, k / w, cx, cy, radius) {
                lit_cell(ColorValue::green)
            } else {
                b[k]
            },
    )
}

} // verus!
