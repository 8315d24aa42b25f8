use termrender::color::{ansi_color, background_escape, foreground_escape, ColorValue};
use termrender::pixel::{cell, px};
use termrender::renderer::Renderer;

fn lit_indices(r: &Renderer) -> Vec<usize> {
    let mut v = Vec::new();
    for (i, c) in r.b_buff.iter().enumerate() {
        if c.active {
            v.push(i);
        }
    }
    v
}

fn ready(w: i32, h: i32) -> Renderer {
    let mut r = Renderer::new(w, h);
    r.init_pbuff();
    r
}

#[test]
fn new_sizes_buffers() {
    let r = Renderer::new(4, 3);
    assert_eq!(r.width, 4);
    assert_eq!(r.height, 3);
    assert_eq!(r.f_buff, vec![0u8; 12]);
    assert_eq!(r.b_buff.len(), 24);
    assert!(r.b_buff.iter().all(|c| *c == cell { active: false, col: ColorValue::black }));
    assert!(r.p_buff.is_empty());
}

#[test]
fn init_pbuff_fills_blank_pixels() {
    let r = ready(4, 3);
    assert_eq!(r.p_buff.len(), 12);
    let blank = px {
        has_col: false,
        col: ansi_color { foreground: ColorValue::black, background: ColorValue::black },
        char: ' ',
    };
    assert!(r.p_buff.iter().all(|p| *p == blank));
    assert!(r.is_frame_ready());
}

#[test]
fn init_pbuff_with_no_rows_adds_nothing() {
    let mut r = Renderer::new(0, 5);
    r.init_pbuff();
    assert!(r.p_buff.is_empty());
    assert!(!r.is_frame_ready());
    let mut n = Renderer::new(-2, -3);
    n.init_pbuff();
    assert!(n.p_buff.is_empty());
    assert_eq!(n.b_buff.len(), 12);
}

#[test]
fn color_codes_and_escapes() {
    assert_eq!(ColorValue::black.code(), 0);
    assert_eq!(ColorValue::bright_blue.code(), 12);
    assert_eq!(ColorValue::white.code(), 15);
    let c = ansi_color { foreground: ColorValue::bright_blue, background: ColorValue::yellow };
    assert_eq!(c.to_string(), "\x1b[38;5;12m\x1b[48;5;3m");
    assert_eq!(foreground_escape(&c), "\x1b[38;5;12m");
    assert_eq!(background_escape(&c), "\x1b[48;5;3m");
}

#[test]
fn px_to_string_of_one_pixel() {
    let p = px {
        has_col: true,
        col: ansi_color { foreground: ColorValue::white, background: ColorValue::black },
        char: 'A',
    };
    assert_eq!(p.to_string(), "\x1b[38;5;15m\x1b[48;5;0mA\x1b[0m");
}

#[test]
fn blank_frame_renders_as_spaces() {
    let mut r = ready(3, 2);
    assert_eq!(r.px_to_string(), "      ");
}

#[test]
fn frame_renders_coloured_pixels_in_place() {
    let mut r = ready(3, 1);
    r.draw_string(String::from("Hi"));
    assert_eq!(
        r.px_to_string(),
        "\x1b[38;5;15m\x1b[48;5;0mH\x1b[0m\x1b[38;5;15m\x1b[48;5;0mi\x1b[0m "
    );
}

#[test]
fn draw_string_places_ascii_by_index() {
    let mut r = ready(5, 1);
    r.draw_string(String::from("ab"));
    assert_eq!(r.p_buff[0].char, 'a');
    assert_eq!(r.p_buff[1].char, 'b');
    assert!(r.p_buff[0].has_col);
    assert_eq!(r.p_buff[0].col.foreground, ColorValue::white);
    assert_eq!(r.p_buff[0].col.background, ColorValue::black);
    assert!(!r.p_buff[2].has_col);
}

#[test]
fn draw_string_places_by_byte_offset() {
    let mut r = ready(5, 1);
    r.draw_string(String::from("a\u{e9}b"));
    assert_eq!(r.p_buff[0].char, 'a');
    assert_eq!(r.p_buff[1].char, '\u{e9}');
    assert!(!r.p_buff[2].has_col);
    assert_eq!(r.p_buff[3].char, 'b');
}

#[test]
fn horizontal_line_stops_before_far_end() {
    let mut r = ready(4, 1);
    assert!(r.can_draw_line(0, 0, 3, 0));
    r.draw_line(0, 0, 3, 0, ColorValue::red);
    assert_eq!(lit_indices(&r), vec![0, 1, 2]);
    assert_eq!(r.b_buff[1], cell { active: true, col: ColorValue::red });
}

#[test]
fn diagonal_line() {
    let mut r = ready(4, 2);
    r.draw_line(0, 0, 3, 3, ColorValue::blue);
    // (0,0), (0,1), (1,2), (2,3)
    assert_eq!(lit_indices(&r), vec![0, 4, 9, 14]);
}

#[test]
fn steep_line() {
    let mut r = ready(6, 3);
    r.draw_line(2, 0, 0, 5, ColorValue::cyan);
    // (2,0), (1,1), (1,2), (0,3), (0,4)
    assert_eq!(lit_indices(&r), vec![2, 7, 13, 18, 24]);
}

#[test]
fn line_is_the_same_drawn_either_way() {
    let mut a = ready(6, 3);
    let mut b = ready(6, 3);
    a.draw_line(0, 2, 5, 0, ColorValue::green);
    b.draw_line(5, 0, 0, 2, ColorValue::green);
    assert_eq!(a.b_buff, b.b_buff);
    // (0,2), (1,1), (2,1), (3,0), (4,0)
    assert_eq!(lit_indices(&a), vec![3, 4, 7, 8, 12]);
}

#[test]
fn line_leaving_the_buffer_cannot_be_drawn() {
    let r = ready(4, 1);
    assert!(!r.can_draw_line(0, 0, 0, 9));
    assert!(!r.can_draw_line(-1, 0, 2, 0));
    assert!(r.can_draw_line(0, 1, 3, 1));
    // row-major wrap-around: column -1 of row 1 is the last cell of row 0
    assert!(r.can_draw_line(-1, 1, -1, 1));
    assert!(!r.can_draw_line(i32::MIN, 0, i32::MAX, 0));
}

#[test]
fn triangle_draws_three_sides() {
    let mut r = ready(4, 2);
    r.draw_triangle(0, 0, 3, 0, 0, 3, ColorValue::magenta);
    // sides (0,0)-(3,0): (0,0),(1,0),(2,0) ; (3,0)-(0,3): (0,3),(0,2),(1,1),(2,0) ;
    // (0,3)-(0,0): (0,0),(0,1),(0,2)
    assert_eq!(lit_indices(&r), vec![0, 1, 2, 4, 5, 8, 12]);
    let mut s = ready(4, 2);
    s.draw_triangle(3, 0, 0, 3, 0, 0, ColorValue::magenta);
    assert_eq!(r.b_buff, s.b_buff);
    let mut t = ready(4, 2);
    t.draw_triangle(0, 0, 0, 3, 3, 0, ColorValue::magenta);
    assert_eq!(r.b_buff, t.b_buff);
}

#[test]
fn circle_lights_cells_within_radius() {
    let mut r = ready(5, 3);
    r.draw_circle(1, 2, 2);
    // rows 0..6, centre (2,2): (2,1), (1,2), (2,2), (3,2), (2,3)
    assert_eq!(lit_indices(&r), vec![7, 11, 12, 13, 17]);
    assert_eq!(r.b_buff[12].col, ColorValue::green);
}

#[test]
fn circle_of_radius_zero_lights_centre_only() {
    let mut r = ready(3, 2);
    r.draw_circle(0, 1, 1);
    assert_eq!(lit_indices(&r), vec![4]);
}

#[test]
fn bits_to_px_folds_two_rows_into_one() {
    let mut r = ready(2, 1);
    r.b_buff[0] = cell { active: true, col: ColorValue::red };
    r.b_buff[3] = cell { active: true, col: ColorValue::blue };
    r.bits_to_px();
    assert!(r.p_buff[0].has_col);
    assert_eq!(r.p_buff[0].char, '\u{2580}');
    assert_eq!(r.p_buff[0].col.foreground, ColorValue::red);
    assert_eq!(r.p_buff[0].col.background, ColorValue::black);
    assert!(r.p_buff[1].has_col);
    assert_eq!(r.p_buff[1].col.foreground, ColorValue::black);
    assert_eq!(r.p_buff[1].col.background, ColorValue::blue);
    assert_eq!(r.px_to_string(), "\x1b[38;5;1m\x1b[48;5;0m\u{2580}\x1b[0m\x1b[38;5;0m\x1b[48;5;4m\u{2580}\x1b[0m");
}

#[test]
fn reset_bbuff_darkens_keeping_colours() {
    let mut r = ready(3, 1);
    r.draw_line(0, 1, 2, 1, ColorValue::yellow);
    r.reset_bbuff();
    assert!(lit_indices(&r).is_empty());
    assert_eq!(r.b_buff[3].col, ColorValue::yellow);
    let before = r.p_buff.clone();
    r.bits_to_px();
    assert_eq!(r.p_buff, before);
}

#[test]
fn reset_pbuff_blanks_pixels() {
    let mut r = ready(3, 1);
    r.draw_string(String::from("xyz"));
    r.reset_pbuff();
    assert_eq!(r.px_to_string(), "   ");
}

#[test]
fn frame_ready_survives_a_frame() {
    let mut r = ready(8, 4);
    r.reset_pbuff();
    r.reset_bbuff();
    r.draw_triangle(0, 2, 7, 2, 3, 7, ColorValue::blue);
    r.draw_string(String::from("ok"));
    r.bits_to_px();
    let s = r.px_to_string();
    assert!(s.starts_with("\x1b[38;5;15m\x1b[48;5;0mo\x1b[0m"));
    assert!(r.is_frame_ready());
}

#[test]
fn drawing_a_line_twice_changes_nothing_more() {
    let mut once = ready(6, 3);
    once.draw_line(1, 5, 4, 0, ColorValue::red);
    let mut twice = ready(6, 3);
    twice.draw_line(1, 5, 4, 0, ColorValue::red);
    twice.draw_line(1, 5, 4, 0, ColorValue::red);
    assert_eq!(once.b_buff, twice.b_buff);
}

#[test]
fn lines_between_cells_of_the_frame_fit() {
    let w: i32 = 5;
    let rows: i32 = 6;
    let mut r = ready(w, rows / 2);
    for x1 in 0..w {
        for y1 in 0..rows {
            for x2 in 0..w {
                for y2 in 0..rows {
                    assert!(r.can_draw_line(x1, y1, x2, y2));
                    r.draw_line(x1, y1, x2, y2, ColorValue::gray);
                    let start = (y1 * w + x1) as usize;
                    let end = (y2 * w + x2) as usize;
                    assert!(r.b_buff[start].active || r.b_buff[end].active);
                }
            }
        }
    }
    assert_eq!(r.b_buff.len(), 30);
}
