use vstd::prelude::*;

use crate::color::{ansi_color, color_pair_text, push_background, push_foreground, ColorValue};
use crate::text::{byte_offset, push_char};

verus! {

/// One cell of the bit buffer: whether it is lit, and in which colour.
#[derive(Copy, Clone, Debug, PartialEq, Eq, Structural)]
pub struct cell {
    pub active: bool,
    pub col: ColorValue,
}

/// One terminal character: whether it is coloured, its colours and its glyph.
#[derive(Copy, Clone, Debug, PartialEq, Eq, Structural)]
pub struct px {
    pub has_col: bool,
    pub col: ansi_color,
    pub char: char,
}

/// The cell that a fresh bit buffer holds: dark and black.
pub open spec fn dark_cell() -> cell {
    cell { active: false, col: ColorValue::black }
}

/// A lit cell of the given colour.
pub open spec fn lit_cell(col: ColorValue) -> cell {
    cell { active: true, col }
}

/// The pixel that a cleared pixel buffer holds: uncoloured, black on black, a space.
pub open spec fn blank_px() -> px {
    px {
        has_col: false,
        col: ansi_color { foreground: ColorValue::black, background: ColorValue::black },
        char: ' ',
    }
}

/// The escape sequence that resets all attributes: `ESC[0m`.
pub open spec fn reset_text() -> Seq<char> {
    seq!['\x1B', '[', '0', 'm']
}

/// A pixel written out with its colours: colour selection, glyph, reset.
pub open spec fn px_colored_text(p: px) -> Seq<char> {
    color_pair_text(p.col) + seq![p.char] + reset_text()
}

/// What a pixel contributes to a frame: its coloured form, or a space when it
/// has no colour.
pub open spec fn px_frame_text(p: px) -> Seq<char> {
    if p.has_col {
        px_colored_text(p)
    } else {
        seq![' ']
    }
}

/// The pixel that text is written with: white on black, showing `c`.
pub open spec fn text_px(c: char) -> px {
    px {
        has_col: true,
        col: ansi_color { foreground: ColorValue::white, background: ColorValue::black },
        char: c,
    }
}

/// The pixel buffer after writing the first `n` characters of `s`, each at
/// the byte position where it starts in the UTF-8 encoding of `s`.
pub open spec fn written(p: Seq<px>, s: Seq<char>, n: int) -> Seq<px>
    decreases n,
{
    if n <= 0 {
        p
    } else {
        written(p, s, n - 1).update(byte_offset(s, n - 1), text_px(s[n - 1]))
    }
}

/// The text of the first `n` pixels of a frame, in order.
pub open spec fn frame_text(p: Seq<px>, n: int) -> Seq<char>
    decreases n,
{
    if n <= 0 {
        seq![]
    } else {
        frame_text(p, n - 1) + px_frame_text(p[n - 1])
    }
}

/// A cell switched off, keeping its colour.
pub open spec fn darkened(c: cell) -> cell {
    cell { active: false, col: c.col }
}

pub(crate) fn blank() -> (p: px)
    ensures
        p == blank_px(),
{
    px {
        has_col: false,
        col: ansi_color { foreground: ColorValue::black, background: ColorValue::black },
        char: ' ',
    }
}

pub(crate) fn dark() -> (c: cell)
    ensures
        c == dark_cell(),
{
    cell { active: false, col: ColorValue::black }
}

/// Appends a pixel's coloured form.
pub(crate) fn push_px(s: &mut String, p: &px)
    ensures
        final(s)@ == old(s)@ + px_colored_text(*p),
{
    let ghost start = s@;
    push_foreground(s, &p.col);
    push_background(s, &p.col);
    push_char(s, p.char);
    push_char(s, '\x1B');
    push_char(s, '[');
    push_char(s, '0');
    push_char(s, 'm');
    assert(s@ =~= start + px_colored_text(*p));
}

impl px {
    /// The pixel written out with its colours: colour selection, glyph, reset.
    pub fn to_string(&self) -> (s: String)
        ensures
            s@ == px_colored_text(*self),
    {
        let mut s = String::new();
        push_px(&mut s, self);
        assert(s@ =~= px_colored_text(*self));
        s
    }
}

} // verus!
