use vstd::prelude::*;

use crate::text::{decimal, push_char, push_decimal};

verus! {

/// The sixteen colours of the ANSI 256-colour palette's first block.
#[derive(Copy, Clone, Debug, PartialEq, Eq, Structural)]
pub enum ColorValue {
    black,
    red,
    green,
    yellow,
    blue,
    magenta,
    cyan,
    gray,
    dark_gray,
    bright_red,
    bright_green,
    bright_yellow,
    bright_blue,
    bright_magenta,
    bright_cyan,
    white,
}

/// The palette number of a colour.
pub open spec fn color_code(c: ColorValue) -> nat {
    match c {
        ColorValue::black => 0,
        ColorValue::red => 1,
        ColorValue::green => 2,
        ColorValue::yellow => 3,
        ColorValue::blue => 4,
        ColorValue::magenta => 5,
        ColorValue::cyan => 6,
        ColorValue::gray => 7,
        ColorValue::dark_gray => 8,
        ColorValue::bright_red => 9,
        ColorValue::bright_green => 10,
        ColorValue::bright_yellow => 11,
        ColorValue::bright_blue => 12,
        ColorValue::bright_magenta => 13,
        ColorValue::bright_cyan => 14,
        ColorValue::white => 15,
    }
}

impl ColorValue {
    /// The palette number of this colour.
    pub fn code(&self) -> (n: u8)
        ensures
            n == color_code(*self),
    {
        match self {
            ColorValue::black => 0,
            ColorValue::red => 1,
            ColorValue::green => 2,
            ColorValue::yellow => 3,
            ColorValue::blue => 4,
            ColorValue::magenta => 5,
            ColorValue::cyan => 6,
            ColorValue::gray => 7,
            ColorValue::dark_gray => 8,
            ColorValue::bright_red => 9,
            ColorValue::bright_green => 10,
            ColorValue::bright_yellow => 11,
            ColorValue::bright_blue => 12,
            ColorValue::bright_magenta => 13,
            ColorValue::bright_cyan => 14,
            ColorValue::white => 15,
        }
    }
}

/// A foreground and a background colour.
#[derive(Copy, Clone, Debug, PartialEq, Eq, Structural)]
pub struct ansi_color {
    pub foreground: ColorValue,
    pub background: ColorValue,
}

/// The escape sequence that selects `c` as the foreground colour: `ESC[38;5;<code>m`.
pub open spec fn foreground_escape_text(c: ColorValue) -> Seq<char> {
    seq!['\x1B', '[', '3', '8', ';', '5', ';'] + decimal(color_code(c)) + seq!['m']
}

/// The escape sequence that selects `c` as the background colour: `ESC[48;5;<code>m`.
pub open spec fn background_escape_text(c: ColorValue) -> Seq<char> {
    seq!['\x1B', '[', '4', '8', ';', '5', ';'] + decimal(color_code(c)) + seq!['m']
}

/// The escape sequences that select both colours of a pair, foreground first.
pub open spec fn color_pair_text(col: ansi_color) -> Seq<char> {
    foreground_escape_text(col.foreground) + background_escape_text(col.background)
}

fn push_select(s: &mut String, layer: char, c: ColorValue)
    ensures
        final(s)@ == old(s)@ + seq!['\x1B', '[', layer, '8', ';', '5', ';'] + decimal(color_code(c)) + seq!['m'],
{
    let ghost start = s@;
    push_char(s, '\x1B');
    push_char(s, '[');
    push_char(s, layer);
    push_char(s, '8');
    push_char(s, ';');
    push_char(s, '5');
    push_char(s, ';');
    let ghost mid = s@;
    push_decimal(s, c.code());
    push_char(s, 'm');
    assert(mid =~= start + seq!['\x1B', '[', layer, '8', ';', '5', ';']);
    assert(s@ =~= start + seq!['\x1B', '[', layer, '8', ';', '5', ';'] + decimal(color_code(c)) + seq!['m']);
}

/// Appends the escape sequence that selects the foreground colour of `col`.
pub(crate) fn push_foreground(s: &mut String, col: &ansi_color)
    ensures
        final(s)@ == old(s)@ + foreground_escape_text(col.foreground),
{
    push_select(s, '3', col.foreground);
}

/// Appends the escape sequence that selects the background colour of `col`.
pub(crate) fn push_background(s: &mut String, col: &ansi_color)
    ensures
        final(s)@ == old(s)@ + background_escape_text(col.background),
{
    push_select(s, '4', col.background);
}

/// The escape sequence that sets the terminal's foreground to that of `col`.
pub fn foreground_escape(col: &ansi_color) -> (s: String)
    ensures
        s@ == foreground_escape_text(col.foreground),
{
    let mut s = String::new();
    push_foreground(&mut s, col);
    assert(s@ =~= foreground_escape_text(col.foreground));
    s
}

/// The escape sequence that sets the terminal's background to that of `col`.
pub fn background_escape(col: &ansi_color) -> (s: String)
    ensures
        s@ == background_escape_text(col.background),
{
    let mut s = String::new();
    push_background(&mut s, col);
    assert(s@ =~= background_escape_text(col.background));
    s
}

impl ansi_color {
    /// The escape sequences that select this pair: foreground, then background.
    pub fn to_string(&self) -> (s: String)
        ensures
            s@ == color_pair_text(*self),
    {
        let mut s = String::new();
        push_foreground(&mut s, self);
        push_background(&mut s, self);
        assert(s@ =~= color_pair_text(*self));
        s
    }
}

} // verus!
