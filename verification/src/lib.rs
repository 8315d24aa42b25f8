//! Character-cell rasteriser for ANSI terminals.
//!
//! Drawing happens in a bit buffer with two rows per terminal row; the bit
//! buffer is folded into half-block pixels, and the pixels are rendered into
//! one string of ANSI escape sequences.
#![allow(non_camel_case_types)]

pub mod color;
pub mod text;
pub mod pixel;
pub mod grid;
pub mod line;
pub mod fold;
pub mod renderer;
pub mod laws;
