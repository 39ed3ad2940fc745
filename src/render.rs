//! What a snapshot of the field is made of: colours, glyphs and blocks of
//! two characters, and the screen buffer handed to a renderer.

use vstd::prelude::*;

verus! {

/// Two-character glyphs that may appear on the field.
pub const HEAD_L: &'static str = ": ";

pub const HEAD_R: &'static str = " :";

pub const HEAD_U: &'static str = "''";

pub const HEAD_D: &'static str = "..";

pub const BEAN: &'static str = "()";

pub const FENCE: &'static str = "[]";

pub const EMPTY: &'static str = "  ";

/// The terminal colours a snapshot uses.
#[derive(Clone, Copy, PartialEq, Eq, Debug, Structural)]
pub enum Color {
    Black,
    Grey,
    White,
    Yellow,
    Green,
    DarkGrey,
    DarkRed,
    DarkBlue,
    DarkMagenta,
    DarkCyan,
}

/// One cell of a snapshot: foreground, background, and a glyph.
#[derive(Clone, PartialEq, Eq, Debug)]
pub struct TUIBlock {
    pub fg: Color,
    pub bg: Color,
    pub content: String,
}

/// A snapshot of the field, row by row.
pub type YardBuf = Vec<Vec<TUIBlock>>;

/// Columns of a snapshot: the length of its first row.
pub fn width(b: &YardBuf) -> (r: usize)
    requires
        b@.len() > 0,
    ensures
        r == b@[0]@.len(),
{
    b[0].len()
}

/// Rows of a snapshot.
pub fn height(b: &YardBuf) -> (r: usize)
    ensures
        r == b@.len(),
{
    b.len()
}

} // verus!
