//! Turning a frame into terminal lines: one coloured text per cell, row by row.

use vstd::prelude::*;
use vstd::string::*;
use colored::Colorize;
use crate::shade::{Cell, Glyph, Ink};
use crate::raster::Frame;

verus! {

/// The escape sequence that resets the terminal's colour.
pub open spec fn reset_code() -> Seq<char> {
    seq!['\u{1b}', '[', '0', 'm']
}

/// `r` shows `t`: either `t` alone, or `t` after an escape sequence that sets a
/// style and before the one that resets it.
pub open spec fn styled(r: Seq<char>, t: Seq<char>) -> bool {
    r == t || exists|p: Seq<char>| r == seq!['\u{1b}', '['] + p + seq!['m'] + t + reset_code()
}

/// Relies on colored's `Colorize::color` (the colour parsed from its name by
/// `Color::from(&str)`) and on `ColoredString`'s `Display`, which writes the text
/// alone when colouring is off, and otherwise the style sequence, the text and
/// the reset sequence; a text without an escape character is not rewritten.
#[verifier::external_body]
fn colorize(text: &str, color: &str) -> (r: String)
    requires
        forall|i: int| 0 <= i < text@.len() ==> text@[i] != '\u{1b}',
    ensures
        styled(r@, text@),
{
    text.color(color).to_string()
}

/// The name under which the terminal knows the colour.
pub fn ink_name(ink: Ink) -> (r: &'static str)
    ensures
        r@ == match ink {
            Ink::Red => "red"@,
            Ink::Green => "green"@,
            Ink::Blue => "blue"@,
            Ink::Yellow => "yellow"@,
            Ink::Magenta => "magenta"@,
            Ink::Cyan => "cyan"@,
            Ink::White => "white"@,
            Ink::Black => "black"@,
            Ink::Gray => "bright black"@,
        },
{
    match ink {
        Ink::Red => "red",
        Ink::Green => "green",
        Ink::Blue => "blue",
        Ink::Yellow => "yellow",
        Ink::Magenta => "magenta",
        Ink::Cyan => "cyan",
        Ink::White => "white",
        Ink::Black => "black",
        Ink::Gray => "bright black",
    }
}

/// The character drawn for a glyph.
pub open spec fn symbol_of(g: Glyph) -> char {
    match g {
        Glyph::Blank => ' ',
        Glyph::Dot => '\u{b7}',
        Glyph::Light => '\u{2591}',
        Glyph::Medium => '\u{2592}',
        Glyph::Dark => '\u{2593}',
        Glyph::Full => '\u{2588}',
    }
}

/// The glyph's character as a text.
pub fn glyph_text(g: Glyph) -> (r: &'static str)
    ensures
        r@ == seq![symbol_of(g)],
{
    let r = match g {
        Glyph::Blank => " ",
        Glyph::Dot => "\u{b7}",
        Glyph::Light => "\u{2591}",
        Glyph::Medium => "\u{2592}",
        Glyph::Dark => "\u{2593}",
        Glyph::Full => "\u{2588}",
    };
    proof {
        reveal_strlit(" ");
        reveal_strlit("\u{b7}");
        reveal_strlit("\u{2591}");
        reveal_strlit("\u{2592}");
        reveal_strlit("\u{2593}");
        reveal_strlit("\u{2588}");
    }
    r
}

/// `r` is how the terminal shows cell `c`: a space for an undrawn cell, else the
/// glyph's character in its colour.
pub open spec fn shows(r: Seq<char>, c: Cell) -> bool {
    match c {
        Cell::Empty => r == seq![' '],
        Cell::Paint { glyph, ink } => styled(r, seq![symbol_of(glyph)]),
    }
}

/// The pieces joined in order.
pub open spec fn joined(ps: Seq<Seq<char>>) -> Seq<char>
    decreases ps.len(),
{
    if ps.len() == 0 {
        Seq::empty()
    } else {
        joined(ps.drop_last()) + ps.last()
    }
}

/// The terminal text of one cell.
pub fn cell_text(c: Cell) -> (r: String)
    ensures
        shows(r@, c),
{
    match c {
        Cell::Empty => String::from_str(glyph_text(Glyph::Blank)),
        Cell::Paint { glyph, ink } => {
            let t = glyph_text(glyph);
            colorize(t, ink_name(ink))
        },
    }
}

/// `line` shows row `y` of the frame, one piece per cell.
pub open spec fn shows_row(line: Seq<char>, f: &Frame, y: int) -> bool {
    exists|ps: Seq<Seq<char>>|
        ps.len() == f.width && #[trigger] joined(ps) == line && forall|j: int|
            0 <= j < f.width ==> shows(#[trigger] ps[j], f.cells@[y * f.width + j])
}

/// Row `y` of the frame as one terminal line.
pub fn row_text(f: &Frame, y: usize) -> (line: String)
    requires
        f.wf(),
        y < f.height,
    ensures
        shows_row(line@, f, y as int),
{
    let w = f.width;
    let mut line = String::new();
    let ghost mut ps: Seq<Seq<char>> = Seq::empty();
    let mut x: usize = 0;
    proof {
        assert(line@ =~= joined(ps));
    }
    while x < w
        invariant
            f.wf(),
            w == f.width,
            y < f.height,
            0 <= x <= w,
            ps.len() == x,
            line@ == joined(ps),
            forall|j: int| 0 <= j < x ==> shows(#[trigger] ps[j], f.cells@[y * w + j]),
        decreases w - x,
    {
        let c = f.cell(x, y);
        let t = cell_text(c);
        line.append(t.as_str());
        proof {
            let old_ps = ps;
            ps = ps.push(t@);
            assert(ps.drop_last() =~= old_ps);
            assert forall|j: int| 0 <= j < x + 1 implies shows(#[trigger] ps[j], f.cells@[y * w + j]) by {
                if j < x {
                    assert(ps[j] == old_ps[j]);
                }
            }
        }
        x += 1;
    }
    line
}

/// Every row of the frame as a terminal line, top to bottom.
pub fn frame_lines(f: &Frame) -> (lines: Vec<String>)
    requires
        f.wf(),
    ensures
        lines@.len() == f.height,
        forall|y: int| 0 <= y < f.height ==> shows_row(#[trigger] lines@[y]@, f, y),
{
    let mut lines: Vec<String> = Vec::new();
    let mut y: usize = 0;
    while y < f.height
        invariant
            f.wf(),
            0 <= y <= f.height,
            lines@.len() == y,
            forall|k: int| 0 <= k < y ==> shows_row(#[trigger] lines@[k]@, f, k),
        decreases f.height - y,
    {
        let line = row_text(f, y);
        lines.push(line);
        y += 1;
    }
    lines
}

} // verus!
