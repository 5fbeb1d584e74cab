//! Face shading: light alignment of a triangle mapped to a glyph, and the palette.

use vstd::prelude::*;
use crate::fixed::{UNIT, root, isqrt};
use crate::geometry::{Point3D, abs};
use vstd::string::*;

verus! {

/// Glyphs in order of increasing density.
#[derive(Clone, Copy, Debug, PartialEq, Eq, Structural)]
pub enum Glyph {
    Blank,
    Dot,
    Light,
    Medium,
    Dark,
    Full,
}

/// Terminal colours.
#[derive(Clone, Copy, Debug, PartialEq, Eq, Structural)]
pub enum Ink {
    Red,
    Green,
    Blue,
    Yellow,
    Magenta,
    Cyan,
    White,
    Black,
    Gray,
}

/// One cell of a frame: never drawn, or a glyph in a colour.
#[derive(Clone, Copy, Debug, PartialEq, Eq, Structural)]
pub enum Cell {
    Empty,
    Paint { glyph: Glyph, ink: Ink },
}

impl Glyph {
    /// Rank of the glyph by visual density.
    pub open spec fn density(self) -> int {
        match self {
            Glyph::Blank => 0,
            Glyph::Dot => 1,
            Glyph::Light => 2,
            Glyph::Medium => 3,
            Glyph::Dark => 4,
            Glyph::Full => 5,
        }
    }
}

/// Glyph for light alignment `light / den` (den > 0): above 0.7 full, above 0.3
/// dark, above 0 medium, above -0.3 a dot, else blank.
pub open spec fn band(light: int, den: int) -> Glyph {
    if 10 * light > 7 * den {
        Glyph::Full
    } else if 10 * light > 3 * den {
        Glyph::Dark
    } else if light > 0 {
        Glyph::Medium
    } else if 10 * light > -3 * den {
        Glyph::Dot
    } else {
        Glyph::Blank
    }
}

/// A brighter alignment never gets a sparser glyph.
pub proof fn lemma_band_monotone(l1: int, d1: int, l2: int, d2: int)
    requires
        d1 > 0,
        d2 > 0,
        l1 * d2 >= l2 * d1,
    ensures
        band(l1, d1).density() >= band(l2, d2).density(),
{
    assert(10 * l2 > 7 * d2 ==> 10 * l1 > 7 * d1) by (nonlinear_arith)
        requires
            d1 > 0,
            d2 > 0,
            l1 * d2 >= l2 * d1,
    ;
    assert(10 * l2 > 3 * d2 ==> 10 * l1 > 3 * d1) by (nonlinear_arith)
        requires
            d1 > 0,
            d2 > 0,
            l1 * d2 >= l2 * d1,
    ;
    assert(l2 > 0 ==> l1 > 0) by (nonlinear_arith)
        requires
            d1 > 0,
            d2 > 0,
            l1 * d2 >= l2 * d1,
    ;
    assert(10 * l2 > -3 * d2 ==> 10 * l1 > -3 * d1) by (nonlinear_arith)
        requires
            d1 > 0,
            d2 > 0,
            l1 * d2 >= l2 * d1,
    ;
}

/// Face normal of the triangle, from the edges v1 - v0 and v2 - v0. Pixel offsets
/// are taken to the depth's fixed point so all components share one scale.
pub open spec fn normal_of(v0: Point3D, v1: Point3D, v2: Point3D) -> (int, int, int) {
    let ux = v1.x - v0.x;
    let uy = v1.y - v0.y;
    let uz = v1.z - v0.z;
    let wx = v2.x - v0.x;
    let wy = v2.y - v0.y;
    let wz = v2.z - v0.z;
    (uy * wz - uz * wy, uz * wx - ux * wz, (ux * wy - uy * wx) * UNIT)
}

/// Squared length of the face normal.
pub open spec fn norm_sq(n: (int, int, int)) -> int {
    n.0 * n.0 + n.1 * n.1 + n.2 * n.2
}

/// Shade of a triangle lit from the viewer, direction (0, 0, -1): the normal's
/// alignment with the light, over its length plus a small epsilon.
pub open spec fn shade_of(v0: Point3D, v1: Point3D, v2: Point3D) -> Glyph {
    let n = normal_of(v0, v1, v2);
    band(-n.2, root(norm_sq(n) as nat) + 1)
}

fn band_exec(light: i128, den: i128) -> (g: Glyph)
    requires
        -0x1000_0000_0000_0000_0000_0000_0000 < light < 0x1000_0000_0000_0000_0000_0000_0000,
        0 < den < 0x1000_0000_0000_0000_0000_0000_0000,
    ensures
        g == band(light as int, den as int),
{
    if 10 * light > 7 * den {
        Glyph::Full
    } else if 10 * light > 3 * den {
        Glyph::Dark
    } else if light > 0 {
        Glyph::Medium
    } else if 10 * light > -3 * den {
        Glyph::Dot
    } else {
        Glyph::Blank
    }
}

/// Glyph for the triangle (v0, v1, v2) by the alignment of its face normal with the light.
pub fn shade_glyph(v0: Point3D, v1: Point3D, v2: Point3D) -> (g: Glyph)
    requires
        v0.wf(),
        v1.wf(),
        v2.wf(),
    ensures
        g == shade_of(v0, v1, v2),
{
    let ux = (v1.x - v0.x) as i128;
    let uy = (v1.y - v0.y) as i128;
    let uz = (v1.z - v0.z) as i128;
    let wx = (v2.x - v0.x) as i128;
    let wy = (v2.y - v0.y) as i128;
    let wz = (v2.z - v0.z) as i128;
    assert(abs(uy * wz) <= 0x20_0000 * 0x20_0000_0000 && abs(uz * wy) <= 0x20_0000 * 0x20_0000_0000)
        by (nonlinear_arith)
        requires
            abs(uy as int) <= 0x20_0000,
            abs(wy as int) <= 0x20_0000,
            abs(uz as int) <= 0x20_0000_0000,
            abs(wz as int) <= 0x20_0000_0000,
    ;
    assert(abs(uz * wx) <= 0x20_0000 * 0x20_0000_0000 && abs(ux * wz) <= 0x20_0000 * 0x20_0000_0000)
        by (nonlinear_arith)
        requires
            abs(ux as int) <= 0x20_0000,
            abs(wx as int) <= 0x20_0000,
            abs(uz as int) <= 0x20_0000_0000,
            abs(wz as int) <= 0x20_0000_0000,
    ;
    assert(abs(ux * wy) <= 0x20_0000 * 0x20_0000 && abs(uy * wx) <= 0x20_0000 * 0x20_0000)
        by (nonlinear_arith)
        requires
            abs(ux as int) <= 0x20_0000,
            abs(wx as int) <= 0x20_0000,
            abs(uy as int) <= 0x20_0000,
            abs(wy as int) <= 0x20_0000,
    ;
    let nx: i128 = uy * wz - uz * wy;
    let ny: i128 = uz * wx - ux * wz;
    let cz: i128 = ux * wy - uy * wx;
    assert(abs(cz * UNIT) <= 0x800_0000_0000 * UNIT) by (nonlinear_arith)
        requires
            abs(cz as int) <= 0x800_0000_0000,
    ;
    let nz: i128 = cz * (UNIT as i128);
    assert(nx * nx <= 0x800_0000_0000_0000 * 0x800_0000_0000_0000 && ny * ny
        <= 0x800_0000_0000_0000 * 0x800_0000_0000_0000 && nz * nz <= 0x800_0000_0000 * UNIT
        * 0x800_0000_0000 * UNIT) by (nonlinear_arith)
        requires
            abs(nx as int) <= 0x800_0000_0000_0000,
            abs(ny as int) <= 0x800_0000_0000_0000,
            abs(nz as int) <= 0x800_0000_0000 * UNIT,
    ;
    assert(nx * nx >= 0 && ny * ny >= 0 && nz * nz >= 0) by (nonlinear_arith);
    let sq: i128 = nx * nx + ny * ny + nz * nz;
    let r = isqrt(sq as u128);
    proof {
        assert(r * r <= sq);
        assert(r < 0x1000_0000_0000_0000_0000) by (nonlinear_arith)
            requires
                r * r <= sq,
                sq < 0x8000_0000_0000_0000_0000_0000_0000_0000,
                r >= 0,
        ;
    }
    band_exec(-nz, r as i128 + 1)
}

/// The painted cell for the triangle (v0, v1, v2) in colour `ink`.
pub fn get_shade_from_normal(v0: Point3D, v1: Point3D, v2: Point3D, ink: Ink) -> (c: Cell)
    requires
        v0.wf(),
        v1.wf(),
        v2.wf(),
    ensures
        c == (Cell::Paint { glyph: shade_of(v0, v1, v2), ink }),
{
    Cell::Paint { glyph: shade_glyph(v0, v1, v2), ink }
}

/// What `str::to_lowercase` makes of a text.
pub uninterp spec fn lower_of(s: Seq<char>) -> Seq<char>;

/// Relies on `str::to_lowercase`: the lowercase form depends on the characters alone.
#[verifier::external_body]
fn lowercase(s: &str) -> (r: String)
    ensures
        r@ == lower_of(s@),
{
    s.to_lowercase()
}

/// The two texts hold the same characters.
pub fn same_text(a: &str, b: &str) -> (r: bool)
    ensures
        r == (a@ == b@),
{
    let n = a.unicode_len();
    if n != b.unicode_len() {
        return false;
    }
    let mut i: usize = 0;
    while i < n
        invariant
            n == a@.len(),
            n == b@.len(),
            0 <= i <= n,
            forall|k: int| 0 <= k < i ==> a@[k] == b@[k],
        decreases n - i,
    {
        if a.get_char(i) != b.get_char(i) {
            return false;
        }
        i += 1;
    }
    assert(a@ =~= b@);
    true
}

/// The colour a lowercase name selects; purple is magenta, and any other name is blue.
pub open spec fn ink_named(s: Seq<char>) -> Ink {
    if s == "red"@ {
        Ink::Red
    } else if s == "green"@ {
        Ink::Green
    } else if s == "yellow"@ {
        Ink::Yellow
    } else if s == "magenta"@ || s == "purple"@ {
        Ink::Magenta
    } else if s == "cyan"@ {
        Ink::Cyan
    } else if s == "white"@ {
        Ink::White
    } else if s == "black"@ {
        Ink::Black
    } else {
        Ink::Blue
    }
}

/// The colour a lowercase name selects.
pub fn ink_from_lowercase(s: &str) -> (r: Ink)
    ensures
        r == ink_named(s@),
{
    if same_text(s, "red") {
        Ink::Red
    } else if same_text(s, "green") {
        Ink::Green
    } else if same_text(s, "yellow") {
        Ink::Yellow
    } else if same_text(s, "magenta") || same_text(s, "purple") {
        Ink::Magenta
    } else if same_text(s, "cyan") {
        Ink::Cyan
    } else if same_text(s, "white") {
        Ink::White
    } else if same_text(s, "black") {
        Ink::Black
    } else {
        Ink::Blue
    }
}

/// The colour a name selects, in any letter case.
pub fn ink_from_name(name: &str) -> (r: Ink)
    ensures
        r == ink_named(lower_of(name@)),
{
    let l = lowercase(name);
    ink_from_lowercase(l.as_str())
}

} // verus!
