//! The frame buffer, triangle fill with a depth test, and wireframe lines.

use vstd::prelude::*;
use crate::fixed::{trunc_div, div_toward_zero};
use crate::geometry::{Point3D, Vertex, SCREEN_LIMIT, PIXEL_LIMIT, DEPTH_LIMIT, abs};
use crate::fixed::UNIT;
use crate::shade::{Cell, Glyph, Ink, shade_of, get_shade_from_normal};
use crate::mesh::{Face, Tri, face_lists, faces_valid, fan_of};

verus! {

/// A grid of cells with a parallel grid of depths, row after row.
pub struct Frame {
    pub width: usize,
    pub height: usize,
    pub cells: Vec<Cell>,
    pub depth: Vec<i128>,
}

/// A colour with fixed-point red, green and blue components.
#[derive(Clone, Copy, Debug, PartialEq, Eq, Structural)]
pub struct Rgb {
    pub r: i64,
    pub g: i64,
    pub b: i64,
}

/// Normals and colours at the three corners of a triangle, interpolated across it.
#[derive(Clone, Copy, Debug, PartialEq, Eq, Structural)]
pub struct Surface {
    pub n0: Vertex,
    pub n1: Vertex,
    pub n2: Vertex,
    pub c0: Rgb,
    pub c1: Rgb,
    pub c2: Rgb,
}

/// How a filled triangle colours its pixels.
#[derive(Clone, Copy, Debug, PartialEq, Eq, Structural)]
pub enum Brush {
    /// One cell for every pixel.
    Flat(Cell),
    /// A cell per pixel from the interpolated normal and colour.
    Smooth(Surface),
}

/// Largest magnitude of a normal or colour component on a surface.
pub const SURFACE_LIMIT: i64 = 0x1000_0000_0000_0000;

impl Rgb {
    pub open spec fn within(self, b: int) -> bool {
        abs(self.r as int) <= b && abs(self.g as int) <= b && abs(self.b as int) <= b
    }
}

impl Surface {
    pub open spec fn wf(self) -> bool {
        &&& self.n0.within(SURFACE_LIMIT as int)
        &&& self.n1.within(SURFACE_LIMIT as int)
        &&& self.n2.within(SURFACE_LIMIT as int)
        &&& self.c0.within(SURFACE_LIMIT as int)
        &&& self.c1.within(SURFACE_LIMIT as int)
        &&& self.c2.within(SURFACE_LIMIT as int)
    }
}

impl Brush {
    pub open spec fn wf(self) -> bool {
        match self {
            Brush::Flat(_) => true,
            Brush::Smooth(sf) => sf.wf(),
        }
    }
}

/// Depth of a cell that nothing has been drawn to.
pub const FAR: i128 = i128::MIN;

/// Column of cell `i` in a grid `w` wide.
pub open spec fn col(i: int, w: int) -> int {
    i % w
}

/// Row of cell `i` in a grid `w` wide.
pub open spec fn row(i: int, w: int) -> int {
    i / w
}

proof fn lemma_index(x: int, y: int, w: int, h: int)
    requires
        0 <= x < w,
        0 <= y < h,
    ensures
        0 <= y * w + x < w * h,
        col(y * w + x, w) == x,
        row(y * w + x, w) == y,
{
    assert(0 <= y * w + x < w * h) by (nonlinear_arith)
        requires
            0 <= x < w,
            0 <= y < h,
    ;
    vstd::arithmetic::div_mod::lemma_fundamental_div_mod_converse(y * w + x, w, y, x);
}

proof fn lemma_cell(i: int, w: int, h: int)
    requires
        0 <= i < w * h,
        w > 0,
    ensures
        0 <= col(i, w) < w,
        0 <= row(i, w) < h,
        i == row(i, w) * w + col(i, w),
{
    vstd::arithmetic::div_mod::lemma_fundamental_div_mod(i, w);
    assert(w * (i / w) == (i / w) * w) by (nonlinear_arith);
    assert(0 <= i / w < h) by (nonlinear_arith)
        requires
            0 <= i < w * h,
            w > 0,
            i == w * (i / w) + i % w,
            0 <= i % w < w,
    ;
}

/// Position of column `x`, row `y` in a grid `w` wide and `h` high.
fn index(x: usize, y: usize, w: usize, h: usize) -> (i: usize)
    requires
        x < w,
        y < h,
        w <= SCREEN_LIMIT,
        h <= SCREEN_LIMIT,
    ensures
        i == y * w + x,
        i < w * h,
        col(i as int, w as int) == x,
        row(i as int, w as int) == y,
{
    proof {
        lemma_index(x as int, y as int, w as int, h as int);
        assert(w * h <= SCREEN_LIMIT * SCREEN_LIMIT) by (nonlinear_arith)
            requires
                w <= SCREEN_LIMIT,
                h <= SCREEN_LIMIT,
        ;
        assert(y * w <= w * h) by (nonlinear_arith)
            requires
                y < h,
        ;
    }
    y * w + x
}

impl Frame {
    pub open spec fn wf(&self) -> bool {
        &&& self.width <= SCREEN_LIMIT
        &&& self.height <= SCREEN_LIMIT
        &&& self.cells@.len() == self.width * self.height
        &&& self.depth@.len() == self.width * self.height
    }

    /// An empty frame: every cell undrawn and at the far depth.
    pub fn new(width: usize, height: usize) -> (f: Frame)
        requires
            width <= SCREEN_LIMIT,
            height <= SCREEN_LIMIT,
        ensures
            f.wf(),
            f.width == width,
            f.height == height,
            forall|i: int| 0 <= i < width * height ==> f.cells@[i] == Cell::Empty && f.depth@[i] == FAR,
    {
        assert(width * height <= SCREEN_LIMIT * SCREEN_LIMIT) by (nonlinear_arith)
            requires
                width <= SCREEN_LIMIT,
                height <= SCREEN_LIMIT,
        ;
        assert(SCREEN_LIMIT * SCREEN_LIMIT <= 0x4000_0000);
        let n = width * height;
        let mut cells: Vec<Cell> = Vec::new();
        let mut depth: Vec<i128> = Vec::new();
        let mut i: usize = 0;
        while i < n
            invariant
                0 <= i <= n,
                cells@.len() == i,
                depth@.len() == i,
                forall|k: int| 0 <= k < i ==> cells@[k] == Cell::Empty && depth@[k] == FAR,
            decreases n - i,
        {
            cells.push(Cell::Empty);
            depth.push(FAR);
            i += 1;
        }
        Frame { width, height, cells, depth }
    }

    /// The cell at column `x`, row `y`.
    pub open spec fn cell_at(&self, x: int, y: int) -> Cell {
        self.cells@[y * self.width + x]
    }

    /// The cell at column `x`, row `y`.
    pub fn cell(&self, x: usize, y: usize) -> (c: Cell)
        requires
            self.wf(),
            x < self.width,
            y < self.height,
        ensures
            c == self.cell_at(x as int, y as int),
    {
        let i = index(x, y, self.width, self.height);
        self.cells[i]
    }
}

/// Twice the signed area of the triangle.
pub open spec fn area(a: Point3D, b: Point3D, c: Point3D) -> int {
    (b.x - a.x) * (c.y - a.y) - (c.x - a.x) * (b.y - a.y)
}

/// Edge function of the edge from `a` to `b` at pixel (x, y).
pub open spec fn edge(a: Point3D, b: Point3D, x: int, y: int) -> int {
    (b.x - a.x) * (y - a.y) - (b.y - a.y) * (x - a.x)
}

/// All three barycentric weights of pixel (x, y) are non-negative.
pub open spec fn inside(a: Point3D, b: Point3D, c: Point3D, x: int, y: int) -> bool {
    let s = area(a, b, c);
    let e0 = edge(b, c, x, y);
    let e1 = edge(c, a, x, y);
    let e2 = edge(a, b, x, y);
    (s > 0 && e0 >= 0 && e1 >= 0 && e2 >= 0) || (s < 0 && e0 <= 0 && e1 <= 0 && e2 <= 0)
}

/// Depth at pixel (x, y): the vertices' depths weighted by the barycentric weights.
pub open spec fn depth_at(a: Point3D, b: Point3D, c: Point3D, x: int, y: int) -> int {
    let s = area(a, b, c);
    let n = edge(b, c, x, y) * a.z + edge(c, a, x, y) * b.z + edge(a, b, x, y) * c.z;
    if s > 0 {
        trunc_div(n, s)
    } else {
        trunc_div(-n, -s)
    }
}

/// The three barycentric weights of pixel (x, y), as non-negative numerators over
/// the absolute area (the fourth component) when the pixel is inside.
pub open spec fn weights(a: Point3D, b: Point3D, c: Point3D, x: int, y: int) -> (int, int, int, int) {
    let s = area(a, b, c);
    if s > 0 {
        (edge(b, c, x, y), edge(c, a, x, y), edge(a, b, x, y), s)
    } else {
        (-edge(b, c, x, y), -edge(c, a, x, y), -edge(a, b, x, y), -s)
    }
}

/// Glyph for the interpolated normal's alignment with the light (0, 0, -1):
/// brightness `(1 + alignment) / 2` above 0.8 full, 0.6 dark, 0.4 medium, 0.2 light, else a dot.
/// `nz` is the normal's z component scaled by `s`.
pub open spec fn smooth_glyph(nz: int, s: int) -> Glyph {
    let u = UNIT as int;
    if -10 * nz > 6 * s * u {
        Glyph::Full
    } else if -10 * nz > 2 * s * u {
        Glyph::Dark
    } else if -10 * nz > -2 * s * u {
        Glyph::Medium
    } else if -10 * nz > -6 * s * u {
        Glyph::Light
    } else {
        Glyph::Dot
    }
}

/// Between two pixels of a smooth triangle, the one whose interpolated normal
/// faces the light more never gets a sparser glyph.
pub proof fn lemma_smooth_glyph_monotone(nz1: int, nz2: int, s: int)
    requires
        s > 0,
        nz1 <= nz2,
    ensures
        smooth_glyph(nz1, s).density() >= smooth_glyph(nz2, s).density(),
{
}

/// Colour class of the interpolated colour (components scaled by `s`): red when
/// red exceeds 200 of 255 and the others stay under 0.3, green or blue when that
/// component exceeds 0.7 and the others stay under 0.3, else white.
pub open spec fn smooth_ink(r: int, g: int, b: int, s: int) -> Ink {
    let u = UNIT as int;
    if 255 * r >= 201 * s * u && 10 * g < 3 * s * u && 10 * b < 3 * s * u {
        Ink::Red
    } else if 10 * g > 7 * s * u && 10 * r < 3 * s * u && 10 * b < 3 * s * u {
        Ink::Green
    } else if 10 * b > 7 * s * u && 10 * r < 3 * s * u && 10 * g < 3 * s * u {
        Ink::Blue
    } else {
        Ink::White
    }
}

/// The cell a brush paints at pixel (x, y) of the triangle.
pub open spec fn brush_at(br: Brush, a: Point3D, b: Point3D, c: Point3D, x: int, y: int) -> Cell {
    match br {
        Brush::Flat(cell) => cell,
        Brush::Smooth(sf) => {
            let w = weights(a, b, c, x, y);
            let nz = w.0 * sf.n0.z + w.1 * sf.n1.z + w.2 * sf.n2.z;
            let r = w.0 * sf.c0.r + w.1 * sf.c1.r + w.2 * sf.c2.r;
            let g = w.0 * sf.c0.g + w.1 * sf.c1.g + w.2 * sf.c2.g;
            let bl = w.0 * sf.c0.b + w.1 * sf.c1.b + w.2 * sf.c2.b;
            Cell::Paint { glyph: smooth_glyph(nz, w.3), ink: smooth_ink(r, g, bl, w.3) }
        },
    }
}

pub open spec fn min3(a: int, b: int, c: int) -> int {
    if a <= b && a <= c {
        a
    } else if b <= c {
        b
    } else {
        c
    }
}

pub open spec fn max3(a: int, b: int, c: int) -> int {
    if a >= b && a >= c {
        a
    } else if b >= c {
        b
    } else {
        c
    }
}

/// Pixel (x, y) lies in the triangle's bounding box, clamped to a `w` by `h` screen.
pub open spec fn in_box(a: Point3D, b: Point3D, c: Point3D, w: int, h: int, x: int, y: int) -> bool {
    &&& 0 <= x < w
    &&& 0 <= y < h
    &&& min3(a.x as int, b.x as int, c.x as int) <= x <= max3(a.x as int, b.x as int, c.x as int)
    &&& min3(a.y as int, b.y as int, c.y as int) <= y <= max3(a.y as int, b.y as int, c.y as int)
}

/// The triangle is not degenerate and covers pixel (x, y) of a `w` by `h` screen.
pub open spec fn covers(a: Point3D, b: Point3D, c: Point3D, w: int, h: int, x: int, y: int) -> bool {
    area(a, b, c) != 0 && in_box(a, b, c, w, h, x, y) && inside(a, b, c, x, y)
}

/// The triangle wins cell `i`: it covers the pixel and is closer than what is stored there.
pub open spec fn wins(
    depth: Seq<i128>,
    w: int,
    h: int,
    a: Point3D,
    b: Point3D,
    c: Point3D,
    i: int,
) -> bool {
    covers(a, b, c, w, h, col(i, w), row(i, w)) && depth_at(a, b, c, col(i, w), row(i, w)) > depth[i]
}

/// Cells after filling the triangle with brush `br`.
pub open spec fn fill_cells(
    cells: Seq<Cell>,
    depth: Seq<i128>,
    w: int,
    h: int,
    a: Point3D,
    b: Point3D,
    c: Point3D,
    br: Brush,
) -> Seq<Cell> {
    Seq::new(
        cells.len(),
        |i: int|
            if wins(depth, w, h, a, b, c, i) {
                brush_at(br, a, b, c, col(i, w), row(i, w))
            } else {
                cells[i]
            },
    )
}

/// Depths after filling the triangle.
pub open spec fn fill_depth(depth: Seq<i128>, w: int, h: int, a: Point3D, b: Point3D, c: Point3D) -> Seq<
    i128,
> {
    Seq::new(
        depth.len(),
        |i: int|
            if wins(depth, w, h, a, b, c, i) {
                depth_at(a, b, c, col(i, w), row(i, w)) as i128
            } else {
                depth[i]
            },
    )
}

/// A degenerate triangle, all three vertices on one line, changes no cell.
pub proof fn lemma_collinear_fills_nothing(
    cells: Seq<Cell>,
    depth: Seq<i128>,
    w: int,
    h: int,
    a: Point3D,
    b: Point3D,
    c: Point3D,
    br: Brush,
)
    requires
        area(a, b, c) == 0,
    ensures
        fill_cells(cells, depth, w, h, a, b, c, br) == cells,
        fill_depth(depth, w, h, a, b, c) == depth,
{
    assert(fill_cells(cells, depth, w, h, a, b, c, br) =~= cells);
    assert(fill_depth(depth, w, h, a, b, c) =~= depth);
}

fn edge_exec(a: Point3D, b: Point3D, x: i64, y: i64) -> (e: i128)
    requires
        a.wf(),
        b.wf(),
        abs(x as int) <= PIXEL_LIMIT,
        abs(y as int) <= PIXEL_LIMIT,
    ensures
        e == edge(a, b, x as int, y as int),
        abs(e as int) <= 0x800_0000_0000,
{
    let p = (b.x - a.x) as i128;
    let q = (y - a.y) as i128;
    let r = (b.y - a.y) as i128;
    let t = (x - a.x) as i128;
    assert(abs(p * q) <= 0x20_0000 * 0x20_0000 && abs(r * t) <= 0x20_0000 * 0x20_0000)
        by (nonlinear_arith)
        requires
            abs(p as int) <= 0x20_0000,
            abs(q as int) <= 0x20_0000,
            abs(r as int) <= 0x20_0000,
            abs(t as int) <= 0x20_0000,
    ;
    p * q - r * t
}

fn weigh(e: i128, z: i64) -> (r: i128)
    requires
        abs(e as int) <= 0x800_0000_0000,
        abs(z as int) <= DEPTH_LIMIT,
    ensures
        r == e * z,
        abs(r as int) <= 0x800_0000_0000 * DEPTH_LIMIT,
{
    assert(abs(e * z) <= 0x800_0000_0000 * DEPTH_LIMIT) by (nonlinear_arith)
        requires
            abs(e as int) <= 0x800_0000_0000,
            abs(z as int) <= DEPTH_LIMIT,
    ;
    e * (z as i128)
}

fn weigh_wide(k: i128, v: i64) -> (r: i128)
    requires
        0 <= k <= 0x800_0000_0000,
        abs(v as int) <= SURFACE_LIMIT,
    ensures
        r == k * v,
        abs(r as int) <= 0x800_0000_0000 * SURFACE_LIMIT,
{
    assert(abs(k * v) <= 0x800_0000_0000 * SURFACE_LIMIT) by (nonlinear_arith)
        requires
            0 <= k <= 0x800_0000_0000,
            abs(v as int) <= SURFACE_LIMIT,
    ;
    k * (v as i128)
}

fn blend(k0: i128, k1: i128, k2: i128, v0: i64, v1: i64, v2: i64) -> (r: i128)
    requires
        0 <= k0 <= 0x800_0000_0000,
        0 <= k1 <= 0x800_0000_0000,
        0 <= k2 <= 0x800_0000_0000,
        abs(v0 as int) <= SURFACE_LIMIT,
        abs(v1 as int) <= SURFACE_LIMIT,
        abs(v2 as int) <= SURFACE_LIMIT,
    ensures
        r == k0 * v0 + k1 * v1 + k2 * v2,
        abs(r as int) <= 3 * 0x800_0000_0000 * SURFACE_LIMIT,
{
    weigh_wide(k0, v0) + weigh_wide(k1, v1) + weigh_wide(k2, v2)
}

/// The brush's cell at a pixel whose edge values are `e0`, `e1`, `e2` in a
/// triangle of doubled signed area `s`, the pixel being inside.
fn brush_cell(br: &Brush, e0: i128, e1: i128, e2: i128, s: i128) -> (cell: Cell)
    requires
        br.wf(),
        s != 0,
        abs(s as int) <= 0x800_0000_0000,
        abs(e0 as int) <= 0x800_0000_0000,
        abs(e1 as int) <= 0x800_0000_0000,
        abs(e2 as int) <= 0x800_0000_0000,
        (s > 0 && e0 >= 0 && e1 >= 0 && e2 >= 0) || (s < 0 && e0 <= 0 && e1 <= 0 && e2 <= 0),
    ensures
        forall|a: Point3D, b: Point3D, c: Point3D, x: int, y: int|
            area(a, b, c) == s && edge(b, c, x, y) == e0 && edge(c, a, x, y) == e1 && edge(a, b, x, y) == e2
                ==> cell == #[trigger] brush_at(*br, a, b, c, x, y),
{
    match br {
        Brush::Flat(cell) => *cell,
        Brush::Smooth(sf) => {
            let (k0, k1, k2, t) = if s > 0 { (e0, e1, e2, s) } else { (-e0, -e1, -e2, -s) };
            let nz = blend(k0, k1, k2, sf.n0.z, sf.n1.z, sf.n2.z);
            let r = blend(k0, k1, k2, sf.c0.r, sf.c1.r, sf.c2.r);
            let g = blend(k0, k1, k2, sf.c0.g, sf.c1.g, sf.c2.g);
            let bl = blend(k0, k1, k2, sf.c0.b, sf.c1.b, sf.c2.b);
            let su: i128 = t * (UNIT as i128);
            let glyph = if -10 * nz > 6 * su {
                Glyph::Full
            } else if -10 * nz > 2 * su {
                Glyph::Dark
            } else if -10 * nz > -2 * su {
                Glyph::Medium
            } else if -10 * nz > -6 * su {
                Glyph::Light
            } else {
                Glyph::Dot
            };
            let ink = if 255 * r >= 201 * su && 10 * g < 3 * su && 10 * bl < 3 * su {
                Ink::Red
            } else if 10 * g > 7 * su && 10 * r < 3 * su && 10 * bl < 3 * su {
                Ink::Green
            } else if 10 * bl > 7 * su && 10 * r < 3 * su && 10 * g < 3 * su {
                Ink::Blue
            } else {
                Ink::White
            };
            proof {
                assert(6 * su == 6 * t * UNIT && 2 * su == 2 * t * UNIT && -2 * su == -2 * t * UNIT
                    && -6 * su == -6 * t * UNIT && 201 * su == 201 * t * UNIT && 3 * su == 3 * t * UNIT
                    && 7 * su == 7 * t * UNIT) by (nonlinear_arith)
                    requires
                        su == t * UNIT,
                ;
            }
            Cell::Paint { glyph, ink }
        },
    }
}

/// Fills the triangle (a, b, c) with brush `paint`: each pixel of its bounding box,
/// clamped to the frame, whose barycentric weights are all non-negative and whose
/// interpolated depth exceeds the stored one takes the brush's cell and that depth.
/// A degenerate triangle (zero area) is skipped.
pub fn fill_triangle(frame: &mut Frame, a: Point3D, b: Point3D, c: Point3D, paint: Brush)
    requires
        old(frame).wf(),
        a.wf(),
        b.wf(),
        c.wf(),
        paint.wf(),
    ensures
        final(frame).wf(),
        final(frame).width == old(frame).width,
        final(frame).height == old(frame).height,
        final(frame).cells@ == fill_cells(
            old(frame).cells@,
            old(frame).depth@,
            old(frame).width as int,
            old(frame).height as int,
            a,
            b,
            c,
            paint,
        ),
        final(frame).depth@ == fill_depth(
            old(frame).depth@,
            old(frame).width as int,
            old(frame).height as int,
            a,
            b,
            c,
        ),
{
    let ghost cells0 = frame.cells@;
    let ghost depth0 = frame.depth@;
    let w = frame.width;
    let h = frame.height;
    let ghost wi = w as int;
    let ghost hi = h as int;
    let ghost fc = fill_cells(cells0, depth0, wi, hi, a, b, c, paint);
    let ghost fd = fill_depth(depth0, wi, hi, a, b, c);
    let s = edge_exec(a, b, c.x, c.y);
    assert(s == area(a, b, c)) by (nonlinear_arith)
        requires
            s == edge(a, b, c.x as int, c.y as int),
    ;
    if s == 0 {
        proof {
            lemma_collinear_fills_nothing(cells0, depth0, wi, hi, a, b, c, paint);
        }
        return ;
    }
    let lo_x = if a.x <= b.x && a.x <= c.x { a.x } else if b.x <= c.x { b.x } else { c.x };
    let hi_x = if a.x >= b.x && a.x >= c.x { a.x } else if b.x >= c.x { b.x } else { c.x };
    let lo_y = if a.y <= b.y && a.y <= c.y { a.y } else if b.y <= c.y { b.y } else { c.y };
    let hi_y = if a.y >= b.y && a.y >= c.y { a.y } else if b.y >= c.y { b.y } else { c.y };
    let min_x: i64 = if lo_x < 0 { 0 } else { lo_x };
    let max_x: i64 = if hi_x > w as i64 - 1 { w as i64 - 1 } else { hi_x };
    let min_y: i64 = if lo_y < 0 { 0 } else { lo_y };
    let max_y: i64 = if hi_y > h as i64 - 1 { h as i64 - 1 } else { hi_y };
    let mut y = min_y;
    while y <= max_y
        invariant
            frame.wf(),
            frame.width == w,
            frame.height == h,
            wi == w,
            hi == h,
            area(a, b, c) == s,
            s != 0,
            abs(s as int) <= 0x800_0000_0000,
            a.wf(),
            b.wf(),
            c.wf(),
            paint.wf(),
            fc == fill_cells(cells0, depth0, wi, hi, a, b, c, paint),
            fd == fill_depth(depth0, wi, hi, a, b, c),
            cells0.len() == w * h,
            depth0.len() == w * h,
            lo_x == min3(a.x as int, b.x as int, c.x as int),
            hi_x == max3(a.x as int, b.x as int, c.x as int),
            lo_y == min3(a.y as int, b.y as int, c.y as int),
            hi_y == max3(a.y as int, b.y as int, c.y as int),
            min_x == (if lo_x < 0 { 0 } else { lo_x }),
            max_x == (if hi_x > w - 1 { w - 1 } else { hi_x as int }),
            min_y == (if lo_y < 0 { 0 } else { lo_y }),
            max_y == (if hi_y > h - 1 { h - 1 } else { hi_y as int }),
            min_y <= y,
            y <= max_y + 1 || y == min_y,
            forall|i: int|
                0 <= i < w * h ==> frame.cells@[i] == (if row(i, wi) < y {
                    fc[i]
                } else {
                    cells0[i]
                }) && frame.depth@[i] == (if row(i, wi) < y {
                    fd[i]
                } else {
                    depth0[i]
                }),
        decreases max_y + 1 - y,
    {
        let mut x = min_x;
        while x <= max_x
            invariant
                frame.wf(),
                frame.width == w,
                frame.height == h,
                wi == w,
                hi == h,
                area(a, b, c) == s,
                s != 0,
                abs(s as int) <= 0x800_0000_0000,
                a.wf(),
                b.wf(),
                c.wf(),
                paint.wf(),
                fc == fill_cells(cells0, depth0, wi, hi, a, b, c, paint),
                fd == fill_depth(depth0, wi, hi, a, b, c),
                cells0.len() == w * h,
                depth0.len() == w * h,
                lo_x == min3(a.x as int, b.x as int, c.x as int),
                hi_x == max3(a.x as int, b.x as int, c.x as int),
                lo_y == min3(a.y as int, b.y as int, c.y as int),
                hi_y == max3(a.y as int, b.y as int, c.y as int),
                min_x == (if lo_x < 0 { 0 } else { lo_x }),
                max_x == (if hi_x > w - 1 { w - 1 } else { hi_x as int }),
                min_y == (if lo_y < 0 { 0 } else { lo_y }),
                max_y == (if hi_y > h - 1 { h - 1 } else { hi_y as int }),
                min_y <= y <= max_y,
                min_x <= x,
                x <= max_x + 1 || x == min_x,
                forall|i: int|
                    0 <= i < w * h ==> frame.cells@[i] == (if row(i, wi) < y || (row(i, wi) == y
                        && col(i, wi) < x) {
                        fc[i]
                    } else {
                        cells0[i]
                    }) && frame.depth@[i] == (if row(i, wi) < y || (row(i, wi) == y && col(i, wi)
                        < x) {
                        fd[i]
                    } else {
                        depth0[i]
                    }),
            decreases max_x + 1 - x,
        {
            let e0 = edge_exec(b, c, x, y);
            let e1 = edge_exec(c, a, x, y);
            let e2 = edge_exec(a, b, x, y);
            let i = index(x as usize, y as usize, w, h);
            let ghost gi = i as int;
            let is_in = (s > 0 && e0 >= 0 && e1 >= 0 && e2 >= 0) || (s < 0 && e0 <= 0 && e1 <= 0
                && e2 <= 0);
            proof {
                assert(in_box(a, b, c, wi, hi, x as int, y as int));
                assert(is_in == inside(a, b, c, x as int, y as int));
            }
            if is_in {
                let n = weigh(e0, a.z) + weigh(e1, b.z) + weigh(e2, c.z);
                let d = if s > 0 {
                    div_toward_zero(n, s)
                } else {
                    div_toward_zero(-n, -s)
                };
                assert(d == depth_at(a, b, c, x as int, y as int));
                if d > frame.depth[i] {
                    let cell = brush_cell(&paint, e0, e1, e2, s);
                    frame.depth.set(i, d);
                    frame.cells.set(i, cell);
                }
            }
            proof {
                assert forall|k: int| 0 <= k < w * h implies frame.cells@[k] == (if row(k, wi) < y
                    || (row(k, wi) == y && col(k, wi) < x + 1) {
                    fc[k]
                } else {
                    cells0[k]
                }) && frame.depth@[k] == (if row(k, wi) < y || (row(k, wi) == y && col(k, wi) < x
                    + 1) {
                    fd[k]
                } else {
                    depth0[k]
                }) by {
                    lemma_cell(k, wi, hi);
                    if k != gi {
                        assert(!(row(k, wi) == y && col(k, wi) == x));
                    }
                }
            }
            x += 1;
        }
        proof {
            assert forall|k: int| 0 <= k < w * h implies frame.cells@[k] == (if row(k, wi) < y + 1 {
                fc[k]
            } else {
                cells0[k]
            }) && frame.depth@[k] == (if row(k, wi) < y + 1 {
                fd[k]
            } else {
                depth0[k]
            }) by {
                lemma_cell(k, wi, hi);
                if row(k, wi) == y && col(k, wi) >= x {
                    assert(!in_box(a, b, c, wi, hi, col(k, wi), row(k, wi)));
                }
            }
        }
        y += 1;
    }
    proof {
        assert forall|k: int| 0 <= k < w * h implies frame.cells@[k] == fc[k] && frame.depth@[k]
            == fd[k] by {
            lemma_cell(k, wi, hi);
            if row(k, wi) >= y {
                assert(!in_box(a, b, c, wi, hi, col(k, wi), row(k, wi)));
            }
        }
        assert(frame.cells@ =~= fc);
        assert(frame.depth@ =~= fd);
    }
}

/// The cell that wireframe edges draw.
pub open spec fn wire() -> Cell {
    Cell::Paint { glyph: Glyph::Dot, ink: Ink::Gray }
}

/// `cells` with pixel (x, y) set to the wire cell, if it lies on the screen.
pub open spec fn plot(cells: Seq<Cell>, w: int, h: int, x: int, y: int) -> Seq<Cell> {
    if 0 <= x < w && 0 <= y < h {
        cells.update(y * w + x, wire())
    } else {
        cells
    }
}

/// Bresenham's walk from (x, y) toward (x1, y1), plotting each pixel, for at most `fuel` steps.
pub open spec fn trace(
    cells: Seq<Cell>,
    w: int,
    h: int,
    x: int,
    y: int,
    x1: int,
    y1: int,
    dx: int,
    dy: int,
    sx: int,
    sy: int,
    err: int,
    fuel: nat,
) -> Seq<Cell>
    decreases fuel,
{
    let c = plot(cells, w, h, x, y);
    if (x == x1 && y == y1) || fuel == 0 {
        c
    } else {
        let e2 = 2 * err;
        let err1 = if e2 >= dy { err + dy } else { err };
        let nx = if e2 >= dy { x + sx } else { x };
        let err2 = if e2 <= dx { err1 + dx } else { err1 };
        let ny = if e2 <= dx { y + sy } else { y };
        trace(c, w, h, nx, ny, x1, y1, dx, dy, sx, sy, err2, (fuel - 1) as nat)
    }
}

/// Cells after drawing the segment from `p` to `q`; its `|dx| + |dy|` steps bound the walk.
pub open spec fn line_cells(cells: Seq<Cell>, w: int, h: int, p: Point3D, q: Point3D) -> Seq<Cell> {
    let dx = abs(q.x - p.x);
    let dy = -abs(q.y - p.y);
    let sx = if p.x < q.x { 1int } else { -1int };
    let sy = if p.y < q.y { 1int } else { -1int };
    trace(cells, w, h, p.x as int, p.y as int, q.x as int, q.y as int, dx, dy, sx, sy, dx + dy, (dx - dy) as nat)
}

fn plot_exec(frame: &mut Frame, x: i64, y: i64)
    requires
        old(frame).wf(),
    ensures
        final(frame).wf(),
        final(frame).width == old(frame).width,
        final(frame).height == old(frame).height,
        final(frame).depth@ == old(frame).depth@,
        final(frame).cells@ == plot(old(frame).cells@, old(frame).width as int, old(frame).height as int, x as int, y as int),
{
    if 0 <= y && y < frame.height as i64 && 0 <= x && x < frame.width as i64 {
        let i = index(x as usize, y as usize, frame.width, frame.height);
        frame.cells.set(i, Cell::Paint { glyph: Glyph::Dot, ink: Ink::Gray });
    }
}

/// Draws the segment from `start` to `end` with Bresenham's integer algorithm, over
/// whatever is in the frame and without a depth test.
pub fn draw_line(frame: &mut Frame, start: Point3D, end: Point3D)
    requires
        old(frame).wf(),
        start.wf(),
        end.wf(),
    ensures
        final(frame).wf(),
        final(frame).width == old(frame).width,
        final(frame).height == old(frame).height,
        final(frame).depth@ == old(frame).depth@,
        final(frame).cells@ == line_cells(old(frame).cells@, old(frame).width as int, old(frame).height as int, start, end),
{
    let ghost target = line_cells(frame.cells@, frame.width as int, frame.height as int, start, end);
    let ghost depth0 = frame.depth@;
    let ghost wi = frame.width as int;
    let ghost hi = frame.height as int;
    let mut x0 = start.x;
    let mut y0 = start.y;
    let x1 = end.x;
    let y1 = end.y;
    let dx: i64 = if x1 >= x0 { x1 - x0 } else { x0 - x1 };
    let sx: i64 = if x0 < x1 { 1 } else { -1 };
    let dy: i64 = if y1 >= y0 { y0 - y1 } else { y1 - y0 };
    let sy: i64 = if y0 < y1 { 1 } else { -1 };
    let mut err: i64 = dx + dy;
    let total: i64 = dx - dy;
    let mut fuel: i64 = total;
    loop
        invariant_except_break
            trace(frame.cells@, wi, hi, x0 as int, y0 as int, x1 as int, y1 as int, dx as int, dy as int,
                sx as int, sy as int, err as int, fuel as nat) == target,
        invariant
            frame.wf(),
            frame.width == wi,
            frame.height == hi,
            frame.depth@ == depth0,
            0 <= dx <= 0x20_0000,
            -0x20_0000 <= dy <= 0,
            total == dx - dy,
            0 <= fuel <= total,
            sx == 1 || sx == -1,
            sy == 1 || sy == -1,
            abs(x0 - start.x) <= total - fuel,
            abs(y0 - start.y) <= total - fuel,
            abs(err as int) <= 0x80_0000 * (total - fuel + 1),
            abs(start.x as int) <= PIXEL_LIMIT,
            abs(start.y as int) <= PIXEL_LIMIT,
        ensures
            frame.wf(),
            frame.width == wi,
            frame.height == hi,
            frame.depth@ == depth0,
            frame.cells@ == target,
        decreases fuel,
    {
        plot_exec(frame, x0, y0);
        if (x0 == x1 && y0 == y1) || fuel == 0 {
            break;
        }
        let e2 = 2 * err;
        if e2 >= dy {
            err += dy;
            x0 += sx;
        }
        if e2 <= dx {
            err += dx;
            y0 += sy;
        }
        fuel -= 1;
    }
}

/// Two triangles that both cover cell `i`, where the second lies closer than the
/// first and than what was stored: whichever order they are filled in, the cell
/// ends with the closer triangle's paint and depth.
pub proof fn lemma_closer_wins_either_order(
    cells: Seq<Cell>,
    depth: Seq<i128>,
    w: int,
    h: int,
    a1: Point3D,
    b1: Point3D,
    c1: Point3D,
    brush_far: Brush,
    a2: Point3D,
    b2: Point3D,
    c2: Point3D,
    brush_near: Brush,
    i: int,
)
    requires
        cells.len() == depth.len(),
        0 <= i < cells.len(),
        covers(a1, b1, c1, w, h, col(i, w), row(i, w)),
        covers(a2, b2, c2, w, h, col(i, w), row(i, w)),
        depth_at(a2, b2, c2, col(i, w), row(i, w)) > depth_at(a1, b1, c1, col(i, w), row(i, w)),
        depth_at(a2, b2, c2, col(i, w), row(i, w)) > depth[i],
        depth_at(a1, b1, c1, col(i, w), row(i, w)) >= i128::MIN,
        depth_at(a2, b2, c2, col(i, w), row(i, w)) <= i128::MAX,
    ensures
        ({
            let c_a = fill_cells(cells, depth, w, h, a1, b1, c1, brush_far);
            let d_a = fill_depth(depth, w, h, a1, b1, c1);
            fill_cells(c_a, d_a, w, h, a2, b2, c2, brush_near)[i] == brush_at(brush_near, a2, b2, c2, col(i, w), row(i, w))
        }),
        ({
            let c_b = fill_cells(cells, depth, w, h, a2, b2, c2, brush_near);
            let d_b = fill_depth(depth, w, h, a2, b2, c2);
            fill_cells(c_b, d_b, w, h, a1, b1, c1, brush_far)[i] == brush_at(brush_near, a2, b2, c2, col(i, w), row(i, w))
        }),
{
    let d_a = fill_depth(depth, w, h, a1, b1, c1);
    assert(d_a[i] <= depth[i] || d_a[i] == depth_at(a1, b1, c1, col(i, w), row(i, w)));
    let d_b = fill_depth(depth, w, h, a2, b2, c2);
    assert(d_b[i] == depth_at(a2, b2, c2, col(i, w), row(i, w)));
}

/// A canvas: cells and depths.
pub type Canvas = (Seq<Cell>, Seq<i128>);

/// The canvas after filling one triangle, shaded in `ink`.
pub open spec fn fill_step(cv: Canvas, w: int, h: int, a: Point3D, b: Point3D, c: Point3D, ink: Ink) -> Canvas {
    (
        fill_cells(cv.0, cv.1, w, h, a, b, c, Brush::Flat(Cell::Paint { glyph: shade_of(a, b, c), ink })),
        fill_depth(cv.1, w, h, a, b, c),
    )
}

/// The canvas after filling the triangles `ts` of `pts`, in order.
pub open spec fn fan_fill(cv: Canvas, w: int, h: int, pts: Seq<Point3D>, ts: Seq<Tri>, ink: Ink) -> Canvas
    decreases ts.len(),
{
    if ts.len() == 0 {
        cv
    } else {
        let t = ts.last();
        fill_step(fan_fill(cv, w, h, pts, ts.drop_last(), ink), w, h, pts[t.0 as int], pts[t.1 as int], pts[t.2 as int], ink)
    }
}

/// Cells after drawing the first `n` edges of the closed polygon `f`.
pub open spec fn outline(cells: Seq<Cell>, w: int, h: int, pts: Seq<Point3D>, f: Seq<usize>, n: nat) -> Seq<Cell>
    decreases n,
{
    if n == 0 {
        cells
    } else {
        line_cells(
            outline(cells, w, h, pts, f, (n - 1) as nat),
            w,
            h,
            pts[f[n - 1] as int],
            pts[f[(n % f.len()) as int] as int],
        )
    }
}

/// The canvas after drawing one face: its fan filled, then its outline if `wireframe`.
pub open spec fn face_step(cv: Canvas, w: int, h: int, pts: Seq<Point3D>, f: Seq<usize>, wireframe: bool, ink: Ink) -> Canvas {
    if f.len() < 3 {
        cv
    } else {
        let filled = fan_fill(cv, w, h, pts, fan_of(f), ink);
        if wireframe {
            (outline(filled.0, w, h, pts, f, f.len()), filled.1)
        } else {
            filled
        }
    }
}

/// The canvas after drawing the faces `fs`, in order.
pub open spec fn render_faces(cv: Canvas, w: int, h: int, pts: Seq<Point3D>, fs: Seq<Seq<usize>>, wireframe: bool, ink: Ink) -> Canvas
    decreases fs.len(),
{
    if fs.len() == 0 {
        cv
    } else {
        face_step(render_faces(cv, w, h, pts, fs.drop_last(), wireframe, ink), w, h, pts, fs.last(), wireframe, ink)
    }
}

/// A canvas of `n` undrawn cells at the far depth.
pub open spec fn blank(n: int) -> Canvas {
    (Seq::new(n as nat, |i: int| Cell::Empty), Seq::new(n as nat, |i: int| FAR))
}

/// Every point lies within the projection limits.
pub open spec fn points_wf(pts: Seq<Point3D>) -> bool {
    forall|i: int| 0 <= i < pts.len() ==> #[trigger] pts[i].wf()
}

/// Draws every face of the mesh into a fresh `width` by `height` frame: each
/// face's fan triangles filled with depth test and shading in `ink`, then, when
/// `wireframe` is set, its closed outline. Faces of fewer than three indices are skipped.
pub fn render(points: &Vec<Point3D>, faces: &Vec<Face>, width: usize, height: usize, wireframe: bool, ink: Ink) -> (f: Frame)
    requires
        points_wf(points@),
        faces_valid(points@.len() as int, face_lists(faces@)),
        width <= SCREEN_LIMIT,
        height <= SCREEN_LIMIT,
    ensures
        f.wf(),
        f.width == width,
        f.height == height,
        (f.cells@, f.depth@) == render_faces(
            blank(width * height),
            width as int,
            height as int,
            points@,
            face_lists(faces@),
            wireframe,
            ink,
        ),
{
    let mut frame = Frame::new(width, height);
    let ghost pts = points@;
    let ghost fs = face_lists(faces@);
    let ghost wi = width as int;
    let ghost hi = height as int;
    proof {
        assert((frame.cells@, frame.depth@) =~= blank(width * height));
        assert(fs.take(0) =~= Seq::<Seq<usize>>::empty());
    }
    let mut k: usize = 0;
    while k < faces.len()
        invariant
            frame.wf(),
            frame.width == width,
            frame.height == height,
            wi == width,
            hi == height,
            pts == points@,
            fs == face_lists(faces@),
            points_wf(pts),
            faces_valid(pts.len() as int, fs),
            0 <= k <= fs.len(),
            (frame.cells@, frame.depth@) == render_faces(blank(width * height), wi, hi, pts, fs.take(k as int), wireframe, ink),
        decreases fs.len() - k,
    {
        let ghost before = (frame.cells@, frame.depth@);
        let ghost f = fs[k as int];
        proof {
            assert(fs.take(k + 1).drop_last() =~= fs.take(k as int));
        }
        let m = faces[k].vertices.len();
        if m >= 3 {
            let mut i: usize = 1;
            proof {
                assert(fan_of(f).take(0) =~= Seq::<Tri>::empty());
            }
            while i < m - 1
                invariant
                    frame.wf(),
                    frame.width == width,
                    frame.height == height,
                    wi == width,
                    hi == height,
                    pts == points@,
                    fs == face_lists(faces@),
                    points_wf(pts),
                    faces_valid(pts.len() as int, fs),
                    0 <= k < fs.len(),
                    f == fs[k as int],
                    m == f.len(),
                    m >= 3,
                    1 <= i <= m - 1,
                    (frame.cells@, frame.depth@) == fan_fill(before, wi, hi, pts, fan_of(f).take(i - 1), ink),
                decreases m - 1 - i,
            {
                proof {
                    assert(fan_of(f).take(i as int).drop_last() =~= fan_of(f).take(i - 1));
                }
                let a = points[faces[k].vertices[0]];
                let b = points[faces[k].vertices[i]];
                let c = points[faces[k].vertices[i + 1]];
                let paint = get_shade_from_normal(a, b, c, ink);
                fill_triangle(&mut frame, a, b, c, Brush::Flat(paint));
                i += 1;
            }
            proof {
                assert(fan_of(f).take(m - 2) =~= fan_of(f));
            }
            if wireframe {
                let ghost filled = (frame.cells@, frame.depth@);
                let mut j: usize = 0;
                while j < m
                    invariant
                        frame.wf(),
                        frame.width == width,
                        frame.height == height,
                        wi == width,
                        hi == height,
                        pts == points@,
                        fs == face_lists(faces@),
                        points_wf(pts),
                        faces_valid(pts.len() as int, fs),
                        0 <= k < fs.len(),
                        f == fs[k as int],
                        m == f.len(),
                        0 <= j <= m,
                        frame.depth@ == filled.1,
                        frame.cells@ == outline(filled.0, wi, hi, pts, f, j as nat),
                    decreases m - j,
                {
                    let p = points[faces[k].vertices[j]];
                    let q = points[faces[k].vertices[(j + 1) % m]];
                    draw_line(&mut frame, p, q);
                    j += 1;
                }
            }
        }
        k += 1;
    }
    proof {
        assert(fs.take(fs.len() as int) =~= fs);
    }
    frame
}

/// A mesh of one triangle whose projection has non-zero area draws a non-empty
/// cell at its first vertex, when that vertex lies on the screen.
pub proof fn lemma_single_triangle_draws(pts: Seq<Point3D>, w: int, h: int, ink: Ink)
    requires
        pts.len() == 3,
        points_wf(pts),
        area(pts[0], pts[1], pts[2]) != 0,
        0 <= pts[0].x < w,
        0 <= pts[0].y < h,
    ensures
        render_faces(blank(w * h), w, h, pts, seq![seq![0usize, 1usize, 2usize]], false, ink).0[pts[0].y * w + pts[0].x]
            != Cell::Empty,
{
    let a = pts[0];
    let b = pts[1];
    let c = pts[2];
    let fs = seq![seq![0usize, 1usize, 2usize]];
    let f = fs[0];
    let ts = fan_of(f);
    assert(ts.len() == 1);
    assert(ts[0] == (0usize, 1usize, 2usize));
    assert(ts.drop_last() =~= Seq::<Tri>::empty());
    assert(fs.drop_last() =~= Seq::<Seq<usize>>::empty());
    let cv = blank(w * h);
    assert(render_faces(cv, w, h, pts, fs.drop_last(), false, ink) == cv);
    assert(render_faces(cv, w, h, pts, fs, false, ink) == face_step(cv, w, h, pts, f, false, ink));
    assert(face_step(cv, w, h, pts, f, false, ink) == fan_fill(cv, w, h, pts, ts, ink));
    assert(fan_fill(cv, w, h, pts, ts.drop_last(), ink) == cv);
    assert(fan_fill(cv, w, h, pts, ts, ink) == fill_step(cv, w, h, a, b, c, ink));
    let i = a.y * w + a.x;
    lemma_index(a.x as int, a.y as int, w, h);
    let s = area(a, b, c);
    let (ax, ay, bx, by, cx, cy) = (a.x as int, a.y as int, b.x as int, b.y as int, c.x as int, c.y as int);
    assert((cx - bx) * (ay - by) - (cy - by) * (ax - bx) == (bx - ax) * (cy - ay) - (cx - ax) * (by - ay))
        by (nonlinear_arith);
    assert(edge(b, c, a.x as int, a.y as int) == s);
    assert((ax - cx) * (ay - cy) - (ay - cy) * (ax - cx) == 0) by (nonlinear_arith);
    assert(edge(c, a, a.x as int, a.y as int) == 0);
    assert((bx - ax) * (ay - ay) - (by - ay) * (ax - ax) == 0) by (nonlinear_arith);
    assert(edge(a, b, a.x as int, a.y as int) == 0);
    assert(inside(a, b, c, a.x as int, a.y as int));
    assert(in_box(a, b, c, w, h, a.x as int, a.y as int));
    let n = s * a.z;
    assert(edge(b, c, a.x as int, a.y as int) * a.z + edge(c, a, a.x as int, a.y as int) * b.z + edge(a, b, a.x as int, a.y as int) * c.z == n) by (nonlinear_arith)
        requires
            edge(b, c, a.x as int, a.y as int) == s,
            edge(c, a, a.x as int, a.y as int) == 0,
            edge(a, b, a.x as int, a.y as int) == 0,
            n == s * a.z,
    ;
    if s > 0 {
        vstd::arithmetic::div_mod::lemma_div_multiples_vanish(a.z as int, s);
        if a.z < 0 {
            assert(-n == s * (-a.z)) by (nonlinear_arith)
                requires
                    n == s * a.z,
            ;
            vstd::arithmetic::div_mod::lemma_div_multiples_vanish(-a.z, s);
        }
        assert(n == s * a.z);
        assert(depth_at(a, b, c, a.x as int, a.y as int) == a.z) by (nonlinear_arith)
            requires
                s > 0,
                n == s * a.z,
                depth_at(a, b, c, a.x as int, a.y as int) == trunc_div(n, s),
                a.z >= 0 ==> (s * a.z) / s == a.z,
                a.z < 0 ==> (s * (-a.z)) / s == -a.z,
                a.z < 0 ==> -n == s * (-a.z),
        ;
    } else {
        let t = -s;
        vstd::arithmetic::div_mod::lemma_div_multiples_vanish(a.z as int, t);
        vstd::arithmetic::div_mod::lemma_div_multiples_vanish(-a.z, t);
        assert(-n == t * a.z) by (nonlinear_arith)
            requires
                n == s * a.z,
                t == -s,
        ;
        assert(n == t * (-a.z)) by (nonlinear_arith)
            requires
                n == s * a.z,
                t == -s,
        ;
    }
    assert(depth_at(a, b, c, a.x as int, a.y as int) == a.z);
    assert(wins(cv.1, w, h, a, b, c, i));
}

} // verus!
