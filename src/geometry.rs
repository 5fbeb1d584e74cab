//! Rotation about the three axes and projection onto the screen.

use vstd::prelude::*;
use crate::fixed::{UNIT, UNIT_SQ, trunc_div, div_toward_zero, div_floor};

verus! {

/// A point of object space, each coordinate in fixed point.
#[derive(Clone, Copy, Debug, PartialEq, Eq, Structural)]
pub struct Vertex {
    pub x: i64,
    pub y: i64,
    pub z: i64,
}

/// Cosine and sine of one rotation angle, in fixed point.
#[derive(Clone, Copy, Debug, PartialEq, Eq, Structural)]
pub struct Trig {
    pub cos: i64,
    pub sin: i64,
}

/// A projected vertex: pixel column and row, and the depth it kept.
#[derive(Clone, Copy, Debug, PartialEq, Eq, Structural)]
pub struct Point3D {
    pub x: i64,
    pub y: i64,
    pub z: i64,
}

/// Largest magnitude that rotation accepts in a coordinate.
pub const COORD_LIMIT: i64 = 0x0400_0000_0000_0000;

/// Largest magnitude of a pixel coordinate; projection saturates beyond it.
pub const PIXEL_LIMIT: i64 = 0x10_0000;

/// Largest magnitude of a depth; projection saturates beyond it.
pub const DEPTH_LIMIT: i64 = 0x10_0000_0000;

/// Largest scale factor accepted by projection.
pub const SCALE_LIMIT: i64 = 0x4_0000_0000_0000;

/// Largest width or height of a screen.
pub const SCREEN_LIMIT: i64 = 0x8000;

pub open spec fn abs(a: int) -> int {
    if a < 0 {
        -a
    } else {
        a
    }
}

impl Vertex {
    /// Every coordinate is at most `b` in magnitude.
    pub open spec fn within(self, b: int) -> bool {
        abs(self.x as int) <= b && abs(self.y as int) <= b && abs(self.z as int) <= b
    }
}

impl Trig {
    /// Both components lie in [-1, 1].
    pub open spec fn wf(self) -> bool {
        -UNIT <= self.cos <= UNIT && -UNIT <= self.sin <= UNIT
    }

    /// The rotation by zero degrees.
    pub fn identity() -> (t: Trig)
        ensures
            t.wf(),
            t.cos == UNIT,
            t.sin == 0,
    {
        Trig { cos: UNIT, sin: 0 }
    }

    /// A cosine/sine pair, or `None` when either component lies outside [-1, 1].
    pub fn new(cos: i64, sin: i64) -> (r: Option<Trig>)
        ensures
            r matches Some(t) ==> t.wf() && t.cos == cos && t.sin == sin,
            r is None <==> !(Trig { cos, sin }).wf(),
    {
        if -UNIT <= cos && cos <= UNIT && -UNIT <= sin && sin <= UNIT {
            Some(Trig { cos, sin })
        } else {
            None
        }
    }
}

/// `a * c - b * s` taken back to fixed point, rounding toward zero.
pub open spec fn turn(a: int, b: int, c: int, s: int) -> int {
    trunc_div(a * c - b * s, UNIT as int)
}

pub open spec fn rot_x(v: Vertex, t: Trig) -> Vertex {
    Vertex {
        x: v.x,
        y: turn(v.y as int, v.z as int, t.cos as int, t.sin as int) as i64,
        z: turn(v.y as int, -v.z, t.sin as int, t.cos as int) as i64,
    }
}

pub open spec fn rot_y(v: Vertex, t: Trig) -> Vertex {
    Vertex {
        x: turn(v.x as int, -v.z, t.cos as int, t.sin as int) as i64,
        y: v.y,
        z: turn(v.z as int, v.x as int, t.cos as int, t.sin as int) as i64,
    }
}

pub open spec fn rot_z(v: Vertex, t: Trig) -> Vertex {
    Vertex {
        x: turn(v.x as int, v.y as int, t.cos as int, t.sin as int) as i64,
        y: turn(v.x as int, -v.y, t.sin as int, t.cos as int) as i64,
        z: v.z,
    }
}

/// Rotation about X, then Y, then Z.
pub open spec fn rot_xyz(v: Vertex, tx: Trig, ty: Trig, tz: Trig) -> Vertex {
    rot_z(rot_y(rot_x(v, tx), ty), tz)
}

proof fn lemma_turn_bound(a: int, b: int, c: int, s: int, m: int)
    requires
        abs(a) <= m,
        abs(b) <= m,
        abs(c) <= UNIT,
        abs(s) <= UNIT,
    ensures
        abs(turn(a, b, c, s)) <= 2 * m,
{
    let p = a * c - b * s;
    assert(abs(a * c) <= m * UNIT) by (nonlinear_arith)
        requires
            abs(a) <= m,
            abs(c) <= UNIT,
    ;
    assert(abs(b * s) <= m * UNIT) by (nonlinear_arith)
        requires
            abs(b) <= m,
            abs(s) <= UNIT,
    ;
    assert(abs(p) <= 2 * m * UNIT);
    let u = UNIT as int;
    if p >= 0 {
        assert(p / u <= 2 * m) by (nonlinear_arith)
            requires
                0 <= p <= 2 * m * u,
                u > 0,
        ;
        assert(p / u >= 0) by (nonlinear_arith)
            requires
                0 <= p,
                u > 0,
        ;
    } else {
        assert((-p) / u <= 2 * m) by (nonlinear_arith)
            requires
                0 <= -p <= 2 * m * u,
                u > 0,
        ;
        assert((-p) / u >= 0) by (nonlinear_arith)
            requires
                0 <= -p,
                u > 0,
        ;
    }
}

/// `(a * c - b * s) / UNIT`, rounded toward zero.
fn turn_exec(a: i64, b: i64, c: i64, s: i64) -> (r: i64)
    requires
        abs(a as int) <= COORD_LIMIT,
        abs(b as int) <= COORD_LIMIT,
        abs(c as int) <= UNIT,
        abs(s as int) <= UNIT,
    ensures
        r == turn(a as int, b as int, c as int, s as int),
        abs(r as int) <= 2 * (if abs(a as int) > abs(b as int) { abs(a as int) } else { abs(b as int) }),
{
    let m: Ghost<int> = Ghost(if abs(a as int) > abs(b as int) { abs(a as int) } else { abs(b as int) });
    assert(abs(a as int * c as int) <= COORD_LIMIT * UNIT) by (nonlinear_arith)
        requires
            abs(a as int) <= COORD_LIMIT,
            abs(c as int) <= UNIT,
    ;
    assert(abs(b as int * s as int) <= COORD_LIMIT * UNIT) by (nonlinear_arith)
        requires
            abs(b as int) <= COORD_LIMIT,
            abs(s as int) <= UNIT,
    ;
    let p: i128 = (a as i128) * (c as i128) - (b as i128) * (s as i128);
    let q = div_toward_zero(p, UNIT as i128);
    proof {
        lemma_turn_bound(a as int, b as int, c as int, s as int, m@);
    }
    q as i64
}

/// Rotation about the X axis: pitch.
pub fn rotate_x(v: &Vertex, t: Trig) -> (r: Vertex)
    requires
        v.within(COORD_LIMIT as int),
        t.wf(),
    ensures
        r == rot_x(*v, t),
{
    Vertex {
        x: v.x,
        y: turn_exec(v.y, v.z, t.cos, t.sin),
        z: turn_exec(v.y, -v.z, t.sin, t.cos),
    }
}

/// Rotation about the Y axis: yaw.
pub fn rotate_y(v: &Vertex, t: Trig) -> (r: Vertex)
    requires
        v.within(COORD_LIMIT as int),
        t.wf(),
    ensures
        r == rot_y(*v, t),
{
    Vertex {
        x: turn_exec(v.x, -v.z, t.cos, t.sin),
        y: v.y,
        z: turn_exec(v.z, v.x, t.cos, t.sin),
    }
}

/// Rotation about the Z axis: roll.
pub fn rotate_z(v: &Vertex, t: Trig) -> (r: Vertex)
    requires
        v.within(COORD_LIMIT as int),
        t.wf(),
    ensures
        r == rot_z(*v, t),
{
    Vertex {
        x: turn_exec(v.x, v.y, t.cos, t.sin),
        y: turn_exec(v.x, -v.y, t.sin, t.cos),
        z: v.z,
    }
}

/// Largest magnitude that the three-axis transform accepts in a coordinate.
pub const TRANSFORM_LIMIT: i64 = 0x0100_0000_0000_0000;

pub(crate) proof fn lemma_rot_bounds(v: Vertex, t: Trig, m: int)
    requires
        v.within(m),
        0 <= m <= COORD_LIMIT,
        t.wf(),
    ensures
        rot_x(v, t).within(2 * m),
        rot_y(v, t).within(2 * m),
        rot_z(v, t).within(2 * m),
{
    lemma_turn_bound(v.y as int, v.z as int, t.cos as int, t.sin as int, m);
    lemma_turn_bound(v.y as int, -v.z, t.sin as int, t.cos as int, m);
    lemma_turn_bound(v.x as int, -v.z, t.cos as int, t.sin as int, m);
    lemma_turn_bound(v.z as int, v.x as int, t.cos as int, t.sin as int, m);
    lemma_turn_bound(v.x as int, v.y as int, t.cos as int, t.sin as int, m);
    lemma_turn_bound(v.x as int, -v.y, t.sin as int, t.cos as int, m);
}

/// Rotation about X, then Y, then Z; the order fixes which angle is pitch and which is roll.
pub fn rotate_xyz(v: &Vertex, tx: Trig, ty: Trig, tz: Trig) -> (r: Vertex)
    requires
        v.within(TRANSFORM_LIMIT as int),
        tx.wf(),
        ty.wf(),
        tz.wf(),
    ensures
        r == rot_xyz(*v, tx, ty, tz),
        r.within(8 * TRANSFORM_LIMIT),
{
    proof {
        lemma_rot_bounds(*v, tx, TRANSFORM_LIMIT as int);
        lemma_rot_bounds(rot_x(*v, tx), ty, 2 * TRANSFORM_LIMIT);
        lemma_rot_bounds(rot_y(rot_x(*v, tx), ty), tz, 4 * TRANSFORM_LIMIT);
    }
    let r1 = rotate_x(v, tx);
    let r2 = rotate_y(&r1, ty);
    rotate_z(&r2, tz)
}

proof fn lemma_turn_identity(a: int)
    ensures
        turn(a, 0, UNIT as int, 0) == a,
        turn(0, -a, 0, UNIT as int) == a,
{
    let u = UNIT as int;
    assert(a * u - 0 * 0 == a * u) by (nonlinear_arith);
    assert(0 * 0 - (-a) * u == a * u) by (nonlinear_arith);
    if a >= 0 {
        vstd::arithmetic::div_mod::lemma_div_by_multiple(a, u);
    } else {
        vstd::arithmetic::div_mod::lemma_div_by_multiple(-a, u);
        assert((-a) * u == -(a * u)) by (nonlinear_arith);
    }
}

/// Turning by zero degrees about all three axes leaves every vertex where it was.
pub proof fn lemma_zero_rotation_is_identity(v: Vertex)
    ensures
        rot_xyz(v, Trig { cos: UNIT, sin: 0 }, Trig { cos: UNIT, sin: 0 }, Trig { cos: UNIT, sin: 0 })
            == v,
{
    lemma_turn_identity(v.x as int);
    lemma_turn_identity(v.y as int);
    lemma_turn_identity(v.z as int);
    assert(turn(v.y as int, v.z as int, UNIT as int, 0) == turn(v.y as int, 0, UNIT as int, 0))
        by (nonlinear_arith);
    assert(turn(v.y as int, -v.z, 0, UNIT as int) == turn(0, -v.z, 0, UNIT as int))
        by (nonlinear_arith);
    assert(turn(v.x as int, -v.z, UNIT as int, 0) == turn(v.x as int, 0, UNIT as int, 0))
        by (nonlinear_arith);
    assert(turn(v.z as int, v.x as int, UNIT as int, 0) == turn(v.z as int, 0, UNIT as int, 0))
        by (nonlinear_arith);
    assert(turn(v.x as int, v.y as int, UNIT as int, 0) == turn(v.x as int, 0, UNIT as int, 0))
        by (nonlinear_arith);
    assert(turn(v.x as int, -v.y, 0, UNIT as int) == turn(0, -v.y, 0, UNIT as int))
        by (nonlinear_arith);
}

/// `a` held to [-lim, lim].
pub open spec fn saturate(a: int, lim: int) -> int {
    if a > lim {
        lim
    } else if a < -lim {
        -lim
    } else {
        a
    }
}

/// `c * scale + size / 2` on the pixel grid, rounded to nearest (halves upward).
pub open spec fn to_pixel(c: int, scale: int, size: int) -> int {
    let uu = UNIT_SQ as int;
    (2 * c * scale + size * uu + uu) / (2 * uu)
}

/// Orthographic projection onto a `width` by `height` screen.
pub open spec fn proj(v: Vertex, width: int, height: int, scale: int) -> Point3D {
    Point3D {
        x: saturate(to_pixel(v.x as int, scale, width), PIXEL_LIMIT as int) as i64,
        y: saturate(to_pixel(v.y as int, scale, height), PIXEL_LIMIT as int) as i64,
        z: saturate(v.z as int, DEPTH_LIMIT as int) as i64,
    }
}

impl Point3D {
    /// Pixel coordinates and depth lie within the saturation limits.
    pub open spec fn wf(self) -> bool {
        abs(self.x as int) <= PIXEL_LIMIT && abs(self.y as int) <= PIXEL_LIMIT && abs(self.z as int)
            <= DEPTH_LIMIT
    }
}

fn to_pixel_exec(c: i64, scale: i64, size: i64) -> (r: i64)
    requires
        0 <= scale <= SCALE_LIMIT,
        0 <= size <= SCREEN_LIMIT,
    ensures
        r == saturate(to_pixel(c as int, scale as int, size as int), PIXEL_LIMIT as int),
{
    let uu: i128 = UNIT_SQ;
    assert(abs(2 * c * scale) <= 2 * 0x8000_0000_0000_0000 * SCALE_LIMIT) by (nonlinear_arith)
        requires
            0 <= scale <= SCALE_LIMIT,
            abs(c as int) <= 0x8000_0000_0000_0000,
    ;
    assert(size * uu <= SCREEN_LIMIT * uu) by (nonlinear_arith)
        requires
            0 <= size <= SCREEN_LIMIT,
            uu > 0,
    ;
    let n: i128 = 2 * (c as i128) * (scale as i128) + (size as i128) * uu + uu;
    let p = div_floor(n, 2 * uu);
    if p > PIXEL_LIMIT as i128 {
        PIXEL_LIMIT
    } else if p < -(PIXEL_LIMIT as i128) {
        -PIXEL_LIMIT
    } else {
        p as i64
    }
}

/// Orthographic projection: `round(x * scale + width / 2)`, `round(y * scale + height / 2)`,
/// depth carried through; coordinates beyond the limits saturate.
pub fn project(v: &Vertex, width: i64, height: i64, scale: i64) -> (p: Point3D)
    requires
        0 <= scale <= SCALE_LIMIT,
        0 <= width <= SCREEN_LIMIT,
        0 <= height <= SCREEN_LIMIT,
    ensures
        p == proj(*v, width as int, height as int, scale as int),
        p.wf(),
{
    let z = if v.z > DEPTH_LIMIT {
        DEPTH_LIMIT
    } else if v.z < -DEPTH_LIMIT {
        -DEPTH_LIMIT
    } else {
        v.z
    };
    Point3D {
        x: to_pixel_exec(v.x, scale, width),
        y: to_pixel_exec(v.y, scale, height),
        z,
    }
}

/// Every vertex rotated about X, then Y, then Z, and projected onto the screen.
pub fn project_all(
    vertices: &Vec<Vertex>,
    tx: Trig,
    ty: Trig,
    tz: Trig,
    width: i64,
    height: i64,
    scale: i64,
) -> (pts: Vec<Point3D>)
    requires
        forall|i: int| 0 <= i < vertices@.len() ==> #[trigger] vertices@[i].within(TRANSFORM_LIMIT as int),
        tx.wf(),
        ty.wf(),
        tz.wf(),
        0 <= scale <= SCALE_LIMIT,
        0 <= width <= SCREEN_LIMIT,
        0 <= height <= SCREEN_LIMIT,
    ensures
        pts@.len() == vertices@.len(),
        forall|i: int|
            0 <= i < pts@.len() ==> #[trigger] pts@[i] == proj(
                rot_xyz(vertices@[i], tx, ty, tz),
                width as int,
                height as int,
                scale as int,
            ) && pts@[i].wf(),
{
    let mut pts: Vec<Point3D> = Vec::new();
    let mut i: usize = 0;
    while i < vertices.len()
        invariant
            0 <= i <= vertices@.len(),
            pts@.len() == i,
            forall|k: int| 0 <= k < vertices@.len() ==> #[trigger] vertices@[k].within(TRANSFORM_LIMIT as int),
            tx.wf(),
            ty.wf(),
            tz.wf(),
            0 <= scale <= SCALE_LIMIT,
            0 <= width <= SCREEN_LIMIT,
            0 <= height <= SCREEN_LIMIT,
            forall|k: int|
                0 <= k < i ==> #[trigger] pts@[k] == proj(
                    rot_xyz(vertices@[k], tx, ty, tz),
                    width as int,
                    height as int,
                    scale as int,
                ) && pts@[k].wf(),
        decreases vertices@.len() - i,
    {
        let r = rotate_xyz(&vertices[i], tx, ty, tz);
        let p = project(&r, width, height, scale);
        pts.push(p);
        i += 1;
    }
    pts
}

} // verus!
