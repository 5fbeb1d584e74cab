//! The smooth-shaded renderer: vertex triples with normals and colours, seen in perspective.

use vstd::prelude::*;
use crate::fixed::{UNIT, trunc_div, div_toward_zero};
use crate::geometry::{Vertex, Point3D, Trig, rot_xyz, rot_x, rot_y, rotate_xyz, lemma_rot_bounds, saturate, abs, PIXEL_LIMIT, DEPTH_LIMIT, SCALE_LIMIT, SCREEN_LIMIT};
use crate::mesh::{Face, Tri, face_lists, faces_valid, fan, fan_of, lemma_fan_prefix};
use crate::raster::{Frame, Rgb, Surface, Brush, Canvas, blank, fill_cells, fill_depth, fill_triangle, SURFACE_LIMIT};
use crate::shade::{Ink, ink_from_name, ink_named, lower_of};

verus! {

/// A corner of a triangle handed to the smooth renderer.
#[derive(Clone, Copy, Debug, PartialEq, Eq, Structural)]
pub struct ShadedVertex {
    pub position: Vertex,
    pub normal: Vertex,
    pub color: Rgb,
}

/// Distance of the camera behind the origin: three units.
pub const CAMERA_DISTANCE: i64 = 3_000_000;

/// Nearest depth in front of the camera that is drawn: a tenth of a unit.
pub const NEAR: i64 = 100_000;

/// Tangent of half the sixty-degree field of view, tan 30 degrees, in fixed point.
pub const TAN_HALF_FOV: i64 = 577_350;

/// Largest coordinate magnitude that the perspective projection accepts.
pub const PERSPECTIVE_LIMIT: i64 = 0x20_0000_0000_0000;

/// Largest coordinate magnitude that zooming accepts.
pub const ZOOM_LIMIT: i64 = 0x100_0000;

/// Where a point behind the near plane is sent: off the screen to the left.
pub open spec fn behind() -> Point3D {
    Point3D { x: -1000i64, y: -1000i64, z: -1_000_000_000i64 }
}

/// Perspective projection onto a `w` by `h` screen: the point is moved the
/// camera distance away, divided by its depth times tan(fov / 2), stretched by
/// the aspect ratio, and mapped from [-1, 1] to pixels, rounding toward zero.
pub open spec fn persp(v: Vertex, w: int, h: int) -> Point3D {
    let z = v.z + CAMERA_DISTANCE;
    if z <= NEAR {
        behind()
    } else {
        let d = z * TAN_HALF_FOV;
        Point3D {
            x: saturate(trunc_div((v.x * UNIT * w + d * h) * w, 2 * d * h), PIXEL_LIMIT as int) as i64,
            y: saturate(trunc_div((d - v.y * UNIT) * h, 2 * d), PIXEL_LIMIT as int) as i64,
            z: saturate(z, DEPTH_LIMIT as int) as i64,
        }
    }
}

impl ShadedVertex {
    pub open spec fn wf(self) -> bool {
        &&& self.position.within(PERSPECTIVE_LIMIT as int)
        &&& self.normal.within(SURFACE_LIMIT as int)
        &&& self.color.within(SURFACE_LIMIT as int)
    }
}

/// Every vertex lies within the renderer's limits.
pub open spec fn shaded_wf(vs: Seq<ShadedVertex>) -> bool {
    forall|i: int| 0 <= i < vs.len() ==> #[trigger] vs[i].wf()
}

fn clamp_pixel(p: i128) -> (r: i64)
    ensures
        r == saturate(p as int, PIXEL_LIMIT as int),
{
    if p > PIXEL_LIMIT as i128 {
        PIXEL_LIMIT
    } else if p < -(PIXEL_LIMIT as i128) {
        -PIXEL_LIMIT
    } else {
        p as i64
    }
}

/// Perspective projection of one vertex.
pub fn project_perspective(v: &Vertex, width: i64, height: i64) -> (p: Point3D)
    requires
        v.within(PERSPECTIVE_LIMIT as int),
        0 <= width <= SCREEN_LIMIT,
        0 < height <= SCREEN_LIMIT,
    ensures
        p == persp(*v, width as int, height as int),
        p.wf(),
{
    let z: i64 = v.z + CAMERA_DISTANCE;
    if z <= NEAR {
        return Point3D { x: -1000, y: -1000, z: -1_000_000_000 };
    }
    let w = width as i128;
    let h = height as i128;
    let u = UNIT as i128;
    let x = v.x as i128;
    let y = v.y as i128;
    assert(0 < z * TAN_HALF_FOV <= 0x40_0000_0000_0000 * TAN_HALF_FOV) by (nonlinear_arith)
        requires
            NEAR < z <= 0x40_0000_0000_0000,
    ;
    let d: i128 = z as i128 * TAN_HALF_FOV as i128;
    assert(abs(x * u * w) <= 0x20_0000_0000_0000 * UNIT * SCREEN_LIMIT) by (nonlinear_arith)
        requires
            abs(x as int) <= 0x20_0000_0000_0000,
            0 <= w <= SCREEN_LIMIT,
            u == UNIT,
    ;
    assert(0 <= d * h <= 0x40_0000_0000_0000 * TAN_HALF_FOV * SCREEN_LIMIT) by (nonlinear_arith)
        requires
            0 < d <= 0x40_0000_0000_0000 * TAN_HALF_FOV,
            0 < h <= SCREEN_LIMIT,
    ;
    assert(d * h > 0) by (nonlinear_arith)
        requires
            d > 0,
            h > 0,
    ;
    let dh: i128 = d * h;
    assert(2 * dh == 2 * d * h) by (nonlinear_arith)
        requires
            dh == d * h,
    ;
    let nx0: i128 = x * u * w + dh;
    assert(abs(nx0 * w) <= (0x20_0000_0000_0000 * UNIT * SCREEN_LIMIT + 0x40_0000_0000_0000 * TAN_HALF_FOV
        * SCREEN_LIMIT) * SCREEN_LIMIT) by (nonlinear_arith)
        requires
            abs(nx0 as int) <= 0x20_0000_0000_0000 * UNIT * SCREEN_LIMIT + 0x40_0000_0000_0000 * TAN_HALF_FOV
                * SCREEN_LIMIT,
            0 <= w <= SCREEN_LIMIT,
    ;
    assert(0 < 2 * d * h) by (nonlinear_arith)
        requires
            0 < d,
            0 < h,
    ;
    let px = div_toward_zero(nx0 * w, 2 * dh);
    assert(abs(y * u) <= 0x20_0000_0000_0000 * UNIT) by (nonlinear_arith)
        requires
            abs(y as int) <= 0x20_0000_0000_0000,
            u == UNIT,
    ;
    let ny0: i128 = d - y * u;
    assert(abs(ny0 * h) <= (0x40_0000_0000_0000 * TAN_HALF_FOV + 0x20_0000_0000_0000 * UNIT) * SCREEN_LIMIT)
        by (nonlinear_arith)
        requires
            abs(ny0 as int) <= 0x40_0000_0000_0000 * TAN_HALF_FOV + 0x20_0000_0000_0000 * UNIT,
            0 < h <= SCREEN_LIMIT,
    ;
    let py = div_toward_zero(ny0 * h, 2 * d);
    let zz = if z > DEPTH_LIMIT { DEPTH_LIMIT } else { z };
    Point3D { x: clamp_pixel(px), y: clamp_pixel(py), z: zz }
}

/// The corners' normals and colours as a surface.
pub open spec fn surface_of(a: ShadedVertex, b: ShadedVertex, c: ShadedVertex) -> Surface {
    Surface { n0: a.normal, n1: b.normal, n2: c.normal, c0: a.color, c1: b.color, c2: c.color }
}

/// The canvas after drawing the first `n` vertex triples of `vs`: each triple is
/// projected in perspective, skipped when a corner lands left of the screen (or
/// behind the camera), and otherwise filled with its interpolated surface.
pub open spec fn gpu_chunks(cv: Canvas, w: int, h: int, vs: Seq<ShadedVertex>, n: nat) -> Canvas
    decreases n,
{
    if n == 0 {
        cv
    } else {
        let prev = gpu_chunks(cv, w, h, vs, (n - 1) as nat);
        let j = 3 * (n - 1);
        let a = persp(vs[j].position, w, h);
        let b = persp(vs[j + 1].position, w, h);
        let c = persp(vs[j + 2].position, w, h);
        if a.x < 0 || b.x < 0 || c.x < 0 {
            prev
        } else {
            (
                fill_cells(prev.0, prev.1, w, h, a, b, c, Brush::Smooth(surface_of(vs[j], vs[j + 1], vs[j + 2]))),
                fill_depth(prev.1, w, h, a, b, c),
            )
        }
    }
}

/// The smooth renderer; it holds no state of its own.
pub struct GPURenderer {}

impl GPURenderer {
    /// A renderer ready to draw.
    pub fn new() -> GPURenderer {
        GPURenderer {  }
    }

    /// Draws each whole triple of `vertices` as a triangle, with perspective,
    /// a depth test, and glyph and colour from the normal and colour interpolated
    /// at each pixel. A screen with no rows stays empty.
    pub fn render_gpu(&self, vertices: &Vec<ShadedVertex>, width: usize, height: usize) -> (f: Frame)
        requires
            shaded_wf(vertices@),
            width <= SCREEN_LIMIT,
            height <= SCREEN_LIMIT,
        ensures
            f.wf(),
            f.width == width,
            f.height == height,
            height > 0 ==> (f.cells@, f.depth@) == gpu_chunks(
                blank(width * height),
                width as int,
                height as int,
                vertices@,
                vertices@.len() / 3,
            ),
    {
        let mut frame = Frame::new(width, height);
        if height == 0 {
            return frame;
        }
        let ghost vs = vertices@;
        let ghost wi = width as int;
        let ghost hi = height as int;
        proof {
            assert((frame.cells@, frame.depth@) =~= blank(width * height));
        }
        let len = vertices.len();
        let count = len / 3;
        let mut k: usize = 0;
        while k < count
            invariant
                frame.wf(),
                frame.width == width,
                frame.height == height,
                wi == width,
                hi == height,
                height > 0,
                vs == vertices@,
                shaded_wf(vs),
                len == vs.len(),
                count == vs.len() / 3,
                0 <= k <= count,
                (frame.cells@, frame.depth@) == gpu_chunks(blank(width * height), wi, hi, vs, k as nat),
            decreases count - k,
        {
            assert(3 * k + 3 <= vs.len()) by (nonlinear_arith)
                requires
                    k < count,
                    count == len / 3,
                    len == vs.len(),
            ;
            let j = 3 * k;
            proof {
                assert(vs[j as int].wf());
                assert(vs[j + 1].wf());
                assert(vs[j + 2].wf());
            }
            let va = vertices[j];
            let vb = vertices[j + 1];
            let vc = vertices[j + 2];
            let a = project_perspective(&va.position, width as i64, height as i64);
            let b = project_perspective(&vb.position, width as i64, height as i64);
            let c = project_perspective(&vc.position, width as i64, height as i64);
            if !(a.x < 0 || b.x < 0 || c.x < 0) {
                let sf = Surface { n0: va.normal, n1: vb.normal, n2: vc.normal, c0: va.color, c1: vb.color, c2: vc.color };
                fill_triangle(&mut frame, a, b, c, Brush::Smooth(sf));
            }
            k += 1;
        }
        frame
    }
}

/// Corner `i` of the mesh with its normal and the colour.
pub open spec fn corner(vs: Seq<Vertex>, ns: Seq<Vertex>, i: usize, color: Rgb) -> ShadedVertex {
    ShadedVertex { position: vs[i as int], normal: ns[i as int], color }
}

/// The corners of the triangles `ts`, three per triangle, in order.
pub open spec fn shaded(vs: Seq<Vertex>, ns: Seq<Vertex>, ts: Seq<Tri>, color: Rgb) -> Seq<ShadedVertex>
    decreases ts.len(),
{
    if ts.len() == 0 {
        Seq::empty()
    } else {
        let t = ts.last();
        shaded(vs, ns, ts.drop_last(), color).push(corner(vs, ns, t.0, color)).push(
            corner(vs, ns, t.1, color),
        ).push(corner(vs, ns, t.2, color))
    }
}

proof fn lemma_shaded_len(vs: Seq<Vertex>, ns: Seq<Vertex>, ts: Seq<Tri>, color: Rgb)
    ensures
        shaded(vs, ns, ts, color).len() == 3 * ts.len(),
    decreases ts.len(),
{
    if ts.len() > 0 {
        lemma_shaded_len(vs, ns, ts.drop_last(), color);
    }
}

/// The corners of every fan triangle of the mesh, each with its vertex normal and the colour.
pub fn shaded_vertices(vertices: &Vec<Vertex>, faces: &Vec<Face>, normals: &Vec<Vertex>, color: Rgb) -> (r: Vec<ShadedVertex>)
    requires
        normals@.len() == vertices@.len(),
        faces_valid(vertices@.len() as int, face_lists(faces@)),
        3 * fan(face_lists(faces@)).len() <= usize::MAX,
    ensures
        r@ == shaded(vertices@, normals@, fan(face_lists(faces@)), color),
{
    let ghost vs = vertices@;
    let ghost ns = normals@;
    let ghost fv = face_lists(faces@);
    let mut out: Vec<ShadedVertex> = Vec::new();
    let mut k: usize = 0;
    proof {
        assert(fv.take(0) =~= Seq::<Seq<usize>>::empty());
        assert(out@ =~= shaded(vs, ns, fan(fv.take(0)), color));
    }
    while k < faces.len()
        invariant
            vs == vertices@,
            ns == normals@,
            fv == face_lists(faces@),
            ns.len() == vs.len(),
            faces_valid(vs.len() as int, fv),
            3 * fan(fv).len() <= usize::MAX,
            0 <= k <= faces@.len(),
            out@ == shaded(vs, ns, fan(fv.take(k as int)), color),
        decreases faces@.len() - k,
    {
        let m = faces[k].vertices.len();
        let ghost f = fv[k as int];
        let ghost pre = fan(fv.take(k as int));
        proof {
            assert(fv.take(k + 1).drop_last() =~= fv.take(k as int));
            assert(fan(fv.take(k + 1)) == pre + fan_of(f));
            lemma_fan_prefix(fv, k + 1);
        }
        if m >= 3 {
            let mut i: usize = 1;
            proof {
                assert(fan_of(f).take(0) =~= Seq::<Tri>::empty());
                assert(pre + fan_of(f).take(0) =~= pre);
            }
            while i < m - 1
                invariant
                    vs == vertices@,
                    ns == normals@,
                    fv == face_lists(faces@),
                    ns.len() == vs.len(),
                    faces_valid(vs.len() as int, fv),
                    3 * fan(fv).len() <= usize::MAX,
                    0 <= k < faces@.len(),
                    f == fv[k as int],
                    m == f.len(),
                    m >= 3,
                    1 <= i <= m - 1,
                    pre == fan(fv.take(k as int)),
                    pre.len() + fan_of(f).len() <= fan(fv).len(),
                    out@ == shaded(vs, ns, pre + fan_of(f).take(i - 1), color),
                decreases m - 1 - i,
            {
                let ghost ts = pre + fan_of(f).take(i - 1);
                let ghost t = fan_of(f)[i - 1];
                proof {
                    assert(ts.push(t) =~= pre + fan_of(f).take(i as int));
                    assert(ts.push(t).drop_last() =~= ts);
                    lemma_shaded_len(vs, ns, ts, color);
                }
                let i0 = faces[k].vertices[0];
                let i1 = faces[k].vertices[i];
                let i2 = faces[k].vertices[i + 1];
                out.push(ShadedVertex { position: vertices[i0], normal: normals[i0], color });
                out.push(ShadedVertex { position: vertices[i1], normal: normals[i1], color });
                out.push(ShadedVertex { position: vertices[i2], normal: normals[i2], color });
                i += 1;
            }
            proof {
                assert(fan_of(f).take(m - 2) =~= fan_of(f));
            }
        } else {
            proof {
                assert(pre + fan_of(f) =~= pre);
            }
        }
        k += 1;
    }
    proof {
        assert(fv.take(faces@.len() as int) =~= fv);
    }
    out
}

/// `v` scaled by `scale / 20`, rounding toward zero: the zoom relative to the starting scale.
pub open spec fn zoomed(v: Vertex, scale: int) -> Vertex {
    Vertex {
        x: trunc_div(v.x * scale, 20 * UNIT) as i64,
        y: trunc_div(v.y * scale, 20 * UNIT) as i64,
        z: trunc_div(v.z * scale, 20 * UNIT) as i64,
    }
}

fn zoom_coord(c: i64, scale: i64) -> (r: i64)
    requires
        abs(c as int) <= 8 * ZOOM_LIMIT,
        0 <= scale <= SCALE_LIMIT,
    ensures
        r == trunc_div(c * scale, 20 * UNIT),
        abs(r as int) <= PERSPECTIVE_LIMIT,
{
    assert(abs(c * scale) <= 8 * ZOOM_LIMIT * SCALE_LIMIT) by (nonlinear_arith)
        requires
            abs(c as int) <= 8 * ZOOM_LIMIT,
            0 <= scale <= SCALE_LIMIT,
    ;
    let p: i128 = c as i128 * scale as i128;
    let q = div_toward_zero(p, 20 * UNIT as i128);
    proof {
        let m: int = if p >= 0 { p as int } else { -p };
        assert(m / (20 * UNIT) <= PERSPECTIVE_LIMIT) by (nonlinear_arith)
            requires
                0 <= m <= 8 * ZOOM_LIMIT * SCALE_LIMIT,
        ;
        vstd::arithmetic::div_mod::lemma_div_pos_is_pos(m, 20 * UNIT);
    }
    q as i64
}

/// Each corner's position rotated about X, then Y, then Z, and zoomed by `scale / 20`;
/// normals and colours are kept.
pub fn transform_shaded(vs: &Vec<ShadedVertex>, tx: Trig, ty: Trig, tz: Trig, scale: i64) -> (r: Vec<ShadedVertex>)
    requires
        forall|i: int| 0 <= i < vs@.len() ==> (#[trigger] vs@[i]).position.within(ZOOM_LIMIT as int),
        tx.wf(),
        ty.wf(),
        tz.wf(),
        0 <= scale <= SCALE_LIMIT,
    ensures
        r@.len() == vs@.len(),
        forall|i: int| 0 <= i < r@.len() ==> #[trigger] r@[i] == (ShadedVertex {
            position: zoomed(rot_xyz(vs@[i].position, tx, ty, tz), scale as int),
            normal: vs@[i].normal,
            color: vs@[i].color,
        }),
        forall|i: int| 0 <= i < r@.len() ==> (#[trigger] r@[i]).position.within(PERSPECTIVE_LIMIT as int),
{
    let mut out: Vec<ShadedVertex> = Vec::new();
    let mut i: usize = 0;
    while i < vs.len()
        invariant
            0 <= i <= vs@.len(),
            out@.len() == i,
            forall|k: int| 0 <= k < vs@.len() ==> (#[trigger] vs@[k]).position.within(ZOOM_LIMIT as int),
            tx.wf(),
            ty.wf(),
            tz.wf(),
            0 <= scale <= SCALE_LIMIT,
            forall|k: int| 0 <= k < i ==> #[trigger] out@[k] == (ShadedVertex {
                position: zoomed(rot_xyz(vs@[k].position, tx, ty, tz), scale as int),
                normal: vs@[k].normal,
                color: vs@[k].color,
            }),
            forall|k: int| 0 <= k < i ==> (#[trigger] out@[k]).position.within(PERSPECTIVE_LIMIT as int),
        decreases vs@.len() - i,
    {
        let sv = vs[i];
        proof {
            let p = sv.position;
            assert(p.within(ZOOM_LIMIT as int));
            lemma_rot_bounds(p, tx, ZOOM_LIMIT as int);
            lemma_rot_bounds(rot_x(p, tx), ty, 2 * ZOOM_LIMIT);
            lemma_rot_bounds(rot_y(rot_x(p, tx), ty), tz, 4 * ZOOM_LIMIT);
        }
        let r = rotate_xyz(&sv.position, tx, ty, tz);
        let pos = Vertex { x: zoom_coord(r.x, scale), y: zoom_coord(r.y, scale), z: zoom_coord(r.z, scale) };
        out.push(ShadedVertex { position: pos, normal: sv.normal, color: sv.color });
        i += 1;
    }
    out
}

/// Red, green and blue of a palette colour, each zero or one.
pub open spec fn rgb_of(ink: Ink) -> Rgb {
    match ink {
        Ink::Red => Rgb { r: UNIT, g: 0, b: 0 },
        Ink::Green => Rgb { r: 0, g: UNIT, b: 0 },
        Ink::Blue => Rgb { r: 0, g: 0, b: UNIT },
        Ink::Yellow => Rgb { r: UNIT, g: UNIT, b: 0 },
        Ink::Magenta => Rgb { r: UNIT, g: 0, b: UNIT },
        Ink::Cyan => Rgb { r: 0, g: UNIT, b: UNIT },
        Ink::White => Rgb { r: UNIT, g: UNIT, b: UNIT },
        Ink::Black => Rgb { r: 0, g: 0, b: 0 },
        Ink::Gray => Rgb { r: 500_000i64, g: 500_000i64, b: 500_000i64 },
    }
}

/// Red, green and blue of a palette colour.
pub fn rgb(ink: Ink) -> (c: Rgb)
    ensures
        c == rgb_of(ink),
{
    match ink {
        Ink::Red => Rgb { r: UNIT, g: 0, b: 0 },
        Ink::Green => Rgb { r: 0, g: UNIT, b: 0 },
        Ink::Blue => Rgb { r: 0, g: 0, b: UNIT },
        Ink::Yellow => Rgb { r: UNIT, g: UNIT, b: 0 },
        Ink::Magenta => Rgb { r: UNIT, g: 0, b: UNIT },
        Ink::Cyan => Rgb { r: 0, g: UNIT, b: UNIT },
        Ink::White => Rgb { r: UNIT, g: UNIT, b: UNIT },
        Ink::Black => Rgb { r: 0, g: 0, b: 0 },
        Ink::Gray => Rgb { r: 500_000, g: 500_000, b: 500_000 },
    }
}

/// The colour a name selects, in any letter case, as red, green and blue; any unknown name is blue.
pub fn color_from_string(name: &str) -> (c: Rgb)
    ensures
        c == rgb_of(ink_named(lower_of(name@))),
{
    rgb(ink_from_name(name))
}

} // verus!
