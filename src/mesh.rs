//! The mesh: vertices, faces, and the passes made over them before rendering.

use vstd::prelude::*;
use crate::fixed::{UNIT, trunc_div, div_toward_zero, root, isqrt};
use crate::geometry::abs;
use crate::geometry::Vertex;

verus! {

/// An ordered list of vertex indices, triangulated as a fan from its first entry.
#[derive(Debug)]
pub struct Face {
    pub vertices: Vec<usize>,
}

/// Why a mesh could not be loaded or prepared.
#[derive(Clone, Copy, Debug, PartialEq, Eq, Structural)]
pub enum MeshError {
    /// A coordinate field is not a number.
    BadNumber,
    /// A face refers to vertex zero or to a vertex that does not exist.
    BadIndex,
    /// The mesh has no vertices.
    Empty,
    /// All vertices coincide: the bounding box has no extent.
    Degenerate,
}

/// Coordinate `a` (0 for x, 1 for y, 2 for z) of `v`.
pub open spec fn coord(v: Vertex, a: int) -> int {
    if a == 0 {
        v.x as int
    } else if a == 1 {
        v.y as int
    } else {
        v.z as int
    }
}

/// The values of coordinate `a` over a sequence of vertices.
pub open spec fn axis(s: Seq<Vertex>, a: int) -> Seq<int> {
    s.map_values(|v: Vertex| coord(v, a))
}

/// Smallest entry of a non-empty sequence.
pub open spec fn seq_lo(q: Seq<int>) -> int
    decreases q.len(),
{
    if q.len() <= 1 {
        q[0]
    } else {
        let m = seq_lo(q.drop_last());
        if q.last() < m {
            q.last()
        } else {
            m
        }
    }
}

/// Largest entry of a non-empty sequence.
pub open spec fn seq_hi(q: Seq<int>) -> int
    decreases q.len(),
{
    if q.len() <= 1 {
        q[0]
    } else {
        let m = seq_hi(q.drop_last());
        if q.last() > m {
            q.last()
        } else {
            m
        }
    }
}

/// Extent of the bounding box along axis `a`.
pub open spec fn extent(s: Seq<Vertex>, a: int) -> int {
    seq_hi(axis(s, a)) - seq_lo(axis(s, a))
}

/// Largest of the three extents of the bounding box.
pub open spec fn max_extent(s: Seq<Vertex>) -> int {
    let ex = extent(s, 0);
    let ey = extent(s, 1);
    let ez = extent(s, 2);
    if ex >= ey && ex >= ez {
        ex
    } else if ey >= ez {
        ey
    } else {
        ez
    }
}

/// Coordinate `c` recentred on `(lo + hi) / 2` and divided by `ext`, in fixed point.
pub open spec fn recentre(c: int, lo_plus_hi: int, ext: int) -> int {
    trunc_div((2 * c - lo_plus_hi) * UNIT, 2 * ext)
}

/// `v` placed in the box of `s`: centred on the origin, largest extent one unit.
pub open spec fn normalized_vertex(v: Vertex, s: Seq<Vertex>) -> Vertex {
    let e = max_extent(s);
    Vertex {
        x: recentre(v.x as int, seq_lo(axis(s, 0)) + seq_hi(axis(s, 0)), e) as i64,
        y: recentre(v.y as int, seq_lo(axis(s, 1)) + seq_hi(axis(s, 1)), e) as i64,
        z: recentre(v.z as int, seq_lo(axis(s, 2)) + seq_hi(axis(s, 2)), e) as i64,
    }
}

/// Every vertex of `s` normalized.
pub open spec fn normalized(s: Seq<Vertex>) -> Seq<Vertex> {
    s.map_values(|v: Vertex| normalized_vertex(v, s))
}

proof fn lemma_lo_hi_bound(q: Seq<int>, k: int)
    requires
        0 <= k < q.len(),
    ensures
        seq_lo(q) <= q[k] <= seq_hi(q),
    decreases q.len(),
{
    if q.len() > 1 && k < q.len() - 1 {
        lemma_lo_hi_bound(q.drop_last(), k);
    }
}

proof fn lemma_axis_take(s: Seq<Vertex>, a: int, i: int)
    requires
        0 <= i < s.len(),
    ensures
        axis(s.take(i + 1), a).drop_last() =~= axis(s.take(i), a),
        axis(s.take(i + 1), a).last() == coord(s[i], a),
        axis(s.take(i + 1), a).len() == i + 1,
{
}

fn axis_min_max(a: i64, lo: i64, hi: i64, first: bool) -> (r: (i64, i64))
    ensures
        r.0 == (if first || a < lo { a } else { lo }),
        r.1 == (if first || a > hi { a } else { hi }),
{
    let l = if first || a < lo { a } else { lo };
    let h = if first || a > hi { a } else { hi };
    (l, h)
}

fn recentre_exec(c: i64, lo_plus_hi: i128, ext: i128) -> (r: i64)
    requires
        0 < ext <= 0x2_0000_0000_0000_0000,
        -0x2_0000_0000_0000_0000 <= lo_plus_hi <= 0x2_0000_0000_0000_0000,
        -ext <= 2 * c - lo_plus_hi <= ext,
    ensures
        r == recentre(c as int, lo_plus_hi as int, ext as int),
        -UNIT / 2 <= r <= UNIT / 2,
{
    let n: i128 = (2 * (c as i128) - lo_plus_hi);
    assert(-ext <= n <= ext);
    assert(-ext * UNIT <= n * UNIT <= ext * UNIT) by (nonlinear_arith)
        requires
            -ext <= n <= ext,
    ;
    assert(ext * UNIT <= 0x2_0000_0000_0000_0000 * UNIT) by (nonlinear_arith)
        requires
            0 < ext <= 0x2_0000_0000_0000_0000,
    ;
    let q = div_toward_zero(n * (UNIT as i128), 2 * ext);
    proof {
        let m = if n >= 0 { n * UNIT } else { -n * UNIT };
        assert(0 <= m <= ext * UNIT) by (nonlinear_arith)
            requires
                -ext <= n <= ext,
                m == if n >= 0 { n * UNIT } else { -n * UNIT },
        ;
        assert(m / (2 * ext) <= UNIT / 2) by (nonlinear_arith)
            requires
                0 <= m <= ext * 1_000_000,
                ext > 0,
        ;
        assert(m / (2 * ext) >= 0) by (nonlinear_arith)
            requires
                0 <= m,
                ext > 0,
        ;
    }
    q as i64
}

proof fn lemma_trunc_div_monotone(n1: int, n2: int, d: int)
    requires
        n1 <= n2,
        d > 0,
    ensures
        trunc_div(n1, d) <= trunc_div(n2, d),
{
    if n1 >= 0 {
        vstd::arithmetic::div_mod::lemma_div_is_ordered(n1, n2, d);
    } else if n2 >= 0 {
        vstd::arithmetic::div_mod::lemma_div_pos_is_pos(-n1, d);
        vstd::arithmetic::div_mod::lemma_div_pos_is_pos(n2, d);
    } else {
        vstd::arithmetic::div_mod::lemma_div_is_ordered(-n2, -n1, d);
    }
}

proof fn lemma_lo_hi_map(q: Seq<int>, r: Seq<int>, g: spec_fn(int) -> int)
    requires
        q.len() == r.len(),
        q.len() > 0,
        forall|k: int| 0 <= k < q.len() ==> r[k] == g(q[k]),
        forall|a: int, b: int| a <= b ==> #[trigger] g(a) <= #[trigger] g(b),
    ensures
        seq_lo(r) == g(seq_lo(q)),
        seq_hi(r) == g(seq_hi(q)),
    decreases q.len(),
{
    if q.len() > 1 {
        lemma_lo_hi_map(q.drop_last(), r.drop_last(), g);
        assert(r.last() == g(q.last()));
    }
}

/// Once normalized, a mesh with any extent has its bounding box centred on the
/// origin along every axis, and its largest extent is exactly one unit.
pub proof fn lemma_normalized_box(s: Seq<Vertex>)
    requires
        s.len() > 0,
        max_extent(s) != 0,
    ensures
        forall|a: int|
            0 <= a < 3 ==> seq_lo(#[trigger] axis(normalized(s), a)) + seq_hi(axis(normalized(s), a))
                == 0,
        max_extent(normalized(s)) == UNIT,
{
    let t = normalized(s);
    let e = max_extent(s);
    lemma_lo_hi_bound(axis(s, 0), 0);
    lemma_lo_hi_bound(axis(s, 1), 0);
    lemma_lo_hi_bound(axis(s, 2), 0);
    assert(e > 0);
    assert forall|a: int| 0 <= a < 3 implies {
        &&& seq_lo(#[trigger] axis(t, a)) + seq_hi(axis(t, a)) == 0
        &&& seq_hi(axis(t, a)) - seq_lo(axis(t, a)) == 2 * trunc_div(extent(s, a) * UNIT, 2 * e)
    } by {
        let q = axis(s, a);
        let lph = seq_lo(q) + seq_hi(q);
        let g = |c: int| recentre(c, lph, e);
        assert forall|x: int, y: int| x <= y implies #[trigger] g(x) <= #[trigger] g(y) by {
            lemma_trunc_div_monotone((2 * x - lph) * UNIT, (2 * y - lph) * UNIT, 2 * e);
        }
        assert forall|k: int| 0 <= k < q.len() implies axis(t, a)[k] == g(q[k]) by {
            lemma_lo_hi_bound(q, k);
            let n = 2 * q[k] - lph;
            assert(-e <= n <= e);
            let m = if n >= 0 { n * UNIT } else { -n * UNIT };
            assert(0 <= m <= e * UNIT) by (nonlinear_arith)
                requires
                    -e <= n <= e,
                    m == if n >= 0 { n * UNIT } else { -n * UNIT },
            ;
            assert(m / (2 * e) <= UNIT / 2) by (nonlinear_arith)
                requires
                    0 <= m <= e * 1_000_000,
                    e > 0,
            ;
            vstd::arithmetic::div_mod::lemma_div_pos_is_pos(m, 2 * e);
        }
        lemma_lo_hi_map(q, axis(t, a), g);
        let w = extent(s, a);
        assert(w >= 0);
        assert((seq_lo(q) * 2 - lph) * UNIT == -(w * UNIT)) by (nonlinear_arith)
            requires
                lph == seq_lo(q) + seq_hi(q),
                w == seq_hi(q) - seq_lo(q),
        ;
        assert((seq_hi(q) * 2 - lph) * UNIT == w * UNIT) by (nonlinear_arith)
            requires
                lph == seq_lo(q) + seq_hi(q),
                w == seq_hi(q) - seq_lo(q),
        ;
        assert(w * UNIT >= 0) by (nonlinear_arith)
            requires
                w >= 0,
        ;
    }
    let hu = UNIT / 2;
    vstd::arithmetic::div_mod::lemma_div_by_multiple(hu as int, 2 * e);
    assert(e * UNIT == hu * (2 * e)) by (nonlinear_arith)
        requires
            hu == 500_000,
    ;
    assert forall|a: int| 0 <= a < 3 implies trunc_div(extent(s, a) * UNIT, 2 * e) <= hu by {
        let w = extent(s, a);
        assert(w * UNIT <= e * UNIT) by (nonlinear_arith)
            requires
                w <= e,
        ;
        assert(w * UNIT >= 0) by (nonlinear_arith)
            requires
                w >= 0,
        ;
        vstd::arithmetic::div_mod::lemma_div_is_ordered(w * UNIT, e * UNIT, 2 * e);
    }
    assert(extent(t, 0) <= UNIT && extent(t, 1) <= UNIT && extent(t, 2) <= UNIT);
    assert(extent(t, 0) == UNIT || extent(t, 1) == UNIT || extent(t, 2) == UNIT);
}

/// Recentres the mesh on its bounding box and divides every coordinate by the
/// box's largest extent, so the mesh fits a unit cube with its aspect kept.
/// An empty mesh, or one whose vertices all coincide, is refused and left as it was.
pub fn normalize_model(vertices: &mut Vec<Vertex>) -> (r: Result<(), MeshError>)
    ensures
        old(vertices)@.len() == 0 ==> r == Err::<(), MeshError>(MeshError::Empty),
        old(vertices)@.len() > 0 && max_extent(old(vertices)@) == 0 ==> r == Err::<(), MeshError>(
            MeshError::Degenerate,
        ),
        old(vertices)@.len() > 0 && max_extent(old(vertices)@) != 0 ==> r is Ok,
        r is Ok ==> final(vertices)@ == normalized(old(vertices)@),
        r is Err ==> final(vertices)@ == old(vertices)@,
{
    let n = vertices.len();
    if n == 0 {
        return Err(MeshError::Empty);
    }
    let ghost s = vertices@;
    let mut lox: i64 = 0;
    let mut hix: i64 = 0;
    let mut loy: i64 = 0;
    let mut hiy: i64 = 0;
    let mut loz: i64 = 0;
    let mut hiz: i64 = 0;
    let mut i: usize = 0;
    while i < n
        invariant
            s == vertices@,
            n == s.len(),
            0 <= i <= n,
            i > 0 ==> lox == seq_lo(axis(s.take(i as int), 0)) && hix == seq_hi(axis(s.take(i as int), 0)),
            i > 0 ==> loy == seq_lo(axis(s.take(i as int), 1)) && hiy == seq_hi(axis(s.take(i as int), 1)),
            i > 0 ==> loz == seq_lo(axis(s.take(i as int), 2)) && hiz == seq_hi(axis(s.take(i as int), 2)),
        decreases n - i,
    {
        let v = vertices[i];
        proof {
            lemma_axis_take(s, 0, i as int);
            lemma_axis_take(s, 1, i as int);
            lemma_axis_take(s, 2, i as int);
        }
        let (a, b) = axis_min_max(v.x, lox, hix, i == 0);
        lox = a;
        hix = b;
        let (a, b) = axis_min_max(v.y, loy, hiy, i == 0);
        loy = a;
        hiy = b;
        let (a, b) = axis_min_max(v.z, loz, hiz, i == 0);
        loz = a;
        hiz = b;
        i += 1;
    }
    assert(s.take(n as int) =~= s);
    proof {
        lemma_lo_hi_bound(axis(s, 0), 0);
        lemma_lo_hi_bound(axis(s, 1), 0);
        lemma_lo_hi_bound(axis(s, 2), 0);
    }
    let ex: i128 = hix as i128 - lox as i128;
    let ey: i128 = hiy as i128 - loy as i128;
    let ez: i128 = hiz as i128 - loz as i128;
    let ext: i128 = if ex >= ey && ex >= ez {
        ex
    } else if ey >= ez {
        ey
    } else {
        ez
    };
    if ext == 0 {
        return Err(MeshError::Degenerate);
    }
    let sx: i128 = lox as i128 + hix as i128;
    let sy: i128 = loy as i128 + hiy as i128;
    let sz: i128 = loz as i128 + hiz as i128;
    let mut i: usize = 0;
    while i < n
        invariant
            vertices@.len() == n,
            n == s.len(),
            0 <= i <= n,
            ext == max_extent(s),
            ext > 0,
            ex == extent(s, 0),
            ey == extent(s, 1),
            ez == extent(s, 2),
            ex <= ext && ey <= ext && ez <= ext,
            sx == seq_lo(axis(s, 0)) + seq_hi(axis(s, 0)),
            sy == seq_lo(axis(s, 1)) + seq_hi(axis(s, 1)),
            sz == seq_lo(axis(s, 2)) + seq_hi(axis(s, 2)),
            lox == seq_lo(axis(s, 0)) && hix == seq_hi(axis(s, 0)),
            loy == seq_lo(axis(s, 1)) && hiy == seq_hi(axis(s, 1)),
            loz == seq_lo(axis(s, 2)) && hiz == seq_hi(axis(s, 2)),
            forall|k: int| 0 <= k < i ==> vertices@[k] == normalized_vertex(s[k], s),
            forall|k: int| i <= k < n ==> vertices@[k] == s[k],
        decreases n - i,
    {
        let v = vertices[i];
        proof {
            lemma_lo_hi_bound(axis(s, 0), i as int);
            lemma_lo_hi_bound(axis(s, 1), i as int);
            lemma_lo_hi_bound(axis(s, 2), i as int);
        }
        let w = Vertex {
            x: recentre_exec(v.x, sx, ext),
            y: recentre_exec(v.y, sy, ext),
            z: recentre_exec(v.z, sz, ext),
        };
        vertices.set(i, w);
        i += 1;
    }
    assert(vertices@ =~= normalized(s));
    Ok(())
}

/// A fan triangle: three vertex indices.
pub type Tri = (usize, usize, usize);

/// The index lists of a sequence of faces.
pub open spec fn face_lists(fs: Seq<Face>) -> Seq<Seq<usize>> {
    fs.map_values(|f: Face| f.vertices@)
}

/// Every index of every face names one of `n` vertices.
pub open spec fn faces_valid(n: int, fs: Seq<Seq<usize>>) -> bool {
    forall|i: int, j: int| 0 <= i < fs.len() && 0 <= j < fs[i].len() ==> #[trigger] fs[i][j] < n
}

/// The fan of a face: triangles (f0, f_i, f_i+1); a face of fewer than three indices has none.
pub open spec fn fan_of(f: Seq<usize>) -> Seq<Tri> {
    if f.len() >= 3 {
        Seq::new((f.len() - 2) as nat, |i: int| (f[0], f[i + 1], f[i + 2]))
    } else {
        Seq::empty()
    }
}

/// The fan triangles of all faces, in order.
pub open spec fn fan(fs: Seq<Seq<usize>>) -> Seq<Tri>
    decreases fs.len(),
{
    if fs.len() == 0 {
        Seq::empty()
    } else {
        fan(fs.drop_last()) + fan_of(fs.last())
    }
}

/// The midpoint of two vertices.
pub open spec fn mid(a: Vertex, b: Vertex) -> Vertex {
    Vertex {
        x: trunc_div(a.x + b.x, 2) as i64,
        y: trunc_div(a.y + b.y, 2) as i64,
        z: trunc_div(a.z + b.z, 2) as i64,
    }
}

/// `vs` followed by the three edge midpoints of each triangle of `ts`.
pub open spec fn split_vertices(vs: Seq<Vertex>, ts: Seq<Tri>) -> Seq<Vertex>
    decreases ts.len(),
{
    if ts.len() == 0 {
        vs
    } else {
        let t = ts.last();
        split_vertices(vs, ts.drop_last()).push(mid(vs[t.0 as int], vs[t.1 as int])).push(
            mid(vs[t.1 as int], vs[t.2 as int]),
        ).push(mid(vs[t.2 as int], vs[t.0 as int]))
    }
}

/// The four triangles that replace each triangle of `ts`, whose midpoints were
/// appended from index `base` on.
pub open spec fn split_faces(base: int, ts: Seq<Tri>) -> Seq<Seq<usize>>
    decreases ts.len(),
{
    if ts.len() == 0 {
        Seq::empty()
    } else {
        let t = ts.last();
        let a = (base + 3 * (ts.len() - 1)) as usize;
        let b = (base + 3 * (ts.len() - 1) + 1) as usize;
        let c = (base + 3 * (ts.len() - 1) + 2) as usize;
        split_faces(base, ts.drop_last()).push(seq![t.0, a, c]).push(seq![t.1, b, a]).push(
            seq![t.2, c, b],
        ).push(seq![a, b, c])
    }
}

proof fn lemma_split_vertices(vs: Seq<Vertex>, ts: Seq<Tri>)
    ensures
        split_vertices(vs, ts).len() == vs.len() + 3 * ts.len(),
        forall|i: int| 0 <= i < vs.len() ==> split_vertices(vs, ts)[i] == vs[i],
    decreases ts.len(),
{
    if ts.len() > 0 {
        lemma_split_vertices(vs, ts.drop_last());
    }
}

proof fn lemma_split_faces_len(base: int, ts: Seq<Tri>)
    ensures
        split_faces(base, ts).len() == 4 * ts.len(),
        fan(split_faces(base, ts)).len() == 4 * ts.len(),
    decreases ts.len(),
{
    if ts.len() > 0 {
        lemma_split_faces_len(base, ts.drop_last());
        let f0 = split_faces(base, ts.drop_last());
        let t = ts.last();
        let a = (base + 3 * (ts.len() - 1)) as usize;
        let b = (base + 3 * (ts.len() - 1) + 1) as usize;
        let c = (base + 3 * (ts.len() - 1) + 2) as usize;
        let f1 = f0.push(seq![t.0, a, c]);
        let f2 = f1.push(seq![t.1, b, a]);
        let f3 = f2.push(seq![t.2, c, b]);
        let f4 = f3.push(seq![a, b, c]);
        assert(f1.drop_last() =~= f0);
        assert(f2.drop_last() =~= f1);
        assert(f3.drop_last() =~= f2);
        assert(f4.drop_last() =~= f3);
        assert(fan_of(seq![t.0, a, c]).len() == 1);
        assert(fan_of(seq![t.1, b, a]).len() == 1);
        assert(fan_of(seq![t.2, c, b]).len() == 1);
        assert(fan_of(seq![a, b, c]).len() == 1);
        assert(fan(f1).len() == fan(f0).len() + 1);
        assert(fan(f2).len() == fan(f1).len() + 1);
        assert(fan(f3).len() == fan(f2).len() + 1);
        assert(fan(f4).len() == fan(f3).len() + 1);
    }
}

pub(crate) proof fn lemma_fan_prefix(fs: Seq<Seq<usize>>, k: int)
    requires
        0 <= k <= fs.len(),
    ensures
        fan(fs.take(k)).len() <= fan(fs).len(),
    decreases fs.len() - k,
{
    if k < fs.len() {
        lemma_fan_prefix(fs, k + 1);
        assert(fs.take(k + 1).drop_last() =~= fs.take(k));
    } else {
        assert(fs.take(k) =~= fs);
    }
}

/// A face of three indices.
fn tri_face(a: usize, b: usize, c: usize) -> (f: Face)
    ensures
        f.vertices@ == seq![a, b, c],
{
    let mut v: Vec<usize> = Vec::new();
    v.push(a);
    v.push(b);
    v.push(c);
    assert(v@ =~= seq![a, b, c]);
    Face { vertices: v }
}

fn midpoint(a: &Vertex, b: &Vertex) -> (m: Vertex)
    ensures
        m == mid(*a, *b),
{
    Vertex {
        x: div_toward_zero(a.x as i128 + b.x as i128, 2) as i64,
        y: div_toward_zero(a.y as i128 + b.y as i128, 2) as i64,
        z: div_toward_zero(a.z as i128 + b.z as i128, 2) as i64,
    }
}

/// One level of midpoint subdivision: each fan triangle becomes four.
pub fn subdivide_once(vertices: &mut Vec<Vertex>, faces: &mut Vec<Face>)
    requires
        faces_valid(old(vertices)@.len() as int, face_lists(old(faces)@)),
        old(vertices)@.len() + 3 * fan(face_lists(old(faces)@)).len() <= usize::MAX,
    ensures
        final(vertices)@ == split_vertices(old(vertices)@, fan(face_lists(old(faces)@))),
        face_lists(final(faces)@) == split_faces(
            old(vertices)@.len() as int,
            fan(face_lists(old(faces)@)),
        ),
        faces_valid(final(vertices)@.len() as int, face_lists(final(faces)@)),
{
    let ghost vs0 = vertices@;
    let ghost fv = face_lists(faces@);
    let n0 = vertices.len();
    let mut new_faces: Vec<Face> = Vec::new();
    let mut k: usize = 0;
    proof {
        assert(fv.take(0) =~= Seq::<Seq<usize>>::empty());
        assert(face_lists(new_faces@) =~= split_faces(n0 as int, fan(fv.take(0))));
    }
    while k < faces.len()
        invariant
            fv == face_lists(faces@),
            faces_valid(n0 as int, fv),
            vs0.len() == n0,
            n0 + 3 * fan(fv).len() <= usize::MAX,
            0 <= k <= faces@.len(),
            vertices@ == split_vertices(vs0, fan(fv.take(k as int))),
            face_lists(new_faces@) == split_faces(n0 as int, fan(fv.take(k as int))),
            faces_valid(vertices@.len() as int, face_lists(new_faces@)),
        decreases faces@.len() - k,
    {
        let m = faces[k].vertices.len();
        let ghost f = fv[k as int];
        let ghost pre = fan(fv.take(k as int));
        proof {
            assert(fv.take(k + 1).drop_last() =~= fv.take(k as int));
            assert(fan(fv.take(k + 1)) == pre + fan_of(f));
            lemma_fan_prefix(fv, k + 1);
        }
        if m >= 3 {
            let mut i: usize = 1;
            proof {
                assert(fan_of(f).take(0) =~= Seq::<Tri>::empty());
                assert(pre + fan_of(f).take(0) =~= pre);
            }
            while i < m - 1
                invariant
                    fv == face_lists(faces@),
                    faces_valid(n0 as int, fv),
                    vs0.len() == n0,
                    n0 + 3 * fan(fv).len() <= usize::MAX,
                    0 <= k < faces@.len(),
                    f == fv[k as int],
                    m == f.len(),
                    m >= 3,
                    1 <= i <= m - 1,
                    pre == fan(fv.take(k as int)),
                    pre.len() + fan_of(f).len() <= fan(fv).len(),
                    vertices@ == split_vertices(vs0, pre + fan_of(f).take(i - 1)),
                    face_lists(new_faces@) == split_faces(n0 as int, pre + fan_of(f).take(i - 1)),
                    faces_valid(vertices@.len() as int, face_lists(new_faces@)),
                decreases m - 1 - i,
            {
                let ghost ts = pre + fan_of(f).take(i - 1);
                let ghost t = fan_of(f)[i - 1];
                proof {
                    lemma_split_vertices(vs0, ts);
                    lemma_split_faces_len(n0 as int, ts);
                    assert(ts.push(t) =~= pre + fan_of(f).take(i as int));
                    assert(ts.push(t).drop_last() =~= ts);
                }
                let v0 = faces[k].vertices[0];
                let v1 = faces[k].vertices[i];
                let v2 = faces[k].vertices[i + 1];
                assert(v0 < n0 && v1 < n0 && v2 < n0);
                let mid01 = midpoint(&vertices[v0], &vertices[v1]);
                let mid12 = midpoint(&vertices[v1], &vertices[v2]);
                let mid20 = midpoint(&vertices[v2], &vertices[v0]);
                let a = vertices.len();
                vertices.push(mid01);
                vertices.push(mid12);
                vertices.push(mid20);
                let ghost old_new = face_lists(new_faces@);
                new_faces.push(tri_face(v0, a, a + 2));
                new_faces.push(tri_face(v1, a + 1, a));
                new_faces.push(tri_face(v2, a + 2, a + 1));
                new_faces.push(tri_face(a, a + 1, a + 2));
                proof {
                    assert(face_lists(new_faces@) =~= old_new.push(seq![v0, a, (a + 2) as usize]).push(
                        seq![v1, (a + 1) as usize, a],
                    ).push(seq![v2, (a + 2) as usize, (a + 1) as usize]).push(
                        seq![a, (a + 1) as usize, (a + 2) as usize],
                    ));
                    assert forall|p: int, q: int|
                        0 <= p < face_lists(new_faces@).len() && 0 <= q < face_lists(
                            new_faces@,
                        )[p].len() implies #[trigger] face_lists(new_faces@)[p][q]
                        < vertices@.len() by {
                        if p < old_new.len() {
                            assert(face_lists(new_faces@)[p] == old_new[p]);
                        }
                    }
                }
                i += 1;
            }
            proof {
                assert(fan_of(f).take(m - 2) =~= fan_of(f));
            }
        } else {
            proof {
                assert(pre + fan_of(f) =~= pre);
            }
        }
        k += 1;
    }
    proof {
        assert(fv.take(faces@.len() as int) =~= fv);
    }
    *faces = new_faces;
}

/// `4` to the power `k`.
pub open spec fn pow4(k: nat) -> nat
    decreases k,
{
    if k == 0 {
        1
    } else {
        4 * pow4((k - 1) as nat)
    }
}

/// The mesh after `level` rounds of midpoint subdivision.
pub open spec fn subdivided(vs: Seq<Vertex>, fs: Seq<Seq<usize>>, level: nat) -> (Seq<Vertex>, Seq<Seq<usize>>)
    decreases level,
{
    if level == 0 {
        (vs, fs)
    } else {
        subdivided(
            split_vertices(vs, fan(fs)),
            split_faces(vs.len() as int, fan(fs)),
            (level - 1) as nat,
        )
    }
}

/// Applies `level` rounds of midpoint subdivision, quadrupling the triangle count each round.
pub fn subdivide_faces(vertices: &mut Vec<Vertex>, faces: &mut Vec<Face>, level: u32)
    requires
        faces_valid(old(vertices)@.len() as int, face_lists(old(faces)@)),
        old(vertices)@.len() + fan(face_lists(old(faces)@)).len() * (pow4(level as nat) - 1)
            <= usize::MAX,
    ensures
        (final(vertices)@, face_lists(final(faces)@)) == subdivided(
            old(vertices)@,
            face_lists(old(faces)@),
            level as nat,
        ),
{
    let mut done: u32 = 0;
    while done < level
        invariant
            0 <= done <= level,
            faces_valid(vertices@.len() as int, face_lists(faces@)),
            vertices@.len() + fan(face_lists(faces@)).len() * (pow4((level - done) as nat) - 1)
                <= usize::MAX,
            subdivided(vertices@, face_lists(faces@), (level - done) as nat) == subdivided(
                old(vertices)@,
                face_lists(old(faces)@),
                level as nat,
            ),
        decreases level - done,
    {
        let ghost t = fan(face_lists(faces@)).len();
        let ghost r = (level - done - 1) as nat;
        proof {
            assert(pow4((r + 1) as nat) == 4 * pow4(r));
            assert(pow4(r) >= 1) by {
                lemma_pow4_pos(r);
            }
            assert(t * (4 * pow4(r) - 1) == 3 * t + 4 * t * (pow4(r) - 1)) by (nonlinear_arith);
            lemma_split_faces_len(vertices@.len() as int, fan(face_lists(faces@)));
            lemma_split_vertices(vertices@, fan(face_lists(faces@)));
        }
        subdivide_once(vertices, faces);
        done += 1;
    }
}

proof fn lemma_pow4_pos(k: nat)
    ensures
        pow4(k) >= 1,
    decreases k,
{
    if k > 0 {
        lemma_pow4_pos((k - 1) as nat);
    }
}

/// Largest coordinate magnitude, and largest triangle count, that normal accumulation accepts.
pub const NORMAL_LIMIT: i64 = 0x100_0000_0000;

/// Cross product of the edges v1 - v0 and v2 - v0 of triangle `t`.
pub open spec fn cross_at(vs: Seq<Vertex>, t: Tri) -> (int, int, int) {
    let a = vs[t.0 as int];
    let b = vs[t.1 as int];
    let c = vs[t.2 as int];
    let (ux, uy, uz) = (b.x - a.x, b.y - a.y, b.z - a.z);
    let (wx, wy, wz) = (c.x - a.x, c.y - a.y, c.z - a.z);
    (uy * wz - uz * wy, uz * wx - ux * wz, ux * wy - uy * wx)
}

/// How many corners of `t` are vertex `v`.
pub open spec fn corners(t: Tri, v: int) -> int {
    (if t.0 == v { 1int } else { 0int }) + (if t.1 == v { 1int } else { 0int }) + (if t.2 == v { 1int } else { 0int })
}

/// Sum, over the triangles `ts`, of each triangle's cross product once per corner at `v`.
pub open spec fn accum(vs: Seq<Vertex>, ts: Seq<Tri>, v: int) -> (int, int, int)
    decreases ts.len(),
{
    if ts.len() == 0 {
        (0, 0, 0)
    } else {
        let p = accum(vs, ts.drop_last(), v);
        let n = cross_at(vs, ts.last());
        let k = corners(ts.last(), v);
        (p.0 + k * n.0, p.1 + k * n.1, p.2 + k * n.2)
    }
}

/// Largest magnitude among the three components.
pub open spec fn max_abs(n: (int, int, int)) -> int {
    let a = abs(n.0);
    let b = abs(n.1);
    let c = abs(n.2);
    if a >= b && a >= c {
        a
    } else if b >= c {
        b
    } else {
        c
    }
}

/// `n` divided by a common factor that brings every component within 2^40.
pub open spec fn reduced(n: (int, int, int)) -> (int, int, int) {
    let d = max_abs(n) / 0x100_0000_0000 + 1;
    (trunc_div(n.0, d), trunc_div(n.1, d), trunc_div(n.2, d))
}

/// `n` scaled to unit length in fixed point, or left zero when it has no length.
pub open spec fn unit_of(n: (int, int, int)) -> Vertex {
    let r = reduced(n);
    let q = root((r.0 * r.0 + r.1 * r.1 + r.2 * r.2) as nat);
    if q == 0 {
        Vertex { x: 0, y: 0, z: 0 }
    } else {
        Vertex {
            x: trunc_div(r.0 * UNIT, q) as i64,
            y: trunc_div(r.1 * UNIT, q) as i64,
            z: trunc_div(r.2 * UNIT, q) as i64,
        }
    }
}

/// Every vertex within `b` in each coordinate.
pub open spec fn vertices_within(vs: Seq<Vertex>, b: int) -> bool {
    forall|i: int| 0 <= i < vs.len() ==> #[trigger] vs[i].within(b)
}

proof fn lemma_reduce_bound(a: int, m: int, d: int)
    requires
        0 <= a <= m,
        m < 0x100_0000_0000 * d,
        d > 0,
    ensures
        0 <= a / d <= 0x100_0000_0000,
{
    vstd::arithmetic::div_mod::lemma_div_is_ordered(a, m, d);
    vstd::arithmetic::div_mod::lemma_div_pos_is_pos(a, d);
    assert(m / d <= 0x100_0000_0000) by (nonlinear_arith)
        requires
            m < 0x100_0000_0000 * d,
            d > 0,
            m >= 0,
    ;
}

fn unit_exec(nx: i128, ny: i128, nz: i128) -> (u: Vertex)
    requires
        abs(nx as int) < 0x1000_0000_0000_0000_0000_0000_0000_0000,
        abs(ny as int) < 0x1000_0000_0000_0000_0000_0000_0000_0000,
        abs(nz as int) < 0x1000_0000_0000_0000_0000_0000_0000_0000,
    ensures
        u == unit_of((nx as int, ny as int, nz as int)),
        u.within(0x100_0000_0000 * UNIT),
{
    let ax = if nx < 0 { -nx } else { nx };
    let ay = if ny < 0 { -ny } else { ny };
    let az = if nz < 0 { -nz } else { nz };
    let m = if ax >= ay && ax >= az { ax } else if ay >= az { ay } else { az };
    let d: i128 = m / 0x100_0000_0000 + 1;
    let rx = div_toward_zero(nx, d);
    let ry = div_toward_zero(ny, d);
    let rz = div_toward_zero(nz, d);
    proof {
        let mi = m as int;
        let di = d as int;
        assert(mi <= 0x100_0000_0000 * (mi / 0x100_0000_0000) + 0x100_0000_0000) by (nonlinear_arith)
            requires
                mi >= 0,
        ;
        assert(mi < 0x100_0000_0000 * di);
        lemma_reduce_bound(ax as int, mi, di);
        lemma_reduce_bound(ay as int, mi, di);
        lemma_reduce_bound(az as int, mi, di);
        assert(abs(rx as int) <= 0x100_0000_0000);
        assert(abs(ry as int) <= 0x100_0000_0000);
        assert(abs(rz as int) <= 0x100_0000_0000);
        assert(rx * rx <= 0x100_0000_0000 * 0x100_0000_0000 && ry * ry <= 0x100_0000_0000
            * 0x100_0000_0000 && rz * rz <= 0x100_0000_0000 * 0x100_0000_0000) by (nonlinear_arith)
            requires
                abs(rx as int) <= 0x100_0000_0000,
                abs(ry as int) <= 0x100_0000_0000,
                abs(rz as int) <= 0x100_0000_0000,
        ;
        assert(rx * rx >= 0 && ry * ry >= 0 && rz * rz >= 0) by (nonlinear_arith);
    }
    let sq = rx * rx + ry * ry + rz * rz;
    let r = isqrt(sq as u128);
    assert(r < 0x200_0000_0000) by (nonlinear_arith)
        requires
            r * r <= sq,
            sq <= 3 * 0x100_0000_0000 * 0x100_0000_0000,
            r >= 0,
    ;
    let q = r as i128;
    if q == 0 {
        Vertex { x: 0, y: 0, z: 0 }
    } else {
        assert(abs(rx * UNIT) <= 0x100_0000_0000 * UNIT && abs(ry * UNIT) <= 0x100_0000_0000 * UNIT
            && abs(rz * UNIT) <= 0x100_0000_0000 * UNIT) by (nonlinear_arith)
            requires
                abs(rx as int) <= 0x100_0000_0000,
                abs(ry as int) <= 0x100_0000_0000,
                abs(rz as int) <= 0x100_0000_0000,
        ;
        let x = div_toward_zero(rx * (UNIT as i128), q);
        let y = div_toward_zero(ry * (UNIT as i128), q);
        let z = div_toward_zero(rz * (UNIT as i128), q);
        proof {
            let u = UNIT as int;
            assert forall|a: int| abs(a) <= 0x100_0000_0000 * u implies #[trigger] abs(trunc_div(a, q as int))
                <= 0x100_0000_0000 * u by {
                if a >= 0 {
                    vstd::arithmetic::div_mod::lemma_div_is_ordered_by_denominator(a, 1, q as int);
                    vstd::arithmetic::div_mod::lemma_div_pos_is_pos(a, q as int);
                } else {
                    vstd::arithmetic::div_mod::lemma_div_is_ordered_by_denominator(-a, 1, q as int);
                    vstd::arithmetic::div_mod::lemma_div_pos_is_pos(-a, q as int);
                }
            }
        }
        Vertex { x: x as i64, y: y as i64, z: z as i64 }
    }
}

fn cross_exec(a: &Vertex, b: &Vertex, c: &Vertex) -> (n: (i128, i128, i128))
    requires
        a.within(NORMAL_LIMIT as int),
        b.within(NORMAL_LIMIT as int),
        c.within(NORMAL_LIMIT as int),
    ensures
        n.0 == cross_at(seq![*a, *b, *c], (0usize, 1usize, 2usize)).0,
        n.1 == cross_at(seq![*a, *b, *c], (0usize, 1usize, 2usize)).1,
        n.2 == cross_at(seq![*a, *b, *c], (0usize, 1usize, 2usize)).2,
        abs(n.0 as int) <= 0x8_0000_0000_0000_0000_0000,
        abs(n.1 as int) <= 0x8_0000_0000_0000_0000_0000,
        abs(n.2 as int) <= 0x8_0000_0000_0000_0000_0000,
{
    let ux = b.x as i128 - a.x as i128;
    let uy = b.y as i128 - a.y as i128;
    let uz = b.z as i128 - a.z as i128;
    let wx = c.x as i128 - a.x as i128;
    let wy = c.y as i128 - a.y as i128;
    let wz = c.z as i128 - a.z as i128;
    assert forall|p: int, q: int| abs(p) <= 0x200_0000_0000 && abs(q) <= 0x200_0000_0000 implies #[trigger] abs(p * q)
        <= 0x4_0000_0000_0000_0000_0000 by {
        assert(abs(p * q) <= 0x200_0000_0000 * 0x200_0000_0000) by (nonlinear_arith)
            requires
                abs(p) <= 0x200_0000_0000,
                abs(q) <= 0x200_0000_0000,
        ;
    }
    assert(abs(uy * wz) <= 0x4_0000_0000_0000_0000_0000);
    assert(abs(uz * wy) <= 0x4_0000_0000_0000_0000_0000);
    assert(abs(uz * wx) <= 0x4_0000_0000_0000_0000_0000);
    assert(abs(ux * wz) <= 0x4_0000_0000_0000_0000_0000);
    assert(abs(ux * wy) <= 0x4_0000_0000_0000_0000_0000);
    assert(abs(uy * wx) <= 0x4_0000_0000_0000_0000_0000);
    (uy * wz - uz * wy, uz * wx - ux * wz, ux * wy - uy * wx)
}

/// Largest number of fan triangles that normal accumulation accepts.
pub const TRIANGLE_LIMIT: u64 = 0x40_0000_0000;

/// Bound on one triangle's contribution to a vertex's accumulated normal.
pub const CONTRIBUTION_LIMIT: i128 = 0x18_0000_0000_0000_0000_0000;

fn add_cross(acc: &mut Vec<(i128, i128, i128)>, idx: usize, n: (i128, i128, i128), Ghost(bound): Ghost<int>)
    requires
        idx < old(acc)@.len(),
        abs(n.0 as int) <= 0x8_0000_0000_0000_0000_0000,
        abs(n.1 as int) <= 0x8_0000_0000_0000_0000_0000,
        abs(n.2 as int) <= 0x8_0000_0000_0000_0000_0000,
        0 <= bound <= 0x2000_0000_0000_0000_0000_0000_0000_0000,
        abs(old(acc)@[idx as int].0 as int) <= bound,
        abs(old(acc)@[idx as int].1 as int) <= bound,
        abs(old(acc)@[idx as int].2 as int) <= bound,
    ensures
        final(acc)@.len() == old(acc)@.len(),
        forall|v: int| 0 <= v < old(acc)@.len() && v != idx ==> final(acc)@[v] == old(acc)@[v],
        final(acc)@[idx as int].0 == old(acc)@[idx as int].0 + n.0,
        final(acc)@[idx as int].1 == old(acc)@[idx as int].1 + n.1,
        final(acc)@[idx as int].2 == old(acc)@[idx as int].2 + n.2,
{
    let o = acc[idx];
    acc.set(idx, (o.0 + n.0, o.1 + n.1, o.2 + n.2));
}

/// Adds `n` at each of the three corners `t` of a triangle.
fn add_triangle(acc: &mut Vec<(i128, i128, i128)>, t: Tri, n: (i128, i128, i128), Ghost(bound): Ghost<int>)
    requires
        t.0 < old(acc)@.len(),
        t.1 < old(acc)@.len(),
        t.2 < old(acc)@.len(),
        abs(n.0 as int) <= 0x8_0000_0000_0000_0000_0000,
        abs(n.1 as int) <= 0x8_0000_0000_0000_0000_0000,
        abs(n.2 as int) <= 0x8_0000_0000_0000_0000_0000,
        0 <= bound <= 0x1000_0000_0000_0000_0000_0000_0000_0000,
        forall|v: int| 0 <= v < old(acc)@.len() ==> {
            &&& abs((#[trigger] old(acc)@[v]).0 as int) <= bound
            &&& abs(old(acc)@[v].1 as int) <= bound
            &&& abs(old(acc)@[v].2 as int) <= bound
        },
    ensures
        final(acc)@.len() == old(acc)@.len(),
        forall|v: int| 0 <= v < old(acc)@.len() ==> {
            &&& (#[trigger] final(acc)@[v]).0 == old(acc)@[v].0 + corners(t, v) * n.0
            &&& final(acc)@[v].1 == old(acc)@[v].1 + corners(t, v) * n.1
            &&& final(acc)@[v].2 == old(acc)@[v].2 + corners(t, v) * n.2
        },
{
    let ghost a0 = acc@;
    let step: Ghost<int> = Ghost(0x8_0000_0000_0000_0000_0000int);
    add_cross(acc, t.0, n, Ghost(bound));
    let ghost a1 = acc@;
    add_cross(acc, t.1, n, Ghost(bound + step@));
    let ghost a2 = acc@;
    add_cross(acc, t.2, n, Ghost(bound + 2 * step@));
    assert forall|v: int| 0 <= v < a0.len() implies {
        &&& (#[trigger] acc@[v]).0 == a0[v].0 + corners(t, v) * n.0
        &&& acc@[v].1 == a0[v].1 + corners(t, v) * n.1
        &&& acc@[v].2 == a0[v].2 + corners(t, v) * n.2
    } by {
        let k0: int = if t.0 == v { 1 } else { 0 };
        let k1: int = if t.1 == v { 1 } else { 0 };
        let k2: int = if t.2 == v { 1 } else { 0 };
        assert(a1[v].0 == a0[v].0 + k0 * n.0 && a1[v].1 == a0[v].1 + k0 * n.1 && a1[v].2 == a0[v].2 + k0 * n.2);
        assert(a2[v].0 == a1[v].0 + k1 * n.0 && a2[v].1 == a1[v].1 + k1 * n.1 && a2[v].2 == a1[v].2 + k1 * n.2);
        assert(acc@[v].0 == a2[v].0 + k2 * n.0 && acc@[v].1 == a2[v].1 + k2 * n.1 && acc@[v].2 == a2[v].2 + k2 * n.2);
        assert(corners(t, v) == k0 + k1 + k2);
        assert((k0 + k1 + k2) * n.0 == k0 * n.0 + k1 * n.0 + k2 * n.0) by (nonlinear_arith);
        assert((k0 + k1 + k2) * n.1 == k0 * n.1 + k1 * n.1 + k2 * n.1) by (nonlinear_arith);
        assert((k0 + k1 + k2) * n.2 == k0 * n.2 + k1 * n.2 + k2 * n.2) by (nonlinear_arith);
    }
}

proof fn lemma_accum_push(vs: Seq<Vertex>, ts: Seq<Tri>, t: Tri, v: int)
    ensures
        accum(vs, ts.push(t), v) == (
            accum(vs, ts, v).0 + corners(t, v) * cross_at(vs, t).0,
            accum(vs, ts, v).1 + corners(t, v) * cross_at(vs, t).1,
            accum(vs, ts, v).2 + corners(t, v) * cross_at(vs, t).2,
        ),
{
    assert(ts.push(t).drop_last() =~= ts);
}

proof fn lemma_contribution_bound(a: int, k: int, n: int, b: int)
    requires
        abs(a) <= b,
        0 <= k <= 3,
        abs(n) <= 0x8_0000_0000_0000_0000_0000,
    ensures
        abs(a + k * n) <= b + CONTRIBUTION_LIMIT,
{
    assert(abs(k * n) <= 3 * 0x8_0000_0000_0000_0000_0000) by (nonlinear_arith)
        requires
            0 <= k <= 3,
            abs(n) <= 0x8_0000_0000_0000_0000_0000,
    ;
}

/// Per-vertex normals: each fan triangle's cross product is added at each of its
/// corners, and every sum is scaled to unit length (a vertex no triangle touches keeps a zero normal).
#[verifier::rlimit(50)]
pub fn calculate_normals(vertices: &Vec<Vertex>, faces: &Vec<Face>) -> (normals: Vec<Vertex>)
    requires
        vertices_within(vertices@, NORMAL_LIMIT as int),
        faces_valid(vertices@.len() as int, face_lists(faces@)),
        fan(face_lists(faces@)).len() <= TRIANGLE_LIMIT,
    ensures
        normals@.len() == vertices@.len(),
        forall|v: int|
            0 <= v < vertices@.len() ==> #[trigger] normals@[v] == unit_of(
                accum(vertices@, fan(face_lists(faces@)), v),
            ) && normals@[v].within(0x100_0000_0000 * UNIT),
{
    let ghost vs = vertices@;
    let ghost fv = face_lists(faces@);
    let n = vertices.len();
    let mut acc: Vec<(i128, i128, i128)> = Vec::new();
    let mut j: usize = 0;
    while j < n
        invariant
            n == vs.len(),
            0 <= j <= n,
            acc@.len() == j,
            forall|v: int| 0 <= v < j ==> #[trigger] acc@[v] == (0i128, 0i128, 0i128),
        decreases n - j,
    {
        acc.push((0, 0, 0));
        j += 1;
    }
    proof {
        assert(fv.take(0) =~= Seq::<Seq<usize>>::empty());
    }
    let mut k: usize = 0;
    while k < faces.len()
        invariant
            vs == vertices@,
            fv == face_lists(faces@),
            n == vs.len(),
            acc@.len() == n,
            vertices_within(vs, NORMAL_LIMIT as int),
            faces_valid(n as int, fv),
            fan(fv).len() <= TRIANGLE_LIMIT,
            0 <= k <= faces@.len(),
            forall|v: int| 0 <= v < n ==> {
                let a = accum(vs, fan(fv.take(k as int)), v);
                &&& (#[trigger] acc@[v]).0 == a.0
                &&& acc@[v].1 == a.1
                &&& acc@[v].2 == a.2
                &&& abs(acc@[v].0 as int) <= fan(fv.take(k as int)).len() * CONTRIBUTION_LIMIT
                &&& abs(acc@[v].1 as int) <= fan(fv.take(k as int)).len() * CONTRIBUTION_LIMIT
                &&& abs(acc@[v].2 as int) <= fan(fv.take(k as int)).len() * CONTRIBUTION_LIMIT
            },
        decreases faces@.len() - k,
    {
        let m = faces[k].vertices.len();
        let ghost f = fv[k as int];
        let ghost pre = fan(fv.take(k as int));
        proof {
            assert(fv.take(k + 1).drop_last() =~= fv.take(k as int));
            assert(fan(fv.take(k + 1)) == pre + fan_of(f));
            lemma_fan_prefix(fv, k + 1);
        }
        if m >= 3 {
            let mut i: usize = 1;
            proof {
                assert(fan_of(f).take(0) =~= Seq::<Tri>::empty());
                assert(pre + fan_of(f).take(0) =~= pre);
            }
            while i < m - 1
                invariant
                    vs == vertices@,
                    fv == face_lists(faces@),
                    n == vs.len(),
                    acc@.len() == n,
                    vertices_within(vs, NORMAL_LIMIT as int),
                    faces_valid(n as int, fv),
                    fan(fv).len() <= TRIANGLE_LIMIT,
                    0 <= k < faces@.len(),
                    f == fv[k as int],
                    m == f.len(),
                    m >= 3,
                    1 <= i <= m - 1,
                    pre == fan(fv.take(k as int)),
                    pre.len() + fan_of(f).len() <= fan(fv).len(),
                    forall|v: int| 0 <= v < n ==> {
                        let a = accum(vs, pre + fan_of(f).take(i - 1), v);
                        &&& (#[trigger] acc@[v]).0 == a.0
                        &&& acc@[v].1 == a.1
                        &&& acc@[v].2 == a.2
                        &&& abs(acc@[v].0 as int) <= (pre.len() + i - 1) * CONTRIBUTION_LIMIT
                        &&& abs(acc@[v].1 as int) <= (pre.len() + i - 1) * CONTRIBUTION_LIMIT
                        &&& abs(acc@[v].2 as int) <= (pre.len() + i - 1) * CONTRIBUTION_LIMIT
                    },
                decreases m - 1 - i,
            {
                let ghost ts = pre + fan_of(f).take(i - 1);
                let ghost t = fan_of(f)[i - 1];
                proof {
                    assert(ts.push(t) =~= pre + fan_of(f).take(i as int));
                    assert(ts.push(t).drop_last() =~= ts);
                }
                let i0 = faces[k].vertices[0];
                let i1 = faces[k].vertices[i];
                let i2 = faces[k].vertices[i + 1];
                let nrm = cross_exec(&vertices[i0], &vertices[i1], &vertices[i2]);
                let ghost before = acc@;
                let ghost b0 = (pre.len() + i - 1) * CONTRIBUTION_LIMIT;
                proof {
                    assert(b0 <= TRIANGLE_LIMIT * CONTRIBUTION_LIMIT) by (nonlinear_arith)
                        requires
                            b0 == (pre.len() + i - 1) * CONTRIBUTION_LIMIT,
                            pre.len() + i - 1 <= TRIANGLE_LIMIT,
                            pre.len() + i - 1 >= 0,
                    ;
                }
                add_triangle(&mut acc, (i0, i1, i2), nrm, Ghost(b0));
                proof {
                    assert(t == (i0, i1, i2));
                    assert forall|v: int| 0 <= v < n implies {
                        let a = accum(vs, ts.push(t), v);
                        &&& (#[trigger] acc@[v]).0 == a.0
                        &&& acc@[v].1 == a.1
                        &&& acc@[v].2 == a.2
                        &&& abs(acc@[v].0 as int) <= (pre.len() + i) * CONTRIBUTION_LIMIT
                        &&& abs(acc@[v].1 as int) <= (pre.len() + i) * CONTRIBUTION_LIMIT
                        &&& abs(acc@[v].2 as int) <= (pre.len() + i) * CONTRIBUTION_LIMIT
                    } by {
                        lemma_accum_push(vs, ts, t, v);
                        let _ = before[v];
                        lemma_contribution_bound(before[v].0 as int, corners(t, v), nrm.0 as int, b0);
                        lemma_contribution_bound(before[v].1 as int, corners(t, v), nrm.1 as int, b0);
                        lemma_contribution_bound(before[v].2 as int, corners(t, v), nrm.2 as int, b0);
                    }
                }
                i += 1;
            }
            proof {
                assert(fan_of(f).take(m - 2) =~= fan_of(f));
            }
        } else {
            proof {
                assert(pre + fan_of(f) =~= pre);
            }
        }
        k += 1;
    }
    proof {
        assert(fv.take(faces@.len() as int) =~= fv);
    }
    let mut normals: Vec<Vertex> = Vec::new();
    let mut v: usize = 0;
    while v < n
        invariant
            vs == vertices@,
            fv == face_lists(faces@),
            n == vs.len(),
            acc@.len() == n,
            fan(fv).len() <= TRIANGLE_LIMIT,
            0 <= v <= n,
            normals@.len() == v,
            forall|u: int| 0 <= u < n ==> {
                let a = accum(vs, fan(fv), u);
                &&& (#[trigger] acc@[u]).0 == a.0
                &&& acc@[u].1 == a.1
                &&& acc@[u].2 == a.2
                &&& abs(acc@[u].0 as int) <= fan(fv).len() * CONTRIBUTION_LIMIT
                &&& abs(acc@[u].1 as int) <= fan(fv).len() * CONTRIBUTION_LIMIT
                &&& abs(acc@[u].2 as int) <= fan(fv).len() * CONTRIBUTION_LIMIT
            },
            forall|u: int| 0 <= u < v ==> #[trigger] normals@[u] == unit_of(accum(vs, fan(fv), u)) && normals@[u].within(0x100_0000_0000 * UNIT),
        decreases n - v,
    {
        let a = acc[v];
        proof {
            let _ = acc@[v as int];
        }
        normals.push(unit_exec(a.0, a.1, a.2));
        v += 1;
    }
    normals
}

} // verus!
