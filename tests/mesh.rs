use show_obj::fixed::UNIT;
use show_obj::geometry::Vertex;
use show_obj::mesh::{normalize_model, subdivide_faces, subdivide_once, Face, MeshError};

fn bounds(vs: &[Vertex], f: fn(&Vertex) -> i64) -> (i64, i64) {
    let lo = vs.iter().map(f).min().unwrap();
    let hi = vs.iter().map(f).max().unwrap();
    (lo, hi)
}

#[test]
fn normalized_box_is_centred_with_unit_extent() {
    let mut vs = vec![
        Vertex { x: 0, y: 0, z: 0 },
        Vertex { x: 2 * UNIT, y: 4 * UNIT, z: 8 * UNIT },
        Vertex { x: UNIT, y: -UNIT, z: 3 * UNIT },
    ];
    assert_eq!(normalize_model(&mut vs), Ok(()));
    let (xl, xh) = bounds(&vs, |v| v.x);
    let (yl, yh) = bounds(&vs, |v| v.y);
    let (zl, zh) = bounds(&vs, |v| v.z);
    assert_eq!((zl, zh), (-UNIT / 2, UNIT / 2));
    assert_eq!(xl + xh, 0);
    assert_eq!(yl + yh, 0);
    assert!(xh - xl <= UNIT && yh - yl <= UNIT);
    assert_eq!(vs[2], Vertex { x: 0, y: -312_500, z: -125_000 });
}

#[test]
fn normalized_box_with_odd_extent() {
    let mut vs = vec![Vertex { x: -3, y: 0, z: 0 }, Vertex { x: 4, y: 1, z: 0 }];
    assert_eq!(normalize_model(&mut vs), Ok(()));
    assert_eq!(vs[0], Vertex { x: -UNIT / 2, y: -71_428, z: 0 });
    assert_eq!(vs[1], Vertex { x: UNIT / 2, y: 71_428, z: 0 });
}

#[test]
fn normalizing_an_empty_mesh_fails() {
    let mut vs: Vec<Vertex> = Vec::new();
    assert_eq!(normalize_model(&mut vs), Err(MeshError::Empty));
}

#[test]
fn normalizing_a_single_point_fails_and_keeps_it() {
    let p = Vertex { x: 5, y: 6, z: 7 };
    let mut vs = vec![p, p, p];
    assert_eq!(normalize_model(&mut vs), Err(MeshError::Degenerate));
    assert_eq!(vs, vec![p, p, p]);
}

#[test]
fn one_subdivision_splits_a_triangle_in_four() {
    let mut vs = vec![
        Vertex { x: 0, y: 0, z: 0 },
        Vertex { x: 4, y: 0, z: 0 },
        Vertex { x: 0, y: 4, z: 2 },
    ];
    let mut fs = vec![Face { vertices: vec![0, 1, 2] }];
    subdivide_once(&mut vs, &mut fs);
    assert_eq!(vs.len(), 6);
    assert_eq!(vs[3], Vertex { x: 2, y: 0, z: 0 });
    assert_eq!(vs[4], Vertex { x: 2, y: 2, z: 1 });
    assert_eq!(vs[5], Vertex { x: 0, y: 2, z: 1 });
    let lists: Vec<Vec<usize>> = fs.iter().map(|f| f.vertices.clone()).collect();
    assert_eq!(lists, vec![vec![0, 3, 5], vec![1, 4, 3], vec![2, 5, 4], vec![3, 4, 5]]);
}

#[test]
fn subdivision_fans_polygons_and_skips_short_faces() {
    let mut vs = vec![
        Vertex { x: 0, y: 0, z: 0 },
        Vertex { x: 2, y: 0, z: 0 },
        Vertex { x: 2, y: 2, z: 0 },
        Vertex { x: 0, y: 2, z: 0 },
    ];
    let mut fs = vec![Face { vertices: vec![0, 1, 2, 3] }, Face { vertices: vec![0, 1] }];
    subdivide_once(&mut vs, &mut fs);
    assert_eq!(vs.len(), 4 + 6);
    assert_eq!(fs.len(), 8);
}

#[test]
fn repeated_subdivision_quadruples_triangles() {
    let mut vs = vec![
        Vertex { x: 0, y: 0, z: 0 },
        Vertex { x: 64, y: 0, z: 0 },
        Vertex { x: 0, y: 64, z: 0 },
    ];
    let mut fs = vec![Face { vertices: vec![0, 1, 2] }];
    subdivide_faces(&mut vs, &mut fs, 2);
    assert_eq!(fs.len(), 16);
    assert_eq!(vs.len(), 3 + 3 + 12);
    subdivide_faces(&mut vs, &mut fs, 0);
    assert_eq!(fs.len(), 16);
}
