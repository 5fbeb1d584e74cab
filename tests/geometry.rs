use show_obj::fixed::{div_floor, div_toward_zero, isqrt, UNIT};
use show_obj::geometry::{
    project, project_all, rotate_x, rotate_xyz, rotate_y, rotate_z, Point3D, Trig, Vertex,
    DEPTH_LIMIT, PIXEL_LIMIT,
};

fn quarter() -> Trig {
    Trig::new(0, UNIT).unwrap()
}

#[test]
fn zero_rotation_is_identity() {
    let id = Trig::identity();
    for v in [
        Vertex { x: 123, y: -456, z: 789 },
        Vertex { x: -UNIT, y: UNIT / 3, z: 7 * UNIT },
        Vertex { x: 0, y: 0, z: 0 },
    ] {
        assert_eq!(rotate_xyz(&v, id, id, id), v);
    }
}

#[test]
fn rotation_order_matters_for_unit_x() {
    let v = Vertex { x: UNIT, y: 0, z: 0 };
    let id = Trig::identity();
    let about_x = rotate_xyz(&v, quarter(), id, id);
    let about_y = rotate_xyz(&v, id, quarter(), id);
    assert_eq!(about_x, Vertex { x: UNIT, y: 0, z: 0 });
    assert_eq!(about_y, Vertex { x: 0, y: 0, z: -UNIT });
    let px = project(&about_x, 80, 40, 10 * UNIT);
    let py = project(&about_y, 80, 40, 10 * UNIT);
    assert_eq!(px, Point3D { x: 50, y: 20, z: 0 });
    assert_eq!(py, Point3D { x: 40, y: 20, z: -UNIT });
    assert_ne!(px, py);
}

#[test]
fn quarter_turns_about_each_axis() {
    let v = Vertex { x: 1000, y: 2000, z: 3000 };
    let q = quarter();
    assert_eq!(rotate_x(&v, q), Vertex { x: 1000, y: -3000, z: 2000 });
    assert_eq!(rotate_y(&v, q), Vertex { x: 3000, y: 2000, z: -1000 });
    assert_eq!(rotate_z(&v, q), Vertex { x: -2000, y: 1000, z: 3000 });
}

#[test]
fn rotation_rounds_toward_zero() {
    let half = Trig::new(UNIT / 2, UNIT / 2).unwrap();
    let v = Vertex { x: 0, y: 3, z: 0 };
    assert_eq!(rotate_x(&v, half), Vertex { x: 0, y: 1, z: 1 });
    let w = Vertex { x: 0, y: -3, z: 0 };
    assert_eq!(rotate_x(&w, half), Vertex { x: 0, y: -1, z: -1 });
}

#[test]
fn trig_out_of_range_is_refused() {
    assert!(Trig::new(UNIT + 1, 0).is_none());
    assert!(Trig::new(0, -UNIT - 1).is_none());
    assert_eq!(Trig::new(-UNIT, UNIT), Some(Trig { cos: -UNIT, sin: UNIT }));
}

#[test]
fn projection_rounds_half_up() {
    let a = project(&Vertex { x: UNIT / 2, y: 0, z: 5 }, 10, 10, UNIT);
    assert_eq!(a, Point3D { x: 6, y: 5, z: 5 });
    let b = project(&Vertex { x: -UNIT / 2, y: -UNIT, z: 5 }, 10, 10, UNIT);
    assert_eq!(b, Point3D { x: 5, y: 4, z: 5 });
    let c = project(&Vertex { x: 3 * UNIT / 10, y: 0, z: 0 }, 0, 0, 20 * UNIT);
    assert_eq!(c, Point3D { x: 6, y: 0, z: 0 });
}

#[test]
fn projection_saturates_far_points() {
    let far = Vertex { x: i64::MAX, y: i64::MIN, z: i64::MAX };
    let p = project(&far, 100, 100, 1000 * UNIT);
    assert_eq!(p, Point3D { x: PIXEL_LIMIT, y: -PIXEL_LIMIT, z: DEPTH_LIMIT });
}

#[test]
fn projection_at_zero_scale_collapses_to_centre() {
    let p = project(&Vertex { x: 7 * UNIT, y: -3 * UNIT, z: 2 }, 80, 41, 0);
    assert_eq!(p, Point3D { x: 40, y: 21, z: 2 });
}

#[test]
fn project_all_rotates_then_projects() {
    let vs = vec![Vertex { x: UNIT, y: 0, z: 0 }, Vertex { x: 0, y: UNIT, z: 0 }];
    let id = Trig::identity();
    let pts = project_all(&vs, id, id, quarter(), 20, 20, 5 * UNIT);
    assert_eq!(pts, vec![Point3D { x: 10, y: 15, z: 0 }, Point3D { x: 5, y: 10, z: 0 }]);
}

#[test]
fn integer_square_root() {
    assert_eq!(isqrt(0), 0);
    assert_eq!(isqrt(1), 1);
    assert_eq!(isqrt(15), 3);
    assert_eq!(isqrt(16), 4);
    assert_eq!(isqrt(1u128 << 126), 1u128 << 63);
    assert_eq!(isqrt((1u128 << 127) - 1), 13043817825332782212);
}

#[test]
fn divisions_round_as_named() {
    assert_eq!(div_toward_zero(-7, 2), -3);
    assert_eq!(div_toward_zero(7, 2), 3);
    assert_eq!(div_floor(-7, 2), -4);
    assert_eq!(div_floor(-8, 2), -4);
    assert_eq!(div_floor(7, 2), 3);
}
