use show_obj::fixed::UNIT;
use show_obj::geometry::{project_all, Trig, Vertex};
use show_obj::mesh::{normalize_model, MeshError};
use show_obj::raster::render;
use show_obj::shade::{Cell, Ink};
use show_obj::obj::{parse_decimal, parse_face_line, parse_index, parse_obj, parse_vertex_line, split_fields};

fn lines(text: &[&str]) -> Vec<String> {
    text.iter().map(|l| l.to_string()).collect()
}

#[test]
fn decimals_in_fixed_point() {
    assert_eq!(parse_decimal("1.5"), Some(1_500_000));
    assert_eq!(parse_decimal("-0.25"), Some(-250_000));
    assert_eq!(parse_decimal("+3"), Some(3 * UNIT));
    assert_eq!(parse_decimal(".5"), Some(500_000));
    assert_eq!(parse_decimal("5."), Some(5 * UNIT));
    assert_eq!(parse_decimal("0.000000"), Some(0));
}

#[test]
fn decimals_with_exponents() {
    assert_eq!(parse_decimal("1e-3"), Some(1000));
    assert_eq!(parse_decimal("2.5E2"), Some(250 * UNIT));
    assert_eq!(parse_decimal("-1.25e+1"), Some(-12_500_000));
    assert_eq!(parse_decimal("0e999999999999999999999999"), Some(0));
    assert_eq!(parse_decimal("7e-999999"), Some(0));
}

#[test]
fn decimals_truncate_below_a_millionth() {
    assert_eq!(parse_decimal("1.0000009"), Some(UNIT));
    assert_eq!(parse_decimal("-1.0000009"), Some(-UNIT));
    assert_eq!(parse_decimal("0.0000001"), Some(0));
}

#[test]
fn malformed_decimals_are_refused() {
    for t in ["", "-", "abc", "1e", "e5", ".", "1.2.3", "nan", "inf", "1,5", "--1", "1e+", "0x10"] {
        assert_eq!(parse_decimal(t), None, "{}", t);
    }
}

#[test]
fn decimals_beyond_the_limits_are_refused() {
    assert_eq!(parse_decimal("4000000000000"), Some(4_000_000_000_000_000_000));
    assert_eq!(parse_decimal("5000000000000"), None);
    assert_eq!(parse_decimal("1e400"), None);
    assert_eq!(parse_decimal("1000000000000000000000000000000000000e-30"), None);
}

#[test]
fn face_references() {
    assert_eq!(parse_index("3"), Ok(2));
    assert_eq!(parse_index("3/1/2"), Ok(2));
    assert_eq!(parse_index("7//4"), Ok(6));
    assert_eq!(parse_index("+2"), Ok(1));
    assert_eq!(parse_index("0"), Err(MeshError::BadIndex));
    assert_eq!(parse_index("0/5"), Err(MeshError::BadIndex));
    assert_eq!(parse_index("x"), Err(MeshError::BadNumber));
    assert_eq!(parse_index("/3"), Err(MeshError::BadNumber));
    assert_eq!(parse_index("-1"), Err(MeshError::BadNumber));
    assert_eq!(parse_index("99999999999999999999999"), Err(MeshError::BadNumber));
}

#[test]
fn fields_split_on_white_space() {
    assert_eq!(split_fields("  v 1\t2  3 "), vec!["v", "1", "2", "3"]);
    assert_eq!(split_fields(""), Vec::<&str>::new());
    assert_eq!(split_fields("f\u{a0}1"), vec!["f", "1"]);
}

#[test]
fn vertex_and_face_lines() {
    assert_eq!(parse_vertex_line("v 1 -2 0.5 1.0"), Ok(Vertex { x: UNIT, y: -2 * UNIT, z: UNIT / 2 }));
    assert_eq!(parse_vertex_line("v 1 2"), Err(MeshError::BadNumber));
    assert_eq!(parse_vertex_line("v 1 x 3"), Err(MeshError::BadNumber));
    assert_eq!(parse_face_line("f 1/2/3 4//6 7"), Ok(vec![0, 3, 6]));
    assert_eq!(parse_face_line("f 1 a 0"), Err(MeshError::BadNumber));
    assert_eq!(parse_face_line("f 1 0 a"), Err(MeshError::BadIndex));
    assert_eq!(parse_face_line("f"), Ok(vec![]));
}

#[test]
fn a_small_mesh_file() {
    let text = lines(&[
        "# a comment",
        "v 0 0 0",
        "v 1 0 0",
        "vn 0 0 1",
        "vt 0.5 0.5",
        "v 0 1 0",
        "v1 2 3",
        "",
        "f 1 2 3",
        "f 1/1/1 2/2/2 3/3/3 1",
    ]);
    let (vs, fs) = parse_obj(&text).unwrap();
    assert_eq!(vs, vec![
        Vertex { x: 0, y: 0, z: 0 },
        Vertex { x: UNIT, y: 0, z: 0 },
        Vertex { x: 0, y: UNIT, z: 0 },
    ]);
    let lists: Vec<Vec<usize>> = fs.iter().map(|f| f.vertices.clone()).collect();
    assert_eq!(lists, vec![vec![0, 1, 2], vec![0, 1, 2, 0]]);
}

#[test]
fn mesh_file_errors() {
    assert_eq!(parse_obj(&lines(&["v 1 2"])).err(), Some(MeshError::BadNumber));
    assert_eq!(parse_obj(&lines(&["v 0 0 0", "f 1 0 1"])).err(), Some(MeshError::BadIndex));
    assert_eq!(parse_obj(&lines(&["v 0 0 0", "f 1 2 1"])).err(), Some(MeshError::BadIndex));
    assert_eq!(parse_obj(&lines(&["v 1 x 3", "f 0 0 0"])).err(), Some(MeshError::BadNumber));
    assert_eq!(parse_obj(&lines(&["f 2 1 1", "v 0 0 0", "v 1 1 1"])).unwrap().1.len(), 1);
    assert!(parse_obj(&lines(&[])).unwrap().0.is_empty());
}

#[test]
fn one_triangle_file_round_trip() {
    let (mut vs, fs) = parse_obj(&lines(&["v 0 0 0", "v 2 0 0", "v 0 1 0", "f 1 2 3"])).unwrap();
    assert_eq!(normalize_model(&mut vs), Ok(()));
    let id = Trig::identity();
    let pts = project_all(&vs, id, id, id, 60, 30, 20 * UNIT);
    let f = render(&pts, &fs, 60, 30, false, Ink::Blue);
    let mut drawn = 0;
    for y in 0..30 {
        for x in 0..60 {
            if f.cell(x, y) != Cell::Empty {
                drawn += 1;
            }
        }
    }
    assert!(drawn > 0);
    assert_ne!(f.cell(26, 14), Cell::Empty);
}
