use show_obj::fixed::UNIT;
use show_obj::geometry::{project_all, Point3D, Trig, Vertex};
use show_obj::mesh::{normalize_model, Face};
use show_obj::raster::{draw_line, fill_triangle, render, Brush, Frame, FAR};
use show_obj::shade::{Cell, Glyph, Ink};

fn pt(x: i64, y: i64, z: i64) -> Point3D {
    Point3D { x, y, z }
}

fn face(v: &[usize]) -> Face {
    Face { vertices: v.to_vec() }
}

fn wire() -> Cell {
    Cell::Paint { glyph: Glyph::Dot, ink: Ink::Gray }
}

fn painted(f: &Frame) -> usize {
    let mut n = 0;
    for y in 0..f.height {
        for x in 0..f.width {
            if f.cell(x, y) != Cell::Empty {
                n += 1;
            }
        }
    }
    n
}

fn two_layers() -> Vec<Point3D> {
    vec![
        pt(1, 1, UNIT / 2),
        pt(9, 1, UNIT / 2),
        pt(1, 9, UNIT / 2),
        pt(1, 1, 9 * UNIT / 10),
        pt(1, 9, 9 * UNIT / 10),
        pt(9, 1, 9 * UNIT / 10),
    ]
}

#[test]
fn closer_triangle_wins_in_either_order() {
    let pts = two_layers();
    let near_last = render(&pts, &vec![face(&[0, 1, 2]), face(&[3, 4, 5])], 12, 12, false, Ink::Red);
    let near_first = render(&pts, &vec![face(&[3, 4, 5]), face(&[0, 1, 2])], 12, 12, false, Ink::Red);
    let expected = Cell::Paint { glyph: Glyph::Full, ink: Ink::Red };
    for f in [&near_last, &near_first] {
        assert_eq!(f.cell(3, 3), expected);
        assert_eq!(f.depth[3 * 12 + 3], (9 * UNIT / 10) as i128);
    }
    assert_eq!(near_last.cells, near_first.cells);
    assert_eq!(near_last.depth, near_first.depth);
}

#[test]
fn farther_triangle_alone_shows_its_own_shade() {
    let pts = two_layers();
    let f = render(&pts, &vec![face(&[0, 1, 2])], 12, 12, false, Ink::Red);
    assert_eq!(f.cell(3, 3), Cell::Paint { glyph: Glyph::Blank, ink: Ink::Red });
    assert_eq!(f.depth[3 * 12 + 3], (UNIT / 2) as i128);
}

#[test]
fn collinear_triangle_fills_nothing() {
    let pts = vec![pt(0, 0, 0), pt(5, 5, 0), pt(10, 10, 0)];
    let f = render(&pts, &vec![face(&[0, 1, 2])], 12, 12, false, Ink::Blue);
    assert_eq!(painted(&f), 0);
    assert!(f.depth.iter().all(|d| *d == FAR));
}

#[test]
fn one_triangle_mesh_renders_a_cell() {
    let mut vs = vec![
        Vertex { x: 0, y: 0, z: 0 },
        Vertex { x: UNIT, y: 0, z: 0 },
        Vertex { x: 0, y: UNIT, z: 0 },
    ];
    let faces = vec![face(&[0, 1, 2])];
    assert_eq!(normalize_model(&mut vs), Ok(()));
    let id = Trig::identity();
    let pts = project_all(&vs, id, id, id, 40, 40, 20 * UNIT);
    let f = render(&pts, &faces, 40, 40, false, Ink::Blue);
    assert!(painted(&f) > 0);
    assert_ne!(f.cell(20, 20), Cell::Empty);
}

#[test]
fn zero_scale_collapses_the_triangle() {
    let vs = vec![
        Vertex { x: -UNIT / 2, y: -UNIT / 2, z: 0 },
        Vertex { x: UNIT / 2, y: -UNIT / 2, z: 0 },
        Vertex { x: -UNIT / 2, y: UNIT / 2, z: 0 },
    ];
    let id = Trig::identity();
    let pts = project_all(&vs, id, id, id, 40, 40, 0);
    let f = render(&pts, &vec![face(&[0, 1, 2])], 40, 40, false, Ink::Blue);
    assert_eq!(painted(&f), 0);
}

#[test]
fn depth_test_keeps_the_closer_fill() {
    let mut f = Frame::new(6, 6);
    let paint_a = Cell::Paint { glyph: Glyph::Full, ink: Ink::Green };
    let paint_b = Cell::Paint { glyph: Glyph::Dot, ink: Ink::Cyan };
    fill_triangle(&mut f, pt(0, 0, 10), pt(5, 0, 10), pt(0, 5, 10), Brush::Flat(paint_a));
    fill_triangle(&mut f, pt(0, 0, 3), pt(5, 0, 3), pt(0, 5, 3), Brush::Flat(paint_b));
    assert_eq!(f.cell(1, 1), paint_a);
    assert_eq!(f.cell(5, 5), Cell::Empty);
    fill_triangle(&mut f, pt(0, 0, 20), pt(5, 0, 20), pt(0, 5, 20), Brush::Flat(paint_b));
    assert_eq!(f.cell(1, 1), paint_b);
}

#[test]
fn depth_is_interpolated_across_the_triangle() {
    let mut f = Frame::new(11, 11);
    let p = Cell::Paint { glyph: Glyph::Full, ink: Ink::White };
    fill_triangle(&mut f, pt(0, 0, 0), pt(10, 0, 1000), pt(0, 10, 0), Brush::Flat(p));
    assert_eq!(f.depth[0], 0);
    assert_eq!(f.depth[5], 500);
    assert_eq!(f.depth[10], 1000);
    assert_eq!(f.depth[11 + 3], 300);
}

#[test]
fn clipped_triangle_stays_inside_the_frame() {
    let mut f = Frame::new(4, 4);
    let p = Cell::Paint { glyph: Glyph::Full, ink: Ink::White };
    fill_triangle(&mut f, pt(-10, -10, 0), pt(30, -10, 0), pt(-10, 30, 0), Brush::Flat(p));
    assert_eq!(painted(&f), 16);
}

#[test]
fn horizontal_line() {
    let mut f = Frame::new(6, 3);
    draw_line(&mut f, pt(0, 1, 0), pt(4, 1, 0));
    for x in 0..6 {
        assert_eq!(f.cell(x, 1), if x <= 4 { wire() } else { Cell::Empty });
        assert_eq!(f.cell(x, 0), Cell::Empty);
    }
}

#[test]
fn diagonal_and_steep_lines() {
    let mut f = Frame::new(5, 5);
    draw_line(&mut f, pt(0, 0, 0), pt(2, 2, 0));
    assert_eq!(painted(&f), 3);
    assert_eq!(f.cell(1, 1), wire());
    let mut g = Frame::new(5, 5);
    draw_line(&mut g, pt(1, 4, 0), pt(2, 0, 0));
    assert_eq!(painted(&g), 5);
    assert_eq!(g.cell(1, 4), wire());
    assert_eq!(g.cell(2, 0), wire());
}

#[test]
fn line_off_screen_draws_only_visible_part() {
    let mut f = Frame::new(3, 3);
    draw_line(&mut f, pt(-5, 1, 0), pt(5, 1, 0));
    assert_eq!(painted(&f), 3);
    let depth_before = f.depth.clone();
    draw_line(&mut f, pt(0, 0, 0), pt(0, 0, 0));
    assert_eq!(f.cell(0, 0), wire());
    assert_eq!(f.depth, depth_before);
}

#[test]
fn wireframe_outlines_each_face() {
    let pts = vec![pt(1, 1, 0), pt(8, 1, 0), pt(8, 8, 0), pt(1, 8, 0)];
    let f = render(&pts, &vec![face(&[0, 1, 2, 3])], 10, 10, true, Ink::Yellow);
    for (x, y) in [(1, 1), (8, 1), (8, 8), (1, 8), (4, 1), (1, 4)] {
        assert_eq!(f.cell(x, y), wire());
    }
    assert_eq!(f.cell(4, 4), Cell::Paint { glyph: Glyph::Blank, ink: Ink::Yellow });
    let plain = render(&pts, &vec![face(&[0, 1, 2, 3])], 10, 10, false, Ink::Yellow);
    assert_eq!(plain.cell(1, 1), Cell::Paint { glyph: Glyph::Blank, ink: Ink::Yellow });
}

#[test]
fn short_faces_are_skipped() {
    let pts = vec![pt(1, 1, 0), pt(8, 1, 0)];
    let f = render(&pts, &vec![face(&[0, 1]), face(&[])], 10, 10, true, Ink::Yellow);
    assert_eq!(painted(&f), 0);
}

#[test]
fn empty_frame_is_blank() {
    let f = Frame::new(3, 2);
    assert_eq!(f.cells.len(), 6);
    assert_eq!(painted(&f), 0);
    assert!(f.depth.iter().all(|d| *d == FAR));
    let none = Frame::new(0, 0);
    assert!(none.cells.is_empty());
}
