use show_obj::fixed::UNIT;
use show_obj::geometry::{Point3D, Trig, Vertex};
use show_obj::gpu::{color_from_string, project_perspective, shaded_vertices, transform_shaded, GPURenderer, ShadedVertex};
use show_obj::mesh::{calculate_normals, Face};
use show_obj::raster::Rgb;
use show_obj::shade::{Cell, Glyph, Ink};

fn sv(x: i64, y: i64, nz: i64, color: Rgb) -> ShadedVertex {
    ShadedVertex { position: Vertex { x, y, z: 0 }, normal: Vertex { x: 0, y: 0, z: nz }, color }
}

const RED: Rgb = Rgb { r: UNIT, g: 0, b: 0 };

#[test]
fn perspective_centre_and_offset() {
    assert_eq!(project_perspective(&Vertex { x: 0, y: 0, z: 0 }, 80, 40), Point3D { x: 40, y: 20, z: 3 * UNIT });
    assert_eq!(project_perspective(&Vertex { x: UNIT, y: 0, z: 0 }, 80, 40).x, 86);
    assert_eq!(project_perspective(&Vertex { x: 0, y: UNIT, z: 0 }, 80, 40).y, 8);
}

#[test]
fn perspective_behind_the_camera_is_flagged() {
    let p = project_perspective(&Vertex { x: 0, y: 0, z: -3 * UNIT }, 80, 40);
    assert_eq!(p, Point3D { x: -1000, y: -1000, z: -1000 * UNIT });
}

fn facing_triangle(nz: i64, color: Rgb) -> Vec<ShadedVertex> {
    vec![
        sv(-UNIT / 2, -UNIT / 2, nz, color),
        sv(UNIT / 2, -UNIT / 2, nz, color),
        sv(-UNIT / 2, UNIT / 2, nz, color),
    ]
}

fn cells(f: &show_obj::raster::Frame) -> Vec<Cell> {
    let mut out = Vec::new();
    for y in 0..f.height {
        for x in 0..f.width {
            out.push(f.cell(x, y));
        }
    }
    out
}

#[test]
fn smooth_triangle_lit_from_the_front() {
    let f = GPURenderer::new().render_gpu(&facing_triangle(-UNIT, RED), 40, 20);
    let cs = cells(&f);
    let full_red = Cell::Paint { glyph: Glyph::Full, ink: Ink::Red };
    assert!(cs.iter().any(|c| *c == full_red));
    assert!(cs.iter().all(|c| *c == full_red || *c == Cell::Empty));
}

#[test]
fn smooth_triangle_lit_from_behind() {
    let green = Rgb { r: 0, g: UNIT, b: 0 };
    let f = GPURenderer::new().render_gpu(&facing_triangle(UNIT, green), 40, 20);
    let cs = cells(&f);
    let dot = Cell::Paint { glyph: Glyph::Dot, ink: Ink::Green };
    assert!(cs.iter().any(|c| *c == dot));
    assert!(cs.iter().all(|c| *c == dot || *c == Cell::Empty));
}

#[test]
fn smooth_shading_bands_and_mixed_colour() {
    let grey = Rgb { r: UNIT / 2, g: UNIT / 2, b: UNIT / 2 };
    let f = GPURenderer::new().render_gpu(&facing_triangle(0, grey), 40, 20);
    let medium = Cell::Paint { glyph: Glyph::Medium, ink: Ink::White };
    assert!(cells(&f).iter().all(|c| *c == medium || *c == Cell::Empty));
    assert!(cells(&f).iter().any(|c| *c == medium));
}

#[test]
fn triangles_left_of_the_screen_are_skipped() {
    let mut t = facing_triangle(-UNIT, RED);
    t[0].position.x = -10 * UNIT;
    let f = GPURenderer::new().render_gpu(&t, 40, 20);
    assert!(cells(&f).iter().all(|c| *c == Cell::Empty));
    let none = GPURenderer::new().render_gpu(&facing_triangle(-UNIT, RED), 40, 0);
    assert!(none.cells.is_empty());
}

#[test]
fn normals_of_a_flat_triangle() {
    let vs = vec![
        Vertex { x: 0, y: 0, z: 0 },
        Vertex { x: UNIT, y: 0, z: 0 },
        Vertex { x: 0, y: UNIT, z: 0 },
        Vertex { x: 5, y: 5, z: 5 },
    ];
    let fs = vec![Face { vertices: vec![0, 1, 2] }];
    let ns = calculate_normals(&vs, &fs);
    let up = Vertex { x: 0, y: 0, z: UNIT };
    assert_eq!(ns, vec![up, up, up, Vertex { x: 0, y: 0, z: 0 }]);
}

#[test]
fn normals_average_over_faces() {
    let vs = vec![
        Vertex { x: 0, y: 0, z: 0 },
        Vertex { x: UNIT, y: 0, z: 0 },
        Vertex { x: 0, y: UNIT, z: 0 },
        Vertex { x: 0, y: 0, z: UNIT },
    ];
    let fs = vec![Face { vertices: vec![0, 1, 2] }, Face { vertices: vec![0, 3, 1] }];
    let ns = calculate_normals(&vs, &fs);
    assert_eq!(ns[0], Vertex { x: 0, y: 707_106, z: 707_106 });
    assert_eq!(ns[2], Vertex { x: 0, y: 0, z: UNIT });
    assert_eq!(ns[3], Vertex { x: 0, y: UNIT, z: 0 });
}

#[test]
fn corners_of_each_fan_triangle() {
    let vs = vec![
        Vertex { x: 0, y: 0, z: 0 },
        Vertex { x: 1, y: 0, z: 0 },
        Vertex { x: 1, y: 1, z: 0 },
        Vertex { x: 0, y: 1, z: 0 },
    ];
    let ns = vec![Vertex { x: 0, y: 0, z: 7 }; 4];
    let fs = vec![Face { vertices: vec![0, 1, 2, 3] }, Face { vertices: vec![1, 2] }];
    let out = shaded_vertices(&vs, &fs, &ns, RED);
    let pos: Vec<Vertex> = out.iter().map(|s| s.position).collect();
    assert_eq!(pos, vec![vs[0], vs[1], vs[2], vs[0], vs[2], vs[3]]);
    assert!(out.iter().all(|s| s.color == RED && s.normal.z == 7));
}

#[test]
fn transform_rotates_and_zooms_positions_only() {
    let input = vec![sv(UNIT / 4, 0, -UNIT, RED)];
    let id = Trig::identity();
    let same = transform_shaded(&input, id, id, id, 20 * UNIT);
    assert_eq!(same, input);
    let quarter = Trig::new(0, UNIT).unwrap();
    let turned = transform_shaded(&input, id, id, quarter, 40 * UNIT);
    assert_eq!(turned[0].position, Vertex { x: 0, y: UNIT / 2, z: 0 });
    assert_eq!(turned[0].normal, input[0].normal);
}

#[test]
fn colour_names_to_rgb() {
    assert_eq!(color_from_string("Purple"), Rgb { r: UNIT, g: 0, b: UNIT });
    assert_eq!(color_from_string("yellow"), Rgb { r: UNIT, g: UNIT, b: 0 });
    assert_eq!(color_from_string("BLACK"), Rgb { r: 0, g: 0, b: 0 });
    assert_eq!(color_from_string("nope"), Rgb { r: 0, g: 0, b: UNIT });
}
