use show_obj::fixed::UNIT;
use show_obj::geometry::Point3D;
use show_obj::present::{cell_text, frame_lines, ink_name};
use show_obj::raster::{fill_triangle, Brush, Frame};
use show_obj::shade::{
    get_shade_from_normal, ink_from_lowercase, ink_from_name, same_text, shade_glyph, Cell, Glyph,
    Ink,
};

fn pt(x: i64, y: i64, z: i64) -> Point3D {
    Point3D { x, y, z }
}

#[test]
fn facing_the_light_is_full() {
    assert_eq!(shade_glyph(pt(0, 0, 0), pt(0, 10, 0), pt(10, 0, 0)), Glyph::Full);
}

#[test]
fn facing_away_is_blank() {
    assert_eq!(shade_glyph(pt(0, 0, 0), pt(10, 0, 0), pt(0, 10, 0)), Glyph::Blank);
}

#[test]
fn tilted_faces_get_intermediate_glyphs() {
    assert_eq!(shade_glyph(pt(0, 0, 0), pt(0, 10, 0), pt(10, 0, 17 * UNIT)), Glyph::Dark);
    assert_eq!(shade_glyph(pt(0, 0, 0), pt(0, 10, 0), pt(10, 0, 40 * UNIT)), Glyph::Medium);
    assert_eq!(shade_glyph(pt(0, 0, 0), pt(10, 0, 0), pt(0, 10, 40 * UNIT)), Glyph::Dot);
}

#[test]
fn brighter_never_sparser() {
    let tilts = [0, 5, 10, 17, 25, 40, 80, 200];
    let mut last = 6;
    for t in tilts {
        let g = shade_glyph(pt(0, 0, 0), pt(0, 10, 0), pt(10, 0, t * UNIT));
        let rank = g as usize;
        assert!(rank <= last);
        last = rank;
    }
}

#[test]
fn degenerate_triangle_has_no_blowup() {
    assert_eq!(shade_glyph(pt(0, 0, 0), pt(0, 0, 0), pt(0, 0, 0)), Glyph::Dot);
    assert_eq!(shade_glyph(pt(0, 0, 0), pt(3, 3, 0), pt(6, 6, 0)), Glyph::Dot);
}

#[test]
fn shade_keeps_the_colour() {
    let c = get_shade_from_normal(pt(0, 0, 0), pt(0, 10, 0), pt(10, 0, 0), Ink::Cyan);
    assert_eq!(c, Cell::Paint { glyph: Glyph::Full, ink: Ink::Cyan });
}

#[test]
fn colour_names_in_any_case() {
    assert_eq!(ink_from_name("RED"), Ink::Red);
    assert_eq!(ink_from_name("Green"), Ink::Green);
    assert_eq!(ink_from_name("Purple"), Ink::Magenta);
    assert_eq!(ink_from_name("magenta"), Ink::Magenta);
    assert_eq!(ink_from_name("YELLOW"), Ink::Yellow);
    assert_eq!(ink_from_name("cyan"), Ink::Cyan);
    assert_eq!(ink_from_name("White"), Ink::White);
    assert_eq!(ink_from_name("BLACK"), Ink::Black);
    assert_eq!(ink_from_name("blue"), Ink::Blue);
    assert_eq!(ink_from_name("orange"), Ink::Blue);
    assert_eq!(ink_from_name(""), Ink::Blue);
}

#[test]
fn lowercase_lookup_is_exact() {
    assert_eq!(ink_from_lowercase("red"), Ink::Red);
    assert_eq!(ink_from_lowercase("RED"), Ink::Blue);
    assert!(same_text("abc", "abc"));
    assert!(!same_text("abc", "abd"));
    assert!(!same_text("ab", "abc"));
}

#[test]
fn cell_texts() {
    assert_eq!(cell_text(Cell::Empty), " ");
    let t = cell_text(Cell::Paint { glyph: Glyph::Full, ink: Ink::Red });
    assert!(t == "\u{2588}" || (t.starts_with("\u{1b}[") && t.ends_with("\u{2588}\u{1b}[0m")));
    let w = cell_text(Cell::Paint { glyph: Glyph::Dot, ink: Ink::Gray });
    assert!(w.contains('\u{b7}'));
    assert_eq!(ink_name(Ink::Gray), "bright black");
}

#[test]
fn frame_lines_one_per_row() {
    let mut f = Frame::new(4, 3);
    fill_triangle(
        &mut f,
        pt(0, 0, 0),
        pt(0, 3, 0),
        pt(3, 0, 0),
        Brush::Flat(Cell::Paint { glyph: Glyph::Full, ink: Ink::Green }),
    );
    let lines = frame_lines(&f);
    assert_eq!(lines.len(), 3);
    assert!(lines[0].contains('\u{2588}'));
    assert_eq!(lines[2].chars().filter(|c| *c == '\u{2588}').count(), 2);
    assert!(lines[2].ends_with(' '));
    let g = Frame::new(5, 2);
    assert_eq!(frame_lines(&g), vec!["     ".to_string(), "     ".to_string()]);
}
