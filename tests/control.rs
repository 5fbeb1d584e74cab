use show_obj::control::{mode_of, Action, KeyEvent, KeyboardState, Mode};
use show_obj::fixed::UNIT;
use show_obj::geometry::SCALE_LIMIT;

#[test]
fn starting_view() {
    let s = KeyboardState::new();
    assert_eq!(s, KeyboardState { angle_x: 0, angle_y: 50_000, angle_z: 3_000, scale: 20 * UNIT });
}

#[test]
fn twenty_ups_stop_at_the_pole_limit() {
    let mut s = KeyboardState::new();
    for _ in 0..20 {
        s.rotate_up();
        assert!(s.angle_x >= -89_000);
    }
    assert_eq!(s.angle_x, -89_000);
    s.rotate_down();
    assert_eq!(s.angle_x, -84_000);
}

#[test]
fn downs_stop_at_the_other_limit() {
    let mut s = KeyboardState::new();
    for _ in 0..30 {
        s.rotate_down();
    }
    assert_eq!(s.angle_x, 89_000);
}

#[test]
fn zoom_out_converges_to_one() {
    let mut s = KeyboardState::new();
    s.zoom_out();
    assert_eq!(s.scale, 18 * UNIT);
    for _ in 0..100 {
        s.zoom_out();
        assert!(s.scale >= UNIT);
    }
    assert_eq!(s.scale, UNIT);
    s.zoom_out();
    assert_eq!(s.scale, UNIT);
}

#[test]
fn zoom_in_grows_by_a_tenth_up_to_the_limit() {
    let mut s = KeyboardState::new();
    s.zoom_in();
    assert_eq!(s.scale, 22 * UNIT);
    for _ in 0..400 {
        s.zoom_in();
    }
    assert_eq!(s.scale, SCALE_LIMIT);
}

#[test]
fn yaw_and_roll_wrap_at_a_full_turn() {
    let mut s = KeyboardState { angle_x: 0, angle_y: 355_000, angle_z: -355_000, scale: UNIT };
    s.rotate_right();
    assert_eq!(s.angle_y, 0);
    s.rotate_left();
    assert_eq!(s.angle_y, -5_000);
    s.rotate_counter_clockwise();
    assert_eq!(s.angle_z, 0);
    s.rotate_clockwise();
    assert_eq!(s.angle_z, 5_000);
}

#[test]
fn commands_and_actions() {
    let mut s = KeyboardState::new();
    assert_eq!(s.apply(KeyEvent::Left), Action::Render);
    assert_eq!(s.angle_y, 45_000);
    assert_eq!(s.apply(KeyEvent::RotateCW), Action::Render);
    assert_eq!(s.angle_z, 8_000);
    assert_eq!(s.apply(KeyEvent::ZoomIn), Action::Render);
    assert_eq!(s.scale, 22 * UNIT);
    let before = s;
    assert_eq!(s.apply(KeyEvent::Other), Action::Ignore);
    assert_eq!(s, before);
    assert_eq!(s.apply(KeyEvent::Quit), Action::Quit);
    assert_eq!(s, before);
    assert_eq!(s.apply(KeyEvent::Up), Action::Render);
    assert_eq!(s.angle_x, -5_000);
}

#[test]
fn animation_tick_advances_each_axis() {
    let mut s = KeyboardState { angle_x: 0, angle_y: 0, angle_z: 359_800, scale: 20 * UNIT };
    s.tick();
    assert_eq!((s.angle_x, s.angle_y, s.angle_z), (800, 600, 200));
    assert_eq!(s.scale, 20 * UNIT);
}

#[test]
fn interactive_takes_precedence() {
    assert_eq!(mode_of(true, true), Mode::Interactive);
    assert_eq!(mode_of(false, true), Mode::Interactive);
    assert_eq!(mode_of(true, false), Mode::AutoRotate);
    assert_eq!(mode_of(false, false), Mode::Static);
}
