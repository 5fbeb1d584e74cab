//! The interaction controller: orientation and zoom, and how commands change them.

use vstd::prelude::*;
use crate::fixed::UNIT;
use crate::geometry::SCALE_LIMIT;

verus! {

/// Angles are held in thousandths of a degree.
pub const MILLIDEGREES: i64 = 1000;

/// Pitch is held within this many thousandths of a degree of level, short of the poles.
pub const PITCH_LIMIT: i64 = 89_000;

/// One full turn, in thousandths of a degree.
pub const FULL_TURN: i64 = 360_000;

/// Angle of one rotation command: five degrees.
pub const STEP: i64 = 5_000;

/// Current orientation (pitch, yaw, roll in thousandths of a degree) and zoom (fixed point).
#[derive(Clone, Copy, Debug, PartialEq, Eq, Structural)]
pub struct KeyboardState {
    pub angle_x: i64,
    pub angle_y: i64,
    pub angle_z: i64,
    pub scale: i64,
}

/// A command from the input source.
#[derive(Clone, Copy, Debug, PartialEq, Eq, Structural)]
pub enum KeyEvent {
    Up,
    Down,
    Left,
    Right,
    RotateCW,
    RotateCCW,
    ZoomIn,
    ZoomOut,
    Quit,
    Other,
}

/// What the session does after a command.
#[derive(Clone, Copy, Debug, PartialEq, Eq, Structural)]
pub enum Action {
    Render,
    Ignore,
    Quit,
}

/// How a session runs, fixed at its start.
#[derive(Clone, Copy, Debug, PartialEq, Eq, Structural)]
pub enum Mode {
    Static,
    AutoRotate,
    Interactive,
}

/// `a` held to [lo, hi].
pub open spec fn clamp(a: int, lo: int, hi: int) -> int {
    if a < lo {
        lo
    } else if a > hi {
        hi
    } else {
        a
    }
}

/// `a` brought back within one turn of zero, in the same direction.
pub open spec fn wrap(a: int) -> int {
    if a >= FULL_TURN {
        a - FULL_TURN
    } else if a <= -FULL_TURN {
        a + FULL_TURN
    } else {
        a
    }
}

/// Scale after zooming out: nine tenths, but never below one.
pub open spec fn zoomed_out(s: int) -> int {
    if s * 9 / 10 < UNIT {
        UNIT as int
    } else {
        s * 9 / 10
    }
}

/// Scale after zooming in: eleven tenths, up to the largest scale.
pub open spec fn zoomed_in(s: int) -> int {
    if s * 11 / 10 > SCALE_LIMIT {
        SCALE_LIMIT as int
    } else {
        s * 11 / 10
    }
}

/// Pitch after `n` "rotate up" commands from `a`.
pub open spec fn pitch_after_ups(a: int, n: nat) -> int
    decreases n,
{
    if n == 0 {
        a
    } else {
        clamp(pitch_after_ups(a, (n - 1) as nat) - STEP, -PITCH_LIMIT as int, PITCH_LIMIT as int)
    }
}

/// Scale after `n` "zoom out" commands from `s`.
pub open spec fn scale_after_zoom_outs(s: int, n: nat) -> int
    decreases n,
{
    if n == 0 {
        s
    } else {
        zoomed_out(scale_after_zoom_outs(s, (n - 1) as nat))
    }
}

fn wrap_exec(a: i64) -> (r: i64)
    requires
        -2 * FULL_TURN < a < 2 * FULL_TURN,
    ensures
        r == wrap(a as int),
        -FULL_TURN < r < FULL_TURN,
{
    if a >= FULL_TURN {
        a - FULL_TURN
    } else if a <= -FULL_TURN {
        a + FULL_TURN
    } else {
        a
    }
}

fn clamp_pitch(a: i64) -> (r: i64)
    ensures
        r == clamp(a as int, -PITCH_LIMIT as int, PITCH_LIMIT as int),
{
    if a < -PITCH_LIMIT {
        -PITCH_LIMIT
    } else if a > PITCH_LIMIT {
        PITCH_LIMIT
    } else {
        a
    }
}

impl KeyboardState {
    /// Pitch within the limits, yaw and roll within one turn, scale between one and the largest.
    pub open spec fn wf(&self) -> bool {
        &&& -PITCH_LIMIT <= self.angle_x <= PITCH_LIMIT
        &&& -FULL_TURN < self.angle_y < FULL_TURN
        &&& -FULL_TURN < self.angle_z < FULL_TURN
        &&& UNIT <= self.scale <= SCALE_LIMIT
    }

    /// The starting view: level pitch, fifty degrees of yaw, three of roll, scale twenty.
    pub fn new() -> (s: KeyboardState)
        ensures
            s.wf(),
            s.angle_x == 0,
            s.angle_y == 50 * MILLIDEGREES,
            s.angle_z == 3 * MILLIDEGREES,
            s.scale == 20 * UNIT,
    {
        KeyboardState { angle_x: 0, angle_y: 50 * MILLIDEGREES, angle_z: 3 * MILLIDEGREES, scale: 20 * UNIT }
    }

    /// Tilts up by five degrees, pitch held within the limits.
    pub fn rotate_up(&mut self)
        requires
            old(self).wf(),
        ensures
            final(self).wf(),
            final(self).angle_x == clamp(old(self).angle_x - STEP, -PITCH_LIMIT as int, PITCH_LIMIT as int),
            final(self).angle_y == old(self).angle_y,
            final(self).angle_z == old(self).angle_z,
            final(self).scale == old(self).scale,
    {
        self.angle_x = clamp_pitch(self.angle_x - STEP);
    }

    /// Tilts down by five degrees, pitch held within the limits.
    pub fn rotate_down(&mut self)
        requires
            old(self).wf(),
        ensures
            final(self).wf(),
            final(self).angle_x == clamp(old(self).angle_x + STEP, -PITCH_LIMIT as int, PITCH_LIMIT as int),
            final(self).angle_y == old(self).angle_y,
            final(self).angle_z == old(self).angle_z,
            final(self).scale == old(self).scale,
    {
        self.angle_x = clamp_pitch(self.angle_x + STEP);
    }

    /// Turns left by five degrees of yaw.
    pub fn rotate_left(&mut self)
        requires
            old(self).wf(),
        ensures
            final(self).wf(),
            final(self).angle_y == wrap(old(self).angle_y - STEP),
            final(self).angle_x == old(self).angle_x,
            final(self).angle_z == old(self).angle_z,
            final(self).scale == old(self).scale,
    {
        self.angle_y = wrap_exec(self.angle_y - STEP);
    }

    /// Turns right by five degrees of yaw.
    pub fn rotate_right(&mut self)
        requires
            old(self).wf(),
        ensures
            final(self).wf(),
            final(self).angle_y == wrap(old(self).angle_y + STEP),
            final(self).angle_x == old(self).angle_x,
            final(self).angle_z == old(self).angle_z,
            final(self).scale == old(self).scale,
    {
        self.angle_y = wrap_exec(self.angle_y + STEP);
    }

    /// Rolls clockwise by five degrees.
    pub fn rotate_clockwise(&mut self)
        requires
            old(self).wf(),
        ensures
            final(self).wf(),
            final(self).angle_z == wrap(old(self).angle_z + STEP),
            final(self).angle_x == old(self).angle_x,
            final(self).angle_y == old(self).angle_y,
            final(self).scale == old(self).scale,
    {
        self.angle_z = wrap_exec(self.angle_z + STEP);
    }

    /// Rolls counter-clockwise by five degrees.
    pub fn rotate_counter_clockwise(&mut self)
        requires
            old(self).wf(),
        ensures
            final(self).wf(),
            final(self).angle_z == wrap(old(self).angle_z - STEP),
            final(self).angle_x == old(self).angle_x,
            final(self).angle_y == old(self).angle_y,
            final(self).scale == old(self).scale,
    {
        self.angle_z = wrap_exec(self.angle_z - STEP);
    }

    /// Zooms in by a tenth, up to the largest scale.
    pub fn zoom_in(&mut self)
        requires
            old(self).wf(),
        ensures
            final(self).wf(),
            final(self).scale == zoomed_in(old(self).scale as int),
            final(self).angle_x == old(self).angle_x,
            final(self).angle_y == old(self).angle_y,
            final(self).angle_z == old(self).angle_z,
    {
        let s = self.scale * 11 / 10;
        self.scale = if s > SCALE_LIMIT { SCALE_LIMIT } else { s };
    }

    /// Zooms out by a tenth; the scale never drops below one.
    pub fn zoom_out(&mut self)
        requires
            old(self).wf(),
        ensures
            final(self).wf(),
            final(self).scale == zoomed_out(old(self).scale as int),
            final(self).scale >= UNIT,
            final(self).angle_x == old(self).angle_x,
            final(self).angle_y == old(self).angle_y,
            final(self).angle_z == old(self).angle_z,
    {
        let s = self.scale * 9 / 10;
        self.scale = if s < UNIT { UNIT } else { s };
    }

    /// Applies one command: a rotation or zoom asks for a render, quit ends the
    /// session, anything else is ignored and leaves the state as it was.
    pub fn apply(&mut self, key: KeyEvent) -> (a: Action)
        requires
            old(self).wf(),
        ensures
            final(self).wf(),
            a == (match key {
                KeyEvent::Quit => Action::Quit,
                KeyEvent::Other => Action::Ignore,
                _ => Action::Render,
            }),
            key == KeyEvent::Up ==> final(self).angle_x == clamp(old(self).angle_x - STEP, -PITCH_LIMIT as int, PITCH_LIMIT as int)
                && final(self).angle_y == old(self).angle_y && final(self).angle_z == old(self).angle_z
                && final(self).scale == old(self).scale,
            key == KeyEvent::Down ==> final(self).angle_x == clamp(old(self).angle_x + STEP, -PITCH_LIMIT as int, PITCH_LIMIT as int)
                && final(self).angle_y == old(self).angle_y && final(self).angle_z == old(self).angle_z
                && final(self).scale == old(self).scale,
            key == KeyEvent::Left ==> final(self).angle_y == wrap(old(self).angle_y - STEP)
                && final(self).angle_x == old(self).angle_x && final(self).angle_z == old(self).angle_z
                && final(self).scale == old(self).scale,
            key == KeyEvent::Right ==> final(self).angle_y == wrap(old(self).angle_y + STEP)
                && final(self).angle_x == old(self).angle_x && final(self).angle_z == old(self).angle_z
                && final(self).scale == old(self).scale,
            key == KeyEvent::RotateCW ==> final(self).angle_z == wrap(old(self).angle_z + STEP)
                && final(self).angle_x == old(self).angle_x && final(self).angle_y == old(self).angle_y
                && final(self).scale == old(self).scale,
            key == KeyEvent::RotateCCW ==> final(self).angle_z == wrap(old(self).angle_z - STEP)
                && final(self).angle_x == old(self).angle_x && final(self).angle_y == old(self).angle_y
                && final(self).scale == old(self).scale,
            key == KeyEvent::ZoomIn ==> final(self).scale == zoomed_in(old(self).scale as int)
                && final(self).angle_x == old(self).angle_x && final(self).angle_y == old(self).angle_y
                && final(self).angle_z == old(self).angle_z,
            key == KeyEvent::ZoomOut ==> final(self).scale == zoomed_out(old(self).scale as int)
                && final(self).angle_x == old(self).angle_x && final(self).angle_y == old(self).angle_y
                && final(self).angle_z == old(self).angle_z,
            (key == KeyEvent::Quit || key == KeyEvent::Other) ==> *final(self) == *old(self),
    {
        match key {
            KeyEvent::Up => {
                self.rotate_up();
                Action::Render
            },
            KeyEvent::Down => {
                self.rotate_down();
                Action::Render
            },
            KeyEvent::Left => {
                self.rotate_left();
                Action::Render
            },
            KeyEvent::Right => {
                self.rotate_right();
                Action::Render
            },
            KeyEvent::RotateCW => {
                self.rotate_clockwise();
                Action::Render
            },
            KeyEvent::RotateCCW => {
                self.rotate_counter_clockwise();
                Action::Render
            },
            KeyEvent::ZoomIn => {
                self.zoom_in();
                Action::Render
            },
            KeyEvent::ZoomOut => {
                self.zoom_out();
                Action::Render
            },
            KeyEvent::Quit => Action::Quit,
            KeyEvent::Other => Action::Ignore,
        }
    }

    /// One animation tick: pitch, yaw and roll advance by 0.8, 0.6 and 0.4 degrees.
    pub fn tick(&mut self)
        requires
            -FULL_TURN < old(self).angle_x < FULL_TURN,
            -FULL_TURN < old(self).angle_y < FULL_TURN,
            -FULL_TURN < old(self).angle_z < FULL_TURN,
        ensures
            final(self).angle_x == wrap(old(self).angle_x + 800),
            final(self).angle_y == wrap(old(self).angle_y + 600),
            final(self).angle_z == wrap(old(self).angle_z + 400),
            final(self).scale == old(self).scale,
            -FULL_TURN < final(self).angle_x < FULL_TURN,
            -FULL_TURN < final(self).angle_y < FULL_TURN,
            -FULL_TURN < final(self).angle_z < FULL_TURN,
    {
        self.angle_x = wrap_exec(self.angle_x + 800);
        self.angle_y = wrap_exec(self.angle_y + 600);
        self.angle_z = wrap_exec(self.angle_z + 400);
    }
}

/// The session's mode: interactive when asked for, else auto-rotating when asked for, else static.
pub fn mode_of(rotate: bool, interactive: bool) -> (m: Mode)
    ensures
        m == (if interactive {
            Mode::Interactive
        } else if rotate {
            Mode::AutoRotate
        } else {
            Mode::Static
        }),
{
    if interactive {
        Mode::Interactive
    } else if rotate {
        Mode::AutoRotate
    } else {
        Mode::Static
    }
}

/// Any number of "rotate up" commands from a level-or-limited pitch keeps the
/// pitch within the limits, so it never passes through a pole.
pub proof fn lemma_pitch_stays_clamped(a: int, n: nat)
    requires
        -PITCH_LIMIT <= a <= PITCH_LIMIT,
    ensures
        -PITCH_LIMIT <= pitch_after_ups(a, n) <= PITCH_LIMIT,
    decreases n,
{
    if n > 0 {
        lemma_pitch_stays_clamped(a, (n - 1) as nat);
    }
}

/// Zooming out never takes the scale below one, and from scale `s` at most
/// `s - 1` commands bring it to exactly one, where it then stays.
pub proof fn lemma_zoom_out_converges(s: int, n: nat)
    requires
        s >= UNIT,
        n >= s - UNIT,
    ensures
        scale_after_zoom_outs(s, n) == UNIT,
    decreases n,
{
    if n > 0 {
        let p = scale_after_zoom_outs(s, (n - 1) as nat);
        lemma_zoom_out_bound(s, (n - 1) as nat);
        if p > UNIT {
            assert(p * 9 / 10 < p);
        }
        if n - 1 < s - UNIT {
            assert(p <= s - (n - 1));
        }
    }
}

proof fn lemma_zoom_out_bound(s: int, n: nat)
    requires
        s >= UNIT,
    ensures
        scale_after_zoom_outs(s, n) >= UNIT,
        scale_after_zoom_outs(s, n) == UNIT || scale_after_zoom_outs(s, n) <= s - n,
    decreases n,
{
    if n > 0 {
        lemma_zoom_out_bound(s, (n - 1) as nat);
        let p = scale_after_zoom_outs(s, (n - 1) as nat);
        if p > UNIT {
            assert(p * 9 / 10 <= p - 1);
        }
    }
}

} // verus!
