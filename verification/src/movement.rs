//! The player client's keyboard movement and jump cooldown.

use bevy_time::{Timer, TimerMode};
use std::time::Duration;
use vstd::prelude::*;

verus! {

/// Which of the four movement keys are held this frame.
pub struct MovementKeys {
    /// `W`: towards where the camera looks.
    pub forward: bool,
    /// `S`: away from where the camera looks.
    pub back: bool,
    /// `A`: to the left.
    pub left: bool,
    /// `D`: to the right.
    pub right: bool,
}

/// The direction chosen by the keys, in the camera's frame.
///
/// With `rotation` the unit vector of the camera's heading on the ground
/// and `perp` its left-hand perpendicular, the movement direction is
/// `back * rotation + left * perp`; each coordinate is -1, 0 or 1.
pub struct MoveIntent {
    pub back: i8,
    pub left: i8,
}

pub open spec fn key_value(pressed: bool) -> int {
    if pressed { 1 } else { 0 }
}

/// `S` moves with the heading, `W` against it; `A` along the
/// perpendicular, `D` against it.
pub open spec fn intent_of(keys: MovementKeys) -> (int, int) {
    (key_value(keys.back) - key_value(keys.forward), key_value(keys.left) - key_value(keys.right))
}

/// The direction the held keys ask for.
pub fn movement_intent(keys: &MovementKeys) -> (intent: MoveIntent)
    ensures
        (intent.back as int, intent.left as int) == intent_of(*keys),
{
    let mut back: i8 = 0;
    let mut left: i8 = 0;
    if keys.forward {
        back = back - 1;
    }
    if keys.back {
        back = back + 1;
    }
    if keys.left {
        left = left + 1;
    }
    if keys.right {
        left = left - 1;
    }
    MoveIntent { back, left }
}

/// Whether the intent moves the player at all. The two axes are
/// orthogonal unit vectors, so the direction has a positive length exactly
/// when one of its coordinates is not zero; a moving player is then
/// normalised to unit speed.
pub fn is_moving(intent: &MoveIntent) -> (moving: bool)
    ensures
        moving == (intent.back != 0 || intent.left != 0),
{
    intent.back != 0 || intent.left != 0
}

/// The time, in nanoseconds, that the jump key must be held between jumps.
pub const JUMP_COOLDOWN_NANOS: u64 = 1_000_000_000;

/// A one-shot timer that lets the player jump once the jump key has been
/// held for its whole duration, and then starts over.
pub struct JumpCooldown {
    elapsed_nanos: u64,
    duration_nanos: u64,
}

/// The abstract state of a cooldown: time accumulated and time needed.
pub struct CooldownView {
    pub elapsed: nat,
    pub duration: nat,
}

impl View for JumpCooldown {
    type V = CooldownView;

    closed spec fn view(&self) -> CooldownView {
        CooldownView { elapsed: self.elapsed_nanos as nat, duration: self.duration_nanos as nat }
    }
}

/// What one frame does to a cooldown, and whether the player jumps.
pub open spec fn cooldown_step(c: CooldownView, pressed: bool, delta: nat) -> (CooldownView, bool) {
    if !pressed {
        (c, false)
    } else if c.elapsed + delta >= c.duration {
        (CooldownView { elapsed: 0, ..c }, true)
    } else {
        (CooldownView { elapsed: c.elapsed + delta, ..c }, false)
    }
}

impl CooldownView {
    /// A timer that has not finished: time accumulated is below the duration.
    pub open spec fn wf(self) -> bool {
        &&& 0 < self.duration
        &&& self.elapsed < self.duration
        &&& self.duration <= u64::MAX
    }
}

/// Ticks a one-shot `bevy_time::Timer` of duration `duration` that has run
/// for `elapsed`, by `delta` (all in nanoseconds): the body builds the timer
/// with `Timer::new` and `Timer::set_elapsed`, calls `Timer::tick`, and reads
/// back `Timer::elapsed` and `Timer::just_finished`.
/// Claimed, as bevy_time's source shows it for an unpaused, unfinished
/// one-shot timer: the elapsed time grows by `delta` and is capped at the
/// duration, and the timer has just finished exactly when it reaches the
/// duration on this tick.
#[verifier::external_body]
fn tick_one_shot_timer(elapsed: u64, duration: u64, delta: u64) -> (r: (u64, bool))
    requires
        elapsed < duration,
    ensures
        r.1 == (elapsed + delta >= duration),
        r.1 ==> r.0 == duration,
        !r.1 ==> r.0 == elapsed + delta,
{
    let mut timer = Timer::new(Duration::from_nanos(duration), TimerMode::Once);
    timer.set_elapsed(Duration::from_nanos(elapsed));
    timer.tick(Duration::from_nanos(delta));
    (timer.elapsed().as_nanos() as u64, timer.just_finished())
}

impl JumpCooldown {
    /// The timer never rests finished: time accumulated stays below the
    /// duration.
    #[verifier::type_invariant]
    spec fn inv(&self) -> bool {
        self@.wf()
    }

    /// A fresh cooldown of `duration_nanos` with no time accumulated.
    pub fn new(duration_nanos: u64) -> (c: JumpCooldown)
        requires
            duration_nanos > 0,
        ensures
            c@.wf(),
            c@ == (CooldownView { elapsed: 0, duration: duration_nanos as nat }),
    {
        JumpCooldown { elapsed_nanos: 0, duration_nanos }
    }

    /// Nanoseconds accumulated towards the next jump.
    pub fn elapsed_nanos(&self) -> (e: u64)
        ensures
            e == self@.elapsed,
    {
        self.elapsed_nanos
    }

    /// Nanoseconds the jump key must be held for a jump.
    pub fn duration_nanos(&self) -> (d: u64)
        ensures
            d == self@.duration,
    {
        self.duration_nanos
    }

    /// One frame of `delta_nanos`: while the jump key is held the timer
    /// runs; when it finishes the player jumps and the timer starts over.
    pub fn update(&mut self, jump_pressed: bool, delta_nanos: u64) -> (jump: bool)
        ensures
            old(self)@.wf(),
            final(self)@.wf(),
            (final(self)@, jump) == cooldown_step(old(self)@, jump_pressed, delta_nanos as nat),
    {
        proof {
            use_type_invariant(&*self);
        }
        if !jump_pressed {
            return false;
        }
        let (elapsed, finished) = tick_one_shot_timer(self.elapsed_nanos, self.duration_nanos, delta_nanos);
        if finished {
            self.elapsed_nanos = 0;
            true
        } else {
            self.elapsed_nanos = elapsed;
            false
        }
    }
}

} // verus!
