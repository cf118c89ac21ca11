//! One circular body: its state, the three operations of a sub-step that act
//! on a single body, and the correction that pushes two overlapping bodies
//! apart.

use vstd::prelude::*;
use crate::fixed::{clamp_coord, div_trunc, in_world, saturate, COORD_LIMIT};
use crate::fixed::lemma_div_trunc_bounds;
use crate::laws::lemma_clamp_to_circle_contains;
use crate::random::uniform_in;
use crate::vec2::lemma_with_length_bounds;
use crate::vec2::{rescale, wide_length, Point, Vec2};

verus! {

/// Radius of the circle, centred on the origin, that confines every ball.
pub const BORDER_RADIUS: i64 = 80_000_000_000_000;

/// Where a new ball appears.
pub const SPAWN_X: i64 = 50_000_000_000_000;

/// Where a new ball appears.
pub const SPAWN_Y: i64 = 0;

/// The smallest radius that a new ball is given.
pub const MIN_SIZE: i64 = 1_000_000_000_000;

/// The radius of a new ball stays below this.
pub const MAX_SIZE: i64 = 7_000_000_000_000;

/// A ball keeps `DAMPING_NUMERATOR / DAMPING_DENOMINATOR` of its velocity
/// from one sub-step to the next.
pub const DAMPING_NUMERATOR: i64 = 999;

/// See `DAMPING_NUMERATOR`.
pub const DAMPING_DENOMINATOR: i64 = 1000;

/// One pass moves each of two overlapping balls by the overlap divided by
/// this: a fifth of it, so that a single pass does not overshoot.
pub const CORRECTION_DIVISOR: i64 = 5;

/// Time is counted in microseconds.
pub const MICROS_PER_SECOND: i64 = 1_000_000;

/// The square of `MICROS_PER_SECOND`: what an acceleration, given per
/// second squared, is divided by once it has been multiplied by a squared
/// time in microseconds.
pub const MICROS_PER_SECOND_SQUARED: i64 = 1_000_000_000_000;

/// The state of a ball in the mathematical model.
pub struct BallState {
    /// Where the ball is.
    pub current: Point,
    /// Where it was one sub-step ago; the difference is its velocity.
    pub previous: Point,
    /// The acceleration gathered since the last integration.
    pub acceleration: Point,
    /// Its radius.
    pub size: int,
}

impl BallState {
    /// The ball lies in the world, and its radius is positive and no larger
    /// than the world.
    pub open spec fn valid(self) -> bool {
        &&& self.current.in_world()
        &&& self.previous.in_world()
        &&& self.acceleration.in_world()
        &&& 0 < self.size <= COORD_LIMIT
    }

    /// A ball at rest at the spawn point.
    pub open spec fn spawned(size: int) -> BallState {
        BallState {
            current: Point { x: SPAWN_X as int, y: SPAWN_Y as int },
            previous: Point { x: SPAWN_X as int, y: SPAWN_Y as int },
            acceleration: Point::zero(),
            size,
        }
    }

    /// The ball after `a` has been added to its gathered acceleration.
    pub open spec fn add_acceleration(self, a: Point) -> BallState {
        BallState { acceleration: self.acceleration.plus(a).clamped(), ..self }
    }

    /// The ball confined to the circle of the given radius about the origin.
    /// A ball that reaches over the circle is put where its own direction
    /// from the origin meets the distance `radius - size`; a ball at the
    /// origin has no direction and lands on the origin.
    pub open spec fn clamp_to_circle(self, radius: int) -> BallState {
        if self.current.length() + self.size > radius {
            BallState {
                current: self.current.with_length(radius - self.size).clamped(),
                ..self
            }
        } else {
            self
        }
    }

    /// The ball confined to the border circle.
    pub open spec fn keep_in_circle(self) -> BallState {
        self.clamp_to_circle(BORDER_RADIUS as int)
    }

    /// What the ball keeps of the way it came in the last sub-step.
    pub open spec fn velocity(self) -> Point {
        Point {
            x: damped(self.current.x - self.previous.x),
            y: damped(self.current.y - self.previous.y),
        }
    }

    /// The ball one sub-step of `delta` microseconds later: it goes on by
    /// its damped velocity and by what its acceleration adds in that time,
    /// remembers where it was, and starts gathering acceleration anew.
    pub open spec fn update(self, delta: int) -> BallState {
        BallState {
            current: Point {
                x: clamp_coord(
                    self.current.x + self.velocity().x + travelled(self.acceleration.x, delta),
                ),
                y: clamp_coord(
                    self.current.y + self.velocity().y + travelled(self.acceleration.y, delta),
                ),
            },
            previous: self.current,
            acceleration: Point::zero(),
            size: self.size,
        }
    }

    /// The ball displaced by `d`, as far as the world reaches.
    pub open spec fn moved_by(self, d: Point) -> BallState {
        BallState { current: self.current.plus(d).clamped(), ..self }
    }

    /// What one pass adds to the position of `self` because of `other`, and
    /// takes from the position of `other`. Balls that do not reach each
    /// other are left alone; two that do are each moved along the line
    /// through their centres, by a fixed share of the overlap.
    pub open spec fn correction(self, other: BallState) -> Point {
        let delta = self.current.minus(other.current);
        let range = self.size + other.size;
        if delta.length() > range {
            Point::zero()
        } else {
            delta.with_length((range - delta.length()) / (CORRECTION_DIVISOR as int))
        }
    }
}

/// The share of a velocity component that survives one sub-step.
pub open spec fn damped(v: int) -> int {
    div_trunc(v * DAMPING_NUMERATOR, DAMPING_DENOMINATOR as int)
}

/// The way that the acceleration `a`, in units per second squared, adds to
/// a position within `delta` microseconds under position Verlet: `a` times
/// the square of the time.
pub open spec fn travelled(a: int, delta: int) -> int {
    div_trunc(a * (delta * delta), MICROS_PER_SECOND_SQUARED as int)
}

/// A circular body.
#[derive(Clone, Copy, Debug, PartialEq, Eq)]
pub struct Ball {
    /// Where the ball is.
    pub current_location: Vec2,
    /// Where it was one sub-step ago.
    pub previous_location: Vec2,
    /// The acceleration gathered since the last integration.
    pub acceleration: Vec2,
    /// Its radius.
    pub size: i64,
}

impl View for Ball {
    type V = BallState;

    open spec fn view(&self) -> BallState {
        BallState {
            current: self.current_location@,
            previous: self.previous_location@,
            acceleration: self.acceleration@,
            size: self.size as int,
        }
    }
}

impl Ball {
    /// The ball lies in the world and has a positive radius.
    pub open spec fn wf(&self) -> bool {
        self@.valid()
    }

    /// Whether the ball lies in the world and has a positive radius that is
    /// no larger than the world.
    pub fn is_wf(&self) -> (valid: bool)
        ensures
            valid == self.wf(),
    {
        within_world(self.current_location) && within_world(self.previous_location)
            && within_world(self.acceleration) && 0 < self.size && self.size <= COORD_LIMIT
    }

    /// A ball of a random radius from `MIN_SIZE..MAX_SIZE`, at rest at the
    /// spawn point.
    pub fn new() -> (ball: Ball)
        ensures
            MIN_SIZE <= ball.size < MAX_SIZE,
            ball@ == BallState::spawned(ball.size as int),
            ball.wf(),
    {
        Ball::with_size(uniform_in(MIN_SIZE, MAX_SIZE))
    }

    /// A ball of the given radius, at rest at the spawn point.
    pub fn with_size(size: i64) -> (ball: Ball)
        requires
            0 < size <= COORD_LIMIT,
        ensures
            ball@ == BallState::spawned(size as int),
            ball.wf(),
    {
        Ball {
            current_location: Vec2 { x: SPAWN_X, y: SPAWN_Y },
            previous_location: Vec2 { x: SPAWN_X, y: SPAWN_Y },
            acceleration: Vec2 { x: 0, y: 0 },
            size,
        }
    }

    /// Adds `acceleration` to what the ball has gathered since its last
    /// integration.
    pub fn add_acceleration(&mut self, acceleration: Vec2)
        requires
            old(self).wf(),
        ensures
            final(self)@ == old(self)@.add_acceleration(acceleration@),
            final(self).wf(),
    {
        self.acceleration = Vec2 {
            x: saturate(self.acceleration.x as i128 + acceleration.x as i128),
            y: saturate(self.acceleration.y as i128 + acceleration.y as i128),
        };
    }

    /// Puts a ball that reaches over the border circle back inside it.
    pub fn keep_in_circle(&mut self)
        requires
            old(self).wf(),
        ensures
            final(self)@ == old(self)@.keep_in_circle(),
            old(self).size <= BORDER_RADIUS ==> final(self)@.current.length() + final(self).size
                <= BORDER_RADIUS,
            final(self).wf(),
    {
        self.clamp_to_circle(BORDER_RADIUS);
    }

    /// Puts a ball that reaches over the circle of the given radius about
    /// the origin back inside it. Where the ball fits into the circle at
    /// all, it lies inside afterwards.
    pub fn clamp_to_circle(&mut self, radius: i64)
        requires
            old(self).wf(),
        ensures
            final(self)@ == old(self)@.clamp_to_circle(radius as int),
            old(self).size <= radius ==> final(self)@.current.length() + final(self).size
                <= radius,
            final(self).wf(),
    {
        proof {
            if self.size <= radius {
                lemma_clamp_to_circle_contains(self@, radius as int);
            }
        }
        let x: i128 = self.current_location.x as i128;
        let y: i128 = self.current_location.y as i128;
        let length: u64 = wide_length(x, y);
        if length as i128 + self.size as i128 > radius as i128 {
            let target: i128 = radius as i128 - self.size as i128;
            self.current_location = Vec2 {
                x: saturate(rescale(x, length, target)),
                y: saturate(rescale(y, length, target)),
            };
        }
    }

    /// Advances the ball by one sub-step of `delta` microseconds.
    pub fn update(&mut self, delta: u32)
        requires
            old(self).wf(),
        ensures
            final(self)@ == old(self)@.update(delta as int),
            final(self).wf(),
    {
        let next_x: i64 = verlet_step(
            self.current_location.x,
            self.previous_location.x,
            self.acceleration.x,
            delta,
        );
        let next_y: i64 = verlet_step(
            self.current_location.y,
            self.previous_location.y,
            self.acceleration.y,
            delta,
        );
        self.previous_location = self.current_location;
        self.current_location = Vec2 { x: next_x, y: next_y };
        self.acceleration = Vec2 { x: 0, y: 0 };
    }

    /// Resolves the overlap of two balls, if there is any: `self` moves by
    /// the correction and `other` by its opposite.
    pub fn push_apart(&mut self, other: &mut Ball)
        requires
            old(self).wf(),
            old(other).wf(),
        ensures
            final(self)@ == old(self)@.moved_by(old(self)@.correction(old(other)@)),
            final(other)@ == old(other)@.moved_by(old(self)@.correction(old(other)@).negated()),
            final(self).wf(),
            final(other).wf(),
    {
        let dx: i128 = self.current_location.x as i128 - other.current_location.x as i128;
        let dy: i128 = self.current_location.y as i128 - other.current_location.y as i128;
        let distance: u64 = wide_length(dx, dy);
        let range: i128 = self.size as i128 + other.size as i128;
        if distance as i128 <= range {
            let push: i128 = (range - distance as i128) / (CORRECTION_DIVISOR as i128);
            let shift_x: i128 = rescale(dx, distance, push);
            let shift_y: i128 = rescale(dy, distance, push);
            proof {
                lemma_with_length_bounds(Point { x: dx as int, y: dy as int }, push as int);
            }
            self.current_location = Vec2 {
                x: saturate(self.current_location.x as i128 + shift_x),
                y: saturate(self.current_location.y as i128 + shift_y),
            };
            other.current_location = Vec2 {
                x: saturate(other.current_location.x as i128 - shift_x),
                y: saturate(other.current_location.y as i128 - shift_y),
            };
        }
    }
}

/// Whether both coordinates of `v` lie in the world.
fn within_world(v: Vec2) -> (inside: bool)
    ensures
        inside == v@.in_world(),
{
    -COORD_LIMIT <= v.x && v.x <= COORD_LIMIT && -COORD_LIMIT <= v.y && v.y <= COORD_LIMIT
}

/// One coordinate of a ball after a sub-step of `delta` microseconds.
fn verlet_step(current: i64, previous: i64, acceleration: i64, delta: u32) -> (next: i64)
    requires
        in_world(current as int),
        in_world(previous as int),
        in_world(acceleration as int),
    ensures
        next == clamp_coord(
            current + damped(current - previous) + travelled(acceleration as int, delta as int),
        ),
{
    let drift: i128 = current as i128 - previous as i128;
    assert(-2_000_000_000_000_000_000 * 999 <= drift * DAMPING_NUMERATOR
        <= 2_000_000_000_000_000_000 * 999)
        by (nonlinear_arith)
        requires
            -2_000_000_000_000_000_000 <= drift <= 2_000_000_000_000_000_000,
            DAMPING_NUMERATOR == 999,
    ;
    let velocity: i128 = (drift * (DAMPING_NUMERATOR as i128)) / (DAMPING_DENOMINATOR as i128);
    assert(0 <= delta * delta <= 0xffff_ffff * 0xffff_ffff) by (nonlinear_arith)
        requires
            0 <= delta <= 0xffff_ffff,
    ;
    let span: i128 = (delta as i128) * (delta as i128);
    assert(-1_000_000_000_000_000_000 * (0xffff_ffff * 0xffff_ffff) <= acceleration * span
        <= 1_000_000_000_000_000_000 * (0xffff_ffff * 0xffff_ffff)) by (nonlinear_arith)
        requires
            -1_000_000_000_000_000_000 <= acceleration <= 1_000_000_000_000_000_000,
            0 <= span <= 0xffff_ffff * 0xffff_ffff,
    ;
    let gained: i128 = (acceleration as i128 * span) / (MICROS_PER_SECOND_SQUARED as i128);
    proof {
        lemma_div_trunc_bounds(drift * DAMPING_NUMERATOR, DAMPING_DENOMINATOR as int);
        lemma_div_trunc_bounds(acceleration * span, MICROS_PER_SECOND_SQUARED as int);
    }
    saturate(current as i128 + velocity + gained)
}

} // verus!
