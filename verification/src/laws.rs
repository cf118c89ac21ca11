//! What holds of the balls and of the simulation, whatever their state:
//! each statement is proved from the definitions in `ball`, `vec2` and
//! `simulation`.

use vstd::prelude::*;
use crate::ball::{damped, travelled, BallState, BORDER_RADIUS, CORRECTION_DIVISOR};
use crate::ball::{MICROS_PER_SECOND, MICROS_PER_SECOND_SQUARED};
use crate::fixed::{abs, clamp_coord, in_world, COORD_LIMIT};
use crate::fixed::{lemma_div_trunc_bounds, lemma_div_trunc_negate};
use crate::fixed::{lemma_floor_sqrt, lemma_floor_sqrt_le};
use crate::vec2::{lemma_component_le_length, lemma_length_squared_nonnegative};
use crate::vec2::{lemma_abs_mul, lemma_with_length_bounds};
use crate::simulation::{kept_in_circle, physics_tick, ticks, updated, with_gravity};
use crate::simulation::{resolve_pair, resolve_row, resolve_rows, split_balls, steps_due};
use crate::simulation::{all_valid, gravity, SimulationState, GRAVITY_X, GRAVITY_Y};
use crate::simulation::{PHYSIC_STEP_COUNT, PHYSIC_STEP_LENGTH};
use crate::vec2::{rescaled, Point};

verus! {

/// A ball that fits into a circle lies inside it once it has been confined
/// to it: its distance from the centre, rounded down to a whole unit, and
/// its radius together do not exceed the circle's radius. The true distance
/// exceeds the rounded one by less than one unit.
pub proof fn lemma_clamp_to_circle_contains(b: BallState, radius: int)
    requires
        b.valid(),
        b.size <= radius,
    ensures
        b.clamp_to_circle(radius).current.length() + b.size <= radius,
{
    let p = b.current;
    let len = p.length();
    lemma_component_le_length(p);
    if len + b.size > radius {
        let m = radius - b.size;
        let q = p.with_length(m);
        let c = q.clamped();
        lemma_with_length_bounds(p, m);
        lemma_length_squared_nonnegative(p);
        lemma_length_squared_nonnegative(c);
        lemma_floor_sqrt(p.length_squared());
        lemma_abs_square(p.x);
        lemma_abs_square(p.y);
        lemma_abs_square(c.x);
        lemma_abs_square(c.y);
        assert(abs(c.x) * len <= abs(p.x) * m) by (nonlinear_arith)
            requires
                0 <= abs(c.x) <= abs(q.x),
                abs(q.x) * len <= abs(p.x) * m,
                0 <= len,
        ;
        assert(abs(c.y) * len <= abs(p.y) * m) by (nonlinear_arith)
            requires
                0 <= abs(c.y) <= abs(q.y),
                abs(q.y) * len <= abs(p.y) * m,
                0 <= len,
        ;
        lemma_stretch_inside(abs(p.x), abs(p.y), len, m, abs(c.x), abs(c.y));
        lemma_floor_sqrt_le(c.length_squared(), m);
    }
}

/// A number and its absolute value have the same square.
pub proof fn lemma_abs_square(v: int)
    ensures
        abs(v) * abs(v) == v * v,
{
    assert(abs(v) * abs(v) == v * v) by (nonlinear_arith)
        requires
            abs(v) == v || abs(v) == -v,
    ;
}

/// The arithmetic of `lemma_clamp_to_circle_contains`: a vector `(x, y)` of
/// rounded length `len`, shrunk to the shorter length `m` with its
/// components rounded toward zero, stays below length `m + 1`.
proof fn lemma_stretch_inside(x: int, y: int, len: int, m: int, cx: int, cy: int)
    requires
        0 <= x,
        0 <= y,
        0 <= cx,
        0 <= cy,
        0 <= m < len,
        x * x + y * y < (len + 1) * (len + 1),
        cx * len <= x * m,
        cy * len <= y * m,
    ensures
        cx * cx + cy * cy < (m + 1) * (m + 1),
{
    let lhs = cx * cx + cy * cy;
    assert((cx * len) * (cx * len) <= (x * m) * (x * m)) by (nonlinear_arith)
        requires
            0 <= cx * len <= x * m,
    ;
    assert((cy * len) * (cy * len) <= (y * m) * (y * m)) by (nonlinear_arith)
        requires
            0 <= cy * len <= y * m,
    ;
    assert(0 <= cx * len && 0 <= cy * len) by (nonlinear_arith)
        requires
            0 <= cx,
            0 <= cy,
            0 <= len,
    ;
    assert(lhs * (len * len) == (cx * len) * (cx * len) + (cy * len) * (cy * len))
        by (nonlinear_arith)
        requires
            lhs == cx * cx + cy * cy,
    ;
    assert((x * m) * (x * m) + (y * m) * (y * m) == (m * m) * (x * x + y * y))
        by (nonlinear_arith);
    assert((m * m) * (x * x + y * y) <= (m * m) * ((len + 1) * (len + 1))) by (nonlinear_arith)
        requires
            x * x + y * y < (len + 1) * (len + 1),
    ;
    assert((m * m) * ((len + 1) * (len + 1)) == (m * (len + 1)) * (m * (len + 1)))
        by (nonlinear_arith);
    assert(m * (len + 1) < (m + 1) * len) by (nonlinear_arith)
        requires
            0 <= m < len,
    ;
    assert((m * (len + 1)) * (m * (len + 1)) < ((m + 1) * len) * ((m + 1) * len))
        by (nonlinear_arith)
        requires
            0 <= m * (len + 1) < (m + 1) * len,
    ;
    assert(0 <= m * (len + 1)) by (nonlinear_arith)
        requires
            0 <= m,
            0 <= len,
    ;
    assert(((m + 1) * len) * ((m + 1) * len) == ((m + 1) * (m + 1)) * (len * len))
        by (nonlinear_arith);
    assert(lhs * (len * len) < ((m + 1) * (m + 1)) * (len * len));
    assert(lhs < (m + 1) * (m + 1)) by (nonlinear_arith)
        requires
            lhs * (len * len) < ((m + 1) * (m + 1)) * (len * len),
            len > 0,
    ;
}

/// Confining a ball that fits into the circle a second time changes
/// nothing.
pub proof fn lemma_clamp_to_circle_idempotent(b: BallState, radius: int)
    requires
        b.valid(),
        b.size <= radius,
    ensures
        b.clamp_to_circle(radius).clamp_to_circle(radius) == b.clamp_to_circle(radius),
{
    lemma_clamp_to_circle_contains(b, radius);
}

/// Integration determinism: where a ball is after an integration depends
/// on nothing but its state before and the length of the sub-step. Two
/// balls in one state are in one state afterwards; each remembers where it
/// was, and has no acceleration left.
pub proof fn lemma_update_is_a_function(a: BallState, b: BallState, delta: int)
    requires
        a == b,
    ensures
        a.update(delta) == b.update(delta),
        a.update(delta).previous == a.current,
        a.update(delta).acceleration == Point::zero(),
        a.update(delta).size == a.size,
{
}

/// It does not matter which ball of a pair is taken first: the correction
/// of `b` against `a` is the opposite of the correction of `a` against `b`.
pub proof fn lemma_correction_antisymmetric(a: BallState, b: BallState)
    ensures
        b.correction(a) == a.correction(b).negated(),
{
    let d = a.current.minus(b.current);
    let e = b.current.minus(a.current);
    assert(e == d.negated());
    assert(e.x * e.x == d.x * d.x && e.y * e.y == d.y * d.y) by (nonlinear_arith)
        requires
            e.x == -d.x,
            e.y == -d.y,
    ;
    assert(e.length() == d.length());
    let len = d.length();
    let range = a.size + b.size;
    if len <= range {
        let push = (range - len) / (CORRECTION_DIVISOR as int);
        if len > 0 {
            assert(e.x * push == -(d.x * push) && e.y * push == -(d.y * push))
                by (nonlinear_arith)
                requires
                    e.x == -d.x,
                    e.y == -d.y,
            ;
            lemma_div_trunc_negate(d.x * push, len);
            lemma_div_trunc_negate(d.y * push, len);
        }
    }
}

/// Symmetric correction: one resolution displaces the two balls of a pair
/// by vectors of equal length and opposite direction, `a` by the correction
/// and `b` by its opposite, wherever the world's edge does not cut a move
/// short.
pub proof fn lemma_push_apart_symmetric(a: BallState, b: BallState)
    requires
        a.valid(),
        b.valid(),
        a.current.plus(a.correction(b)).in_world(),
        b.current.plus(a.correction(b).negated()).in_world(),
    ensures
        a.moved_by(a.correction(b)).current.minus(a.current) == a.correction(b),
        b.moved_by(a.correction(b).negated()).current.minus(b.current) == a.correction(
            b,
        ).negated(),
        a.moved_by(a.correction(b)).current.minus(a.current) == b.moved_by(
            a.correction(b).negated(),
        ).current.minus(b.current).negated(),
{
}

/// Symmetric correction, by what is known before the resolution: two
/// balls that keep at least their contact range, the sum of their radii,
/// from the world's edge are displaced by opposite vectors, whatever their
/// radii are.
pub proof fn lemma_push_apart_symmetric_inside(a: BallState, b: BallState)
    requires
        a.valid(),
        b.valid(),
        abs(a.current.x) + a.size + b.size <= COORD_LIMIT,
        abs(a.current.y) + a.size + b.size <= COORD_LIMIT,
        abs(b.current.x) + a.size + b.size <= COORD_LIMIT,
        abs(b.current.y) + a.size + b.size <= COORD_LIMIT,
    ensures
        a.moved_by(a.correction(b)).current.minus(a.current) == a.correction(b),
        b.moved_by(a.correction(b).negated()).current.minus(b.current) == a.correction(
            b,
        ).negated(),
        a.moved_by(a.correction(b)).current.minus(a.current) == b.moved_by(
            a.correction(b).negated(),
        ).current.minus(b.current).negated(),
{
    let delta = a.current.minus(b.current);
    let range = a.size + b.size;
    if delta.length() <= range {
        lemma_component_le_length(delta);
        let push = (range - delta.length()) / (CORRECTION_DIVISOR as int);
        assert(0 <= push <= range);
        lemma_with_length_bounds(delta, push);
    }
    lemma_push_apart_symmetric(a, b);
}

/// Two balls whose centres coincide have no direction to part in: the
/// resolution leaves both where they are.
pub proof fn lemma_push_apart_coincident(a: BallState, b: BallState)
    requires
        a.valid(),
        b.valid(),
        a.current == b.current,
    ensures
        a.correction(b) == Point::zero(),
        a.moved_by(a.correction(b)) == a,
        b.moved_by(a.correction(b).negated()) == b,
{
    let d = a.current.minus(b.current);
    assert(d == Point::zero());
    lemma_component_le_length(d);
}

/// Two balls that do not reach each other are left alone.
pub proof fn lemma_push_apart_distant(a: BallState, b: BallState)
    requires
        a.valid(),
        b.valid(),
        a.current.minus(b.current).length() > a.size + b.size,
    ensures
        a.moved_by(a.correction(b)) == a,
        b.moved_by(a.correction(b).negated()) == b,
{
}

/// The correction of two overlapping balls is not zero once the overlap is
/// large enough for a fifth of it to make two fixed-point units, unless the
/// centres coincide.
pub proof fn lemma_correction_nonzero(a: BallState, b: BallState)
    requires
        a.valid(),
        b.valid(),
        a.current != b.current,
        a.current.minus(b.current).length() + 2 * CORRECTION_DIVISOR <= a.size + b.size,
    ensures
        a.correction(b) != Point::zero(),
{
    let d = a.current.minus(b.current);
    let len = d.length();
    let push = (a.size + b.size - len) / (CORRECTION_DIVISOR as int);
    assert(push >= 2);
    lemma_component_le_length(d);
    lemma_length_squared_nonnegative(d);
    lemma_floor_sqrt(d.length_squared());
    lemma_abs_square(d.x);
    lemma_abs_square(d.y);
    let mx = abs(d.x);
    let my = abs(d.y);
    if mx >= my {
        lemma_long_axis_moves(mx, my, len, push);
        lemma_abs_mul(d.x, push);
        lemma_div_trunc_bounds(d.x * push, len);
        assert(rescaled(d.x, len, push) != 0);
    } else {
        lemma_long_axis_moves(my, mx, len, push);
        lemma_abs_mul(d.y, push);
        lemma_div_trunc_bounds(d.y * push, len);
        assert(rescaled(d.y, len, push) != 0);
    }
}

/// The arithmetic of `lemma_correction_nonzero`: the longer component `m`
/// of a vector of rounded length `len`, times a push of two or more, is at
/// least `len`.
proof fn lemma_long_axis_moves(m: int, other: int, len: int, push: int)
    requires
        0 <= other <= m,
        0 <= len,
        len * len <= m * m + other * other,
        push >= 2,
    ensures
        m * push >= len,
{
    assert(other * other <= m * m) by (nonlinear_arith)
        requires
            0 <= other <= m,
    ;
    if len > 2 * m {
        assert(len * len > (2 * m) * (2 * m)) by (nonlinear_arith)
            requires
                0 <= 2 * m < len,
        ;
        assert((2 * m) * (2 * m) == 4 * (m * m)) by (nonlinear_arith);
        assert(m * m >= 0) by (nonlinear_arith);
    }
    assert(m * push >= 2 * m) by (nonlinear_arith)
        requires
            m >= 0,
            push >= 2,
    ;
}

/// Non-overlap monotonicity: one resolution never brings the centres of two
/// balls closer together, and it parts them strictly wherever the correction
/// is not zero. The distance is compared exactly, by its square.
pub proof fn lemma_push_apart_separates(a: BallState, b: BallState)
    requires
        a.valid(),
        b.valid(),
    ensures
        a.moved_by(a.correction(b)).current.minus(
            b.moved_by(a.correction(b).negated()).current,
        ).length_squared() >= a.current.minus(b.current).length_squared(),
        a.correction(b) != Point::zero() ==> a.moved_by(a.correction(b)).current.minus(
            b.moved_by(a.correction(b).negated()).current,
        ).length_squared() > a.current.minus(b.current).length_squared(),
{
    let delta = a.current.minus(b.current);
    let len = delta.length();
    let range = a.size + b.size;
    let d = a.correction(b);
    if len <= range {
        let push = (range - len) / (CORRECTION_DIVISOR as int);
        lemma_component_le_length(delta);
        lemma_with_length_bounds(delta, push);
        assert(delta.x >= 0 ==> delta.x * push >= 0) by (nonlinear_arith)
            requires
                push >= 0,
        ;
        assert(delta.x <= 0 ==> delta.x * push <= 0) by (nonlinear_arith)
            requires
                push >= 0,
        ;
        assert(delta.y >= 0 ==> delta.y * push >= 0) by (nonlinear_arith)
            requires
                push >= 0,
        ;
        assert(delta.y <= 0 ==> delta.y * push <= 0) by (nonlinear_arith)
            requires
                push >= 0,
        ;
        if d != Point::zero() {
            assert(push >= 1) by {
                if push == 0 {
                    assert(delta.x * 0 == 0 && delta.y * 0 == 0) by (nonlinear_arith);
                    lemma_div_trunc_bounds(0, len);
                }
            }
            assert(abs(delta.x) < 2 * COORD_LIMIT);
            assert(abs(delta.y) < 2 * COORD_LIMIT);
        }
        lemma_axis_separates(a.current.x, b.current.x, d.x);
        lemma_axis_separates(a.current.y, b.current.y, d.y);
    } else {
        lemma_axis_separates(a.current.x, b.current.x, 0);
        lemma_axis_separates(a.current.y, b.current.y, 0);
    }
}

/// Non-overlap monotonicity, where the fixed-point grid can show it: two
/// balls whose centres differ and whose overlap makes at least two
/// fixed-point units once it is divided by `CORRECTION_DIVISOR` are
/// strictly farther apart after one resolution.
pub proof fn lemma_push_apart_parts_overlapping(a: BallState, b: BallState)
    requires
        a.valid(),
        b.valid(),
        a.current != b.current,
        a.current.minus(b.current).length() + 2 * CORRECTION_DIVISOR <= a.size + b.size,
    ensures
        a.moved_by(a.correction(b)).current.minus(
            b.moved_by(a.correction(b).negated()).current,
        ).length_squared() > a.current.minus(b.current).length_squared(),
{
    lemma_correction_nonzero(a, b);
    lemma_push_apart_separates(a, b);
}

/// One axis of `lemma_push_apart_separates`: two coordinates that are moved
/// by `d` and `-d`, away from each other, are afterwards at least as far
/// apart as before, and farther unless `d` is zero or both already lie on
/// opposite edges of the world.
proof fn lemma_axis_separates(pa: int, pb: int, d: int)
    requires
        in_world(pa),
        in_world(pb),
        pa - pb >= 0 ==> d >= 0,
        pa - pb <= 0 ==> d <= 0,
    ensures
        (clamp_coord(pa + d) - clamp_coord(pb - d)) * (clamp_coord(pa + d) - clamp_coord(pb - d))
            >= (pa - pb) * (pa - pb),
        d != 0 && abs(pa - pb) < 2 * COORD_LIMIT ==> (clamp_coord(pa + d) - clamp_coord(pb - d))
            * (clamp_coord(pa + d) - clamp_coord(pb - d)) > (pa - pb) * (pa - pb),
{
    let before = pa - pb;
    let after = clamp_coord(pa + d) - clamp_coord(pb - d);
    if before >= 0 {
        assert(after >= before);
        assert(after * after >= before * before) by (nonlinear_arith)
            requires
                0 <= before <= after,
        ;
        if d != 0 && abs(before) < 2 * COORD_LIMIT {
            assert(after > before);
            assert(after * after > before * before) by (nonlinear_arith)
                requires
                    0 <= before < after,
            ;
        }
    } else {
        assert(after <= before);
        assert(after * after >= before * before) by (nonlinear_arith)
            requires
                after <= before <= 0,
        ;
        if d != 0 && abs(before) < 2 * COORD_LIMIT {
            assert(after < before);
            assert(after * after > before * before) by (nonlinear_arith)
                requires
                    after < before <= 0,
            ;
        }
    }
}

/// `after` holds the balls of `before`, one for one and each with the
/// radius it had: balls are neither made nor lost, and none changes size.
pub open spec fn same_balls(before: Seq<BallState>, after: Seq<BallState>) -> bool {
    &&& after.len() == before.len()
    &&& forall|k: int| 0 <= k < before.len() ==> (#[trigger] after[k]).size == before[k].size
}

/// The resolution of the pairs of one row keeps the balls and their radii.
pub proof fn lemma_resolve_row_keeps_balls(balls: Seq<BallState>, i: int, end: int)
    requires
        0 <= i,
        end <= balls.len(),
    ensures
        same_balls(balls, resolve_row(balls, i, end)),
    decreases end - i,
{
    if end > i + 1 {
        lemma_resolve_row_keeps_balls(balls, i, end - 1);
    }
}

/// The resolution of the first rows keeps the balls and their radii.
pub proof fn lemma_resolve_rows_keep_balls(balls: Seq<BallState>, end: int)
    requires
        end <= balls.len(),
    ensures
        same_balls(balls, resolve_rows(balls, end)),
    decreases end,
{
    if end > 0 {
        lemma_resolve_rows_keep_balls(balls, end - 1);
        lemma_resolve_row_keeps_balls(resolve_rows(balls, end - 1), end - 1, balls.len() as int);
    }
}

/// A sub-step keeps the balls and their radii.
pub proof fn lemma_physics_tick_keeps_balls(balls: Seq<BallState>, delta: int)
    ensures
        same_balls(balls, physics_tick(balls, delta)),
{
    let pulled = with_gravity(balls);
    lemma_resolve_rows_keep_balls(pulled, pulled.len() as int);
    let parted = split_balls(pulled);
    let kept = kept_in_circle(parted);
    let moved = updated(kept, delta);
    assert forall|k: int| 0 <= k < balls.len() implies (#[trigger] moved[k]).size
        == balls[k].size by {
        assert(pulled[k].size == balls[k].size);
        assert(parted[k].size == pulled[k].size);
        assert(kept[k].size == parted[k].size);
    }
}

/// The radius of a ball is fixed when the ball appears: however many
/// sub-steps are taken, the balls stay the same in number and in size.
pub proof fn lemma_ticks_keep_balls(balls: Seq<BallState>, count: nat)
    ensures
        same_balls(balls, ticks(balls, count)),
    decreases count,
{
    if count > 0 {
        let earlier = ticks(balls, (count - 1) as nat);
        lemma_ticks_keep_balls(balls, (count - 1) as nat);
        lemma_physics_tick_keeps_balls(earlier, PHYSIC_STEP_LENGTH as int);
        let later = ticks(balls, count);
        assert forall|k: int| 0 <= k < balls.len() implies (#[trigger] later[k]).size
            == balls[k].size by {
            assert(earlier[k].size == balls[k].size);
        }
    }
}

/// Boundary containment for a whole sub-step: once the balls have been
/// confined, every ball that fits into the border circle lies inside it.
pub proof fn lemma_kept_in_circle_contains(balls: Seq<BallState>)
    requires
        all_valid(balls),
    ensures
        forall|k: int|
            0 <= k < balls.len() && balls[k].size <= BORDER_RADIUS ==> (#[trigger] kept_in_circle(
                balls,
            )[k]).current.length() + balls[k].size <= BORDER_RADIUS,
{
    assert forall|k: int| 0 <= k < balls.len() && balls[k].size <= BORDER_RADIUS implies (
    #[trigger] kept_in_circle(balls)[k]).current.length() + balls[k].size <= BORDER_RADIUS by {
        lemma_clamp_to_circle_contains(balls[k], BORDER_RADIUS as int);
    }
}

/// The units fit together: the sub-steps of a second fill the second, the
/// divisor of `travelled` is the square of a second, and gravity adds
/// 6 250 000 000 fixed-point units of fall, 0.00625 world units, to a ball
/// in each sub-step.
pub proof fn lemma_units()
    ensures
        PHYSIC_STEP_LENGTH * PHYSIC_STEP_COUNT == MICROS_PER_SECOND,
        MICROS_PER_SECOND * MICROS_PER_SECOND == MICROS_PER_SECOND_SQUARED,
        travelled(GRAVITY_Y as int, PHYSIC_STEP_LENGTH as int) == -6_250_000_000,
{
    assert(2500int * 400int == 1_000_000int) by (nonlinear_arith);
    assert(1_000_000int * 1_000_000int == 1_000_000_000_000int) by (nonlinear_arith);
    assert(-1_000_000_000_000_000int * (2500int * 2500int)
        == -6_250_000_000_000_000_000_000int)
        by (nonlinear_arith);
    assert(6_250_000_000_000_000_000_000int / 1_000_000_000_000int == 6_250_000_000)
        by (nonlinear_arith);
}

/// Damping commutes with a change of direction.
pub proof fn lemma_damped_negate(v: int)
    ensures
        damped(-v) == -damped(v),
{
    assert((-v) * 999 == -(v * 999)) by (nonlinear_arith);
    lemma_div_trunc_negate(v * 999, 1000);
}

/// Gravity's share of a sub-step of `delta` microseconds: a thousand units
/// of fall for each squared microsecond, and nothing sideways. It is not
/// zero unless `delta` is.
pub proof fn lemma_gravity_share(delta: int)
    ensures
        travelled(GRAVITY_Y as int, delta) == -1000 * (delta * delta),
        travelled(GRAVITY_X as int, delta) == 0,
        delta * delta >= 0,
        delta != 0 ==> delta * delta >= 1,
{
    let span = delta * delta;
    assert(span >= 0 && (delta != 0 ==> span >= 1)) by (nonlinear_arith)
        requires
            span == delta * delta,
    ;
    assert(-(-1_000_000_000_000_000int * span) == (1000 * span) * 1_000_000_000_000int)
        by (nonlinear_arith);
    vstd::arithmetic::div_mod::lemma_div_by_multiple(1000 * span, 1_000_000_000_000);
    assert(0int * span == 0) by (nonlinear_arith);
    lemma_div_trunc_bounds(0, 1_000_000_000_000);
}

/// Free fall, one sub-step: a single ball that reaches over no border is
/// moved by nothing but its own damped step and gravity. Its new step is
/// the damped old step, less a thousand units for each squared microsecond
/// in the vertical; a ball that does not rise is strictly lower after any
/// sub-step of positive length.
pub proof fn lemma_free_fall_tick(b: BallState, delta: int)
    requires
        b.valid(),
        b.acceleration == Point::zero(),
        b.current.length() + b.size <= BORDER_RADIUS,
    ensures
        physics_tick(seq![b], delta).len() == 1,
        physics_tick(seq![b], delta)[0].previous == b.current,
        physics_tick(seq![b], delta)[0].acceleration == Point::zero(),
        physics_tick(seq![b], delta)[0].size == b.size,
        physics_tick(seq![b], delta)[0].current.x == clamp_coord(
            b.current.x + damped(b.current.x - b.previous.x),
        ),
        physics_tick(seq![b], delta)[0].current.y == clamp_coord(
            b.current.y + damped(b.current.y - b.previous.y) - 1000 * (delta * delta),
        ),
        in_world(b.current.x + damped(b.current.x - b.previous.x)) ==> physics_tick(
            seq![b],
            delta,
        )[0].current.x - b.current.x == damped(b.current.x - b.previous.x),
        in_world(b.current.y + damped(b.current.y - b.previous.y) - 1000 * (delta * delta))
            ==> physics_tick(seq![b], delta)[0].current.y - b.current.y == damped(
            b.current.y - b.previous.y,
        ) - 1000 * (delta * delta),
        delta != 0 && b.current.y <= b.previous.y ==> physics_tick(seq![b], delta)[0].current.y
            < b.current.y,
{
    let start = seq![b];
    let pulled = with_gravity(start);
    let heavy = b.add_acceleration(gravity());
    assert(heavy.acceleration == gravity());
    assert(pulled =~= seq![heavy]);
    assert(resolve_rows(pulled, 0) == pulled);
    assert(resolve_row(pulled, 0, 1) == pulled);
    assert(split_balls(pulled) == pulled);
    let kept = kept_in_circle(pulled);
    assert(heavy.keep_in_circle() == heavy);
    assert(kept =~= pulled);
    let moved = updated(kept, delta);
    assert(moved =~= seq![heavy.update(delta)]);
    lemma_gravity_share(delta);
    lemma_component_le_length(b.current);
    let drift = b.current.y - b.previous.y;
    if delta != 0 && drift <= 0 {
        assert(drift * 999 <= 0) by (nonlinear_arith)
            requires
                drift <= 0,
        ;
        lemma_div_trunc_bounds(drift * 999, 1000);
    }
}

/// Free fall approaches its limit from below: the length of fall of one
/// sub-step, damped and increased by gravity's share `gain`, is no shorter
/// in the next sub-step and stays below a thousand times `gain`, the step
/// at which damping takes what gravity gives. It grows strictly until it
/// is within a thousand units of that limit.
pub proof fn lemma_fall_grows_below_its_limit(fall: int, gain: int)
    requires
        gain >= 1,
        0 <= fall < 1000 * gain,
    ensures
        fall <= damped(fall) + gain < 1000 * gain,
        fall <= 1000 * (gain - 1) ==> fall < damped(fall) + gain,
{
    let kept = (fall * 999) / 1000;
    assert(fall * 999 >= 0) by (nonlinear_arith)
        requires
            fall >= 0,
    ;
    assert(damped(fall) == kept);
    vstd::arithmetic::div_mod::lemma_fundamental_div_mod(fall * 999, 1000);
    vstd::arithmetic::div_mod::lemma_mod_bound(fall * 999, 1000);
}

/// How far a ball in free fall from rest falls in its `k`-th sub-step of
/// the fixed length: the damped fall of the sub-step before, and gravity's
/// share of 6 250 000 000 units. Without the rounding of the damping this
/// is 0.00625 world units times `(1 - 0.999^k) / 0.001`.
pub open spec fn fall_in_tick(k: nat) -> int
    decreases k,
{
    if k == 0 {
        0
    } else {
        damped(fall_in_tick((k - 1) as nat)) + 6_250_000_000
    }
}

/// How far a ball in free fall from rest has fallen after `n` sub-steps of
/// the fixed length: the sum of its falls in each of them.
pub open spec fn fallen(n: nat) -> int
    decreases n,
{
    if n == 0 {
        0
    } else {
        fallen((n - 1) as nat) + fall_in_tick(n)
    }
}

/// The ball `b`, at rest to begin with, after `n` sub-steps of free fall.
pub open spec fn falling(b: BallState, n: nat) -> BallState {
    BallState {
        current: Point { x: b.current.x, y: b.current.y - fallen(n) },
        previous: Point {
            x: b.current.x,
            y: b.current.y - if n == 0 {
                0
            } else {
                fallen((n - 1) as nat)
            },
        },
        acceleration: Point::zero(),
        size: b.size,
    }
}

/// The fall of a sub-step grows from one sub-step to the next, is never
/// less than gravity's share, and stays below 6.25 world units.
pub proof fn lemma_fall_in_tick_bounds(k: nat)
    ensures
        0 <= fall_in_tick(k) < 6_250_000_000_000,
        k >= 1 ==> fall_in_tick(k) >= 6_250_000_000,
        fall_in_tick(k) <= fall_in_tick(k + 1),
        fallen(k) >= 0,
    decreases k,
{
    if k > 0 {
        lemma_fall_in_tick_bounds((k - 1) as nat);
        lemma_fall_grows_below_its_limit(fall_in_tick((k - 1) as nat), 6_250_000_000);
    }
    lemma_fall_grows_below_its_limit(fall_in_tick(k), 6_250_000_000);
    assert(fall_in_tick(k + 1) == damped(fall_in_tick(k)) + 6_250_000_000);
    if k > 0 {
        assert(fall_in_tick((k - 1) as nat) >= 0);
        assert(fall_in_tick((k - 1) as nat) * 999 >= 0) by (nonlinear_arith)
            requires
                fall_in_tick((k - 1) as nat) >= 0,
        ;
        lemma_div_trunc_bounds(fall_in_tick((k - 1) as nat) * 999, 1000);
    }
}

/// Free fall over any number of sub-steps: a ball that starts at rest and
/// reaches over no border on its way is, after `n` sub-steps of the fixed
/// length, exactly `fallen(n)` below where it started, and has not moved
/// sideways.
pub proof fn lemma_fall_from_rest(b: BallState, n: nat)
    requires
        b.valid(),
        b.previous == b.current,
        b.acceleration == Point::zero(),
        forall|k: nat|
            k < n ==> (#[trigger] falling(b, k)).current.length() + b.size <= BORDER_RADIUS,
    ensures
        ticks(seq![b], n) == seq![falling(b, n)],
    decreases n,
{
    if n == 0 {
        assert(falling(b, 0) == b);
    } else {
        let m = (n - 1) as nat;
        lemma_fall_from_rest(b, m);
        let before = falling(b, m);
        assert(before.current.length() + b.size <= BORDER_RADIUS);
        lemma_component_le_length(before.current);
        lemma_fall_in_tick_bounds(m);
        if m > 0 {
            let earlier = falling(b, (m - 1) as nat);
            assert(earlier.current.length() + b.size <= BORDER_RADIUS);
            lemma_component_le_length(earlier.current);
            assert(before.previous == earlier.current);
        }
        assert(before.valid());
        lemma_free_fall_tick(before, PHYSIC_STEP_LENGTH as int);
        assert(1000 * (2500int * 2500int) == 6_250_000_000int) by (nonlinear_arith);
        assert(0int * 999 == 0) by (nonlinear_arith);
        lemma_div_trunc_bounds(0, 1000);
        let drift = before.current.y - before.previous.y;
        assert(drift == -fall_in_tick(m));
        lemma_damped_negate(fall_in_tick(m));
        assert(fall_in_tick(m) * 999 >= 0) by (nonlinear_arith)
            requires
                fall_in_tick(m) >= 0,
        ;
        lemma_div_trunc_bounds(fall_in_tick(m) * 999, 1000);
        lemma_fall_in_tick_bounds(n);
        let after = physics_tick(seq![before], PHYSIC_STEP_LENGTH as int);
        assert(after[0] == falling(b, n));
        assert(after =~= seq![falling(b, n)]);
    }
}

/// Damping keeps a step that is not negative between nothing and the step
/// itself, and takes no more than a thousandth of it and one unit.
pub proof fn lemma_damped_bounds(v: int)
    requires
        v >= 0,
    ensures
        0 <= damped(v) <= v,
        999 * v - 999 <= 1000 * damped(v) <= 999 * v,
{
    assert(v * 999 >= 0) by (nonlinear_arith)
        requires
            v >= 0,
    ;
    vstd::arithmetic::div_mod::lemma_fundamental_div_mod(v * 999, 1000);
    vstd::arithmetic::div_mod::lemma_mod_bound(v * 999, 1000);
}

/// The border moves none of the balls in the sub-step that begins with
/// `balls`: after gravity and the pass, every ball is where the border
/// would put it.
pub open spec fn border_idle(balls: Seq<BallState>) -> bool {
    kept_in_circle(split_balls(with_gravity(balls))) == split_balls(with_gravity(balls))
}

/// How far a pass pushes each of two balls whose centres are `gap` apart
/// and whose radii add up to `range`.
pub open spec fn push_of(gap: int, range: int) -> int {
    if gap > range {
        0
    } else {
        (range - gap) / (CORRECTION_DIVISOR as int)
    }
}

/// The correction of two balls side by side, `a` to the left of `b`: `a` is
/// pushed to the left by `push_of` their distance, and neither up nor down.
pub proof fn lemma_correction_side_by_side(a: BallState, b: BallState)
    requires
        a.current.y == b.current.y,
        a.current.x < b.current.x,
    ensures
        a.correction(b) == (Point {
            x: -push_of(b.current.x - a.current.x, a.size + b.size),
            y: 0,
        }),
{
    let gap = b.current.x - a.current.x;
    let delta = a.current.minus(b.current);
    assert(delta == Point { x: -gap, y: 0 });
    assert((-gap) * (-gap) + 0int * 0int == gap * gap) by (nonlinear_arith);
    assert(gap * gap < (gap + 1) * (gap + 1)) by (nonlinear_arith)
        requires
            gap > 0,
    ;
    crate::fixed::lemma_floor_sqrt_is(gap * gap, gap);
    assert(delta.length() == gap);
    let range = a.size + b.size;
    if gap <= range {
        let push = (range - gap) / (CORRECTION_DIVISOR as int);
        assert(push >= 0);
        assert((-gap) * push == -(push * gap)) by (nonlinear_arith);
        assert(push * gap >= 0) by (nonlinear_arith)
            requires
                push >= 0,
                gap > 0,
        ;
        vstd::arithmetic::div_mod::lemma_div_by_multiple(push, gap);
        assert(0int * push == 0) by (nonlinear_arith);
        lemma_div_trunc_bounds(0, gap);
        if push * gap == 0 {
            assert(push == 0) by (nonlinear_arith)
                requires
                    push * gap == 0,
                    gap > 0,
                    push >= 0,
            ;
        }
    }
}

/// One sub-step of two balls side by side that the border does not touch:
/// the pass pushes them apart along the line through their centres, and
/// each goes on by its damped step along that line. In the vertical both
/// move alike.
pub proof fn lemma_side_by_side_tick(a: BallState, b: BallState, delta: int)
    requires
        a.valid(),
        b.valid(),
        a.acceleration == Point::zero(),
        b.acceleration == Point::zero(),
        a.current.y == b.current.y,
        a.previous.y == b.previous.y,
        a.current.x < b.current.x,
        abs(a.previous.x) <= 4 * BORDER_RADIUS,
        abs(b.previous.x) <= 4 * BORDER_RADIUS,
        a.size <= BORDER_RADIUS,
        b.size <= BORDER_RADIUS,
        border_idle(seq![a, b]),
    ensures
        physics_tick(seq![a, b], delta).len() == 2,
        physics_tick(seq![a, b], delta)[0].valid(),
        physics_tick(seq![a, b], delta)[1].valid(),
        physics_tick(seq![a, b], delta)[0].acceleration == Point::zero(),
        physics_tick(seq![a, b], delta)[1].acceleration == Point::zero(),
        physics_tick(seq![a, b], delta)[0].size == a.size,
        physics_tick(seq![a, b], delta)[1].size == b.size,
        physics_tick(seq![a, b], delta)[0].current.y == physics_tick(
            seq![a, b],
            delta,
        )[1].current.y,
        physics_tick(seq![a, b], delta)[0].previous.y == physics_tick(
            seq![a, b],
            delta,
        )[1].previous.y,
        physics_tick(seq![a, b], delta)[0].previous.x == a.current.x - push_of(
            b.current.x - a.current.x,
            a.size + b.size,
        ),
        physics_tick(seq![a, b], delta)[1].previous.x == b.current.x + push_of(
            b.current.x - a.current.x,
            a.size + b.size,
        ),
        abs(physics_tick(seq![a, b], delta)[0].previous.x) <= BORDER_RADIUS,
        abs(physics_tick(seq![a, b], delta)[1].previous.x) <= BORDER_RADIUS,
        physics_tick(seq![a, b], delta)[0].current.x == physics_tick(
            seq![a, b],
            delta,
        )[0].previous.x + damped(physics_tick(seq![a, b], delta)[0].previous.x - a.previous.x),
        physics_tick(seq![a, b], delta)[1].current.x == physics_tick(
            seq![a, b],
            delta,
        )[1].previous.x + damped(physics_tick(seq![a, b], delta)[1].previous.x - b.previous.x),
{
    let push = push_of(b.current.x - a.current.x, a.size + b.size);
    let heavy_a = a.add_acceleration(gravity());
    let heavy_b = b.add_acceleration(gravity());
    let pulled = with_gravity(seq![a, b]);
    assert(pulled =~= seq![heavy_a, heavy_b]);
    lemma_correction_side_by_side(heavy_a, heavy_b);
    let c = heavy_a.correction(heavy_b);
    assert(c == Point { x: -push, y: 0 });
    lemma_split_balls_of_two(heavy_a, heavy_b);
    let parted = split_balls(pulled);
    let pa = heavy_a.moved_by(c);
    let pb = heavy_b.moved_by(c.negated());
    assert(parted == seq![pa, pb]);
    assert(kept_in_circle(parted)[0] == pa.keep_in_circle());
    assert(kept_in_circle(parted)[1] == pb.keep_in_circle());
    assert(pa.keep_in_circle() == pa);
    assert(pb.keep_in_circle() == pb);
    lemma_clamp_to_circle_contains(pa, BORDER_RADIUS as int);
    lemma_clamp_to_circle_contains(pb, BORDER_RADIUS as int);
    lemma_component_le_length(pa.current);
    lemma_component_le_length(pb.current);
    assert(pa.current.x == a.current.x - push);
    assert(pb.current.x == b.current.x + push);
    let moved = updated(parted, delta);
    assert(moved =~= seq![pa.update(delta), pb.update(delta)]);
    assert(physics_tick(seq![a, b], delta) == moved);
    lemma_gravity_share(delta);
    let drift_a = pa.current.x - a.previous.x;
    let drift_b = pb.current.x - b.previous.x;
    lemma_div_trunc_bounds(drift_a * 999, 1000);
    lemma_div_trunc_bounds(drift_b * 999, 1000);
    lemma_abs_mul(drift_a, 999);
    lemma_abs_mul(drift_b, 999);
    assert(abs(damped(drift_a)) <= abs(drift_a)) by (nonlinear_arith)
        requires
            abs(damped(drift_a)) * 1000 <= abs(drift_a) * 999,
            abs(drift_a) >= 0,
            abs(damped(drift_a)) >= 0,
    ;
    assert(abs(damped(drift_b)) <= abs(drift_b)) by (nonlinear_arith)
        requires
            abs(damped(drift_b)) * 1000 <= abs(drift_b) * 999,
            abs(drift_b) >= 0,
            abs(damped(drift_b)) >= 0,
    ;
}

/// Two overlapping balls part within two sub-steps once anything sets them
/// apart along a line: where one ball is at rest, the other started from
/// the same place and is now some way to its right, their radii add up to
/// a thousand units or more, and the border touches neither, their centres
/// are at least the sum of the radii apart after two sub-steps of the fixed
/// length, and level with each other.
pub proof fn lemma_side_by_side_part_in_two_ticks(a: BallState, b: BallState)
    requires
        a.valid(),
        b.valid(),
        a.acceleration == Point::zero(),
        b.acceleration == Point::zero(),
        a.previous == a.current,
        b.previous == a.current,
        b.current.y == a.current.y,
        b.current.x > a.current.x,
        abs(a.current.x) <= 4 * BORDER_RADIUS,
        a.size <= BORDER_RADIUS,
        b.size <= BORDER_RADIUS,
        a.size + b.size >= 1000,
        border_idle(seq![a, b]),
        border_idle(physics_tick(seq![a, b], PHYSIC_STEP_LENGTH as int)),
    ensures
        ticks(seq![a, b], 2).len() == 2,
        ticks(seq![a, b], 2)[1].current.x - ticks(seq![a, b], 2)[0].current.x >= a.size + b.size,
        ticks(seq![a, b], 2)[1].current.y == ticks(seq![a, b], 2)[0].current.y,
{
    let step = PHYSIC_STEP_LENGTH as int;
    let range = a.size + b.size;
    let start = seq![a, b];
    assert(ticks(start, 0) == start);
    assert(ticks(start, 1) == physics_tick(start, step));
    assert(ticks(start, 2) == physics_tick(ticks(start, 1), step));
    let first = physics_tick(start, step);
    lemma_side_by_side_tick(a, b, step);
    let a1 = first[0];
    let b1 = first[1];
    assert(first =~= seq![a1, b1]);
    let gap0 = b.current.x - a.current.x;
    let push1 = push_of(gap0, range);
    assert(0 <= push1);
    assert(gap0 <= range ==> range - gap0 - 4 <= 5 * push1 <= range - gap0);
    assert(a1.previous.x - a.previous.x == -push1);
    assert(b1.previous.x - b.previous.x == gap0 + push1);
    lemma_damped_negate(push1);
    lemma_damped_bounds(push1);
    lemma_damped_bounds(gap0 + push1);
    let gap1 = b1.current.x - a1.current.x;
    assert(gap1 == gap0 + 2 * push1 + damped(push1) + damped(gap0 + push1));
    assert(gap1 > 0);
    lemma_side_by_side_tick(a1, b1, step);
    let second = physics_tick(seq![a1, b1], step);
    let a2 = second[0];
    let b2 = second[1];
    let push2 = push_of(gap1, range);
    assert(0 <= push2);
    assert(gap1 <= range ==> range - gap1 - 4 <= 5 * push2 <= range - gap1);
    let left = damped(push1) + push2;
    let right = damped(gap0 + push1) + push2;
    assert(a2.previous.x - a1.previous.x == -left);
    assert(b2.previous.x - b1.previous.x == right);
    lemma_damped_negate(left);
    lemma_damped_bounds(left);
    lemma_damped_bounds(right);
    let gap2 = b2.current.x - a2.current.x;
    assert(gap2 == gap1 + 2 * push2 + damped(left) + damped(right));
    assert(gap2 >= range);
}

/// A thousand to the power of `k`.
pub open spec fn thousand_to(k: nat) -> int
    decreases k,
{
    if k == 0 {
        1
    } else {
        1000 * thousand_to((k - 1) as nat)
    }
}

/// The fall of the `k`-th sub-step of free fall from rest as it would be
/// without rounding, times a thousand to the power of `k - 1` to make it
/// whole: gravity's share times the sum of the powers of 999/1000 below
/// the `k`-th, which is 0.00625 world units times `(1 - 0.999^k) / 0.001`.
pub open spec fn exact_fall_scaled(k: nat) -> int
    decreases k,
{
    if k == 0 {
        0
    } else {
        999 * exact_fall_scaled((k - 1) as nat) + thousand_to((k - 1) as nat) * 6_250_000_000
    }
}

/// The fall of a sub-step follows the closed form of damped free fall: it
/// never exceeds the exact value, and in the `k`-th sub-step it falls
/// short of it by less than `k` units, one for each rounding of the damped
/// step so far.
pub proof fn lemma_fall_in_tick_closed_form(k: nat)
    requires
        k >= 1,
    ensures
        thousand_to((k - 1) as nat) >= 1,
        thousand_to((k - 1) as nat) * fall_in_tick(k) <= exact_fall_scaled(k),
        exact_fall_scaled(k) <= thousand_to((k - 1) as nat) * (fall_in_tick(k) + (k - 1)),
    decreases k,
{
    let gain = 6_250_000_000int;
    if k == 1 {
        assert(fall_in_tick(0) == 0);
        assert(0int * 999 == 0) by (nonlinear_arith);
        lemma_div_trunc_bounds(0, 1000);
        assert(fall_in_tick(1) == gain);
        assert(exact_fall_scaled(0) == 0);
        assert(thousand_to(0) == 1);
        assert(exact_fall_scaled(1) == gain);
    } else {
        let j = (k - 1) as nat;
        lemma_fall_in_tick_closed_form(j);
        lemma_fall_in_tick_bounds(j);
        let scale = thousand_to((j - 1) as nat);
        let fall = fall_in_tick(j);
        let kept = damped(fall);
        let exact = exact_fall_scaled(j);
        lemma_damped_bounds(fall);
        assert(thousand_to(j) == 1000 * scale);
        assert(fall_in_tick(k) == kept + gain);
        assert(exact_fall_scaled(k) == 999 * exact + thousand_to(j) * gain);
        assert((1000 * scale) * (kept + gain) <= 999 * exact + (1000 * scale) * gain)
            by (nonlinear_arith)
            requires
                scale >= 1,
                1000 * kept <= 999 * fall,
                scale * fall <= exact,
        ;
        assert(999 * exact + (1000 * scale) * gain <= (1000 * scale) * (kept + gain + j))
            by (nonlinear_arith)
            requires
                scale >= 1,
                j >= 1,
                999 * fall - 999 <= 1000 * kept,
                exact <= scale * (fall + (j - 1)),
        ;
    }
}

/// A pass over two balls is one resolution of that pair: what holds of a
/// resolution holds of the pass.
pub proof fn lemma_split_balls_of_two(a: BallState, b: BallState)
    ensures
        split_balls(seq![a, b]) == seq![
            a.moved_by(a.correction(b)),
            b.moved_by(a.correction(b).negated()),
        ],
{
    let s = seq![a, b];
    assert(resolve_rows(s, 0) == s);
    assert(resolve_row(s, 0, 1) == s);
    assert(resolve_row(s, 0, 2) == resolve_pair(s, 0, 1));
    assert(resolve_rows(s, 1) == resolve_pair(s, 0, 1));
    let t = resolve_pair(s, 0, 1);
    assert(resolve_row(t, 1, 2) == t);
    assert(resolve_rows(s, 2) == t);
    assert(t =~= seq![a.moved_by(a.correction(b)), b.moved_by(a.correction(b).negated())]);
}

/// Symmetric correction for a pass over two balls: away from the world's
/// edge, what the pass adds to the position of the first ball it takes
/// from the position of the second, whatever their radii are.
pub proof fn lemma_split_balls_of_two_is_symmetric(a: BallState, b: BallState)
    requires
        a.valid(),
        b.valid(),
        abs(a.current.x) + a.size + b.size <= COORD_LIMIT,
        abs(a.current.y) + a.size + b.size <= COORD_LIMIT,
        abs(b.current.x) + a.size + b.size <= COORD_LIMIT,
        abs(b.current.y) + a.size + b.size <= COORD_LIMIT,
    ensures
        split_balls(seq![a, b]).len() == 2,
        split_balls(seq![a, b])[0].current.minus(a.current) == split_balls(
            seq![a, b],
        )[1].current.minus(b.current).negated(),
{
    lemma_split_balls_of_two(a, b);
    lemma_push_apart_symmetric_inside(a, b);
}

/// Accumulator conservation: the driver loses no time. What is left over
/// after `elapsed` microseconds, together with one step length for each
/// sub-step taken, is what was left before plus `elapsed`; the rest is
/// congruent to that total modulo the step length and never exceeds one
/// step length. It is the remainder of the total by the step length,
/// except where that remainder is zero and the total is not: then a whole
/// step length stays, because a sub-step is taken only while more than one
/// step length is left.
pub proof fn lemma_advance_conserves_time(s: SimulationState, elapsed: int)
    requires
        s.valid(),
        elapsed >= 0,
    ensures
        s.advance(elapsed).time_left + steps_due(s.time_left + elapsed) * PHYSIC_STEP_LENGTH
            == s.time_left + elapsed,
        0 <= s.advance(elapsed).time_left <= PHYSIC_STEP_LENGTH,
        s.advance(elapsed).time_left % (PHYSIC_STEP_LENGTH as int) == (s.time_left + elapsed) % (
        PHYSIC_STEP_LENGTH as int),
        (s.time_left + elapsed) % (PHYSIC_STEP_LENGTH as int) != 0 ==> s.advance(
            elapsed,
        ).time_left == (s.time_left + elapsed) % (PHYSIC_STEP_LENGTH as int),
        (s.time_left + elapsed) % (PHYSIC_STEP_LENGTH as int) == 0 && s.time_left + elapsed > 0
            ==> s.advance(elapsed).time_left == PHYSIC_STEP_LENGTH,
{
    let step = PHYSIC_STEP_LENGTH as int;
    let total = s.time_left + elapsed;
    let taken = steps_due(total) as int;
    let left = total - taken * step;
    if total > step {
        vstd::arithmetic::div_mod::lemma_fundamental_div_mod(total - 1, step);
        vstd::arithmetic::div_mod::lemma_mod_bound(total - 1, step);
        vstd::arithmetic::div_mod::lemma_div_pos_is_pos(total - 1, step);
        assert(step * taken == taken * step) by (nonlinear_arith);
        assert(left == (total - 1) % step + 1);
    } else {
        assert(taken * step == 0) by (nonlinear_arith)
            requires
                taken == 0,
        ;
    }
    assert(0 <= left <= step);
    vstd::arithmetic::div_mod::lemma_mod_multiples_vanish(taken, left, step);
    assert(step * taken + left == total) by (nonlinear_arith)
        requires
            left == total - taken * step,
    ;
    if left < step {
        vstd::arithmetic::div_mod::lemma_small_mod(left as nat, step as nat);
    } else {
        vstd::arithmetic::div_mod::lemma_mod_self_0(step);
    }
}

/// A call of the driver with no time elapsed changes nothing.
pub proof fn lemma_advance_nothing(s: SimulationState)
    requires
        s.valid(),
    ensures
        s.advance(0) == s,
{
    assert(steps_due(s.time_left) == 0);
    assert(0 * PHYSIC_STEP_LENGTH == 0) by (nonlinear_arith);
}

} // verus!
