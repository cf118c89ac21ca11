//! The simulation: an ordered collection of balls, the sub-step that moves
//! them, and the driver that turns elapsed time into sub-steps of a fixed
//! length.

use vstd::prelude::*;
use crate::ball::{Ball, BallState, MAX_SIZE, MIN_SIZE};
use crate::fixed::COORD_LIMIT;
use crate::laws::{lemma_physics_tick_keeps_balls, lemma_resolve_rows_keep_balls};
use crate::laws::{lemma_ticks_keep_balls, same_balls};
use crate::vec2::{Point, Vec2};

verus! {

/// Sub-steps per second of simulated time.
pub const PHYSIC_STEP_COUNT: u64 = 400;

/// The length of a sub-step in microseconds: a second divided by
/// `PHYSIC_STEP_COUNT`.
pub const PHYSIC_STEP_LENGTH: u32 = 2_500;

/// The horizontal part of the acceleration that acts on every ball.
pub const GRAVITY_X: i64 = 0;

/// The vertical part of the acceleration that acts on every ball: a thousand
/// world units per second squared, downward.
pub const GRAVITY_Y: i64 = -1_000_000_000_000_000;

/// The acceleration that acts on every ball.
pub open spec fn gravity() -> Point {
    Point { x: GRAVITY_X as int, y: GRAVITY_Y as int }
}

/// Every ball of the sequence is valid.
pub open spec fn all_valid(balls: Seq<BallState>) -> bool {
    forall|i: int| 0 <= i < balls.len() ==> (#[trigger] balls[i]).valid()
}

/// The balls after gravity has been added to each one's acceleration.
pub open spec fn with_gravity(balls: Seq<BallState>) -> Seq<BallState> {
    Seq::new(balls.len(), |i: int| balls[i].add_acceleration(gravity()))
}

/// The balls after each has been confined to the border circle.
pub open spec fn kept_in_circle(balls: Seq<BallState>) -> Seq<BallState> {
    Seq::new(balls.len(), |i: int| balls[i].keep_in_circle())
}

/// The balls after each has been advanced by `delta` microseconds.
pub open spec fn updated(balls: Seq<BallState>, delta: int) -> Seq<BallState> {
    Seq::new(balls.len(), |i: int| balls[i].update(delta))
}

/// The balls after the overlap of the pair `(i, j)` has been resolved: ball
/// `i` moves by the pair's correction and ball `j` by its opposite.
pub open spec fn resolve_pair(balls: Seq<BallState>, i: int, j: int) -> Seq<BallState> {
    let correction = balls[i].correction(balls[j]);
    balls.update(i, balls[i].moved_by(correction)).update(
        j,
        balls[j].moved_by(correction.negated()),
    )
}

/// The balls after the pairs `(i, i + 1)`, .., `(i, end - 1)` have been
/// resolved in that order, each on the positions that the one before left.
pub open spec fn resolve_row(balls: Seq<BallState>, i: int, end: int) -> Seq<BallState>
    decreases end - i,
{
    if end <= i + 1 {
        balls
    } else {
        resolve_pair(resolve_row(balls, i, end - 1), i, end - 1)
    }
}

/// The balls after the rows of the balls `0`, .., `end - 1` have been
/// resolved in that order.
pub open spec fn resolve_rows(balls: Seq<BallState>, end: int) -> Seq<BallState>
    decreases end,
{
    if end <= 0 {
        balls
    } else {
        resolve_row(resolve_rows(balls, end - 1), end - 1, balls.len() as int)
    }
}

/// One relaxation pass: every pair `(i, j)` with `i < j` is resolved once,
/// in the order of `i` and then of `j`.
pub open spec fn split_balls(balls: Seq<BallState>) -> Seq<BallState> {
    resolve_rows(balls, balls.len() as int)
}

/// One sub-step of `delta` microseconds: gravity, then the resolution of
/// overlaps, then the border, then the integration.
pub open spec fn physics_tick(balls: Seq<BallState>, delta: int) -> Seq<BallState> {
    updated(kept_in_circle(split_balls(with_gravity(balls))), delta)
}

/// The balls after `count` sub-steps of the fixed length.
pub open spec fn ticks(balls: Seq<BallState>, count: nat) -> Seq<BallState>
    decreases count,
{
    if count == 0 {
        balls
    } else {
        physics_tick(ticks(balls, (count - 1) as nat), PHYSIC_STEP_LENGTH as int)
    }
}

/// How many sub-steps fall due once `total` microseconds have gathered: one
/// for each full step length that can be taken while more than a step
/// length is left.
pub open spec fn steps_due(total: int) -> nat {
    if total <= PHYSIC_STEP_LENGTH {
        0
    } else {
        ((total - 1) / (PHYSIC_STEP_LENGTH as int)) as nat
    }
}

/// The state of a simulation in the mathematical model.
pub struct SimulationState {
    /// The balls, in the order in which they appeared.
    pub balls: Seq<BallState>,
    /// Elapsed time, in microseconds, that no sub-step has used yet.
    pub time_left: int,
}

impl SimulationState {
    /// Every ball is valid, and no more than one step length is left over.
    pub open spec fn valid(self) -> bool {
        &&& all_valid(self.balls)
        &&& 0 <= self.time_left <= PHYSIC_STEP_LENGTH
    }

    /// The simulation after `elapsed` more microseconds: the sub-steps that
    /// fall due are taken, and the rest of the time is kept.
    pub open spec fn advance(self, elapsed: int) -> SimulationState {
        let total = self.time_left + elapsed;
        SimulationState {
            balls: ticks(self.balls, steps_due(total)),
            time_left: total - steps_due(total) * PHYSIC_STEP_LENGTH,
        }
    }
}

/// The states of the balls of a vector.
pub open spec fn states(balls: Seq<Ball>) -> Seq<BallState> {
    Seq::new(balls.len(), |i: int| balls[i]@)
}

/// A collection of balls under gravity inside the border circle.
pub struct Simulation {
    balls: Vec<Ball>,
    time_left: u64,
}

impl View for Simulation {
    type V = SimulationState;

    closed spec fn view(&self) -> SimulationState {
        SimulationState { balls: states(self.balls@), time_left: self.time_left as int }
    }
}

/// Resolves the overlaps of the balls in one pass over all pairs.
pub fn resolve_overlaps(balls: &mut Vec<Ball>)
    requires
        all_valid(states(old(balls)@)),
    ensures
        states(final(balls)@) == split_balls(states(old(balls)@)),
        final(balls).len() == old(balls).len(),
        all_valid(states(final(balls)@)),
{
    let count = balls.len();
    let mut first: usize = 0;
    while first < count
        invariant
            first <= count,
            balls.len() == count,
            old(balls).len() == count,
            all_valid(states(balls@)),
            states(balls@) == resolve_rows(states(old(balls)@), first as int),
        decreases count - first,
    {
        let ghost row_start = states(balls@);
        let mut second: usize = first + 1;
        while second < count
            invariant
                first < second <= count,
                balls.len() == count,
                all_valid(states(balls@)),
                row_start.len() == count,
                states(balls@) == resolve_row(row_start, first as int, second as int),
            decreases count - second,
        {
            let ghost before = states(balls@);
            let mut one: Ball = balls[first];
            let mut other: Ball = balls[second];
            assert(before[first as int].valid() && before[second as int].valid());
            one.push_apart(&mut other);
            balls.set(first, one);
            balls.set(second, other);
            assert(states(balls@) =~= resolve_pair(before, first as int, second as int));
            second += 1;
        }
        first += 1;
    }
}

/// Takes the balls through one sub-step of `delta` microseconds: gravity,
/// then the resolution of overlaps, then the border, then the integration.
pub fn step(balls: &mut Vec<Ball>, delta: u32)
    requires
        all_valid(states(old(balls)@)),
    ensures
        states(final(balls)@) == physics_tick(states(old(balls)@), delta as int),
        final(balls).len() == old(balls).len(),
        all_valid(states(final(balls)@)),
{
    let count = balls.len();
    let mut index: usize = 0;
    while index < count
        invariant
            index <= count,
            balls.len() == count,
            old(balls).len() == count,
            forall|k: int|
                0 <= k < index ==> (#[trigger] balls@[k])@ == old(balls)@[k]@.add_acceleration(
                    gravity(),
                ),
            forall|k: int| index <= k < count ==> (#[trigger] balls@[k]) == old(balls)@[k],
            all_valid(states(balls@)),
        decreases count - index,
    {
        let ghost before = balls@;
        let mut ball: Ball = balls[index];
        assert(states(before)[index as int].valid());
        ball.add_acceleration(Vec2 { x: GRAVITY_X, y: GRAVITY_Y });
        balls.set(index, ball);
        assert forall|k: int| 0 <= k < count implies (#[trigger] states(balls@)[k]).valid() by {
            if k != index {
                assert(states(before)[k].valid());
            }
        }
        index += 1;
    }
    assert(states(balls@) =~= with_gravity(states(old(balls)@)));
    resolve_overlaps(balls);
    let ghost resolved = states(balls@);
    let ghost resolved_balls = balls@;
    index = 0;
    while index < count
        invariant
            index <= count,
            balls.len() == count,
            resolved_balls.len() == count,
            resolved == states(resolved_balls),
            forall|k: int|
                0 <= k < index ==> (#[trigger] balls@[k])@ == resolved_balls[k]@.keep_in_circle(),
            forall|k: int| index <= k < count ==> (#[trigger] balls@[k]) == resolved_balls[k],
            all_valid(states(balls@)),
        decreases count - index,
    {
        let ghost before = balls@;
        let mut ball: Ball = balls[index];
        assert(states(before)[index as int].valid());
        ball.keep_in_circle();
        balls.set(index, ball);
        assert forall|k: int| 0 <= k < count implies (#[trigger] states(balls@)[k]).valid() by {
            if k != index {
                assert(states(before)[k].valid());
            }
        }
        index += 1;
    }
    assert(states(balls@) =~= kept_in_circle(resolved));
    let ghost kept = states(balls@);
    let ghost kept_balls = balls@;
    index = 0;
    while index < count
        invariant
            index <= count,
            balls.len() == count,
            kept_balls.len() == count,
            kept == states(kept_balls),
            forall|k: int|
                0 <= k < index ==> (#[trigger] balls@[k])@ == kept_balls[k]@.update(delta as int),
            forall|k: int| index <= k < count ==> (#[trigger] balls@[k]) == kept_balls[k],
            all_valid(states(balls@)),
        decreases count - index,
    {
        let ghost before = balls@;
        let mut ball: Ball = balls[index];
        assert(states(before)[index as int].valid());
        ball.update(delta);
        balls.set(index, ball);
        assert forall|k: int| 0 <= k < count implies (#[trigger] states(balls@)[k]).valid() by {
            if k != index {
                assert(states(before)[k].valid());
            }
        }
        index += 1;
    }
    assert(states(balls@) =~= updated(kept, delta as int));
}

impl Simulation {
    #[verifier::type_invariant]
    spec fn well_formed(self) -> bool {
        self@.valid()
    }

    /// A simulation without balls, with no time left over.
    pub fn new() -> (simulation: Simulation)
        ensures
            simulation@.balls == Seq::<BallState>::empty(),
            simulation@.time_left == 0,
            simulation@.valid(),
    {
        let simulation = Simulation { balls: Vec::new(), time_left: 0 };
        assert(simulation@.balls =~= Seq::<BallState>::empty());
        simulation
    }

    /// How many balls there are.
    pub fn len(&self) -> (count: usize)
        ensures
            count == self@.balls.len(),
            self@.valid(),
    {
        proof {
            use_type_invariant(self);
        }
        self.balls.len()
    }

    /// Elapsed time, in microseconds, that no sub-step has used yet.
    pub fn time_left(&self) -> (left: u64)
        ensures
            left == self@.time_left,
            left <= PHYSIC_STEP_LENGTH,
            self@.valid(),
    {
        proof {
            use_type_invariant(self);
        }
        self.time_left
    }

    /// The position and radius of every ball, in the order in which the
    /// balls appeared. The result is a copy: it does not change with the
    /// simulation.
    pub fn particles(&self) -> (snapshot: Vec<(Vec2, i64)>)
        ensures
            snapshot@.len() == self@.balls.len(),
            forall|k: int|
                0 <= k < snapshot@.len() ==> (#[trigger] snapshot@[k]).0@ == self@.balls[k].current
                    && snapshot@[k].1 == self@.balls[k].size,
            self@.valid(),
    {
        proof {
            use_type_invariant(self);
        }
        let mut snapshot: Vec<(Vec2, i64)> = Vec::new();
        let count = self.balls.len();
        let mut index: usize = 0;
        while index < count
            invariant
                index <= count,
                count == self.balls.len(),
                snapshot@.len() == index,
                forall|k: int|
                    0 <= k < index ==> (#[trigger] snapshot@[k]).0 == self.balls@[k].current_location
                        && snapshot@[k].1 == self.balls@[k].size,
            decreases count - index,
        {
            let ball: &Ball = &self.balls[index];
            snapshot.push((ball.current_location, ball.size));
            index += 1;
        }
        snapshot
    }

    /// Adds a ball of a random radius from `MIN_SIZE..MAX_SIZE`, at rest at
    /// the spawn point.
    pub fn spawn_ball(&mut self)
        ensures
            final(self)@.balls.len() == old(self)@.balls.len() + 1,
            final(self)@.balls.drop_last() == old(self)@.balls,
            MIN_SIZE <= final(self)@.balls.last().size < MAX_SIZE,
            final(self)@.balls.last() == BallState::spawned(final(self)@.balls.last().size),
            final(self)@.time_left == old(self)@.time_left,
            final(self)@.valid(),
    {
        let ball = Ball::new();
        self.place(ball);
    }

    /// Adds a ball of the given radius, at rest at the spawn point, and
    /// says whether it did: a radius that is not positive, or larger than
    /// the world, is turned down and leaves the simulation as it was.
    pub fn spawn_ball_with_size(&mut self, size: i64) -> (spawned: bool)
        ensures
            spawned == (0 < size <= COORD_LIMIT),
            spawned ==> final(self)@.balls == old(self)@.balls.push(
                BallState::spawned(size as int),
            ),
            !spawned ==> final(self)@.balls == old(self)@.balls,
            final(self)@.time_left == old(self)@.time_left,
            final(self)@.valid(),
    {
        if 0 < size && size <= COORD_LIMIT {
            let ball = Ball::with_size(size);
            self.place(ball);
            true
        } else {
            proof {
                use_type_invariant(&*self);
            }
            false
        }
    }

    /// Adds the ball as it is, wherever it lies and however it moves, and
    /// says whether it did: a ball that is not well formed is turned down
    /// and leaves the simulation as it was.
    pub fn spawn(&mut self, ball: Ball) -> (spawned: bool)
        ensures
            spawned == ball.wf(),
            spawned ==> final(self)@.balls == old(self)@.balls.push(ball@),
            !spawned ==> final(self)@.balls == old(self)@.balls,
            final(self)@.time_left == old(self)@.time_left,
            final(self)@.valid(),
    {
        if ball.is_wf() {
            self.place(ball);
            true
        } else {
            proof {
                use_type_invariant(&*self);
            }
            false
        }
    }

    /// Appends a ball.
    fn place(&mut self, ball: Ball)
        requires
            ball.wf(),
        ensures
            final(self)@.balls == old(self)@.balls.push(ball@),
            final(self)@.time_left == old(self)@.time_left,
            final(self)@.valid(),
    {
        proof {
            use_type_invariant(&*self);
        }
        let ghost before = self.balls@;
        let mut balls: Vec<Ball> = Vec::new();
        std::mem::swap(&mut balls, &mut self.balls);
        balls.push(ball);
        assert(states(balls@) =~= states(before).push(ball@));
        self.balls = balls;
    }

    /// Resolves the overlaps of the balls in one pass over all pairs.
    pub fn split_balls(&mut self)
        ensures
            final(self)@.balls == split_balls(old(self)@.balls),
            same_balls(old(self)@.balls, final(self)@.balls),
            final(self)@.time_left == old(self)@.time_left,
            final(self)@.valid(),
    {
        proof {
            use_type_invariant(&*self);
            lemma_resolve_rows_keep_balls(self@.balls, self@.balls.len() as int);
        }
        let mut balls: Vec<Ball> = Vec::new();
        std::mem::swap(&mut balls, &mut self.balls);
        resolve_overlaps(&mut balls);
        self.balls = balls;
    }

    /// Takes the balls through one sub-step of `delta` microseconds.
    pub fn physics_tick(&mut self, delta: u32)
        ensures
            final(self)@.balls == physics_tick(old(self)@.balls, delta as int),
            same_balls(old(self)@.balls, final(self)@.balls),
            final(self)@.time_left == old(self)@.time_left,
            final(self)@.valid(),
    {
        proof {
            use_type_invariant(&*self);
            lemma_physics_tick_keeps_balls(self@.balls, delta as int);
        }
        let mut balls: Vec<Ball> = Vec::new();
        std::mem::swap(&mut balls, &mut self.balls);
        step(&mut balls, delta);
        self.balls = balls;
    }

    /// Lets `elapsed` microseconds pass: takes a sub-step of the fixed
    /// length for each step length that has gathered while more than one
    /// step length is left, and keeps the rest for the next call. The work
    /// grows with `elapsed`; nothing caps the number of sub-steps of a call.
    pub fn advance(&mut self, elapsed: u64)
        ensures
            final(self)@ == old(self)@.advance(elapsed as int),
            same_balls(old(self)@.balls, final(self)@.balls),
            final(self)@.valid(),
    {
        proof {
            use_type_invariant(&*self);
            lemma_ticks_keep_balls(self@.balls, steps_due(self.time_left + elapsed));
        }
        let ghost start = self@;
        let ghost total = self.time_left as int + elapsed as int;
        let mut balls: Vec<Ball> = Vec::new();
        std::mem::swap(&mut balls, &mut self.balls);
        let mut left: u128 = self.time_left as u128 + elapsed as u128;
        let ghost mut taken: nat = 0;
        while left > PHYSIC_STEP_LENGTH as u128
            invariant
                all_valid(states(balls@)),
                states(balls@) == ticks(start.balls, taken),
                left + taken * PHYSIC_STEP_LENGTH == total,
                taken > 0 ==> left > 0,
            decreases left,
        {
            step(&mut balls, PHYSIC_STEP_LENGTH);
            left = left - PHYSIC_STEP_LENGTH as u128;
            proof {
                taken = taken + 1;
            }
        }
        proof {
            lemma_steps_due(total, taken, left as int);
        }
        self.balls = balls;
        self.time_left = left as u64;
    }

    /// The driver as the event loop of a window calls it, once for every
    /// frame with the time that the frame took: it is `advance`.
    pub fn update(&mut self, elapsed: u64)
        ensures
            final(self)@ == old(self)@.advance(elapsed as int),
            same_balls(old(self)@.balls, final(self)@.balls),
            final(self)@.valid(),
    {
        self.advance(elapsed);
    }
}

/// The count of sub-steps that the driver's loop takes is `steps_due`.
proof fn lemma_steps_due(total: int, taken: nat, left: int)
    requires
        0 <= left <= PHYSIC_STEP_LENGTH,
        left + taken * PHYSIC_STEP_LENGTH == total,
        taken > 0 ==> left > 0,
    ensures
        steps_due(total) == taken,
{
    if taken > 0 {
        let step = PHYSIC_STEP_LENGTH as int;
        assert(taken * step >= step) by (nonlinear_arith)
            requires
                taken >= 1,
                step > 0,
        ;
        vstd::arithmetic::div_mod::lemma_fundamental_div_mod_converse(
            total - 1,
            step,
            taken as int,
            left - 1,
        );
    }
}

} // verus!
