use crate::vector::{fits_i32, EntityRef, Vector2, Vector3};
use std::collections::{HashMap, HashSet};
use vstd::prelude::*;
use vstd::std_specs::iter::IteratorSpec;

verus! {

broadcast use vstd::std_specs::hash::group_hash_axioms;

/// How long one simulation step lasts, in milliseconds.
pub const PHYSICS_TICK_TIME: u128 = 33;

/// The time that has passed since the last physics tick, in milliseconds.
#[derive(Clone, Copy, Debug)]
pub struct PhysicsTimer(pub u128);

impl Default for PhysicsTimer {
    /// A clock on which no time has passed.
    fn default() -> (timer: Self)
        ensures
            timer.0 == 0,
    {
        PhysicsTimer(0)
    }
}

/// The event that one simulation step is due.
#[derive(Clone, Copy, Debug, PartialEq, Eq, Structural)]
pub struct PhysicsTick;

/// The position of a moving entity, held twice: where it was at the last
/// tick, and where it will be at the next.
#[derive(Clone, Copy, Debug, PartialEq, Eq, Structural)]
pub struct PhysicsPosition {
    pub start_frame: Vector2,
    pub end_frame: Vector2,
}

/// The speed of an entity, in world units per tick.
#[derive(Clone, Copy, Debug, PartialEq, Eq, Structural)]
pub struct Velocity(pub Vector3);

/// Marks an entity whose velocity gravity acts on.
#[derive(Clone, Copy, Debug)]
pub struct ApplyGravity;

/// The coordinate that lies the fraction `accumulated_ms /
/// PHYSICS_TICK_TIME` of the way from `start` to `end`. The distance covered
/// is rounded down to a whole unit, so the result errs towards `start`.
pub open spec fn lerp(start: int, end: int, accumulated_ms: int) -> int {
    if end >= start {
        start + ((end - start) * accumulated_ms) / (PHYSICS_TICK_TIME as int)
    } else {
        start - ((start - end) * accumulated_ms) / (PHYSICS_TICK_TIME as int)
    }
}

/// How far `a` and `b` are apart.
pub open spec fn distance(a: int, b: int) -> int {
    if a >= b {
        a - b
    } else {
        b - a
    }
}

/// Between two ticks the interpolated coordinate starts at `start`, stays
/// between `start` and `end`, and reaches `end` when the tick is due. What is
/// left of the way to `end` is the share of the whole way that matches the
/// time left to the tick, to within one unit.
pub proof fn lemma_lerp_bounds(start: int, end: int, accumulated_ms: int)
    requires
        0 <= accumulated_ms <= PHYSICS_TICK_TIME,
    ensures
        lerp(start, end, 0) == start,
        lerp(start, end, PHYSICS_TICK_TIME as int) == end,
        end >= start ==> start <= lerp(start, end, accumulated_ms) <= end,
        end <= start ==> end <= lerp(start, end, accumulated_ms) <= start,
        distance(start, end) * (PHYSICS_TICK_TIME - accumulated_ms) <= PHYSICS_TICK_TIME
            * distance(lerp(start, end, accumulated_ms), end),
        PHYSICS_TICK_TIME * distance(lerp(start, end, accumulated_ms), end) < distance(start, end)
            * (PHYSICS_TICK_TIME - accumulated_ms) + PHYSICS_TICK_TIME,
{
    let d = distance(start, end);
    let p = d * accumulated_ms;
    assert(d * 0 == 0);
    assert(0 <= p <= d * 33) by (nonlinear_arith)
        requires
            p == d * accumulated_ms,
            d >= 0,
            0 <= accumulated_ms <= 33,
    ;
    assert(d * (33 - accumulated_ms) == d * 33 - p) by (nonlinear_arith)
        requires
            p == d * accumulated_ms,
    ;
    assert((d * 33) / 33 == d);
    assert(p == 33 * (p / 33) + p % 33);
    if end >= start {
        assert((end - start) * accumulated_ms == p);
    } else {
        assert((start - end) * accumulated_ms == p);
    }
}

/// As time passes between two ticks, the interpolated coordinate never moves
/// back towards `start`.
pub proof fn lemma_lerp_monotonic(start: int, end: int, earlier_ms: int, later_ms: int)
    requires
        0 <= earlier_ms <= later_ms <= PHYSICS_TICK_TIME,
    ensures
        end >= start ==> lerp(start, end, earlier_ms) <= lerp(start, end, later_ms),
        end <= start ==> lerp(start, end, earlier_ms) >= lerp(start, end, later_ms),
{
    if end >= start {
        let p = (end - start) * earlier_ms;
        let q = (end - start) * later_ms;
        assert(0 <= p <= q) by (nonlinear_arith)
            requires
                p == (end - start) * earlier_ms,
                q == (end - start) * later_ms,
                end - start >= 0,
                0 <= earlier_ms <= later_ms,
        ;
        assert(p / 33 <= q / 33);
    }
    if end <= start {
        let p = (start - end) * earlier_ms;
        let q = (start - end) * later_ms;
        assert(0 <= p <= q) by (nonlinear_arith)
            requires
                p == (start - end) * earlier_ms,
                q == (start - end) * later_ms,
                start - end >= 0,
                0 <= earlier_ms <= later_ms,
        ;
        assert(p / 33 <= q / 33);
        if end == start {
            assert((end - start) * earlier_ms == 0) by (nonlinear_arith)
                requires
                    end - start == 0,
            ;
            assert((end - start) * later_ms == 0) by (nonlinear_arith)
                requires
                    end - start == 0,
            ;
        }
    }
}

impl PhysicsPosition {
    /// A position at rest at `start`.
    pub fn new(start: Vector2) -> (position: Self)
        ensures
            position.start_frame == start,
            position.end_frame == start,
    {
        PhysicsPosition { start_frame: start, end_frame: start }
    }

    /// The position to show `accumulated_ms` milliseconds after the last
    /// tick: on the straight line from `start_frame` to `end_frame`.
    pub open spec fn interpolated(self, accumulated_ms: int) -> Vector2 {
        Vector2 {
            x: lerp(self.start_frame.x as int, self.end_frame.x as int, accumulated_ms) as i32,
            y: lerp(self.start_frame.y as int, self.end_frame.y as int, accumulated_ms) as i32,
        }
    }

    /// Computes the position to show between two ticks.
    pub fn interpolate(&self, accumulated_ms: u128) -> (shown: Vector2)
        requires
            accumulated_ms <= PHYSICS_TICK_TIME,
        ensures
            shown == self.interpolated(accumulated_ms as int),
            shown.x == lerp(self.start_frame.x as int, self.end_frame.x as int, accumulated_ms as int),
            shown.y == lerp(self.start_frame.y as int, self.end_frame.y as int, accumulated_ms as int),
    {
        Vector2 {
            x: interpolate_axis(self.start_frame.x, self.end_frame.x, accumulated_ms),
            y: interpolate_axis(self.start_frame.y, self.end_frame.y, accumulated_ms),
        }
    }

    /// The position once the tick is done: what was the target is the new
    /// baseline.
    pub open spec fn committed(self) -> PhysicsPosition {
        PhysicsPosition { start_frame: self.end_frame, end_frame: self.end_frame }
    }
}

/// Interpolates one coordinate.
fn interpolate_axis(start: i32, end: i32, accumulated_ms: u128) -> (shown: i32)
    requires
        accumulated_ms <= PHYSICS_TICK_TIME,
    ensures
        shown == lerp(start as int, end as int, accumulated_ms as int),
{
    proof {
        lemma_lerp_bounds(start as int, end as int, accumulated_ms as int);
    }
    let progress: i64 = accumulated_ms as i64;
    if end >= start {
        let distance: i64 = end as i64 - start as i64;
        assert(0 <= distance * progress <= distance * 33) by (nonlinear_arith)
            requires
                distance >= 0,
                0 <= progress <= 33,
        ;
        let covered: i64 = (distance * progress) / 33;
        (start as i64 + covered) as i32
    } else {
        let distance: i64 = start as i64 - end as i64;
        assert(0 <= distance * progress <= distance * 33) by (nonlinear_arith)
            requires
                distance >= 0,
                0 <= progress <= 33,
        ;
        let covered: i64 = (distance * progress) / 33;
        (start as i64 - covered) as i32
    }
}

/// Whether a tick is due once `elapsed_ms` more milliseconds have passed.
pub open spec fn tick_due(accumulated_ms: int, elapsed_ms: int) -> bool {
    accumulated_ms + elapsed_ms >= PHYSICS_TICK_TIME
}

/// Advances the clock by the time of one frame and moves every entity to the
/// position to show in that frame.
///
/// When the accumulated time reaches the tick duration, the clock starts
/// over, a tick is returned, and every position is committed: the entity is
/// shown at `end_frame`, which becomes the new `start_frame`. At most one tick
/// is returned however much time has passed. Otherwise the positions stay as
/// they are and every entity is shown at its interpolated position.
///
/// The second part of the result is the position to show for each entity, in
/// the order of `physics_position`.
pub fn physics_clock(
    clock: &mut PhysicsTimer,
    ms_since_last_call: u128,
    physics_position: &mut Vec<PhysicsPosition>,
) -> (outcome: (Option<PhysicsTick>, Vec<Vector2>))
    ensures
        outcome.0 is Some == tick_due(old(clock).0 as int, ms_since_last_call as int),
        final(clock).0 == if tick_due(old(clock).0 as int, ms_since_last_call as int) {
            0
        } else {
            old(clock).0 + ms_since_last_call
        },
        final(clock).0 < PHYSICS_TICK_TIME,
        final(physics_position)@.len() == old(physics_position)@.len(),
        outcome.1@.len() == old(physics_position)@.len(),
        forall|i: int|
            0 <= i < old(physics_position)@.len() ==> #[trigger] final(physics_position)@[i] == if tick_due(
                old(clock).0 as int,
                ms_since_last_call as int,
            ) {
                old(physics_position)@[i].committed()
            } else {
                old(physics_position)@[i]
            },
        forall|i: int|
            0 <= i < old(physics_position)@.len() ==> #[trigger] outcome.1@[i] == if tick_due(
                old(clock).0 as int,
                ms_since_last_call as int,
            ) {
                old(physics_position)@[i].end_frame
            } else {
                old(physics_position)@[i].interpolated(old(clock).0 + ms_since_last_call)
            },
{
    let mut shown: Vec<Vector2> = Vec::new();
    let count = physics_position.len();
    if clock.0 >= PHYSICS_TICK_TIME || ms_since_last_call >= PHYSICS_TICK_TIME - clock.0 {
        clock.0 = 0;
        let mut i: usize = 0;
        while i < count
            invariant
                i <= count,
                count == physics_position@.len(),
                count == old(physics_position)@.len(),
                shown@.len() == i,
                forall|j: int|
                    0 <= j < i ==> #[trigger] physics_position@[j] == old(
                        physics_position,
                    )@[j].committed(),
                forall|j: int|
                    i <= j < count ==> #[trigger] physics_position@[j] == old(physics_position)@[j],
                forall|j: int|
                    0 <= j < i ==> #[trigger] shown@[j] == old(physics_position)@[j].end_frame,
            decreases count - i,
        {
            let pos = physics_position[i];
            shown.push(pos.end_frame);
            physics_position.set(
                i,
                PhysicsPosition { start_frame: pos.end_frame, end_frame: pos.end_frame },
            );
            i += 1;
        }
        (Some(PhysicsTick), shown)
    } else {
        clock.0 = clock.0 + ms_since_last_call;
        let mut i: usize = 0;
        while i < count
            invariant
                i <= count,
                count == physics_position@.len(),
                physics_position@ == old(physics_position)@,
                clock.0 == old(clock).0 + ms_since_last_call,
                clock.0 < PHYSICS_TICK_TIME,
                shown@.len() == i,
                forall|j: int|
                    0 <= j < i ==> #[trigger] shown@[j] == old(physics_position)@[j].interpolated(
                        clock.0 as int,
                    ),
            decreases count - i,
        {
            shown.push(physics_position[i].interpolate(clock.0));
            i += 1;
        }
        (None, shown)
    }
}

impl Default for Velocity {
    /// At rest.
    fn default() -> (velocity: Self)
        ensures
            velocity.0 == Vector3::zero(),
    {
        Velocity(Vector3::zero())
    }
}

impl Velocity {
    /// The velocity with the components `x`, `y` and `z`.
    pub fn new(x: i32, y: i32, z: i32) -> (velocity: Self)
        ensures
            velocity.0 == (Vector3 { x, y, z }),
    {
        Velocity(Vector3 { x, y, z })
    }
}

/// A moving entity can take `ticks` steps at its velocity without leaving
/// the range of its coordinates.
pub open spec fn can_move(body: (Velocity, PhysicsPosition), ticks: int) -> bool {
    &&& fits_i32(body.1.end_frame.x + ticks * body.0.0.x)
    &&& fits_i32(body.1.end_frame.y + ticks * body.0.0.y)
}

/// The body after `ticks` steps: its target position has moved by its
/// velocity once for each step.
pub open spec fn moved(body: (Velocity, PhysicsPosition), ticks: int) -> (
    Velocity,
    PhysicsPosition,
) {
    (
        body.0,
        PhysicsPosition {
            start_frame: body.1.start_frame,
            end_frame: Vector2 {
                x: (body.1.end_frame.x + ticks * body.0.0.x) as i32,
                y: (body.1.end_frame.y + ticks * body.0.0.y) as i32,
            },
        },
    )
}

/// A coordinate that fits after no step and after `ticks` steps fits after
/// every number of steps in between.
proof fn lemma_steps_fit(position: int, speed: int, step: int, ticks: int)
    requires
        0 <= step <= ticks,
        fits_i32(position),
        fits_i32(position + ticks * speed),
    ensures
        fits_i32(position + step * speed),
{
    if speed >= 0 {
        assert(0 <= step * speed <= ticks * speed) by (nonlinear_arith)
            requires
                0 <= step <= ticks,
                speed >= 0,
        ;
    } else {
        assert(ticks * speed <= step * speed <= 0) by (nonlinear_arith)
            requires
                0 <= step <= ticks,
                speed < 0,
        ;
    }
}

/// Moves the target position of every body by its velocity, once for each
/// tick in `tick`.
pub fn apply_velocity(tick: &Vec<PhysicsTick>, movement: &mut Vec<(Velocity, PhysicsPosition)>)
    requires
        forall|i: int|
            0 <= i < old(movement)@.len() ==> can_move(
                #[trigger] old(movement)@[i],
                tick@.len() as int,
            ),
    ensures
        final(movement)@.len() == old(movement)@.len(),
        forall|i: int|
            0 <= i < old(movement)@.len() ==> #[trigger] final(movement)@[i] == moved(
                old(movement)@[i],
                tick@.len() as int,
            ),
{
    let count = movement.len();
    let mut t: usize = 0;
    assert forall|i: int| 0 <= i < count implies #[trigger] movement@[i] == moved(
        old(movement)@[i],
        0,
    ) by {
        assert(0 * old(movement)@[i].0.0.x == 0);
        assert(0 * old(movement)@[i].0.0.y == 0);
    }
    while t < tick.len()
        invariant
            t <= tick@.len(),
            count == movement@.len(),
            count == old(movement)@.len(),
            forall|i: int|
                0 <= i < count ==> can_move(#[trigger] old(movement)@[i], tick@.len() as int),
            forall|i: int|
                0 <= i < count ==> #[trigger] movement@[i] == moved(old(movement)@[i], t as int),
        decreases tick@.len() - t,
    {
        let mut i: usize = 0;
        while i < count
            invariant
                i <= count,
                t < tick@.len(),
                count == movement@.len(),
                count == old(movement)@.len(),
                forall|j: int|
                    0 <= j < count ==> can_move(
                        #[trigger] old(movement)@[j],
                        tick@.len() as int,
                    ),
                forall|j: int|
                    0 <= j < i ==> #[trigger] movement@[j] == moved(
                        old(movement)@[j],
                        t as int + 1,
                    ),
                forall|j: int|
                    i <= j < count ==> #[trigger] movement@[j] == moved(
                        old(movement)@[j],
                        t as int,
                    ),
            decreases count - i,
        {
            let (velocity, position) = movement[i];
            proof {
                let body = old(movement)@[i as int];
                let end = body.1.end_frame;
                let speed = body.0.0;
                assert(can_move(body, tick@.len() as int));
                assert(0 * speed.x == 0 && 0 * speed.y == 0);
                lemma_steps_fit(end.x as int, speed.x as int, t as int, tick@.len() as int);
                lemma_steps_fit(end.y as int, speed.y as int, t as int, tick@.len() as int);
                lemma_steps_fit(end.x as int, speed.x as int, t as int + 1, tick@.len() as int);
                lemma_steps_fit(end.y as int, speed.y as int, t as int + 1, tick@.len() as int);
                assert((t + 1) * speed.x == t * speed.x + speed.x) by (nonlinear_arith);
                assert((t + 1) * speed.y == t * speed.y + speed.y) by (nonlinear_arith);
            }
            let end_frame = position.end_frame.offset(velocity.0.truncate());
            movement.set(
                i,
                (velocity, PhysicsPosition { start_frame: position.start_frame, end_frame }),
            );
            i += 1;
        }
        t += 1;
    }
}

/// A velocity can be pulled down by `gravity` for `ticks` steps without
/// leaving the range of its coordinates.
pub open spec fn can_fall(velocity: Velocity, gravity: int, ticks: int) -> bool {
    fits_i32(velocity.0.y - ticks * gravity)
}

/// The velocity after gravity has acted on it for `ticks` steps.
pub open spec fn fallen(velocity: Velocity, gravity: int, ticks: int) -> Velocity {
    Velocity(
        Vector3 {
            x: velocity.0.x,
            y: (velocity.0.y - ticks * gravity) as i32,
            z: velocity.0.z,
        },
    )
}

/// Lowers the vertical speed of every velocity by `gravity`, once for each
/// tick in `tick`. The caller passes the velocities of the entities that are
/// marked with `ApplyGravity`.
pub fn apply_gravity(tick: &Vec<PhysicsTick>, gravity: i32, velocities: &mut Vec<Velocity>)
    requires
        forall|i: int|
            0 <= i < old(velocities)@.len() ==> can_fall(
                #[trigger] old(velocities)@[i],
                gravity as int,
                tick@.len() as int,
            ),
    ensures
        final(velocities)@.len() == old(velocities)@.len(),
        forall|i: int|
            0 <= i < old(velocities)@.len() ==> #[trigger] final(velocities)@[i] == fallen(
                old(velocities)@[i],
                gravity as int,
                tick@.len() as int,
            ),
{
    let count = velocities.len();
    let mut t: usize = 0;
    assert forall|i: int| 0 <= i < count implies #[trigger] velocities@[i] == fallen(
        old(velocities)@[i],
        gravity as int,
        0,
    ) by {
        assert(0 * gravity == 0);
    }
    while t < tick.len()
        invariant
            t <= tick@.len(),
            count == velocities@.len(),
            count == old(velocities)@.len(),
            forall|i: int|
                0 <= i < count ==> can_fall(
                    #[trigger] old(velocities)@[i],
                    gravity as int,
                    tick@.len() as int,
                ),
            forall|i: int|
                0 <= i < count ==> #[trigger] velocities@[i] == fallen(
                    old(velocities)@[i],
                    gravity as int,
                    t as int,
                ),
        decreases tick@.len() - t,
    {
        let mut i: usize = 0;
        while i < count
            invariant
                i <= count,
                t < tick@.len(),
                count == velocities@.len(),
                count == old(velocities)@.len(),
                forall|j: int|
                    0 <= j < count ==> can_fall(
                        #[trigger] old(velocities)@[j],
                        gravity as int,
                        tick@.len() as int,
                    ),
                forall|j: int|
                    0 <= j < i ==> #[trigger] velocities@[j] == fallen(
                        old(velocities)@[j],
                        gravity as int,
                        t as int + 1,
                    ),
                forall|j: int|
                    i <= j < count ==> #[trigger] velocities@[j] == fallen(
                        old(velocities)@[j],
                        gravity as int,
                        t as int,
                    ),
            decreases count - i,
        {
            let velocity = velocities[i];
            proof {
                let before = old(velocities)@[i as int];
                assert(can_fall(before, gravity as int, tick@.len() as int));
                assert(0 * (-gravity) == 0);
                assert(tick@.len() * (-gravity) == -(tick@.len() * gravity)) by (nonlinear_arith);
                assert(t * (-gravity) == -(t * gravity)) by (nonlinear_arith);
                assert((t + 1) * (-gravity) == -((t + 1) * gravity)) by (nonlinear_arith);
                lemma_steps_fit(before.0.y as int, -gravity, t as int, tick@.len() as int);
                lemma_steps_fit(before.0.y as int, -gravity, t as int + 1, tick@.len() as int);
                assert((t + 1) * gravity == t * gravity + gravity) by (nonlinear_arith);
            }
            velocities.set(
                i,
                Velocity(Vector3 { x: velocity.0.x, y: velocity.0.y - gravity, z: velocity.0.z }),
            );
            i += 1;
        }
        t += 1;
    }
}

/// A one-off contribution to the velocity of `target`. A relative impulse is
/// added to the velocity; an absolute one replaces it. Of the impulses that
/// share a `source`, only the latest counts.
#[derive(Clone, Copy, Debug, PartialEq, Eq, Structural)]
pub struct Impulse {
    pub target: EntityRef,
    pub amount: Vector3,
    pub absolute: bool,
    pub source: i32,
}

/// The index of the last of the first `n` impulses that has `source`, or -1
/// if none of them has it.
pub open spec fn last_index(impulses: Seq<Impulse>, source: i32, n: int) -> int
    decreases n,
{
    if n <= 0 {
        -1
    } else if impulses[n - 1].source == source {
        n - 1
    } else {
        last_index(impulses, source, n - 1)
    }
}

/// `last_index` finds an impulse of the source after which no other of the
/// same source follows, and finds none only if there is none.
pub proof fn lemma_last_index(impulses: Seq<Impulse>, source: i32, n: int)
    requires
        0 <= n <= impulses.len(),
    ensures
        -1 <= last_index(impulses, source, n) < n,
        last_index(impulses, source, n) >= 0 ==> impulses[last_index(
            impulses,
            source,
            n,
        )].source == source,
        forall|j: int|
            last_index(impulses, source, n) < j < n ==> (#[trigger] impulses[j]).source != source,
    decreases n,
{
    if n > 0 {
        lemma_last_index(impulses, source, n - 1);
    }
}

/// Impulse `i` is the last one of its source.
pub open spec fn is_last_of_source(impulses: Seq<Impulse>, i: int) -> bool {
    &&& 0 <= i < impulses.len()
    &&& forall|j: int| i < j < impulses.len() ==> (#[trigger] impulses[j]).source != impulses[i].source
}

/// `impulse` is the last impulse of its source in `impulses`.
pub open spec fn is_kept(impulses: Seq<Impulse>, impulse: Impulse) -> bool {
    exists|i: int| is_last_of_source(impulses, i) && impulses[i] == impulse
}

/// `order` holds, in some order, the last impulse of each source that occurs
/// in `impulses`, and nothing else.
pub open spec fn is_deduped(order: Seq<Impulse>, impulses: Seq<Impulse>) -> bool {
    &&& forall|k: int| 0 <= k < order.len() ==> is_kept(impulses, #[trigger] order[k])
    &&& forall|i: int|
        is_last_of_source(impulses, i) ==> order.contains(#[trigger] impulses[i])
    &&& forall|k: int, l: int|
        0 <= k < l < order.len() ==> (#[trigger] order[k]).source != (#[trigger] order[l]).source
}

/// The impulses that count after the first `n` have been read: for each
/// source the last one read.
pub open spec fn latest_by_source(impulses: Seq<Impulse>, n: int) -> Map<i32, Impulse> {
    Map::new(
        |source: i32| last_index(impulses, source, n) >= 0,
        |source: i32| impulses[last_index(impulses, source, n)],
    )
}

/// Keeps of the impulses that share a source only the one that comes last.
/// The order of what is kept is not fixed.
pub fn dedupe_by_source(impulses: &Vec<Impulse>) -> (order: Vec<Impulse>)
    ensures
        is_deduped(order@, impulses@),
{
    let mut dedupe: HashMap<i32, Impulse> = HashMap::new();
    assert(dedupe@ =~= latest_by_source(impulses@, 0));
    let mut n: usize = 0;
    while n < impulses.len()
        invariant
            n <= impulses@.len(),
            dedupe@ == latest_by_source(impulses@, n as int),
        decreases impulses@.len() - n,
    {
        let impulse = impulses[n];
        dedupe.insert(impulse.source, impulse);
        assert(dedupe@ =~= latest_by_source(impulses@, n as int + 1));
        n += 1;
    }
    let ghost kept = latest_by_source(impulses@, impulses@.len() as int);
    let mut order: Vec<Impulse> = Vec::new();
    let entries = dedupe.iter();
    let ghost pairs = entries.remaining();
    assert(pairs.no_duplicates());
    for entry in it: entries
        invariant
            pairs == it.seq(),
            order@.len() == it.index(),
            forall|k: int| 0 <= k < order@.len() ==> #[trigger] order@[k] == *pairs[k].1,
    {
        let (_, impulse) = entry;
        order.push(*impulse);
    }
    proof {
        assert(order@.len() == pairs.len());
        assert forall|k: int| 0 <= k < order@.len() implies is_kept(
            impulses@,
            #[trigger] order@[k],
        ) by {
            let source = *pairs[k].0;
            assert(kept.contains_key(source) && kept[source] == *pairs[k].1);
            lemma_last_index(impulses@, source, impulses@.len() as int);
            let i = last_index(impulses@, source, impulses@.len() as int);
            assert(is_last_of_source(impulses@, i));
        }
        assert forall|i: int| is_last_of_source(impulses@, i) implies order@.contains(
            #[trigger] impulses@[i],
        ) by {
            let source = impulses@[i].source;
            lemma_last_index(impulses@, source, impulses@.len() as int);
            assert(last_index(impulses@, source, impulses@.len() as int) == i);
            assert(kept.contains_key(source));
            assert(pairs.contains((&source, &kept[source])));
            let k = choose|k: int| 0 <= k < pairs.len() && pairs[k] == (&source, &kept[source]);
            assert(order@[k] == impulses@[i]);
        }
        assert forall|k: int, l: int| 0 <= k < l < order@.len() implies (#[trigger] order@[k]).source
            != (#[trigger] order@[l]).source by {
            let sk = *pairs[k].0;
            let sl = *pairs[l].0;
            assert(kept.contains_key(sk) && kept[sk] == *pairs[k].1);
            assert(kept.contains_key(sl) && kept[sl] == *pairs[l].1);
            lemma_last_index(impulses@, sk, impulses@.len() as int);
            lemma_last_index(impulses@, sl, impulses@.len() as int);
            if order@[k].source == order@[l].source {
                assert(sk == sl);
                assert(pairs[k] == pairs[l]);
            }
        }
    }
    order
}

/// The impulse acts on a velocity: its target has one, and no absolute
/// impulse has set that velocity earlier in the pass.
pub open spec fn impulse_applies(
    state: (Map<u64, Velocity>, Set<u64>),
    impulse: Impulse,
) -> bool {
    state.0.contains_key(impulse.target.bits) && !state.1.contains(impulse.target.bits)
}

/// The velocities, and the targets set absolutely, after one more impulse.
/// An impulse that does not apply changes nothing. An absolute impulse
/// replaces the velocity of its target and closes the target for the rest of
/// the pass. A relative impulse is added to the velocity.
pub open spec fn after_impulse(
    state: (Map<u64, Velocity>, Set<u64>),
    impulse: Impulse,
) -> (Map<u64, Velocity>, Set<u64>) {
    let target = impulse.target.bits;
    if !impulse_applies(state, impulse) {
        state
    } else if impulse.absolute {
        (state.0.insert(target, Velocity(impulse.amount)), state.1.insert(target))
    } else {
        (state.0.insert(target, Velocity(state.0[target].0.plus(impulse.amount))), state.1)
    }
}

/// The velocities, and the targets set absolutely, after the first `n`
/// impulses of `order` have been processed in order.
pub open spec fn after_impulses(
    velocities: Map<u64, Velocity>,
    order: Seq<Impulse>,
    n: int,
) -> (Map<u64, Velocity>, Set<u64>)
    decreases n,
{
    if n <= 0 {
        (velocities, Set::empty())
    } else {
        after_impulse(after_impulses(velocities, order, n - 1), order[n - 1])
    }
}

/// Every relative impulse of `order` that applies leaves a velocity that an
/// `i32` can hold in each component.
pub open spec fn impulses_fit(velocities: Map<u64, Velocity>, order: Seq<Impulse>) -> bool {
    forall|k: int|
        #![trigger order[k]]
        0 <= k < order.len() && impulse_applies(after_impulses(velocities, order, k), order[k])
            && !order[k].absolute ==> after_impulses(
            velocities,
            order,
            k,
        ).0[order[k].target.bits].0.can_add(order[k].amount)
}

/// Where exactly one absolute impulse is aimed at a target that has a
/// velocity, the target ends the pass with the amount of that impulse as its
/// velocity, wherever in the order the impulse stands and whatever relative
/// impulses surround it.
pub proof fn lemma_single_absolute_wins(
    velocities: Map<u64, Velocity>,
    order: Seq<Impulse>,
    at: int,
    n: int,
)
    requires
        0 <= at < order.len(),
        0 <= n <= order.len(),
        order[at].absolute,
        velocities.contains_key(order[at].target.bits),
        forall|k: int|
            0 <= k < order.len() && k != at && (#[trigger] order[k]).target == order[at].target
                ==> !order[k].absolute,
    ensures
        after_impulses(velocities, order, n).0.contains_key(order[at].target.bits),
        n <= at ==> !after_impulses(velocities, order, n).1.contains(order[at].target.bits),
        n > at ==> after_impulses(velocities, order, n).1.contains(order[at].target.bits),
        n > at ==> after_impulses(velocities, order, n).0[order[at].target.bits] == Velocity(
            order[at].amount,
        ),
    decreases n,
{
    if n > 0 {
        lemma_single_absolute_wins(velocities, order, at, n - 1);
        let before = after_impulses(velocities, order, n - 1);
        let impulse = order[n - 1];
        if n - 1 != at && impulse.target.bits == order[at].target.bits {
            assert(impulse.target == order[at].target);
        }
    }
}

/// Every component of `v` is at most `limit` away from zero.
pub open spec fn within(v: Vector3, limit: int) -> bool {
    &&& -limit <= v.x <= limit
    &&& -limit <= v.y <= limit
    &&& -limit <= v.z <= limit
}

/// What is kept of a pass is no longer than the pass.
pub proof fn lemma_deduped_len(order: Seq<Impulse>, impulses: Seq<Impulse>)
    requires
        is_deduped(order, impulses),
    ensures
        order.len() <= impulses.len(),
{
    let kept = order.map_values(|i: Impulse| i.source);
    let read = impulses.map_values(|i: Impulse| i.source);
    assert(kept.no_duplicates()) by {
        assert forall|k: int, l: int| 0 <= k < kept.len() && 0 <= l < kept.len() && k != l implies kept[k]
            != kept[l] by {
            if k < l {
                assert(order[k].source != order[l].source);
            } else {
                assert(order[l].source != order[k].source);
            }
        }
    }
    kept.unique_seq_to_set();
    read.lemma_cardinality_of_set();
    assert(kept.to_set().subset_of(read.to_set())) by {
        assert forall|source: i32| kept.to_set().contains(source) implies read.to_set().contains(
            source,
        ) by {
            let k = choose|k: int| 0 <= k < kept.len() && kept[k] == source;
            assert(is_kept(impulses, order[k]));
            let i = choose|i: int| is_last_of_source(impulses, i) && impulses[i] == order[k];
            assert(read[i] == source);
        }
    }
    vstd::seq_lib::seq_to_set_is_finite(read);
    vstd::set_lib::lemma_len_subset(kept.to_set(), read.to_set());
}

/// While every velocity and every impulse is within `limit`, the velocities
/// after `n` impulses are within `n + 1` times `limit`.
proof fn lemma_bounded_after(
    velocities: Map<u64, Velocity>,
    order: Seq<Impulse>,
    limit: int,
    n: int,
)
    requires
        0 <= n <= order.len(),
        limit >= 0,
        (order.len() + 1) * limit <= i32::MAX,
        forall|t: u64| velocities.contains_key(t) ==> within(#[trigger] velocities[t].0, limit),
        forall|k: int| 0 <= k < order.len() ==> within((#[trigger] order[k]).amount, limit),
    ensures
        forall|t: u64|
            after_impulses(velocities, order, n).0.contains_key(t) ==> within(
                #[trigger] after_impulses(velocities, order, n).0[t].0,
                (n + 1) * limit,
            ),
    decreases n,
{
    assert((n + 1) * limit <= (order.len() + 1) * limit) by (nonlinear_arith)
        requires
            n <= order.len(),
            limit >= 0,
    ;
    assert((n + 1) * limit == n * limit + limit) by (nonlinear_arith);
    assert(n * limit >= 0) by (nonlinear_arith)
        requires
            n >= 0,
            limit >= 0,
    ;
    if n > 0 {
        lemma_bounded_after(velocities, order, limit, n - 1);
        let before = after_impulses(velocities, order, n - 1);
        let impulse = order[n - 1];
        assert(within(impulse.amount, limit));
        assert forall|t: u64|
            after_impulses(velocities, order, n).0.contains_key(t) implies within(
            #[trigger] after_impulses(velocities, order, n).0[t].0,
            (n + 1) * limit,
        ) by {
            if before.0.contains_key(t) {
                assert(within(before.0[t].0, n * limit));
            }
        }
    }
}

/// A pass fits whatever order it is applied in if every velocity and every
/// impulse is within `limit` and the limit leaves room for one addition per
/// impulse.
pub proof fn lemma_small_impulses_fit(
    velocities: Map<u64, Velocity>,
    impulses: Seq<Impulse>,
    limit: int,
)
    requires
        limit >= 0,
        (impulses.len() + 1) * limit <= i32::MAX,
        forall|t: u64| velocities.contains_key(t) ==> within(#[trigger] velocities[t].0, limit),
        forall|i: int| 0 <= i < impulses.len() ==> within((#[trigger] impulses[i]).amount, limit),
    ensures
        forall|order: Seq<Impulse>|
            #[trigger] is_deduped(order, impulses) ==> impulses_fit(velocities, order),
{
    assert forall|order: Seq<Impulse>| #[trigger] is_deduped(order, impulses) implies impulses_fit(
        velocities,
        order,
    ) by {
        lemma_deduped_len(order, impulses);
        assert((order.len() + 1) * limit <= (impulses.len() + 1) * limit) by (nonlinear_arith)
            requires
                order.len() <= impulses.len(),
                limit >= 0,
        ;
        assert forall|k: int| 0 <= k < order.len() implies within(
            (#[trigger] order[k]).amount,
            limit,
        ) by {
            assert(is_kept(impulses, order[k]));
            let i = choose|i: int| is_last_of_source(impulses, i) && impulses[i] == order[k];
            assert(within(impulses[i].amount, limit));
        }
        assert forall|k: int|
            #![trigger order[k]]
            0 <= k < order.len() && impulse_applies(after_impulses(velocities, order, k), order[k])
                && !order[k].absolute implies after_impulses(
            velocities,
            order,
            k,
        ).0[order[k].target.bits].0.can_add(order[k].amount) by {
            lemma_bounded_after(velocities, order, limit, k);
            let target = order[k].target.bits;
            assert(within(after_impulses(velocities, order, k).0[target].0, (k + 1) * limit));
            assert((k + 2) * limit <= (order.len() + 1) * limit) by (nonlinear_arith)
                requires
                    k + 1 <= order.len(),
                    limit >= 0,
            ;
            assert((k + 2) * limit == (k + 1) * limit + limit) by (nonlinear_arith);
        }
    }
}

/// Applies the impulses of `order`, one after the other, to the velocities
/// of their targets. An impulse whose target has no velocity is skipped.
pub fn apply_impulses(order: &Vec<Impulse>, velocities: &mut HashMap<u64, Velocity>)
    requires
        impulses_fit(old(velocities)@, order@),
    ensures
        final(velocities)@ == after_impulses(old(velocities)@, order@, order@.len() as int).0,
{
    let mut absolute: HashSet<u64> = HashSet::new();
    let mut k: usize = 0;
    while k < order.len()
        invariant
            k <= order@.len(),
            impulses_fit(old(velocities)@, order@),
            velocities@ == after_impulses(old(velocities)@, order@, k as int).0,
            absolute@ == after_impulses(old(velocities)@, order@, k as int).1,
        decreases order@.len() - k,
    {
        let impulse = order[k];
        let target = impulse.target.bits;
        let current: Option<Velocity> = match velocities.get(&target) {
            Some(velocity) => Some(*velocity),
            None => None,
        };
        if let Some(velocity) = current {
            if !absolute.contains(&target) {
                if impulse.absolute {
                    velocities.insert(target, Velocity(impulse.amount));
                    absolute.insert(target);
                } else {
                    velocities.insert(target, Velocity(velocity.0.offset(impulse.amount)));
                }
            }
        }
        k += 1;
    }
}

/// Sums the impulses of one pass into the velocities of their targets.
///
/// Of the impulses that share a source only the last counts. Those that
/// remain are applied in an order that is not fixed: a relative impulse is
/// added to its target's velocity, the first absolute impulse for a target
/// replaces it, and whatever comes for that target afterwards is dropped.
pub fn sum_impulses(impulses: &Vec<Impulse>, velocities: &mut HashMap<u64, Velocity>)
    requires
        forall|order: Seq<Impulse>|
            #[trigger] is_deduped(order, impulses@) ==> impulses_fit(old(velocities)@, order),
    ensures
        exists|order: Seq<Impulse>|
            #[trigger] is_deduped(order, impulses@) && final(velocities)@ == after_impulses(
                old(velocities)@,
                order,
                order.len() as int,
            ).0,
{
    let order = dedupe_by_source(impulses);
    apply_impulses(&order, velocities);
}

} // verus!
