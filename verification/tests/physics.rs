use game_support::physics::{
    apply_gravity, apply_impulses, apply_velocity, dedupe_by_source, physics_clock, sum_impulses,
    Impulse, PhysicsPosition, PhysicsTick, PhysicsTimer, Velocity, PHYSICS_TICK_TIME,
};
use game_support::{EntityRef, Vector2, Vector3};
use std::collections::HashMap;

fn entity(bits: u64) -> EntityRef {
    EntityRef { bits }
}

fn impulse(target: u64, x: i32, y: i32, z: i32, absolute: bool, source: i32) -> Impulse {
    Impulse { target: entity(target), amount: Vector3::new(x, y, z), absolute, source }
}

fn moving(from: (i32, i32), to: (i32, i32)) -> PhysicsPosition {
    PhysicsPosition { start_frame: Vector2::new(from.0, from.1), end_frame: Vector2::new(to.0, to.1) }
}

#[test]
fn tick_lasts_thirty_three_milliseconds() {
    assert_eq!(PHYSICS_TICK_TIME, 33);
    assert_eq!(PhysicsTimer::default().0, 0);
}

#[test]
fn clock_accumulates_until_the_tick_is_due() {
    let mut clock = PhysicsTimer::default();
    let mut positions = vec![PhysicsPosition::new(Vector2::new(1, 2))];
    let (tick, _) = physics_clock(&mut clock, 16, &mut positions);
    assert!(tick.is_none());
    assert_eq!(clock.0, 16);
    let (tick, _) = physics_clock(&mut clock, 16, &mut positions);
    assert!(tick.is_none());
    assert_eq!(clock.0, 32);
    let (tick, _) = physics_clock(&mut clock, 1, &mut positions);
    assert_eq!(tick, Some(PhysicsTick));
    assert_eq!(clock.0, 0);
}

#[test]
fn clock_fires_one_tick_however_late_the_frame() {
    let mut clock = PhysicsTimer(5);
    let mut positions: Vec<PhysicsPosition> = Vec::new();
    let (tick, shown) = physics_clock(&mut clock, 1000, &mut positions);
    assert_eq!(tick, Some(PhysicsTick));
    assert_eq!(clock.0, 0);
    assert!(shown.is_empty());
    let (tick, _) = physics_clock(&mut clock, 0, &mut positions);
    assert!(tick.is_none());
    let mut late = PhysicsTimer(7);
    let (tick, _) = physics_clock(&mut late, u128::MAX, &mut positions);
    assert_eq!(tick, Some(PhysicsTick));
    assert_eq!(late.0, 0);
}

#[test]
fn tick_commits_every_position() {
    let mut clock = PhysicsTimer(30);
    let mut positions = vec![moving((0, 0), (33, -66)), moving((5, 5), (5, 5))];
    let (tick, shown) = physics_clock(&mut clock, 3, &mut positions);
    assert_eq!(tick, Some(PhysicsTick));
    assert_eq!(shown, vec![Vector2::new(33, -66), Vector2::new(5, 5)]);
    assert_eq!(positions[0], moving((33, -66), (33, -66)));
    assert_eq!(positions[1], moving((5, 5), (5, 5)));
}

#[test]
fn between_ticks_positions_are_interpolated() {
    let mut clock = PhysicsTimer(0);
    let mut positions = vec![moving((0, 0), (33, -66)), moving((10, 100), (-23, 430))];
    let (tick, shown) = physics_clock(&mut clock, 16, &mut positions);
    assert!(tick.is_none());
    assert_eq!(shown, vec![Vector2::new(16, -32), Vector2::new(-6, 260)]);
    assert_eq!(positions[0], moving((0, 0), (33, -66)));
    assert_eq!(positions[1], moving((10, 100), (-23, 430)));
}

#[test]
fn interpolation_starts_at_the_start_frame() {
    let position = moving((7, -9), (1000, 2000));
    assert_eq!(position.interpolate(0), Vector2::new(7, -9));
}

#[test]
fn interpolation_approaches_the_end_frame() {
    let position = moving((0, 0), (330, -33));
    assert_eq!(position.interpolate(32), Vector2::new(320, -32));
    assert_eq!(position.interpolate(33), Vector2::new(330, -33));
    let mut last = 0;
    for ms in 0..=33u128 {
        let shown = position.interpolate(ms);
        assert!(shown.x >= last && shown.x <= 330);
        assert!(shown.y <= 0 && shown.y >= -33);
        last = shown.x;
    }
}

#[test]
fn interpolation_rounds_towards_the_start_frame() {
    let right = moving((0, 0), (10, 0));
    assert_eq!(right.interpolate(16).x, 4);
    let left = moving((0, 0), (-10, 0));
    assert_eq!(left.interpolate(16).x, -4);
    let wide = moving((i32::MIN, i32::MAX), (i32::MAX, i32::MIN));
    assert_eq!(wide.interpolate(33), Vector2::new(i32::MAX, i32::MIN));
    assert_eq!(wide.interpolate(0), Vector2::new(i32::MIN, i32::MAX));
}

#[test]
fn velocity_defaults_to_rest() {
    assert_eq!(Velocity::default(), Velocity(Vector3::new(0, 0, 0)));
    assert_eq!(Velocity::new(1, -2, 3).0, Vector3::new(1, -2, 3));
    assert_eq!(Vector3::new(1, -2, 3).truncate(), Vector2::new(1, -2));
}

#[test]
fn velocity_moves_the_end_frame_once_per_tick() {
    let mut movement = vec![
        (Velocity::new(3, -4, 9), moving((0, 0), (10, 10))),
        (Velocity::new(0, 0, 0), moving((1, 1), (2, 2))),
    ];
    apply_velocity(&vec![PhysicsTick], &mut movement);
    assert_eq!(movement[0].1, moving((0, 0), (13, 6)));
    assert_eq!(movement[0].0, Velocity::new(3, -4, 9));
    assert_eq!(movement[1].1, moving((1, 1), (2, 2)));
    apply_velocity(&vec![PhysicsTick, PhysicsTick], &mut movement);
    assert_eq!(movement[0].1, moving((0, 0), (19, -2)));
}

#[test]
fn velocity_waits_for_a_tick() {
    let mut movement = vec![(Velocity::new(3, -4, 0), moving((0, 0), (10, 10)))];
    apply_velocity(&Vec::new(), &mut movement);
    assert_eq!(movement[0].1, moving((0, 0), (10, 10)));
}

#[test]
fn gravity_lowers_the_vertical_speed_once_per_tick() {
    let mut velocities = vec![Velocity::new(1, 10, 2), Velocity::new(0, -5, 0)];
    apply_gravity(&vec![PhysicsTick], 3, &mut velocities);
    assert_eq!(velocities, vec![Velocity::new(1, 7, 2), Velocity::new(0, -8, 0)]);
    apply_gravity(&vec![PhysicsTick, PhysicsTick], 3, &mut velocities);
    assert_eq!(velocities, vec![Velocity::new(1, 1, 2), Velocity::new(0, -14, 0)]);
    apply_gravity(&Vec::new(), 3, &mut velocities);
    assert_eq!(velocities, vec![Velocity::new(1, 1, 2), Velocity::new(0, -14, 0)]);
}

#[test]
fn impulses_of_one_source_are_not_summed() {
    let mut velocities = HashMap::new();
    velocities.insert(1, Velocity::default());
    let impulses = vec![impulse(1, 1, 0, 0, false, 7), impulse(1, 0, 1, 0, false, 7)];
    sum_impulses(&impulses, &mut velocities);
    assert_eq!(velocities[&1], Velocity::new(0, 1, 0));
}

#[test]
fn impulses_of_different_sources_accumulate() {
    let mut velocities = HashMap::new();
    velocities.insert(1, Velocity::new(10, 10, 10));
    velocities.insert(2, Velocity::new(0, 0, 0));
    let impulses = vec![
        impulse(1, 1, 0, 0, false, 7),
        impulse(1, 0, 1, 0, false, 8),
        impulse(2, -3, -3, -3, false, 9),
        impulse(1, 0, 0, 5, false, 10),
    ];
    sum_impulses(&impulses, &mut velocities);
    assert_eq!(velocities[&1], Velocity::new(11, 11, 15));
    assert_eq!(velocities[&2], Velocity::new(-3, -3, -3));
}

#[test]
fn absolute_impulse_takes_precedence() {
    let mut velocities = HashMap::new();
    velocities.insert(4, Velocity::new(2, 2, 2));
    let impulses = vec![impulse(4, 5, 5, 0, true, 1), impulse(4, 1, 0, 0, false, 2)];
    sum_impulses(&impulses, &mut velocities);
    assert_eq!(velocities[&4], Velocity::new(5, 5, 0));
}

#[test]
fn absolute_impulse_takes_precedence_in_either_order() {
    let absolute = impulse(4, 5, 5, 0, true, 1);
    let relative = impulse(4, 1, 0, 0, false, 2);
    let mut first = HashMap::new();
    first.insert(4, Velocity::new(2, 2, 2));
    apply_impulses(&vec![absolute, relative], &mut first);
    assert_eq!(first[&4], Velocity::new(5, 5, 0));
    let mut second = HashMap::new();
    second.insert(4, Velocity::new(2, 2, 2));
    apply_impulses(&vec![relative, absolute], &mut second);
    assert_eq!(second[&4], Velocity::new(5, 5, 0));
}

#[test]
fn first_absolute_impulse_closes_the_target() {
    let mut velocities = HashMap::new();
    velocities.insert(4, Velocity::new(2, 2, 2));
    velocities.insert(5, Velocity::new(1, 1, 1));
    let order = vec![
        impulse(4, 5, 5, 0, true, 1),
        impulse(4, 9, 9, 9, true, 2),
        impulse(5, 1, 0, 0, false, 3),
        impulse(4, 1, 1, 1, false, 4),
    ];
    apply_impulses(&order, &mut velocities);
    assert_eq!(velocities[&4], Velocity::new(5, 5, 0));
    assert_eq!(velocities[&5], Velocity::new(2, 1, 1));
}

#[test]
fn impulse_for_a_missing_target_is_skipped() {
    let mut velocities = HashMap::new();
    velocities.insert(1, Velocity::new(1, 1, 1));
    let impulses = vec![impulse(99, 5, 5, 5, true, 1), impulse(1, 1, 0, 0, false, 2)];
    sum_impulses(&impulses, &mut velocities);
    assert_eq!(velocities.len(), 1);
    assert_eq!(velocities[&1], Velocity::new(2, 1, 1));
}

#[test]
fn dedupe_keeps_the_last_impulse_of_each_source() {
    let impulses = vec![
        impulse(1, 1, 0, 0, false, 7),
        impulse(2, 2, 0, 0, false, 8),
        impulse(3, 3, 0, 0, true, 7),
        impulse(4, 4, 0, 0, false, 9),
        impulse(5, 5, 0, 0, false, 8),
    ];
    let mut kept = dedupe_by_source(&impulses);
    kept.sort_by_key(|kept_impulse| kept_impulse.source);
    assert_eq!(kept, vec![impulses[2], impulses[4], impulses[3]]);
    assert!(dedupe_by_source(&Vec::new()).is_empty());
}
