use drive::collision::{check_fruit_collisions, check_wall_collisions, ResetEvent};
use drive::fruit::{interpolate_rendered_transform, Fruit};
use drive::pva::{
    apply_acceleration, apply_gravity, apply_velocity, Acceleration, Position, PreviousPosition,
    Velocity,
};
use drive::toa::{apply_alpha, apply_omega, Alpha, Omega, Theta};
use drive::typ::FruitType;

fn body(id: u64, typ: FruitType, x: i64, y: i64, vx: i64, vy: i64, collider: bool) -> Fruit {
    Fruit {
        id,
        typ,
        pos: Position { x, y },
        pre: PreviousPosition { x, y },
        vel: Velocity { x: vx, y: vy },
        acc: Acceleration { x: 0, y: 0 },
        theta: Theta(0),
        omega: Omega(0),
        alpha: Alpha(0),
        collider,
    }
}

const SCALE: i64 = 65536;
const TICK: i64 = SCALE / 64;
const BOTTOM: i64 = -19660800;
const RIGHT: i64 = 19660800;
const TOP: i64 = 19660800;

#[test]
fn test_apply_velocity() {
    let mut v = vec![body(0, FruitType::Blueberry, 0, 0, 0, -100 * SCALE, true)];
    apply_velocity(&mut v, TICK);
    // position moves by v*dt; previous position records the old one
    assert_eq!(v[0].pos.y, -102400);
    assert_eq!(v[0].pre.y, 0);
    assert_eq!(v[0].vel.y, -100 * SCALE);
}

#[test]
fn test_apply_acceleration() {
    let mut v = vec![body(0, FruitType::Blueberry, 0, 0, 0, 0, true)];
    v[0].acc = Acceleration { x: 0, y: -100 * SCALE };
    apply_acceleration(&mut v, TICK);
    // the accumulator becomes velocity change and is cleared
    assert_eq!(v[0].vel.y, -102400);
    assert_eq!(v[0].acc.y, 0);
}

#[test]
fn test_apply_gravity() {
    let mut v = vec![
        body(0, FruitType::Blueberry, 0, 0, 0, 0, true),
        body(1, FruitType::Blueberry, 0, 0, 0, 0, false),
    ];
    apply_gravity(&mut v);
    assert_eq!(v[0].acc.y, -100 * SCALE);
    // a body that is not contact-eligible feels no gravity
    assert_eq!(v[1].acc.y, 0);
}

#[test]
fn test_apply_omega_and_alpha() {
    let mut v = vec![body(0, FruitType::Blueberry, 0, 0, 0, 0, true)];
    v[0].omega = Omega(64 * SCALE);
    v[0].alpha = Alpha(128 * SCALE);
    apply_omega(&mut v, TICK);
    // theta += omega*dt + alpha*dt^2/2
    assert_eq!(v[0].theta.0, 66560);
    apply_alpha(&mut v, TICK);
    assert_eq!(v[0].omega.0, 66 * SCALE);
    assert_eq!(v[0].alpha.0, 0);
}

#[test]
fn test_wall_floor_resolution() {
    // a blueberry penetrating the floor by one unit, falling
    let r = FruitType::Blueberry.radius();
    let mut v = vec![body(0, FruitType::Blueberry, 0, BOTTOM + r - SCALE, 0, -5 * SCALE, true)];
    let reset = check_wall_collisions(&mut v, 0);
    assert_eq!(reset, None);
    // clamped to the floor, fall stopped, upward spring into the
    // accumulator
    assert_eq!(v[0].pos.y, BOTTOM + r);
    assert_eq!(v[0].vel.y, 0);
    assert_eq!(v[0].acc.y, 655);
}

#[test]
fn test_wall_side_resolution() {
    // two units into the right wall, moving right
    let r = FruitType::Blueberry.radius();
    let mut v = vec![body(0, FruitType::Blueberry, RIGHT - r + 2 * SCALE, 0, 100000, 0, true)];
    let reset = check_wall_collisions(&mut v, 0);
    assert_eq!(reset, None);
    assert_eq!(v[0].pos.x, RIGHT - r);
    assert_eq!(v[0].acc.x, -1410);
    assert_eq!(v[0].vel.x, 100000);
}

#[test]
fn test_wall_idempotent_when_settled() {
    // resolve once, then a second pass must change nothing
    let r = FruitType::Blueberry.radius();
    let mut v = vec![body(0, FruitType::Blueberry, RIGHT - r + 2 * SCALE, BOTTOM + r - SCALE, 7, -9, true)];
    check_wall_collisions(&mut v, 0);
    let settled = v.clone();
    check_wall_collisions(&mut v, 0);
    assert_eq!(v, settled);
}

#[test]
fn test_wall_untouched_inside() {
    let mut v = vec![body(0, FruitType::Cherry, 0, 0, 12345, -6789, true)];
    let before = v.clone();
    let reset = check_wall_collisions(&mut v, 0);
    assert_eq!(reset, None);
    assert_eq!(v, before);
}

#[test]
fn test_wall_overflow_raises_reset() {
    let r = FruitType::Blueberry.radius();
    // resting just past the top: with a zero margin the overflow
    // signal fires, with a one-radius margin it does not yet
    let mut v = vec![body(0, FruitType::Blueberry, 0, TOP - r / 2, 0, 0, true)];
    let mut w = v.clone();
    assert_eq!(check_wall_collisions(&mut v, 0), Some(ResetEvent));
    assert_eq!(check_wall_collisions(&mut w, r), None);
}

#[test]
fn test_pair_resolution_separates() {
    // two blueberries (radius 10) with centres 15 units apart: the
    // overlap of 5 is split evenly and the centres end 20 units apart
    let mut v = vec![
        body(0, FruitType::Blueberry, -491520, 0, 0, 0, true),
        body(1, FruitType::Blueberry, 491520, 0, 0, 0, true),
    ];
    let events = check_fruit_collisions(&mut v);
    assert_eq!(events.len(), 1);
    assert_eq!(events[0].0.id, 0);
    assert_eq!(events[0].1.id, 1);
    // the event snapshots the pre-pass state
    assert_eq!(events[0].0.pos.x, -491520);
    assert_eq!(events[0].1.pos.x, 491520);
    assert_eq!(v[0].pos.x, -655360);
    assert_eq!(v[1].pos.x, 655360);
    assert_eq!(v[1].pos.x - v[0].pos.x, 20 * SCALE);
    // at rest there is no restitution kick, only the spring force
    assert_eq!(v[0].vel.x, 0);
    assert_eq!(v[0].acc.x, -163);
    assert_eq!(v[1].acc.x, 163);
}

#[test]
fn test_pair_closing_velocity_reflected() {
    // closing at 100 units/s each: the closing component is damped
    // and reflected with restitution 1.3
    let mut v = vec![
        body(0, FruitType::Blueberry, -491520, 0, 100 * SCALE, 0, true),
        body(1, FruitType::Blueberry, 491520, 0, -100 * SCALE, 0, true),
    ];
    let events = check_fruit_collisions(&mut v);
    assert_eq!(events.len(), 1);
    // vel -= toward_other * closing * 1.3: 100 - 130 = -30 units/s
    assert_eq!(v[0].vel.x, 100 * SCALE - 100 * SCALE * 13 / 10);
    assert_eq!(v[1].vel.x, -(100 * SCALE) + 100 * SCALE * 13 / 10);
}

#[test]
fn test_pair_coincident_centres_skipped() {
    let mut v = vec![
        body(0, FruitType::Blueberry, 0, 0, 0, 0, true),
        body(1, FruitType::Blueberry, 0, 0, 0, 0, true),
    ];
    let before = v.clone();
    let events = check_fruit_collisions(&mut v);
    assert_eq!(events.len(), 0);
    assert_eq!(v, before);
}

#[test]
fn test_pair_preview_not_eligible() {
    let mut v = vec![
        body(0, FruitType::Blueberry, -491520, 0, 0, 0, true),
        body(1, FruitType::Blueberry, 491520, 0, 0, 0, false),
    ];
    let before = v.clone();
    let events = check_fruit_collisions(&mut v);
    assert_eq!(events.len(), 0);
    assert_eq!(v, before);
}

#[test]
fn test_pair_separated_no_event() {
    let mut v = vec![
        body(0, FruitType::Blueberry, -2000000, 0, 0, 0, true),
        body(1, FruitType::Blueberry, 2000000, 0, 0, 0, true),
    ];
    let before = v.clone();
    let events = check_fruit_collisions(&mut v);
    assert_eq!(events.len(), 0);
    assert_eq!(v, before);
}

#[test]
fn test_pair_spin_coupling() {
    // a body sliding across the contact: the slip velocity at the
    // contact point comes out of its spin; the body at rest keeps none
    let mut v = vec![
        body(0, FruitType::Blueberry, -491520, 0, 0, 100 * SCALE, true),
        body(1, FruitType::Blueberry, 491520, 0, 0, 0, true),
    ];
    let events = check_fruit_collisions(&mut v);
    assert_eq!(events.len(), 1);
    assert_eq!(v[0].omega.0, -655360);
    assert_eq!(v[1].omega.0, 0);
}

#[test]
fn test_pair_responses_accumulate() {
    // three in a row: the middle body takes one push from each side
    // and they cancel; the outer two move apart; both pairs report
    let mut v = vec![
        body(0, FruitType::Blueberry, -983040, 0, 0, 0, true),
        body(1, FruitType::Blueberry, 0, 0, 0, 0, true),
        body(2, FruitType::Blueberry, 983040, 0, 0, 0, true),
    ];
    let events = check_fruit_collisions(&mut v);
    assert_eq!(events.len(), 2);
    assert_eq!((events[0].0.id, events[0].1.id), (0, 1));
    assert_eq!((events[1].0.id, events[1].1.id), (1, 2));
    assert_eq!(v[0].pos.x, -983040 - 163840);
    assert_eq!(v[1].pos.x, 0);
    assert_eq!(v[1].acc.x, 0);
    assert_eq!(v[2].pos.x, 983040 + 163840);
}

#[test]
fn test_interpolate_halfway() {
    let mut f = body(0, FruitType::Blueberry, SCALE, 0, 0, 0, true);
    f.pre = PreviousPosition { x: 0, y: 0 };
    let p = interpolate_rendered_transform(&f, 1, 2);
    assert_eq!(p.x, SCALE / 2);
    assert_eq!(p.y, 0);
    // the fraction clamps at one whole step
    let q = interpolate_rendered_transform(&f, 7, 2);
    assert_eq!(q.x, SCALE);
}
