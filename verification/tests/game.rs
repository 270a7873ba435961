use drive::collision::{check_fruit_collisions, BodySnapshot, CollisionEvent};
use drive::fruit::{drop_fruit, merge, Fruit, World};
use drive::pva::{Acceleration, Position, PreviousPosition, Velocity};
use drive::reset::reset;
use drive::toa::{Alpha, Omega, Theta};
use drive::typ::FruitType;

const SCALE: i64 = 65536;
const TOP: i64 = 19660800;

fn body(id: u64, typ: FruitType, x: i64, y: i64, vx: i64, vy: i64) -> Fruit {
    Fruit {
        id,
        typ,
        pos: Position { x, y },
        pre: PreviousPosition { x, y },
        vel: Velocity { x: vx, y: vy },
        acc: Acceleration { x: 0, y: 0 },
        theta: Theta(0),
        omega: Omega(0),
        alpha: Alpha(0),
        collider: true,
    }
}

fn world_of(fruits: Vec<Fruit>) -> World {
    let next_id = fruits.iter().map(|f| f.id + 1).max().unwrap_or(0);
    let mut w = World::new();
    w.fruits = fruits;
    w.next_id = next_id;
    w
}

#[test]
fn test_world_new() {
    let w = World::new();
    assert_eq!(w.fruits.len(), 0);
    assert_eq!(w.player.typ, FruitType::Blueberry);
    assert_eq!(w.player.x, 0);
}

#[test]
fn test_drop_fruit() {
    let mut w = World::new();
    drop_fruit(&mut w);
    assert_eq!(w.fruits.len(), 1);
    let f = &w.fruits[0];
    assert_eq!(f.typ, FruitType::Blueberry);
    assert_eq!(f.pos.x, 0);
    assert_eq!(f.pos.y, TOP - FruitType::Blueberry.radius());
    assert_eq!(f.vel.y, -100 * SCALE);
    assert!(f.collider);
    assert_eq!(w.next_id, 1);
    // the preview re-arms with one of the three smallest classes
    assert!(w.player.typ.index() <= FruitType::Apricot.index());
}

#[test]
fn test_merge_promotes_pair() {
    // two overlapping blueberries with different velocities: after
    // the pass and the merge, exactly one cherry stands at the
    // midpoint with the mass-weighted velocity
    let mut w = world_of(vec![
        body(0, FruitType::Blueberry, -491520, 0, 100, 0),
        body(1, FruitType::Blueberry, 491520, 0, -50, 0),
    ]);
    let events = check_fruit_collisions(&mut w.fruits);
    assert_eq!(events.len(), 1);
    merge(&mut w, &events);
    assert_eq!(w.fruits.len(), 1);
    let f = &w.fruits[0];
    assert_eq!(f.typ, FruitType::Cherry);
    assert_eq!(f.id, 2);
    assert_eq!(f.pos.x, 0);
    assert_eq!(f.pos.y, 0);
    // (100*10000 + -50*10000) / 19999, truncated
    assert_eq!(f.vel.x, 25);
    assert_eq!(f.omega, Omega(0));
    assert!(f.collider);
    assert_eq!(w.next_id, 3);
}

#[test]
fn test_no_merge_for_different_classes() {
    // a blueberry against a cherry: they bounce, nothing merges
    let mut w = world_of(vec![
        body(0, FruitType::Blueberry, -491520, 0, 0, 0),
        body(1, FruitType::Cherry, 491520, 0, 0, 0),
    ]);
    let events = check_fruit_collisions(&mut w.fruits);
    assert_eq!(events.len(), 1);
    let before = w.fruits.clone();
    merge(&mut w, &events);
    assert_eq!(w.fruits, before);
    assert_eq!(w.next_id, 2);
}

#[test]
fn test_no_merge_for_terminal_class() {
    // two watermelons keep bouncing and never merge, however many
    // passes run
    let r = FruitType::Watermelon.radius();
    let mut w = world_of(vec![
        body(0, FruitType::Watermelon, -r + 3 * SCALE, 0, 0, 0),
        body(1, FruitType::Watermelon, r - 3 * SCALE, 0, 0, 0),
    ]);
    for _ in 0..3 {
        let events = check_fruit_collisions(&mut w.fruits);
        let ids: Vec<u64> = w.fruits.iter().map(|f| f.id).collect();
        merge(&mut w, &events);
        assert_eq!(w.fruits.len(), 2);
        assert_eq!(w.fruits.iter().map(|f| f.id).collect::<Vec<u64>>(), ids);
    }
}

#[test]
fn test_merge_commits_one_per_pass() {
    // two simultaneous qualifying events: only the first commits in
    // one pass, the other pair waits for the next tick
    let snap = |f: &Fruit| BodySnapshot { id: f.id, typ: f.typ, pos: f.pos, vel: f.vel, acc: f.acc };
    let fruits = vec![
        body(0, FruitType::Blueberry, -491520, 0, 0, 0),
        body(1, FruitType::Blueberry, 491520, 0, 0, 0),
        body(2, FruitType::Cherry, -491520, 3000000, 0, 0),
        body(3, FruitType::Cherry, 491520, 3000000, 0, 0),
    ];
    let events = vec![
        CollisionEvent(snap(&fruits[0]), snap(&fruits[1])),
        CollisionEvent(snap(&fruits[2]), snap(&fruits[3])),
    ];
    let mut w = world_of(fruits);
    merge(&mut w, &events);
    assert_eq!(w.fruits.len(), 3);
    let ids: Vec<u64> = w.fruits.iter().map(|f| f.id).collect();
    assert_eq!(ids, vec![2, 3, 4]);
    assert_eq!(w.fruits[2].typ, FruitType::Cherry);
}

#[test]
fn test_merge_skips_non_qualifying_events() {
    // the first event pairs distinct classes and is skipped; the
    // second commits
    let snap = |f: &Fruit| BodySnapshot { id: f.id, typ: f.typ, pos: f.pos, vel: f.vel, acc: f.acc };
    let fruits = vec![
        body(0, FruitType::Blueberry, -491520, 0, 0, 0),
        body(1, FruitType::Cherry, 491520, 0, 0, 0),
        body(2, FruitType::Plum, -491520, 3000000, 0, 0),
        body(3, FruitType::Plum, 491520, 3000000, 0, 0),
    ];
    let events = vec![
        CollisionEvent(snap(&fruits[0]), snap(&fruits[1])),
        CollisionEvent(snap(&fruits[2]), snap(&fruits[3])),
    ];
    let mut w = world_of(fruits);
    merge(&mut w, &events);
    assert_eq!(w.fruits.len(), 3);
    assert_eq!(w.fruits[2].typ, FruitType::Orange);
    assert_eq!(w.fruits[2].pos.y, 3000000);
}

#[test]
fn test_merge_despawn_is_idempotent() {
    // an event may name an identity that is already gone: its removal
    // is a quiet no-op and the merge still commits
    let snap = |f: &Fruit| BodySnapshot { id: f.id, typ: f.typ, pos: f.pos, vel: f.vel, acc: f.acc };
    let present = body(0, FruitType::Blueberry, -491520, 0, 0, 0);
    let vanished = body(99, FruitType::Blueberry, 491520, 0, 0, 0);
    let events = vec![CollisionEvent(snap(&present), snap(&vanished))];
    let mut w = world_of(vec![present]);
    w.next_id = 100;
    merge(&mut w, &events);
    assert_eq!(w.fruits.len(), 1);
    assert_eq!(w.fruits[0].typ, FruitType::Cherry);
    assert_eq!(w.fruits[0].id, 100);
}

#[test]
fn test_tick_runs_the_chain() {
    // drop one body and run a tick: it advances under its seed
    // velocity, then gravity lands in the cleared accumulator
    let mut w = World::new();
    drop_fruit(&mut w);
    let out = drive::fruit::tick(&mut w, 1024, 0).unwrap();
    assert!(out.reset.is_none());
    assert_eq!(out.events.len(), 0);
    let f = &w.fruits[0];
    assert_eq!(f.pos.y, TOP - FruitType::Blueberry.radius() - 102400);
    assert_eq!(f.vel.y, -100 * SCALE);
    assert_eq!(f.acc.y, -100 * SCALE);
}

#[test]
fn test_reset_clears_colliders() {
    let mut w = world_of(vec![
        body(0, FruitType::Blueberry, 0, 0, 0, 0),
        body(1, FruitType::Watermelon, 2000000, 0, 0, 0),
    ]);
    let player_before = w.player.clone();
    reset(&mut w);
    assert_eq!(w.fruits.len(), 0);
    // the preview body is untouched
    assert_eq!(w.player, player_before);
}
