//! Linear kinematics: position, velocity and the per-tick acceleration
//! accumulator, with the fixed-timestep integration phases.
//!
//! `dt` is the tick duration in subunit seconds (at most one second,
//! that is at most `SCALE`).  Each tick runs, in order: `apply_velocity`
//! (positions advance under the still-accumulated acceleration),
//! `apply_acceleration` (the accumulator becomes velocity change and is
//! cleared), `apply_gravity` (next tick's first force contribution).

use vstd::prelude::*;

use crate::fix::{mul_div, tdiv, SCALE};
use crate::fruit::{in_range, Fruit, RANGE};

verus! {

/// Constant downward gravity, in subunits per second squared
/// (-100 units/s²).
pub const GRAVITY: i64 = -6553600;

#[derive(Clone, Copy, Debug, PartialEq, Eq, Structural)]
pub struct Position {
    pub x: i64,
    pub y: i64,
}

#[derive(Clone, Copy, Debug, PartialEq, Eq, Structural)]
pub struct PreviousPosition {
    pub x: i64,
    pub y: i64,
}

#[derive(Clone, Copy, Debug, PartialEq, Eq, Structural)]
pub struct Velocity {
    pub x: i64,
    pub y: i64,
}

#[derive(Clone, Copy, Debug, PartialEq, Eq, Structural)]
pub struct Acceleration {
    pub x: i64,
    pub y: i64,
}

/// Half the squared tick duration, in subunit seconds squared: the
/// coefficient of acceleration in the position update.
pub open spec fn dt2_of(dt: int) -> int {
    tdiv(dt * dt, 2 * SCALE as int)
}

/// The position phase: the previous position is recorded, then the
/// position advances by `v·dt + a·dt²/2`, read against the still-unspent
/// acceleration accumulator.  Everything else is untouched.
pub open spec fn vel_applied(o: Fruit, f: Fruit, dt: int) -> bool {
    &&& f.pre.x == o.pos.x
    &&& f.pre.y == o.pos.y
    &&& f.pos.x == o.pos.x + tdiv(o.vel.x * dt, SCALE as int) + tdiv(
        o.acc.x * dt2_of(dt),
        SCALE as int,
    )
    &&& f.pos.y == o.pos.y + tdiv(o.vel.y * dt, SCALE as int) + tdiv(
        o.acc.y * dt2_of(dt),
        SCALE as int,
    )
    &&& f.vel == o.vel
    &&& f.acc == o.acc
    &&& f.id == o.id
    &&& f.typ == o.typ
    &&& f.theta == o.theta
    &&& f.omega == o.omega
    &&& f.alpha == o.alpha
    &&& f.collider == o.collider
}

/// The velocity phase: the accumulator becomes a velocity change and is
/// cleared to zero for the next round of force accumulation.
pub open spec fn acc_applied(o: Fruit, f: Fruit, dt: int) -> bool {
    &&& f.vel.x == o.vel.x + tdiv(o.acc.x * dt, SCALE as int)
    &&& f.vel.y == o.vel.y + tdiv(o.acc.y * dt, SCALE as int)
    &&& f.acc.x == 0
    &&& f.acc.y == 0
    &&& f.pos == o.pos
    &&& f.pre == o.pre
    &&& f.id == o.id
    &&& f.typ == o.typ
    &&& f.theta == o.theta
    &&& f.omega == o.omega
    &&& f.alpha == o.alpha
    &&& f.collider == o.collider
}

/// The gravity phase: contact-eligible bodies accumulate the constant
/// downward force; the preview and anything not contact-eligible is
/// left alone.
pub open spec fn gravity_applied(o: Fruit, f: Fruit) -> bool {
    if o.collider {
        f == Fruit { acc: Acceleration { x: o.acc.x, y: (o.acc.y + GRAVITY) as i64 }, ..o }
    } else {
        f == o
    }
}

/// Each phase relation determines its output body completely.
pub proof fn lemma_vel_applied_deterministic(o: Fruit, f1: Fruit, f2: Fruit, dt: int)
    requires
        vel_applied(o, f1, dt),
        vel_applied(o, f2, dt),
    ensures
        f1 == f2,
{
}

pub proof fn lemma_acc_applied_deterministic(o: Fruit, f1: Fruit, f2: Fruit, dt: int)
    requires
        acc_applied(o, f1, dt),
        acc_applied(o, f2, dt),
    ensures
        f1 == f2,
{
}

pub proof fn lemma_gravity_applied_deterministic(o: Fruit, f1: Fruit, f2: Fruit)
    requires
        gravity_applied(o, f1),
        gravity_applied(o, f2),
    ensures
        f1 == f2,
{
}

/// Advance every body's position by one tick (spec `vel_applied`).
pub fn apply_velocity(fruits: &mut Vec<Fruit>, dt: i64)
    requires
        0 < dt <= SCALE,
        forall|k: int| 0 <= k < old(fruits)@.len() ==> in_range(#[trigger] old(fruits)@[k]),
    ensures
        final(fruits)@.len() == old(fruits)@.len(),
        forall|k: int|
            0 <= k < old(fruits)@.len() ==> vel_applied(
                old(fruits)@[k],
                #[trigger] final(fruits)@[k],
                dt as int,
            ),
{
    let ghost s = fruits@;
    proof {
        assert(dt as int * dt as int <= SCALE as int * (2 * SCALE as int)) by (nonlinear_arith)
            requires
                0 < dt <= SCALE as int,
        ;
        crate::fix::lemma_tdiv_bound(dt as int * dt as int, 2 * SCALE as int, SCALE as int);
    }
    let dt2 = mul_div(dt, dt, 2 * SCALE);
    let n = fruits.len();
    let mut k: usize = 0;
    while k < n
        invariant
            0 <= k <= n,
            n == fruits@.len(),
            s.len() == n,
            0 < dt <= SCALE,
            0 <= dt2 <= SCALE,
            dt2 == dt2_of(dt as int),
            forall|j: int| 0 <= j < n ==> in_range(#[trigger] s[j]),
            forall|j: int| k <= j < n ==> fruits@[j] == s[j],
            forall|j: int| 0 <= j < k ==> vel_applied(s[j], #[trigger] fruits@[j], dt as int),
        decreases n - k,
    {
        let f = fruits[k];
        proof {
            assert(in_range(s[k as int]));
            assert(vstd::math::abs(f.vel.x * dt) <= RANGE as int * SCALE as int
                && vstd::math::abs(f.vel.y * dt) <= RANGE as int * SCALE as int
                && vstd::math::abs(f.acc.x * dt2) <= RANGE as int * SCALE as int
                && vstd::math::abs(f.acc.y * dt2) <= RANGE as int * SCALE as int) by (nonlinear_arith)
                requires
                    0 < dt <= SCALE as int,
                    0 <= dt2 <= SCALE as int,
                    vstd::math::abs(f.vel.x as int) <= RANGE as int,
                    vstd::math::abs(f.vel.y as int) <= RANGE as int,
                    vstd::math::abs(f.acc.x as int) <= RANGE as int,
                    vstd::math::abs(f.acc.y as int) <= RANGE as int,
            ;
            crate::fix::lemma_tdiv_bound(f.vel.x * dt, SCALE as int, RANGE as int);
            crate::fix::lemma_tdiv_bound(f.vel.y * dt, SCALE as int, RANGE as int);
            crate::fix::lemma_tdiv_bound(f.acc.x * dt2, SCALE as int, RANGE as int);
            crate::fix::lemma_tdiv_bound(f.acc.y * dt2, SCALE as int, RANGE as int);
        }
        let dx = mul_div(f.vel.x, dt, SCALE);
        let ddx = mul_div(f.acc.x, dt2, SCALE);
        let dy = mul_div(f.vel.y, dt, SCALE);
        let ddy = mul_div(f.acc.y, dt2, SCALE);
        fruits[k] = Fruit {
            pre: PreviousPosition { x: f.pos.x, y: f.pos.y },
            pos: Position { x: f.pos.x + dx + ddx, y: f.pos.y + dy + ddy },
            ..f
        };
        k = k + 1;
    }
}

/// Convert every body's accumulated acceleration into velocity change
/// and clear the accumulator (spec `acc_applied`).
pub fn apply_acceleration(fruits: &mut Vec<Fruit>, dt: i64)
    requires
        0 < dt <= SCALE,
        forall|k: int| 0 <= k < old(fruits)@.len() ==> in_range(#[trigger] old(fruits)@[k]),
    ensures
        final(fruits)@.len() == old(fruits)@.len(),
        forall|k: int|
            0 <= k < old(fruits)@.len() ==> acc_applied(
                old(fruits)@[k],
                #[trigger] final(fruits)@[k],
                dt as int,
            ),
{
    let ghost s = fruits@;
    let n = fruits.len();
    let mut k: usize = 0;
    while k < n
        invariant
            0 <= k <= n,
            n == fruits@.len(),
            s.len() == n,
            0 < dt <= SCALE,
            forall|j: int| 0 <= j < n ==> in_range(#[trigger] s[j]),
            forall|j: int| k <= j < n ==> fruits@[j] == s[j],
            forall|j: int| 0 <= j < k ==> acc_applied(s[j], #[trigger] fruits@[j], dt as int),
        decreases n - k,
    {
        let f = fruits[k];
        proof {
            assert(in_range(s[k as int]));
            assert(vstd::math::abs(f.acc.x * dt) <= RANGE as int * SCALE as int
                && vstd::math::abs(f.acc.y * dt) <= RANGE as int * SCALE as int) by (nonlinear_arith)
                requires
                    0 < dt <= SCALE as int,
                    vstd::math::abs(f.acc.x as int) <= RANGE as int,
                    vstd::math::abs(f.acc.y as int) <= RANGE as int,
            ;
            crate::fix::lemma_tdiv_bound(f.acc.x * dt, SCALE as int, RANGE as int);
            crate::fix::lemma_tdiv_bound(f.acc.y * dt, SCALE as int, RANGE as int);
        }
        let dvx = mul_div(f.acc.x, dt, SCALE);
        let dvy = mul_div(f.acc.y, dt, SCALE);
        fruits[k] = Fruit {
            vel: Velocity { x: f.vel.x + dvx, y: f.vel.y + dvy },
            acc: Acceleration { x: 0, y: 0 },
            ..f
        };
        k = k + 1;
    }
}

/// Accumulate the constant downward force on every contact-eligible
/// body (spec `gravity_applied`).
pub fn apply_gravity(fruits: &mut Vec<Fruit>)
    requires
        forall|k: int| 0 <= k < old(fruits)@.len() ==> in_range(#[trigger] old(fruits)@[k]),
    ensures
        final(fruits)@.len() == old(fruits)@.len(),
        forall|k: int|
            0 <= k < old(fruits)@.len() ==> gravity_applied(
                old(fruits)@[k],
                #[trigger] final(fruits)@[k],
            ),
{
    let ghost s = fruits@;
    let n = fruits.len();
    let mut k: usize = 0;
    while k < n
        invariant
            0 <= k <= n,
            n == fruits@.len(),
            s.len() == n,
            forall|j: int| 0 <= j < n ==> in_range(#[trigger] s[j]),
            forall|j: int| k <= j < n ==> fruits@[j] == s[j],
            forall|j: int| 0 <= j < k ==> gravity_applied(s[j], #[trigger] fruits@[j]),
        decreases n - k,
    {
        let f = fruits[k];
        proof {
            assert(in_range(s[k as int]));
        }
        if f.collider {
            fruits[k] = Fruit { acc: Acceleration { x: f.acc.x, y: f.acc.y + GRAVITY }, ..f };
        }
        k = k + 1;
    }
}

} // verus!
