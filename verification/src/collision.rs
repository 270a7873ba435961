//! Contact resolution: wall confinement by penalty forces, and the
//! pairwise circle-circle resolver with its collision events.

use vstd::prelude::*;

use crate::fix::{mul_div, tdiv, SCALE};
use crate::fruit::{in_range, Fruit, RANGE};
use crate::typ::FruitType;
use crate::world::{BOTTOM, LEFT, RIGHT, TOP};

verus! {

/// Spring gain of the penalty contacts, per unit of penetration.
pub const SPRING: i64 = 100;

/// Damping gain of the penalty contacts, per unit of closing speed.
pub const DAMPER: i64 = 10;

/// Restitution factor `BOUNCE_NUM / BOUNCE_DEN` (1.3: over-unity, to
/// keep stacks lively).
pub const BOUNCE_NUM: i64 = 13;

pub const BOUNCE_DEN: i64 = 10;

/// Raised when a body has risen past the container top by more than
/// the configured overflow margin.
#[derive(Clone, Copy, Debug, PartialEq, Eq, Structural)]
pub struct ResetEvent;

/// How one wall pass transforms a single body.
///
/// A contact-eligible body penetrating a side wall is clamped to it and
/// takes a horizontal spring-damper force, divided by its mass, into
/// the accumulator (the two sides exclude each other: the container is
/// wider than any body).  One penetrating the floor is clamped up, its
/// fall stopped, and takes the vertical spring force plus a small
/// friction-like bleed of horizontal velocity.  A body that is not
/// contact-eligible, or not penetrating, is left exactly as it was.
pub open spec fn wall_rel(o: Fruit, f: Fruit) -> bool {
    if !o.collider {
        f == o
    } else {
        let r = o.typ.spec_radius();
        let m = o.typ.spec_mass();
        let rs = r - (RIGHT - o.pos.x);
        let ls = r - (o.pos.x - LEFT);
        let xf = if rs > 0 {
            -rs * SPRING - o.vel.x * DAMPER
        } else if ls > 0 {
            ls * SPRING - o.vel.x * DAMPER
        } else {
            0
        };
        let ax = if xf != 0 {
            o.acc.x + tdiv(xf, m)
        } else {
            o.acc.x as int
        };
        let bs = r - (o.pos.y - BOTTOM);
        &&& f.pos.x == (if rs > 0 {
            RIGHT - r
        } else if ls > 0 {
            LEFT + r
        } else {
            o.pos.x as int
        })
        &&& f.pos.y == (if bs > 0 {
            BOTTOM + r
        } else {
            o.pos.y as int
        })
        &&& f.vel.x == o.vel.x
        &&& f.vel.y == (if bs > 0 {
            0
        } else {
            o.vel.y as int
        })
        &&& f.acc.x == (if bs > 0 {
            ax - tdiv(o.vel.x * DAMPER, 10)
        } else {
            ax
        })
        &&& f.acc.y == (if bs > 0 {
            o.acc.y + tdiv(bs * SPRING, m)
        } else {
            o.acc.y as int
        })
        &&& f.pre == o.pre
        &&& f.id == o.id
        &&& f.typ == o.typ
        &&& f.theta == o.theta
        &&& f.omega == o.omega
        &&& f.alpha == o.alpha
        &&& f.collider == o.collider
    }
}

/// Whether one wall pass raises the reset signal for this body: after
/// the floor clamp, it still sticks out past the container top by more
/// than `margin`.
pub open spec fn wall_overflows(o: Fruit, margin: int) -> bool {
    &&& o.collider
    &&& {
        let r = o.typ.spec_radius();
        let bs = r - (o.pos.y - BOTTOM);
        let py = if bs > 0 {
            BOTTOM + r
        } else {
            o.pos.y as int
        };
        r - (TOP - py) > margin
    }
}

/// A body the wall pass would not move at all: inside the container on
/// all three contact sides.
pub open spec fn wall_settled(o: Fruit) -> bool {
    let r = o.typ.spec_radius();
    &&& r - (RIGHT - o.pos.x) <= 0
    &&& r - (o.pos.x - LEFT) <= 0
    &&& r - (o.pos.y - BOTTOM) <= 0
}

/// The wall pass determines its output body completely.
pub proof fn lemma_wall_rel_deterministic(o: Fruit, f1: Fruit, f2: Fruit)
    requires
        wall_rel(o, f1),
        wall_rel(o, f2),
    ensures
        f1 == f2,
{
}

/// After one wall pass a contact-eligible body stands inside the
/// container on the three contact sides: between the walls
/// horizontally, on or above the floor.
pub proof fn lemma_wall_confines(o: Fruit, f: Fruit)
    requires
        o.collider,
        wall_rel(o, f),
    ensures
        LEFT + f.typ.spec_radius() <= f.pos.x <= RIGHT - f.typ.spec_radius(),
        f.pos.y >= BOTTOM + f.typ.spec_radius(),
{
    assert(655360 <= o.typ.spec_radius() <= 14829104);
}

/// A settled body is a fixed point of the wall pass; so one pass after
/// a clamping pass, the position being exactly on the wall, changes
/// nothing further.  Idempotence of wall resolution on satisfied
/// bodies.
pub proof fn lemma_wall_idempotent(o: Fruit, f: Fruit)
    requires
        o.collider ==> wall_settled(o),
        wall_rel(o, f),
    ensures
        f == o,
{
}

/// The state of one body at the moment a collision was detected,
/// before any response was applied.
#[derive(Clone, Copy, Debug, PartialEq, Eq, Structural)]
pub struct BodySnapshot {
    pub id: u64,
    pub typ: FruitType,
    pub pos: crate::pva::Position,
    pub vel: crate::pva::Velocity,
    pub acc: crate::pva::Acceleration,
}

/// A detected circle-circle contact: pre-response snapshots of the two
/// bodies, in pair-enumeration order, for the merge engine.
#[derive(Clone, Copy, Debug, PartialEq, Eq, Structural)]
pub struct CollisionEvent(pub BodySnapshot, pub BodySnapshot);

pub open spec fn snap_of(f: Fruit) -> BodySnapshot {
    BodySnapshot { id: f.id, typ: f.typ, pos: f.pos, vel: f.vel, acc: f.acc }
}

pub open spec fn event_of(a: Fruit, b: Fruit) -> CollisionEvent {
    CollisionEvent(snap_of(a), snap_of(b))
}

/// Squared centre-to-centre distance.
pub open spec fn sq_dist(a: Fruit, b: Fruit) -> int {
    (b.pos.x - a.pos.x) * (b.pos.x - a.pos.x) + (b.pos.y - a.pos.y) * (b.pos.y - a.pos.y)
}

/// Centre-to-centre distance, rounded down.
pub open spec fn cdist(a: Fruit, b: Fruit) -> int {
    crate::fix::sqrt_floor(sq_dist(a, b))
}

/// How deeply the two circles interpenetrate.
pub open spec fn overlap_of(a: Fruit, b: Fruit) -> int {
    a.typ.spec_radius() + b.typ.spec_radius() - cdist(a, b)
}

/// The collision predicate: both bodies contact-eligible, circles
/// overlapping, and centres not coincident (an overlap of the full
/// radius sum would leave the push-apart direction indeterminate).
pub open spec fn colliding(a: Fruit, b: Fruit) -> bool {
    &&& a.collider
    &&& b.collider
    &&& 0 < overlap_of(a, b)
    &&& overlap_of(a, b) < a.typ.spec_radius() + b.typ.spec_radius()
}

/// Half-overlap push of body `a` away from body `b`, along the
/// centre line (the x component; `a` moves by the negation).
pub open spec fn squish_x(a: Fruit, b: Fruit) -> int {
    tdiv((b.pos.x - a.pos.x) * overlap_of(a, b), 2 * cdist(a, b))
}

pub open spec fn squish_y(a: Fruit, b: Fruit) -> int {
    tdiv((b.pos.y - a.pos.y) * overlap_of(a, b), 2 * cdist(a, b))
}

/// The closing component of `a`'s velocity toward `b` (zero when the
/// bodies separate: separating velocity is left untouched).
pub open spec fn vel_toward(a: Fruit, b: Fruit) -> int {
    let vdot = a.vel.x * (b.pos.x - a.pos.x) + a.vel.y * (b.pos.y - a.pos.y);
    if vdot > 0 {
        tdiv(vdot, cdist(a, b))
    } else {
        0
    }
}

/// Spring force on `a` from the pair contact (x component): the squish
/// as a fraction of `a`'s radius, times the spring gain.
pub open spec fn spring_x(a: Fruit, b: Fruit) -> int {
    tdiv(squish_x(a, b) * (SPRING * SCALE), a.typ.spec_radius())
}

pub open spec fn spring_y(a: Fruit, b: Fruit) -> int {
    tdiv(squish_y(a, b) * (SPRING * SCALE), a.typ.spec_radius())
}

/// Damping force on `a` (x component): the closing velocity along the
/// centre line, times the damping gain.
pub open spec fn damp_x(a: Fruit, b: Fruit) -> int {
    tdiv((b.pos.x - a.pos.x) * (DAMPER * vel_toward(a, b)), cdist(a, b))
}

pub open spec fn damp_y(a: Fruit, b: Fruit) -> int {
    tdiv((b.pos.y - a.pos.y) * (DAMPER * vel_toward(a, b)), cdist(a, b))
}

/// What one pair contact adds to one body's state.
pub struct Delta {
    pub dpx: int,
    pub dpy: int,
    pub dvx: int,
    pub dvy: int,
    pub dax: int,
    pub day: int,
    pub dom: int,
}

pub open spec fn delta_zero() -> Delta {
    Delta { dpx: 0, dpy: 0, dvx: 0, dvy: 0, dax: 0, day: 0, dom: 0 }
}

pub open spec fn delta_add(c: Delta, d: Delta) -> Delta {
    Delta {
        dpx: c.dpx + d.dpx,
        dpy: c.dpy + d.dpy,
        dvx: c.dvx + d.dvx,
        dvy: c.dvy + d.dvy,
        dax: c.dax + d.dax,
        day: c.day + d.day,
        dom: c.dom + d.dom,
    }
}

/// The response of body `a` to a contact with body `b`, all computed
/// from the pre-pass snapshot: position pushed back by half the
/// overlap, the closing velocity reflected with restitution, spring and
/// damping forces over `a`'s mass into the accumulator, and the slip
/// velocity at the contact point taken out of the spin.  Zero when the
/// pair does not collide.
pub open spec fn pair_delta(a: Fruit, b: Fruit) -> Delta {
    if colliding(a, b) {
        let dx = b.pos.x - a.pos.x;
        let dy = b.pos.y - a.pos.y;
        let dist = cdist(a, b);
        let vto = vel_toward(a, b);
        Delta {
            dpx: -squish_x(a, b),
            dpy: -squish_y(a, b),
            dvx: -tdiv(dx * (BOUNCE_NUM * vto), BOUNCE_DEN * dist),
            dvy: -tdiv(dy * (BOUNCE_NUM * vto), BOUNCE_DEN * dist),
            dax: -tdiv(spring_x(a, b) + damp_x(a, b), a.typ.spec_mass()),
            day: -tdiv(spring_y(a, b) + damp_y(a, b), a.typ.spec_mass()),
            dom: -a.omega.0 - tdiv(
                (dx * a.vel.y - dy * a.vel.x) * SCALE,
                dist * a.typ.spec_radius(),
            ),
        }
    } else {
        delta_zero()
    }
}

/// The sum of `a = s[k]`'s responses to its contacts with the bodies
/// at indices below `hi` (itself excluded).
pub open spec fn sum_delta(s: Seq<Fruit>, k: int, hi: int) -> Delta
    decreases hi,
{
    if hi <= 0 {
        delta_zero()
    } else if hi - 1 == k {
        sum_delta(s, k, hi - 1)
    } else {
        delta_add(sum_delta(s, k, hi - 1), pair_delta(s[k], s[hi - 1]))
    }
}

/// Largest magnitude any single pair response component can have, for
/// bodies within `RANGE`.
pub const DELTA_BOUND: i64 = 4 * RANGE;

/// Bounds on one pair's response and its intermediate quantities, for
/// bodies within `RANGE`.
pub proof fn lemma_pair_delta_bound(a: Fruit, b: Fruit)
    requires
        in_range(a),
        in_range(b),
    ensures
        vstd::math::abs(pair_delta(a, b).dpx) <= DELTA_BOUND,
        vstd::math::abs(pair_delta(a, b).dpy) <= DELTA_BOUND,
        vstd::math::abs(pair_delta(a, b).dvx) <= DELTA_BOUND,
        vstd::math::abs(pair_delta(a, b).dvy) <= DELTA_BOUND,
        vstd::math::abs(pair_delta(a, b).dax) <= DELTA_BOUND,
        vstd::math::abs(pair_delta(a, b).day) <= DELTA_BOUND,
        vstd::math::abs(pair_delta(a, b).dom) <= DELTA_BOUND,
        colliding(a, b) ==> {
            &&& 1 <= cdist(a, b) < 0x400_0000_0000
            &&& 0 < overlap_of(a, b) <= 29658208
            &&& vstd::math::abs(squish_x(a, b)) <= overlap_of(a, b)
            &&& vstd::math::abs(squish_y(a, b)) <= overlap_of(a, b)
            &&& 0 <= vel_toward(a, b) <= 2 * RANGE
            &&& vstd::math::abs(spring_x(a, b)) <= 0x2_0000_0000_0000
            &&& vstd::math::abs(spring_y(a, b)) <= 0x2_0000_0000_0000
            &&& vstd::math::abs(damp_x(a, b)) <= 20 * RANGE
            &&& vstd::math::abs(damp_y(a, b)) <= 20 * RANGE
        },
{
    if colliding(a, b) {
        let dx = b.pos.x - a.pos.x;
        let dy = b.pos.y - a.pos.y;
        let d2 = sq_dist(a, b);
        let dist = cdist(a, b);
        let ov = overlap_of(a, b);
        let ra = a.typ.spec_radius();
        let ma = a.typ.spec_mass();
        crate::typ::lemma_mass_values();
        assert(655360 <= ra <= 14829104);
        assert(10000 <= ma <= 5119999);
        assert(dx * dx >= 0 && dy * dy >= 0) by (nonlinear_arith);
        crate::fix::lemma_sqrt_floor(d2);
        assert(vstd::math::abs(dx) <= dist && vstd::math::abs(dy) <= dist) by (nonlinear_arith)
            requires
                dist >= 0,
                dx * dx + dy * dy < (dist + 1) * (dist + 1),
                dx * dx >= 0,
                dy * dy >= 0,
        ;
        assert(dist >= 1);
        assert(dist < 0x400_0000_0000) by (nonlinear_arith)
            requires
                dist >= 0,
                dist * dist <= dx * dx + dy * dy,
                vstd::math::abs(dx) <= 2 * RANGE as int,
                vstd::math::abs(dy) <= 2 * RANGE as int,
        ;
        assert(ov <= 29658208);

        // squish components: at most the overlap itself
        assert(vstd::math::abs(dx * ov) <= ov * (2 * dist) && vstd::math::abs(dy * ov) <= ov * (2
            * dist)) by (nonlinear_arith)
            requires
                vstd::math::abs(dx) <= dist,
                vstd::math::abs(dy) <= dist,
                0 < ov,
        ;
        crate::fix::lemma_tdiv_bound(dx * ov, 2 * dist, ov);
        crate::fix::lemma_tdiv_bound(dy * ov, 2 * dist, ov);

        // closing velocity: at most the velocity's own scale
        let vdot = a.vel.x * dx + a.vel.y * dy;
        assert(-(RANGE as int) * dist <= a.vel.x * dx <= (RANGE as int) * dist && -(RANGE as int)
            * dist <= a.vel.y * dy <= (RANGE as int) * dist) by (nonlinear_arith)
            requires
                -dist <= dx <= dist,
                -dist <= dy <= dist,
                dist >= 0,
                -(RANGE as int) <= (a.vel.x as int) && (a.vel.x as int) <= RANGE as int,
                -(RANGE as int) <= (a.vel.y as int) && (a.vel.y as int) <= RANGE as int,
        ;
        assert(vstd::math::abs(vdot) <= (2 * RANGE as int) * dist);
        if vdot > 0 {
            crate::fix::lemma_tdiv_bound(vdot, dist, 2 * RANGE as int);
            crate::fix::lemma_tdiv_abs(vdot, dist);
        }
        let vto = vel_toward(a, b);
        assert(0 <= vto <= 2 * RANGE);

        // restitution kick
        assert(vstd::math::abs(dx * (BOUNCE_NUM * vto)) <= (4 * RANGE as int) * (BOUNCE_DEN * dist)
            && vstd::math::abs(dy * (BOUNCE_NUM * vto)) <= (4 * RANGE as int) * (BOUNCE_DEN
            * dist)) by (nonlinear_arith)
            requires
                vstd::math::abs(dx) <= dist,
                vstd::math::abs(dy) <= dist,
                0 <= vto <= 2 * RANGE as int,
                BOUNCE_NUM == 13,
                BOUNCE_DEN == 10,
                RANGE as int > 0,
                dist >= 1,
        ;
        crate::fix::lemma_tdiv_bound(dx * (BOUNCE_NUM * vto), BOUNCE_DEN * dist, 4 * RANGE as int);
        crate::fix::lemma_tdiv_bound(dy * (BOUNCE_NUM * vto), BOUNCE_DEN * dist, 4 * RANGE as int);

        // spring and damping forces, then their mass-scaled sum
        assert(vstd::math::abs(squish_x(a, b) * (SPRING * SCALE)) <= 0x2_0000_0000_0000 * ra
            && vstd::math::abs(squish_y(a, b) * (SPRING * SCALE)) <= 0x2_0000_0000_0000 * ra)
            by (nonlinear_arith)
            requires
                vstd::math::abs(squish_x(a, b)) <= ov,
                vstd::math::abs(squish_y(a, b)) <= ov,
                0 < ov <= 29658208,
                655360 <= ra,
                SPRING == 100,
                SCALE == 65536,
        ;
        crate::fix::lemma_tdiv_bound(squish_x(a, b) * (SPRING * SCALE), ra, 0x2_0000_0000_0000);
        crate::fix::lemma_tdiv_bound(squish_y(a, b) * (SPRING * SCALE), ra, 0x2_0000_0000_0000);
        assert(vstd::math::abs(dx * (DAMPER * vto)) <= (20 * RANGE as int) * dist
            && vstd::math::abs(dy * (DAMPER * vto)) <= (20 * RANGE as int) * dist)
            by (nonlinear_arith)
            requires
                vstd::math::abs(dx) <= dist,
                vstd::math::abs(dy) <= dist,
                0 <= vto <= 2 * RANGE as int,
                DAMPER == 10,
                RANGE as int > 0,
        ;
        crate::fix::lemma_tdiv_bound(dx * (DAMPER * vto), dist, 20 * RANGE as int);
        crate::fix::lemma_tdiv_bound(dy * (DAMPER * vto), dist, 20 * RANGE as int);
        assert(vstd::math::abs(spring_x(a, b) + damp_x(a, b)) <= DELTA_BOUND * ma
            && vstd::math::abs(spring_y(a, b) + damp_y(a, b)) <= DELTA_BOUND * ma)
            by (nonlinear_arith)
            requires
                vstd::math::abs(spring_x(a, b)) <= 0x2_0000_0000_0000,
                vstd::math::abs(spring_y(a, b)) <= 0x2_0000_0000_0000,
                vstd::math::abs(damp_x(a, b)) <= 20 * RANGE as int,
                vstd::math::abs(damp_y(a, b)) <= 20 * RANGE as int,
                10000 <= ma,
                RANGE == 0x100_0000_0000,
                DELTA_BOUND == 4 * RANGE as int,
        ;
        crate::fix::lemma_tdiv_bound(spring_x(a, b) + damp_x(a, b), ma, DELTA_BOUND as int);
        crate::fix::lemma_tdiv_bound(spring_y(a, b) + damp_y(a, b), ma, DELTA_BOUND as int);

        // slip-driven spin change
        let num = dx * a.vel.y - dy * a.vel.x;
        assert(-(RANGE as int) * dist <= dx * a.vel.y <= (RANGE as int) * dist && -(RANGE as int)
            * dist <= dy * a.vel.x <= (RANGE as int) * dist) by (nonlinear_arith)
            requires
                -dist <= dx <= dist,
                -dist <= dy <= dist,
                dist >= 0,
                -(RANGE as int) <= (a.vel.x as int) && (a.vel.x as int) <= RANGE as int,
                -(RANGE as int) <= (a.vel.y as int) && (a.vel.y as int) <= RANGE as int,
        ;
        assert(vstd::math::abs(num * SCALE) <= RANGE as int * (dist * ra) && dist * ra > 0)
            by (nonlinear_arith)
            requires
                -(2 * (RANGE as int) * dist) <= num <= 2 * (RANGE as int) * dist,
                dist >= 1,
                655360 <= ra,
                SCALE == 65536,
                RANGE as int > 0,
        ;
        crate::fix::lemma_tdiv_bound(num * SCALE, dist * ra, RANGE as int);
    }
}

/// Colliding is symmetric in the two bodies.
pub proof fn lemma_colliding_symmetric(a: Fruit, b: Fruit)
    ensures
        sq_dist(a, b) == sq_dist(b, a),
        cdist(a, b) == cdist(b, a),
        overlap_of(a, b) == overlap_of(b, a),
        colliding(a, b) == colliding(b, a),
{
    assert(sq_dist(a, b) == sq_dist(b, a)) by (nonlinear_arith);
}

/// The sum of up to `hi` pair responses stays within `hi` times the
/// single-pair bound.
pub proof fn lemma_sum_delta_bound(s: Seq<Fruit>, k: int, hi: int)
    requires
        0 <= hi <= s.len(),
        0 <= k < s.len(),
        forall|j: int| 0 <= j < s.len() ==> in_range(#[trigger] s[j]),
    ensures
        vstd::math::abs(sum_delta(s, k, hi).dpx) <= hi * DELTA_BOUND,
        vstd::math::abs(sum_delta(s, k, hi).dpy) <= hi * DELTA_BOUND,
        vstd::math::abs(sum_delta(s, k, hi).dvx) <= hi * DELTA_BOUND,
        vstd::math::abs(sum_delta(s, k, hi).dvy) <= hi * DELTA_BOUND,
        vstd::math::abs(sum_delta(s, k, hi).dax) <= hi * DELTA_BOUND,
        vstd::math::abs(sum_delta(s, k, hi).day) <= hi * DELTA_BOUND,
        vstd::math::abs(sum_delta(s, k, hi).dom) <= hi * DELTA_BOUND,
    decreases hi,
{
    if hi > 0 {
        lemma_sum_delta_bound(s, k, hi - 1);
        if hi - 1 != k {
            lemma_pair_delta_bound(s[k], s[hi - 1]);
        }
    }
}

/// The events of the pairs `(i, j)` for this fixed `i` and `i < j < jhi`,
/// in order of `j`.
pub open spec fn events_row(s: Seq<Fruit>, i: int, jhi: int) -> Seq<CollisionEvent>
    decreases jhi - i,
{
    if jhi <= i + 1 {
        Seq::empty()
    } else if colliding(s[i], s[jhi - 1]) {
        events_row(s, i, jhi - 1).push(event_of(s[i], s[jhi - 1]))
    } else {
        events_row(s, i, jhi - 1)
    }
}

/// The events of all pairs `(i, j)` with `i < ihi`, `i < j < s.len()`,
/// in lexicographic pair order.
pub open spec fn events_upto(s: Seq<Fruit>, ihi: int) -> Seq<CollisionEvent>
    decreases ihi,
{
    if ihi <= 0 {
        Seq::empty()
    } else {
        events_upto(s, ihi - 1) + events_row(s, ihi - 1, s.len() as int)
    }
}

/// All collision events of one pass over the state `s`, in
/// lexicographic pair order.
pub open spec fn spec_events(s: Seq<Fruit>) -> Seq<CollisionEvent> {
    events_upto(s, s.len() as int)
}

/// What body `k` has accumulated once the pair scan stands before pair
/// `(i, j)`: responses to every earlier pair that contains `k`.
pub open spec fn partial_sum(s: Seq<Fruit>, k: int, i: int, j: int) -> Delta {
    if k < i {
        sum_delta(s, k, s.len() as int)
    } else if k == i {
        sum_delta(s, k, j)
    } else if k < j {
        sum_delta(s, k, i + 1)
    } else {
        sum_delta(s, k, i)
    }
}

/// Moving the scan from the end of row `i` to the start of row `i + 1`
/// changes no body's accumulated sum.
proof fn lemma_partial_sum_shift(s: Seq<Fruit>, k: int, i: int)
    requires
        0 <= k < s.len(),
        0 <= i < s.len(),
    ensures
        partial_sum(s, k, i, s.len() as int) == partial_sum(s, k, i + 1, i + 2),
{
}

/// How one pass of pair resolution transforms a single body: the
/// summed response added to position, velocity, acceleration and spin;
/// everything else untouched.
pub open spec fn pair_applied(o: Fruit, f: Fruit, d: Delta) -> bool {
    &&& f.pos.x == o.pos.x + d.dpx
    &&& f.pos.y == o.pos.y + d.dpy
    &&& f.vel.x == o.vel.x + d.dvx
    &&& f.vel.y == o.vel.y + d.dvy
    &&& f.acc.x == o.acc.x + d.dax
    &&& f.acc.y == o.acc.y + d.day
    &&& f.omega.0 == o.omega.0 + d.dom
    &&& f.pre == o.pre
    &&& f.theta == o.theta
    &&& f.alpha == o.alpha
    &&& f.id == o.id
    &&& f.typ == o.typ
    &&& f.collider == o.collider
}

/// One body's pair responses, accumulated additively while the scan
/// runs, widened so that accumulation cannot overflow.
#[derive(Clone, Copy)]
pub struct Correction {
    pub dpx: i128,
    pub dpy: i128,
    pub dvx: i128,
    pub dvy: i128,
    pub dax: i128,
    pub day: i128,
    pub dom: i128,
}

pub open spec fn corr_matches(c: Correction, d: Delta) -> bool {
    &&& c.dpx == d.dpx
    &&& c.dpy == d.dpy
    &&& c.dvx == d.dvx
    &&& c.dvy == d.dvy
    &&& c.dax == d.dax
    &&& c.day == d.day
    &&& c.dom == d.dom
}

/// Centre distance of two bodies, exactly `cdist`.
fn center_dist(a: &Fruit, b: &Fruit) -> (d: i64)
    requires
        in_range(*a),
        in_range(*b),
    ensures
        d == cdist(*a, *b),
        0 <= d < 0x400_0000_0000,
{
    let dx = b.pos.x - a.pos.x;
    let dy = b.pos.y - a.pos.y;
    let d2x = crate::fix::mul_wide(dx, dx);
    let d2y = crate::fix::mul_wide(dy, dy);
    proof {
        assert(0 <= d2x <= (2 * RANGE as int) * (2 * RANGE as int) && 0 <= d2y <= (2
            * RANGE as int) * (2 * RANGE as int)) by (nonlinear_arith)
            requires
                d2x == dx as int * dx as int,
                d2y == dy as int * dy as int,
                -2 * RANGE as int <= (dx as int) && (dx as int) <= 2 * RANGE as int,
                -2 * RANGE as int <= (dy as int) && (dy as int) <= 2 * RANGE as int,
        ;
    }
    let d2 = d2x + d2y;
    let du = crate::fix::isqrt(d2 as u128);
    proof {
        crate::fix::lemma_sqrt_floor(d2 as int);
        assert(du < 0x400_0000_0000) by (nonlinear_arith)
            requires
                du as int * du as int <= d2,
                d2 <= 2 * ((2 * RANGE as int) * (2 * RANGE as int)),
                du >= 0,
                RANGE == 0x100_0000_0000,
        ;
    }
    du as i64
}

/// The full response of body `a` to its contact with body `b`,
/// computed from the snapshots alone: exactly `pair_delta(a, b)`.
fn pair_correction(a: &Fruit, b: &Fruit) -> (c: Correction)
    requires
        in_range(*a),
        in_range(*b),
        colliding(*a, *b),
    ensures
        corr_matches(c, pair_delta(*a, *b)),
{
    proof {
        lemma_pair_delta_bound(*a, *b);
    }
    let dx = b.pos.x - a.pos.x;
    let dy = b.pos.y - a.pos.y;
    let dist = center_dist(a, b);
    let ra = a.typ.radius();
    let rb = b.typ.radius();
    let ov = ra + rb - dist;
    let m = a.typ.mass();
    proof {
        crate::typ::lemma_mass_values();
        assert(655360 <= ra <= 14829104);
        assert(10000 <= m <= 5119999);
        assert(dist >= 1);
    }

    let sx = mul_div(dx, ov, 2 * dist);
    let sy = mul_div(dy, ov, 2 * dist);

    let px = crate::fix::mul_wide(a.vel.x, dx);
    let py = crate::fix::mul_wide(a.vel.y, dy);
    proof {
        assert(-((2 * RANGE as int) * RANGE as int) <= px <= (2 * RANGE as int) * RANGE as int
            && -((2 * RANGE as int) * RANGE as int) <= py <= (2 * RANGE as int) * RANGE as int)
            by (nonlinear_arith)
            requires
                px == a.vel.x as int * dx as int,
                py == a.vel.y as int * dy as int,
                -2 * RANGE as int <= (dx as int) && (dx as int) <= 2 * RANGE as int,
                -2 * RANGE as int <= (dy as int) && (dy as int) <= 2 * RANGE as int,
                -(RANGE as int) <= (a.vel.x as int) && (a.vel.x as int) <= RANGE as int,
                -(RANGE as int) <= (a.vel.y as int) && (a.vel.y as int) <= RANGE as int,
        ;
    }
    let vdot = px + py;
    let vto: i64 = if vdot > 0 {
        crate::fix::narrow(crate::fix::div_wide(vdot, dist as i128))
    } else {
        0
    };
    proof {
        assert(vto == vel_toward(*a, *b));
    }

    let bvx = mul_div(dx, BOUNCE_NUM * vto, BOUNCE_DEN * dist);
    let bvy = mul_div(dy, BOUNCE_NUM * vto, BOUNCE_DEN * dist);

    let spx = mul_div(sx, SPRING * SCALE, ra);
    let spy = mul_div(sy, SPRING * SCALE, ra);
    let dmx = mul_div(dx, DAMPER * vto, dist);
    let dmy = mul_div(dy, DAMPER * vto, dist);
    let fax = mul_div(spx + dmx, 1, m);
    let fay = mul_div(spy + dmy, 1, m);

    let n1 = crate::fix::mul_wide(dx, a.vel.y);
    let n2 = crate::fix::mul_wide(dy, a.vel.x);
    proof {
        assert(-((2 * RANGE as int) * RANGE as int) <= n1 <= (2 * RANGE as int) * RANGE as int
            && -((2 * RANGE as int) * RANGE as int) <= n2 <= (2 * RANGE as int) * RANGE as int)
            by (nonlinear_arith)
            requires
                n1 == dx as int * a.vel.y as int,
                n2 == dy as int * a.vel.x as int,
                -2 * RANGE as int <= (dx as int) && (dx as int) <= 2 * RANGE as int,
                -2 * RANGE as int <= (dy as int) && (dy as int) <= 2 * RANGE as int,
                -(RANGE as int) <= (a.vel.x as int) && (a.vel.x as int) <= RANGE as int,
                -(RANGE as int) <= (a.vel.y as int) && (a.vel.y as int) <= RANGE as int,
        ;
    }
    let num = n1 - n2;
    let nums = num * (SCALE as i128);
    let den = crate::fix::mul_wide(dist, ra);
    proof {
        assert(den > 0) by (nonlinear_arith)
            requires
                den == dist as int * ra as int,
                dist >= 1,
                ra >= 655360,
        ;
    }
    let q = crate::fix::narrow(crate::fix::div_wide(nums, den));
    let dom = -a.omega.0 - q;

    Correction {
        dpx: -(sx as i128),
        dpy: -(sy as i128),
        dvx: -(bvx as i128),
        dvy: -(bvy as i128),
        dax: -(fax as i128),
        day: -(fay as i128),
        dom: dom as i128,
    }
}

/// Detect and resolve every circle-circle contact among the
/// contact-eligible bodies.
///
/// Every unordered pair is tested against the pre-pass state; each
/// colliding pair emits one event (pairs in lexicographic order, spec
/// `spec_events`) and contributes one response per body, computed from
/// the pre-pass snapshot (spec `pair_delta`).  All responses are then
/// applied additively (spec `pair_applied` with `sum_delta`), so the
/// outcome does not depend on the order in which pairs are enumerated.
pub fn check_fruit_collisions(fruits: &mut Vec<Fruit>) -> (events: Vec<CollisionEvent>)
    requires
        old(fruits)@.len() <= 32768,
        forall|k: int| 0 <= k < old(fruits)@.len() ==> in_range(#[trigger] old(fruits)@[k]),
    ensures
        final(fruits)@.len() == old(fruits)@.len(),
        events@ == spec_events(old(fruits)@),
        forall|k: int|
            0 <= k < old(fruits)@.len() ==> pair_applied(
                old(fruits)@[k],
                #[trigger] final(fruits)@[k],
                sum_delta(old(fruits)@, k, old(fruits)@.len() as int),
            ),
{
    let ghost s = fruits@;
    let n = fruits.len();
    let mut events: Vec<CollisionEvent> = Vec::new();

    let mut acc: Vec<Correction> = Vec::new();
    while acc.len() < n
        invariant
            acc@.len() <= n,
            forall|k: int|
                0 <= k < acc@.len() ==> corr_matches(
                    #[trigger] acc@[k],
                    delta_zero(),
                ),
        decreases n - acc@.len(),
    {
        acc.push(Correction { dpx: 0, dpy: 0, dvx: 0, dvy: 0, dax: 0, day: 0, dom: 0 });
    }
    proof {
        assert forall|k: int| 0 <= k < n implies corr_matches(
            #[trigger] acc@[k],
            partial_sum(s, k, 0, 1),
        ) by {
            assert(sum_delta(s, k, 0) == delta_zero());
            if k == 0 {
                assert(sum_delta(s, 0, 1) == delta_zero());
            }
        }
    }

    let mut i: usize = 0;
    while i < n
        invariant
            0 <= i <= n,
            n == fruits@.len(),
            s.len() == n,
            n <= 32768,
            fruits@ == s,
            acc@.len() == n,
            forall|k: int| 0 <= k < n ==> in_range(#[trigger] s[k]),
            forall|k: int|
                0 <= k < n ==> corr_matches(
                    #[trigger] acc@[k],
                    partial_sum(s, k, i as int, i as int + 1),
                ),
            events@ == events_upto(s, i as int),
        decreases n - i,
    {
        let mut j: usize = i + 1;
        while j < n
            invariant
                0 <= i < n,
                i + 1 <= j <= n,
                n == fruits@.len(),
                s.len() == n,
                n <= 32768,
                fruits@ == s,
                acc@.len() == n,
                forall|k: int| 0 <= k < n ==> in_range(#[trigger] s[k]),
                forall|k: int|
                    0 <= k < n ==> corr_matches(
                        #[trigger] acc@[k],
                        partial_sum(s, k, i as int, j as int),
                    ),
                events@ == events_upto(s, i as int) + events_row(s, i as int, j as int),
            decreases n - j,
        {
            let a = fruits[i];
            let b = fruits[j];
            let dist = center_dist(&a, &b);
            let ra = a.typ.radius();
            let rb = b.typ.radius();
            let ov = ra + rb - dist;
            proof {
                lemma_colliding_symmetric(s[i as int], s[j as int]);
            }
            if a.collider && b.collider && ov > 0 && ov < ra + rb {
                proof {
                    assert(colliding(s[i as int], s[j as int]));
                }
                events.push(
                    CollisionEvent(
                        BodySnapshot { id: a.id, typ: a.typ, pos: a.pos, vel: a.vel, acc: a.acc },
                        BodySnapshot { id: b.id, typ: b.typ, pos: b.pos, vel: b.vel, acc: b.acc },
                    ),
                );
                proof {
                    assert(events@ =~= events_upto(s, i as int) + events_row(
                        s,
                        i as int,
                        j as int + 1,
                    ));
                }
                let ca = pair_correction(&a, &b);
                let cb = pair_correction(&b, &a);
                proof {
                    lemma_sum_delta_bound(s, i as int, j as int);
                    lemma_sum_delta_bound(s, j as int, i as int);
                    lemma_pair_delta_bound(s[i as int], s[j as int]);
                    lemma_pair_delta_bound(s[j as int], s[i as int]);
                    assert(j as int * DELTA_BOUND <= 32768 * DELTA_BOUND && i as int * DELTA_BOUND
                        <= 32768 * DELTA_BOUND) by (nonlinear_arith)
                        requires
                            0 <= i as int <= 32768,
                            0 <= j as int <= 32768,
                            DELTA_BOUND > 0,
                    ;
                }
                let ai = acc[i];
                acc[i] = Correction {
                    dpx: ai.dpx + ca.dpx,
                    dpy: ai.dpy + ca.dpy,
                    dvx: ai.dvx + ca.dvx,
                    dvy: ai.dvy + ca.dvy,
                    dax: ai.dax + ca.dax,
                    day: ai.day + ca.day,
                    dom: ai.dom + ca.dom,
                };
                let aj = acc[j];
                acc[j] = Correction {
                    dpx: aj.dpx + cb.dpx,
                    dpy: aj.dpy + cb.dpy,
                    dvx: aj.dvx + cb.dvx,
                    dvy: aj.dvy + cb.dvy,
                    dax: aj.dax + cb.dax,
                    day: aj.day + cb.day,
                    dom: aj.dom + cb.dom,
                };
                proof {
                    assert forall|k: int| 0 <= k < n implies corr_matches(
                        #[trigger] acc@[k],
                        partial_sum(s, k, i as int, j as int + 1),
                    ) by {
                        if k == i as int {
                            assert(sum_delta(s, k, j as int + 1) == delta_add(
                                sum_delta(s, k, j as int),
                                pair_delta(s[k], s[j as int]),
                            ));
                        } else if k == j as int {
                            assert(sum_delta(s, k, i as int + 1) == delta_add(
                                sum_delta(s, k, i as int),
                                pair_delta(s[k], s[i as int]),
                            ));
                        }
                    }
                }
            } else {
                proof {
                    assert(!colliding(s[i as int], s[j as int]));
                    assert(events_row(s, i as int, j as int + 1) == events_row(
                        s,
                        i as int,
                        j as int,
                    ));
                    assert forall|k: int| 0 <= k < n implies corr_matches(
                        #[trigger] acc@[k],
                        partial_sum(s, k, i as int, j as int + 1),
                    ) by {
                        if k == i as int {
                            assert(pair_delta(s[k], s[j as int]) == delta_zero());
                        } else if k == j as int {
                            assert(pair_delta(s[k], s[i as int]) == delta_zero());
                        }
                    }
                }
            }
            j = j + 1;
        }
        proof {
            assert forall|k: int| 0 <= k < n implies corr_matches(
                #[trigger] acc@[k],
                partial_sum(s, k, i as int + 1, i as int + 2),
            ) by {
                lemma_partial_sum_shift(s, k, i as int);
            }
            assert(events@ =~= events_upto(s, i as int + 1));
        }
        i = i + 1;
    }

    let mut k: usize = 0;
    while k < n
        invariant
            0 <= k <= n,
            n == fruits@.len(),
            s.len() == n,
            n <= 32768,
            acc@.len() == n,
            forall|j: int| 0 <= j < n ==> in_range(#[trigger] s[j]),
            forall|j: int|
                0 <= j < n ==> corr_matches(
                    #[trigger] acc@[j],
                    sum_delta(s, j, n as int),
                ),
            forall|j: int| k <= j < n ==> fruits@[j] == s[j],
            forall|j: int|
                0 <= j < k ==> pair_applied(s[j], #[trigger] fruits@[j], sum_delta(s, j, n as int)),
        decreases n - k,
    {
        proof {
            lemma_sum_delta_bound(s, k as int, n as int);
            assert(n as int * DELTA_BOUND <= 32768 * DELTA_BOUND) by (nonlinear_arith)
                requires
                    0 <= n as int <= 32768,
                    DELTA_BOUND > 0,
            ;
            assert(in_range(s[k as int]));
        }
        let c = acc[k];
        let f = fruits[k];
        fruits[k] = Fruit {
            pos: crate::pva::Position {
                x: crate::fix::narrow(f.pos.x as i128 + c.dpx),
                y: crate::fix::narrow(f.pos.y as i128 + c.dpy),
            },
            vel: crate::pva::Velocity {
                x: crate::fix::narrow(f.vel.x as i128 + c.dvx),
                y: crate::fix::narrow(f.vel.y as i128 + c.dvy),
            },
            acc: crate::pva::Acceleration {
                x: crate::fix::narrow(f.acc.x as i128 + c.dax),
                y: crate::fix::narrow(f.acc.y as i128 + c.day),
            },
            omega: crate::toa::Omega(crate::fix::narrow(f.omega.0 as i128 + c.dom)),
            ..f
        };
        k = k + 1;
    }
    events
}

/// Resolve wall contacts for every body (spec `wall_rel`), and report
/// whether any body overflowed the top by more than `margin` (spec
/// `wall_overflows`).
pub fn check_wall_collisions(fruits: &mut Vec<Fruit>, margin: i64) -> (reset: Option<ResetEvent>)
    requires
        forall|k: int| 0 <= k < old(fruits)@.len() ==> in_range(#[trigger] old(fruits)@[k]),
    ensures
        final(fruits)@.len() == old(fruits)@.len(),
        forall|k: int|
            0 <= k < old(fruits)@.len() ==> wall_rel(old(fruits)@[k], #[trigger] final(fruits)@[k]),
        reset is Some <==> exists|k: int|
            0 <= k < old(fruits)@.len() && wall_overflows(#[trigger] old(fruits)@[k], margin as int),
{
    let ghost s = fruits@;
    let n = fruits.len();
    let mut k: usize = 0;
    let mut reset: Option<ResetEvent> = None;
    while k < n
        invariant
            0 <= k <= n,
            n == fruits@.len(),
            s.len() == n,
            forall|j: int| 0 <= j < n ==> in_range(#[trigger] s[j]),
            forall|j: int| k <= j < n ==> fruits@[j] == s[j],
            forall|j: int| 0 <= j < k ==> wall_rel(s[j], #[trigger] fruits@[j]),
            reset is Some <==> exists|j: int|
                0 <= j < k && wall_overflows(#[trigger] s[j], margin as int),
        decreases n - k,
    {
        let f = fruits[k];
        proof {
            assert(in_range(s[k as int]));
        }
        if f.collider {
            let r = f.typ.radius();
            let m = f.typ.mass();
            proof {
                crate::typ::lemma_mass_values();
                assert(655360 <= r <= 14829104);
                assert(10000 <= m <= 5119999);
            }
            let mut g = f;

            let right_squish = r - (RIGHT - f.pos.x);
            let x_force: i64 = if right_squish > 0 {
                g.pos.x = RIGHT - r;
                -right_squish * SPRING - f.vel.x * DAMPER
            } else {
                let left_squish = r - (f.pos.x - LEFT);
                if left_squish > 0 {
                    g.pos.x = LEFT + r;
                    left_squish * SPRING - f.vel.x * DAMPER
                } else {
                    0
                }
            };
            if x_force != 0 {
                proof {
                    crate::fix::lemma_tdiv_shrinks(x_force as int, m as int);
                }
                g.acc.x = f.acc.x + mul_div(x_force, 1, m);
            }

            let bottom_squish = r - (f.pos.y - BOTTOM);
            if bottom_squish > 0 {
                g.pos.y = BOTTOM + r;
                g.vel.y = 0;
                proof {
                    crate::fix::lemma_tdiv_shrinks(bottom_squish as int * SPRING, m as int);
                    crate::fix::lemma_tdiv_shrinks(f.vel.x as int * DAMPER, 10);
                }
                g.acc.y = f.acc.y + mul_div(bottom_squish, SPRING, m);
                g.acc.x = g.acc.x - mul_div(f.vel.x, DAMPER, 10);
            }

            let top_squish = r - (TOP - g.pos.y);
            if top_squish > margin {
                reset = Some(ResetEvent);
            }
            proof {
                assert(wall_rel(s[k as int], g));
                if top_squish > margin {
                    assert(wall_overflows(s[k as int], margin as int));
                }
            }
            fruits[k] = g;
        }
        k = k + 1;
    }
    reset
}

} // verus!
