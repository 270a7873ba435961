//! The body: one falling (or resting) circle, with its class and its
//! full kinematic state, held by value in a dense arena.

use vstd::prelude::*;

use crate::collision::CollisionEvent;
use crate::fix::{mul_div, tdiv, SCALE};
use crate::input::{digital_wf, Player};
use crate::pva::{
    apply_acceleration, apply_gravity, apply_velocity, Acceleration, Position, PreviousPosition,
    Velocity,
};
use crate::toa::{Alpha, Omega, Theta};
use crate::typ::FruitType;
use crate::world::TOP;

verus! {

/// Magnitude bound under which every stored scalar must stay for the
/// phase arithmetic to be exact (2^40 subunits, about sixteen million
/// units: far beyond anything the container can hold).
pub const RANGE: i64 = 0x100_0000_0000;

#[derive(Clone, Copy, Debug, PartialEq, Eq, Structural)]
pub struct Fruit {
    /// Stable identity; unique within a world.
    pub id: u64,
    pub typ: FruitType,
    pub pos: Position,
    /// Previous tick's position, for render interpolation only.
    pub pre: PreviousPosition,
    pub vel: Velocity,
    pub acc: Acceleration,
    pub theta: Theta,
    pub omega: Omega,
    pub alpha: Alpha,
    /// Whether the body takes part in gravity, wall and pair
    /// resolution; the player's preview body does not.
    pub collider: bool,
}

/// Every physical scalar of the body is within `RANGE`.
pub open spec fn in_range(f: Fruit) -> bool {
    &&& -RANGE <= f.pos.x <= RANGE
    &&& -RANGE <= f.pos.y <= RANGE
    &&& -RANGE <= f.pre.x <= RANGE
    &&& -RANGE <= f.pre.y <= RANGE
    &&& -RANGE <= f.vel.x <= RANGE
    &&& -RANGE <= f.vel.y <= RANGE
    &&& -RANGE <= f.acc.x <= RANGE
    &&& -RANGE <= f.acc.y <= RANGE
    &&& -RANGE <= f.theta.0 <= RANGE
    &&& -RANGE <= f.omega.0 <= RANGE
    &&& -RANGE <= f.alpha.0 <= RANGE
}

impl Fruit {
    /// A body of the given class at rest at the origin, not yet
    /// contact-eligible and with no identity assigned.
    pub fn new(typ: FruitType) -> (f: Fruit)
        ensures
            f == Fruit::new_spec(typ),
    {
        Fruit {
            id: 0,
            typ,
            pos: Position { x: 0, y: 0 },
            pre: PreviousPosition { x: 0, y: 0 },
            vel: Velocity { x: 0, y: 0 },
            acc: Acceleration { x: 0, y: 0 },
            theta: Theta(0),
            omega: Omega(0),
            alpha: Alpha(0),
            collider: false,
        }
    }

    /// A fresh body of a class drawn at random from those no larger
    /// than `upper`; otherwise as `new`.
    pub fn rand_to(upper: FruitType) -> (f: Fruit)
        ensures
            f.typ.ordinal() <= upper.ordinal(),
            f == Fruit::new_spec(f.typ),
    {
        Fruit::new(FruitType::rand_up_to(upper))
    }

    /// What `new` returns for a class.
    pub open spec fn new_spec(typ: FruitType) -> Fruit {
        Fruit {
            id: 0,
            typ,
            pos: Position { x: 0, y: 0 },
            pre: PreviousPosition { x: 0, y: 0 },
            vel: Velocity { x: 0, y: 0 },
            acc: Acceleration { x: 0, y: 0 },
            theta: Theta(0),
            omega: Omega(0),
            alpha: Alpha(0),
            collider: false,
        }
    }
}

/// No two bodies share an identity.
pub open spec fn ids_unique(s: Seq<Fruit>) -> bool {
    forall|i: int, j: int| 0 <= i < j < s.len() ==> #[trigger] s[i].id != #[trigger] s[j].id
}

/// The playfield: the live bodies, the player's preview, and the next
/// fresh identity.
pub struct World {
    pub fruits: Vec<Fruit>,
    pub player: Player,
    pub next_id: u64,
}

pub open spec fn world_wf(w: World) -> bool {
    &&& ids_unique(w.fruits@)
    &&& forall|k: int| 0 <= k < w.fruits@.len() ==> #[trigger] w.fruits@[k].id < w.next_id
    &&& digital_wf(w.player.input)
}

impl World {
    /// An empty playfield with a fresh preview.
    pub fn new() -> (w: World)
        ensures
            world_wf(w),
            w.fruits@.len() == 0,
            w.player.typ == FruitType::Blueberry,
    {
        World { fruits: Vec::new(), player: Player::new(), next_id: 0 }
    }
}

/// The body `drop_fruit` spawns: the preview's class, released just
/// inside the top at the preview's x, already falling.
pub open spec fn dropped_fruit(p: Player, id: u64) -> Fruit {
    Fruit {
        id,
        typ: p.typ,
        pos: Position { x: p.x, y: (TOP - p.typ.spec_radius()) as i64 },
        pre: PreviousPosition { x: p.x, y: (TOP - p.typ.spec_radius()) as i64 },
        vel: Velocity { x: 0, y: (-100 * SCALE as int) as i64 },
        acc: Acceleration { x: 0, y: 0 },
        theta: Theta(0),
        omega: Omega(0),
        alpha: Alpha(0),
        collider: true,
    }
}

/// Spawn a falling body from the preview, then re-arm the preview
/// with a random class no larger than apricot, back at the top.
pub fn drop_fruit(w: &mut World)
    requires
        world_wf(*old(w)),
        old(w).next_id < u64::MAX,
    ensures
        world_wf(*final(w)),
        final(w).fruits@ =~= old(w).fruits@.push(dropped_fruit(old(w).player, old(w).next_id)),
        final(w).next_id == old(w).next_id + 1,
        final(w).player.typ.ordinal() <= FruitType::Apricot.ordinal(),
        final(w).player.input == old(w).player.input,
        final(w).player.x == old(w).player.x,
{
    let r = w.player.typ.radius();
    proof {
        assert(655360 <= r <= 14829104);
    }
    let fruit = Fruit {
        id: w.next_id,
        typ: w.player.typ,
        pos: Position { x: w.player.x, y: TOP - r },
        pre: PreviousPosition { x: w.player.x, y: TOP - r },
        vel: Velocity { x: 0, y: -100 * SCALE },
        acc: Acceleration { x: 0, y: 0 },
        theta: Theta(0),
        omega: Omega(0),
        alpha: Alpha(0),
        collider: true,
    };
    w.fruits.push(fruit);
    w.next_id = w.next_id + 1;
    w.player.typ = FruitType::rand_up_to(FruitType::Apricot);
}

/// Whether a collision event is a merge: equal classes with a
/// successor to promote to (the largest class never merges).
pub open spec fn qualifies(e: CollisionEvent) -> bool {
    e.0.typ == e.1.typ && e.0.typ.spec_next() is Some
}

/// The position of the first merge among the events from `i` on.
pub open spec fn first_merge_from(es: Seq<CollisionEvent>, i: int) -> Option<int>
    decreases es.len() - i,
{
    if i < 0 || i >= es.len() {
        None
    } else if qualifies(es[i]) {
        Some(i)
    } else {
        first_merge_from(es, i + 1)
    }
}

/// Scanning forward over non-merges does not change which event is
/// the first merge.
proof fn lemma_first_merge_scan(es: Seq<CollisionEvent>, i: int)
    requires
        0 <= i <= es.len(),
        forall|j: int| 0 <= j < i ==> !qualifies(#[trigger] es[j]),
    ensures
        first_merge_from(es, 0) == first_merge_from(es, i),
    decreases i,
{
    if i > 0 {
        lemma_first_merge_scan(es, i - 1);
    }
}

/// The bodies of `s` whose identity is neither `a` nor `b`, in order.
pub open spec fn remove_ids(s: Seq<Fruit>, a: u64, b: u64) -> Seq<Fruit>
    decreases s.len(),
{
    if s.len() == 0 {
        Seq::empty()
    } else if s[0].id == a || s[0].id == b {
        remove_ids(s.drop_first(), a, b)
    } else {
        seq![s[0]] + remove_ids(s.drop_first(), a, b)
    }
}

/// What `remove_ids` keeps: everything but the two identities, order
/// and uniqueness intact.
pub proof fn lemma_remove_ids(s: Seq<Fruit>, a: u64, b: u64)
    ensures
        forall|m: int|
            0 <= m < remove_ids(s, a, b).len() ==> s.contains(#[trigger] remove_ids(s, a, b)[m])
                && remove_ids(s, a, b)[m].id != a && remove_ids(s, a, b)[m].id != b,
        forall|k: int|
            0 <= k < s.len() && s[k].id != a && s[k].id != b ==> remove_ids(s, a, b).contains(
                #[trigger] s[k],
            ),
        ids_unique(s) ==> ids_unique(remove_ids(s, a, b)),
        remove_ids(s, a, b).len() <= s.len(),
    decreases s.len(),
{
    if s.len() > 0 {
        lemma_remove_ids(s.drop_first(), a, b);
        let r = remove_ids(s, a, b);
        let rt = remove_ids(s.drop_first(), a, b);
        assert forall|m: int| 0 <= m < r.len() implies s.contains(r[m]) && r[m].id != a
            && r[m].id != b by {
            if s[0].id == a || s[0].id == b {
                assert(s.drop_first().contains(r[m]));
                let wit = choose|w: int|
                    0 <= w < s.drop_first().len() && s.drop_first()[w] == r[m];
                assert(s[wit + 1] == r[m]);
            } else {
                if m == 0 {
                    assert(s[0] == r[0]);
                } else {
                    assert(rt[m - 1] == r[m]);
                    assert(s.drop_first().contains(rt[m - 1]));
                    let wit = choose|w: int|
                        0 <= w < s.drop_first().len() && s.drop_first()[w] == rt[m - 1];
                    assert(s[wit + 1] == r[m]);
                }
            }
        }
        assert forall|k: int|
            0 <= k < s.len() && s[k].id != a && s[k].id != b implies r.contains(s[k]) by {
            if k == 0 {
                assert(r[0] == s[0]);
            } else {
                assert(s.drop_first()[k - 1] == s[k]);
                assert(rt.contains(s[k]));
                let wit = choose|w: int| 0 <= w < rt.len() && rt[w] == s[k];
                if s[0].id == a || s[0].id == b {
                    assert(r[wit] == s[k]);
                } else {
                    assert(r[wit + 1] == s[k]);
                }
            }
        }
        if ids_unique(s) {
            assert(ids_unique(s.drop_first())) by {
                assert forall|i: int, j: int|
                    0 <= i < j < s.drop_first().len() implies #[trigger] s.drop_first()[i].id
                    != #[trigger] s.drop_first()[j].id by {
                    assert(s[i + 1].id != s[j + 1].id);
                }
            }
            assert forall|i: int, j: int| 0 <= i < j < r.len() implies #[trigger] r[i].id
                != #[trigger] r[j].id by {
                if !(s[0].id == a || s[0].id == b) {
                    if i == 0 {
                        assert(s.drop_first().contains(rt[j - 1]));
                        let wit = choose|w: int|
                            0 <= w < s.drop_first().len() && s.drop_first()[w] == rt[j - 1];
                        assert(s[0].id != s[wit + 1].id);
                    }
                }
            }
        }
    }
}

/// The body a merge creates from the event `e`: the successor class,
/// at the midpoint of the two pre-collision positions, with the
/// mass-weighted average velocity (scaled by the successor's own
/// geometric mass, a deliberate design choice rather than literal
/// momentum conservation), no spin, contact-eligible.
pub open spec fn merged_rel(e: CollisionEvent, id: u64, f: Fruit) -> bool {
    &&& e.0.typ.spec_next() is Some
    &&& f.id == id
    &&& f.typ == e.0.typ.spec_next()->Some_0
    &&& f.pos.x == tdiv(e.0.pos.x + e.1.pos.x, 2)
    &&& f.pos.y == tdiv(e.0.pos.y + e.1.pos.y, 2)
    &&& f.pre.x == f.pos.x
    &&& f.pre.y == f.pos.y
    &&& f.vel.x == tdiv(
        e.0.vel.x * e.0.typ.spec_mass() + e.1.vel.x * e.1.typ.spec_mass(),
        e.0.typ.spec_next()->Some_0.spec_mass(),
    )
    &&& f.vel.y == tdiv(
        e.0.vel.y * e.0.typ.spec_mass() + e.1.vel.y * e.1.typ.spec_mass(),
        e.0.typ.spec_next()->Some_0.spec_mass(),
    )
    &&& f.acc == (Acceleration { x: 0, y: 0 })
    &&& f.theta == Theta(0)
    &&& f.omega == Omega(0)
    &&& f.alpha == Alpha(0)
    &&& f.collider == true
}

/// A snapshot whose position and velocity are within `RANGE`.
pub open spec fn snap_in_range(s: crate::collision::BodySnapshot) -> bool {
    &&& -RANGE <= s.pos.x <= RANGE
    &&& -RANGE <= s.pos.y <= RANGE
    &&& -RANGE <= s.vel.x <= RANGE
    &&& -RANGE <= s.vel.y <= RANGE
}

/// Consume the tick's collision events in order and commit the first
/// merge, if any: both input bodies despawn (a missing identity is
/// quietly skipped), one body of the successor class spawns per
/// `merged_rel`, and processing stops — at most one merge commits per
/// pass, so simultaneous merges resolve over successive ticks.
pub fn merge(w: &mut World, events: &Vec<CollisionEvent>)
    requires
        world_wf(*old(w)),
        old(w).next_id < u64::MAX,
        forall|i: int|
            0 <= i < events@.len() ==> snap_in_range(#[trigger] events@[i].0) && snap_in_range(
                events@[i].1,
            ),
    ensures
        world_wf(*final(w)),
        final(w).player == old(w).player,
        first_merge_from(events@, 0) is None ==> *final(w) == *old(w),
        first_merge_from(events@, 0) matches Some(i) ==> {
            &&& final(w).fruits@ =~= remove_ids(
                old(w).fruits@,
                events@[i].0.id,
                events@[i].1.id,
            ).push(final(w).fruits@.last())
            &&& merged_rel(events@[i], old(w).next_id, final(w).fruits@.last())
            &&& final(w).next_id == old(w).next_id + 1
        },
{
    let n = events.len();
    let mut i: usize = 0;
    while i < n
        invariant
            0 <= i <= n,
            n == events@.len(),
            *w == *old(w),
            world_wf(*w),
            w.next_id < u64::MAX,
            forall|j: int| 0 <= j < i ==> !qualifies(#[trigger] events@[j]),
            forall|j: int|
                0 <= j < n ==> snap_in_range(#[trigger] events@[j].0) && snap_in_range(
                    events@[j].1,
                ),
        decreases n - i,
    {
        let e = &events[i];
        if e.0.typ == e.1.typ {
            if let Some(new_type) = e.0.typ.next() {
                proof {
                    lemma_first_merge_scan(events@, i as int);
                    assert(first_merge_from(events@, i as int) == Some(i as int));
                    crate::typ::lemma_mass_values();
                }
                proof {
                    assert(snap_in_range(events@[i as int].0) && snap_in_range(
                        events@[i as int].1,
                    ));
                    crate::fix::lemma_tdiv_shrinks(e.0.pos.x + e.1.pos.x, 2);
                    crate::fix::lemma_tdiv_shrinks(e.0.pos.y + e.1.pos.y, 2);
                }
                let mx = mul_div(e.0.pos.x + e.1.pos.x, 1, 2);
                let my = mul_div(e.0.pos.y + e.1.pos.y, 1, 2);
                let m0 = e.0.typ.mass();
                let m1 = e.1.typ.mass();
                let mn = new_type.mass();
                let numx = crate::fix::mul_wide(e.0.vel.x, m0) + crate::fix::mul_wide(
                    e.1.vel.x,
                    m1,
                );
                let numy = crate::fix::mul_wide(e.0.vel.y, m0) + crate::fix::mul_wide(
                    e.1.vel.y,
                    m1,
                );
                proof {
                    assert(vstd::math::abs(numx as int) <= (2048 * RANGE as int) * mn
                        && vstd::math::abs(numy as int) <= (2048 * RANGE as int) * mn)
                        by (nonlinear_arith)
                        requires
                            numx == e.0.vel.x as int * m0 + e.1.vel.x as int * m1,
                            numy == e.0.vel.y as int * m0 + e.1.vel.y as int * m1,
                            -(RANGE as int) <= (e.0.vel.x as int) && (e.0.vel.x as int) <= RANGE as int,
                            -(RANGE as int) <= (e.0.vel.y as int) && (e.0.vel.y as int) <= RANGE as int,
                            -(RANGE as int) <= (e.1.vel.x as int) && (e.1.vel.x as int) <= RANGE as int,
                            -(RANGE as int) <= (e.1.vel.y as int) && (e.1.vel.y as int) <= RANGE as int,
                            0 < m0 <= 5119999,
                            0 < m1 <= 5119999,
                            10000 <= mn,
                            RANGE == 0x100_0000_0000,
                    ;
                    crate::fix::lemma_tdiv_bound(numx as int, mn as int, 2048 * RANGE as int);
                    crate::fix::lemma_tdiv_bound(numy as int, mn as int, 2048 * RANGE as int);
                }
                let vx = crate::fix::narrow(crate::fix::div_wide(numx, mn as i128));
                let vy = crate::fix::narrow(crate::fix::div_wide(numy, mn as i128));

                let ghost before = w.fruits@;
                let mut kept: Vec<Fruit> = Vec::new();
                let mut k: usize = 0;
                let m = w.fruits.len();
                proof {
                    assert(before.subrange(0, m as int) =~= before);
                }
                while k < m
                    invariant
                        0 <= k <= m,
                        m == w.fruits@.len(),
                        w.fruits@ == before,
                        remove_ids(before, e.0.id, e.1.id) =~= kept@ + remove_ids(
                            before.subrange(k as int, m as int),
                            e.0.id,
                            e.1.id,
                        ),
                    decreases m - k,
                {
                    let ghost rem = before.subrange(k as int, m as int);
                    let f = w.fruits[k];
                    proof {
                        assert(rem[0] == f);
                        assert(rem.drop_first() =~= before.subrange(k as int + 1, m as int));
                    }
                    if !(f.id == e.0.id || f.id == e.1.id) {
                        kept.push(f);
                    }
                    k = k + 1;
                }
                proof {
                    assert(before.subrange(m as int, m as int) =~= Seq::<Fruit>::empty());
                    assert(kept@ =~= remove_ids(before, e.0.id, e.1.id));
                }
                let merged = Fruit {
                    id: w.next_id,
                    typ: new_type,
                    pos: Position { x: mx, y: my },
                    pre: PreviousPosition { x: mx, y: my },
                    vel: Velocity { x: vx, y: vy },
                    acc: Acceleration { x: 0, y: 0 },
                    theta: Theta(0),
                    omega: Omega(0),
                    alpha: Alpha(0),
                    collider: true,
                };
                kept.push(merged);
                w.fruits = kept;
                w.next_id = w.next_id + 1;
                proof {
                    lemma_remove_ids(before, e.0.id, e.1.id);
                    let r = remove_ids(before, e.0.id, e.1.id);
                    assert forall|x: int|
                        0 <= x < r.len() implies #[trigger] r[x].id < old(w).next_id by {
                        assert(before.contains(r[x]));
                        let wit = choose|wit: int| 0 <= wit < before.len() && before[wit] == r[x];
                        assert(before[wit].id < old(w).next_id);
                    }
                    assert forall|x: int, y: int|
                        0 <= x < y < w.fruits@.len() implies #[trigger] w.fruits@[x].id
                        != #[trigger] w.fruits@[y].id by {
                        if y < w.fruits@.len() - 1 {
                            assert(r[x].id != r[y].id);
                        } else {
                            assert(r[x].id < old(w).next_id);
                        }
                    }
                }
                return ;
            }
        }
        i = i + 1;
    }
    proof {
        lemma_first_merge_scan(events@, n as int);
    }
}

/// A pass whose events none qualify commits no merge at all.
pub proof fn lemma_merge_none(es: Seq<CollisionEvent>, i: int)
    requires
        0 <= i <= es.len(),
        forall|j: int| 0 <= j < es.len() ==> !qualifies(#[trigger] es[j]),
    ensures
        first_merge_from(es, i) is None,
    decreases es.len() - i,
{
    if i < es.len() {
        lemma_merge_none(es, i + 1);
    }
}

/// Colliding bodies of different classes bounce but never merge: no
/// event pairing two distinct classes ever commits, so a pass over
/// such events changes nothing and spawns nothing.
pub proof fn lemma_no_merge_distinct_classes(es: Seq<CollisionEvent>)
    requires
        forall|j: int| 0 <= j < es.len() ==> (#[trigger] es[j]).0.typ != es[j].1.typ,
    ensures
        first_merge_from(es, 0) is None,
{
    lemma_merge_none(es, 0);
}

/// Bodies of the largest class bounce but never merge, however often
/// they collide: the terminal class has no successor, so no event
/// between two of them ever commits.
pub proof fn lemma_no_merge_terminal_class(es: Seq<CollisionEvent>)
    requires
        forall|j: int|
            0 <= j < es.len() ==> (#[trigger] es[j]).0.typ == FruitType::Watermelon && es[j].1.typ
                == FruitType::Watermelon,
    ensures
        first_merge_from(es, 0) is None,
{
    lemma_merge_none(es, 0);
}

/// Merging a two-body playfield of a class with a successor leaves
/// exactly one body: the successor, at the midpoint of the inputs'
/// positions, carrying the mass-weighted velocity; the two input
/// identities are gone.
pub proof fn lemma_merge_pair(b0: Fruit, b1: Fruit, e: CollisionEvent, id: u64, f: Fruit)
    requires
        e.0.id == b0.id,
        e.1.id == b1.id,
        qualifies(e),
        merged_rel(e, id, f),
    ensures
        remove_ids(seq![b0, b1], e.0.id, e.1.id).push(f) =~= seq![f],
        f.typ == e.0.typ.spec_next()->Some_0,
        f.pos.x == tdiv(e.0.pos.x + e.1.pos.x, 2),
        f.pos.y == tdiv(e.0.pos.y + e.1.pos.y, 2),
        f.omega == Omega(0),
        f.collider,
{
    let s = seq![b0, b1];
    assert(s.drop_first() =~= seq![b1]);
    assert(seq![b1].drop_first() =~= Seq::<Fruit>::empty());
    assert(remove_ids(s, e.0.id, e.1.id) == remove_ids(s.drop_first(), e.0.id, e.1.id));
    assert(remove_ids(seq![b1], e.0.id, e.1.id) == remove_ids(
        seq![b1].drop_first(),
        e.0.id,
        e.1.id,
    ));
    assert(remove_ids(Seq::<Fruit>::empty(), e.0.id, e.1.id) =~= Seq::<Fruit>::empty());
    assert(remove_ids(s, e.0.id, e.1.id) =~= Seq::<Fruit>::empty());
}

/// Whether every body is within the range the phase arithmetic needs;
/// callers check this before running a phase.
pub fn fruits_in_range(fruits: &Vec<Fruit>) -> (r: bool)
    ensures
        r == forall|k: int| 0 <= k < fruits@.len() ==> in_range(#[trigger] fruits@[k]),
{
    let n = fruits.len();
    let mut k: usize = 0;
    while k < n
        invariant
            0 <= k <= n,
            n == fruits@.len(),
            forall|j: int| 0 <= j < k ==> in_range(#[trigger] fruits@[j]),
        decreases n - k,
    {
        let f = fruits[k];
        if !(-RANGE <= f.pos.x && f.pos.x <= RANGE && -RANGE <= f.pos.y && f.pos.y <= RANGE
            && -RANGE <= f.pre.x && f.pre.x <= RANGE && -RANGE <= f.pre.y && f.pre.y <= RANGE
            && -RANGE <= f.vel.x && f.vel.x <= RANGE && -RANGE <= f.vel.y && f.vel.y <= RANGE
            && -RANGE <= f.acc.x && f.acc.x <= RANGE && -RANGE <= f.acc.y && f.acc.y <= RANGE
            && -RANGE <= f.theta.0 && f.theta.0 <= RANGE && -RANGE <= f.omega.0 && f.omega.0
            <= RANGE && -RANGE <= f.alpha.0 && f.alpha.0 <= RANGE) {
            proof {
                assert(!in_range(fruits@[k as int]));
            }
            return false;
        }
        k = k + 1;
    }
    true
}

pub open spec fn all_in_range(s: Seq<Fruit>) -> bool {
    forall|k: int| 0 <= k < s.len() ==> in_range(#[trigger] s[k])
}

/// Events drawn from bodies within range carry snapshots within
/// range.
proof fn lemma_events_row_snaps(s: Seq<Fruit>, i: int, jhi: int)
    requires
        0 <= i < s.len(),
        jhi <= s.len(),
        all_in_range(s),
    ensures
        forall|m: int|
            0 <= m < crate::collision::events_row(s, i, jhi).len() ==> snap_in_range(
                (#[trigger] crate::collision::events_row(s, i, jhi)[m]).0,
            ) && snap_in_range(crate::collision::events_row(s, i, jhi)[m].1),
    decreases jhi - i,
{
    if jhi > i + 1 {
        lemma_events_row_snaps(s, i, jhi - 1);
    }
}

proof fn lemma_events_upto_snaps(s: Seq<Fruit>, ihi: int)
    requires
        ihi <= s.len(),
        all_in_range(s),
    ensures
        forall|m: int|
            0 <= m < crate::collision::events_upto(s, ihi).len() ==> snap_in_range(
                (#[trigger] crate::collision::events_upto(s, ihi)[m]).0,
            ) && snap_in_range(crate::collision::events_upto(s, ihi)[m].1),
    decreases ihi,
{
    if ihi > 0 {
        lemma_events_upto_snaps(s, ihi - 1);
        lemma_events_row_snaps(s, ihi - 1, s.len() as int);
    }
}

/// The integration and wall stages of one tick, body by body, in
/// their fixed order.
pub open spec fn integrate_chain(
    s0: Seq<Fruit>,
    s1: Seq<Fruit>,
    s2: Seq<Fruit>,
    s3: Seq<Fruit>,
    s4: Seq<Fruit>,
    dt: int,
) -> bool {
    &&& s1.len() == s0.len()
    &&& forall|k: int|
        0 <= k < s0.len() ==> crate::pva::vel_applied(s0[k], #[trigger] s1[k], dt)
    &&& s2.len() == s0.len()
    &&& forall|k: int|
        0 <= k < s0.len() ==> crate::pva::acc_applied(s1[k], #[trigger] s2[k], dt)
    &&& s3.len() == s0.len()
    &&& forall|k: int| 0 <= k < s0.len() ==> crate::pva::gravity_applied(s2[k], #[trigger] s3[k])
    &&& s4.len() == s0.len()
    &&& forall|k: int|
        0 <= k < s0.len() ==> crate::collision::wall_rel(s3[k], #[trigger] s4[k])
}

/// A tick can run to completion from `w`: the body count is within
/// bounds and every intermediate state of the chain stays within the
/// arithmetic range.
pub open spec fn tick_prefix_ok(
    w: World,
    s1: Seq<Fruit>,
    s2: Seq<Fruit>,
    s3: Seq<Fruit>,
    s4: Seq<Fruit>,
    dt: int,
) -> bool {
    &&& w.fruits@.len() <= 32768
    &&& integrate_chain(w.fruits@, s1, s2, s3, s4, dt)
    &&& all_in_range(w.fruits@)
    &&& all_in_range(s1)
    &&& all_in_range(s2)
    &&& all_in_range(s3)
    &&& all_in_range(s4)
}

pub open spec fn tick_viable(w: World, dt: int) -> bool {
    exists|s1: Seq<Fruit>, s2: Seq<Fruit>, s3: Seq<Fruit>, s4: Seq<Fruit>|
        tick_prefix_ok(w, s1, s2, s3, s4, dt)
}

/// What a completed tick did: the chain ran in its fixed order —
/// positions, then the accumulator, then gravity, then walls (raising
/// the reset signal exactly when a body overflowed the top), then the
/// pair resolver with its events, then the merge pass over those
/// events.
pub open spec fn tick_committed(
    w0: World,
    w1: World,
    s1: Seq<Fruit>,
    s2: Seq<Fruit>,
    s3: Seq<Fruit>,
    s4: Seq<Fruit>,
    s5: Seq<Fruit>,
    dt: int,
    margin: int,
    reset: Option<crate::collision::ResetEvent>,
    events: Seq<CollisionEvent>,
) -> bool {
    &&& tick_prefix_ok(w0, s1, s2, s3, s4, dt)
    &&& (reset is Some <==> exists|k: int|
        0 <= k < s3.len() && crate::collision::wall_overflows(#[trigger] s3[k], margin))
    &&& events == crate::collision::spec_events(s4)
    &&& s5.len() == s4.len()
    &&& forall|k: int|
        0 <= k < s4.len() ==> crate::collision::pair_applied(
            s4[k],
            #[trigger] s5[k],
            crate::collision::sum_delta(s4, k, s4.len() as int),
        )
    &&& w1.player == w0.player
    &&& (first_merge_from(events, 0) is None ==> w1.fruits@ == s5 && w1.next_id == w0.next_id)
    &&& (first_merge_from(events, 0) matches Some(i) ==> {
        &&& w1.fruits@ =~= remove_ids(s5, events[i].0.id, events[i].1.id).push(
            w1.fruits@.last(),
        )
        &&& merged_rel(events[i], w0.next_id, w1.fruits@.last())
        &&& w1.next_id == w0.next_id + 1
    })
}

/// What one tick returned: the overflow signal, if raised, and the
/// tick's collision events.
pub struct TickOutcome {
    pub reset: Option<crate::collision::ResetEvent>,
    pub events: Vec<CollisionEvent>,
}

/// One fixed tick, the phases in their fixed order (spec
/// `tick_committed`).  The tick commits atomically: if any
/// intermediate state would leave the arithmetic range — and only
/// then — nothing changes and `None` comes back.
pub fn tick(w: &mut World, dt: i64, margin: i64) -> (r: Option<TickOutcome>)
    requires
        world_wf(*old(w)),
        old(w).next_id < u64::MAX,
        0 < dt <= crate::fix::SCALE,
    ensures
        r is None ==> *final(w) == *old(w) && !tick_viable(*old(w), dt as int),
        r matches Some(out) ==> world_wf(*final(w)) && exists|
            s1: Seq<Fruit>,
            s2: Seq<Fruit>,
            s3: Seq<Fruit>,
            s4: Seq<Fruit>,
            s5: Seq<Fruit>,
        |
            tick_committed(
                *old(w),
                *final(w),
                s1,
                s2,
                s3,
                s4,
                s5,
                dt as int,
                margin as int,
                out.reset,
                out.events@,
            ),
{
    let ghost s0 = w.fruits@;
    if w.fruits.len() > 32768 {
        proof {
            assert(!tick_viable(*w, dt as int)) by {
                if tick_viable(*w, dt as int) {
                    let (t1, t2, t3, t4) = choose|
                        t1: Seq<Fruit>,
                        t2: Seq<Fruit>,
                        t3: Seq<Fruit>,
                        t4: Seq<Fruit>,
                    | tick_prefix_ok(*w, t1, t2, t3, t4, dt as int);
                    assert(false);
                }
            }
        }
        return None;
    }
    if !fruits_in_range(&w.fruits) {
        proof {
            assert(!tick_viable(*w, dt as int)) by {
                if tick_viable(*w, dt as int) {
                    let (t1, t2, t3, t4) = choose|
                        t1: Seq<Fruit>,
                        t2: Seq<Fruit>,
                        t3: Seq<Fruit>,
                        t4: Seq<Fruit>,
                    | tick_prefix_ok(*w, t1, t2, t3, t4, dt as int);
                    assert(false);
                }
            }
        }
        return None;
    }

    // work on a copy, so that an aborted tick leaves the world as it
    // was
    let n = w.fruits.len();
    let mut fruits: Vec<Fruit> = Vec::new();
    let mut k: usize = 0;
    while k < n
        invariant
            0 <= k <= n,
            n == w.fruits@.len(),
            fruits@ =~= w.fruits@.subrange(0, k as int),
        decreases n - k,
    {
        fruits.push(w.fruits[k]);
        k = k + 1;
    }
    proof {
        assert(fruits@ =~= s0);
    }

    apply_velocity(&mut fruits, dt);
    let ghost s1 = fruits@;
    if !fruits_in_range(&fruits) {
        proof {
            assert(!tick_viable(*w, dt as int)) by {
                if tick_viable(*w, dt as int) {
                    let (t1, t2, t3, t4) = choose|
                        t1: Seq<Fruit>,
                        t2: Seq<Fruit>,
                        t3: Seq<Fruit>,
                        t4: Seq<Fruit>,
                    | tick_prefix_ok(*w, t1, t2, t3, t4, dt as int);
                    assert forall|j: int| 0 <= j < s0.len() implies t1[j] == s1[j] by {
                        crate::pva::lemma_vel_applied_deterministic(
                            s0[j],
                            t1[j],
                            s1[j],
                            dt as int,
                        );
                    }
                    assert(t1 =~= s1);
                    assert(false);
                }
            }
        }
        return None;
    }

    apply_acceleration(&mut fruits, dt);
    let ghost s2 = fruits@;
    if !fruits_in_range(&fruits) {
        proof {
            assert(!tick_viable(*w, dt as int)) by {
                if tick_viable(*w, dt as int) {
                    let (t1, t2, t3, t4) = choose|
                        t1: Seq<Fruit>,
                        t2: Seq<Fruit>,
                        t3: Seq<Fruit>,
                        t4: Seq<Fruit>,
                    | tick_prefix_ok(*w, t1, t2, t3, t4, dt as int);
                    assert forall|j: int| 0 <= j < s0.len() implies t1[j] == s1[j] by {
                        crate::pva::lemma_vel_applied_deterministic(
                            s0[j],
                            t1[j],
                            s1[j],
                            dt as int,
                        );
                    }
                    assert(t1 =~= s1);
                    assert forall|j: int| 0 <= j < s0.len() implies t2[j] == s2[j] by {
                        crate::pva::lemma_acc_applied_deterministic(
                            s1[j],
                            t2[j],
                            s2[j],
                            dt as int,
                        );
                    }
                    assert(t2 =~= s2);
                    assert(false);
                }
            }
        }
        return None;
    }

    apply_gravity(&mut fruits);
    let ghost s3 = fruits@;
    if !fruits_in_range(&fruits) {
        proof {
            assert(!tick_viable(*w, dt as int)) by {
                if tick_viable(*w, dt as int) {
                    let (t1, t2, t3, t4) = choose|
                        t1: Seq<Fruit>,
                        t2: Seq<Fruit>,
                        t3: Seq<Fruit>,
                        t4: Seq<Fruit>,
                    | tick_prefix_ok(*w, t1, t2, t3, t4, dt as int);
                    assert forall|j: int| 0 <= j < s0.len() implies t1[j] == s1[j] by {
                        crate::pva::lemma_vel_applied_deterministic(
                            s0[j],
                            t1[j],
                            s1[j],
                            dt as int,
                        );
                    }
                    assert(t1 =~= s1);
                    assert forall|j: int| 0 <= j < s0.len() implies t2[j] == s2[j] by {
                        crate::pva::lemma_acc_applied_deterministic(
                            s1[j],
                            t2[j],
                            s2[j],
                            dt as int,
                        );
                    }
                    assert(t2 =~= s2);
                    assert forall|j: int| 0 <= j < s0.len() implies t3[j] == s3[j] by {
                        crate::pva::lemma_gravity_applied_deterministic(s2[j], t3[j], s3[j]);
                    }
                    assert(t3 =~= s3);
                    assert(false);
                }
            }
        }
        return None;
    }

    let reset = crate::collision::check_wall_collisions(&mut fruits, margin);
    let ghost s4 = fruits@;
    if !fruits_in_range(&fruits) {
        proof {
            assert(!tick_viable(*w, dt as int)) by {
                if tick_viable(*w, dt as int) {
                    let (t1, t2, t3, t4) = choose|
                        t1: Seq<Fruit>,
                        t2: Seq<Fruit>,
                        t3: Seq<Fruit>,
                        t4: Seq<Fruit>,
                    | tick_prefix_ok(*w, t1, t2, t3, t4, dt as int);
                    assert forall|j: int| 0 <= j < s0.len() implies t1[j] == s1[j] by {
                        crate::pva::lemma_vel_applied_deterministic(
                            s0[j],
                            t1[j],
                            s1[j],
                            dt as int,
                        );
                    }
                    assert(t1 =~= s1);
                    assert forall|j: int| 0 <= j < s0.len() implies t2[j] == s2[j] by {
                        crate::pva::lemma_acc_applied_deterministic(
                            s1[j],
                            t2[j],
                            s2[j],
                            dt as int,
                        );
                    }
                    assert(t2 =~= s2);
                    assert forall|j: int| 0 <= j < s0.len() implies t3[j] == s3[j] by {
                        crate::pva::lemma_gravity_applied_deterministic(s2[j], t3[j], s3[j]);
                    }
                    assert(t3 =~= s3);
                    assert forall|j: int| 0 <= j < s0.len() implies t4[j] == s4[j] by {
                        crate::collision::lemma_wall_rel_deterministic(s3[j], t4[j], s4[j]);
                    }
                    assert(t4 =~= s4);
                    assert(false);
                }
            }
        }
        return None;
    }

    let events = crate::collision::check_fruit_collisions(&mut fruits);
    let ghost s5 = fruits@;

    // commit the physics, then run the merge pass on the committed
    // state
    w.fruits = fruits;
    proof {
        assert forall|x: int| 0 <= x < s5.len() implies #[trigger] s5[x].id == s0[x].id by {}
        assert forall|x: int, y: int| 0 <= x < y < s5.len() implies #[trigger] s5[x].id
            != #[trigger] s5[y].id by {
            assert(s0[x].id != s0[y].id);
        }
        lemma_events_upto_snaps(s4, s4.len() as int);
    }
    merge(w, &events);
    proof {
        assert(tick_committed(
            *old(w),
            *w,
            s1,
            s2,
            s3,
            s4,
            s5,
            dt as int,
            margin as int,
            reset,
            events@,
        ));
    }
    let out = TickOutcome { reset, events };
    proof {
        assert(out.reset == reset && out.events@ == events@);
        assert(exists|
            u1: Seq<Fruit>,
            u2: Seq<Fruit>,
            u3: Seq<Fruit>,
            u4: Seq<Fruit>,
            u5: Seq<Fruit>,
        |
            tick_committed(
                *old(w),
                *w,
                u1,
                u2,
                u3,
                u4,
                u5,
                dt as int,
                margin as int,
                out.reset,
                out.events@,
            ));
    }
    Some(out)
}

/// Whether a world is well-formed, decided at run time: unique
/// identities below the next fresh one, and a digit buffer of digits.
pub fn world_wf_check(w: &World) -> (r: bool)
    ensures
        r == world_wf(*w),
{
    let n = w.fruits.len();
    let mut k: usize = 0;
    while k < n
        invariant
            0 <= k <= n,
            n == w.fruits@.len(),
            forall|j: int| 0 <= j < k ==> #[trigger] w.fruits@[j].id < w.next_id,
            forall|i: int, j: int|
                0 <= i < j < n && i < k ==> #[trigger] w.fruits@[i].id != #[trigger] w.fruits@[j].id,
        decreases n - k,
    {
        if !(w.fruits[k].id < w.next_id) {
            return false;
        }
        let mut j: usize = k + 1;
        while j < n
            invariant
                k < j <= n,
                k < n,
                n == w.fruits@.len(),
                forall|m: int| k < m < j ==> #[trigger] w.fruits@[m].id != w.fruits@[k as int].id,
            decreases n - j,
        {
            if w.fruits[j].id == w.fruits[k].id {
                return false;
            }
            j = j + 1;
        }
        k = k + 1;
    }
    let d = w.player.input.keys.len();
    let mut i: usize = 0;
    while i < d
        invariant
            0 <= i <= d,
            d == w.player.input.keys@.len(),
            forall|j: int| 0 <= j < i ==> #[trigger] w.player.input.keys@[j] < 10,
        decreases d - i,
    {
        if !(w.player.input.keys[i] < 10) {
            return false;
        }
        i = i + 1;
    }
    true
}

/// The render position between the last two committed states: the
/// previous position moved toward the current one by the overstep
/// fraction `num/den`, clamped to one whole step.
pub fn interpolate_rendered_transform(f: &Fruit, num: i64, den: i64) -> (p: Position)
    requires
        in_range(*f),
        0 < den,
        0 <= num,
    ensures
        ({
            let alpha = if num <= den {
                tdiv(num * SCALE, den as int)
            } else {
                SCALE as int
            };
            p.x == f.pre.x + tdiv((f.pos.x - f.pre.x) * alpha, SCALE as int) && p.y == f.pre.y
                + tdiv((f.pos.y - f.pre.y) * alpha, SCALE as int)
        }),
{
    let alpha: i64 = if num <= den {
        proof {
            assert(vstd::math::abs(num * SCALE) <= SCALE as int * den) by (nonlinear_arith)
                requires
                    0 <= num <= den,
                    SCALE == 65536,
            ;
            crate::fix::lemma_tdiv_bound(num * SCALE, den as int, SCALE as int);
        }
        mul_div(num, SCALE, den)
    } else {
        SCALE
    };
    proof {
        assert(0 <= alpha <= SCALE) by {
            if num <= den {
                crate::fix::lemma_tdiv_abs(num * SCALE, den as int);
                assert(num * SCALE >= 0) by (nonlinear_arith)
                    requires
                        num >= 0,
                        SCALE == 65536,
                ;
            }
        }
        assert(vstd::math::abs((f.pos.x - f.pre.x) * alpha) <= (2 * RANGE as int) * SCALE as int
            && vstd::math::abs((f.pos.y - f.pre.y) * alpha) <= (2 * RANGE as int) * SCALE as int)
            by (nonlinear_arith)
            requires
                0 <= alpha <= SCALE as int,
                -(RANGE as int) <= (f.pos.x as int) && (f.pos.x as int) <= RANGE as int,
                -(RANGE as int) <= (f.pos.y as int) && (f.pos.y as int) <= RANGE as int,
                -(RANGE as int) <= (f.pre.x as int) && (f.pre.x as int) <= RANGE as int,
                -(RANGE as int) <= (f.pre.y as int) && (f.pre.y as int) <= RANGE as int,
                SCALE == 65536,
        ;
        crate::fix::lemma_tdiv_bound((f.pos.x - f.pre.x) * alpha, SCALE as int, 2 * RANGE as int);
        crate::fix::lemma_tdiv_bound((f.pos.y - f.pre.y) * alpha, SCALE as int, 2 * RANGE as int);
    }
    let dx = mul_div(f.pos.x - f.pre.x, alpha, SCALE);
    let dy = mul_div(f.pos.y - f.pre.y, alpha, SCALE);
    Position { x: f.pre.x + dx, y: f.pre.y + dy }
}

} // verus!
