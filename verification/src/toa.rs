//! Angular kinematics: orientation, angular velocity, and the angular
//! acceleration accumulator, integrated exactly like the linear side.

use vstd::prelude::*;

use crate::fix::{mul_div, tdiv, SCALE};
use crate::fruit::{in_range, Fruit, RANGE};
use crate::pva::dt2_of;

verus! {

/// Orientation, in subunit radians.
#[derive(Clone, Copy, Debug, PartialEq, Eq, Structural)]
pub struct Theta(pub i64);

/// Angular velocity, in subunit radians per second.
#[derive(Clone, Copy, Debug, PartialEq, Eq, Structural)]
pub struct Omega(pub i64);

/// Angular acceleration accumulator, cleared each tick.
#[derive(Clone, Copy, Debug, PartialEq, Eq, Structural)]
pub struct Alpha(pub i64);

/// The angular position phase, the analog of `vel_applied`.
pub open spec fn omega_applied(o: Fruit, f: Fruit, dt: int) -> bool {
    &&& f.theta.0 == o.theta.0 + tdiv(o.omega.0 * dt, SCALE as int) + tdiv(
        o.alpha.0 * dt2_of(dt),
        SCALE as int,
    )
    &&& f == Fruit { theta: f.theta, ..o }
}

/// The angular velocity phase, the analog of `acc_applied`.
pub open spec fn alpha_applied(o: Fruit, f: Fruit, dt: int) -> bool {
    &&& f.omega.0 == o.omega.0 + tdiv(o.alpha.0 * dt, SCALE as int)
    &&& f.alpha.0 == 0
    &&& f == Fruit { omega: f.omega, alpha: f.alpha, ..o }
}

/// Advance every body's orientation by one tick (spec `omega_applied`).
pub fn apply_omega(fruits: &mut Vec<Fruit>, dt: i64)
    requires
        0 < dt <= SCALE,
        forall|k: int| 0 <= k < old(fruits)@.len() ==> in_range(#[trigger] old(fruits)@[k]),
    ensures
        final(fruits)@.len() == old(fruits)@.len(),
        forall|k: int|
            0 <= k < old(fruits)@.len() ==> omega_applied(
                old(fruits)@[k],
                #[trigger] final(fruits)@[k],
                dt as int,
            ),
{
    let ghost s = fruits@;
    proof {
        assert(dt as int * dt as int <= SCALE as int * (2 * SCALE as int)) by (nonlinear_arith)
            requires
                0 < dt <= SCALE as int,
        ;
        crate::fix::lemma_tdiv_bound(dt as int * dt as int, 2 * SCALE as int, SCALE as int);
    }
    let dt2 = mul_div(dt, dt, 2 * SCALE);
    let n = fruits.len();
    let mut k: usize = 0;
    while k < n
        invariant
            0 <= k <= n,
            n == fruits@.len(),
            s.len() == n,
            0 < dt <= SCALE,
            0 <= dt2 <= SCALE,
            dt2 == dt2_of(dt as int),
            forall|j: int| 0 <= j < n ==> in_range(#[trigger] s[j]),
            forall|j: int| k <= j < n ==> fruits@[j] == s[j],
            forall|j: int| 0 <= j < k ==> omega_applied(s[j], #[trigger] fruits@[j], dt as int),
        decreases n - k,
    {
        let f = fruits[k];
        proof {
            assert(in_range(s[k as int]));
            assert(vstd::math::abs(f.omega.0 * dt) <= RANGE as int * SCALE as int
                && vstd::math::abs(f.alpha.0 * dt2) <= RANGE as int * SCALE as int)
                by (nonlinear_arith)
                requires
                    0 < dt <= SCALE as int,
                    0 <= dt2 <= SCALE as int,
                    vstd::math::abs(f.omega.0 as int) <= RANGE as int,
                    vstd::math::abs(f.alpha.0 as int) <= RANGE as int,
            ;
            crate::fix::lemma_tdiv_bound(f.omega.0 * dt, SCALE as int, RANGE as int);
            crate::fix::lemma_tdiv_bound(f.alpha.0 * dt2, SCALE as int, RANGE as int);
        }
        let dth = mul_div(f.omega.0, dt, SCALE);
        let ddth = mul_div(f.alpha.0, dt2, SCALE);
        fruits[k] = Fruit { theta: Theta(f.theta.0 + dth + ddth), ..f };
        k = k + 1;
    }
}

/// Convert angular acceleration into angular velocity change and clear
/// it (spec `alpha_applied`).
pub fn apply_alpha(fruits: &mut Vec<Fruit>, dt: i64)
    requires
        0 < dt <= SCALE,
        forall|k: int| 0 <= k < old(fruits)@.len() ==> in_range(#[trigger] old(fruits)@[k]),
    ensures
        final(fruits)@.len() == old(fruits)@.len(),
        forall|k: int|
            0 <= k < old(fruits)@.len() ==> alpha_applied(
                old(fruits)@[k],
                #[trigger] final(fruits)@[k],
                dt as int,
            ),
{
    let ghost s = fruits@;
    let n = fruits.len();
    let mut k: usize = 0;
    while k < n
        invariant
            0 <= k <= n,
            n == fruits@.len(),
            s.len() == n,
            0 < dt <= SCALE,
            forall|j: int| 0 <= j < n ==> in_range(#[trigger] s[j]),
            forall|j: int| k <= j < n ==> fruits@[j] == s[j],
            forall|j: int| 0 <= j < k ==> alpha_applied(s[j], #[trigger] fruits@[j], dt as int),
        decreases n - k,
    {
        let f = fruits[k];
        proof {
            assert(in_range(s[k as int]));
            assert(vstd::math::abs(f.alpha.0 * dt) <= RANGE as int * SCALE as int)
                by (nonlinear_arith)
                requires
                    0 < dt <= SCALE as int,
                    vstd::math::abs(f.alpha.0 as int) <= RANGE as int,
            ;
            crate::fix::lemma_tdiv_bound(f.alpha.0 * dt, SCALE as int, RANGE as int);
        }
        let dom = mul_div(f.alpha.0, dt, SCALE);
        fruits[k] = Fruit { omega: Omega(f.omega.0 + dom), alpha: Alpha(0), ..f };
        k = k + 1;
    }
}

} // verus!
