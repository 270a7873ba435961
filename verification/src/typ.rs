//! The ten ordered size classes.
//!
//! Class `i`'s radius is `⌊√(2^i) · RADIUS_BLUEBERRY⌋` subunits, so each
//! promotion scales the radius by √2 (up to the one-subunit rounding of
//! the square root) and doubles the area.  Mass is the squared radius in
//! units times the shared density constant, truncated.

use vstd::prelude::*;

use crate::fix::{tdiv, SCALE};

verus! {

/// Density constant shared by all classes: mass per squared unit.
pub const DENSITY: i64 = 100;

/// Radius of the smallest class, in subunits (10 units).
pub const RADIUS_BLUEBERRY: i64 = 655360;

pub const RADIUS_CHERRY: i64 = 926819;

pub const RADIUS_APRICOT: i64 = 1310720;

pub const RADIUS_PLUM: i64 = 1853638;

pub const RADIUS_ORANGE: i64 = 2621440;

pub const RADIUS_APPLE: i64 = 3707276;

pub const RADIUS_GRAPEFRUIT: i64 = 5242880;

pub const RADIUS_HONEYDEW: i64 = 7414552;

pub const RADIUS_BASKETBALL: i64 = 10485760;

pub const RADIUS_WATERMELON: i64 = 14829104;

#[derive(Clone, Copy, Debug, PartialEq, Eq, Structural)]
pub enum FruitType {
    Blueberry,
    Cherry,
    Apricot,
    Plum,
    Orange,
    Apple,
    Grapefruit,
    Honeydew,
    Basketball,
    Watermelon,
}

impl FruitType {
    /// Position of the class in the size order, `0` to `9`.
    pub open spec fn ordinal(self) -> int {
        match self {
            FruitType::Blueberry => 0,
            FruitType::Cherry => 1,
            FruitType::Apricot => 2,
            FruitType::Plum => 3,
            FruitType::Orange => 4,
            FruitType::Apple => 5,
            FruitType::Grapefruit => 6,
            FruitType::Honeydew => 7,
            FruitType::Basketball => 8,
            FruitType::Watermelon => 9,
        }
    }

    /// The class at a given position in the size order.
    pub open spec fn from_ordinal(i: int) -> FruitType {
        if i <= 0 {
            FruitType::Blueberry
        } else if i == 1 {
            FruitType::Cherry
        } else if i == 2 {
            FruitType::Apricot
        } else if i == 3 {
            FruitType::Plum
        } else if i == 4 {
            FruitType::Orange
        } else if i == 5 {
            FruitType::Apple
        } else if i == 6 {
            FruitType::Grapefruit
        } else if i == 7 {
            FruitType::Honeydew
        } else if i == 8 {
            FruitType::Basketball
        } else {
            FruitType::Watermelon
        }
    }

    pub open spec fn spec_next(self) -> Option<FruitType> {
        if self.ordinal() < 9 {
            Some(FruitType::from_ordinal(self.ordinal() + 1))
        } else {
            None
        }
    }

    pub open spec fn spec_radius(self) -> int {
        match self {
            FruitType::Blueberry => RADIUS_BLUEBERRY as int,
            FruitType::Cherry => RADIUS_CHERRY as int,
            FruitType::Apricot => RADIUS_APRICOT as int,
            FruitType::Plum => RADIUS_PLUM as int,
            FruitType::Orange => RADIUS_ORANGE as int,
            FruitType::Apple => RADIUS_APPLE as int,
            FruitType::Grapefruit => RADIUS_GRAPEFRUIT as int,
            FruitType::Honeydew => RADIUS_HONEYDEW as int,
            FruitType::Basketball => RADIUS_BASKETBALL as int,
            FruitType::Watermelon => RADIUS_WATERMELON as int,
        }
    }

    /// Mass: squared radius in units, times the density constant,
    /// truncated to whole mass units.
    pub open spec fn spec_mass(self) -> int {
        tdiv(self.spec_radius() * self.spec_radius() * DENSITY, SCALE as int * SCALE as int)
    }

    /// The class at position `i` of the size order (saturating at the
    /// largest for `i >= 9`).
    pub fn of_index(i: usize) -> (t: FruitType)
        ensures
            t == FruitType::from_ordinal(i as int),
    {
        match i {
            0 => FruitType::Blueberry,
            1 => FruitType::Cherry,
            2 => FruitType::Apricot,
            3 => FruitType::Plum,
            4 => FruitType::Orange,
            5 => FruitType::Apple,
            6 => FruitType::Grapefruit,
            7 => FruitType::Honeydew,
            8 => FruitType::Basketball,
            _ => FruitType::Watermelon,
        }
    }

    /// Position of the class in the size order, as a machine integer.
    pub fn index(&self) -> (i: usize)
        ensures
            i == self.ordinal(),
    {
        match self {
            FruitType::Blueberry => 0,
            FruitType::Cherry => 1,
            FruitType::Apricot => 2,
            FruitType::Plum => 3,
            FruitType::Orange => 4,
            FruitType::Apple => 5,
            FruitType::Grapefruit => 6,
            FruitType::Honeydew => 7,
            FruitType::Basketball => 8,
            FruitType::Watermelon => 9,
        }
    }

    /// A class drawn at random from those no larger than `upper`.  The
    /// draw itself is outside the logic; whatever index comes back, the
    /// result respects the bound.
    pub fn rand_up_to(upper: Self) -> (t: Self)
        ensures
            t.ordinal() <= upper.ordinal(),
    {
        let n = upper.index() + 1;
        let i = pick_below(n);
        Self::of_index(i)
    }

    /// The next-larger class, or `None` for the largest.
    pub fn next(&self) -> (r: Option<FruitType>)
        ensures
            r == self.spec_next(),
    {
        match self {
            FruitType::Blueberry => Some(FruitType::Cherry),
            FruitType::Cherry => Some(FruitType::Apricot),
            FruitType::Apricot => Some(FruitType::Plum),
            FruitType::Plum => Some(FruitType::Orange),
            FruitType::Orange => Some(FruitType::Apple),
            FruitType::Apple => Some(FruitType::Grapefruit),
            FruitType::Grapefruit => Some(FruitType::Honeydew),
            FruitType::Honeydew => Some(FruitType::Basketball),
            FruitType::Basketball => Some(FruitType::Watermelon),
            FruitType::Watermelon => None,
        }
    }

    /// Geometric radius in subunits.
    pub fn radius(&self) -> (r: i64)
        ensures
            r == self.spec_radius(),
    {
        match self {
            FruitType::Blueberry => RADIUS_BLUEBERRY,
            FruitType::Cherry => RADIUS_CHERRY,
            FruitType::Apricot => RADIUS_APRICOT,
            FruitType::Plum => RADIUS_PLUM,
            FruitType::Orange => RADIUS_ORANGE,
            FruitType::Apple => RADIUS_APPLE,
            FruitType::Grapefruit => RADIUS_GRAPEFRUIT,
            FruitType::Honeydew => RADIUS_HONEYDEW,
            FruitType::Basketball => RADIUS_BASKETBALL,
            FruitType::Watermelon => RADIUS_WATERMELON,
        }
    }

    /// Mass in mass units.
    pub fn mass(&self) -> (m: i64)
        ensures
            m == self.spec_mass(),
    {
        let r = self.radius();
        assert(0 < r <= RADIUS_WATERMELON);
        let sq = crate::fix::mul_wide(r, r);
        assert(0 <= sq * 100 < 0x80_0000_0000_0000) by (nonlinear_arith)
            requires
                sq == r as int * r as int,
                0 < r <= 14829104,
        ;
        let p: i128 = sq * (DENSITY as i128);
        let d: i128 = 0x1_0000_0000;
        assert(d == SCALE as int * SCALE as int);
        let q = crate::fix::div_wide(p, d);
        proof {
            crate::fix::lemma_tdiv_bound(p as int, d as int, 0x80_0000_0000_0000);
            assert(0x80_0000_0000_0000 * 0x1_0000_0000 == 0x80_0000_0000_0000_0000_0000);
        }
        crate::fix::narrow(q)
    }
}

/// Relies on rand::random_range over `0..n`, which returns a member of
/// the (non-empty) range; nothing more is assumed of the draw.
#[verifier::external_body]
fn pick_below(n: usize) -> (r: usize)
    requires
        n >= 1,
    ensures
        r < n,
{
    rand::random_range(0..n)
}

/// Every class but the largest has a successor, one step up the order;
/// the largest has none.  The successor relation is the order's own
/// step, so following it never revisits a class.
pub proof fn lemma_successor_order(t: FruitType)
    ensures
        t.spec_next() is Some <==> t.ordinal() < 9,
        t == FruitType::Watermelon <==> t.spec_next() is None,
        t.spec_next() is Some ==> t.spec_next()->Some_0.ordinal() == t.ordinal() + 1,
{
}

/// The mass table, written out: the value of `spec_mass` for each of
/// the ten classes.
pub proof fn lemma_mass_values()
    ensures
        FruitType::Blueberry.spec_mass() == 10000,
        FruitType::Cherry.spec_mass() == 19999,
        FruitType::Apricot.spec_mass() == 40000,
        FruitType::Plum.spec_mass() == 79999,
        FruitType::Orange.spec_mass() == 160000,
        FruitType::Apple.spec_mass() == 319999,
        FruitType::Grapefruit.spec_mass() == 640000,
        FruitType::Honeydew.spec_mass() == 1279999,
        FruitType::Basketball.spec_mass() == 2560000,
        FruitType::Watermelon.spec_mass() == 5119999,
{
    assert(SCALE as int * SCALE as int == 4294967296) by (nonlinear_arith);
    assert(RADIUS_BLUEBERRY as int * RADIUS_BLUEBERRY as int * DENSITY == 42949672960000) by (nonlinear_arith);
    assert(RADIUS_CHERRY as int * RADIUS_CHERRY as int * DENSITY == 85899345876100) by (nonlinear_arith);
    assert(RADIUS_APRICOT as int * RADIUS_APRICOT as int * DENSITY == 171798691840000) by (nonlinear_arith);
    assert(RADIUS_PLUM as int * RADIUS_PLUM as int * DENSITY == 343597383504400) by (nonlinear_arith);
    assert(RADIUS_ORANGE as int * RADIUS_ORANGE as int * DENSITY == 687194767360000) by (nonlinear_arith);
    assert(RADIUS_APPLE as int * RADIUS_APPLE as int * DENSITY == 1374389534017600) by (nonlinear_arith);
    assert(RADIUS_GRAPEFRUIT as int * RADIUS_GRAPEFRUIT as int * DENSITY == 2748779069440000) by (nonlinear_arith);
    assert(RADIUS_HONEYDEW as int * RADIUS_HONEYDEW as int * DENSITY == 5497558136070400) by (nonlinear_arith);
    assert(RADIUS_BASKETBALL as int * RADIUS_BASKETBALL as int * DENSITY == 10995116277760000) by (nonlinear_arith);
    assert(RADIUS_WATERMELON as int * RADIUS_WATERMELON as int * DENSITY == 21990232544281600) by (nonlinear_arith);
}

/// Radius and mass are strictly increasing with the class ordinal.
pub proof fn lemma_size_increases(a: FruitType, b: FruitType)
    requires
        a.ordinal() < b.ordinal(),
    ensures
        a.spec_radius() < b.spec_radius(),
        a.spec_mass() < b.spec_mass(),
{
    lemma_mass_values();
}

/// One promotion scales the squared radius by two, up to the rounding
/// of the integer square root: the defect is below one radius, a
/// relative error under 2^-20.
pub proof fn lemma_radius_doubling(t: FruitType)
    requires
        t.spec_next() is Some,
    ensures
        vstd::math::abs(
            t.spec_next()->Some_0.spec_radius() * t.spec_next()->Some_0.spec_radius() - 2
                * t.spec_radius() * t.spec_radius(),
        ) <= t.spec_radius(),
{
    assert(vstd::math::abs(
        RADIUS_CHERRY as int * RADIUS_CHERRY as int - 2 * (RADIUS_BLUEBERRY as int)
            * (RADIUS_BLUEBERRY as int),
    ) <= RADIUS_BLUEBERRY as int);
    assert(vstd::math::abs(
        RADIUS_APRICOT as int * RADIUS_APRICOT as int - 2 * (RADIUS_CHERRY as int)
            * (RADIUS_CHERRY as int),
    ) <= RADIUS_CHERRY as int);
    assert(vstd::math::abs(
        RADIUS_PLUM as int * RADIUS_PLUM as int - 2 * (RADIUS_APRICOT as int)
            * (RADIUS_APRICOT as int),
    ) <= RADIUS_APRICOT as int);
    assert(vstd::math::abs(
        RADIUS_ORANGE as int * RADIUS_ORANGE as int - 2 * (RADIUS_PLUM as int)
            * (RADIUS_PLUM as int),
    ) <= RADIUS_PLUM as int);
    assert(vstd::math::abs(
        RADIUS_APPLE as int * RADIUS_APPLE as int - 2 * (RADIUS_ORANGE as int)
            * (RADIUS_ORANGE as int),
    ) <= RADIUS_ORANGE as int);
    assert(vstd::math::abs(
        RADIUS_GRAPEFRUIT as int * RADIUS_GRAPEFRUIT as int - 2 * (RADIUS_APPLE as int)
            * (RADIUS_APPLE as int),
    ) <= RADIUS_APPLE as int);
    assert(vstd::math::abs(
        RADIUS_HONEYDEW as int * RADIUS_HONEYDEW as int - 2 * (RADIUS_GRAPEFRUIT as int)
            * (RADIUS_GRAPEFRUIT as int),
    ) <= RADIUS_GRAPEFRUIT as int);
    assert(vstd::math::abs(
        RADIUS_BASKETBALL as int * RADIUS_BASKETBALL as int - 2 * (RADIUS_HONEYDEW as int)
            * (RADIUS_HONEYDEW as int),
    ) <= RADIUS_HONEYDEW as int);
    assert(vstd::math::abs(
        RADIUS_WATERMELON as int * RADIUS_WATERMELON as int - 2 * (RADIUS_BASKETBALL as int)
            * (RADIUS_BASKETBALL as int),
    ) <= RADIUS_BASKETBALL as int);
}

} // verus!
