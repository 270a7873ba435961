//! The container: an axis-aligned box the bodies live in, in subunits
//! (300 units from the centre to each side).

use vstd::prelude::*;

verus! {

pub const RIGHT: i64 = 19660800;

pub const LEFT: i64 = -19660800;

pub const TOP: i64 = 19660800;

pub const BOTTOM: i64 = -19660800;

} // verus!
