//! Core of a falling-circles merge game: ten ordered size classes, a
//! fixed-timestep integrator, spring-damper wall and pair contact
//! resolution, and class-promotion merges, all over exact fixed-point
//! integer arithmetic (1 unit = `fix::SCALE` subunits).

pub mod collision;
pub mod fix;
pub mod fruit;
pub mod input;
pub mod pva;
pub mod reset;
pub mod toa;
pub mod typ;
pub mod world;
