//! The core of a tick-stepped traffic simulator. A `Sim` owns a seeded random
//! stream, the clock, a car id counter and four sub-simulators (driving, parking,
//! walking, intersections) over a read-only road network. It spawns agents by a
//! sequential plan, a parallel path search and a sequential commit, steps the
//! sub-simulators in a fixed order, and routes live map edits to them.
use vstd::prelude::*;

pub mod network;
pub mod rng;
pub mod idset;
pub mod intersections;
pub mod driving;
pub mod parking;
pub mod walking;
pub mod sim;
pub mod parallel;
pub mod spawn;
pub mod text;
pub mod queries;

verus! {

} // verus!
