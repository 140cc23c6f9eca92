//! A verified grid-based snake simulation.
//!
//! The library holds the deterministic core of the game: the grid model and
//! its invariants, the step simulation (movement, collisions, fruit, score),
//! the controller abstraction that turns directional intents into velocity
//! changes, the flat cell-occupancy snapshot handed to an external agent, and
//! the per-frame tick decisions. Rendering, keyboard polling, threads and
//! channels live outside the library and exchange plain values with it.

pub mod control;
pub mod engine;
mod rng;
pub mod snapshot;
