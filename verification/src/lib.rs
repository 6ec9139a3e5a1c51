//! A population of point agents that evolves, generation by generation, a
//! sequence of motion impulses steering each agent from a fixed start to a
//! fixed goal while avoiding line obstacles.
//!
//! All simulation state is held in fixed-point integers (thousandths of a
//! world unit), so every update, fitness and selection rule is exact and
//! fully specified. Randomness is drawn from an explicitly passed, seedable
//! generator, which keeps every run reproducible.

pub mod dot;
pub mod geom;
pub mod population;
pub mod rng;
