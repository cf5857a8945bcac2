//! Why a setup value is refused.

use vstd::prelude::*;

verus! {

/// A setup value that the simulation cannot run with.
#[derive(Clone, Copy, Debug, PartialEq, Eq, Structural)]
pub enum ConfigError {
    /// The two endpoints of a portal coincide.
    DegeneratePortal,
    /// A grid has no columns or no rows.
    EmptyGrid,
    /// A grid has more cells than the machine can count.
    GridTooLarge,
    /// No particle would be emitted.
    NoParticles,
    /// A fan has another number of directions than its tier has particles.
    FanMismatch,
}

} // verus!
