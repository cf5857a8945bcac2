//! A mass field on a bounded grid whose edges are joined by a pair of linked
//! portals, computed in saturating fixed-point arithmetic.
//!
//! Every massive cell sends out tracer particles; each of them, wherever it
//! arrives, sends out a fan of short-lived particles that take their share of
//! the mass, times their velocity, from the field of every cell they pass.
//! A particle that leaves through one portal comes back through the other,
//! turned and stretched as the second portal is against the first.

pub mod config;
pub mod engine;
pub mod fixed;
pub mod point;
pub mod portal;
pub mod universe;

pub use crate::config::ConfigError;
pub use crate::engine::{Particle, ParticleParameters};
pub use crate::fixed::Fixed;
pub use crate::point::Point;
pub use crate::portal::{Portal, PortalSet};
pub use crate::universe::{Element, Property, Region, Universe};
