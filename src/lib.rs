//! Core of a patched-conic spaceflight simulation: which bodies dominate a
//! craft's motion, when a craft settles on an analytic orbit around its
//! dominant body and which craft each body hosts, and the per-craft queue of
//! maneuver actions released as the simulation clock advances.
use vstd::prelude::*;

pub mod vector;
pub mod scheduler;
pub mod orbiting_obj;
pub mod influence;
pub mod ships;
pub mod editor;

verus! {

/// Identity of a gravitating body.
pub type BodyID = String;

/// Identity of a craft.
pub type ShipID = String;

} // verus!
