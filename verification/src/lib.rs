//! Data engine for a hierarchical integrated-circuit layout editor.
//!
//! The crate stores chip geometry in a cell database with integer layout
//! coordinates (database units), supports reversible edits through a command
//! journal, answers spatial queries through an R-tree index, and reads and
//! writes the GDS-II binary exchange format.

use vstd::prelude::*;

pub mod geometry;
pub mod layer;
pub mod real8;
pub mod cell;
pub mod commands;
pub mod database;
pub mod gds;
pub mod spatial;
pub mod drc;

verus! {

/// A unique layer identifier (typically the GDS layer number).
pub type LayerId = u32;

/// Unique cell identifier.
pub type CellId = u128;

/// Relies on uuid::Uuid::new_v4 and Uuid::as_u128: a freshly generated
/// random version-4 identifier, taken as a 128-bit integer. Nothing is
/// promised of the value; in particular uniqueness is only probabilistic.
#[verifier::external_body]
pub(crate) fn fresh_id() -> CellId {
    uuid::Uuid::new_v4().as_u128()
}

} // verus!
