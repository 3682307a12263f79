//! Design-rule-check vocabulary: the kinds and severities a rule checker
//! reports, and the violation record itself. No rule evaluation lives here;
//! these are the data a checker fills in.

use vstd::prelude::*;

verus! {

use crate::LayerId;
use crate::geometry::BBox;

/// Type of DRC violation.
#[derive(Debug, Clone, PartialEq)]
pub enum ViolationType {
    MinWidth,
    MinSpacing,
    Enclosure,
    Extension,
    Density,
    Antenna,
    Custom(String),
}

/// Severity level of a DRC violation.
#[derive(Debug, Clone, Copy, PartialEq, Eq, Structural)]
pub enum Severity {
    Error,
    Warning,
    Info,
}

/// A single DRC violation with location and description.
#[derive(Debug, Clone)]
pub struct DrcViolation {
    pub id: String,
    pub violation_type: ViolationType,
    pub severity: Severity,
    pub rule_name: String,
    pub message: String,
    pub layer_id: LayerId,
    /// Bounding box of the violation region.
    pub bbox: BBox,
    /// Indices of the geometries involved.
    pub geometry_indices: Vec<usize>,
}

} // verus!
