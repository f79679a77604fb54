//! Failure reporting: the exact reasons tessellation can fail, and a
//! message-carrying error for callers that only display the failure.

use vstd::prelude::*;

verus! {

/// Why a tessellation step failed. Each variant is terminal for the path or
/// glyph being processed; no partial vertex list is returned alongside one.
#[derive(Clone, Copy, Debug, PartialEq, Eq, Structural)]
pub enum Defect {
    /// An operand list whose length fits no arity class of its operator.
    Arity,
    /// A smooth curve command with no control point on record to reflect.
    Reflection,
    /// A curve was asked for fewer than two sample points.
    Samples,
    /// A resolved coordinate left the representable fixed-point range.
    Range,
    /// A bounding box with zero width or height, or no vertices at all.
    Bounds,
}

/// An error.
pub struct Error(pub String);

}
