//! A vector-path tessellation core: Bezier curve sampling, SVG path and
//! Type 2 charstring interpretation, vertex normalization, and the data
//! model handed to a renderer.
//!
//! Coordinates are fixed-point: an `i64` mantissa stands for the real value
//! `mantissa / scale` for a scale the caller chooses. Every operation here
//! is exact integer arithmetic on mantissas; divisions round toward
//! negative infinity, so a caller with a scale divisible by the relevant
//! denominators gets exact results.

pub mod charstring;
pub mod curve;
pub mod emitter;
pub mod error;
pub mod event;
pub mod figure;
pub mod geometry;
pub mod outcome;
pub mod outline;
pub mod path;

pub use geometry::Point;
pub use outcome::Defect;
