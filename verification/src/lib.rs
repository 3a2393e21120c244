//! Verified core of a string-art line-selection engine.
//!
//! A target grayscale image on a circular canvas is approximated by straight
//! "strings" drawn between pegs ("nails") on the circle boundary.  This crate
//! holds the verified logic: nail and canvas geometry, integer line
//! rasterization (binary and anti-aliased), the residual image, and the two
//! selection algorithms (exhaustive scan and greedy walk) that choose which
//! nail pairs to draw under a squared-error objective.

use vstd::prelude::*;

pub mod indexing;
pub mod raster;
pub mod geometry;
pub mod residual;
pub mod disk;
pub mod walk;
pub mod scan;

verus! {

/// Radius of the drawing disk in screen units.
pub const RADIUS: u32 = 512;

/// Margin around the whole drawing, in screen units (display-only offset).
pub const MARGIN: u32 = 16;

/// Gap between the nail circle and the canvas disk, in screen units.
pub const PADDING: u32 = 48;

/// Resolution used until the host changes it; one canvas pixel covers this
/// many screen units.
pub const STARTING_PIXEL_SIZE: u32 = 16;

/// Everything that can go wrong in this crate.  All variants are local,
/// recoverable conditions: the caller reconfigures or rebuilds and retries.
#[derive(Clone, Copy, Debug, PartialEq, Eq, Structural)]
pub enum DiskError {
    /// A configuration value is unusable (zero pixel size, or a geometry
    /// build that yields no nails or more nails than a nail index can hold).
    InvalidConfiguration,
    /// A supplied intensity vector does not have the expected length.
    LengthMismatch,
    /// An index is outside the nail, canvas or string table it refers to.
    IndexOutOfRange,
    /// The operation would rebuild or read geometry while a selection run is
    /// in progress; finish or discard the run first.
    GeometryStale,
}

} // verus!
