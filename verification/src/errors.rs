//! Error taxonomy of the calibration core.
//!
//! Every failure of the library is local and deterministic: the computation
//! is a pure function of its inputs, so a retry without changed inputs
//! cannot help, and no partial result is ever returned in place of an error.
use vstd::prelude::*;

verus! {

/// The error kinds the calibration core can surface.
#[derive(Clone, Copy, Debug, PartialEq, Eq, Structural)]
pub enum MavDACError {
    /// invalid grid parameters (non-positive pitch)
    Geometry,
    /// a centroiding window with zero total flux
    Measurement,
    /// the least-squares system is singular or out of exact-arithmetic range
    Linalg,
    /// fewer measurements than basis functions, or a coefficient list of the
    /// wrong length or magnitude
    Precondition,
    /// an image whose shape does not describe its pixel buffer
    InvalidFITS,
    /// an unparsable coordinate line
    Coordinate,
}

} // verus!
