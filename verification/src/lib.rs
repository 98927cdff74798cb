//! Estimation of static geometric distortion of an optical imaging path.
//!
//! The library images a known, regular pinhole pattern through the optics,
//! locates the flux-weighted centre of each imaged point, and fits a smooth
//! two-dimensional basis-function model to the field of displacements
//! between measured and nominal point positions.
//!
//! All quantities are exact fixed-point numbers ([`Fx`]): an integer
//! mantissa scaled by [`FX_SCALE`]. Every arithmetic step is specified
//! exactly, so the contracts pin each result down to the last bit: grid
//! enumeration and its translation equivariance, windowed centroid sums,
//! basis evaluation, and the least-squares solve (carried out in exact
//! integer arithmetic against a checked inverse witness of the Gram matrix).
pub mod basis;
pub mod coords;
pub mod errors;
pub mod fit;
pub mod fx;
pub mod geom;
pub mod image;
pub mod linalg;
pub mod pipeline;
pub mod trig;

pub use crate::basis::evaluate;
pub use crate::basis::BiVarFourierDistortions;
pub use crate::basis::BiVarPolyDistortions;
pub use crate::basis::DistortionBasis;
pub use crate::coords::Coordinate;
pub use crate::errors::MavDACError;
pub use crate::fit::fit;
pub use crate::fx::Fx;
pub use crate::fx::FX_SCALE;
pub use crate::geom::Centroid;
pub use crate::geom::Grid;
pub use crate::geom::Vec2D;
pub use crate::image::Image;
pub use crate::image::Pixel;
pub use crate::pipeline::measure_cogs;
