//! Fan-curve computation: piecewise-linear interpolation of a fan speed
//! from a temperature, over a user-supplied set of calibration points.

pub mod curve;
pub mod point;

pub use curve::Curve;
pub use point::Point;
