//! A small ray tracer, verified: spheres over a checkerboard, lit by point
//! lights, with reflection, refraction and hard shadows.
//!
//! # Numbers
//!
//! Every quantity is a [`scalar::Scalar`]: a signed fixed-point number with
//! 50 fractional bits that saturates at `2^12`. One step of the grid is
//! `2^-50`, less than `10^-15`. Every operation is total: its exact result is
//! rounded to the grid and limited to the range, so nothing overflows, traps
//! or depends on the machine. One value stands for no number at all: zero
//! divided by zero gives it, every operation keeps it, and no comparison
//! holds of it, so that a ray without a direction meets nothing. The model of
//! a scalar is its raw integer, and each function of the library is specified
//! by a function on such integers that its result equals.
//!
//! # Modules
//!
//! - [`scalar`]: the numbers, with square root and power.
//! - [`algebra_models`]: vectors of three and four scalars.
//! - [`physical_models`]: materials, spheres, lights; the ray-sphere test.
//! - [`optics`]: reflection, refraction, and the offset of secondary rays.
//! - [`colors`], [`ground`]: the fixed colors and the checkerboard plane.
//! - [`raycasting`]: the nearest surface along a ray, and the color seen
//!   along it.
//! - [`camera`]: the ray through each pixel, and the whole image.
//! - [`ppm`]: the image as the bytes of a binary pixmap.
//!
//! # Laws
//!
//! Beside the contracts, public proof functions state what holds of the
//! specifications in general. Some hold exactly: a sphere is met at its
//! radius from its center, the nearest sphere is the first at the least
//! distance, the checkerboard repeats every four units, reflecting twice in a
//! normal of length one gives the vector back, a ray at the center of a lone
//! sphere is refracted straight on. Others bound what rounding costs: a
//! normalized component is less than one step from the exact quotient, a
//! normalized vector has unit length within a few steps, reflecting twice in
//! a normalized normal comes back within steps in proportion to the length,
//! a slanted ray on the center line meets the sphere within steps of the
//! exact distance, and the rounded power is at most three steps for each
//! unit of the exponent below the exact one.
pub mod algebra_models;
pub mod camera;
pub mod colors;
pub mod ground;
pub mod optics;
pub mod physical_models;
pub mod ppm;
pub mod raycasting;
pub mod scalar;
