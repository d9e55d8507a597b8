//! Phase scrambling of images: padding of a plane to a square of
//! power-of-two side, the two-dimensional transform built from a
//! one-dimensional one, the randomisation of phases that keeps conjugate
//! symmetry, the pipeline over the three channels of an image, and the
//! compositing of scrambled face regions.
//!
//! The library is generic in the type of a sample. It fixes which
//! operation is applied to which value and in which order; the arithmetic
//! itself is handed in as an [`arithmetic::Arithmetic`], and the random
//! phases as a sequence of draws with a cursor.

pub mod arithmetic;
pub mod determinism;
pub mod error;
pub mod fourier;
pub mod grid;
pub mod padding;
pub mod phase;
pub mod plane;
pub mod raster;
pub mod size;
pub mod transform;
