//! A brute-force 2D particle simulation with heatmap binning.
//!
//! A `World` confines point particles to a rectangular surface and, on every
//! tick, pulls each particle that has a near neighbor onto that neighbor's
//! position, clamped to the surface. A second pass bins particle positions
//! into a fixed-resolution grid and reports the peak cell occupancy.
//!
//! Coordinates are fixed-point: one physical unit (a centimetre) of the
//! surface is `geom::SCALE` stored steps.

pub mod geom;
pub mod rng;
pub mod world;
pub mod heatmap;
