//! Integer core of a Monte Carlo path tracer: the topology of the bounding
//! volume hierarchy, the lattice tables of gradient noise, texel addressing of
//! decoded images, and the layout of the output raster.

pub mod raster;
mod random;
pub mod bvh;
pub mod perlin;
pub mod texel;
