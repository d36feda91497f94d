//! Geometry core for partitioning the space around an observer into cubic
//! chunks: enumerating the lattice cells of the first octant that cover a
//! sphere of a given radius, mirroring them into the full sphere, and
//! planning bounded shells so that very large requests are produced in
//! batches of limited size.
//!
//! All geometry is carried out on integer lattice coordinates measured in
//! chunk-size units relative to the origin chunk; converting real-valued
//! observer coordinates to and from the lattice is left to the caller.
pub mod cell;
pub mod mirror;
pub mod octant;
pub mod planner;
