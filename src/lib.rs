//! Raster-to-vector geometry for a 2D map builder: islands of opaque pixels
//! (`segment`), their boundary lines (`trace`, or a greedy walk in
//! `contour`), stroke meshes along those lines (`utils`), and flow lines that
//! bounce off them (`simulate`). Coordinates are fixed-point integers (see
//! `numeric`); `geometry` holds points, segments and their intersection.
pub mod numeric;
pub mod geometry;
pub mod raster;
pub mod segment;
pub mod trace;
pub mod utils;
pub mod simulate;
pub mod info;
pub mod contour;
