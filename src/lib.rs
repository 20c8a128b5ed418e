//! Turns a bilevel (opaque / transparent) raster into closed pixel contours and
//! derives collider geometry from them: polylines, convex point sets and
//! one-sided heightfields.

pub mod geometry;
pub mod bitmap;
pub mod scan;
pub mod contour;
pub mod anchor;
pub mod heights;
pub mod tops;
pub mod collider;
pub mod builder;
pub mod edge;
pub mod perimeter;
pub mod laws;
