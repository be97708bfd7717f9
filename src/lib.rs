//! Geometry core of a Monte-Carlo ray tracer: intervals, axis-aligned boxes,
//! and the bounding volume hierarchy built over a scene's surfaces.
//!
//! Coordinates are carried as order keys: an `i64` that orders as the double it
//! stands for does under the IEEE-754 total order. Everything here is decided by
//! comparisons alone, so a key is exact wherever a double would be compared.
//! Arithmetic on rays and surfaces lives with the program that drives the library.

pub mod interval;
pub mod point;
pub mod aabb;
pub mod bvh_node;
pub mod bvh_hull;
pub mod bvh_search;
pub mod scope_timer;
pub mod hittable;
