//! Core of a path tracer: validity windows for ray queries, bounding boxes,
//! the bounding-volume hierarchy, the lattice tables of Perlin noise and the
//! bounce rules of the integrator.

pub mod aabb;
pub mod bvh;
pub mod cmd;
pub mod hittable;
pub mod integrator;
pub mod materials;
pub mod math;
pub mod perlin;
mod random;
pub mod scene;
