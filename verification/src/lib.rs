//! Integer and structural core of a spectral CPU path tracer: pixel grids,
//! bounding-volume-hierarchy layout, work partitioning for the thread pool,
//! light selection bookkeeping and render scheduling.

pub mod bsdf;
pub mod bvh;
pub mod camera;
pub mod color;
pub mod geometry;
pub mod image;
pub mod integrator;
pub mod light;
pub mod light_sampler;
pub mod parallel;
pub mod walk_log;
