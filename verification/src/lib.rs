pub mod camera;
pub mod geometry;
pub mod num;
pub mod object;
mod rng;
pub mod scene;
pub mod space_partition;
pub mod tracer;
pub mod vec3;
