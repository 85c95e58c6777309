pub mod bvh;
pub mod controls;
pub mod material;
pub mod rng;
pub mod world;
