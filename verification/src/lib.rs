pub mod geometry;
pub mod graph;
pub mod heap;
mod rng;
