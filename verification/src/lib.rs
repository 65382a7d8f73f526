//! A maze game core: a procedural generator for perfect grid mazes and a
//! discrete-time, axis-separated collision resolver for rectangular agents.

pub mod collision;
pub mod counts;
pub mod maze;
pub mod paths;
pub mod rng;
pub mod walls;
