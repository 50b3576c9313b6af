//! A single-screen graph-connection puzzle engine.
//!
//! The player links circular vertices with straight edges until every
//! vertex's edge count matches its required degree; then the level is
//! solved and the next one is generated from the level number as seed.
//!
//! All coordinates are integers. Distances are compared through squared
//! distances, and the segment-obstruction test is an exact integer
//! point-to-segment distance comparison, so every geometric decision in
//! the engine is exact.

pub mod edge;
pub mod engine;
pub mod geometry;
pub mod graph;
pub mod level;
pub mod rng;
pub mod vertex;
