//! Routing metrics and turn decisions for a factory-conquest game played on a
//! small weighted graph.

mod tables;
pub mod graph;
pub mod routes;
mod relaxation;
pub mod oracle;
pub mod world;
pub mod targeting;
pub mod scoring;
pub mod allocation;
pub mod engine;
pub mod text;
pub mod protocol;
pub mod scheduler;
pub mod laws;
pub mod round_trip;
