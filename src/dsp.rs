pub mod graph;
pub mod processor;
pub mod schedule;
