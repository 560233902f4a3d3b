pub mod cycle;
pub mod dag;
pub mod error;
pub mod graph;
pub mod job;
pub mod laws;
pub mod node;
pub mod output;
pub mod outputs;
pub mod producer;
pub mod scheduler;
