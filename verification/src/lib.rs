pub mod graph;
pub mod env;
pub mod models;
pub mod text;
pub mod executor;
pub mod pipeline;
pub mod channels;
pub mod scheduler;
pub mod agents;
pub mod executors;
