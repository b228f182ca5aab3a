//! What sampling, benchmarking and analysis share.
pub mod listing;
pub mod measure;
pub mod plan;
pub mod shape;
