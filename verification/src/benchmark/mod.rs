//! Running plans and judging the optimizer by what they give.
pub mod accuracy;
pub mod cache;
pub mod choice;
pub mod ipc;
pub mod measure;
pub mod metrics;
pub mod overlap;
pub mod quality;
pub mod reversal;
pub mod runs;
pub mod scoring;
pub mod spread;
pub mod stats;
pub mod timing;
pub mod types;
