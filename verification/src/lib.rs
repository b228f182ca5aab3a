//! optdbg
use vstd::prelude::*;

pub mod analysis;
pub mod benchmark;
pub mod cli;
pub mod common;
pub mod counting;
pub mod duration;
pub mod float;
pub mod hashing;
pub mod ranking;
pub mod spans;
pub mod sampling;
pub mod text;

verus! {

} // verus!
