//! Explaining what the optimizer got wrong.
pub mod detect;
pub mod evidence;
pub mod frequency;
pub mod outline;
pub mod predicates;
pub mod problems;
pub mod report;
pub mod tally;
