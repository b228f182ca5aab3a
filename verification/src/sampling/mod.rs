//! Finding plans that the optimizer could have chosen.
pub mod alternatives;
pub mod combine;
pub mod completeness;
pub mod derivation;
pub mod matcher;
pub mod memo;
pub mod rules;
pub mod strategy;
