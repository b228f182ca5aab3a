//! Outcomes of running a plan.
use vstd::prelude::*;
use crate::duration::Duration;

verus! {

/// Why a plan has no measurement.
#[derive(Clone, Copy, Debug, PartialEq, Eq, Structural)]
pub enum MeasureError {
    /// The query failed.
    Died,
    /// The query took longer than it may.
    Timeout,
}

impl MeasureError {
    /// The text of the error.
    pub open spec fn message(self) -> Seq<char> {
        match self {
            MeasureError::Died => "query failed"@,
            MeasureError::Timeout => "timed out"@,
        }
    }

    /// The text of the error.
    pub fn to_text(&self) -> (r: &'static str)
        ensures
            r@ == self.message(),
    {
        match self {
            MeasureError::Died => "query failed",
            MeasureError::Timeout => "timed out",
        }
    }
}

/// What running a plan and its subplans gave.
pub struct PlanMeasurements {
    /// Preorder array of each subplan's true cardinality.
    pub cardinalities: Vec<Result<usize, MeasureError>>,
    /// Preorder array of each subplan's runtime.
    pub sub_runtimes: Option<Vec<Result<Duration, MeasureError>>>,
}

} // verus!
