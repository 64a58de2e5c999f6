//! The exact outcome of a lookup, before any floating-point arithmetic.
//!
//! A lookup resolves to a list of steps. Each step names a stored edge, the
//! direction it is applied in, and either a single stored transform or the
//! two samples that bracket the query stamp together with the integer
//! interpolation weight `num / den`. Evaluating a plan means, per step,
//! interpolating (weight `1` yields the first sample, weight `0` the
//! second), inverting where `inverted` is set, and composing left to right
//! starting from the identity.

use crate::msg::Transform;
use crate::time::Time;
use vstd::prelude::*;

verus! {

/// The transform one step contributes, before inversion.
#[derive(Clone, Copy, Debug)]
pub enum StepValue {
    /// A stored sample taken as it is.
    Exact(Transform),
    /// Interpolate between two bracketing samples with weight `num / den`:
    /// weight `1` would yield `first`, weight `0` would yield `second`.
    /// Always `0 < num < den` and `first != second`.
    Blend { first: Transform, second: Transform, num: i64, den: i64 },
}

/// One hop of a resolved lookup: the stored edge `parent -> child`, whether
/// the hop traverses it against the stored direction, and the transform to
/// apply.
#[derive(Clone, Debug)]
pub struct TransformStep {
    pub parent: String,
    pub child: String,
    pub inverted: bool,
    pub value: StepValue,
}

/// A resolved lookup: the queried frames, the effective stamp, and the
/// steps whose composition answers the query.
#[derive(Clone, Debug)]
pub struct TransformPlan {
    pub frame_id: String,
    pub child_frame_id: String,
    pub stamp: Time,
    pub steps: Vec<TransformStep>,
}

impl StepValue {
    /// A blend is well-formed when its weight is strictly between the
    /// endpoints and its endpoints differ; exact values always are.
    pub open spec fn wf(self) -> bool {
        match self {
            StepValue::Exact(_) => true,
            StepValue::Blend { first, second, num, den } => 0 < num < den && first != second,
        }
    }
}

} // verus!
