//! The accumulation mode a configuration chooses for the stage mass profile.

use vstd::prelude::*;

verus! {

/// How the effective structural mass carried past each stage is derived from
/// the configured per-stage dry masses.
#[derive(Clone, Copy, Debug, PartialEq, Eq, Structural)]
pub enum StageAdditionFunction {
    /// Each stage carries exactly its own configured dry mass.
    Direct,
    /// Each stage carries its own dry mass plus the dry mass of every stage
    /// from itself down to the booster end.
    Cumulative,
}

impl Default for StageAdditionFunction {
    /// The cumulative mode is the default: a stage lifts everything below it.
    fn default() -> (mode: Self)
        ensures
            mode == StageAdditionFunction::Cumulative,
    {
        StageAdditionFunction::Cumulative
    }
}

} // verus!
