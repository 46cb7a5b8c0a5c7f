use vstd::prelude::*;

verus! {

/// The ways in which a calibration run can fail.
#[derive(Clone, Copy, Debug, PartialEq, Eq, Structural)]
pub enum CalibrationError {
    /// The bounds, the population size, the generation count or a control
    /// knob is unusable.  Reported before any generation runs.
    InvalidConfig,
    /// Traces handed to the scoring function differ in length or are too
    /// short to span one interval.
    InvalidInput,
    /// A voltage, a concentration, the cycle count or the length of the run
    /// left the range of finite values.
    SimulationDiverged,
}

impl CalibrationError {
    /// The text that describes the error.
    pub open spec fn description(self) -> Seq<char> {
        match self {
            CalibrationError::InvalidConfig => "invalid configuration"@,
            CalibrationError::InvalidInput => "invalid input traces"@,
            CalibrationError::SimulationDiverged => "simulation diverged"@,
        }
    }

    /// A short human-readable description.
    pub fn describe(&self) -> (text: &'static str)
        ensures
            text@ == self.description(),
    {
        match self {
            CalibrationError::InvalidConfig => "invalid configuration",
            CalibrationError::InvalidInput => "invalid input traces",
            CalibrationError::SimulationDiverged => "simulation diverged",
        }
    }
}

} // verus!
