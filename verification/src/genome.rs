use crate::fitness::Fitness;
use vstd::prelude::*;

verus! {

/// The number of estimated parameters of a candidate.
pub const GENE_COUNT: usize = 10;

/// Initial anolyte concentration of species 1, in micromoles per cubic metre.
pub const ANOLYTE_C1: usize = 0;

/// Initial catholyte concentration of species 1, in micromoles per cubic metre.
pub const CATHOLYTE_C1: usize = 1;

/// Stack resistance, in nano-ohms.
pub const STACK_RESISTANCE: usize = 2;

/// Rate constant of the positive electrode, in picometres per second.
pub const RATE_POSITIVE: usize = 3;

/// Rate constant of the negative electrode, in picometres per second.
pub const RATE_NEGATIVE: usize = 4;

/// Membrane diffusion coefficient, in units of 1e-20 square metres per second.
pub const DIFFUSION: usize = 5;

/// Voltage offset while charging, in microvolts.
pub const CHARGE_OFFSET: usize = 6;

/// Voltage offset while discharging, in microvolts.
pub const DISCHARGE_OFFSET: usize = 7;

/// Initial anolyte concentration of species 2, in micromoles per cubic metre.
pub const ANOLYTE_C2: usize = 8;

/// Initial catholyte concentration of species 0, in micromoles per cubic metre.
pub const CATHOLYTE_C0: usize = 9;

/// One candidate: its estimated parameters, its score and the index under
/// which it was created.  The index only serves to trace a candidate; no
/// comparison ever reads it.
#[derive(Clone, Copy, Debug, PartialEq, Eq)]
pub struct Genome {
    pub genes: [i64; 10],
    pub fitness: Fitness,
    pub id: u64,
}

/// Every gene lies between its two bounds, both included.
pub open spec fn genes_within(genes: Seq<i64>, lower: Seq<i64>, upper: Seq<i64>) -> bool {
    forall|g: int| 0 <= g < GENE_COUNT ==> lower[g] <= #[trigger] genes[g] <= upper[g]
}

impl Genome {
    /// Every gene of the candidate lies between its two bounds.
    pub open spec fn within(self, lower: Seq<i64>, upper: Seq<i64>) -> bool {
        genes_within(self.genes@, lower, upper)
    }
}

} // verus!
