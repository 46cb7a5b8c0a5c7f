use crate::errors::CalibrationError;
use crate::fitness::{comparable, fitness_function, trace_error, Fitness};
use crate::fixed_point::{fit_i64, mul_div, narrow, scaled_product};
use crate::genome::{
    Genome,
    ANOLYTE_C1,
    ANOLYTE_C2,
    CATHOLYTE_C0,
    CATHOLYTE_C1,
    CHARGE_OFFSET,
    DIFFUSION,
    DISCHARGE_OFFSET,
    RATE_NEGATIVE,
    RATE_POSITIVE,
    STACK_RESISTANCE,
};
use vstd::prelude::*;

verus! {

/// Cells in series in the stack.
pub const CELLS: i64 = 30;

/// The usual length of one simulated step, in seconds.
pub const TIME_STEP: u32 = 60;

/// Formal potential of the redox couple, in microvolts.
pub const FORMAL_POTENTIAL: i64 = 650_000;

/// Concentration converted per second, per cell and per microampere is
/// `CHARGE_NUMERATOR / CHARGE_DENOMINATOR` micromoles per cubic metre: one
/// over charge number, Faraday constant (96485 C/mol) and electrolyte
/// volume (0.06 m^3), with numerator and denominator both taken tenfold.
pub const CHARGE_NUMERATOR: u64 = 10;

/// See `CHARGE_NUMERATOR`.
pub const CHARGE_DENOMINATOR: u64 = 57_891;

/// Fraction of a concentration that crosses the membrane per second, per
/// cell and per unit of the diffusion coefficient is
/// `DIFFUSION_NUMERATOR / DIFFUSION_DENOMINATOR`: membrane area (0.0896 m^2)
/// over thickness (60 micrometres) and electrolyte volume, times the unit
/// of the coefficient (1e-20 m^2/s).
pub const DIFFUSION_NUMERATOR: u64 = 224;

/// See `DIFFUSION_NUMERATOR`.
pub const DIFFUSION_DENOMINATOR: u64 = 900_000_000_000_000_000;

/// Nano-ohms times microamperes per microvolt.
pub const OHMIC_DENOMINATOR: u64 = 1_000_000_000;

/// Whether the model stands for the whole stack or for one cell of it.
#[derive(Clone, Copy, Debug, PartialEq, Eq, Structural)]
pub enum StackScaling {
    /// `CELLS` cells in series: conversion and diffusion count once per
    /// cell, and the per-cell voltage terms are multiplied by the number of
    /// cells.  The ohmic drop, which belongs to the whole stack, is not.
    SeriesStack,
    /// One cell.
    SingleCell,
}

/// What drives species 1 across the membrane.  Species 2 always leaves the
/// anolyte in proportion to its concentration there, while that is
/// positive.
#[derive(Clone, Copy, Debug, PartialEq, Eq, Structural)]
pub enum DiffusionPolicy {
    /// The gradient between catholyte and anolyte: species 1 moves toward
    /// the lower concentration, in either direction.
    GradientDriven,
    /// The concentration in the catholyte alone, while that is positive:
    /// species 1 moves to the anolyte only.
    ConcentrationDriven,
}

/// The variant of the model that a simulation follows, and the length of
/// its steps.
#[derive(Clone, Copy, Debug, PartialEq, Eq, Structural)]
pub struct ModelConfig {
    pub scaling: StackScaling,
    pub diffusion: DiffusionPolicy,
    /// Seconds per step.
    pub time_step: u32,
}

impl ModelConfig {
    /// The number of cells that the model stands for.
    pub open spec fn cell_count(self) -> int {
        match self.scaling {
            StackScaling::SeriesStack => CELLS as int,
            StackScaling::SingleCell => 1,
        }
    }

    /// The number of cells that the model stands for.
    pub fn cells(self) -> (n: u64)
        ensures
            n == self.cell_count(),
            1 <= n <= 30,
    {
        match self.scaling {
            StackScaling::SeriesStack => CELLS as u64,
            StackScaling::SingleCell => 1,
        }
    }

    /// The factor of the faradaic conversion: `CHARGE_NUMERATOR` for every
    /// cell and every second of a step.
    pub open spec fn charge_factor(self) -> int {
        CHARGE_NUMERATOR * self.cell_count() * self.time_step
    }

    /// The factor of the diffusion: `DIFFUSION_NUMERATOR` for every cell
    /// and every second of a step.
    pub open spec fn diffusion_factor(self) -> int {
        DIFFUSION_NUMERATOR * self.cell_count() * self.time_step
    }

    /// The whole stack with gradient-driven diffusion and steps of
    /// `TIME_STEP` seconds.
    pub fn stack() -> (config: ModelConfig)
        ensures
            config == (ModelConfig {
                scaling: StackScaling::SeriesStack,
                diffusion: DiffusionPolicy::GradientDriven,
                time_step: TIME_STEP,
            }),
    {
        ModelConfig {
            scaling: StackScaling::SeriesStack,
            diffusion: DiffusionPolicy::GradientDriven,
            time_step: TIME_STEP,
        }
    }

    fn charge_numerator(self) -> (n: u64)
        ensures
            n == self.charge_factor(),
    {
        let per_step: u64 = CHARGE_NUMERATOR * self.cells();
        assert(per_step * self.time_step <= 300 * 0xffff_ffff) by (nonlinear_arith)
            requires
                per_step <= 300,
                self.time_step <= 0xffff_ffff,
        ;
        per_step * (self.time_step as u64)
    }

    fn diffusion_numerator(self) -> (n: u64)
        ensures
            n == self.diffusion_factor(),
    {
        let per_step: u64 = DIFFUSION_NUMERATOR * self.cells();
        assert(per_step * self.time_step <= 6720 * 0xffff_ffff) by (nonlinear_arith)
            requires
                per_step <= 6720,
                self.time_step <= 0xffff_ffff,
        ;
        per_step * (self.time_step as u64)
    }
}

/// The state of the stack during one simulation, together with the
/// parameters that drive it.
///
/// Concentrations are in micromoles per cubic metre, the current in
/// microamperes, voltages in microvolts, the resistance in nano-ohms and the
/// diffusion coefficient in units of 1e-20 m^2/s.  The two rate constants are
/// carried for the electrode model that the caller supplies; no rule of this
/// module reads them.
#[derive(Clone, Copy, Debug, PartialEq, Eq)]
pub struct ElectrochemicalModel {
    pub config: ModelConfig,
    pub diffusion_number: i64,
    pub rate_constant_positive: i64,
    pub rate_constant_negative: i64,
    pub stack_resistance: i64,
    pub anolyte_c1: i64,
    pub anolyte_c2: i64,
    pub catholyte_c1: i64,
    pub catholyte_c0: i64,
    pub current_i: i64,
    pub voltage: i64,
    pub cycle: u64,
    pub charge_offset: i64,
    pub discharge_offset: i64,
}

/// A concentration with a negative value raised to zero.
pub open spec fn floored(c: i64) -> i64 {
    if c < 0 {
        0
    } else {
        c
    }
}

/// `v` as a count, or `None` where it does not fit.
pub open spec fn fit_u64(v: int) -> Option<u64> {
    if 0 <= v <= u64::MAX {
        Some(v as u64)
    } else {
        None
    }
}

impl ElectrochemicalModel {
    /// No concentration is negative.
    pub open spec fn replete(self) -> bool {
        &&& self.anolyte_c1 >= 0
        &&& self.anolyte_c2 >= 0
        &&& self.catholyte_c1 >= 0
        &&& self.catholyte_c0 >= 0
    }

    /// The sum of all four concentrations.
    pub open spec fn total(self) -> int {
        self.anolyte_c1 + self.anolyte_c2 + self.catholyte_c1 + self.catholyte_c0
    }

    /// The concentration that the current converts in one step.
    pub open spec fn charge_transfer(self) -> Option<i64> {
        fit_i64(
            scaled_product(
                self.current_i as int,
                1,
                self.config.charge_factor(),
                CHARGE_DENOMINATOR as int,
            ),
        )
    }

    /// The conversion of this step would overdraw the anolyte: it would
    /// leave less than nothing of the species that the current consumes
    /// there.
    pub open spec fn anolyte_overdrawn(self) -> bool {
        match self.charge_transfer() {
            Some(moved) => if self.current_i > 0 {
                self.anolyte_c1 < moved
            } else {
                self.anolyte_c2 + moved < 0
            },
            None => false,
        }
    }

    /// The conversion of this step would overdraw the catholyte.
    pub open spec fn catholyte_overdrawn(self) -> bool {
        match self.charge_transfer() {
            Some(moved) => if self.current_i > 0 {
                self.catholyte_c1 < moved
            } else {
                self.catholyte_c0 + moved < 0
            },
            None => false,
        }
    }

    /// The step is a cycle event: continuing under the present current
    /// would drive the species that it consumes below zero in one of the
    /// half-cells.
    pub open spec fn starved(self) -> bool {
        self.anolyte_overdrawn() || self.catholyte_overdrawn()
    }

    /// The model with the concentrations that the boundary check leaves:
    /// on a cycle event the implicated concentration, the overdrawn one of
    /// the anolyte or else that of the catholyte, is zero; every negative
    /// concentration is raised to zero.
    pub open spec fn cleared(self) -> ElectrochemicalModel {
        let charging = self.current_i > 0;
        let anolyte = self.anolyte_overdrawn();
        let catholyte = !anolyte && self.catholyte_overdrawn();
        ElectrochemicalModel {
            anolyte_c1: if anolyte && charging {
                0
            } else {
                floored(self.anolyte_c1)
            },
            anolyte_c2: if anolyte && !charging {
                0
            } else {
                floored(self.anolyte_c2)
            },
            catholyte_c1: if catholyte && charging {
                0
            } else {
                floored(self.catholyte_c1)
            },
            catholyte_c0: if catholyte && !charging {
                0
            } else {
                floored(self.catholyte_c0)
            },
            ..self
        }
    }

    /// The model after the charge/discharge boundary check: the
    /// concentrations cleared, and a cycle event counted once.  `None`
    /// where the conversion of the step or the cycle count leaves the
    /// 64-bit range.
    pub open spec fn checked(self) -> Option<ElectrochemicalModel> {
        if self.charge_transfer() is None {
            None
        } else if self.starved() {
            match fit_u64(self.cycle + 1) {
                Some(count) => Some(ElectrochemicalModel { cycle: count, ..self.cleared() }),
                None => None,
            }
        } else {
            Some(self.cleared())
        }
    }

    /// The model after the faradaic conversion, or `None` where a
    /// concentration leaves the 64-bit range.
    pub open spec fn converted(self) -> Option<ElectrochemicalModel> {
        match self.charge_transfer() {
            None => None,
            Some(moved) => match (
                fit_i64(self.anolyte_c1 - moved),
                fit_i64(self.anolyte_c2 + moved),
                fit_i64(self.catholyte_c1 - moved),
                fit_i64(self.catholyte_c0 + moved),
            ) {
                (Some(a1), Some(a2), Some(c1), Some(c0)) => Some(
                    ElectrochemicalModel {
                        anolyte_c1: a1,
                        anolyte_c2: a2,
                        catholyte_c1: c1,
                        catholyte_c0: c0,
                        ..self
                    },
                ),
                _ => None,
            },
        }
    }

    /// The amount of species 2 that leaves the anolyte in one step.
    pub open spec fn permeation(self) -> Option<i64> {
        if self.anolyte_c2 > 0 {
            fit_i64(
                scaled_product(
                    self.anolyte_c2 as int,
                    self.diffusion_number as int,
                    self.config.diffusion_factor(),
                    DIFFUSION_DENOMINATOR as int,
                ),
            )
        } else {
            Some(0i64)
        }
    }

    /// The model after species 2 has crossed: each unit that leaves the
    /// anolyte uses up one unit of species 0 in the catholyte and yields two
    /// units of species 1 there.
    pub open spec fn permeated(self) -> Option<ElectrochemicalModel> {
        match self.permeation() {
            None => None,
            Some(moved) => match (
                fit_i64(self.catholyte_c1 + 2 * moved),
                fit_i64(self.catholyte_c0 - moved),
                fit_i64(self.anolyte_c2 - moved),
            ) {
                (Some(c1), Some(c0), Some(a2)) => Some(
                    ElectrochemicalModel {
                        catholyte_c1: c1,
                        catholyte_c0: c0,
                        anolyte_c2: a2,
                        ..self
                    },
                ),
                _ => None,
            },
        }
    }

    /// The concentration that drives species 1 from the catholyte to the
    /// anolyte: its gradient, or its concentration in the catholyte while
    /// that is positive.
    pub open spec fn driving_concentration(self) -> int {
        match self.config.diffusion {
            DiffusionPolicy::GradientDriven => self.catholyte_c1 - self.anolyte_c1,
            DiffusionPolicy::ConcentrationDriven => if self.catholyte_c1 > 0 {
                self.catholyte_c1 as int
            } else {
                0
            },
        }
    }

    /// The amount of species 1 that moves from the catholyte to the anolyte
    /// in one step; negative where it moves the other way.
    pub open spec fn back_diffusion(self) -> Option<i64> {
        fit_i64(
            scaled_product(
                self.driving_concentration(),
                self.diffusion_number as int,
                self.config.diffusion_factor(),
                DIFFUSION_DENOMINATOR as int,
            ),
        )
    }

    /// The model after species 1 has moved along its gradient.
    pub open spec fn levelled(self) -> Option<ElectrochemicalModel> {
        match self.back_diffusion() {
            None => None,
            Some(moved) => match (
                fit_i64(self.catholyte_c1 - moved),
                fit_i64(self.anolyte_c1 + moved),
            ) {
                (Some(c1), Some(a1)) => Some(
                    ElectrochemicalModel { catholyte_c1: c1, anolyte_c1: a1, ..self },
                ),
                _ => None,
            },
        }
    }

    /// The model after both diffusion moves.
    pub open spec fn diffused(self) -> Option<ElectrochemicalModel> {
        match self.permeated() {
            None => None,
            Some(m) => m.levelled(),
        }
    }

    /// The empirical offset that belongs to the direction of the current:
    /// the charge offset for a positive current, the discharge offset for a
    /// negative one, none at rest.
    pub open spec fn direction_offset(self) -> i64 {
        if self.current_i > 0 {
            self.charge_offset
        } else if self.current_i < 0 {
            self.discharge_offset
        } else {
            0
        }
    }

    /// The voltage drop over the stack resistance.
    pub open spec fn ohmic_drop(self) -> Option<i64> {
        fit_i64(
            scaled_product(
                self.stack_resistance as int,
                self.current_i as int,
                1,
                OHMIC_DENOMINATOR as int,
            ),
        )
    }

    /// The model with the voltage that follows from a per-cell
    /// overpotential: overpotential, formal potential and offset count once
    /// per cell, the ohmic drop once.  `None` where the overpotential is not
    /// finite or a voltage leaves the 64-bit range.
    pub open spec fn energized(self, overpotential: Option<i64>) -> Option<
        ElectrochemicalModel,
    > {
        match (overpotential, self.ohmic_drop()) {
            (Some(p), Some(drop)) => match fit_i64(
                (p + FORMAL_POTENTIAL + self.direction_offset()) * self.config.cell_count()
                    + drop,
            ) {
                Some(v) => Some(ElectrochemicalModel { voltage: v, ..self }),
                None => None,
            },
            _ => None,
        }
    }

    /// The model after check, conversion and diffusion, as the electrode
    /// model sees it.  A cycle event takes the place of conversion and
    /// diffusion: on such a step the check is all that happens to the
    /// concentrations.
    #[verifier::opaque]
    pub open spec fn settled(self) -> Option<ElectrochemicalModel> {
        match self.checked() {
            None => None,
            Some(m) => if self.starved() {
                Some(m)
            } else {
                match m.converted() {
                    None => None,
                    Some(converted) => converted.diffused(),
                }
            },
        }
    }

    /// The model with another applied current.
    pub open spec fn driven_by(self, current: i64) -> ElectrochemicalModel {
        ElectrochemicalModel { current_i: current, ..self }
    }

    /// Charge/discharge boundary check.
    ///
    /// Where the conversion of this step would drive the species that the
    /// current consumes below zero, in the anolyte or else in the
    /// catholyte, the step is a cycle event: that concentration is set to
    /// zero and the cycle counter advances by one.  Every negative
    /// concentration is then raised to zero.  Returns whether the step is a
    /// cycle event.
    ///
    /// Fails with `SimulationDiverged`, and changes nothing, where the
    /// conversion of the step or the cycle count leaves the 64-bit range.
    pub fn charge_discharge_check(&mut self) -> (r: Result<bool, CalibrationError>)
        ensures
            match old(self).checked() {
                Some(m) => r == Ok::<bool, CalibrationError>(old(self).starved()) && *final(self)
                    == m,
                None => r == Err::<bool, CalibrationError>(CalibrationError::SimulationDiverged)
                    && *final(self) == *old(self),
            },
    {
        let moved = match mul_div(
            self.current_i as i128,
            1,
            self.config.charge_numerator(),
            CHARGE_DENOMINATOR,
        ) {
            Some(v) => v,
            None => {
                return Err(CalibrationError::SimulationDiverged);
            },
        };
        let charging = self.current_i > 0;
        let anolyte = if charging {
            self.anolyte_c1 < moved
        } else {
            (self.anolyte_c2 as i128) + (moved as i128) < 0
        };
        let catholyte = if charging {
            self.catholyte_c1 < moved
        } else {
            (self.catholyte_c0 as i128) + (moved as i128) < 0
        };
        let event = anolyte || catholyte;
        let mut next = *self;
        if event {
            next.cycle = match self.cycle.checked_add(1) {
                Some(count) => count,
                None => {
                    return Err(CalibrationError::SimulationDiverged);
                },
            };
        }
        if anolyte {
            if charging {
                next.anolyte_c1 = 0;
            } else {
                next.anolyte_c2 = 0;
            }
        } else if catholyte {
            if charging {
                next.catholyte_c1 = 0;
            } else {
                next.catholyte_c0 = 0;
            }
        }
        if next.anolyte_c1 < 0 {
            next.anolyte_c1 = 0;
        }
        if next.anolyte_c2 < 0 {
            next.anolyte_c2 = 0;
        }
        if next.catholyte_c0 < 0 {
            next.catholyte_c0 = 0;
        }
        if next.catholyte_c1 < 0 {
            next.catholyte_c1 = 0;
        }
        *self = next;
        Ok(event)
    }

    /// Faradaic conversion: the current moves the same amount from species 1
    /// to species 2 in the anolyte and from species 1 to species 0 in the
    /// catholyte.
    pub fn current_component(&mut self) -> (r: Result<(), CalibrationError>)
        ensures
            match old(self).converted() {
                Some(m) => r == Ok::<(), CalibrationError>(()) && *final(self) == m,
                None => r == Err::<(), CalibrationError>(CalibrationError::SimulationDiverged)
                    && *final(self) == *old(self),
            },
    {
        let moved = match mul_div(
            self.current_i as i128,
            1,
            self.config.charge_numerator(),
            CHARGE_DENOMINATOR,
        ) {
            Some(v) => v,
            None => {
                return Err(CalibrationError::SimulationDiverged);
            },
        };
        let a1 = self.anolyte_c1.checked_sub(moved);
        let a2 = self.anolyte_c2.checked_add(moved);
        let c1 = self.catholyte_c1.checked_sub(moved);
        let c0 = self.catholyte_c0.checked_add(moved);
        match (a1, a2, c1, c0) {
            (Some(a1), Some(a2), Some(c1), Some(c0)) => {
                self.anolyte_c1 = a1;
                self.anolyte_c2 = a2;
                self.catholyte_c1 = c1;
                self.catholyte_c0 = c0;
                Ok(())
            },
            _ => Err(CalibrationError::SimulationDiverged),
        }
    }

    /// Cross-membrane diffusion.
    ///
    /// Species 2 leaves the anolyte in proportion to its concentration there,
    /// while that is positive; species 1 then moves between the half-cells
    /// in proportion to what the diffusion policy names.
    pub fn diffusion_step(&mut self) -> (r: Result<(), CalibrationError>)
        ensures
            match old(self).diffused() {
                Some(m) => r == Ok::<(), CalibrationError>(()) && *final(self) == m,
                None => r == Err::<(), CalibrationError>(CalibrationError::SimulationDiverged)
                    && *final(self) == *old(self),
            },
    {
        let numerator = self.config.diffusion_numerator();
        let flux = if self.anolyte_c2 > 0 {
            mul_div(
                self.anolyte_c2 as i128,
                self.diffusion_number,
                numerator,
                DIFFUSION_DENOMINATOR,
            )
        } else {
            Some(0)
        };
        let moved: i64 = match flux {
            Some(v) => v,
            None => {
                return Err(CalibrationError::SimulationDiverged);
            },
        };
        let c1 = narrow(self.catholyte_c1 as i128 + 2 * (moved as i128));
        let c0 = self.catholyte_c0.checked_sub(moved);
        let a2 = self.anolyte_c2.checked_sub(moved);
        let (c1, c0, a2) = match (c1, c0, a2) {
            (Some(c1), Some(c0), Some(a2)) => (c1, c0, a2),
            _ => {
                return Err(CalibrationError::SimulationDiverged);
            },
        };
        let driving: i128 = match self.config.diffusion {
            DiffusionPolicy::GradientDriven => c1 as i128 - self.anolyte_c1 as i128,
            DiffusionPolicy::ConcentrationDriven => if c1 > 0 {
                c1 as i128
            } else {
                0
            },
        };
        let back = mul_div(driving, self.diffusion_number, numerator, DIFFUSION_DENOMINATOR);
        let returned: i64 = match back {
            Some(v) => v,
            None => {
                return Err(CalibrationError::SimulationDiverged);
            },
        };
        match (c1.checked_sub(returned), self.anolyte_c1.checked_add(returned)) {
            (Some(c1), Some(a1)) => {
                self.catholyte_c1 = c1;
                self.catholyte_c0 = c0;
                self.anolyte_c2 = a2;
                self.anolyte_c1 = a1;
                Ok(())
            },
            _ => Err(CalibrationError::SimulationDiverged),
        }
    }

    /// Voltage computation.
    ///
    /// Takes the per-cell overpotential (kinetic and concentration terms, in
    /// microvolts; `None` where it is not finite) and records the voltage:
    /// overpotential, formal potential and the offset of the current's
    /// direction for every cell, plus the ohmic drop.
    pub fn voltage_calc(&mut self, overpotential: Option<i64>) -> (r: Result<
        (),
        CalibrationError,
    >)
        ensures
            match old(self).energized(overpotential) {
                Some(m) => r == Ok::<(), CalibrationError>(()) && *final(self) == m,
                None => r == Err::<(), CalibrationError>(CalibrationError::SimulationDiverged)
                    && *final(self) == *old(self),
            },
    {
        let per_cell: i64 = match overpotential {
            Some(p) => p,
            None => {
                return Err(CalibrationError::SimulationDiverged);
            },
        };
        let drop: i64 = match mul_div(
            self.stack_resistance as i128,
            self.current_i,
            1,
            OHMIC_DENOMINATOR,
        ) {
            Some(d) => d,
            None => {
                return Err(CalibrationError::SimulationDiverged);
            },
        };
        let offset: i64 = if self.current_i > 0 {
            self.charge_offset
        } else if self.current_i < 0 {
            self.discharge_offset
        } else {
            0
        };
        let cell: i128 = per_cell as i128 + FORMAL_POTENTIAL as i128 + offset as i128;
        let cells: i128 = self.config.cells() as i128;
        assert(-0x1_0000_0000_0000_0000_0000 < cell * cells < 0x1_0000_0000_0000_0000_0000)
            by (nonlinear_arith)
            requires
                -0x2_0000_0000_0000_0000 < cell < 0x2_0000_0000_0000_0000,
                1 <= cells <= 30,
        ;
        match narrow(cell * cells + drop as i128) {
            Some(v) => {
                self.voltage = v;
                Ok(())
            },
            None => Err(CalibrationError::SimulationDiverged),
        }
    }

    /// The model one step later, given the overpotential of that step.
    #[verifier::opaque]
    pub open spec fn stepped(self, overpotential: Option<i64>) -> Option<ElectrochemicalModel> {
        match self.settled() {
            None => None,
            Some(mid) => mid.energized(overpotential),
        }
    }

    /// One time step under the present current: boundary check, faradaic
    /// conversion, diffusion, and the voltage that `electrode` gives for the
    /// resulting concentrations.  On a cycle event nothing is converted and
    /// nothing diffuses: the concentration that the step would overdraw is
    /// zero after the step, and the cycle counter is one higher.
    ///
    /// `electrode` is the kinetic and concentration overpotential of one
    /// cell, in microvolts, or `None` where it is not finite.  It is asked
    /// once, after the diffusion, unless the step has diverged before.  A
    /// step that diverges leaves the model as it was.
    pub fn time_step<F: Fn(ElectrochemicalModel) -> Option<i64>>(&mut self, electrode: &F) -> (r:
        Result<(), CalibrationError>)
        requires
            forall|m: ElectrochemicalModel| call_requires(electrode, (m,)),
        ensures
            match old(self).settled() {
                None => r == Err::<(), CalibrationError>(CalibrationError::SimulationDiverged)
                    && *final(self) == *old(self),
                Some(mid) => exists|p: Option<i64>|
                    {
                        &&& call_ensures(electrode, (mid,), p)
                        &&& match mid.energized(p) {
                            Some(m) => r == Ok::<(), CalibrationError>(()) && *final(self) == m,
                            None => r == Err::<(), CalibrationError>(
                                CalibrationError::SimulationDiverged,
                            ) && *final(self) == *old(self),
                        }
                    },
            },
    {
        reveal(ElectrochemicalModel::settled);
        let mut next = *self;
        let event = match next.charge_discharge_check() {
            Ok(event) => event,
            Err(e) => {
                return Err(e);
            },
        };
        if !event {
            match next.current_component() {
                Ok(()) => {},
                Err(e) => {
                    return Err(e);
                },
            }
            match next.diffusion_step() {
                Ok(()) => {},
                Err(e) => {
                    return Err(e);
                },
            }
        }
        let ghost mid = next;
        let p = electrode(next);
        match next.voltage_calc(p) {
            Ok(()) => {
                *self = next;
                assert(call_ensures(electrode, (mid,), p));
                Ok(())
            },
            Err(e) => {
                assert(call_ensures(electrode, (mid,), p));
                Err(e)
            },
        }
    }
}

/// The traces of one simulation: one entry per step, taken after the step.
#[derive(Clone, Debug, PartialEq, Eq)]
pub struct SimulationOutput {
    /// Seconds since the start of the run.
    pub time: Vec<i64>,
    pub voltage: Vec<i64>,
    pub catholyte_c1: Vec<i64>,
    pub catholyte_c0: Vec<i64>,
    pub anolyte_c1: Vec<i64>,
    pub anolyte_c2: Vec<i64>,
    /// Cycle events counted over the whole run.
    pub cycles: u64,
}

/// The model that a candidate's genes describe, before the first step.
pub open spec fn seeded(genes: Seq<i64>, config: ModelConfig) -> ElectrochemicalModel {
    ElectrochemicalModel {
        config,
        diffusion_number: genes[DIFFUSION as int],
        rate_constant_positive: genes[RATE_POSITIVE as int],
        rate_constant_negative: genes[RATE_NEGATIVE as int],
        stack_resistance: genes[STACK_RESISTANCE as int],
        anolyte_c1: genes[ANOLYTE_C1 as int],
        anolyte_c2: genes[ANOLYTE_C2 as int],
        catholyte_c1: genes[CATHOLYTE_C1 as int],
        catholyte_c0: genes[CATHOLYTE_C0 as int],
        current_i: 0,
        voltage: 0,
        cycle: 0,
        charge_offset: genes[CHARGE_OFFSET as int],
        discharge_offset: genes[DISCHARGE_OFFSET as int],
    }
}

/// The model after the first `n` currents, where step `k` met the
/// overpotential `potentials[k]`; `None` once a step has diverged.
pub open spec fn model_after(
    start: ElectrochemicalModel,
    currents: Seq<i64>,
    potentials: Seq<Option<i64>>,
    n: nat,
) -> Option<ElectrochemicalModel>
    decreases n,
{
    if n == 0 {
        Some(start)
    } else {
        match model_after(start, currents, potentials, (n - 1) as nat) {
            None => None,
            Some(m) => m.driven_by(currents[n - 1]).stepped(potentials[n - 1]),
        }
    }
}

/// Each overpotential is one that `electrode` returned for the
/// concentrations of its step, as far as the run got.
pub open spec fn answered_by<F: Fn(ElectrochemicalModel) -> Option<i64>>(
    electrode: &F,
    start: ElectrochemicalModel,
    currents: Seq<i64>,
    potentials: Seq<Option<i64>>,
) -> bool {
    forall|k: int|
        0 <= k < currents.len() ==> match model_after(start, currents, potentials, k as nat) {
            Some(m) => match m.driven_by(currents[k]).settled() {
                Some(mid) => call_ensures(electrode, (mid,), #[trigger] potentials[k]),
                None => true,
            },
            None => true,
        }
}

/// The time at which step `k` of a run begins, at `step` seconds per step.
#[verifier::opaque]
pub open spec fn time_stamp(step: u32, k: int) -> int {
    step * k
}

/// The time base of a run of `n` steps of `step` seconds: each step is
/// stamped with the time at which it begins.
pub open spec fn time_base(n: nat, step: u32) -> Seq<i64> {
    Seq::new(n, |k: int| time_stamp(step, k) as i64)
}

/// Time stamps advance by one step length and stay within the length of
/// the run.
pub proof fn lemma_time_stamps(step: u32, k: nat, n: nat)
    requires
        k < n,
        n * step <= i64::MAX,
    ensures
        time_stamp(step, 0) == 0,
        0 <= time_stamp(step, k as int),
        time_stamp(step, (k + 1) as int) == time_stamp(step, k as int) + step,
        time_stamp(step, (k + 1) as int) <= i64::MAX,
{
    reveal(time_stamp);
    assert(step * (k + 1) == step * k + step) by (nonlinear_arith);
    assert(step * (k + 1) <= n * step) by (nonlinear_arith)
        requires
            k < n,
            step >= 0,
    ;
    assert(step * k >= 0) by (nonlinear_arith)
        requires
            step >= 0,
            k >= 0,
    ;
}

/// The model after each step of a run that does not diverge.
pub open spec fn state_trace(
    start: ElectrochemicalModel,
    currents: Seq<i64>,
    potentials: Seq<Option<i64>>,
) -> Seq<ElectrochemicalModel> {
    Seq::new(
        currents.len(),
        |k: int| model_after(start, currents, potentials, (k + 1) as nat).unwrap(),
    )
}

/// The voltages of a sequence of models.
pub open spec fn voltages(trace: Seq<ElectrochemicalModel>) -> Seq<i64> {
    Seq::new(trace.len(), |k: int| trace[k].voltage)
}

impl SimulationOutput {
    /// The output holds, step by step, what `trace` holds, stamped every
    /// `step` seconds, and the cycle count `cycles`.
    pub open spec fn records(
        self,
        trace: Seq<ElectrochemicalModel>,
        step: u32,
        cycles: u64,
    ) -> bool {
        &&& self.time@ == time_base(trace.len(), step)
        &&& self.voltage@ == voltages(trace)
        &&& self.catholyte_c1@ == Seq::new(trace.len(), |k: int| trace[k].catholyte_c1)
        &&& self.catholyte_c0@ == Seq::new(trace.len(), |k: int| trace[k].catholyte_c0)
        &&& self.anolyte_c1@ == Seq::new(trace.len(), |k: int| trace[k].anolyte_c1)
        &&& self.anolyte_c2@ == Seq::new(trace.len(), |k: int| trace[k].anolyte_c2)
        &&& self.cycles == cycles
    }
}

/// The run lasts no longer than a 64-bit count of seconds can tell.
pub open spec fn run_fits(steps: nat, step: u32) -> bool {
    steps * step <= i64::MAX
}

/// Every simulated step of the run began with concentrations that are not
/// negative, and ended so, and no cycle was counted.
pub open spec fn uneventful(start: ElectrochemicalModel, out: SimulationOutput) -> bool {
    &&& start.replete()
    &&& out.cycles == start.cycle
    &&& forall|k: int| 0 <= k < out.anolyte_c1@.len() ==> #[trigger] out.anolyte_c1@[k] >= 0
    &&& forall|k: int| 0 <= k < out.anolyte_c2@.len() ==> #[trigger] out.anolyte_c2@[k] >= 0
    &&& forall|k: int| 0 <= k < out.catholyte_c1@.len() ==> #[trigger] out.catholyte_c1@[k] >= 0
    &&& forall|k: int| 0 <= k < out.catholyte_c0@.len() ==> #[trigger] out.catholyte_c0@[k] >= 0
}

/// After every step the four concentrations add up to what they added up
/// to before the run.
pub open spec fn mass_conserved(start: ElectrochemicalModel, out: SimulationOutput) -> bool {
    forall|k: int|
        0 <= k < out.voltage@.len() ==> #[trigger] out.anolyte_c1@[k] + out.anolyte_c2@[k]
            + out.catholyte_c1@[k] + out.catholyte_c0@[k] == start.total()
}

/// What a run returns for given overpotentials: the traces of every step
/// where no step diverges, the error otherwise.
pub open spec fn simulation_outcome(
    start: ElectrochemicalModel,
    currents: Seq<i64>,
    potentials: Seq<Option<i64>>,
    r: Result<SimulationOutput, CalibrationError>,
) -> bool {
    match model_after(start, currents, potentials, currents.len()) {
        Some(last) => r is Ok && r->Ok_0.records(
            state_trace(start, currents, potentials),
            start.config.time_step,
            last.cycle,
        ),
        None => r == Err::<SimulationOutput, CalibrationError>(
            CalibrationError::SimulationDiverged,
        ),
    }
}

/// The score of a run for given overpotentials: the trace error against
/// the measured voltages, non-finite where the run diverges or the
/// measured trace cannot be compared with it.
pub open spec fn simulation_score(
    start: ElectrochemicalModel,
    currents: Seq<i64>,
    measured: Seq<i64>,
    potentials: Seq<Option<i64>>,
) -> Fitness {
    let simulated = voltages(state_trace(start, currents, potentials));
    let time = time_base(currents.len(), start.config.time_step);
    if model_after(start, currents, potentials, currents.len()) is Some && comparable(
        time,
        measured,
        simulated,
    ) {
        Fitness::of_total(trace_error(time, measured, simulated))
    } else {
        Fitness::NonFinite
    }
}

/// A run that has diverged stays diverged.
pub proof fn lemma_divergence_is_final(
    start: ElectrochemicalModel,
    currents: Seq<i64>,
    potentials: Seq<Option<i64>>,
    at: nat,
    n: nat,
)
    requires
        at <= n,
        model_after(start, currents, potentials, at) is None,
    ensures
        model_after(start, currents, potentials, n) is None,
    decreases n,
{
    if at < n {
        lemma_divergence_is_final(start, currents, potentials, at, (n - 1) as nat);
    }
}

impl ElectrochemicalModel {
    /// Sets up the model from a candidate's genes: cycle counter, current
    /// and voltage at zero.
    pub fn new(individual: &Genome, config: ModelConfig) -> (m: ElectrochemicalModel)
        ensures
            m == seeded(individual.genes@, config),
    {
        ElectrochemicalModel {
            config,
            diffusion_number: individual.genes[DIFFUSION],
            rate_constant_positive: individual.genes[RATE_POSITIVE],
            rate_constant_negative: individual.genes[RATE_NEGATIVE],
            stack_resistance: individual.genes[STACK_RESISTANCE],
            anolyte_c1: individual.genes[ANOLYTE_C1],
            anolyte_c2: individual.genes[ANOLYTE_C2],
            catholyte_c1: individual.genes[CATHOLYTE_C1],
            catholyte_c0: individual.genes[CATHOLYTE_C0],
            current_i: 0,
            voltage: 0,
            cycle: 0,
            charge_offset: individual.genes[CHARGE_OFFSET],
            discharge_offset: individual.genes[DISCHARGE_OFFSET],
        }
    }
}

/// The model that step `j` of a run starts from, where `trace` holds the
/// models after the steps before it.
pub open spec fn state_before(
    start: ElectrochemicalModel,
    trace: Seq<ElectrochemicalModel>,
    j: int,
) -> ElectrochemicalModel {
    if j == 0 {
        start
    } else {
        trace[j - 1]
    }
}

/// Each of the first `k` models of `trace` follows from the one before it
/// by one step under its current and its overpotential.
spec fn follows(
    start: ElectrochemicalModel,
    currents: Seq<i64>,
    potentials: Seq<Option<i64>>,
    trace: Seq<ElectrochemicalModel>,
    k: int,
) -> bool {
    forall|j: int|
        0 <= j < k ==> state_before(start, trace, j).driven_by(currents[j]).stepped(
            potentials[j],
        ) == Some(#[trigger] trace[j])
}

/// Each of the first `k` overpotentials was returned by `electrode` for the
/// concentrations of its step.
spec fn asked<F: Fn(ElectrochemicalModel) -> Option<i64>>(
    electrode: &F,
    start: ElectrochemicalModel,
    currents: Seq<i64>,
    potentials: Seq<Option<i64>>,
    trace: Seq<ElectrochemicalModel>,
    k: int,
) -> bool {
    forall|j: int|
        0 <= j < k ==> match state_before(start, trace, j).driven_by(currents[j]).settled() {
            Some(mid) => call_ensures(electrode, (mid,), #[trigger] potentials[j]),
            None => true,
        }
}

proof fn lemma_follows_gives_model_after(
    start: ElectrochemicalModel,
    currents: Seq<i64>,
    potentials: Seq<Option<i64>>,
    trace: Seq<ElectrochemicalModel>,
    j: nat,
)
    requires
        follows(start, currents, potentials, trace, j as int),
    ensures
        model_after(start, currents, potentials, j) == Some(state_before(start, trace, j as int)),
    decreases j,
{
    if j > 0 {
        lemma_follows_gives_model_after(start, currents, potentials, trace, (j - 1) as nat);
        assert(state_before(start, trace, j - 1).driven_by(currents[j - 1]).stepped(
            potentials[j - 1],
        ) == Some(trace[j - 1]));
    }
}

proof fn lemma_completed_run<F: Fn(ElectrochemicalModel) -> Option<i64>>(
    electrode: &F,
    start: ElectrochemicalModel,
    currents: Seq<i64>,
    potentials: Seq<Option<i64>>,
    trace: Seq<ElectrochemicalModel>,
)
    requires
        potentials.len() == currents.len(),
        trace.len() == currents.len(),
        follows(start, currents, potentials, trace, currents.len() as int),
        asked(electrode, start, currents, potentials, trace, currents.len() as int),
    ensures
        answered_by(electrode, start, currents, potentials),
        model_after(start, currents, potentials, currents.len()) == Some(
            state_before(start, trace, currents.len() as int),
        ),
        state_trace(start, currents, potentials) == trace,
{
    let n = currents.len();
    assert forall|j: nat| j <= n implies #[trigger] model_after(start, currents, potentials, j)
        == Some(state_before(start, trace, j as int)) by {
        lemma_follows_gives_model_after(start, currents, potentials, trace, j);
    }
    assert forall|k: int| 0 <= k < n implies match model_after(
        start,
        currents,
        potentials,
        k as nat,
    ) {
        Some(m) => match m.driven_by(currents[k]).settled() {
            Some(mid) => call_ensures(electrode, (mid,), #[trigger] potentials[k]),
            None => true,
        },
        None => true,
    } by {
        assert(model_after(start, currents, potentials, k as nat) == Some(
            state_before(start, trace, k),
        ));
    }
    assert forall|k: int| 0 <= k < n implies #[trigger] state_trace(
        start,
        currents,
        potentials,
    )[k] == trace[k] by {
        assert(model_after(start, currents, potentials, (k + 1) as nat) == Some(
            state_before(start, trace, k + 1),
        ));
    }
    assert(state_trace(start, currents, potentials) =~= trace);
}

proof fn lemma_diverged_run<F: Fn(ElectrochemicalModel) -> Option<i64>>(
    electrode: &F,
    start: ElectrochemicalModel,
    currents: Seq<i64>,
    potentials: Seq<Option<i64>>,
    trace: Seq<ElectrochemicalModel>,
    met: Option<i64>,
) -> (full: Seq<Option<i64>>)
    requires
        potentials.len() < currents.len(),
        trace.len() == potentials.len(),
        follows(start, currents, potentials, trace, potentials.len() as int),
        asked(electrode, start, currents, potentials, trace, potentials.len() as int),
        match state_before(start, trace, potentials.len() as int).driven_by(
            currents[potentials.len() as int],
        ).settled() {
            Some(mid) => call_ensures(electrode, (mid,), met),
            None => true,
        },
        state_before(start, trace, potentials.len() as int).driven_by(
            currents[potentials.len() as int],
        ).stepped(met) is None,
    ensures
        full.len() == currents.len(),
        answered_by(electrode, start, currents, full),
        model_after(start, currents, full, currents.len()) is None,
{
    let n = currents.len();
    let k = potentials.len();
    let full = potentials.push(met) + Seq::new((n - k - 1) as nat, |j: int| None::<i64>);
    assert(full[k as int] == met);
    assert forall|j: int| 0 <= j < k implies full[j] == potentials[j] by {}
    assert(follows(start, currents, full, trace, k as int));
    assert forall|j: nat| j <= k implies #[trigger] model_after(start, currents, full, j) == Some(
        state_before(start, trace, j as int),
    ) by {
        lemma_follows_gives_model_after(start, currents, full, trace, j);
    }
    assert(model_after(start, currents, full, k) == Some(state_before(start, trace, k as int)));
    assert(model_after(start, currents, full, (k + 1) as nat) is None);
    assert forall|j: nat| k < j <= n implies #[trigger] model_after(start, currents, full, j)
        is None by {
        lemma_divergence_is_final(start, currents, full, (k + 1) as nat, j);
    }
    assert forall|i: int| 0 <= i < n implies match model_after(start, currents, full, i as nat) {
        Some(m) => match m.driven_by(currents[i]).settled() {
            Some(mid) => call_ensures(electrode, (mid,), #[trigger] full[i]),
            None => true,
        },
        None => true,
    } by {
        if i < k {
            assert(model_after(start, currents, full, i as nat) == Some(
                state_before(start, trace, i),
            ));
            assert(full[i] == potentials[i]);
        } else if i == k {
        } else {
            assert(model_after(start, currents, full, i as nat) is None);
        }
    }
    full
}

/// One step of a run, with the overpotential that it met.
fn step_once<F: Fn(ElectrochemicalModel) -> Option<i64>>(
    model: &mut ElectrochemicalModel,
    electrode: &F,
) -> (r: (Result<(), CalibrationError>, Ghost<Option<i64>>))
    requires
        forall|m: ElectrochemicalModel| call_requires(electrode, (m,)),
    ensures
        match old(model).settled() {
            Some(mid) => call_ensures(electrode, (mid,), r.1@),
            None => true,
        },
        match old(model).stepped(r.1@) {
            Some(m) => r.0 == Ok::<(), CalibrationError>(()) && *final(model) == m,
            None => r.0 == Err::<(), CalibrationError>(CalibrationError::SimulationDiverged)
                && *final(model) == *old(model),
        },
{
    reveal(ElectrochemicalModel::stepped);
    let ghost before = *model;
    let stepped = model.time_step(electrode);
    let ghost after = *model;
    let met: Ghost<Option<i64>> = Ghost(
        match before.settled() {
            None => None,
            Some(mid) => choose|p: Option<i64>|
                {
                    &&& call_ensures(electrode, (mid,), p)
                    &&& match mid.energized(p) {
                        Some(m) => stepped == Ok::<(), CalibrationError>(()) && after == m,
                        None => stepped == Err::<(), CalibrationError>(
                            CalibrationError::SimulationDiverged,
                        ) && after == before,
                    }
                },
        },
    );
    (stepped, met)
}

/// Runs the model of `individual` through `real_current`, one current per
/// step, and returns the traces of voltage and concentrations with the
/// final cycle count.
///
/// `electrode` is asked once per step for the overpotential of one cell.
/// The run stops with `SimulationDiverged` at the first step whose
/// overpotential is not finite or where a quantity leaves the 64-bit range;
/// a run that lasts longer than a 64-bit count of seconds can tell is not
/// begun.
///
/// Mass is conserved: where the run began with no negative concentration,
/// no row of the traces holds one and no cycle was counted, the four
/// concentrations of every row add up to what they added up to at the
/// start.
pub fn simulate<F: Fn(ElectrochemicalModel) -> Option<i64>>(
    individual: &Genome,
    config: ModelConfig,
    real_current: &[i64],
    electrode: &F,
) -> (r: Result<SimulationOutput, CalibrationError>)
    requires
        forall|m: ElectrochemicalModel| call_requires(electrode, (m,)),
    ensures
        !run_fits(real_current@.len(), config.time_step) ==> r == Err::<
            SimulationOutput,
            CalibrationError,
        >(CalibrationError::SimulationDiverged),
        run_fits(real_current@.len(), config.time_step) ==> exists|potentials: Seq<Option<i64>>|
            {
                &&& potentials.len() == real_current.len()
                &&& answered_by(
                    electrode,
                    seeded(individual.genes@, config),
                    real_current@,
                    potentials,
                )
                &&& simulation_outcome(
                    seeded(individual.genes@, config),
                    real_current@,
                    potentials,
                    r,
                )
            },
        r is Ok && uneventful(seeded(individual.genes@, config), r->Ok_0) ==> mass_conserved(
            seeded(individual.genes@, config),
            r->Ok_0,
        ),
{
    let n = real_current.len();
    assert(n * config.time_step <= 0xffff_ffff_ffff_ffff * 0xffff_ffff) by (nonlinear_arith)
        requires
            n <= 0xffff_ffff_ffff_ffff,
            config.time_step <= 0xffff_ffff,
    ;
    if (n as u128) * (config.time_step as u128) > i64::MAX as u128 {
        return Err(CalibrationError::SimulationDiverged);
    }
    let mut model = ElectrochemicalModel::new(individual, config);
    let ghost start = model;
    let ghost currents = real_current@;
    let ghost mut potentials: Seq<Option<i64>> = Seq::empty();
    let ghost mut trace: Seq<ElectrochemicalModel> = Seq::empty();
    let mut out = SimulationOutput {
        time: Vec::new(),
        voltage: Vec::new(),
        catholyte_c1: Vec::new(),
        catholyte_c0: Vec::new(),
        anolyte_c1: Vec::new(),
        anolyte_c2: Vec::new(),
        cycles: 0,
    };
    let mut clock: i64 = 0;
    let mut k: usize = 0;
    proof {
        reveal(time_stamp);
    }
    while k < n
        invariant
            n == real_current.len(),
            n * config.time_step <= i64::MAX,
            currents == real_current@,
            start == seeded(individual.genes@, config),
            forall|m: ElectrochemicalModel| call_requires(electrode, (m,)),
            k <= n,
            clock == time_stamp(config.time_step, k as int),
            potentials.len() == k,
            trace.len() == k,
            model == state_before(start, trace, k as int).driven_by(model.current_i),
            follows(start, currents, potentials, trace, k as int),
            asked(electrode, start, currents, potentials, trace, k as int),
            out.time@ == time_base(k as nat, config.time_step),
            out.voltage@ == voltages(trace),
            out.catholyte_c1@ == Seq::new(trace.len(), |j: int| trace[j].catholyte_c1),
            out.catholyte_c0@ == Seq::new(trace.len(), |j: int| trace[j].catholyte_c0),
            out.anolyte_c1@ == Seq::new(trace.len(), |j: int| trace[j].anolyte_c1),
            out.anolyte_c2@ == Seq::new(trace.len(), |j: int| trace[j].anolyte_c2),
        decreases n - k,
    {
        model.current_i = real_current[k];
        let (stepped, met) = step_once(&mut model, electrode);
        match stepped {
            Err(e) => {
                proof {
                    let full = lemma_diverged_run(
                        electrode,
                        start,
                        currents,
                        potentials,
                        trace,
                        met@,
                    );
                    assert(simulation_outcome(
                        start,
                        currents,
                        full,
                        Err::<SimulationOutput, CalibrationError>(e),
                    ));
                }
                return Err(e);
            },
            Ok(()) => {},
        }
        proof {
            let ghost earlier = trace;
            potentials = potentials.push(met@);
            trace = trace.push(model);
            assert forall|j: int| 0 <= j < k implies state_before(start, trace, j)
                == state_before(start, earlier, j) by {}
            assert(state_before(start, trace, k as int) == state_before(
                start,
                earlier,
                k as int,
            ));
        }
        out.time.push(clock);
        out.voltage.push(model.voltage);
        out.catholyte_c1.push(model.catholyte_c1);
        out.catholyte_c0.push(model.catholyte_c0);
        out.anolyte_c1.push(model.anolyte_c1);
        out.anolyte_c2.push(model.anolyte_c2);
        proof {
            lemma_time_stamps(config.time_step, k as nat, n as nat);
        }
        clock = clock + config.time_step as i64;
        k += 1;
    }
    out.cycles = model.cycle;
    proof {
        lemma_completed_run(electrode, start, currents, potentials, trace);
        assert(simulation_outcome(
            start,
            currents,
            potentials,
            Ok::<SimulationOutput, CalibrationError>(out),
        ));
        if uneventful(start, out) {
            assert forall|k: nat| 1 <= k <= n implies (#[trigger] model_after(
                start,
                currents,
                potentials,
                k,
            )) is Some && model_after(start, currents, potentials, k).unwrap().replete() by {
                lemma_run_began(start, currents, potentials, k, n as nat);
                assert(trace[k - 1] == model_after(start, currents, potentials, k).unwrap());
                assert(out.anolyte_c1@[k - 1] >= 0);
                assert(out.anolyte_c2@[k - 1] >= 0);
                assert(out.catholyte_c1@[k - 1] >= 0);
                assert(out.catholyte_c0@[k - 1] >= 0);
            }
            lemma_uneventful_run_conserves_total(start, currents, potentials, n as nat);
            assert forall|k: int| 0 <= k < out.voltage@.len() implies #[trigger] out.anolyte_c1@[k]
                + out.anolyte_c2@[k] + out.catholyte_c1@[k] + out.catholyte_c0@[k]
                == start.total() by {
                assert(trace[k] == model_after(start, currents, potentials, (k + 1) as nat)
                    .unwrap());
            }
        }
    }
    Ok(out)
}

/// Scores the candidate `individual` against a measured run: simulates
/// the currents and compares the simulated voltages with the measured
/// ones.  A run that diverges or is too long to begin, and a measured trace
/// that cannot be compared with the simulated one, give a non-finite score.
pub fn electrochem_model_sim<F: Fn(ElectrochemicalModel) -> Option<i64>>(
    individual: &Genome,
    config: ModelConfig,
    real_current: &[i64],
    real_voltage: &[i64],
    electrode: &F,
) -> (fitness: Fitness)
    requires
        forall|m: ElectrochemicalModel| call_requires(electrode, (m,)),
    ensures
        !run_fits(real_current@.len(), config.time_step) ==> fitness == Fitness::NonFinite,
        run_fits(real_current@.len(), config.time_step) ==> exists|potentials: Seq<Option<i64>>|
            {
                &&& potentials.len() == real_current.len()
                &&& answered_by(
                    electrode,
                    seeded(individual.genes@, config),
                    real_current@,
                    potentials,
                )
                &&& fitness == simulation_score(
                    seeded(individual.genes@, config),
                    real_current@,
                    real_voltage@,
                    potentials,
                )
            },
{
    match simulate(individual, config, real_current, electrode) {
        Err(_) => Fitness::NonFinite,
        Ok(out) => match fitness_function(
            out.time.as_slice(),
            real_voltage,
            out.voltage.as_slice(),
        ) {
            Ok(score) => score,
            Err(_) => Fitness::NonFinite,
        },
    }
}

/// What a cycle event does, and what a step without one does not: after a
/// step that is a cycle event the counter is one higher and the
/// concentrations are those that the check leaves, the implicated one at
/// zero; after any other step the counter is as it was.
pub proof fn lemma_cycle_event(m: ElectrochemicalModel, overpotential: Option<i64>)
    requires
        m.stepped(overpotential) is Some,
    ensures
        ({
            let after = m.stepped(overpotential).unwrap();
            &&& m.starved() ==> {
                &&& after.cycle == m.cycle + 1
                &&& after.anolyte_c1 == m.cleared().anolyte_c1
                &&& after.anolyte_c2 == m.cleared().anolyte_c2
                &&& after.catholyte_c1 == m.cleared().catholyte_c1
                &&& after.catholyte_c0 == m.cleared().catholyte_c0
            }
            &&& !m.starved() ==> after.cycle == m.cycle
        }),
{
    reveal(ElectrochemicalModel::stepped);
    reveal(ElectrochemicalModel::settled);
}

/// The step that would overdraw the anolyte while charging leaves it
/// empty and counts one cycle; no other concentration is set to zero
/// unless it was negative.
pub proof fn lemma_overdrawn_anolyte(m: ElectrochemicalModel, overpotential: Option<i64>)
    requires
        m.current_i > 0,
        m.charge_transfer() is Some,
        m.anolyte_c1 < m.charge_transfer().unwrap(),
        m.stepped(overpotential) is Some,
    ensures
        ({
            let after = m.stepped(overpotential).unwrap();
            &&& after.anolyte_c1 == 0
            &&& after.cycle == m.cycle + 1
            &&& after.anolyte_c2 == floored(m.anolyte_c2)
            &&& after.catholyte_c1 == floored(m.catholyte_c1)
            &&& after.catholyte_c0 == floored(m.catholyte_c0)
        }),
{
    lemma_cycle_event(m, overpotential);
}

/// At rest the voltage is the formal potential and the overpotential of
/// every cell, and nothing else: no offset and no ohmic drop.
pub proof fn lemma_voltage_at_rest(m: ElectrochemicalModel, overpotential: i64)
    requires
        m.current_i == 0,
        m.energized(Some(overpotential)) is Some,
    ensures
        m.energized(Some(overpotential)).unwrap().voltage == (overpotential + FORMAL_POTENTIAL)
            * m.config.cell_count(),
{
    assert(m.stack_resistance * 0 * 1 == 0) by (nonlinear_arith);
    assert(0int / (OHMIC_DENOMINATOR as int) == 0) by (nonlinear_arith)
        requires
            OHMIC_DENOMINATOR > 0,
    ;
}

/// Conservation of mass over one step: a step that starts with no negative
/// concentration, is no cycle event and does not diverge leaves the sum of
/// the four concentrations as it was, whatever the current and the
/// overpotential.
pub proof fn lemma_step_conserves_total(m: ElectrochemicalModel, overpotential: Option<i64>)
    requires
        m.replete(),
        !m.starved(),
        m.stepped(overpotential) is Some,
    ensures
        m.stepped(overpotential).unwrap().total() == m.total(),
        m.stepped(overpotential).unwrap().cycle == m.cycle,
{
    reveal(ElectrochemicalModel::stepped);
    reveal(ElectrochemicalModel::settled);
    assert(m.checked() == Some(m));
    let converted = m.converted().unwrap();
    assert(converted.total() == m.total());
    let permeated = converted.permeated().unwrap();
    assert(permeated.total() == converted.total());
    let levelled = permeated.levelled().unwrap();
    assert(levelled.total() == permeated.total());
}

/// A run that got as far as step `n` got as far as every step before it.
pub proof fn lemma_run_began(
    start: ElectrochemicalModel,
    currents: Seq<i64>,
    potentials: Seq<Option<i64>>,
    k: nat,
    n: nat,
)
    requires
        k <= n,
        model_after(start, currents, potentials, n) is Some,
    ensures
        model_after(start, currents, potentials, k) is Some,
    decreases n,
{
    if k < n {
        lemma_run_began(start, currents, potentials, k, (n - 1) as nat);
    }
}

/// The cycle count never falls along a run.
pub proof fn lemma_cycles_only_grow(
    start: ElectrochemicalModel,
    currents: Seq<i64>,
    potentials: Seq<Option<i64>>,
    i: nat,
    j: nat,
)
    requires
        i <= j,
        model_after(start, currents, potentials, j) is Some,
    ensures
        model_after(start, currents, potentials, i) is Some,
        model_after(start, currents, potentials, i).unwrap().cycle <= model_after(
            start,
            currents,
            potentials,
            j,
        ).unwrap().cycle,
    decreases j,
{
    if i < j {
        lemma_cycles_only_grow(start, currents, potentials, i, (j - 1) as nat);
        let before = model_after(start, currents, potentials, (j - 1) as nat).unwrap();
        lemma_cycle_event(before.driven_by(currents[j - 1]), potentials[j - 1]);
    }
}

/// Step `k` of the run starts with no negative concentration and is no
/// cycle event.
pub open spec fn quiet_step(
    start: ElectrochemicalModel,
    currents: Seq<i64>,
    potentials: Seq<Option<i64>>,
    k: nat,
) -> bool {
    match model_after(start, currents, potentials, k) {
        Some(m) => m.replete() && !m.driven_by(currents[k as int]).starved(),
        None => false,
    }
}

/// Conservation of mass over a run: where no step starts with a negative
/// concentration or is a cycle event, and the run does not diverge, the sum
/// of the four concentrations after the run is the sum before it, and no
/// cycle was counted.
pub proof fn lemma_run_conserves_total(
    start: ElectrochemicalModel,
    currents: Seq<i64>,
    potentials: Seq<Option<i64>>,
    n: nat,
)
    requires
        model_after(start, currents, potentials, n) is Some,
        forall|k: nat| k < n ==> #[trigger] quiet_step(start, currents, potentials, k),
    ensures
        model_after(start, currents, potentials, n).unwrap().total() == start.total(),
        model_after(start, currents, potentials, n).unwrap().cycle == start.cycle,
    decreases n,
{
    if n > 0 {
        let before = model_after(start, currents, potentials, (n - 1) as nat);
        assert(quiet_step(start, currents, potentials, (n - 1) as nat));
        lemma_run_conserves_total(start, currents, potentials, (n - 1) as nat);
        let driven = before.unwrap().driven_by(currents[n - 1]);
        lemma_step_conserves_total(driven, potentials[n - 1]);
    }
}

/// Conservation of mass, told from what a run shows: where the run began
/// with no negative concentration, held none after any step and counted no
/// cycle, the sum of the four concentrations after every step is the sum
/// before the run.
pub proof fn lemma_uneventful_run_conserves_total(
    start: ElectrochemicalModel,
    currents: Seq<i64>,
    potentials: Seq<Option<i64>>,
    n: nat,
)
    requires
        model_after(start, currents, potentials, n) is Some,
        model_after(start, currents, potentials, n).unwrap().cycle == start.cycle,
        start.replete(),
        forall|k: nat|
            1 <= k <= n ==> (#[trigger] model_after(start, currents, potentials, k)) is Some
                && model_after(start, currents, potentials, k).unwrap().replete(),
    ensures
        forall|k: nat|
            k <= n ==> (#[trigger] model_after(start, currents, potentials, k)).unwrap().total()
                == start.total(),
{
    assert forall|k: nat| k < n implies #[trigger] quiet_step(start, currents, potentials, k) by {
        lemma_cycles_only_grow(start, currents, potentials, 0, k);
        lemma_cycles_only_grow(start, currents, potentials, k + 1, n);
        let before = model_after(start, currents, potentials, k).unwrap();
        if k > 0 {
            assert(before.replete());
        }
        lemma_cycle_event(before.driven_by(currents[k as int]), potentials[k as int]);
    }
    assert forall|k: nat| k <= n implies (#[trigger] model_after(
        start,
        currents,
        potentials,
        k,
    )).unwrap().total() == start.total() by {
        lemma_run_began(start, currents, potentials, k, n);
        lemma_run_conserves_total(start, currents, potentials, k);
    }
}

} // verus!
