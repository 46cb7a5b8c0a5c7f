use flowcell_fit::electrochem_model::{
    electrochem_model_sim, simulate, DiffusionPolicy, ElectrochemicalModel, ModelConfig,
    StackScaling, CELLS, FORMAL_POTENTIAL, TIME_STEP,
};
use flowcell_fit::errors::CalibrationError;
use flowcell_fit::fitness::Fitness;
use flowcell_fit::fixed_point::mul_div;
use flowcell_fit::genome::Genome;

fn single_cell() -> ModelConfig {
    ModelConfig { scaling: StackScaling::SingleCell, ..ModelConfig::stack() }
}

fn one_way() -> ModelConfig {
    ModelConfig { diffusion: DiffusionPolicy::ConcentrationDriven, ..ModelConfig::stack() }
}

fn stepping(time_step: u32) -> ModelConfig {
    ModelConfig { time_step, ..ModelConfig::stack() }
}

fn model() -> ElectrochemicalModel {
    ElectrochemicalModel {
        config: ModelConfig::stack(),
        diffusion_number: 0,
        rate_constant_positive: 500_000_000_000,
        rate_constant_negative: 500_000_000_000,
        stack_resistance: 100_000_000,
        anolyte_c1: 2_000_000_000,
        anolyte_c2: 750_000_000,
        catholyte_c1: 2_000_000_000,
        catholyte_c0: 750_000_000,
        current_i: 0,
        voltage: 0,
        cycle: 0,
        charge_offset: 10_000,
        discharge_offset: -20_000,
    }
}

fn midpoint_genome() -> Genome {
    Genome {
        genes: [
            2_000_000_000,
            2_000_000_000,
            250_000_000,
            500_000_005_000,
            500_000_005_000,
            5_000_500_000,
            0,
            0,
            750_000_000,
            750_000_000,
        ],
        fitness: Fitness::NonFinite,
        id: 0,
    }
}

/// Kinetic and concentration overpotential of one cell in microvolts, as a
/// floating-point electrode model gives it.
fn electrode(m: ElectrochemicalModel) -> Option<i64> {
    let faraday = 96485.0f64;
    let gas = 8.3145f64;
    let temperature = 333.15f64;
    let area = 0.28f64 * 0.32;
    let a1 = m.anolyte_c1 as f64 * 1e-6;
    let a2 = m.anolyte_c2 as f64 * 1e-6;
    let c1 = m.catholyte_c1 as f64 * 1e-6;
    let k_pos = m.rate_constant_positive as f64 * 1e-12;
    let k_neg = m.rate_constant_negative as f64 * 1e-12;
    let current = m.current_i as f64 * 1e-6;
    let jp = faraday * k_pos * a2.sqrt() * a1.sqrt() / area;
    let jn = faraday * k_neg * c1.sqrt() * 1000.0f64.sqrt() / area;
    let xp = current / (2.0 * jp * area);
    let xn = current / (2.0 * jn * area);
    let kinetic = 2.0 * gas * temperature / faraday
        * ((xp + (xp * xp + 1.0).sqrt()).ln() - (xn + (xn * xn + 1.0).sqrt()).ln());
    let nernst = gas * temperature / faraday * (a2 * 1000.0 / (a1 * c1)).ln();
    let total = (kinetic + nernst) * 1e6;
    if total.is_finite() && total.abs() < 9.0e18 {
        Some(total.round() as i64)
    } else {
        None
    }
}

#[test]
fn starved_anolyte_is_clamped_and_counts_one_cycle() {
    // 23 A convert 23000000 * 18000 / 57891 = 7151370 in one step.
    let mut m = model();
    m.current_i = 23_000_000;
    m.anolyte_c1 = 7_151_369;
    let before = m;
    assert_eq!(m.charge_discharge_check(), Ok(true));
    assert_eq!(m.anolyte_c1, 0);
    assert_eq!(m.cycle, before.cycle + 1);
    assert_eq!(m.anolyte_c2, before.anolyte_c2);
    assert_eq!(m.catholyte_c1, before.catholyte_c1);
    assert_eq!(m.catholyte_c0, before.catholyte_c0);
    assert_eq!(m.voltage, before.voltage);
}

#[test]
fn a_step_that_the_anolyte_can_just_feed_is_no_cycle_event() {
    let mut m = model();
    m.current_i = 23_000_000;
    m.anolyte_c1 = 7_151_370;
    let before = m;
    assert_eq!(m.charge_discharge_check(), Ok(false));
    assert_eq!(m, before);
    assert_eq!(m.time_step(&|_| Some(0)), Ok(()));
    assert_eq!(m.anolyte_c1, 0);
    assert_eq!(m.cycle, 0);
}

#[test]
fn the_overdrawing_step_leaves_the_anolyte_empty_and_counts_one_cycle() {
    let mut m = model();
    m.diffusion_number = 5_000_000_000;
    m.current_i = 23_000_000;
    m.anolyte_c1 = 1_000;
    m.cycle = 41;
    let before = m;
    assert_eq!(m.time_step(&|_| Some(0)), Ok(()));
    assert_eq!(m.anolyte_c1, 0);
    assert_eq!(m.cycle, 42);
    // A cycle event takes the place of conversion and diffusion.
    assert_eq!(m.anolyte_c2, before.anolyte_c2);
    assert_eq!(m.catholyte_c1, before.catholyte_c1);
    assert_eq!(m.catholyte_c0, before.catholyte_c0);
}

#[test]
fn other_negative_concentrations_are_clamped_without_a_second_cycle() {
    let mut m = model();
    m.current_i = 23_000_000;
    m.anolyte_c1 = -5;
    m.catholyte_c1 = -9;
    m.catholyte_c0 = -1;
    assert_eq!(m.charge_discharge_check(), Ok(true));
    assert_eq!(m.cycle, 1);
    assert_eq!((m.anolyte_c1, m.catholyte_c1, m.catholyte_c0), (0, 0, 0));
    assert_eq!(m.anolyte_c2, 750_000_000);
}

#[test]
fn only_the_implicated_concentration_is_set_to_zero() {
    let mut m = model();
    m.current_i = 23_000_000;
    m.anolyte_c1 = 5;
    m.catholyte_c1 = 9;
    assert_eq!(m.charge_discharge_check(), Ok(true));
    assert_eq!(m.cycle, 1);
    // Both half-cells are overdrawn; the anolyte is the one implicated.
    assert_eq!((m.anolyte_c1, m.catholyte_c1), (0, 9));

    let mut m = model();
    m.current_i = 23_000_000;
    m.catholyte_c1 = 9;
    assert_eq!(m.charge_discharge_check(), Ok(true));
    assert_eq!(m.cycle, 1);
    assert_eq!((m.anolyte_c1, m.catholyte_c1), (2_000_000_000, 0));
}

#[test]
fn discharge_is_starved_by_the_other_species() {
    let mut m = model();
    m.current_i = -23_000_000;
    m.anolyte_c1 = -5;
    assert_eq!(m.charge_discharge_check(), Ok(false));
    // Species 1 does not limit a discharge: clamped, but no cycle event.
    assert_eq!(m.cycle, 0);
    assert_eq!(m.anolyte_c1, 0);

    let mut m = model();
    m.current_i = -23_000_000;
    m.anolyte_c2 = 7_151_369;
    assert_eq!(m.charge_discharge_check(), Ok(true));
    assert_eq!(m.cycle, 1);
    assert_eq!(m.anolyte_c2, 0);
    assert_eq!(m.catholyte_c0, 750_000_000);

    let mut m = model();
    m.current_i = -23_000_000;
    m.catholyte_c0 = 7_151_369;
    assert_eq!(m.charge_discharge_check(), Ok(true));
    assert_eq!(m.cycle, 1);
    assert_eq!(m.catholyte_c0, 0);
    assert_eq!(m.anolyte_c2, 750_000_000);

    let mut m = model();
    m.current_i = 0;
    m.catholyte_c0 = -1;
    assert_eq!(m.charge_discharge_check(), Ok(true));
    assert_eq!(m.cycle, 1);
    assert_eq!(m.catholyte_c0, 0);
}

#[test]
fn check_leaves_a_replete_model_alone() {
    let mut m = model();
    m.current_i = 23_000_000;
    let before = m;
    assert_eq!(m.charge_discharge_check(), Ok(false));
    assert_eq!(m, before);
}

#[test]
fn a_cycle_count_beyond_the_range_diverges() {
    let mut m = model();
    m.cycle = u64::MAX;
    m.current_i = 1;
    m.anolyte_c1 = -1;
    let before = m;
    assert_eq!(m.charge_discharge_check(), Err(CalibrationError::SimulationDiverged));
    assert_eq!(m, before);
    m.cycle = u64::MAX - 1;
    assert_eq!(m.charge_discharge_check(), Ok(true));
    assert_eq!(m.cycle, u64::MAX);
}

#[test]
fn a_conversion_beyond_the_range_fails_the_check() {
    let mut m = model();
    m.config = stepping(u32::MAX);
    m.current_i = i64::MAX;
    let before = m;
    assert_eq!(m.charge_discharge_check(), Err(CalibrationError::SimulationDiverged));
    assert_eq!(m, before);
}

#[test]
fn faradaic_conversion_moves_the_same_amount_in_both_half_cells() {
    let mut m = model();
    m.current_i = 57_891;
    assert_eq!(m.current_component(), Ok(()));
    assert_eq!(m.anolyte_c1, 2_000_000_000 - 18_000);
    assert_eq!(m.anolyte_c2, 750_000_000 + 18_000);
    assert_eq!(m.catholyte_c1, 2_000_000_000 - 18_000);
    assert_eq!(m.catholyte_c0, 750_000_000 + 18_000);
}

#[test]
fn faradaic_conversion_rounds_toward_zero_in_both_directions() {
    let mut m = model();
    m.current_i = 4;
    assert_eq!(m.current_component(), Ok(()));
    assert_eq!(m.anolyte_c1, 2_000_000_000 - 1);
    let mut m = model();
    m.current_i = -4;
    assert_eq!(m.current_component(), Ok(()));
    assert_eq!(m.anolyte_c1, 2_000_000_000 + 1);
    let mut m = model();
    m.current_i = -3;
    assert_eq!(m.current_component(), Ok(()));
    assert_eq!(m.anolyte_c1, 2_000_000_000);
}

#[test]
fn faradaic_conversion_beyond_the_range_diverges_and_changes_nothing() {
    let mut m = model();
    m.anolyte_c2 = i64::MAX;
    m.current_i = 57_891;
    let before = m;
    assert_eq!(m.current_component(), Err(CalibrationError::SimulationDiverged));
    assert_eq!(m, before);
}

#[test]
fn diffusion_moves_species_two_with_fixed_stoichiometry() {
    let mut m = model();
    m.diffusion_number = 1_000_000_000;
    m.anolyte_c1 = 0;
    m.anolyte_c2 = 1_000_000;
    m.catholyte_c1 = 0;
    m.catholyte_c0 = 1_000;
    assert_eq!(m.diffusion_step(), Ok(()));
    // 1e6 * 1e9 * 448 / 1e15 = 448 leaves the anolyte; the gradient of
    // species 1 is then 896, of which 896 * 1e9 * 448 / 1e15 = 0 returns.
    assert_eq!(m.anolyte_c2, 1_000_000 - 448);
    assert_eq!(m.catholyte_c0, 1_000 - 448);
    assert_eq!(m.catholyte_c1, 896);
    assert_eq!(m.anolyte_c1, 0);
}

#[test]
fn back_diffusion_follows_the_gradient_in_either_direction() {
    let mut m = model();
    m.diffusion_number = 1_000_000_000_000;
    m.anolyte_c2 = 0;
    m.anolyte_c1 = 1_000_000;
    m.catholyte_c1 = 3_000_000;
    assert_eq!(m.diffusion_step(), Ok(()));
    // 2e6 * 1e12 * 448 / 1e15 = 896000.
    assert_eq!(m.catholyte_c1, 3_000_000 - 896_000);
    assert_eq!(m.anolyte_c1, 1_000_000 + 896_000);

    let mut m = model();
    m.diffusion_number = 1_000_000_000_000;
    m.anolyte_c2 = 0;
    m.anolyte_c1 = 3_000_000;
    m.catholyte_c1 = 1_000_000;
    assert_eq!(m.diffusion_step(), Ok(()));
    assert_eq!(m.catholyte_c1, 1_000_000 + 896_000);
    assert_eq!(m.anolyte_c1, 3_000_000 - 896_000);
}

#[test]
fn species_two_does_not_diffuse_from_an_empty_anolyte() {
    let mut m = model();
    m.diffusion_number = 1_000_000_000_000;
    m.anolyte_c2 = -1_000_000;
    m.anolyte_c1 = 5;
    m.catholyte_c1 = 5;
    let before = m;
    assert_eq!(m.diffusion_step(), Ok(()));
    assert_eq!(m, before);
}

#[test]
fn diffusion_beyond_the_range_diverges_and_changes_nothing() {
    let mut m = model();
    m.diffusion_number = i64::MAX;
    m.anolyte_c2 = i64::MAX;
    let before = m;
    assert_eq!(m.diffusion_step(), Err(CalibrationError::SimulationDiverged));
    assert_eq!(m, before);
}

#[test]
fn stack_voltage_scales_the_cell_terms_but_not_the_ohmic_drop() {
    let mut m = model();
    m.current_i = 2_000_000;
    assert_eq!(m.voltage_calc(Some(100_000)), Ok(()));
    // (100000 + 650000 + 10000) * 30 + 1e8 * 2e6 / 1e9
    assert_eq!(m.voltage, 22_800_000 + 200_000);
}

#[test]
fn discharge_uses_the_discharge_offset() {
    let mut m = model();
    m.current_i = -2_000_000;
    assert_eq!(m.voltage_calc(Some(100_000)), Ok(()));
    assert_eq!(m.voltage, (100_000 + 650_000 - 20_000) * 30 - 200_000);
}

#[test]
fn at_rest_no_offset_and_no_ohmic_drop_enter_the_voltage() {
    let mut m = model();
    m.current_i = 0;
    assert_eq!(m.voltage_calc(Some(0)), Ok(()));
    assert_eq!(m.voltage, FORMAL_POTENTIAL * CELLS);
    assert_eq!(m.voltage_calc(Some(123_456)), Ok(()));
    assert_eq!(m.voltage, (FORMAL_POTENTIAL + 123_456) * CELLS);
    m.current_i = 1;
    assert_eq!(m.voltage_calc(Some(0)), Ok(()));
    assert_eq!(m.voltage, (FORMAL_POTENTIAL + 10_000) * CELLS);
    m.current_i = -1;
    assert_eq!(m.voltage_calc(Some(0)), Ok(()));
    assert_eq!(m.voltage, (FORMAL_POTENTIAL - 20_000) * CELLS);
}

#[test]
fn a_non_finite_overpotential_diverges() {
    let mut m = model();
    let before = m;
    assert_eq!(m.voltage_calc(None), Err(CalibrationError::SimulationDiverged));
    assert_eq!(m, before);
}

#[test]
fn a_voltage_beyond_the_range_diverges() {
    let mut m = model();
    let before = m;
    assert_eq!(m.voltage_calc(Some(i64::MAX)), Err(CalibrationError::SimulationDiverged));
    assert_eq!(m, before);
    m.stack_resistance = i64::MAX;
    m.current_i = i64::MAX;
    let before = m;
    assert_eq!(m.voltage_calc(Some(0)), Err(CalibrationError::SimulationDiverged));
    assert_eq!(m, before);
}

#[test]
fn time_step_runs_check_conversion_diffusion_and_voltage() {
    let mut m = model();
    m.diffusion_number = 1_000_000_000;
    m.current_i = 57_891;
    m.catholyte_c0 = -7;
    let seen = |mid: ElectrochemicalModel| Some(mid.anolyte_c2 - 750_000_000);
    assert_eq!(m.time_step(&seen), Ok(()));
    // Species 0 does not limit a charge: raised to zero, no cycle event.
    assert_eq!(m.cycle, 0);
    // Species 2: 750000000 + 18000, of which 336008 leave (750018000 * 448 / 1e6).
    let moved = 750_018_000i64 * 448 / 1_000_000;
    assert_eq!(moved, 336_008);
    assert_eq!(m.anolyte_c2, 750_018_000 - moved);
    assert_eq!(m.catholyte_c0, 18_000 - moved);
    // Species 1: the gradient of twice that returns 672016 * 448 / 1e6 = 301.
    assert_eq!(m.catholyte_c1, 2_000_000_000 - 18_000 + 2 * moved - 301);
    assert_eq!(m.anolyte_c1, 2_000_000_000 - 18_000 + 301);
    let overpotential = 18_000 - moved;
    assert_eq!(m.voltage, (overpotential + 650_000 + 10_000) * 30 + 5_789);
}

#[test]
fn a_diverging_time_step_changes_nothing() {
    let mut m = model();
    m.current_i = 1;
    let before = m;
    assert_eq!(m.time_step(&|_| None), Err(CalibrationError::SimulationDiverged));
    assert_eq!(m, before);
}

#[test]
fn mul_div_rounds_toward_zero_and_reports_overflow() {
    assert_eq!(mul_div(7, 3, 1, 2), Some(10));
    assert_eq!(mul_div(-7, 3, 1, 2), Some(-10));
    assert_eq!(mul_div(7, -3, 1, 2), Some(-10));
    assert_eq!(mul_div(-7, -3, 1, 2), Some(10));
    assert_eq!(mul_div(0, -3, 5, 2), Some(0));
    assert_eq!(mul_div(i64::MAX as i128, 1, 1, 1), Some(i64::MAX));
    assert_eq!(mul_div(i64::MAX as i128, -1, 1, 1), Some(-i64::MAX));
    assert_eq!(mul_div(i64::MIN as i128, 1, 1, 1), Some(i64::MIN));
    assert_eq!(mul_div(i64::MIN as i128, -1, 1, 1), None);
    assert_eq!(mul_div(i64::MAX as i128, i64::MAX, 65_536, 1), None);
    assert_eq!(mul_div(i64::MAX as i128, 2, 1, 2), Some(i64::MAX));
    assert_eq!(mul_div(1i128 << 64, i64::MIN, 65_536, 1 << 63), None);
}

#[test]
fn zero_current_voltage_is_formal_potential_plus_nernst_term() {
    let genome = midpoint_genome();
    let out = simulate(&genome, ModelConfig::stack(), &[0], &electrode).unwrap();
    assert_eq!(out.cycles, 0);
    assert_eq!(out.time, vec![0]);
    assert_eq!(out.voltage.len(), 1);

    // The concentrations after one step without current: diffusion only.
    let d = 5_000_500_000i128;
    let moved = (750_000_000i128 * d * 448 / 1_000_000_000_000_000) as i64;
    let c1 = 2_000_000_000 + 2 * moved;
    let back = ((c1 - 2_000_000_000) as i128 * d * 448 / 1_000_000_000_000_000) as i64;
    assert_eq!(out.anolyte_c2, vec![750_000_000 - moved]);
    assert_eq!(out.catholyte_c0, vec![750_000_000 - moved]);
    assert_eq!(out.catholyte_c1, vec![c1 - back]);
    assert_eq!(out.anolyte_c1, vec![2_000_000_000 + back]);

    // At zero current the kinetic term vanishes: the Nernst term is left.
    let a1 = out.anolyte_c1[0] as f64 * 1e-6;
    let a2 = out.anolyte_c2[0] as f64 * 1e-6;
    let c1 = out.catholyte_c1[0] as f64 * 1e-6;
    let nernst = 8.3145f64 * 333.15 / 96485.0 * (a2 * 1000.0 / (a1 * c1)).ln();
    let nernst_microvolts = (nernst * 1e6).round() as i64;
    assert_eq!(out.voltage[0], (FORMAL_POTENTIAL + nernst_microvolts) * CELLS);
}

#[test]
fn time_base_advances_by_the_time_step() {
    let genome = midpoint_genome();
    let currents = [1_000_000, -1_000_000, 0, 5];
    let out = simulate(&genome, ModelConfig::stack(), &currents, &|_| Some(0)).unwrap();
    assert_eq!(TIME_STEP, 60);
    assert_eq!(out.time, vec![0, 60, 120, 180]);
    assert_eq!(out.voltage.len(), 4);
    assert_eq!(out.anolyte_c1.len(), 4);
    assert_eq!(out.anolyte_c2.len(), 4);
    assert_eq!(out.catholyte_c1.len(), 4);
    assert_eq!(out.catholyte_c0.len(), 4);
}

#[test]
fn an_empty_run_has_empty_traces() {
    let genome = midpoint_genome();
    let out = simulate(&genome, ModelConfig::stack(), &[], &|_| Some(0)).unwrap();
    assert!(out.time.is_empty() && out.voltage.is_empty());
    assert_eq!(out.cycles, 0);
}

#[test]
fn a_run_that_overdraws_the_anolyte_counts_the_cycle_at_that_step() {
    let mut genome = midpoint_genome();
    genome.genes[5] = 0;
    genome.genes[0] = 30_000;
    let current = 57_891;
    let currents = [current, current, current];
    let out = simulate(&genome, ModelConfig::stack(), &currents, &|_| Some(0)).unwrap();
    // Step 0 converts 18000 of the 30000; step 1 would overdraw the 12000
    // that are left, and so would step 2 the empty anolyte.
    assert_eq!(out.anolyte_c1, vec![12_000, 0, 0]);
    assert_eq!(out.cycles, 2);
    assert_eq!(out.anolyte_c2, vec![750_018_000, 750_018_000, 750_018_000]);
    assert_eq!(out.catholyte_c1, vec![1_999_982_000, 1_999_982_000, 1_999_982_000]);
}

#[test]
fn the_offsets_do_not_enter_the_voltage_at_rest() {
    let mut genome = midpoint_genome();
    genome.genes[6] = 400_000;
    genome.genes[7] = -300_000;
    let with = simulate(&genome, ModelConfig::stack(), &[0], &electrode).unwrap();
    let without = simulate(&midpoint_genome(), ModelConfig::stack(), &[0], &electrode).unwrap();
    assert_eq!(with.voltage, without.voltage);
}

#[test]
fn mass_is_conserved_while_no_concentration_is_clamped() {
    let genome = midpoint_genome();
    let currents = [23_000_000i64, 23_000_000, -23_000_000, 0, -23_000_000, 7];
    let out = simulate(&genome, ModelConfig::stack(), &currents, &|_| Some(0)).unwrap();
    let start: i64 = 2_000_000_000 + 2_000_000_000 + 750_000_000 + 750_000_000;
    for k in 0..currents.len() {
        let total =
            out.anolyte_c1[k] + out.anolyte_c2[k] + out.catholyte_c1[k] + out.catholyte_c0[k];
        assert_eq!(total, start);
    }
    assert_eq!(out.cycles, 0);
}

#[test]
fn a_run_with_a_non_finite_overpotential_diverges() {
    let genome = midpoint_genome();
    let r = simulate(&genome, ModelConfig::stack(), &[1, 2, 3], &|m: ElectrochemicalModel| {
        if m.current_i == 2 {
            None
        } else {
            Some(0)
        }
    });
    assert_eq!(r, Err(CalibrationError::SimulationDiverged));
    let stack = ModelConfig::stack();
    let score = electrochem_model_sim(&genome, stack, &[1, 2, 3], &[0, 0, 0], &|_| None);
    assert_eq!(score, Fitness::NonFinite);
}

#[test]
fn exhausted_species_make_the_electrode_model_diverge() {
    let mut genome = midpoint_genome();
    genome.genes[8] = 0;
    genome.genes[5] = 0;
    // No species 2 in the anolyte: the logarithm of the Nernst term is not finite.
    let r = simulate(&genome, ModelConfig::stack(), &[0], &electrode);
    assert_eq!(r, Err(CalibrationError::SimulationDiverged));
}

#[test]
fn score_of_a_run_is_its_trace_error() {
    let genome = midpoint_genome();
    let currents = [0i64, 0, 0];
    // Constant overpotential, no current, no offsets: every voltage is 30 * 650001.
    let v = 30 * 650_001;
    let stack = ModelConfig::stack();
    let score = electrochem_model_sim(&genome, stack, &currents, &[v, v, v], &|_| Some(1));
    assert_eq!(score, Fitness::Finite(0));
    let measured = [v + 1, v, v - 2];
    let score = electrochem_model_sim(&genome, stack, &currents, &measured, &|_| Some(1));
    // Gaps: (1 + 0) * 60 and (0 - 2) * 60.
    assert_eq!(score, Fitness::Finite(3_600 + 14_400));
}

#[test]
fn a_measured_trace_of_another_length_gives_no_finite_score() {
    let genome = midpoint_genome();
    let stack = ModelConfig::stack();
    let score = electrochem_model_sim(&genome, stack, &[0, 0, 0], &[1, 2], &|_| Some(1));
    assert_eq!(score, Fitness::NonFinite);
    let score = electrochem_model_sim(&genome, stack, &[0], &[1], &|_| Some(1));
    assert_eq!(score, Fitness::NonFinite);
}

#[test]
fn model_is_seeded_from_the_genes() {
    let genes = [1, 2, 3, 4, 5, 6, 7, 8, 9, 10];
    let genome = Genome { genes, fitness: Fitness::Finite(3), id: 8 };
    let m = ElectrochemicalModel::new(&genome, one_way());
    assert_eq!(m.config, one_way());
    assert_eq!(m.anolyte_c1, 1);
    assert_eq!(m.catholyte_c1, 2);
    assert_eq!(m.stack_resistance, 3);
    assert_eq!(m.rate_constant_positive, 4);
    assert_eq!(m.rate_constant_negative, 5);
    assert_eq!(m.diffusion_number, 6);
    assert_eq!(m.charge_offset, 7);
    assert_eq!(m.discharge_offset, 8);
    assert_eq!(m.anolyte_c2, 9);
    assert_eq!(m.catholyte_c0, 10);
    assert_eq!((m.current_i, m.voltage, m.cycle), (0, 0, 0));
}

#[test]
fn the_default_variant_is_the_stack_with_gradient_driven_diffusion() {
    let config = ModelConfig::stack();
    assert_eq!(config.scaling, StackScaling::SeriesStack);
    assert_eq!(config.diffusion, DiffusionPolicy::GradientDriven);
    assert_eq!(config.time_step, 60);
    assert_eq!(config.cells(), 30);
    assert_eq!(single_cell().cells(), 1);
}

#[test]
fn a_single_cell_converts_a_thirtieth_of_what_the_stack_converts() {
    let mut m = model();
    m.config = single_cell();
    m.current_i = 57_891;
    assert_eq!(m.current_component(), Ok(()));
    assert_eq!(m.anolyte_c1, 2_000_000_000 - 600);
    assert_eq!(m.anolyte_c2, 750_000_000 + 600);
    assert_eq!(m.catholyte_c1, 2_000_000_000 - 600);
    assert_eq!(m.catholyte_c0, 750_000_000 + 600);
}

#[test]
fn a_single_cell_diffuses_a_thirtieth_of_what_the_stack_diffuses() {
    let mut m = model();
    m.config = single_cell();
    m.diffusion_number = 30_000_000_000;
    m.anolyte_c1 = 0;
    m.anolyte_c2 = 1_000_000;
    m.catholyte_c1 = 0;
    m.catholyte_c0 = 1_000;
    assert_eq!(m.diffusion_step(), Ok(()));
    // 1e6 * 3e10 * 448 / 3e16 = 448; the gradient of 896 returns nothing.
    assert_eq!(m.anolyte_c2, 1_000_000 - 448);
    assert_eq!(m.catholyte_c0, 1_000 - 448);
    assert_eq!(m.catholyte_c1, 896);
    assert_eq!(m.anolyte_c1, 0);
}

#[test]
fn a_single_cell_voltage_is_not_multiplied() {
    let mut m = model();
    m.config = single_cell();
    m.current_i = 2_000_000;
    assert_eq!(m.voltage_calc(Some(100_000)), Ok(()));
    assert_eq!(m.voltage, 100_000 + 650_000 + 10_000 + 200_000);
}

#[test]
fn concentration_driven_diffusion_moves_species_one_to_the_anolyte_only() {
    let mut m = model();
    m.config = one_way();
    m.diffusion_number = 1_000_000_000_000;
    m.anolyte_c2 = 0;
    m.anolyte_c1 = 3_000_000;
    m.catholyte_c1 = 1_000_000;
    assert_eq!(m.diffusion_step(), Ok(()));
    // 1e6 * 1e12 * 448 / 1e15 = 448000, against the gradient.
    assert_eq!(m.catholyte_c1, 1_000_000 - 448_000);
    assert_eq!(m.anolyte_c1, 3_000_000 + 448_000);

    let mut m = model();
    m.config = one_way();
    m.diffusion_number = 1_000_000_000_000;
    m.anolyte_c2 = 0;
    m.anolyte_c1 = 3_000_000;
    m.catholyte_c1 = -1_000_000;
    let before = m;
    assert_eq!(m.diffusion_step(), Ok(()));
    assert_eq!(m, before);
}

#[test]
fn mass_is_conserved_in_every_variant() {
    let genome = midpoint_genome();
    let currents = [23_000_000i64, -23_000_000, 0, 11];
    let start: i64 = 2_000_000_000 + 2_000_000_000 + 750_000_000 + 750_000_000;
    for scaling in [StackScaling::SeriesStack, StackScaling::SingleCell] {
        for diffusion in [DiffusionPolicy::GradientDriven, DiffusionPolicy::ConcentrationDriven] {
            let config = ModelConfig { scaling, diffusion, time_step: 7 };
            let out = simulate(&genome, config, &currents, &|_| Some(0)).unwrap();
            for k in 0..currents.len() {
                let total = out.anolyte_c1[k]
                    + out.anolyte_c2[k]
                    + out.catholyte_c1[k]
                    + out.catholyte_c0[k];
                assert_eq!(total, start);
            }
        }
    }
}

#[test]
fn conversion_and_diffusion_scale_with_the_step_length() {
    let mut m = model();
    m.config = stepping(30);
    m.current_i = 57_891;
    assert_eq!(m.current_component(), Ok(()));
    assert_eq!(m.anolyte_c1, 2_000_000_000 - 9_000);
    assert_eq!(m.catholyte_c0, 750_000_000 + 9_000);

    let mut m = model();
    m.config = stepping(120);
    m.diffusion_number = 1_000_000_000;
    m.anolyte_c1 = 0;
    m.anolyte_c2 = 1_000_000;
    m.catholyte_c1 = 0;
    m.catholyte_c0 = 1_000;
    assert_eq!(m.diffusion_step(), Ok(()));
    // Twice the usual step: 896 of species 2 cross, and of the gradient of
    // 1792 that follows, 1792 * 1e9 * 896 / 1e15 = 1 returns.
    assert_eq!(m.anolyte_c2, 1_000_000 - 896);
    assert_eq!(m.catholyte_c1, 2 * 896 - 1);
    assert_eq!(m.anolyte_c1, 1);
}

#[test]
fn a_step_of_no_length_changes_no_concentration() {
    let mut m = model();
    m.config = stepping(0);
    m.diffusion_number = i64::MAX;
    m.current_i = i64::MAX;
    let before = m;
    assert_eq!(m.current_component(), Ok(()));
    assert_eq!(m.diffusion_step(), Ok(()));
    assert_eq!(m, before);
}

#[test]
fn the_longest_step_converts_without_overflow() {
    let mut m = model();
    m.config = stepping(u32::MAX);
    m.current_i = 1_000;
    assert_eq!(m.current_component(), Ok(()));
    // 1000 * 10 * 30 * 4294967295 / 57891, rounded down.
    let moved = (1_000i128 * 300 * 4_294_967_295 / 57_891) as i64;
    assert_eq!(moved, 22_257_176_219);
    assert_eq!(m.anolyte_c2, 750_000_000 + moved);
    m.current_i = i64::MAX;
    let before = m;
    assert_eq!(m.current_component(), Err(CalibrationError::SimulationDiverged));
    assert_eq!(m, before);
}

#[test]
fn the_time_base_follows_the_step_length() {
    let genome = midpoint_genome();
    let out = simulate(&genome, stepping(15), &[0, 0, 0], &|_| Some(0)).unwrap();
    assert_eq!(out.time, vec![0, 15, 30]);
    let v = 30 * 650_000;
    let score = electrochem_model_sim(&genome, stepping(15), &[0, 0], &[v + 1, v], &|_| Some(0));
    assert_eq!(score, Fitness::Finite(15 * 15));
}

#[test]
fn a_run_that_counts_no_cycle_conserves_mass_in_every_row() {
    let genome = midpoint_genome();
    let currents: Vec<i64> =
        (0..200).map(|k| if k % 40 < 20 { 9_000_000 } else { -9_000_000 }).collect();
    let out = simulate(&genome, ModelConfig::stack(), &currents, &electrode).unwrap();
    assert_eq!(out.cycles, 0);
    let start: i64 = 2_000_000_000 + 2_000_000_000 + 750_000_000 + 750_000_000;
    for k in 0..currents.len() {
        let row =
            [out.anolyte_c1[k], out.anolyte_c2[k], out.catholyte_c1[k], out.catholyte_c0[k]];
        assert!(row.iter().all(|c| *c >= 0));
        assert_eq!(row.iter().sum::<i64>(), start);
    }
}

#[test]
fn a_cycle_event_ends_conservation() {
    let mut genome = midpoint_genome();
    genome.genes[0] = 1_000;
    let out = simulate(&genome, ModelConfig::stack(), &[9_000_000], &|_| Some(0)).unwrap();
    assert_eq!(out.cycles, 1);
    assert_eq!(out.anolyte_c1, vec![0]);
    let total = out.anolyte_c1[0] + out.anolyte_c2[0] + out.catholyte_c1[0] + out.catholyte_c0[0];
    assert_eq!(total, 2_000_000_000 + 750_000_000 + 750_000_000);
}
