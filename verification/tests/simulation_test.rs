use pauliverse::clifford::UnitaryOp;
use pauliverse::gf2::BitMatrix;
use pauliverse::pauli::DensePauli;
use pauliverse::simulation::PhasedOutcomeCompleteSimulation;
use pauliverse::Simulation;

/// A positioned single-qubit Pauli factor.
#[derive(Clone, Copy)]
struct Factor {
    kind: char,
    qubit: usize,
}

fn x(qubit: usize) -> Factor {
    Factor { kind: 'X', qubit }
}

fn z(qubit: usize) -> Factor {
    Factor { kind: 'Z', qubit }
}

/// The product of the given factors as a dense Pauli on just enough qubits.
fn observable(factors: &[Factor]) -> DensePauli {
    let n = factors.iter().map(|f| f.qubit + 1).max().unwrap_or(0);
    let mut x_bits = vec![false; n];
    let mut z_bits = vec![false; n];
    for f in factors {
        match f.kind {
            'X' => x_bits[f.qubit] = true,
            'Z' => z_bits[f.qubit] = true,
            _ => panic!("unexpected factor"),
        }
    }
    DensePauli::from_bits(x_bits, z_bits, 0)
}

fn measure_o(sim: &mut PhasedOutcomeCompleteSimulation, factors: &[Factor]) -> usize {
    Simulation::measure(sim, &observable(factors))
}

fn assert_stabilizer_o(sim: &PhasedOutcomeCompleteSimulation, factors: &[Factor]) {
    assert!(sim.is_stabilizer(&observable(factors)));
}

fn assert_stabilizer_up_to_sign_o(sim: &PhasedOutcomeCompleteSimulation, factors: &[Factor]) {
    assert!(sim.is_stabilizer_up_to_sign(&observable(factors)));
}

fn assert_stabilizer_with_conditional_sign(sim: &PhasedOutcomeCompleteSimulation, factors: &[Factor], outcomes: &[usize]) {
    assert!(sim.is_stabilizer_with_conditional_sign(&observable(factors), outcomes));
}

fn apply_conditional_pauli_o(sim: &mut PhasedOutcomeCompleteSimulation, factors: &[Factor], outcomes: &[usize], parity: bool) {
    sim.conditional_pauli(&observable(factors), outcomes, parity);
}

fn apply_pauli_o(sim: &mut PhasedOutcomeCompleteSimulation, factors: &[Factor]) {
    sim.pauli(&observable(factors));
}

fn measure_and_fix(sim: &mut PhasedOutcomeCompleteSimulation, measured: &[Factor], fix: &[Factor]) {
    let max_qubit_id = measured.iter().chain(fix.iter()).map(|p| p.qubit).max().unwrap_or(0);
    if max_qubit_id < sim.qubit_count() {
        assert_stabilizer_o(sim, fix);
    }
    let r = measure_o(sim, measured);
    assert_stabilizer_up_to_sign_o(sim, measured);
    assert_stabilizer_with_conditional_sign(sim, measured, &[r]);
    apply_conditional_pauli_o(sim, fix, &[r], true);
    assert_stabilizer_o(sim, measured);
}

fn cx_via_measure(sim: &mut PhasedOutcomeCompleteSimulation, control: usize, target: usize, helper: usize) {
    let (q0, q1, q2) = (control, helper, target);
    measure_and_fix(sim, &[x(q1)], &[z(q1)]);
    measure_and_fix(sim, &[z(q0), z(q1)], &[x(q1)]);
    measure_and_fix(sim, &[x(q1), x(q2)], &[z(q0), z(q1)]);
    measure_and_fix(sim, &[z(q1)], &[x(q1), x(q2)]);
}

fn cz_via_measure(sim: &mut PhasedOutcomeCompleteSimulation, control: usize, target: usize, helper: usize) {
    let (q0, q1, q2) = (control, helper, target);
    measure_and_fix(sim, &[x(q1)], &[z(q1)]);
    measure_and_fix(sim, &[z(q0), z(q1)], &[x(q1)]);
    measure_and_fix(sim, &[x(q1), z(q2)], &[z(q0), z(q1)]);
    measure_and_fix(sim, &[z(q1)], &[x(q1), z(q2)]);
}

fn prep_bell_state(sim: &mut PhasedOutcomeCompleteSimulation, target: (usize, usize)) {
    let (q0, q1) = target;
    measure_and_fix(sim, &[x(q0)], &[z(q0)]);
    measure_and_fix(sim, &[x(q1)], &[z(q1)]);
    measure_and_fix(sim, &[z(q0), z(q1)], &[x(q0)]);
}

fn assert_bell(sim: &PhasedOutcomeCompleteSimulation, target: (usize, usize)) {
    let (q0, q1) = target;
    assert_stabilizer_o(sim, &[x(q0), x(q1)]);
    assert_stabilizer_o(sim, &[z(q0), z(q1)]);
}

fn random_and_deterministic_outcome_sequence(sim: &mut PhasedOutcomeCompleteSimulation) {
    measure_o(sim, &[x(0)]);
    measure_o(sim, &[z(1)]);
    measure_o(sim, &[x(0)]);
    apply_pauli_o(sim, &[z(0)]);
    measure_o(sim, &[x(0)]);
    apply_pauli_o(sim, &[z(0)]);
    measure_o(sim, &[x(0)]);
    measure_o(sim, &[x(0)]);
    measure_o(sim, &[z(0)]);
    apply_pauli_o(sim, &[x(1)]);
    measure_o(sim, &[z(1)]);
}

fn choi_state_of_cz_via_measure(sim: &mut PhasedOutcomeCompleteSimulation) {
    let (control, helper, target, target_ref, control_ref) = (0, 1, 2, 3, 4usize);
    prep_bell_state(sim, (control, control_ref));
    prep_bell_state(sim, (target, target_ref));
    cz_via_measure(sim, control, target, helper);
    sim.unitary_op(UnitaryOp::ControlledZ, &[control, target]);
    assert_bell(sim, (control, control_ref));
    assert_bell(sim, (target, target_ref));
}

fn choi_state_of_cx_via_measure(sim: &mut PhasedOutcomeCompleteSimulation) {
    let (control, helper, target, target_ref, control_ref) = (0, 1, 2, 3, 4usize);
    prep_bell_state(sim, (control, control_ref));
    prep_bell_state(sim, (target, target_ref));
    assert_bell(sim, (control, control_ref));
    assert_bell(sim, (target, target_ref));
    cx_via_measure(sim, control, target, helper);

    assert_stabilizer_o(sim, &[z(helper)]);
    assert_stabilizer_o(sim, &[z(control_ref), z(control)]);
    assert_stabilizer_o(sim, &[x(control_ref), x(control), x(target)]);
    assert_stabilizer_o(sim, &[z(target_ref), z(control), z(target)]);
    assert_stabilizer_o(sim, &[x(target_ref), x(target)]);

    sim.unitary_op(UnitaryOp::ControlledX, &[control, target]);
    assert_bell(sim, (control, control_ref));
    assert_bell(sim, (target, target_ref));
}

fn assert_properties_consistent(sim: &PhasedOutcomeCompleteSimulation) {
    let random_outcome_count = sim.random_outcome_count();
    let outcome_count = sim.outcome_count();
    assert_eq!(random_outcome_count, sim.sign_matrix().column_count);
    assert_eq!(sim.qubit_count(), sim.sign_matrix().rows.len());
    assert_eq!(outcome_count, sim.outcome_matrix().rows.len());
    assert_eq!(random_outcome_count, sim.outcome_matrix().column_count);
    assert_eq!(outcome_count, sim.outcome_shift().len());
    assert_eq!(outcome_count, sim.random_outcome_indicator().len());
    assert_eq!(sim.qubit_count(), sim.state_encoder().num_qubits());
}

/// The outcome vector of the branch where only random bit `bit` is one: column `bit` of `M` plus
/// `v₀`.
fn branch_outcomes(sim: &PhasedOutcomeCompleteSimulation, bit: usize) -> Vec<bool> {
    let matrix = sim.outcome_matrix();
    let shift = sim.outcome_shift();
    (0..sim.outcome_count()).map(|row| matrix.rows[row][bit] != shift[row]).collect()
}

fn compare_simulations(circuit: impl Fn(&mut PhasedOutcomeCompleteSimulation)) {
    let mut simulation = PhasedOutcomeCompleteSimulation::default();
    circuit(&mut simulation);
    assert_properties_consistent(&simulation);
    let mut replay = PhasedOutcomeCompleteSimulation::default();
    circuit(&mut replay);
    assert_eq!(simulation.qubit_count(), replay.qubit_count());
    assert_eq!(simulation.outcome_count(), replay.outcome_count());
    assert_eq!(simulation.outcome_shift(), replay.outcome_shift());
    for bit in 0..simulation.random_outcome_count() {
        let mut random_bits = vec![false; simulation.random_outcome_count()];
        random_bits[bit] = true;
        assert_eq!(simulation.outcomes_for(&random_bits), branch_outcomes(&simulation, bit));
    }
    let zero_bits = vec![false; simulation.random_outcome_count()];
    assert_eq!(simulation.outcomes_for(&zero_bits), simulation.outcome_shift());
}

#[test]
fn test_compare_simulations() {
    compare_simulations(choi_state_of_cx_via_measure);
    compare_simulations(choi_state_of_cz_via_measure);
    compare_simulations(random_and_deterministic_outcome_sequence);
}

#[test]
fn phased_allocator_returns_public_outcome_ids() {
    let mut simulation = PhasedOutcomeCompleteSimulation::default();
    assert_eq!(simulation.measure(&observable(&[z(0)])), 0);
    assert_eq!(simulation.allocate_random_bit(), 1);
    assert_eq!(simulation.allocate_symbolic_angle(), 2);
}

#[test]
fn cx_cz_phased_outcome_complete_test() {
    {
        let mut sim = PhasedOutcomeCompleteSimulation::with_capacity(3, 4, 4);
        cx_via_measure(&mut sim, 0, 1, 2);
    }
    {
        let mut sim = PhasedOutcomeCompleteSimulation::with_capacity(5, 10, 10);
        choi_state_of_cx_via_measure(&mut sim);
    }
    {
        let mut sim = PhasedOutcomeCompleteSimulation::with_capacity(5, 10, 10);
        choi_state_of_cz_via_measure(&mut sim);
    }
}

#[test]
fn phased_outcome_sequence_records_matrix_and_shift() {
    let mut sim = PhasedOutcomeCompleteSimulation::with_capacity(2, 8, 2);
    random_and_deterministic_outcome_sequence(&mut sim);
    assert_eq!(sim.random_outcome_count(), 2);
    assert_eq!(
        &vec![true, false, false, false, false, false, true, false],
        sim.random_outcome_indicator()
    );
    let expected_values = [
        [true, false],
        [false, false],
        [true, false],
        [true, false],
        [true, false],
        [true, false],
        [false, true],
        [false, false],
    ];
    let matrix = sim.outcome_matrix();
    for (r, row) in expected_values.iter().enumerate() {
        for (c, &expected) in row.iter().enumerate() {
            assert_eq!(matrix.rows[r][c], expected, "mismatch at ({r}, {c})");
        }
    }
    let expected_shift = vec![false, false, false, true, false, false, false, true];
    assert_eq!(sim.outcome_shift(), expected_shift);
}

#[test]
fn deterministic_measurement_of_zero_state() {
    let mut sim = PhasedOutcomeCompleteSimulation::new(2);
    let outcome = sim.measure(&observable(&[z(1)]));
    assert_eq!(outcome, 0);
    assert_eq!(sim.random_outcome_count(), 0);
    assert_eq!(sim.outcome_shift(), vec![false]);
    sim.pauli(&observable(&[x(1)]));
    let flipped = sim.measure(&observable(&[z(1)]));
    assert_eq!(flipped, 1);
    assert_eq!(sim.outcome_shift(), vec![false, true]);
}

#[test]
fn register_grows_to_cover_observables() {
    let mut sim = PhasedOutcomeCompleteSimulation::default();
    assert_eq!(sim.qubit_count(), 0);
    sim.unitary_op(UnitaryOp::Hadamard, &[4]);
    assert_eq!(sim.qubit_count(), 5);
    assert_eq!(sim.qubit_capacity(), 8);
    sim.pauli(&observable(&[z(6)]));
    assert_eq!(sim.qubit_count(), 7);
    assert_eq!(sim.qubit_capacity(), 8);
    assert!(sim.is_stabilizer_up_to_sign(&observable(&[x(4)])));
    assert!(sim.is_stabilizer(&observable(&[x(4)])));
}

#[test]
fn bell_pair_via_gates_is_stabilized() {
    let mut sim = PhasedOutcomeCompleteSimulation::new(2);
    sim.unitary_op(UnitaryOp::Hadamard, &[0]);
    sim.unitary_op(UnitaryOp::ControlledX, &[0, 1]);
    assert_eq!(sim.random_outcome_count(), 0);
    assert!(sim.is_stabilizer(&observable(&[x(0), x(1)])));
    assert!(sim.is_stabilizer(&observable(&[z(0), z(1)])));
    assert!(!sim.is_stabilizer_up_to_sign(&observable(&[z(0)])));
}

/// The observable `−P` for the product `P` of the given factors.
fn negated_observable(factors: &[Factor]) -> DensePauli {
    let p = observable(factors);
    DensePauli::from_bits(p.x_bits, p.z_bits, 2)
}

#[test]
fn controlled_pauli_acts_as_cnot() {
    // |+⟩|0⟩ → (|0⟩X|0⟩ + |1⟩|0⟩)/√2 = (|01⟩ + |10⟩)/√2: X₁ acts where Z₀ = +1.
    let mut sim = PhasedOutcomeCompleteSimulation::new(2);
    sim.unitary_op(UnitaryOp::Hadamard, &[0]);
    sim.controlled_pauli(&observable(&[z(0)]), &observable(&[x(1)]));
    assert!(sim.is_stabilizer(&observable(&[x(0), x(1)])));
    assert!(!sim.is_stabilizer(&observable(&[z(0), z(1)])));
    assert!(sim.is_stabilizer(&negated_observable(&[z(0), z(1)])));
}

#[test]
fn controlled_pauli_acts_on_the_plus_one_eigenspace() {
    let mut sim = PhasedOutcomeCompleteSimulation::new(2);
    sim.controlled_pauli(&observable(&[z(0)]), &observable(&[x(1)]));
    let encoder = sim.phased_state_encoder();
    assert!(encoder.state_amplitude_phase_exponent_usize(0b10).is_some());
    assert!(encoder.state_amplitude_phase_exponent_usize(0).is_none());
}

#[test]
fn stabilizer_sign_is_checked() {
    let sim = PhasedOutcomeCompleteSimulation::new(1);
    assert!(sim.is_stabilizer(&observable(&[z(0)])));
    assert!(!sim.is_stabilizer(&negated_observable(&[z(0)])));
    assert!(sim.is_stabilizer_up_to_sign(&negated_observable(&[z(0)])));
    assert!(sim.qubit_capacity() >= 1);
}

#[test]
fn permutation_moves_state() {
    let mut sim = PhasedOutcomeCompleteSimulation::new(3);
    sim.unitary_op(UnitaryOp::Hadamard, &[0]);
    sim.permute(&[1, 0], &[0, 2]);
    assert!(sim.is_stabilizer(&observable(&[x(2)])));
    assert!(sim.is_stabilizer(&observable(&[z(0)])));
}

#[test]
fn measurement_with_hint_allocates_random_bit() {
    let mut sim = PhasedOutcomeCompleteSimulation::new(1);
    let outcome = sim.measure_with_hint(&observable(&[x(0)]), &observable(&[z(0)]));
    assert_eq!(outcome, 0);
    assert_eq!(sim.random_outcome_count(), 1);
    assert_eq!(sim.random_outcome_indicator(), &vec![true]);
    assert_eq!(sim.outcome_shift(), vec![false]);
    assert!(sim.is_stabilizer_with_conditional_sign(&observable(&[x(0)]), &[0]));
}

#[test]
fn symbolic_angles_are_recorded() {
    let mut sim = PhasedOutcomeCompleteSimulation::new(1);
    let angle = sim.allocate_symbolic_angle();
    sim.symbolic_pauli_exp(&observable(&[z(0)]), angle);
    assert_eq!(sim.symbolic_angle_indicator(), &vec![true]);
    assert_eq!(sim.random_outcome_count(), 1);
    let bit = sim.allocate_random_bit();
    assert_eq!(bit, 1);
    assert_eq!(sim.symbolic_angle_indicator(), &vec![true, false]);
}

#[test]
fn output_phase_of_negated_rotation_branch() {
    let mut sim = PhasedOutcomeCompleteSimulation::new(1);
    let angle = sim.allocate_symbolic_angle();
    let mut negated = observable(&[z(0)]);
    negated.add_assign_phase_exp(2);
    sim.symbolic_pauli_exp(&negated, angle);
    assert_eq!(sim.output_phase_exponent(&vec![false]), 0);
    assert_eq!(sim.output_phase_exponent(&vec![true]), 4);
}

#[test]
fn sampling_with_given_random_bits() {
    let mut sim = PhasedOutcomeCompleteSimulation::new(1);
    sim.measure(&observable(&[x(0)]));
    sim.measure(&observable(&[x(0)]));
    sim.pauli(&observable(&[z(0)]));
    sim.measure(&observable(&[x(0)]));
    let random = BitMatrix { rows: vec![vec![false], vec![true]], column_count: 1 };
    let samples = sim.sample_with_random_bits(&random);
    assert_eq!(samples.rows, vec![vec![false, false, true], vec![true, true, false]]);
    let drawn = sim.sample(5).expect("the operating system supplies random bits");
    assert_eq!(drawn.rows.len(), 5);
    for row in &drawn.rows {
        assert_eq!(row[0], row[1]);
        assert_ne!(row[0], row[2]);
    }
}

#[test]
fn reserving_capacity_keeps_state() {
    let mut sim = PhasedOutcomeCompleteSimulation::new(2);
    sim.unitary_op(UnitaryOp::Hadamard, &[0]);
    sim.reserve_qubits(16);
    sim.reserve_outcomes(128, 100);
    assert_eq!(sim.qubit_capacity(), 16);
    assert_eq!(sim.outcome_capacity(), 128);
    assert_eq!(sim.random_outcome_capacity(), 100);
    assert_eq!(sim.qubit_count(), 2);
    assert!(sim.is_stabilizer(&observable(&[x(0)])));
}

#[test]
fn fresh_simulator_stabilizes_every_z() {
    let sim = PhasedOutcomeCompleteSimulation::new(3);
    let default_sim = PhasedOutcomeCompleteSimulation::default();
    assert_eq!(default_sim.qubit_count(), 0);
    assert_eq!(default_sim.random_outcome_count(), 0);
    for q in 0..3 {
        assert!(sim.is_stabilizer(&observable(&[z(q)])));
        assert!(!sim.is_stabilizer(&negated_observable(&[z(q)])));
        assert!(!sim.is_stabilizer_up_to_sign(&observable(&[x(q)])));
    }
}

#[test]
fn hinted_measurement_leaves_observable_stabilized() {
    // The hint Y₀ = i·X₀Z₀ is not a stabilizer of |00⟩, so the plain measurement of X₀X₁ runs.
    let mut sim = PhasedOutcomeCompleteSimulation::new(2);
    let y0 = DensePauli::from_bits(vec![true, false], vec![true, false], 1);
    sim.measure_with_hint(&observable(&[x(0), x(1)]), &y0);
    assert!(sim.is_stabilizer_up_to_sign(&observable(&[x(0), x(1)])));
    assert_eq!(sim.random_outcome_count(), 1);
    // With the stabilizer Z₀ as hint the outcome is resolved by it.
    let mut hinted = PhasedOutcomeCompleteSimulation::new(1);
    hinted.measure_with_hint(&observable(&[x(0)]), &observable(&[z(0)]));
    assert!(hinted.is_stabilizer_up_to_sign(&observable(&[x(0)])));
}
