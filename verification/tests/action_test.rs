use pauliverse::action::{
    action_from_simulation, adjust_phase_to_canonical, angle_correspondence_is_clean, auxiliary_qubits, kernel_basis, outcome_maps, phase_is_invariant_along,
    physical_outcome_matrix, provenance_random_map, quadratic_phase_coefficients, random_bit_map_matrix, unit_vector,
    ActionError, ActionsInequivalenceReason, AffineMap, CircuitAction, GeneratorsWithSigns, PhasedCircuitAction, SignedPauli,
};
use pauliverse::gf2::BitMatrix;
use pauliverse::pauli::DensePauli;
use pauliverse::separation_phase::{phase_from_samples, SeparationPhase};
use pauliverse::simulation::PhasedOutcomeCompleteSimulation;

fn z0() -> DensePauli {
    DensePauli::from_bits(vec![false], vec![true], 0)
}

fn x0() -> DensePauli {
    DensePauli::from_bits(vec![true], vec![false], 0)
}

/// A separation phase on `n` bits with constant term `constant` and no other terms.
fn constant_phase(n: usize, constant: u8) -> SeparationPhase {
    phase_from_samples(constant, &vec![constant; n], &vec![constant; n * n])
}

fn empty_generators(random_count: usize) -> GeneratorsWithSigns {
    GeneratorsWithSigns::new(Vec::new(), AffineMap::zero(random_count, 0), &[])
}

/// The phaseless action of `simulation` with empty generator sets and its outcome maps.
fn phaseless_action(simulation: &PhasedOutcomeCompleteSimulation, inputs: &[usize]) -> CircuitAction {
    let random = simulation.random_outcome_count();
    let (random_from_outcomes, outcomes_from_random) = outcome_maps(simulation);
    CircuitAction::new(
        empty_generators(random),
        empty_generators(random),
        empty_generators(random),
        empty_generators(random),
        random_from_outcomes,
        outcomes_from_random,
        inputs,
    )
}

fn phased_action(simulation: &PhasedOutcomeCompleteSimulation, global: u8) -> PhasedCircuitAction {
    let phase = constant_phase(simulation.qubit_count(), global);
    PhasedCircuitAction::new(phaseless_action(simulation, &[0]), simulation, phase)
}

fn signed_z_rotation(negate: bool) -> PhasedOutcomeCompleteSimulation {
    let mut simulation = PhasedOutcomeCompleteSimulation::new(1);
    let angle = simulation.allocate_symbolic_angle();
    let mut observable = z0();
    if negate {
        observable.add_assign_phase_exp(2);
    }
    simulation.symbolic_pauli_exp(&observable, angle);
    simulation
}

#[test]
fn signed_rotations_differ_in_relative_phase_only() {
    let positive = phased_action(&signed_z_rotation(false), 0);
    let negative = phased_action(&signed_z_rotation(true), 0);
    positive.is_equivalent_up_to_signs(&negative).expect("phaseless data agree");
    assert_eq!(positive.is_equivalent(&negative), Err(vec![ActionsInequivalenceReason::RelativePhase]));
    assert_eq!(negative.is_equivalent(&positive), Err(vec![ActionsInequivalenceReason::RelativePhase]));
}

#[test]
fn phased_action_equals_itself() {
    let action = phased_action(&signed_z_rotation(true), 5);
    assert_eq!(action.is_equivalent(&action), Ok(()));
    assert_eq!(action.is_equivalent_with_global_phase(&action), Ok(()));
}

#[test]
fn unused_randomness_leaves_the_phase_unchanged() {
    let pure = phased_action(&PhasedOutcomeCompleteSimulation::new(1), 0);
    let mut randomized = PhasedOutcomeCompleteSimulation::new(1);
    randomized.allocate_random_bit();
    let harmless = phased_action(&randomized, 0);
    assert_eq!(pure.is_equivalent(&harmless), Ok(()));
    assert_eq!(harmless.is_equivalent(&pure), Ok(()));
}

#[test]
fn symbolic_angle_counts_must_match() {
    let rotation = phased_action(&signed_z_rotation(false), 0);
    let identity = phased_action(&PhasedOutcomeCompleteSimulation::new(1), 0);
    assert_eq!(rotation.is_equivalent(&identity), Err(vec![ActionsInequivalenceReason::SymbolicAngleCount]));
    assert_eq!(identity.is_equivalent(&rotation), Err(vec![ActionsInequivalenceReason::SymbolicAngleCount]));
}

#[test]
fn zero_outcome_map_mixes_symbolic_angles() {
    let first = phased_action(&signed_z_rotation(false), 0);
    let second = phased_action(&signed_z_rotation(false), 0);
    assert_eq!(first.is_equivalent_with_map(&second, None), Err(vec![ActionsInequivalenceReason::SymbolicAngleMixed]));
    let identity = AffineMap::linear(BitMatrix { rows: vec![vec![true]], column_count: 1 });
    assert_eq!(first.is_equivalent_with_map(&second, Some(&identity)), Ok(()));
}

#[test]
fn global_phase_is_compared_only_on_request() {
    let first = phased_action(&signed_z_rotation(false), 0);
    let second = phased_action(&signed_z_rotation(false), 2);
    assert_eq!(first.global_phase(), 0);
    assert_eq!(second.global_phase(), 2);
    assert_eq!(first.is_equivalent(&second), Ok(()));
    assert_eq!(first.is_equivalent_with_global_phase(&second), Err(vec![ActionsInequivalenceReason::GlobalPhase]));
}

#[test]
fn up_to_signs_reasons_come_in_stages() {
    let simulation = PhasedOutcomeCompleteSimulation::new(1);
    let one_input = phaseless_action(&simulation, &[0]);
    let no_input = phaseless_action(&simulation, &[]);
    assert_eq!(one_input.is_equivalent_up_to_signs(&no_input), Err(vec![ActionsInequivalenceReason::InputQubitCount]));

    let with_observable = CircuitAction::new(
        GeneratorsWithSigns::new(vec![z0()], AffineMap::zero(0, 1), &[0]),
        empty_generators(0),
        empty_generators(0),
        empty_generators(0),
        AffineMap::zero(0, 0),
        AffineMap::zero(0, 0),
        &[0],
    );
    let with_other_observable = CircuitAction::new(
        GeneratorsWithSigns::new(vec![x0()], AffineMap::zero(0, 1), &[0]),
        empty_generators(0),
        empty_generators(0),
        empty_generators(0),
        AffineMap::zero(0, 0),
        AffineMap::zero(0, 0),
        &[0],
    );
    assert_eq!(one_input.is_equivalent_up_to_signs(&with_observable), Err(vec![ActionsInequivalenceReason::ObservablesCount]));
    assert_eq!(
        with_observable.is_equivalent_up_to_signs(&with_other_observable),
        Err(vec![ActionsInequivalenceReason::Observables])
    );
    assert_eq!(with_observable.is_equivalent_up_to_signs(&with_observable), Ok(()));
    assert_eq!(with_observable.observables(), &vec![z0()]);
    assert_eq!(with_observable.output_qubits(), &Vec::<usize>::new());
    assert_eq!(with_observable.input_qubits(), &vec![0]);
    assert_eq!(with_observable.outcome_count(), 0);
}

#[test]
fn signs_follow_the_outcomes() {
    // One generator whose sign is the single random bit, one outcome equal to that bit.
    let sign_map = AffineMap::linear(BitMatrix { rows: vec![vec![true]], column_count: 1 });
    let generators = GeneratorsWithSigns::new(vec![z0()], sign_map, &[0]);
    let random_from_outcomes = AffineMap::affine(BitMatrix { rows: vec![vec![true]], column_count: 1 }, vec![true]);
    let signed = generators.with_transformed_signs(&random_from_outcomes);
    assert_eq!(signed.len(), 1);
    let mut negated = z0();
    negated.add_assign_phase_exp(2);
    assert_eq!(signed[0].pauli, negated);
    assert_eq!(signed[0].outcomes_sign_mask, vec![true]);
    assert_eq!(signed[0].sign_support(), vec![0]);
    let other = SignedPauli { pauli: z0(), outcomes_sign_mask: vec![false, true, true] };
    assert_eq!(other.sign_support(), vec![1, 2]);
}

#[test]
fn phase_invariance_examples() {
    // φ(r) = 4 r₀: changes along e₀, constant along e₁.
    let linear = vec![4, 0];
    let quadratic = vec![0, 0, 0, 0];
    assert!(!phase_is_invariant_along(&linear, &quadratic, &vec![true, false]));
    assert!(phase_is_invariant_along(&linear, &quadratic, &vec![false, true]));
    // φ(r) = 4 r₀ r₁: the mixed term survives any single-bit shift unless doubled away.
    let quadratic = vec![0, 4, 0, 0];
    let linear = vec![0, 0];
    assert!(!phase_is_invariant_along(&linear, &quadratic, &vec![true, false]));
    // φ(r) = 4 r₀ + 4 r₁ + 4 r₀ r₁ is invariant along e₀ + e₁ exactly when the derivative vanishes.
    let linear = vec![4, 4];
    let quadratic = vec![0, 4, 0, 0];
    assert!(!phase_is_invariant_along(&linear, &quadratic, &vec![true, true]));
    // φ(r) = 2 r₀ + 2 r₁ + 4 r₀ r₁: along e₀ + e₁ the derivative vanishes.
    let linear = vec![2, 2];
    let quadratic = vec![0, 4, 0, 0];
    assert!(phase_is_invariant_along(&linear, &quadratic, &vec![true, true]));
    // φ(r) = 4 r₀ + 4 r₁ is invariant along e₀ + e₁ too.
    let linear = vec![4, 4];
    let quadratic = vec![0, 0, 0, 0];
    assert!(phase_is_invariant_along(&linear, &quadratic, &vec![true, true]));
}

#[test]
fn coefficients_interpolate_the_values() {
    let (linear, quadratic) = quadratic_phase_coefficients(1, &vec![3, 6], &vec![0, 0, 0, 0]);
    assert_eq!(linear, vec![2, 5]);
    assert_eq!(quadratic, vec![0, 0, 0, 0]);
    let (linear, quadratic) = quadratic_phase_coefficients(0, &vec![0, 0], &vec![0, 4, 0, 0]);
    assert_eq!(linear, vec![0, 0]);
    assert_eq!(quadratic, vec![0, 4, 0, 0]);
}

#[test]
fn random_bit_map_and_unit_vectors() {
    let m = random_bit_map_matrix(&[false, true, true, false]);
    assert_eq!(m.rows, vec![vec![false, true, false, false], vec![false, false, true, false]]);
    assert_eq!(m.column_count, 4);
    assert_eq!(unit_vector(4, &[3, 0]), vec![true, false, false, true]);
    assert_eq!(unit_vector(2, &[]), vec![false, false]);
}

#[test]
fn canonical_sign_of_hermitian_paulis() {
    let mut negated = z0();
    negated.add_assign_phase_exp(2);
    assert!(adjust_phase_to_canonical(&mut negated));
    assert_eq!(negated, z0());
    let mut positive = x0();
    assert!(!adjust_phase_to_canonical(&mut positive));
    assert_eq!(positive, x0());
}

#[test]
fn affine_maps_compose_and_apply() {
    let a = AffineMap::affine(BitMatrix { rows: vec![vec![true, true], vec![false, true]], column_count: 2 }, vec![true, false]);
    let b = AffineMap::affine(BitMatrix { rows: vec![vec![true, false], vec![true, true]], column_count: 2 }, vec![false, true]);
    let composed = a.dot(&b);
    for value in 0..4usize {
        let v = vec![value & 1 == 1, value & 2 == 2];
        assert_eq!(composed.apply(&v), a.apply(&b.apply(&v)));
    }
    assert_eq!(a.apply(&vec![true, false]), vec![false, false]);
    assert!(a.equals(&a));
    assert!(!a.equals(&b));
    assert_eq!(AffineMap::zero(3, 2).apply(&vec![true, true, true]), vec![false, false]);
}

#[test]
fn provenance_pairs_angles_and_true_bits_by_rank() {
    let map = provenance_random_map(&vec![true, false, true], &vec![true, true, false]).expect("equal angle counts");
    assert_eq!(
        map.matrix().rows,
        vec![vec![true, false, false], vec![false, false, true], vec![false, true, false]]
    );
    assert!(angle_correspondence_is_clean(&vec![true, false, true], &vec![true, true, false], &map));
    assert_eq!(
        provenance_random_map(&vec![true], &vec![false]).err(),
        Some(ActionsInequivalenceReason::SymbolicAngleCount)
    );
    let shifted = AffineMap::affine(BitMatrix { rows: vec![vec![true]], column_count: 1 }, vec![true]);
    assert!(!angle_correspondence_is_clean(&vec![true], &vec![true], &shifted));
}

#[test]
fn kernel_rows_are_annihilated() {
    let m = BitMatrix { rows: vec![vec![true, true, false], vec![false, true, true]], column_count: 3 };
    let kernel = kernel_basis(&m);
    assert_eq!(kernel.rows, vec![vec![true, true, true]]);
    let empty = BitMatrix { rows: vec![], column_count: 2 };
    assert_eq!(kernel_basis(&empty).rows, vec![vec![true, false], vec![false, true]]);
}

#[test]
fn physical_outcomes_omit_symbolic_angles() {
    let mut simulation = PhasedOutcomeCompleteSimulation::new(1);
    simulation.allocate_symbolic_angle();
    simulation.measure(&x0());
    let physical = physical_outcome_matrix(&simulation);
    assert_eq!(physical.rows, vec![vec![false, true]]);
    assert_eq!(physical.column_count, 2);
}

fn phase_value(linear: &[i32], quadratic: &[i32], r: &[bool]) -> i32 {
    let n = linear.len();
    let mut total = 0;
    for i in 0..n {
        if r[i] {
            total += linear[i];
        }
        for j in (i + 1)..n {
            if r[i] && r[j] {
                total += quadratic[i * n + j];
            }
        }
    }
    total
}

fn labels(n: usize) -> Vec<Vec<bool>> {
    (0..(1usize << n)).map(|v| (0..n).map(|q| (v >> q) & 1 == 1).collect()).collect()
}

#[test]
fn invariant_phases_are_periodic() {
    let mut checked = 0;
    for n in 2..4usize {
        let step = if n == 2 { 1 } else { 2 };
        let coefficient_count = n + n * (n - 1) / 2;
        let choices = 8 / step;
        for code in 0..(choices as usize).pow(coefficient_count as u32) {
            let mut digits = code;
            let mut linear = vec![0i32; n];
            let mut quadratic = vec![0i32; n * n];
            for value in linear.iter_mut() {
                *value = ((digits % choices as usize) as i32) * step;
                digits /= choices as usize;
            }
            for i in 0..n {
                for j in (i + 1)..n {
                    quadratic[i * n + j] = ((digits % choices as usize) as i32) * step;
                    digits /= choices as usize;
                }
            }
            for direction in labels(n).into_iter().skip(1) {
                let invariant = phase_is_invariant_along(&linear, &quadratic, &direction);
                let periodic = labels(n).iter().all(|r| {
                    let shifted: Vec<bool> = r.iter().zip(&direction).map(|(a, b)| a != b).collect();
                    (phase_value(&linear, &quadratic, &shifted) - phase_value(&linear, &quadratic, r)).rem_euclid(8) == 0
                });
                assert_eq!(invariant, periodic, "linear {linear:?} quadratic {quadratic:?} direction {direction:?}");
                checked += usize::from(invariant);
            }
        }
    }
    assert!(checked > 0);
}

#[test]
fn outcome_maps_invert_each_other_on_random_bits() {
    // On |0⟩, outcome 0 (of X) is random, outcome 1 repeats it, outcome 2 (of Z) is random again.
    let mut simulation = PhasedOutcomeCompleteSimulation::new(1);
    simulation.measure(&x0());
    simulation.measure(&x0());
    simulation.measure(&z0());
    let (random_from_outcomes, outcomes_from_random) = outcome_maps(&simulation);
    assert_eq!(random_from_outcomes.input_dimension(), 3);
    assert_eq!(random_from_outcomes.output_dimension(), 2);
    assert_eq!(outcomes_from_random.input_dimension(), 2);
    assert_eq!(outcomes_from_random.output_dimension(), 3);
    for bits in [vec![false, false], vec![true, false], vec![false, true], vec![true, true]] {
        let outcomes = outcomes_from_random.apply(&bits);
        assert_eq!(outcomes[0], outcomes[1]);
        assert_eq!(random_from_outcomes.apply(&outcomes), bits);
    }
}

#[test]
fn kernel_basis_spans_the_null_space() {
    // Every 3 × 4 matrix whose rows come from a few fixed patterns: the span of the kernel basis is
    // exactly the set of vectors that the matrix annihilates.
    let patterns: Vec<Vec<bool>> = (0..16usize).map(|v| (0..4).map(|q| (v >> q) & 1 == 1).collect()).collect();
    let vectors: Vec<Vec<bool>> = patterns.clone();
    for a in 0..16usize {
        for b in [0usize, 3, 5, 6, 9, 12, 15] {
            for c in [0usize, 7, 10] {
                let m = BitMatrix { rows: vec![patterns[a].clone(), patterns[b].clone(), patterns[c].clone()], column_count: 4 };
                let kernel = kernel_basis(&m);
                let mut span: Vec<Vec<bool>> = Vec::new();
                for mask in 0..(1usize << kernel.rows.len()) {
                    let mut sum = vec![false; 4];
                    for (t, row) in kernel.rows.iter().enumerate() {
                        if (mask >> t) & 1 == 1 {
                            for j in 0..4 {
                                sum[j] ^= row[j];
                            }
                        }
                    }
                    span.push(sum);
                }
                for d in &vectors {
                    let annihilated = mat_vec_is_zero(&m, d);
                    assert_eq!(annihilated, span.contains(d), "matrix {:?} vector {:?}", m.rows, d);
                }
            }
        }
    }
}

fn mat_vec_is_zero(m: &BitMatrix, d: &[bool]) -> bool {
    m.rows.iter().all(|row| row.iter().zip(d).filter(|(x, y)| **x && **y).count() % 2 == 0)
}

#[test]
fn auxiliary_qubits_are_the_non_outputs() {
    assert_eq!(auxiliary_qubits(&[2, 0], 5), vec![1, 3, 4]);
    assert_eq!(auxiliary_qubits(&[0, 1], 2), Vec::<usize>::new());
    assert_eq!(auxiliary_qubits(&[], 2), vec![0, 1]);
}

#[test]
fn entangled_auxiliary_qubits_refuse_the_action() {
    let simulation = PhasedOutcomeCompleteSimulation::new(2);
    let result = action_from_simulation(
        &simulation,
        empty_generators(0),
        empty_generators(0),
        empty_generators(0),
        empty_generators(0),
        &[0],
        &[0],
        2,
    );
    match result {
        Err(ActionError::AuxiliaryQubitsEntangled { auxiliary_qubits }) => assert_eq!(auxiliary_qubits, vec![1]),
        Ok(_) => panic!("the auxiliary qubit has no stabilizer generator"),
    }
}

#[test]
fn action_assembles_from_restrictions() {
    let mut simulation = PhasedOutcomeCompleteSimulation::new(1);
    simulation.allocate_random_bit();
    let random = simulation.random_outcome_count();
    let auxiliary = GeneratorsWithSigns::new(vec![z0()], AffineMap::zero(random, 1), &[1]);
    let action = action_from_simulation(
        &simulation,
        empty_generators(random),
        empty_generators(random),
        empty_generators(random),
        auxiliary,
        &[0],
        &[0],
        2,
    )
    .expect("one generator for one auxiliary qubit");
    assert_eq!(action.input_qubits(), &vec![0]);
    assert_eq!(action.outcome_count(), 1);
    assert_eq!(action.auxiliary_stabilizers().len(), 1);
}
