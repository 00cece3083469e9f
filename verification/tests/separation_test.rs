use pauliverse::auxiliary::{
    basis_label_map, encoded_basis_state, interpolate_phase, output_first_order, phased_from_clifford,
    restrict_pauli_to, separate_auxiliary_qubits, separation_phase_at, split_rows, AuxiliarySeparationError,
};
use pauliverse::clifford::{CliffordUnitary, UnitaryOp};
use pauliverse::gf2::BitMatrix;
use pauliverse::pauli::DensePauli;
use pauliverse::phased_clifford::PhasedCliffordUnitary;
use pauliverse::separation_phase::phase_from_samples;

#[test]
fn invalid_output_qubits_are_rejected() {
    let encoder = PhasedCliffordUnitary::identity(2);
    let separated = separate_auxiliary_qubits(&encoder, &[2], CliffordUnitary::identity(1), CliffordUnitary::identity(1));
    assert_eq!(separated.err(), Some(AuxiliarySeparationError::InvalidOutputQubits));
    let separated = separate_auxiliary_qubits(&encoder, &[0, 0], CliffordUnitary::identity(2), CliffordUnitary::identity(0));
    assert_eq!(separated.err(), Some(AuxiliarySeparationError::InvalidOutputQubits));
    assert_eq!(output_first_order(2, &[2]).unwrap_err(), AuxiliarySeparationError::InvalidOutputQubits);
    assert_eq!(output_first_order(2, &[0, 0]).unwrap_err(), AuxiliarySeparationError::InvalidOutputQubits);
}

#[test]
fn output_qubits_come_first() {
    assert_eq!(output_first_order(3, &[2, 0]).unwrap(), vec![2, 0, 1]);
    assert_eq!(output_first_order(4, &[]).unwrap(), vec![0, 1, 2, 3]);
    assert_eq!(output_first_order(3, &[1]).unwrap(), vec![1, 0, 2]);
}

#[test]
fn interpolated_phase_reproduces_its_values() {
    // φ(0) = 1, φ(e₀) = 3, φ(e₁) = 6, φ(e₀ + e₁) = 0
    let phase = phase_from_samples(1, &vec![3, 6], &vec![0, 0, 0, 0]);
    assert_eq!(phase.constant(), 1);
    assert_eq!(phase.num_bits(), 2);
    assert_eq!(phase.linear_coefficient(0), 2);
    assert_eq!(phase.linear_coefficient(1), 5);
    assert_eq!(phase.quadratic_coefficient(0, 1), 0);
    assert_eq!(phase.quadratic_coefficient(1, 0), 0);
    assert_eq!(phase.evaluate(&vec![false, false]), 1);
    assert_eq!(phase.evaluate(&vec![true, false]), 3);
    assert_eq!(phase.evaluate(&vec![false, true]), 6);
    assert_eq!(phase.evaluate(&vec![true, true]), 0);
}

#[test]
fn interpolated_phase_with_quadratic_term() {
    let phase = phase_from_samples(0, &vec![0, 0, 0], &vec![0, 4, 0, 0, 0, 0, 0, 0, 0]);
    assert_eq!(phase.quadratic_coefficient(0, 1), 4);
    assert_eq!(phase.evaluate(&vec![true, true, false]), 4);
    assert_eq!(phase.evaluate(&vec![true, true, true]), 4);
    assert_eq!(phase.evaluate(&vec![true, false, true]), 0);
}

#[test]
fn restriction_reindexes_qubits() {
    let p = DensePauli::from_bits(vec![true, false, true], vec![false, true, true], 2);
    let r = restrict_pauli_to(&p, &[2, 1], 3);
    assert_eq!(r, DensePauli::from_bits(vec![true, false], vec![true, true], 0));
}

#[test]
fn rows_split_at_the_output_count() {
    let m = BitMatrix { rows: vec![vec![true, false], vec![false, true], vec![true, true]], column_count: 2 };
    let (top, bottom) = split_rows(&m, 1);
    assert_eq!(top.rows, vec![vec![true, false]]);
    assert_eq!(bottom.rows, vec![vec![false, true], vec![true, true]]);
    assert_eq!(bottom.column_count, 2);
}

#[test]
fn phased_form_keeps_the_tableau() {
    let mut clifford = CliffordUnitary::identity(2);
    clifford.left_mul(UnitaryOp::Hadamard, &[0]);
    clifford.left_mul(UnitaryOp::ControlledX, &[0, 1]);
    let phased = phased_from_clifford(&clifford).expect("a Clifford decomposes");
    for q in 0..2 {
        assert_eq!(phased.clifford().image_x(q), clifford.image_x(q));
        assert_eq!(phased.clifford().image_z(q), clifford.image_z(q));
    }
}

#[test]
fn encoded_basis_state_flips_the_reference() {
    let encoder = PhasedCliffordUnitary::identity(2);
    let state = encoded_basis_state(&encoder, &vec![false, true]);
    assert_eq!(state.state_amplitude_phase_exponent(&vec![false, true]), Some(0));
    assert_eq!(state.state_amplitude_phase_exponent(&vec![false, false]), None);
}

#[test]
fn basis_label_map_of_a_product_encoder() {
    let mut clifford = CliffordUnitary::identity(2);
    clifford.left_mul(UnitaryOp::Hadamard, &[1]);
    let output_encoder = CliffordUnitary::identity(1);
    let mut auxiliary_encoder = CliffordUnitary::identity(1);
    auxiliary_encoder.left_mul(UnitaryOp::Hadamard, &[0]);
    let map = basis_label_map(&clifford, &output_encoder, &auxiliary_encoder, &[0], &[1]);
    assert_eq!(map.rows, vec![vec![true, false], vec![false, true]]);
}

fn identity_matrix(n: usize) -> BitMatrix {
    BitMatrix { rows: (0..n).map(|i| (0..n).map(|j| i == j).collect()).collect(), column_count: n }
}

#[test]
fn separation_phase_of_a_sign_flip() {
    // encoder = Z₀: encoder|e₀⟩ = Z₀X₀|0⟩ = −|1 0⟩, while the blocks give +|1 0⟩.
    let mut encoder = PhasedCliffordUnitary::identity(2);
    encoder.left_mul_z(0);
    let blocks = PhasedCliffordUnitary::identity(2);
    let map = identity_matrix(2);
    let encoder_query = encoder.state_amplitude_phase_query();
    let blocks_query = blocks.state_amplitude_phase_query();
    let at = |label: Vec<bool>| separation_phase_at(&encoder, &encoder_query, &blocks, &blocks_query, &map, &label);
    assert_eq!(at(vec![false, false]), Some(0));
    assert_eq!(at(vec![true, false]), Some(4));
    assert_eq!(at(vec![false, true]), Some(0));
    assert_eq!(at(vec![true, true]), Some(4));
    let phase = interpolate_phase(&encoder, &blocks, &map, 2).expect("the states agree up to phase");
    assert_eq!(phase.constant(), 0);
    assert_eq!(phase.linear_coefficient(0), 4);
    assert_eq!(phase.linear_coefficient(1), 0);
    assert_eq!(phase.quadratic_coefficient(0, 1), 0);
    assert_eq!(phase.evaluate(&vec![true, true]), 4);
}

#[test]
fn separation_phase_of_a_controlled_z() {
    // encoder = CZ: encoder|r⟩ = (−1)^{r₀r₁}|r⟩, a purely quadratic phase.
    let mut encoder = PhasedCliffordUnitary::identity(2);
    encoder.left_mul_cz(0, 1);
    let blocks = PhasedCliffordUnitary::identity(2);
    let phase = interpolate_phase(&encoder, &blocks, &identity_matrix(2), 2).expect("the states agree up to phase");
    assert_eq!(phase.constant(), 0);
    assert_eq!(phase.linear_coefficient(0), 0);
    assert_eq!(phase.linear_coefficient(1), 0);
    assert_eq!(phase.quadratic_coefficient(0, 1), 4);
}

#[test]
fn mismatched_labels_report_entanglement() {
    // A zero basis map sends every label to |0 0⟩, which has no amplitude on |1 0⟩.
    let encoder = PhasedCliffordUnitary::identity(2);
    let blocks = PhasedCliffordUnitary::identity(2);
    let zero = BitMatrix::zeros(2, 2);
    let encoder_query = encoder.state_amplitude_phase_query();
    let blocks_query = blocks.state_amplitude_phase_query();
    assert_eq!(
        separation_phase_at(&encoder, &encoder_query, &blocks, &blocks_query, &zero, &vec![true, false]),
        None
    );
    assert_eq!(
        interpolate_phase(&encoder, &blocks, &zero, 2).unwrap_err(),
        AuxiliarySeparationError::AuxiliaryQubitsEntangled
    );
}

#[test]
fn entangled_auxiliary_qubits_are_rejected() {
    // The encoder prepares a Bell pair on the two qubits, the blocks a product state: the two do
    // not agree up to a global phase, so the separation phase is not defined everywhere.
    let mut encoder = PhasedCliffordUnitary::identity(2);
    encoder.left_mul_hadamard(0);
    encoder.left_mul_cx(0, 1);
    let blocks = PhasedCliffordUnitary::identity(2);
    assert_eq!(
        interpolate_phase(&encoder, &blocks, &identity_matrix(2), 2).unwrap_err(),
        AuxiliarySeparationError::AuxiliaryQubitsEntangled
    );
}

#[test]
fn product_state_separates_with_constant_phase() {
    // |0⟩ ⊗ |+⟩ with the output qubit listed second: the marginals are H on the output and the
    // identity on the auxiliary qubit, and the phase polynomial is one global phase.
    let mut encoder = PhasedCliffordUnitary::identity(2);
    encoder.left_mul_hadamard(1);
    let mut output_encoder = CliffordUnitary::identity(1);
    output_encoder.left_mul(UnitaryOp::Hadamard, &[0]);
    let separation = separate_auxiliary_qubits(&encoder, &[1], output_encoder, CliffordUnitary::identity(1))
        .expect("a product state separates");
    assert_eq!(separation.output_encoder().num_qubits(), 1);
    assert_eq!(separation.auxiliary_encoder().num_qubits(), 1);
    assert_eq!(separation.output_basis_map().row_count(), 1);
    assert_eq!(separation.auxiliary_basis_map().row_count(), 1);
    let constant = separation.phase().evaluate(&vec![false, false]);
    for value in 0..4usize {
        let label = vec![value & 1 == 1, value & 2 == 2];
        assert_eq!(separation.phase().evaluate(&label), constant);
    }
}

#[test]
fn separation_phase_coefficients_are_zeta8_exponents() {
    let mut encoder = PhasedCliffordUnitary::identity(2);
    encoder.left_mul_root_z(0);
    encoder.left_mul_cz(0, 1);
    let blocks = PhasedCliffordUnitary::identity(2);
    let phase = interpolate_phase(&encoder, &blocks, &identity_matrix(2), 2).expect("the states agree up to phase");
    assert!(phase.constant() < 8);
    for i in 0..2 {
        assert!(phase.linear_coefficient(i) < 8);
        let mut label = vec![false; 2];
        label[i] = true;
        assert_eq!(phase.evaluate(&label), (phase.constant() + phase.linear_coefficient(i)) % 8);
    }
    assert!(phase.quadratic_coefficient(0, 1) < 8);
    assert_eq!(
        phase.evaluate(&vec![true, true]),
        (phase.constant() + phase.linear_coefficient(0) + phase.linear_coefficient(1) + phase.quadratic_coefficient(0, 1))
            % 8
    );
    assert_eq!(phase.linear_coefficient(0), 2);
    assert_eq!(phase.quadratic_coefficient(0, 1), 4);
}
