use pauliverse::clifford::{CliffordModPauliBatch, CliffordStringParsingError, CliffordUnitary, PreimageViews, UnitaryOp, XOrZ};
use pauliverse::decomposition::clifford_to_pauli_exponents;
use pauliverse::gf2::{next_power_of_two, row_sum, BitMatrix};
use pauliverse::pauli::{anti_commutes_with, commutes_with, DensePauli};
use pauliverse::phase_form::phase_form_exponent;
use pauliverse::phased_clifford::PhasedCliffordUnitary;
use pauliverse::zeta8::{add_zeta8_powers, combine_zeta8_powers, normalize_exponent};

/// Parses a Pauli string such as `"XZI"`, with an optional leading `-` or `i`/`-i` factor.
fn pauli(text: &str) -> DensePauli {
    let (phase, letters) = if let Some(rest) = text.strip_prefix("-i") {
        (3, rest)
    } else if let Some(rest) = text.strip_prefix('-') {
        (2, rest)
    } else if let Some(rest) = text.strip_prefix('i') {
        (1, rest)
    } else {
        (0, text)
    };
    let mut x_bits = Vec::new();
    let mut z_bits = Vec::new();
    let mut y_count = 0u8;
    for letter in letters.chars() {
        let (x, z) = match letter {
            'I' => (false, false),
            'X' => (true, false),
            'Z' => (false, true),
            'Y' => (true, true),
            _ => panic!("unexpected letter"),
        };
        if x && z {
            y_count += 1;
        }
        x_bits.push(x);
        z_bits.push(z);
    }
    DensePauli::from_bits(x_bits, z_bits, (phase + y_count) % 4)
}

#[test]
fn zeta8_sums_follow_the_unit_circle() {
    assert_eq!(normalize_exponent(-1), 7);
    assert_eq!(normalize_exponent(17), 1);
    assert_eq!(add_zeta8_powers(3, 3), Some(3));
    assert_eq!(add_zeta8_powers(0, 4), None);
    assert_eq!(add_zeta8_powers(2, 0), Some(1));
    assert_eq!(add_zeta8_powers(0, 2), Some(1));
    assert_eq!(add_zeta8_powers(6, 0), Some(7));
    assert_eq!(add_zeta8_powers(0, 6), Some(7));
    assert_eq!(combine_zeta8_powers(&[]), None);
    assert_eq!(combine_zeta8_powers(&[9]), Some(1));
    assert_eq!(combine_zeta8_powers(&[5, 1]), None);
}

#[test]
fn next_power_of_two_examples() {
    assert_eq!(next_power_of_two(0), 1);
    assert_eq!(next_power_of_two(1), 1);
    assert_eq!(next_power_of_two(5), 8);
    assert_eq!(next_power_of_two(64), 64);
    assert_eq!(next_power_of_two(65), 128);
}

#[test]
fn row_sums_add_listed_rows() {
    let m = BitMatrix { rows: vec![vec![true, false, true], vec![false, true, true]], column_count: 3 };
    assert_eq!(row_sum(&m, &[0, 1]), vec![true, true, false]);
    assert_eq!(row_sum(&m, &[1, 1]), vec![false, false, false]);
    assert_eq!(row_sum(&m, &[]), vec![false, false, false]);
}

#[test]
fn pauli_products_and_commutation() {
    let mut a = pauli("XI");
    a.mul_assign_right(&pauli("ZI"));
    assert_eq!(a, pauli("-iYI"));
    assert!(anti_commutes_with(&pauli("XI"), &pauli("ZI")));
    assert!(commutes_with(&pauli("XX"), &pauli("ZZ")));
    assert_eq!(pauli("Y").xyz_phase_exponent(), 0);
    assert!(pauli("Y").is_order_two());
    assert_eq!(pauli("IZX").max_support(), Some(2));
    assert_eq!(pauli("III").max_support(), None);
}

#[test]
fn cnot_propagates_x_to_both_qubits() {
    let mut cnot = CliffordUnitary::identity(2);
    cnot.left_mul(UnitaryOp::ControlledX, &[0, 1]);
    assert_eq!(cnot.image(&pauli("XI")), pauli("XX"));
    assert_eq!(cnot.image(&pauli("IZ")), pauli("ZZ"));
    assert_eq!(cnot.preimage(&pauli("XX")), pauli("XI"));
    assert_eq!(cnot.preimage_x_view(0), pauli("XX"));
    assert_eq!(cnot.x_image_view_up_to_phase(0), pauli("XX"));
    assert_eq!(cnot.z_image_view_up_to_phase(1), pauli("ZZ"));
    assert!(!cnot.is_identity());
    cnot.left_mul(UnitaryOp::ControlledX, &[0, 1]);
    assert!(cnot.is_identity());
}

#[test]
fn hadamard_and_phase_gates_conjugate_signs() {
    let mut clifford = CliffordUnitary::identity(1);
    clifford.left_mul(UnitaryOp::Hadamard, &[0]);
    assert_eq!(clifford.image(&pauli("X")), pauli("Z"));
    assert_eq!(clifford.image(&pauli("Y")), pauli("-Y"));
    let mut s = CliffordUnitary::identity(1);
    s.left_mul(UnitaryOp::SqrtZ, &[0]);
    assert_eq!(s.image(&pauli("X")), pauli("Y"));
    assert_eq!(s.preimage(&pauli("Y")), pauli("X"));
}

#[test]
fn decomposition_replays_to_the_clifford() {
    let mut clifford = CliffordUnitary::identity(3);
    clifford.left_mul(UnitaryOp::Hadamard, &[0]);
    clifford.left_mul(UnitaryOp::ControlledX, &[0, 2]);
    clifford.left_mul(UnitaryOp::SqrtZ, &[1]);
    clifford.left_mul(UnitaryOp::Swap, &[1, 2]);
    let exponents = clifford_to_pauli_exponents(&clifford);
    let mut replayed = CliffordUnitary::identity(3);
    for exponent in &exponents {
        replayed.left_mul_pauli_exp(exponent);
    }
    for q in 0..3 {
        assert_eq!(replayed.image_x(q), clifford.image_x(q));
        assert_eq!(replayed.image_z(q), clifford.image_z(q));
    }
    let identity = CliffordUnitary::identity(2);
    assert_eq!(clifford_to_pauli_exponents(&identity).len(), 0);
}

#[test]
fn phased_encoder_tracks_amplitude_phases() {
    let mut encoder = PhasedCliffordUnitary::identity(2);
    assert_eq!(encoder.state_amplitude_phase_exponent(&vec![false, false]), Some(0));
    assert_eq!(encoder.state_amplitude_phase_exponent(&vec![true, false]), None);
    encoder.left_mul_hadamard(0);
    assert_eq!(encoder.state_amplitude_phase_exponent(&vec![true, false]), Some(0));
    encoder.left_mul_z(0);
    assert_eq!(encoder.state_amplitude_phase_exponent(&vec![false, false]), Some(0));
    assert_eq!(encoder.state_amplitude_phase_exponent(&vec![true, false]), Some(4));
    encoder.left_mul_global_phase(3);
    assert_eq!(encoder.state_amplitude_phase_exponent(&vec![false, false]), Some(3));
    assert_eq!(encoder.state_amplitude_phase_exponent_usize(1), Some(7));
    let reference = encoder.support_representative();
    assert_eq!(reference.len(), 2);
}

#[test]
fn phased_bell_state_has_equal_amplitudes() {
    let mut encoder = PhasedCliffordUnitary::identity(2);
    encoder.left_mul(UnitaryOp::PrepareBell, &[0, 1]);
    assert_eq!(encoder.state_amplitude_phase_exponent(&vec![false, false]), Some(0));
    assert_eq!(encoder.state_amplitude_phase_exponent(&vec![true, true]), Some(0));
    assert_eq!(encoder.state_amplitude_phase_exponent(&vec![true, false]), None);
    encoder.left_mul(UnitaryOp::SqrtZ, &[1]);
    assert_eq!(encoder.state_amplitude_phase_exponent(&vec![true, true]), Some(2));
}

#[test]
fn phase_form_exponent_values() {
    let quadratic = BitMatrix { rows: vec![vec![false, true], vec![false, false]], column_count: 2 };
    let p = vec![true, false];
    let s = vec![false, false];
    assert_eq!(phase_form_exponent(2, &vec![false, false], &p, &s, &quadratic), 0);
    assert_eq!(phase_form_exponent(2, &vec![true, false], &p, &s, &quadratic), 2);
    assert_eq!(phase_form_exponent(2, &vec![true, true], &p, &s, &quadratic), 6);
    assert_eq!(phase_form_exponent(2, &vec![false, true], &p, &s, &quadratic), 0);
}

#[test]
fn auxiliary_types_are_plain_values() {
    assert_eq!(CliffordStringParsingError::default(), CliffordStringParsingError);
    let batch = CliffordModPauliBatch::<1, 2> { preimages: [[[0u64; 1]; 2]; 4] };
    assert_eq!(batch.clone(), batch);
    assert_ne!(XOrZ::X, XOrZ::Z);
}

#[test]
fn diagonal_gates_keep_the_reference_string() {
    // X₀|00⟩ = |10⟩; then S₀, CZ and a signed Z-type Pauli only add phases to that amplitude.
    let mut encoder = PhasedCliffordUnitary::identity(2);
    encoder.left_mul_x(0);
    assert_eq!(encoder.support_representative(), vec![true, false]);
    encoder.left_mul_root_z(0);
    assert_eq!(encoder.support_representative(), vec![true, false]);
    assert_eq!(encoder.state_amplitude_phase_exponent(&vec![true, false]), Some(2));
    encoder.left_mul_x(1);
    encoder.left_mul_cz(0, 1);
    assert_eq!(encoder.support_representative(), vec![true, true]);
    assert_eq!(encoder.state_amplitude_phase_exponent(&vec![true, true]), Some(6));
    // −Z₀Z₁ on |11⟩: the sign gives ζ₈⁴ and Z₀Z₁ gives (+1).
    encoder.left_mul_pauli(&pauli("-ZZ"));
    assert_eq!(encoder.support_representative(), vec![true, true]);
    assert_eq!(encoder.state_amplitude_phase_exponent(&vec![true, true]), Some(2));
    encoder.left_mul_root_z_inverse(1);
    assert_eq!(encoder.state_amplitude_phase_exponent(&vec![true, true]), Some(0));
}

#[test]
fn permutation_gates_move_the_reference_string() {
    let mut encoder = PhasedCliffordUnitary::identity(2);
    encoder.left_mul_x(0);
    encoder.left_mul_cx(0, 1);
    assert_eq!(encoder.support_representative(), vec![true, true]);
    encoder.left_mul_swap(0, 1);
    assert_eq!(encoder.support_representative(), vec![true, true]);
    // Y|1⟩ = −i|0⟩, a ζ₈⁶ factor.
    encoder.left_mul_y(1);
    assert_eq!(encoder.support_representative(), vec![true, false]);
    assert_eq!(encoder.state_amplitude_phase_exponent(&vec![true, false]), Some(6));
}

#[test]
fn pauli_exponentials_track_the_amplitude_phase() {
    // exp(iπ/4 Z)|0⟩ = ζ₈|0⟩.
    let mut encoder = PhasedCliffordUnitary::identity(1);
    encoder.left_mul_pauli_exp(&pauli("Z"));
    assert_eq!(encoder.state_amplitude_phase_exponent(&vec![false]), Some(1));
    // exp(iπ/4 X)|0⟩ = (|0⟩ + i|1⟩)/√2.
    let mut encoder = PhasedCliffordUnitary::identity(1);
    encoder.left_mul_pauli_exp(&pauli("X"));
    assert_eq!(encoder.support_representative(), vec![false]);
    assert_eq!(encoder.state_amplitude_phase_exponent(&vec![false]), Some(0));
    assert_eq!(encoder.state_amplitude_phase_exponent(&vec![true]), Some(2));
    // exp(iπ/4 X) again gives i X|0⟩ = i|1⟩: the reference moves to |1⟩.
    encoder.left_mul_pauli_exp(&pauli("X"));
    assert_eq!(encoder.support_representative(), vec![true]);
    assert_eq!(encoder.state_amplitude_phase_exponent(&vec![true]), Some(2));
    assert_eq!(encoder.state_amplitude_phase_exponent(&vec![false]), None);
}

#[test]
fn every_clifford_circuit_decomposes() {
    let mut clifford = CliffordUnitary::identity(4);
    let gates: [(UnitaryOp, &[usize]); 10] = [
        (UnitaryOp::SqrtX, &[2]),
        (UnitaryOp::ControlledZ, &[1, 3]),
        (UnitaryOp::Y, &[0]),
        (UnitaryOp::SqrtYInv, &[3]),
        (UnitaryOp::ControlledX, &[3, 0]),
        (UnitaryOp::SqrtZInv, &[1]),
        (UnitaryOp::Swap, &[0, 2]),
        (UnitaryOp::Hadamard, &[1]),
        (UnitaryOp::ControlledX, &[1, 2]),
        (UnitaryOp::SqrtY, &[0]),
    ];
    for (op, support) in gates.iter() {
        clifford.left_mul(*op, support);
        let exponents = clifford_to_pauli_exponents(&clifford);
        let mut replayed = CliffordUnitary::identity(4);
        for exponent in &exponents {
            let squared_phase = exponent.xz_phase_exponent() as usize
                + (0..4).filter(|&q| exponent.x_bits[q] && exponent.z_bits[q]).count();
            assert_eq!(squared_phase % 2, 0);
            replayed.left_mul_pauli_exp(exponent);
        }
        for q in 0..4 {
            assert_eq!(replayed.image_x(q), clifford.image_x(q));
            assert_eq!(replayed.image_z(q), clifford.image_z(q));
        }
    }
}

#[test]
fn pauli_shift_keeps_reference_bits_inside_the_support() {
    let mut plus_zero = PhasedCliffordUnitary::identity(2);
    plus_zero.left_mul_hadamard(0);
    plus_zero.left_mul_pauli(&pauli("XX"));
    assert_eq!(plus_zero.support_representative(), vec![false, true]);
    let mut basis = PhasedCliffordUnitary::identity(2);
    basis.left_mul_x(1);
    assert_eq!(basis.support_representative(), vec![false, true]);
    basis.left_mul_hadamard(0);
    basis.left_mul_x(0);
    assert_eq!(basis.support_representative(), vec![false, true]);
}

#[test]
fn hadamard_spreads_the_amplitude() {
    let mut p = PhasedCliffordUnitary::identity(1);
    p.left_mul_hadamard(0);
    assert_eq!(p.state_amplitude_phase_exponent_usize(0), Some(0));
    assert_eq!(p.state_amplitude_phase_exponent_usize(1), Some(0));
}

#[test]
fn z_rotation_multiplies_by_zeta() {
    let mut p = PhasedCliffordUnitary::identity(1);
    p.left_mul_pauli_exp(&pauli("Z"));
    assert_eq!(p.state_amplitude_phase_exponent_usize(0), Some(1));
    assert_eq!(p.state_amplitude_phase_exponent_usize(1), None);
}

#[test]
fn pauli_y_applies_its_phase() {
    let mut p = PhasedCliffordUnitary::identity(1);
    p.left_mul_pauli(&pauli("Y"));
    assert_eq!(p.state_amplitude_phase_exponent_usize(1), Some(2));
    assert_eq!(p.state_amplitude_phase_exponent_usize(0), None);
    let mut q = PhasedCliffordUnitary::identity(2);
    q.left_mul_hadamard(0);
    q.left_mul_pauli(&pauli("-YX"));
    // −Y₀X₁ (|0⟩ + |1⟩)|0⟩/√2 = −(i|1⟩ − i|0⟩)|1⟩/√2 = i(|0⟩ − |1⟩)|1⟩/√2.
    assert_eq!(q.state_amplitude_phase_exponent_usize(0b10), Some(2));
    assert_eq!(q.state_amplitude_phase_exponent_usize(0b11), Some(6));
    assert_eq!(q.state_amplitude_phase_exponent_usize(0), None);
}

#[test]
fn amplitude_phase_does_not_depend_on_the_preparation() {
    let mut first = PhasedCliffordUnitary::identity(2);
    first.left_mul_hadamard(0);
    first.left_mul_cx(0, 1);
    first.left_mul_z(1);
    let mut second = PhasedCliffordUnitary::identity(2);
    second.left_mul_hadamard(1);
    second.left_mul_cx(1, 0);
    second.left_mul_z(0);
    for bits in [vec![false, false], vec![true, true], vec![true, false], vec![false, true]] {
        assert_eq!(first.state_amplitude_phase_exponent(&bits), second.state_amplitude_phase_exponent(&bits));
    }
    assert_eq!(first.state_amplitude_phase_exponent(&vec![false, false]), Some(0));
    assert_eq!(first.state_amplitude_phase_exponent(&vec![true, true]), Some(4));
    assert_eq!(first.state_amplitude_phase_exponent(&vec![true, false]), None);
}
