//! Phase-tracking Clifford unitaries.
//!
//! A [`CliffordUnitary`] fixes an operator only up to a global phase. [`PhasedCliffordUnitary`]
//! additionally tracks one exactly known amplitude of the encoder state `C|0…0⟩`: a reference
//! basis string `r` with `⟨r|C|0…0⟩ ≠ 0` together with the `ζ₈` exponent of that amplitude.
//! The phase of any other amplitude `⟨b|C|0…0⟩` follows from the stabilizers `C Z_g C†`: if
//! `Σ_g c_g · x(C Z_g C†) = b + r`, the product of the selected stabilizers maps `|r⟩` to `|b⟩`
//! with a known phase.
use vstd::prelude::*;
use crate::clifford::{
    CliffordSpec, CliffordUnitary, UnitaryOp, conj_op, conj_permutation, conj_single, conjugate_by_permutation,
    identity_tableau, op_arity, permute_bits, product_prefix, resize_tableau, tableau_map,
    tableau_wf, valid_permutation, valid_support,
};
use crate::echelon::EchelonForm;
use crate::stabilizer_group::{
    lemma_cx_moves_support, lemma_cz_keeps_support, lemma_support_closed, lemma_swap_moves_support, reference_in_support,
    swap_bits,
};
use crate::gf2::{bit_dot, bit_unit, bit_xor, bit_zeros, combination, dot, dot_prefix, xor_assign, zeros};
use crate::pauli::{DensePauli, PauliSpec, b2i, conj_by_exp, conj_by_pauli, pauli_identity, resize_bits, resize_vec, symplectic};
use crate::zeta8::{combine_zeta8_powers, normalize_exponent, zeta8_sum_exponent};

verus! {

/// The `X` parts of the stabilizers `C Z_g C†`, one row per generator `g`.
pub open spec fn x_parts(t: CliffordSpec) -> Seq<Seq<bool>> {
    Seq::new(t.z_images.len(), |g: int| t.z_images[g].x)
}

/// The product `Π_{g : c_g} C Z_g C†` of the selected stabilizers, in increasing order of `g`.
pub open spec fn stabilizer_product(t: CliffordSpec, c: Seq<bool>) -> PauliSpec {
    product_prefix(pauli_identity(t.z_images.len()), t.z_images, c, t.z_images.len() as int)
}

/// The `ζ₈` exponent relating `⟨r + x(S)|C|0⟩` to `⟨r|C|0⟩` for the stabilizer product `S` selected
/// by `c`: `S = i^e X^x Z^z` maps `|r⟩` to `i^e (−1)^{⟨z, r⟩} |r + x⟩`.
pub open spec fn relative_phase_value(t: CliffordSpec, reference: Seq<bool>, c: Seq<bool>) -> int {
    let s = stabilizer_product(t, c);
    (2 * s.phase + 4 * b2i(bit_dot(s.z, reference))) % 8
}

/// `value` is the relative phase of `target` obtained from some solution `c` of
/// `Σ_g c_g · x(C Z_g C†) = target + reference`.
pub open spec fn is_relative_phase(t: CliffordSpec, reference: Seq<bool>, target: Seq<bool>, value: int) -> bool {
    exists|c: Seq<bool>|
        c.len() == t.z_images.len() && combination(x_parts(t), c, t.z_images.len()) == bit_xor(target, reference)
            && value == relative_phase_value(t, reference, c)
}

/// `v` is a sum of `X` parts of the stabilizer images `C Z_g C†` of `t`.
pub open spec fn in_x_span(t: CliffordSpec, v: Seq<bool>) -> bool {
    exists|c: Seq<bool>| c.len() == t.z_images.len() && combination(x_parts(t), c, t.z_images.len()) == v
}

/// The reference string after the shift `X^x`: qubit by qubit, a shifted qubit keeps its bit when
/// flipping that bit stays in the support (its unit vector is a sum of stabilizer `X` parts) and
/// flips it otherwise.
pub open spec fn shifted_reference(t: CliffordSpec, reference: Seq<bool>, x: Seq<bool>) -> Seq<bool> {
    Seq::new(reference.len(), |q: int| reference[q] != (x[q] && !in_x_span(t, bit_unit(reference.len(), q))))
}

/// Flipping the bit `q` of the reference string stays in the support exactly when `e_q` is a sum
/// of stabilizer `X` parts.
pub proof fn lemma_flip_in_support(t: CliffordSpec, reference: Seq<bool>, q: int, target: Seq<bool>)
    requires
        reference.len() == t.z_images.len(),
        0 <= q < reference.len(),
        target == reference.update(q, !reference[q]),
    ensures
        (exists|v: int| #[trigger] is_relative_phase(t, reference, target, v)) == in_x_span(t, bit_unit(reference.len(), q)),
{
    assert(bit_xor(target, reference) =~= bit_unit(reference.len(), q));
    if in_x_span(t, bit_unit(reference.len(), q)) {
        let c = choose|c: Seq<bool>|
            c.len() == t.z_images.len() && combination(x_parts(t), c, t.z_images.len()) == bit_unit(reference.len(), q);
        assert(is_relative_phase(t, reference, target, relative_phase_value(t, reference, c)));
    }
    if exists|v: int| #[trigger] is_relative_phase(t, reference, target, v) {
        let v = choose|v: int| #[trigger] is_relative_phase(t, reference, target, v);
        let c = choose|c: Seq<bool>|
            c.len() == t.z_images.len() && combination(x_parts(t), c, t.z_images.len()) == bit_xor(target, reference)
                && v == relative_phase_value(t, reference, c);
        assert(combination(x_parts(t), c, t.z_images.len()) == bit_unit(reference.len(), q));
    }
}

/// The `n` low bits of `value`, least significant first: bit `q` is qubit `q`.
pub open spec fn usize_bits(value: usize, n: nat) -> Seq<bool> {
    Seq::new(n, |q: int| (value >> (q as u32)) & 1 == 1)
}

/// The mathematical content of a phased Clifford unitary.
pub struct PhasedCliffordSpec {
    pub clifford: CliffordSpec,
    pub reference: Seq<bool>,
    pub phase: int,
}

/// `phase` is the tracked phase of `P|ψ⟩` for `P = i^e X^x Z^z` and the state `ψ` tracked by `s`,
/// read at the shifted reference string `r'`: `⟨r'|P|ψ⟩ = i^e (−1)^{⟨z, r' + x⟩} ⟨r' + x|ψ⟩`.
pub open spec fn pauli_shift_phase(s: PhasedCliffordSpec, p: PauliSpec, phase: int) -> bool {
    let source = bit_xor(shifted_reference(s.clifford, s.reference, p.x), p.x);
    exists|v: int|
        is_relative_phase(s.clifford, s.reference, source, v) && phase == (s.phase + v + 2 * p.phase + 4 * b2i(
            bit_dot(p.z, source),
        )) % 8
}


/// A Clifford unitary that additionally tracks the exact global phase of its encoder state.
pub struct PhasedCliffordUnitary {
    clifford: CliffordUnitary,
    reference_string: Vec<bool>,
    reference_phase_exponent: u8,
}

/// Precomputed reduction of the stabilizer `X` parts, reused across amplitude queries.
pub struct StateAmplitudePhaseQuery {
    x_parts_echelon: EchelonForm,
}

impl View for PhasedCliffordUnitary {
    type V = PhasedCliffordSpec;

    closed spec fn view(&self) -> PhasedCliffordSpec {
        PhasedCliffordSpec {
            clifford: self.clifford@,
            reference: self.reference_string@,
            phase: self.reference_phase_exponent as int,
        }
    }
}

/// `(input_bits, phase)` for the unique input basis state that a two-qubit permutation-like gate
/// maps to the output bits `(a, b)`, with the `ζ₈` exponent of that matrix entry.
pub open spec fn two_qubit_inverse_spec(op: UnitaryOp, a: bool, b: bool) -> (bool, bool, int) {
    match op {
        UnitaryOp::ControlledX => (a, a != b, 0),
        UnitaryOp::ControlledZ => (a, b, if a && b { 4 } else { 0 }),
        _ => (b, a, 0),
    }
}

/// The `ζ₈` exponents of the matrix entries `⟨out|G|in⟩` of a one-qubit gate `G` (a multiple of a
/// unitary with entries of modulus `0` or `2^{-1/2}` or `1`), `None` for a zero entry.
pub open spec fn one_qubit_entries(op: UnitaryOp) -> Seq<Seq<Option<i64>>> {
    match op {
        UnitaryOp::Hadamard => seq![seq![Some(0i64), Some(0i64)], seq![Some(0i64), Some(4i64)]],
        UnitaryOp::X => seq![seq![None, Some(0i64)], seq![Some(0i64), None]],
        UnitaryOp::Y => seq![seq![None, Some(6i64)], seq![Some(2i64), None]],
        UnitaryOp::Z => seq![seq![Some(0i64), None], seq![None, Some(4i64)]],
        UnitaryOp::SqrtZ => seq![seq![Some(0i64), None], seq![None, Some(2i64)]],
        UnitaryOp::SqrtZInv => seq![seq![Some(0i64), None], seq![None, Some(6i64)]],
        UnitaryOp::SqrtX => seq![seq![Some(1i64), Some(7i64)], seq![Some(7i64), Some(1i64)]],
        UnitaryOp::SqrtXInv => seq![seq![Some(7i64), Some(1i64)], seq![Some(1i64), Some(7i64)]],
        UnitaryOp::SqrtY => seq![seq![Some(1i64), Some(5i64)], seq![Some(1i64), Some(1i64)]],
        _ => seq![seq![Some(7i64), Some(7i64)], seq![Some(3i64), Some(7i64)]],
    }
}

/// The product of two matrix entries given as `ζ₈` exponents (`None` for zero).
pub open spec fn entry_product(a: Option<int>, b: Option<int>) -> Option<int> {
    match (a, b) {
        (Some(x), Some(y)) => Some(x + y),
        _ => None,
    }
}

/// Two matrix entries given as `ζ₈` exponents are equal.
pub open spec fn same_entry(a: Option<int>, b: Option<int>) -> bool {
    match (a, b) {
        (Some(x), Some(y)) => (x - y) % 8 == 0,
        (None, None) => true,
        _ => false,
    }
}

/// The entry `⟨out|G|inp⟩` of the one-qubit gate table, as an exponent.
pub open spec fn gate_entry(op: UnitaryOp, out: bool, inp: bool) -> Option<int> {
    match one_qubit_entry_spec(op, out, inp) {
        Some(e) => Some(e as int),
        None => None,
    }
}

/// Entry `(out, inp)` of `G · σ` for a one-qubit Pauli `σ = i^e X^x Z^z`, which maps `|inp⟩` to
/// `i^e (−1)^{z·inp} |inp ⊕ x⟩`.
pub open spec fn gate_times_pauli(op: UnitaryOp, sigma: PauliSpec, out: bool, inp: bool) -> Option<int> {
    entry_product(gate_entry(op, out, inp != sigma.x[0]), Some(2 * sigma.phase + 4 * b2i(sigma.z[0] && inp)))
}

/// Entry `(out, inp)` of `σ · G` for a one-qubit Pauli `σ`.
pub open spec fn pauli_times_gate(sigma: PauliSpec, op: UnitaryOp, out: bool, inp: bool) -> Option<int> {
    entry_product(
        Some(2 * sigma.phase + 4 * b2i(sigma.z[0] && (out != sigma.x[0]))),
        gate_entry(op, out != sigma.x[0], inp),
    )
}

/// The amplitude table of `op` conjugates the one-qubit Pauli `sigma` to the image that the
/// tableau update gives it: `G σ = (G σ G†) G` entry by entry.
pub open spec fn table_conjugates(op: UnitaryOp, sigma: PauliSpec) -> bool {
    let image = crate::clifford::conj_single(op, 0, sigma);
    forall|out: bool, inp: bool|
        same_entry(#[trigger] gate_times_pauli(op, sigma, out, inp), pauli_times_gate(image, op, out, inp))
}

/// The amplitude table of every one-qubit gate implements the same Clifford as its tableau
/// update: the matrix `G` with entries `ζ₈^{entry}` (scaled by `1/√2` when no entry vanishes)
/// satisfies `G X = (G X G†) G` and `G Z = (G Z G†) G` for the images `conj_op` assigns.
pub proof fn lemma_gate_table_implements_tableau(op: UnitaryOp)
    requires
        is_one_qubit_gate(op),
    ensures
        table_conjugates(op, crate::clifford::pauli_x_spec(0, 1)),
        table_conjugates(op, crate::clifford::pauli_z_spec(0, 1)),
{
    let x = crate::clifford::pauli_x_spec(0, 1);
    let z = crate::clifford::pauli_z_spec(0, 1);
    assert(x.x[0] && !x.z[0] && !z.x[0] && z.z[0]);
    assert(x.x.update(0, x.x[0]) =~= x.x);
    let ix = crate::clifford::conj_single(op, 0, x);
    let iz = crate::clifford::conj_single(op, 0, z);
    assert(ix.x[0] == crate::clifford::single_update(op, true, false).0);
    assert(ix.z[0] == crate::clifford::single_update(op, true, false).1);
    assert(iz.x[0] == crate::clifford::single_update(op, false, true).0);
    assert(iz.z[0] == crate::clifford::single_update(op, false, true).1);
    assert forall|out: bool, inp: bool| same_entry(#[trigger] gate_times_pauli(op, x, out, inp), pauli_times_gate(ix, op, out, inp)) by {
    }
    assert forall|out: bool, inp: bool| same_entry(#[trigger] gate_times_pauli(op, z, out, inp), pauli_times_gate(iz, op, out, inp)) by {
    }
}

/// An entry given as a `ζ₈` exponent (`None` for zero) as an element of `ℤ[ζ₈]`.
pub open spec fn entry_value(entry: Option<int>) -> crate::zeta8::Cyclotomic {
    match entry {
        Some(e) => crate::zeta8::zeta(e),
        None => crate::zeta8::cyc_zero(),
    }
}

/// Entry `(out, inp)` of `M · M` for the unnormalised gate table `M` of `op` (entries `ζ₈^e` or
/// zero, so `M = √2 · G` for the gates with no zero entry and `M = G` otherwise).
pub open spec fn table_square_entry(op: UnitaryOp, out: bool, inp: bool) -> crate::zeta8::Cyclotomic {
    crate::zeta8::cyc_add(
        entry_value(entry_product(gate_entry(op, out, false), gate_entry(op, false, inp))),
        entry_value(entry_product(gate_entry(op, out, true), gate_entry(op, true, inp))),
    )
}

/// The Pauli matrix that `op` squares to: `H² = X² = Y² = Z² = I`, `(√X)^{±2} = X`,
/// `(√Y)^{±2} = Y`, `(√Z)^{±2} = Z`, as the entry `(out, inp)` in `ℤ[ζ₈]`.
pub open spec fn square_target_entry(op: UnitaryOp, out: bool, inp: bool) -> crate::zeta8::Cyclotomic {
    let pauli_entry: Option<int> = match op {
        UnitaryOp::SqrtX | UnitaryOp::SqrtXInv => if out != inp { Some(0int) } else { None },
        UnitaryOp::SqrtY | UnitaryOp::SqrtYInv => if out != inp { Some(if out { 2int } else { 6int }) } else { None },
        UnitaryOp::SqrtZ | UnitaryOp::SqrtZInv => if out == inp { Some(if out { 4int } else { 0int }) } else { None },
        _ => if out == inp { Some(0int) } else { None },
    };
    entry_value(pauli_entry)
}

/// The operations whose amplitude table has no zero entry: that table is `√2` times the unitary.
pub open spec fn is_dense_gate(op: UnitaryOp) -> bool {
    op == UnitaryOp::Hadamard || op == UnitaryOp::SqrtX || op == UnitaryOp::SqrtXInv || op == UnitaryOp::SqrtY
        || op == UnitaryOp::SqrtYInv
}

/// The amplitude table of every one-qubit gate squares to the Pauli operator it is a root of,
/// with no extra scalar: `G² = I` for `H`, `X`, `Y`, `Z`, `G² = X` for `√X` and `√X†`, `G² = Y`
/// for `√Y` and `√Y†`, `G² = Z` for `√Z` and `√Z†` (the table of a gate without zero entries
/// being `√2 G`, its square is `2 G²`). Together with the conjugation law above, this fixes
/// each table up to its sign.
pub proof fn lemma_gate_table_squares(op: UnitaryOp, out: bool, inp: bool)
    requires
        is_one_qubit_gate(op),
    ensures
        table_square_entry(op, out, inp) == if is_dense_gate(op) {
            crate::zeta8::cyc_add(square_target_entry(op, out, inp), square_target_entry(op, out, inp))
        } else {
            square_target_entry(op, out, inp)
        },
{
}

/// `√2` times an entry given as a `ζ₈` exponent, as an element of `ℤ[ζ₈]`.
pub open spec fn sqrt2_entry_value(entry: Option<int>) -> crate::zeta8::Cyclotomic {
    match entry {
        Some(e) => crate::zeta8::sqrt2_times_zeta(e),
        None => crate::zeta8::cyc_zero(),
    }
}

/// Entry `(out, inp)` of `ζ₈^shift · M₁ M₂` for the unnormalised tables `M₁`, `M₂` of `g1`, `g2`.
pub open spec fn table_pair_entry(g1: UnitaryOp, g2: UnitaryOp, shift: int, out: bool, inp: bool) -> crate::zeta8::Cyclotomic {
    let term = |k: bool| entry_value(entry_product(entry_product(gate_entry(g1, out, k), gate_entry(g2, k, inp)), Some(shift)));
    crate::zeta8::cyc_add(term(false), term(true))
}

/// Entry `(out, inp)` of `M₁ M₂ M₃` for the unnormalised tables of `g1`, `g2`, `g3`.
pub open spec fn table_triple_entry(g1: UnitaryOp, g2: UnitaryOp, g3: UnitaryOp, out: bool, inp: bool) -> crate::zeta8::Cyclotomic {
    let term = |k: bool, l: bool|
        entry_value(entry_product(entry_product(gate_entry(g1, out, k), gate_entry(g2, k, l)), gate_entry(g3, l, inp)));
    crate::zeta8::cyc_add(crate::zeta8::cyc_add(term(false, false), term(false, true)), crate::zeta8::cyc_add(term(true, false), term(true, true)))
}

/// The amplitude tables are the matrices of the named unitaries, with their usual global phases:
/// the phase gates `Z`, `√Z`, `√Z†` fix `|0⟩`; `H = (X + Z)/√2`; `X = H Z H`; `Y = i X Z`;
/// `√X = H √Z H` and `√X† = H √Z† H`; `√Y = √Z √X √Z†` and `√Y† = √Z √X† √Z†` (a table without
/// zero entries being `√2` times its unitary). With the conjugation law, these relations fix
/// every table exactly.
pub proof fn lemma_gate_table_relations(out: bool, inp: bool)
    ensures
        gate_entry(UnitaryOp::Z, false, false) == Some(0int),
        gate_entry(UnitaryOp::SqrtZ, false, false) == Some(0int),
        gate_entry(UnitaryOp::SqrtZInv, false, false) == Some(0int),
        entry_value(gate_entry(UnitaryOp::Hadamard, out, inp)) == crate::zeta8::cyc_add(
            entry_value(gate_entry(UnitaryOp::X, out, inp)),
            entry_value(gate_entry(UnitaryOp::Z, out, inp)),
        ),
        table_triple_entry(UnitaryOp::Hadamard, UnitaryOp::Z, UnitaryOp::Hadamard, out, inp) == crate::zeta8::cyc_add(
            entry_value(gate_entry(UnitaryOp::X, out, inp)),
            entry_value(gate_entry(UnitaryOp::X, out, inp)),
        ),
        table_pair_entry(UnitaryOp::X, UnitaryOp::Z, 2, out, inp) == entry_value(gate_entry(UnitaryOp::Y, out, inp)),
        table_triple_entry(UnitaryOp::Hadamard, UnitaryOp::SqrtZ, UnitaryOp::Hadamard, out, inp) == sqrt2_entry_value(
            gate_entry(UnitaryOp::SqrtX, out, inp),
        ),
        table_triple_entry(UnitaryOp::Hadamard, UnitaryOp::SqrtZInv, UnitaryOp::Hadamard, out, inp) == sqrt2_entry_value(
            gate_entry(UnitaryOp::SqrtXInv, out, inp),
        ),
        table_triple_entry(UnitaryOp::SqrtZ, UnitaryOp::SqrtX, UnitaryOp::SqrtZInv, out, inp) == entry_value(
            gate_entry(UnitaryOp::SqrtY, out, inp),
        ),
        table_triple_entry(UnitaryOp::SqrtZ, UnitaryOp::SqrtXInv, UnitaryOp::SqrtZInv, out, inp) == entry_value(
            gate_entry(UnitaryOp::SqrtYInv, out, inp),
        ),
{
}

/// The operations handled by the one-qubit amplitude update.
pub open spec fn is_one_qubit_gate(op: UnitaryOp) -> bool {
    op_arity(op) == 1
}

/// The operations handled by the two-qubit permutation update.
pub open spec fn is_two_qubit_permutation_gate(op: UnitaryOp) -> bool {
    op == UnitaryOp::ControlledX || op == UnitaryOp::ControlledZ || op == UnitaryOp::Swap
}

/// The `ζ₈` exponent of `⟨out|G|in⟩` for a one-qubit gate, `None` for a zero entry.
pub open spec fn one_qubit_entry_spec(op: UnitaryOp, out: bool, inp: bool) -> Option<i64> {
    one_qubit_entries(op)[b2i(out)][b2i(inp)]
}

/// `new` is `G · old` on the Pauli group for `G = op` on `support`, and the reference string
/// changed at most on `support`.
pub open spec fn gate_applied(old: PhasedCliffordSpec, new: PhasedCliffordSpec, op: UnitaryOp, support: Seq<usize>) -> bool {
    &&& new.clifford == tableau_map(old.clifford, |p: PauliSpec| conj_op(op, support, p))
    &&& new.reference.len() == old.reference.len()
    &&& forall|j: int|
        0 <= j < old.reference.len() && !(exists|k: int| 0 <= k < op_arity(op) && support[k] == j) ==> new.reference[j]
            == old.reference[j]
}

/// One-qubit gates with a single nonzero entry per row: `X`, `Y`, `Z`, `√Z` and `√Z†`.
pub open spec fn is_one_qubit_monomial(op: UnitaryOp) -> bool {
    op == UnitaryOp::X || op == UnitaryOp::Y || op == UnitaryOp::Z || op == UnitaryOp::SqrtZ || op
        == UnitaryOp::SqrtZInv
}

/// The diagonal one-qubit gates: `Z`, `√Z` and `√Z†`.
pub open spec fn is_one_qubit_diagonal(op: UnitaryOp) -> bool {
    op == UnitaryOp::Z || op == UnitaryOp::SqrtZ || op == UnitaryOp::SqrtZInv
}

/// The input bit that a one-qubit monomial gate maps to the output bit `out`.
pub open spec fn monomial_input(op: UnitaryOp, out: bool) -> bool {
    if op == UnitaryOp::X || op == UnitaryOp::Y {
        !out
    } else {
        out
    }
}

/// `new` tracks the amplitude `⟨new.reference|G C|0…0⟩ = ζ₈^{entry} ⟨source|C|0…0⟩`: `source` lies
/// in the support of the old encoder state and the new phase adds the matrix entry exponent
/// `entry` of `G` to the phase of that amplitude.
pub open spec fn moved_amplitude(old: PhasedCliffordSpec, new: PhasedCliffordSpec, source: Seq<bool>, entry: int) -> bool {
    exists|v: int| is_relative_phase(old.clifford, old.reference, source, v) && new.phase == (old.phase + entry + v) % 8
}

/// The tracked amplitude after a one-qubit monomial gate `G` on qubit `q`: the new reference
/// string is the image under `G` of a unique input string.
pub open spec fn one_qubit_monomial_update(old: PhasedCliffordSpec, new: PhasedCliffordSpec, op: UnitaryOp, q: int) -> bool {
    let out = new.reference[q];
    let inp = monomial_input(op, out);
    moved_amplitude(old, new, old.reference.update(q, inp), one_qubit_entry_spec(op, out, inp)->0 as int)
}

/// The tracked amplitude after a two-qubit permutation gate `G` on qubits `a`, `b`: the new
/// reference string is the image under `G` of a unique input string.
pub open spec fn two_qubit_permutation_update(old: PhasedCliffordSpec, new: PhasedCliffordSpec, op: UnitaryOp, a: int, b: int) -> bool {
    let inverse = two_qubit_inverse_spec(op, new.reference[a], new.reference[b]);
    moved_amplitude(old, new, old.reference.update(a, inverse.0).update(b, inverse.1), inverse.2)
}

/// An optional machine integer as an optional mathematical integer.
pub open spec fn option_int(value: Option<i64>) -> Option<int> {
    match value {
        Some(v) => Some(v as int),
        None => None,
    }
}

/// The contribution `⟨out|G|in⟩ · ⟨source|C|0…0⟩` of the input bit `inp`, as a `ζ₈` exponent, when
/// the matrix entry is nonzero and the source string has the relative phase `relative`.
pub open spec fn contribution(op: UnitaryOp, out: bool, inp: bool, relative: Option<int>) -> Option<int> {
    match one_qubit_entry_spec(op, out, inp) {
        Some(e) => match relative {
            Some(v) => Some(e + v),
            None => None,
        },
        None => None,
    }
}

/// The `ζ₈` exponent of the sum of at most two contributions, `None` when the sum vanishes.
pub open spec fn amplitude_exponent(first: Option<int>, second: Option<int>) -> Option<int> {
    match first {
        Some(a) => match second {
            Some(b) => zeta8_sum_exponent(a, b),
            None => Some(a % 8),
        },
        None => match second {
            Some(b) => Some(b % 8),
            None => None,
        },
    }
}

/// The `ζ₈` exponent of the sum of the listed unit powers (at most two), `None` when it vanishes.
pub open spec fn terms_exponent(terms: Seq<i64>) -> Option<int> {
    if terms.len() == 1 {
        Some(terms[0] as int % 8)
    } else if terms.len() == 2 {
        zeta8_sum_exponent(terms[0] as int, terms[1] as int)
    } else {
        None
    }
}

/// `relative` is the relative phase of `source` when `source` lies in the support of the
/// encoder state, and `None` exactly when it does not.
pub open spec fn relative_phase_of(old: PhasedCliffordSpec, source: Seq<bool>, relative: Option<int>) -> bool {
    match relative {
        Some(v) => is_relative_phase(old.clifford, old.reference, source, v),
        None => !(exists|v: int| is_relative_phase(old.clifford, old.reference, source, v)),
    }
}

/// The tracked amplitude after a one-qubit gate `G` on qubit `q`: at the new reference string
/// (the old one with qubit `q` set to `out`) the amplitude is
/// `Σ_in ⟨out|G|in⟩ ⟨r[q := in]|C|0…0⟩`, which does not vanish, and the new phase is the `ζ₈`
/// exponent of that sum.
pub open spec fn one_qubit_amplitude_update(old: PhasedCliffordSpec, new: PhasedCliffordSpec, op: UnitaryOp, q: int) -> bool {
    let out = new.reference[q];
    exists|relative0: Option<int>, relative1: Option<int>|
        #![trigger relative_phase_of(old, old.reference.update(q, false), relative0), relative_phase_of(old, old.reference.update(q, true), relative1)]
        {
            &&& relative_phase_of(old, old.reference.update(q, false), relative0)
            &&& relative_phase_of(old, old.reference.update(q, true), relative1)
            &&& amplitude_exponent(contribution(op, out, false, relative0), contribution(op, out, true, relative1))
                matches Some(e)
            &&& new.phase == (old.phase + e) % 8
        }
}

/// A one-qubit gate never annihilates the tracked amplitude: with the reference string itself in
/// the support (relative phase `0`), one of the two candidate strings keeps a nonzero amplitude.
proof fn lemma_a_candidate_survives(op: UnitaryOp, kept: bool, relative0: Option<int>, relative1: Option<int>)
    requires
        is_one_qubit_gate(op),
        (if kept { relative1 } else { relative0 }) == Some(0int),
        relative0 matches Some(v) ==> 0 <= v < 8 && v % 2 == 0,
        relative1 matches Some(v) ==> 0 <= v < 8 && v % 2 == 0,
    ensures
        amplitude_exponent(contribution(op, kept, false, relative0), contribution(op, kept, true, relative1)) is Some
            || amplitude_exponent(contribution(op, !kept, false, relative0), contribution(op, !kept, true, relative1))
            is Some,
{
    let o = if kept { relative0 } else { relative1 };
    if let Some(v) = o {
        assert(v == 0 || v == 2 || v == 4 || v == 6);
    }
}

/// The contribution `i · i^e (−1)^{sign} ⟨source|C|0…0⟩` of `P = i^e X^x Z^z` to an amplitude of
/// `exp(iπ/4 · P) C|0…0⟩`, as a `ζ₈` exponent, given the relative phase of the source string.
pub open spec fn exp_contribution(p: PauliSpec, relative: Option<int>, sign: bool) -> Option<int> {
    match relative {
        Some(v) => Some(v + 2 + 2 * p.phase + 4 * b2i(sign)),
        None => None,
    }
}

/// The tracked amplitude after `exp(iπ/4 · P)` for `P = i^e X^x Z^z`: at the new reference string
/// `c` the amplitude is `⟨c|C|0…0⟩ + i · i^e (−1)^{⟨z, c + x⟩} ⟨c + x|C|0…0⟩`, which does not vanish,
/// and the new phase is the `ζ₈` exponent of that sum.
pub open spec fn pauli_exp_amplitude_update(old: PhasedCliffordSpec, new: PhasedCliffordSpec, p: PauliSpec) -> bool {
    let candidate = new.reference;
    let source = bit_xor(candidate, p.x);
    exists|relative_candidate: Option<int>, relative_source: Option<int>|
        #![trigger relative_phase_of(old, candidate, relative_candidate), relative_phase_of(old, source, relative_source)]
        {
            &&& relative_phase_of(old, candidate, relative_candidate)
            &&& relative_phase_of(old, source, relative_source)
            &&& amplitude_exponent(relative_candidate, exp_contribution(p, relative_source, bit_dot(p.z, source)))
                matches Some(e)
            &&& new.phase == (old.phase + e) % 8
        }
}

/// For an order-two Pauli `P`, `exp(iπ/4 · P)` never annihilates the tracked amplitude: one of the
/// reference and the shifted reference keeps a nonzero amplitude.
proof fn lemma_exp_candidate_survives(p: PauliSpec, relative_shifted: Option<int>, sign_at_reference: bool, sign_at_shifted: bool)
    requires
        crate::pauli::is_order_two_spec(p),
        0 <= p.phase < 4,
        relative_shifted matches Some(v) ==> 0 <= v < 8 && v % 2 == 0,
        sign_at_shifted == (sign_at_reference != bit_dot(p.x, p.z)),
    ensures
        amplitude_exponent(Some(0int), exp_contribution(p, relative_shifted, sign_at_shifted)) is Some
            || amplitude_exponent(relative_shifted, exp_contribution(p, Some(0int), sign_at_reference)) is Some,
{
    if let Some(v) = relative_shifted {
        assert(v == 0 || v == 2 || v == 4 || v == 6);
    }
}

/// Attempt `t` of the two-qubit update tries the output bits `(a', b')` with `a'` flipped from
/// `kept_a` when `t ≥ 2` and `b'` flipped from `kept_b` when `t` is odd; it hits the reference
/// when `op` sends the kept bits to them.
spec fn attempt_hits_reference(op: UnitaryOp, kept_a: bool, kept_b: bool, t: int) -> bool {
    let out_a = if t < 2 { kept_a } else { !kept_a };
    let out_b = if t % 2 == 0 { kept_b } else { !kept_b };
    let inverse = two_qubit_inverse_spec(op, out_a, out_b);
    inverse.0 == kept_a && inverse.1 == kept_b
}

fn one_qubit_entry(op: UnitaryOp, out: bool, inp: bool) -> (r: Option<i64>)
    requires
        is_one_qubit_gate(op),
    ensures
        r == one_qubit_entry_spec(op, out, inp),
        r matches Some(e) ==> 0 <= e < 8,
        one_qubit_entry_spec(op, out, false) is Some && one_qubit_entry_spec(op, out, true) is Some ==> (
        one_qubit_entry_spec(op, out, false)->0 - one_qubit_entry_spec(op, out, true)->0) % 2 == 0,
{
    let row: [Option<i64>; 2] = match op {
        UnitaryOp::Hadamard => if out { [Some(0), Some(4)] } else { [Some(0), Some(0)] },
        UnitaryOp::X => if out { [Some(0), None] } else { [None, Some(0)] },
        UnitaryOp::Y => if out { [Some(2), None] } else { [None, Some(6)] },
        UnitaryOp::Z => if out { [None, Some(4)] } else { [Some(0), None] },
        UnitaryOp::SqrtZ => if out { [None, Some(2)] } else { [Some(0), None] },
        UnitaryOp::SqrtZInv => if out { [None, Some(6)] } else { [Some(0), None] },
        UnitaryOp::SqrtX => if out { [Some(7), Some(1)] } else { [Some(1), Some(7)] },
        UnitaryOp::SqrtXInv => if out { [Some(1), Some(7)] } else { [Some(7), Some(1)] },
        UnitaryOp::SqrtY => if out { [Some(1), Some(1)] } else { [Some(1), Some(5)] },
        _ => if out { [Some(3), Some(7)] } else { [Some(7), Some(7)] },
    };
    if inp {
        row[1]
    } else {
        row[0]
    }
}

fn two_qubit_inverse(op: UnitaryOp, a: bool, b: bool) -> (r: (bool, bool, i64))
    ensures
        r.0 == two_qubit_inverse_spec(op, a, b).0,
        r.1 == two_qubit_inverse_spec(op, a, b).1,
        r.2 as int == two_qubit_inverse_spec(op, a, b).2,
{
    match op {
        UnitaryOp::ControlledX => (a, a != b, 0),
        UnitaryOp::ControlledZ => (a, b, if a && b { 4 } else { 0 }),
        _ => (b, a, 0),
    }
}

impl PhasedCliffordUnitary {
    /// The tableau is that of a Clifford unitary (Hermitian generator images with the commutation
    /// relations of the generators), the reference string names a basis state of the right length
    /// and the tracked phase is a `ζ₈` exponent in `0..8`.
    pub open spec fn wf(&self) -> bool {
        &&& crate::decomposition::is_clifford_tableau(self@.clifford, self@.clifford.x_images.len())
        &&& self@.reference.len() == self@.clifford.x_images.len()
        &&& 0 <= self@.phase < 8
    }

    /// The number of qubits.
    pub open spec fn n(&self) -> nat {
        self@.clifford.x_images.len()
    }

    proof fn lemma_unfold(&self)
        requires
            self.wf(),
        ensures
            self.clifford.wf(),
            self.clifford@ == self@.clifford,
            self.clifford.n() == self.n(),
            self.reference_string@ == self@.reference,
            self.reference_string@.len() == self.n(),
            self.reference_phase_exponent as int == self@.phase,
            self.reference_phase_exponent < 8,
    {
    }

    /// The identity operator on `num_qubits` qubits, with encoder state `|0…0⟩`.
    pub fn identity(num_qubits: usize) -> (r: PhasedCliffordUnitary)
        ensures
            r.wf(),
            r@.clifford == identity_tableau(num_qubits as nat),
            r@.reference == bit_zeros(num_qubits as nat),
            r@.phase == 0,
    {
        proof {
            crate::decomposition::lemma_identity_is_clifford(num_qubits as nat);
        }
        PhasedCliffordUnitary {
            clifford: CliffordUnitary::identity(num_qubits),
            reference_string: zeros(num_qubits),
            reference_phase_exponent: 0,
        }
    }

    /// Returns the number of qubits the operator acts on.
    pub fn num_qubits(&self) -> (r: usize)
        requires
            self.wf(),
        ensures
            r == self.n(),
    {
        self.clifford.num_qubits()
    }

    /// Returns the underlying phaseless [`CliffordUnitary`].
    pub fn clifford(&self) -> (c: &CliffordUnitary)
        requires
            self.wf(),
        ensures
            c.wf(),
            c@ == self@.clifford,
    {
        &self.clifford
    }

    /// Consumes the operator and returns the underlying phaseless [`CliffordUnitary`].
    pub fn into_clifford(self) -> (c: CliffordUnitary)
        requires
            self.wf(),
        ensures
            c.wf(),
            c@ == self@.clifford,
    {
        self.clifford
    }

    /// A copy of the operator.
    pub fn duplicate(&self) -> (r: PhasedCliffordUnitary)
        requires
            self.wf(),
        ensures
            r.wf(),
            r@ == self@,
    {
        PhasedCliffordUnitary {
            clifford: self.clifford.duplicate(),
            reference_string: self.reference_string.clone(),
            reference_phase_exponent: self.reference_phase_exponent,
        }
    }

    /// Left-multiplies by the global scalar `ζ₈^exponent`: only the tracked phase advances.
    pub fn left_mul_global_phase(&mut self, exponent: u8)
        requires
            old(self).wf(),
        ensures
            final(self).wf(),
            final(self)@.clifford == old(self)@.clifford,
            final(self)@.reference == old(self)@.reference,
            final(self)@.phase == (old(self)@.phase + exponent as int) % 8,
    {
        self.reference_phase_exponent = normalize_exponent(
            self.reference_phase_exponent as i64 + exponent as i64,
        );
    }

    /// Returns a computational-basis string `r` with `⟨r|C|0…0⟩ ≠ 0`.
    pub fn support_representative(&self) -> (r: Vec<bool>)
        requires
            self.wf(),
        ensures
            r@ == self@.reference,
    {
        self.reference_string.clone()
    }

    /// Precomputes the reduction used by amplitude queries.
    pub fn state_amplitude_phase_query(&self) -> (q: StateAmplitudePhaseQuery)
        requires
            self.wf(),
        ensures
            q.wf_for(self@.clifford),
    {
        proof {
            self.lemma_unfold();
        }
        let n = self.clifford.num_qubits();
        let rows = self.x_parts_matrix();
        let echelon = EchelonForm::new(rows, n);
        proof {
            assert(echelon@.generators =~= x_parts(self.clifford@));
        }
        StateAmplitudePhaseQuery { x_parts_echelon: echelon }
    }

    /// The `X` parts of the stabilizers `C Z_g C†`, one row per generator `g`.
    fn x_parts_matrix(&self) -> (rows: Vec<Vec<bool>>)
        requires
            self.wf(),
        ensures
            rows@.len() == self.n(),
            forall|k: int| 0 <= k < rows@.len() ==> (#[trigger] rows@[k])@ == x_parts(self@.clifford)[k],
            forall|k: int| 0 <= k < rows@.len() ==> (#[trigger] rows@[k])@.len() == self.n(),
    {
        proof {
            self.lemma_unfold();
        }
        let n = self.clifford.num_qubits();
        let mut rows: Vec<Vec<bool>> = Vec::new();
        let mut g: usize = 0;
        while g < n
            invariant
                self.clifford.wf(),
                n == self.clifford.n(),
                self.clifford@ == self@.clifford,
                g <= n,
                rows@.len() == g,
                forall|k: int| 0 <= k < g ==> (#[trigger] rows@[k])@ == self.clifford@.z_images[k].x,
                forall|k: int| 0 <= k < g ==> (#[trigger] rows@[k])@.len() == n,
            decreases n - g,
        {
            let image = self.clifford.image_z(g);
            rows.push(image.x_bits);
            g = g + 1;
        }
        rows
    }

    /// The `ζ₈` exponent `e` with `⟨basis|C|0…0⟩ = ζ₈^e · 2^{-k/2}`, or `None` when no combination
    /// of stabilizers connects `basis` to the reference string.
    pub fn state_amplitude_phase_exponent(&self, basis: &Vec<bool>) -> (r: Option<u8>)
        requires
            self.wf(),
            basis@.len() == self.n(),
        ensures
            r matches Some(e) ==> e < 8 && exists|v: int|
                is_relative_phase(self@.clifford, self@.reference, basis@, v) && e == (self@.phase + v) % 8,
            r is None <==> !(exists|v: int| is_relative_phase(self@.clifford, self@.reference, basis@, v)),
            basis@ == self@.reference ==> r == Some(self@.phase as u8),
            crate::stabilizer_group::reference_in_support(self@.clifford, self@.reference) ==> forall|v: int|
                #[trigger] is_relative_phase(self@.clifford, self@.reference, basis@, v) ==> r == Some(
                    ((self@.phase + v) % 8) as u8,
                ),
    {
        let query = self.state_amplitude_phase_query();
        self.state_amplitude_phase_exponent_with_query(basis, &query)
    }

    /// [`Self::state_amplitude_phase_exponent`] with a precomputed query.
    pub fn state_amplitude_phase_exponent_with_query(
        &self,
        basis: &Vec<bool>,
        query: &StateAmplitudePhaseQuery,
    ) -> (r: Option<u8>)
        requires
            self.wf(),
            basis@.len() == self.n(),
            query.wf_for(self@.clifford),
        ensures
            r matches Some(e) ==> e < 8 && exists|v: int|
                is_relative_phase(self@.clifford, self@.reference, basis@, v) && e == (self@.phase + v) % 8,
            r is None <==> !(exists|v: int| is_relative_phase(self@.clifford, self@.reference, basis@, v)),
            basis@ == self@.reference ==> r == Some(self@.phase as u8),
            crate::stabilizer_group::reference_in_support(self@.clifford, self@.reference) ==> forall|v: int|
                #[trigger] is_relative_phase(self@.clifford, self@.reference, basis@, v) ==> r == Some(
                    ((self@.phase + v) % 8) as u8,
                ),
    {
        proof {
            self.lemma_unfold();
        }
        let r = match self.relative_phase_with_query(basis, query) {
            Some(relative) => Some(normalize_exponent(self.reference_phase_exponent as i64 + relative)),
            None => None,
        };
        proof {
            if crate::stabilizer_group::reference_in_support(self@.clifford, self@.reference) {
                assert forall|v: int| #[trigger] is_relative_phase(self@.clifford, self@.reference, basis@, v) implies r
                    == Some(((self@.phase + v) % 8) as u8) by {
                    let e = r->0;
                    let w = choose|w: int|
                        is_relative_phase(self@.clifford, self@.reference, basis@, w) && e == (self@.phase + w) % 8;
                    crate::stabilizer_group::lemma_relative_phase_unique(
                        self@.clifford,
                        self@.reference,
                        basis@,
                        v,
                        w,
                    );
                }
            }
        }
        r
    }

    /// Convenience wrapper taking the basis string as an integer whose qubit-`q` bit is
    /// `(value >> q) & 1`.
    pub fn state_amplitude_phase_exponent_usize(&self, value: usize) -> (r: Option<u8>)
        requires
            self.wf(),
            self.n() <= usize::BITS,
        ensures
            r matches Some(e) ==> e < 8 && exists|v: int|
                is_relative_phase(self@.clifford, self@.reference, usize_bits(value, self.n()), v) && e == (self@.phase
                    + v) % 8,
            r is None <==> !(exists|v: int| is_relative_phase(self@.clifford, self@.reference, usize_bits(value, self.n()), v)),
            usize_bits(value, self.n()) == self@.reference ==> r == Some(self@.phase as u8),
            value == 0 && crate::gf2::bit_is_zero(self@.reference) ==> r == Some(self@.phase as u8),
            crate::stabilizer_group::reference_in_support(self@.clifford, self@.reference) ==> forall|v: int|
                #[trigger] is_relative_phase(self@.clifford, self@.reference, usize_bits(value, self.n()), v) ==> r == Some(
                    ((self@.phase + v) % 8) as u8,
                ),
    {
        proof {
            self.lemma_unfold();
        }
        let n = self.clifford.num_qubits();
        let mut basis = zeros(n);
        let mut q: usize = 0;
        while q < n
            invariant
                n <= usize::BITS,
                basis@.len() == n,
                q <= n,
                value == 0 ==> basis@ == bit_zeros(n as nat),
                forall|j: int| 0 <= j < q ==> basis@[j] == usize_bits(value, n as nat)[j],
            decreases n - q,
        {
            let bit = (value >> q as u32) & 1 == 1;
            proof {
                assert(bit == usize_bits(value, n as nat)[q as int]);
            }
            proof {
                if value == 0 {
                    assert((0usize >> q as u32) & 1 == 0) by (bit_vector);
                }
            }
            basis.set(q, bit);
            proof {
                if value == 0 {
                    assert(basis@ =~= bit_zeros(n as nat));
                }
            }
            q = q + 1;
        }
        proof {
            assert(basis@ =~= usize_bits(value, n as nat));
            if value == 0 && crate::gf2::bit_is_zero(self@.reference) {
                assert(basis@ =~= self@.reference);
            }
        }
        self.state_amplitude_phase_exponent(&basis)
    }

    /// The relative `ζ₈` phase of `target` against the reference string (see
    /// [`relative_phase_value`]), or `None` when the linear system has no solution.
    fn relative_phase_with_query(&self, target: &Vec<bool>, query: &StateAmplitudePhaseQuery) -> (r: Option<i64>)
        requires
            self.wf(),
            target@.len() == self.n(),
            query.wf_for(self@.clifford),
        ensures
            r matches Some(v) ==> 0 <= v < 8 && v % 2 == 0 && is_relative_phase(
                self@.clifford,
                self@.reference,
                target@,
                v as int,
            ),
            target@ == self@.reference ==> r == Some(0i64),
            r is None ==> !(exists|v: int| is_relative_phase(self@.clifford, self@.reference, target@, v)),
    {
        proof {
            self.lemma_unfold();
        }
        let n = self.clifford.num_qubits();
        let mut difference = target.clone();
        proof {
            assert(difference@ =~= target@);
        }
        xor_assign(&mut difference, &self.reference_string);
        proof {
            if target@ == self@.reference {
                assert forall|j: int| 0 <= j < difference@.len() implies !difference@[j] by {}
            }
        }
        let combination_bits = match query.x_parts_echelon.transpose_solve(&difference) {
            Some(c) => c,
            None => {
                proof {
                    assert(difference@ =~= bit_xor(target@, self@.reference));
                    assert forall|v: int| !is_relative_phase(self@.clifford, self@.reference, target@, v) by {
                        if is_relative_phase(self@.clifford, self@.reference, target@, v) {
                            let c = choose|c: Seq<bool>|
                                c.len() == self@.clifford.z_images.len() && combination(
                                    x_parts(self@.clifford),
                                    c,
                                    self@.clifford.z_images.len(),
                                ) == bit_xor(target@, self@.reference) && v == relative_phase_value(
                                    self@.clifford,
                                    self@.reference,
                                    c,
                                );
                            assert(combination(
                                query.x_parts_echelon@.generators,
                                c,
                                query.x_parts_echelon@.width,
                            ) == difference@);
                        }
                    }
                }
                return None;
            },
        };
        let mut product = DensePauli::identity(n);
        let mut g: usize = 0;
        while g < n
            invariant
                self.clifford.wf(),
                n == self.clifford.n(),
                combination_bits@.len() == n,
                g <= n,
                product.wf(),
                product@.x.len() == n,
                product@ == product_prefix(pauli_identity(n as nat), self.clifford@.z_images, combination_bits@, g as int),
            decreases n - g,
        {
            if combination_bits[g] {
                let image = self.clifford.image_z(g);
                product.mul_assign_right(&image);
            }
            g = g + 1;
        }
        let sign = dot(&product.z_bits, &self.reference_string);
        let relative: i64 = (2 * product.phase as i64 + if sign {
            4
        } else {
            0
        }) % 8;
        proof {
            let c = combination_bits@;
            assert(relative as int == relative_phase_value(self@.clifford, self@.reference, c));
            assert(is_relative_phase(self@.clifford, self@.reference, target@, relative as int));
            if target@ == self@.reference {
                assert(c =~= bit_zeros(n as nat));
                lemma_product_of_zero_mask(pauli_identity(n as nat), self.clifford@.z_images, c, n as int);
                crate::pauli::lemma_dot_zeros_left(bit_zeros(n as nat), self@.reference);
            }
        }
        Some(relative)
    }

    /// The amplitude terms `⟨out|G|in⟩ · ⟨source_in|C|0⟩` contributing to the candidate string
    /// whose qubit is set to `out`, as `ζ₈` exponents, given the relative phases of the two
    /// sources.
    #[verifier::rlimit(30)]
    #[verifier::spinoff_prover]
    fn contribution_terms(op: UnitaryOp, out: bool, relative0: Option<i64>, relative1: Option<i64>) -> (terms: Vec<i64>)
        requires
            is_one_qubit_gate(op),
            relative0 matches Some(v) ==> 0 <= v < 8 && v % 2 == 0,
            relative1 matches Some(v) ==> 0 <= v < 8 && v % 2 == 0,
        ensures
            terms@.len() <= 2,
            terms@.len() == 2 ==> (terms@[0] - terms@[1]) % 2 == 0,
            terms_exponent(terms@) == amplitude_exponent(
                contribution(op, out, false, option_int(relative0)),
                contribution(op, out, true, option_int(relative1)),
            ),
    {
        let mut terms: Vec<i64> = Vec::new();
        if let Some(entry) = one_qubit_entry(op, out, false) {
            if let Some(relative) = relative0 {
                terms.push(entry + relative);
            }
        }
        if let Some(entry) = one_qubit_entry(op, out, true) {
            if let Some(relative) = relative1 {
                terms.push(entry + relative);
            }
        }
        proof {
            if terms@.len() == 2 {
                assert(terms@[0] == one_qubit_entry_spec(op, out, false)->0 + relative0->0);
                assert(terms@[1] == one_qubit_entry_spec(op, out, true)->0 + relative1->0);
            }
        }
        terms
    }

    /// Applies a one-qubit gate: moves the reference string to the first candidate (keeping or
    /// flipping qubit `qubit`) whose new amplitude is nonzero and accumulates its `ζ₈` phase. The
    /// relative phases of the two source strings are computed once and shared by both candidates.
    #[verifier::rlimit(60)]
    #[verifier::spinoff_prover]
    fn apply_one_qubit(&mut self, qubit: usize, op: UnitaryOp)
        requires
            old(self).wf(),
            qubit < old(self).n(),
            is_one_qubit_gate(op),
        ensures
            final(self).wf(),
            gate_applied(old(self)@, final(self)@, op, seq![qubit]),
            one_qubit_amplitude_update(old(self)@, final(self)@, op, qubit as int),
            is_one_qubit_monomial(op) ==> one_qubit_monomial_update(old(self)@, final(self)@, op, qubit as int),
            is_one_qubit_monomial(op) ==> (final(self)@.reference[qubit as int] == old(self)@.reference[qubit as int]
                <==> exists|v: int|
                #[trigger] is_relative_phase(
                    old(self)@.clifford,
                    old(self)@.reference,
                    old(self)@.reference.update(qubit as int, monomial_input(op, old(self)@.reference[qubit as int])),
                    v,
                )),
            is_one_qubit_diagonal(op) ==> final(self)@.reference == old(self)@.reference && final(self)@.phase == (
            old(self)@.phase + one_qubit_entry_spec(
                op,
                old(self)@.reference[qubit as int],
                old(self)@.reference[qubit as int],
            )->0) % 8,
    {
        proof {
            self.lemma_unfold();
        }
        let kept = self.reference_string[qubit];
        let mut source0 = self.reference_string.clone();
        source0.set(qubit, false);
        let mut source1 = self.reference_string.clone();
        source1.set(qubit, true);
        proof {
            assert(source0@ =~= self@.reference.update(qubit as int, false));
            assert(source1@ =~= self@.reference.update(qubit as int, true));
            if kept {
                assert(source1@ =~= self@.reference);
            } else {
                assert(source0@ =~= self@.reference);
            }
        }
        let relative0 = self.relative_phase(&source0);
        let relative1 = self.relative_phase(&source1);
        let ghost r0 = option_int(relative0);
        let ghost r1 = option_int(relative1);
        proof {
            assert(relative_phase_of(self@, self@.reference.update(qubit as int, false), r0));
            assert(relative_phase_of(self@, self@.reference.update(qubit as int, true), r1));
        }
        let mut attempt: usize = 0;
        while attempt < 2
            invariant
                self == old(self),
                old(self).wf(),
                qubit < old(self).n(),
                is_one_qubit_gate(op),
                kept == old(self)@.reference[qubit as int],
                r0 == option_int(relative0),
                r1 == option_int(relative1),
                relative0 matches Some(v) ==> 0 <= v < 8 && v % 2 == 0,
                relative1 matches Some(v) ==> 0 <= v < 8 && v % 2 == 0,
                (if kept { r1 } else { r0 }) == Some(0int),
                relative_phase_of(old(self)@, old(self)@.reference.update(qubit as int, false), r0),
                relative_phase_of(old(self)@, old(self)@.reference.update(qubit as int, true), r1),
                attempt <= 2,
                attempt > 0 ==> amplitude_exponent(contribution(op, kept, false, r0), contribution(op, kept, true, r1))
                    is None,
                attempt > 1 ==> amplitude_exponent(
                    contribution(op, !kept, false, r0),
                    contribution(op, !kept, true, r1),
                ) is None,
            decreases 2 - attempt,
        {
            let out = if attempt == 0 {
                kept
            } else {
                !kept
            };
            let terms = Self::contribution_terms(op, out, relative0, relative1);
            if let Some(increment) = combine_zeta8_powers(terms.as_slice()) {
                let ghost before = self@;
                let ghost e = terms_exponent(terms@)->0;
                proof {
                    assert(increment as int == e);
                }
                self.reference_phase_exponent = normalize_exponent(
                    self.reference_phase_exponent as i64 + increment as i64,
                );
                self.reference_string.set(qubit, out);
                let support = [qubit];
                self.clifford.left_mul(op, &support);
                proof {
                    assert(support@ == seq![qubit]);
                    assert(self@.reference[qubit as int] == out);
                    assert(self@.phase == (before.phase + e) % 8);
                    assert(relative_phase_of(before, before.reference.update(qubit as int, false), r0));
                    assert(relative_phase_of(before, before.reference.update(qubit as int, true), r1));
                    if is_one_qubit_monomial(op) {
                        let inp = monomial_input(op, out);
                        let r = if inp { r1 } else { r0 };
                        assert(one_qubit_entry_spec(op, out, inp) is Some);
                        assert(one_qubit_entry_spec(op, out, !inp) is None);
                        let v = r->0;
                        assert(r is Some);
                        assert(is_relative_phase(before.clifford, before.reference, before.reference.update(qubit as int, inp), v));
                        assert((before.phase + (one_qubit_entry_spec(op, out, inp)->0 + v) % 8) % 8 == (before.phase
                            + one_qubit_entry_spec(op, out, inp)->0 + v) % 8) by {
                            vstd::arithmetic::div_mod::lemma_add_mod_noop_right(
                                before.phase,
                                one_qubit_entry_spec(op, out, inp)->0 + v,
                                8,
                            );
                        }
                    }
                    if is_one_qubit_diagonal(op) {
                        assert(attempt == 0);
                        assert(self@.reference =~= before.reference);
                    }
                    if is_one_qubit_monomial(op) {
                        let inp0 = monomial_input(op, kept);
                        let r_inp0 = if inp0 { r1 } else { r0 };
                        assert(one_qubit_entry_spec(op, kept, inp0) is Some);
                        assert(one_qubit_entry_spec(op, kept, !inp0) is None);
                        assert(before.reference.update(qubit as int, inp0) == old(self)@.reference.update(
                            qubit as int,
                            monomial_input(op, old(self)@.reference[qubit as int]),
                        ));
                        if attempt > 0 {
                            assert(r_inp0 is None);
                            assert(self@.reference[qubit as int] != kept);
                        } else {
                            assert(r_inp0 is Some);
                            assert(is_relative_phase(
                                before.clifford,
                                before.reference,
                                before.reference.update(qubit as int, inp0),
                                r_inp0->0,
                            ));
                        }
                    }
                }
                return;
            }
            attempt = attempt + 1;
        }
        proof {
            lemma_a_candidate_survives(op, kept, r0, r1);
            assert(false);
        }
    }

    /// Applies a two-qubit gate that permutes basis states up to phase: moves the reference
    /// string to the first candidate whose source lies in the support.
    fn apply_two_qubit(&mut self, qubit_a: usize, qubit_b: usize, op: UnitaryOp)
        requires
            old(self).wf(),
            qubit_a < old(self).n(),
            qubit_b < old(self).n(),
            qubit_a != qubit_b,
            is_two_qubit_permutation_gate(op),
        ensures
            final(self).wf(),
            gate_applied(old(self)@, final(self)@, op, seq![qubit_a, qubit_b]),
            two_qubit_permutation_update(old(self)@, final(self)@, op, qubit_a as int, qubit_b as int),
            op == UnitaryOp::ControlledZ ==> final(self)@.reference == old(self)@.reference && final(self)@.phase == (
            old(self)@.phase + if old(self)@.reference[qubit_a as int] && old(self)@.reference[qubit_b as int] {
                4int
            } else {
                0int
            }) % 8,
    {
        proof {
            self.lemma_unfold();
        }
        let kept_a = self.reference_string[qubit_a];
        let kept_b = self.reference_string[qubit_b];
        let mut attempt: usize = 0;
        while attempt < 4
            invariant
                self == old(self),
                old(self).wf(),
                qubit_a < old(self).n(),
                qubit_b < old(self).n(),
                qubit_a != qubit_b,
                is_two_qubit_permutation_gate(op),
                kept_a == old(self)@.reference[qubit_a as int],
                kept_b == old(self)@.reference[qubit_b as int],
                attempt <= 4,
                forall|t: int|
                    0 <= t < attempt ==> !#[trigger] attempt_hits_reference(op, kept_a, kept_b, t),
            decreases 4 - attempt,
        {
            let out_a = if attempt < 2 {
                kept_a
            } else {
                !kept_a
            };
            let out_b = if attempt % 2 == 0 {
                kept_b
            } else {
                !kept_b
            };
            let (in_a, in_b, entry) = two_qubit_inverse(op, out_a, out_b);
            let mut source = self.reference_string.clone();
            source.set(qubit_a, in_a);
            source.set(qubit_b, in_b);
            proof {
                if attempt_hits_reference(op, kept_a, kept_b, attempt as int) {
                    assert(source@ =~= self@.reference);
                }
            }
            if let Some(relative) = self.relative_phase(&source) {
                let ghost before = self@;
                self.reference_phase_exponent = normalize_exponent(
                    self.reference_phase_exponent as i64 + entry + relative,
                );
                self.reference_string.set(qubit_a, out_a);
                self.reference_string.set(qubit_b, out_b);
                let support = [qubit_a, qubit_b];
                self.clifford.left_mul(op, &support);
                proof {
                    assert(support@ == seq![qubit_a, qubit_b]);
                    assert(self@.reference[qubit_a as int] == out_a);
                    assert(self@.reference[qubit_b as int] == out_b);
                    assert(is_relative_phase(before.clifford, before.reference, source@, relative as int));
                    if op == UnitaryOp::ControlledZ {
                        assert(attempt_hits_reference(op, kept_a, kept_b, 0));
                        assert(attempt == 0);
                        assert(self@.reference =~= before.reference);
                    }
                }
                return;
            }
            attempt = attempt + 1;
        }
        proof {
            // Some attempt sends the kept bits to themselves, so the loop always returns.
            assert(!attempt_hits_reference(op, kept_a, kept_b, 0));
            assert(!attempt_hits_reference(op, kept_a, kept_b, 1));
            assert(!attempt_hits_reference(op, kept_a, kept_b, 2));
            assert(!attempt_hits_reference(op, kept_a, kept_b, 3));
            assert(false);
        }
    }

    /// Left-multiplies by a Hadamard gate on `qubit`.
    pub fn left_mul_hadamard(&mut self, qubit: usize)
        requires
            old(self).wf(),
            qubit < old(self).n(),
        ensures
            final(self).wf(),
            gate_applied(old(self)@, final(self)@, UnitaryOp::Hadamard, seq![qubit]),
            one_qubit_amplitude_update(old(self)@, final(self)@, UnitaryOp::Hadamard, qubit as int),
    {
        self.apply_one_qubit(qubit, UnitaryOp::Hadamard);
    }

    /// Left-multiplies by a Pauli `X` gate on `qubit`.
    pub fn left_mul_x(&mut self, qubit: usize)
        requires
            old(self).wf(),
            qubit < old(self).n(),
        ensures
            final(self).wf(),
            gate_applied(old(self)@, final(self)@, UnitaryOp::X, seq![qubit]),
            one_qubit_amplitude_update(old(self)@, final(self)@, UnitaryOp::X, qubit as int),
            one_qubit_monomial_update(old(self)@, final(self)@, UnitaryOp::X, qubit as int),
            final(self)@.reference[qubit as int] == old(self)@.reference[qubit as int] <==> in_x_span(
                old(self)@.clifford,
                bit_unit(old(self)@.reference.len(), qubit as int),
            ),
    {
        proof {
            self.lemma_unfold();
            lemma_flip_in_support(
                self@.clifford,
                self@.reference,
                qubit as int,
                self@.reference.update(qubit as int, monomial_input(UnitaryOp::X, self@.reference[qubit as int])),
            );
        }
        self.apply_one_qubit(qubit, UnitaryOp::X);
    }

    /// Left-multiplies by a Pauli `Y` gate on `qubit`.
    pub fn left_mul_y(&mut self, qubit: usize)
        requires
            old(self).wf(),
            qubit < old(self).n(),
        ensures
            final(self).wf(),
            gate_applied(old(self)@, final(self)@, UnitaryOp::Y, seq![qubit]),
            one_qubit_amplitude_update(old(self)@, final(self)@, UnitaryOp::Y, qubit as int),
            one_qubit_monomial_update(old(self)@, final(self)@, UnitaryOp::Y, qubit as int),
    {
        self.apply_one_qubit(qubit, UnitaryOp::Y);
    }

    /// Left-multiplies by a Pauli `Z` gate on `qubit`.
    pub fn left_mul_z(&mut self, qubit: usize)
        requires
            old(self).wf(),
            qubit < old(self).n(),
        ensures
            final(self).wf(),
            gate_applied(old(self)@, final(self)@, UnitaryOp::Z, seq![qubit]),
            one_qubit_amplitude_update(old(self)@, final(self)@, UnitaryOp::Z, qubit as int),
            one_qubit_monomial_update(old(self)@, final(self)@, UnitaryOp::Z, qubit as int),
            final(self)@.reference == old(self)@.reference,
            final(self)@.phase == (old(self)@.phase + if old(self)@.reference[qubit as int] {
                4int
            } else {
                0int
            }) % 8,
    {
        self.apply_one_qubit(qubit, UnitaryOp::Z);
    }

    /// Left-multiplies by `√Z` (the phase gate `S = diag(1, i)`) on `qubit`.
    pub fn left_mul_root_z(&mut self, qubit: usize)
        requires
            old(self).wf(),
            qubit < old(self).n(),
        ensures
            final(self).wf(),
            gate_applied(old(self)@, final(self)@, UnitaryOp::SqrtZ, seq![qubit]),
            one_qubit_amplitude_update(old(self)@, final(self)@, UnitaryOp::SqrtZ, qubit as int),
            one_qubit_monomial_update(old(self)@, final(self)@, UnitaryOp::SqrtZ, qubit as int),
            final(self)@.reference == old(self)@.reference,
            final(self)@.phase == (old(self)@.phase + if old(self)@.reference[qubit as int] {
                2int
            } else {
                0int
            }) % 8,
    {
        self.apply_one_qubit(qubit, UnitaryOp::SqrtZ);
    }

    /// Left-multiplies by `√Z†` (`S† = diag(1, −i)`) on `qubit`.
    pub fn left_mul_root_z_inverse(&mut self, qubit: usize)
        requires
            old(self).wf(),
            qubit < old(self).n(),
        ensures
            final(self).wf(),
            gate_applied(old(self)@, final(self)@, UnitaryOp::SqrtZInv, seq![qubit]),
            one_qubit_amplitude_update(old(self)@, final(self)@, UnitaryOp::SqrtZInv, qubit as int),
            one_qubit_monomial_update(old(self)@, final(self)@, UnitaryOp::SqrtZInv, qubit as int),
            final(self)@.reference == old(self)@.reference,
            final(self)@.phase == (old(self)@.phase + if old(self)@.reference[qubit as int] {
                6int
            } else {
                0int
            }) % 8,
    {
        self.apply_one_qubit(qubit, UnitaryOp::SqrtZInv);
    }

    /// Left-multiplies by `√X` on `qubit`.
    pub fn left_mul_root_x(&mut self, qubit: usize)
        requires
            old(self).wf(),
            qubit < old(self).n(),
        ensures
            final(self).wf(),
            gate_applied(old(self)@, final(self)@, UnitaryOp::SqrtX, seq![qubit]),
            one_qubit_amplitude_update(old(self)@, final(self)@, UnitaryOp::SqrtX, qubit as int),
    {
        self.apply_one_qubit(qubit, UnitaryOp::SqrtX);
    }

    /// Left-multiplies by `√X†` on `qubit`.
    pub fn left_mul_root_x_inverse(&mut self, qubit: usize)
        requires
            old(self).wf(),
            qubit < old(self).n(),
        ensures
            final(self).wf(),
            gate_applied(old(self)@, final(self)@, UnitaryOp::SqrtXInv, seq![qubit]),
            one_qubit_amplitude_update(old(self)@, final(self)@, UnitaryOp::SqrtXInv, qubit as int),
    {
        self.apply_one_qubit(qubit, UnitaryOp::SqrtXInv);
    }

    /// Left-multiplies by `√Y` on `qubit`.
    pub fn left_mul_root_y(&mut self, qubit: usize)
        requires
            old(self).wf(),
            qubit < old(self).n(),
        ensures
            final(self).wf(),
            gate_applied(old(self)@, final(self)@, UnitaryOp::SqrtY, seq![qubit]),
            one_qubit_amplitude_update(old(self)@, final(self)@, UnitaryOp::SqrtY, qubit as int),
    {
        self.apply_one_qubit(qubit, UnitaryOp::SqrtY);
    }

    /// Left-multiplies by `√Y†` on `qubit`.
    pub fn left_mul_root_y_inverse(&mut self, qubit: usize)
        requires
            old(self).wf(),
            qubit < old(self).n(),
        ensures
            final(self).wf(),
            gate_applied(old(self)@, final(self)@, UnitaryOp::SqrtYInv, seq![qubit]),
            one_qubit_amplitude_update(old(self)@, final(self)@, UnitaryOp::SqrtYInv, qubit as int),
    {
        self.apply_one_qubit(qubit, UnitaryOp::SqrtYInv);
    }

    /// Left-multiplies by a controlled-`X` gate with the given control and target qubits.
    pub fn left_mul_cx(&mut self, control: usize, target: usize)
        requires
            old(self).wf(),
            control < old(self).n(),
            target < old(self).n(),
            control != target,
        ensures
            final(self).wf(),
            gate_applied(old(self)@, final(self)@, UnitaryOp::ControlledX, seq![control, target]),
            two_qubit_permutation_update(old(self)@, final(self)@, UnitaryOp::ControlledX, control as int, target as int),
            reference_in_support(old(self)@.clifford, old(self)@.reference) ==> reference_in_support(
                final(self)@.clifford,
                final(self)@.reference,
            ),
    {
        self.apply_two_qubit(control, target, UnitaryOp::ControlledX);
        proof {
            let o = old(self)@;
            let f = self@;
            let c = control as int;
            let g = target as int;
            if reference_in_support(o.clifford, o.reference) {
                let inverse = two_qubit_inverse_spec(UnitaryOp::ControlledX, f.reference[c], f.reference[g]);
                let source = o.reference.update(c, inverse.0).update(g, inverse.1);
                let v = choose|v: int|
                    is_relative_phase(o.clifford, o.reference, source, v) && f.phase == (o.phase + inverse.2 + v) % 8;
                lemma_support_closed(o.clifford, o.reference, source, v);
                assert forall|h: int| 0 <= h < source.len() implies #[trigger] f.clifford.z_images[h]
                    == crate::clifford::conj_cx(c, g, o.clifford.z_images[h]) by {}
                lemma_cx_moves_support(o.clifford, f.clifford, source, c, g);
                assert(source.update(g, source[g] != source[c]) =~= f.reference) by {
                    assert forall|j: int| 0 <= j < f.reference.len() && j != c && j != g implies f.reference[j]
                        == o.reference[j] by {
                        assert(!(exists|k: int|
                            0 <= k < op_arity(UnitaryOp::ControlledX) && seq![control, target][k] == j));
                    }
                }
            }
        }
    }

    /// Left-multiplies by a controlled-`Z` gate on the two given qubits.
    pub fn left_mul_cz(&mut self, qubit_a: usize, qubit_b: usize)
        requires
            old(self).wf(),
            qubit_a < old(self).n(),
            qubit_b < old(self).n(),
            qubit_a != qubit_b,
        ensures
            final(self).wf(),
            gate_applied(old(self)@, final(self)@, UnitaryOp::ControlledZ, seq![qubit_a, qubit_b]),
            two_qubit_permutation_update(old(self)@, final(self)@, UnitaryOp::ControlledZ, qubit_a as int, qubit_b as int),
            final(self)@.reference == old(self)@.reference,
            final(self)@.phase == (old(self)@.phase + if old(self)@.reference[qubit_a as int]
                && old(self)@.reference[qubit_b as int] {
                4int
            } else {
                0int
            }) % 8,
            reference_in_support(old(self)@.clifford, old(self)@.reference) ==> reference_in_support(
                final(self)@.clifford,
                final(self)@.reference,
            ),
    {
        self.apply_two_qubit(qubit_a, qubit_b, UnitaryOp::ControlledZ);
        proof {
            let o = old(self)@;
            let f = self@;
            if reference_in_support(o.clifford, o.reference) {
                assert forall|h: int| 0 <= h < o.reference.len() implies #[trigger] f.clifford.z_images[h]
                    == crate::clifford::conj_cz(qubit_a as int, qubit_b as int, o.clifford.z_images[h]) by {}
                lemma_cz_keeps_support(o.clifford, f.clifford, o.reference, qubit_a as int, qubit_b as int);
            }
        }
    }

    /// Left-multiplies by a swap of the two given qubits.
    pub fn left_mul_swap(&mut self, qubit_a: usize, qubit_b: usize)
        requires
            old(self).wf(),
            qubit_a < old(self).n(),
            qubit_b < old(self).n(),
            qubit_a != qubit_b,
        ensures
            final(self).wf(),
            gate_applied(old(self)@, final(self)@, UnitaryOp::Swap, seq![qubit_a, qubit_b]),
            two_qubit_permutation_update(old(self)@, final(self)@, UnitaryOp::Swap, qubit_a as int, qubit_b as int),
            reference_in_support(old(self)@.clifford, old(self)@.reference) ==> reference_in_support(
                final(self)@.clifford,
                final(self)@.reference,
            ),
    {
        self.apply_two_qubit(qubit_a, qubit_b, UnitaryOp::Swap);
        proof {
            let o = old(self)@;
            let f = self@;
            let a = qubit_a as int;
            let b = qubit_b as int;
            if reference_in_support(o.clifford, o.reference) {
                let inverse = two_qubit_inverse_spec(UnitaryOp::Swap, f.reference[a], f.reference[b]);
                let source = o.reference.update(a, inverse.0).update(b, inverse.1);
                let v = choose|v: int|
                    is_relative_phase(o.clifford, o.reference, source, v) && f.phase == (o.phase + inverse.2 + v) % 8;
                lemma_support_closed(o.clifford, o.reference, source, v);
                assert forall|g: int| 0 <= g < source.len() implies #[trigger] f.clifford.z_images[g]
                    == crate::clifford::conj_swap(a, b, o.clifford.z_images[g]) by {}
                lemma_swap_moves_support(o.clifford, f.clifford, source, a, b);
                assert(swap_bits(source, a, b) =~= f.reference) by {
                    assert forall|j: int| 0 <= j < f.reference.len() && j != a && j != b implies f.reference[j]
                        == o.reference[j] by {
                        assert(!(exists|k: int| 0 <= k < op_arity(UnitaryOp::Swap) && seq![qubit_a, qubit_b][k] == j));
                    }
                }
            }
        }
    }

    /// Left-multiplies by the Bell-state preparation Clifford (Hadamard, then controlled-`X`) on
    /// the two given qubits.
    pub fn left_mul_prepare_bell(&mut self, qubit_a: usize, qubit_b: usize)
        requires
            old(self).wf(),
            qubit_a < old(self).n(),
            qubit_b < old(self).n(),
            qubit_a != qubit_b,
        ensures
            final(self).wf(),
            gate_applied(old(self)@, final(self)@, UnitaryOp::PrepareBell, seq![qubit_a, qubit_b]),
            exists|middle: PhasedCliffordSpec|
                one_qubit_amplitude_update(old(self)@, middle, UnitaryOp::Hadamard, qubit_a as int)
                    && middle.reference.len() == old(self)@.reference.len()
                    && two_qubit_permutation_update(
                    middle,
                    final(self)@,
                    UnitaryOp::ControlledX,
                    qubit_a as int,
                    qubit_b as int,
                ),
    {
        let ghost before = self@;
        self.left_mul_hadamard(qubit_a);
        let ghost middle = self@;
        self.left_mul_cx(qubit_a, qubit_b);
        proof {
            let support = seq![qubit_a, qubit_b];
            let target = tableau_map(before.clifford, |p: PauliSpec| conj_op(UnitaryOp::PrepareBell, support, p));
            assert(self@.clifford.x_images =~= target.x_images);
            assert(self@.clifford.z_images =~= target.z_images);
        }
    }

    /// Left-multiplies by the named elementary operation on `support`.
    pub fn left_mul(&mut self, unitary_op: UnitaryOp, support: &[usize])
        requires
            old(self).wf(),
            valid_support(unitary_op, support@, old(self).n()),
        ensures
            final(self).wf(),
            gate_applied(old(self)@, final(self)@, unitary_op, support@),
            is_one_qubit_gate(unitary_op) ==> one_qubit_amplitude_update(
                old(self)@,
                final(self)@,
                unitary_op,
                support@[0] as int,
            ),
            is_one_qubit_monomial(unitary_op) ==> one_qubit_monomial_update(
                old(self)@,
                final(self)@,
                unitary_op,
                support@[0] as int,
            ),
            is_two_qubit_permutation_gate(unitary_op) ==> two_qubit_permutation_update(
                old(self)@,
                final(self)@,
                unitary_op,
                support@[0] as int,
                support@[1] as int,
            ),
    {
        let ghost before = self@;
        match unitary_op {
            UnitaryOp::I => {
                proof {
                    assert(self@.clifford.x_images =~= tableau_map(before.clifford, |p: PauliSpec| conj_op(unitary_op, support@, p)).x_images);
                    assert(self@.clifford.z_images =~= tableau_map(before.clifford, |p: PauliSpec| conj_op(unitary_op, support@, p)).z_images);
                }
            },
            UnitaryOp::Swap => self.left_mul_swap(support[0], support[1]),
            UnitaryOp::ControlledX => self.left_mul_cx(support[0], support[1]),
            UnitaryOp::ControlledZ => self.left_mul_cz(support[0], support[1]),
            UnitaryOp::PrepareBell => self.left_mul_prepare_bell(support[0], support[1]),
            _ => self.apply_one_qubit(support[0], unitary_op),
        }
        proof {
            let target = tableau_map(before.clifford, |p: PauliSpec| conj_op(unitary_op, support@, p));
            assert(self@.clifford.x_images =~= target.x_images);
            assert(self@.clifford.z_images =~= target.z_images);
        }
    }

    /// Left-multiplies by the qubit permutation under which qubit `support[i]` takes the role
    /// previously played by `support[permutation[i]]`; the tracked phase is unchanged.
    pub fn left_mul_permutation(&mut self, permutation: &[usize], support: &[usize])
        requires
            old(self).wf(),
            valid_permutation(permutation@, support@, old(self).n()),
        ensures
            final(self).wf(),
            final(self)@.clifford == tableau_map(old(self)@.clifford, |p: PauliSpec| conj_permutation(permutation@, support@, p)),
            final(self)@.reference == permute_bits(permutation@, support@, old(self)@.reference),
            final(self)@.phase == old(self)@.phase,
    {
        proof {
            self.lemma_unfold();
        }
        self.clifford.left_mul_permutation(permutation, support);
        let mut bits = DensePauli { x_bits: self.reference_string.clone(), z_bits: self.reference_string.clone(), phase: 0 };
        proof {
            assert(bits@.x =~= old(self)@.reference);
            assert(bits@.z =~= old(self)@.reference);
        }
        conjugate_by_permutation(&mut bits, permutation, support);
        self.reference_string = bits.x_bits;
    }

    /// Left-multiplies by the Pauli operator `pauli = i^e X^x Z^z`, including its sign. The
    /// tableau is conjugated by `pauli`; the reference string moves to its shift by `x` (see
    /// `shifted_reference`), and the tracked amplitude there is
    /// `⟨r'|P|ψ⟩ = i^e (−1)^{⟨z, r' + x⟩} ⟨r' + x|ψ⟩`, where `r' + x` lies in the old support.
    pub fn left_mul_pauli(&mut self, pauli: &DensePauli)
        requires
            old(self).wf(),
            pauli.wf(),
            pauli@.x.len() == old(self).n(),
        ensures
            final(self).wf(),
            final(self)@.clifford == tableau_map(old(self)@.clifford, |q: PauliSpec| conj_by_pauli(pauli@, q)),
            final(self)@.reference.len() == old(self)@.reference.len(),
            crate::gf2::bit_is_zero(pauli@.x) ==> final(self)@.reference == old(self)@.reference
                && final(self)@.phase == (old(self)@.phase + 4 * b2i(bit_dot(pauli@.z, old(self)@.reference)) + 2
                * pauli@.phase) % 8,
            final(self)@.reference == shifted_reference(old(self)@.clifford, old(self)@.reference, pauli@.x),
            exists|v: int|
                is_relative_phase(
                    old(self)@.clifford,
                    old(self)@.reference,
                    bit_xor(final(self)@.reference, pauli@.x),
                    v,
                ) && final(self)@.phase == (old(self)@.phase + v + 2 * pauli@.phase + 4 * b2i(
                    bit_dot(pauli@.z, bit_xor(final(self)@.reference, pauli@.x)),
                )) % 8,
    {
        proof {
            self.lemma_unfold();
        }
        let ghost t = self@.clifford;
        let ghost r0 = self@.reference;
        let n = self.clifford.num_qubits();
        let query = self.state_amplitude_phase_query();
        let mut reference = self.reference_string.clone();
        let mut source = self.reference_string.clone();
        let ghost mut witness: Seq<bool> = bit_zeros(n as nat);
        proof {
            assert(reference@ =~= r0);
            assert(source@ =~= r0);
            crate::echelon::lemma_combination_zero(x_parts(t), n as nat, n as int);
            assert(bit_xor(source@, r0) =~= bit_zeros(n as nat));
        }
        let mut q: usize = 0;
        while q < n
            invariant
                self == old(self),
                self.wf(),
                self@.clifford == t,
                self@.reference == r0,
                t.z_images.len() == n,
                r0.len() == n,
                pauli.wf(),
                pauli@.x.len() == n,
                query.wf_for(t),
                q <= n,
                reference@ == Seq::new(
                    n as nat,
                    |j: int| r0[j] != (j < q && pauli@.x[j] && !in_x_span(t, bit_unit(n as nat, j))),
                ),
                source@ == Seq::new(
                    n as nat,
                    |j: int| r0[j] != (j < q && pauli@.x[j] && in_x_span(t, bit_unit(n as nat, j))),
                ),
                witness.len() == n,
                combination(x_parts(t), witness, n as nat) == bit_xor(source@, r0),
            decreases n - q,
        {
            if pauli.x_bits[q] {
                let mut flipped = self.reference_string.clone();
                let bit = flipped[q];
                flipped.set(q, !bit);
                proof {
                    assert(flipped@ =~= r0.update(q as int, !r0[q as int]));
                    lemma_flip_in_support(t, r0, q as int, flipped@);
                }
                match self.relative_phase_with_query(&flipped, &query) {
                    Some(_) => {
                        let ghost source_before = source@;
                        let current = source[q];
                        source.set(q, !current);
                        proof {
                            assert(in_x_span(t, bit_unit(n as nat, q as int)));
                            let c = choose|c: Seq<bool>|
                                c.len() == t.z_images.len() && combination(x_parts(t), c, t.z_images.len())
                                    == bit_unit(n as nat, q as int);
                            crate::echelon::lemma_combination_xor(x_parts(t), witness, c, n as nat);
                            assert(bit_xor(source@, r0) =~= bit_xor(
                                bit_xor(source_before, r0),
                                bit_unit(n as nat, q as int),
                            ));
                            witness = bit_xor(witness, c);
                        }
                    },
                    None => {
                        let current = reference[q];
                        reference.set(q, !current);
                    },
                }
            }
            proof {
                assert(reference@ =~= Seq::new(
                    n as nat,
                    |j: int| r0[j] != (j < q + 1 && pauli@.x[j] && !in_x_span(t, bit_unit(n as nat, j))),
                ));
                assert(source@ =~= Seq::new(
                    n as nat,
                    |j: int| r0[j] != (j < q + 1 && pauli@.x[j] && in_x_span(t, bit_unit(n as nat, j))),
                ));
            }
            q = q + 1;
        }
        proof {
            assert(is_relative_phase(t, r0, source@, relative_phase_value(t, r0, witness)));
        }
        let v = match self.relative_phase_with_query(&source, &query) {
            Some(v) => v,
            None => {
                proof {
                    assert(false);
                }
                0i64
            },
        };
        let sign = dot(&pauli.z_bits, &source);
        let old_phase = self.reference_phase_exponent;
        self.clifford.left_mul_pauli(pauli);
        self.reference_string = reference;
        let increment: i64 = if sign {
            4
        } else {
            0
        };
        self.reference_phase_exponent = normalize_exponent(old_phase as i64 + v + 2 * pauli.phase as i64 + increment);
        proof {
            assert(source@ =~= bit_xor(self@.reference, pauli@.x));
            assert(self@.reference =~= shifted_reference(t, r0, pauli@.x));
            if crate::gf2::bit_is_zero(pauli@.x) {
                assert(self@.reference =~= r0);
                assert(source@ =~= r0);
            }
        }
    }

    /// Left-multiplies by `exp(iπ/4 · pauli)`, the square root of an order-two `pauli` up to
    /// phase. The new reference string is the old one if its amplitude survives, else the old one
    /// shifted by the `X` part of `pauli`; for an order-two `pauli` one of the two always
    /// survives. For a `pauli` of order four, whose exponential is not unitary, both may vanish,
    /// and then only the tableau is updated.
    #[verifier::rlimit(40)]
    pub fn left_mul_pauli_exp(&mut self, pauli: &DensePauli)
        requires
            old(self).wf(),
            pauli.wf(),
            pauli@.x.len() == old(self).n(),
            crate::pauli::is_order_two_spec(pauli@),
        ensures
            final(self).wf(),
            final(self)@.clifford == tableau_map(old(self)@.clifford, |q: PauliSpec| conj_by_exp(pauli@, q)),
            final(self)@.reference == old(self)@.reference || final(self)@.reference == bit_xor(
                old(self)@.reference,
                pauli@.x,
            ),
            old(self).n() > 0 && crate::pauli::is_order_two_spec(pauli@) ==> pauli_exp_amplitude_update(
                old(self)@,
                final(self)@,
                pauli@,
            ),
    {
        proof {
            self.lemma_unfold();
        }
        let n = self.clifford.num_qubits();
        if n == 0 {
            proof {
                let target = tableau_map(old(self)@.clifford, |q: PauliSpec| conj_by_exp(pauli@, q));
                assert(self@.clifford.x_images =~= target.x_images);
                assert(self@.clifford.z_images =~= target.z_images);
            }
            return;
        }
        let pauli_phase = pauli.phase as i64;
        let mut shifted = self.reference_string.clone();
        proof {
            assert(shifted@ =~= self@.reference);
        }
        xor_assign(&mut shifted, &pauli.x_bits);
        // The two candidate strings are the reference and the shifted reference; each is the
        // source of the other, so their relative phases and signs are computed once.
        let relative_reference = self.relative_phase(&self.reference_string);
        let relative_shifted = self.relative_phase(&shifted);
        let sign_at_reference = dot(&pauli.z_bits, &self.reference_string);
        let sign_at_shifted = dot(&pauli.z_bits, &shifted);
        let ghost reference0 = self@.reference;
        proof {
            assert(bit_xor(shifted@, pauli@.x) =~= reference0);
            assert(relative_phase_of(self@, reference0, option_int(relative_reference)));
            assert(relative_phase_of(self@, shifted@, option_int(relative_shifted)));
            crate::decomposition::lemma_dot_xor_right(pauli@.z, reference0, pauli@.x);
            crate::decomposition::lemma_dot_symmetric(pauli@.z, pauli@.x);
        }
        let mut attempt: usize = 0;
        while attempt < 2
            invariant
                self == old(self),
                old(self).wf(),
                pauli.wf(),
                pauli@.x.len() == old(self).n(),
                crate::pauli::is_order_two_spec(pauli@),
                n == old(self).n(),
                n > 0,
                reference0 == old(self)@.reference,
                shifted@ == bit_xor(old(self)@.reference, pauli@.x),
                bit_xor(shifted@, pauli@.x) == reference0,
                0 <= pauli_phase < 4,
                pauli_phase == pauli@.phase,
                relative_reference == Some(0i64),
                relative_shifted matches Some(v) ==> 0 <= v < 8 && v % 2 == 0,
                relative_phase_of(old(self)@, reference0, option_int(relative_reference)),
                relative_phase_of(old(self)@, shifted@, option_int(relative_shifted)),
                sign_at_reference == bit_dot(pauli@.z, reference0),
                sign_at_shifted == bit_dot(pauli@.z, shifted@),
                sign_at_shifted == (sign_at_reference != bit_dot(pauli@.x, pauli@.z)),
                attempt <= 2,
                attempt > 0 ==> amplitude_exponent(
                    option_int(relative_reference),
                    exp_contribution(pauli@, option_int(relative_shifted), sign_at_shifted),
                ) is None,
                attempt > 1 ==> amplitude_exponent(
                    option_int(relative_shifted),
                    exp_contribution(pauli@, option_int(relative_reference), sign_at_reference),
                ) is None,
            decreases 2 - attempt,
        {
            let (relative_candidate, relative_source, sign_parity) = if attempt == 0 {
                (relative_reference, relative_shifted, sign_at_shifted)
            } else {
                (relative_shifted, relative_reference, sign_at_reference)
            };
            let mut terms: Vec<i64> = Vec::new();
            if let Some(relative) = relative_candidate {
                terms.push(relative);
            }
            if let Some(relative) = relative_source {
                let coefficient: i64 = 2 + 2 * pauli_phase + if sign_parity {
                    4
                } else {
                    0
                };
                terms.push(relative + coefficient);
            }
            proof {
                assert(terms_exponent(terms@) == amplitude_exponent(
                    option_int(relative_candidate),
                    exp_contribution(pauli@, option_int(relative_source), sign_parity),
                ));
            }
            if let Some(increment) = combine_zeta8_powers(terms.as_slice()) {
                let ghost before = self@;
                self.reference_phase_exponent = normalize_exponent(
                    self.reference_phase_exponent as i64 + increment as i64,
                );
                self.reference_string = if attempt == 0 {
                    self.reference_string.clone()
                } else {
                    shifted.clone()
                };
                self.clifford.left_mul_pauli_exp(pauli);
                proof {
                    if attempt == 0 {
                        assert(self@.reference =~= before.reference);
                    } else {
                        assert(self@.reference =~= shifted@);
                    }
                    assert(bit_xor(self@.reference, pauli@.x) =~= if attempt == 0 {
                        shifted@
                    } else {
                        reference0
                    });
                }
                return;
            }
            attempt = attempt + 1;
        }
        proof {
            if crate::pauli::is_order_two_spec(pauli@) {
                lemma_exp_candidate_survives(
                    pauli@,
                    option_int(relative_shifted),
                    sign_at_reference,
                    sign_at_shifted,
                );
            }
        }
        self.clifford.left_mul_pauli_exp(pauli);
    }

    /// Grows or shrinks the operator to `new_num_qubits`, tensoring with the identity on `|0⟩`
    /// ancillas.
    pub fn resize(&mut self, new_num_qubits: usize)
        requires
            old(self).wf(),
            new_num_qubits >= old(self).n() || crate::validity::splits_at(old(self)@.clifford, new_num_qubits as nat),
        ensures
            final(self).wf(),
            final(self)@.clifford == resize_tableau(old(self)@.clifford, new_num_qubits as nat),
            final(self)@.reference == resize_bits(old(self)@.reference, new_num_qubits as nat),
            final(self)@.phase == old(self)@.phase,
    {
        proof {
            self.lemma_unfold();
            if new_num_qubits < self.n() {
                crate::validity::lemma_truncate_keeps_clifford(self@.clifford, self.n(), new_num_qubits as nat);
            }
        }
        self.clifford.resize(new_num_qubits);
        self.reference_string = resize_vec(&self.reference_string, new_num_qubits);
    }

    fn relative_phase(&self, target: &Vec<bool>) -> (r: Option<i64>)
        requires
            self.wf(),
            target@.len() == self.n(),
        ensures
            r matches Some(v) ==> 0 <= v < 8 && v % 2 == 0 && is_relative_phase(
                self@.clifford,
                self@.reference,
                target@,
                v as int,
            ),
            target@ == self@.reference ==> r == Some(0i64),
            r is None ==> !(exists|v: int| is_relative_phase(self@.clifford, self@.reference, target@, v)),
    {
        let query = self.state_amplitude_phase_query();
        self.relative_phase_with_query(target, &query)
    }
}

impl StateAmplitudePhaseQuery {
    /// The query reduces the stabilizer `X` parts of the tableau `t`.
    pub closed spec fn wf_for(&self, t: CliffordSpec) -> bool {
        &&& self.x_parts_echelon.inv()
        &&& self.x_parts_echelon@.generators == x_parts(t)
        &&& self.x_parts_echelon@.width == t.z_images.len()
    }
}

impl StateAmplitudePhaseQuery {
    /// Conjugating every generator image by a Pauli operator changes only signs, so a query
    /// prepared for a tableau serves the conjugated tableau as well.
    pub proof fn lemma_survives_pauli_conjugation(&self, t: CliffordSpec, p: PauliSpec)
        requires
            self.wf_for(t),
        ensures
            self.wf_for(tableau_map(t, |q: PauliSpec| conj_by_pauli(p, q))),
    {
        let u = tableau_map(t, |q: PauliSpec| conj_by_pauli(p, q));
        assert(x_parts(u) =~= x_parts(t));
    }
}

/// A product over an all-zero selection is the starting operator.
pub proof fn lemma_product_of_zero_mask(start: PauliSpec, factors: Seq<PauliSpec>, mask: Seq<bool>, k: int)
    requires
        forall|j: int| 0 <= j < k ==> !mask[j],
    ensures
        product_prefix(start, factors, mask, k) == start,
    decreases k,
{
    if k > 0 {
        lemma_product_of_zero_mask(start, factors, mask, k - 1);
    }
}

} // verus!
