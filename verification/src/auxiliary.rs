//! Building blocks of the separation of disentangled auxiliary qubits from a phased encoder.
//!
//! The output register is validated and brought to the front, Pauli images are restricted to a
//! register, the basis-relabelling map `A` is read off the marginal encoders, and a phaseless
//! Clifford is given its canonical phased form by replaying its Pauli-exponent decomposition.
use vstd::prelude::*;
use crate::clifford::{CliffordUnitary, identity_tableau, image_spec, preimage_spec, tableau_map};
use crate::decomposition::{decompose_if_clifford, replay};
use crate::gf2::{BitMatrix, bit_unit, bit_zeros, mat_vec, mat_vec_spec, unit, zeros};
use crate::pauli::{DensePauli, PauliSpec, conj_by_pauli};
use crate::phased_clifford::{
    PhasedCliffordSpec, PhasedCliffordUnitary, StateAmplitudePhaseQuery, is_relative_phase, pauli_shift_phase,
    shifted_reference,
};
use crate::separation_phase::{SeparationPhase, pair_label, phase_from_samples};
use crate::zeta8::normalize_exponent;

verus! {

/// The reason an auxiliary-qubit separation could not be computed.
#[derive(Clone, Copy, Debug, PartialEq, Eq, Structural)]
pub enum AuxiliarySeparationError {
    /// An output-qubit index was out of range or repeated.
    InvalidOutputQubits,
    /// The auxiliary qubits are entangled with the output qubits.
    AuxiliaryQubitsEntangled,
}

/// `qubits` lists distinct qubits below `num_qubits`.
pub open spec fn distinct_qubits_below(num_qubits: nat, qubits: Seq<usize>) -> bool {
    &&& forall|k: int| 0 <= k < qubits.len() ==> (#[trigger] qubits[k]) < num_qubits
    &&& forall|i: int, j: int| 0 <= i < j < qubits.len() ==> qubits[i] != qubits[j]
}

/// `order` lists `output_qubits` first, then every other qubit below `num_qubits` in increasing
/// order.
pub open spec fn is_output_first_order(num_qubits: nat, output_qubits: Seq<usize>, order: Seq<usize>) -> bool {
    let k = output_qubits.len() as int;
    &&& order.len() >= k
    &&& order.take(k) == output_qubits
    &&& forall|i: int, j: int| k <= i < j < order.len() ==> order[i] < order[j]
    &&& forall|i: int| k <= i < order.len() ==> (#[trigger] order[i]) < num_qubits && !output_qubits.contains(order[i])
    &&& forall|q: usize|
        q < num_qubits && !output_qubits.contains(q) ==> exists|i: int| k <= i < order.len() && #[trigger] order[i] == q
}

/// The qubit order that brings the output register to the front: the output qubits as listed,
/// then the auxiliary qubits in increasing order. Rejects an output list with a repeated qubit or
/// a qubit at or beyond `num_qubits`.
pub fn output_first_order(num_qubits: usize, output_qubits: &[usize]) -> (r: Result<Vec<usize>, AuxiliarySeparationError>)
    ensures
        r is Err <==> !distinct_qubits_below(num_qubits as nat, output_qubits@),
        r matches Err(e) ==> e == AuxiliarySeparationError::InvalidOutputQubits,
        r matches Ok(order) ==> is_output_first_order(num_qubits as nat, output_qubits@, order@),
{
    let mut is_output = zeros(num_qubits);
    let mut k: usize = 0;
    while k < output_qubits.len()
        invariant
            k <= output_qubits@.len(),
            is_output@.len() == num_qubits,
            distinct_qubits_below(num_qubits as nat, output_qubits@.take(k as int)),
            forall|q: int| 0 <= q < num_qubits ==> #[trigger] is_output@[q] == output_qubits@.take(k as int).contains(q as usize),
        decreases output_qubits@.len() - k,
    {
        let qubit = output_qubits[k];
        if qubit >= num_qubits {
            return Err(AuxiliarySeparationError::InvalidOutputQubits);
        }
        if is_output[qubit] {
            proof {
                let w = choose|w: int| 0 <= w < k && #[trigger] output_qubits@.take(k as int)[w] == qubit;
                assert(output_qubits@[w] == output_qubits@[k as int]);
            }
            return Err(AuxiliarySeparationError::InvalidOutputQubits);
        }
        is_output.set(qubit, true);
        proof {
            let next = output_qubits@.take(k + 1);
            assert(next.drop_last() =~= output_qubits@.take(k as int));
            assert forall|q: int| 0 <= q < num_qubits implies #[trigger] is_output@[q] == next.contains(q as usize) by {
                if next.contains(q as usize) {
                    let w = choose|w: int| 0 <= w < k + 1 && #[trigger] next[w] == q as usize;
                    if w < k {
                        assert(output_qubits@.take(k as int)[w] == q as usize);
                    }
                }
                if output_qubits@.take(k as int).contains(q as usize) {
                    let w = choose|w: int| 0 <= w < k && #[trigger] output_qubits@.take(k as int)[w] == q as usize;
                    assert(next[w] == q as usize);
                }
                if q == qubit as int {
                    assert(next[k as int] == qubit);
                }
            }
            assert forall|i: int, j: int| 0 <= i < j < next.len() implies next[i] != next[j] by {
                if j == k {
                    assert(output_qubits@.take(k as int)[i] == next[i]);
                    assert(!output_qubits@.take(k as int).contains(qubit));
                } else {
                    assert(output_qubits@.take(k as int)[i] == next[i]);
                    assert(output_qubits@.take(k as int)[j] == next[j]);
                }
            }
            assert forall|m: int| 0 <= m < next.len() implies (#[trigger] next[m]) < num_qubits by {
                if m < k {
                    assert(output_qubits@.take(k as int)[m] == next[m]);
                }
            }
        }
        k = k + 1;
    }
    proof {
        assert(output_qubits@.take(output_qubits@.len() as int) =~= output_qubits@);
    }
    let mut order: Vec<usize> = Vec::new();
    let mut i: usize = 0;
    while i < output_qubits.len()
        invariant
            i <= output_qubits@.len(),
            order@ == output_qubits@.take(i as int),
        decreases output_qubits@.len() - i,
    {
        order.push(output_qubits[i]);
        proof {
            assert(order@ =~= output_qubits@.take(i + 1));
        }
        i = i + 1;
    }
    let ghost k_out = output_qubits@.len() as int;
    let mut q: usize = 0;
    while q < num_qubits
        invariant
            q <= num_qubits,
            is_output@.len() == num_qubits,
            forall|p: int| 0 <= p < num_qubits ==> #[trigger] is_output@[p] == output_qubits@.contains(p as usize),
            k_out == output_qubits@.len(),
            order@.len() >= k_out,
            order@.take(k_out) == output_qubits@,
            forall|a: int, b: int| k_out <= a < b < order@.len() ==> order@[a] < order@[b],
            forall|a: int| k_out <= a < order@.len() ==> (#[trigger] order@[a]) < q && !output_qubits@.contains(order@[a]),
            forall|p: usize|
                p < q && !output_qubits@.contains(p) ==> exists|a: int| k_out <= a < order@.len() && #[trigger] order@[a] == p,
        decreases num_qubits - q,
    {
        if !is_output[q] {
            let ghost before = order@;
            order.push(q);
            proof {
                assert(order@.take(k_out) =~= before.take(k_out));
                assert forall|p: usize| p < q + 1 && !output_qubits@.contains(p) implies exists|a: int|
                    k_out <= a < order@.len() && #[trigger] order@[a] == p by {
                    if p < q {
                        let a = choose|a: int| k_out <= a < before.len() && #[trigger] before[a] == p;
                        assert(order@[a] == p);
                    } else {
                        assert(order@[order@.len() - 1] == p);
                    }
                }
            }
        }
        q = q + 1;
    }
    Ok(order)
}


/// The output-first order is a permutation of the qubits: its entries are distinct, lie below
/// `num_qubits`, and every qubit below `num_qubits` occurs.
pub proof fn lemma_output_first_order_is_permutation(num_qubits: nat, output_qubits: Seq<usize>, order: Seq<usize>)
    requires
        distinct_qubits_below(num_qubits, output_qubits),
        is_output_first_order(num_qubits, output_qubits, order),
    ensures
        forall|i: int| 0 <= i < order.len() ==> (#[trigger] order[i]) < num_qubits,
        forall|i: int, j: int| 0 <= i < j < order.len() ==> order[i] != order[j],
        forall|q: usize| q < num_qubits ==> #[trigger] order.contains(q),
{
    let k = output_qubits.len() as int;
    assert forall|i: int| 0 <= i < order.len() implies (#[trigger] order[i]) < num_qubits by {
        if i < k {
            assert(order.take(k)[i] == output_qubits[i]);
        }
    }
    assert forall|i: int, j: int| 0 <= i < j < order.len() implies order[i] != order[j] by {
        if j < k {
            assert(order.take(k)[i] == output_qubits[i]);
            assert(order.take(k)[j] == output_qubits[j]);
        } else if i < k {
            assert(order.take(k)[i] == output_qubits[i]);
            assert(!output_qubits.contains(order[j]));
        }
    }
    assert forall|q: usize| q < num_qubits implies #[trigger] order.contains(q) by {
        if output_qubits.contains(q) {
            let w = choose|w: int| 0 <= w < output_qubits.len() && output_qubits[w] == q;
            assert(order.take(k)[w] == output_qubits[w]);
            assert(order[w] == q);
        } else {
            let a = choose|a: int| k <= a < order.len() && #[trigger] order[a] == q;
            assert(order[a] == q);
        }
    }
}

/// `p` restricted to `support`: qubit `i` of the result carries qubit `support[i]` of `p`, and
/// the phase is dropped.
pub open spec fn restricted_spec(p: PauliSpec, support: Seq<usize>) -> PauliSpec {
    PauliSpec {
        x: Seq::new(support.len(), |i: int| p.x[support[i] as int]),
        z: Seq::new(support.len(), |i: int| p.z[support[i] as int]),
        phase: 0,
    }
}

/// Restricts `pauli` (on `num_qubits` qubits) to the distinct qubits `support`, reindexed to
/// `support.len()` local qubits, dropping the phase.
pub fn restrict_pauli_to(pauli: &DensePauli, support: &[usize], num_qubits: usize) -> (r: DensePauli)
    requires
        pauli.wf(),
        pauli@.x.len() == num_qubits,
        distinct_qubits_below(num_qubits as nat, support@),
    ensures
        r.wf(),
        r@ == restricted_spec(pauli@, support@),
{
    let mut x_bits: Vec<bool> = Vec::new();
    let mut z_bits: Vec<bool> = Vec::new();
    let mut i: usize = 0;
    while i < support.len()
        invariant
            pauli.wf(),
            pauli@.x.len() == num_qubits,
            distinct_qubits_below(num_qubits as nat, support@),
            i <= support@.len(),
            x_bits@.len() == i,
            z_bits@.len() == i,
            forall|k: int| 0 <= k < i ==> #[trigger] x_bits@[k] == pauli@.x[support@[k] as int],
            forall|k: int| 0 <= k < i ==> #[trigger] z_bits@[k] == pauli@.z[support@[k] as int],
        decreases support@.len() - i,
    {
        let q = support[i];
        x_bits.push(pauli.x_bits[q]);
        z_bits.push(pauli.z_bits[q]);
        i = i + 1;
    }
    let r = DensePauli::from_bits(x_bits, z_bits, 0);
    proof {
        assert(r@.x =~= restricted_spec(pauli@, support@).x);
        assert(r@.z =~= restricted_spec(pauli@, support@).z);
    }
    r
}

/// Splits `matrix` into its leading `output_count` rows and the remaining rows.
pub fn split_rows(matrix: &BitMatrix, output_count: usize) -> (r: (BitMatrix, BitMatrix))
    requires
        matrix.well_formed(),
        output_count <= matrix.rows@.len(),
    ensures
        r.0.well_formed(),
        r.1.well_formed(),
        r.0.column_count == matrix.column_count,
        r.1.column_count == matrix.column_count,
        r.0@ == matrix@.take(output_count as int),
        r.1@ == matrix@.skip(output_count as int),
{
    let mut output: Vec<Vec<bool>> = Vec::new();
    let mut auxiliary: Vec<Vec<bool>> = Vec::new();
    let mut row: usize = 0;
    while row < matrix.rows.len()
        invariant
            matrix.well_formed(),
            output_count <= matrix.rows@.len(),
            row <= matrix.rows@.len(),
            output@.len() == if row < output_count {
                row as int
            } else {
                output_count as int
            },
            auxiliary@.len() == if row < output_count {
                0
            } else {
                row - output_count
            },
            forall|k: int| 0 <= k < output@.len() ==> (#[trigger] output@[k])@ == matrix@[k],
            forall|k: int| 0 <= k < auxiliary@.len() ==> (#[trigger] auxiliary@[k])@ == matrix@[k + output_count],
        decreases matrix.rows@.len() - row,
    {
        let copy = matrix.rows[row].clone();
        proof {
            assert(copy@ =~= matrix.rows@[row as int]@);
        }
        if row < output_count {
            output.push(copy);
        } else {
            auxiliary.push(copy);
        }
        row = row + 1;
    }
    let first = BitMatrix { rows: output, column_count: matrix.column_count };
    let second = BitMatrix { rows: auxiliary, column_count: matrix.column_count };
    proof {
        assert(first@ =~= matrix@.take(output_count as int));
        assert(second@ =~= matrix@.skip(output_count as int));
    }
    (first, second)
}

/// The phased Clifford with the tableau of `clifford` and its canonical global phase, fixed by
/// replaying the decomposition of `clifford` into `π/4` Pauli exponentials from the identity;
/// `None` when the decomposition does not succeed, that is when `clifford` is not the tableau of
/// a Clifford unitary.
pub fn phased_from_clifford(clifford: &CliffordUnitary) -> (r: Option<PhasedCliffordUnitary>)
    requires
        clifford.wf(),
    ensures
        r is Some <==> crate::decomposition::is_clifford_tableau(clifford@, clifford.n()),
        r matches Some(phased) ==> phased.wf() && phased@.clifford == clifford@,
{
    let exponents = match decompose_if_clifford(clifford) {
        Some(list) => list,
        None => {
            return None;
        },
    };
    let ghost list = exponents@.map_values(|p: DensePauli| p@);
    let n = clifford.num_qubits();
    let mut phased = PhasedCliffordUnitary::identity(n);
    let mut k: usize = 0;
    while k < exponents.len()
        invariant
            phased.wf(),
            phased.n() == n,
            n == clifford.n(),
            list == exponents@.map_values(|p: DensePauli| p@),
            forall|i: int| 0 <= i < exponents@.len() ==> (#[trigger] exponents@[i]).wf() && exponents@[i]@.x.len() == n
                && crate::pauli::is_order_two_spec(exponents@[i]@),
            k <= exponents@.len(),
            phased@.clifford == replay(identity_tableau(n as nat), list.take(k as int)),
        decreases exponents@.len() - k,
    {
        let ghost before = phased@.clifford;
        phased.left_mul_pauli_exp(&exponents[k]);
        proof {
            assert(list.take(k + 1).drop_last() =~= list.take(k as int));
            assert(list.take(k + 1).last() == exponents@[k as int]@);
        }
        k = k + 1;
    }
    proof {
        assert(list.take(exponents@.len() as int) =~= list);
    }
    Some(phased)
}

/// The image `C X^bits C†` of the basis-state shift `X^bits` under the tableau `t`.
pub open spec fn basis_shift_image(t: crate::clifford::CliffordSpec, bits: Seq<bool>) -> PauliSpec {
    image_spec(t, PauliSpec { x: bits, z: bit_zeros(bits.len()), phase: 0 })
}

/// The tableau of `C · X^bits`: that of `C` left-multiplied by `C X^bits C†`.
pub open spec fn basis_shift_tableau(t: crate::clifford::CliffordSpec, bits: Seq<bool>) -> crate::clifford::CliffordSpec {
    tableau_map(t, |q: PauliSpec| conj_by_pauli(basis_shift_image(t, bits), q))
}

/// The tracked phase after left-multiplying `s` by the Pauli `p` without an `X` part: the sign
/// `(−1)^{⟨z, r⟩}` at the reference string `r` and the factor `i^{2e} = (−1)^e` of `p = i^e Z^z`
/// enter the `ζ₈` exponent.
pub open spec fn diagonal_pauli_phase(s: crate::phased_clifford::PhasedCliffordSpec, p: PauliSpec) -> int {
    (s.phase + 4 * crate::pauli::b2i(crate::gf2::bit_dot(p.z, s.reference)) + 2 * p.phase) % 8
}

/// The basis-state encoder `clifford · X^bits`: the tableau of `clifford` left-multiplied by the
/// image `clifford X^bits clifford†`. The reference string moves as the shift dictates (see
/// `shifted_reference`); when the image has no `X` part, it stays and the phase picks up the
/// image's sign there.
pub fn encoded_basis_state(clifford: &PhasedCliffordUnitary, bits: &Vec<bool>) -> (r: PhasedCliffordUnitary)
    requires
        clifford.wf(),
        bits@.len() == clifford.n(),
    ensures
        r.wf(),
        r@.clifford == basis_shift_tableau(clifford@.clifford, bits@),
        r@.reference == crate::phased_clifford::shifted_reference(
            clifford@.clifford,
            clifford@.reference,
            basis_shift_image(clifford@.clifford, bits@).x,
        ),
        crate::phased_clifford::pauli_shift_phase(clifford@, basis_shift_image(clifford@.clifford, bits@), r@.phase),
        crate::gf2::bit_is_zero(basis_shift_image(clifford@.clifford, bits@).x) ==> r@.reference == clifford@.reference
            && r@.phase == diagonal_pauli_phase(clifford@, basis_shift_image(clifford@.clifford, bits@)),
{
    let n = clifford.num_qubits();
    let pauli = DensePauli::from_bits(bits.clone(), zeros(n), 0);
    proof {
        assert(pauli@ == PauliSpec { x: bits@, z: bit_zeros(bits@.len()), phase: 0 });
    }
    let image = clifford.clifford().image(&pauli);
    let mut state = clifford.duplicate();
    state.left_mul_pauli(&image);
    state
}

/// Column `column` of the basis-relabelling map: the `X` bits of the preimage under
/// `output_encoder` of `C X_column C†` restricted to `output`, followed by those of the preimage
/// under `auxiliary_encoder` of its restriction to `auxiliary`.
pub open spec fn basis_label_column(
    clifford: crate::clifford::CliffordSpec,
    output_encoder: crate::clifford::CliffordSpec,
    auxiliary_encoder: crate::clifford::CliffordSpec,
    output: Seq<usize>,
    auxiliary: Seq<usize>,
    column: int,
) -> Seq<bool> {
    preimage_spec(output_encoder, restricted_spec(clifford.x_images[column], output)).x + preimage_spec(
        auxiliary_encoder,
        restricted_spec(clifford.x_images[column], auxiliary),
    ).x
}

/// The basis-relabelling map `A`: column `j` stacks the `X` bits of the marginal preimages of the
/// restrictions of `C X_j C†` to the output and auxiliary registers.
pub fn basis_label_map(
    clifford: &CliffordUnitary,
    output_encoder: &CliffordUnitary,
    auxiliary_encoder: &CliffordUnitary,
    output: &[usize],
    auxiliary: &[usize],
) -> (r: BitMatrix)
    requires
        clifford.wf(),
        output_encoder.wf(),
        auxiliary_encoder.wf(),
        output_encoder.n() == output@.len(),
        auxiliary_encoder.n() == auxiliary@.len(),
        output@.len() + auxiliary@.len() == clifford.n(),
        distinct_qubits_below(clifford.n(), output@),
        distinct_qubits_below(clifford.n(), auxiliary@),
    ensures
        r.well_formed(),
        r.rows@.len() == clifford.n(),
        r.column_count == clifford.n(),
        forall|b: int, j: int|
            0 <= b < clifford.n() && 0 <= j < clifford.n() ==> #[trigger] r@[b][j] == basis_label_column(
                clifford@,
                output_encoder@,
                auxiliary_encoder@,
                output@,
                auxiliary@,
                j,
            )[b],
{
    let n = clifford.num_qubits();
    let mut matrix = BitMatrix::zeros(n, n);
    let mut column: usize = 0;
    while column < n
        invariant
            clifford.wf(),
            output_encoder.wf(),
            auxiliary_encoder.wf(),
            n == clifford.n(),
            output_encoder.n() == output@.len(),
            auxiliary_encoder.n() == auxiliary@.len(),
            output@.len() + auxiliary@.len() == n,
            distinct_qubits_below(n as nat, output@),
            distinct_qubits_below(n as nat, auxiliary@),
            column <= n,
            matrix.well_formed(),
            matrix.rows@.len() == n,
            matrix.column_count == n,
            forall|b: int, j: int|
                0 <= b < n && 0 <= j < n ==> #[trigger] matrix@[b][j] == if j < column {
                    basis_label_column(clifford@, output_encoder@, auxiliary_encoder@, output@, auxiliary@, j)[b]
                } else {
                    false
                },
        decreases n - column,
    {
        let image = clifford.image_x(column);
        let output_part = restrict_pauli_to(&image, output, n);
        let auxiliary_part = restrict_pauli_to(&image, auxiliary, n);
        let output_preimage = output_encoder.preimage(&output_part);
        let auxiliary_preimage = auxiliary_encoder.preimage(&auxiliary_part);
        let ghost stacked = output_preimage@.x + auxiliary_preimage@.x;
        let ghost before = matrix@;
        let mut b: usize = 0;
        while b < n
            invariant
                n == clifford.n(),
                column < n,
                output_preimage@.x.len() == output@.len(),
                auxiliary_preimage@.x.len() == auxiliary@.len(),
                output@.len() + auxiliary@.len() == n,
                stacked == output_preimage@.x + auxiliary_preimage@.x,
                b <= n,
                matrix.well_formed(),
                matrix.rows@.len() == n,
                matrix.column_count == n,
                forall|bb: int, j: int|
                    0 <= bb < n && 0 <= j < n ==> #[trigger] matrix@[bb][j] == if j == column && bb < b {
                        stacked[bb]
                    } else {
                        before[bb][j]
                    },
            decreases n - b,
        {
            let bit = if b < output_preimage.x_bits.len() {
                output_preimage.x_bits[b]
            } else {
                auxiliary_preimage.x_bits[b - output_preimage.x_bits.len()]
            };
            matrix.set(b, column, bit);
            b = b + 1;
        }
        proof {
            assert(stacked == basis_label_column(
                clifford@,
                output_encoder@,
                auxiliary_encoder@,
                output@,
                auxiliary@,
                column as int,
            ));
        }
        column = column + 1;
    }
    matrix
}

/// The representative at which the separation phase at `label` is read: the shifted reference
/// string of the encoded basis state `encoder|label⟩`.
pub open spec fn separation_representative(encoder: PhasedCliffordSpec, label: Seq<bool>) -> Seq<bool> {
    shifted_reference(encoder.clifford, encoder.reference, basis_shift_image(encoder.clifford, label).x)
}

/// `blocks|A label⟩` has an amplitude at the representative of `encoder|label⟩`.
pub open spec fn separation_defined(
    encoder: PhasedCliffordSpec,
    blocks: PhasedCliffordSpec,
    basis_map: Seq<Seq<bool>>,
    label: Seq<bool>,
) -> bool {
    let block_labels = mat_vec_spec(basis_map, label);
    let block_reference = shifted_reference(
        blocks.clifford,
        blocks.reference,
        basis_shift_image(blocks.clifford, block_labels).x,
    );
    exists|v: int|
        is_relative_phase(
            basis_shift_tableau(blocks.clifford, block_labels),
            block_reference,
            separation_representative(encoder, label),
            v,
        )
}

/// `d` is the separation phase at `label`: the `ζ₈` exponent of the amplitude of
/// `encoder|label⟩` at its representative minus that of `blocks|A label⟩` there, modulo 8.
pub open spec fn separation_value(
    encoder: PhasedCliffordSpec,
    blocks: PhasedCliffordSpec,
    basis_map: Seq<Seq<bool>>,
    label: Seq<bool>,
    d: int,
) -> bool {
    let block_labels = mat_vec_spec(basis_map, label);
    let block_reference = shifted_reference(
        blocks.clifford,
        blocks.reference,
        basis_shift_image(blocks.clifford, block_labels).x,
    );
    exists|encoder_phase: int, block_phase: int, v: int|
        {
            &&& pauli_shift_phase(encoder, basis_shift_image(encoder.clifford, label), encoder_phase)
            &&& pauli_shift_phase(blocks, basis_shift_image(blocks.clifford, block_labels), block_phase)
            &&& is_relative_phase(
                basis_shift_tableau(blocks.clifford, block_labels),
                block_reference,
                separation_representative(encoder, label),
                v,
            )
            &&& d == (encoder_phase - (block_phase + v) % 8) % 8
        }
}

/// The separation phase `φ(r)` at the single label `r`: the `ζ₈` exponent relating the encoded
/// basis state `encoder|r⟩` to `blocks|A r⟩`, both read at the support representative of the
/// former. `None` when `blocks|A r⟩` has no amplitude there, so that the two states do not agree
/// up to a global phase; both representatives are the shifted reference strings. Where neither
/// shift image has an `X` part (at the origin, for one), the representative is the reference
/// string of `encoder` and the value is stated too.
pub fn separation_phase_at(
    encoder: &PhasedCliffordUnitary,
    encoder_phase_query: &StateAmplitudePhaseQuery,
    blocks: &PhasedCliffordUnitary,
    blocks_phase_query: &StateAmplitudePhaseQuery,
    basis_map: &BitMatrix,
    label: &Vec<bool>,
) -> (r: Option<u8>)
    requires
        encoder.wf(),
        blocks.wf(),
        blocks.n() == encoder.n(),
        encoder_phase_query.wf_for(encoder@.clifford),
        blocks_phase_query.wf_for(blocks@.clifford),
        basis_map.well_formed(),
        basis_map.rows@.len() == blocks.n(),
        basis_map.column_count == encoder.n(),
        label@.len() == encoder.n(),
    ensures
        r matches Some(d) ==> d < 8 && separation_value(encoder@, blocks@, basis_map@, label@, d as int),
        r is None <==> !separation_defined(encoder@, blocks@, basis_map@, label@),
        ({
            let encoder_image = basis_shift_image(encoder@.clifford, label@);
            let block_labels = crate::gf2::mat_vec_spec(basis_map@, label@);
            let block_image = basis_shift_image(blocks@.clifford, block_labels);
            let block_tableau = basis_shift_tableau(blocks@.clifford, block_labels);
            crate::gf2::bit_is_zero(encoder_image.x) && crate::gf2::bit_is_zero(block_image.x) ==> {
                &&& r is None <==> !(exists|v: int|
                    crate::phased_clifford::is_relative_phase(block_tableau, blocks@.reference, encoder@.reference, v))
                &&& r matches Some(d) ==> exists|v: int|
                    crate::phased_clifford::is_relative_phase(block_tableau, blocks@.reference, encoder@.reference, v)
                        && d as int == (diagonal_pauli_phase(encoder@, encoder_image) - (diagonal_pauli_phase(
                        blocks@,
                        block_image,
                    ) + v) % 8) % 8
            }
        }),
{
    let encoder_state = encoded_basis_state(encoder, label);
    let block_labels = mat_vec(basis_map, label);
    let block_state = encoded_basis_state(blocks, &block_labels);
    let representative = encoder_state.support_representative();
    proof {
        encoder_phase_query.lemma_survives_pauli_conjugation(
            encoder@.clifford,
            image_spec(encoder@.clifford, PauliSpec { x: label@, z: bit_zeros(label@.len()), phase: 0 }),
        );
        blocks_phase_query.lemma_survives_pauli_conjugation(
            blocks@.clifford,
            image_spec(
                blocks@.clifford,
                PauliSpec { x: block_labels@, z: bit_zeros(block_labels@.len()), phase: 0 },
            ),
        );
    }
    let encoder_phase = match encoder_state.state_amplitude_phase_exponent_with_query(
        &representative,
        encoder_phase_query,
    ) {
        Some(e) => e,
        None => {
            return None;
        },
    };
    proof {
        assert(encoder_phase as int == encoder_state@.phase);
        assert(representative@ == separation_representative(encoder@, label@));
        assert(block_labels@ == mat_vec_spec(basis_map@, label@));
    }
    let block_phase = match block_state.state_amplitude_phase_exponent_with_query(
        &representative,
        blocks_phase_query,
    ) {
        Some(e) => e,
        None => {
            return None;
        },
    };
    let r = normalize_exponent(encoder_phase as i64 - block_phase as i64);
    proof {
        let v = choose|v: int|
            is_relative_phase(block_state@.clifford, block_state@.reference, representative@, v) && block_phase == (
            block_state@.phase + v) % 8;
        let block_images = basis_shift_image(blocks@.clifford, block_labels@);
        assert(pauli_shift_phase(blocks@, block_images, block_state@.phase));
        assert(pauli_shift_phase(encoder@, basis_shift_image(encoder@.clifford, label@), encoder_state@.phase));
        assert(separation_defined(encoder@, blocks@, basis_map@, label@));
        assert(r as int == (encoder_state@.phase - (block_state@.phase + v) % 8) % 8);
    }
    Some(r)
}

/// The slot `i · n + j` of a pair visited before `(first, second)` is already filled.
proof fn lemma_pair_slot_before(i: int, j: int, n: int, first: int, second: int)
    requires
        0 <= i,
        0 <= j < n,
        0 <= second <= n,
        i < first || (i == first && j < second),
    ensures
        0 <= i * n + j < first * n + second,
{
    assert(0 <= i * n + j < first * n + second) by (nonlinear_arith)
        requires
            0 <= i,
            0 <= j < n,
            0 <= second <= n,
            i < first || (i == first && j < second),
    ;
}

/// The separation phase is defined at every label that interpolation samples: `0`, the unit
/// labels `e_i` and the pairs `e_i + e_j` for `i < j < n`.
pub open spec fn samples_defined(
    encoder: PhasedCliffordSpec,
    blocks: PhasedCliffordSpec,
    basis_map: Seq<Seq<bool>>,
    n: nat,
) -> bool {
    &&& separation_defined(encoder, blocks, basis_map, bit_zeros(n))
    &&& forall|i: int| 0 <= i < n ==> #[trigger] separation_defined(encoder, blocks, basis_map, bit_unit(n, i))
    &&& forall|i: int, j: int|
        0 <= i < j < n ==> #[trigger] separation_defined(encoder, blocks, basis_map, pair_label(n, i, j))
}

/// Interpolates the degree-at-most-two separation phase polynomial from its values at `0`, at the
/// unit labels `e_i` and at the pairs `e_i + e_j` (`i < j`), each obtained by
/// [`separation_phase_at`]. Fails with [`AuxiliarySeparationError::AuxiliaryQubitsEntangled`]
/// exactly when one of these values does not exist; otherwise the polynomial takes each of them.
pub fn interpolate_phase(
    encoder: &PhasedCliffordUnitary,
    blocks: &PhasedCliffordUnitary,
    basis_map: &BitMatrix,
    num_qubits: usize,
) -> (r: Result<SeparationPhase, AuxiliarySeparationError>)
    requires
        encoder.wf(),
        blocks.wf(),
        encoder.n() == num_qubits,
        blocks.n() == num_qubits,
        basis_map.well_formed(),
        basis_map.rows@.len() == num_qubits,
        basis_map.column_count == num_qubits,
        num_qubits * num_qubits <= usize::MAX,
    ensures
        r is Err <==> !samples_defined(encoder@, blocks@, basis_map@, num_qubits as nat),
        r matches Err(e) ==> e == AuxiliarySeparationError::AuxiliaryQubitsEntangled,
        r matches Ok(phase) ==> ({
            let n = num_qubits as nat;
            &&& phase.well_formed()
            &&& phase@.linear.len() == n
            &&& separation_value(encoder@, blocks@, basis_map@, bit_zeros(n), phase.value_at(bit_zeros(n)) % 8)
            &&& forall|i: int|
                0 <= i < n ==> #[trigger] separation_value(
                    encoder@,
                    blocks@,
                    basis_map@,
                    bit_unit(n, i),
                    phase.value_at(bit_unit(n, i)) % 8,
                )
            &&& forall|i: int, j: int|
                0 <= i < j < n ==> #[trigger] separation_value(
                    encoder@,
                    blocks@,
                    basis_map@,
                    pair_label(n, i, j),
                    phase.value_at(pair_label(n, i, j)) % 8,
                )
        }),
{
    let n = num_qubits;
    let ghost e = encoder@;
    let ghost b = blocks@;
    let ghost m = basis_map@;
    let encoder_phase_query = encoder.state_amplitude_phase_query();
    let blocks_phase_query = blocks.state_amplitude_phase_query();
    let origin = zeros(n);
    let constant = match separation_phase_at(
        encoder,
        &encoder_phase_query,
        blocks,
        &blocks_phase_query,
        basis_map,
        &origin,
    ) {
        Some(v) => v,
        None => {
            return Err(AuxiliarySeparationError::AuxiliaryQubitsEntangled);
        },
    };
    let mut unit_values: Vec<u8> = Vec::new();
    let mut index: usize = 0;
    while index < n
        invariant
            encoder.wf(),
            blocks.wf(),
            encoder.n() == n,
            blocks.n() == n,
            e == encoder@,
            b == blocks@,
            m == basis_map@,
            encoder_phase_query.wf_for(encoder@.clifford),
            blocks_phase_query.wf_for(blocks@.clifford),
            basis_map.well_formed(),
            basis_map.rows@.len() == n,
            basis_map.column_count == n,
            n == num_qubits,
            index <= n,
            unit_values@.len() == index,
            forall|k: int| 0 <= k < index ==> #[trigger] unit_values@[k] < 8,
            forall|k: int|
                0 <= k < index ==> #[trigger] separation_defined(e, b, m, bit_unit(n as nat, k)) && separation_value(
                    e,
                    b,
                    m,
                    bit_unit(n as nat, k),
                    unit_values@[k] as int,
                ),
        decreases n - index,
    {
        let label = unit(n, index);
        match separation_phase_at(encoder, &encoder_phase_query, blocks, &blocks_phase_query, basis_map, &label) {
            Some(v) => {
                proof {
                    assert(label@ == bit_unit(n as nat, index as int));
                    assert(separation_defined(e, b, m, label@));
                    assert(separation_value(e, b, m, label@, v as int));
                }
                let ghost before = unit_values@;
                unit_values.push(v);
                proof {
                    assert forall|k: int| 0 <= k < index + 1 implies #[trigger] separation_defined(
                        e,
                        b,
                        m,
                        bit_unit(n as nat, k),
                    ) && separation_value(e, b, m, bit_unit(n as nat, k), unit_values@[k] as int) by {
                        if k < index {
                            assert(unit_values@[k] == before[k]);
                        } else {
                            assert(k == index);
                            assert(unit_values@[k] == v);
                        }
                    }
                }
            },
            None => {
                proof {
                    assert(!separation_defined(e, b, m, bit_unit(n as nat, index as int)));
                }
                return Err(AuxiliarySeparationError::AuxiliaryQubitsEntangled);
            },
        }
        index = index + 1;
    }
    let mut pair_values: Vec<u8> = Vec::new();
    let mut first: usize = 0;
    while first < n
        invariant
            encoder.wf(),
            blocks.wf(),
            encoder.n() == n,
            blocks.n() == n,
            e == encoder@,
            b == blocks@,
            m == basis_map@,
            encoder_phase_query.wf_for(encoder@.clifford),
            blocks_phase_query.wf_for(blocks@.clifford),
            basis_map.well_formed(),
            basis_map.rows@.len() == n,
            basis_map.column_count == n,
            n * n <= usize::MAX,
            n == num_qubits,
            first <= n,
            pair_values@.len() == first * n,
            forall|k: int| 0 <= k < pair_values@.len() ==> #[trigger] pair_values@[k] < 8,
            forall|i: int, j: int|
                0 <= i < j < n && i < first ==> #[trigger] separation_defined(e, b, m, pair_label(n as nat, i, j))
                    && separation_value(e, b, m, pair_label(n as nat, i, j), pair_values@[i * n + j] as int),
        decreases n - first,
    {
        let mut second: usize = 0;
        proof {
            assert forall|i: int, j: int| 0 <= i < j < n && (i < first || (i == first && j < 0)) implies #[trigger] separation_defined(
                e,
                b,
                m,
                pair_label(n as nat, i, j),
            ) && separation_value(e, b, m, pair_label(n as nat, i, j), pair_values@[i * n + j] as int) by {
                lemma_pair_slot_before(i, j, n as int, first as int, 0);
            }
        }
        while second < n
            invariant
                encoder.wf(),
                blocks.wf(),
                encoder.n() == n,
                blocks.n() == n,
                e == encoder@,
                b == blocks@,
                m == basis_map@,
                encoder_phase_query.wf_for(encoder@.clifford),
                blocks_phase_query.wf_for(blocks@.clifford),
                basis_map.well_formed(),
                basis_map.rows@.len() == n,
                basis_map.column_count == n,
                n * n <= usize::MAX,
                n == num_qubits,
                first < n,
                second <= n,
                pair_values@.len() == first * n + second,
                forall|k: int| 0 <= k < pair_values@.len() ==> #[trigger] pair_values@[k] < 8,
                forall|i: int, j: int|
                    0 <= i < j < n && (i < first || (i == first && j < second)) ==> #[trigger] separation_defined(
                        e,
                        b,
                        m,
                        pair_label(n as nat, i, j),
                    ) && separation_value(e, b, m, pair_label(n as nat, i, j), pair_values@[i * n + j] as int),
            decreases n - second,
        {
            let ghost before = pair_values@;
            proof {
                assert(first * n + second < n * n) by (nonlinear_arith)
                    requires
                        first < n,
                        second < n,
                ;
            }
            if first < second {
                let mut label = unit(n, first);
                label.set(second, true);
                proof {
                    assert(label@ =~= pair_label(n as nat, first as int, second as int));
                }
                match separation_phase_at(
                    encoder,
                    &encoder_phase_query,
                    blocks,
                    &blocks_phase_query,
                    basis_map,
                    &label,
                ) {
                    Some(v) => {
                        proof {
                            assert(separation_defined(e, b, m, label@));
                            assert(separation_value(e, b, m, label@, v as int));
                        }
                        pair_values.push(v);
                    },
                    None => {
                        proof {
                            assert(!separation_defined(e, b, m, pair_label(n as nat, first as int, second as int)));
                        }
                        return Err(AuxiliarySeparationError::AuxiliaryQubitsEntangled);
                    },
                }
            } else {
                pair_values.push(0);
            }
            proof {
                assert forall|i: int, j: int|
                    0 <= i < j < n && (i < first || (i == first && j < second + 1)) implies #[trigger] separation_defined(
                        e,
                        b,
                        m,
                        pair_label(n as nat, i, j),
                    ) && separation_value(e, b, m, pair_label(n as nat, i, j), pair_values@[i * n + j] as int) by {
                    if i < first || j < second {
                        lemma_pair_slot_before(i, j, n as int, first as int, second as int);
                        assert(pair_values@[i * n + j] == before[i * n + j]);
                    } else {
                        assert(i == first && j == second);
                        assert(pair_values@[i * n + j] == pair_values@[before.len() as int]);
                    }
                }
            }
            second = second + 1;
        }
        proof {
            assert(first * n + n == (first + 1) * n) by (nonlinear_arith);
            assert forall|i: int, j: int| 0 <= i < j < n && i < first + 1 implies #[trigger] separation_defined(
                e,
                b,
                m,
                pair_label(n as nat, i, j),
            ) && separation_value(e, b, m, pair_label(n as nat, i, j), pair_values@[i * n + j] as int) by {
                assert(i < first || (i == first && j < n));
            }
        }
        first = first + 1;
    }
    let phase = phase_from_samples(constant, &unit_values, &pair_values);
    proof {
        let nn = n as nat;
        assert forall|i: int| 0 <= i < nn implies #[trigger] separation_value(
            e,
            b,
            m,
            bit_unit(nn, i),
            phase.value_at(bit_unit(nn, i)) % 8,
        ) by {
            assert(separation_defined(e, b, m, bit_unit(nn, i)));
        }
        assert forall|i: int, j: int| 0 <= i < j < nn implies #[trigger] separation_value(
            e,
            b,
            m,
            pair_label(nn, i, j),
            phase.value_at(pair_label(nn, i, j)) % 8,
        ) by {
            assert(separation_defined(e, b, m, pair_label(nn, i, j)));
        }
        assert forall|i: int| 0 <= i < nn implies #[trigger] separation_defined(e, b, m, bit_unit(nn, i)) by {
            assert(separation_defined(e, b, m, bit_unit(nn, i)) && separation_value(
                e,
                b,
                m,
                bit_unit(nn, i),
                unit_values@[i] as int,
            ));
        }
        assert forall|i: int, j: int| 0 <= i < j < nn implies #[trigger] separation_defined(
            e,
            b,
            m,
            pair_label(nn, i, j),
        ) by {
            assert(separation_defined(e, b, m, pair_label(nn, i, j)) && separation_value(
                e,
                b,
                m,
                pair_label(nn, i, j),
                pair_values@[i * n + j] as int,
            ));
        }
    }
    Ok(phase)
}

/// The interpolated separation phase `phase` takes, at every label that interpolation samples
/// (`0`, the unit labels and the pairs of unit labels), the separation value of `encoder` against
/// `blocks` under `basis_map`.
pub open spec fn samples_interpolated(
    phase: SeparationPhase,
    encoder: PhasedCliffordSpec,
    blocks: PhasedCliffordSpec,
    basis_map: Seq<Seq<bool>>,
    n: nat,
) -> bool {
    &&& phase.well_formed()
    &&& phase@.linear.len() == n
    &&& separation_value(encoder, blocks, basis_map, bit_zeros(n), phase.value_at(bit_zeros(n)) % 8)
    &&& forall|i: int|
        0 <= i < n ==> #[trigger] separation_value(encoder, blocks, basis_map, bit_unit(n, i), phase.value_at(
            bit_unit(n, i),
        ) % 8)
    &&& forall|i: int, j: int|
        0 <= i < j < n ==> #[trigger] separation_value(
            encoder,
            blocks,
            basis_map,
            pair_label(n, i, j),
            phase.value_at(pair_label(n, i, j)) % 8,
        )
}

/// The qubits `0, 1, …, n - 1`.
pub open spec fn all_qubits(n: nat) -> Seq<usize> {
    Seq::new(n, |i: int| i as usize)
}

/// The qubits `from, …, to - 1`.
pub open spec fn qubit_range(from: nat, to: nat) -> Seq<usize> {
    Seq::new((to - from) as nat, |i: int| (from + i) as usize)
}

/// `encoder` with its qubits reordered by `order`: qubit `i` takes the role of qubit `order[i]`.
pub open spec fn reordered(encoder: PhasedCliffordSpec, order: Seq<usize>) -> PhasedCliffordSpec {
    let n = encoder.clifford.x_images.len();
    PhasedCliffordSpec {
        clifford: tableau_map(
            encoder.clifford,
            |p: PauliSpec| crate::clifford::conj_permutation(order, all_qubits(n), p),
        ),
        reference: crate::clifford::permute_bits(order, all_qubits(n), encoder.reference),
        phase: encoder.phase,
    }
}

/// The basis-relabelling matrix `A` read off the marginal encoders, as a matrix of rows.
pub open spec fn basis_label_matrix(
    clifford: crate::clifford::CliffordSpec,
    output_encoder: crate::clifford::CliffordSpec,
    auxiliary_encoder: crate::clifford::CliffordSpec,
    output: Seq<usize>,
    auxiliary: Seq<usize>,
    n: nat,
) -> Seq<Seq<bool>> {
    Seq::new(
        n,
        |b: int| Seq::new(n, |j: int| basis_label_column(clifford, output_encoder, auxiliary_encoder, output, auxiliary, j)[b]),
    )
}

/// The result of separating the auxiliary qubits of a phased encoder: the output and auxiliary
/// encoders `Co₁`, `Co₂`, the basis-relabelling maps `A₁`, `A₂` and the separation phase `φ`,
/// with `Co|r⟩ = ζ₈^{φ(r)} (Co₁|A₁r⟩ ⊗ Co₂|A₂r⟩)`.
pub struct AuxiliarySeparation {
    pub output_encoder: CliffordUnitary,
    pub auxiliary_encoder: CliffordUnitary,
    pub output_basis_map: BitMatrix,
    pub auxiliary_basis_map: BitMatrix,
    pub phase: SeparationPhase,
}

impl AuxiliarySeparation {
    /// The output-qubit encoder `Co₁`, on the output qubits in the order given.
    pub fn output_encoder(&self) -> (r: &CliffordUnitary)
        ensures
            r == &self.output_encoder,
    {
        &self.output_encoder
    }

    /// The auxiliary-qubit encoder `Co₂`, on the auxiliary qubits in increasing order.
    pub fn auxiliary_encoder(&self) -> (r: &CliffordUnitary)
        ensures
            r == &self.auxiliary_encoder,
    {
        &self.auxiliary_encoder
    }

    /// The basis-relabelling map `A₁`.
    pub fn output_basis_map(&self) -> (r: &BitMatrix)
        ensures
            r == &self.output_basis_map,
    {
        &self.output_basis_map
    }

    /// The basis-relabelling map `A₂`.
    pub fn auxiliary_basis_map(&self) -> (r: &BitMatrix)
        ensures
            r == &self.auxiliary_basis_map,
    {
        &self.auxiliary_basis_map
    }

    /// The separation phase polynomial `φ`.
    pub fn phase(&self) -> (r: &SeparationPhase)
        ensures
            r == &self.phase,
    {
        &self.phase
    }

    /// `self` separates `encoder` (with output qubits `output_qubits`) into the marginal encoders
    /// `output_encoder` and `auxiliary_encoder`, with the output-first qubit order `order` and the
    /// phased form `blocks` of the tensor product of the marginals: its encoders are the
    /// marginals, its basis maps are the output and auxiliary rows of the relabelling matrix of
    /// the encoder reordered output first, and its phase interpolates the separation values of
    /// that reordered encoder against `blocks`.
    pub open spec fn separates_with(
        &self,
        encoder: PhasedCliffordSpec,
        output_qubits: Seq<usize>,
        output_encoder: crate::clifford::CliffordSpec,
        auxiliary_encoder: crate::clifford::CliffordSpec,
        order: Seq<usize>,
        blocks: PhasedCliffordSpec,
    ) -> bool {
        let n = encoder.clifford.x_images.len();
        let k = output_qubits.len();
        let ordered = reordered(encoder, order);
        let matrix = basis_label_matrix(
            ordered.clifford,
            output_encoder,
            auxiliary_encoder,
            qubit_range(0, k),
            qubit_range(k, n),
            n,
        );
        &&& is_output_first_order(n, output_qubits, order)
        &&& blocks.clifford == crate::clifford::tensor_spec(output_encoder, auxiliary_encoder)
        &&& self.output_encoder@ == output_encoder
        &&& self.auxiliary_encoder@ == auxiliary_encoder
        &&& self.output_basis_map@ == matrix.take(k as int)
        &&& self.auxiliary_basis_map@ == matrix.skip(k as int)
        &&& samples_interpolated(self.phase, ordered, blocks, matrix, n)
    }

    /// `self` separates `encoder` for some output-first order and some phased form of the tensor
    /// product of the marginals (see [`Self::separates_with`]).
    pub open spec fn separates(
        &self,
        encoder: PhasedCliffordSpec,
        output_qubits: Seq<usize>,
        output_encoder: crate::clifford::CliffordSpec,
        auxiliary_encoder: crate::clifford::CliffordSpec,
    ) -> bool {
        exists|order: Seq<usize>, blocks: PhasedCliffordSpec|
            #[trigger] self.separates_with(encoder, output_qubits, output_encoder, auxiliary_encoder, order, blocks)
    }
}

/// Builds the list `from, …, to - 1`.
fn range_vec(from: usize, to: usize) -> (r: Vec<usize>)
    requires
        from <= to,
    ensures
        r@ == qubit_range(from as nat, to as nat),
{
    let mut r: Vec<usize> = Vec::new();
    let mut i = from;
    while i < to
        invariant
            from <= i <= to,
            r@ == qubit_range(from as nat, i as nat),
        decreases to - i,
    {
        r.push(i);
        proof {
            assert(r@ =~= qubit_range(from as nat, (i + 1) as nat));
        }
        i = i + 1;
    }
    r
}

/// Separates the auxiliary qubits of the phased encoder `encoder` given the marginal encoders
/// `output_encoder` (of the output qubits, in the order listed) and `auxiliary_encoder` (of the
/// other qubits, in increasing order). The encoder is reordered output first, the relabelling
/// map is read off the marginals, and the separation phase is interpolated against the canonical
/// phased form of their tensor product. Fails with
/// [`AuxiliarySeparationError::InvalidOutputQubits`] exactly when `output_qubits` repeats a qubit
/// or names one that is not a qubit of `encoder`, and otherwise with
/// [`AuxiliarySeparationError::AuxiliaryQubitsEntangled`] when the separation phase is not defined
/// at a sampled label. The marginal encoders are taken as given: that the auxiliary qubits are
/// disentangled is decided where they are computed, from the restrictions of the encoder's
/// stabilizer group.
pub fn separate_auxiliary_qubits(
    encoder: &PhasedCliffordUnitary,
    output_qubits: &[usize],
    output_encoder: CliffordUnitary,
    auxiliary_encoder: CliffordUnitary,
) -> (r: Result<AuxiliarySeparation, AuxiliarySeparationError>)
    requires
        encoder.wf(),
        output_encoder.wf(),
        auxiliary_encoder.wf(),
        crate::decomposition::is_clifford_tableau(output_encoder@, output_encoder.n()),
        crate::decomposition::is_clifford_tableau(auxiliary_encoder@, auxiliary_encoder.n()),
        output_encoder.n() == output_qubits@.len(),
        output_encoder.n() + auxiliary_encoder.n() == encoder.n(),
        encoder.n() * encoder.n() <= usize::MAX,
    ensures
        (r matches Err(e) && e == AuxiliarySeparationError::InvalidOutputQubits) <==> !distinct_qubits_below(
            encoder.n(),
            output_qubits@,
        ),
        r matches Err(e) ==> e == AuxiliarySeparationError::InvalidOutputQubits || e
            == AuxiliarySeparationError::AuxiliaryQubitsEntangled,
        r matches Ok(separation) ==> separation.separates(encoder@, output_qubits@, output_encoder@, auxiliary_encoder@),
{
    let n = encoder.num_qubits();
    let order = match output_first_order(n, output_qubits) {
        Ok(order) => order,
        Err(e) => {
            return Err(e);
        },
    };
    let k = output_qubits.len();
    let all = range_vec(0, n);
    proof {
        lemma_output_first_order_is_permutation(n as nat, output_qubits@, order@);
        assert(order@.len() == n) by {
            lemma_order_length(n as nat, order@);
        }
        assert(all@ =~= all_qubits(n as nat));
    }
    let mut ordered = encoder.duplicate();
    ordered.left_mul_permutation(&order, &all);
    let tensor = output_encoder.tensor(&auxiliary_encoder);
    let blocks = match phased_from_clifford(&tensor) {
        Some(blocks) => blocks,
        None => {
            proof {
                assert(false);
            }
            return Err(AuxiliarySeparationError::AuxiliaryQubitsEntangled);
        },
    };
    let output = range_vec(0, k);
    let auxiliary = range_vec(k, n);
    let clifford = ordered.clifford();
    let basis_map = basis_label_map(clifford, &output_encoder, &auxiliary_encoder, &output, &auxiliary);
    proof {
        let matrix = basis_label_matrix(
            ordered@.clifford,
            output_encoder@,
            auxiliary_encoder@,
            output@,
            auxiliary@,
            n as nat,
        );
        assert forall|b: int| 0 <= b < n implies #[trigger] basis_map@[b] =~= matrix[b] by {
            assert forall|j: int| 0 <= j < n implies basis_map@[b][j] == matrix[b][j] by {
                assert(basis_map@[b][j] == basis_label_column(
                    ordered@.clifford,
                    output_encoder@,
                    auxiliary_encoder@,
                    output@,
                    auxiliary@,
                    j,
                )[b]);
            }
        }
        assert(basis_map@ =~= matrix);
    }
    let phase = match interpolate_phase(&ordered, &blocks, &basis_map, n) {
        Ok(phase) => phase,
        Err(e) => {
            return Err(e);
        },
    };
    let (output_basis_map, auxiliary_basis_map) = split_rows(&basis_map, k);
    let separation = AuxiliarySeparation {
        output_encoder,
        auxiliary_encoder,
        output_basis_map,
        auxiliary_basis_map,
        phase,
    };
    proof {
        assert(ordered@ == reordered(encoder@, order@));
        assert(separation.separates_with(
            encoder@,
            output_qubits@,
            output_encoder@,
            auxiliary_encoder@,
            order@,
            blocks@,
        ));
    }
    Ok(separation)
}

/// A sequence of distinct qubits below `n` that names every qubit below `n` has length `n`.
proof fn lemma_order_length(n: nat, order: Seq<usize>)
    requires
        n <= usize::MAX,
        forall|i: int| 0 <= i < order.len() ==> (#[trigger] order[i]) < n,
        forall|i: int, j: int| 0 <= i < j < order.len() ==> order[i] != order[j],
        forall|q: usize| q < n ==> #[trigger] order.contains(q),
    ensures
        order.len() == n,
{
    let f = |i: int| order[i] as int;
    let dom = vstd::set_lib::set_int_range(0, order.len() as int);
    let range = vstd::set_lib::set_int_range(0, n as int);
    vstd::set_lib::lemma_int_range(0, order.len() as int);
    vstd::set_lib::lemma_int_range(0, n as int);
    assert forall|x1: int, x2: int| dom.contains(x1) && dom.contains(x2) && #[trigger] f(x1) == #[trigger] f(x2) implies x1
        == x2 by {
        if x1 < x2 {
            assert(order[x1] != order[x2]);
        } else if x2 < x1 {
            assert(order[x2] != order[x1]);
        }
    }
    assert forall|y: int| range.contains(y) implies dom.map(f).contains(y) by {
        assert(order.contains(y as usize));
        let i = choose|i: int| 0 <= i < order.len() && order[i] == y as usize;
        assert(dom.contains(i) && f(i) == y);
    }
    assert forall|y: int| dom.map(f).contains(y) implies range.contains(y) by {
        let i = choose|i: int| dom.contains(i) && f(i) == y;
        assert(order[i] < n);
    }
    assert(dom.map(f) =~= range);
    vstd::set_lib::lemma_map_size(dom, range, f);
}

} // verus!
