//! Outcome-complete stabilizer simulation with exact global-phase tracking.
//!
//! For a circuit with `n` qubits and `n_M` outcomes the simulator keeps a phased encoder `R` and
//! `𝔽₂` data `A` (sign matrix), `B` (quadratic phase matrix), `M` (outcome matrix), `v₀`
//! (outcome shift), `p` (linear `i` phase) and `s` (linear `−1` phase). For a random-bit vector
//! `r` the outcome vector is `v = v₀ + M r` and the output state is
//! `i^⟨p, r⟩ (−1)^⟨B r + s, r⟩ R |A r⟩`.
//!
//! Matrices are kept with spare capacity; rows and columns beyond the live counts are padding,
//! and the padding is kept zero.
use vstd::prelude::*;
use crate::clifford::{CliffordSpec, CliffordUnitary, UnitaryOp, op_arity, preimage_spec, valid_support};
use crate::gf2::{
    BitMatrix, bit_dot, bit_unit, bit_xor, bit_zeros, count_equal, bits_equal, combination, combination_of_rows, entries_parity, next_pow2,
    next_power_of_two, resize_matrix, row_sum, row_sum_spec, xor_assign, zeros,
};
use crate::pauli::{
    DensePauli, PauliSpec, anti_commutes_with, max_support_spec, resize_bits, resize_pauli_spec, resize_vec,
};
use crate::phase_form::{phase_form_exponent, phase_form_value};
use crate::phased_clifford::{PhasedCliffordSpec, PhasedCliffordUnitary, gate_applied};

verus! {

/// `StdRng`, the seedable generator of `rand`, carried through sampling as an opaque value.
#[verifier::external_type_specification]
#[verifier::external_body]
pub struct ExStdRng(rand::rngs::StdRng);

/// Draws a uniformly random bit from `rng` through `rand::RngExt::random`; nothing is promised
/// of the bit.
#[verifier::external_body]
fn random_bit(rng: &mut rand::rngs::StdRng) -> bool {
    rand::RngExt::random::<bool>(rng)
}

/// `StdRng::try_from_rng(&mut SysRng)`: a generator seeded from the operating system's random
/// source, or `None` when that source fails. Nothing is promised of which of the two comes back.
#[verifier::external_body]
fn os_seeded_rng() -> (r: Option<rand::rngs::StdRng>) {
    <rand::rngs::StdRng as rand::SeedableRng>::try_from_rng(&mut rand::rngs::SysRng).ok()
}

/// The smallest capacity of the outcome and random-bit dimensions.
pub const CLIFFORD_BIT_ALIGNMENT: usize = 64;

/// The bound below which all sizes stay, keeping capacity doubling free of overflow.
pub open spec fn size_bound() -> nat {
    0x2000_0000
}

/// The mathematical content of the simulator.
pub struct SimulationSpec {
    pub encoder: PhasedCliffordSpec,
    pub sign_matrix: Seq<Seq<bool>>,
    pub quadratic_phase_matrix: Seq<Seq<bool>>,
    pub outcome_matrix: Seq<Seq<bool>>,
    pub outcome_shift: Seq<bool>,
    pub linear_i_phase: Seq<bool>,
    pub linear_sign_phase: Seq<bool>,
    pub random_outcome_indicator: Seq<bool>,
    pub symbolic_angle_indicator: Seq<bool>,
    pub random_bit_count: nat,
    pub qubit_count: nat,
    pub random_capacity: nat,
}

/// A matrix with `rows` rows of `columns` entries.
pub open spec fn shaped(m: Seq<Seq<bool>>, rows: nat, columns: nat) -> bool {
    m.len() == rows && forall|i: int| 0 <= i < m.len() ==> (#[trigger] m[i]).len() == columns
}

/// The `X`/`Z` update of `A`, `B`, `p`, `s` for the Pauli `pauli` applied on the branches where
/// `⟨indicator, r⟩ = 1`, with preimage `R† pauli R = i^l X^x Z^z`.
pub open spec fn conditioned_update(v: SimulationSpec, pauli: PauliSpec, indicator: Seq<bool>) -> SimulationSpec {
    let pre = preimage_spec(v.encoder.clifford, pauli);
    let z_times_sign = combination(v.sign_matrix, pre.z, v.random_capacity);
    let odd = pre.phase % 2 == 1;
    let b1 = Seq::new(
        v.quadratic_phase_matrix.len(),
        |row: int|
            if indicator[row] {
                bit_xor(v.quadratic_phase_matrix[row], z_times_sign)
            } else {
                v.quadratic_phase_matrix[row]
            },
    );
    let b2 = if odd {
        Seq::new(b1.len(), |row: int| if v.linear_i_phase[row] { bit_xor(b1[row], indicator) } else { b1[row] })
    } else {
        b1
    };
    SimulationSpec {
        sign_matrix: Seq::new(
            v.sign_matrix.len(),
            |q: int| if pre.x[q] { bit_xor(v.sign_matrix[q], indicator) } else { v.sign_matrix[q] },
        ),
        quadratic_phase_matrix: b2,
        linear_i_phase: if odd { bit_xor(v.linear_i_phase, indicator) } else { v.linear_i_phase },
        linear_sign_phase: if pre.phase >= 2 { bit_xor(v.linear_sign_phase, indicator) } else { v.linear_sign_phase },
        ..v
    }
}

/// A fresh simulator: `qubit_count` qubits in `|0…0⟩` (identity encoder, zero reference string,
/// phase `0`), no outcomes and no random bits, every `𝔽₂` component zero at the given capacities.
pub open spec fn fresh_spec(qubit_count: nat, outcome_capacity: nat, random_capacity: nat) -> SimulationSpec {
    SimulationSpec {
        encoder: PhasedCliffordSpec {
            clifford: crate::clifford::identity_tableau(qubit_count),
            reference: bit_zeros(qubit_count),
            phase: 0,
        },
        sign_matrix: Seq::new(qubit_count, |i: int| bit_zeros(random_capacity)),
        quadratic_phase_matrix: Seq::new(random_capacity, |i: int| bit_zeros(random_capacity)),
        outcome_matrix: Seq::new(outcome_capacity, |i: int| bit_zeros(random_capacity)),
        outcome_shift: bit_zeros(outcome_capacity),
        linear_i_phase: bit_zeros(random_capacity),
        linear_sign_phase: bit_zeros(random_capacity),
        random_outcome_indicator: Seq::empty(),
        symbolic_angle_indicator: Seq::empty(),
        random_bit_count: 0,
        qubit_count: qubit_count,
        random_capacity: random_capacity,
    }
}

/// The larger of two naturals.
pub open spec fn max_nat(a: nat, b: nat) -> nat {
    if a >= b {
        a
    } else {
        b
    }
}

/// The simulator with its outcome and random-bit dimensions padded to the given capacities.
pub open spec fn grow_outcomes(v: SimulationSpec, outcome_capacity: nat, random_capacity: nat) -> SimulationSpec {
    SimulationSpec {
        sign_matrix: resize_matrix(v.sign_matrix, v.sign_matrix.len(), random_capacity),
        quadratic_phase_matrix: resize_matrix(v.quadratic_phase_matrix, random_capacity, random_capacity),
        outcome_matrix: resize_matrix(v.outcome_matrix, outcome_capacity, random_capacity),
        outcome_shift: resize_bits(v.outcome_shift, outcome_capacity),
        linear_i_phase: resize_bits(v.linear_i_phase, random_capacity),
        linear_sign_phase: resize_bits(v.linear_sign_phase, random_capacity),
        random_capacity: random_capacity,
        ..v
    }
}

/// The simulator with its qubit dimension padded to `qubit_capacity`.
pub open spec fn grow_qubits(v: SimulationSpec, qubit_capacity: nat) -> SimulationSpec {
    SimulationSpec {
        encoder: PhasedCliffordSpec {
            clifford: crate::clifford::resize_tableau(v.encoder.clifford, qubit_capacity),
            reference: resize_bits(v.encoder.reference, qubit_capacity),
            phase: v.encoder.phase,
        },
        sign_matrix: resize_matrix(v.sign_matrix, qubit_capacity, v.random_capacity),
        ..v
    }
}

proof fn lemma_resize_matrix_same(m: Seq<Seq<bool>>, rows: nat, columns: nat)
    requires
        shaped(m, rows, columns),
    ensures
        resize_matrix(m, rows, columns) == m,
{
    assert forall|i: int| 0 <= i < rows implies resize_matrix(m, rows, columns)[i] == m[i] by {
        assert(resize_matrix(m, rows, columns)[i] =~= m[i]);
    }
    assert(resize_matrix(m, rows, columns) =~= m);
}

/// Padding to the current capacities changes nothing.
proof fn lemma_grow_outcomes_same(v: SimulationSpec)
    requires
        v.consistent(),
    ensures
        grow_outcomes(v, v.outcome_capacity(), v.random_capacity) == v,
{
    lemma_resize_matrix_same(v.sign_matrix, v.sign_matrix.len(), v.random_capacity);
    lemma_resize_matrix_same(v.quadratic_phase_matrix, v.random_capacity, v.random_capacity);
    lemma_resize_matrix_same(v.outcome_matrix, v.outcome_capacity(), v.random_capacity);
    assert(resize_bits(v.outcome_shift, v.outcome_capacity()) =~= v.outcome_shift);
    assert(resize_bits(v.linear_i_phase, v.random_capacity) =~= v.linear_i_phase);
    assert(resize_bits(v.linear_sign_phase, v.random_capacity) =~= v.linear_sign_phase);
}

/// The row of every random outcome is the unit vector of the random bit it records: the `k`-th
/// random outcome reads `r_k`.
pub open spec fn random_rows_are_units(v: SimulationSpec) -> bool {
    forall|j: int|
        #![trigger v.outcome_matrix[j]]
        0 <= j < v.outcome_count() && v.random_outcome_indicator[j] ==> v.outcome_matrix[j] == bit_unit(
            v.random_capacity,
            count_equal(v.random_outcome_indicator, true, j) as int,
        )
}

/// Every entry that belongs to a random bit not yet allocated (a column at or past
/// `random_bit_count` of `A`, `B` and `M`, a row of `B` there, and the entries of `p` and `s`
/// there) is zero.
pub open spec fn random_padding_zero(v: SimulationSpec) -> bool {
    let live = v.random_bit_count;
    let rc = v.random_capacity;
    &&& forall|q: int, k: int|
        0 <= q < v.sign_matrix.len() && live <= k < rc ==> !#[trigger] v.sign_matrix[q][k]
    &&& forall|row: int, k: int|
        0 <= row < rc && live <= k < rc ==> !#[trigger] v.quadratic_phase_matrix[row][k]
    &&& forall|row: int, k: int|
        live <= row < rc && 0 <= k < rc ==> !#[trigger] v.quadratic_phase_matrix[row][k]
    &&& forall|j: int, k: int|
        0 <= j < v.outcome_matrix.len() && live <= k < rc ==> !#[trigger] v.outcome_matrix[j][k]
    &&& forall|k: int| live <= k < rc ==> !#[trigger] v.linear_i_phase[k]
    &&& forall|k: int| live <= k < rc ==> !#[trigger] v.linear_sign_phase[k]
}

/// A combination of rows that are zero from `live` on is zero from `live` on.
proof fn lemma_combination_zero_from(rows: Seq<Seq<bool>>, c: Seq<bool>, width: nat, live: int, n: int)
    requires
        0 <= n <= rows.len(),
        0 <= live,
        forall|i: int| 0 <= i < rows.len() ==> (#[trigger] rows[i]).len() == width,
        forall|i: int, k: int| 0 <= i < rows.len() && live <= k < width ==> !#[trigger] rows[i][k],
    ensures
        crate::gf2::combination_prefix(rows, c, width, n).len() == width,
        forall|k: int| live <= k < width ==> !#[trigger] crate::gf2::combination_prefix(rows, c, width, n)[k],
    decreases n,
{
    if n > 0 {
        lemma_combination_zero_from(rows, c, width, live, n - 1);
        let prev = crate::gf2::combination_prefix(rows, c, width, n - 1);
        let row = rows[n - 1];
        assert(row.len() == width);
        assert forall|k: int| live <= k < width implies !#[trigger] crate::gf2::combination_prefix(rows, c, width, n)[k] by {
            assert(!prev[k]);
            assert(!rows[n - 1][k]);
        }
    }
}

/// A sum of listed rows that are zero from `live` on is zero from `live` on.
proof fn lemma_row_sum_zero_from(rows: Seq<Seq<bool>>, indices: Seq<usize>, width: nat, live: int)
    requires
        0 <= live,
        forall|i: int| 0 <= i < indices.len() ==> (#[trigger] indices[i]) < rows.len(),
        forall|i: int| 0 <= i < rows.len() ==> (#[trigger] rows[i]).len() == width,
        forall|i: int, k: int| 0 <= i < rows.len() && live <= k < width ==> !#[trigger] rows[i][k],
    ensures
        row_sum_spec(rows, indices, width).len() == width,
        forall|k: int| live <= k < width ==> !#[trigger] row_sum_spec(rows, indices, width)[k],
    decreases indices.len(),
{
    if indices.len() > 0 {
        let init = indices.drop_last();
        assert forall|i: int| 0 <= i < init.len() implies (#[trigger] init[i]) < rows.len() by {
            assert(init[i] == indices[i]);
        }
        lemma_row_sum_zero_from(rows, init, width, live);
        let prev = row_sum_spec(rows, init, width);
        let last = indices.last() as int;
        assert(indices[indices.len() - 1] < rows.len());
        assert(rows[last].len() == width);
        assert forall|k: int| live <= k < width implies !#[trigger] row_sum_spec(rows, indices, width)[k] by {
            assert(!prev[k]);
            assert(!rows[last][k]);
        }
    }
}

/// The conditioned update for an indicator that is zero on the unallocated random bits keeps
/// those entries zero.
proof fn lemma_conditioned_update_padding(v: SimulationSpec, pauli: PauliSpec, indicator: Seq<bool>)
    requires
        v.consistent(),
        indicator.len() == v.random_capacity,
        forall|k: int| v.random_bit_count <= k < v.random_capacity ==> !#[trigger] indicator[k],
        preimage_spec(v.encoder.clifford, pauli).x.len() == v.sign_matrix.len(),
        preimage_spec(v.encoder.clifford, pauli).z.len() == v.sign_matrix.len(),
    ensures
        random_padding_zero(conditioned_update(v, pauli, indicator)),
{
    let pre = preimage_spec(v.encoder.clifford, pauli);
    let rc = v.random_capacity;
    let live = v.random_bit_count as int;
    assert(random_padding_zero(v));
    lemma_combination_zero_from(v.sign_matrix, pre.z, rc, live, v.sign_matrix.len() as int);
    let z_times_sign = combination(v.sign_matrix, pre.z, rc);
    let w = conditioned_update(v, pauli, indicator);
    assert forall|q: int, k: int| 0 <= q < w.sign_matrix.len() && live <= k < rc implies !#[trigger] w.sign_matrix[q][k] by {
        assert(!v.sign_matrix[q][k]);
        assert(!indicator[k]);
    }
    assert forall|row: int, k: int| 0 <= row < rc && live <= k < rc implies !#[trigger] w.quadratic_phase_matrix[row][k] by {
        assert(!v.quadratic_phase_matrix[row][k]);
        assert(!indicator[k]);
        assert(!z_times_sign[k]);
    }
    assert forall|row: int, k: int| live <= row < rc && 0 <= k < rc implies !#[trigger] w.quadratic_phase_matrix[row][k] by {
        assert(!v.quadratic_phase_matrix[row][k]);
        assert(!indicator[row]);
        assert(!v.linear_i_phase[row]);
    }
    assert forall|k: int| live <= k < rc implies !#[trigger] w.linear_i_phase[k] by {
        assert(!v.linear_i_phase[k]);
        assert(!indicator[k]);
    }
    assert forall|k: int| live <= k < rc implies !#[trigger] w.linear_sign_phase[k] by {
        assert(!v.linear_sign_phase[k]);
        assert(!indicator[k]);
    }
    assert forall|j: int, k: int| 0 <= j < w.outcome_matrix.len() && live <= k < rc implies !#[trigger] w.outcome_matrix[j][k] by {
        assert(!v.outcome_matrix[j][k]);
    }
}

/// Rows and shift entries beyond the recorded outcomes are zero.
pub open spec fn outcome_padding_zero(v: SimulationSpec) -> bool {
    &&& forall|j: int| v.outcome_count() <= j < v.outcome_capacity() ==> !#[trigger] v.outcome_shift[j]
    &&& forall|j: int|
        v.outcome_count() <= j < v.outcome_capacity() ==> #[trigger] v.outcome_matrix[j] == bit_zeros(v.random_capacity)
}

proof fn lemma_outcome_padding_kept(old: SimulationSpec, new: SimulationSpec)
    requires
        outcome_padding_zero(old),
        random_rows_are_units(old),
        new.outcome_matrix == old.outcome_matrix,
        new.outcome_shift == old.outcome_shift,
        new.random_outcome_indicator == old.random_outcome_indicator,
        new.random_capacity == old.random_capacity,
    ensures
        outcome_padding_zero(new),
        random_rows_are_units(new),
{
    assert forall|j: int| new.outcome_count() <= j < new.outcome_capacity() implies #[trigger] new.outcome_matrix[j]
        == bit_zeros(new.random_capacity) by {
        assert(old.outcome_matrix[j] == bit_zeros(old.random_capacity));
    }
    assert forall|j: int| new.outcome_count() <= j < new.outcome_capacity() implies !#[trigger] new.outcome_shift[j] by {
        assert(!old.outcome_shift[j]);
    }
}

proof fn lemma_random_padding_kept(old: SimulationSpec, new: SimulationSpec)
    requires
        random_padding_zero(old),
        new.sign_matrix == old.sign_matrix,
        new.quadratic_phase_matrix == old.quadratic_phase_matrix,
        new.outcome_matrix == old.outcome_matrix,
        new.linear_i_phase == old.linear_i_phase,
        new.linear_sign_phase == old.linear_sign_phase,
        new.random_bit_count == old.random_bit_count,
        new.random_capacity == old.random_capacity,
    ensures
        random_padding_zero(new),
{
}

proof fn lemma_outcome_padding_grown(old: SimulationSpec, outcome_capacity: nat, random_capacity: nat)
    requires
        old.consistent(),
        outcome_padding_zero(old),
        outcome_capacity >= old.outcome_capacity(),
    ensures
        outcome_padding_zero(grow_outcomes(old, outcome_capacity, random_capacity)),
        random_capacity >= old.random_capacity ==> random_rows_are_units(
            grow_outcomes(old, outcome_capacity, random_capacity),
        ),
{
    let new = grow_outcomes(old, outcome_capacity, random_capacity);
    assert forall|j: int| new.outcome_count() <= j < new.outcome_capacity() implies #[trigger] new.outcome_matrix[j]
        == bit_zeros(new.random_capacity) by {
        if j < old.outcome_capacity() {
            assert(old.outcome_matrix[j] == bit_zeros(old.random_capacity));
        }
        assert(new.outcome_matrix[j] =~= bit_zeros(new.random_capacity));
    }
    assert forall|j: int| new.outcome_count() <= j < new.outcome_capacity() implies !#[trigger] new.outcome_shift[j] by {
        if j < old.outcome_capacity() {
            assert(!old.outcome_shift[j]);
        }
    }
    if random_capacity >= old.random_capacity {
        assert forall|j: int| 0 <= j < new.outcome_count() && new.random_outcome_indicator[j] implies #[trigger]
            new.outcome_matrix[j] == bit_unit(
            new.random_capacity,
            count_equal(new.random_outcome_indicator, true, j) as int,
        ) by {
            let k = count_equal(old.random_outcome_indicator, true, j) as int;
            assert(old.outcome_matrix[j] == bit_unit(old.random_capacity, k));
            crate::gf2::lemma_count_equal_monotone(old.random_outcome_indicator, true, j + 1, old.outcome_count() as int);
            assert(new.outcome_matrix[j] =~= bit_unit(new.random_capacity, k));
        }
    }
}

/// A fresh simulator is in `|0…0⟩`: for every qubit `q < n`, the preimage of `Z_q` under its
/// encoder is `Z_q` itself, of `Z` type, with no random sign and phase `0`, so `Z_q` is a
/// stabilizer with sign `+1`; the preimage of `−Z_q` has phase `2`, so `−Z_q` is not.
pub proof fn lemma_fresh_state_stabilizers(n: nat, outcome_capacity: nat, random_capacity: nat, q: int)
    requires
        0 <= q < n,
    ensures
        ({
            let v = fresh_spec(n, outcome_capacity, random_capacity);
            let pre = preimage_spec(v.encoder.clifford, on_register(v, crate::clifford::pauli_z_spec(q, n)));
            &&& pre == crate::clifford::pauli_z_spec(q, n)
            &&& crate::gf2::bit_is_zero(pre.x)
            &&& crate::gf2::bit_is_zero(combination(v.sign_matrix, pre.z, v.random_capacity))
            &&& pre.phase == 0
        }),
        ({
            let v = fresh_spec(n, outcome_capacity, random_capacity);
            let minus_z = crate::decomposition::negated_spec(crate::clifford::pauli_z_spec(q, n));
            preimage_spec(v.encoder.clifford, on_register(v, minus_z)).phase == 2
        }),
{
    let v = fresh_spec(n, outcome_capacity, random_capacity);
    let z = crate::clifford::pauli_z_spec(q, n);
    let minus_z = crate::decomposition::negated_spec(z);
    assert(on_register(v, z).x =~= z.x);
    assert(on_register(v, z).z =~= z.z);
    assert(on_register(v, z) == z);
    assert(on_register(v, minus_z).x =~= minus_z.x);
    assert(on_register(v, minus_z).z =~= minus_z.z);
    assert(on_register(v, minus_z) == minus_z);
    crate::clifford::lemma_identity_preimage(n, z);
    crate::clifford::lemma_identity_preimage(n, minus_z);
    lemma_combination_zero_from(v.sign_matrix, z.z, random_capacity, 0, n as int);
}

/// Measuring `observable` with the rotation `exp(iπ/4 · G)`, `G = −i · observable · hint`, for a
/// `hint` that anticommutes with `observable` and is a stabilizer up to sign (its preimage has no
/// `X` part), leaves `observable` a stabilizer up to sign: its new preimage has no `X` part.
pub proof fn lemma_measurement_rotation_stabilizes(t: CliffordSpec, observable: PauliSpec, hint: PauliSpec, n: nat)
    requires
        crate::clifford::tableau_wf(t, n),
        observable.x.len() == n,
        observable.z.len() == n,
        hint.x.len() == n,
        hint.z.len() == n,
        crate::pauli::symplectic(observable, hint),
        crate::gf2::bit_is_zero(preimage_spec(t, hint).x),
    ensures
        crate::gf2::bit_is_zero(
            preimage_spec(
                crate::clifford::tableau_map(t, |q: PauliSpec| crate::pauli::conj_by_exp(rotation_generator(observable, hint), q)),
                observable,
            ).x,
        ),
{
    let g = rotation_generator(observable, hint);
    let o = observable;
    let h = hint;
    let after = crate::clifford::tableau_map(t, |q: PauliSpec| crate::pauli::conj_by_exp(g, q));
    crate::decomposition::lemma_dot_bilinear(o.x, o.x, o.z, h.z, n);
    crate::decomposition::lemma_dot_bilinear(o.z, o.z, o.x, h.x, n);
    crate::decomposition::lemma_dot_symmetric(o.x, o.z);
    assert(crate::pauli::symplectic(o, g));
    assert forall|q: int| 0 <= q < preimage_spec(after, o).x.len() implies !#[trigger] preimage_spec(after, o).x[q] by {
        let z = t.z_images[q];
        assert(crate::pauli::pauli_wf(z, n));
        assert(!crate::pauli::symplectic(h, z)) by {
            assert(!preimage_spec(t, h).x[q]);
        }
        crate::decomposition::lemma_dot_bilinear(o.x, h.x, z.z, z.z, n);
        crate::decomposition::lemma_dot_bilinear(o.z, h.z, z.x, z.x, n);
        crate::decomposition::lemma_dot_bilinear(o.x, o.x, g.z, z.z, n);
        crate::decomposition::lemma_dot_bilinear(o.z, o.z, g.x, z.x, n);
        assert(after.z_images[q] == crate::pauli::conj_by_exp(g, z));
    }
}

/// The first set position from `k` on lies in range and is set, when some position there is set.
proof fn lemma_first_set_from(bits: Seq<bool>, k: int)
    requires
        0 <= k <= bits.len(),
        exists|j: int| k <= j < bits.len() && #[trigger] bits[j],
    ensures
        k <= first_set_from(bits, k) < bits.len(),
        bits[first_set_from(bits, k)],
    decreases bits.len() - k,
{
    if !bits[k] {
        let j = choose|j: int| k <= j < bits.len() && #[trigger] bits[j];
        assert(j != k);
        assert(k + 1 <= j);
        lemma_first_set_from(bits, k + 1);
    }
}

/// The last qubit on which `p` acts, searched below `k`, lies below `k`.
proof fn lemma_support_below_bound(p: PauliSpec, k: int)
    ensures
        crate::pauli::support_below(p, k) matches Some(m) ==> m < k,
    decreases k,
{
    if k > 0 {
        lemma_support_below_bound(p, k - 1);
    }
}

/// Measuring `observable` (sized to the register) leaves it a stabilizer up to sign, whichever
/// way the outcome is decided: when the encoder is a Clifford tableau, the preimage of
/// `observable` under the new encoder has no `X` part.
pub proof fn lemma_measurement_stabilizes(v: SimulationSpec, new: SimulationSpec, observable: PauliSpec)
    requires
        crate::decomposition::is_clifford_tableau(v.encoder.clifford, v.qubit_capacity()),
        observable.x.len() == v.qubit_capacity(),
        observable.z.len() == v.qubit_capacity(),
        measured(v, new, observable),
    ensures
        crate::gf2::bit_is_zero(preimage_spec(new.encoder.clifford, observable).x),
{
    let t = v.encoder.clifford;
    let n = v.qubit_capacity();
    let pre = preimage_spec(t, observable);
    if !crate::gf2::bit_is_zero(pre.x) {
        let witness = choose|i: int| 0 <= i < pre.x.len() && pre.x[i];
        assert(0 <= witness < pre.x.len() && pre.x[witness]);
        lemma_first_set_from(pre.x, 0);
        let q = first_set_from(pre.x, 0);
        let hint = t.z_images[q];
        assert(crate::pauli::pauli_wf(hint, n));
        assert(crate::pauli::symplectic(observable, hint));
        assert forall|j: int| 0 <= j < preimage_spec(t, hint).x.len() implies !#[trigger] preimage_spec(t, hint).x[j] by {
            assert(!crate::pauli::symplectic(t.z_images[q], t.z_images[j]));
        }
        lemma_measurement_rotation_stabilizes(t, observable, hint, n);
    }
}

/// Measuring `observable` with an anticommuting `hint`, as the hinted measurement does, leaves
/// `observable` a stabilizer up to sign in either branch: a hint whose preimage is of `Z` type
/// resolves the outcome, any other hint is ignored and the plain measurement runs. Holds when the
/// encoder is a Clifford tableau.
pub proof fn lemma_hinted_measurement_stabilizes(
    v: SimulationSpec,
    new: SimulationSpec,
    observable: PauliSpec,
    hint: PauliSpec,
)
    requires
        crate::decomposition::is_clifford_tableau(v.encoder.clifford, v.qubit_capacity()),
        observable.x.len() == v.qubit_capacity(),
        observable.z.len() == v.qubit_capacity(),
        hint.x.len() == v.qubit_capacity(),
        hint.z.len() == v.qubit_capacity(),
        crate::pauli::symplectic(observable, hint),
        crate::gf2::bit_is_zero(preimage_spec(v.encoder.clifford, hint).x) ==> measured_with_hint(
            v,
            new,
            observable,
            hint,
        ),
        !crate::gf2::bit_is_zero(preimage_spec(v.encoder.clifford, hint).x) ==> measured(
            register_for(v, observable),
            new,
            observable,
        ),
    ensures
        crate::gf2::bit_is_zero(preimage_spec(new.encoder.clifford, observable).x),
{
    let t = v.encoder.clifford;
    let n = v.qubit_capacity();
    if crate::gf2::bit_is_zero(preimage_spec(t, hint).x) {
        lemma_measurement_rotation_stabilizes(t, observable, hint, n);
    } else {
        lemma_support_below_bound(observable, observable.x.len() as int);
        let r = register_for(v, observable);
        assert(r.encoder == v.encoder);
        assert(r.qubit_capacity() == n);
        lemma_measurement_stabilizes(r, new, observable);
    }
}

/// The bits above the last qubit on which `p` acts, searched below `k`, are zero.
proof fn lemma_support_below_zero(p: PauliSpec, k: int)
    requires
        k <= p.x.len(),
        k <= p.z.len(),
    ensures
        crate::pauli::support_below(p, k) matches Some(m) ==> forall|j: int| m < j < k ==> !p.x[j] && !p.z[j],
        crate::pauli::support_below(p, k) is None ==> forall|j: int| 0 <= j < k ==> !p.x[j] && !p.z[j],
    decreases k,
{
    if k > 0 {
        lemma_support_below_zero(p, k - 1);
    }
}

/// `p`, sized to a register whose live qubits cover every qubit `p` acts on, acts only on live
/// qubits.
proof fn lemma_acts_on_live(v: SimulationSpec, p: PauliSpec, m: Option<nat>)
    requires
        p.x.len() == p.z.len(),
        max_support_spec(p) matches Some(s) ==> (m matches Some(t) && s <= t),
        with_support(v, m).qubit_count <= with_support(v, m).qubit_capacity(),
    ensures
        crate::pauli::identity_from(on_register(with_support(v, m), p), with_support(v, m).qubit_count as int),
{
    lemma_support_below_zero(p, p.x.len() as int);
    let r = with_support(v, m);
    let q = on_register(r, p);
    assert forall|k: int| r.qubit_count <= k < q.x.len() implies !q.x[k] && !q.z[k] by {
        if k < p.x.len() {
            if let Some(s) = max_support_spec(p) {
                assert(s < k);
            }
        }
    }
}

/// The largest entry of `s`, `None` when `s` is empty.
pub open spec fn max_entry(s: Seq<usize>) -> Option<nat>
    decreases s.len(),
{
    if s.len() == 0 {
        None
    } else {
        match max_entry(s.drop_last()) {
            Some(m) => Some(max_nat(m, s.last() as nat)),
            None => Some(s.last() as nat),
        }
    }
}

/// The larger of two optional qubit indices.
pub open spec fn max_option(a: Option<nat>, b: Option<nat>) -> Option<nat> {
    match a {
        Some(x) => match b {
            Some(y) => Some(max_nat(x, y)),
            None => Some(x),
        },
        None => b,
    }
}

/// Growing the register to cover qubit `m` keeps every size below the bound.
pub open spec fn qubit_in_range(m: Option<nat>) -> bool {
    m matches Some(q) ==> q < size_bound() / 2
}

/// The simulator after making room for qubit `m`: the live qubit count covers `m`, and when `m`
/// is beyond the capacity the capacity grows to the next power of two above `m`.
pub open spec fn with_qubit(v: SimulationSpec, m: nat) -> SimulationSpec {
    let grown = if m < v.qubit_capacity() {
        v
    } else {
        grow_qubits(v, next_pow2(m + 1))
    };
    SimulationSpec { qubit_count: max_nat(v.qubit_count, m + 1), ..grown }
}

/// The simulator after making room for the optional qubit `m`.
pub open spec fn with_support(v: SimulationSpec, m: Option<nat>) -> SimulationSpec {
    match m {
        Some(q) => with_qubit(v, q),
        None => v,
    }
}

/// The simulator after making room for every qubit on which `p` acts.
pub open spec fn register_for(v: SimulationSpec, p: PauliSpec) -> SimulationSpec {
    with_support(v, max_support_spec(p))
}

/// The simulator after making room for every qubit on which `a` or `b` acts.
pub open spec fn register_for_pair(v: SimulationSpec, a: PauliSpec, b: PauliSpec) -> SimulationSpec {
    with_support(v, max_option(max_support_spec(a), max_support_spec(b)))
}

/// `p` on the simulator's qubit capacity.
pub open spec fn on_register(v: SimulationSpec, p: PauliSpec) -> PauliSpec {
    resize_pauli_spec(p, v.qubit_capacity())
}

/// The indicator vector of length `n` of the set of listed positions.
pub open spec fn indicator_of(indices: Seq<usize>, n: nat) -> Seq<bool> {
    Seq::new(n, |j: int| indices.contains(j as usize))
}

/// The encoder and state after the qubit permutation of `support` by `permutation`.
pub open spec fn permuted(v: SimulationSpec, permutation: Seq<usize>, support: Seq<usize>) -> SimulationSpec {
    SimulationSpec {
        encoder: PhasedCliffordSpec {
            clifford: crate::clifford::tableau_map(
                v.encoder.clifford,
                |p: PauliSpec| crate::clifford::conj_permutation(permutation, support, p),
            ),
            reference: crate::clifford::permute_bits(permutation, support, v.encoder.reference),
            phase: v.encoder.phase,
        },
        ..v
    }
}

/// Conjugation by `e^{−iπ/4 A} e^{−iπ/4 B} e^{iπ/4 AB}` for commuting `A = p1`, `B = p2`: up to
/// its global phase, the operator that applies `B` on the `−1` eigenspace of `A`.
pub open spec fn controlled_pauli_conjugation(p1: PauliSpec, p2: PauliSpec, q: PauliSpec) -> PauliSpec {
    let negated1 = crate::pauli::pauli_scale(p1, 2);
    let negated2 = crate::pauli::pauli_scale(p2, 2);
    let product = crate::pauli::pauli_mul(p1, p2);
    crate::pauli::conj_by_exp(product, crate::pauli::conj_by_exp(negated2, crate::pauli::conj_by_exp(negated1, q)))
}

/// The phase bookkeeping of `e^{iπ/4} e^{−iπ/4 A} e^{−iπ/4 B} e^{iπ/4 AB}` for `A = p1`,
/// `B = p2`: the encoder passes through `e^{−iπ/4 A}`, `e^{−iπ/4 B}` and `e^{iπ/4 AB}`, each tracked as a Pauli exponential
/// whenever its generator has order two, and finally gains the global factor `ζ₈`.
pub open spec fn controlled_pauli_phase_steps(v: SimulationSpec, new: SimulationSpec, p1: PauliSpec, p2: PauliSpec) -> bool {
    let negated1 = crate::pauli::pauli_scale(p1, 2);
    let negated2 = crate::pauli::pauli_scale(p2, 2);
    let product = crate::pauli::pauli_mul(p1, p2);
    exists|step1: PhasedCliffordSpec, step2: PhasedCliffordSpec, step3: PhasedCliffordSpec|
        #![trigger step1.reference, step2.reference, step3.reference]
        {
            &&& (v.qubit_capacity() > 0 && crate::pauli::is_order_two_spec(negated1)
                ==> crate::phased_clifford::pauli_exp_amplitude_update(v.encoder, step1, negated1))
            &&& step1.clifford == crate::clifford::tableau_map(
                v.encoder.clifford,
                |q: PauliSpec| crate::pauli::conj_by_exp(negated1, q),
            )
            &&& step2.clifford == crate::clifford::tableau_map(
                step1.clifford,
                |q: PauliSpec| crate::pauli::conj_by_exp(negated2, q),
            )
            &&& step3.clifford == crate::clifford::tableau_map(
                step2.clifford,
                |q: PauliSpec| crate::pauli::conj_by_exp(product, q),
            )
            &&& step1.reference.len() == v.qubit_capacity()
            &&& (v.qubit_capacity() > 0 && crate::pauli::is_order_two_spec(negated2)
                ==> crate::phased_clifford::pauli_exp_amplitude_update(step1, step2, negated2))
            &&& step2.reference.len() == v.qubit_capacity()
            &&& (v.qubit_capacity() > 0 && crate::pauli::is_order_two_spec(product)
                ==> crate::phased_clifford::pauli_exp_amplitude_update(step2, step3, product))
            &&& new.encoder.reference == step3.reference
            &&& new.encoder.phase == (step3.phase + 1) % 8
        }
}

/// A Pauli exponential `exp(iπ/4 · P)` leaves every stabilizer image unchanged when `P = ±I`.
proof fn lemma_scalar_exp_fixes_tableau(t: CliffordSpec, p: PauliSpec, n: nat)
    requires
        crate::clifford::tableau_wf(t, n),
        p.x.len() == n,
        p.z.len() == n,
        crate::gf2::bit_is_zero(p.x),
        crate::gf2::bit_is_zero(p.z),
    ensures
        crate::clifford::tableau_map(t, |q: PauliSpec| crate::pauli::conj_by_exp(p, q)) == t,
{
    let f = |q: PauliSpec| crate::pauli::conj_by_exp(p, q);
    assert forall|q: PauliSpec| q.x.len() == n && q.z.len() == n implies #[trigger] f(q) == q by {
        crate::pauli::lemma_dot_zeros_left(p.x, q.z);
        crate::pauli::lemma_dot_zeros_left(p.z, q.x);
    }
    assert(t.x_images.map_values(f) =~= t.x_images);
    assert(t.z_images.map_values(f) =~= t.z_images);
}

/// `exp(iπ/4 · P)` for `P = ±I` is the scalar `ζ₈^{±1}`: the new reference string lies in the
/// support with relative phase `w`, and the new phase adds `±1` to the amplitude there.
proof fn lemma_scalar_exp_step(old: PhasedCliffordSpec, new: PhasedCliffordSpec, p: PauliSpec, n: nat) -> (w: int)
    requires
        crate::decomposition::is_clifford_tableau(old.clifford, n),
        old.reference.len() == n,
        new.reference.len() == n,
        crate::stabilizer_group::reference_in_support(old.clifford, old.reference),
        p.x.len() == n,
        p.z.len() == n,
        crate::gf2::bit_is_zero(p.x),
        crate::gf2::bit_is_zero(p.z),
        p.phase == 0 || p.phase == 2,
        crate::phased_clifford::pauli_exp_amplitude_update(old, new, p),
    ensures
        crate::phased_clifford::is_relative_phase(old.clifford, old.reference, new.reference, w),
        0 <= w < 8,
        new.phase == (old.phase + w + if p.phase == 0 {
            1int
        } else {
            7int
        }) % 8,
{
    let candidate = new.reference;
    let source = crate::gf2::bit_xor(candidate, p.x);
    assert(source =~= candidate);
    let (rc, rs) = choose|rc: Option<int>, rs: Option<int>|
        {
            &&& crate::phased_clifford::relative_phase_of(old, candidate, rc)
            &&& crate::phased_clifford::relative_phase_of(old, source, rs)
            &&& crate::phased_clifford::amplitude_exponent(
                rc,
                crate::phased_clifford::exp_contribution(p, rs, crate::gf2::bit_dot(p.z, source)),
            ) matches Some(e)
            &&& new.phase == (old.phase + e) % 8
        };
    crate::pauli::lemma_dot_zeros_left(p.z, source);
    match rc {
        Some(v1) => {
            match rs {
                Some(v2) => {
                    crate::stabilizer_group::lemma_relative_phase_unique(old.clifford, old.reference, candidate, v1, v2);
                    let c = choose|c: Seq<bool>|
                        c.len() == old.clifford.z_images.len() && crate::gf2::combination(
                            crate::phased_clifford::x_parts(old.clifford),
                            c,
                            old.clifford.z_images.len(),
                        ) == crate::gf2::bit_xor(candidate, old.reference) && v1
                            == crate::phased_clifford::relative_phase_value(old.clifford, old.reference, c);
                    assert(0 <= v1 < 8);
                    v1
                },
                None => {
                    assert(false);
                    0
                },
            }
        },
        None => {
            match rs {
                Some(v2) => {
                    assert(false);
                    0
                },
                None => {
                    assert(false);
                    0
                },
            }
        },
    }
}

/// The phase sum of the controlled step for scalar observables `A = i^a I`, `B = i^b I`.
proof fn lemma_scalar_phase_sum(
    a: int,
    b: int,
    p0: int,
    w1: int,
    w2: int,
    w3: int,
    phase1: int,
    phase2: int,
    phase3: int,
    last: int,
)
    requires
        a == 0 || a == 2,
        b == 0 || b == 2,
        phase1 == (p0 + w1 + if (a + 2) % 4 == 0 { 1int } else { 7int }) % 8,
        phase2 == (phase1 + w2 + if (b + 2) % 4 == 0 { 1int } else { 7int }) % 8,
        phase3 == (phase2 + w3 + if (a + b) % 4 == 0 { 1int } else { 7int }) % 8,
        last == (phase3 + 1) % 8,
    ensures
        last == (p0 + ((w1 + w2) % 8 + w3) % 8 + if a == 2 && b == 2 { 4int } else { 0int }) % 8,
{
}

/// The chain of the three scalar exponentials of a controlled step, given its intermediate
/// encoders.
proof fn lemma_controlled_scalar_chain(
    v: SimulationSpec,
    new: SimulationSpec,
    p1: PauliSpec,
    p2: PauliSpec,
    step1: PhasedCliffordSpec,
    step2: PhasedCliffordSpec,
    step3: PhasedCliffordSpec,
)
    requires
        v.qubit_capacity() > 0,
        crate::decomposition::is_clifford_tableau(v.encoder.clifford, v.qubit_capacity()),
        v.encoder.reference.len() == v.qubit_capacity(),
        crate::stabilizer_group::reference_in_support(v.encoder.clifford, v.encoder.reference),
        crate::pauli::pauli_wf(p1, v.qubit_capacity()),
        crate::pauli::pauli_wf(p2, v.qubit_capacity()),
        crate::gf2::bit_is_zero(p1.x),
        crate::gf2::bit_is_zero(p1.z),
        crate::gf2::bit_is_zero(p2.x),
        crate::gf2::bit_is_zero(p2.z),
        p1.phase == 0 || p1.phase == 2,
        p2.phase == 0 || p2.phase == 2,
        crate::phased_clifford::pauli_exp_amplitude_update(v.encoder, step1, crate::pauli::pauli_scale(p1, 2)),
        crate::phased_clifford::pauli_exp_amplitude_update(step1, step2, crate::pauli::pauli_scale(p2, 2)),
        crate::phased_clifford::pauli_exp_amplitude_update(step2, step3, crate::pauli::pauli_mul(p1, p2)),
        step1.clifford == v.encoder.clifford,
        step2.clifford == v.encoder.clifford,
        step3.clifford == v.encoder.clifford,
        step1.reference.len() == v.qubit_capacity(),
        step2.reference.len() == v.qubit_capacity(),
        step3.reference.len() == v.qubit_capacity(),
        new.encoder.reference == step3.reference,
        new.encoder.phase == (step3.phase + 1) % 8,
    ensures
        exists|w: int|
            crate::phased_clifford::is_relative_phase(
                v.encoder.clifford,
                v.encoder.reference,
                new.encoder.reference,
                w,
            ) && new.encoder.phase == (v.encoder.phase + w + 4 * crate::pauli::b2i(p1.phase == 2 && p2.phase == 2)) % 8,
{
    let n = v.qubit_capacity();
    let t = v.encoder.clifford;
    let r0 = v.encoder.reference;
    let negated1 = crate::pauli::pauli_scale(p1, 2);
    let negated2 = crate::pauli::pauli_scale(p2, 2);
    let product = crate::pauli::pauli_mul(p1, p2);
    crate::pauli::lemma_dot_zeros_left(p1.z, p2.x);
    assert(crate::gf2::bit_is_zero(product.x));
    assert(crate::gf2::bit_is_zero(product.z));
    let w1 = lemma_scalar_exp_step(v.encoder, step1, negated1, n);
    crate::stabilizer_group::lemma_support_closed(t, r0, step1.reference, w1);
    let w2 = lemma_scalar_exp_step(step1, step2, negated2, n);
    crate::stabilizer_group::lemma_support_closed(t, step1.reference, step2.reference, w2);
    let w3 = lemma_scalar_exp_step(step2, step3, product, n);
    crate::stabilizer_group::lemma_relative_phase_compose(t, r0, step1.reference, step2.reference, w1, w2);
    crate::stabilizer_group::lemma_relative_phase_compose(
        t,
        r0,
        step2.reference,
        step3.reference,
        (w1 + w2) % 8,
        w3,
    );
    assert(negated1.phase == (p1.phase + 2) % 4);
    assert(negated2.phase == (p2.phase + 2) % 4);
    assert(product.phase == (p1.phase + p2.phase) % 4);
    lemma_scalar_phase_sum(
        p1.phase,
        p2.phase,
        v.encoder.phase,
        w1,
        w2,
        w3,
        step1.phase,
        step2.phase,
        step3.phase,
        new.encoder.phase,
    );
    let w = ((w1 + w2) % 8 + w3) % 8;
    assert(crate::phased_clifford::is_relative_phase(t, r0, new.encoder.reference, w));
}

/// A controlled Pauli whose two observables are scalars `A = ±I`, `B = ±I` is the scalar that
/// applies `B` on the `−1` eigenspace of `A`: `−1` when both are `−I`, the identity otherwise.
/// The encoder then describes the same state up to that sign: its new reference string lies in
/// the support of the old state, and the tracked amplitude there is the old amplitude times the
/// sign, with no further global factor.
pub proof fn lemma_controlled_scalar_paulis(v: SimulationSpec, new: SimulationSpec, p1: PauliSpec, p2: PauliSpec)
    requires
        v.qubit_capacity() > 0,
        crate::decomposition::is_clifford_tableau(v.encoder.clifford, v.qubit_capacity()),
        v.encoder.reference.len() == v.qubit_capacity(),
        crate::stabilizer_group::reference_in_support(v.encoder.clifford, v.encoder.reference),
        crate::pauli::pauli_wf(p1, v.qubit_capacity()),
        crate::pauli::pauli_wf(p2, v.qubit_capacity()),
        crate::gf2::bit_is_zero(p1.x),
        crate::gf2::bit_is_zero(p1.z),
        crate::gf2::bit_is_zero(p2.x),
        crate::gf2::bit_is_zero(p2.z),
        crate::pauli::is_order_two_spec(p1),
        crate::pauli::is_order_two_spec(p2),
        new.encoder.reference.len() == v.qubit_capacity(),
        controlled_pauli_phase_steps(v, new, p1, p2),
    ensures
        exists|w: int|
            crate::phased_clifford::is_relative_phase(
                v.encoder.clifford,
                v.encoder.reference,
                new.encoder.reference,
                w,
            ) && new.encoder.phase == (v.encoder.phase + w + 4 * crate::pauli::b2i(p1.phase == 2 && p2.phase == 2)) % 8,
{
    let n = v.qubit_capacity();
    let t = v.encoder.clifford;
    let negated1 = crate::pauli::pauli_scale(p1, 2);
    let negated2 = crate::pauli::pauli_scale(p2, 2);
    let product = crate::pauli::pauli_mul(p1, p2);
    crate::pauli::lemma_dot_zeros_left(p1.x, p1.z);
    crate::pauli::lemma_dot_zeros_left(p2.x, p2.z);
    crate::pauli::lemma_dot_zeros_left(p1.z, p2.x);
    assert(crate::gf2::bit_is_zero(product.x));
    assert(crate::gf2::bit_is_zero(product.z));
    crate::pauli::lemma_dot_zeros_left(negated1.x, negated1.z);
    crate::pauli::lemma_dot_zeros_left(negated2.x, negated2.z);
    crate::pauli::lemma_dot_zeros_left(product.x, product.z);
    let (step1, step2, step3) = choose|step1: PhasedCliffordSpec, step2: PhasedCliffordSpec, step3: PhasedCliffordSpec|
        #![trigger step1.reference, step2.reference, step3.reference]
        {
            &&& (v.qubit_capacity() > 0 && crate::pauli::is_order_two_spec(negated1)
                ==> crate::phased_clifford::pauli_exp_amplitude_update(v.encoder, step1, negated1))
            &&& step1.clifford == crate::clifford::tableau_map(
                v.encoder.clifford,
                |q: PauliSpec| crate::pauli::conj_by_exp(negated1, q),
            )
            &&& step2.clifford == crate::clifford::tableau_map(
                step1.clifford,
                |q: PauliSpec| crate::pauli::conj_by_exp(negated2, q),
            )
            &&& step3.clifford == crate::clifford::tableau_map(
                step2.clifford,
                |q: PauliSpec| crate::pauli::conj_by_exp(product, q),
            )
            &&& step1.reference.len() == v.qubit_capacity()
            &&& (v.qubit_capacity() > 0 && crate::pauli::is_order_two_spec(negated2)
                ==> crate::phased_clifford::pauli_exp_amplitude_update(step1, step2, negated2))
            &&& step2.reference.len() == v.qubit_capacity()
            &&& (v.qubit_capacity() > 0 && crate::pauli::is_order_two_spec(product)
                ==> crate::phased_clifford::pauli_exp_amplitude_update(step2, step3, product))
            &&& new.encoder.reference == step3.reference
            &&& (step3.phase + 1) % 8 == new.encoder.phase
        };
    assert(crate::clifford::tableau_wf(t, n));
    lemma_scalar_exp_fixes_tableau(t, negated1, n);
    lemma_scalar_exp_fixes_tableau(t, negated2, n);
    lemma_scalar_exp_fixes_tableau(t, product, n);
    lemma_controlled_scalar_chain(v, new, p1, p2, step1, step2, step3);
}

/// The simulator after making room for one more outcome (and one more random bit when
/// `random_outcome`): a full dimension grows to the next power of two above its count.
pub open spec fn outcome_room(v: SimulationSpec, random_outcome: bool) -> SimulationSpec {
    let outcome_capacity = if v.outcome_count() >= v.outcome_capacity() {
        next_pow2(v.outcome_count() + 1)
    } else {
        v.outcome_capacity()
    };
    let random_capacity = if random_outcome && v.random_bit_count >= v.random_capacity {
        next_pow2(v.random_bit_count + 1)
    } else {
        v.random_capacity
    };
    grow_outcomes(
        v,
        max_nat(max_nat(outcome_capacity, random_capacity), v.outcome_capacity()),
        max_nat(random_capacity, v.random_capacity),
    )
}

/// The simulator after recording a new random outcome equal to a fresh random bit (a symbolic
/// angle when `symbolic`).
pub open spec fn allocated(v: SimulationSpec, symbolic: bool) -> SimulationSpec {
    let w = outcome_room(v, true);
    let j = w.outcome_count() as int;
    SimulationSpec {
        outcome_matrix: w.outcome_matrix.update(j, w.outcome_matrix[j].update(w.random_bit_count as int, true)),
        random_outcome_indicator: w.random_outcome_indicator.push(true),
        symbolic_angle_indicator: w.symbolic_angle_indicator.push(symbolic),
        random_bit_count: w.random_bit_count + 1,
        ..w
    }
}

/// The simulator after recording a deterministic outcome for an observable whose preimage under
/// the encoder is the `Z`-type operator `preimage`: the outcome row is `Aᵀ z` and the shift is
/// one for the sign `−1`.
pub open spec fn deterministic_recorded(v: SimulationSpec, preimage: PauliSpec) -> SimulationSpec {
    let w = outcome_room(v, false);
    let j = w.outcome_count() as int;
    SimulationSpec {
        outcome_matrix: w.outcome_matrix.update(j, combination(w.sign_matrix, preimage.z, w.random_capacity)),
        outcome_shift: if preimage.phase == 2 {
            w.outcome_shift.update(j, true)
        } else {
            w.outcome_shift
        },
        random_outcome_indicator: w.random_outcome_indicator.push(false),
        ..w
    }
}

/// The simulator after a random measurement resolved by the stabilizer `hint`, whose preimage
/// `(−1)^α Z^{b'}` under the encoder has no `X` part, with the rotated encoder `encoder`: a fresh
/// random bit `r_k` becomes the outcome (relabelled by `α`), `B` gains `a (a + e_k)ᵀ` for
/// `a = Aᵀ b'`, `s_k` flips when `α = 1`, and `hint` is applied on the branches selected by
/// `a + e_k`.
pub open spec fn randomly_recorded(v: SimulationSpec, hint: PauliSpec, encoder: PhasedCliffordSpec) -> SimulationSpec {
    let w = outcome_room(v, true);
    let pre = preimage_spec(w.encoder.clifford, hint);
    let a = combination(w.sign_matrix, pre.z, w.random_capacity);
    let k = w.random_bit_count as int;
    let a1 = a.update(k, true);
    let x = allocated(SimulationSpec { encoder, ..w }, false);
    let j = w.outcome_count() as int;
    let flip = pre.phase / 2 == 1;
    let y = SimulationSpec {
        quadratic_phase_matrix: Seq::new(
            x.quadratic_phase_matrix.len(),
            |row: int|
                if a[row] {
                    bit_xor(x.quadratic_phase_matrix[row], a1)
                } else {
                    x.quadratic_phase_matrix[row]
                },
        ),
        linear_sign_phase: if flip {
            x.linear_sign_phase.update(k, !x.linear_sign_phase[k])
        } else {
            x.linear_sign_phase
        },
        outcome_shift: if flip {
            x.outcome_shift.update(j, !x.outcome_shift[j])
        } else {
            x.outcome_shift
        },
        ..x
    };
    conditioned_update(y, hint, a1)
}

/// The first position from `k` on at which `bits` is set, the length when there is none.
pub open spec fn first_set_from(bits: Seq<bool>, k: int) -> int
    decreases bits.len() - k,
{
    if k < 0 || k >= bits.len() {
        bits.len() as int
    } else if bits[k] {
        k
    } else {
        first_set_from(bits, k + 1)
    }
}

/// `new` is `v` after measuring `observable` with the stabilizer `hint` that anticommutes with
/// it: the encoder is rotated by `e^{iπ/4 (i hint · observable)}` and a fresh random bit is
/// recorded as the outcome.
pub open spec fn measured_with_hint(v: SimulationSpec, new: SimulationSpec, observable: PauliSpec, hint: PauliSpec) -> bool {
    &&& new == randomly_recorded(v, hint, new.encoder)
    &&& new.encoder.clifford == crate::clifford::tableau_map(
        v.encoder.clifford,
        |q: PauliSpec| crate::pauli::conj_by_exp(rotation_generator(observable, hint), q),
    )
    &&& (new.encoder.reference == v.encoder.reference || new.encoder.reference == bit_xor(
        v.encoder.reference,
        rotation_generator(observable, hint).x,
    ))
    &&& (v.qubit_capacity() > 0 && crate::pauli::is_order_two_spec(rotation_generator(observable, hint))
        ==> crate::phased_clifford::pauli_exp_amplitude_update(
        v.encoder,
        new.encoder,
        rotation_generator(observable, hint),
    ))
}

/// `new` is `v` after measuring `observable` (sized to the register): a deterministic outcome
/// when its preimage under the encoder has no `X` part, otherwise a random outcome resolved by
/// the stabilizer `R Z_q R†` for the first `X` position `q` of the preimage.
pub open spec fn measured(v: SimulationSpec, new: SimulationSpec, observable: PauliSpec) -> bool {
    let pre = preimage_spec(v.encoder.clifford, observable);
    if crate::gf2::bit_is_zero(pre.x) {
        new == deterministic_recorded(v, pre)
    } else {
        measured_with_hint(v, new, observable, v.encoder.clifford.z_images[first_set_from(pre.x, 0)])
    }
}

/// The recorded outcomes `v₀ + M r` for the assignment `random_bits` of the live random bits.
pub open spec fn outcome_vector_spec(v: SimulationSpec, random_bits: Seq<bool>) -> Seq<bool> {
    Seq::new(
        v.outcome_count(),
        |j: int| v.outcome_shift[j] != bit_dot(resize_bits(v.outcome_matrix[j], v.random_bit_count), random_bits),
    )
}

/// The Pauli generating the measurement rotation: `−i · observable · hint`.
pub open spec fn rotation_generator(observable: PauliSpec, hint: PauliSpec) -> PauliSpec {
    crate::pauli::pauli_scale(crate::pauli::pauli_mul(observable, hint), 3)
}

/// The largest entry of `s`, `None` when `s` is empty.
fn max_index(s: &[usize]) -> (r: Option<usize>)
    ensures
        opt_nat(r) == max_entry(s@),
        forall|k: int| 0 <= k < s@.len() ==> (r matches Some(m) && #[trigger] s@[k] <= m),
{
    let mut r: Option<usize> = None;
    let mut k: usize = 0;
    while k < s.len()
        invariant
            k <= s@.len(),
            r matches Some(m) ==> max_entry(s@.take(k as int)) == Some(m as nat),
            r is None ==> max_entry(s@.take(k as int)) is None,
            forall|j: int| 0 <= j < k ==> (r matches Some(m) && #[trigger] s@[j] <= m),
        decreases s@.len() - k,
    {
        proof {
            assert(s@.take(k + 1).drop_last() =~= s@.take(k as int));
        }
        let v = s[k];
        r = match r {
            Some(m) => if v > m {
                Some(v)
            } else {
                Some(m)
            },
            None => Some(v),
        };
        k = k + 1;
    }
    proof {
        assert(s@.take(s@.len() as int) =~= s@);
    }
    r
}

/// An optional index as an optional natural number.
pub open spec fn opt_nat(o: Option<usize>) -> Option<nat> {
    match o {
        Some(x) => Some(x as nat),
        None => None,
    }
}

/// The larger of two optional qubit indices.
fn max_of_options(a: Option<usize>, b: Option<usize>) -> (r: Option<usize>)
    ensures
        opt_nat(r) == max_option(opt_nat(a), opt_nat(b)),
{
    match a {
        Some(x) => match b {
            Some(y) => if x >= y {
                Some(x)
            } else {
                Some(y)
            },
            None => Some(x),
        },
        None => b,
    }
}

/// Asymptotically efficient stabilizer simulation tracking all outcomes and the exact global phase.
pub struct PhasedOutcomeCompleteSimulation {
    phased_clifford: PhasedCliffordUnitary,
    sign_matrix: BitMatrix,
    quadratic_phase_matrix: BitMatrix,
    outcome_matrix: BitMatrix,
    outcome_shift: Vec<bool>,
    linear_i_phase: Vec<bool>,
    linear_sign_phase: Vec<bool>,
    random_outcome_indicator: Vec<bool>,
    symbolic_angle_indicator: Vec<bool>,
    random_bit_count: usize,
    qubit_count: usize,
}

impl View for PhasedOutcomeCompleteSimulation {
    type V = SimulationSpec;

    closed spec fn view(&self) -> SimulationSpec {
        SimulationSpec {
            encoder: self.phased_clifford@,
            sign_matrix: self.sign_matrix@,
            quadratic_phase_matrix: self.quadratic_phase_matrix@,
            outcome_matrix: self.outcome_matrix@,
            outcome_shift: self.outcome_shift@,
            linear_i_phase: self.linear_i_phase@,
            linear_sign_phase: self.linear_sign_phase@,
            random_outcome_indicator: self.random_outcome_indicator@,
            symbolic_angle_indicator: self.symbolic_angle_indicator@,
            random_bit_count: self.random_bit_count as nat,
            qubit_count: self.qubit_count as nat,
            random_capacity: self.sign_matrix.column_count as nat,
        }
    }
}

impl SimulationSpec {
    /// The number of qubits the encoder is sized for.
    pub open spec fn qubit_capacity(self) -> nat {
        self.sign_matrix.len()
    }

    /// The number of outcome rows allocated.
    pub open spec fn outcome_capacity(self) -> nat {
        self.outcome_matrix.len()
    }

    /// The number of outcomes recorded so far.
    pub open spec fn outcome_count(self) -> nat {
        self.random_outcome_indicator.len()
    }

    /// The shapes of all components agree, every count fits its capacity, the padding beyond the
    /// recorded outcomes and the allocated random bits is zero, each random outcome's row
    /// selects its random bit, and the encoder acts as the identity on the qubits past the live
    /// ones.
    pub open spec fn consistent(self) -> bool {
        let rc = self.random_capacity;
        &&& self.encoder.clifford.x_images.len() == self.qubit_capacity()
        &&& shaped(self.sign_matrix, self.qubit_capacity(), rc)
        &&& shaped(self.quadratic_phase_matrix, rc, rc)
        &&& shaped(self.outcome_matrix, self.outcome_capacity(), rc)
        &&& self.outcome_shift.len() == self.outcome_capacity()
        &&& self.linear_i_phase.len() == rc
        &&& self.linear_sign_phase.len() == rc
        &&& self.outcome_count() <= self.outcome_capacity()
        &&& self.symbolic_angle_indicator.len() == self.random_bit_count
        &&& crate::gf2::count_equal(self.random_outcome_indicator, true, self.outcome_count() as int)
            == self.random_bit_count
        &&& self.random_bit_count <= rc
        &&& self.qubit_count <= self.qubit_capacity()
        &&& rc <= self.outcome_capacity()
        &&& self.qubit_capacity() <= size_bound()
        &&& self.outcome_capacity() <= size_bound()
        &&& outcome_padding_zero(self)
        &&& random_rows_are_units(self)
        &&& random_padding_zero(self)
        &&& crate::validity::splits_at(self.encoder.clifford, self.qubit_count)
    }
}

impl PhasedOutcomeCompleteSimulation {
    /// The internal invariant: the encoder is well formed and the view is consistent.
    pub closed spec fn wf(&self) -> bool {
        &&& self.phased_clifford.wf()
        &&& self.sign_matrix.well_formed()
        &&& self.quadratic_phase_matrix.well_formed()
        &&& self.outcome_matrix.well_formed()
        &&& self.quadratic_phase_matrix.column_count == self.sign_matrix.column_count
        &&& self.outcome_matrix.column_count == self.sign_matrix.column_count
        &&& self@.consistent()
    }

    /// The encoder of a simulator is the tableau of a Clifford unitary.
    pub proof fn lemma_encoder_is_clifford(&self)
        requires
            self.wf(),
        ensures
            crate::decomposition::is_clifford_tableau(self@.encoder.clifford, self@.qubit_capacity()),
    {
        self.lemma_wf();
    }

    /// Everything but the `𝔽₂` phase and sign data agrees.
    spec fn same_frame(&self, other: &Self) -> bool {
        &&& self.phased_clifford == other.phased_clifford
        &&& self.outcome_matrix == other.outcome_matrix
        &&& self.outcome_shift == other.outcome_shift
        &&& self.random_outcome_indicator == other.random_outcome_indicator
        &&& self.symbolic_angle_indicator == other.symbolic_angle_indicator
        &&& self.random_bit_count == other.random_bit_count
        &&& self.qubit_count == other.qubit_count
    }

    proof fn lemma_wf(&self)
        requires
            self.wf(),
        ensures
            self@.consistent(),
            self.phased_clifford.wf(),
            self.phased_clifford.n() == self.sign_matrix.rows@.len(),
            self.sign_matrix.well_formed(),
            self.quadratic_phase_matrix.well_formed(),
            self.outcome_matrix.well_formed(),
            self.quadratic_phase_matrix.rows@.len() == self.sign_matrix.column_count,
            self.quadratic_phase_matrix.column_count == self.sign_matrix.column_count,
            self.outcome_matrix.column_count == self.sign_matrix.column_count,
            self.outcome_matrix.rows@.len() == self.outcome_shift@.len(),
            self.linear_i_phase@.len() == self.sign_matrix.column_count,
            self.linear_sign_phase@.len() == self.sign_matrix.column_count,
            self.random_outcome_indicator@.len() <= self.outcome_matrix.rows@.len(),
            self.random_bit_count <= self.sign_matrix.column_count,
            self.qubit_count <= self.sign_matrix.rows@.len(),
            self.sign_matrix.column_count <= self.outcome_matrix.rows@.len(),
            self.sign_matrix.rows@.len() <= size_bound(),
            self.outcome_matrix.rows@.len() <= size_bound(),
            self.symbolic_angle_indicator@.len() == self.random_bit_count,
    {
    }

    /// The view of a simulator is consistent: its components have matching shapes.
    pub proof fn lemma_consistent(&self)
        requires
            self.wf(),
        ensures
            self@.consistent(),
    {
    }

    /// A simulator on `qubit_count` qubits with room for the given numbers of outcomes.
    pub fn with_capacity(qubit_count: usize, outcome_count: usize, random_outcome_count: usize) -> (s: Self)
        requires
            qubit_count <= size_bound(),
            outcome_count <= size_bound(),
            random_outcome_count <= outcome_count || random_outcome_count <= CLIFFORD_BIT_ALIGNMENT,
        ensures
            s.wf(),
            s@.encoder.clifford == crate::clifford::identity_tableau(qubit_count as nat),
            s@.encoder.reference == bit_zeros(qubit_count as nat),
            s@.encoder.phase == 0,
            s@.qubit_count == qubit_count,
            s@.qubit_capacity() == qubit_count,
            s@.random_bit_count == 0,
            s@.outcome_count() == 0,
            s@.symbolic_angle_indicator.len() == 0,
            forall|i: int| 0 <= i < s@.sign_matrix.len() ==> #[trigger] s@.sign_matrix[i] == bit_zeros(s@.random_capacity),
            s@.linear_i_phase == bit_zeros(s@.random_capacity),
            s@.linear_sign_phase == bit_zeros(s@.random_capacity),
            s@.outcome_shift == bit_zeros(s@.outcome_capacity()),
            s@ == fresh_spec(
                qubit_count as nat,
                max_nat(outcome_count as nat, CLIFFORD_BIT_ALIGNMENT as nat),
                max_nat(random_outcome_count as nat, CLIFFORD_BIT_ALIGNMENT as nat),
            ),
    {
        let outcome_capacity = if outcome_count > CLIFFORD_BIT_ALIGNMENT {
            outcome_count
        } else {
            CLIFFORD_BIT_ALIGNMENT
        };
        let random_capacity = if random_outcome_count > CLIFFORD_BIT_ALIGNMENT {
            random_outcome_count
        } else {
            CLIFFORD_BIT_ALIGNMENT
        };
        let r = PhasedOutcomeCompleteSimulation {
            phased_clifford: PhasedCliffordUnitary::identity(qubit_count),
            sign_matrix: BitMatrix::zeros(qubit_count, random_capacity),
            quadratic_phase_matrix: BitMatrix::zeros(random_capacity, random_capacity),
            outcome_matrix: BitMatrix::zeros(outcome_capacity, random_capacity),
            outcome_shift: zeros(outcome_capacity),
            linear_i_phase: zeros(random_capacity),
            linear_sign_phase: zeros(random_capacity),
            random_outcome_indicator: Vec::new(),
            symbolic_angle_indicator: Vec::new(),
            random_bit_count: 0,
            qubit_count,
        };
        proof {
            let target = fresh_spec(qubit_count as nat, outcome_capacity as nat, random_capacity as nat);
            assert(r@.sign_matrix =~= target.sign_matrix);
            assert(r@.quadratic_phase_matrix =~= target.quadratic_phase_matrix);
            assert(r@.outcome_matrix =~= target.outcome_matrix);
            assert(r@.random_outcome_indicator =~= target.random_outcome_indicator);
            assert(r@.symbolic_angle_indicator =~= target.symbolic_angle_indicator);
        }
        r
    }

    /// A simulator on `qubit_count` qubits.
    pub fn new(qubit_count: usize) -> (s: Self)
        requires
            qubit_count <= size_bound(),
        ensures
            s.wf(),
            s@.qubit_count == qubit_count,
            s@.qubit_capacity() == qubit_count,
            s@.outcome_count() == 0,
            s@.random_bit_count == 0,
            s@.encoder.clifford == crate::clifford::identity_tableau(qubit_count as nat),
            s@.encoder.reference == bit_zeros(qubit_count as nat),
            s@.encoder.phase == 0,
            s@ == fresh_spec(qubit_count as nat, CLIFFORD_BIT_ALIGNMENT as nat, CLIFFORD_BIT_ALIGNMENT as nat),
    {
        Self::with_capacity(qubit_count, 0, 0)
    }

    /// The number of qubits in use.
    pub fn qubit_count(&self) -> (r: usize)
        ensures
            r == self@.qubit_count,
    {
        self.qubit_count
    }

    /// The number of outcomes recorded so far.
    pub fn outcome_count(&self) -> (r: usize)
        ensures
            r == self@.outcome_count(),
    {
        self.random_outcome_indicator.len()
    }

    /// The number of random (non-deterministic) outcomes.
    pub fn random_outcome_count(&self) -> (r: usize)
        ensures
            r == self@.random_bit_count,
    {
        self.random_bit_count
    }

    /// Which outcomes are random.
    pub fn random_outcome_indicator(&self) -> (r: &Vec<bool>)
        ensures
            r@ == self@.random_outcome_indicator,
    {
        &self.random_outcome_indicator
    }

    /// Which random bits are symbolic rotation angles.
    pub fn symbolic_angle_indicator(&self) -> (r: &Vec<bool>)
        ensures
            r@ == self@.symbolic_angle_indicator,
    {
        &self.symbolic_angle_indicator
    }

    /// The number of qubits the encoder is sized for.
    pub fn qubit_capacity(&self) -> (r: usize)
        requires
            self.wf(),
        ensures
            r == self@.qubit_capacity(),
    {
        self.sign_matrix.row_count()
    }

    /// The number of outcome rows allocated.
    pub fn outcome_capacity(&self) -> (r: usize)
        requires
            self.wf(),
        ensures
            r == self@.outcome_capacity(),
    {
        self.outcome_matrix.row_count()
    }

    /// The number of random-bit columns allocated.
    pub fn random_outcome_capacity(&self) -> (r: usize)
        requires
            self.wf(),
        ensures
            r == self@.random_capacity,
    {
        self.sign_matrix.column_count
    }

    /// The sign matrix `A` with its padding.
    pub fn aligned_sign_matrix(&self) -> (r: &BitMatrix)
        ensures
            r@ == self@.sign_matrix,
    {
        &self.sign_matrix
    }

    /// The quadratic phase matrix `B` with its padding.
    pub fn aligned_quadratic_phase_matrix(&self) -> (r: &BitMatrix)
        ensures
            r@ == self@.quadratic_phase_matrix,
    {
        &self.quadratic_phase_matrix
    }

    /// The outcome matrix `M` with its padding.
    pub fn aligned_outcome_matrix(&self) -> (r: &BitMatrix)
        ensures
            r@ == self@.outcome_matrix,
    {
        &self.outcome_matrix
    }

    /// The outcome shift `v₀` with its padding.
    pub fn aligned_outcome_shift(&self) -> (r: &Vec<bool>)
        ensures
            r@ == self@.outcome_shift,
    {
        &self.outcome_shift
    }

    /// The linear `i`-phase `p` with its padding.
    pub fn aligned_linear_i_phase(&self) -> (r: &Vec<bool>)
        ensures
            r@ == self@.linear_i_phase,
    {
        &self.linear_i_phase
    }

    /// The linear `−1`-phase `s` with its padding.
    pub fn aligned_linear_sign_phase(&self) -> (r: &Vec<bool>)
        ensures
            r@ == self@.linear_sign_phase,
    {
        &self.linear_sign_phase
    }

    /// The sign matrix `A` on the live qubits and random bits.
    pub fn sign_matrix(&self) -> (r: BitMatrix)
        requires
            self.wf(),
        ensures
            r.well_formed(),
            r@ == resize_matrix(self@.sign_matrix, self@.qubit_count, self@.random_bit_count),
            r.column_count == self@.random_bit_count,
    {
        self.sign_matrix.resized(self.qubit_count, self.random_bit_count)
    }

    /// The quadratic phase matrix `B` on the live random bits.
    pub fn quadratic_phase_matrix(&self) -> (r: BitMatrix)
        requires
            self.wf(),
        ensures
            r.well_formed(),
            r@ == resize_matrix(self@.quadratic_phase_matrix, self@.random_bit_count, self@.random_bit_count),
            r.column_count == self@.random_bit_count,
    {
        self.quadratic_phase_matrix.resized(self.random_bit_count, self.random_bit_count)
    }

    /// The outcome matrix `M` on the live outcomes and random bits.
    pub fn outcome_matrix(&self) -> (r: BitMatrix)
        requires
            self.wf(),
        ensures
            r.well_formed(),
            r@ == resize_matrix(self@.outcome_matrix, self@.outcome_count(), self@.random_bit_count),
            r.column_count == self@.random_bit_count,
    {
        self.outcome_matrix.resized(self.random_outcome_indicator.len(), self.random_bit_count)
    }

    /// The outcome shift `v₀` on the live outcomes.
    pub fn outcome_shift(&self) -> (r: Vec<bool>)
        ensures
            r@ == resize_bits(self@.outcome_shift, self@.outcome_count()),
    {
        resize_vec(&self.outcome_shift, self.random_outcome_indicator.len())
    }

    /// The linear `i`-phase `p` on the live random bits.
    pub fn linear_i_phase(&self) -> (r: Vec<bool>)
        ensures
            r@ == resize_bits(self@.linear_i_phase, self@.random_bit_count),
    {
        resize_vec(&self.linear_i_phase, self.random_bit_count)
    }

    /// The linear `−1`-phase `s` on the live random bits.
    pub fn linear_sign_phase(&self) -> (r: Vec<bool>)
        ensures
            r@ == resize_bits(self@.linear_sign_phase, self@.random_bit_count),
    {
        resize_vec(&self.linear_sign_phase, self.random_bit_count)
    }

    /// The phased encoder `R` restricted to the live qubits.
    pub fn phased_state_encoder(&self) -> (r: PhasedCliffordUnitary)
        requires
            self.wf(),
        ensures
            r.wf(),
            r@.clifford == crate::clifford::resize_tableau(self@.encoder.clifford, self@.qubit_count),
            r@.reference == resize_bits(self@.encoder.reference, self@.qubit_count),
            r@.phase == self@.encoder.phase,
    {
        let mut r = self.phased_clifford.duplicate();
        r.resize(self.qubit_count);
        r
    }

    /// The phaseless encoder `R` restricted to the live qubits.
    pub fn state_encoder(&self) -> (r: CliffordUnitary)
        requires
            self.wf(),
        ensures
            r.wf(),
            r@ == crate::clifford::resize_tableau(self@.encoder.clifford, self@.qubit_count),
    {
        self.phased_state_encoder().into_clifford()
    }

    /// Grows every outcome-indexed and random-bit-indexed component to at least the given
    /// capacities, padding with zeros.
    pub fn reserve_outcomes(&mut self, new_outcome_capacity: usize, new_random_outcome_capacity: usize)
        requires
            old(self).wf(),
            new_outcome_capacity >= new_random_outcome_capacity,
            new_outcome_capacity <= size_bound(),
        ensures
            final(self).wf(),
            final(self)@ == grow_outcomes(
                old(self)@,
                max_nat(new_outcome_capacity as nat, old(self)@.outcome_capacity()),
                max_nat(new_random_outcome_capacity as nat, old(self)@.random_capacity),
            ),
    {
        proof {
            self.lemma_wf();
        }
        let outcome_capacity = if new_outcome_capacity > self.outcome_matrix.row_count() {
            new_outcome_capacity
        } else {
            self.outcome_matrix.row_count()
        };
        let random_capacity = if new_random_outcome_capacity > self.sign_matrix.column_count {
            new_random_outcome_capacity
        } else {
            self.sign_matrix.column_count
        };
        self.outcome_matrix = self.outcome_matrix.resized(outcome_capacity, random_capacity);
        self.sign_matrix = self.sign_matrix.resized(self.sign_matrix.row_count(), random_capacity);
        self.quadratic_phase_matrix = self.quadratic_phase_matrix.resized(random_capacity, random_capacity);
        self.outcome_shift = resize_vec(&self.outcome_shift, outcome_capacity);
        self.linear_i_phase = resize_vec(&self.linear_i_phase, random_capacity);
        self.linear_sign_phase = resize_vec(&self.linear_sign_phase, random_capacity);
        proof {
            let target = grow_outcomes(old(self)@, outcome_capacity as nat, random_capacity as nat);
            assert(self@.outcome_shift =~= target.outcome_shift);
            assert(self@ == target);
            lemma_outcome_padding_grown(old(self)@, outcome_capacity as nat, random_capacity as nat);
        }
    }

    /// Grows the encoder and the sign matrix to `new_capacity` qubits if that is more than the
    /// current capacity.
    pub fn reserve_qubits(&mut self, new_capacity: usize)
        requires
            old(self).wf(),
            new_capacity <= size_bound(),
        ensures
            final(self).wf(),
            new_capacity > old(self)@.qubit_capacity() ==> final(self)@ == grow_qubits(old(self)@, new_capacity as nat),
            new_capacity <= old(self)@.qubit_capacity() ==> final(self)@ == old(self)@,
    {
        proof {
            self.lemma_wf();
        }
        if new_capacity > self.sign_matrix.row_count() {
            self.sign_matrix = self.sign_matrix.resized(new_capacity, self.sign_matrix.column_count);
            self.phased_clifford.resize(new_capacity);
            proof {
                lemma_outcome_padding_kept(old(self)@, self@);
                crate::validity::lemma_resize_keeps_split(
                    old(self)@.encoder.clifford,
                    old(self)@.qubit_capacity(),
                    new_capacity as nat,
                    old(self)@.qubit_count,
                );
            }
        }
    }

    /// Makes room for qubit `max_qubit_id` and counts it as live.
    fn ensure_qubit_capacity(&mut self, max_qubit_id: Option<usize>)
        requires
            old(self).wf(),
            max_qubit_id matches Some(m) ==> m < old(self)@.qubit_capacity() || m < size_bound() / 2,
        ensures
            final(self).wf(),
            final(self)@ == with_support(old(self)@, opt_nat(max_qubit_id)),
            max_qubit_id matches Some(m) ==> final(self)@.qubit_capacity() > m,
    {
        proof {
            self.lemma_wf();
        }
        if let Some(max_qubit_id) = max_qubit_id {
            if max_qubit_id >= self.sign_matrix.row_count() {
                let new_capacity = next_power_of_two(max_qubit_id + 1);
                self.reserve_qubits(new_capacity);
            }
            proof {
                self.lemma_wf();
            }
            let ghost before = self@;
            if max_qubit_id + 1 > self.qubit_count {
                self.qubit_count = max_qubit_id + 1;
            }
            proof {
                lemma_outcome_padding_kept(before, self@);
                lemma_random_padding_kept(before, self@);
                crate::validity::lemma_split_monotone(before.encoder.clifford, before.qubit_count, self@.qubit_count);
            }
        }
    }

    /// Makes room for one more outcome (and one more random bit when `random_outcome`).
    fn ensure_outcome_capacity(&mut self, random_outcome: bool)
        requires
            old(self).wf(),
            old(self)@.outcome_count() < size_bound() / 2,
            old(self)@.random_bit_count < size_bound() / 2,
        ensures
            final(self).wf(),
            final(self)@.outcome_count() < final(self)@.outcome_capacity(),
            random_outcome ==> final(self)@.random_bit_count < final(self)@.random_capacity,
            final(self)@ == outcome_room(old(self)@, random_outcome),
            old(self)@.outcome_count() < old(self)@.outcome_capacity() && (!random_outcome || old(self)@.random_bit_count
                < old(self)@.random_capacity) ==> final(self)@ == old(self)@,
    {
        proof {
            self.lemma_wf();
        }
        let mut new_outcome_capacity = self.outcome_matrix.row_count();
        let next_outcome_pos = self.random_outcome_indicator.len();
        if next_outcome_pos >= new_outcome_capacity {
            new_outcome_capacity = next_power_of_two(next_outcome_pos + 1);
        }
        let mut new_random_outcome_capacity = self.sign_matrix.column_count;
        if random_outcome {
            let next_random_bit = self.random_bit_count;
            if next_random_bit >= new_random_outcome_capacity {
                new_random_outcome_capacity = next_power_of_two(next_random_bit + 1);
            }
        }
        if new_outcome_capacity < new_random_outcome_capacity {
            new_outcome_capacity = new_random_outcome_capacity;
        }
        self.reserve_outcomes(new_outcome_capacity, new_random_outcome_capacity);
        proof {
            lemma_grow_outcomes_same(old(self)@);
        }
    }

    /// Records a new random bit (a symbolic rotation angle when `is_symbolic_angle`) as a new
    /// outcome and returns the outcome's position.
    fn allocate_random_bit_with_provenance(&mut self, is_symbolic_angle: bool) -> (r: usize)
        requires
            old(self).wf(),
            old(self)@.outcome_count() < size_bound() / 2,
            old(self)@.random_bit_count < size_bound() / 2,
        ensures
            final(self).wf(),
            final(self)@ == allocated(old(self)@, is_symbolic_angle),
            r == old(self)@.outcome_count(),
            final(self)@.random_outcome_indicator == old(self)@.random_outcome_indicator.push(true),
            final(self)@.symbolic_angle_indicator == old(self)@.symbolic_angle_indicator.push(is_symbolic_angle),
            final(self)@.random_bit_count == old(self)@.random_bit_count + 1,
            final(self)@.encoder == old(self)@.encoder,
            final(self)@.qubit_count == old(self)@.qubit_count,
            final(self)@.outcome_matrix[r as int][old(self)@.random_bit_count as int],
            old(self)@.outcome_count() < old(self)@.outcome_capacity() && old(self)@.random_bit_count
                < old(self)@.random_capacity ==> final(self)@.random_capacity == old(self)@.random_capacity
                && final(self)@.sign_matrix == old(self)@.sign_matrix && final(self)@.quadratic_phase_matrix
                == old(self)@.quadratic_phase_matrix && final(self)@.linear_sign_phase == old(self)@.linear_sign_phase
                && final(self)@.linear_i_phase == old(self)@.linear_i_phase,
    {
        self.ensure_outcome_capacity(true);
        proof {
            self.lemma_wf();
        }
        let ghost s1 = self@;
        let outcome_pos = self.random_outcome_indicator.len();
        self.outcome_matrix.set(outcome_pos, self.random_bit_count, true);
        let ghost indicator_before = self.random_outcome_indicator@;
        self.random_outcome_indicator.push(true);
        proof {
            crate::gf2::lemma_count_equal_prefix(
                indicator_before,
                self.random_outcome_indicator@,
                true,
                indicator_before.len() as int,
            );
        }
        self.symbolic_angle_indicator.push(is_symbolic_angle);
        self.random_bit_count = self.random_bit_count + 1;
        proof {
            assert forall|j: int|
                0 <= j < self@.outcome_count() && self@.random_outcome_indicator[j] implies #[trigger] self@.outcome_matrix[j]
                == bit_unit(self@.random_capacity, count_equal(self@.random_outcome_indicator, true, j) as int) by {
                crate::gf2::lemma_count_equal_prefix(indicator_before, self.random_outcome_indicator@, true, j);
                if j < outcome_pos {
                    assert(s1.outcome_matrix[j] == bit_unit(
                        s1.random_capacity,
                        count_equal(s1.random_outcome_indicator, true, j) as int,
                    ));
                } else {
                    assert(s1.outcome_matrix[j] == bit_zeros(s1.random_capacity));
                    assert(self@.outcome_matrix[j] =~= bit_unit(self@.random_capacity, s1.random_bit_count as int));
                }
            }
        }
        outcome_pos
    }

    /// Allocates a new random bit as a new outcome.
    pub fn allocate_random_bit(&mut self) -> (r: usize)
        requires
            old(self).wf(),
            old(self)@.outcome_count() < size_bound() / 2,
            old(self)@.random_bit_count < size_bound() / 2,
        ensures
            final(self).wf(),
            final(self)@ == allocated(old(self)@, false),
            r == old(self)@.outcome_count(),
            final(self)@.random_outcome_indicator == old(self)@.random_outcome_indicator.push(true),
            final(self)@.symbolic_angle_indicator == old(self)@.symbolic_angle_indicator.push(false),
            final(self)@.random_bit_count == old(self)@.random_bit_count + 1,
            final(self)@.encoder == old(self)@.encoder,
            final(self)@.qubit_count == old(self)@.qubit_count,
            old(self)@.outcome_count() < old(self)@.outcome_capacity() && old(self)@.random_bit_count
                < old(self)@.random_capacity ==> final(self)@.random_capacity == old(self)@.random_capacity
                && final(self)@.sign_matrix == old(self)@.sign_matrix && final(self)@.quadratic_phase_matrix
                == old(self)@.quadratic_phase_matrix && final(self)@.linear_sign_phase == old(self)@.linear_sign_phase
                && final(self)@.linear_i_phase == old(self)@.linear_i_phase,
    {
        self.allocate_random_bit_with_provenance(false)
    }

    /// Allocates a new symbolic rotation angle as a new outcome.
    pub fn allocate_symbolic_angle(&mut self) -> (r: usize)
        requires
            old(self).wf(),
            old(self)@.outcome_count() < size_bound() / 2,
            old(self)@.random_bit_count < size_bound() / 2,
        ensures
            final(self).wf(),
            final(self)@ == allocated(old(self)@, true),
            r == old(self)@.outcome_count(),
            final(self)@.random_outcome_indicator == old(self)@.random_outcome_indicator.push(true),
            final(self)@.symbolic_angle_indicator == old(self)@.symbolic_angle_indicator.push(true),
            final(self)@.random_bit_count == old(self)@.random_bit_count + 1,
            final(self)@.encoder == old(self)@.encoder,
            final(self)@.qubit_count == old(self)@.qubit_count,
    {
        self.allocate_random_bit_with_provenance(true)
    }

    /// Applies `pauli` on the branches where `⟨indicator, r⟩ = 1`: with preimage
    /// `R† pauli R = i^l X^x Z^z`, `A ← A + x indicatorᵀ`, the factor `(−1)^{⟨z, A r⟩⟨indicator, r⟩}`
    /// enters `B`, and `i^l` enters `p`, `B` and `s`.
    fn apply_pauli_conditioned_on_inner_random_bits(&mut self, pauli: &DensePauli, indicator: &Vec<bool>)
        requires
            old(self).wf(),
            pauli.wf(),
            pauli@.x.len() == old(self)@.qubit_capacity(),
            indicator@.len() == old(self)@.random_capacity,
            forall|k: int|
                old(self)@.random_bit_count <= k < old(self)@.random_capacity ==> !#[trigger] indicator@[k],
        ensures
            final(self).wf(),
            final(self)@ == conditioned_update(old(self)@, pauli@, indicator@),
    {
        proof {
            self.lemma_wf();
        }
        let preimage = self.phased_clifford.clifford().preimage(pauli);
        let z_times_sign_matrix = combination_of_rows(&self.sign_matrix, &preimage.z_bits);
        let ghost v0 = self@;
        let rc = self.sign_matrix.column_count;
        let mut row: usize = 0;
        while row < rc
            invariant
                old(self).wf(),
                self.same_frame(old(self)),
                self.sign_matrix == old(self).sign_matrix,
                self.quadratic_phase_matrix.well_formed(),
                self.quadratic_phase_matrix.rows@.len() == rc,
                self.quadratic_phase_matrix.column_count == rc,
                rc == old(self).sign_matrix.column_count,
                self.linear_i_phase@ == old(self)@.linear_i_phase,
                self.linear_sign_phase@ == old(self)@.linear_sign_phase,
                indicator@.len() == rc,
                z_times_sign_matrix@.len() == rc,
                row <= rc,
                forall|k: int|
                    0 <= k < rc ==> #[trigger] self.quadratic_phase_matrix@[k] == if k < row && indicator@[k] {
                        bit_xor(old(self)@.quadratic_phase_matrix[k], z_times_sign_matrix@)
                    } else {
                        old(self)@.quadratic_phase_matrix[k]
                    },
            decreases rc - row,
        {
            if indicator[row] {
                self.quadratic_phase_matrix.row_xor_assign(row, &z_times_sign_matrix);
            }
            row = row + 1;
        }
        let qc = self.sign_matrix.row_count();
        let ghost quadratic_snapshot = self.quadratic_phase_matrix;
        let mut q: usize = 0;
        while q < qc
            invariant
                old(self).wf(),
                self.same_frame(old(self)),
                self.quadratic_phase_matrix == quadratic_snapshot,
                self.sign_matrix.well_formed(),
                self.sign_matrix.rows@.len() == qc,
                self.sign_matrix.column_count == rc,
                qc == old(self).sign_matrix.rows@.len(),
                rc == old(self).sign_matrix.column_count,
                self.quadratic_phase_matrix.well_formed(),
                self.quadratic_phase_matrix.rows@.len() == rc,
                self.quadratic_phase_matrix.column_count == rc,
                self.linear_i_phase@ == old(self)@.linear_i_phase,
                self.linear_sign_phase@ == old(self)@.linear_sign_phase,
                preimage@.x.len() == qc,
                indicator@.len() == rc,
                q <= qc,
                forall|k: int|
                    0 <= k < qc ==> #[trigger] self.sign_matrix@[k] == if k < q && preimage@.x[k] {
                        bit_xor(old(self)@.sign_matrix[k], indicator@)
                    } else {
                        old(self)@.sign_matrix[k]
                    },
            decreases qc - q,
        {
            if preimage.x_bits[q] {
                self.sign_matrix.row_xor_assign(q, indicator);
            }
            q = q + 1;
        }
        let l = preimage.xz_phase_exponent();
        let ghost sign_snapshot = self.sign_matrix;
        if l % 2 == 1 {
            let ghost b1 = self@.quadratic_phase_matrix;
            let mut row: usize = 0;
            while row < rc
                invariant
                    old(self).wf(),
                    self.same_frame(old(self)),
                    self.sign_matrix == sign_snapshot,
                    self.quadratic_phase_matrix.well_formed(),
                    self.quadratic_phase_matrix.rows@.len() == rc,
                    self.quadratic_phase_matrix.column_count == rc,
                    self.linear_i_phase@ == old(self)@.linear_i_phase,
                    self.linear_sign_phase@ == old(self)@.linear_sign_phase,
                    rc == old(self).sign_matrix.column_count,
                    indicator@.len() == rc,
                    b1.len() == rc,
                    row <= rc,
                    forall|k: int|
                        0 <= k < rc ==> #[trigger] self.quadratic_phase_matrix@[k] == if k < row && self.linear_i_phase@[k] {
                            bit_xor(b1[k], indicator@)
                        } else {
                            b1[k]
                        },
                decreases rc - row,
            {
                if self.linear_i_phase[row] {
                    self.quadratic_phase_matrix.row_xor_assign(row, indicator);
                }
                row = row + 1;
            }
            xor_assign(&mut self.linear_i_phase, indicator);
        }
        if l >= 2 {
            xor_assign(&mut self.linear_sign_phase, indicator);
        }
        proof {
            let target = conditioned_update(old(self)@, pauli@, indicator@);
            assert(preimage@ == preimage_spec(old(self)@.encoder.clifford, pauli@));
            assert(self@.sign_matrix =~= target.sign_matrix);
            assert(self@.quadratic_phase_matrix =~= target.quadratic_phase_matrix);
            assert(self@ == target);
            lemma_outcome_padding_kept(old(self)@, self@);
            lemma_conditioned_update_padding(old(self)@, pauli@, indicator@);
        }
    }

    /// Records the deterministic outcome of a measurement whose preimage `R† P R` is the
    /// `Z`-type operator `preimage`: the outcome is `⟨z, A r⟩` plus one when the sign is `−1`.
    fn measure_deterministic(&mut self, preimage: &DensePauli)
        requires
            old(self).wf(),
            preimage.wf(),
            preimage@.x.len() == old(self)@.qubit_capacity(),
            old(self)@.outcome_count() < size_bound() / 2,
            old(self)@.random_bit_count < size_bound() / 2,
        ensures
            final(self).wf(),
            final(self)@ == deterministic_recorded(old(self)@, preimage@),
            final(self)@.encoder == old(self)@.encoder,
            final(self)@.random_outcome_indicator == old(self)@.random_outcome_indicator.push(false),
            final(self)@.random_bit_count == old(self)@.random_bit_count,
            final(self)@.symbolic_angle_indicator == old(self)@.symbolic_angle_indicator,
            final(self)@.qubit_count == old(self)@.qubit_count,
            final(self)@.outcome_matrix[old(self)@.outcome_count() as int] == combination(
                final(self)@.sign_matrix,
                preimage@.z,
                final(self)@.random_capacity,
            ),
            final(self)@.outcome_shift[old(self)@.outcome_count() as int] == (preimage@.phase == 2),
    {
        self.ensure_outcome_capacity(false);
        proof {
            self.lemma_wf();
        }
        let ghost s1 = self@;
        let outcome_matrix_row = combination_of_rows(&self.sign_matrix, &preimage.z_bits);
        let outcome_position = self.random_outcome_indicator.len();
        self.outcome_matrix.assign_row(outcome_position, outcome_matrix_row);
        if preimage.phase == 2 {
            self.outcome_shift.set(outcome_position, true);
        }
        let ghost before = self@;
        let ghost indicator_before = self.random_outcome_indicator@;
        self.random_outcome_indicator.push(false);
        proof {
            crate::gf2::lemma_count_equal_prefix(
                indicator_before,
                self.random_outcome_indicator@,
                true,
                indicator_before.len() as int,
            );
        }
        proof {
            let live = s1.random_bit_count as int;
            let rc = s1.random_capacity;
            assert(random_padding_zero(s1));
            lemma_combination_zero_from(s1.sign_matrix, preimage@.z, rc, live, s1.sign_matrix.len() as int);
            assert forall|j: int, k: int| 0 <= j < self@.outcome_matrix.len() && live <= k < rc implies !#[trigger] self@.outcome_matrix[j][k] by {
                if j != outcome_position {
                    assert(!s1.outcome_matrix[j][k]);
                }
            }
            assert(random_padding_zero(self@));
            assert(!before.outcome_shift[outcome_position as int] || preimage@.phase == 2);
            assert forall|j: int| self@.outcome_count() <= j < self@.outcome_capacity() implies #[trigger] self@.outcome_matrix[j]
                == bit_zeros(self@.random_capacity) by {
                assert(before.outcome_matrix[j] == bit_zeros(before.random_capacity));
            }
            assert forall|j: int| self@.outcome_count() <= j < self@.outcome_capacity() implies !#[trigger] self@.outcome_shift[j] by {
                assert(!before.outcome_shift[j]);
            }
            assert forall|j: int|
                0 <= j < self@.outcome_count() && self@.random_outcome_indicator[j] implies #[trigger] self@.outcome_matrix[j]
                == bit_unit(self@.random_capacity, count_equal(self@.random_outcome_indicator, true, j) as int) by {
                assert(j < outcome_position);
                crate::gf2::lemma_count_equal_prefix(indicator_before, self.random_outcome_indicator@, true, j);
                assert(s1.outcome_matrix[j] == bit_unit(
                    s1.random_capacity,
                    count_equal(s1.random_outcome_indicator, true, j) as int,
                ));
            }
        }
    }

    /// Measures `observable` using a stabilizer hint: `hint` anticommutes with `observable` and its
    /// preimage `R† hint R = (−1)^α Z^{b'}` is of `Z` type. The encoder becomes
    /// `e^{iπ/4 (i hint · observable)} R`, a new random bit is allocated, the quadratic and linear
    /// `−1` phases absorb the outcome-dependent sign, and `hint` is applied on the branches selected
    /// by `a ⊕ e_new` where `a = Aᵀ b'`.
    fn measure_with_stabilizer_hint(&mut self, observable: &DensePauli, hint: &DensePauli)
        requires
            old(self).wf(),
            observable.wf(),
            hint.wf(),
            observable@.x.len() == old(self)@.qubit_capacity(),
            hint@.x.len() == old(self)@.qubit_capacity(),
            crate::pauli::is_order_two_spec(observable@),
            crate::pauli::is_order_two_spec(hint@),
            crate::pauli::symplectic(observable@, hint@),
            crate::pauli::identity_from(observable@, old(self)@.qubit_count as int),
            crate::pauli::identity_from(hint@, old(self)@.qubit_count as int),
            old(self)@.outcome_count() < size_bound() / 2,
            old(self)@.random_bit_count < size_bound() / 2,
        ensures
            final(self).wf(),
            final(self)@.random_outcome_indicator == old(self)@.random_outcome_indicator.push(true),
            final(self)@.symbolic_angle_indicator == old(self)@.symbolic_angle_indicator.push(false),
            final(self)@.random_bit_count == old(self)@.random_bit_count + 1,
            final(self)@.qubit_count == old(self)@.qubit_count,
            final(self)@.encoder.clifford == crate::clifford::tableau_map(
                old(self)@.encoder.clifford,
                |q: PauliSpec| crate::pauli::conj_by_exp(rotation_generator(observable@, hint@), q),
            ),
            measured_with_hint(old(self)@, final(self)@, observable@, hint@),
    {
        self.ensure_outcome_capacity(true);
        proof {
            self.lemma_wf();
        }
        let ghost w = self@;
        let preimage = self.phased_clifford.clifford().preimage(hint);
        let alpha = preimage.phase / 2;
        let mut rotation = observable.duplicate();
        rotation.mul_assign_right(hint);
        rotation.add_assign_phase_exp(3);
        proof {
            let n = w.qubit_capacity();
            crate::validity::lemma_mul_order_two(observable@, hint@, n);
            crate::validity::lemma_scale_order_two(crate::pauli::pauli_mul(observable@, hint@), 3, n);
            assert(rotation@ == rotation_generator(observable@, hint@));
            crate::validity::lemma_pauli_keeps_split(w.encoder.clifford, rotation@, n, w.qubit_count);
        }
        self.phased_clifford.left_mul_pauli_exp(&rotation);
        let ghost rotated = self@;
        proof {
            assert(rotated == (SimulationSpec { encoder: rotated.encoder, ..w }));
        }
        let a_with_zero = combination_of_rows(&self.sign_matrix, &preimage.z_bits);
        let mut a_with_one = a_with_zero.clone();
        proof {
            assert(a_with_one@ =~= a_with_zero@);
        }
        a_with_one.set(self.random_bit_count, true);
        let new_random_bit = self.random_bit_count;
        proof {
            assert(random_padding_zero(w));
            lemma_combination_zero_from(
                w.sign_matrix,
                preimage@.z,
                w.random_capacity,
                w.random_bit_count as int,
                w.sign_matrix.len() as int,
            );
        }
        self.allocate_random_bit();
        proof {
            self.lemma_wf();
        }
        let ghost before_rows = self@;
        let rc = self.sign_matrix.column_count;
        let mut row: usize = 0;
        while row < rc
            invariant
                self.wf(),
                self@ == (SimulationSpec { quadratic_phase_matrix: self@.quadratic_phase_matrix, ..before_rows }),
                rc == self@.random_capacity,
                a_with_zero@.len() == rc,
                a_with_one@.len() == rc,
                before_rows.random_bit_count == new_random_bit + 1,
                forall|j: int| new_random_bit <= j < rc ==> !#[trigger] a_with_zero@[j],
                forall|j: int| new_random_bit < j < rc ==> !#[trigger] a_with_one@[j],
                row <= rc,
                forall|k: int|
                    0 <= k < rc ==> #[trigger] self@.quadratic_phase_matrix[k] == if k < row && a_with_zero@[k] {
                        bit_xor(before_rows.quadratic_phase_matrix[k], a_with_one@)
                    } else {
                        before_rows.quadratic_phase_matrix[k]
                    },
            decreases rc - row,
        {
            proof {
                self.lemma_wf();
            }
            if a_with_zero[row] {
                let ghost prior = self@;
                self.quadratic_phase_matrix.row_xor_assign(row, &a_with_one);
                proof {
                    lemma_outcome_padding_kept(prior, self@);
                    let live = prior.random_bit_count as int;
                    assert(random_padding_zero(prior));
                    assert(row < live);
                    assert forall|r: int, k: int| 0 <= r < rc && live <= k < rc implies !#[trigger] self@.quadratic_phase_matrix[r][k] by {
                        assert(!prior.quadratic_phase_matrix[r][k]);
                        assert(!a_with_one@[k]);
                    }
                    assert forall|r: int, k: int| live <= r < rc && 0 <= k < rc implies !#[trigger] self@.quadratic_phase_matrix[r][k] by {
                        assert(r != row);
                        assert(!prior.quadratic_phase_matrix[r][k]);
                    }
                    assert(random_padding_zero(self@));
                }
            }
            row = row + 1;
        }
        proof {
            self.lemma_wf();
            let k = w.random_bit_count as int;
            let a = combination(w.sign_matrix, preimage@.z, w.random_capacity);
            assert(a_with_zero@ == a);
            assert(a_with_one@ =~= a.update(k, true));
            assert(before_rows == allocated(SimulationSpec { encoder: rotated.encoder, ..w }, false));
            assert(self@.quadratic_phase_matrix =~= Seq::new(
                before_rows.quadratic_phase_matrix.len(),
                |r: int|
                    if a[r] {
                        bit_xor(before_rows.quadratic_phase_matrix[r], a.update(k, true))
                    } else {
                        before_rows.quadratic_phase_matrix[r]
                    },
            ));
        }
        let ghost after_rows = self@;
        if alpha == 1 {
            let flipped = !self.linear_sign_phase[new_random_bit];
            self.linear_sign_phase.set(new_random_bit, flipped);
            let outcome_position = self.random_outcome_indicator.len() - 1;
            let shifted = !self.outcome_shift[outcome_position];
            let ghost prior = self@;
            self.outcome_shift.set(outcome_position, shifted);
            proof {
                assert forall|j: int| self@.outcome_count() <= j < self@.outcome_capacity() implies !#[trigger] self@.outcome_shift[j] by {
                    assert(!prior.outcome_shift[j]);
                }
                assert forall|j: int| self@.outcome_count() <= j < self@.outcome_capacity() implies #[trigger] self@.outcome_matrix[j]
                    == bit_zeros(self@.random_capacity) by {
                    assert(prior.outcome_matrix[j] == bit_zeros(prior.random_capacity));
                }
            }
        }
        proof {
            let flip = preimage@.phase / 2 == 1;
            let k = w.random_bit_count as int;
            let j = w.outcome_count() as int;
            assert(flip == (alpha == 1));
            assert(self@ == (SimulationSpec {
                linear_sign_phase: if flip {
                    after_rows.linear_sign_phase.update(k, !after_rows.linear_sign_phase[k])
                } else {
                    after_rows.linear_sign_phase
                },
                outcome_shift: if flip {
                    after_rows.outcome_shift.update(j, !after_rows.outcome_shift[j])
                } else {
                    after_rows.outcome_shift
                },
                ..after_rows
            }));
        }
        self.apply_pauli_conditioned_on_inner_random_bits(hint, &a_with_one);
    }

    /// Measures `observable`, given an anticommuting `hint`; a hint whose preimage is not of `Z`
    /// type is ignored and the measurement proceeds as [`Self::measure_padded`].
    pub fn measure_pauli_with_hint_generic(&mut self, observable: &DensePauli, hint: &DensePauli)
        requires
            old(self).wf(),
            observable.wf(),
            hint.wf(),
            observable@.x.len() == old(self)@.qubit_capacity(),
            hint@.x.len() == old(self)@.qubit_capacity(),
            crate::pauli::is_order_two_spec(observable@),
            crate::pauli::is_order_two_spec(hint@),
            crate::pauli::symplectic(observable@, hint@),
            crate::pauli::identity_from(observable@, old(self)@.qubit_count as int),
            crate::pauli::identity_from(hint@, old(self)@.qubit_count as int),
            old(self)@.outcome_count() < size_bound() / 2,
            old(self)@.random_bit_count < size_bound() / 2,
        ensures
            final(self).wf(),
            final(self)@.outcome_count() == old(self)@.outcome_count() + 1,
            crate::gf2::bit_is_zero(preimage_spec(old(self)@.encoder.clifford, hint@).x) ==> measured_with_hint(
                old(self)@,
                final(self)@,
                observable@,
                hint@,
            ),
            !crate::gf2::bit_is_zero(preimage_spec(old(self)@.encoder.clifford, hint@).x) ==> measured(
                register_for(old(self)@, observable@),
                final(self)@,
                observable@,
            ),
            crate::gf2::bit_is_zero(preimage_spec(final(self)@.encoder.clifford, observable@).x),
            final(self)@.random_bit_count == old(self)@.random_bit_count || final(self)@.random_bit_count
                == old(self)@.random_bit_count + 1,
    {
        proof {
            self.lemma_wf();
        }
        let preimage = self.phased_clifford.clifford().preimage(hint);
        if !crate::gf2::is_zero(&preimage.x_bits) {
            let m = observable.max_support();
            self.ensure_qubit_capacity(m);
            self.measure_padded(observable);
            proof {
                old(self).lemma_encoder_is_clifford();
                lemma_hinted_measurement_stabilizes(old(self)@, self@, observable@, hint@);
            }
        } else {
            let ghost before = self@;
            self.measure_with_stabilizer_hint(observable, hint);
            proof {
                lemma_measurement_rotation_stabilizes(
                    before.encoder.clifford,
                    observable@,
                    hint@,
                    before.qubit_capacity(),
                );
            }
        }
    }

    /// Measures `observable` (sized to the qubit capacity): deterministically when its preimage
    /// is of `Z` type, otherwise as a new random bit using the stabilizer `R Z_pos R†` for the
    /// first `X` position of the preimage as hint.
    fn measure_padded(&mut self, observable: &DensePauli)
        requires
            old(self).wf(),
            observable.wf(),
            observable@.x.len() == old(self)@.qubit_capacity(),
            crate::pauli::is_order_two_spec(observable@),
            crate::pauli::identity_from(observable@, old(self)@.qubit_count as int),
            old(self)@.outcome_count() < size_bound() / 2,
            old(self)@.random_bit_count < size_bound() / 2,
        ensures
            final(self).wf(),
            final(self)@.outcome_count() == old(self)@.outcome_count() + 1,
            final(self)@.qubit_count == old(self)@.qubit_count,
            measured(old(self)@, final(self)@, observable@),
    {
        proof {
            self.lemma_wf();
        }
        let preimage = self.phased_clifford.clifford().preimage(observable);
        let n = preimage.x_bits.len();
        let mut pos: usize = 0;
        while pos < n && !preimage.x_bits[pos]
            invariant
                n == preimage@.x.len(),
                pos <= n,
                forall|j: int| 0 <= j < pos ==> !preimage@.x[j],
                first_set_from(preimage@.x, pos as int) == first_set_from(preimage@.x, 0),
            decreases n - pos,
        {
            pos = pos + 1;
        }
        if pos < n {
            let hint = self.phased_clifford.clifford().image_z(pos);
            proof {
                let t = self@.encoder.clifford;
                assert(crate::decomposition::is_clifford_tableau(t, self@.qubit_capacity()));
                assert(crate::pauli::is_order_two_spec(t.z_images[pos as int]));
                assert(preimage@.x[pos as int] == crate::pauli::symplectic(observable@, t.z_images[pos as int]));
                let live = self@.qubit_count;
                if pos >= live {
                    assert(t.z_images[pos as int] == crate::clifford::pauli_z_spec(pos as int, self@.qubit_capacity()));
                    crate::pauli::lemma_dot_unit_left(self@.qubit_capacity(), pos as int, observable@.x);
                    crate::pauli::lemma_dot_zeros_left(bit_zeros(self@.qubit_capacity()), observable@.z);
                    crate::decomposition::lemma_dot_symmetric(observable@.x, bit_unit(self@.qubit_capacity(), pos as int));
                    crate::decomposition::lemma_dot_symmetric(observable@.z, bit_zeros(self@.qubit_capacity()));
                }
                assert(pos < live);
                assert forall|k: int| live <= k < hint@.x.len() implies !hint@.x[k] && !hint@.z[k] by {
                    assert(!t.z_images[pos as int].x[k]);
                }
            }
            self.measure_with_stabilizer_hint(observable, &hint);
        } else {
            self.measure_deterministic(&preimage);
        }
    }

    /// The `ζ₈` exponent of the scalar `i^⟨p, r⟩ (−1)^⟨B r + s, r⟩` for the random-bit
    /// assignment `random_bits`.
    pub fn output_phase_exponent(&self, random_bits: &Vec<bool>) -> (r: u8)
        requires
            self.wf(),
            random_bits@.len() >= self@.random_bit_count,
        ensures
            r as int == phase_form_value(
                self@.random_bit_count as int,
                random_bits@,
                self@.linear_i_phase,
                self@.linear_sign_phase,
                self@.quadratic_phase_matrix,
            ),
    {
        proof {
            self.lemma_wf();
        }
        phase_form_exponent(
            self.random_bit_count,
            random_bits,
            &self.linear_i_phase,
            &self.linear_sign_phase,
            &self.quadratic_phase_matrix,
        )
    }
}


impl PhasedOutcomeCompleteSimulation {
    /// Makes room for every qubit on which `observable` acts and returns it sized to the register.
    fn register_observable(&mut self, observable: &DensePauli) -> (r: DensePauli)
        requires
            old(self).wf(),
            observable.wf(),
            qubit_in_range(max_support_spec(observable@)),
        ensures
            final(self).wf(),
            final(self)@ == register_for(old(self)@, observable@),
            r.wf(),
            r@ == on_register(final(self)@, observable@),
            r@.x.len() == final(self)@.qubit_capacity(),
    {
        let m = observable.max_support();
        self.ensure_qubit_capacity(m);
        proof {
            self.lemma_wf();
        }
        observable.resized(self.sign_matrix.row_count())
    }

    /// Makes room for every qubit on which `a` or `b` acts and returns both sized to the register.
    fn register_pair(&mut self, a: &DensePauli, b: &DensePauli) -> (r: (DensePauli, DensePauli))
        requires
            old(self).wf(),
            a.wf(),
            b.wf(),
            qubit_in_range(max_option(max_support_spec(a@), max_support_spec(b@))),
        ensures
            final(self).wf(),
            final(self)@ == register_for_pair(old(self)@, a@, b@),
            r.0.wf(),
            r.1.wf(),
            r.0@ == on_register(final(self)@, a@),
            r.1@ == on_register(final(self)@, b@),
            r.0@.x.len() == final(self)@.qubit_capacity(),
            r.1@.x.len() == final(self)@.qubit_capacity(),
    {
        let m = max_of_options(a.max_support(), b.max_support());
        self.ensure_qubit_capacity(m);
        proof {
            self.lemma_wf();
        }
        let n = self.sign_matrix.row_count();
        (a.resized(n), b.resized(n))
    }

    /// Applies the named gate `unitary_op` on `support`, growing the register to cover `support`.
    pub fn unitary_op(&mut self, unitary_op: UnitaryOp, support: &[usize])
        requires
            old(self).wf(),
            support@.len() >= op_arity(unitary_op),
            op_arity(unitary_op) == 2 ==> support@[0] != support@[1],
            qubit_in_range(max_entry(support@)),
        ensures
            final(self).wf(),
            gate_applied(
                with_support(old(self)@, max_entry(support@)).encoder,
                final(self)@.encoder,
                unitary_op,
                support@,
            ),
            crate::phased_clifford::is_one_qubit_gate(unitary_op) ==> crate::phased_clifford::one_qubit_amplitude_update(
                with_support(old(self)@, max_entry(support@)).encoder,
                final(self)@.encoder,
                unitary_op,
                support@[0] as int,
            ),
            crate::phased_clifford::is_two_qubit_permutation_gate(unitary_op)
                ==> crate::phased_clifford::two_qubit_permutation_update(
                with_support(old(self)@, max_entry(support@)).encoder,
                final(self)@.encoder,
                unitary_op,
                support@[0] as int,
                support@[1] as int,
            ),
            final(self)@ == (SimulationSpec {
                encoder: final(self)@.encoder,
                ..with_support(old(self)@, max_entry(support@))
            }),
    {
        let m = max_index(support);
        self.ensure_qubit_capacity(m);
        proof {
            self.lemma_wf();
        }
        let ghost mid = self@;
        proof {
            assert forall|k: int| 0 <= k < op_arity(unitary_op) implies (#[trigger] support@[k]) < mid.qubit_count by {
                assert(support@[k] <= m->0);
            }
            crate::validity::lemma_gate_keeps_split(
                mid.encoder.clifford,
                unitary_op,
                support@,
                mid.qubit_capacity(),
                mid.qubit_count,
            );
        }
        self.phased_clifford.left_mul(unitary_op, support);
        proof {
            lemma_outcome_padding_kept(mid, self@);
        }
    }

    /// Relabels the qubits of `support`: qubit `support[i]` takes the role previously played by
    /// `support[permutation[i]]`.
    pub fn permute(&mut self, permutation: &[usize], support: &[usize])
        requires
            old(self).wf(),
            permutation@.len() == support@.len(),
            forall|i: int| 0 <= i < permutation@.len() ==> (#[trigger] permutation@[i]) < support@.len(),
            forall|i: int, j: int| 0 <= i < j < support@.len() ==> support@[i] != support@[j],
            forall|i: int, j: int| 0 <= i < j < permutation@.len() ==> permutation@[i] != permutation@[j],
            qubit_in_range(max_entry(support@)),
        ensures
            final(self).wf(),
            final(self)@ == permuted(with_support(old(self)@, max_entry(support@)), permutation@, support@),
    {
        let m = max_index(support);
        self.ensure_qubit_capacity(m);
        proof {
            self.lemma_wf();
        }
        let ghost mid = self@;
        proof {
            assert forall|k: int| 0 <= k < support@.len() implies (#[trigger] support@[k]) < mid.qubit_count by {
                assert(support@[k] <= m->0);
            }
            crate::validity::lemma_permutation_keeps_split(
                mid.encoder.clifford,
                permutation@,
                support@,
                mid.qubit_capacity(),
                mid.qubit_count,
            );
        }
        self.phased_clifford.left_mul_permutation(permutation, support);
        proof {
            lemma_outcome_padding_kept(mid, self@);
            assert(self@ == permuted(mid, permutation@, support@));
        }
    }

    /// Applies the Pauli operator `observable`, including its sign.
    pub fn pauli(&mut self, observable: &DensePauli)
        requires
            old(self).wf(),
            observable.wf(),
            qubit_in_range(max_support_spec(observable@)),
        ensures
            final(self).wf(),
            final(self)@.encoder.clifford == crate::clifford::tableau_map(
                register_for(old(self)@, observable@).encoder.clifford,
                |q: PauliSpec|
                    crate::pauli::conj_by_pauli(on_register(register_for(old(self)@, observable@), observable@), q),
            ),
            final(self)@ == (SimulationSpec { encoder: final(self)@.encoder, ..register_for(old(self)@, observable@) }),
            ({
                let before = register_for(old(self)@, observable@).encoder;
                let p = on_register(register_for(old(self)@, observable@), observable@);
                crate::gf2::bit_is_zero(p.x) ==> final(self)@.encoder.reference == before.reference
                    && final(self)@.encoder.phase == (before.phase + 4 * crate::pauli::b2i(
                    bit_dot(p.z, before.reference),
                ) + 2 * p.phase) % 8
            }),
    {
        let p = self.register_observable(observable);
        let ghost mid = self@;
        proof {
            self.lemma_wf();
            lemma_acts_on_live(old(self)@, observable@, max_support_spec(observable@));
            crate::validity::lemma_pauli_keeps_split(mid.encoder.clifford, p@, mid.qubit_capacity(), mid.qubit_count);
        }
        self.phased_clifford.left_mul_pauli(&p);
        proof {
            lemma_outcome_padding_kept(mid, self@);
        }
    }

    /// Applies `exp(iπ/4 · observable)`.
    pub fn pauli_exp(&mut self, observable: &DensePauli)
        requires
            old(self).wf(),
            observable.wf(),
            qubit_in_range(max_support_spec(observable@)),
            crate::pauli::is_order_two_spec(on_register(register_for(old(self)@, observable@), observable@)),
        ensures
            final(self).wf(),
            final(self)@.encoder.clifford == crate::clifford::tableau_map(
                register_for(old(self)@, observable@).encoder.clifford,
                |q: PauliSpec|
                    crate::pauli::conj_by_exp(on_register(register_for(old(self)@, observable@), observable@), q),
            ),
            final(self)@ == (SimulationSpec { encoder: final(self)@.encoder, ..register_for(old(self)@, observable@) }),
            ({
                let before = register_for(old(self)@, observable@);
                let p = on_register(before, observable@);
                before.qubit_capacity() > 0 && crate::pauli::is_order_two_spec(p)
                    ==> crate::phased_clifford::pauli_exp_amplitude_update(before.encoder, final(self)@.encoder, p)
            }),
    {
        let p = self.register_observable(observable);
        let ghost mid = self@;
        proof {
            self.lemma_wf();
            lemma_acts_on_live(old(self)@, observable@, max_support_spec(observable@));
            crate::validity::lemma_pauli_keeps_split(mid.encoder.clifford, p@, mid.qubit_capacity(), mid.qubit_count);
        }
        self.phased_clifford.left_mul_pauli_exp(&p);
        proof {
            lemma_outcome_padding_kept(mid, self@);
        }
    }

    /// Applies `P₂ = observable2` on the `+1` eigenspace of `P₁ = observable1` (the two commute):
    /// `Λ(P₁, P₂) = e^{iπ/4} e^{iπ/4 P₁} e^{−iπ/4 P₂} e^{−iπ/4 P₁P₂}`, which is the product below
    /// with `A = −P₁` and `B = P₂`, each factor through the phase-exact Pauli exponential.
    pub fn controlled_pauli(&mut self, observable1: &DensePauli, observable2: &DensePauli)
        requires
            old(self).wf(),
            observable1.wf(),
            observable2.wf(),
            qubit_in_range(max_option(max_support_spec(observable1@), max_support_spec(observable2@))),
            !crate::pauli::symplectic(
                on_register(register_for_pair(old(self)@, observable1@, observable2@), observable1@),
                on_register(register_for_pair(old(self)@, observable1@, observable2@), observable2@),
            ),
            crate::pauli::is_order_two_spec(on_register(register_for_pair(old(self)@, observable1@, observable2@), observable1@)),
            crate::pauli::is_order_two_spec(on_register(register_for_pair(old(self)@, observable1@, observable2@), observable2@)),
        ensures
            final(self).wf(),
            final(self)@.encoder.clifford == crate::clifford::tableau_map(
                register_for_pair(old(self)@, observable1@, observable2@).encoder.clifford,
                |q: PauliSpec|
                    controlled_pauli_conjugation(
                        crate::pauli::pauli_scale(
                            on_register(register_for_pair(old(self)@, observable1@, observable2@), observable1@),
                            2,
                        ),
                        on_register(register_for_pair(old(self)@, observable1@, observable2@), observable2@),
                        q,
                    ),
            ),
            final(self)@ == (SimulationSpec {
                encoder: final(self)@.encoder,
                ..register_for_pair(old(self)@, observable1@, observable2@)
            }),
            controlled_pauli_phase_steps(
                register_for_pair(old(self)@, observable1@, observable2@),
                final(self)@,
                crate::pauli::pauli_scale(
                            on_register(register_for_pair(old(self)@, observable1@, observable2@), observable1@),
                            2,
                        ),
                on_register(register_for_pair(old(self)@, observable1@, observable2@), observable2@),
            ),
    {
        let (p1, p2) = self.register_pair(observable1, observable2);
        let negated1 = crate::decomposition::negated(p1);
        proof {
            crate::validity::lemma_scale_order_two(p1@, 2, self@.qubit_capacity());
            let m = max_option(max_support_spec(observable1@), max_support_spec(observable2@));
            lemma_acts_on_live(old(self)@, observable1@, m);
            lemma_acts_on_live(old(self)@, observable2@, m);
        }
        self.controlled_pauli_phase_resolved(&negated1, &p2);
    }

    /// Applies `B = p2` on the `−1` eigenspace of `A = p1` (commuting, already sized to the
    /// register), as `e^{iπ/4} · e^{−iπ/4 A} · e^{−iπ/4 B} · e^{iπ/4 AB}`, each factor through the
    /// phase-exact Pauli exponential, so that the global phase stays exact.
    fn controlled_pauli_phase_resolved(&mut self, p1: &DensePauli, p2: &DensePauli)
        requires
            old(self).wf(),
            p1.wf(),
            p2.wf(),
            p1@.x.len() == old(self)@.qubit_capacity(),
            p2@.x.len() == old(self)@.qubit_capacity(),
            !crate::pauli::symplectic(p1@, p2@),
            crate::pauli::is_order_two_spec(p1@),
            crate::pauli::is_order_two_spec(p2@),
            crate::pauli::identity_from(p1@, old(self)@.qubit_count as int),
            crate::pauli::identity_from(p2@, old(self)@.qubit_count as int),
        ensures
            final(self).wf(),
            final(self)@.encoder.clifford == crate::clifford::tableau_map(
                old(self)@.encoder.clifford,
                |q: PauliSpec| controlled_pauli_conjugation(p1@, p2@, q),
            ),
            final(self)@ == (SimulationSpec { encoder: final(self)@.encoder, ..old(self)@ }),
            controlled_pauli_phase_steps(old(self)@, final(self)@, p1@, p2@),
    {
        let ghost mid = self@;
        let mut negated1 = p1.duplicate();
        negated1.add_assign_phase_exp(2);
        let mut negated2 = p2.duplicate();
        negated2.add_assign_phase_exp(2);
        let mut product = p1.duplicate();
        product.mul_assign_right(p2);
        proof {
            let n = mid.qubit_capacity();
            crate::validity::lemma_scale_order_two(p1@, 2, n);
            crate::validity::lemma_scale_order_two(p2@, 2, n);
            crate::validity::lemma_mul_order_two(p1@, p2@, n);
        }
        proof {
            self.lemma_wf();
        }
        let ghost cap = mid.qubit_capacity();
        let ghost live = mid.qubit_count;
        proof {
            crate::validity::lemma_pauli_keeps_split(mid.encoder.clifford, negated1@, cap, live);
        }
        self.phased_clifford.left_mul_pauli_exp(&negated1);
        let ghost step1 = self@.encoder;
        proof {
            crate::validity::lemma_pauli_keeps_split(step1.clifford, negated2@, cap, live);
        }
        self.phased_clifford.left_mul_pauli_exp(&negated2);
        let ghost step2 = self@.encoder;
        proof {
            crate::validity::lemma_pauli_keeps_split(step2.clifford, product@, cap, live);
        }
        self.phased_clifford.left_mul_pauli_exp(&product);
        let ghost step3 = self@.encoder;
        self.phased_clifford.left_mul_global_phase(1);
        proof {
            assert(negated1@ == crate::pauli::pauli_scale(p1@, 2));
            assert(negated2@ == crate::pauli::pauli_scale(p2@, 2));
            assert(product@ == crate::pauli::pauli_mul(p1@, p2@));
            assert(step1.reference.len() == mid.qubit_capacity());
            assert(step2.reference.len() == mid.qubit_capacity());
            assert(mid.qubit_capacity() > 0 && crate::pauli::is_order_two_spec(negated1@)
                ==> crate::phased_clifford::pauli_exp_amplitude_update(mid.encoder, step1, negated1@));
            assert(mid.qubit_capacity() > 0 && crate::pauli::is_order_two_spec(negated2@)
                ==> crate::phased_clifford::pauli_exp_amplitude_update(step1, step2, negated2@));
            assert(mid.qubit_capacity() > 0 && crate::pauli::is_order_two_spec(product@)
                ==> crate::phased_clifford::pauli_exp_amplitude_update(step2, step3, product@));
            assert(self@.encoder.reference == step3.reference);
            assert(self@.encoder.phase == (step3.phase + 1) % 8);
        }
        proof {
            lemma_outcome_padding_kept(mid, self@);
            let target = crate::clifford::tableau_map(
                mid.encoder.clifford,
                |q: PauliSpec| controlled_pauli_conjugation(p1@, p2@, q),
            );
            assert(self@.encoder.clifford.x_images =~= target.x_images);
            assert(self@.encoder.clifford.z_images =~= target.z_images);
        }
    }
}


/// `after` is `before`, grown to cover `observable`, with `observable` applied outright when the
/// constant part of the sum of the listed outcomes (the listed entries of `v₀`) differs from
/// `!parity`, and applied conditioned on the random part (the sum of the listed rows of `M`).
pub open spec fn conditional_pauli_update(
    before: SimulationSpec,
    after: SimulationSpec,
    observable: PauliSpec,
    outcomes: Seq<usize>,
    parity: bool,
) -> bool {
    let mid = register_for(before, observable);
    let applied = !parity != bit_dot(indicator_of(outcomes, mid.outcome_capacity()), mid.outcome_shift);
    &&& applied ==> after.encoder.clifford == crate::clifford::tableau_map(
        mid.encoder.clifford,
        |q: PauliSpec| crate::pauli::conj_by_pauli(on_register(mid, observable), q),
    )
    &&& !applied ==> after.encoder == mid.encoder
    &&& after == conditioned_update(
        SimulationSpec { encoder: after.encoder, ..mid },
        on_register(mid, observable),
        row_sum_spec(mid.outcome_matrix, outcomes, mid.random_capacity),
    )
}

impl PhasedOutcomeCompleteSimulation {
    /// `observable` fits the register: it acts on no qubit at or beyond the capacity.
    pub open spec fn fits_register(&self, observable: PauliSpec) -> bool {
        max_support_spec(observable) matches Some(m) ==> m < self@.qubit_capacity()
    }

    /// `true` iff `observable` stabilizes the encoded state family up to sign: its preimage under
    /// the encoder has no `X` part.
    pub fn is_stabilizer_up_to_sign(&self, observable: &DensePauli) -> (r: bool)
        requires
            self.wf(),
            observable.wf(),
            self.fits_register(observable@),
        ensures
            r == crate::gf2::bit_is_zero(preimage_spec(self@.encoder.clifford, on_register(self@, observable@)).x),
    {
        proof {
            self.lemma_wf();
        }
        let p = observable.resized(self.sign_matrix.row_count());
        let preimage = self.phased_clifford.clifford().preimage(&p);
        crate::gf2::is_zero(&preimage.x_bits)
    }

    /// `true` iff `observable` stabilizes the state with eigenvalue `+1` on every branch: its
    /// preimage has no `X` part, no sign (phase exponent `0`), and the sign parity `Aᵀ z` of its
    /// `Z` part vanishes.
    pub fn is_stabilizer(&self, observable: &DensePauli) -> (r: bool)
        requires
            self.wf(),
            observable.wf(),
            self.fits_register(observable@),
        ensures
            r == (crate::gf2::bit_is_zero(preimage_spec(self@.encoder.clifford, on_register(self@, observable@)).x)
                && crate::gf2::bit_is_zero(
                combination(
                    self@.sign_matrix,
                    preimage_spec(self@.encoder.clifford, on_register(self@, observable@)).z,
                    self@.random_capacity,
                ),
            ) && preimage_spec(self@.encoder.clifford, on_register(self@, observable@)).phase == 0),
    {
        proof {
            self.lemma_wf();
        }
        let p = observable.resized(self.sign_matrix.row_count());
        let preimage = self.phased_clifford.clifford().preimage(&p);
        if crate::gf2::is_zero(&preimage.x_bits) {
            let sign_parity_indicator = combination_of_rows(&self.sign_matrix, &preimage.z_bits);
            crate::gf2::is_zero(&sign_parity_indicator) && preimage.phase == 0
        } else {
            false
        }
    }

    /// `true` iff `observable` is a stabilizer whose sign is the parity of the listed outcomes:
    /// its preimage has no `X` part, its sign parity `Aᵀ z` is the sum of the listed rows of `M`,
    /// and its sign bit is the sum of the listed entries of `v₀`.
    pub fn is_stabilizer_with_conditional_sign(&self, observable: &DensePauli, outcomes: &[usize]) -> (r: bool)
        requires
            self.wf(),
            observable.wf(),
            self.fits_register(observable@),
            forall|k: int| 0 <= k < outcomes@.len() ==> (#[trigger] outcomes@[k]) < self@.outcome_capacity(),
        ensures
            r == ({
                let pre = preimage_spec(self@.encoder.clifford, on_register(self@, observable@));
                &&& crate::gf2::bit_is_zero(pre.x)
                &&& combination(self@.sign_matrix, pre.z, self@.random_capacity) == row_sum_spec(
                    self@.outcome_matrix,
                    outcomes@,
                    self@.random_capacity,
                )
                &&& (pre.phase / 2 == 1) == entries_parity(self@.outcome_shift, outcomes@)
            }),
    {
        proof {
            self.lemma_wf();
        }
        let p = observable.resized(self.sign_matrix.row_count());
        let preimage = self.phased_clifford.clifford().preimage(&p);
        if crate::gf2::is_zero(&preimage.x_bits) {
            let sign_parity_indicator = combination_of_rows(&self.sign_matrix, &preimage.z_bits);
            let shift = preimage.phase / 2 == 1;
            let expected_parity_indicator = row_sum(&self.outcome_matrix, outcomes);
            let expected_shift = crate::gf2::parity_at(&self.outcome_shift, outcomes);
            let same = bits_equal(&sign_parity_indicator, &expected_parity_indicator);
            same && shift == expected_shift
        } else {
            false
        }
    }

    /// Applies `observable` on the branches where the sum of the listed outcomes equals `parity`.
    /// The constant part of that sum (from `v₀`, over the set of listed outcomes) decides whether
    /// `observable` is applied outright; the random part (the sum of the listed rows of `M`)
    /// enters as a conditioned application.
    pub fn conditional_pauli(&mut self, observable: &DensePauli, outcomes: &[usize], parity: bool)
        requires
            old(self).wf(),
            observable.wf(),
            qubit_in_range(max_support_spec(observable@)),
            forall|k: int| 0 <= k < outcomes@.len() ==> (#[trigger] outcomes@[k]) < old(self)@.outcome_capacity(),
        ensures
            final(self).wf(),
            conditional_pauli_update(old(self)@, final(self)@, observable@, outcomes@, parity),
    {
        let p = self.register_observable(observable);
        proof {
            self.lemma_wf();
        }
        let ghost mid = self@;
        proof {
            lemma_acts_on_live(old(self)@, observable@, max_support_spec(observable@));
            crate::validity::lemma_pauli_keeps_split(mid.encoder.clifford, p@, mid.qubit_capacity(), mid.qubit_count);
        }
        let indicator = indicator_vector(outcomes, self.outcome_shift.len());
        let is_p_applied = !parity != crate::gf2::dot(&indicator, &self.outcome_shift);
        if is_p_applied {
            self.phased_clifford.left_mul_pauli(&p);
            proof {
                lemma_outcome_padding_kept(mid, self@);
            }
        }
        proof {
            self.lemma_wf();
        }
        let inner_bits_indicator = row_sum(&self.outcome_matrix, outcomes);
        proof {
            assert(random_padding_zero(self@));
            lemma_row_sum_zero_from(
                self@.outcome_matrix,
                outcomes@,
                self@.random_capacity,
                self@.random_bit_count as int,
            );
        }
        self.apply_pauli_conditioned_on_inner_random_bits(&p, &inner_bits_indicator);
    }

    /// The symbolic Pauli rotation `exp(iα P)` with the symbolic angle `α` held by outcome
    /// `angle`: `observable` applied on the branches where `angle` is one.
    pub fn symbolic_pauli_exp(&mut self, observable: &DensePauli, angle: usize)
        requires
            old(self).wf(),
            observable.wf(),
            qubit_in_range(max_support_spec(observable@)),
            angle < old(self)@.outcome_capacity(),
        ensures
            final(self).wf(),
            conditional_pauli_update(old(self)@, final(self)@, observable@, seq![angle], true),
    {
        let outcomes = [angle];
        proof {
            assert(outcomes@ =~= seq![angle]);
        }
        self.conditional_pauli(observable, &outcomes, true);
    }
}


/// The indicator vector of length `n` of the set of listed positions.
fn indicator_vector(indices: &[usize], n: usize) -> (r: Vec<bool>)
    requires
        forall|k: int| 0 <= k < indices@.len() ==> (#[trigger] indices@[k]) < n,
    ensures
        r@ == indicator_of(indices@, n as nat),
{
    let mut r = zeros(n);
    let mut k: usize = 0;
    while k < indices.len()
        invariant
            forall|j: int| 0 <= j < indices@.len() ==> (#[trigger] indices@[j]) < n,
            k <= indices@.len(),
            r@.len() == n,
            forall|j: int| 0 <= j < n ==> #[trigger] r@[j] == indices@.take(k as int).contains(j as usize),
        decreases indices@.len() - k,
    {
        let index = indices[k];
        r.set(index, true);
        proof {
            assert forall|j: int| 0 <= j < n implies #[trigger] r@[j] == indices@.take(k + 1).contains(j as usize) by {
                if indices@.take(k + 1).contains(j as usize) {
                    let w = choose|w: int| 0 <= w < k + 1 && #[trigger] indices@.take(k + 1)[w] == j as usize;
                    if w < k {
                        assert(indices@.take(k as int)[w] == j as usize);
                    }
                }
                if indices@.take(k as int).contains(j as usize) {
                    let w = choose|w: int| 0 <= w < k && #[trigger] indices@.take(k as int)[w] == j as usize;
                    assert(indices@.take(k + 1)[w] == j as usize);
                }
                if j == index as int {
                    assert(indices@.take(k + 1)[k as int] == index);
                }
            }
        }
        k = k + 1;
    }
    proof {
        assert(indices@.take(indices@.len() as int) =~= indices@);
        assert(r@ =~= indicator_of(indices@, n as nat));
    }
    r
}


impl PhasedOutcomeCompleteSimulation {
    /// Measures `observable`, growing the register to cover it, and returns the new outcome's
    /// position.
    pub fn measure(&mut self, observable: &DensePauli) -> (r: usize)
        requires
            old(self).wf(),
            observable.wf(),
            qubit_in_range(max_support_spec(observable@)),
            crate::pauli::is_order_two_spec(on_register(register_for(old(self)@, observable@), observable@)),
            old(self)@.outcome_count() < size_bound() / 2,
            old(self)@.random_bit_count < size_bound() / 2,
        ensures
            final(self).wf(),
            r == old(self)@.outcome_count(),
            final(self)@.outcome_count() == old(self)@.outcome_count() + 1,
            measured(
                register_for(old(self)@, observable@),
                final(self)@,
                on_register(register_for(old(self)@, observable@), observable@),
            ),
            crate::gf2::bit_is_zero(
                preimage_spec(
                    final(self)@.encoder.clifford,
                    on_register(register_for(old(self)@, observable@), observable@),
                ).x,
            ),
    {
        let p = self.register_observable(observable);
        proof {
            lemma_acts_on_live(old(self)@, observable@, max_support_spec(observable@));
            self.lemma_encoder_is_clifford();
        }
        let ghost mid = self@;
        self.measure_padded(&p);
        proof {
            lemma_measurement_stabilizes(mid, self@, p@);
        }
        self.random_outcome_indicator.len() - 1
    }

    /// Measures `observable` using `hint`, a Pauli that anticommutes with it and preferably
    /// stabilizes the state, growing the register to cover both; returns the new outcome's
    /// position.
    pub fn measure_with_hint(&mut self, observable: &DensePauli, hint: &DensePauli) -> (r: usize)
        requires
            old(self).wf(),
            observable.wf(),
            hint.wf(),
            qubit_in_range(max_option(max_support_spec(observable@), max_support_spec(hint@))),
            crate::pauli::symplectic(
                on_register(register_for_pair(old(self)@, observable@, hint@), observable@),
                on_register(register_for_pair(old(self)@, observable@, hint@), hint@),
            ),
            crate::pauli::is_order_two_spec(on_register(register_for_pair(old(self)@, observable@, hint@), observable@)),
            crate::pauli::is_order_two_spec(on_register(register_for_pair(old(self)@, observable@, hint@), hint@)),
            old(self)@.outcome_count() < size_bound() / 2,
            old(self)@.random_bit_count < size_bound() / 2,
        ensures
            final(self).wf(),
            r == old(self)@.outcome_count(),
            final(self)@.outcome_count() == old(self)@.outcome_count() + 1,
            final(self)@.random_bit_count == old(self)@.random_bit_count || final(self)@.random_bit_count
                == old(self)@.random_bit_count + 1,
            ({
                let mid = register_for_pair(old(self)@, observable@, hint@);
                let o = on_register(mid, observable@);
                let h = on_register(mid, hint@);
                &&& crate::gf2::bit_is_zero(preimage_spec(mid.encoder.clifford, h).x) ==> measured_with_hint(
                    mid,
                    final(self)@,
                    o,
                    h,
                )
                &&& !crate::gf2::bit_is_zero(preimage_spec(mid.encoder.clifford, h).x) ==> measured(
                    register_for(mid, o),
                    final(self)@,
                    o,
                )
                &&& crate::gf2::bit_is_zero(preimage_spec(final(self)@.encoder.clifford, o).x)
            }),
    {
        let (o, h) = self.register_pair(observable, hint);
        proof {
            let m = max_option(max_support_spec(observable@), max_support_spec(hint@));
            lemma_acts_on_live(old(self)@, observable@, m);
            lemma_acts_on_live(old(self)@, hint@, m);
        }
        self.measure_pauli_with_hint_generic(&o, &h);
        self.random_outcome_indicator.len() - 1
    }
}


impl Default for PhasedOutcomeCompleteSimulation {
    /// The simulator on no qubits with the minimal capacities.
    fn default() -> (s: Self)
        ensures
            s.wf(),
            s@.qubit_count == 0,
            s@.qubit_capacity() == 0,
            s@.outcome_count() == 0,
            s@.random_bit_count == 0,
            s@.encoder.clifford == crate::clifford::identity_tableau(0),
            s@.encoder.phase == 0,
            s@ == fresh_spec(0, CLIFFORD_BIT_ALIGNMENT as nat, CLIFFORD_BIT_ALIGNMENT as nat),
    {
        Self::with_capacity(0, 0, 0)
    }
}

impl PhasedOutcomeCompleteSimulation {
    /// The recorded outcomes `v₀ + M r` for the assignment `random_bits` of the random bits.
    pub fn outcomes_for(&self, random_bits: &Vec<bool>) -> (r: Vec<bool>)
        requires
            self.wf(),
            random_bits@.len() == self@.random_bit_count,
        ensures
            r@ == outcome_vector_spec(self@, random_bits@),
    {
        proof {
            self.lemma_wf();
        }
        let count = self.random_outcome_indicator.len();
        let mut r: Vec<bool> = Vec::new();
        let mut j: usize = 0;
        while j < count
            invariant
                self.wf(),
                count == self@.outcome_count(),
                random_bits@.len() == self@.random_bit_count,
                j <= count,
                r@.len() == j,
                forall|k: int| 0 <= k < j ==> #[trigger] r@[k] == outcome_vector_spec(self@, random_bits@)[k],
            decreases count - j,
        {
            proof {
                self.lemma_wf();
            }
            let row = resize_vec(&self.outcome_matrix.rows[j], self.random_bit_count);
            let parity = crate::gf2::dot(&row, random_bits);
            r.push(self.outcome_shift[j] != parity);
            j = j + 1;
        }
        proof {
            assert(r@ =~= outcome_vector_spec(self@, random_bits@));
        }
        r
    }

    /// One row of recorded outcomes per row of random-bit assignments in `random`.
    pub fn sample_with_random_bits(&self, random: &BitMatrix) -> (r: BitMatrix)
        requires
            self.wf(),
            random.well_formed(),
            random.column_count == self@.random_bit_count,
        ensures
            r.well_formed(),
            r.rows@.len() == random.rows@.len(),
            r.column_count == self@.outcome_count(),
            forall|shot: int| 0 <= shot < r@.len() ==> #[trigger] r@[shot] == outcome_vector_spec(self@, random@[shot]),
    {
        let mut rows: Vec<Vec<bool>> = Vec::new();
        let mut shot: usize = 0;
        while shot < random.rows.len()
            invariant
                self.wf(),
                random.well_formed(),
                random.column_count == self@.random_bit_count,
                shot <= random.rows@.len(),
                rows@.len() == shot,
                forall|k: int| 0 <= k < shot ==> (#[trigger] rows@[k])@ == outcome_vector_spec(self@, random@[k]),
            decreases random.rows@.len() - shot,
        {
            let outcomes = self.outcomes_for(&random.rows[shot]);
            rows.push(outcomes);
            shot = shot + 1;
        }
        BitMatrix { rows, column_count: self.random_outcome_indicator.len() }
    }

    /// Samples `num_shots` rows of outcomes, the random bits drawn from `rng`.
    pub fn sample_with_rng(&self, num_shots: usize, rng: &mut rand::rngs::StdRng) -> (r: BitMatrix)
        requires
            self.wf(),
        ensures
            r.well_formed(),
            r.rows@.len() == num_shots,
            r.column_count == self@.outcome_count(),
            forall|shot: int|
                0 <= shot < r@.len() ==> exists|bits: Seq<bool>|
                    bits.len() == self@.random_bit_count && #[trigger] r@[shot] == outcome_vector_spec(self@, bits),
    {
        let n = self.random_bit_count;
        let mut random = BitMatrix::zeros(num_shots, n);
        let mut shot: usize = 0;
        while shot < num_shots
            invariant
                random.well_formed(),
                random.rows@.len() == num_shots,
                random.column_count == n,
                shot <= num_shots,
            decreases num_shots - shot,
        {
            let mut k: usize = 0;
            while k < n
                invariant
                    random.well_formed(),
                    random.rows@.len() == num_shots,
                    random.column_count == n,
                    shot < num_shots,
                    k <= n,
                decreases n - k,
            {
                let bit = random_bit(rng);
                random.set(shot, k, bit);
                k = k + 1;
            }
            shot = shot + 1;
        }
        let r = self.sample_with_random_bits(&random);
        proof {
            assert forall|shot: int| 0 <= shot < r@.len() implies exists|bits: Seq<bool>|
                bits.len() == self@.random_bit_count && #[trigger] r@[shot] == outcome_vector_spec(self@, bits) by {
                assert(random@[shot].len() == self@.random_bit_count);
            }
        }
        r
    }

    /// Samples `shots` rows of outcomes, the random bits drawn from a generator seeded from the
    /// operating system; `None` when the operating system's random source fails.
    pub fn sample(&self, shots: usize) -> (r: Option<BitMatrix>)
        requires
            self.wf(),
        ensures
            r matches Some(m) ==> ({
                &&& m.well_formed()
                &&& m.rows@.len() == shots
                &&& m.column_count == self@.outcome_count()
                &&& forall|shot: int|
                    0 <= shot < m@.len() ==> exists|bits: Seq<bool>|
                        bits.len() == self@.random_bit_count && #[trigger] m@[shot] == outcome_vector_spec(self@, bits)
            }),
    {
        match os_seeded_rng() {
            Some(mut rng) => Some(self.sample_with_rng(shots, &mut rng)),
            None => None,
        }
    }
}


impl crate::Simulation for PhasedOutcomeCompleteSimulation {
    open spec fn valid(&self) -> bool {
        self.wf()
    }

    open spec fn live_qubits(&self) -> nat {
        self@.qubit_count
    }

    open spec fn recorded_outcomes(&self) -> nat {
        self@.outcome_count()
    }

    open spec fn has_outcome_room(&self) -> bool {
        self@.outcome_count() < size_bound() / 2 && self@.random_bit_count < size_bound() / 2
    }

    open spec fn accepts(&self, observable: PauliSpec) -> bool {
        qubit_in_range(max_support_spec(observable))
    }

    open spec fn accepts_hermitian(&self, observable: PauliSpec) -> bool {
        &&& qubit_in_range(max_support_spec(observable))
        &&& crate::pauli::is_order_two_spec(on_register(register_for(self@, observable), observable))
    }

    open spec fn accepts_qubits(&self, qubits: Seq<usize>) -> bool {
        qubit_in_range(max_entry(qubits))
    }

    open spec fn holds(&self, observable: PauliSpec) -> bool {
        self.fits_register(observable)
    }

    open spec fn accepts_controlled_pair(&self, observable1: PauliSpec, observable2: PauliSpec) -> bool {
        &&& qubit_in_range(max_option(max_support_spec(observable1), max_support_spec(observable2)))
        &&& !crate::pauli::symplectic(
            on_register(register_for_pair(self@, observable1, observable2), observable1),
            on_register(register_for_pair(self@, observable1, observable2), observable2),
        )
        &&& crate::pauli::is_order_two_spec(on_register(register_for_pair(self@, observable1, observable2), observable1))
        &&& crate::pauli::is_order_two_spec(on_register(register_for_pair(self@, observable1, observable2), observable2))
    }

    open spec fn accepts_hint(&self, observable: PauliSpec, hint: PauliSpec) -> bool {
        &&& qubit_in_range(max_option(max_support_spec(observable), max_support_spec(hint)))
        &&& crate::pauli::symplectic(
            on_register(register_for_pair(self@, observable, hint), observable),
            on_register(register_for_pair(self@, observable, hint), hint),
        )
        &&& crate::pauli::is_order_two_spec(on_register(register_for_pair(self@, observable, hint), observable))
        &&& crate::pauli::is_order_two_spec(on_register(register_for_pair(self@, observable, hint), hint))
    }

    /// A Clifford known only up to its global phase leaves the exactly tracked phase
    /// undetermined, so this simulator never accepts one.
    open spec fn accepts_phaseless_clifford(&self) -> bool {
        false
    }

    open spec fn accepts_capacities(qubit_count: nat, outcome_count: nat, random_outcome_count: nat) -> bool {
        &&& qubit_count <= size_bound()
        &&& outcome_count <= size_bound()
        &&& (random_outcome_count <= outcome_count || random_outcome_count <= CLIFFORD_BIT_ALIGNMENT)
    }

    open spec fn accepts_qubit_capacity(&self, capacity: nat) -> bool {
        capacity <= size_bound()
    }

    open spec fn accepts_outcome_capacity(&self, capacity: nat) -> bool {
        capacity <= size_bound()
    }

    open spec fn conditionally_applies(&self, after: &Self, observable: PauliSpec, outcomes: Seq<usize>, parity: bool) -> bool {
        conditional_pauli_update(self@, after@, observable, outcomes, parity)
    }

    fn allocate_random_bit(&mut self) -> (r: usize) {
        PhasedOutcomeCompleteSimulation::allocate_random_bit(self)
    }

    fn allocate_symbolic_angle(&mut self) -> (r: usize) {
        PhasedOutcomeCompleteSimulation::allocate_symbolic_angle(self)
    }

    fn symbolic_pauli_exp(&mut self, observable: &DensePauli, angle: usize)
        ensures
            final(self).wf(),
            conditional_pauli_update(old(self)@, final(self)@, observable@, seq![angle], true),
    {
        proof {
            self.lemma_wf();
        }
        PhasedOutcomeCompleteSimulation::symbolic_pauli_exp(self, observable, angle)
    }

    fn clifford(&mut self, clifford: &CliffordUnitary, support: &[usize]) {
    }

    fn conditional_pauli(&mut self, observable: &DensePauli, outcomes: &[usize], parity: bool)
        ensures
            conditional_pauli_update(old(self)@, final(self)@, observable@, outcomes@, parity),
    {
        proof {
            self.lemma_wf();
        }
        PhasedOutcomeCompleteSimulation::conditional_pauli(self, observable, outcomes, parity)
    }

    fn controlled_pauli(&mut self, observable1: &DensePauli, observable2: &DensePauli)
        ensures
            final(self)@.encoder.clifford == crate::clifford::tableau_map(
                register_for_pair(old(self)@, observable1@, observable2@).encoder.clifford,
                |q: PauliSpec|
                    controlled_pauli_conjugation(
                        crate::pauli::pauli_scale(
                            on_register(register_for_pair(old(self)@, observable1@, observable2@), observable1@),
                            2,
                        ),
                        on_register(register_for_pair(old(self)@, observable1@, observable2@), observable2@),
                        q,
                    ),
            ),
            final(self)@ == (SimulationSpec {
                encoder: final(self)@.encoder,
                ..register_for_pair(old(self)@, observable1@, observable2@)
            }),
            controlled_pauli_phase_steps(
                register_for_pair(old(self)@, observable1@, observable2@),
                final(self)@,
                crate::pauli::pauli_scale(
                            on_register(register_for_pair(old(self)@, observable1@, observable2@), observable1@),
                            2,
                        ),
                on_register(register_for_pair(old(self)@, observable1@, observable2@), observable2@),
            ),
    {
        PhasedOutcomeCompleteSimulation::controlled_pauli(self, observable1, observable2)
    }

    fn pauli(&mut self, observable: &DensePauli)
        ensures
            final(self)@.encoder.clifford == crate::clifford::tableau_map(
                register_for(old(self)@, observable@).encoder.clifford,
                |q: PauliSpec|
                    crate::pauli::conj_by_pauli(on_register(register_for(old(self)@, observable@), observable@), q),
            ),
            final(self)@ == (SimulationSpec { encoder: final(self)@.encoder, ..register_for(old(self)@, observable@) }),
            ({
                let before = register_for(old(self)@, observable@).encoder;
                let p = on_register(register_for(old(self)@, observable@), observable@);
                crate::gf2::bit_is_zero(p.x) ==> final(self)@.encoder.reference == before.reference
                    && final(self)@.encoder.phase == (before.phase + 4 * crate::pauli::b2i(
                    bit_dot(p.z, before.reference),
                ) + 2 * p.phase) % 8
            }),
    {
        PhasedOutcomeCompleteSimulation::pauli(self, observable)
    }

    fn pauli_exp(&mut self, observable: &DensePauli)
        ensures
            final(self)@.encoder.clifford == crate::clifford::tableau_map(
                register_for(old(self)@, observable@).encoder.clifford,
                |q: PauliSpec|
                    crate::pauli::conj_by_exp(on_register(register_for(old(self)@, observable@), observable@), q),
            ),
            final(self)@ == (SimulationSpec { encoder: final(self)@.encoder, ..register_for(old(self)@, observable@) }),
            ({
                let before = register_for(old(self)@, observable@);
                let p = on_register(before, observable@);
                before.qubit_capacity() > 0 && crate::pauli::is_order_two_spec(p)
                    ==> crate::phased_clifford::pauli_exp_amplitude_update(before.encoder, final(self)@.encoder, p)
            }),
    {
        PhasedOutcomeCompleteSimulation::pauli_exp(self, observable)
    }

    fn permute(&mut self, permutation: &[usize], support: &[usize])
        ensures
            final(self)@ == permuted(with_support(old(self)@, max_entry(support@)), permutation@, support@),
    {
        PhasedOutcomeCompleteSimulation::permute(self, permutation, support)
    }

    fn unitary_op(&mut self, operation: UnitaryOp, support: &[usize])
        ensures
            gate_applied(
                with_support(old(self)@, max_entry(support@)).encoder,
                final(self)@.encoder,
                operation,
                support@,
            ),
            crate::phased_clifford::is_one_qubit_gate(operation) ==> crate::phased_clifford::one_qubit_amplitude_update(
                with_support(old(self)@, max_entry(support@)).encoder,
                final(self)@.encoder,
                operation,
                support@[0] as int,
            ),
            crate::phased_clifford::is_two_qubit_permutation_gate(operation)
                ==> crate::phased_clifford::two_qubit_permutation_update(
                with_support(old(self)@, max_entry(support@)).encoder,
                final(self)@.encoder,
                operation,
                support@[0] as int,
                support@[1] as int,
            ),
            final(self)@ == (SimulationSpec {
                encoder: final(self)@.encoder,
                ..with_support(old(self)@, max_entry(support@))
            }),
    {
        PhasedOutcomeCompleteSimulation::unitary_op(self, operation, support)
    }

    fn is_stabilizer(&self, observable: &DensePauli) -> (r: bool)
        ensures
            r == (crate::gf2::bit_is_zero(preimage_spec(self@.encoder.clifford, on_register(self@, observable@)).x)
                && crate::gf2::bit_is_zero(
                combination(
                    self@.sign_matrix,
                    preimage_spec(self@.encoder.clifford, on_register(self@, observable@)).z,
                    self@.random_capacity,
                ),
            ) && preimage_spec(self@.encoder.clifford, on_register(self@, observable@)).phase == 0),
    {
        PhasedOutcomeCompleteSimulation::is_stabilizer(self, observable)
    }

    fn is_stabilizer_up_to_sign(&self, observable: &DensePauli) -> (r: bool)
        ensures
            r == crate::gf2::bit_is_zero(preimage_spec(self@.encoder.clifford, on_register(self@, observable@)).x),
    {
        PhasedOutcomeCompleteSimulation::is_stabilizer_up_to_sign(self, observable)
    }

    fn is_stabilizer_with_conditional_sign(&self, observable: &DensePauli, outcomes: &[usize]) -> (r: bool)
        ensures
            r == ({
                let pre = preimage_spec(self@.encoder.clifford, on_register(self@, observable@));
                &&& crate::gf2::bit_is_zero(pre.x)
                &&& combination(self@.sign_matrix, pre.z, self@.random_capacity) == row_sum_spec(
                    self@.outcome_matrix,
                    outcomes@,
                    self@.random_capacity,
                )
                &&& (pre.phase / 2 == 1) == entries_parity(self@.outcome_shift, outcomes@)
            }),
    {
        proof {
            self.lemma_wf();
        }
        PhasedOutcomeCompleteSimulation::is_stabilizer_with_conditional_sign(self, observable, outcomes)
    }

    fn measure(&mut self, observable: &DensePauli) -> (r: usize) {
        PhasedOutcomeCompleteSimulation::measure(self, observable)
    }

    fn measure_with_hint(&mut self, observable: &DensePauli, hint: &DensePauli) -> (r: usize) {
        PhasedOutcomeCompleteSimulation::measure_with_hint(self, observable, hint)
    }

    fn qubit_count(&self) -> (r: usize) {
        PhasedOutcomeCompleteSimulation::qubit_count(self)
    }

    fn outcome_count(&self) -> (r: usize) {
        PhasedOutcomeCompleteSimulation::outcome_count(self)
    }

    fn with_capacity(qubit_count: usize, outcome_count: usize, random_outcome_count: usize) -> (s: Self)
        ensures
            s@ == fresh_spec(
                qubit_count as nat,
                max_nat(outcome_count as nat, CLIFFORD_BIT_ALIGNMENT as nat),
                max_nat(random_outcome_count as nat, CLIFFORD_BIT_ALIGNMENT as nat),
            ),
            s@.qubit_capacity() == qubit_count,
            s@.encoder.clifford == crate::clifford::identity_tableau(qubit_count as nat),
            s@.encoder.reference == bit_zeros(qubit_count as nat),
            s@.encoder.phase == 0,
    {
        PhasedOutcomeCompleteSimulation::with_capacity(qubit_count, outcome_count, random_outcome_count)
    }

    fn qubit_capacity(&self) -> (r: usize) {
        proof {
            self.lemma_wf();
        }
        PhasedOutcomeCompleteSimulation::qubit_capacity(self)
    }

    fn reserve_qubits(&mut self, new_qubit_capacity: usize)
        ensures
            new_qubit_capacity > old(self)@.qubit_capacity() ==> final(self)@ == grow_qubits(
                old(self)@,
                new_qubit_capacity as nat,
            ),
            new_qubit_capacity <= old(self)@.qubit_capacity() ==> final(self)@ == old(self)@,
    {
        PhasedOutcomeCompleteSimulation::reserve_qubits(self, new_qubit_capacity)
    }

    fn outcome_capacity(&self) -> (r: usize) {
        proof {
            self.lemma_wf();
        }
        PhasedOutcomeCompleteSimulation::outcome_capacity(self)
    }

    fn random_outcome_capacity(&self) -> (r: usize)
        ensures
            r == self@.random_capacity,
    {
        PhasedOutcomeCompleteSimulation::random_outcome_capacity(self)
    }

    fn reserve_outcomes(&mut self, new_outcome_capacity: usize, new_random_outcome_capacity: usize)
        ensures
            final(self)@ == grow_outcomes(
                old(self)@,
                max_nat(new_outcome_capacity as nat, old(self)@.outcome_capacity()),
                max_nat(new_random_outcome_capacity as nat, old(self)@.random_capacity),
            ),
    {
        PhasedOutcomeCompleteSimulation::reserve_outcomes(self, new_outcome_capacity, new_random_outcome_capacity)
    }
}

} // verus!
