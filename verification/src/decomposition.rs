//! Decomposition of Clifford unitaries into products of `π/4` Pauli exponents.
//!
//! A working copy of the Clifford is reduced to the identity by left-multiplying exponents
//! `exp(iπ/4 · P)`; since `exp(iπ/4 · P)⁻¹ = exp(iπ/4 · (−P))` for Hermitian `P`, replaying the
//! negated exponents in reverse order rebuilds the Clifford from the identity.
use vstd::prelude::*;
use crate::clifford::{CliffordSpec, CliffordUnitary, identity_tableau, tableau_map, tableau_wf};
use crate::gf2::{bit_dot, bit_unit, bit_xor, bit_zeros, dot_prefix};
use crate::pauli::{
    DensePauli, PauliSpec, b2i, conj_by_exp, is_order_two_spec, pauli_mul, pauli_scale, pauli_wf, symplectic,
};

verus! {

/// The tableau after left-multiplying `t` by `exp(iπ/4 · P)` for each `P` of `exponents`, in order.
pub open spec fn replay(t: CliffordSpec, exponents: Seq<PauliSpec>) -> CliffordSpec
    decreases exponents.len(),
{
    if exponents.len() == 0 {
        t
    } else {
        tableau_map(replay(t, exponents.drop_last()), |q: PauliSpec| conj_by_exp(exponents.last(), q))
    }
}

/// `−P`, i.e. `P` with its phase exponent advanced by two.
pub open spec fn negated_spec(p: PauliSpec) -> PauliSpec {
    pauli_scale(p, 2)
}

/// The inverse sequence: the negated exponents in reverse order.
pub open spec fn inverse_exponents(exponents: Seq<PauliSpec>) -> Seq<PauliSpec> {
    Seq::new(exponents.len(), |i: int| negated_spec(exponents[exponents.len() - 1 - i]))
}

/// Every exponent is a Hermitian Pauli on `n` qubits.
pub open spec fn hermitian_exponents(exponents: Seq<PauliSpec>, n: nat) -> bool {
    forall|i: int| 0 <= i < exponents.len() ==> pauli_wf(#[trigger] exponents[i], n) && is_order_two_spec(exponents[i])
}

/// `exp(iπ/4·P)⁻¹ = exp(iπ/4·(−P))` for Hermitian `P`: `−P` is Hermitian as well.
pub fn negated(pauli: DensePauli) -> (r: DensePauli)
    requires
        pauli.wf(),
    ensures
        r.wf(),
        r@ == negated_spec(pauli@),
        is_order_two_spec(r@) == is_order_two_spec(pauli@),
{
    let mut pauli = pauli;
    pauli.add_assign_phase_exp(2);
    pauli
}

/// The `X` bit of `pauli` on `qubit`.
pub fn x_bit(pauli: &DensePauli, qubit: usize) -> (r: bool)
    requires
        qubit < pauli@.x.len(),
    ensures
        r == pauli@.x[qubit as int],
{
    pauli.x_bits[qubit]
}

/// The `Z` bit of `pauli` on `qubit`.
pub fn z_bit(pauli: &DensePauli, qubit: usize) -> (r: bool)
    requires
        pauli.wf(),
        qubit < pauli@.x.len(),
    ensures
        r == pauli@.z[qubit as int],
{
    pauli.z_bits[qubit]
}

/// `X_q` on `n` qubits.
pub open spec fn x_exponent(q: int, n: nat) -> PauliSpec {
    PauliSpec { x: bit_unit(n, q), z: bit_zeros(n), phase: 0 }
}

/// `Z_q` on `n` qubits.
pub open spec fn z_exponent(q: int, n: nat) -> PauliSpec {
    PauliSpec { x: bit_zeros(n), z: bit_unit(n, q), phase: 0 }
}

/// `X_target · Z_control` on `n` qubits, the generator of a controlled-`X`.
pub open spec fn control_x_exponent(control: int, target: int, n: nat) -> PauliSpec {
    pauli_mul(x_exponent(target, n), z_exponent(control, n))
}

/// `Z_second · Z_first` on `n` qubits, the generator of a controlled-`Z`.
pub open spec fn control_z_exponent(first: int, second: int, n: nat) -> PauliSpec {
    pauli_mul(z_exponent(second, n), z_exponent(first, n))
}

/// The exponents of a Hadamard on `q`: `X_q`, `Z_q`, `X_q`.
pub open spec fn hadamard_exponents(q: int, n: nat) -> Seq<PauliSpec> {
    seq![x_exponent(q, n), z_exponent(q, n), x_exponent(q, n)]
}

/// The exponents of a controlled-`X`: `X_target Z_control`, `−Z_control`, `−X_target`.
pub open spec fn controlled_x_exponents(control: int, target: int, n: nat) -> Seq<PauliSpec> {
    seq![
        control_x_exponent(control, target, n),
        negated_spec(z_exponent(control, n)),
        negated_spec(x_exponent(target, n)),
    ]
}

/// The exponents of a controlled-`Z`: `Z_second Z_first`, `−Z_first`, `−Z_second`.
pub open spec fn controlled_z_exponents(first: int, second: int, n: nat) -> Seq<PauliSpec> {
    seq![
        control_z_exponent(first, second, n),
        negated_spec(z_exponent(first, n)),
        negated_spec(z_exponent(second, n)),
    ]
}

/// `q` conjugated by `exp(iπ/4 · P)` for each `P` of `exponents`, in order.
pub open spec fn conj_all(q: PauliSpec, exponents: Seq<PauliSpec>) -> PauliSpec
    decreases exponents.len(),
{
    if exponents.len() == 0 {
        q
    } else {
        conj_by_exp(exponents.last(), conj_all(q, exponents.drop_last()))
    }
}

/// Replaying `s + u` replays `s` and then `u`.
proof fn lemma_replay_append(t: CliffordSpec, s: Seq<PauliSpec>, u: Seq<PauliSpec>)
    ensures
        replay(t, s + u) == replay(replay(t, s), u),
    decreases u.len(),
{
    if u.len() == 0 {
        assert(s + u =~= s);
    } else {
        lemma_replay_append(t, s, u.drop_last());
        assert((s + u).drop_last() =~= s + u.drop_last());
        assert((s + u).last() == u.last());
    }
}

/// Each generator image of a replayed tableau is the old image conjugated by every exponent.
proof fn lemma_replay_images(t: CliffordSpec, exponents: Seq<PauliSpec>, n: nat)
    requires
        t.x_images.len() == n,
        t.z_images.len() == n,
    ensures
        replay(t, exponents).x_images.len() == n,
        replay(t, exponents).z_images.len() == n,
        forall|i: int| 0 <= i < n ==> #[trigger] replay(t, exponents).x_images[i] == conj_all(t.x_images[i], exponents),
        forall|i: int| 0 <= i < n ==> #[trigger] replay(t, exponents).z_images[i] == conj_all(t.z_images[i], exponents),
    decreases exponents.len(),
{
    if exponents.len() > 0 {
        lemma_replay_images(t, exponents.drop_last(), n);
    }
}

/// Conjugation through a literal sequence of one, two or three exponents.
proof fn lemma_conj_all_short(q: PauliSpec, a: PauliSpec, b: PauliSpec, c: PauliSpec)
    ensures
        conj_all(q, seq![a]) == conj_by_exp(a, q),
        conj_all(q, seq![a, b]) == conj_by_exp(b, conj_by_exp(a, q)),
        conj_all(q, seq![a, b, c]) == conj_by_exp(c, conj_by_exp(b, conj_by_exp(a, q))),
{
    assert(seq![a].drop_last() =~= Seq::<PauliSpec>::empty());
    assert(seq![a, b].drop_last() =~= seq![a]);
    assert(seq![a, b, c].drop_last() =~= seq![a, b]);
    assert(conj_all(q, Seq::<PauliSpec>::empty()) == q);
    assert(conj_all(q, seq![a]) == conj_by_exp(a, q));
    assert(conj_all(q, seq![a, b]) == conj_by_exp(b, conj_all(q, seq![a])));
    assert(conj_all(q, seq![a, b, c]) == conj_by_exp(c, conj_all(q, seq![a, b])));
}

/// The bits of `p` after conjugation by the exponent `e` that touches the unit positions given:
/// `e` has `X` bits `ex` and `Z` bits `ez`, each the zero vector or a unit vector.
proof fn lemma_conj_bits(e: PauliSpec, p: PauliSpec, n: nat)
    requires
        e.x.len() == n,
        e.z.len() == n,
        p.x.len() == n,
        p.z.len() == n,
    ensures
        conj_by_exp(e, p).x == (if symplectic(e, p) { bit_xor(e.x, p.x) } else { p.x }),
        conj_by_exp(e, p).z == (if symplectic(e, p) { bit_xor(e.z, p.z) } else { p.z }),
        conj_by_exp(e, p).x.len() == n,
        conj_by_exp(e, p).z.len() == n,
{
}

/// A Hadamard on `q` swaps the `X` and `Z` bits of qubit `q` and keeps the others.
proof fn lemma_hadamard_bits(p: PauliSpec, q: int, n: nat)
    requires
        p.x.len() == n,
        p.z.len() == n,
        0 <= q < n,
    ensures
        conj_all(p, hadamard_exponents(q, n)).x.len() == n,
        conj_all(p, hadamard_exponents(q, n)).z.len() == n,
        forall|j: int|
            0 <= j < n ==> #[trigger] conj_all(p, hadamard_exponents(q, n)).x[j] == (if j == q {
                p.z[q]
            } else {
                p.x[j]
            }),
        forall|j: int|
            0 <= j < n ==> #[trigger] conj_all(p, hadamard_exponents(q, n)).z[j] == (if j == q {
                p.x[q]
            } else {
                p.z[j]
            }),
{
    let ex = x_exponent(q, n);
    let ez = z_exponent(q, n);
    lemma_conj_all_short(p, ex, ez, ex);
    lemma_x_exp_bits(ex, p, q, n);
    let a = conj_by_exp(ex, p);
    lemma_z_exp_bits(ez, a, q, n);
    let b = conj_by_exp(ez, a);
    lemma_x_exp_bits(ex, b, q, n);
}

/// Conjugation by the exponent of `±X_q` adds the `Z` bit of qubit `q` to its `X` bit.
proof fn lemma_x_exp_bits(e: PauliSpec, p: PauliSpec, q: int, n: nat)
    requires
        p.x.len() == n,
        p.z.len() == n,
        0 <= q < n,
        e.x == bit_unit(n, q),
        e.z == bit_zeros(n),
    ensures
        conj_by_exp(e, p).x.len() == n,
        conj_by_exp(e, p).z == p.z,
        forall|j: int|
            0 <= j < n ==> #[trigger] conj_by_exp(e, p).x[j] == (if j == q { p.x[q] != p.z[q] } else { p.x[j] }),
        symplectic(e, p) == p.z[q],
{
    crate::pauli::lemma_dot_unit_left(n, q, p.z);
    crate::pauli::lemma_dot_zeros_left(bit_zeros(n), p.x);
    lemma_conj_bits(e, p, n);
}

/// Conjugation by the exponent of `±Z_q` adds the `X` bit of qubit `q` to its `Z` bit.
proof fn lemma_z_exp_bits(e: PauliSpec, p: PauliSpec, q: int, n: nat)
    requires
        p.x.len() == n,
        p.z.len() == n,
        0 <= q < n,
        e.x == bit_zeros(n),
        e.z == bit_unit(n, q),
    ensures
        conj_by_exp(e, p).z.len() == n,
        conj_by_exp(e, p).x == p.x,
        forall|j: int|
            0 <= j < n ==> #[trigger] conj_by_exp(e, p).z[j] == (if j == q { p.z[q] != p.x[q] } else { p.z[j] }),
        symplectic(e, p) == p.x[q],
{
    crate::pauli::lemma_dot_unit_left(n, q, p.x);
    crate::pauli::lemma_dot_zeros_left(bit_zeros(n), p.z);
    lemma_conj_bits(e, p, n);
}

/// Conjugation by `Z_q` twice (that is, by `i Z_q`) negates a Pauli with an `X` bit on `q`.
proof fn lemma_double_z(p: PauliSpec, q: int, n: nat)
    requires
        pauli_wf(p, n),
        0 <= q < n,
        p.x[q],
    ensures
        conj_all(p, seq![z_exponent(q, n), z_exponent(q, n)]) == pauli_scale(p, 2),
{
    let e = z_exponent(q, n);
    lemma_conj_all_short(p, e, e, e);
    lemma_z_exp_bits(e, p, q, n);
    let a = conj_by_exp(e, p);
    lemma_z_exp_bits(e, a, q, n);
    let b = conj_by_exp(e, a);
    crate::pauli::lemma_dot_unit_left(n, q, p.x);
    crate::pauli::lemma_dot_unit_left(n, q, a.x);
    assert(b.z =~= p.z);
    assert(b.x =~= p.x);
}

/// Conjugation by `X_q` twice (that is, by `i X_q`) negates a Pauli with a `Z` bit on `q`.
proof fn lemma_double_x(p: PauliSpec, q: int, n: nat)
    requires
        pauli_wf(p, n),
        0 <= q < n,
        p.z[q],
    ensures
        conj_all(p, seq![x_exponent(q, n), x_exponent(q, n)]) == pauli_scale(p, 2),
{
    let e = x_exponent(q, n);
    lemma_conj_all_short(p, e, e, e);
    lemma_x_exp_bits(e, p, q, n);
    let a = conj_by_exp(e, p);
    lemma_x_exp_bits(e, a, q, n);
    let b = conj_by_exp(e, a);
    crate::pauli::lemma_dot_zeros_left(bit_zeros(n), p.x);
    crate::pauli::lemma_dot_zeros_left(bit_zeros(n), a.x);
    assert(b.z =~= p.z);
    assert(b.x =~= p.x);
}

/// A controlled-`X` adds the control's `X` bit to the target's and the target's `Z` bit to the
/// control's.
proof fn lemma_controlled_x_bits(p: PauliSpec, c: int, t: int, n: nat)
    requires
        p.x.len() == n,
        p.z.len() == n,
        0 <= c < n,
        0 <= t < n,
        c != t,
    ensures
        conj_all(p, controlled_x_exponents(c, t, n)).x.len() == n,
        conj_all(p, controlled_x_exponents(c, t, n)).z.len() == n,
        forall|j: int|
            0 <= j < n ==> #[trigger] conj_all(p, controlled_x_exponents(c, t, n)).x[j] == (if j == t {
                p.x[t] != p.x[c]
            } else {
                p.x[j]
            }),
        forall|j: int|
            0 <= j < n ==> #[trigger] conj_all(p, controlled_x_exponents(c, t, n)).z[j] == (if j == c {
                p.z[c] != p.z[t]
            } else {
                p.z[j]
            }),
{
    let e1 = control_x_exponent(c, t, n);
    let e2 = negated_spec(z_exponent(c, n));
    let e3 = negated_spec(x_exponent(t, n));
    lemma_conj_all_short(p, e1, e2, e3);
    assert(e1.x =~= bit_unit(n, t));
    assert(e1.z =~= bit_unit(n, c));
    crate::pauli::lemma_dot_unit_left(n, t, p.z);
    crate::pauli::lemma_dot_unit_left(n, c, p.x);
    lemma_conj_bits(e1, p, n);
    let a = conj_by_exp(e1, p);
    crate::pauli::lemma_dot_unit_left(n, c, a.x);
    crate::pauli::lemma_dot_zeros_left(bit_zeros(n), a.z);
    lemma_conj_bits(e2, a, n);
    let b = conj_by_exp(e2, a);
    crate::pauli::lemma_dot_unit_left(n, t, b.z);
    crate::pauli::lemma_dot_zeros_left(bit_zeros(n), b.x);
    lemma_conj_bits(e3, b, n);
}

/// A controlled-`Z` adds each qubit's `X` bit to the other's `Z` bit.
proof fn lemma_controlled_z_bits(p: PauliSpec, a: int, b: int, n: nat)
    requires
        p.x.len() == n,
        p.z.len() == n,
        0 <= a < n,
        0 <= b < n,
        a != b,
    ensures
        conj_all(p, controlled_z_exponents(a, b, n)).x == p.x,
        conj_all(p, controlled_z_exponents(a, b, n)).z.len() == n,
        forall|j: int|
            0 <= j < n ==> #[trigger] conj_all(p, controlled_z_exponents(a, b, n)).z[j] == (if j == a {
                p.z[a] != p.x[b]
            } else if j == b {
                p.z[b] != p.x[a]
            } else {
                p.z[j]
            }),
{
    let e1 = control_z_exponent(a, b, n);
    let e2 = negated_spec(z_exponent(a, n));
    let e3 = negated_spec(z_exponent(b, n));
    lemma_conj_all_short(p, e1, e2, e3);
    assert(e1.x =~= bit_zeros(n));
    crate::pauli::lemma_dot_zeros_left(bit_zeros(n), p.z);
    crate::pauli::lemma_dot_unit_left(n, a, p.x);
    crate::pauli::lemma_dot_unit_left(n, b, p.x);
    lemma_dot_xor_units(n, a, b, p.x);
    lemma_conj_bits(e1, p, n);
    let s1 = conj_by_exp(e1, p);
    assert(s1.x =~= p.x);
    crate::pauli::lemma_dot_zeros_left(bit_zeros(n), s1.z);
    crate::pauli::lemma_dot_unit_left(n, a, s1.x);
    lemma_conj_bits(e2, s1, n);
    let s2 = conj_by_exp(e2, s1);
    assert(s2.x =~= p.x);
    crate::pauli::lemma_dot_zeros_left(bit_zeros(n), s2.z);
    crate::pauli::lemma_dot_unit_left(n, b, s2.x);
    lemma_conj_bits(e3, s2, n);
    let s3 = conj_by_exp(e3, s2);
    assert(s3.x =~= p.x);
}

/// `⟨u + w, v⟩ = ⟨u, v⟩ + ⟨w, v⟩` on the first `k` coordinates.
proof fn lemma_dot_prefix_xor(u: Seq<bool>, w: Seq<bool>, v: Seq<bool>, k: int)
    requires
        u.len() == w.len(),
        0 <= k <= u.len(),
    ensures
        dot_prefix(bit_xor(u, w), v, k) == (dot_prefix(u, v, k) != dot_prefix(w, v, k)),
    decreases k,
{
    if k > 0 {
        lemma_dot_prefix_xor(u, w, v, k - 1);
    }
}

/// The inner products that the symplectic form and the Hermitian test of a product reduce to.
pub proof fn lemma_dot_bilinear(a: Seq<bool>, b: Seq<bool>, c: Seq<bool>, d: Seq<bool>, n: nat)
    requires
        a.len() == n,
        b.len() == n,
        c.len() == n,
        d.len() == n,
    ensures
        bit_dot(bit_xor(a, b), c) == (bit_dot(a, c) != bit_dot(b, c)),
        bit_dot(a, bit_xor(c, d)) == (bit_dot(a, c) != bit_dot(a, d)),
        bit_dot(bit_xor(a, b), bit_xor(c, d)) == (bit_dot(a, c) != bit_dot(a, d) != bit_dot(b, c) != bit_dot(b, d)),
        bit_dot(a, b) == bit_dot(b, a),
{
    lemma_dot_prefix_xor(a, b, c, n as int);
    lemma_dot_prefix_xor(a, b, bit_xor(c, d), n as int);
    lemma_dot_prefix_xor_right(a, c, d, n as int);
    lemma_dot_prefix_xor_right(b, c, d, n as int);
    lemma_dot_prefix_symmetric(a, b, n as int);
}

/// Conjugation by an exponent keeps the symplectic form.
pub proof fn lemma_conj_keeps_symplectic(e: PauliSpec, a: PauliSpec, b: PauliSpec, n: nat)
    requires
        pauli_wf(e, n),
        pauli_wf(a, n),
        pauli_wf(b, n),
    ensures
        symplectic(conj_by_exp(e, a), conj_by_exp(e, b)) == symplectic(a, b),
{
    lemma_dot_symmetric(e.x, e.z);
    lemma_dot_symmetric(a.x, e.z);
    lemma_dot_symmetric(a.z, e.x);
    if symplectic(e, a) && symplectic(e, b) {
        lemma_dot_bilinear(e.x, a.x, e.z, b.z, n);
        lemma_dot_bilinear(e.z, a.z, e.x, b.x, n);
    } else if symplectic(e, a) {
        lemma_dot_bilinear(e.x, a.x, b.z, b.z, n);
        lemma_dot_bilinear(e.z, a.z, b.x, b.x, n);
    } else if symplectic(e, b) {
        lemma_dot_bilinear(a.x, a.x, e.z, b.z, n);
        lemma_dot_bilinear(a.z, a.z, e.x, b.x, n);
    }
}

/// Conjugating a Hermitian Pauli by the exponent of a Hermitian Pauli gives a Hermitian Pauli.
pub proof fn lemma_conj_keeps_order_two(e: PauliSpec, p: PauliSpec, n: nat)
    requires
        pauli_wf(e, n),
        pauli_wf(p, n),
        is_order_two_spec(e),
        is_order_two_spec(p),
    ensures
        pauli_wf(conj_by_exp(e, p), n),
        is_order_two_spec(conj_by_exp(e, p)),
{
    if symplectic(e, p) {
        lemma_dot_bilinear(e.x, p.x, e.z, p.z, n);
        lemma_dot_bilinear(p.x, e.z, p.x, p.x, n);
        let a = b2i(bit_dot(e.x, e.z));
        let d = b2i(bit_dot(p.x, p.z));
        let c = b2i(bit_dot(e.z, p.x));
        let t = e.phase + p.phase + 2 * c;
        assert((e.phase + a) % 2 == 0);
        assert((p.phase + d) % 2 == 0);
        let r = conj_by_exp(e, p);
        assert(r.phase == ((t % 4) + 1) % 4);
        assert(b2i(bit_dot(r.x, r.z)) == (a + d + 1) % 2);
        assert((((t % 4) + 1) % 4 + (a + d + 1) % 2) % 2 == 0) by (nonlinear_arith)
            requires
                (e.phase + a) % 2 == 0,
                (p.phase + d) % 2 == 0,
                t == e.phase + p.phase + 2 * c,
                0 <= e.phase,
                0 <= p.phase,
                0 <= c <= 1,
                0 <= a <= 1,
                0 <= d <= 1,
        ;
    }
}

/// Conjugating by a sequence of Hermitian exponents keeps a Hermitian Pauli Hermitian.
proof fn lemma_conj_all_order_two(p: PauliSpec, exponents: Seq<PauliSpec>, n: nat)
    requires
        pauli_wf(p, n),
        is_order_two_spec(p),
        hermitian_exponents(exponents, n),
    ensures
        pauli_wf(conj_all(p, exponents), n),
        is_order_two_spec(conj_all(p, exponents)),
    decreases exponents.len(),
{
    if exponents.len() > 0 {
        lemma_conj_all_order_two(p, exponents.drop_last(), n);
        assert(pauli_wf(exponents[exponents.len() - 1], n));
        lemma_conj_keeps_order_two(exponents.last(), conj_all(p, exponents.drop_last()), n);
    }
}

/// `⟨e_b + e_a, v⟩ = v_a + v_b`.
proof fn lemma_dot_xor_units(n: nat, a: int, b: int, v: Seq<bool>)
    requires
        0 <= a < n,
        0 <= b < n,
    ensures
        bit_dot(bit_xor(bit_unit(n, b), bit_unit(n, a)), v) == (v[a] != v[b]),
{
    lemma_dot_prefix_xor(bit_unit(n, b), bit_unit(n, a), v, n as int);
    crate::pauli::lemma_dot_unit_left(n, a, v);
    crate::pauli::lemma_dot_unit_left(n, b, v);
}

/// `p` acts only on qubits `from` and above.
pub open spec fn supported_from(p: PauliSpec, from: int) -> bool {
    forall|j: int| 0 <= j < from ==> !p.x[j] && !p.z[j]
}

/// `p` has an `X` or a `Z` bit on some qubit `from` or above.
pub open spec fn has_bit_from(p: PauliSpec, from: int) -> bool {
    exists|q: int| from <= q < p.x.len() && (p.x[q] || p.z[q])
}

/// `after` is `before` followed by exponents that act only on qubits `from` and above.
pub open spec fn extended_from(before: Seq<PauliSpec>, after: Seq<PauliSpec>, from: int) -> bool {
    &&& before.len() <= after.len()
    &&& after.take(before.len() as int) == before
    &&& forall|i: int| before.len() <= i < after.len() ==> supported_from(#[trigger] after[i], from)
}

/// `after` keeps the bits of `before` below `pivot` and, from `pivot` on, has exactly the bits
/// of `X_pivot`.
pub open spec fn x_cleared(before: PauliSpec, after: PauliSpec, pivot: int) -> bool {
    &&& after.x.len() == before.x.len()
    &&& after.z.len() == before.z.len()
    &&& forall|j: int| 0 <= j < before.x.len() ==> #[trigger] after.x[j] == (if j < pivot { before.x[j] } else { j == pivot })
    &&& forall|j: int| 0 <= j < before.z.len() ==> #[trigger] after.z[j] == (if j < pivot { before.z[j] } else { false })
}

/// `after` keeps the bits of `before` below `pivot` and, from `pivot` on, has exactly the bits
/// of `Z_pivot`.
pub open spec fn z_cleared(before: PauliSpec, after: PauliSpec, pivot: int) -> bool {
    &&& after.x.len() == before.x.len()
    &&& after.z.len() == before.z.len()
    &&& forall|j: int| 0 <= j < before.x.len() ==> #[trigger] after.x[j] == (if j < pivot { before.x[j] } else { false })
    &&& forall|j: int| 0 <= j < before.z.len() ==> #[trigger] after.z[j] == (if j < pivot { before.z[j] } else { j == pivot })
}

/// `X_pivot` is fixed by the exponents of Paulis without a `Z` bit on `pivot`.
proof fn lemma_x_pivot_fixed(x_pivot: PauliSpec, u: Seq<PauliSpec>, pivot: int, n: nat)
    requires
        x_pivot == crate::clifford::pauli_x_spec(pivot, n),
        0 <= pivot < n,
        forall|k: int| 0 <= k < u.len() ==> (#[trigger] u[k]).x.len() == n && u[k].z.len() == n && !u[k].z[pivot],
    ensures
        conj_all(x_pivot, u) == x_pivot,
    decreases u.len(),
{
    if u.len() > 0 {
        lemma_x_pivot_fixed(x_pivot, u.drop_last(), pivot, n);
        let e = u[u.len() - 1];
        lemma_dot_symmetric(e.x, bit_zeros(n));
        crate::pauli::lemma_dot_zeros_left(bit_zeros(n), e.x);
        lemma_dot_symmetric(e.z, bit_unit(n, pivot));
        crate::pauli::lemma_dot_unit_left(n, pivot, e.z);
    }
}

/// Appending exponents that act on qubits `from` and above keeps the extension property.
proof fn lemma_extended_step(s0: Seq<PauliSpec>, s1: Seq<PauliSpec>, u: Seq<PauliSpec>, from: int)
    requires
        extended_from(s0, s1, from),
        forall|k: int| 0 <= k < u.len() ==> supported_from(#[trigger] u[k], from),
    ensures
        extended_from(s0, s1 + u, from),
{
    assert((s1 + u).take(s0.len() as int) =~= s0) by {
        assert(s1.take(s0.len() as int) =~= s0);
    }
    assert forall|i: int| s0.len() <= i < (s1 + u).len() implies supported_from(#[trigger] (s1 + u)[i], from) by {
        if i >= s1.len() {
            assert((s1 + u)[i] == u[i - s1.len()]);
        }
    }
}

/// Each exponent of a sequence of at most three acts on qubits `from` and above when each listed
/// one does.
proof fn lemma_short_supported(u: Seq<PauliSpec>, from: int)
    requires
        u.len() <= 3,
        u.len() > 0 ==> supported_from(u[0], from),
        u.len() > 1 ==> supported_from(u[1], from),
        u.len() > 2 ==> supported_from(u[2], from),
    ensures
        forall|k: int| 0 <= k < u.len() ==> supported_from(#[trigger] u[k], from),
{
    assert forall|k: int| 0 <= k < u.len() implies supported_from(#[trigger] u[k], from) by {
        if k == 0 {
        } else if k == 1 {
        } else {
        }
    }
}

/// Images whose bits both tableaux agree on stay Hermitian when the recorded exponents are
/// extended by Hermitian exponents.
proof fn lemma_images_stay_order_two(original: CliffordSpec, s0: Seq<PauliSpec>, s1: Seq<PauliSpec>, n: nat)
    requires
        s0.len() <= s1.len(),
        s1.take(s0.len() as int) == s0,
        hermitian_exponents(s1, n),
        tableau_wf(replay(original, s0), n),
    ensures
        forall|i: int|
            0 <= i < n && is_order_two_spec(replay(original, s0).x_images[i]) ==> is_order_two_spec(
                #[trigger] replay(original, s1).x_images[i],
            ),
        forall|i: int|
            0 <= i < n && is_order_two_spec(replay(original, s0).z_images[i]) ==> is_order_two_spec(
                #[trigger] replay(original, s1).z_images[i],
            ),
{
    let u = s1.skip(s0.len() as int);
    assert(s1 =~= s0 + u);
    lemma_replay_append(original, s0, u);
    let w = replay(original, s0);
    lemma_replay_images(w, u, n);
    assert(hermitian_exponents(u, n)) by {
        assert forall|i: int| 0 <= i < u.len() implies pauli_wf(#[trigger] u[i], n) && is_order_two_spec(u[i]) by {
            assert(u[i] == s1[i + s0.len()]);
        }
    }
    assert forall|i: int| 0 <= i < n && is_order_two_spec(w.x_images[i]) implies is_order_two_spec(
        #[trigger] replay(original, s1).x_images[i],
    ) by {
        lemma_conj_all_order_two(w.x_images[i], u, n);
    }
    assert forall|i: int| 0 <= i < n && is_order_two_spec(w.z_images[i]) implies is_order_two_spec(
        #[trigger] replay(original, s1).z_images[i],
    ) by {
        lemma_conj_all_order_two(w.z_images[i], u, n);
    }
}

/// `t` is the tableau of a Clifford unitary on `n` qubits: its images are well-formed Hermitian
/// Paulis with the commutation relations of the generators they stand for (the images of the
/// `X` generators commute among themselves, so do those of the `Z` generators, and the image of
/// `X_i` anticommutes with that of `Z_j` exactly when `i = j`).
pub open spec fn is_clifford_tableau(t: CliffordSpec, n: nat) -> bool {
    &&& tableau_wf(t, n)
    &&& forall|i: int| 0 <= i < n ==> #[trigger] is_order_two_spec(t.x_images[i])
    &&& forall|i: int| 0 <= i < n ==> #[trigger] is_order_two_spec(t.z_images[i])
    &&& forall|i: int, j: int| 0 <= i < n && 0 <= j < n ==> !#[trigger] symplectic(t.x_images[i], t.x_images[j])
    &&& forall|i: int, j: int| 0 <= i < n && 0 <= j < n ==> !#[trigger] symplectic(t.z_images[i], t.z_images[j])
    &&& forall|i: int, j: int| 0 <= i < n && 0 <= j < n ==> #[trigger] symplectic(t.x_images[i], t.z_images[j]) == (i == j)
}

/// The generators on qubits below `pivot` are their own images.
pub open spec fn fixes_low_generators(t: CliffordSpec, pivot: int, n: nat) -> bool {
    forall|j: int|
        0 <= j < pivot ==> #[trigger] t.x_images[j] == crate::clifford::pauli_x_spec(j, n) && t.z_images[j]
            == crate::clifford::pauli_z_spec(j, n)
}

/// Conjugation by a sequence of Hermitian exponents keeps the symplectic form of two Hermitian
/// Paulis.
proof fn lemma_conj_all_keeps_symplectic(a: PauliSpec, b: PauliSpec, u: Seq<PauliSpec>, n: nat)
    requires
        pauli_wf(a, n),
        pauli_wf(b, n),
        is_order_two_spec(a),
        is_order_two_spec(b),
        hermitian_exponents(u, n),
    ensures
        symplectic(conj_all(a, u), conj_all(b, u)) == symplectic(a, b),
    decreases u.len(),
{
    if u.len() > 0 {
        let init = u.drop_last();
        lemma_conj_all_keeps_symplectic(a, b, init, n);
        lemma_conj_all_order_two(a, init, n);
        lemma_conj_all_order_two(b, init, n);
        assert(pauli_wf(u[u.len() - 1], n));
        lemma_conj_keeps_symplectic(u.last(), conj_all(a, init), conj_all(b, init), n);
    }
}

/// Replaying Hermitian exponents on the tableau of a Clifford unitary gives the tableau of a
/// Clifford unitary.
proof fn lemma_replay_keeps_clifford(t: CliffordSpec, u: Seq<PauliSpec>, n: nat)
    requires
        is_clifford_tableau(t, n),
        hermitian_exponents(u, n),
    ensures
        is_clifford_tableau(replay(t, u), n),
{
    lemma_replay_images(t, u, n);
    lemma_replay_wf(t, u, n);
    let r = replay(t, u);
    assert forall|i: int| 0 <= i < n implies #[trigger] is_order_two_spec(r.x_images[i]) by {
        lemma_conj_all_order_two(t.x_images[i], u, n);
    }
    assert forall|i: int| 0 <= i < n implies #[trigger] is_order_two_spec(r.z_images[i]) by {
        lemma_conj_all_order_two(t.z_images[i], u, n);
    }
    assert forall|i: int, j: int| 0 <= i < n && 0 <= j < n implies !#[trigger] symplectic(r.x_images[i], r.x_images[j]) by {
        assert(!symplectic(t.x_images[i], t.x_images[j]));
        assert(is_order_two_spec(t.x_images[i]) && is_order_two_spec(t.x_images[j]));
        lemma_conj_all_keeps_symplectic(t.x_images[i], t.x_images[j], u, n);
    }
    assert forall|i: int, j: int| 0 <= i < n && 0 <= j < n implies !#[trigger] symplectic(r.z_images[i], r.z_images[j]) by {
        assert(!symplectic(t.z_images[i], t.z_images[j]));
        assert(is_order_two_spec(t.z_images[i]) && is_order_two_spec(t.z_images[j]));
        lemma_conj_all_keeps_symplectic(t.z_images[i], t.z_images[j], u, n);
    }
    assert forall|i: int, j: int| 0 <= i < n && 0 <= j < n implies #[trigger] symplectic(r.x_images[i], r.z_images[j]) == (i == j) by {
        assert(symplectic(t.x_images[i], t.z_images[j]) == (i == j));
        assert(is_order_two_spec(t.x_images[i]) && is_order_two_spec(t.z_images[j]));
        lemma_conj_all_keeps_symplectic(t.x_images[i], t.z_images[j], u, n);
    }
}

/// The identity tableau is the tableau of a Clifford unitary.
pub proof fn lemma_identity_is_clifford(n: nat)
    ensures
        is_clifford_tableau(identity_tableau(n), n),
{
    let t = identity_tableau(n);
    let zeros = bit_zeros(n);
    assert forall|i: int| 0 <= i < n implies #[trigger] is_order_two_spec(t.x_images[i]) by {
        crate::pauli::lemma_dot_unit_left(n, i, zeros);
    }
    assert forall|i: int| 0 <= i < n implies #[trigger] is_order_two_spec(t.z_images[i]) by {
        crate::pauli::lemma_dot_zeros_left(zeros, bit_unit(n, i));
    }
    assert forall|i: int, j: int| 0 <= i < n && 0 <= j < n implies !#[trigger] symplectic(t.x_images[i], t.x_images[j]) by {
        crate::pauli::lemma_dot_unit_left(n, i, zeros);
        crate::pauli::lemma_dot_zeros_left(zeros, bit_unit(n, j));
    }
    assert forall|i: int, j: int| 0 <= i < n && 0 <= j < n implies !#[trigger] symplectic(t.z_images[i], t.z_images[j]) by {
        crate::pauli::lemma_dot_unit_left(n, i, zeros);
        crate::pauli::lemma_dot_zeros_left(zeros, bit_unit(n, j));
    }
    assert forall|i: int, j: int| 0 <= i < n && 0 <= j < n implies #[trigger] symplectic(t.x_images[i], t.z_images[j]) == (i == j) by {
        crate::pauli::lemma_dot_unit_left(n, i, bit_unit(n, j));
        crate::pauli::lemma_dot_zeros_left(zeros, zeros);
    }
}

/// Exponents acting only on qubits `from` and above fix the generators below `from`.
proof fn lemma_low_generators_fixed(u: Seq<PauliSpec>, from: int, j: int, n: nat)
    requires
        0 <= j < from,
        j < n,
        forall|k: int| 0 <= k < u.len() ==> supported_from(#[trigger] u[k], from),
        forall|k: int| 0 <= k < u.len() ==> (#[trigger] u[k]).x.len() == n && u[k].z.len() == n,
    ensures
        conj_all(crate::clifford::pauli_x_spec(j, n), u) == crate::clifford::pauli_x_spec(j, n),
        conj_all(crate::clifford::pauli_z_spec(j, n), u) == crate::clifford::pauli_z_spec(j, n),
    decreases u.len(),
{
    if u.len() > 0 {
        lemma_low_generators_fixed(u.drop_last(), from, j, n);
        let e = u[u.len() - 1];
        assert(supported_from(e, from));
        lemma_dot_symmetric(e.x, bit_zeros(n));
        crate::pauli::lemma_dot_zeros_left(bit_zeros(n), e.x);
        lemma_dot_symmetric(e.z, bit_zeros(n));
        crate::pauli::lemma_dot_zeros_left(bit_zeros(n), e.z);
        lemma_dot_symmetric(e.z, bit_unit(n, j));
        crate::pauli::lemma_dot_unit_left(n, j, e.z);
        lemma_dot_symmetric(e.x, bit_unit(n, j));
        crate::pauli::lemma_dot_unit_left(n, j, e.x);
    }
}

/// A step of the reduction keeps the tableau a Clifford tableau and the generators below `pivot`
/// fixed.
proof fn lemma_reduction_step(original: CliffordSpec, s0: Seq<PauliSpec>, s1: Seq<PauliSpec>, pivot: int, n: nat)
    requires
        0 <= pivot <= n,
        is_clifford_tableau(replay(original, s0), n),
        fixes_low_generators(replay(original, s0), pivot, n),
        extended_from(s0, s1, pivot),
        hermitian_exponents(s1, n),
    ensures
        is_clifford_tableau(replay(original, s1), n),
        fixes_low_generators(replay(original, s1), pivot, n),
{
    let u = s1.skip(s0.len() as int);
    assert(s1 =~= s0 + u);
    lemma_replay_append(original, s0, u);
    let w = replay(original, s0);
    assert(hermitian_exponents(u, n)) by {
        assert forall|i: int| 0 <= i < u.len() implies pauli_wf(#[trigger] u[i], n) && is_order_two_spec(u[i]) by {
            assert(u[i] == s1[i + s0.len()]);
        }
    }
    assert forall|k: int| 0 <= k < u.len() implies supported_from(#[trigger] u[k], pivot) by {
        assert(u[k] == s1[k + s0.len()]);
    }
    lemma_replay_keeps_clifford(w, u, n);
    lemma_replay_images(w, u, n);
    assert forall|j: int| 0 <= j < pivot implies #[trigger] replay(original, s1).x_images[j]
        == crate::clifford::pauli_x_spec(j, n) && replay(original, s1).z_images[j] == crate::clifford::pauli_z_spec(j, n) by {
        assert(w.x_images[j] == crate::clifford::pauli_x_spec(j, n));
        lemma_low_generators_fixed(u, pivot, j, n);
    }
}

/// With the generators below `pivot` fixed, the images of `X_pivot` and `Z_pivot` of a Clifford
/// tableau act only on qubits `pivot` and above, and that of `X_pivot` is not the identity there.
proof fn lemma_pivot_images(t: CliffordSpec, pivot: int, n: nat)
    requires
        is_clifford_tableau(t, n),
        fixes_low_generators(t, pivot, n),
        0 <= pivot < n,
    ensures
        supported_from(t.x_images[pivot], pivot),
        supported_from(t.z_images[pivot], pivot),
        has_bit_from(t.x_images[pivot], pivot),
{
    let a = t.x_images[pivot];
    let b = t.z_images[pivot];
    let zeros = bit_zeros(n);
    assert forall|j: int| 0 <= j < pivot implies !a.x[j] && !a.z[j] && !b.x[j] && !b.z[j] by {
        assert(t.x_images[j] == crate::clifford::pauli_x_spec(j, n));
        assert(t.z_images[j] == crate::clifford::pauli_z_spec(j, n));
        assert(!symplectic(t.x_images[j], t.x_images[pivot]));
        assert(!symplectic(t.x_images[pivot], t.z_images[j]));
        assert(!symplectic(t.x_images[j], t.z_images[pivot]));
        assert(!symplectic(t.z_images[j], t.z_images[pivot]));
        crate::pauli::lemma_dot_unit_left(n, j, a.z);
        crate::pauli::lemma_dot_zeros_left(zeros, a.x);
        lemma_dot_symmetric(a.x, bit_unit(n, j));
        crate::pauli::lemma_dot_unit_left(n, j, a.x);
        lemma_dot_symmetric(a.z, zeros);
        crate::pauli::lemma_dot_zeros_left(zeros, a.z);
        crate::pauli::lemma_dot_unit_left(n, j, b.z);
        crate::pauli::lemma_dot_zeros_left(zeros, b.x);
        crate::pauli::lemma_dot_zeros_left(zeros, b.z);
        crate::pauli::lemma_dot_unit_left(n, j, b.x);
    }
    if !has_bit_from(a, pivot) {
        assert(crate::gf2::bit_is_zero(a.x));
        assert(crate::gf2::bit_is_zero(a.z));
        crate::pauli::lemma_dot_zeros_left(a.x, b.z);
        crate::pauli::lemma_dot_zeros_left(a.z, b.x);
        assert(symplectic(t.x_images[pivot], t.z_images[pivot]));
    }
}

/// Accumulates the `π/4` exponents applied while reducing a Clifford to the identity.
struct Reduction {
    applied: Vec<DensePauli>,
}

impl Reduction {
    /// The exponents recorded so far.
    spec fn applied_spec(&self) -> Seq<PauliSpec> {
        self.applied@.map_values(|p: DensePauli| p@)
    }

    /// The recorded exponents are Hermitian Paulis on `n` qubits and `working` is `original`
    /// left-multiplied by them in order.
    spec fn tracks(&self, original: CliffordSpec, working: &CliffordUnitary) -> bool {
        &&& working.wf()
        &&& tableau_wf(original, working.n())
        &&& hermitian_exponents(self.applied_spec(), working.n())
        &&& working@ == replay(original, self.applied_spec())
    }

    /// An empty record.
    fn new() -> (r: Reduction)
        ensures
            r.applied_spec() == Seq::<PauliSpec>::empty(),
    {
        let r = Reduction { applied: Vec::new() };
        proof {
            assert(r.applied_spec() =~= Seq::<PauliSpec>::empty());
        }
        r
    }

    /// Left-multiplies `working` by `exp(iπ/4 · pauli)` and records the factor.
    fn exp(&mut self, working: &mut CliffordUnitary, pauli: DensePauli, Ghost(original): Ghost<CliffordSpec>)
        requires
            old(self).tracks(original, old(working)),
            pauli.wf(),
            pauli@.x.len() == old(working).n(),
            is_order_two_spec(pauli@),
        ensures
            final(self).tracks(original, final(working)),
            final(working).n() == old(working).n(),
            final(self).applied_spec() == old(self).applied_spec().push(pauli@),
    {
        working.left_mul_pauli_exp(&pauli);
        self.applied.push(pauli);
        proof {
            let s = self.applied_spec();
            assert(s =~= old(self).applied_spec().push(s.last()));
            assert(s.drop_last() =~= old(self).applied_spec());
        }
    }

    /// `X_qubit` on `qubit_count` qubits.
    fn single_x(qubit: usize, qubit_count: usize) -> (p: DensePauli)
        requires
            qubit < qubit_count,
        ensures
            p.wf(),
            p@.x.len() == qubit_count,
            is_order_two_spec(p@),
            p@ == x_exponent(qubit as int, qubit_count as nat),
    {
        let p = DensePauli::x(qubit, qubit_count);
        proof {
            crate::pauli::lemma_dot_unit_left(qubit_count as nat, qubit as int, bit_zeros(qubit_count as nat));
        }
        p
    }

    /// `Z_qubit` on `qubit_count` qubits.
    fn single_z(qubit: usize, qubit_count: usize) -> (p: DensePauli)
        requires
            qubit < qubit_count,
        ensures
            p.wf(),
            p@.x.len() == qubit_count,
            is_order_two_spec(p@),
            p@ == z_exponent(qubit as int, qubit_count as nat),
    {
        let p = DensePauli::z(qubit, qubit_count);
        proof {
            crate::pauli::lemma_dot_zeros_left(bit_zeros(qubit_count as nat), p@.z);
        }
        p
    }

    /// `Z_control · X_target`, the generator of a controlled-`X`.
    fn control_x(control: usize, target: usize, qubit_count: usize) -> (p: DensePauli)
        requires
            control < qubit_count,
            target < qubit_count,
            control != target,
        ensures
            p.wf(),
            p@.x.len() == qubit_count,
            is_order_two_spec(p@),
            p@ == control_x_exponent(control as int, target as int, qubit_count as nat),
    {
        let mut pauli = DensePauli::z(control, qubit_count);
        pauli.mul_assign_left_x(target);
        proof {
            let n = qubit_count as nat;
            crate::pauli::lemma_dot_zeros_left(bit_zeros(n), bit_unit(n, control as int));
            assert(pauli@.x =~= bit_unit(n, target as int));
            crate::pauli::lemma_dot_unit_left(n, target as int, pauli@.z);
        }
        pauli
    }

    /// `Z_a · Z_b`, the generator of a controlled-`Z`.
    fn control_z(first: usize, second: usize, qubit_count: usize) -> (p: DensePauli)
        requires
            first < qubit_count,
            second < qubit_count,
        ensures
            p.wf(),
            p@.x.len() == qubit_count,
            is_order_two_spec(p@),
            p@ == control_z_exponent(first as int, second as int, qubit_count as nat),
    {
        let mut pauli = DensePauli::z(first, qubit_count);
        pauli.mul_assign_left_z(second);
        proof {
            let n = qubit_count as nat;
            crate::pauli::lemma_dot_unit_left(n, second as int, bit_zeros(n));
            assert(pauli@.x =~= bit_zeros(n));
            crate::pauli::lemma_dot_zeros_left(bit_zeros(n), pauli@.z);
        }
        pauli
    }

    /// Left-multiplies by a Hadamard on `qubit` (as `exp(X)·exp(Z)·exp(X)`).
    fn hadamard(&mut self, working: &mut CliffordUnitary, qubit: usize, Ghost(original): Ghost<CliffordSpec>)
        requires
            old(self).tracks(original, old(working)),
            qubit < old(working).n(),
        ensures
            final(self).tracks(original, final(working)),
            final(working).n() == old(working).n(),
            final(self).applied_spec() == old(self).applied_spec() + hadamard_exponents(qubit as int, old(working).n()),
            final(working)@ == replay(old(working)@, hadamard_exponents(qubit as int, old(working).n())),
    {
        let count = working.num_qubits();
        self.exp(working, Self::single_x(qubit, count), Ghost(original));
        self.exp(working, Self::single_z(qubit, count), Ghost(original));
        self.exp(working, Self::single_x(qubit, count), Ghost(original));
        proof {
            assert(self.applied_spec() =~= old(self).applied_spec() + hadamard_exponents(qubit as int, old(working).n()));
            lemma_replay_append(original, old(self).applied_spec(), hadamard_exponents(qubit as int, old(working).n()));
        }
    }

    /// Left-multiplies by `exp(iπ/4·Z_qubit)`.
    fn root_z(&mut self, working: &mut CliffordUnitary, qubit: usize, Ghost(original): Ghost<CliffordSpec>)
        requires
            old(self).tracks(original, old(working)),
            qubit < old(working).n(),
        ensures
            final(self).tracks(original, final(working)),
            final(working).n() == old(working).n(),
            final(self).applied_spec() == old(self).applied_spec() + seq![z_exponent(qubit as int, old(working).n())],
            final(working)@ == replay(old(working)@, seq![z_exponent(qubit as int, old(working).n())]),
    {
        let count = working.num_qubits();
        self.exp(working, Self::single_z(qubit, count), Ghost(original));
        proof {
            assert(self.applied_spec() =~= old(self).applied_spec() + seq![z_exponent(qubit as int, old(working).n())]);
            lemma_replay_append(original, old(self).applied_spec(), seq![z_exponent(qubit as int, old(working).n())]);
        }
    }

    /// Left-multiplies by `exp(iπ/4·(−Z_qubit))`.
    fn root_z_inverse(&mut self, working: &mut CliffordUnitary, qubit: usize, Ghost(original): Ghost<CliffordSpec>)
        requires
            old(self).tracks(original, old(working)),
            qubit < old(working).n(),
        ensures
            final(self).tracks(original, final(working)),
            final(working).n() == old(working).n(),
            final(self).applied_spec() == old(self).applied_spec() + seq![negated_spec(z_exponent(qubit as int, old(working).n()))],
            final(working)@ == replay(old(working)@, seq![negated_spec(z_exponent(qubit as int, old(working).n()))]),
    {
        let count = working.num_qubits();
        self.exp(working, negated(Self::single_z(qubit, count)), Ghost(original));
        proof {
            assert(self.applied_spec() =~= old(self).applied_spec() + seq![negated_spec(z_exponent(qubit as int, old(working).n()))]);
            lemma_replay_append(original, old(self).applied_spec(), seq![negated_spec(z_exponent(qubit as int, old(working).n()))]);
        }
    }

    /// Left-multiplies by `exp(iπ/4·X_qubit)`.
    fn root_x(&mut self, working: &mut CliffordUnitary, qubit: usize, Ghost(original): Ghost<CliffordSpec>)
        requires
            old(self).tracks(original, old(working)),
            qubit < old(working).n(),
        ensures
            final(self).tracks(original, final(working)),
            final(working).n() == old(working).n(),
            final(self).applied_spec() == old(self).applied_spec() + seq![x_exponent(qubit as int, old(working).n())],
            final(working)@ == replay(old(working)@, seq![x_exponent(qubit as int, old(working).n())]),
    {
        let count = working.num_qubits();
        self.exp(working, Self::single_x(qubit, count), Ghost(original));
        proof {
            assert(self.applied_spec() =~= old(self).applied_spec() + seq![x_exponent(qubit as int, old(working).n())]);
            lemma_replay_append(original, old(self).applied_spec(), seq![x_exponent(qubit as int, old(working).n())]);
        }
    }

    /// Left-multiplies by a controlled-`X` (as a product of three exponents).
    fn controlled_x(&mut self, working: &mut CliffordUnitary, control: usize, target: usize, Ghost(original): Ghost<CliffordSpec>)
        requires
            old(self).tracks(original, old(working)),
            control < old(working).n(),
            target < old(working).n(),
            control != target,
        ensures
            final(self).tracks(original, final(working)),
            final(working).n() == old(working).n(),
            final(self).applied_spec() == old(self).applied_spec() + controlled_x_exponents(control as int, target as int, old(working).n()),
            final(working)@ == replay(old(working)@, controlled_x_exponents(control as int, target as int, old(working).n())),
    {
        let count = working.num_qubits();
        self.exp(working, Self::control_x(control, target, count), Ghost(original));
        self.exp(working, negated(Self::single_z(control, count)), Ghost(original));
        self.exp(working, negated(Self::single_x(target, count)), Ghost(original));
        proof {
            assert(self.applied_spec() =~= old(self).applied_spec() + controlled_x_exponents(control as int, target as int, old(working).n()));
            lemma_replay_append(original, old(self).applied_spec(), controlled_x_exponents(control as int, target as int, old(working).n()));
        }
    }

    /// Left-multiplies by a controlled-`Z` (as a product of three exponents).
    fn controlled_z(&mut self, working: &mut CliffordUnitary, first: usize, second: usize, Ghost(original): Ghost<CliffordSpec>)
        requires
            old(self).tracks(original, old(working)),
            first < old(working).n(),
            second < old(working).n(),
        ensures
            final(self).tracks(original, final(working)),
            final(working).n() == old(working).n(),
            final(self).applied_spec() == old(self).applied_spec() + controlled_z_exponents(first as int, second as int, old(working).n()),
            final(working)@ == replay(old(working)@, controlled_z_exponents(first as int, second as int, old(working).n())),
    {
        let count = working.num_qubits();
        self.exp(working, Self::control_z(first, second, count), Ghost(original));
        self.exp(working, negated(Self::single_z(first, count)), Ghost(original));
        self.exp(working, negated(Self::single_z(second, count)), Ghost(original));
        proof {
            assert(self.applied_spec() =~= old(self).applied_spec() + controlled_z_exponents(first as int, second as int, old(working).n()));
            lemma_replay_append(original, old(self).applied_spec(), controlled_z_exponents(first as int, second as int, old(working).n()));
        }
    }

    /// Conjugation by `Z_qubit`, flipping the sign of an `X`-type image on `qubit`.
    fn pauli_z(&mut self, working: &mut CliffordUnitary, qubit: usize, Ghost(original): Ghost<CliffordSpec>)
        requires
            old(self).tracks(original, old(working)),
            qubit < old(working).n(),
        ensures
            final(self).tracks(original, final(working)),
            final(working).n() == old(working).n(),
            final(self).applied_spec() == old(self).applied_spec() + seq![z_exponent(qubit as int, old(working).n()), z_exponent(qubit as int, old(working).n())],
            final(working)@ == replay(old(working)@, seq![z_exponent(qubit as int, old(working).n()), z_exponent(qubit as int, old(working).n())]),
    {
        let count = working.num_qubits();
        self.exp(working, Self::single_z(qubit, count), Ghost(original));
        self.exp(working, Self::single_z(qubit, count), Ghost(original));
        proof {
            assert(self.applied_spec() =~= old(self).applied_spec() + seq![z_exponent(qubit as int, old(working).n()), z_exponent(qubit as int, old(working).n())]);
            lemma_replay_append(original, old(self).applied_spec(), seq![z_exponent(qubit as int, old(working).n()), z_exponent(qubit as int, old(working).n())]);
        }
    }

    /// Conjugation by `X_qubit`, flipping the sign of a `Z`-type image on `qubit`.
    fn pauli_x(&mut self, working: &mut CliffordUnitary, qubit: usize, Ghost(original): Ghost<CliffordSpec>)
        requires
            old(self).tracks(original, old(working)),
            qubit < old(working).n(),
        ensures
            final(self).tracks(original, final(working)),
            final(working).n() == old(working).n(),
            final(self).applied_spec() == old(self).applied_spec() + seq![x_exponent(qubit as int, old(working).n()), x_exponent(qubit as int, old(working).n())],
            final(working)@ == replay(old(working)@, seq![x_exponent(qubit as int, old(working).n()), x_exponent(qubit as int, old(working).n())]),
    {
        let count = working.num_qubits();
        self.exp(working, Self::single_x(qubit, count), Ghost(original));
        self.exp(working, Self::single_x(qubit, count), Ghost(original));
        proof {
            assert(self.applied_spec() =~= old(self).applied_spec() + seq![x_exponent(qubit as int, old(working).n()), x_exponent(qubit as int, old(working).n())]);
            lemma_replay_append(original, old(self).applied_spec(), seq![x_exponent(qubit as int, old(working).n()), x_exponent(qubit as int, old(working).n())]);
        }
    }

    /// Turns the image of `X_pivot` into `+X_pivot` using gates supported on qubits `≥ pivot`.
    /// Returns `false` when the image has no component to move onto the pivot.
    #[verifier::spinoff_prover]
    fn clear_x_image(&mut self, working: &mut CliffordUnitary, pivot: usize, Ghost(original): Ghost<CliffordSpec>) -> (ok: bool)
        requires
            old(self).tracks(original, old(working)),
            pivot < old(working).n(),
        ensures
            final(self).tracks(original, final(working)),
            final(working).n() == old(working).n(),
            extended_from(old(self).applied_spec(), final(self).applied_spec(), pivot as int),
            ok == has_bit_from(old(working)@.x_images[pivot as int], pivot as int),
            !ok ==> final(self).applied_spec() == old(self).applied_spec(),
            ok ==> x_cleared(old(working)@.x_images[pivot as int], final(working)@.x_images[pivot as int], pivot as int),
            ok && is_order_two_spec(old(working)@.x_images[pivot as int]) && supported_from(
                old(working)@.x_images[pivot as int],
                pivot as int,
            ) ==> final(working)@.x_images[pivot as int] == crate::clifford::pauli_x_spec(pivot as int, old(working).n()),
    {
        let ghost n = old(working).n();
        let ghost p = pivot as int;
        let ghost start = working@.x_images[p];
        let ghost s0 = self.applied_spec();
        let count = working.num_qubits();
        let image = working.image_x(pivot);
        let ghost witness: int = 0;
        let found_x = find_bit(&image, pivot, count, true, count);
        match found_x {
            Some(q) => {
                proof {
                    witness = q as int;
                }
            },
            None => {
                match find_bit(&image, pivot, count, false, count) {
                    Some(qubit) => {
                        let ghost before = working@;
                        self.hadamard(working, qubit, Ghost(original));
                        proof {
                            lemma_replay_images(before, hadamard_exponents(qubit as int, n), n);
                            lemma_hadamard_bits(start, qubit as int, n);
                            assert(s0 + Seq::<PauliSpec>::empty() =~= s0);
                            assert(s0.take(s0.len() as int) =~= s0);
                            lemma_short_supported(hadamard_exponents(qubit as int, n), p);
                            lemma_extended_step(s0, s0, hadamard_exponents(qubit as int, n), p);
                            witness = qubit as int;
                        }
                    },
                    None => {
                        proof {
                            assert(!has_bit_from(start, p));
                            assert(s0.take(s0.len() as int) =~= s0);
                        }
                        return false;
                    },
                }
            },
        }
        proof {
            if found_x is Some {
                assert(s0.take(s0.len() as int) =~= s0);
            }
            assert(has_bit_from(start, p)) by {
                if found_x is None {
                    assert(start.z[witness]);
                }
            }
        }
        let ghost img1 = working@.x_images[p];
        proof {
            assert(p <= witness < n && img1.x[witness]);
            assert(forall|j: int| 0 <= j < p ==> img1.x[j] == start.x[j] && img1.z[j] == start.z[j]);
        }
        let image = working.image_x(pivot);
        if !x_bit(&image, pivot) {
            match find_bit(&image, pivot, count, true, pivot) {
                Some(qubit) => {
                    let ghost before = working@;
                    let ghost s_before = self.applied_spec();
                    self.controlled_x(working, qubit, pivot, Ghost(original));
                    proof {
                        lemma_replay_images(before, controlled_x_exponents(qubit as int, p, n), n);
                        lemma_controlled_x_bits(img1, qubit as int, p, n);
                        lemma_short_supported(controlled_x_exponents(qubit as int, p, n), p);
                        lemma_extended_step(s0, s_before, controlled_x_exponents(qubit as int, p, n), p);
                    }
                },
                None => {
                    proof {
                        assert(witness != p);
                        assert(false);
                    }
                    return false;
                },
            }
        }
        let ghost img2 = working@.x_images[p];
        proof {
            assert(img2.x[p]);
            assert(img2.x.len() == n && img2.z.len() == n);
            assert(forall|j: int| 0 <= j < p ==> img2.x[j] == start.x[j] && img2.z[j] == start.z[j]);
        }
        let image = working.image_x(pivot);
        let mut qubit = pivot + 1;
        while qubit < count
            invariant
                self.tracks(original, working),
                working.n() == count,
                count == n,
                p == pivot,
                image.wf(),
                image@ == img2,
                img2.x.len() == n,
                img2.z.len() == n,
                pivot < qubit <= count,
                extended_from(s0, self.applied_spec(), p),
                working@.x_images[p].x.len() == n,
                working@.x_images[p].z.len() == n,
                working@.x_images[p].x[p],
                forall|j: int| p < j < qubit ==> !working@.x_images[p].x[j],
                forall|j: int| qubit <= j < n ==> working@.x_images[p].x[j] == img2.x[j],
                forall|j: int| 0 <= j < p ==> working@.x_images[p].x[j] == start.x[j] && working@.x_images[p].z[j] == start.z[j],
            decreases count - qubit,
        {
            if x_bit(&image, qubit) {
                let ghost before = working@;
                let ghost s_before = self.applied_spec();
                self.controlled_x(working, pivot, qubit, Ghost(original));
                proof {
                    lemma_replay_images(before, controlled_x_exponents(p, qubit as int, n), n);
                    lemma_controlled_x_bits(before.x_images[p], p, qubit as int, n);
                    lemma_short_supported(controlled_x_exponents(p, qubit as int, n), p);
                    lemma_extended_step(s0, s_before, controlled_x_exponents(p, qubit as int, n), p);
                }
            }
            qubit = qubit + 1;
        }
        let image = working.image_x(pivot);
        if z_bit(&image, pivot) {
            let ghost before = working@;
            let ghost s_before = self.applied_spec();
            self.root_z_inverse(working, pivot, Ghost(original));
            proof {
                let e = negated_spec(z_exponent(p, n));
                lemma_replay_images(before, seq![e], n);
                lemma_conj_all_short(before.x_images[p], e, e, e);
                lemma_z_exp_bits(e, before.x_images[p], p, n);
                lemma_short_supported(seq![e], p);
                lemma_extended_step(s0, s_before, seq![e], p);
            }
        }
        let ghost img3 = working@.x_images[p];
        let image = working.image_x(pivot);
        let mut qubit = pivot + 1;
        while qubit < count
            invariant
                self.tracks(original, working),
                working.n() == count,
                count == n,
                p == pivot,
                image.wf(),
                image@ == img3,
                img3.x.len() == n,
                img3.z.len() == n,
                img3.x[p],
                forall|j: int| p < j < n ==> !img3.x[j],
                pivot < qubit <= count,
                extended_from(s0, self.applied_spec(), p),
                working@.x_images[p].x == img3.x,
                working@.x_images[p].z.len() == n,
                !working@.x_images[p].z[p],
                forall|j: int| p < j < qubit ==> !working@.x_images[p].z[j],
                forall|j: int| qubit <= j < n ==> working@.x_images[p].z[j] == img3.z[j],
                forall|j: int| 0 <= j < p ==> working@.x_images[p].z[j] == start.z[j],
            decreases count - qubit,
        {
            if z_bit(&image, qubit) {
                let ghost before = working@;
                let ghost s_before = self.applied_spec();
                self.controlled_z(working, pivot, qubit, Ghost(original));
                proof {
                    lemma_replay_images(before, controlled_z_exponents(p, qubit as int, n), n);
                    lemma_controlled_z_bits(before.x_images[p], p, qubit as int, n);
                    lemma_short_supported(controlled_z_exponents(p, qubit as int, n), p);
                    lemma_extended_step(s0, s_before, controlled_z_exponents(p, qubit as int, n), p);
                }
            }
            qubit = qubit + 1;
        }
        let ghost img4 = working@.x_images[p];
        let ghost s4 = self.applied_spec();
        proof {
            assert(x_cleared(start, img4, p));
        }
        if working.image_x(pivot).xz_phase_exponent() != 0 {
            let ghost before = working@;
            self.pauli_z(working, pivot, Ghost(original));
            proof {
                let e = z_exponent(p, n);
                lemma_replay_images(before, seq![e, e], n);
                lemma_double_z(img4, p, n);
                lemma_short_supported(seq![e, e], p);
                lemma_extended_step(s0, s4, seq![e, e], p);
            }
        }
        proof {
            let fin = working@.x_images[p];
            assert(x_cleared(start, fin, p));
            if is_order_two_spec(start) && supported_from(start, p) {
                lemma_images_stay_order_two(original, s0, s4, n);
                assert(img4.x =~= bit_unit(n, p));
                assert(img4.z =~= bit_zeros(n));
                crate::pauli::lemma_dot_zeros_left(bit_zeros(n), img4.x);
                lemma_dot_symmetric(img4.x, img4.z);
                assert(fin.x =~= bit_unit(n, p));
                assert(fin.z =~= bit_zeros(n));
            }
        }
        true
    }

    /// Turns the image of `Z_pivot` into `+Z_pivot`; every gate used fixes `X_pivot`.
    #[verifier::spinoff_prover]
    fn clear_z_image(&mut self, working: &mut CliffordUnitary, pivot: usize, Ghost(original): Ghost<CliffordSpec>)
        requires
            old(self).tracks(original, old(working)),
            pivot < old(working).n(),
        ensures
            final(self).tracks(original, final(working)),
            final(working).n() == old(working).n(),
            extended_from(old(self).applied_spec(), final(self).applied_spec(), pivot as int),
            old(working)@.x_images[pivot as int] == crate::clifford::pauli_x_spec(pivot as int, old(working).n())
                && old(working)@.z_images[pivot as int].z[pivot as int] ==> ({
                let before = old(working)@.z_images[pivot as int];
                let after = final(working)@.z_images[pivot as int];
                &&& final(working)@.x_images[pivot as int] == old(working)@.x_images[pivot as int]
                &&& z_cleared(before, after, pivot as int)
                &&& is_order_two_spec(before) && supported_from(before, pivot as int) ==> after
                    == crate::clifford::pauli_z_spec(pivot as int, old(working).n())
            }),
    {
        let ghost n = old(working).n();
        let ghost p = pivot as int;
        let ghost start = working@.z_images[p];
        let ghost s0 = self.applied_spec();
        let ghost applicable = working@.x_images[p] == crate::clifford::pauli_x_spec(p, n) && start.z[p];
        proof {
            assert(s0.take(s0.len() as int) =~= s0);
        }
        let count = working.num_qubits();
        if x_bit(&working.image_z(pivot), pivot) {
            let ghost before = working@;
            self.root_x(working, pivot, Ghost(original));
            proof {
                let e = x_exponent(p, n);
                lemma_replay_images(before, seq![e], n);
                lemma_conj_all_short(before.z_images[p], e, e, e);
                lemma_x_exp_bits(e, before.z_images[p], p, n);
                lemma_short_supported(seq![e], p);
                lemma_extended_step(s0, s0, seq![e], p);
                if applicable {
                    lemma_x_pivot_fixed(before.x_images[p], seq![e], p, n);
                }
            }
        }
        let ghost img_a = working@.z_images[p];
        let mut qubit = pivot + 1;
        while qubit < count
            invariant
                self.tracks(original, working),
                working.n() == count,
                count == n,
                p == pivot,
                pivot < qubit <= count,
                extended_from(s0, self.applied_spec(), p),
                working@.z_images[p].x.len() == n,
                working@.z_images[p].z.len() == n,
                img_a.x.len() == n,
                img_a.z.len() == n,
                applicable ==> working@.x_images[p] == crate::clifford::pauli_x_spec(p, n),
                applicable ==> !working@.z_images[p].x[p] && working@.z_images[p].z[p],
                applicable ==> forall|j: int|
                    p < j < qubit ==> !working@.z_images[p].x[j] && !working@.z_images[p].z[j],
                applicable ==> forall|j: int|
                    qubit <= j < n ==> working@.z_images[p].x[j] == img_a.x[j] && working@.z_images[p].z[j]
                        == img_a.z[j],
                applicable ==> forall|j: int|
                    0 <= j < p ==> working@.z_images[p].x[j] == start.x[j] && working@.z_images[p].z[j] == start.z[j],
            decreases count - qubit,
        {
            let ghost q = qubit as int;
            let ghost b0 = working@.z_images[p];
            let image = working.image_z(pivot);
            if x_bit(&image, qubit) && z_bit(&image, qubit) {
                let ghost before = working@;
                let ghost sb = self.applied_spec();
                self.root_z(working, qubit, Ghost(original));
                proof {
                    let e = z_exponent(q, n);
                    lemma_replay_images(before, seq![e], n);
                    lemma_conj_all_short(before.z_images[p], e, e, e);
                    lemma_z_exp_bits(e, before.z_images[p], q, n);
                    lemma_short_supported(seq![e], p);
                    lemma_extended_step(s0, sb, seq![e], p);
                    if applicable {
                        lemma_x_pivot_fixed(before.x_images[p], seq![e], p, n);
                    }
                }
            }
            let ghost b1 = working@.z_images[p];
            proof {
                assert(b1.x.len() == n && b1.z.len() == n);
                assert(forall|j: int| 0 <= j < n && j != q ==> b1.x[j] == b0.x[j] && b1.z[j] == b0.z[j]);
                assert(!(b1.x[q] && b1.z[q]));
            }
            if x_bit(&working.image_z(pivot), qubit) {
                let ghost before = working@;
                let ghost sb = self.applied_spec();
                self.hadamard(working, qubit, Ghost(original));
                proof {
                    lemma_replay_images(before, hadamard_exponents(q, n), n);
                    lemma_hadamard_bits(before.z_images[p], q, n);
                    lemma_short_supported(hadamard_exponents(q, n), p);
                    lemma_extended_step(s0, sb, hadamard_exponents(q, n), p);
                    if applicable {
                        lemma_x_pivot_fixed(before.x_images[p], hadamard_exponents(q, n), p, n);
                    }
                }
            }
            let ghost b2 = working@.z_images[p];
            proof {
                assert(b2.x.len() == n && b2.z.len() == n);
                assert(forall|j: int| 0 <= j < n && j != q ==> b2.x[j] == b0.x[j] && b2.z[j] == b0.z[j]);
                assert(!b2.x[q]);
            }
            if z_bit(&working.image_z(pivot), qubit) {
                let ghost before = working@;
                let ghost sb = self.applied_spec();
                self.controlled_x(working, qubit, pivot, Ghost(original));
                proof {
                    lemma_replay_images(before, controlled_x_exponents(q, p, n), n);
                    lemma_controlled_x_bits(before.z_images[p], q, p, n);
                    lemma_short_supported(controlled_x_exponents(q, p, n), p);
                    lemma_extended_step(s0, sb, controlled_x_exponents(q, p, n), p);
                    if applicable {
                        lemma_x_pivot_fixed(before.x_images[p], controlled_x_exponents(q, p, n), p, n);
                    }
                }
            }
            qubit = qubit + 1;
        }
        let ghost img_b = working@.z_images[p];
        let ghost sb = self.applied_spec();
        proof {
            if applicable {
                assert(z_cleared(start, img_b, p));
            }
        }
        if working.image_z(pivot).xz_phase_exponent() != 0 {
            let ghost before = working@;
            self.pauli_x(working, pivot, Ghost(original));
            proof {
                let e = x_exponent(p, n);
                lemma_replay_images(before, seq![e, e], n);
                lemma_short_supported(seq![e, e], p);
                lemma_extended_step(s0, sb, seq![e, e], p);
                if applicable {
                    lemma_double_x(img_b, p, n);
                    lemma_x_pivot_fixed(before.x_images[p], seq![e, e], p, n);
                }
            }
        }
        proof {
            if applicable {
                let fin = working@.z_images[p];
                assert(z_cleared(start, fin, p));
                if is_order_two_spec(start) && supported_from(start, p) {
                    lemma_images_stay_order_two(original, s0, sb, n);
                    assert(img_b.x =~= bit_zeros(n));
                    assert(img_b.z =~= bit_unit(n, p));
                    crate::pauli::lemma_dot_zeros_left(bit_zeros(n), img_b.z);
                    assert(fin.x =~= bit_zeros(n));
                    assert(fin.z =~= bit_unit(n, p));
                }
            }
        }
    }

    /// The exponents that rebuild the original Clifford from the identity: the recorded
    /// exponents negated, in reverse order.
    fn into_decomposition(self) -> (r: Vec<DensePauli>)
        requires
            forall|i: int| 0 <= i < self.applied_spec().len() ==> #[trigger] self.applied@[i].wf(),
        ensures
            r@.map_values(|p: DensePauli| p@) == inverse_exponents(self.applied_spec()),
            forall|i: int| 0 <= i < r@.len() ==> (#[trigger] r@[i]).wf(),
    {
        let mut applied = self.applied;
        let ghost original = applied@;
        let mut r: Vec<DensePauli> = Vec::new();
        while applied.len() > 0
            invariant
                forall|i: int| 0 <= i < original.len() ==> #[trigger] original[i].wf(),
                applied@ == original.take(applied@.len() as int),
                applied@.len() <= original.len(),
                r@.len() + applied@.len() == original.len(),
                forall|i: int| 0 <= i < r@.len() ==> (#[trigger] r@[i]).wf() && r@[i]@ == negated_spec(
                    original[original.len() - 1 - i]@,
                ),
            decreases applied@.len(),
        {
            let p = applied.pop().unwrap();
            proof {
                assert(p == original[applied@.len() as int]);
            }
            r.push(negated(p));
            proof {
                assert(applied@ =~= original.take(applied@.len() as int));
            }
        }
        proof {
            let target = inverse_exponents(self.applied_spec());
            assert(r@.map_values(|p: DensePauli| p@) =~= target);
        }
        r
    }
}

/// The first qubit `q` in `from..to`, other than `excluded`, whose `X` bit (when `use_x`) or `Z`
/// bit (otherwise) is set.
fn find_bit(p: &DensePauli, from: usize, to: usize, use_x: bool, excluded: usize) -> (r: Option<usize>)
    requires
        p.wf(),
        to <= p@.x.len(),
    ensures
        r matches Some(q) ==> from <= q < to && q != excluded && (if use_x { p@.x[q as int] } else { p@.z[q as int] }),
        r is None ==> forall|q: int| from <= q < to && q != excluded ==> !(if use_x { p@.x[q] } else { p@.z[q] }),
{
    let mut q = from;
    while q < to
        invariant
            p.wf(),
            to <= p@.x.len(),
            from <= q,
            forall|j: int| from <= j < q && j != excluded ==> !(if use_x { p@.x[j] } else { p@.z[j] }),
        decreases to - q,
    {
        let bit = if use_x {
            p.x_bits[q]
        } else {
            p.z_bits[q]
        };
        if bit && q != excluded {
            return Some(q);
        }
        q = q + 1;
    }
    None
}

/// Decomposes the Clifford tableau `clifford` into an ordered product of `π/4` Pauli exponents:
/// the returned list `[P₁, …, P_k]` of Hermitian Paulis rebuilds `clifford` exactly, image signs
/// included, since left-multiplying the identity by `exp(iπ/4·P₁)`, then `exp(iπ/4·P₂)`, …
/// reproduces its tableau.
pub fn clifford_to_pauli_exponents(clifford: &CliffordUnitary) -> (r: Vec<DensePauli>)
    requires
        clifford.wf(),
        is_clifford_tableau(clifford@, clifford.n()),
    ensures
        replay(identity_tableau(clifford.n()), r@.map_values(|p: DensePauli| p@)) == clifford@,
        forall|i: int| 0 <= i < r@.len() ==> (#[trigger] r@[i]).wf() && r@[i]@.x.len() == clifford.n()
            && is_order_two_spec(r@[i]@),
{
    match decompose_if_clifford(clifford) {
        Some(list) => list,
        None => {
            proof {
                assert(false);
            }
            Vec::new()
        },
    }
}

/// The decomposition of [`clifford_to_pauli_exponents`] for any well-formed tableau: it succeeds
/// exactly when the tableau is that of a Clifford unitary.
#[verifier::spinoff_prover]
pub(crate) fn decompose_if_clifford(clifford: &CliffordUnitary) -> (r: Option<Vec<DensePauli>>)
    requires
        clifford.wf(),
    ensures
        r is Some <==> is_clifford_tableau(clifford@, clifford.n()),
        r matches Some(list) ==> replay(identity_tableau(clifford.n()), list@.map_values(|p: DensePauli| p@))
            == clifford@,
        r matches Some(list) ==> forall|i: int| 0 <= i < list@.len() ==> (#[trigger] list@[i]).wf() && list@[i]@.x.len()
            == clifford.n() && is_order_two_spec(list@[i]@),
{
    let mut recorded = Reduction::new();
    let mut working = clifford.duplicate();
    let ghost original = clifford@;
    let n = working.num_qubits();
    let ghost valid = is_clifford_tableau(original, n as nat);
    proof {
        assert(recorded.applied_spec() =~= Seq::<PauliSpec>::empty());
        assert(replay(original, Seq::<PauliSpec>::empty()) == original);
    }
    let mut pivot: usize = 0;
    while pivot < n
        invariant
            recorded.tracks(original, &working),
            working.n() == n,
            clifford.n() == n,
            original == clifford@,
            valid == is_clifford_tableau(original, n as nat),
            pivot <= n,
            valid ==> is_clifford_tableau(working@, n as nat),
            valid ==> fixes_low_generators(working@, pivot as int, n as nat),
        decreases n - pivot,
    {
        let ghost p = pivot as int;
        let ghost w0 = working@;
        let ghost s0 = recorded.applied_spec();
        proof {
            if valid {
                lemma_pivot_images(w0, p, n as nat);
            }
        }
        if !recorded.clear_x_image(&mut working, pivot, Ghost(original)) {
            return None;
        }
        let ghost w1 = working@;
        let ghost s1 = recorded.applied_spec();
        proof {
            if valid {
                lemma_reduction_step(original, s0, s1, p, n as nat);
                lemma_pivot_images(w1, p, n as nat);
                crate::pauli::lemma_dot_unit_left(n as nat, p, w1.z_images[p].z);
                crate::pauli::lemma_dot_zeros_left(bit_zeros(n as nat), w1.z_images[p].x);
                assert(symplectic(w1.x_images[p], w1.z_images[p]));
            }
        }
        recorded.clear_z_image(&mut working, pivot, Ghost(original));
        proof {
            if valid {
                let s2 = recorded.applied_spec();
                lemma_reduction_step(original, s1, s2, p, n as nat);
                assert(fixes_low_generators(working@, p + 1, n as nat)) by {
                    assert forall|j: int| 0 <= j < p + 1 implies #[trigger] working@.x_images[j]
                        == crate::clifford::pauli_x_spec(j, n as nat) && working@.z_images[j]
                        == crate::clifford::pauli_z_spec(j, n as nat) by {
                        if j < p {
                            assert(fixes_low_generators(working@, p, n as nat));
                        }
                    }
                }
            }
        }
        pivot = pivot + 1;
    }
    proof {
        if valid {
            assert forall|j: int| 0 <= j < n implies working@.z_images[j] == #[trigger] identity_tableau(
                n as nat,
            ).z_images[j] by {
                assert(working@.x_images[j] == crate::clifford::pauli_x_spec(j, n as nat));
            }
            assert(working@.x_images =~= identity_tableau(n as nat).x_images);
            assert(working@.z_images =~= identity_tableau(n as nat).z_images);
        }
    }
    if !working.is_identity() {
        return None;
    }
    let ghost applied = recorded.applied_spec();
    proof {
        lemma_replay_inverse(original, applied, n as nat);
        assert forall|i: int| 0 <= i < recorded.applied_spec().len() implies #[trigger] recorded.applied@[i].wf() by {
            assert(pauli_wf(recorded.applied_spec()[i], n as nat));
        }
    }
    let list = recorded.into_decomposition();
    proof {
        assert forall|i: int| 0 <= i < list@.len() implies (#[trigger] list@[i]).wf() && list@[i]@.x.len() == n
            && is_order_two_spec(list@[i]@) by {
            assert(list@.map_values(|p: DensePauli| p@)[i] == inverse_exponents(applied)[i]);
            assert(pauli_wf(applied[applied.len() - 1 - i], n as nat));
            assert(is_order_two_spec(applied[applied.len() - 1 - i]));
        }
        let inverse = list@.map_values(|p: DensePauli| p@);
        assert(hermitian_exponents(inverse, n as nat)) by {
            assert forall|i: int| 0 <= i < inverse.len() implies pauli_wf(#[trigger] inverse[i], n as nat)
                && is_order_two_spec(inverse[i]) by {
                assert(inverse[i] == list@[i]@);
            }
        }
        lemma_identity_is_clifford(n as nat);
        lemma_replay_keeps_clifford(identity_tableau(n as nat), inverse, n as nat);
    }
    Some(list)
}

/// Replaying the inverse exponents undoes the exponents: for Hermitian exponents,
/// `replay(replay(t, L), inverse(L)) = t`.
pub proof fn lemma_replay_inverse(t: CliffordSpec, exponents: Seq<PauliSpec>, n: nat)
    requires
        tableau_wf(t, n),
        hermitian_exponents(exponents, n),
    ensures
        replay(replay(t, exponents), inverse_exponents(exponents)) == t,
    decreases exponents.len(),
{
    if exponents.len() > 0 {
        let init = exponents.drop_last();
        let p = exponents.last();
        assert(hermitian_exponents(init, n));
        let before = replay(t, init);
        lemma_replay_wf(t, init, n);
        let after = replay(t, exponents);
        let inv = inverse_exponents(exponents);
        assert(inv =~= seq![negated_spec(p)] + inverse_exponents(init));
        lemma_replay_prepend(after, negated_spec(p), inverse_exponents(init));
        lemma_tableau_exp_inverse(before, p, n);
        lemma_replay_inverse(t, init, n);
    } else {
        assert(inverse_exponents(exponents) =~= Seq::<PauliSpec>::empty());
    }
}

/// Replaying `[x] + rest` is replaying `rest` after `x`.
pub proof fn lemma_replay_prepend(t: CliffordSpec, x: PauliSpec, rest: Seq<PauliSpec>)
    ensures
        replay(t, seq![x] + rest) == replay(tableau_map(t, |q: PauliSpec| conj_by_exp(x, q)), rest),
    decreases rest.len(),
{
    if rest.len() == 0 {
        assert((seq![x] + rest).drop_last() =~= Seq::<PauliSpec>::empty());
        assert(replay(t, Seq::<PauliSpec>::empty()) == t);
    } else {
        let whole = seq![x] + rest;
        assert(whole.drop_last() =~= seq![x] + rest.drop_last());
        lemma_replay_prepend(t, x, rest.drop_last());
    }
}

/// Replaying Hermitian exponents keeps a tableau well formed.
pub proof fn lemma_replay_wf(t: CliffordSpec, exponents: Seq<PauliSpec>, n: nat)
    requires
        tableau_wf(t, n),
        hermitian_exponents(exponents, n),
    ensures
        tableau_wf(replay(t, exponents), n),
    decreases exponents.len(),
{
    if exponents.len() > 0 {
        assert(hermitian_exponents(exponents.drop_last(), n));
        lemma_replay_wf(t, exponents.drop_last(), n);
        let before = replay(t, exponents.drop_last());
        let p = exponents.last();
        let after = replay(t, exponents);
        assert forall|q: int| 0 <= q < n implies pauli_wf(#[trigger] after.x_images[q], n) by {
            assert(pauli_wf(before.x_images[q], n));
        }
        assert forall|q: int| 0 <= q < n implies pauli_wf(#[trigger] after.z_images[q], n) by {
            assert(pauli_wf(before.z_images[q], n));
        }
    }
}

/// `exp(iπ/4·(−P))` undoes `exp(iπ/4·P)` on a whole tableau.
pub proof fn lemma_tableau_exp_inverse(t: CliffordSpec, p: PauliSpec, n: nat)
    requires
        tableau_wf(t, n),
        pauli_wf(p, n),
        is_order_two_spec(p),
    ensures
        tableau_map(tableau_map(t, |q: PauliSpec| conj_by_exp(p, q)), |q: PauliSpec| conj_by_exp(negated_spec(p), q))
            == t,
{
    let once = tableau_map(t, |q: PauliSpec| conj_by_exp(p, q));
    let twice = tableau_map(once, |q: PauliSpec| conj_by_exp(negated_spec(p), q));
    assert forall|k: int| 0 <= k < n implies twice.x_images[k] == t.x_images[k] && twice.z_images[k]
        == t.z_images[k] by {
        lemma_exp_inverse(p, t.x_images[k], n);
        lemma_exp_inverse(p, t.z_images[k], n);
    }
    assert(twice.x_images =~= t.x_images);
    assert(twice.z_images =~= t.z_images);
}

/// `exp(iπ/4·(−P)) · exp(iπ/4·P) q exp(−iπ/4·P) · exp(−iπ/4·(−P)) = q` for Hermitian `P`.
pub proof fn lemma_exp_inverse(p: PauliSpec, q: PauliSpec, n: nat)
    requires
        pauli_wf(p, n),
        pauli_wf(q, n),
        is_order_two_spec(p),
    ensures
        conj_by_exp(negated_spec(p), conj_by_exp(p, q)) == q,
{
    if symplectic(p, q) {
        let a = pauli_scale(pauli_mul(p, q), 1);
        let np = negated_spec(p);
        lemma_dot_xor_right(p.x, p.z, q.z);
        lemma_dot_xor_right(p.z, p.x, q.x);
        lemma_dot_symmetric(p.x, p.z);
        assert(symplectic(np, a));
        let b = pauli_scale(pauli_mul(np, a), 1);
        assert(b.x =~= q.x);
        assert(b.z =~= q.z);
        let d0 = b2i(bit_dot(p.z, p.x));
        let d1 = b2i(bit_dot(p.z, q.x));
        assert(b2i(bit_dot(p.z, a.x)) == b2i(bit_dot(p.z, p.x) != bit_dot(p.z, q.x)));
        assert((p.phase + d0) % 2 == 0);
        assert(b.phase == q.phase) by {
            assert(d1 == 0 || d1 == 1);
            assert(d0 == 0 || d0 == 1);
        }
    }
}

/// `⟨a, b + c⟩ = ⟨a, b⟩ + ⟨a, c⟩`.
pub proof fn lemma_dot_xor_right(a: Seq<bool>, b: Seq<bool>, c: Seq<bool>)
    requires
        a.len() == b.len(),
        a.len() == c.len(),
    ensures
        bit_dot(a, bit_xor(b, c)) == (bit_dot(a, b) != bit_dot(a, c)),
{
    lemma_dot_prefix_xor_right(a, b, c, a.len() as int);
}

proof fn lemma_dot_prefix_xor_right(a: Seq<bool>, b: Seq<bool>, c: Seq<bool>, k: int)
    requires
        a.len() == b.len(),
        a.len() == c.len(),
        k <= a.len(),
    ensures
        dot_prefix(a, bit_xor(b, c), k) == (dot_prefix(a, b, k) != dot_prefix(a, c, k)),
    decreases k,
{
    if k > 0 {
        lemma_dot_prefix_xor_right(a, b, c, k - 1);
    }
}

/// `⟨a, b⟩ = ⟨b, a⟩`.
pub proof fn lemma_dot_symmetric(a: Seq<bool>, b: Seq<bool>)
    requires
        a.len() == b.len(),
    ensures
        bit_dot(a, b) == bit_dot(b, a),
{
    lemma_dot_prefix_symmetric(a, b, a.len() as int);
}

proof fn lemma_dot_prefix_symmetric(a: Seq<bool>, b: Seq<bool>, k: int)
    ensures
        dot_prefix(a, b, k) == dot_prefix(b, a, k),
    decreases k,
{
    if k > 0 {
        lemma_dot_prefix_symmetric(a, b, k - 1);
    }
}

} // verus!
