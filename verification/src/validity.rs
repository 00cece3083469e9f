//! Every operation of this library that changes a tableau keeps it the tableau of a Clifford
//! unitary: the generator images stay Hermitian and keep the commutation relations of the
//! generators. Each operation is a map on Pauli operators that keeps lengths, the symplectic form
//! and Hermiticity; such a map sends a Clifford tableau to a Clifford tableau.
use vstd::prelude::*;
use crate::clifford::{
    CliffordSpec, UnitaryOp, conj_cx, conj_cz, conj_op, conj_permutation, conj_single, conj_swap, pauli_x_spec,
    pauli_z_spec, permute_bits, resize_tableau, single_update, tableau_map, valid_permutation, valid_support,
};
use crate::decomposition::is_clifford_tableau;
use crate::gf2::{bit_dot, bit_unit, bit_zeros, dot_prefix};
use crate::pauli::{PauliSpec, b2i, conj_by_exp, conj_by_pauli, is_order_two_spec, pauli_wf, resize_bits, symplectic};

verus! {

proof fn lemma_dot_prefix_update(a: Seq<bool>, b: Seq<bool>, q: int, va: bool, vb: bool, k: int)
    requires
        a.len() == b.len(),
        0 <= q < a.len(),
        k <= a.len(),
    ensures
        dot_prefix(a.update(q, va), b.update(q, vb), k) == (dot_prefix(a, b, k) != (q < k && ((a[q] && b[q])
            != (va && vb)))),
    decreases k,
{
    if k > 0 {
        lemma_dot_prefix_update(a, b, q, va, vb, k - 1);
    }
}

/// Changing one coordinate of both vectors changes their inner product by the change of that
/// coordinate's product.
pub proof fn lemma_dot_update(a: Seq<bool>, b: Seq<bool>, q: int, va: bool, vb: bool)
    requires
        a.len() == b.len(),
        0 <= q < a.len(),
    ensures
        bit_dot(a.update(q, va), b.update(q, vb)) == (bit_dot(a, b) != (a[q] && b[q]) != (va && vb)),
{
    lemma_dot_prefix_update(a, b, q, va, vb, a.len() as int);
}

/// The same for two distinct coordinates.
pub proof fn lemma_dot_update2(
    a: Seq<bool>,
    b: Seq<bool>,
    i: int,
    j: int,
    ai: bool,
    aj: bool,
    bi: bool,
    bj: bool,
)
    requires
        a.len() == b.len(),
        0 <= i < a.len(),
        0 <= j < a.len(),
        i != j,
    ensures
        bit_dot(a.update(i, ai).update(j, aj), b.update(i, bi).update(j, bj)) == (bit_dot(a, b) != (a[i] && b[i]) != (
        ai && bi) != (a[j] && b[j]) != (aj && bj)),
{
    lemma_dot_update(a, b, i, ai, bi);
    lemma_dot_update(a.update(i, ai), b.update(i, bi), j, aj, bj);
}

/// A map on Pauli operators on `n` qubits that keeps lengths, the symplectic form and
/// Hermiticity.
pub open spec fn keeps_structure(f: spec_fn(PauliSpec) -> PauliSpec, n: nat) -> bool {
    &&& forall|a: PauliSpec| pauli_wf(a, n) ==> pauli_wf(#[trigger] f(a), n)
    &&& forall|a: PauliSpec| pauli_wf(a, n) ==> (is_order_two_spec(#[trigger] f(a)) == is_order_two_spec(a))
    &&& forall|a: PauliSpec, b: PauliSpec|
        pauli_wf(a, n) && pauli_wf(b, n) ==> symplectic(#[trigger] f(a), #[trigger] f(b)) == symplectic(a, b)
}

/// A map that keeps the structure of Pauli operators sends a Clifford tableau to a Clifford
/// tableau.
pub proof fn lemma_map_keeps_clifford(t: CliffordSpec, f: spec_fn(PauliSpec) -> PauliSpec, n: nat)
    requires
        is_clifford_tableau(t, n),
        keeps_structure(f, n),
    ensures
        is_clifford_tableau(tableau_map(t, f), n),
{
    let r = tableau_map(t, f);
    assert forall|q: int| 0 <= q < n implies pauli_wf(#[trigger] r.x_images[q], n) by {
        assert(pauli_wf(t.x_images[q], n));
    }
    assert forall|q: int| 0 <= q < n implies pauli_wf(#[trigger] r.z_images[q], n) by {
        assert(pauli_wf(t.z_images[q], n));
    }
    assert forall|i: int| 0 <= i < n implies #[trigger] is_order_two_spec(r.x_images[i]) by {
        assert(pauli_wf(t.x_images[i], n));
        assert(is_order_two_spec(t.x_images[i]));
    }
    assert forall|i: int| 0 <= i < n implies #[trigger] is_order_two_spec(r.z_images[i]) by {
        assert(pauli_wf(t.z_images[i], n));
        assert(is_order_two_spec(t.z_images[i]));
    }
    assert forall|i: int, j: int| 0 <= i < n && 0 <= j < n implies !#[trigger] symplectic(r.x_images[i], r.x_images[j]) by {
        assert(pauli_wf(t.x_images[i], n) && pauli_wf(t.x_images[j], n));
        assert(!symplectic(t.x_images[i], t.x_images[j]));
    }
    assert forall|i: int, j: int| 0 <= i < n && 0 <= j < n implies !#[trigger] symplectic(r.z_images[i], r.z_images[j]) by {
        assert(pauli_wf(t.z_images[i], n) && pauli_wf(t.z_images[j], n));
        assert(!symplectic(t.z_images[i], t.z_images[j]));
    }
    assert forall|i: int, j: int| 0 <= i < n && 0 <= j < n implies #[trigger] symplectic(r.x_images[i], r.z_images[j])
        == (i == j) by {
        assert(pauli_wf(t.x_images[i], n) && pauli_wf(t.z_images[j], n));
        assert(symplectic(t.x_images[i], t.z_images[j]) == (i == j));
    }
}

/// A one-qubit operation keeps lengths, the symplectic form and Hermiticity.
proof fn lemma_conj_single_structure(op: UnitaryOp, q: int, a: PauliSpec, b: PauliSpec, n: nat)
    requires
        pauli_wf(a, n),
        pauli_wf(b, n),
        0 <= q < n,
    ensures
        pauli_wf(conj_single(op, q, a), n),
        is_order_two_spec(conj_single(op, q, a)) == is_order_two_spec(a),
        symplectic(conj_single(op, q, a), conj_single(op, q, b)) == symplectic(a, b),
{
    let ua = single_update(op, a.x[q], a.z[q]);
    let ub = single_update(op, b.x[q], b.z[q]);
    lemma_dot_update(a.x, b.z, q, ua.0, ub.1);
    lemma_dot_update(a.z, b.x, q, ua.1, ub.0);
    lemma_dot_update(a.x, a.z, q, ua.0, ua.1);
    let d = bit_dot(a.x, a.z);
    let d2 = bit_dot(a.x.update(q, ua.0), a.z.update(q, ua.1));
    assert(d2 == (d != (a.x[q] && a.z[q]) != (ua.0 && ua.1)));
    assert((ua.2 + b2i(a.x[q] && a.z[q]) + b2i(ua.0 && ua.1)) % 2 == 0);
    assert(((a.phase + ua.2) % 4 + b2i(d2)) % 2 == (a.phase + b2i(d)) % 2) by (nonlinear_arith)
        requires
            (ua.2 + b2i(a.x[q] && a.z[q]) + b2i(ua.0 && ua.1)) % 2 == 0,
            d2 == (d != (a.x[q] && a.z[q]) != (ua.0 && ua.1)),
            0 <= ua.2,
    ;
}

/// A controlled-`X` keeps lengths, the symplectic form and Hermiticity.
proof fn lemma_conj_cx_structure(c: int, t: int, a: PauliSpec, b: PauliSpec, n: nat)
    requires
        pauli_wf(a, n),
        pauli_wf(b, n),
        0 <= c < n,
        0 <= t < n,
        c != t,
    ensures
        pauli_wf(conj_cx(c, t, a), n),
        is_order_two_spec(conj_cx(c, t, a)) == is_order_two_spec(a),
        symplectic(conj_cx(c, t, a), conj_cx(c, t, b)) == symplectic(a, b),
{
    let ax = a.x.update(c, a.x[c]).update(t, a.x[t] != a.x[c]);
    let az = a.z.update(c, a.z[c] != a.z[t]).update(t, a.z[t]);
    let bx = b.x.update(c, b.x[c]).update(t, b.x[t] != b.x[c]);
    let bz = b.z.update(c, b.z[c] != b.z[t]).update(t, b.z[t]);
    assert(ax =~= conj_cx(c, t, a).x);
    assert(az =~= conj_cx(c, t, a).z);
    assert(bx =~= conj_cx(c, t, b).x);
    assert(bz =~= conj_cx(c, t, b).z);
    lemma_dot_update2(a.x, b.z, c, t, a.x[c], a.x[t] != a.x[c], b.z[c] != b.z[t], b.z[t]);
    lemma_dot_update2(a.z, b.x, c, t, a.z[c] != a.z[t], a.z[t], b.x[c], b.x[t] != b.x[c]);
    lemma_dot_update2(a.x, a.z, c, t, a.x[c], a.x[t] != a.x[c], a.z[c] != a.z[t], a.z[t]);
}

/// A controlled-`Z` keeps lengths, the symplectic form and Hermiticity.
proof fn lemma_conj_cz_structure(p: int, q: int, a: PauliSpec, b: PauliSpec, n: nat)
    requires
        pauli_wf(a, n),
        pauli_wf(b, n),
        0 <= p < n,
        0 <= q < n,
        p != q,
    ensures
        pauli_wf(conj_cz(p, q, a), n),
        is_order_two_spec(conj_cz(p, q, a)) == is_order_two_spec(a),
        symplectic(conj_cz(p, q, a), conj_cz(p, q, b)) == symplectic(a, b),
{
    let ra = conj_cz(p, q, a);
    let rb = conj_cz(p, q, b);
    assert(a.x =~= a.x.update(p, a.x[p]).update(q, a.x[q]));
    assert(b.x =~= b.x.update(p, b.x[p]).update(q, b.x[q]));
    lemma_dot_update2(a.x, b.z, p, q, a.x[p], a.x[q], b.z[p] != b.x[q], b.z[q] != b.x[p]);
    lemma_dot_update2(a.z, b.x, p, q, a.z[p] != a.x[q], a.z[q] != a.x[p], b.x[p], b.x[q]);
    lemma_dot_update2(a.x, a.z, p, q, a.x[p], a.x[q], a.z[p] != a.x[q], a.z[q] != a.x[p]);
    let d = bit_dot(a.x, a.z);
    let d2 = bit_dot(ra.x, ra.z);
    let e = b2i(a.x[p] && a.x[q]);
    assert(d2 == (d != (a.x[p] && a.z[p]) != (a.x[p] && (a.z[p] != a.x[q])) != (a.x[q] && a.z[q]) != (a.x[q] && (
    a.z[q] != a.x[p]))));
    assert(((a.phase + 2 * e) % 4 + b2i(d2)) % 2 == (a.phase + b2i(d)) % 2) by (nonlinear_arith)
        requires
            d2 == (d != (a.x[p] && a.z[p]) != (a.x[p] && (a.z[p] != a.x[q])) != (a.x[q] && a.z[q]) != (a.x[q] && (
            a.z[q] != a.x[p]))),
            e == b2i(a.x[p] && a.x[q]),
    ;
}

/// A swap keeps lengths, the symplectic form and Hermiticity.
proof fn lemma_conj_swap_structure(p: int, q: int, a: PauliSpec, b: PauliSpec, n: nat)
    requires
        pauli_wf(a, n),
        pauli_wf(b, n),
        0 <= p < n,
        0 <= q < n,
        p != q,
    ensures
        pauli_wf(conj_swap(p, q, a), n),
        is_order_two_spec(conj_swap(p, q, a)) == is_order_two_spec(a),
        symplectic(conj_swap(p, q, a), conj_swap(p, q, b)) == symplectic(a, b),
{
    lemma_dot_update2(a.x, b.z, p, q, a.x[q], a.x[p], b.z[q], b.z[p]);
    lemma_dot_update2(a.z, b.x, p, q, a.z[q], a.z[p], b.x[q], b.x[p]);
    lemma_dot_update2(a.x, a.z, p, q, a.x[q], a.x[p], a.z[q], a.z[p]);
}

/// Every elementary operation keeps lengths, the symplectic form and Hermiticity.
pub proof fn lemma_conj_op_structure(op: UnitaryOp, support: Seq<usize>, a: PauliSpec, b: PauliSpec, n: nat)
    requires
        pauli_wf(a, n),
        pauli_wf(b, n),
        valid_support(op, support, n),
    ensures
        pauli_wf(conj_op(op, support, a), n),
        is_order_two_spec(conj_op(op, support, a)) == is_order_two_spec(a),
        symplectic(conj_op(op, support, a), conj_op(op, support, b)) == symplectic(a, b),
{
    match op {
        UnitaryOp::I => {},
        UnitaryOp::Swap => {
            lemma_conj_swap_structure(support[0] as int, support[1] as int, a, b, n);
        },
        UnitaryOp::ControlledX => {
            lemma_conj_cx_structure(support[0] as int, support[1] as int, a, b, n);
        },
        UnitaryOp::ControlledZ => {
            lemma_conj_cz_structure(support[0] as int, support[1] as int, a, b, n);
        },
        UnitaryOp::PrepareBell => {
            let h = UnitaryOp::Hadamard;
            let s = support[0] as int;
            lemma_conj_single_structure(h, s, a, b, n);
            lemma_conj_cx_structure(
                support[0] as int,
                support[1] as int,
                conj_single(h, s, a),
                conj_single(h, s, b),
                n,
            );
        },
        _ => {
            lemma_conj_single_structure(op, support[0] as int, a, b, n);
        },
    }
}

/// An elementary operation sends a Clifford tableau to a Clifford tableau.
pub proof fn lemma_gate_keeps_clifford(t: CliffordSpec, op: UnitaryOp, support: Seq<usize>, n: nat)
    requires
        is_clifford_tableau(t, n),
        valid_support(op, support, n),
    ensures
        is_clifford_tableau(tableau_map(t, |p: PauliSpec| conj_op(op, support, p)), n),
{
    let f = |p: PauliSpec| conj_op(op, support, p);
    assert forall|a: PauliSpec, b: PauliSpec| pauli_wf(a, n) && pauli_wf(b, n) implies symplectic(
        #[trigger] f(a),
        #[trigger] f(b),
    ) == symplectic(a, b) by {
        lemma_conj_op_structure(op, support, a, b, n);
    }
    assert forall|a: PauliSpec| pauli_wf(a, n) implies pauli_wf(#[trigger] f(a), n) && (is_order_two_spec(f(a))
        == is_order_two_spec(a)) by {
        lemma_conj_op_structure(op, support, a, a, n);
    }
    lemma_map_keeps_clifford(t, f, n);
}

/// Conjugation by a Pauli operator sends a Clifford tableau to a Clifford tableau.
pub proof fn lemma_pauli_keeps_clifford(t: CliffordSpec, p: PauliSpec, n: nat)
    requires
        is_clifford_tableau(t, n),
        pauli_wf(p, n),
    ensures
        is_clifford_tableau(tableau_map(t, |q: PauliSpec| conj_by_pauli(p, q)), n),
{
    let f = |q: PauliSpec| conj_by_pauli(p, q);
    assert forall|a: PauliSpec| pauli_wf(a, n) implies pauli_wf(#[trigger] f(a), n) && (is_order_two_spec(f(a))
        == is_order_two_spec(a)) by {
        if symplectic(p, a) {
            assert((((a.phase + 2) % 4) + b2i(bit_dot(a.x, a.z))) % 2 == (a.phase + b2i(bit_dot(a.x, a.z))) % 2)
                by (nonlinear_arith)
                requires
                    0 <= a.phase,
            ;
        }
    }
    lemma_map_keeps_clifford(t, f, n);
}

/// Conjugation by the exponential of a Hermitian Pauli operator sends a Clifford tableau to a
/// Clifford tableau.
pub proof fn lemma_exp_keeps_clifford(t: CliffordSpec, e: PauliSpec, n: nat)
    requires
        is_clifford_tableau(t, n),
        pauli_wf(e, n),
        is_order_two_spec(e),
    ensures
        is_clifford_tableau(tableau_map(t, |q: PauliSpec| conj_by_exp(e, q)), n),
{
    let f = |q: PauliSpec| conj_by_exp(e, q);
    let r = tableau_map(t, f);
    assert forall|a: PauliSpec, b: PauliSpec| pauli_wf(a, n) && pauli_wf(b, n) implies symplectic(
        #[trigger] f(a),
        #[trigger] f(b),
    ) == symplectic(a, b) by {
        crate::decomposition::lemma_conj_keeps_symplectic(e, a, b, n);
    }
    assert forall|q: int| 0 <= q < n implies pauli_wf(#[trigger] r.x_images[q], n) && is_order_two_spec(
        r.x_images[q],
    ) by {
        assert(pauli_wf(t.x_images[q], n));
        crate::decomposition::lemma_conj_keeps_order_two(e, t.x_images[q], n);
    }
    assert forall|q: int| 0 <= q < n implies pauli_wf(#[trigger] r.z_images[q], n) && is_order_two_spec(
        r.z_images[q],
    ) by {
        assert(pauli_wf(t.z_images[q], n));
        crate::decomposition::lemma_conj_keeps_order_two(e, t.z_images[q], n);
    }
    assert forall|i: int, j: int| 0 <= i < n && 0 <= j < n implies !#[trigger] symplectic(r.x_images[i], r.x_images[j]) by {
        assert(pauli_wf(t.x_images[i], n) && pauli_wf(t.x_images[j], n));
        assert(!symplectic(t.x_images[i], t.x_images[j]));
    }
    assert forall|i: int, j: int| 0 <= i < n && 0 <= j < n implies !#[trigger] symplectic(r.z_images[i], r.z_images[j]) by {
        assert(pauli_wf(t.z_images[i], n) && pauli_wf(t.z_images[j], n));
        assert(!symplectic(t.z_images[i], t.z_images[j]));
    }
    assert forall|i: int, j: int| 0 <= i < n && 0 <= j < n implies #[trigger] symplectic(r.x_images[i], r.z_images[j])
        == (i == j) by {
        assert(pauli_wf(t.x_images[i], n) && pauli_wf(t.z_images[j], n));
        assert(symplectic(t.x_images[i], t.z_images[j]) == (i == j));
    }
}

proof fn lemma_dot_prefix_resize(a: Seq<bool>, b: Seq<bool>, m: nat, k: int)
    requires
        a.len() == b.len(),
        a.len() <= m,
        k <= m,
    ensures
        dot_prefix(resize_bits(a, m), resize_bits(b, m), k) == dot_prefix(a, b, if k < a.len() { k } else { a.len() as int }),
    decreases k,
{
    if k > 0 {
        lemma_dot_prefix_resize(a, b, m, k - 1);
    }
}

/// Padding with zeros keeps inner products.
proof fn lemma_dot_resize(a: Seq<bool>, b: Seq<bool>, m: nat)
    requires
        a.len() == b.len(),
        a.len() <= m,
    ensures
        bit_dot(resize_bits(a, m), resize_bits(b, m)) == bit_dot(a, b),
{
    lemma_dot_prefix_resize(a, b, m, m as int);
}

/// `⟨v, 0⟩ = 0` and `⟨v, e_q⟩ = v_q`.
proof fn lemma_dot_with_generators(v: Seq<bool>, m: nat, q: int)
    requires
        v.len() == m,
        0 <= q < m,
    ensures
        !bit_dot(v, bit_zeros(m)),
        !bit_dot(bit_zeros(m), v),
        bit_dot(v, bit_unit(m, q)) == v[q],
        bit_dot(bit_unit(m, q), v) == v[q],
{
    crate::pauli::lemma_dot_zeros_left(bit_zeros(m), v);
    crate::decomposition::lemma_dot_symmetric(bit_zeros(m), v);
    crate::pauli::lemma_dot_unit_left(m, q, v);
    crate::decomposition::lemma_dot_symmetric(bit_unit(m, q), v);
}

/// The image of a generator of the old qubits, padded to `m` qubits.
spec fn padded(p: PauliSpec, m: nat) -> PauliSpec {
    PauliSpec { x: resize_bits(p.x, m), z: resize_bits(p.z, m), phase: p.phase }
}

/// Growing a tableau with identity images on new qubits keeps it a Clifford tableau.
pub proof fn lemma_resize_keeps_clifford(t: CliffordSpec, n: nat, m: nat)
    requires
        is_clifford_tableau(t, n),
        n <= m,
    ensures
        is_clifford_tableau(resize_tableau(t, m), m),
{
    let r = resize_tableau(t, m);
    // Facts on every image of the grown tableau.
    assert forall|q: int| 0 <= q < m implies pauli_wf(#[trigger] r.x_images[q], m) && is_order_two_spec(r.x_images[q])
        && (q >= n ==> r.x_images[q] == pauli_x_spec(q, m)) && (q < n ==> r.x_images[q] == padded(t.x_images[q], m)) by {
        if q < n {
            assert(pauli_wf(t.x_images[q], n));
            assert(is_order_two_spec(t.x_images[q]));
            lemma_dot_resize(t.x_images[q].x, t.x_images[q].z, m);
        } else {
            lemma_dot_with_generators(bit_zeros(m), m, q);
        }
    }
    assert forall|q: int| 0 <= q < m implies pauli_wf(#[trigger] r.z_images[q], m) && is_order_two_spec(r.z_images[q])
        && (q >= n ==> r.z_images[q] == pauli_z_spec(q, m)) && (q < n ==> r.z_images[q] == padded(t.z_images[q], m)) by {
        if q < n {
            assert(pauli_wf(t.z_images[q], n));
            assert(is_order_two_spec(t.z_images[q]));
            lemma_dot_resize(t.z_images[q].x, t.z_images[q].z, m);
        } else {
            lemma_dot_with_generators(bit_unit(m, q), m, q);
        }
    }
    assert forall|i: int, j: int| 0 <= i < m && 0 <= j < m implies !#[trigger] symplectic(r.x_images[i], r.x_images[j])
        && !symplectic(r.z_images[i], r.z_images[j]) && symplectic(r.x_images[i], r.z_images[j]) == (i == j) by {
        lemma_grown_symplectic(t, n, m, i, j);
    }
    assert forall|i: int, j: int| 0 <= i < m && 0 <= j < m implies !#[trigger] symplectic(r.z_images[i], r.z_images[j]) by {
        lemma_grown_symplectic(t, n, m, i, j);
    }
    assert forall|i: int, j: int| 0 <= i < m && 0 <= j < m implies #[trigger] symplectic(r.x_images[i], r.z_images[j])
        == (i == j) by {
        lemma_grown_symplectic(t, n, m, i, j);
    }
}

/// The commutation relations between two images of a grown tableau.
proof fn lemma_grown_symplectic(t: CliffordSpec, n: nat, m: nat, i: int, j: int)
    requires
        is_clifford_tableau(t, n),
        n <= m,
        0 <= i < m,
        0 <= j < m,
    ensures
        !symplectic(resize_tableau(t, m).x_images[i], resize_tableau(t, m).x_images[j]),
        !symplectic(resize_tableau(t, m).z_images[i], resize_tableau(t, m).z_images[j]),
        symplectic(resize_tableau(t, m).x_images[i], resize_tableau(t, m).z_images[j]) == (i == j),
{
    let r = resize_tableau(t, m);
    let xi = r.x_images[i];
    let zi = r.z_images[i];
    let xj = r.x_images[j];
    let zj = r.z_images[j];
    if i < n {
        assert(pauli_wf(t.x_images[i], n) && pauli_wf(t.z_images[i], n));
    }
    if j < n {
        assert(pauli_wf(t.x_images[j], n) && pauli_wf(t.z_images[j], n));
    }
    lemma_dot_with_generators(xi.x, m, j);
    lemma_dot_with_generators(xi.z, m, j);
    lemma_dot_with_generators(zi.x, m, j);
    lemma_dot_with_generators(zi.z, m, j);
    lemma_dot_with_generators(xj.x, m, i);
    lemma_dot_with_generators(xj.z, m, i);
    lemma_dot_with_generators(zj.x, m, i);
    lemma_dot_with_generators(zj.z, m, i);
    if i < n && j < n {
        let a = t.x_images[i];
        let b = t.z_images[i];
        let c = t.x_images[j];
        let d = t.z_images[j];
        lemma_dot_resize(a.x, c.z, m);
        lemma_dot_resize(a.z, c.x, m);
        lemma_dot_resize(b.x, d.z, m);
        lemma_dot_resize(b.z, d.x, m);
        lemma_dot_resize(a.x, d.z, m);
        lemma_dot_resize(a.z, d.x, m);
        assert(!symplectic(a, c));
        assert(!symplectic(b, d));
        assert(symplectic(a, d) == (i == j));
    }
}

/// The positions below `k` at which both `a` and `b` are set.
spec fn overlap(a: Seq<bool>, b: Seq<bool>, k: int) -> Set<int> {
    Set::new(|i: int| 0 <= i < k && a[i] && b[i])
}

/// The inner product is the parity of the number of positions where both vectors are set.
proof fn lemma_dot_prefix_parity(a: Seq<bool>, b: Seq<bool>, k: int)
    requires
        0 <= k,
    ensures
        overlap(a, b, k).finite(),
        dot_prefix(a, b, k) == (overlap(a, b, k).len() % 2 == 1),
    decreases k,
{
    if k == 0 {
        assert(overlap(a, b, 0) =~= Set::<int>::empty());
    } else {
        lemma_dot_prefix_parity(a, b, k - 1);
        if a[k - 1] && b[k - 1] {
            assert(overlap(a, b, k) =~= overlap(a, b, k - 1).insert(k - 1));
            assert(!overlap(a, b, k - 1).contains(k - 1));
        } else {
            assert(overlap(a, b, k) =~= overlap(a, b, k - 1));
        }
    }
}

/// Where the permutation sends qubit `q` for reading: `support[permutation[i]]` when
/// `q = support[i]`, `q` itself otherwise.
spec fn source_of(permutation: Seq<usize>, support: Seq<usize>, q: int) -> int {
    if exists|i: int| 0 <= i < support.len() && support[i] == q {
        support[permutation[choose|i: int| 0 <= i < support.len() && support[i] == q] as int] as int
    } else {
        q
    }
}

/// The reading map of a valid permutation is injective on the qubits and stays below `n`.
proof fn lemma_source_injective(permutation: Seq<usize>, support: Seq<usize>, n: nat)
    requires
        valid_permutation(permutation, support, n),
    ensures
        forall|q: int| 0 <= q < n ==> 0 <= #[trigger] source_of(permutation, support, q) < n,
        vstd::relations::injective_on(|q: int| source_of(permutation, support, q), vstd::set_lib::set_int_range(0, n as int)),
{
    let f = |q: int| source_of(permutation, support, q);
    assert forall|q: int| 0 <= q < n implies 0 <= #[trigger] source_of(permutation, support, q) < n by {
        if exists|i: int| 0 <= i < support.len() && support[i] == q {
            let i = choose|i: int| 0 <= i < support.len() && support[i] == q;
            assert(permutation[i] < support.len());
            assert(support[permutation[i] as int] < n);
        }
    }
    assert forall|q1: int, q2: int|
        vstd::set_lib::set_int_range(0, n as int).contains(q1) && vstd::set_lib::set_int_range(0, n as int).contains(q2)
            && #[trigger] f(q1) == #[trigger] f(q2) implies q1 == q2 by {
        let in1 = exists|i: int| 0 <= i < support.len() && support[i] == q1;
        let in2 = exists|i: int| 0 <= i < support.len() && support[i] == q2;
        if in1 && in2 {
            let i1 = choose|i: int| 0 <= i < support.len() && support[i] == q1;
            let i2 = choose|i: int| 0 <= i < support.len() && support[i] == q2;
            assert(permutation[i1] < support.len() && permutation[i2] < support.len());
            if permutation[i1] != permutation[i2] {
                if permutation[i1] < permutation[i2] {
                    assert(support[permutation[i1] as int] != support[permutation[i2] as int]);
                } else {
                    assert(support[permutation[i2] as int] != support[permutation[i1] as int]);
                }
            }
            if i1 != i2 {
                if i1 < i2 {
                    assert(permutation[i1] != permutation[i2]);
                } else {
                    assert(permutation[i2] != permutation[i1]);
                }
            }
        } else if in1 {
            let i1 = choose|i: int| 0 <= i < support.len() && support[i] == q1;
            assert(permutation[i1] < support.len());
            assert(0 <= permutation[i1] < support.len() && support[permutation[i1] as int] == q2);
        } else if in2 {
            let i2 = choose|i: int| 0 <= i < support.len() && support[i] == q2;
            assert(permutation[i2] < support.len());
            assert(0 <= permutation[i2] < support.len() && support[permutation[i2] as int] == q1);
        }
    }
}

/// Permuting qubits keeps inner products.
pub proof fn lemma_dot_permute(permutation: Seq<usize>, support: Seq<usize>, a: Seq<bool>, b: Seq<bool>, n: nat)
    requires
        valid_permutation(permutation, support, n),
        a.len() == n,
        b.len() == n,
    ensures
        bit_dot(permute_bits(permutation, support, a), permute_bits(permutation, support, b)) == bit_dot(a, b),
{
    let pa = permute_bits(permutation, support, a);
    let pb = permute_bits(permutation, support, b);
    let f = |q: int| source_of(permutation, support, q);
    let range = vstd::set_lib::set_int_range(0, n as int);
    lemma_source_injective(permutation, support, n);
    vstd::set_lib::lemma_int_range(0, n as int);
    assert forall|q: int| 0 <= q < n implies #[trigger] pa[q] == a[f(q)] && pb[q] == b[f(q)] by {
    }
    // The reading map is onto the qubits.
    assert(range.map(f).subset_of(range));
    vstd::set_lib::lemma_map_size(range, range.map(f), f);
    vstd::set_lib::lemma_subset_equality(range.map(f), range);
    lemma_dot_prefix_parity(a, b, n as int);
    lemma_dot_prefix_parity(pa, pb, n as int);
    let s = overlap(a, b, n as int);
    let sp = overlap(pa, pb, n as int);
    assert forall|p: int| s.contains(p) implies sp.map(f).contains(p) by {
        assert(range.map(f).contains(p));
        let q = choose|q: int| range.contains(q) && f(q) == p;
        assert(sp.contains(q));
    }
    assert forall|p: int| sp.map(f).contains(p) implies s.contains(p) by {
        let q = choose|q: int| sp.contains(q) && f(q) == p;
        assert(pa[q] == a[f(q)]);
    }
    assert(sp.map(f) =~= s);
    assert forall|q1: int, q2: int| sp.contains(q1) && sp.contains(q2) && #[trigger] f(q1) == #[trigger] f(q2) implies q1
        == q2 by {
        assert(range.contains(q1) && range.contains(q2));
    }
    vstd::set_lib::lemma_map_size(sp, s, f);
}

/// A valid qubit permutation sends a Clifford tableau to a Clifford tableau.
pub proof fn lemma_permutation_keeps_clifford(t: CliffordSpec, permutation: Seq<usize>, support: Seq<usize>, n: nat)
    requires
        is_clifford_tableau(t, n),
        valid_permutation(permutation, support, n),
    ensures
        is_clifford_tableau(tableau_map(t, |p: PauliSpec| conj_permutation(permutation, support, p)), n),
{
    let f = |p: PauliSpec| conj_permutation(permutation, support, p);
    assert forall|a: PauliSpec, b: PauliSpec| pauli_wf(a, n) && pauli_wf(b, n) implies symplectic(
        #[trigger] f(a),
        #[trigger] f(b),
    ) == symplectic(a, b) by {
        lemma_dot_permute(permutation, support, a.x, b.z, n);
        lemma_dot_permute(permutation, support, a.z, b.x, n);
    }
    assert forall|a: PauliSpec| pauli_wf(a, n) implies pauli_wf(#[trigger] f(a), n) && (is_order_two_spec(f(a))
        == is_order_two_spec(a)) by {
        lemma_dot_permute(permutation, support, a.x, a.z, n);
    }
    lemma_map_keeps_clifford(t, f, n);
}

/// The tableau acts as the identity on the qubits from `m` on: the images of their generators
/// are the generators themselves, and no other image touches them.
pub open spec fn splits_at(t: CliffordSpec, m: nat) -> bool {
    let n = t.x_images.len();
    &&& m <= n
    &&& forall|q: int| m <= q < n ==> #[trigger] t.x_images[q] == pauli_x_spec(q, n)
    &&& forall|q: int| m <= q < n ==> #[trigger] t.z_images[q] == pauli_z_spec(q, n)
    &&& forall|q: int, k: int|
        #![trigger t.x_images[q].x[k]]
        0 <= q < m && m <= k < n ==> !t.x_images[q].x[k] && !t.x_images[q].z[k]
    &&& forall|q: int, k: int|
        #![trigger t.z_images[q].x[k]]
        0 <= q < m && m <= k < n ==> !t.z_images[q].x[k] && !t.z_images[q].z[k]
}

proof fn lemma_dot_prefix_tail(a: Seq<bool>, b: Seq<bool>, m: int, k: int)
    requires
        0 <= m <= k <= a.len(),
        a.len() == b.len(),
        forall|i: int| m <= i < a.len() ==> !(#[trigger] a[i] && b[i]),
    ensures
        dot_prefix(a, b, k) == dot_prefix(a, b, m),
    decreases k,
{
    if k > m {
        lemma_dot_prefix_tail(a, b, m, k - 1);
    }
}

/// Truncating two vectors that have no common set position from `m` on keeps their inner
/// product.
proof fn lemma_dot_truncate(a: Seq<bool>, b: Seq<bool>, m: nat)
    requires
        a.len() == b.len(),
        m <= a.len(),
        forall|i: int| m <= i < a.len() ==> !(#[trigger] a[i] && b[i]),
    ensures
        bit_dot(resize_bits(a, m), resize_bits(b, m)) == bit_dot(a, b),
{
    lemma_dot_prefix_tail(a, b, m as int, a.len() as int);
    lemma_dot_prefix_resize_short(a, b, m, m as int);
}

proof fn lemma_dot_prefix_resize_short(a: Seq<bool>, b: Seq<bool>, m: nat, k: int)
    requires
        a.len() == b.len(),
        m <= a.len(),
        k <= m,
    ensures
        dot_prefix(resize_bits(a, m), resize_bits(b, m), k) == dot_prefix(a, b, k),
    decreases k,
{
    if k > 0 {
        lemma_dot_prefix_resize_short(a, b, m, k - 1);
    }
}

/// Dropping qubits on which the tableau acts as the identity keeps it a Clifford tableau.
pub proof fn lemma_truncate_keeps_clifford(t: CliffordSpec, n: nat, m: nat)
    requires
        is_clifford_tableau(t, n),
        splits_at(t, m),
    ensures
        is_clifford_tableau(resize_tableau(t, m), m),
{
    let r = resize_tableau(t, m);
    assert forall|q: int| 0 <= q < m implies pauli_wf(#[trigger] r.x_images[q], m) && is_order_two_spec(r.x_images[q]) by {
        let a = t.x_images[q];
        assert(pauli_wf(a, n) && is_order_two_spec(a));
        lemma_dot_truncate(a.x, a.z, m);
    }
    assert forall|q: int| 0 <= q < m implies pauli_wf(#[trigger] r.z_images[q], m) && is_order_two_spec(r.z_images[q]) by {
        let a = t.z_images[q];
        assert(pauli_wf(a, n) && is_order_two_spec(a));
        lemma_dot_truncate(a.x, a.z, m);
    }
    assert forall|i: int, j: int| 0 <= i < m && 0 <= j < m implies !#[trigger] symplectic(r.x_images[i], r.x_images[j])
        && !symplectic(r.z_images[i], r.z_images[j]) && symplectic(r.x_images[i], r.z_images[j]) == (i == j) by {
        let xi = t.x_images[i];
        let zi = t.z_images[i];
        let xj = t.x_images[j];
        let zj = t.z_images[j];
        assert(pauli_wf(xi, n) && pauli_wf(zi, n) && pauli_wf(xj, n) && pauli_wf(zj, n));
        lemma_dot_truncate(xi.x, xj.z, m);
        lemma_dot_truncate(xi.z, xj.x, m);
        lemma_dot_truncate(zi.x, zj.z, m);
        lemma_dot_truncate(zi.z, zj.x, m);
        lemma_dot_truncate(xi.x, zj.z, m);
        lemma_dot_truncate(xi.z, zj.x, m);
        assert(!symplectic(xi, xj));
        assert(!symplectic(zi, zj));
        assert(symplectic(xi, zj) == (i == j));
    }
    assert forall|i: int, j: int| 0 <= i < m && 0 <= j < m implies !#[trigger] symplectic(r.z_images[i], r.z_images[j]) by {
        assert(!symplectic(r.x_images[i], r.x_images[j]) && !symplectic(r.z_images[i], r.z_images[j]));
    }
    assert forall|i: int, j: int| 0 <= i < m && 0 <= j < m implies #[trigger] symplectic(r.x_images[i], r.z_images[j])
        == (i == j) by {
        assert(!symplectic(r.x_images[i], r.x_images[j]));
    }
}

/// The product of two Hermitian Pauli operators is Hermitian exactly when they commute.
pub proof fn lemma_mul_order_two(a: PauliSpec, b: PauliSpec, n: nat)
    requires
        pauli_wf(a, n),
        pauli_wf(b, n),
        is_order_two_spec(a),
        is_order_two_spec(b),
    ensures
        pauli_wf(crate::pauli::pauli_mul(a, b), n),
        is_order_two_spec(crate::pauli::pauli_mul(a, b)) == !symplectic(a, b),
{
    crate::decomposition::lemma_dot_bilinear(a.x, b.x, a.z, b.z, n);
    crate::decomposition::lemma_dot_symmetric(b.x, a.z);
    let p = crate::pauli::pauli_mul(a, b);
    let daa = bit_dot(a.x, a.z);
    let dbb = bit_dot(b.x, b.z);
    let dab = bit_dot(a.x, b.z);
    let dba = bit_dot(a.z, b.x);
    assert(bit_dot(p.x, p.z) == (daa != dab != dba != dbb));
    assert((p.phase + b2i(bit_dot(p.x, p.z))) % 2 == b2i(dab != dba)) by (nonlinear_arith)
        requires
            p.phase == (a.phase + b.phase + 2 * b2i(dba)) % 4,
            (a.phase + b2i(daa)) % 2 == 0,
            (b.phase + b2i(dbb)) % 2 == 0,
            bit_dot(p.x, p.z) == (daa != dab != dba != dbb),
            0 <= a.phase,
            0 <= b.phase,
    ;
}

/// `i^k p` is Hermitian for even `k` exactly when `p` is.
pub proof fn lemma_scale_order_two(p: PauliSpec, k: int, n: nat)
    requires
        pauli_wf(p, n),
        0 <= k,
    ensures
        pauli_wf(crate::pauli::pauli_scale(p, k), n),
        is_order_two_spec(crate::pauli::pauli_scale(p, k)) == (is_order_two_spec(p) == (k % 2 == 0)),
{
    assert(((p.phase + k) % 4 + b2i(bit_dot(p.x, p.z))) % 2 == (p.phase + k + b2i(bit_dot(p.x, p.z))) % 2)
        by (nonlinear_arith)
        requires
            0 <= p.phase,
            0 <= k,
    ;
}

/// A map on Pauli operators that fixes the generators of the qubits from `m` on and keeps
/// operators that act only below `m` acting only below `m` keeps a tableau split at `m`.
pub proof fn lemma_map_keeps_split(t: CliffordSpec, f: spec_fn(PauliSpec) -> PauliSpec, n: nat, m: nat)
    requires
        splits_at(t, m),
        crate::clifford::tableau_wf(t, n),
        forall|q: int| m <= q < n ==> #[trigger] f(pauli_x_spec(q, n)) == pauli_x_spec(q, n),
        forall|q: int| m <= q < n ==> #[trigger] f(pauli_z_spec(q, n)) == pauli_z_spec(q, n),
        forall|p: PauliSpec|
            pauli_wf(p, n) && crate::pauli::identity_from(p, m as int) ==> crate::pauli::identity_from(
                #[trigger] f(p),
                m as int,
            ) && f(p).x.len() == n && f(p).z.len() == n,
    ensures
        splits_at(tableau_map(t, f), m),
{
    let r = tableau_map(t, f);
    assert forall|q: int| m <= q < n implies #[trigger] r.x_images[q] == pauli_x_spec(q, n) by {
        assert(t.x_images[q] == pauli_x_spec(q, n));
    }
    assert forall|q: int| m <= q < n implies #[trigger] r.z_images[q] == pauli_z_spec(q, n) by {
        assert(t.z_images[q] == pauli_z_spec(q, n));
    }
    assert forall|q: int| 0 <= q < m implies crate::pauli::identity_from(#[trigger] r.x_images[q], m as int)
        && crate::pauli::identity_from(r.z_images[q], m as int) by {
        let a = t.x_images[q];
        let b = t.z_images[q];
        assert(pauli_wf(a, n) && pauli_wf(b, n));
        assert forall|k: int| m <= k < a.x.len() implies !a.x[k] && !a.z[k] by {
            assert(!t.x_images[q].x[k]);
        }
        assert forall|k: int| m <= k < b.x.len() implies !b.x[k] && !b.z[k] by {
            assert(!t.z_images[q].x[k]);
        }
    }
    assert forall|q: int, k: int| 0 <= q < m && m <= k < n implies !r.x_images[q].x[k] && !r.x_images[q].z[k] by {
        assert(crate::pauli::identity_from(r.x_images[q], m as int));
    }
    assert forall|q: int, k: int| 0 <= q < m && m <= k < n implies !r.z_images[q].x[k] && !r.z_images[q].z[k] by {
        assert(crate::pauli::identity_from(r.z_images[q], m as int));
    }
}

/// An elementary operation on qubits below `m` keeps a tableau split at `m`.
pub proof fn lemma_gate_keeps_split(t: CliffordSpec, op: UnitaryOp, support: Seq<usize>, n: nat, m: nat)
    requires
        splits_at(t, m),
        crate::clifford::tableau_wf(t, n),
        valid_support(op, support, n),
        forall|k: int| 0 <= k < crate::clifford::op_arity(op) ==> (#[trigger] support[k]) < m,
    ensures
        splits_at(tableau_map(t, |p: PauliSpec| conj_op(op, support, p)), m),
{
    let f = |p: PauliSpec| conj_op(op, support, p);
    assert forall|q: int| m <= q < n implies #[trigger] f(pauli_x_spec(q, n)) == pauli_x_spec(q, n) by {
        let g = pauli_x_spec(q, n);
        if crate::clifford::op_arity(op) >= 1 {
            assert(g.x.update(support[0] as int, false) =~= g.x);
            assert(g.z.update(support[0] as int, false) =~= g.z);
        }
        if crate::clifford::op_arity(op) == 2 {
            assert(g.x.update(support[1] as int, false) =~= g.x);
            assert(g.z.update(support[1] as int, false) =~= g.z);
            assert(g.x.update(support[0] as int, false).update(support[1] as int, false) =~= g.x);
            assert(g.z.update(support[0] as int, false).update(support[1] as int, false) =~= g.z);
        }
    }
    assert forall|q: int| m <= q < n implies #[trigger] f(pauli_z_spec(q, n)) == pauli_z_spec(q, n) by {
        let g = pauli_z_spec(q, n);
        if crate::clifford::op_arity(op) >= 1 {
            assert(g.x.update(support[0] as int, false) =~= g.x);
            assert(g.z.update(support[0] as int, false) =~= g.z);
        }
        if crate::clifford::op_arity(op) == 2 {
            assert(g.x.update(support[1] as int, false) =~= g.x);
            assert(g.z.update(support[1] as int, false) =~= g.z);
            assert(g.x.update(support[0] as int, false).update(support[1] as int, false) =~= g.x);
            assert(g.z.update(support[0] as int, false).update(support[1] as int, false) =~= g.z);
        }
    }
    assert forall|p: PauliSpec| pauli_wf(p, n) && crate::pauli::identity_from(p, m as int) implies crate::pauli::identity_from(
        #[trigger] f(p),
        m as int,
    ) && f(p).x.len() == n && f(p).z.len() == n by {
        lemma_conj_op_structure(op, support, p, p, n);
    }
    lemma_map_keeps_split(t, f, n, m);
}

/// A qubit permutation on qubits below `m` keeps a tableau split at `m`.
pub proof fn lemma_permutation_keeps_split(t: CliffordSpec, permutation: Seq<usize>, support: Seq<usize>, n: nat, m: nat)
    requires
        splits_at(t, m),
        crate::clifford::tableau_wf(t, n),
        valid_permutation(permutation, support, n),
        forall|k: int| 0 <= k < support.len() ==> (#[trigger] support[k]) < m,
    ensures
        splits_at(tableau_map(t, |p: PauliSpec| conj_permutation(permutation, support, p)), m),
{
    let f = |p: PauliSpec| conj_permutation(permutation, support, p);
    assert forall|b: Seq<bool>, j: int| m <= j < b.len() implies #[trigger] permute_bits(permutation, support, b)[j] == b[j] by {
        if exists|i: int| 0 <= i < support.len() && support[i] == j {
            let i = choose|i: int| 0 <= i < support.len() && support[i] == j;
            assert(support[i] < m);
        }
    }
    assert forall|b: Seq<bool>| b.len() == n && (forall|k: int| 0 <= k < m && 0 <= k < b.len() ==> !b[k])
        implies #[trigger] permute_bits(permutation, support, b) =~= b by {
        assert forall|j: int| 0 <= j < b.len() implies permute_bits(permutation, support, b)[j] == b[j] by {
            if exists|i: int| 0 <= i < support.len() && support[i] == j {
                let i = choose|i: int| 0 <= i < support.len() && support[i] == j;
                assert(support[i] < m);
                assert(permutation[i] < support.len());
                assert(support[permutation[i] as int] < m);
            }
        }
    }
    assert forall|q: int| m <= q < n implies #[trigger] f(pauli_x_spec(q, n)) == pauli_x_spec(q, n) by {
        let g = pauli_x_spec(q, n);
        assert(permute_bits(permutation, support, g.x) =~= g.x);
        assert(permute_bits(permutation, support, g.z) =~= g.z);
    }
    assert forall|q: int| m <= q < n implies #[trigger] f(pauli_z_spec(q, n)) == pauli_z_spec(q, n) by {
        let g = pauli_z_spec(q, n);
        assert(permute_bits(permutation, support, g.x) =~= g.x);
        assert(permute_bits(permutation, support, g.z) =~= g.z);
    }
    assert forall|p: PauliSpec| pauli_wf(p, n) && crate::pauli::identity_from(p, m as int) implies crate::pauli::identity_from(
        #[trigger] f(p),
        m as int,
    ) && f(p).x.len() == n && f(p).z.len() == n by {
        assert forall|k: int| m <= k < f(p).x.len() implies !(#[trigger] f(p).x[k]) && !f(p).z[k] by {
            assert(permute_bits(permutation, support, p.x)[k] == p.x[k]);
            assert(permute_bits(permutation, support, p.z)[k] == p.z[k]);
        }
    }
    lemma_map_keeps_split(t, f, n, m);
}

/// A Pauli operator acting only below `m` commutes with the generators of the qubits from `m` on.
proof fn lemma_commutes_with_high_generators(p: PauliSpec, n: nat, m: nat, q: int)
    requires
        pauli_wf(p, n),
        crate::pauli::identity_from(p, m as int),
        m <= q < n,
    ensures
        !symplectic(p, pauli_x_spec(q, n)),
        !symplectic(p, pauli_z_spec(q, n)),
{
    lemma_dot_with_generators(p.x, n, q);
    lemma_dot_with_generators(p.z, n, q);
}

/// Conjugation by a Pauli operator acting only below `m` keeps a tableau split at `m`.
pub proof fn lemma_pauli_keeps_split(t: CliffordSpec, e: PauliSpec, n: nat, m: nat)
    requires
        splits_at(t, m),
        crate::clifford::tableau_wf(t, n),
        pauli_wf(e, n),
        crate::pauli::identity_from(e, m as int),
    ensures
        splits_at(tableau_map(t, |q: PauliSpec| conj_by_pauli(e, q)), m),
        splits_at(tableau_map(t, |q: PauliSpec| conj_by_exp(e, q)), m),
{
    let f = |q: PauliSpec| conj_by_pauli(e, q);
    let g = |q: PauliSpec| conj_by_exp(e, q);
    assert forall|q: int| m <= q < n implies #[trigger] f(pauli_x_spec(q, n)) == pauli_x_spec(q, n) by {
        lemma_commutes_with_high_generators(e, n, m, q);
    }
    assert forall|q: int| m <= q < n implies #[trigger] f(pauli_z_spec(q, n)) == pauli_z_spec(q, n) by {
        lemma_commutes_with_high_generators(e, n, m, q);
    }
    assert forall|q: int| m <= q < n implies #[trigger] g(pauli_x_spec(q, n)) == pauli_x_spec(q, n) by {
        lemma_commutes_with_high_generators(e, n, m, q);
    }
    assert forall|q: int| m <= q < n implies #[trigger] g(pauli_z_spec(q, n)) == pauli_z_spec(q, n) by {
        lemma_commutes_with_high_generators(e, n, m, q);
    }
    assert forall|p: PauliSpec| pauli_wf(p, n) && crate::pauli::identity_from(p, m as int) implies crate::pauli::identity_from(
        #[trigger] f(p),
        m as int,
    ) && f(p).x.len() == n && f(p).z.len() == n by {
    }
    assert forall|p: PauliSpec| pauli_wf(p, n) && crate::pauli::identity_from(p, m as int) implies crate::pauli::identity_from(
        #[trigger] g(p),
        m as int,
    ) && g(p).x.len() == n && g(p).z.len() == n by {
        if symplectic(e, p) {
            assert forall|k: int| m <= k < g(p).x.len() implies !(#[trigger] g(p).x[k]) && !g(p).z[k] by {
                assert(!e.x[k] && !e.z[k]);
                assert(!p.x[k] && !p.z[k]);
            }
        }
    }
    lemma_map_keeps_split(t, f, n, m);
    lemma_map_keeps_split(t, g, n, m);
}

/// A tableau split at `m` is split at every `m'` between `m` and its size.
pub proof fn lemma_split_monotone(t: CliffordSpec, m: nat, m2: nat)
    requires
        splits_at(t, m),
        m <= m2 <= t.x_images.len(),
    ensures
        splits_at(t, m2),
{
    let n = t.x_images.len();
    assert forall|q: int, k: int| #![trigger t.x_images[q].x[k]] 0 <= q < m2 && m2 <= k < n implies !t.x_images[q].x[k]
        && !t.x_images[q].z[k] by {
        if q >= m {
            assert(t.x_images[q] == pauli_x_spec(q, n));
        } else {
            assert(!t.x_images[q].x[k]);
        }
    }
    assert forall|q: int, k: int| #![trigger t.z_images[q].x[k]] 0 <= q < m2 && m2 <= k < n implies !t.z_images[q].x[k]
        && !t.z_images[q].z[k] by {
        if q >= m {
            assert(t.z_images[q] == pauli_z_spec(q, n));
        } else {
            assert(!t.z_images[q].x[k]);
        }
    }
}

/// Growing a tableau split at `m` keeps it split at `m`.
pub proof fn lemma_resize_keeps_split(t: CliffordSpec, n: nat, big: nat, m: nat)
    requires
        splits_at(t, m),
        crate::clifford::tableau_wf(t, n),
        n <= big,
    ensures
        splits_at(resize_tableau(t, big), m),
{
    let r = resize_tableau(t, big);
    assert forall|q: int| m <= q < big implies #[trigger] r.x_images[q] == pauli_x_spec(q, big) by {
        if q < n {
            assert(t.x_images[q] == pauli_x_spec(q, n));
            assert(resize_bits(bit_unit(n, q), big) =~= bit_unit(big, q));
            assert(resize_bits(bit_zeros(n), big) =~= bit_zeros(big));
        }
    }
    assert forall|q: int| m <= q < big implies #[trigger] r.z_images[q] == pauli_z_spec(q, big) by {
        if q < n {
            assert(t.z_images[q] == pauli_z_spec(q, n));
            assert(resize_bits(bit_unit(n, q), big) =~= bit_unit(big, q));
            assert(resize_bits(bit_zeros(n), big) =~= bit_zeros(big));
        }
    }
    assert forall|q: int, k: int| #![trigger r.x_images[q].x[k]] 0 <= q < m && m <= k < big implies !r.x_images[q].x[k]
        && !r.x_images[q].z[k] by {
        if k < n {
            assert(!t.x_images[q].x[k]);
        }
    }
    assert forall|q: int, k: int| #![trigger r.z_images[q].x[k]] 0 <= q < m && m <= k < big implies !r.z_images[q].x[k]
        && !r.z_images[q].z[k] by {
        if k < n {
            assert(!t.z_images[q].x[k]);
        }
    }
}

proof fn lemma_dot_prefix_embedded(a: Seq<bool>, b: Seq<bool>, c: Seq<bool>, d: Seq<bool>, oa: nat, ob: nat, n: nat, k: int)
    requires
        a.len() == b.len(),
        c.len() == d.len(),
        0 <= k <= n,
        oa + a.len() <= n,
        ob + c.len() <= n,
        oa + a.len() <= ob || ob + c.len() <= oa || (oa == ob && a.len() == c.len()),
    ensures
        dot_prefix(
            Seq::new(n, |i: int| oa <= i < oa + a.len() && a[i - oa]),
            Seq::new(n, |i: int| ob <= i < ob + c.len() && d[i - ob]),
            k,
        ) == (oa == ob && a.len() == c.len() && dot_prefix(a, d, if k - oa < 0 { 0 } else if k - oa > a.len() {
            a.len() as int
        } else {
            k - oa
        })),
    decreases k,
{
    if k > 0 {
        lemma_dot_prefix_embedded(a, b, c, d, oa, ob, n, k - 1);
    }
}

/// The inner product of two embedded vectors: that of the vectors when they sit on the same
/// qubits, zero when they sit on disjoint ones.
proof fn lemma_dot_embedded(a: Seq<bool>, d: Seq<bool>, oa: nat, ob: nat, la: nat, n: nat)
    requires
        a.len() == la,
        d.len() == la,
        oa + la <= n,
        ob + la <= n,
        oa + la <= ob || ob + la <= oa || oa == ob,
    ensures
        bit_dot(
            Seq::new(n, |i: int| oa <= i < oa + la && a[i - oa]),
            Seq::new(n, |i: int| ob <= i < ob + la && d[i - ob]),
        ) == (oa == ob && bit_dot(a, d)),
{
    lemma_dot_prefix_embedded(a, a, d, d, oa, ob, n, n as int);
}

/// The tensor product of two Clifford tableaux is a Clifford tableau.
pub proof fn lemma_tensor_keeps_clifford(a: CliffordSpec, b: CliffordSpec, n1: nat, n2: nat)
    requires
        is_clifford_tableau(a, n1),
        is_clifford_tableau(b, n2),
    ensures
        is_clifford_tableau(crate::clifford::tensor_spec(a, b), n1 + n2),
{
    let n = n1 + n2;
    let t = crate::clifford::tensor_spec(a, b);
    assert forall|q: int| 0 <= q < n implies pauli_wf(#[trigger] t.x_images[q], n) && is_order_two_spec(t.x_images[q])
        && pauli_wf(t.z_images[q], n) && is_order_two_spec(t.z_images[q]) by {
        if q < n1 {
            let p = a.x_images[q];
            let r = a.z_images[q];
            assert(pauli_wf(p, n1) && pauli_wf(r, n1) && is_order_two_spec(p) && is_order_two_spec(r));
            lemma_dot_embedded(p.x, p.z, 0, 0, n1, n);
            lemma_dot_embedded(r.x, r.z, 0, 0, n1, n);
        } else {
            let p = b.x_images[q - n1];
            let r = b.z_images[q - n1];
            assert(pauli_wf(p, n2) && pauli_wf(r, n2) && is_order_two_spec(p) && is_order_two_spec(r));
            lemma_dot_embedded(p.x, p.z, n1, n1, n2, n);
            lemma_dot_embedded(r.x, r.z, n1, n1, n2, n);
        }
    }
    assert forall|q: int| 0 <= q < n implies pauli_wf(#[trigger] t.z_images[q], n) && is_order_two_spec(t.z_images[q]) by {
        assert(pauli_wf(t.x_images[q], n));
    }
    assert(crate::clifford::tableau_wf(t, n));
    assert forall|i: int, j: int| 0 <= i < n && 0 <= j < n implies !#[trigger] symplectic(t.x_images[i], t.x_images[j]) by {
        lemma_tensor_pair(a, b, n1, n2, i, j);
    }
    assert forall|i: int, j: int| 0 <= i < n && 0 <= j < n implies !#[trigger] symplectic(t.z_images[i], t.z_images[j]) by {
        lemma_tensor_pair(a, b, n1, n2, i, j);
    }
    assert forall|i: int, j: int| 0 <= i < n && 0 <= j < n implies #[trigger] symplectic(t.x_images[i], t.z_images[j])
        == (i == j) by {
        lemma_tensor_pair(a, b, n1, n2, i, j);
    }
}

/// The commutation relations between two images of a tensor product.
proof fn lemma_tensor_pair(a: CliffordSpec, b: CliffordSpec, n1: nat, n2: nat, i: int, j: int)
    requires
        is_clifford_tableau(a, n1),
        is_clifford_tableau(b, n2),
        0 <= i < n1 + n2,
        0 <= j < n1 + n2,
    ensures
        !symplectic(crate::clifford::tensor_spec(a, b).x_images[i], crate::clifford::tensor_spec(a, b).x_images[j]),
        !symplectic(crate::clifford::tensor_spec(a, b).z_images[i], crate::clifford::tensor_spec(a, b).z_images[j]),
        symplectic(crate::clifford::tensor_spec(a, b).x_images[i], crate::clifford::tensor_spec(a, b).z_images[j])
            == (i == j),
{
    let n = n1 + n2;
    let (xi, zi, oi, li) = if i < n1 {
        (a.x_images[i], a.z_images[i], 0nat, n1)
    } else {
        (b.x_images[i - n1], b.z_images[i - n1], n1, n2)
    };
    let (xj, zj, oj, lj) = if j < n1 {
        (a.x_images[j], a.z_images[j], 0nat, n1)
    } else {
        (b.x_images[j - n1], b.z_images[j - n1], n1, n2)
    };
    if i < n1 {
        assert(pauli_wf(xi, n1) && pauli_wf(zi, n1));
    } else {
        assert(pauli_wf(xi, n2) && pauli_wf(zi, n2));
    }
    if j < n1 {
        assert(pauli_wf(xj, n1) && pauli_wf(zj, n1));
    } else {
        assert(pauli_wf(xj, n2) && pauli_wf(zj, n2));
    }
    if oi == oj {
        assert(li == lj);
        lemma_dot_embedded(xi.x, xj.z, oi, oj, li, n);
        lemma_dot_embedded(xi.z, xj.x, oi, oj, li, n);
        lemma_dot_embedded(zi.x, zj.z, oi, oj, li, n);
        lemma_dot_embedded(zi.z, zj.x, oi, oj, li, n);
        lemma_dot_embedded(xi.x, zj.z, oi, oj, li, n);
        lemma_dot_embedded(xi.z, zj.x, oi, oj, li, n);
        if i < n1 {
            assert(!symplectic(a.x_images[i], a.x_images[j]));
            assert(!symplectic(a.z_images[i], a.z_images[j]));
            assert(symplectic(a.x_images[i], a.z_images[j]) == (i == j));
        } else {
            assert(!symplectic(b.x_images[i - n1], b.x_images[j - n1]));
            assert(!symplectic(b.z_images[i - n1], b.z_images[j - n1]));
            assert(symplectic(b.x_images[i - n1], b.z_images[j - n1]) == (i - n1 == j - n1));
        }
    } else {
        lemma_dot_embedded_disjoint(xi.x, xj.z, oi, oj, li, lj, n);
        lemma_dot_embedded_disjoint(xi.z, xj.x, oi, oj, li, lj, n);
        lemma_dot_embedded_disjoint(zi.x, zj.z, oi, oj, li, lj, n);
        lemma_dot_embedded_disjoint(zi.z, zj.x, oi, oj, li, lj, n);
        lemma_dot_embedded_disjoint(xi.x, zj.z, oi, oj, li, lj, n);
        lemma_dot_embedded_disjoint(xi.z, zj.x, oi, oj, li, lj, n);
    }
}

proof fn lemma_dot_prefix_disjoint(a: Seq<bool>, d: Seq<bool>, oa: nat, ob: nat, la: nat, lb: nat, n: nat, k: int)
    requires
        a.len() == la,
        d.len() == lb,
        oa + la <= ob || ob + lb <= oa,
        k <= n,
    ensures
        !dot_prefix(
            Seq::new(n, |i: int| oa <= i < oa + la && a[i - oa]),
            Seq::new(n, |i: int| ob <= i < ob + lb && d[i - ob]),
            k,
        ),
    decreases k,
{
    if k > 0 {
        lemma_dot_prefix_disjoint(a, d, oa, ob, la, lb, n, k - 1);
    }
}

/// Vectors embedded on disjoint qubits have inner product zero.
proof fn lemma_dot_embedded_disjoint(a: Seq<bool>, d: Seq<bool>, oa: nat, ob: nat, la: nat, lb: nat, n: nat)
    requires
        a.len() == la,
        d.len() == lb,
        oa + la <= ob || ob + lb <= oa,
    ensures
        !bit_dot(
            Seq::new(n, |i: int| oa <= i < oa + la && a[i - oa]),
            Seq::new(n, |i: int| ob <= i < ob + lb && d[i - ob]),
        ),
{
    lemma_dot_prefix_disjoint(a, d, oa, ob, la, lb, n, n as int);
}

} // verus!
