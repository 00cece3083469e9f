//! The group generated by the commuting stabilizers `C Z_g C†` of a Clifford tableau: products of
//! Pauli operators are associative, commuting operators can be swapped, Hermitian ones square to
//! the identity, and so the ordered products of stabilizers multiply as their selections add.
//! From this, the relative phase of a basis string, read off any product of stabilizers that
//! moves the reference string there, does not depend on the product chosen.
use vstd::prelude::*;
use crate::clifford::{CliffordSpec, product_prefix};
use crate::decomposition::{is_clifford_tableau, lemma_dot_bilinear};
use crate::gf2::{bit_dot, bit_is_zero, bit_xor, bit_zeros, combination, combination_prefix};
use crate::pauli::{PauliSpec, b2i, is_order_two_spec, pauli_identity, pauli_mul, pauli_wf, symplectic};
use crate::phased_clifford::{is_relative_phase, relative_phase_value, stabilizer_product, x_parts};

verus! {

/// `2 b2i(p ⊕ q) ≡ 2 b2i(p) + 2 b2i(q) (mod 4)`.
proof fn lemma_double_b2i_xor(p: bool, q: bool)
    ensures
        (2 * b2i(p != q)) % 4 == (2 * b2i(p) + 2 * b2i(q)) % 4,
{
}

/// The product of Pauli operators is associative.
pub proof fn lemma_mul_associative(a: PauliSpec, b: PauliSpec, c: PauliSpec, n: nat)
    requires
        pauli_wf(a, n),
        pauli_wf(b, n),
        pauli_wf(c, n),
    ensures
        pauli_mul(pauli_mul(a, b), c) == pauli_mul(a, pauli_mul(b, c)),
{
    lemma_dot_bilinear(a.z, b.z, c.x, c.x, n);
    lemma_dot_bilinear(a.z, a.z, b.x, c.x, n);
    let left = pauli_mul(pauli_mul(a, b), c);
    let right = pauli_mul(a, pauli_mul(b, c));
    assert(left.x =~= right.x);
    assert(left.z =~= right.z);
    let d1 = bit_dot(a.z, b.x);
    let d2 = bit_dot(a.z, c.x);
    let d3 = bit_dot(b.z, c.x);
    assert(bit_dot(bit_xor(a.z, b.z), c.x) == (d2 != d3));
    assert(bit_dot(a.z, bit_xor(b.x, c.x)) == (d1 != d2));
    lemma_double_b2i_xor(d2, d3);
    lemma_double_b2i_xor(d1, d2);
    assert(left.phase == right.phase) by {
        let s = a.phase + b.phase + c.phase;
        assert(left.phase == ((a.phase + b.phase + 2 * b2i(d1)) % 4 + c.phase + 2 * b2i(d2 != d3)) % 4);
        assert(right.phase == (a.phase + (b.phase + c.phase + 2 * b2i(d3)) % 4 + 2 * b2i(d1 != d2)) % 4);
        assert(((a.phase + b.phase + 2 * b2i(d1)) % 4 + c.phase + 2 * b2i(d2 != d3)) % 4 == (s + 2 * b2i(d1) + 2
            * b2i(d2) + 2 * b2i(d3)) % 4) by (nonlinear_arith)
            requires
                (2 * b2i(d2 != d3)) % 4 == (2 * b2i(d2) + 2 * b2i(d3)) % 4,
                s == a.phase + b.phase + c.phase,
        ;
        assert((a.phase + (b.phase + c.phase + 2 * b2i(d3)) % 4 + 2 * b2i(d1 != d2)) % 4 == (s + 2 * b2i(d1) + 2
            * b2i(d2) + 2 * b2i(d3)) % 4) by (nonlinear_arith)
            requires
                (2 * b2i(d1 != d2)) % 4 == (2 * b2i(d1) + 2 * b2i(d2)) % 4,
                s == a.phase + b.phase + c.phase,
        ;
    }
}

/// Commuting Pauli operators can be swapped in a product.
pub proof fn lemma_mul_commuting(a: PauliSpec, b: PauliSpec, n: nat)
    requires
        pauli_wf(a, n),
        pauli_wf(b, n),
        !symplectic(a, b),
    ensures
        pauli_mul(a, b) == pauli_mul(b, a),
{
    lemma_dot_bilinear(a.x, b.z, a.x, a.x, n);
    lemma_dot_bilinear(b.z, a.x, a.x, a.x, n);
    assert(bit_dot(b.z, a.x) == bit_dot(a.x, b.z));
    assert(pauli_mul(a, b).x =~= pauli_mul(b, a).x);
    assert(pauli_mul(a, b).z =~= pauli_mul(b, a).z);
}

/// A Hermitian Pauli operator squares to the identity.
pub proof fn lemma_mul_square(a: PauliSpec, n: nat)
    requires
        pauli_wf(a, n),
        is_order_two_spec(a),
    ensures
        pauli_mul(a, a) == pauli_identity(n),
{
    lemma_dot_bilinear(a.z, a.x, a.x, a.x, n);
    assert(bit_dot(a.z, a.x) == bit_dot(a.x, a.z));
    assert(pauli_mul(a, a).x =~= bit_zeros(n));
    assert(pauli_mul(a, a).z =~= bit_zeros(n));
    assert((2 * a.phase + 2 * b2i(bit_dot(a.x, a.z))) % 4 == 0) by (nonlinear_arith)
        requires
            (a.phase + b2i(bit_dot(a.x, a.z))) % 2 == 0,
    ;
}

/// The identity is neutral on both sides.
pub proof fn lemma_mul_identity(a: PauliSpec, n: nat)
    requires
        pauli_wf(a, n),
    ensures
        pauli_mul(a, pauli_identity(n)) == a,
        pauli_mul(pauli_identity(n), a) == a,
{
    crate::pauli::lemma_dot_zeros_left(bit_zeros(n), a.x);
    lemma_dot_bilinear(a.z, bit_zeros(n), a.z, a.z, n);
    lemma_dot_bilinear(bit_zeros(n), a.z, a.z, a.z, n);
    assert(bit_dot(a.z, bit_zeros(n)) == bit_dot(bit_zeros(n), a.z));
    crate::pauli::lemma_dot_zeros_left(bit_zeros(n), a.z);
    assert(pauli_mul(a, pauli_identity(n)).x =~= a.x);
    assert(pauli_mul(a, pauli_identity(n)).z =~= a.z);
    assert(pauli_mul(pauli_identity(n), a).x =~= a.x);
    assert(pauli_mul(pauli_identity(n), a).z =~= a.z);
}

/// The symplectic form is linear in its second argument.
proof fn lemma_symplectic_mul(a: PauliSpec, b: PauliSpec, c: PauliSpec, n: nat)
    requires
        pauli_wf(a, n),
        pauli_wf(b, n),
        pauli_wf(c, n),
    ensures
        symplectic(a, pauli_mul(b, c)) == (symplectic(a, b) != symplectic(a, c)),
        pauli_wf(pauli_mul(b, c), n),
{
    lemma_dot_bilinear(a.x, a.x, b.z, c.z, n);
    lemma_dot_bilinear(a.z, a.z, b.x, c.x, n);
}

/// The stabilizers `C Z_g C†` of `t` are Hermitian, pairwise commuting Pauli operators on `n`
/// qubits.
pub open spec fn commuting_generators(gens: Seq<PauliSpec>, n: nat) -> bool {
    &&& gens.len() == n
    &&& forall|g: int| 0 <= g < n ==> pauli_wf(#[trigger] gens[g], n)
    &&& forall|g: int| 0 <= g < n ==> is_order_two_spec(#[trigger] gens[g])
    &&& forall|g: int, h: int| 0 <= g < n && 0 <= h < n ==> !symplectic(#[trigger] gens[g], #[trigger] gens[h])
}

/// Every ordered product of the generators is a Pauli operator on `n` qubits that commutes with
/// each generator.
proof fn lemma_product_commutes(gens: Seq<PauliSpec>, n: nat, c: Seq<bool>, k: int)
    requires
        commuting_generators(gens, n),
        0 <= k <= n,
    ensures
        pauli_wf(product_prefix(pauli_identity(n), gens, c, k), n),
        forall|g: int| 0 <= g < n ==> !symplectic(#[trigger] gens[g], product_prefix(pauli_identity(n), gens, c, k)),
    decreases k,
{
    if k == 0 {
        assert forall|g: int| 0 <= g < n implies !symplectic(#[trigger] gens[g], pauli_identity(n)) by {
            crate::pauli::lemma_dot_zeros_left(bit_zeros(n), gens[g].x);
            crate::pauli::lemma_dot_zeros_left(bit_zeros(n), gens[g].z);
            lemma_dot_bilinear(gens[g].x, bit_zeros(n), gens[g].x, gens[g].x, n);
            lemma_dot_bilinear(gens[g].z, bit_zeros(n), gens[g].z, gens[g].z, n);
        }
    } else {
        lemma_product_commutes(gens, n, c, k - 1);
        let prev = product_prefix(pauli_identity(n), gens, c, k - 1);
        if c[k - 1] {
            let f = gens[k - 1];
            assert forall|g: int| 0 <= g < n implies !symplectic(
                #[trigger] gens[g],
                product_prefix(pauli_identity(n), gens, c, k),
            ) by {
                lemma_symplectic_mul(gens[g], prev, f, n);
                assert(!symplectic(gens[g], gens[k - 1]));
            }
            lemma_symplectic_mul(f, prev, f, n);
        }
    }
}

/// Ordered products of commuting Hermitian generators multiply as their selections add:
/// `S(c₁) · S(c₂) = S(c₁ + c₂)`.
pub proof fn lemma_product_homomorphism(gens: Seq<PauliSpec>, n: nat, c1: Seq<bool>, c2: Seq<bool>, k: int)
    requires
        commuting_generators(gens, n),
        0 <= k <= n,
        c1.len() == n,
        c2.len() == n,
    ensures
        pauli_mul(product_prefix(pauli_identity(n), gens, c1, k), product_prefix(pauli_identity(n), gens, c2, k))
            == product_prefix(pauli_identity(n), gens, bit_xor(c1, c2), k),
    decreases k,
{
    let id = pauli_identity(n);
    if k == 0 {
        lemma_mul_identity(id, n);
    } else {
        lemma_product_homomorphism(gens, n, c1, c2, k - 1);
        lemma_product_commutes(gens, n, c1, k - 1);
        lemma_product_commutes(gens, n, c2, k - 1);
        lemma_product_commutes(gens, n, bit_xor(c1, c2), k - 1);
        let a = product_prefix(id, gens, c1, k - 1);
        let b = product_prefix(id, gens, c2, k - 1);
        let g = gens[k - 1];
        assert(pauli_wf(g, n));
        assert(!symplectic(g, b));
        lemma_mul_commuting(g, b, n);
        lemma_symplectic_mul(g, a, b, n);
        if c1[k - 1] && c2[k - 1] {
            lemma_mul_associative(a, g, pauli_mul(b, g), n);
            lemma_mul_associative(g, b, g, n);
            lemma_mul_associative(b, g, g, n);
            lemma_mul_square(g, n);
            lemma_mul_identity(b, n);
            assert(pauli_mul(pauli_mul(a, g), pauli_mul(b, g)) == pauli_mul(a, b));
        } else if c1[k - 1] {
            lemma_mul_associative(a, g, b, n);
            lemma_mul_associative(a, b, g, n);
        } else if c2[k - 1] {
            lemma_mul_associative(a, b, g, n);
        }
    }
}

/// The `X` part of a product of stabilizers is the sum of their `X` parts.
proof fn lemma_product_x_part(t: CliffordSpec, n: nat, c: Seq<bool>, k: int)
    requires
        commuting_generators(t.z_images, n),
        0 <= k <= n,
    ensures
        product_prefix(pauli_identity(n), t.z_images, c, k).x == combination_prefix(x_parts(t), c, n, k),
    decreases k,
{
    if k > 0 {
        lemma_product_x_part(t, n, c, k - 1);
        assert(x_parts(t)[k - 1] == t.z_images[k - 1].x);
    }
}

/// Every stabilizer product without `X` part acts on `|reference⟩` as the identity: the reference
/// string lies in the support of the encoder state, with the signs its stabilizers dictate.
pub open spec fn reference_in_support(t: CliffordSpec, reference: Seq<bool>) -> bool {
    forall|d: Seq<bool>|
        d.len() == t.z_images.len() && bit_is_zero(combination(x_parts(t), d, t.z_images.len())) ==> #[trigger]
            relative_phase_value(t, reference, d) == 0
}

/// `v` with its coordinates `a` and `b` exchanged.
pub open spec fn swap_bits(v: Seq<bool>, a: int, b: int) -> Seq<bool> {
    v.update(a, v[b]).update(b, v[a])
}

/// Whatever its selection, a product of stabilizers without `X` part commutes with every other
/// product of stabilizers, so its `Z` part is orthogonal to their `X` parts.
proof fn lemma_x_free_product_orthogonal(t: CliffordSpec, n: nat, d: Seq<bool>, c: Seq<bool>)
    requires
        commuting_generators(t.z_images, n),
        d.len() == n,
        c.len() == n,
        bit_is_zero(stabilizer_product(t, d).x),
    ensures
        bit_dot(stabilizer_product(t, d).z, stabilizer_product(t, c).x) == false,
{
    let gens = t.z_images;
    let sd = stabilizer_product(t, d);
    let sc = stabilizer_product(t, c);
    lemma_product_commutes(gens, n, d, n as int);
    lemma_product_commutes(gens, n, c, n as int);
    lemma_product_homomorphism(gens, n, d, c, n as int);
    lemma_product_homomorphism(gens, n, c, d, n as int);
    assert(bit_xor(d, c) =~= bit_xor(c, d));
    assert(pauli_mul(sd, sc) == pauli_mul(sc, sd));
    crate::pauli::lemma_dot_zeros_left(sd.x, sc.z);
    lemma_dot_bilinear(sc.z, sd.x, sc.z, sc.z, n);
    assert(bit_dot(sc.z, sd.x) == false);
    let e = bit_dot(sd.z, sc.x);
    assert((sd.phase + sc.phase + 2 * b2i(e)) % 4 == (sc.phase + sd.phase) % 4);
    assert(!e) by (nonlinear_arith)
        requires
            (sd.phase + sc.phase + 2 * b2i(e)) % 4 == (sc.phase + sd.phase) % 4,
            b2i(e) == (if e { 1int } else { 0int }),
    ;
}

/// The support of a stabilizer state is closed: every basis string reached from a string of the
/// support by a product of stabilizers lies in the support too, with the same signs.
pub proof fn lemma_support_closed(t: CliffordSpec, reference: Seq<bool>, target: Seq<bool>, v: int)
    requires
        is_clifford_tableau(t, reference.len()),
        reference_in_support(t, reference),
        target.len() == reference.len(),
        is_relative_phase(t, reference, target, v),
    ensures
        reference_in_support(t, target),
{
    let n = reference.len();
    let gens = t.z_images;
    assert(commuting_generators(gens, n)) by {
        assert(crate::clifford::tableau_wf(t, n));
    }
    let c = choose|c: Seq<bool>|
        c.len() == n && combination(x_parts(t), c, n) == bit_xor(target, reference) && v == relative_phase_value(
            t,
            reference,
            c,
        );
    lemma_product_x_part(t, n, c, n as int);
    lemma_product_commutes(gens, n, c, n as int);
    let sc = stabilizer_product(t, c);
    assert(target =~= bit_xor(sc.x, reference));
    assert forall|d: Seq<bool>|
        d.len() == t.z_images.len() && bit_is_zero(combination(x_parts(t), d, t.z_images.len())) implies #[trigger]
        relative_phase_value(t, target, d) == 0 by {
        lemma_product_x_part(t, n, d, n as int);
        lemma_product_commutes(gens, n, d, n as int);
        let sd = stabilizer_product(t, d);
        lemma_x_free_product_orthogonal(t, n, d, c);
        lemma_dot_bilinear(sd.z, sd.z, sc.x, reference, n);
        assert(relative_phase_value(t, reference, d) == 0);
    }
}

/// Exchanging two qubits commutes with the product of Pauli operators.
proof fn lemma_swap_mul(p: PauliSpec, q: PauliSpec, a: int, b: int, n: nat)
    requires
        pauli_wf(p, n),
        pauli_wf(q, n),
        0 <= a < n,
        0 <= b < n,
        a != b,
    ensures
        crate::clifford::conj_swap(a, b, pauli_mul(p, q)) == pauli_mul(
            crate::clifford::conj_swap(a, b, p),
            crate::clifford::conj_swap(a, b, q),
        ),
{
    let l = crate::clifford::conj_swap(a, b, pauli_mul(p, q));
    let r = pauli_mul(crate::clifford::conj_swap(a, b, p), crate::clifford::conj_swap(a, b, q));
    crate::validity::lemma_dot_update2(p.z, q.x, a, b, p.z[b], p.z[a], q.x[b], q.x[a]);
    assert(l.x =~= r.x);
    assert(l.z =~= r.z);
}

/// The stabilizer products of the swapped tableau are the swapped stabilizer products.
proof fn lemma_swap_product(t: CliffordSpec, t2: CliffordSpec, n: nat, a: int, b: int, d: Seq<bool>, k: int)
    requires
        commuting_generators(t.z_images, n),
        t2.z_images.len() == n,
        forall|g: int| 0 <= g < n ==> #[trigger] t2.z_images[g] == crate::clifford::conj_swap(a, b, t.z_images[g]),
        0 <= a < n,
        0 <= b < n,
        a != b,
        0 <= k <= n,
    ensures
        product_prefix(pauli_identity(n), t2.z_images, d, k) == crate::clifford::conj_swap(
            a,
            b,
            product_prefix(pauli_identity(n), t.z_images, d, k),
        ),
    decreases k,
{
    let id = pauli_identity(n);
    if k == 0 {
        assert(crate::clifford::conj_swap(a, b, id).x =~= id.x);
        assert(crate::clifford::conj_swap(a, b, id).z =~= id.z);
    } else {
        lemma_swap_product(t, t2, n, a, b, d, k - 1);
        lemma_product_commutes(t.z_images, n, d, k - 1);
        if d[k - 1] {
            lemma_swap_mul(product_prefix(id, t.z_images, d, k - 1), t.z_images[k - 1], a, b, n);
        }
    }
}

/// Exchanging two qubits of a stabilizer state exchanges them in its support: a string of the
/// support of `t` gives, with its bits `a` and `b` exchanged, a string of the support of the
/// swapped tableau `t2`.
pub proof fn lemma_swap_moves_support(t: CliffordSpec, t2: CliffordSpec, s: Seq<bool>, a: int, b: int)
    requires
        is_clifford_tableau(t, s.len()),
        is_clifford_tableau(t2, s.len()),
        forall|g: int| 0 <= g < s.len() ==> #[trigger] t2.z_images[g] == crate::clifford::conj_swap(a, b, t.z_images[g]),
        0 <= a < s.len(),
        0 <= b < s.len(),
        a != b,
        reference_in_support(t, s),
    ensures
        reference_in_support(t2, swap_bits(s, a, b)),
{
    let n = s.len();
    assert(commuting_generators(t.z_images, n)) by {
        assert(crate::clifford::tableau_wf(t, n));
    }
    assert(commuting_generators(t2.z_images, n)) by {
        assert(crate::clifford::tableau_wf(t2, n));
    }
    assert forall|d: Seq<bool>|
        d.len() == t2.z_images.len() && bit_is_zero(combination(x_parts(t2), d, t2.z_images.len())) implies #[trigger]
        relative_phase_value(t2, swap_bits(s, a, b), d) == 0 by {
        lemma_swap_product(t, t2, n, a, b, d, n as int);
        lemma_product_x_part(t, n, d, n as int);
        lemma_product_x_part(t2, n, d, n as int);
        lemma_product_commutes(t.z_images, n, d, n as int);
        let sd = stabilizer_product(t, d);
        let sd2 = stabilizer_product(t2, d);
        assert(bit_is_zero(combination(x_parts(t), d, n))) by {
            assert forall|i: int| 0 <= i < n implies !#[trigger] sd.x[i] by {
                if i == a {
                    assert(!sd2.x[b]);
                } else if i == b {
                    assert(!sd2.x[a]);
                } else {
                    assert(!sd2.x[i]);
                }
            }
        }
        assert(relative_phase_value(t, s, d) == 0);
        crate::validity::lemma_dot_update2(sd.z, s, a, b, sd.z[b], sd.z[a], s[b], s[a]);
    }
}

/// The stabilizer products of a tableau whose stabilizers are the images under a multiplicative
/// map `f` (one that fixes the identity) are the images of the stabilizer products.
proof fn lemma_mapped_product(
    t: CliffordSpec,
    t2: CliffordSpec,
    n: nat,
    f: spec_fn(PauliSpec) -> PauliSpec,
    d: Seq<bool>,
    k: int,
)
    requires
        commuting_generators(t.z_images, n),
        t2.z_images.len() == n,
        forall|g: int| 0 <= g < n ==> #[trigger] t2.z_images[g] == f(t.z_images[g]),
        f(pauli_identity(n)) == pauli_identity(n),
        forall|p: PauliSpec, q: PauliSpec|
            pauli_wf(p, n) && pauli_wf(q, n) ==> #[trigger] f(pauli_mul(p, q)) == pauli_mul(f(p), f(q)),
        0 <= k <= n,
    ensures
        product_prefix(pauli_identity(n), t2.z_images, d, k) == f(product_prefix(pauli_identity(n), t.z_images, d, k)),
    decreases k,
{
    if k > 0 {
        lemma_mapped_product(t, t2, n, f, d, k - 1);
        lemma_product_commutes(t.z_images, n, d, k - 1);
        if d[k - 1] {
            let prev = product_prefix(pauli_identity(n), t.z_images, d, k - 1);
            assert(f(pauli_mul(prev, t.z_images[k - 1])) == pauli_mul(f(prev), f(t.z_images[k - 1])));
        }
    }
}

/// A controlled-`X` (control `c`, target `g`) commutes with the product of Pauli operators.
proof fn lemma_cx_mul(p: PauliSpec, q: PauliSpec, c: int, g: int, n: nat)
    requires
        pauli_wf(p, n),
        pauli_wf(q, n),
        0 <= c < n,
        0 <= g < n,
        c != g,
    ensures
        crate::clifford::conj_cx(c, g, pauli_mul(p, q)) == pauli_mul(
            crate::clifford::conj_cx(c, g, p),
            crate::clifford::conj_cx(c, g, q),
        ),
{
    let l = crate::clifford::conj_cx(c, g, pauli_mul(p, q));
    let r = pauli_mul(crate::clifford::conj_cx(c, g, p), crate::clifford::conj_cx(c, g, q));
    crate::validity::lemma_dot_update2(p.z, q.x, c, g, p.z[c] != p.z[g], p.z[g], q.x[c], q.x[g] != q.x[c]);
    assert(p.z.update(c, p.z[c] != p.z[g]).update(g, p.z[g]) =~= crate::clifford::conj_cx(c, g, p).z);
    assert(q.x.update(c, q.x[c]).update(g, q.x[g] != q.x[c]) =~= crate::clifford::conj_cx(c, g, q).x);
    assert(l.x =~= r.x);
    assert(l.z =~= r.z);
}

/// A controlled-`Z` on qubits `a`, `b` commutes with the product of Pauli operators.
proof fn lemma_cz_mul(p: PauliSpec, q: PauliSpec, a: int, b: int, n: nat)
    requires
        pauli_wf(p, n),
        pauli_wf(q, n),
        0 <= a < n,
        0 <= b < n,
        a != b,
    ensures
        crate::clifford::conj_cz(a, b, pauli_mul(p, q)) == pauli_mul(
            crate::clifford::conj_cz(a, b, p),
            crate::clifford::conj_cz(a, b, q),
        ),
{
    let l = crate::clifford::conj_cz(a, b, pauli_mul(p, q));
    let r = pauli_mul(crate::clifford::conj_cz(a, b, p), crate::clifford::conj_cz(a, b, q));
    let pz = crate::clifford::conj_cz(a, b, p).z;
    crate::validity::lemma_dot_update2(p.z, q.x, a, b, pz[a], pz[b], q.x[a], q.x[b]);
    assert(p.z.update(a, pz[a]).update(b, pz[b]) =~= pz);
    assert(q.x.update(a, q.x[a]).update(b, q.x[b]) =~= q.x);
    assert(l.x =~= r.x);
    assert(l.z =~= r.z);
    let d = bit_dot(p.z, q.x);
    let pa = p.x[a];
    let pb = p.x[b];
    let qa = q.x[a];
    let qb = q.x[b];
    assert(bit_dot(pz, q.x) == (d != (pb && qa) != (pa && qb)));
    assert(l.phase == r.phase) by (nonlinear_arith)
        requires
            0 <= p.phase < 4,
            0 <= q.phase < 4,
            l.phase == ((p.phase + q.phase + 2 * b2i(d)) % 4 + 2 * b2i((pa != qa) && (pb != qb))) % 4,
            r.phase == ((p.phase + 2 * b2i(pa && pb)) % 4 + (q.phase + 2 * b2i(qa && qb)) % 4 + 2 * b2i(d != (pb
                && qa) != (pa && qb))) % 4,
            b2i(d) == (if d { 1int } else { 0int }),
            b2i((pa != qa) && (pb != qb)) == (if (pa != qa) && (pb != qb) { 1int } else { 0int }),
            b2i(pa && pb) == (if pa && pb { 1int } else { 0int }),
            b2i(qa && qb) == (if qa && qb { 1int } else { 0int }),
            b2i(d != (pb && qa) != (pa && qb)) == (if d != (pb && qa) != (pa && qb) { 1int } else { 0int }),
    ;
}

/// A controlled-`X` (control `c`, target `g`) moves the support of a stabilizer state along with
/// it: a string of the support of `t`, with its target bit flipped where its control bit is set,
/// is a string of the support of the conjugated tableau `t2`.
pub proof fn lemma_cx_moves_support(t: CliffordSpec, t2: CliffordSpec, s: Seq<bool>, c: int, g: int)
    requires
        is_clifford_tableau(t, s.len()),
        is_clifford_tableau(t2, s.len()),
        forall|h: int| 0 <= h < s.len() ==> #[trigger] t2.z_images[h] == crate::clifford::conj_cx(c, g, t.z_images[h]),
        0 <= c < s.len(),
        0 <= g < s.len(),
        c != g,
        reference_in_support(t, s),
    ensures
        reference_in_support(t2, s.update(g, s[g] != s[c])),
{
    let n = s.len();
    let f = |p: PauliSpec| crate::clifford::conj_cx(c, g, p);
    assert(commuting_generators(t.z_images, n)) by {
        assert(crate::clifford::tableau_wf(t, n));
    }
    assert(commuting_generators(t2.z_images, n)) by {
        assert(crate::clifford::tableau_wf(t2, n));
    }
    assert(f(pauli_identity(n)).x =~= pauli_identity(n).x);
    assert(f(pauli_identity(n)).z =~= pauli_identity(n).z);
    assert forall|p: PauliSpec, q: PauliSpec| pauli_wf(p, n) && pauli_wf(q, n) implies #[trigger] f(pauli_mul(p, q))
        == pauli_mul(f(p), f(q)) by {
        lemma_cx_mul(p, q, c, g, n);
    }
    let s2 = s.update(g, s[g] != s[c]);
    assert forall|d: Seq<bool>|
        d.len() == t2.z_images.len() && bit_is_zero(combination(x_parts(t2), d, t2.z_images.len())) implies #[trigger]
        relative_phase_value(t2, s2, d) == 0 by {
        lemma_mapped_product(t, t2, n, f, d, n as int);
        lemma_product_x_part(t, n, d, n as int);
        lemma_product_x_part(t2, n, d, n as int);
        lemma_product_commutes(t.z_images, n, d, n as int);
        let sd = stabilizer_product(t, d);
        let sd2 = stabilizer_product(t2, d);
        assert(bit_is_zero(combination(x_parts(t), d, n))) by {
            assert forall|i: int| 0 <= i < n implies !#[trigger] sd.x[i] by {
                assert(!sd2.x[i]);
                assert(!sd2.x[c]);
            }
        }
        assert(relative_phase_value(t, s, d) == 0);
        crate::validity::lemma_dot_update2(sd.z, s, c, g, sd.z[c] != sd.z[g], sd.z[g], s[c], s[g] != s[c]);
        assert(sd.z.update(c, sd.z[c] != sd.z[g]).update(g, sd.z[g]) =~= sd2.z);
        assert(s.update(c, s[c]).update(g, s[g] != s[c]) =~= s2);
    }
}

/// A controlled-`Z` keeps the support of a stabilizer state: a string of the support of `t` is a
/// string of the support of the conjugated tableau `t2`.
pub proof fn lemma_cz_keeps_support(t: CliffordSpec, t2: CliffordSpec, s: Seq<bool>, a: int, b: int)
    requires
        is_clifford_tableau(t, s.len()),
        is_clifford_tableau(t2, s.len()),
        forall|h: int| 0 <= h < s.len() ==> #[trigger] t2.z_images[h] == crate::clifford::conj_cz(a, b, t.z_images[h]),
        0 <= a < s.len(),
        0 <= b < s.len(),
        a != b,
        reference_in_support(t, s),
    ensures
        reference_in_support(t2, s),
{
    let n = s.len();
    let f = |p: PauliSpec| crate::clifford::conj_cz(a, b, p);
    assert(commuting_generators(t.z_images, n)) by {
        assert(crate::clifford::tableau_wf(t, n));
    }
    assert(commuting_generators(t2.z_images, n)) by {
        assert(crate::clifford::tableau_wf(t2, n));
    }
    assert(f(pauli_identity(n)).x =~= pauli_identity(n).x);
    assert(f(pauli_identity(n)).z =~= pauli_identity(n).z);
    assert forall|p: PauliSpec, q: PauliSpec| pauli_wf(p, n) && pauli_wf(q, n) implies #[trigger] f(pauli_mul(p, q))
        == pauli_mul(f(p), f(q)) by {
        lemma_cz_mul(p, q, a, b, n);
    }
    assert forall|d: Seq<bool>|
        d.len() == t2.z_images.len() && bit_is_zero(combination(x_parts(t2), d, t2.z_images.len())) implies #[trigger]
        relative_phase_value(t2, s, d) == 0 by {
        lemma_mapped_product(t, t2, n, f, d, n as int);
        lemma_product_x_part(t, n, d, n as int);
        lemma_product_x_part(t2, n, d, n as int);
        lemma_product_commutes(t.z_images, n, d, n as int);
        let sd = stabilizer_product(t, d);
        let sd2 = stabilizer_product(t2, d);
        assert(sd2.x == sd.x);
        assert(!sd.x[a] && !sd.x[b]);
        assert(sd2.z =~= sd.z);
        assert(relative_phase_value(t, s, d) == 0);
    }
}

/// Relative phases compose: moving from `r0` to `r1` and then from `r1` to `r2` by products of
/// stabilizers moves from `r0` to `r2` with the sum of the two phases.
pub proof fn lemma_relative_phase_compose(
    t: CliffordSpec,
    r0: Seq<bool>,
    r1: Seq<bool>,
    r2: Seq<bool>,
    v1: int,
    v2: int,
)
    requires
        is_clifford_tableau(t, r0.len()),
        r1.len() == r0.len(),
        r2.len() == r0.len(),
        is_relative_phase(t, r0, r1, v1),
        is_relative_phase(t, r1, r2, v2),
    ensures
        is_relative_phase(t, r0, r2, (v1 + v2) % 8),
{
    let n = r0.len();
    let gens = t.z_images;
    assert(commuting_generators(gens, n)) by {
        assert(crate::clifford::tableau_wf(t, n));
    }
    let c1 = choose|c: Seq<bool>|
        c.len() == n && combination(x_parts(t), c, n) == bit_xor(r1, r0) && v1 == relative_phase_value(t, r0, c);
    let c2 = choose|c: Seq<bool>|
        c.len() == n && combination(x_parts(t), c, n) == bit_xor(r2, r1) && v2 == relative_phase_value(t, r1, c);
    let c = bit_xor(c1, c2);
    let id = pauli_identity(n);
    let s1 = stabilizer_product(t, c1);
    let s2 = stabilizer_product(t, c2);
    lemma_product_commutes(gens, n, c1, n as int);
    lemma_product_commutes(gens, n, c2, n as int);
    lemma_product_x_part(t, n, c1, n as int);
    lemma_product_x_part(t, n, c2, n as int);
    lemma_product_x_part(t, n, c, n as int);
    lemma_product_homomorphism(gens, n, c1, c2, n as int);
    lemma_product_homomorphism(gens, n, c2, c1, n as int);
    assert(bit_xor(c2, c1) =~= c);
    assert(pauli_mul(s1, s2) == pauli_mul(s2, s1));
    assert(combination(x_parts(t), c, n) =~= bit_xor(r2, r0));
    let e = bit_dot(s1.z, s2.x);
    let f = bit_dot(s1.z, r0);
    let g = bit_dot(s2.z, r0);
    assert(bit_dot(s2.z, s1.x) == e) by {
        assert((s1.phase + s2.phase + 2 * b2i(e)) % 4 == (s2.phase + s1.phase + 2 * b2i(bit_dot(s2.z, s1.x))) % 4);
    }
    assert(r1 =~= bit_xor(s1.x, r0));
    lemma_dot_bilinear(s2.z, s2.z, s1.x, r0, n);
    lemma_dot_bilinear(s1.z, s2.z, r0, r0, n);
    let w = relative_phase_value(t, r0, c);
    assert(w == (2 * ((s1.phase + s2.phase + 2 * b2i(e)) % 4) + 4 * b2i(f != g)) % 8);
    assert(v1 == (2 * s1.phase + 4 * b2i(f)) % 8);
    assert(v2 == (2 * s2.phase + 4 * b2i(e != g)) % 8);
    assert(w == (v1 + v2) % 8) by (nonlinear_arith)
        requires
            0 <= s1.phase < 4,
            0 <= s2.phase < 4,
            w == (2 * ((s1.phase + s2.phase + 2 * b2i(e)) % 4) + 4 * b2i(f != g)) % 8,
            v1 == (2 * s1.phase + 4 * b2i(f)) % 8,
            v2 == (2 * s2.phase + 4 * b2i(e != g)) % 8,
            b2i(e) == (if e { 1int } else { 0int }),
            b2i(f != g) == (if f != g { 1int } else { 0int }),
            b2i(f) == (if f { 1int } else { 0int }),
            b2i(e != g) == (if e != g { 1int } else { 0int }),
    ;
}

/// The relative phase of a basis string is determined uniquely: two products of stabilizers that
/// move the reference string to `target` give the same `ζ₈` exponent, when `t` is a Clifford
/// tableau and the reference string lies in the support of its state.
pub proof fn lemma_relative_phase_unique(t: CliffordSpec, reference: Seq<bool>, target: Seq<bool>, v1: int, v2: int)
    requires
        is_clifford_tableau(t, reference.len()),
        reference_in_support(t, reference),
        target.len() == reference.len(),
        is_relative_phase(t, reference, target, v1),
        is_relative_phase(t, reference, target, v2),
    ensures
        v1 == v2,
{
    let n = reference.len();
    let gens = t.z_images;
    assert(commuting_generators(gens, n)) by {
        assert forall|g: int| 0 <= g < n implies pauli_wf(#[trigger] gens[g], n) by {
            assert(crate::clifford::tableau_wf(t, n));
        }
    }
    let shift = bit_xor(target, reference);
    let c1 = choose|c: Seq<bool>|
        c.len() == n && combination(x_parts(t), c, n) == shift && v1 == relative_phase_value(t, reference, c);
    let c2 = choose|c: Seq<bool>|
        c.len() == n && combination(x_parts(t), c, n) == shift && v2 == relative_phase_value(t, reference, c);
    let d = bit_xor(c1, c2);
    let id = pauli_identity(n);
    let s1 = product_prefix(id, gens, c1, n as int);
    let s2 = product_prefix(id, gens, c2, n as int);
    let sd = product_prefix(id, gens, d, n as int);
    lemma_product_commutes(gens, n, c1, n as int);
    lemma_product_commutes(gens, n, c2, n as int);
    lemma_product_commutes(gens, n, d, n as int);
    lemma_product_x_part(t, n, c1, n as int);
    lemma_product_x_part(t, n, c2, n as int);
    lemma_product_x_part(t, n, d, n as int);
    lemma_product_homomorphism(gens, n, c1, c2, n as int);
    assert(sd.x == bit_xor(s1.x, s2.x));
    assert(bit_is_zero(combination(x_parts(t), d, n))) by {
        assert(combination(x_parts(t), d, n) == sd.x);
        assert forall|i: int| 0 <= i < sd.x.len() implies !sd.x[i] by {
            assert(s1.x[i] == s2.x[i]);
        }
    }
    assert(relative_phase_value(t, reference, d) == 0);
    lemma_product_homomorphism(gens, n, c1, d, n as int);
    assert(bit_xor(c1, d) =~= c2);
    assert(pauli_mul(s1, sd) == s2);
    assert(crate::gf2::bit_is_zero(sd.x)) by {
        assert(combination(x_parts(t), d, n) == sd.x);
    }
    crate::pauli::lemma_dot_zeros_left(sd.x, s1.z);
    lemma_dot_bilinear(s1.z, sd.x, s1.z, s1.z, n);
    assert(bit_dot(s1.z, sd.x) == false);
    lemma_dot_bilinear(s1.z, sd.z, reference, reference, n);
    let y1 = bit_dot(s1.z, reference);
    let yd = bit_dot(sd.z, reference);
    assert(bit_dot(s2.z, reference) == (y1 != yd));
    assert(v1 == (2 * s1.phase + 4 * b2i(y1)) % 8);
    assert(v2 == (2 * s2.phase + 4 * b2i(y1 != yd)) % 8);
    assert(s2.phase == (s1.phase + sd.phase) % 4);
    assert((2 * sd.phase + 4 * b2i(yd)) % 8 == 0);
    assert(v1 == v2) by (nonlinear_arith)
        requires
            0 <= s1.phase < 4,
            0 <= sd.phase < 4,
            s2.phase == (s1.phase + sd.phase) % 4,
            (2 * sd.phase + 4 * b2i(yd)) % 8 == 0,
            v1 == (2 * s1.phase + 4 * b2i(y1)) % 8,
            v2 == (2 * s2.phase + 4 * b2i(y1 != yd)) % 8,
    ;
}

/// The identity encoder on `n` qubits, with the all-zero reference string, meets the conditions of
/// [`lemma_relative_phase_unique`]: its tableau is a Clifford tableau and the reference string
/// lies in the support of `|0…0⟩`.
pub proof fn lemma_identity_state_valid(n: nat)
    ensures
        is_clifford_tableau(crate::clifford::identity_tableau(n), n),
        reference_in_support(crate::clifford::identity_tableau(n), bit_zeros(n)),
{
    crate::decomposition::lemma_identity_is_clifford(n);
    let t = crate::clifford::identity_tableau(n);
    assert forall|d: Seq<bool>|
        d.len() == t.z_images.len() && bit_is_zero(combination(x_parts(t), d, t.z_images.len())) implies #[trigger]
        relative_phase_value(t, bit_zeros(n), d) == 0 by {
        crate::clifford::lemma_identity_z_product(n, bit_zeros(n), d, n as int);
        assert(pauli_identity(n) == (PauliSpec { x: bit_zeros(n), z: bit_zeros(n), phase: 0 }));
        let s = stabilizer_product(t, d);
        assert(s.phase == 0);
        crate::pauli::lemma_dot_zeros_left(bit_zeros(n), s.z);
        lemma_dot_bilinear(s.z, bit_zeros(n), s.z, s.z, n);
    }
}

} // verus!
