//! Clifford unitaries stored by the images of the Pauli generators.
//!
//! A Clifford unitary `C` on `n` qubits is determined, up to a global phase, by the signed images
//! `C X_q C†` and `C Z_q C†` of the generators. Left-multiplying by a gate `G` replaces every
//! image `Q` by `G Q G†`; the image of an arbitrary Pauli is the ordered product of generator
//! images, and the preimage is recovered through the symplectic form.
use vstd::prelude::*;
use crate::gf2::{bit_dot, bit_unit, bit_xor, bit_zeros, unit, zeros};
use crate::pauli::{
    DensePauli, PauliSpec, anti_commutes_with, b2i, conj_by_exp, conj_by_pauli, pauli_identity, pauli_mul,
    pauli_scale, pauli_wf, resize_bits, symplectic,
};

verus! {

/// The elementary Clifford operations.
#[derive(Clone, Copy, Debug, PartialEq, Eq, Structural)]
pub enum UnitaryOp {
    I,
    X,
    Y,
    Z,
    SqrtX,
    SqrtXInv,
    SqrtY,
    SqrtYInv,
    SqrtZ,
    SqrtZInv,
    Hadamard,
    Swap,
    ControlledX,
    ControlledZ,
    PrepareBell,
}

/// The Pauli axis of a diagonal or encoder property.
#[derive(Clone, Copy, Debug, PartialEq, Eq, Structural)]
pub enum XOrZ {
    X,
    Z,
}

/// The number of qubits an operation acts on.
pub open spec fn op_arity(op: UnitaryOp) -> nat {
    match op {
        UnitaryOp::I => 0,
        UnitaryOp::Swap | UnitaryOp::ControlledX | UnitaryOp::ControlledZ | UnitaryOp::PrepareBell => 2,
        _ => 1,
    }
}

/// `support` names distinct qubits below `n`, enough of them for `op`.
pub open spec fn valid_support(op: UnitaryOp, support: Seq<usize>, n: nat) -> bool {
    &&& support.len() >= op_arity(op)
    &&& forall|k: int| 0 <= k < op_arity(op) ==> (#[trigger] support[k]) < n
    &&& op_arity(op) == 2 ==> support[0] != support[1]
}

/// How a one-qubit operation conjugates the local factor `X^a Z^b`: the new bits and the added
/// `i`-phase exponent.
pub open spec fn single_update(op: UnitaryOp, a: bool, b: bool) -> (bool, bool, int) {
    match op {
        UnitaryOp::X => (a, b, 2 * b2i(b)),
        UnitaryOp::Z => (a, b, 2 * b2i(a)),
        UnitaryOp::Y => (a, b, 2 * b2i(a) + 2 * b2i(b)),
        UnitaryOp::Hadamard => (b, a, 2 * b2i(a && b)),
        UnitaryOp::SqrtZ => (a, a != b, b2i(a)),
        UnitaryOp::SqrtZInv => (a, a != b, 3 * b2i(a)),
        UnitaryOp::SqrtX => (a != b, b, 3 * b2i(b)),
        UnitaryOp::SqrtXInv => (a != b, b, b2i(b)),
        UnitaryOp::SqrtY => (b, a, 2 * b2i(a) + 2 * b2i(a && b)),
        UnitaryOp::SqrtYInv => (b, a, 2 * b2i(b) + 2 * b2i(a && b)),
        _ => (a, b, 0),
    }
}

/// `G p G†` for a one-qubit operation `G` on qubit `q`.
pub open spec fn conj_single(op: UnitaryOp, q: int, p: PauliSpec) -> PauliSpec {
    let u = single_update(op, p.x[q], p.z[q]);
    PauliSpec { x: p.x.update(q, u.0), z: p.z.update(q, u.1), phase: (p.phase + u.2) % 4 }
}

/// Conjugation by a controlled-`X` with control `c` and target `t`.
pub open spec fn conj_cx(c: int, t: int, p: PauliSpec) -> PauliSpec {
    PauliSpec { x: p.x.update(t, p.x[t] != p.x[c]), z: p.z.update(c, p.z[c] != p.z[t]), phase: p.phase }
}

/// Conjugation by a controlled-`Z` on qubits `a`, `b`.
pub open spec fn conj_cz(a: int, b: int, p: PauliSpec) -> PauliSpec {
    PauliSpec {
        x: p.x,
        z: p.z.update(a, p.z[a] != p.x[b]).update(b, p.z[b] != p.x[a]),
        phase: (p.phase + 2 * b2i(p.x[a] && p.x[b])) % 4,
    }
}

/// Conjugation by the swap of qubits `a`, `b`.
pub open spec fn conj_swap(a: int, b: int, p: PauliSpec) -> PauliSpec {
    PauliSpec {
        x: p.x.update(a, p.x[b]).update(b, p.x[a]),
        z: p.z.update(a, p.z[b]).update(b, p.z[a]),
        phase: p.phase,
    }
}

/// `G p G†` for the operation `op` on `support`.
pub open spec fn conj_op(op: UnitaryOp, support: Seq<usize>, p: PauliSpec) -> PauliSpec {
    match op {
        UnitaryOp::I => p,
        UnitaryOp::Swap => conj_swap(support[0] as int, support[1] as int, p),
        UnitaryOp::ControlledX => conj_cx(support[0] as int, support[1] as int, p),
        UnitaryOp::ControlledZ => conj_cz(support[0] as int, support[1] as int, p),
        UnitaryOp::PrepareBell => conj_cx(
            support[0] as int,
            support[1] as int,
            conj_single(UnitaryOp::Hadamard, support[0] as int, p),
        ),
        _ => conj_single(op, support[0] as int, p),
    }
}

/// Relabels the bits of `bits`: position `support[i]` receives the bit previously at
/// `support[permutation[i]]`; positions outside `support` keep their bit.
pub open spec fn permute_bits(permutation: Seq<usize>, support: Seq<usize>, bits: Seq<bool>) -> Seq<bool> {
    Seq::new(
        bits.len(),
        |q: int|
            if exists|i: int| 0 <= i < support.len() && support[i] == q {
                bits[support[permutation[choose|i: int| 0 <= i < support.len() && support[i] == q] as int] as int]
            } else {
                bits[q]
            },
    )
}

/// Conjugation by the qubit permutation under which qubit `support[i]` takes the role previously
/// played by `support[permutation[i]]`.
pub open spec fn conj_permutation(permutation: Seq<usize>, support: Seq<usize>, p: PauliSpec) -> PauliSpec {
    PauliSpec { x: permute_bits(permutation, support, p.x), z: permute_bits(permutation, support, p.z), phase: p.phase }
}

/// `permutation` is a permutation of `0..support.len()` and `support` lists distinct qubits below `n`.
pub open spec fn valid_permutation(permutation: Seq<usize>, support: Seq<usize>, n: nat) -> bool {
    &&& permutation.len() == support.len()
    &&& forall|i: int| 0 <= i < support.len() ==> (#[trigger] support[i]) < n
    &&& forall|i: int| 0 <= i < permutation.len() ==> (#[trigger] permutation[i]) < support.len()
    &&& forall|i: int, j: int| 0 <= i < j < support.len() ==> support[i] != support[j]
    &&& forall|i: int, j: int| 0 <= i < j < permutation.len() ==> permutation[i] != permutation[j]
}

/// `start · Π_{q<k, mask_q} factors_q`, multiplied in increasing order of `q`.
pub open spec fn product_prefix(start: PauliSpec, factors: Seq<PauliSpec>, mask: Seq<bool>, k: int) -> PauliSpec
    decreases k,
{
    if k <= 0 {
        start
    } else if mask[k - 1] {
        pauli_mul(product_prefix(start, factors, mask, k - 1), factors[k - 1])
    } else {
        product_prefix(start, factors, mask, k - 1)
    }
}

/// The signed generator images of a Clifford unitary: `x_images[q] = C X_q C†`,
/// `z_images[q] = C Z_q C†`.
pub struct CliffordSpec {
    pub x_images: Seq<PauliSpec>,
    pub z_images: Seq<PauliSpec>,
}

/// The images form a tableau on `n` qubits.
pub open spec fn tableau_wf(t: CliffordSpec, n: nat) -> bool {
    &&& t.x_images.len() == n
    &&& t.z_images.len() == n
    &&& forall|q: int| 0 <= q < n ==> pauli_wf(#[trigger] t.x_images[q], n)
    &&& forall|q: int| 0 <= q < n ==> pauli_wf(#[trigger] t.z_images[q], n)
}

/// The generator `X_q` on `n` qubits.
pub open spec fn pauli_x_spec(q: int, n: nat) -> PauliSpec {
    PauliSpec { x: bit_unit(n, q), z: bit_zeros(n), phase: 0 }
}

/// The generator `Z_q` on `n` qubits.
pub open spec fn pauli_z_spec(q: int, n: nat) -> PauliSpec {
    PauliSpec { x: bit_zeros(n), z: bit_unit(n, q), phase: 0 }
}

/// The tableau of the identity on `n` qubits.
pub open spec fn identity_tableau(n: nat) -> CliffordSpec {
    CliffordSpec {
        x_images: Seq::new(n, |q: int| pauli_x_spec(q, n)),
        z_images: Seq::new(n, |q: int| pauli_z_spec(q, n)),
    }
}

/// Applies `f` to every generator image: the tableau of `G · C` when `f` is conjugation by `G`.
pub open spec fn tableau_map(t: CliffordSpec, f: spec_fn(PauliSpec) -> PauliSpec) -> CliffordSpec {
    CliffordSpec { x_images: t.x_images.map_values(f), z_images: t.z_images.map_values(f) }
}

/// `C p C† = i^e · Π_q (C X_q C†)^{x_q} · Π_q (C Z_q C†)^{z_q}` for `p = i^e X^x Z^z`.
pub open spec fn image_spec(t: CliffordSpec, p: PauliSpec) -> PauliSpec {
    let n = t.x_images.len();
    let x_part = product_prefix(pauli_identity(n), t.x_images, p.x, n as int);
    pauli_scale(product_prefix(x_part, t.z_images, p.z, n as int), p.phase)
}

/// The preimage `C† p C` as recovered through the symplectic form: its `X` bits are
/// `⟨p, C Z_q C†⟩`, its `Z` bits are `⟨p, C X_q C†⟩`, and its phase makes the image of the result
/// carry the phase of `p`.
pub open spec fn preimage_spec(t: CliffordSpec, p: PauliSpec) -> PauliSpec {
    let n = t.x_images.len();
    let bits = PauliSpec {
        x: Seq::new(n, |q: int| symplectic(p, t.z_images[q])),
        z: Seq::new(n, |q: int| symplectic(p, t.x_images[q])),
        phase: 0,
    };
    PauliSpec { x: bits.x, z: bits.z, phase: (p.phase - image_spec(t, bits).phase) % 4 }
}

/// `p` placed on qubits `offset..offset + len` of `n` qubits, the identity elsewhere.
pub open spec fn embed_pauli(p: PauliSpec, offset: nat, n: nat) -> PauliSpec {
    PauliSpec {
        x: Seq::new(n, |i: int| offset <= i < offset + p.x.len() && p.x[i - offset]),
        z: Seq::new(n, |i: int| offset <= i < offset + p.x.len() && p.z[i - offset]),
        phase: p.phase,
    }
}

/// The tableau of `A ⊗ B`: `A` on the first qubits, `B` on the following ones.
pub open spec fn tensor_spec(a: CliffordSpec, b: CliffordSpec) -> CliffordSpec {
    let n1 = a.x_images.len();
    let n = n1 + b.x_images.len();
    CliffordSpec {
        x_images: Seq::new(
            n,
            |q: int|
                if q < n1 {
                    embed_pauli(a.x_images[q], 0, n)
                } else {
                    embed_pauli(b.x_images[q - n1], n1, n)
                },
        ),
        z_images: Seq::new(
            n,
            |q: int|
                if q < n1 {
                    embed_pauli(a.z_images[q], 0, n)
                } else {
                    embed_pauli(b.z_images[q - n1], n1, n)
                },
        ),
    }
}

/// The tableau after growing or shrinking to `n` qubits: surviving images are truncated or padded
/// with identity factors, new qubits get the identity images `X_q`, `Z_q`.
pub open spec fn resize_tableau(t: CliffordSpec, n: nat) -> CliffordSpec {
    CliffordSpec {
        x_images: Seq::new(
            n,
            |q: int|
                if q < t.x_images.len() {
                    PauliSpec {
                        x: resize_bits(t.x_images[q].x, n),
                        z: resize_bits(t.x_images[q].z, n),
                        phase: t.x_images[q].phase,
                    }
                } else {
                    pauli_x_spec(q, n)
                },
        ),
        z_images: Seq::new(
            n,
            |q: int|
                if q < t.z_images.len() {
                    PauliSpec {
                        x: resize_bits(t.z_images[q].x, n),
                        z: resize_bits(t.z_images[q].z, n),
                        phase: t.z_images[q].phase,
                    }
                } else {
                    pauli_z_spec(q, n)
                },
        ),
    }
}

fn resized_pauli(p: &DensePauli, n: usize) -> (r: DensePauli)
    requires
        p.wf(),
    ensures
        r.wf(),
        r@ == (PauliSpec { x: resize_bits(p@.x, n as nat), z: resize_bits(p@.z, n as nat), phase: p@.phase }),
{
    p.resized(n)
}

/// A Clifford unitary on `n` qubits, stored by its signed generator images.
pub struct CliffordUnitary {
    x_images: Vec<DensePauli>,
    z_images: Vec<DensePauli>,
}

impl View for CliffordUnitary {
    type V = CliffordSpec;

    closed spec fn view(&self) -> CliffordSpec {
        CliffordSpec {
            x_images: self.x_images@.map_values(|p: DensePauli| p@),
            z_images: self.z_images@.map_values(|p: DensePauli| p@),
        }
    }
}

/// Conjugates one Pauli by `op` on `support`.
pub fn conjugate_by_op(p: &mut DensePauli, op: UnitaryOp, support: &[usize])
    requires
        old(p).wf(),
        valid_support(op, support@, old(p)@.x.len()),
    ensures
        final(p).wf(),
        final(p)@ == conj_op(op, support@, old(p)@),
{
    match op {
        UnitaryOp::I => {},
        UnitaryOp::Swap => {
            let (a, b) = (support[0], support[1]);
            let (xa, xb, za, zb) = (p.x_bits[a], p.x_bits[b], p.z_bits[a], p.z_bits[b]);
            p.x_bits.set(a, xb);
            p.x_bits.set(b, xa);
            p.z_bits.set(a, zb);
            p.z_bits.set(b, za);
        },
        UnitaryOp::ControlledX => {
            let (c, t) = (support[0], support[1]);
            let xt = p.x_bits[t] != p.x_bits[c];
            let zc = p.z_bits[c] != p.z_bits[t];
            p.x_bits.set(t, xt);
            p.z_bits.set(c, zc);
        },
        UnitaryOp::ControlledZ => {
            let (a, b) = (support[0], support[1]);
            let (xa, xb) = (p.x_bits[a], p.x_bits[b]);
            let za = p.z_bits[a] != xb;
            p.z_bits.set(a, za);
            let zb = p.z_bits[b] != xa;
            p.z_bits.set(b, zb);
            if xa && xb {
                p.phase = (p.phase + 2) % 4;
            }
        },
        UnitaryOp::PrepareBell => {
            conjugate_single(p, UnitaryOp::Hadamard, support[0]);
            let (c, t) = (support[0], support[1]);
            let xt = p.x_bits[t] != p.x_bits[c];
            let zc = p.z_bits[c] != p.z_bits[t];
            p.x_bits.set(t, xt);
            p.z_bits.set(c, zc);
        },
        _ => {
            conjugate_single(p, op, support[0]);
        },
    }
    proof {
        assert(p@.x =~= conj_op(op, support@, old(p)@).x);
        assert(p@.z =~= conj_op(op, support@, old(p)@).z);
    }
}

/// Conjugates one Pauli by a one-qubit operation on qubit `q`.
fn conjugate_single(p: &mut DensePauli, op: UnitaryOp, q: usize)
    requires
        old(p).wf(),
        q < old(p)@.x.len(),
    ensures
        final(p).wf(),
        final(p)@ == conj_single(op, q as int, old(p)@),
{
    let a = p.x_bits[q];
    let b = p.z_bits[q];
    let (a2, b2, d): (bool, bool, u8) = match op {
        UnitaryOp::X => (a, b, if b { 2 } else { 0 }),
        UnitaryOp::Z => (a, b, if a { 2 } else { 0 }),
        UnitaryOp::Y => (a, b, (if a { 2 } else { 0 }) + (if b { 2 } else { 0 })),
        UnitaryOp::Hadamard => (b, a, if a && b { 2 } else { 0 }),
        UnitaryOp::SqrtZ => (a, a != b, if a { 1 } else { 0 }),
        UnitaryOp::SqrtZInv => (a, a != b, if a { 3 } else { 0 }),
        UnitaryOp::SqrtX => (a != b, b, if b { 3 } else { 0 }),
        UnitaryOp::SqrtXInv => (a != b, b, if b { 1 } else { 0 }),
        UnitaryOp::SqrtY => (b, a, (if a { 2 } else { 0 }) + (if a && b { 2 } else { 0 })),
        UnitaryOp::SqrtYInv => (b, a, (if b { 2 } else { 0 }) + (if a && b { 2 } else { 0 })),
        _ => (a, b, 0),
    };
    p.x_bits.set(q, a2);
    p.z_bits.set(q, b2);
    p.phase = (p.phase + d) % 4;
}

/// Conjugates one Pauli by a qubit permutation (see [`conj_permutation`]).
pub(crate) fn conjugate_by_permutation(p: &mut DensePauli, permutation: &[usize], support: &[usize])
    requires
        old(p).wf(),
        valid_permutation(permutation@, support@, old(p)@.x.len()),
    ensures
        final(p).wf(),
        final(p)@ == conj_permutation(permutation@, support@, old(p)@),
{
    let old_x = p.x_bits.clone();
    let old_z = p.z_bits.clone();
    let k = support.len();
    let mut i: usize = 0;
    while i < k
        invariant
            k == support@.len(),
            valid_permutation(permutation@, support@, old(p)@.x.len()),
            old_x@ == old(p)@.x,
            old_z@ == old(p)@.z,
            old(p).wf(),
            p.wf(),
            p.phase == old(p).phase,
            p@.x.len() == old(p)@.x.len(),
            i <= k,
            forall|j: int| 0 <= j < i ==> p@.x[support@[j] as int] == old_x@[support@[permutation@[j] as int] as int],
            forall|j: int| 0 <= j < i ==> p@.z[support@[j] as int] == old_z@[support@[permutation@[j] as int] as int],
            forall|q: int|
                0 <= q < p@.x.len() && !(exists|j: int| 0 <= j < i && support@[j] == q) ==> p@.x[q] == old_x@[q]
                    && p@.z[q] == old_z@[q],
        decreases k - i,
    {
        let target = support[i];
        let source = support[permutation[i]];
        let ghost prev_z = p@.z;
        p.x_bits.set(target, old_x[source]);
        p.z_bits.set(target, old_z[source]);
        proof {
            assert(p@.z[target as int] == old_z@[source as int]);
            assert(p@.x[target as int] == old_x@[source as int]);
            assert forall|q: int|
                0 <= q < p@.x.len() && !(exists|j: int| 0 <= j < i + 1 && support@[j] == q) implies p@.x[q]
                == old_x@[q] && p@.z[q] == old_z@[q] by {
                assert(support@[i as int] != q);
            }
            assert forall|j: int| 0 <= j < i + 1 implies p@.x[support@[j] as int] == old_x@[support@[permutation@[j] as int] as int] by {
                if j < i {
                    assert(support@[j] != support@[i as int]);
                }
            }
            assert forall|j: int| 0 <= j < i + 1 implies p@.z[support@[j] as int] == old_z@[support@[permutation@[j] as int] as int] by {
                if j < i {
                    assert(support@[j] != support@[i as int]);
                    assert(p@.z[support@[j] as int] == prev_z[support@[j] as int]);
                }
            }
        }
        i = i + 1;
    }
    proof {
        let target = conj_permutation(permutation@, support@, old(p)@);
        assert forall|q: int| 0 <= q < p@.x.len() implies p@.x[q] == target.x[q] && p@.z[q] == target.z[q] by {
            if exists|j: int| 0 <= j < support@.len() && support@[j] == q {
                let j = choose|j: int| 0 <= j < support@.len() && support@[j] == q;
                assert(p@.x[support@[j] as int] == old_x@[support@[permutation@[j] as int] as int]);
            }
        }
        assert(p@.x =~= target.x);
        assert(p@.z =~= target.z);
    }
}

impl CliffordUnitary {
    /// The tableau is a well-formed tableau on `num_qubits()` qubits.
    pub open spec fn wf(&self) -> bool {
        tableau_wf(self@, self@.x_images.len())
    }

    /// The number of qubits.
    pub open spec fn n(&self) -> nat {
        self@.x_images.len()
    }

    spec fn images_ok(&self) -> bool {
        &&& self.x_images@.len() == self.n()
        &&& self.z_images@.len() == self.n()
        &&& forall|k: int|
            0 <= k < self.n() ==> (#[trigger] self.x_images@[k]).wf() && self.x_images@[k]@ == self@.x_images[k]
                && self.x_images@[k]@.x.len() == self.n()
        &&& forall|k: int|
            0 <= k < self.n() ==> (#[trigger] self.z_images@[k]).wf() && self.z_images@[k]@ == self@.z_images[k]
                && self.z_images@[k]@.x.len() == self.n()
    }

    proof fn lemma_unfold(&self)
        requires
            self.wf(),
        ensures
            self.images_ok(),
            self.x_images@.len() == self.n(),
            self.z_images@.len() == self.n(),
            forall|k: int|
                0 <= k < self.n() ==> (#[trigger] self.x_images@[k]).wf() && self.x_images@[k]@ == self@.x_images[k]
                    && self.x_images@[k]@.x.len() == self.n(),
            forall|k: int|
                0 <= k < self.n() ==> (#[trigger] self.z_images@[k]).wf() && self.z_images@[k]@ == self@.z_images[k]
                    && self.z_images@[k]@.x.len() == self.n(),
    {
        assert forall|k: int| 0 <= k < self.n() implies (#[trigger] self.x_images@[k]).wf() by {
            assert(pauli_wf(self@.x_images[k], self.n()));
        }
        assert forall|k: int| 0 <= k < self.n() implies (#[trigger] self.z_images@[k]).wf() by {
            assert(pauli_wf(self@.z_images[k], self.n()));
        }
    }

    proof fn lemma_view_wf(&self)
        requires
            forall|q: int| 0 <= q < self.x_images@.len() ==> (#[trigger] self.x_images@[q]).wf(),
            forall|q: int| 0 <= q < self.z_images@.len() ==> (#[trigger] self.z_images@[q]).wf(),
            forall|q: int| 0 <= q < self.x_images@.len() ==> (#[trigger] self.x_images@[q])@.x.len() == self.x_images@.len(),
            forall|q: int| 0 <= q < self.z_images@.len() ==> (#[trigger] self.z_images@[q])@.x.len() == self.x_images@.len(),
            self.x_images@.len() == self.z_images@.len(),
        ensures
            self.wf(),
    {
    }

    /// The identity on `num_qubits` qubits.
    pub fn identity(num_qubits: usize) -> (c: CliffordUnitary)
        ensures
            c.wf(),
            c@ == identity_tableau(num_qubits as nat),
    {
        let mut x_images: Vec<DensePauli> = Vec::new();
        let mut z_images: Vec<DensePauli> = Vec::new();
        let mut q: usize = 0;
        while q < num_qubits
            invariant
                q <= num_qubits,
                x_images@.len() == q,
                z_images@.len() == q,
                forall|k: int| 0 <= k < q ==> (#[trigger] x_images@[k]).wf() && x_images@[k]@ == pauli_x_spec(k, num_qubits as nat),
                forall|k: int| 0 <= k < q ==> (#[trigger] z_images@[k]).wf() && z_images@[k]@ == pauli_z_spec(k, num_qubits as nat),
            decreases num_qubits - q,
        {
            x_images.push(DensePauli::x(q, num_qubits));
            z_images.push(DensePauli::z(q, num_qubits));
            q = q + 1;
        }
        let c = CliffordUnitary { x_images, z_images };
        proof {
            assert(c@.x_images =~= identity_tableau(num_qubits as nat).x_images);
            assert(c@.z_images =~= identity_tableau(num_qubits as nat).z_images);
            c.lemma_view_wf();
        }
        c
    }

    /// The number of qubits the unitary acts on.
    pub fn num_qubits(&self) -> (r: usize)
        ensures
            r == self.n(),
    {
        self.x_images.len()
    }

    /// The image `C X_qubit C†`.
    pub fn image_x(&self, qubit: usize) -> (p: DensePauli)
        requires
            self.wf(),
            qubit < self.n(),
        ensures
            p.wf(),
            p@ == self@.x_images[qubit as int],
    {
        proof {
            self.lemma_unfold();
        }
        self.x_images[qubit].duplicate()
    }

    /// The image `C Z_qubit C†`.
    pub fn image_z(&self, qubit: usize) -> (p: DensePauli)
        requires
            self.wf(),
            qubit < self.n(),
        ensures
            p.wf(),
            p@ == self@.z_images[qubit as int],
    {
        proof {
            self.lemma_unfold();
        }
        self.z_images[qubit].duplicate()
    }

    /// Replaces every generator image `Q` by `G Q G†` for `G = op` on `support`.
    pub fn left_mul(&mut self, op: UnitaryOp, support: &[usize])
        requires
            old(self).wf(),
            valid_support(op, support@, old(self).n()),
        ensures
            final(self).wf(),
            final(self)@ == tableau_map(old(self)@, |p: PauliSpec| conj_op(op, support@, p)),
            crate::decomposition::is_clifford_tableau(old(self)@, old(self).n()) ==> crate::decomposition::is_clifford_tableau(final(self)@, final(self).n()),
    {
        proof {
            self.lemma_unfold();
        }
        let n = self.x_images.len();
        let mut q: usize = 0;
        while q < n
            invariant
                n == self.x_images@.len(),
                n == self.z_images@.len(),
                n == old(self).n(),
                old(self).wf(),
                valid_support(op, support@, n as nat),
                q <= n,
                forall|k: int| 0 <= k < n ==> (#[trigger] self.x_images@[k]).wf() && self.x_images@[k]@.x.len() == n,
                forall|k: int| 0 <= k < n ==> (#[trigger] self.z_images@[k]).wf() && self.z_images@[k]@.x.len() == n,
                forall|k: int| 0 <= k < q ==> (#[trigger] self.x_images@[k])@ == conj_op(op, support@, old(self)@.x_images[k]),
                forall|k: int| 0 <= k < q ==> (#[trigger] self.z_images@[k])@ == conj_op(op, support@, old(self)@.z_images[k]),
                forall|k: int| q <= k < n ==> (#[trigger] self.x_images@[k])@ == old(self)@.x_images[k],
                forall|k: int| q <= k < n ==> (#[trigger] self.z_images@[k])@ == old(self)@.z_images[k],
            decreases n - q,
        {
            let mut xp = self.x_images[q].duplicate();
            conjugate_by_op(&mut xp, op, support);
            self.x_images.set(q, xp);
            let mut zp = self.z_images[q].duplicate();
            conjugate_by_op(&mut zp, op, support);
            self.z_images.set(q, zp);
            q = q + 1;
        }
        proof {
            let target = tableau_map(old(self)@, |p: PauliSpec| conj_op(op, support@, p));
            assert(self@.x_images =~= target.x_images);
            assert(self@.z_images =~= target.z_images);
            self.lemma_view_wf();
            if crate::decomposition::is_clifford_tableau(old(self)@, old(self).n()) {
                crate::validity::lemma_gate_keeps_clifford(old(self)@, op, support@, old(self).n());
            }
        }
    }

    /// Left-multiplies by a qubit permutation: qubit `support[i]` takes the role previously played
    /// by `support[permutation[i]]`.
    pub fn left_mul_permutation(&mut self, permutation: &[usize], support: &[usize])
        requires
            old(self).wf(),
            valid_permutation(permutation@, support@, old(self).n()),
        ensures
            final(self).wf(),
            final(self)@ == tableau_map(old(self)@, |p: PauliSpec| conj_permutation(permutation@, support@, p)),
            crate::decomposition::is_clifford_tableau(old(self)@, old(self).n()) ==> crate::decomposition::is_clifford_tableau(final(self)@, final(self).n()),
    {
        proof {
            self.lemma_unfold();
        }
        let n = self.x_images.len();
        let mut q: usize = 0;
        while q < n
            invariant
                n == self.x_images@.len(),
                n == self.z_images@.len(),
                n == old(self).n(),
                old(self).wf(),
                valid_permutation(permutation@, support@, n as nat),
                q <= n,
                forall|k: int| 0 <= k < n ==> (#[trigger] self.x_images@[k]).wf() && self.x_images@[k]@.x.len() == n,
                forall|k: int| 0 <= k < n ==> (#[trigger] self.z_images@[k]).wf() && self.z_images@[k]@.x.len() == n,
                forall|k: int|
                    0 <= k < q ==> (#[trigger] self.x_images@[k])@ == conj_permutation(permutation@, support@, old(self)@.x_images[k]),
                forall|k: int|
                    0 <= k < q ==> (#[trigger] self.z_images@[k])@ == conj_permutation(permutation@, support@, old(self)@.z_images[k]),
                forall|k: int| q <= k < n ==> (#[trigger] self.x_images@[k])@ == old(self)@.x_images[k],
                forall|k: int| q <= k < n ==> (#[trigger] self.z_images@[k])@ == old(self)@.z_images[k],
            decreases n - q,
        {
            let mut xp = self.x_images[q].duplicate();
            conjugate_by_permutation(&mut xp, permutation, support);
            self.x_images.set(q, xp);
            let mut zp = self.z_images[q].duplicate();
            conjugate_by_permutation(&mut zp, permutation, support);
            self.z_images.set(q, zp);
            q = q + 1;
        }
        proof {
            let target = tableau_map(old(self)@, |p: PauliSpec| conj_permutation(permutation@, support@, p));
            assert(self@.x_images =~= target.x_images);
            assert(self@.z_images =~= target.z_images);
            self.lemma_view_wf();
            if crate::decomposition::is_clifford_tableau(old(self)@, old(self).n()) {
                crate::validity::lemma_permutation_keeps_clifford(old(self)@, permutation@, support@, old(self).n());
            }
        }
    }

    /// Left-multiplies by the Pauli `pauli` itself: images anticommuting with it change sign.
    pub fn left_mul_pauli(&mut self, pauli: &DensePauli)
        requires
            old(self).wf(),
            pauli.wf(),
            pauli@.x.len() == old(self).n(),
        ensures
            final(self).wf(),
            final(self)@ == tableau_map(old(self)@, |q: PauliSpec| conj_by_pauli(pauli@, q)),
            crate::decomposition::is_clifford_tableau(old(self)@, old(self).n()) ==> crate::decomposition::is_clifford_tableau(final(self)@, final(self).n()),
    {
        proof {
            self.lemma_unfold();
        }
        let n = self.x_images.len();
        let mut q: usize = 0;
        while q < n
            invariant
                n == self.x_images@.len(),
                n == self.z_images@.len(),
                n == old(self).n(),
                old(self).wf(),
                pauli.wf(),
                pauli@.x.len() == n,
                q <= n,
                forall|k: int| 0 <= k < n ==> (#[trigger] self.x_images@[k]).wf() && self.x_images@[k]@.x.len() == n,
                forall|k: int| 0 <= k < n ==> (#[trigger] self.z_images@[k]).wf() && self.z_images@[k]@.x.len() == n,
                forall|k: int| 0 <= k < q ==> (#[trigger] self.x_images@[k])@ == conj_by_pauli(pauli@, old(self)@.x_images[k]),
                forall|k: int| 0 <= k < q ==> (#[trigger] self.z_images@[k])@ == conj_by_pauli(pauli@, old(self)@.z_images[k]),
                forall|k: int| q <= k < n ==> (#[trigger] self.x_images@[k])@ == old(self)@.x_images[k],
                forall|k: int| q <= k < n ==> (#[trigger] self.z_images@[k])@ == old(self)@.z_images[k],
            decreases n - q,
        {
            let mut xp = self.x_images[q].duplicate();
            if anti_commutes_with(pauli, &xp) {
                xp.add_assign_phase_exp(2);
            }
            self.x_images.set(q, xp);
            let mut zp = self.z_images[q].duplicate();
            if anti_commutes_with(pauli, &zp) {
                zp.add_assign_phase_exp(2);
            }
            self.z_images.set(q, zp);
            q = q + 1;
        }
        proof {
            let target = tableau_map(old(self)@, |q: PauliSpec| conj_by_pauli(pauli@, q));
            assert(self@.x_images =~= target.x_images);
            assert(self@.z_images =~= target.z_images);
            self.lemma_view_wf();
            if crate::decomposition::is_clifford_tableau(old(self)@, old(self).n()) {
                crate::validity::lemma_pauli_keeps_clifford(old(self)@, pauli@, old(self).n());
            }
        }
    }

    /// Left-multiplies by `exp(iπ/4 · pauli)`: images anticommuting with `pauli` become
    /// `i · pauli · image`.
    pub fn left_mul_pauli_exp(&mut self, pauli: &DensePauli)
        requires
            old(self).wf(),
            pauli.wf(),
            pauli@.x.len() == old(self).n(),
        ensures
            final(self).wf(),
            final(self)@ == tableau_map(old(self)@, |q: PauliSpec| conj_by_exp(pauli@, q)),
            crate::decomposition::is_clifford_tableau(old(self)@, old(self).n()) && crate::pauli::is_order_two_spec(pauli@) ==> crate::decomposition::is_clifford_tableau(final(self)@, final(self).n()),
    {
        proof {
            self.lemma_unfold();
        }
        let n = self.x_images.len();
        let mut q: usize = 0;
        while q < n
            invariant
                n == self.x_images@.len(),
                n == self.z_images@.len(),
                n == old(self).n(),
                old(self).wf(),
                pauli.wf(),
                pauli@.x.len() == n,
                q <= n,
                forall|k: int| 0 <= k < n ==> (#[trigger] self.x_images@[k]).wf() && self.x_images@[k]@.x.len() == n,
                forall|k: int| 0 <= k < n ==> (#[trigger] self.z_images@[k]).wf() && self.z_images@[k]@.x.len() == n,
                forall|k: int| 0 <= k < q ==> (#[trigger] self.x_images@[k])@ == conj_by_exp(pauli@, old(self)@.x_images[k]),
                forall|k: int| 0 <= k < q ==> (#[trigger] self.z_images@[k])@ == conj_by_exp(pauli@, old(self)@.z_images[k]),
                forall|k: int| q <= k < n ==> (#[trigger] self.x_images@[k])@ == old(self)@.x_images[k],
                forall|k: int| q <= k < n ==> (#[trigger] self.z_images@[k])@ == old(self)@.z_images[k],
            decreases n - q,
        {
            let xp = conjugated_by_exp(pauli, &self.x_images[q]);
            self.x_images.set(q, xp);
            let zp = conjugated_by_exp(pauli, &self.z_images[q]);
            self.z_images.set(q, zp);
            q = q + 1;
        }
        proof {
            let target = tableau_map(old(self)@, |q: PauliSpec| conj_by_exp(pauli@, q));
            assert(self@.x_images =~= target.x_images);
            assert(self@.z_images =~= target.z_images);
            self.lemma_view_wf();
            if crate::decomposition::is_clifford_tableau(old(self)@, old(self).n()) && crate::pauli::is_order_two_spec(pauli@) {
                crate::validity::lemma_exp_keeps_clifford(old(self)@, pauli@, old(self).n());
            }
        }
    }

    /// The image `C pauli C†` of an arbitrary Pauli.
    pub fn image(&self, pauli: &DensePauli) -> (r: DensePauli)
        requires
            self.wf(),
            pauli.wf(),
            pauli@.x.len() == self.n(),
        ensures
            r.wf(),
            r@ == image_spec(self@, pauli@),
            r@.x.len() == self.n(),
    {
        proof {
            self.lemma_unfold();
        }
        let n = self.x_images.len();
        let mut acc = DensePauli::identity(n);
        let mut q: usize = 0;
        while q < n
            invariant
                self.wf(),
                self.images_ok(),
                pauli.wf(),
                n == self.n(),
                pauli@.x.len() == n,
                q <= n,
                acc.wf(),
                acc@.x.len() == n,
                acc@ == product_prefix(pauli_identity(n as nat), self@.x_images, pauli@.x, q as int),
            decreases n - q,
        {
            if pauli.x_bits[q] {
                acc.mul_assign_right(&self.x_images[q]);
            }
            q = q + 1;
        }
        let ghost x_part = acc@;
        let mut q: usize = 0;
        while q < n
            invariant
                self.wf(),
                self.images_ok(),
                pauli.wf(),
                n == self.n(),
                pauli@.x.len() == n,
                q <= n,
                acc.wf(),
                acc@.x.len() == n,
                acc@ == product_prefix(x_part, self@.z_images, pauli@.z, q as int),
            decreases n - q,
        {
            if pauli.z_bits[q] {
                acc.mul_assign_right(&self.z_images[q]);
            }
            q = q + 1;
        }
        acc.add_assign_phase_exp(pauli.phase);
        acc
    }

    /// The preimage `C† pauli C`, recovered through the symplectic form (see [`preimage_spec`]).
    pub fn preimage(&self, pauli: &DensePauli) -> (r: DensePauli)
        requires
            self.wf(),
            pauli.wf(),
            pauli@.x.len() == self.n(),
        ensures
            r.wf(),
            r@ == preimage_spec(self@, pauli@),
            r@.x.len() == self.n(),
            image_spec(self@, r@).x == pauli@.x && image_spec(self@, r@).z == pauli@.z ==> image_spec(self@, r@)
                == pauli@,
    {
        proof {
            self.lemma_unfold();
        }
        let n = self.x_images.len();
        let mut x_bits: Vec<bool> = Vec::new();
        let mut z_bits: Vec<bool> = Vec::new();
        let mut q: usize = 0;
        while q < n
            invariant
                self.wf(),
                self.images_ok(),
                pauli.wf(),
                n == self.n(),
                pauli@.x.len() == n,
                q <= n,
                x_bits@.len() == q,
                z_bits@.len() == q,
                forall|k: int| 0 <= k < q ==> x_bits@[k] == symplectic(pauli@, self@.z_images[k]),
                forall|k: int| 0 <= k < q ==> z_bits@[k] == symplectic(pauli@, self@.x_images[k]),
            decreases n - q,
        {
            x_bits.push(anti_commutes_with(pauli, &self.z_images[q]));
            z_bits.push(anti_commutes_with(pauli, &self.x_images[q]));
            q = q + 1;
        }
        let bits = DensePauli::from_bits(x_bits, z_bits, 0);
        let unsigned_image = self.image(&bits);
        let phase = ((pauli.phase + 4) - unsigned_image.phase) % 4;
        let r = DensePauli::from_bits(bits.x_bits, bits.z_bits, phase);
        proof {
            let spec_bits = PauliSpec {
                x: Seq::new(n as nat, |k: int| symplectic(pauli@, self@.z_images[k])),
                z: Seq::new(n as nat, |k: int| symplectic(pauli@, self@.x_images[k])),
                phase: 0,
            };
            assert(bits@.x =~= spec_bits.x);
            assert(bits@.z =~= spec_bits.z);
            assert(bits@ == spec_bits);
            lemma_image_phase_shift(self@, spec_bits, phase as int);
        }
        r
    }

    /// `true` iff every generator image equals its generator.
    pub fn is_identity(&self) -> (r: bool)
        requires
            self.wf(),
        ensures
            r == (self@ == identity_tableau(self.n())),
    {
        proof {
            self.lemma_unfold();
        }
        let n = self.x_images.len();
        let id = CliffordUnitary::identity(n);
        proof {
            id.lemma_unfold();
        }
        let mut q: usize = 0;
        while q < n
            invariant
                self.wf(),
                self.images_ok(),
                id.images_ok(),
                id.wf(),
                n == self.n(),
                id@ == identity_tableau(n as nat),
                q <= n,
                forall|k: int| 0 <= k < q ==> self@.x_images[k] == id@.x_images[k] && self@.z_images[k] == id@.z_images[k],
            decreases n - q,
        {
            if !pauli_equal(&self.x_images[q], &id.x_images[q]) || !pauli_equal(&self.z_images[q], &id.z_images[q]) {
                return false;
            }
            q = q + 1;
        }
        proof {
            assert(self@.x_images =~= id@.x_images);
            assert(self@.z_images =~= id@.z_images);
        }
        true
    }

    /// Grows or shrinks to `new_num_qubits`, acting as the identity on added qubits.
    pub fn resize(&mut self, new_num_qubits: usize)
        requires
            old(self).wf(),
        ensures
            final(self).wf(),
            final(self)@ == resize_tableau(old(self)@, new_num_qubits as nat),
            crate::decomposition::is_clifford_tableau(old(self)@, old(self).n()) && new_num_qubits >= old(self).n() ==> crate::decomposition::is_clifford_tableau(final(self)@, final(self).n()),
    {
        proof {
            self.lemma_unfold();
        }
        let n = self.x_images.len();
        let mut x_images: Vec<DensePauli> = Vec::new();
        let mut z_images: Vec<DensePauli> = Vec::new();
        let mut q: usize = 0;
        while q < new_num_qubits
            invariant
                old(self).wf(),
                old(self).images_ok(),
                self == old(self),
                n == old(self).n(),
                q <= new_num_qubits,
                x_images@.len() == q,
                z_images@.len() == q,
                forall|k: int|
                    0 <= k < q ==> (#[trigger] x_images@[k]).wf() && x_images@[k]@ == resize_tableau(
                        old(self)@,
                        new_num_qubits as nat,
                    ).x_images[k] && x_images@[k]@.x.len() == new_num_qubits,
                forall|k: int|
                    0 <= k < q ==> (#[trigger] z_images@[k]).wf() && z_images@[k]@ == resize_tableau(
                        old(self)@,
                        new_num_qubits as nat,
                    ).z_images[k] && z_images@[k]@.x.len() == new_num_qubits,
            decreases new_num_qubits - q,
        {
            if q < n {
                x_images.push(resized_pauli(&self.x_images[q], new_num_qubits));
                z_images.push(resized_pauli(&self.z_images[q], new_num_qubits));
            } else {
                x_images.push(DensePauli::x(q, new_num_qubits));
                z_images.push(DensePauli::z(q, new_num_qubits));
            }
            q = q + 1;
        }
        self.x_images = x_images;
        self.z_images = z_images;
        proof {
            let target = resize_tableau(old(self)@, new_num_qubits as nat);
            assert(self@.x_images =~= target.x_images);
            assert(self@.z_images =~= target.z_images);
            self.lemma_view_wf();
            if crate::decomposition::is_clifford_tableau(old(self)@, old(self).n()) && new_num_qubits >= old(self).n() {
                crate::validity::lemma_resize_keeps_clifford(old(self)@, old(self).n(), new_num_qubits as nat);
            }
        }
    }

    /// The tensor product `self ⊗ other`: `self` on the first qubits, `other` on the following
    /// ones.
    pub fn tensor(&self, other: &CliffordUnitary) -> (r: CliffordUnitary)
        requires
            self.wf(),
            other.wf(),
            self.n() + other.n() <= usize::MAX,
        ensures
            r.wf(),
            r@ == tensor_spec(self@, other@),
            crate::decomposition::is_clifford_tableau(self@, self.n())
                && crate::decomposition::is_clifford_tableau(other@, other.n())
                ==> crate::decomposition::is_clifford_tableau(r@, r.n()),
    {
        proof {
            self.lemma_unfold();
            other.lemma_unfold();
        }
        let n1 = self.x_images.len();
        let n2 = other.x_images.len();
        let n = n1 + n2;
        let mut x_images: Vec<DensePauli> = Vec::new();
        let mut z_images: Vec<DensePauli> = Vec::new();
        let mut q: usize = 0;
        let ghost target = tensor_spec(self@, other@);
        while q < n
            invariant
                self.wf(),
                other.wf(),
                n1 == self.n(),
                n2 == other.n(),
                n == n1 + n2,
                target == tensor_spec(self@, other@),
                q <= n,
                x_images@.len() == q,
                z_images@.len() == q,
                forall|k: int| 0 <= k < q ==> (#[trigger] x_images@[k]).wf() && x_images@[k]@ == target.x_images[k]
                    && x_images@[k]@.x.len() == n,
                forall|k: int| 0 <= k < q ==> (#[trigger] z_images@[k]).wf() && z_images@[k]@ == target.z_images[k]
                    && z_images@[k]@.x.len() == n,
            decreases n - q,
        {
            proof {
                self.lemma_unfold();
                other.lemma_unfold();
            }
            if q < n1 {
                x_images.push(embedded(&self.x_images[q], 0, n));
                z_images.push(embedded(&self.z_images[q], 0, n));
            } else {
                x_images.push(embedded(&other.x_images[q - n1], n1, n));
                z_images.push(embedded(&other.z_images[q - n1], n1, n));
            }
            q = q + 1;
        }
        let r = CliffordUnitary { x_images, z_images };
        proof {
            assert(r@.x_images =~= target.x_images);
            assert(r@.z_images =~= target.z_images);
            r.lemma_view_wf();
            if crate::decomposition::is_clifford_tableau(self@, self.n())
                && crate::decomposition::is_clifford_tableau(other@, other.n()) {
                crate::validity::lemma_tensor_keeps_clifford(self@, other@, n1 as nat, n2 as nat);
            }
        }
        r
    }

    /// A copy of the tableau.
    pub fn duplicate(&self) -> (c: CliffordUnitary)
        requires
            self.wf(),
        ensures
            c.wf(),
            c@ == self@,
    {
        proof {
            self.lemma_unfold();
        }
        let n = self.x_images.len();
        let mut x_images: Vec<DensePauli> = Vec::new();
        let mut z_images: Vec<DensePauli> = Vec::new();
        let mut q: usize = 0;
        while q < n
            invariant
                self.wf(),
                self.images_ok(),
                n == self.n(),
                q <= n,
                x_images@.len() == q,
                z_images@.len() == q,
                forall|k: int| 0 <= k < q ==> (#[trigger] x_images@[k]).wf() && x_images@[k]@ == self@.x_images[k],
                forall|k: int| 0 <= k < q ==> (#[trigger] z_images@[k]).wf() && z_images@[k]@ == self@.z_images[k],
            decreases n - q,
        {
            x_images.push(self.x_images[q].duplicate());
            z_images.push(self.z_images[q].duplicate());
            q = q + 1;
        }
        let c = CliffordUnitary { x_images, z_images };
        proof {
            assert(c@.x_images =~= self@.x_images);
            assert(c@.z_images =~= self@.z_images);
            assert forall|k: int| 0 <= k < n implies (#[trigger] c.x_images@[k])@.x.len() == n by {
                assert(c.x_images@[k]@ == self@.x_images[k]);
            }
            assert forall|k: int| 0 <= k < n implies (#[trigger] c.z_images@[k])@.x.len() == n by {
                assert(c.z_images@[k]@ == self@.z_images[k]);
            }
            c.lemma_view_wf();
        }
        c
    }
}

/// `true` iff the two operators are equal.
pub fn pauli_equal(a: &DensePauli, b: &DensePauli) -> (r: bool)
    ensures
        r == (a@ == b@),
{
    if a.phase != b.phase || a.x_bits.len() != b.x_bits.len() || a.z_bits.len() != b.z_bits.len() {
        proof {
            if a@ == b@ {
                assert(a@.x.len() == b@.x.len());
                assert(a@.z.len() == b@.z.len());
            }
        }
        return false;
    }
    let mut i: usize = 0;
    while i < a.x_bits.len()
        invariant
            a.x_bits@.len() == b.x_bits@.len(),
            i <= a.x_bits@.len(),
            forall|k: int| 0 <= k < i ==> a.x_bits@[k] == b.x_bits@[k],
        decreases a.x_bits@.len() - i,
    {
        if a.x_bits[i] != b.x_bits[i] {
            return false;
        }
        i = i + 1;
    }
    let mut i: usize = 0;
    while i < a.z_bits.len()
        invariant
            a.z_bits@.len() == b.z_bits@.len(),
            i <= a.z_bits@.len(),
            forall|k: int| 0 <= k < i ==> a.z_bits@[k] == b.z_bits@[k],
        decreases a.z_bits@.len() - i,
    {
        if a.z_bits[i] != b.z_bits[i] {
            return false;
        }
        i = i + 1;
    }
    proof {
        assert(a@.x =~= b@.x);
        assert(a@.z =~= b@.z);
    }
    true
}

/// `exp(iπ/4 · p) q exp(−iπ/4 · p)`.
pub fn conjugated_by_exp(p: &DensePauli, q: &DensePauli) -> (r: DensePauli)
    requires
        p.wf(),
        q.wf(),
        p@.x.len() == q@.x.len(),
    ensures
        r.wf(),
        r@ == conj_by_exp(p@, q@),
        r@.x.len() == q@.x.len(),
{
    if anti_commutes_with(p, q) {
        let mut r = p.duplicate();
        r.mul_assign_right(q);
        r.add_assign_phase_exp(1);
        r
    } else {
        q.duplicate()
    }
}

/// Scaling the input of the image by `i^k` scales the image by `i^k`.
proof fn lemma_image_phase_shift(t: CliffordSpec, bits: PauliSpec, k: int)
    requires
        bits.phase == 0,
        0 <= k < 4,
    ensures
        image_spec(t, PauliSpec { x: bits.x, z: bits.z, phase: k }) == pauli_scale(image_spec(t, bits), k),
{
    let n = t.x_images.len();
    let x_part = product_prefix(pauli_identity(n), t.x_images, bits.x, n as int);
    let full = product_prefix(x_part, t.z_images, bits.z, n as int);
    assert(0 <= full.phase < 4) by {
        lemma_product_prefix_phase(pauli_identity(n), t.x_images, bits.x, n as int);
        lemma_product_prefix_phase(x_part, t.z_images, bits.z, n as int);
    }
}

/// Every product is normalised: its phase lies in `0..4`.
pub proof fn lemma_product_prefix_phase(start: PauliSpec, factors: Seq<PauliSpec>, mask: Seq<bool>, k: int)
    requires
        0 <= start.phase < 4,
    ensures
        0 <= product_prefix(start, factors, mask, k).phase < 4,
    decreases k,
{
    if k > 0 {
        lemma_product_prefix_phase(start, factors, mask, k - 1);
    }
}


/// `p` placed on qubits `offset..offset + len` of `n` qubits.
fn embedded(p: &DensePauli, offset: usize, n: usize) -> (r: DensePauli)
    requires
        p.wf(),
        offset + p@.x.len() <= n,
    ensures
        r.wf(),
        r@ == embed_pauli(p@, offset as nat, n as nat),
{
    let len = p.x_bits.len();
    let mut x: Vec<bool> = Vec::new();
    let mut z: Vec<bool> = Vec::new();
    let mut i: usize = 0;
    while i < n
        invariant
            p.wf(),
            len == p@.x.len(),
            offset + len <= n,
            i <= n,
            x@.len() == i,
            z@.len() == i,
            forall|k: int| 0 <= k < i ==> #[trigger] x@[k] == embed_pauli(p@, offset as nat, n as nat).x[k],
            forall|k: int| 0 <= k < i ==> #[trigger] z@[k] == embed_pauli(p@, offset as nat, n as nat).z[k],
        decreases n - i,
    {
        if offset <= i && i < offset + len {
            x.push(p.x_bits[i - offset]);
            z.push(p.z_bits[i - offset]);
        } else {
            x.push(false);
            z.push(false);
        }
        i = i + 1;
    }
    let r = DensePauli { x_bits: x, z_bits: z, phase: p.phase };
    proof {
        assert(r@.x =~= embed_pauli(p@, offset as nat, n as nat).x);
        assert(r@.z =~= embed_pauli(p@, offset as nat, n as nat).z);
    }
    r
}

/// The error of parsing a Clifford unitary from its string form.
#[derive(Clone, Copy, Debug, PartialEq, Eq, Structural, Default)]
pub struct CliffordStringParsingError;

/// A batch of Clifford unitaries modulo Pauli operators, stored by the bit-sliced preimages of
/// the generators: `preimages[k][q]` holds, for generator `q`, the words of bit plane `k`
/// (`X` and `Z` parts of the preimages of `X_q` and `Z_q`) across the batch.
#[derive(Clone, Debug, PartialEq, Eq)]
pub struct CliffordModPauliBatch<const WORD_COUNT: usize, const QUBIT_COUNT: usize> {
    pub preimages: [[[u64; WORD_COUNT]; QUBIT_COUNT]; 4],
}

/// Read access to the preimages of the generators and to their images up to phase.
pub trait PreimageViews {
    /// The signed generator images of the operator.
    spec fn tableau(&self) -> CliffordSpec;

    /// The operator is a well-formed tableau.
    spec fn valid(&self) -> bool;

    /// The preimage `C† X_index C`.
    fn preimage_x_view(&self, index: usize) -> (r: DensePauli)
        requires
            self.valid(),
            index < self.tableau().x_images.len(),
        ensures
            r.wf(),
            r@ == preimage_spec(self.tableau(), pauli_x_spec(index as int, self.tableau().x_images.len())),
    ;

    /// The preimage `C† Z_index C`.
    fn preimage_z_view(&self, index: usize) -> (r: DensePauli)
        requires
            self.valid(),
            index < self.tableau().x_images.len(),
        ensures
            r.wf(),
            r@ == preimage_spec(self.tableau(), pauli_z_spec(index as int, self.tableau().x_images.len())),
    ;

    /// The image `C X_qubit C†` with its phase dropped.
    fn x_image_view_up_to_phase(&self, qubit_index: usize) -> (r: DensePauli)
        requires
            self.valid(),
            qubit_index < self.tableau().x_images.len(),
        ensures
            r.wf(),
            r@ == (PauliSpec {
                x: self.tableau().x_images[qubit_index as int].x,
                z: self.tableau().x_images[qubit_index as int].z,
                phase: 0,
            }),
    ;

    /// The image `C Z_qubit C†` with its phase dropped.
    fn z_image_view_up_to_phase(&self, qubit_index: usize) -> (r: DensePauli)
        requires
            self.valid(),
            qubit_index < self.tableau().x_images.len(),
        ensures
            r.wf(),
            r@ == (PauliSpec {
                x: self.tableau().z_images[qubit_index as int].x,
                z: self.tableau().z_images[qubit_index as int].z,
                phase: 0,
            }),
    ;
}

impl PreimageViews for CliffordUnitary {
    open spec fn tableau(&self) -> CliffordSpec {
        self@
    }

    open spec fn valid(&self) -> bool {
        self.wf()
    }

    fn preimage_x_view(&self, index: usize) -> (r: DensePauli) {
        let generator = DensePauli::x(index, self.num_qubits());
        self.preimage(&generator)
    }

    fn preimage_z_view(&self, index: usize) -> (r: DensePauli) {
        let generator = DensePauli::z(index, self.num_qubits());
        self.preimage(&generator)
    }

    fn x_image_view_up_to_phase(&self, qubit_index: usize) -> (r: DensePauli) {
        let mut image = self.image_x(qubit_index);
        image.phase = 0;
        image
    }

    fn z_image_view_up_to_phase(&self, qubit_index: usize) -> (r: DensePauli) {
        let mut image = self.image_z(qubit_index);
        image.phase = 0;
        image
    }
}

/// `⟨b, e_q⟩` over the first `k` coordinates is `b_q` when `q < k`.
proof fn lemma_dot_prefix_unit_right(b: Seq<bool>, n: nat, q: int, k: int)
    requires
        0 <= q < n,
        k <= n,
    ensures
        crate::gf2::dot_prefix(b, bit_unit(n, q), k) == (q < k && b[q]),
    decreases k,
{
    if k > 0 {
        lemma_dot_prefix_unit_right(b, n, q, k - 1);
    }
}

/// `⟨b, 0⟩` over the first `k` coordinates is zero.
proof fn lemma_dot_prefix_zeros_right(b: Seq<bool>, n: nat, k: int)
    requires
        k <= n,
    ensures
        !crate::gf2::dot_prefix(b, bit_zeros(n), k),
    decreases k,
{
    if k > 0 {
        lemma_dot_prefix_zeros_right(b, n, k - 1);
    }
}

/// The bits of `mask` below `k`, zero elsewhere.
pub open spec fn masked_prefix(mask: Seq<bool>, n: nat, k: int) -> Seq<bool> {
    Seq::new(n, |i: int| i < k && mask[i])
}

/// Multiplying the identity by the `X_q` selected by `mask` (in order) gives `X^{mask<k}`.
proof fn lemma_identity_x_product(n: nat, mask: Seq<bool>, k: int)
    requires
        0 <= k <= n,
    ensures
        product_prefix(pauli_identity(n), identity_tableau(n).x_images, mask, k) == (PauliSpec {
            x: masked_prefix(mask, n, k),
            z: bit_zeros(n),
            phase: 0,
        }),
    decreases k,
{
    let t = identity_tableau(n);
    if k == 0 {
        assert(masked_prefix(mask, n, 0) =~= bit_zeros(n));
    } else {
        lemma_identity_x_product(n, mask, k - 1);
        let prev = product_prefix(pauli_identity(n), t.x_images, mask, k - 1);
        if mask[k - 1] {
            let f = t.x_images[k - 1];
            assert(f == pauli_x_spec(k - 1, n));
            lemma_dot_prefix_zeros_right(f.x, n, 0);
            crate::pauli::lemma_dot_zeros_left(bit_zeros(n), f.x);
            assert(bit_xor(prev.x, f.x) =~= masked_prefix(mask, n, k));
            assert(bit_xor(prev.z, f.z) =~= bit_zeros(n));
        } else {
            assert(masked_prefix(mask, n, k - 1) =~= masked_prefix(mask, n, k));
        }
    }
}

/// Multiplying `X^x` by the `Z_q` selected by `mask` (in order) gives `X^x Z^{mask<k}`.
pub proof fn lemma_identity_z_product(n: nat, x: Seq<bool>, mask: Seq<bool>, k: int)
    requires
        0 <= k <= n,
        x.len() == n,
    ensures
        product_prefix(PauliSpec { x: x, z: bit_zeros(n), phase: 0 }, identity_tableau(n).z_images, mask, k) == (PauliSpec {
            x: x,
            z: masked_prefix(mask, n, k),
            phase: 0,
        }),
    decreases k,
{
    let t = identity_tableau(n);
    if k == 0 {
        assert(masked_prefix(mask, n, 0) =~= bit_zeros(n));
    } else {
        lemma_identity_z_product(n, x, mask, k - 1);
        let prev = product_prefix(PauliSpec { x: x, z: bit_zeros(n), phase: 0 }, t.z_images, mask, k - 1);
        if mask[k - 1] {
            let f = t.z_images[k - 1];
            assert(f == pauli_z_spec(k - 1, n));
            lemma_dot_prefix_zeros_right(prev.z, n, n as int);
            assert(prev.z.len() == n);
            assert(bit_xor(prev.x, f.x) =~= x);
            assert(bit_xor(prev.z, f.z) =~= masked_prefix(mask, n, k));
        } else {
            assert(masked_prefix(mask, n, k - 1) =~= masked_prefix(mask, n, k));
        }
    }
}

/// The identity tableau maps every Pauli to itself: the preimage of `p` is `p`.
pub proof fn lemma_identity_preimage(n: nat, p: PauliSpec)
    requires
        p.x.len() == n,
        p.z.len() == n,
        0 <= p.phase < 4,
    ensures
        preimage_spec(identity_tableau(n), p) == p,
{
    let t = identity_tableau(n);
    let pre = preimage_spec(t, p);
    assert forall|q: int| 0 <= q < n implies pre.x[q] == p.x[q] by {
        lemma_dot_prefix_unit_right(p.x, n, q, n as int);
        lemma_dot_prefix_zeros_right(p.z, n, n as int);
        assert(t.z_images[q] == pauli_z_spec(q, n));
    }
    assert forall|q: int| 0 <= q < n implies pre.z[q] == p.z[q] by {
        lemma_dot_prefix_unit_right(p.z, n, q, n as int);
        lemma_dot_prefix_zeros_right(p.x, n, n as int);
        assert(t.x_images[q] == pauli_x_spec(q, n));
    }
    assert(pre.x =~= p.x);
    assert(pre.z =~= p.z);
    let bits = PauliSpec { x: pre.x, z: pre.z, phase: 0 };
    lemma_identity_x_product(n, bits.x, n as int);
    assert(masked_prefix(bits.x, n, n as int) =~= p.x);
    lemma_identity_z_product(n, p.x, bits.z, n as int);
    assert(masked_prefix(bits.z, n, n as int) =~= p.z);
    assert(image_spec(t, bits).phase == 0);
}

} // verus!
