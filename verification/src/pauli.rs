//! Pauli operators with phases, `i^e X^x Z^z`.
//!
//! A Pauli operator on `n` qubits is stored by its `X` bits `x`, its `Z` bits `z` and the
//! exponent `e ∈ 0..4` of its `i`-phase, standing for `i^e ⊗_q X_q^{x_q} Z_q^{z_q}`.
use vstd::prelude::*;
use crate::gf2::{bit_dot, bit_is_zero, bit_unit, bit_xor, bit_zeros, dot, dot_prefix, unit, xor_assign, zeros};

verus! {

/// The mathematical content of a Pauli operator `i^phase X^x Z^z`.
pub struct PauliSpec {
    pub x: Seq<bool>,
    pub z: Seq<bool>,
    pub phase: int,
}

/// `1` for `true`, `0` for `false`.
pub open spec fn b2i(b: bool) -> int {
    if b {
        1
    } else {
        0
    }
}

/// A Pauli operator on `n` qubits with its phase exponent in `0..4`.
pub open spec fn pauli_wf(p: PauliSpec, n: nat) -> bool {
    p.x.len() == n && p.z.len() == n && 0 <= p.phase < 4
}

/// The identity operator on `n` qubits.
pub open spec fn pauli_identity(n: nat) -> PauliSpec {
    PauliSpec { x: bit_zeros(n), z: bit_zeros(n), phase: 0 }
}

/// The product `a · b`: `i^a X^x Z^z · i^b X^x' Z^z' = i^{a+b} (−1)^{⟨z, x'⟩} X^{x+x'} Z^{z+z'}`.
pub open spec fn pauli_mul(a: PauliSpec, b: PauliSpec) -> PauliSpec {
    PauliSpec {
        x: bit_xor(a.x, b.x),
        z: bit_xor(a.z, b.z),
        phase: (a.phase + b.phase + 2 * b2i(bit_dot(a.z, b.x))) % 4,
    }
}

/// `i^k · p`.
pub open spec fn pauli_scale(p: PauliSpec, k: int) -> PauliSpec {
    PauliSpec { x: p.x, z: p.z, phase: (p.phase + k) % 4 }
}

/// The symplectic form: `true` iff `a` and `b` anticommute.
pub open spec fn symplectic(a: PauliSpec, b: PauliSpec) -> bool {
    bit_dot(a.x, b.z) != bit_dot(a.z, b.x)
}

/// `p² = I`, i.e. `p` is Hermitian: `e + ⟨x, z⟩` is even.
pub open spec fn is_order_two_spec(p: PauliSpec) -> bool {
    (p.phase + b2i(bit_dot(p.x, p.z))) % 2 == 0
}

/// The number of qubits on which `p` acts as `Y` (both bits set), counted on the first `k` qubits.
pub open spec fn y_count(x: Seq<bool>, z: Seq<bool>, k: int) -> int
    decreases k,
{
    if k <= 0 {
        0
    } else {
        y_count(x, z, k - 1) + b2i(x[k - 1] && z[k - 1])
    }
}

/// The phase exponent in the `X`, `Y`, `Z` letter convention: since `XZ = −iY`,
/// `i^e X^x Z^z = i^{e − #Y} ⊗ σ`.
pub open spec fn xyz_phase_spec(p: PauliSpec) -> int {
    (p.phase - y_count(p.x, p.z, p.x.len() as int)) % 4
}

/// Conjugation by `exp(iπ/4 · p)`: `q ↦ q` if `p` and `q` commute, `q ↦ i·p·q` otherwise.
pub open spec fn conj_by_exp(p: PauliSpec, q: PauliSpec) -> PauliSpec {
    if symplectic(p, q) {
        pauli_scale(pauli_mul(p, q), 1)
    } else {
        q
    }
}

/// Conjugation by the Pauli `p` itself: `q ↦ p q p† = (−1)^{[p, q anticommute]} q`.
pub open spec fn conj_by_pauli(p: PauliSpec, q: PauliSpec) -> PauliSpec {
    if symplectic(p, q) {
        pauli_scale(q, 2)
    } else {
        q
    }
}

/// A Pauli operator `i^phase X^x Z^z`.
#[derive(Clone, Debug, PartialEq, Eq)]
pub struct DensePauli {
    pub x_bits: Vec<bool>,
    pub z_bits: Vec<bool>,
    pub phase: u8,
}

impl View for DensePauli {
    type V = PauliSpec;

    open spec fn view(&self) -> PauliSpec {
        PauliSpec { x: self.x_bits@, z: self.z_bits@, phase: self.phase as int }
    }
}

impl DensePauli {
    /// The operator acts on `x_bits.len()` qubits and its phase exponent is in `0..4`.
    pub open spec fn wf(&self) -> bool {
        self.x_bits@.len() == self.z_bits@.len() && self.phase < 4
    }

    /// The operator `i^phase X^x Z^z` with `phase` taken modulo 4.
    pub fn from_bits(x_bits: Vec<bool>, z_bits: Vec<bool>, phase: u8) -> (p: DensePauli)
        requires
            x_bits@.len() == z_bits@.len(),
        ensures
            p.wf(),
            p@ == (PauliSpec { x: x_bits@, z: z_bits@, phase: phase as int % 4 }),
    {
        DensePauli { x_bits, z_bits, phase: phase % 4 }
    }

    /// A copy of the operator.
    pub fn duplicate(&self) -> (p: DensePauli)
        ensures
            p@ == self@,
            p.wf() == self.wf(),
    {
        DensePauli { x_bits: self.x_bits.clone(), z_bits: self.z_bits.clone(), phase: self.phase }
    }

    /// The identity on `n` qubits.
    pub fn identity(n: usize) -> (p: DensePauli)
        ensures
            p.wf(),
            p@ == pauli_identity(n as nat),
    {
        DensePauli { x_bits: zeros(n), z_bits: zeros(n), phase: 0 }
    }

    /// `X_qubit` on `n` qubits.
    pub fn x(qubit: usize, n: usize) -> (p: DensePauli)
        requires
            qubit < n,
        ensures
            p.wf(),
            p@ == (PauliSpec { x: bit_unit(n as nat, qubit as int), z: bit_zeros(n as nat), phase: 0 }),
    {
        DensePauli { x_bits: unit(n, qubit), z_bits: zeros(n), phase: 0 }
    }

    /// `Z_qubit` on `n` qubits.
    pub fn z(qubit: usize, n: usize) -> (p: DensePauli)
        requires
            qubit < n,
        ensures
            p.wf(),
            p@ == (PauliSpec { x: bit_zeros(n as nat), z: bit_unit(n as nat, qubit as int), phase: 0 }),
    {
        DensePauli { x_bits: zeros(n), z_bits: unit(n, qubit), phase: 0 }
    }

    /// The number of qubits the operator acts on.
    pub fn num_qubits(&self) -> (r: usize)
        ensures
            r == self@.x.len(),
    {
        self.x_bits.len()
    }

    /// The exponent `e` of `i^e X^x Z^z`.
    pub fn xz_phase_exponent(&self) -> (r: u8)
        ensures
            r as int == self@.phase,
    {
        self.phase
    }

    /// Multiplies by `i^exponent`.
    pub fn add_assign_phase_exp(&mut self, exponent: u8)
        requires
            old(self).wf(),
        ensures
            final(self).wf(),
            final(self)@ == pauli_scale(old(self)@, exponent as int),
    {
        self.phase = ((self.phase as u16 + exponent as u16) % 4) as u8;
    }

    /// `self ← self · other`.
    pub fn mul_assign_right(&mut self, other: &DensePauli)
        requires
            old(self).wf(),
            other.wf(),
            old(self)@.x.len() == other@.x.len(),
        ensures
            final(self).wf(),
            final(self)@ == pauli_mul(old(self)@, other@),
    {
        let sign = dot(&self.z_bits, &other.x_bits);
        xor_assign(&mut self.x_bits, &other.x_bits);
        xor_assign(&mut self.z_bits, &other.z_bits);
        let extra: u8 = if sign {
            2
        } else {
            0
        };
        self.phase = (self.phase + other.phase + extra) % 4;
    }

    /// `self ← X_qubit · self`.
    pub fn mul_assign_left_x(&mut self, qubit: usize)
        requires
            old(self).wf(),
            qubit < old(self)@.x.len(),
        ensures
            final(self).wf(),
            final(self)@ == pauli_mul(
                PauliSpec {
                    x: bit_unit(old(self)@.x.len(), qubit as int),
                    z: bit_zeros(old(self)@.x.len()),
                    phase: 0,
                },
                old(self)@,
            ),
    {
        let n = self.x_bits.len();
        let ghost left = PauliSpec { x: bit_unit(n as nat, qubit as int), z: bit_zeros(n as nat), phase: 0 };
        proof {
            lemma_dot_zeros_left(bit_zeros(n as nat), self@.x);
        }
        let flipped = !self.x_bits[qubit];
        self.x_bits.set(qubit, flipped);
        proof {
            assert(self@.x =~= bit_xor(left.x, old(self)@.x));
            assert(self@.z =~= bit_xor(left.z, old(self)@.z));
        }
    }

    /// `self ← Z_qubit · self`.
    pub fn mul_assign_left_z(&mut self, qubit: usize)
        requires
            old(self).wf(),
            qubit < old(self)@.x.len(),
        ensures
            final(self).wf(),
            final(self)@ == pauli_mul(
                PauliSpec {
                    x: bit_zeros(old(self)@.x.len()),
                    z: bit_unit(old(self)@.x.len(), qubit as int),
                    phase: 0,
                },
                old(self)@,
            ),
    {
        let n = self.x_bits.len();
        let ghost left = PauliSpec { x: bit_zeros(n as nat), z: bit_unit(n as nat, qubit as int), phase: 0 };
        proof {
            lemma_dot_unit_left(n as nat, qubit as int, self@.x);
        }
        let sign = self.x_bits[qubit];
        let flipped = !self.z_bits[qubit];
        self.z_bits.set(qubit, flipped);
        if sign {
            self.phase = (self.phase + 2) % 4;
        }
        proof {
            assert(self@.x =~= bit_xor(left.x, old(self)@.x));
            assert(self@.z =~= bit_xor(left.z, old(self)@.z));
        }
    }

    /// Complex conjugation: `X ↦ X`, `Z ↦ Z`, `i ↦ −i`.
    pub fn complex_conjugate(&mut self)
        requires
            old(self).wf(),
        ensures
            final(self).wf(),
            final(self)@ == (PauliSpec { x: old(self)@.x, z: old(self)@.z, phase: (4 - old(self)@.phase) % 4 }),
    {
        self.phase = (4 - self.phase) % 4;
    }

    /// The phase exponent in the letter convention `X`, `Y`, `Z` (see [`xyz_phase_spec`]).
    pub fn xyz_phase_exponent(&self) -> (r: u8)
        requires
            self.wf(),
        ensures
            r as int == xyz_phase_spec(self@),
    {
        let mut count: u8 = 0;
        let mut i: usize = 0;
        while i < self.x_bits.len()
            invariant
                self.wf(),
                i <= self@.x.len(),
                count < 4,
                count as int == y_count(self@.x, self@.z, i as int) % 4,
            decreases self@.x.len() - i,
        {
            if self.x_bits[i] && self.z_bits[i] {
                count = (count + 1) % 4;
            }
            i = i + 1;
        }
        ((self.phase + 4 - count) % 4) as u8
    }

    /// `true` iff the operator squares to the identity (it is Hermitian).
    pub fn is_order_two(&self) -> (r: bool)
        requires
            self.wf(),
        ensures
            r == is_order_two_spec(self@),
    {
        let d = dot(&self.x_bits, &self.z_bits);
        let total: u8 = self.phase + if d {
            1
        } else {
            0
        };
        total % 2 == 0
    }
}

/// `p` truncated or padded with identity factors to `n` qubits.
pub open spec fn resize_pauli_spec(p: PauliSpec, n: nat) -> PauliSpec {
    PauliSpec { x: resize_bits(p.x, n), z: resize_bits(p.z, n), phase: p.phase }
}

/// `bits` truncated or padded with zeros to length `n`.
pub open spec fn resize_bits(bits: Seq<bool>, n: nat) -> Seq<bool> {
    Seq::new(n, |q: int| q < bits.len() && bits[q])
}

/// `p` acts as the identity on every qubit from `from` on.
pub open spec fn identity_from(p: PauliSpec, from: int) -> bool {
    forall|q: int| from <= q < p.x.len() ==> !p.x[q] && !p.z[q]
}

/// The largest qubit below `k` on which `p` acts nontrivially.
pub open spec fn support_below(p: PauliSpec, k: int) -> Option<nat>
    decreases k,
{
    if k <= 0 {
        None
    } else if p.x[k - 1] || p.z[k - 1] {
        Some((k - 1) as nat)
    } else {
        support_below(p, k - 1)
    }
}

/// The largest qubit on which `p` acts nontrivially, `None` for the identity.
pub open spec fn max_support_spec(p: PauliSpec) -> Option<nat> {
    support_below(p, p.x.len() as int)
}

impl DensePauli {
    /// The largest qubit on which the operator acts nontrivially, `None` for the identity.
    pub fn max_support(&self) -> (r: Option<usize>)
        requires
            self.wf(),
        ensures
            r matches Some(m) ==> max_support_spec(self@) == Some(m as nat),
            r is None ==> max_support_spec(self@) is None,
            r is None ==> identity_from(self@, 0),
            r matches Some(m) ==> m < self@.x.len() && (self@.x[m as int] || self@.z[m as int]) && identity_from(
                self@,
                m + 1,
            ),
    {
        let mut q = self.x_bits.len();
        while q > 0
            invariant
                self.wf(),
                q <= self@.x.len(),
                identity_from(self@, q as int),
                max_support_spec(self@) == support_below(self@, q as int),
            decreases q,
        {
            if self.x_bits[q - 1] || self.z_bits[q - 1] {
                return Some(q - 1);
            }
            q = q - 1;
        }
        None
    }

    /// The operator truncated or padded with identity factors to `n` qubits.
    pub fn resized(&self, n: usize) -> (r: DensePauli)
        requires
            self.wf(),
        ensures
            r.wf(),
            r@ == resize_pauli_spec(self@, n as nat),
    {
        DensePauli { x_bits: resize_vec(&self.x_bits, n), z_bits: resize_vec(&self.z_bits, n), phase: self.phase }
    }
}

/// `bits` truncated or padded with zeros to length `n`.
pub fn resize_vec(bits: &Vec<bool>, n: usize) -> (r: Vec<bool>)
    ensures
        r@ == resize_bits(bits@, n as nat),
{
    let mut r: Vec<bool> = Vec::new();
    let mut q: usize = 0;
    while q < n
        invariant
            q <= n,
            r@.len() == q,
            forall|k: int| 0 <= k < q ==> r@[k] == (k < bits@.len() && bits@[k]),
        decreases n - q,
    {
        r.push(q < bits.len() && bits[q]);
        q = q + 1;
    }
    proof {
        assert(r@ =~= resize_bits(bits@, n as nat));
    }
    r
}

/// `true` iff `a` and `b` anticommute.
pub fn anti_commutes_with(a: &DensePauli, b: &DensePauli) -> (r: bool)
    requires
        a.wf(),
        b.wf(),
        a@.x.len() == b@.x.len(),
    ensures
        r == symplectic(a@, b@),
{
    dot(&a.x_bits, &b.z_bits) != dot(&a.z_bits, &b.x_bits)
}

/// `true` iff `a` and `b` commute.
pub fn commutes_with(a: &DensePauli, b: &DensePauli) -> (r: bool)
    requires
        a.wf(),
        b.wf(),
        a@.x.len() == b@.x.len(),
    ensures
        r == !symplectic(a@, b@),
{
    !anti_commutes_with(a, b)
}

pub proof fn lemma_dot_zeros_left(z: Seq<bool>, b: Seq<bool>)
    requires
        bit_is_zero(z),
    ensures
        bit_dot(z, b) == false,
{
    lemma_dot_prefix_zeros(z, b, z.len() as int);
}

proof fn lemma_dot_prefix_zeros(z: Seq<bool>, b: Seq<bool>, k: int)
    requires
        bit_is_zero(z),
        k <= z.len(),
    ensures
        dot_prefix(z, b, k) == false,
    decreases k,
{
    if k > 0 {
        lemma_dot_prefix_zeros(z, b, k - 1);
    }
}

/// `⟨e_q, b⟩ = b_q`.
pub proof fn lemma_dot_unit_left(n: nat, q: int, b: Seq<bool>)
    requires
        0 <= q < n,
    ensures
        bit_dot(bit_unit(n, q), b) == b[q],
{
    lemma_dot_prefix_unit(n, q, b, n as int);
}

proof fn lemma_dot_prefix_unit(n: nat, q: int, b: Seq<bool>, k: int)
    requires
        0 <= q < n,
        k <= n,
    ensures
        dot_prefix(bit_unit(n, q), b, k) == (q < k && b[q]),
    decreases k,
{
    if k > 0 {
        lemma_dot_prefix_unit(n, q, b, k - 1);
    }
}

} // verus!
