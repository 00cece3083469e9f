//! The degree-at-most-two `ζ₈` phase polynomial of an auxiliary-qubit separation.
//!
//! A phase polynomial on `n` input bits is `φ(r) = l + Σ_i c_i r_i + Σ_{i<j} c_{ij} r_i r_j`
//! (mod 8). It is recovered by interpolation from its values at `0`, at the unit labels `e_i` and
//! at the pairs `e_i + e_j`, and evaluated at arbitrary labels.
use vstd::prelude::*;
use crate::gf2::{bit_unit, bit_zeros};

verus! {

/// `Σ_{i<k} r_i · lin_i`.
pub open spec fn linear_part(bits: Seq<bool>, linear: Seq<u8>, k: int) -> int
    decreases k,
{
    if k <= 0 {
        0
    } else {
        linear_part(bits, linear, k - 1) + if bits[k - 1] {
            linear[k - 1] as int
        } else {
            0
        }
    }
}

/// `Σ_{i<k} r_i · quad_{i n + j}`: the quadratic terms pairing bit `j` with earlier bits.
pub open spec fn pair_part(bits: Seq<bool>, quadratic: Seq<u8>, n: int, j: int, k: int) -> int
    decreases k,
{
    if k <= 0 {
        0
    } else {
        pair_part(bits, quadratic, n, j, k - 1) + if bits[k - 1] {
            quadratic[(k - 1) * n + j] as int
        } else {
            0
        }
    }
}

/// `Σ_{i<j<k} r_i r_j · quad_{i n + j}`.
pub open spec fn quadratic_part(bits: Seq<bool>, quadratic: Seq<u8>, n: int, k: int) -> int
    decreases k,
{
    if k <= 0 {
        0
    } else {
        quadratic_part(bits, quadratic, n, k - 1) + if bits[k - 1] {
            pair_part(bits, quadratic, n, k - 1, k - 1)
        } else {
            0
        }
    }
}

/// The integer value `l + Σ_i c_i r_i + Σ_{i<j} c_{ij} r_i r_j` of the polynomial at `bits`.
pub open spec fn polynomial_value(constant: u8, linear: Seq<u8>, quadratic: Seq<u8>, bits: Seq<bool>) -> int {
    let n = linear.len() as int;
    constant as int + linear_part(bits, linear, n) + quadratic_part(bits, quadratic, n, n)
}

/// The degree-at-most-two `ζ₈` phase polynomial recovered by an auxiliary-qubit separation.
///
/// [`Self::evaluate`] returns the `ζ₈` exponent `φ(r)` (modulo `8`); the quadratic coefficient of
/// the pair `i < j` is stored at position `i · n + j`.
#[derive(Clone, Debug, PartialEq, Eq)]
pub struct SeparationPhase {
    pub(crate) constant: u8,
    pub(crate) linear: Vec<u8>,
    pub(crate) quadratic: Vec<u8>,
}

/// The coefficients of a [`SeparationPhase`].
pub struct SeparationPhaseView {
    pub constant: u8,
    pub linear: Seq<u8>,
    pub quadratic: Seq<u8>,
}

impl View for SeparationPhase {
    type V = SeparationPhaseView;

    closed spec fn view(&self) -> SeparationPhaseView {
        SeparationPhaseView { constant: self.constant, linear: self.linear@, quadratic: self.quadratic@ }
    }
}

impl SeparationPhase {
    /// The quadratic table has one slot per ordered pair of input bits, and every coefficient is
    /// a `ζ₈` exponent below 8.
    pub open spec fn well_formed(&self) -> bool {
        &&& self@.quadratic.len() == self@.linear.len() * self@.linear.len()
        &&& self@.constant < 8
        &&& forall|i: int| 0 <= i < self@.linear.len() ==> #[trigger] self@.linear[i] < 8
        &&& forall|k: int| 0 <= k < self@.quadratic.len() ==> #[trigger] self@.quadratic[k] < 8
    }

    /// The value `φ(bits)` as an integer, before reduction modulo 8.
    pub open spec fn value_at(&self, bits: Seq<bool>) -> int {
        polynomial_value(self@.constant, self@.linear, self@.quadratic, bits)
    }

    /// The constant term `l = φ(0)`.
    pub fn constant(&self) -> (r: u8)
        ensures
            r == self@.constant,
    {
        self.constant
    }

    /// The number of input bits `n` the polynomial is defined over.
    pub fn num_bits(&self) -> (r: usize)
        ensures
            r == self@.linear.len(),
    {
        self.linear.len()
    }

    /// The linear coefficient `c_i` of input bit `i`.
    pub fn linear_coefficient(&self, bit: usize) -> (r: u8)
        requires
            bit < self@.linear.len(),
        ensures
            r == self@.linear[bit as int],
            self.well_formed() ==> r < 8,
    {
        self.linear[bit]
    }

    /// The quadratic coefficient `c_{ij}` of the pair of input bits `{first, second}`.
    pub fn quadratic_coefficient(&self, first: usize, second: usize) -> (r: u8)
        requires
            self.well_formed(),
            first < self@.linear.len(),
            second < self@.linear.len(),
        ensures
            first <= second ==> r == self@.quadratic[first * self@.linear.len() + second],
            second < first ==> r == self@.quadratic[second * self@.linear.len() + first],
            r < 8,
    {
        let (low, high) = if first <= second {
            (first, second)
        } else {
            (second, first)
        };
        let n = self.linear.len();
        let _quadratic_len = self.quadratic.len();
        proof {
            lemma_pair_index_in_range(low as int, high as int, n as int);
        }
        self.quadratic[low * n + high]
    }

    /// Evaluates the polynomial at `bits`, returning the `ζ₈` exponent `φ(bits)` modulo `8`.
    pub fn evaluate(&self, bits: &Vec<bool>) -> (r: u8)
        requires
            self.well_formed(),
            bits@.len() == self@.linear.len(),
        ensures
            r as int == self.value_at(bits@) % 8,
    {
        let n = self.linear.len();
        let quadratic_len = self.quadratic.len();
        let mut total: u8 = self.constant % 8;
        let mut j: usize = 0;
        while j < n
            invariant
                self.well_formed(),
                n == self@.linear.len(),
                quadratic_len == self@.quadratic.len(),
                bits@.len() == n,
                j <= n,
                total < 8,
                total as int == (self@.constant as int + linear_part(bits@, self@.linear, j as int)
                    + quadratic_part(bits@, self@.quadratic, n as int, j as int)) % 8,
            decreases n - j,
        {
            let ghost before = total as int;
            if bits[j] {
                total = (total + self.linear[j] % 8) % 8;
                let mut i: usize = 0;
                while i < j
                    invariant
                        self.well_formed(),
                        n == self@.linear.len(),
                        quadratic_len == self@.quadratic.len(),
                        bits@.len() == n,
                        j < n,
                        i <= j,
                        total < 8,
                        total as int == (before + self@.linear[j as int] + pair_part(
                            bits@,
                            self@.quadratic,
                            n as int,
                            j as int,
                            i as int,
                        )) % 8,
                    decreases j - i,
                {
                    if bits[i] {
                        proof {
                            lemma_pair_index_in_range(i as int, j as int, n as int);
                        }
                        total = (total + self.quadratic[i * n + j] % 8) % 8;
                    }
                    i = i + 1;
                }
            }
            j = j + 1;
        }
        total
    }
}

/// Positions `i · n + j` with `i, j < n` address the `n²` quadratic slots.
pub proof fn lemma_pair_index_in_range(i: int, j: int, n: int)
    requires
        0 <= i < n,
        0 <= j < n,
    ensures
        0 <= i * n + j < n * n,
{
    assert(i * n <= (n - 1) * n) by (nonlinear_arith)
        requires
            0 <= i < n,
    ;
    assert((n - 1) * n + n == n * n) by (nonlinear_arith);
    assert(0 <= i * n) by (nonlinear_arith)
        requires
            0 <= i,
            0 <= n,
    ;
}

/// Builds the phase polynomial that takes the given values at `0`, at the unit labels `e_i`
/// (`unit_values[i]`) and at the pairs `e_i + e_j` for `i < j` (`pair_values[i · n + j]`).
pub fn phase_from_samples(constant: u8, unit_values: &Vec<u8>, pair_values: &Vec<u8>) -> (phase: SeparationPhase)
    requires
        constant < 8,
        pair_values@.len() == unit_values@.len() * unit_values@.len(),
        forall|i: int| 0 <= i < unit_values@.len() ==> #[trigger] unit_values@[i] < 8,
        forall|i: int| 0 <= i < pair_values@.len() ==> #[trigger] pair_values@[i] < 8,
    ensures
        phase.well_formed(),
        phase@.linear.len() == unit_values@.len(),
        phase@.constant == constant,
        phase.value_at(bit_zeros(unit_values@.len())) % 8 == constant as int,
        forall|i: int|
            0 <= i < unit_values@.len() ==> phase.value_at(#[trigger] bit_unit(unit_values@.len(), i)) % 8
                == unit_values@[i] as int,
        forall|i: int, j: int|
            0 <= i < j < unit_values@.len() ==> phase.value_at(
                #[trigger] pair_label(unit_values@.len(), i, j),
            ) % 8 == pair_values@[i * unit_values@.len() + j] as int,
{
    let n = unit_values.len();
    let mut linear: Vec<u8> = Vec::new();
    let mut i: usize = 0;
    while i < n
        invariant
            n == unit_values@.len(),
            constant < 8,
            forall|k: int| 0 <= k < n ==> #[trigger] unit_values@[k] < 8,
            i <= n,
            linear@.len() == i,
            forall|k: int|
                0 <= k < i ==> (#[trigger] linear@[k]) as int == (unit_values@[k] as int - constant as int) % 8,
        decreases n - i,
    {
        linear.push(((unit_values[i] + 8) - constant) % 8);
        i = i + 1;
    }
    let mut quadratic: Vec<u8> = Vec::new();
    let mut p: usize = 0;
    while p < pair_values.len()
        invariant
            n == unit_values@.len(),
            pair_values@.len() == n * n,
            linear@.len() == n,
            forall|k: int| 0 <= k < n ==> #[trigger] linear@[k] < 8,
            forall|k: int| 0 <= k < pair_values@.len() ==> #[trigger] pair_values@[k] < 8,
            constant < 8,
            p <= pair_values@.len(),
            quadratic@.len() == p,
            forall|k: int|
                0 <= k < p ==> (#[trigger] quadratic@[k]) == quadratic_slot(
                    constant,
                    linear@,
                    pair_values@,
                    n as int,
                    k,
                ),
        decreases pair_values@.len() - p,
    {
        let first = p / n;
        let second = p % n;
        let value = if first < second {
            proof {
                assert(first < n) by (nonlinear_arith)
                    requires
                        first == p / n,
                        p < n * n,
                        n > 0,
                ;
            }
            let v: u32 = (pair_values[p] as u32 + 24) - constant as u32 - linear[first] as u32 - linear[second] as u32;
            (v % 8) as u8
        } else {
            0u8
        };
        quadratic.push(value);
        p = p + 1;
    }
    let phase = SeparationPhase { constant, linear, quadratic };
    proof {
        let ghost lin = phase@.linear;
        let ghost quad = phase@.quadratic;
        lemma_value_at_zero(phase@.constant, lin, quad);
        assert forall|i: int| 0 <= i < n implies phase.value_at(#[trigger] bit_unit(n as nat, i)) % 8
            == unit_values@[i] as int by {
            lemma_value_at_unit(phase@.constant, lin, quad, i);
        }
        assert forall|i: int, j: int| 0 <= i < j < n implies phase.value_at(
            #[trigger] pair_label(n as nat, i, j),
        ) % 8 == pair_values@[i * n + j] as int by {
            lemma_value_at_pair(phase@.constant, lin, quad, i, j);
            lemma_pair_index_in_range(i, j, n as int);
            lemma_pair_slot_coordinates(i, j, n as int);
        }
    }
    phase
}

/// The label `e_i + e_j` of length `n`.
pub open spec fn pair_label(n: nat, i: int, j: int) -> Seq<bool> {
    Seq::new(n, |k: int| k == i || k == j)
}

/// The quadratic coefficient stored at slot `k = i · n + j`: the second difference of the phase
/// values for `i < j`, and zero elsewhere.
pub open spec fn quadratic_slot(constant: u8, linear: Seq<u8>, pair_values: Seq<u8>, n: int, k: int) -> u8 {
    let first = k / n;
    let second = k % n;
    if first < second {
        ((pair_values[k] as int - constant as int - linear[first] as int - linear[second] as int) % 8) as u8
    } else {
        0
    }
}

proof fn lemma_pair_slot_coordinates(i: int, j: int, n: int)
    requires
        0 <= i < j < n,
    ensures
        (i * n + j) / n == i,
        (i * n + j) % n == j,
{
    vstd::arithmetic::div_mod::lemma_fundamental_div_mod_converse(i * n + j, n, i, j);
}

proof fn lemma_linear_part_zero_prefix(bits: Seq<bool>, linear: Seq<u8>, k: int)
    requires
        forall|m: int| 0 <= m < k ==> !bits[m],
    ensures
        linear_part(bits, linear, k) == 0,
    decreases k,
{
    if k > 0 {
        lemma_linear_part_zero_prefix(bits, linear, k - 1);
    }
}

proof fn lemma_pair_part_zero_prefix(bits: Seq<bool>, quadratic: Seq<u8>, n: int, j: int, k: int)
    requires
        forall|m: int| 0 <= m < k ==> !bits[m],
    ensures
        pair_part(bits, quadratic, n, j, k) == 0,
    decreases k,
{
    if k > 0 {
        lemma_pair_part_zero_prefix(bits, quadratic, n, j, k - 1);
    }
}

proof fn lemma_quadratic_part_zero_prefix(bits: Seq<bool>, quadratic: Seq<u8>, n: int, k: int)
    requires
        forall|m: int| 0 <= m < k ==> !bits[m],
    ensures
        quadratic_part(bits, quadratic, n, k) == 0,
    decreases k,
{
    if k > 0 {
        lemma_quadratic_part_zero_prefix(bits, quadratic, n, k - 1);
    }
}

proof fn lemma_linear_part_single(bits: Seq<bool>, linear: Seq<u8>, i: int, k: int)
    requires
        0 <= i < k,
        forall|m: int| 0 <= m < k ==> (bits[m] <==> m == i),
    ensures
        linear_part(bits, linear, k) == linear[i] as int,
    decreases k,
{
    if k - 1 == i {
        lemma_linear_part_zero_prefix(bits, linear, k - 1);
    } else {
        lemma_linear_part_single(bits, linear, i, k - 1);
    }
}

proof fn lemma_linear_part_pair(bits: Seq<bool>, linear: Seq<u8>, i: int, j: int, k: int)
    requires
        0 <= i < j < k,
        forall|m: int| 0 <= m < k ==> (bits[m] <==> (m == i || m == j)),
    ensures
        linear_part(bits, linear, k) == linear[i] as int + linear[j] as int,
    decreases k,
{
    if k - 1 == j {
        lemma_linear_part_single(bits, linear, i, k - 1);
    } else {
        lemma_linear_part_pair(bits, linear, i, j, k - 1);
    }
}

proof fn lemma_pair_part_single(bits: Seq<bool>, quadratic: Seq<u8>, n: int, j: int, i: int, k: int)
    requires
        0 <= i < k,
        forall|m: int| 0 <= m < k ==> (bits[m] <==> m == i),
    ensures
        pair_part(bits, quadratic, n, j, k) == quadratic[i * n + j] as int,
    decreases k,
{
    if k - 1 == i {
        lemma_pair_part_zero_prefix(bits, quadratic, n, j, k - 1);
    } else {
        lemma_pair_part_single(bits, quadratic, n, j, i, k - 1);
    }
}

proof fn lemma_quadratic_part_single(bits: Seq<bool>, quadratic: Seq<u8>, n: int, i: int, k: int)
    requires
        0 <= i < k,
        forall|m: int| 0 <= m < k ==> (bits[m] <==> m == i),
    ensures
        quadratic_part(bits, quadratic, n, k) == 0,
    decreases k,
{
    if k - 1 == i {
        lemma_quadratic_part_zero_prefix(bits, quadratic, n, k - 1);
        lemma_pair_part_zero_prefix(bits, quadratic, n, k - 1, k - 1);
    } else {
        lemma_quadratic_part_single(bits, quadratic, n, i, k - 1);
    }
}

proof fn lemma_quadratic_part_pair(bits: Seq<bool>, quadratic: Seq<u8>, n: int, i: int, j: int, k: int)
    requires
        0 <= i < j < k,
        forall|m: int| 0 <= m < k ==> (bits[m] <==> (m == i || m == j)),
    ensures
        quadratic_part(bits, quadratic, n, k) == quadratic[i * n + j] as int,
    decreases k,
{
    if k - 1 == j {
        lemma_quadratic_part_single(bits, quadratic, n, i, k - 1);
        lemma_pair_part_single(bits, quadratic, n, j, i, k - 1);
    } else {
        lemma_quadratic_part_pair(bits, quadratic, n, i, j, k - 1);
    }
}

/// The coefficients of a separation phase are its values at the sample labels: the constant is
/// the value at `0`, the constant plus `c_i` the value at `e_i`, and the constant plus `c_i`,
/// `c_j` and `c_{ij}` the value at `e_i + e_j`; every coefficient is below 8.
pub proof fn lemma_coefficients_are_sample_values(p: SeparationPhase)
    requires
        p.well_formed(),
    ensures
        p@.constant < 8,
        p.value_at(bit_zeros(p@.linear.len())) == p@.constant as int,
        forall|i: int|
            0 <= i < p@.linear.len() ==> p@.linear[i] < 8 && p.value_at(#[trigger] bit_unit(p@.linear.len(), i))
                == p@.constant as int + p@.linear[i] as int,
        forall|i: int, j: int|
            0 <= i < j < p@.linear.len() ==> #[trigger] pair_coefficient_read_off(p, i, j),
{
    let n = p@.linear.len();
    lemma_value_at_zero(p@.constant, p@.linear, p@.quadratic);
    assert forall|i: int| 0 <= i < n implies p@.linear[i] < 8 && p.value_at(#[trigger] bit_unit(n, i))
        == p@.constant as int + p@.linear[i] as int by {
        lemma_value_at_unit(p@.constant, p@.linear, p@.quadratic, i);
    }
    assert forall|i: int, j: int| 0 <= i < j < n implies #[trigger] pair_coefficient_read_off(p, i, j) by {
        lemma_value_at_pair(p@.constant, p@.linear, p@.quadratic, i, j);
        lemma_pair_index_in_range(i, j, n as int);
        assert(p@.quadratic[i * n + j] < 8);
    }
}

/// The quadratic coefficient `c_{ij}` is below 8 and the value at `e_i + e_j` is the constant
/// plus `c_i`, `c_j` and `c_{ij}`.
pub open spec fn pair_coefficient_read_off(p: SeparationPhase, i: int, j: int) -> bool {
    let n = p@.linear.len();
    &&& p@.quadratic[i * n + j] < 8
    &&& p.value_at(pair_label(n, i, j)) == p@.constant as int + p@.linear[i] as int + p@.linear[j] as int
        + p@.quadratic[i * n + j] as int
}

proof fn lemma_value_at_zero(constant: u8, linear: Seq<u8>, quadratic: Seq<u8>)
    ensures
        polynomial_value(constant, linear, quadratic, bit_zeros(linear.len())) == constant as int,
{
    let bits = bit_zeros(linear.len());
    let n = linear.len() as int;
    lemma_linear_part_zero_prefix(bits, linear, n);
    lemma_quadratic_part_zero_prefix(bits, quadratic, n, n);
}

proof fn lemma_value_at_unit(constant: u8, linear: Seq<u8>, quadratic: Seq<u8>, i: int)
    requires
        0 <= i < linear.len(),
    ensures
        polynomial_value(constant, linear, quadratic, bit_unit(linear.len(), i)) == constant as int
            + linear[i] as int,
{
    let bits = bit_unit(linear.len(), i);
    let n = linear.len() as int;
    lemma_linear_part_single(bits, linear, i, n);
    lemma_quadratic_part_single(bits, quadratic, n, i, n);
}

proof fn lemma_value_at_pair(constant: u8, linear: Seq<u8>, quadratic: Seq<u8>, i: int, j: int)
    requires
        0 <= i < j < linear.len(),
    ensures
        polynomial_value(constant, linear, quadratic, pair_label(linear.len(), i, j)) == constant as int
            + linear[i] as int + linear[j] as int + quadratic[i * linear.len() + j] as int,
{
    let bits = pair_label(linear.len(), i, j);
    let n = linear.len() as int;
    lemma_linear_part_pair(bits, linear, i, j, n);
    lemma_quadratic_part_pair(bits, quadratic, n, i, j, n);
}

} // verus!
