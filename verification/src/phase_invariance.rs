//! Why the invariance test on a quadratic `ζ₈` phase is exact.
//!
//! The phase `φ(r) = Σ_i c_i r_i + Σ_{i<j} c_{ij} r_i r_j (mod 8)` has the exact derivative
//!
//! ```text
//!     φ(r + d) − φ(r) = C + Σ_k L_k r_k − 2 Σ_{i<j, d_i ≠ d_j} c_{ij} r_i r_j,
//! ```
//!
//! where `C` and `L_k` are the constant and linear coefficients that the test computes. When the
//! test passes, every one of these terms vanishes modulo 8, so `φ` is periodic along `d`;
//! conversely, evaluating the derivative at `0`, at the unit labels and at the labels with two
//! bits recovers each of the tested conditions.
use vstd::prelude::*;
use crate::action::{
    derivative_constant, derivative_linear, direction_linear_sum, direction_pair_sum, direction_quadratic_sum,
    mixed_pairs_even, pair_coefficient, phase_coefficients_wf, phase_invariant_spec,
};
use crate::gf2::bit_xor;

verus! {

/// `Σ_{i<n} f(i)`.
pub open spec fn sum_below(n: int, f: spec_fn(int) -> int) -> int
    decreases n,
{
    if n <= 0 {
        0
    } else {
        sum_below(n - 1, f) + f(n - 1)
    }
}

proof fn lemma_sum_congruent(n: int, f: spec_fn(int) -> int, g: spec_fn(int) -> int)
    requires
        forall|i: int| 0 <= i < n ==> #[trigger] f(i) == g(i),
    ensures
        sum_below(n, f) == sum_below(n, g),
    decreases n,
{
    if n > 0 {
        lemma_sum_congruent(n - 1, f, g);
    }
}

proof fn lemma_sum_add(n: int, f: spec_fn(int) -> int, g: spec_fn(int) -> int, h: spec_fn(int) -> int)
    requires
        forall|i: int| 0 <= i < n ==> #[trigger] h(i) == f(i) + g(i),
    ensures
        sum_below(n, h) == sum_below(n, f) + sum_below(n, g),
    decreases n,
{
    if n > 0 {
        lemma_sum_add(n - 1, f, g, h);
    }
}

proof fn lemma_sum_sub(n: int, f: spec_fn(int) -> int, g: spec_fn(int) -> int, h: spec_fn(int) -> int)
    requires
        forall|i: int| 0 <= i < n ==> #[trigger] h(i) == f(i) - g(i),
    ensures
        sum_below(n, h) == sum_below(n, f) - sum_below(n, g),
    decreases n,
{
    if n > 0 {
        lemma_sum_sub(n - 1, f, g, h);
    }
}

proof fn lemma_sum_negate(n: int, f: spec_fn(int) -> int, g: spec_fn(int) -> int)
    requires
        forall|i: int| 0 <= i < n ==> #[trigger] g(i) == -f(i),
    ensures
        sum_below(n, g) == -sum_below(n, f),
    decreases n,
{
    if n > 0 {
        lemma_sum_negate(n - 1, f, g);
    }
}

proof fn lemma_sum_zero(n: int, f: spec_fn(int) -> int)
    requires
        forall|i: int| 0 <= i < n ==> #[trigger] f(i) == 0,
    ensures
        sum_below(n, f) == 0,
    decreases n,
{
    if n > 0 {
        lemma_sum_zero(n - 1, f);
    }
}

proof fn lemma_sum_multiple_of_8(n: int, f: spec_fn(int) -> int)
    requires
        forall|i: int| 0 <= i < n ==> #[trigger] f(i) % 8 == 0,
    ensures
        sum_below(n, f) % 8 == 0,
    decreases n,
{
    if n > 0 {
        lemma_sum_multiple_of_8(n - 1, f);
        let a = sum_below(n - 1, f);
        let b = f(n - 1);
        assert((a + b) % 8 == 0) by (nonlinear_arith)
            requires
                a % 8 == 0,
                b % 8 == 0,
        ;
    }
}

proof fn lemma_sum_single(n: int, f: spec_fn(int) -> int, k: int)
    requires
        0 <= k < n,
        forall|i: int| 0 <= i < n && i != k ==> #[trigger] f(i) == 0,
    ensures
        sum_below(n, f) == f(k),
    decreases n,
{
    if n - 1 == k {
        lemma_sum_zero(n - 1, f);
    } else {
        lemma_sum_single(n - 1, f, k);
    }
}

proof fn lemma_sum_two(n: int, f: spec_fn(int) -> int, a: int, b: int)
    requires
        0 <= a < n,
        0 <= b < n,
        a != b,
        forall|i: int| 0 <= i < n && i != a && i != b ==> #[trigger] f(i) == 0,
    ensures
        sum_below(n, f) == f(a) + f(b),
{
    let at_a = |i: int| if i == a { f(a) } else { 0 };
    let rest = |i: int| if i == a { 0 } else { f(i) };
    lemma_sum_add(n, at_a, rest, f);
    lemma_sum_single(n, at_a, a);
    lemma_sum_single(n, rest, b);
}

/// Row `k` of `F` with its diagonal entry removed: `j ↦ F(k, j)` for `j ≠ k`.
pub open spec fn off_diagonal(f: spec_fn(int, int) -> int, k: int) -> spec_fn(int) -> int {
    |j: int| if j != k { f(k, j) } else { 0 }
}

/// `k ↦ Σ_{j<n, j≠k} F(k, j)`.
pub open spec fn square_rows(n: int, f: spec_fn(int, int) -> int) -> spec_fn(int) -> int {
    |k: int| sum_below(n, off_diagonal(f, k))
}

/// `i ↦ F(i, j) + F(j, i)`.
pub open spec fn symmetric_pair(f: spec_fn(int, int) -> int, j: int) -> spec_fn(int) -> int {
    |i: int| f(i, j) + f(j, i)
}

/// `j ↦ Σ_{i<j} (F(i, j) + F(j, i))`.
pub open spec fn triangle_rows(f: spec_fn(int, int) -> int) -> spec_fn(int) -> int {
    |j: int| sum_below(j, symmetric_pair(f, j))
}

/// `Σ_{k<n} Σ_{j<n, j≠k} F(k, j) = Σ_{j<n} Σ_{i<j} (F(i, j) + F(j, i))`.
proof fn lemma_square_to_triangle(n: int, f: spec_fn(int, int) -> int)
    requires
        n >= 0,
    ensures
        sum_below(n, square_rows(n, f)) == sum_below(n, triangle_rows(f)),
    decreases n,
{
    if n > 0 {
        let m = n - 1;
        lemma_square_to_triangle(m, f);
        let column = |k: int| f(k, m);
        let across = |j: int| f(m, j);
        assert forall|k: int| 0 <= k < m implies #[trigger] square_rows(n, f)(k) == square_rows(m, f)(k) + column(k) by {}
        lemma_sum_add(m, square_rows(m, f), column, square_rows(n, f));
        assert(square_rows(n, f)(m) == sum_below(m, across)) by {
            lemma_sum_congruent(m, off_diagonal(f, m), across);
        }
        lemma_sum_add(m, column, across, symmetric_pair(f, m));
    }
}

/// `i ↦ c_i x_i`.
pub open spec fn linear_term(linear: Seq<i32>, x: Seq<bool>) -> spec_fn(int) -> int {
    |i: int| if x[i] { linear[i] as int } else { 0 }
}

/// `i ↦ c_{ij} x_i x_j`.
pub open spec fn pair_term(quadratic: Seq<i32>, n: int, x: Seq<bool>, j: int) -> spec_fn(int) -> int {
    |i: int| if x[i] && x[j] { pair_coefficient(quadratic, n, i, j) } else { 0 }
}

/// `j ↦ Σ_{i<j} c_{ij} x_i x_j`.
pub open spec fn pair_rows(quadratic: Seq<i32>, n: int, x: Seq<bool>) -> spec_fn(int) -> int {
    |j: int| sum_below(j, pair_term(quadratic, n, x, j))
}

/// The phase `φ(x) = Σ_i c_i x_i + Σ_{i<j} c_{ij} x_i x_j` as an integer, before reduction
/// modulo 8; `c_{ij}` is stored at `i · n + j`.
pub open spec fn phase_polynomial(linear: Seq<i32>, quadratic: Seq<i32>, x: Seq<bool>) -> int {
    let n = linear.len() as int;
    sum_below(n, linear_term(linear, x)) + sum_below(n, pair_rows(quadratic, n, x))
}

/// `j ↦ c_{kj}` for the bits `j ≠ k` of the direction.
spec fn partner_term(quadratic: Seq<i32>, n: int, direction: Seq<bool>, k: int) -> spec_fn(int) -> int {
    |j: int| if direction[j] && j != k { pair_coefficient(quadratic, n, k, j) } else { 0 }
}

proof fn lemma_linear_sum_as_sum(linear: Seq<i32>, direction: Seq<bool>, m: int)
    ensures
        direction_linear_sum(linear, direction, m) == sum_below(m, linear_term(linear, direction)),
    decreases m,
{
    if m > 0 {
        lemma_linear_sum_as_sum(linear, direction, m - 1);
    }
}

proof fn lemma_pair_sum_as_sum(quadratic: Seq<i32>, n: int, direction: Seq<bool>, k: int, m: int)
    ensures
        direction_pair_sum(quadratic, n, direction, k, m) == sum_below(m, partner_term(quadratic, n, direction, k)),
    decreases m,
{
    if m > 0 {
        lemma_pair_sum_as_sum(quadratic, n, direction, k, m - 1);
    }
}

proof fn lemma_quadratic_sum_as_sum(quadratic: Seq<i32>, n: int, direction: Seq<bool>, m: int)
    ensures
        direction_quadratic_sum(quadratic, n, direction, m) == sum_below(m, pair_rows(quadratic, n, direction)),
    decreases m,
{
    if m > 0 {
        let j = m - 1;
        lemma_quadratic_sum_as_sum(quadratic, n, direction, j);
        if direction[j] {
            lemma_pair_sum_as_sum(quadratic, n, direction, j, j);
            lemma_sum_congruent(j, partner_term(quadratic, n, direction, j), pair_term(quadratic, n, direction, j));
        } else {
            lemma_sum_zero(j, pair_term(quadratic, n, direction, j));
        }
    }
}

/// The constant term of the derivative along `d` is the phase at `d` itself.
proof fn lemma_derivative_constant_is_phase_at_direction(linear: Seq<i32>, quadratic: Seq<i32>, direction: Seq<bool>)
    ensures
        derivative_constant(linear, quadratic, direction) == phase_polynomial(linear, quadratic, direction),
{
    let n = linear.len() as int;
    lemma_linear_sum_as_sum(linear, direction, n);
    lemma_quadratic_sum_as_sum(quadratic, n, direction, n);
}

/// `i ↦ −2 c_i` on the bits set in both `d` and `r`.
spec fn doubled_linear_term(linear: Seq<i32>, direction: Seq<bool>, r: Seq<bool>) -> spec_fn(int) -> int {
    |i: int| if direction[i] && r[i] { -2 * linear[i] } else { 0 }
}

/// `(k, j) ↦ ±c_{kj} r_k d_j`, negative when `d_k` is set.
spec fn cross_term(quadratic: Seq<i32>, n: int, direction: Seq<bool>, r: Seq<bool>) -> spec_fn(int, int) -> int {
    |k: int, j: int|
        if r[k] && direction[j] {
            if direction[k] {
                -pair_coefficient(quadratic, n, k, j)
            } else {
                pair_coefficient(quadratic, n, k, j)
            }
        } else {
            0
        }
}

/// `i ↦ −2 c_{ij} r_i r_j` on the pairs that `d` splits.
pub open spec fn mixed_term(quadratic: Seq<i32>, n: int, direction: Seq<bool>, r: Seq<bool>, j: int) -> spec_fn(int) -> int {
    |i: int|
        if direction[i] != direction[j] && r[i] && r[j] {
            -2 * pair_coefficient(quadratic, n, i, j)
        } else {
            0
        }
}

/// `j ↦ Σ_{i<j} −2 c_{ij} r_i r_j [d_i ≠ d_j]`.
pub open spec fn mixed_rows(quadratic: Seq<i32>, n: int, direction: Seq<bool>, r: Seq<bool>) -> spec_fn(int) -> int {
    |j: int| sum_below(j, mixed_term(quadratic, n, direction, r, j))
}

/// `k ↦ L_k r_k`.
pub open spec fn derivative_term(linear: Seq<i32>, quadratic: Seq<i32>, direction: Seq<bool>, r: Seq<bool>) -> spec_fn(int) -> int {
    |k: int| if r[k] { derivative_linear(linear, quadratic, direction, k) } else { 0 }
}

proof fn lemma_linear_difference(linear: Seq<i32>, direction: Seq<bool>, r: Seq<bool>)
    requires
        direction.len() == linear.len(),
        r.len() == linear.len(),
    ensures
        sum_below(linear.len() as int, linear_term(linear, bit_xor(r, direction))) - sum_below(
            linear.len() as int,
            linear_term(linear, r),
        ) == sum_below(linear.len() as int, linear_term(linear, direction)) + sum_below(
            linear.len() as int,
            doubled_linear_term(linear, direction, r),
        ),
{
    let n = linear.len() as int;
    let s = bit_xor(r, direction);
    let h = |i: int| linear_term(linear, s)(i) - linear_term(linear, r)(i);
    lemma_sum_sub(n, linear_term(linear, s), linear_term(linear, r), h);
    assert forall|i: int| 0 <= i < n implies #[trigger] h(i) == linear_term(linear, direction)(i)
        + doubled_linear_term(linear, direction, r)(i) by {
        assert(s[i] == (r[i] != direction[i]));
    }
    lemma_sum_add(n, linear_term(linear, direction), doubled_linear_term(linear, direction, r), h);
}

proof fn lemma_pair_row_difference(quadratic: Seq<i32>, n: int, direction: Seq<bool>, r: Seq<bool>, j: int)
    requires
        direction.len() == n,
        r.len() == n,
        0 <= j < n,
    ensures
        pair_rows(quadratic, n, bit_xor(r, direction))(j) - pair_rows(quadratic, n, r)(j) == pair_rows(
            quadratic,
            n,
            direction,
        )(j) + triangle_rows(cross_term(quadratic, n, direction, r))(j) + mixed_rows(quadratic, n, direction, r)(j),
{
    let s = bit_xor(r, direction);
    let f = cross_term(quadratic, n, direction, r);
    let h1 = |i: int| pair_term(quadratic, n, s, j)(i) - pair_term(quadratic, n, r, j)(i);
    let h2 = |i: int| pair_term(quadratic, n, direction, j)(i) + symmetric_pair(f, j)(i);
    lemma_sum_sub(j, pair_term(quadratic, n, s, j), pair_term(quadratic, n, r, j), h1);
    assert forall|i: int| 0 <= i < j implies #[trigger] h1(i) == h2(i) + mixed_term(quadratic, n, direction, r, j)(i) by {
        assert(s[i] == (r[i] != direction[i]));
        assert(s[j] == (r[j] != direction[j]));
        assert(pair_coefficient(quadratic, n, j, i) == pair_coefficient(quadratic, n, i, j));
    }
    lemma_sum_add(j, h2, mixed_term(quadratic, n, direction, r, j), h1);
    lemma_sum_add(j, pair_term(quadratic, n, direction, j), symmetric_pair(f, j), h2);
}

proof fn lemma_pair_difference(quadratic: Seq<i32>, n: int, direction: Seq<bool>, r: Seq<bool>)
    requires
        direction.len() == n,
        r.len() == n,
    ensures
        sum_below(n, pair_rows(quadratic, n, bit_xor(r, direction))) - sum_below(n, pair_rows(quadratic, n, r))
            == sum_below(n, pair_rows(quadratic, n, direction)) + sum_below(
            n,
            triangle_rows(cross_term(quadratic, n, direction, r)),
        ) + sum_below(n, mixed_rows(quadratic, n, direction, r)),
{
    let s = bit_xor(r, direction);
    let f = cross_term(quadratic, n, direction, r);
    let h1 = |j: int| pair_rows(quadratic, n, s)(j) - pair_rows(quadratic, n, r)(j);
    let h2 = |j: int| pair_rows(quadratic, n, direction)(j) + triangle_rows(f)(j);
    lemma_sum_sub(n, pair_rows(quadratic, n, s), pair_rows(quadratic, n, r), h1);
    assert forall|j: int| 0 <= j < n implies #[trigger] h1(j) == h2(j) + mixed_rows(quadratic, n, direction, r)(j) by {
        lemma_pair_row_difference(quadratic, n, direction, r, j);
    }
    lemma_sum_add(n, h2, mixed_rows(quadratic, n, direction, r), h1);
    lemma_sum_add(n, pair_rows(quadratic, n, direction), triangle_rows(f), h2);
}

proof fn lemma_cross_rows(linear: Seq<i32>, quadratic: Seq<i32>, direction: Seq<bool>, r: Seq<bool>)
    requires
        direction.len() == linear.len(),
        r.len() == linear.len(),
    ensures
        sum_below(linear.len() as int, square_rows(linear.len() as int, cross_term(quadratic, linear.len() as int, direction, r)))
            + sum_below(linear.len() as int, doubled_linear_term(linear, direction, r)) == sum_below(
            linear.len() as int,
            derivative_term(linear, quadratic, direction, r),
        ),
{
    let n = linear.len() as int;
    let f = cross_term(quadratic, n, direction, r);
    assert forall|k: int| 0 <= k < n implies #[trigger] derivative_term(linear, quadratic, direction, r)(k)
        == square_rows(n, f)(k) + doubled_linear_term(linear, direction, r)(k) by {
        let partner = partner_term(quadratic, n, direction, k);
        lemma_pair_sum_as_sum(quadratic, n, direction, k, n);
        if !r[k] {
            lemma_sum_zero(n, off_diagonal(f, k));
        } else if direction[k] {
            lemma_sum_negate(n, partner, off_diagonal(f, k));
        } else {
            lemma_sum_congruent(n, off_diagonal(f, k), partner);
        }
    }
    lemma_sum_add(n, square_rows(n, f), doubled_linear_term(linear, direction, r), derivative_term(linear, quadratic, direction, r));
}

/// The derivative of the phase along `d`, exactly: `φ(r + d) − φ(r) = C + Σ_k L_k r_k
/// − 2 Σ_{i<j, d_i ≠ d_j} c_{ij} r_i r_j`, with `C` and `L_k` the coefficients of the invariance
/// test.
pub proof fn lemma_phase_derivative(linear: Seq<i32>, quadratic: Seq<i32>, direction: Seq<bool>, r: Seq<bool>)
    requires
        direction.len() == linear.len(),
        r.len() == linear.len(),
    ensures
        phase_polynomial(linear, quadratic, bit_xor(r, direction)) - phase_polynomial(linear, quadratic, r)
            == derivative_constant(linear, quadratic, direction) + sum_below(
            linear.len() as int,
            derivative_term(linear, quadratic, direction, r),
        ) + sum_below(linear.len() as int, mixed_rows(quadratic, linear.len() as int, direction, r)),
{
    let n = linear.len() as int;
    let f = cross_term(quadratic, n, direction, r);
    lemma_linear_difference(linear, direction, r);
    lemma_pair_difference(quadratic, n, direction, r);
    lemma_square_to_triangle(n, f);
    lemma_cross_rows(linear, quadratic, direction, r);
    lemma_derivative_constant_is_phase_at_direction(linear, quadratic, direction);
}

/// A phase that passes the invariance test along `d` (see
/// [`crate::action::phase_is_invariant_along`]) is periodic along `d`: for every label `r`,
/// `φ(r + d) ≡ φ(r) (mod 8)`.
pub proof fn lemma_invariant_phase_is_periodic(
    linear: Seq<i32>,
    quadratic: Seq<i32>,
    direction: Seq<bool>,
    r: Seq<bool>,
)
    requires
        phase_coefficients_wf(linear, quadratic),
        direction.len() == linear.len(),
        r.len() == linear.len(),
        phase_invariant_spec(linear, quadratic, direction),
    ensures
        (phase_polynomial(linear, quadratic, bit_xor(r, direction)) - phase_polynomial(linear, quadratic, r)) % 8
            == 0,
{
    let n = linear.len() as int;
    lemma_phase_derivative(linear, quadratic, direction, r);
    let derivative = derivative_term(linear, quadratic, direction, r);
    assert forall|k: int| 0 <= k < n implies #[trigger] derivative(k) % 8 == 0 by {
        assert(derivative_linear(linear, quadratic, direction, k) % 8 == 0);
    }
    lemma_sum_multiple_of_8(n, derivative);
    let mixed = mixed_rows(quadratic, n, direction, r);
    assert forall|j: int| 0 <= j < n implies #[trigger] mixed(j) % 8 == 0 by {
        let row = mixed_term(quadratic, n, direction, r, j);
        assert forall|i: int| 0 <= i < j implies #[trigger] row(i) % 8 == 0 by {
            if direction[i] != direction[j] && r[i] && r[j] {
                let c = quadratic[i * n + j] as int;
                assert((2 * c) % 8 == 0);
                assert((-2 * c) % 8 == 0) by (nonlinear_arith)
                    requires
                        (2 * c) % 8 == 0,
                ;
            }
        }
        lemma_sum_multiple_of_8(j, row);
    }
    lemma_sum_multiple_of_8(n, mixed);
    let a = derivative_constant(linear, quadratic, direction);
    let b = sum_below(n, derivative);
    let c = sum_below(n, mixed);
    assert((a + b + c) % 8 == 0) by (nonlinear_arith)
        requires
            a % 8 == 0,
            b % 8 == 0,
            c % 8 == 0,
    ;
}

/// The label with the bits `i` and `j` set.
pub open spec fn two_bits(n: nat, i: int, j: int) -> Seq<bool> {
    Seq::new(n, |t: int| t == i || t == j)
}

/// A phase that is periodic along `d` passes the invariance test along `d`: the test rejects
/// exactly the directions along which some label changes the phase.
pub proof fn lemma_periodic_phase_passes(linear: Seq<i32>, quadratic: Seq<i32>, direction: Seq<bool>)
    requires
        phase_coefficients_wf(linear, quadratic),
        direction.len() == linear.len(),
        forall|r: Seq<bool>|
            r.len() == linear.len() ==> (#[trigger] phase_polynomial(linear, quadratic, bit_xor(r, direction))
                - phase_polynomial(linear, quadratic, r)) % 8 == 0,
    ensures
        phase_invariant_spec(linear, quadratic, direction),
{
    let n = linear.len() as int;
    let c = derivative_constant(linear, quadratic, direction);
    // At the origin only the constant survives.
    let origin = Seq::new(n as nat, |t: int| false);
    lemma_phase_derivative(linear, quadratic, direction, origin);
    lemma_sum_zero(n, derivative_term(linear, quadratic, direction, origin));
    assert forall|j: int| 0 <= j < n implies #[trigger] mixed_rows(quadratic, n, direction, origin)(j) == 0 by {
        lemma_sum_zero(j, mixed_term(quadratic, n, direction, origin, j));
    }
    lemma_sum_zero(n, mixed_rows(quadratic, n, direction, origin));
    assert(phase_polynomial(linear, quadratic, bit_xor(origin, direction)) - phase_polynomial(linear, quadratic, origin)
        == c);
    assert(c % 8 == 0);
    // At a unit label the constant and one linear coefficient survive.
    assert forall|k: int| 0 <= k < n implies #[trigger] derivative_linear(linear, quadratic, direction, k) % 8 == 0 by {
        let e = Seq::new(n as nat, |t: int| t == k);
        lemma_phase_derivative(linear, quadratic, direction, e);
        lemma_sum_single(n, derivative_term(linear, quadratic, direction, e), k);
        assert forall|j: int| 0 <= j < n implies #[trigger] mixed_rows(quadratic, n, direction, e)(j) == 0 by {
            lemma_sum_zero(j, mixed_term(quadratic, n, direction, e, j));
        }
        lemma_sum_zero(n, mixed_rows(quadratic, n, direction, e));
        assert(phase_polynomial(linear, quadratic, bit_xor(e, direction)) - phase_polynomial(linear, quadratic, e) == c
            + derivative_linear(linear, quadratic, direction, k));
        let l = derivative_linear(linear, quadratic, direction, k);
        assert(l % 8 == 0) by (nonlinear_arith)
            requires
                c % 8 == 0,
                (c + l) % 8 == 0,
        ;
    }
    // At a label with two bits that the direction splits, the mixed term survives as well.
    assert forall|i: int, j: int| 0 <= i < j < n && direction[i] != direction[j] implies (2
        * #[trigger] quadratic[i * n + j]) % 8 == 0 by {
        let e = two_bits(n as nat, i, j);
        lemma_phase_derivative(linear, quadratic, direction, e);
        lemma_sum_two(n, derivative_term(linear, quadratic, direction, e), i, j);
        let mixed = mixed_rows(quadratic, n, direction, e);
        assert forall|t: int| 0 <= t < n && t != j implies #[trigger] mixed(t) == 0 by {
            lemma_sum_zero(t, mixed_term(quadratic, n, direction, e, t));
        }
        lemma_sum_single(n, mixed, j);
        lemma_sum_single(j, mixed_term(quadratic, n, direction, e, j), i);
        let li = derivative_linear(linear, quadratic, direction, i);
        let lj = derivative_linear(linear, quadratic, direction, j);
        let q = quadratic[i * n + j] as int;
        assert(phase_polynomial(linear, quadratic, bit_xor(e, direction)) - phase_polynomial(linear, quadratic, e) == c
            + li + lj - 2 * q);
        assert((2 * q) % 8 == 0) by (nonlinear_arith)
            requires
                c % 8 == 0,
                li % 8 == 0,
                lj % 8 == 0,
                (c + li + lj - 2 * q) % 8 == 0,
        ;
    }
}

/// The invariance test is exact: it accepts `d` iff `φ(r + d) ≡ φ(r) (mod 8)` for every label `r`.
pub proof fn lemma_invariance_test_is_exact(linear: Seq<i32>, quadratic: Seq<i32>, direction: Seq<bool>)
    requires
        phase_coefficients_wf(linear, quadratic),
        direction.len() == linear.len(),
    ensures
        phase_invariant_spec(linear, quadratic, direction) <==> forall|r: Seq<bool>|
            r.len() == linear.len() ==> (#[trigger] phase_polynomial(linear, quadratic, bit_xor(r, direction))
                - phase_polynomial(linear, quadratic, r)) % 8 == 0,
{
    if phase_invariant_spec(linear, quadratic, direction) {
        assert forall|r: Seq<bool>| r.len() == linear.len() implies (#[trigger] phase_polynomial(
            linear,
            quadratic,
            bit_xor(r, direction),
        ) - phase_polynomial(linear, quadratic, r)) % 8 == 0 by {
            lemma_invariant_phase_is_periodic(linear, quadratic, direction, r);
        }
    }
    if forall|r: Seq<bool>|
        r.len() == linear.len() ==> (#[trigger] phase_polynomial(linear, quadratic, bit_xor(r, direction))
            - phase_polynomial(linear, quadratic, r)) % 8 == 0 {
        lemma_periodic_phase_passes(linear, quadratic, direction);
    }
}

/// `φ(r + d) ≡ φ(r) (mod 8)` for every label `r`.
pub open spec fn periodic_along(linear: Seq<i32>, quadratic: Seq<i32>, direction: Seq<bool>) -> bool {
    forall|r: Seq<bool>|
        r.len() == linear.len() ==> (#[trigger] phase_polynomial(linear, quadratic, bit_xor(r, direction))
            - phase_polynomial(linear, quadratic, r)) % 8 == 0
}

/// A phase periodic along each of the listed directions is periodic along every combination of
/// them.
pub proof fn lemma_periodic_along_combination(
    linear: Seq<i32>,
    quadratic: Seq<i32>,
    directions: Seq<Seq<bool>>,
    c: Seq<bool>,
    k: int,
)
    requires
        0 <= k <= directions.len(),
        forall|t: int| 0 <= t < directions.len() ==> (#[trigger] directions[t]).len() == linear.len(),
        forall|t: int| 0 <= t < directions.len() ==> periodic_along(linear, quadratic, #[trigger] directions[t]),
    ensures
        periodic_along(
            linear,
            quadratic,
            crate::gf2::combination_prefix(directions, c, linear.len(), k),
        ),
        crate::gf2::combination_prefix(directions, c, linear.len(), k).len() == linear.len(),
    decreases k,
{
    let n = linear.len();
    let p = crate::gf2::combination_prefix(directions, c, n, k);
    if k <= 0 {
        assert forall|r: Seq<bool>| r.len() == n implies (#[trigger] phase_polynomial(
            linear,
            quadratic,
            bit_xor(r, p),
        ) - phase_polynomial(linear, quadratic, r)) % 8 == 0 by {
            assert(bit_xor(r, p) =~= r);
        }
    } else {
        lemma_periodic_along_combination(linear, quadratic, directions, c, k - 1);
        let q = crate::gf2::combination_prefix(directions, c, n, k - 1);
        if c[k - 1] {
            let b = directions[k - 1];
            assert(periodic_along(linear, quadratic, b));
            assert forall|r: Seq<bool>| r.len() == n implies (#[trigger] phase_polynomial(
                linear,
                quadratic,
                bit_xor(r, p),
            ) - phase_polynomial(linear, quadratic, r)) % 8 == 0 by {
                let shifted = bit_xor(r, q);
                assert(bit_xor(r, p) =~= bit_xor(shifted, b));
                let x = phase_polynomial(linear, quadratic, bit_xor(shifted, b));
                let y = phase_polynomial(linear, quadratic, shifted);
                let z = phase_polynomial(linear, quadratic, r);
                assert((x - y) % 8 == 0);
                assert((y - z) % 8 == 0);
                assert((x - z) % 8 == 0) by (nonlinear_arith)
                    requires
                        (x - y) % 8 == 0,
                        (y - z) % 8 == 0,
                ;
            }
        }
    }
}

} // verus!
