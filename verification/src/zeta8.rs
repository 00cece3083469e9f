//! Exact integer arithmetic on powers of `ζ₈ = e^{iπ/4}`.
//!
//! An element of the cyclotomic ring `ℤ[ζ₈]` is modelled by its four integer coordinates in the
//! basis `1, ζ₈, ζ₈², ζ₈³` (using `ζ₈⁴ = −1`). The phase bookkeeping of the simulators only ever
//! needs unit powers `ζ₈^k` and sums of two of them, which this module handles exactly.
use vstd::prelude::*;

verus! {

/// Coordinates of an element of `ℤ[ζ₈]` in the basis `1, ζ₈, ζ₈², ζ₈³`.
pub struct Cyclotomic {
    pub c0: int,
    pub c1: int,
    pub c2: int,
    pub c3: int,
}

/// The unit `ζ₈^k` (for any integer `k`).
pub open spec fn zeta(k: int) -> Cyclotomic {
    let m = k % 8;
    if m == 0 {
        Cyclotomic { c0: 1, c1: 0, c2: 0, c3: 0 }
    } else if m == 1 {
        Cyclotomic { c0: 0, c1: 1, c2: 0, c3: 0 }
    } else if m == 2 {
        Cyclotomic { c0: 0, c1: 0, c2: 1, c3: 0 }
    } else if m == 3 {
        Cyclotomic { c0: 0, c1: 0, c2: 0, c3: 1 }
    } else if m == 4 {
        Cyclotomic { c0: -1, c1: 0, c2: 0, c3: 0 }
    } else if m == 5 {
        Cyclotomic { c0: 0, c1: -1, c2: 0, c3: 0 }
    } else if m == 6 {
        Cyclotomic { c0: 0, c1: 0, c2: -1, c3: 0 }
    } else {
        Cyclotomic { c0: 0, c1: 0, c2: 0, c3: -1 }
    }
}

pub open spec fn cyc_add(a: Cyclotomic, b: Cyclotomic) -> Cyclotomic {
    Cyclotomic { c0: a.c0 + b.c0, c1: a.c1 + b.c1, c2: a.c2 + b.c2, c3: a.c3 + b.c3 }
}

pub open spec fn cyc_zero() -> Cyclotomic {
    Cyclotomic { c0: 0, c1: 0, c2: 0, c3: 0 }
}

/// `√2 · ζ₈^e`, written inside `ℤ[ζ₈]` as `ζ₈^{e+1} + ζ₈^{e−1}`.
pub open spec fn sqrt2_times_zeta(e: int) -> Cyclotomic {
    cyc_add(zeta(e + 1), zeta(e - 1))
}

/// `value` is `ζ₈^e` times one of the positive reals `1`, `√2`, `2`.
pub open spec fn is_positive_multiple_of_zeta(value: Cyclotomic, e: int) -> bool {
    ||| value == zeta(e)
    ||| value == sqrt2_times_zeta(e)
    ||| value == cyc_add(zeta(e), zeta(e))
}

/// The exponent chosen for `ζ₈^x + ζ₈^y`, `None` when the two terms cancel.
pub open spec fn zeta8_sum_exponent(x: int, y: int) -> Option<int> {
    let d = (x - y) % 8;
    if d == 0 {
        Some(x % 8)
    } else if d == 2 {
        Some((y + 1) % 8)
    } else if d == 6 {
        Some((y + 7) % 8)
    } else {
        None
    }
}

/// Reduces an integer `ζ₈` exponent to its representative in `0..8`.
pub fn normalize_exponent(value: i64) -> (r: u8)
    ensures
        r as int == value as int % 8,
        r < 8,
{
    let m: i64 = value % 8;
    if m < 0 {
        (m + 8) as u8
    } else {
        m as u8
    }
}

/// Sums two unit `ζ₈` powers `ζ₈^x + ζ₈^y` exactly, returning the `ζ₈` exponent of the result,
/// or `None` when the two terms cancel.
///
/// Only separations `(x − y) mod 8 ∈ {0, 2, 4, 6}` arise for stabilizer amplitudes; an odd
/// separation would not give a multiple of a single `ζ₈` power and is excluded by `requires`.
pub fn add_zeta8_powers(x: i64, y: i64) -> (r: Option<u8>)
    requires
        (x - y) % 2 == 0,
    ensures
        r matches Some(e) ==> e < 8 && zeta8_sum_exponent(x as int, y as int) == Some(e as int),
        r is None <==> zeta8_sum_exponent(x as int, y as int) is None,
        r is None <==> cyc_add(zeta(x as int), zeta(y as int)) == cyc_zero(),
        r matches Some(e) ==> is_positive_multiple_of_zeta(
            cyc_add(zeta(x as int), zeta(y as int)),
            e as int,
        ),
{
    let xr = x % 8;
    let yr = y % 8;
    proof {
        lemma_truncated_remainder(x);
        lemma_truncated_remainder(y);
    }
    let d = normalize_exponent(xr - yr);
    proof {
        lemma_zeta_sum_cases(x as int, y as int);
        lemma_same_residues(x as int, y as int, xr as int, yr as int);
    }
    if d == 0 {
        Some(normalize_exponent(x))
    } else if d == 2 {
        Some(normalize_exponent(yr + 1))
    } else if d == 6 {
        Some(normalize_exponent(yr + 7))
    } else {
        None
    }
}

/// The remainder of `x` by `8` (rounding towards zero) differs from `x` by a multiple of `8` and
/// lies strictly between `−8` and `8`.
proof fn lemma_truncated_remainder(x: i64)
    ensures
        -8 < x % 8 < 8,
        (x - x % 8) % 8 == 0,
{
}

/// Shifting by multiples of `8` keeps residues modulo `8`.
proof fn lemma_same_residues(x: int, y: int, xr: int, yr: int)
    requires
        (x - xr) % 8 == 0,
        (y - yr) % 8 == 0,
    ensures
        (xr - yr) % 8 == (x - y) % 8,
        (yr + 1) % 8 == (y + 1) % 8,
        (yr + 7) % 8 == (y + 7) % 8,
{
    let a = (x - xr) / 8;
    let b = (y - yr) / 8;
    assert(x - xr == 8 * a);
    assert(y - yr == 8 * b);
    vstd::arithmetic::div_mod::lemma_mod_multiples_vanish(a - b, xr - yr, 8);
    vstd::arithmetic::div_mod::lemma_mod_multiples_vanish(b, yr + 1, 8);
    vstd::arithmetic::div_mod::lemma_mod_multiples_vanish(b, yr + 7, 8);
    assert(x - y == 8 * (a - b) + (xr - yr));
}

/// Case analysis behind [`add_zeta8_powers`]: for an even separation the sum of two unit powers
/// is `2ζ₈^x`, `√2 ζ₈^{y±1}` or zero.
proof fn lemma_zeta_sum_cases(x: int, y: int)
    requires
        (x - y) % 2 == 0,
    ensures
        (x - y) % 8 == 0 ==> cyc_add(zeta(x), zeta(y)) == cyc_add(zeta(x % 8), zeta(x % 8)),
        (x - y) % 8 == 2 ==> cyc_add(zeta(x), zeta(y)) == sqrt2_times_zeta((y + 1) % 8),
        (x - y) % 8 == 6 ==> cyc_add(zeta(x), zeta(y)) == sqrt2_times_zeta((y + 7) % 8),
        (x - y) % 8 == 4 ==> cyc_add(zeta(x), zeta(y)) == cyc_zero(),
        (x - y) % 8 != 4 ==> cyc_add(zeta(x), zeta(y)) != cyc_zero(),
        zeta(x % 8) == zeta(x),
{
    let a = x % 8;
    let b = y % 8;
    assert(zeta(x) == zeta(a));
    assert(zeta(y) == zeta(b));
    assert((x - y) % 8 == (a - b) % 8);
    let c = (y + 1) % 8;
    let e = (y + 7) % 8;
    assert(c == (b + 1) % 8);
    assert(e == (b + 7) % 8);
    assert((c + 1) % 8 == (b + 2) % 8);
    assert((c - 1) % 8 == b);
    assert((e + 1) % 8 == b);
    assert((e - 1) % 8 == (b + 6) % 8);
    assert(zeta(c + 1) == zeta((b + 2) % 8));
    assert(zeta(c - 1) == zeta(b));
    assert(zeta(e + 1) == zeta(b));
    assert(zeta(e - 1) == zeta((b + 6) % 8));
}

/// Combines the at-most-two unit `ζ₈` powers contributing to a single amplitude, returning the
/// `ζ₈` exponent of their sum, or `None` when the amplitude vanishes.
pub fn combine_zeta8_powers(terms: &[i64]) -> (r: Option<u8>)
    requires
        terms@.len() <= 2,
        terms@.len() == 2 ==> (terms@[0] - terms@[1]) % 2 == 0,
    ensures
        terms@.len() == 0 ==> r is None,
        terms@.len() == 1 ==> r == Some((terms@[0] as int % 8) as u8),
        terms@.len() == 2 ==> (r is None <==> zeta8_sum_exponent(terms@[0] as int, terms@[1] as int) is None),
        terms@.len() == 2 ==> (r matches Some(e) ==> zeta8_sum_exponent(terms@[0] as int, terms@[1] as int)
            == Some(e as int)),
        terms@.len() == 1 ==> (r matches Some(e) && is_positive_multiple_of_zeta(zeta(terms@[0] as int), e as int)),
        terms@.len() == 2 ==> (r is None <==> cyc_add(zeta(terms@[0] as int), zeta(terms@[1] as int)) == cyc_zero()),
        terms@.len() == 2 ==> (r matches Some(e) ==> is_positive_multiple_of_zeta(
            cyc_add(zeta(terms@[0] as int), zeta(terms@[1] as int)),
            e as int,
        )),
{
    if terms.len() == 0 {
        None
    } else if terms.len() == 1 {
        let e = normalize_exponent(terms[0]);
        proof {
            let t = terms@[0] as int;
            assert(zeta(t % 8) == zeta(t));
        }
        Some(e)
    } else {
        add_zeta8_powers(terms[0], terms[1])
    }
}

/// The sum of two unit `ζ₈` powers does not depend on their order, and neither does the
/// exponent that [`add_zeta8_powers`] reports for it.
pub proof fn lemma_zeta8_sum_exponent_symmetric(x: int, y: int)
    requires
        (x - y) % 2 == 0,
    ensures
        zeta8_sum_exponent(x, y) == zeta8_sum_exponent(y, x),
        cyc_add(zeta(x), zeta(y)) == cyc_add(zeta(y), zeta(x)),
{
    let d = (x - y) % 8;
    assert((y - x) % 8 == (8 - d) % 8);
    if d == 2 {
        assert((x + 7) % 8 == (y + 1) % 8);
    }
    if d == 6 {
        assert((x + 1) % 8 == (y + 7) % 8);
    }
    if d == 0 {
        assert(x % 8 == y % 8);
    }
}

} // verus!
