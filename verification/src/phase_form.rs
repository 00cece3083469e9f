//! The `𝔽₂` phase form `i^⟨p, r⟩ (−1)^⟨B r + s, r⟩` of the phased outcome-complete simulation.
use vstd::prelude::*;
use crate::gf2::{BitMatrix, dot_prefix};
use crate::pauli::b2i;

verus! {

/// `Σ_{row<k} r_row · B[row][column]`, the `column`-th entry of `rᵀ B` over the first `k` rows.
pub open spec fn column_dot(r: Seq<bool>, b: Seq<Seq<bool>>, column: int, k: int) -> bool
    decreases k,
{
    if k <= 0 {
        false
    } else {
        column_dot(r, b, column, k - 1) != (r[k - 1] && b[k - 1][column])
    }
}

/// `rᵀ B r = Σ_{column<k} r_column · (rᵀ B)_column`, with `B` read on its first `n` rows.
pub open spec fn quadratic_form(r: Seq<bool>, b: Seq<Seq<bool>>, n: int, k: int) -> bool
    decreases k,
{
    if k <= 0 {
        false
    } else {
        quadratic_form(r, b, n, k - 1) != (r[k - 1] && column_dot(r, b, k - 1, n))
    }
}

/// The `ζ₈` exponent `2⟨p, r⟩ + 4(⟨s, r⟩ + rᵀ B r) (mod 8)` over the first `n` coordinates.
pub open spec fn phase_form_value(n: int, r: Seq<bool>, p: Seq<bool>, s: Seq<bool>, b: Seq<Seq<bool>>) -> int {
    (2 * b2i(dot_prefix(r, p, n)) + 4 * b2i(dot_prefix(r, s, n) != quadratic_form(r, b, n, n))) % 8
}

/// Evaluates the `ζ₈ = e^{iπ/4}` exponent of the phase form `i^⟨p, r⟩ (−1)^⟨B r + s, r⟩` for a
/// random-bit assignment `r`, reading all inputs on their first `random_count` coordinates.
pub fn phase_form_exponent(
    random_count: usize,
    random_bits: &Vec<bool>,
    linear_i: &Vec<bool>,
    linear_sign: &Vec<bool>,
    quadratic: &BitMatrix,
) -> (r: u8)
    requires
        random_count <= random_bits@.len(),
        random_count <= linear_i@.len(),
        random_count <= linear_sign@.len(),
        quadratic.well_formed(),
        random_count <= quadratic.rows@.len(),
        random_count <= quadratic.column_count,
    ensures
        r as int == phase_form_value(random_count as int, random_bits@, linear_i@, linear_sign@, quadratic@),
        r < 8,
{
    let mut linear_i_parity = false;
    let mut sign = false;
    let mut column: usize = 0;
    while column < random_count
        invariant
            random_count <= random_bits@.len(),
            random_count <= linear_i@.len(),
            random_count <= linear_sign@.len(),
            quadratic.well_formed(),
            random_count <= quadratic.rows@.len(),
            random_count <= quadratic.column_count,
            column <= random_count,
            linear_i_parity == dot_prefix(random_bits@, linear_i@, column as int),
            sign == (dot_prefix(random_bits@, linear_sign@, column as int) != quadratic_form(
                random_bits@,
                quadratic@,
                random_count as int,
                column as int,
            )),
        decreases random_count - column,
    {
        if random_bits[column] {
            linear_i_parity = linear_i_parity != linear_i[column];
            sign = sign != linear_sign[column];
            let ghost sign_before = sign;
            let mut row: usize = 0;
            while row < random_count
                invariant
                    random_count <= random_bits@.len(),
                    quadratic.well_formed(),
                    random_count <= quadratic.rows@.len(),
                    random_count <= quadratic.column_count,
                    column < random_count,
                    row <= random_count,
                    sign == (sign_before != column_dot(random_bits@, quadratic@, column as int, row as int)),
                decreases random_count - row,
            {
                if random_bits[row] && quadratic.rows[row][column] {
                    sign = !sign;
                }
                row = row + 1;
            }
        }
        column = column + 1;
    }
    (2 * (if linear_i_parity {
        1u8
    } else {
        0u8
    }) + 4 * (if sign {
        1u8
    } else {
        0u8
    })) % 8
}

} // verus!
