//! Vectors and matrices over the two-element field `𝔽₂`.
//!
//! A bit vector is a `Vec<bool>` viewed as a `Seq<bool>`; a [`BitMatrix`] is a list of rows of a
//! common width. Addition is exclusive or and multiplication is conjunction.
use vstd::prelude::*;

verus! {

/// `⟨a, b⟩` restricted to the first `n` coordinates.
pub open spec fn dot_prefix(a: Seq<bool>, b: Seq<bool>, n: int) -> bool
    decreases n,
{
    if n <= 0 {
        false
    } else {
        dot_prefix(a, b, n - 1) != (a[n - 1] && b[n - 1])
    }
}

/// The `𝔽₂` inner product of two vectors of the length of `a`.
pub open spec fn bit_dot(a: Seq<bool>, b: Seq<bool>) -> bool {
    dot_prefix(a, b, a.len() as int)
}

/// Coordinate-wise sum (exclusive or) of two vectors of the length of `a`.
pub open spec fn bit_xor(a: Seq<bool>, b: Seq<bool>) -> Seq<bool> {
    Seq::new(a.len(), |i: int| a[i] != b[i])
}

/// The all-zero vector of length `n`.
pub open spec fn bit_zeros(n: nat) -> Seq<bool> {
    Seq::new(n, |i: int| false)
}

/// `true` iff every coordinate of `a` is zero.
pub open spec fn bit_is_zero(a: Seq<bool>) -> bool {
    forall|i: int| 0 <= i < a.len() ==> !#[trigger] a[i]
}

/// The unit vector `e_i` of length `n`.
pub open spec fn bit_unit(n: nat, i: int) -> Seq<bool> {
    Seq::new(n, |j: int| j == i)
}

/// The sum of the rows of `rows` listed in `indices` (of width `width`).
pub open spec fn row_sum_spec(rows: Seq<Seq<bool>>, indices: Seq<usize>, width: nat) -> Seq<bool>
    decreases indices.len(),
{
    if indices.len() == 0 {
        bit_zeros(width)
    } else {
        bit_xor(row_sum_spec(rows, indices.drop_last(), width), rows[indices.last() as int])
    }
}

/// `Σ_{i < n} c_i · rows_i`: the linear combination of the first `n` rows with coefficients `c`.
pub open spec fn combination_prefix(rows: Seq<Seq<bool>>, c: Seq<bool>, width: nat, n: int) -> Seq<bool>
    decreases n,
{
    if n <= 0 {
        bit_zeros(width)
    } else if c[n - 1] {
        bit_xor(combination_prefix(rows, c, width, n - 1), rows[n - 1])
    } else {
        combination_prefix(rows, c, width, n - 1)
    }
}

/// `Σ_i c_i · rows_i` over all rows.
pub open spec fn combination(rows: Seq<Seq<bool>>, c: Seq<bool>, width: nat) -> Seq<bool> {
    combination_prefix(rows, c, width, rows.len() as int)
}

/// The matrix-vector product `M v`.
pub open spec fn mat_vec_spec(rows: Seq<Seq<bool>>, v: Seq<bool>) -> Seq<bool> {
    Seq::new(rows.len(), |i: int| bit_dot(rows[i], v))
}

/// A rectangular matrix over `𝔽₂`, stored by rows.
pub struct BitMatrix {
    pub rows: Vec<Vec<bool>>,
    pub column_count: usize,
}

impl View for BitMatrix {
    type V = Seq<Seq<bool>>;

    open spec fn view(&self) -> Seq<Seq<bool>> {
        self.rows@.map_values(|r: Vec<bool>| r@)
    }
}

impl BitMatrix {
    /// Every row has `column_count` entries.
    pub open spec fn well_formed(&self) -> bool {
        forall|i: int| 0 <= i < self.rows@.len() ==> (#[trigger] self.rows@[i])@.len() == self.column_count
    }

    /// Entry `(row, column)` of the matrix.
    pub open spec fn entry(&self, row: int, column: int) -> bool {
        self.rows@[row]@[column]
    }

    /// The all-zero matrix with the given shape.
    pub fn zeros(row_count: usize, column_count: usize) -> (m: BitMatrix)
        ensures
            m.well_formed(),
            m.rows@.len() == row_count,
            m.column_count == column_count,
            forall|i: int| 0 <= i < row_count ==> (#[trigger] m@[i]) == bit_zeros(column_count as nat),
    {
        let mut rows: Vec<Vec<bool>> = Vec::new();
        let mut i: usize = 0;
        while i < row_count
            invariant
                i <= row_count,
                rows@.len() == i,
                forall|k: int| 0 <= k < i ==> (#[trigger] rows@[k])@ == bit_zeros(column_count as nat),
            decreases row_count - i,
        {
            rows.push(zeros(column_count));
            i = i + 1;
        }
        BitMatrix { rows, column_count }
    }

    pub fn row_count(&self) -> (r: usize)
        ensures
            r == self.rows@.len(),
    {
        self.rows.len()
    }

    /// Reads entry `(row, column)`.
    pub fn get(&self, row: usize, column: usize) -> (b: bool)
        requires
            self.well_formed(),
            row < self.rows@.len(),
            column < self.column_count,
        ensures
            b == self.entry(row as int, column as int),
    {
        self.rows[row][column]
    }

    /// Writes entry `(row, column)`.
    pub fn set(&mut self, row: usize, column: usize, value: bool)
        requires
            old(self).well_formed(),
            row < old(self).rows@.len(),
            column < old(self).column_count,
        ensures
            final(self).well_formed(),
            final(self).column_count == old(self).column_count,
            final(self).rows@.len() == old(self).rows@.len(),
            final(self)@ == old(self)@.update(row as int, old(self)@[row as int].update(column as int, value)),
    {
        let mut r = self.rows[row].clone();
        r.set(column, value);
        self.rows.set(row, r);
        proof {
            assert(self@ =~= old(self)@.update(row as int, old(self)@[row as int].update(column as int, value)));
        }
    }

    /// Adds `v` to row `row`.
    pub fn row_xor_assign(&mut self, row: usize, v: &Vec<bool>)
        requires
            old(self).well_formed(),
            row < old(self).rows@.len(),
            v@.len() == old(self).column_count,
        ensures
            final(self).well_formed(),
            final(self).column_count == old(self).column_count,
            final(self).rows@.len() == old(self).rows@.len(),
            final(self)@ == old(self)@.update(row as int, bit_xor(old(self)@[row as int], v@)),
    {
        let mut r = self.rows[row].clone();
        xor_assign(&mut r, v);
        self.rows.set(row, r);
        proof {
            assert(self@ =~= old(self)@.update(row as int, bit_xor(old(self)@[row as int], v@)));
        }
    }

    /// Replaces row `row` by `v`.
    pub fn assign_row(&mut self, row: usize, v: Vec<bool>)
        requires
            old(self).well_formed(),
            row < old(self).rows@.len(),
            v@.len() == old(self).column_count,
        ensures
            final(self).well_formed(),
            final(self).column_count == old(self).column_count,
            final(self).rows@.len() == old(self).rows@.len(),
            final(self)@ == old(self)@.update(row as int, v@),
    {
        self.rows.set(row, v);
        proof {
            assert(self@ =~= old(self)@.update(row as int, v@));
        }
    }
}

/// `m` truncated or padded with zero entries to `rows × columns`.
pub open spec fn resize_matrix(m: Seq<Seq<bool>>, rows: nat, columns: nat) -> Seq<Seq<bool>> {
    Seq::new(rows, |i: int| Seq::new(columns, |j: int| i < m.len() && j < m[i].len() && m[i][j]))
}

impl BitMatrix {
    /// The matrix truncated or padded with zeros to `rows × columns`.
    pub fn resized(&self, rows: usize, columns: usize) -> (r: BitMatrix)
        requires
            self.well_formed(),
        ensures
            r.well_formed(),
            r.rows@.len() == rows,
            r.column_count == columns,
            r@ == resize_matrix(self@, rows as nat, columns as nat),
    {
        let mut out: Vec<Vec<bool>> = Vec::new();
        let mut i: usize = 0;
        while i < rows
            invariant
                self.well_formed(),
                i <= rows,
                out@.len() == i,
                forall|k: int| 0 <= k < i ==> (#[trigger] out@[k])@ == resize_matrix(self@, rows as nat, columns as nat)[k],
            decreases rows - i,
        {
            let mut row: Vec<bool> = Vec::new();
            let mut j: usize = 0;
            while j < columns
                invariant
                    self.well_formed(),
                    i < rows,
                    j <= columns,
                    row@.len() == j,
                    forall|k: int| 0 <= k < j ==> row@[k] == (i < self@.len() && k < self@[i as int].len() && self@[i as int][k]),
                decreases columns - j,
            {
                let bit = i < self.rows.len() && j < self.column_count && self.rows[i][j];
                proof {
                    if i < self@.len() {
                        assert(self@[i as int] == self.rows@[i as int]@);
                    }
                }
                row.push(bit);
                j = j + 1;
            }
            proof {
                assert(row@ =~= resize_matrix(self@, rows as nat, columns as nat)[i as int]);
            }
            out.push(row);
            i = i + 1;
        }
        let r = BitMatrix { rows: out, column_count: columns };
        proof {
            assert(r@ =~= resize_matrix(self@, rows as nat, columns as nat));
        }
        r
    }
}

/// `Σ_i mask_i · row_i` over the rows of `m`.
pub fn combination_of_rows(m: &BitMatrix, mask: &Vec<bool>) -> (r: Vec<bool>)
    requires
        m.well_formed(),
        mask@.len() == m.rows@.len(),
    ensures
        r@ == combination(m@, mask@, m.column_count as nat),
        r@.len() == m.column_count,
{
    let mut r = zeros(m.column_count);
    let mut i: usize = 0;
    while i < m.rows.len()
        invariant
            m.well_formed(),
            mask@.len() == m.rows@.len(),
            i <= m.rows@.len(),
            r@.len() == m.column_count,
            r@ == combination_prefix(m@, mask@, m.column_count as nat, i as int),
        decreases m.rows@.len() - i,
    {
        if mask[i] {
            xor_assign(&mut r, &m.rows[i]);
        }
        i = i + 1;
    }
    r
}

/// The first of `p, 2p, 4p, …` that is at least `x`.
pub open spec fn doubling_until(p: nat, x: nat) -> nat
    decreases (if p >= x {
        0
    } else {
        x - p
    }),
{
    if p >= x || p == 0 {
        p
    } else {
        doubling_until(2 * p, x)
    }
}

/// The smallest power of two that is at least `x`.
pub open spec fn next_pow2(x: nat) -> nat {
    doubling_until(1, x)
}

/// Doubling from a positive start ends at or above both the start and the target.
pub proof fn lemma_doubling_until(p: nat, x: nat)
    requires
        p >= 1,
    ensures
        doubling_until(p, x) >= x,
        doubling_until(p, x) >= p,
    decreases (if p >= x {
        0
    } else {
        x - p
    }),
{
    if p < x {
        lemma_doubling_until(2 * p, x);
    }
}

/// The smallest power of two that is at least `x`.
pub fn next_power_of_two(x: usize) -> (r: usize)
    requires
        x <= 0x4000_0000,
    ensures
        r == next_pow2(x as nat),
        r >= x,
        r >= 1,
        r <= 2 * x || r == 1,
{
    let mut p: usize = 1;
    while p < x
        invariant
            x <= 0x4000_0000,
            1 <= p <= 0x8000_0000,
            p == 1 || p < 2 * x,
            doubling_until(p as nat, x as nat) == next_pow2(x as nat),
        decreases 0x8000_0000 - p,
    {
        p = p * 2;
    }
    p
}

/// The all-zero vector of length `n`.
pub fn zeros(n: usize) -> (v: Vec<bool>)
    ensures
        v@ == bit_zeros(n as nat),
{
    let mut v: Vec<bool> = Vec::new();
    let mut i: usize = 0;
    while i < n
        invariant
            i <= n,
            v@ == bit_zeros(i as nat),
        decreases n - i,
    {
        v.push(false);
        i = i + 1;
        proof {
            assert(v@ =~= bit_zeros(i as nat));
        }
    }
    v
}

/// The unit vector `e_index` of length `n`.
pub fn unit(n: usize, index: usize) -> (v: Vec<bool>)
    requires
        index < n,
    ensures
        v@ == bit_unit(n as nat, index as int),
{
    let mut v = zeros(n);
    v.set(index, true);
    proof {
        assert(v@ =~= bit_unit(n as nat, index as int));
    }
    v
}

/// `a ← a + b`.
pub fn xor_assign(a: &mut Vec<bool>, b: &Vec<bool>)
    requires
        old(a)@.len() == b@.len(),
    ensures
        final(a)@ == bit_xor(old(a)@, b@),
{
    let n = a.len();
    let mut i: usize = 0;
    while i < n
        invariant
            n == a@.len(),
            n == b@.len(),
            i <= n,
            forall|k: int| 0 <= k < i ==> a@[k] == (old(a)@[k] != b@[k]),
            forall|k: int| i <= k < n ==> a@[k] == old(a)@[k],
        decreases n - i,
    {
        let v = a[i] != b[i];
        a.set(i, v);
        i = i + 1;
    }
    proof {
        assert(a@ =~= bit_xor(old(a)@, b@));
    }
}

/// The inner product `⟨a, b⟩`.
pub fn dot(a: &Vec<bool>, b: &Vec<bool>) -> (r: bool)
    requires
        a@.len() == b@.len(),
    ensures
        r == bit_dot(a@, b@),
{
    let mut r = false;
    let mut i: usize = 0;
    while i < a.len()
        invariant
            a@.len() == b@.len(),
            i <= a@.len(),
            r == dot_prefix(a@, b@, i as int),
        decreases a@.len() - i,
    {
        r = r != (a[i] && b[i]);
        i = i + 1;
    }
    r
}

/// `true` iff all entries of `a` are zero.
pub fn is_zero(a: &Vec<bool>) -> (r: bool)
    ensures
        r == bit_is_zero(a@),
{
    let mut i: usize = 0;
    while i < a.len()
        invariant
            i <= a@.len(),
            forall|k: int| 0 <= k < i ==> !a@[k],
        decreases a@.len() - i,
    {
        if a[i] {
            return false;
        }
        i = i + 1;
    }
    true
}

/// The indices of the nonzero entries of `a`, in increasing order.
pub fn support(a: &Vec<bool>) -> (s: Vec<usize>)
    ensures
        forall|k: int| 0 <= k < s@.len() ==> (#[trigger] s@[k]) < a@.len() && a@[s@[k] as int],
        forall|i: int| 0 <= i < a@.len() && a@[i] ==> s@.contains(i as usize),
        forall|k: int, l: int| 0 <= k < l < s@.len() ==> s@[k] < s@[l],
{
    let mut s: Vec<usize> = Vec::new();
    let mut i: usize = 0;
    while i < a.len()
        invariant
            i <= a@.len(),
            forall|k: int| 0 <= k < s@.len() ==> (#[trigger] s@[k]) < i && a@[s@[k] as int],
            forall|j: int| 0 <= j < i && a@[j] ==> s@.contains(j as usize),
            forall|k: int, l: int| 0 <= k < l < s@.len() ==> s@[k] < s@[l],
        decreases a@.len() - i,
    {
        let ghost old_s = s@;
        if a[i] {
            s.push(i);
            proof {
                assert(s@[s@.len() - 1] == i);
                assert forall|j: int| 0 <= j < i && a@[j] implies s@.contains(j as usize) by {
                    let w = choose|w: int| 0 <= w < old_s.len() && old_s[w] == j as usize;
                    assert(s@[w] == j as usize);
                }
            }
        }
        i = i + 1;
    }
    s
}

/// The sum of the rows of `m` listed in `indices`.
pub fn row_sum(m: &BitMatrix, indices: &[usize]) -> (r: Vec<bool>)
    requires
        m.well_formed(),
        forall|k: int| 0 <= k < indices@.len() ==> (#[trigger] indices@[k]) < m.rows@.len(),
    ensures
        r@ == row_sum_spec(m@, indices@, m.column_count as nat),
        r@.len() == m.column_count,
{
    let mut r = zeros(m.column_count);
    let mut k: usize = 0;
    while k < indices.len()
        invariant
            m.well_formed(),
            forall|j: int| 0 <= j < indices@.len() ==> (#[trigger] indices@[j]) < m.rows@.len(),
            k <= indices@.len(),
            r@ == row_sum_spec(m@, indices@.take(k as int), m.column_count as nat),
            r@.len() == m.column_count,
        decreases indices@.len() - k,
    {
        let idx = indices[k];
        xor_assign(&mut r, &m.rows[idx]);
        proof {
            assert(indices@.take(k + 1).drop_last() =~= indices@.take(k as int));
        }
        k = k + 1;
    }
    proof {
        assert(indices@.take(indices@.len() as int) =~= indices@);
    }
    r
}

/// The number of positions below `m` at which `bits` equals `value`.
pub open spec fn count_equal(bits: Seq<bool>, value: bool, m: int) -> nat
    decreases m,
{
    if m <= 0 {
        0
    } else {
        count_equal(bits, value, m - 1) + if bits[m - 1] == value {
            1nat
        } else {
            0nat
        }
    }
}

/// Counting in a prefix ignores what follows it.
pub proof fn lemma_count_equal_prefix(bits: Seq<bool>, extended: Seq<bool>, value: bool, m: int)
    requires
        0 <= m <= bits.len(),
        bits.len() <= extended.len(),
        forall|i: int| 0 <= i < bits.len() ==> bits[i] == extended[i],
    ensures
        count_equal(bits, value, m) == count_equal(extended, value, m),
    decreases m,
{
    if m > 0 {
        lemma_count_equal_prefix(bits, extended, value, m - 1);
    }
}

/// Counts grow with the prefix.
pub proof fn lemma_count_equal_monotone(bits: Seq<bool>, value: bool, m: int, k: int)
    requires
        m <= k,
    ensures
        count_equal(bits, value, m) <= count_equal(bits, value, k),
    decreases k - m,
{
    if m < k {
        lemma_count_equal_monotone(bits, value, m, k - 1);
    }
}

/// The sum of the entries of `bits` at the listed positions, repetitions counted.
pub open spec fn entries_parity(bits: Seq<bool>, indices: Seq<usize>) -> bool
    decreases indices.len(),
{
    if indices.len() == 0 {
        false
    } else {
        entries_parity(bits, indices.drop_last()) != bits[indices.last() as int]
    }
}

/// The sum of the entries of `bits` at the listed positions, repetitions counted.
pub fn parity_at(bits: &Vec<bool>, indices: &[usize]) -> (r: bool)
    requires
        forall|k: int| 0 <= k < indices@.len() ==> (#[trigger] indices@[k]) < bits@.len(),
    ensures
        r == entries_parity(bits@, indices@),
{
    let mut r = false;
    let mut k: usize = 0;
    while k < indices.len()
        invariant
            forall|j: int| 0 <= j < indices@.len() ==> (#[trigger] indices@[j]) < bits@.len(),
            k <= indices@.len(),
            r == entries_parity(bits@, indices@.take(k as int)),
        decreases indices@.len() - k,
    {
        proof {
            assert(indices@.take(k + 1).drop_last() =~= indices@.take(k as int));
        }
        r = r != bits[indices[k]];
        k = k + 1;
    }
    proof {
        assert(indices@.take(indices@.len() as int) =~= indices@);
    }
    r
}

/// The matrix-vector product `M v`.
pub fn mat_vec(m: &BitMatrix, v: &Vec<bool>) -> (r: Vec<bool>)
    requires
        m.well_formed(),
        v@.len() == m.column_count,
    ensures
        r@ == mat_vec_spec(m@, v@),
{
    let mut r: Vec<bool> = Vec::new();
    let mut i: usize = 0;
    while i < m.rows.len()
        invariant
            m.well_formed(),
            v@.len() == m.column_count,
            i <= m.rows@.len(),
            r@.len() == i,
            forall|k: int| 0 <= k < i ==> r@[k] == bit_dot(m@[k], v@),
        decreases m.rows@.len() - i,
    {
        let b = dot(&m.rows[i], v);
        r.push(b);
        i = i + 1;
    }
    proof {
        assert(r@ =~= mat_vec_spec(m@, v@));
    }
    r
}

/// `true` iff `a` and `b` are the same vector.
pub fn bits_equal(a: &Vec<bool>, b: &Vec<bool>) -> (r: bool)
    ensures
        r == (a@ == b@),
{
    if a.len() != b.len() {
        return false;
    }
    let mut k: usize = 0;
    while k < a.len()
        invariant
            a@.len() == b@.len(),
            k <= a@.len(),
            forall|j: int| 0 <= j < k ==> a@[j] == b@[j],
        decreases a@.len() - k,
    {
        if a[k] != b[k] {
            return false;
        }
        k = k + 1;
    }
    proof {
        assert(a@ =~= b@);
    }
    true
}

} // verus!
