//! The null space of a matrix over `𝔽₂`.
//!
//! The rows are brought to reduced row echelon form by row swaps and row additions, which keep the
//! set of vectors orthogonal to all rows. The null space then has one basis vector per non-pivot
//! column: a one at that column and, at each pivot column, the entry of the pivot's row there.
use vstd::prelude::*;
use crate::gf2::{BitMatrix, bit_dot, bit_is_zero, bit_xor, dot_prefix, mat_vec_spec, zeros};

verus! {

/// The rows of a matrix stored as vectors.
pub open spec fn rows_view(rows: Seq<Vec<bool>>) -> Seq<Seq<bool>> {
    rows.map_values(|r: Vec<bool>| r@)
}

/// Every vector of length `width` that `matrix` sends to zero is a combination of `vectors`.
pub open spec fn spans_kernel(vectors: Seq<Seq<bool>>, matrix: Seq<Seq<bool>>, width: nat) -> bool {
    forall|d: Seq<bool>|
        d.len() == width && #[trigger] bit_is_zero(mat_vec_spec(matrix, d)) ==> exists|c: Seq<bool>|
            c.len() == vectors.len() && #[trigger] crate::gf2::combination(vectors, c, width) == d
}

/// Every row of `rows` is orthogonal to `d`.
pub open spec fn orthogonal_to_rows(rows: Seq<Seq<bool>>, d: Seq<bool>) -> bool {
    forall|k: int| 0 <= k < rows.len() ==> !bit_dot(#[trigger] rows[k], d)
}

/// `rows` and `other` leave the same vectors of length `width` orthogonal to all their rows.
pub open spec fn same_orthogonal(rows: Seq<Seq<bool>>, other: Seq<Seq<bool>>, width: nat) -> bool {
    forall|d: Seq<bool>|
        d.len() == width ==> (#[trigger] orthogonal_to_rows(rows, d) <==> orthogonal_to_rows(other, d))
}

/// `⟨a, b⟩` when `a_i b_i` vanishes at every position but `p`.
proof fn lemma_dot_prefix_one_position(a: Seq<bool>, b: Seq<bool>, p: int, k: int)
    requires
        0 <= k <= a.len(),
        forall|i: int| 0 <= i < a.len() && i != p ==> !(#[trigger] a[i] && b[i]),
    ensures
        dot_prefix(a, b, k) == (0 <= p < k && a[p] && b[p]),
    decreases k,
{
    if k > 0 {
        lemma_dot_prefix_one_position(a, b, p, k - 1);
    }
}

/// `⟨a, b⟩ = a_p b_p` when `a_i b_i` vanishes at every position but `p`.
proof fn lemma_dot_one_position(a: Seq<bool>, b: Seq<bool>, p: int)
    requires
        forall|i: int| 0 <= i < a.len() && i != p ==> !(#[trigger] a[i] && b[i]),
    ensures
        bit_dot(a, b) == (0 <= p < a.len() && a[p] && b[p]),
{
    lemma_dot_prefix_one_position(a, b, p, a.len() as int);
}

/// `⟨a + b, d⟩ = ⟨a, d⟩ + ⟨b, d⟩`.
proof fn lemma_dot_xor_left(a: Seq<bool>, b: Seq<bool>, d: Seq<bool>)
    requires
        a.len() == b.len(),
        a.len() == d.len(),
    ensures
        bit_dot(bit_xor(a, b), d) == (bit_dot(a, d) != bit_dot(b, d)),
{
    crate::decomposition::lemma_dot_symmetric(bit_xor(a, b), d);
    crate::decomposition::lemma_dot_xor_right(d, a, b);
    crate::decomposition::lemma_dot_symmetric(a, d);
    crate::decomposition::lemma_dot_symmetric(b, d);
}

/// Exchanging two rows changes nothing about orthogonality.
proof fn lemma_orthogonal_swap(rows: Seq<Seq<bool>>, i: int, j: int, width: nat)
    requires
        0 <= i < rows.len(),
        0 <= j < rows.len(),
    ensures
        same_orthogonal(rows.update(i, rows[j]).update(j, rows[i]), rows, width),
{
    let swapped = rows.update(i, rows[j]).update(j, rows[i]);
    assert forall|d: Seq<bool>| d.len() == width implies (#[trigger] orthogonal_to_rows(swapped, d)
        <==> orthogonal_to_rows(rows, d)) by {
        if orthogonal_to_rows(swapped, d) {
            assert forall|k: int| 0 <= k < rows.len() implies !bit_dot(#[trigger] rows[k], d) by {
                if k == i {
                    assert(swapped[j] == rows[i]);
                } else if k == j {
                    assert(swapped[i] == rows[j]);
                } else {
                    assert(swapped[k] == rows[k]);
                }
            }
        }
        if orthogonal_to_rows(rows, d) {
            assert forall|k: int| 0 <= k < swapped.len() implies !bit_dot(#[trigger] swapped[k], d) by {
                if k == j {
                    assert(swapped[k] == rows[i]);
                } else if k == i {
                    assert(swapped[k] == rows[j]);
                } else {
                    assert(swapped[k] == rows[k]);
                }
            }
        }
    }
}

/// Adding row `p` to another row `o` changes nothing about orthogonality.
proof fn lemma_orthogonal_add(rows: Seq<Seq<bool>>, o: int, p: int, width: nat)
    requires
        0 <= o < rows.len(),
        0 <= p < rows.len(),
        o != p,
        forall|k: int| 0 <= k < rows.len() ==> (#[trigger] rows[k]).len() == width,
    ensures
        same_orthogonal(rows.update(o, bit_xor(rows[o], rows[p])), rows, width),
{
    let added = rows.update(o, bit_xor(rows[o], rows[p]));
    assert forall|d: Seq<bool>| d.len() == width implies (#[trigger] orthogonal_to_rows(added, d)
        <==> orthogonal_to_rows(rows, d)) by {
        lemma_dot_xor_left(rows[o], rows[p], d);
        if orthogonal_to_rows(added, d) {
            assert forall|k: int| 0 <= k < rows.len() implies !bit_dot(#[trigger] rows[k], d) by {
                assert(!bit_dot(added[p], d));
                if k == o {
                    assert(!bit_dot(added[o], d));
                } else {
                    assert(added[k] == rows[k]);
                }
            }
        }
        if orthogonal_to_rows(rows, d) {
            assert forall|k: int| 0 <= k < added.len() implies !bit_dot(#[trigger] added[k], d) by {
                assert(!bit_dot(rows[p], d));
                if k != o {
                    assert(added[k] == rows[k]);
                } else {
                    assert(!bit_dot(rows[o], d));
                }
            }
        }
    }
}

/// The rows are in reduced row echelon form with the listed pivot columns: the pivot columns
/// increase, row `k` has its only pivot-column one at column `pivots[k]`, and the rows below the
/// rank vanish.
pub open spec fn is_reduced_echelon(rows: Seq<Seq<bool>>, pivots: Seq<usize>, width: nat) -> bool {
    &&& pivots.len() <= rows.len()
    &&& forall|k: int| 0 <= k < rows.len() ==> (#[trigger] rows[k]).len() == width
    &&& forall|k: int| 0 <= k < pivots.len() ==> (#[trigger] pivots[k]) < width
    &&& forall|k: int, l: int| 0 <= k < l < pivots.len() ==> pivots[k] < pivots[l]
    &&& forall|k: int, l: int|
        0 <= k < pivots.len() && 0 <= l < rows.len() ==> (#[trigger] rows[l])[(#[trigger] pivots[k]) as int] == (l
            == k)
    &&& forall|l: int| pivots.len() <= l < rows.len() ==> bit_is_zero(#[trigger] rows[l])
}

/// Brings the rows of `m` to reduced row echelon form, returning the rows, the pivot columns and
/// which columns are pivots. The reduced rows leave orthogonal exactly the vectors that the rows
/// of `m` leave orthogonal.
fn reduced_row_echelon(m: &BitMatrix) -> (r: (Vec<Vec<bool>>, Vec<usize>, Vec<bool>))
    requires
        m.well_formed(),
    ensures
        r.0@.len() == m.rows@.len(),
        is_reduced_echelon(rows_view(r.0@), r.1@, m.column_count as nat),
        same_orthogonal(rows_view(r.0@), m@, m.column_count as nat),
        r.2@.len() == m.column_count,
        forall|c: int|
            0 <= c < m.column_count ==> (#[trigger] r.2@[c] <==> exists|k: int|
                0 <= k < r.1@.len() && #[trigger] r.1@[k] == c),
{
    let columns = m.column_count;
    let mut reduced: Vec<Vec<bool>> = Vec::new();
    let mut i: usize = 0;
    while i < m.rows.len()
        invariant
            m.well_formed(),
            columns == m.column_count,
            i <= m.rows@.len(),
            reduced@.len() == i,
            rows_view(reduced@) == m@.take(i as int),
        decreases m.rows@.len() - i,
    {
        let row = m.rows[i].clone();
        proof {
            assert(row@ =~= m.rows@[i as int]@) by {
                assert forall|j: int| 0 <= j < row@.len() implies row@[j] == m.rows@[i as int]@[j] by {
                    assert(cloned::<bool>(m.rows@[i as int][j], row[j]));
                }
            }
        }
        let ghost before = reduced@;
        reduced.push(row);
        proof {
            assert forall|k: int| 0 <= k < i + 1 implies #[trigger] rows_view(reduced@)[k] == m@.take(i + 1)[k] by {
                if k < i {
                    assert(reduced@[k] == before[k]);
                    assert(rows_view(before)[k] == m@.take(i as int)[k]);
                }
            }
            assert(rows_view(reduced@) =~= m@.take(i + 1));
        }
        i = i + 1;
    }
    proof {
        assert(m@.take(m.rows@.len() as int) =~= m@);
        assert(same_orthogonal(rows_view(reduced@), m@, columns as nat));
        assert forall|k: int| 0 <= k < reduced@.len() implies (#[trigger] reduced@[k])@.len() == columns by {
            assert(rows_view(reduced@)[k] == m@[k]);
        }
    }
    let row_count = reduced.len();
    let mut pivot_columns: Vec<usize> = Vec::new();
    let mut is_pivot = zeros(columns);
    let mut rank: usize = 0;
    let mut column: usize = 0;
    while column < columns
        invariant
            m.well_formed(),
            columns == m.column_count,
            row_count == reduced@.len(),
            row_count == m.rows@.len(),
            forall|k: int| 0 <= k < row_count ==> (#[trigger] reduced@[k])@.len() == columns,
            same_orthogonal(rows_view(reduced@), m@, columns as nat),
            rank <= row_count,
            column <= columns,
            pivot_columns@.len() == rank,
            forall|k: int| 0 <= k < rank ==> (#[trigger] pivot_columns@[k]) < column,
            forall|k: int, l: int| 0 <= k < l < rank ==> pivot_columns@[k] < pivot_columns@[l],
            forall|k: int, l: int|
                0 <= k < rank && 0 <= l < row_count ==> (#[trigger] reduced@[l])@[(#[trigger] pivot_columns@[k]) as int]
                    == (l == k),
            forall|l: int, c: int| rank <= l < row_count && 0 <= c < column ==> !#[trigger] reduced@[l]@[c],
            is_pivot@.len() == columns,
            forall|c: int|
                0 <= c < columns ==> (#[trigger] is_pivot@[c] <==> exists|k: int|
                    0 <= k < rank && #[trigger] pivot_columns@[k] == c),
        decreases columns - column,
    {
        let ghost old_pivots = pivot_columns@;
        let ghost old_is_pivot = is_pivot@;
        let ghost old_rank = rank;
        let mut found = rank;
        while found < row_count && !reduced[found][column]
            invariant
                row_count == reduced@.len(),
                forall|k: int| 0 <= k < row_count ==> (#[trigger] reduced@[k])@.len() == columns,
                column < columns,
                rank <= found <= row_count,
                forall|l: int| rank <= l < found ==> !(#[trigger] reduced@[l])@[column as int],
            decreases row_count - found,
        {
            found = found + 1;
        }
        if found < row_count {
            let pivot_row = reduced[found].clone();
            let displaced = reduced[rank].clone();
            let ghost before_swap = rows_view(reduced@);
            let ghost pre = reduced@;
            reduced.set(found, displaced);
            reduced.set(rank, pivot_row.clone());
            proof {
                assert(rows_view(reduced@) =~= before_swap.update(found as int, before_swap[rank as int]).update(
                    rank as int,
                    before_swap[found as int],
                ));
                lemma_orthogonal_swap(before_swap, found as int, rank as int, columns as nat);
                assert(same_orthogonal(rows_view(reduced@), m@, columns as nat)) by {
                    assert forall|d: Seq<bool>| d.len() == columns implies (#[trigger] orthogonal_to_rows(
                        rows_view(reduced@),
                        d,
                    ) <==> orthogonal_to_rows(m@, d)) by {
                        assert(orthogonal_to_rows(rows_view(reduced@), d) <==> orthogonal_to_rows(before_swap, d));
                        assert(orthogonal_to_rows(before_swap, d) <==> orthogonal_to_rows(m@, d));
                    }
                }
            }
            let ghost swapped = reduced@;
            let mut other: usize = 0;
            while other < row_count
                invariant
                    m.well_formed(),
                    columns == m.column_count,
                    row_count == reduced@.len(),
                    forall|k: int| 0 <= k < row_count ==> (#[trigger] reduced@[k])@.len() == columns,
                    same_orthogonal(rows_view(reduced@), m@, columns as nat),
                    pivot_row@.len() == columns,
                    pivot_row@[column as int],
                    column < columns,
                    rank < row_count,
                    other <= row_count,
                    reduced@[rank as int]@ == pivot_row@,
                    swapped.len() == row_count,
                    forall|c: int| 0 <= c < column ==> !pivot_row@[c],
                    forall|k: int| 0 <= k < rank ==> !pivot_row@[(#[trigger] pivot_columns@[k]) as int],
                    forall|l: int|
                        0 <= l < row_count ==> (#[trigger] reduced@[l])@ == if l < other && l != rank
                            && swapped[l]@[column as int] {
                            bit_xor(swapped[l]@, pivot_row@)
                        } else {
                            swapped[l]@
                        },
                decreases row_count - other,
            {
                if other != rank && reduced[other][column] {
                    let mut updated = reduced[other].clone();
                    let ghost before_add = rows_view(reduced@);
                    crate::gf2::xor_assign(&mut updated, &pivot_row);
                    reduced.set(other, updated);
                    proof {
                        assert(rows_view(reduced@) =~= before_add.update(
                            other as int,
                            bit_xor(before_add[other as int], before_add[rank as int]),
                        ));
                        lemma_orthogonal_add(before_add, other as int, rank as int, columns as nat);
                        assert forall|d: Seq<bool>| d.len() == columns implies (#[trigger] orthogonal_to_rows(
                            rows_view(reduced@),
                            d,
                        ) <==> orthogonal_to_rows(m@, d)) by {
                            assert(orthogonal_to_rows(rows_view(reduced@), d) <==> orthogonal_to_rows(before_add, d));
                            assert(orthogonal_to_rows(before_add, d) <==> orthogonal_to_rows(m@, d));
                        }
                    }
                }
                other = other + 1;
            }
            proof {
                assert forall|l: int| 0 <= l < row_count implies (#[trigger] swapped[l])@ == if l == rank {
                    pre[found as int]@
                } else if l == found {
                    pre[rank as int]@
                } else {
                    pre[l]@
                } by {}
                assert forall|k: int, l: int|
                    0 <= k < rank + 1 && 0 <= l < row_count implies (#[trigger] reduced@[l])@[(
                #[trigger] pivot_columns@.push(column)[k]) as int] == (l == k) by {
                    if k < rank {
                        let c = pivot_columns@[k] as int;
                        assert(pivot_columns@.push(column)[k] == pivot_columns@[k]);
                        assert(!pivot_row@[c]);
                        if l == rank {
                            assert(pre[found as int]@[c] == (found == k));
                        } else if l == found {
                            assert(pre[rank as int]@[c] == (rank == k));
                        } else {
                            assert(pre[l]@[c] == (l == k));
                        }
                    } else {
                        assert(pivot_columns@.push(column)[k] == column);
                    }
                }
                assert forall|l: int, c: int| rank + 1 <= l < row_count && 0 <= c < column + 1 implies !#[trigger] reduced@[
                    l]@[c] by {
                    if c < column {
                        if l == found {
                            assert(!pre[rank as int]@[c]);
                        } else {
                            assert(!pre[l]@[c]);
                        }
                    }
                }
            }
            pivot_columns.push(column);
            is_pivot.set(column, true);
            rank = rank + 1;
        }
        proof {
            assert forall|c: int| 0 <= c < columns implies (#[trigger] is_pivot@[c] <==> exists|k: int|
                0 <= k < rank && #[trigger] pivot_columns@[k] == c) by {
                if rank > old_rank {
                    if c == column {
                        assert(pivot_columns@[rank - 1] == c);
                    } else {
                        assert(is_pivot@[c] == old_is_pivot[c]);
                        if old_is_pivot[c] {
                            let k = choose|k: int| 0 <= k < old_rank && #[trigger] old_pivots[k] == c;
                            assert(pivot_columns@[k] == c);
                        }
                        if exists|k: int| 0 <= k < rank && #[trigger] pivot_columns@[k] == c {
                            let k = choose|k: int| 0 <= k < rank && #[trigger] pivot_columns@[k] == c;
                            assert(k < old_rank);
                            assert(old_pivots[k] == c);
                        }
                    }
                }
            }
        }
        column = column + 1;
    }
    proof {
        let rows = rows_view(reduced@);
        assert forall|l: int| rank <= l < rows.len() implies bit_is_zero(#[trigger] rows[l]) by {
            assert forall|c: int| 0 <= c < rows[l].len() implies !rows[l][c] by {
                assert(!reduced@[l]@[c]);
            }
        }
    }
    (reduced, pivot_columns, is_pivot)
}

/// The null-space vector of the non-pivot column `free`: a one at `free`, the entry `rows[k][free]`
/// at each pivot column `pivots[k]`, and zeros at the other non-pivot columns.
fn kernel_vector(rows: &Vec<Vec<bool>>, pivots: &Vec<usize>, free: usize, width: usize) -> (v: Vec<bool>)
    requires
        is_reduced_echelon(rows_view(rows@), pivots@, width as nat),
        free < width,
        forall|k: int| 0 <= k < pivots@.len() ==> #[trigger] pivots@[k] != free,
    ensures
        v@.len() == width,
        v@[free as int],
        forall|k: int| 0 <= k < pivots@.len() ==> v@[(#[trigger] pivots@[k]) as int] == rows@[k]@[free as int],
        forall|c: int|
            0 <= c < width && c != free && !(exists|k: int| 0 <= k < pivots@.len() && #[trigger] pivots@[k] == c)
                ==> !#[trigger] v@[c],
{
    let mut v = zeros(width);
    v.set(free, true);
    let mut k: usize = 0;
    while k < pivots.len()
        invariant
            is_reduced_echelon(rows_view(rows@), pivots@, width as nat),
            free < width,
            forall|j: int| 0 <= j < pivots@.len() ==> #[trigger] pivots@[j] != free,
            k <= pivots@.len(),
            v@.len() == width,
            v@[free as int],
            forall|j: int| 0 <= j < k ==> v@[(#[trigger] pivots@[j]) as int] == rows@[j]@[free as int],
            forall|c: int|
                0 <= c < width && c != free && !(exists|j: int| 0 <= j < k && #[trigger] pivots@[j] == c)
                    ==> !#[trigger] v@[c],
        decreases pivots@.len() - k,
    {
        proof {
            assert(rows_view(rows@)[k as int] == rows@[k as int]@);
        }
        let value = rows[k][free];
        v.set(pivots[k], value);
        proof {
            assert forall|j: int| 0 <= j < k + 1 implies v@[(#[trigger] pivots@[j]) as int] == rows@[j]@[free as int] by {
                if j < k {
                    assert(pivots@[j] < pivots@[k as int]);
                }
            }
            assert forall|c: int|
                0 <= c < width && c != free && !(exists|j: int| 0 <= j < k + 1 && #[trigger] pivots@[j] == c)
                    implies !#[trigger] v@[c] by {
                assert(c != pivots@[k as int]);
                if exists|j: int| 0 <= j < k && #[trigger] pivots@[j] == c {
                    let j = choose|j: int| 0 <= j < k && #[trigger] pivots@[j] == c;
                    assert(0 <= j < k + 1 && pivots@[j] == c);
                }
            }
        }
        k = k + 1;
    }
    v
}

/// A combination of vectors orthogonal to `a` is orthogonal to `a`.
proof fn lemma_combination_orthogonal(a: Seq<bool>, rows: Seq<Seq<bool>>, c: Seq<bool>, width: nat, n: int)
    requires
        a.len() == width,
        0 <= n <= rows.len(),
        forall|t: int| 0 <= t < rows.len() ==> (#[trigger] rows[t]).len() == width,
        forall|t: int| 0 <= t < rows.len() ==> !bit_dot(a, #[trigger] rows[t]),
    ensures
        !bit_dot(a, crate::gf2::combination_prefix(rows, c, width, n)),
        crate::gf2::combination_prefix(rows, c, width, n).len() == width,
    decreases n,
{
    if n <= 0 {
        lemma_dot_one_position(a, crate::gf2::bit_zeros(width), -1);
    } else {
        lemma_combination_orthogonal(a, rows, c, width, n - 1);
        if c[n - 1] {
            crate::decomposition::lemma_dot_xor_right(a, crate::gf2::combination_prefix(rows, c, width, n - 1), rows[n - 1]);
        }
    }
}

/// Coordinate `i` of a combination whose vectors have a single one at coordinate `i`, in vector
/// `u`, is the coefficient of `u`.
proof fn lemma_combination_coordinate(rows: Seq<Seq<bool>>, c: Seq<bool>, width: nat, i: int, u: int, n: int)
    requires
        0 <= i < width,
        0 <= n <= rows.len(),
        forall|t: int| 0 <= t < rows.len() ==> (#[trigger] rows[t]).len() == width,
        forall|t: int| 0 <= t < rows.len() ==> (#[trigger] rows[t])[i] == (t == u),
    ensures
        crate::gf2::combination_prefix(rows, c, width, n)[i] == (0 <= u < n && c[u]),
        crate::gf2::combination_prefix(rows, c, width, n).len() == width,
    decreases n,
{
    if n > 0 {
        lemma_combination_coordinate(rows, c, width, i, u, n - 1);
    }
}

/// `⟨a, b⟩ = a_p b_p + a_q b_q` when `a_i b_i` vanishes at every other position.
proof fn lemma_dot_prefix_two_positions(a: Seq<bool>, b: Seq<bool>, p: int, q: int, k: int)
    requires
        0 <= k <= a.len(),
        p != q,
        forall|i: int| 0 <= i < a.len() && i != p && i != q ==> !(#[trigger] a[i] && b[i]),
    ensures
        dot_prefix(a, b, k) == ((0 <= p < k && a[p] && b[p]) != (0 <= q < k && a[q] && b[q])),
    decreases k,
{
    if k > 0 {
        lemma_dot_prefix_two_positions(a, b, p, q, k - 1);
    }
}

/// The null space of `m`: the rows of the result are vectors `d` with `M d = 0`, and every such
/// `d` is a combination of them. There is one row per non-pivot column of the reduced row echelon
/// form of `M`.
pub fn kernel_basis(m: &BitMatrix) -> (r: BitMatrix)
    requires
        m.well_formed(),
    ensures
        r.well_formed(),
        r.column_count == m.column_count,
        forall|k: int| 0 <= k < r@.len() ==> bit_is_zero(#[trigger] mat_vec_spec(m@, r@[k])),
        spans_kernel(r@, m@, m.column_count as nat),
{
    let columns = m.column_count;
    let (reduced, pivots, is_pivot) = reduced_row_echelon(m);
    let ghost rows = rows_view(reduced@);
    let mut basis: Vec<Vec<bool>> = Vec::new();
    let ghost mut free_columns: Seq<int> = Seq::empty();
    let mut free: usize = 0;
    while free < columns
        invariant
            m.well_formed(),
            columns == m.column_count,
            rows == rows_view(reduced@),
            rows.len() == reduced@.len(),
            is_reduced_echelon(rows, pivots@, columns as nat),
            same_orthogonal(rows, m@, columns as nat),
            is_pivot@.len() == columns,
            forall|c: int|
                0 <= c < columns ==> (#[trigger] is_pivot@[c] <==> exists|k: int|
                    0 <= k < pivots@.len() && #[trigger] pivots@[k] == c),
            free <= columns,
            basis@.len() == free_columns.len(),
            forall|t: int| 0 <= t < free_columns.len() ==> 0 <= #[trigger] free_columns[t] < free,
            forall|t: int| 0 <= t < free_columns.len() ==> !is_pivot@[#[trigger] free_columns[t]],
            forall|t: int, u: int| 0 <= t < u < free_columns.len() ==> free_columns[t] < free_columns[u],
            forall|c: int| 0 <= c < free && !is_pivot@[c] ==> exists|t: int| 0 <= t < free_columns.len() && #[trigger] free_columns[t] == c,
            forall|t: int| 0 <= t < basis@.len() ==> (#[trigger] basis@[t])@.len() == columns,
            forall|t: int, l: int| 0 <= t < basis@.len() && 0 <= l < rows.len() ==> !bit_dot(#[trigger] rows[l], #[trigger] basis@[t]@),
            forall|t: int, u: int|
                0 <= t < basis@.len() && 0 <= u < free_columns.len() ==> (#[trigger] basis@[t])@[#[trigger] free_columns[u]] == (t == u),
            forall|t: int, c: int|
                0 <= t < basis@.len() && 0 <= c < columns && c != free_columns[t] && !is_pivot@[c] ==> !#[trigger] basis@[t]@[c],
        decreases columns - free,
    {
        if !is_pivot[free] {
            proof {
                assert forall|k: int| 0 <= k < pivots@.len() implies #[trigger] pivots@[k] != free by {
                    if pivots@[k] == free {
                        assert(is_pivot@[free as int]);
                    }
                }
            }
            let v = kernel_vector(&reduced, &pivots, free, columns);
            proof {
                assert forall|c: int| 0 <= c < columns && c != free && !is_pivot@[c] implies !#[trigger] v@[c] by {}
                assert forall|l: int| 0 <= l < rows.len() implies !bit_dot(#[trigger] rows[l], v@) by {
                    if l < pivots@.len() {
                        let pl = pivots@[l] as int;
                        assert forall|i: int| 0 <= i < rows[l].len() && i != pl && i != free implies !(#[trigger] rows[l][i] && v@[i]) by {
                            if is_pivot@[i] {
                                let k = choose|k: int| 0 <= k < pivots@.len() && #[trigger] pivots@[k] == i;
                                assert(rows[l][pivots@[k] as int] == (l == k));
                            }
                        }
                        assert(rows[l][pl] == (l == l));
                        assert(rows[l] == reduced@[l]@);
                        lemma_dot_prefix_two_positions(rows[l], v@, pl, free as int, rows[l].len() as int);
                    } else {
                        assert forall|i: int| 0 <= i < rows[l].len() && i != -1 implies !(#[trigger] rows[l][i] && v@[i]) by {
                            assert(!rows[l][i]);
                        }
                        lemma_dot_one_position(rows[l], v@, -1);
                    }
                }
            }
            let ghost old_basis = basis@;
            let ghost old_free = free_columns;
            basis.push(v);
            proof {
                free_columns = free_columns.push(free as int);
                assert forall|t: int, u: int|
                    0 <= t < basis@.len() && 0 <= u < free_columns.len() implies (#[trigger] basis@[t])@[
                    #[trigger] free_columns[u]] == (t == u) by {
                    if t < old_basis.len() && u < old_free.len() {
                        assert(basis@[t] == old_basis[t]);
                        assert(free_columns[u] == old_free[u]);
                    } else if t < old_basis.len() {
                        assert(basis@[t] == old_basis[t]);
                        assert(free_columns[u] == free);
                        assert(free != old_free[t]);
                    } else if u < old_free.len() {
                        assert(free_columns[u] == old_free[u]);
                        assert(old_free[u] != free);
                    }
                }
                assert forall|t: int, c: int|
                    0 <= t < basis@.len() && 0 <= c < columns && c != free_columns[t] && !is_pivot@[c] implies
                    !#[trigger] basis@[t]@[c] by {
                    if t < old_basis.len() {
                        assert(basis@[t] == old_basis[t]);
                        assert(free_columns[t] == old_free[t]);
                    }
                }
                assert forall|c: int| 0 <= c < free + 1 && !is_pivot@[c] implies exists|t: int|
                    0 <= t < free_columns.len() && #[trigger] free_columns[t] == c by {
                    if c == free {
                        assert(free_columns[old_free.len() as int] == c);
                    } else {
                        let t = choose|t: int| 0 <= t < old_free.len() && #[trigger] old_free[t] == c;
                        assert(free_columns[t] == c);
                    }
                }
            }
        }
        free = free + 1;
    }
    let r = BitMatrix { rows: basis, column_count: columns };
    proof {
        let vectors = r@;
        assert forall|t: int| 0 <= t < vectors.len() implies #[trigger] vectors[t] == basis@[t]@ by {}
        assert forall|k: int| 0 <= k < vectors.len() implies bit_is_zero(#[trigger] mat_vec_spec(m@, vectors[k])) by {
            assert(orthogonal_to_rows(rows, vectors[k]));
            assert(orthogonal_to_rows(m@, vectors[k]));
        }
        assert forall|d: Seq<bool>|
            d.len() == m.column_count && #[trigger] bit_is_zero(mat_vec_spec(m@, d)) implies exists|c: Seq<bool>|
                c.len() == vectors.len() && #[trigger] crate::gf2::combination(vectors, c, columns as nat) == d by {
            assert forall|i: int| 0 <= i < m@.len() implies !bit_dot(#[trigger] m@[i], d) by {
                assert(!mat_vec_spec(m@, d)[i]);
            }
            assert(orthogonal_to_rows(m@, d));
            assert(orthogonal_to_rows(rows, d));
            let c = Seq::new(vectors.len(), |t: int| d[free_columns[t]]);
            let s = crate::gf2::combination(vectors, c, columns as nat);
            assert forall|l: int| 0 <= l < rows.len() implies !bit_dot(rows[l], s) by {
                assert forall|t: int| 0 <= t < vectors.len() implies !bit_dot(rows[l], #[trigger] vectors[t]) by {
                    assert(!bit_dot(rows[l], basis@[t]@));
                }
                lemma_combination_orthogonal(rows[l], vectors, c, columns as nat, vectors.len() as int);
            }
            assert forall|t: int| 0 <= t < vectors.len() implies !bit_dot(
                crate::gf2::bit_zeros(columns as nat),
                #[trigger] vectors[t],
            ) by {
                crate::pauli::lemma_dot_zeros_left(crate::gf2::bit_zeros(columns as nat), vectors[t]);
            }
            lemma_combination_orthogonal(crate::gf2::bit_zeros(columns as nat), vectors, c, columns as nat, vectors.len() as int);
            let e = bit_xor(d, s);
            assert forall|j: int| 0 <= j < columns implies !e[j] by {
                if is_pivot@[j] {
                    let k = choose|k: int| 0 <= k < pivots@.len() && #[trigger] pivots@[k] == j;
                    assert forall|i: int| 0 <= i < rows[k].len() && i != j implies !(#[trigger] rows[k][i] && e[i]) by {
                        if is_pivot@[i] {
                            let k2 = choose|k2: int| 0 <= k2 < pivots@.len() && #[trigger] pivots@[k2] == i;
                            assert(rows[k][pivots@[k2] as int] == (k == k2));
                        } else {
                            let u = choose|t: int| 0 <= t < free_columns.len() && #[trigger] free_columns[t] == i;
                            assert forall|t: int| 0 <= t < vectors.len() implies (#[trigger] vectors[t])[i] == (t == u) by {
                                assert(basis@[t]@[free_columns[u]] == (t == u));
                            }
                            lemma_combination_coordinate(vectors, c, columns as nat, i, u, vectors.len() as int);
                        }
                    }
                    lemma_dot_one_position(rows[k], e, j);
                    crate::decomposition::lemma_dot_xor_right(rows[k], d, s);
                    assert(rows[k][pivots@[k] as int] == (k == k));
                } else {
                    let u = choose|t: int| 0 <= t < free_columns.len() && #[trigger] free_columns[t] == j;
                    assert forall|t: int| 0 <= t < vectors.len() implies (#[trigger] vectors[t])[j] == (t == u) by {
                        assert(basis@[t]@[free_columns[u]] == (t == u));
                    }
                    lemma_combination_coordinate(vectors, c, columns as nat, j, u, vectors.len() as int);
                }
            }
            assert forall|j: int| 0 <= j < d.len() implies s[j] == d[j] by {
                assert(!e[j]);
            }
            assert(s =~= d);
        }
    }
    r
}

} // verus!
