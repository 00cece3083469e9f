//! Solving linear systems over `𝔽₂` by incremental reduction.
//!
//! [`EchelonForm`] keeps a fully reduced basis of the span of a list of generator rows, each basis
//! vector remembering which combination of generators produced it. A target vector is then
//! expressed as a combination of the generators when the reduction leaves no residue.
use vstd::prelude::*;
use crate::gf2::{bit_is_zero, bit_unit, bit_xor, bit_zeros, combination, combination_prefix, is_zero, xor_assign, zeros};

verus! {

/// `Σ_{k<m} v[pivot_k] · basis_k`: the part of `v` that the basis accounts for.
pub open spec fn projection(basis: Seq<Seq<bool>>, pivots: Seq<usize>, v: Seq<bool>, width: nat, m: int) -> Seq<bool>
    decreases m,
{
    if m <= 0 {
        bit_zeros(width)
    } else if v[pivots[m - 1] as int] {
        bit_xor(projection(basis, pivots, v, width, m - 1), basis[m - 1])
    } else {
        projection(basis, pivots, v, width, m - 1)
    }
}

/// A fully reduced basis of the span of a list of generator rows.
pub struct EchelonForm {
    generators: Vec<Vec<bool>>,
    width: usize,
    basis: Vec<Vec<bool>>,
    combos: Vec<Vec<bool>>,
    pivots: Vec<usize>,
}

/// The generators and their common width.
pub struct EchelonView {
    pub generators: Seq<Seq<bool>>,
    pub width: nat,
}

impl View for EchelonForm {
    type V = EchelonView;

    closed spec fn view(&self) -> EchelonView {
        EchelonView { generators: self.generators@.map_values(|r: Vec<bool>| r@), width: self.width as nat }
    }
}

impl EchelonForm {
    spec fn basis_view(&self) -> Seq<Seq<bool>> {
        self.basis@.map_values(|r: Vec<bool>| r@)
    }

    spec fn combos_view(&self) -> Seq<Seq<bool>> {
        self.combos@.map_values(|r: Vec<bool>| r@)
    }

    /// The reduced basis spans every generator and nothing more: each generator is its own
    /// projection onto the basis, and each basis vector is a combination of generators.
    pub closed spec fn inv(&self) -> bool {
        &&& self.reduced()
        &&& forall|i: int|
            0 <= i < self@.generators.len() ==> projection(
                self.basis_view(),
                self.pivots@,
                #[trigger] self@.generators[i],
                self.width as nat,
                self.basis@.len() as int,
            ) == self@.generators[i]
    }

    /// Every basis vector is the stated combination of the generators, and the basis is fully
    /// reduced: basis vector `k` has a one at its pivot and every other basis vector a zero there.
    spec fn reduced(&self) -> bool {
        let gens = self@.generators;
        let count = gens.len();
        &&& forall|i: int| 0 <= i < gens.len() ==> (#[trigger] gens[i]).len() == self.width
        &&& self.basis@.len() == self.combos@.len()
        &&& self.basis@.len() == self.pivots@.len()
        &&& forall|k: int| 0 <= k < self.basis@.len() ==> (#[trigger] self.basis@[k])@.len() == self.width
        &&& forall|k: int| 0 <= k < self.combos@.len() ==> (#[trigger] self.combos@[k])@.len() == count
        &&& forall|k: int| 0 <= k < self.pivots@.len() ==> (#[trigger] self.pivots@[k]) < self.width
        &&& forall|k: int|
            0 <= k < self.basis@.len() ==> combination(gens, (#[trigger] self.combos@[k])@, self.width as nat)
                == self.basis@[k]@
        &&& forall|k: int, l: int|
            0 <= k < self.basis@.len() && 0 <= l < self.basis@.len() ==> (#[trigger] self.basis@[k])@[(
            #[trigger] self.pivots@[l]) as int] == (k == l)
    }

    /// Builds the reduced basis of the span of `generators`, all of width `width`.
    pub fn new(generators: Vec<Vec<bool>>, width: usize) -> (e: EchelonForm)
        requires
            forall|i: int| 0 <= i < generators@.len() ==> (#[trigger] generators@[i])@.len() == width,
        ensures
            e.inv(),
            e@.generators == generators@.map_values(|r: Vec<bool>| r@),
            e@.width == width,
    {
        let count = generators.len();
        let mut e = EchelonForm { generators, width, basis: Vec::new(), combos: Vec::new(), pivots: Vec::new() };
        let mut i: usize = 0;
        while i < count
            invariant
                e.reduced(),
                e@.width == width,
                e.width == width,
                e.generators@.len() == count,
                e@.generators == generators@.map_values(|r: Vec<bool>| r@),
                i <= count,
                forall|j: int|
                    0 <= j < i ==> projection(
                        e.basis_view(),
                        e.pivots@,
                        #[trigger] e@.generators[j],
                        width as nat,
                        e.basis@.len() as int,
                    ) == e@.generators[j],
            decreases count - i,
        {
            let row = e.generators[i].clone();
            let combo = crate::gf2::unit(count, i);
            proof {
                lemma_combination_unit(e@.generators, width as nat, i as int);
            }
            let ghost before = e;
            e.insert(row, combo);
            proof {
                assert forall|j: int| 0 <= j < i + 1 implies projection(
                    e.basis_view(),
                    e.pivots@,
                    #[trigger] e@.generators[j],
                    width as nat,
                    e.basis@.len() as int,
                ) == e@.generators[j] by {
                    if j < i {
                        assert(projection(
                            before.basis_view(),
                            before.pivots@,
                            before@.generators[j],
                            width as nat,
                            before.basis@.len() as int,
                        ) == before@.generators[j]);
                    }
                }
            }
            i = i + 1;
        }
        e
    }

    /// Computes `(v + P v, c)` where `P v` is the projection of `v` onto the basis and `c` the
    /// generator combination producing `P v`.
    fn reduce(&self, v: &Vec<bool>) -> (r: (Vec<bool>, Vec<bool>))
        requires
            self.reduced(),
            v@.len() == self.width,
        ensures
            r.0@ == bit_xor(v@, projection(self.basis_view(), self.pivots@, v@, self.width as nat, self.basis@.len() as int)),
            r.1@.len() == self.generators@.len(),
            r.1@ == projection(self.combos_view(), self.pivots@, v@, self.generators@.len(), self.basis@.len() as int),
            combination(self@.generators, r.1@, self.width as nat) == projection(
                self.basis_view(),
                self.pivots@,
                v@,
                self.width as nat,
                self.basis@.len() as int,
            ),
    {
        let count = self.generators.len();
        let m = self.basis.len();
        let mut proj = zeros(self.width);
        let mut combo = zeros(count);
        proof {
            lemma_combination_zero(self@.generators, self.width as nat, count as int);
        }
        let mut k: usize = 0;
        while k < m
            invariant
                self.reduced(),
                v@.len() == self.width,
                m == self.basis@.len(),
                count == self@.generators.len(),
                k <= m,
                proj@ == projection(self.basis_view(), self.pivots@, v@, self.width as nat, k as int),
                proj@.len() == self.width,
                combo@.len() == count,
                combo@ == projection(self.combos_view(), self.pivots@, v@, count as nat, k as int),
                combination(self@.generators, combo@, self.width as nat) == proj@,
            decreases m - k,
        {
            if v[self.pivots[k]] {
                proof {
                    lemma_combination_xor(self@.generators, combo@, self.combos@[k as int]@, self.width as nat);
                    assert(self.basis_view()[k as int] == self.basis@[k as int]@);
                    assert(self.combos_view()[k as int] == self.combos@[k as int]@);
                }
                xor_assign(&mut proj, &self.basis[k]);
                xor_assign(&mut combo, &self.combos[k]);
            }
            k = k + 1;
        }
        let mut residual = v.clone();
        proof {
            assert(residual@ =~= v@);
        }
        xor_assign(&mut residual, &proj);
        (residual, combo)
    }

    fn insert(&mut self, row: Vec<bool>, combo: Vec<bool>)
        requires
            old(self).reduced(),
            row@.len() == old(self).width,
            combo@.len() == old(self)@.generators.len(),
            combination(old(self)@.generators, combo@, old(self).width as nat) == row@,
        ensures
            final(self).reduced(),
            final(self)@ == old(self)@,
            final(self).width == old(self).width,
            final(self).generators@.len() == old(self).generators@.len(),
            forall|v: Seq<bool>|
                v.len() == old(self).width && #[trigger] projection(
                    old(self).basis_view(),
                    old(self).pivots@,
                    v,
                    old(self).width as nat,
                    old(self).basis@.len() as int,
                ) == v ==> projection(
                    final(self).basis_view(),
                    final(self).pivots@,
                    v,
                    final(self).width as nat,
                    final(self).basis@.len() as int,
                ) == v,
            projection(
                final(self).basis_view(),
                final(self).pivots@,
                row@,
                final(self).width as nat,
                final(self).basis@.len() as int,
            ) == row@,
    {
        proof {
            lemma_combination_zero(self@.generators, self.width as nat, self@.generators.len() as int);
        }
        let (residual, projection_combo) = self.reduce(&row);
        let mut new_combo = combo;
        proof {
            lemma_combination_xor(self@.generators, new_combo@, projection_combo@, self.width as nat);
        }
        xor_assign(&mut new_combo, &projection_combo);
        let mut p: usize = 0;
        while p < residual.len() && !residual[p]
            invariant
                p <= residual@.len(),
                forall|j: int| 0 <= j < p ==> !residual@[j],
            decreases residual@.len() - p,
        {
            p = p + 1;
        }
        let ghost basis0 = self.basis_view();
        let ghost pivots0 = self.pivots@;
        let ghost projected = projection(basis0, pivots0, row@, self.width as nat, self.basis@.len() as int);
        proof {
            lemma_projection_len(basis0, pivots0, row@, self.width as nat, self.basis@.len() as int);
        }
        if p == residual.len() {
            proof {
                assert(projected =~= row@) by {
                    assert forall|j: int| 0 <= j < row@.len() implies projected[j] == row@[j] by {
                        assert(!residual@[j]);
                    }
                }
            }
            return;
        }
        proof {
            assert forall|l: int| 0 <= l < pivots0.len() implies !residual@[#[trigger] pivots0[l] as int] by {
                lemma_projection_at_pivot(basis0, pivots0, row@, self.width as nat, self.basis@.len() as int, l);
            }
        }
        let m = self.basis.len();
        let mut k: usize = 0;
        while k < m
            invariant
                old(self).reduced(),
                self@ == old(self)@,
                self.generators@.len() == old(self).generators@.len(),
                self.width == old(self).width,
                m == self.basis@.len(),
                self.basis@.len() == self.combos@.len(),
                self.pivots@ == pivots0,
                pivots0.len() == m,
                k <= m,
                p < self.width,
                residual@.len() == self.width,
                residual@[p as int],
                forall|l: int| 0 <= l < m ==> !residual@[#[trigger] pivots0[l] as int],
                new_combo@.len() == self@.generators.len(),
                combination(self@.generators, new_combo@, self.width as nat) == residual@,
                forall|l: int| 0 <= l < m ==> (#[trigger] pivots0[l]) < self.width,
                forall|l: int| 0 <= l < m ==> (#[trigger] self.basis@[l])@.len() == self.width,
                forall|l: int| 0 <= l < m ==> (#[trigger] self.combos@[l])@.len() == self@.generators.len(),
                forall|l: int|
                    0 <= l < m ==> combination(self@.generators, (#[trigger] self.combos@[l])@, self.width as nat)
                        == self.basis@[l]@,
                forall|l: int, j: int|
                    0 <= l < m && 0 <= j < m ==> (#[trigger] self.basis@[l])@[(#[trigger] pivots0[j]) as int] == (l == j),
                forall|l: int| 0 <= l < k ==> !(#[trigger] self.basis@[l])@[p as int],
                basis0.len() == m,
                forall|l: int|
                    0 <= l < m ==> (#[trigger] self.basis@[l])@ == if l < k {
                        reduced_by(basis0, residual@, p as int)[l]
                    } else {
                        basis0[l]
                    },
            decreases m - k,
        {
            if self.basis[k][p] {
                let mut b = self.basis[k].clone();
                let mut c = self.combos[k].clone();
                proof {
                    lemma_combination_xor(self@.generators, c@, new_combo@, self.width as nat);
                }
                xor_assign(&mut b, &residual);
                xor_assign(&mut c, &new_combo);
                let ghost before = self.basis@;
                proof {
                    assert(b@ == reduced_by(basis0, residual@, p as int)[k as int]);
                }
                self.basis.set(k, b);
                self.combos.set(k, c);
                proof {
                    assert forall|l: int, j: int| 0 <= l < m && 0 <= j < m implies (#[trigger] self.basis@[l])@[(
                    #[trigger] pivots0[j]) as int] == (l == j) by {
                        if l == k {
                            assert(before[l]@[pivots0[j] as int] == (l == j));
                        }
                    }
                }
            }
            k = k + 1;
        }
        let ghost residual_view = residual@;
        self.basis.push(residual);
        self.combos.push(new_combo);
        self.pivots.push(p);
        proof {
            assert(self.basis_view() =~= reduced_by(basis0, residual_view, p as int).push(residual_view));
            assert(self.pivots@ =~= pivots0.push(p));
            assert forall|v: Seq<bool>|
                v.len() == old(self).width && #[trigger] projection(
                    old(self).basis_view(),
                    old(self).pivots@,
                    v,
                    old(self).width as nat,
                    old(self).basis@.len() as int,
                ) == v implies projection(
                self.basis_view(),
                self.pivots@,
                v,
                self.width as nat,
                self.basis@.len() as int,
            ) == v by {
                lemma_insert_spans(basis0, pivots0, residual_view, p, self.width as nat, v);
                assert(bit_xor(v, bit_zeros(self.width as nat)) =~= v);
            }
            lemma_insert_spans(basis0, pivots0, residual_view, p, self.width as nat, row@);
            assert(residual_view =~= bit_xor(row@, projected));
            assert(bit_xor(projected, residual_view) =~= row@);
            let mm = m as int;
            assert forall|l: int, j: int|
                0 <= l < self.basis@.len() && 0 <= j < self.basis@.len() implies (#[trigger] self.basis@[l])@[(
            #[trigger] self.pivots@[j]) as int] == (l == j) by {
                if l < mm && j < mm {
                    assert(self.pivots@[j] == pivots0[j]);
                } else if l < mm && j == mm {
                    assert(self.pivots@[j] == p);
                } else if l == mm && j < mm {
                    assert(self.pivots@[j] == pivots0[j]);
                } else {
                    assert(self.pivots@[j] == p);
                }
            }
        }
    }

    /// Expresses `target` as a combination `c` of the generators (`Σ_i c_i g_i = target`), or
    /// returns `None` when the reduction leaves a nonzero residue.
    pub fn transpose_solve(&self, target: &Vec<bool>) -> (r: Option<Vec<bool>>)
        requires
            self.inv(),
            target@.len() == self@.width,
        ensures
            r matches Some(c) ==> c@.len() == self@.generators.len() && combination(
                self@.generators,
                c@,
                self@.width,
            ) == target@,
            bit_is_zero(target@) ==> (r matches Some(c) && c@ == bit_zeros(self@.generators.len())),
            (exists|c: Seq<bool>|
                c.len() == self@.generators.len() && #[trigger] combination(self@.generators, c, self@.width)
                    == target@) ==> r is Some,
    {
        let (residual, combo) = self.reduce(target);
        let ghost proj = projection(self.basis_view(), self.pivots@, target@, self.width as nat, self.basis@.len() as int);
        proof {
            if exists|c: Seq<bool>|
                c.len() == self@.generators.len() && #[trigger] combination(self@.generators, c, self@.width)
                    == target@ {
                let c = choose|c: Seq<bool>|
                    c.len() == self@.generators.len() && #[trigger] combination(self@.generators, c, self@.width)
                        == target@;
                lemma_projection_of_combination(
                    self@.generators,
                    c,
                    self.basis_view(),
                    self.pivots@,
                    self.width as nat,
                    self.basis@.len() as int,
                    self@.generators.len() as int,
                );
                assert(residual@ =~= bit_zeros(self.width as nat));
            }
        }
        proof {
            lemma_projection_len(self.basis_view(), self.pivots@, target@, self.width as nat, self.basis@.len() as int);
            if bit_is_zero(target@) {
                lemma_projection_of_zero(self.basis_view(), self.pivots@, target@, self.width as nat, self.basis@.len() as int);
                lemma_projection_of_zero(self.combos_view(), self.pivots@, target@, self.generators@.len(), self.basis@.len() as int);
                assert(residual@ =~= bit_zeros(self.width as nat));
            }
        }
        if is_zero(&residual) {
            proof {
                assert(proj =~= target@) by {
                    assert forall|j: int| 0 <= j < target@.len() implies proj[j] == target@[j] by {
                        assert(!residual@[j]);
                    }
                }
            }
            Some(combo)
        } else {
            None
        }
    }
}

/// Every basis vector with a one at position `p` reduced by `residual`.
spec fn reduced_by(basis: Seq<Seq<bool>>, residual: Seq<bool>, p: int) -> Seq<Seq<bool>> {
    Seq::new(basis.len(), |k: int| if basis[k][p] { bit_xor(basis[k], residual) } else { basis[k] })
}

/// The projection only reads the first `m` basis vectors and pivots.
proof fn lemma_projection_prefix_only(
    b1: Seq<Seq<bool>>,
    p1: Seq<usize>,
    b2: Seq<Seq<bool>>,
    p2: Seq<usize>,
    v: Seq<bool>,
    width: nat,
    m: int,
)
    requires
        forall|k: int| 0 <= k < m ==> #[trigger] b1[k] == b2[k],
        forall|k: int| 0 <= k < m ==> #[trigger] p1[k] == p2[k],
    ensures
        projection(b1, p1, v, width, m) == projection(b2, p2, v, width, m),
    decreases m,
{
    if m > 0 {
        lemma_projection_prefix_only(b1, p1, b2, p2, v, width, m - 1);
    }
}

/// The projection of a sum is the sum of the projections.
proof fn lemma_projection_xor(basis: Seq<Seq<bool>>, pivots: Seq<usize>, u: Seq<bool>, v: Seq<bool>, width: nat, m: int)
    requires
        u.len() == v.len(),
        forall|k: int| 0 <= k < m ==> (#[trigger] basis[k]).len() == width,
        forall|k: int| 0 <= k < m ==> (#[trigger] pivots[k]) < u.len(),
    ensures
        projection(basis, pivots, bit_xor(u, v), width, m) == bit_xor(
            projection(basis, pivots, u, width, m),
            projection(basis, pivots, v, width, m),
        ),
    decreases m,
{
    lemma_projection_len(basis, pivots, u, width, m);
    lemma_projection_len(basis, pivots, v, width, m);
    lemma_projection_len(basis, pivots, bit_xor(u, v), width, m);
    if m > 0 {
        lemma_projection_xor(basis, pivots, u, v, width, m - 1);
        lemma_projection_len(basis, pivots, u, width, m - 1);
        lemma_projection_len(basis, pivots, v, width, m - 1);
        lemma_projection_len(basis, pivots, bit_xor(u, v), width, m - 1);
    }
    assert(projection(basis, pivots, bit_xor(u, v), width, m) =~= bit_xor(
        projection(basis, pivots, u, width, m),
        projection(basis, pivots, v, width, m),
    ));
}

/// A combination of vectors that the basis spans is spanned too.
proof fn lemma_projection_of_combination(
    gens: Seq<Seq<bool>>,
    c: Seq<bool>,
    basis: Seq<Seq<bool>>,
    pivots: Seq<usize>,
    width: nat,
    m: int,
    n: int,
)
    requires
        n <= gens.len(),
        forall|i: int| 0 <= i < gens.len() ==> (#[trigger] gens[i]).len() == width,
        forall|k: int| 0 <= k < m ==> (#[trigger] basis[k]).len() == width,
        forall|k: int| 0 <= k < m ==> (#[trigger] pivots[k]) < width,
        forall|i: int| 0 <= i < n ==> projection(basis, pivots, #[trigger] gens[i], width, m) == gens[i],
    ensures
        projection(basis, pivots, combination_prefix(gens, c, width, n), width, m) == combination_prefix(
            gens,
            c,
            width,
            n,
        ),
    decreases n,
{
    if n <= 0 {
        lemma_projection_of_zero(basis, pivots, bit_zeros(width), width, m);
    } else {
        lemma_projection_of_combination(gens, c, basis, pivots, width, m, n - 1);
        lemma_combination_prefix_len(gens, c, width, n - 1);
        if c[n - 1] {
            lemma_projection_xor(basis, pivots, combination_prefix(gens, c, width, n - 1), gens[n - 1], width, m);
            assert(projection(basis, pivots, gens[n - 1], width, m) == gens[n - 1]);
        }
    }
}

/// Reducing the basis by `residual` at `p` shifts every projection by `residual` where the old
/// projection has a one at `p`.
proof fn lemma_projection_reduced_by(
    basis: Seq<Seq<bool>>,
    pivots: Seq<usize>,
    v: Seq<bool>,
    width: nat,
    residual: Seq<bool>,
    p: int,
    m: int,
)
    requires
        0 <= m <= basis.len(),
        0 <= p < width,
        residual.len() == width,
        forall|k: int| 0 <= k < m ==> (#[trigger] basis[k]).len() == width,
    ensures
        projection(reduced_by(basis, residual, p), pivots, v, width, m) == bit_xor(
            projection(basis, pivots, v, width, m),
            if projection(basis, pivots, v, width, m)[p] {
                residual
            } else {
                bit_zeros(width)
            },
        ),
    decreases m,
{
    lemma_projection_len(basis, pivots, v, width, m);
    assert forall|k: int| 0 <= k < m implies (#[trigger] reduced_by(basis, residual, p)[k]).len() == width by {}
    lemma_projection_len(reduced_by(basis, residual, p), pivots, v, width, m);
    if m > 0 {
        lemma_projection_reduced_by(basis, pivots, v, width, residual, p, m - 1);
        lemma_projection_len(basis, pivots, v, width, m - 1);
        lemma_projection_len(reduced_by(basis, residual, p), pivots, v, width, m - 1);
    }
    assert(projection(reduced_by(basis, residual, p), pivots, v, width, m) =~= bit_xor(
        projection(basis, pivots, v, width, m),
        if projection(basis, pivots, v, width, m)[p] {
            residual
        } else {
            bit_zeros(width)
        },
    ));
}

/// The projection onto the basis after inserting `residual` with pivot `p`.
proof fn lemma_insert_spans(
    basis0: Seq<Seq<bool>>,
    pivots0: Seq<usize>,
    residual: Seq<bool>,
    p: usize,
    width: nat,
    v: Seq<bool>,
)
    requires
        basis0.len() == pivots0.len(),
        forall|k: int| 0 <= k < basis0.len() ==> (#[trigger] basis0[k]).len() == width,
        forall|k: int| 0 <= k < pivots0.len() ==> (#[trigger] pivots0[k]) < width,
        0 <= p < width,
        residual.len() == width,
        v.len() == width,
    ensures
        ({
            let old_projection = projection(basis0, pivots0, v, width, basis0.len() as int);
            projection(
                reduced_by(basis0, residual, p as int).push(residual),
                pivots0.push(p),
                v,
                width,
                basis0.len() as int + 1,
            ) == bit_xor(old_projection, if old_projection[p as int] != v[p as int] {
                residual
            } else {
                bit_zeros(width)
            })
        }),
{
    let m = basis0.len() as int;
    let reduced = reduced_by(basis0, residual, p as int);
    let new_basis = reduced.push(residual);
    let new_pivots = pivots0.push(p);
    lemma_projection_prefix_only(new_basis, new_pivots, reduced, pivots0, v, width, m);
    lemma_projection_reduced_by(basis0, pivots0, v, width, residual, p as int, m);
    lemma_projection_len(basis0, pivots0, v, width, m);
    assert forall|k: int| 0 <= k < m implies (#[trigger] reduced[k]).len() == width by {}
    lemma_projection_len(reduced, pivots0, v, width, m);
    let old_projection = projection(basis0, pivots0, v, width, m);
    assert(new_basis[m] == residual);
    assert(new_pivots[m] == p);
    let shifted = bit_xor(old_projection, if old_projection[p as int] {
        residual
    } else {
        bit_zeros(width)
    });
    assert(projection(new_basis, new_pivots, v, width, m) == shifted);
    assert(projection(new_basis, new_pivots, v, width, m + 1) == if v[p as int] {
        bit_xor(shifted, residual)
    } else {
        shifted
    });
    assert(projection(new_basis, new_pivots, v, width, m + 1) =~= bit_xor(old_projection, if old_projection[p as int] != v[p as int] {
        residual
    } else {
        bit_zeros(width)
    }));
}

proof fn lemma_projection_len(basis: Seq<Seq<bool>>, pivots: Seq<usize>, v: Seq<bool>, width: nat, m: int)
    requires
        forall|k: int| 0 <= k < m ==> (#[trigger] basis[k]).len() == width,
    ensures
        projection(basis, pivots, v, width, m).len() == width,
    decreases m,
{
    if m > 0 {
        lemma_projection_len(basis, pivots, v, width, m - 1);
    }
}

proof fn lemma_projection_of_zero(basis: Seq<Seq<bool>>, pivots: Seq<usize>, v: Seq<bool>, width: nat, m: int)
    requires
        bit_is_zero(v),
        forall|k: int| 0 <= k < m ==> (#[trigger] pivots[k]) < v.len(),
    ensures
        projection(basis, pivots, v, width, m) == bit_zeros(width),
    decreases m,
{
    if m > 0 {
        lemma_projection_of_zero(basis, pivots, v, width, m - 1);
    }
}

/// For a fully reduced basis the projection reproduces `v` at every pivot among the first `m`.
proof fn lemma_projection_at_pivot(basis: Seq<Seq<bool>>, pivots: Seq<usize>, v: Seq<bool>, width: nat, total: int, l: int)
    requires
        0 <= l < total,
        total <= basis.len(),
        total <= pivots.len(),
        forall|k: int| 0 <= k < total ==> (#[trigger] basis[k]).len() == width,
        forall|k: int| 0 <= k < total ==> (#[trigger] pivots[k]) < width,
        forall|k: int, j: int| 0 <= k < total && 0 <= j < total ==> (#[trigger] basis[k])[(#[trigger] pivots[j]) as int] == (k == j),
    ensures
        projection(basis, pivots, v, width, total)[pivots[l] as int] == v[pivots[l] as int],
{
    lemma_projection_at_pivot_prefix(basis, pivots, v, width, total, l, total);
}

proof fn lemma_projection_at_pivot_prefix(
    basis: Seq<Seq<bool>>,
    pivots: Seq<usize>,
    v: Seq<bool>,
    width: nat,
    total: int,
    l: int,
    m: int,
)
    requires
        0 <= l < total,
        0 <= m <= total,
        total <= basis.len(),
        total <= pivots.len(),
        forall|k: int| 0 <= k < total ==> (#[trigger] basis[k]).len() == width,
        forall|k: int| 0 <= k < total ==> (#[trigger] pivots[k]) < width,
        forall|k: int, j: int| 0 <= k < total && 0 <= j < total ==> (#[trigger] basis[k])[(#[trigger] pivots[j]) as int] == (k == j),
    ensures
        projection(basis, pivots, v, width, m)[pivots[l] as int] == (l < m && v[pivots[l] as int]),
    decreases m,
{
    if m > 0 {
        lemma_projection_at_pivot_prefix(basis, pivots, v, width, total, l, m - 1);
        lemma_projection_len(basis, pivots, v, width, m - 1);
        assert(basis[m - 1][pivots[l] as int] == (m - 1 == l));
    }
}

/// `Σ_i (a + b)_i g_i = Σ_i a_i g_i + Σ_i b_i g_i`.
pub proof fn lemma_combination_xor(rows: Seq<Seq<bool>>, a: Seq<bool>, b: Seq<bool>, width: nat)
    requires
        forall|i: int| 0 <= i < rows.len() ==> (#[trigger] rows[i]).len() == width,
        a.len() == rows.len(),
        b.len() == rows.len(),
    ensures
        combination(rows, bit_xor(a, b), width) == bit_xor(combination(rows, a, width), combination(rows, b, width)),
        combination(rows, a, width).len() == width,
{
    lemma_combination_prefix_xor(rows, a, b, width, rows.len() as int);
}

proof fn lemma_combination_prefix_len(rows: Seq<Seq<bool>>, c: Seq<bool>, width: nat, n: int)
    requires
        n <= rows.len(),
        forall|i: int| 0 <= i < rows.len() ==> (#[trigger] rows[i]).len() == width,
    ensures
        combination_prefix(rows, c, width, n).len() == width,
    decreases n,
{
    if n > 0 {
        lemma_combination_prefix_len(rows, c, width, n - 1);
    }
}

proof fn lemma_combination_prefix_xor(rows: Seq<Seq<bool>>, a: Seq<bool>, b: Seq<bool>, width: nat, n: int)
    requires
        n <= rows.len(),
        forall|i: int| 0 <= i < rows.len() ==> (#[trigger] rows[i]).len() == width,
        a.len() == rows.len(),
        b.len() == rows.len(),
    ensures
        combination_prefix(rows, bit_xor(a, b), width, n) == bit_xor(
            combination_prefix(rows, a, width, n),
            combination_prefix(rows, b, width, n),
        ),
        combination_prefix(rows, a, width, n).len() == width,
    decreases n,
{
    lemma_combination_prefix_len(rows, a, width, n);
    lemma_combination_prefix_len(rows, b, width, n);
    if n > 0 {
        lemma_combination_prefix_xor(rows, a, b, width, n - 1);
        lemma_combination_prefix_len(rows, bit_xor(a, b), width, n);
        let lhs = combination_prefix(rows, bit_xor(a, b), width, n);
        let rhs = bit_xor(combination_prefix(rows, a, width, n), combination_prefix(rows, b, width, n));
        assert(lhs =~= rhs);
    } else {
        assert(combination_prefix(rows, bit_xor(a, b), width, n) =~= bit_xor(
            combination_prefix(rows, a, width, n),
            combination_prefix(rows, b, width, n),
        ));
    }
}

/// The zero combination is the zero vector.
pub proof fn lemma_combination_zero(rows: Seq<Seq<bool>>, width: nat, count: int)
    requires
        count == rows.len(),
    ensures
        combination(rows, bit_zeros(count as nat), width) == bit_zeros(width),
{
    lemma_combination_prefix_zero(rows, width, count, count);
}

proof fn lemma_combination_prefix_zero(rows: Seq<Seq<bool>>, width: nat, count: int, n: int)
    requires
        n <= count,
    ensures
        combination_prefix(rows, bit_zeros(count as nat), width, n) == bit_zeros(width),
    decreases n,
{
    if n > 0 {
        lemma_combination_prefix_zero(rows, width, count, n - 1);
    }
}

/// The unit combination `e_i` picks out generator `i`.
pub proof fn lemma_combination_unit(rows: Seq<Seq<bool>>, width: nat, i: int)
    requires
        0 <= i < rows.len(),
        forall|k: int| 0 <= k < rows.len() ==> (#[trigger] rows[k]).len() == width,
    ensures
        combination(rows, bit_unit(rows.len(), i), width) == rows[i],
{
    lemma_combination_prefix_unit(rows, width, i, rows.len() as int);
}

proof fn lemma_combination_prefix_unit(rows: Seq<Seq<bool>>, width: nat, i: int, n: int)
    requires
        0 <= i < rows.len(),
        n <= rows.len(),
        forall|k: int| 0 <= k < rows.len() ==> (#[trigger] rows[k]).len() == width,
    ensures
        combination_prefix(rows, bit_unit(rows.len(), i), width, n) == if i < n {
            rows[i]
        } else {
            bit_zeros(width)
        },
    decreases n,
{
    if n > 0 {
        lemma_combination_prefix_unit(rows, width, i, n - 1);
        if n - 1 == i {
            assert(bit_xor(bit_zeros(width), rows[i]) =~= rows[i]);
        }
    }
}

} // verus!
