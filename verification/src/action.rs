//! Comparison of circuit actions: the reasons two actions differ, affine maps between outcome and
//! random-bit spaces, the branch phase function of a phased Choi state, and the invariance test
//! of a quadratic `ζ₈` phase along a direction of the random-bit space.
use vstd::prelude::*;
use vstd::arithmetic::div_mod::{lemma_add_mod_noop, lemma_add_mod_noop_right};
use crate::gf2::{BitMatrix, bit_dot, bit_xor, bits_equal, count_equal, mat_vec, mat_vec_spec, zeros};
use crate::pauli::{DensePauli, PauliSpec, is_order_two_spec, xyz_phase_spec};
use crate::pauli::resize_bits;
use crate::gf2::resize_matrix;
use crate::phase_form::{phase_form_exponent, phase_form_value};
use crate::separation_phase::{SeparationPhase, SeparationPhaseView};
use crate::simulation::{PhasedOutcomeCompleteSimulation, SimulationSpec};
pub use crate::kernel::kernel_basis;

verus! {

/// Why two circuit actions are not equivalent.
#[derive(Clone, Copy, Debug, PartialEq, Eq, Structural)]
pub enum ActionsInequivalenceReason {
    /// The numbers of input qubits differ.
    InputQubitCount,
    /// The numbers of output qubits differ.
    OutputQubitCount,
    /// The measured observables differ.
    Observables,
    /// The numbers of measured observables differ.
    ObservablesCount,
    /// The signs of the measured observables differ.
    ObservablesSigns,
    /// The output stabilizers differ.
    Stabilizers,
    /// The numbers of output stabilizers differ.
    StabilizersCount,
    /// The signs of the output stabilizers differ.
    StabilizersSigns,
    /// The Choi-state stabilizers differ.
    ChoiState,
    /// The signs of the Choi-state stabilizers differ.
    ChoiStateSigns,
    /// The relative `ζ₈` phases between branches of the Choi state differ.
    RelativePhase,
    /// The numbers of symbolic-angle random bits differ.
    SymbolicAngleCount,
    /// An outcome remapping mixes symbolic-angle random bits with other random bits.
    SymbolicAngleMixed,
    /// The absolute global `ζ₈` phases differ.
    GlobalPhase,
}

/// The matrix whose row `k` selects the `k`-th random outcome among `indicators`: the map from
/// outcomes to random bits.
pub open spec fn random_bit_map_spec(indicators: Seq<bool>) -> Seq<Seq<bool>> {
    let pivots = indicators_support(indicators, indicators.len() as int);
    Seq::new(pivots.len(), |k: int| Seq::new(indicators.len(), |j: int| j == pivots[k]))
}

/// The positions below `m` at which `indicators` is set, in increasing order.
pub open spec fn indicators_support(indicators: Seq<bool>, m: int) -> Seq<int>
    decreases m,
{
    if m <= 0 {
        Seq::empty()
    } else if indicators[m - 1] {
        indicators_support(indicators, m - 1).push(m - 1)
    } else {
        indicators_support(indicators, m - 1)
    }
}

/// The map from outcomes to random bits: row `k` has a single one at the position of the `k`-th
/// random outcome.
pub fn random_bit_map_matrix(indicators: &[bool]) -> (r: BitMatrix)
    ensures
        r.well_formed(),
        r.column_count == indicators@.len(),
        r@ == random_bit_map_spec(indicators@),
{
    let n = indicators.len();
    let mut rows: Vec<Vec<bool>> = Vec::new();
    let mut j: usize = 0;
    while j < n
        invariant
            n == indicators@.len(),
            j <= n,
            rows@.len() == indicators_support(indicators@, j as int).len(),
            forall|k: int|
                0 <= k < rows@.len() ==> (#[trigger] rows@[k])@ == Seq::new(
                    n as nat,
                    |c: int| c == indicators_support(indicators@, j as int)[k],
                ),
        decreases n - j,
    {
        if indicators[j] {
            let mut row = zeros(n);
            row.set(j, true);
            proof {
                assert(row@ =~= Seq::new(
                    n as nat,
                    |c: int| c == indicators_support(indicators@, j + 1)[rows@.len() as int],
                ));
            }
            rows.push(row);
        }
        j = j + 1;
    }
    let r = BitMatrix { rows, column_count: n };
    proof {
        assert(r@ =~= random_bit_map_spec(indicators@));
    }
    r
}

/// The map reading the random bits off the outcomes of `v`: `x ↦ M x + M v₀`, where row `k` of `M`
/// selects the `k`-th random outcome.
pub open spec fn random_from_outcomes_spec(v: SimulationSpec) -> AffineSpec {
    AffineSpec {
        matrix: random_bit_map_spec(v.random_outcome_indicator),
        shift: mat_vec_spec(
            random_bit_map_spec(v.random_outcome_indicator),
            resize_bits(v.outcome_shift, v.outcome_count()),
        ),
        input_dimension: v.outcome_count(),
    }
}

/// The outcome map `r ↦ A r + v₀` of `v` on its recorded outcomes and live random bits.
pub open spec fn outcomes_from_random_spec(v: SimulationSpec) -> AffineSpec {
    AffineSpec {
        matrix: resize_matrix(v.outcome_matrix, v.outcome_count(), v.random_bit_count),
        shift: resize_bits(v.outcome_shift, v.outcome_count()),
        input_dimension: v.random_bit_count,
    }
}

/// The affine maps between the outcomes and the random bits of `simulation`: the first reads the
/// random bits off the outcomes, the second is the outcome map itself.
pub fn outcome_maps(simulation: &PhasedOutcomeCompleteSimulation) -> (r: (AffineMap, AffineMap))
    requires
        simulation.wf(),
    ensures
        r.0.wf(),
        r.1.wf(),
        r.0@ == random_from_outcomes_spec(simulation@),
        r.1@ == outcomes_from_random_spec(simulation@),
{
    let indicators = simulation.random_outcome_indicator();
    let random_bit_map = random_bit_map_matrix(indicators.as_slice());
    let offset = simulation.outcome_shift();
    let random_bit_map_shift = mat_vec(&random_bit_map, &offset);
    let outcome_to_random_bit_map = AffineMap::affine(random_bit_map, random_bit_map_shift);
    let outcome_matrix = simulation.outcome_matrix();
    assert(outcome_matrix.rows@.len() == outcome_matrix@.len());
    let outcomes_from_random = AffineMap::affine(outcome_matrix, offset);
    (outcome_to_random_bit_map, outcomes_from_random)
}

/// The dimensions of the two outcome maps of a consistent simulator: outcomes to random bits and
/// back.
proof fn lemma_outcome_map_dimensions(v: SimulationSpec)
    requires
        v.consistent(),
    ensures
        random_from_outcomes_spec(v).input_dimension == v.outcome_count(),
        random_from_outcomes_spec(v).output_dimension() == v.random_bit_count,
        outcomes_from_random_spec(v).input_dimension == v.random_bit_count,
        outcomes_from_random_spec(v).output_dimension() == v.outcome_count(),
{
    let ind = v.random_outcome_indicator;
    lemma_indicators_support(ind, ind.len() as int);
}

/// The qubits below `n` that are not in `members`, in increasing order.
pub open spec fn complement_spec(members: Seq<usize>, n: nat) -> Seq<usize>
    decreases n,
{
    if n == 0 {
        Seq::empty()
    } else {
        let below = complement_spec(members, (n - 1) as nat);
        if members.contains((n - 1) as usize) {
            below
        } else {
            below.push((n - 1) as usize)
        }
    }
}

/// The auxiliary qubits of a circuit on `qubit_count` qubits: those that are not outputs, in
/// increasing order.
pub fn auxiliary_qubits(output_qubits: &[usize], qubit_count: usize) -> (r: Vec<usize>)
    ensures
        r@ == complement_spec(output_qubits@, qubit_count as nat),
{
    let mut r: Vec<usize> = Vec::new();
    let mut q: usize = 0;
    while q < qubit_count
        invariant
            q <= qubit_count,
            r@ == complement_spec(output_qubits@, q as nat),
        decreases qubit_count - q,
    {
        let mut found = false;
        let mut k: usize = 0;
        while k < output_qubits.len()
            invariant
                k <= output_qubits@.len(),
                found <==> exists|j: int| 0 <= j < k && output_qubits@[j] == q,
            decreases output_qubits@.len() - k,
        {
            if output_qubits[k] == q {
                found = true;
            }
            k = k + 1;
        }
        proof {
            if found {
                let j = choose|j: int| 0 <= j < k && output_qubits@[j] == q;
                assert(output_qubits@.contains(q));
            } else {
                assert(!output_qubits@.contains(q));
            }
            assert((q + 1 - 1) as usize == q);
        }
        if !found {
            r.push(q);
        }
        q = q + 1;
    }
    r
}

/// Why an action cannot be read off a simulation.
#[derive(Debug, Clone, PartialEq, Eq)]
pub enum ActionError {
    /// The listed auxiliary qubits (the qubits that are not outputs) are still entangled with the
    /// rest of the state: their restriction has fewer stabilizer generators than qubits.
    AuxiliaryQubitsEntangled { auxiliary_qubits: Vec<usize> },
}

/// Assembles the action of the circuit recorded by `simulation` from the restrictions of its
/// state to the reference qubits (`observables`), the output qubits (`stabilizers`), both
/// (`choi_state_stabilizers`) and the auxiliary qubits (`auxiliary_stabilizers`), each with
/// signs as functions of the random bits. The auxiliary qubits are those below `qubit_count` that
/// are not outputs; when their restriction has fewer generators than qubits they are entangled
/// with the rest and the action is refused. Otherwise the outcome maps come from `simulation`.
pub fn action_from_simulation(
    simulation: &PhasedOutcomeCompleteSimulation,
    observables: GeneratorsWithSigns,
    stabilizers: GeneratorsWithSigns,
    choi_state_stabilizers: GeneratorsWithSigns,
    auxiliary_stabilizers: GeneratorsWithSigns,
    input_qubits: &[usize],
    output_qubits: &[usize],
    qubit_count: usize,
) -> (r: Result<CircuitAction, ActionError>)
    requires
        simulation.wf(),
        observables.wf(),
        stabilizers.wf(),
        choi_state_stabilizers.wf(),
        auxiliary_stabilizers.wf(),
        observables@.sign_from_random.input_dimension == simulation@.random_bit_count,
        stabilizers@.sign_from_random.input_dimension == simulation@.random_bit_count,
        choi_state_stabilizers@.sign_from_random.input_dimension == simulation@.random_bit_count,
        auxiliary_stabilizers@.sign_from_random.input_dimension == simulation@.random_bit_count,
    ensures
        r is Err <==> auxiliary_stabilizers@.generators.len() < complement_spec(output_qubits@, qubit_count as nat).len(),
        r matches Err(e) ==> e->auxiliary_qubits@ == complement_spec(output_qubits@, qubit_count as nat),
        r matches Ok(action) ==> action.wf() && action@ == (CircuitActionView {
            observables: observables@,
            stabilizers: stabilizers@,
            choi_state_stabilizers: choi_state_stabilizers@,
            auxiliary_stabilizers: auxiliary_stabilizers@,
            random_from_outcomes: random_from_outcomes_spec(simulation@),
            outcomes_from_random: outcomes_from_random_spec(simulation@),
            inputs: input_qubits@,
        }),
{
    let auxiliary = auxiliary_qubits(output_qubits, qubit_count);
    let generators = auxiliary_stabilizers.abs();
    let generator_count = generators.len();
    proof {
        assert(paulis_view(generators@).len() == generator_count);
    }
    if generator_count < auxiliary.len() {
        return Err(ActionError::AuxiliaryQubitsEntangled { auxiliary_qubits: auxiliary });
    }
    let (random_from_outcomes, outcomes_from_random) = outcome_maps(simulation);
    proof {
        simulation.lemma_consistent();
        lemma_outcome_map_dimensions(simulation@);
    }
    Ok(
        CircuitAction::new(
            observables,
            stabilizers,
            choi_state_stabilizers,
            auxiliary_stabilizers,
            random_from_outcomes,
            outcomes_from_random,
            input_qubits,
        ),
    )
}

/// The `k`-th set position of `indicators` below `m` is preceded by exactly `k` set positions.
proof fn lemma_indicators_support(indicators: Seq<bool>, m: int)
    requires
        0 <= m <= indicators.len(),
    ensures
        indicators_support(indicators, m).len() == count_equal(indicators, true, m),
        forall|k: int|
            0 <= k < indicators_support(indicators, m).len() ==> {
                let p = #[trigger] indicators_support(indicators, m)[k];
                &&& 0 <= p < m
                &&& indicators[p]
                &&& count_equal(indicators, true, p) == k
            },
    decreases m,
{
    if m > 0 {
        lemma_indicators_support(indicators, m - 1);
    }
}

/// Reading the random bits off the outcomes undoes the outcome map: for every assignment `r` of
/// the random bits, the outcomes `A r + v₀` give back `r`.
pub proof fn lemma_outcome_maps_invert(v: SimulationSpec, bits: Seq<bool>)
    requires
        v.consistent(),
        bits.len() == v.random_bit_count,
    ensures
        random_from_outcomes_spec(v).apply(outcomes_from_random_spec(v).apply(bits)) == bits,
{
    let indicators = v.random_outcome_indicator;
    let n = v.outcome_count() as int;
    let support = indicators_support(indicators, n);
    lemma_indicators_support(indicators, n);
    let outcomes = outcomes_from_random_spec(v).apply(bits);
    let shift = resize_bits(v.outcome_shift, v.outcome_count());
    let selector = random_bit_map_spec(indicators);
    let result = random_from_outcomes_spec(v).apply(outcomes);
    assert forall|k: int| 0 <= k < bits.len() implies #[trigger] result[k] == bits[k] by {
        let p = support[k];
        assert(selector[k] =~= crate::gf2::bit_unit(n as nat, p));
        crate::pauli::lemma_dot_unit_left(n as nat, p, outcomes);
        crate::pauli::lemma_dot_unit_left(n as nat, p, shift);
        assert(v.outcome_matrix[p] == crate::gf2::bit_unit(v.random_capacity, k));
        let row = resize_matrix(v.outcome_matrix, v.outcome_count(), v.random_bit_count)[p];
        assert(row =~= crate::gf2::bit_unit(v.random_bit_count, k));
        crate::pauli::lemma_dot_unit_left(v.random_bit_count, k, bits);
    }
    assert(result =~= bits);
}

/// The vector of length `dimension` with ones exactly at the listed positions.
pub open spec fn unit_vector_spec(dimension: nat, set_indices: Seq<usize>) -> Seq<bool> {
    Seq::new(dimension, |j: int| set_indices.contains(j as usize))
}

/// Returns the vector of length `dimension` with the bits in `set_indices` set to one.
pub fn unit_vector(dimension: usize, set_indices: &[usize]) -> (r: Vec<bool>)
    requires
        forall|k: int| 0 <= k < set_indices@.len() ==> (#[trigger] set_indices@[k]) < dimension,
    ensures
        r@ == unit_vector_spec(dimension as nat, set_indices@),
{
    let mut r = zeros(dimension);
    let mut k: usize = 0;
    while k < set_indices.len()
        invariant
            forall|i: int| 0 <= i < set_indices@.len() ==> (#[trigger] set_indices@[i]) < dimension,
            k <= set_indices@.len(),
            r@.len() == dimension,
            forall|j: int| 0 <= j < dimension ==> #[trigger] r@[j] == set_indices@.take(k as int).contains(j as usize),
        decreases set_indices@.len() - k,
    {
        let index = set_indices[k];
        r.set(index, true);
        proof {
            let next = set_indices@.take(k + 1);
            assert forall|j: int| 0 <= j < dimension implies #[trigger] r@[j] == next.contains(j as usize) by {
                if next.contains(j as usize) {
                    let w = choose|w: int| 0 <= w < k + 1 && #[trigger] next[w] == j as usize;
                    if w < k {
                        assert(set_indices@.take(k as int)[w] == j as usize);
                    }
                }
                if set_indices@.take(k as int).contains(j as usize) {
                    let w = choose|w: int| 0 <= w < k && #[trigger] set_indices@.take(k as int)[w] == j as usize;
                    assert(next[w] == j as usize);
                }
                if j == index as int {
                    assert(next[k as int] == index);
                }
            }
        }
        k = k + 1;
    }
    proof {
        assert(set_indices@.take(set_indices@.len() as int) =~= set_indices@);
        assert(r@ =~= unit_vector_spec(dimension as nat, set_indices@));
    }
    r
}

/// Brings a Hermitian Pauli to its canonical sign (the one whose `Y`-aware phase is zero),
/// returning `true` when the sign had to be flipped.
pub fn adjust_phase_to_canonical(pauli: &mut DensePauli) -> (flipped: bool)
    requires
        old(pauli).wf(),
        is_order_two_spec(old(pauli)@),
    ensures
        final(pauli).wf(),
        flipped == (xyz_phase_spec(old(pauli)@) != 0),
        flipped ==> final(pauli)@ == crate::pauli::pauli_scale(old(pauli)@, 2),
        !flipped ==> final(pauli)@ == old(pauli)@,
{
    if pauli.xyz_phase_exponent() == 0 {
        false
    } else {
        pauli.add_assign_phase_exp(2);
        true
    }
}


/// The quadratic coefficient of the pair `{a, b}`, stored at `min · n + max`.
pub open spec fn pair_coefficient(quadratic: Seq<i32>, n: int, a: int, b: int) -> int {
    if a < b {
        quadratic[a * n + b] as int
    } else {
        quadratic[b * n + a] as int
    }
}

/// `Σ_{j<m, d_j, j ≠ k} c_{kj}`: the coefficients pairing `k` with earlier bits of the direction.
pub open spec fn direction_pair_sum(quadratic: Seq<i32>, n: int, direction: Seq<bool>, k: int, m: int) -> int
    decreases m,
{
    if m <= 0 {
        0
    } else {
        direction_pair_sum(quadratic, n, direction, k, m - 1) + if direction[m - 1] && m - 1 != k {
            pair_coefficient(quadratic, n, k, m - 1)
        } else {
            0
        }
    }
}

/// `Σ_{i<m, d_i} c_i`.
pub open spec fn direction_linear_sum(linear: Seq<i32>, direction: Seq<bool>, m: int) -> int
    decreases m,
{
    if m <= 0 {
        0
    } else {
        direction_linear_sum(linear, direction, m - 1) + if direction[m - 1] {
            linear[m - 1] as int
        } else {
            0
        }
    }
}

/// `Σ_{i<j<m, d_i, d_j} c_{ij}`.
pub open spec fn direction_quadratic_sum(quadratic: Seq<i32>, n: int, direction: Seq<bool>, m: int) -> int
    decreases m,
{
    if m <= 0 {
        0
    } else {
        direction_quadratic_sum(quadratic, n, direction, m - 1) + if direction[m - 1] {
            direction_pair_sum(quadratic, n, direction, m - 1, m - 1)
        } else {
            0
        }
    }
}

/// The constant term of the derivative `φ(r + d) − φ(r)` of the phase
/// `φ(r) = Σ_i c_i r_i + Σ_{i<j} c_{ij} r_i r_j` along `d`.
pub open spec fn derivative_constant(linear: Seq<i32>, quadratic: Seq<i32>, direction: Seq<bool>) -> int {
    let n = linear.len() as int;
    direction_linear_sum(linear, direction, n) + direction_quadratic_sum(quadratic, n, direction, n)
}

/// The coefficient of `r_k` in the derivative of the phase along `d`.
pub open spec fn derivative_linear(linear: Seq<i32>, quadratic: Seq<i32>, direction: Seq<bool>, k: int) -> int {
    let n = linear.len() as int;
    let s = direction_pair_sum(quadratic, n, direction, k, n);
    if direction[k] {
        -2 * linear[k] - s
    } else {
        s
    }
}

/// Every pair with exactly one bit in the direction has a coefficient whose double vanishes
/// modulo 8, so the derivative has no quadratic term.
pub open spec fn mixed_pairs_even(quadratic: Seq<i32>, n: int, direction: Seq<bool>) -> bool {
    forall|i: int, j: int|
        0 <= i < j < n && direction[i] != direction[j] ==> (2 * #[trigger] quadratic[i * n + j]) % 8 == 0
}

/// The phase `φ(r) = Σ_i c_i r_i + Σ_{i<j} c_{ij} r_i r_j (mod 8)` is invariant along `d`: its
/// derivative along `d` vanishes identically.
pub open spec fn phase_invariant_spec(linear: Seq<i32>, quadratic: Seq<i32>, direction: Seq<bool>) -> bool {
    let n = linear.len() as int;
    &&& mixed_pairs_even(quadratic, n, direction)
    &&& derivative_constant(linear, quadratic, direction) % 8 == 0
    &&& forall|k: int| 0 <= k < n ==> #[trigger] derivative_linear(linear, quadratic, direction, k) % 8 == 0
}

/// Coefficients are `ζ₈` exponents and the quadratic table has one slot per ordered pair.
pub open spec fn phase_coefficients_wf(linear: Seq<i32>, quadratic: Seq<i32>) -> bool {
    &&& quadratic.len() == linear.len() * linear.len()
    &&& forall|i: int| 0 <= i < linear.len() ==> 0 <= #[trigger] linear[i] < 8
    &&& forall|i: int| 0 <= i < quadratic.len() ==> 0 <= #[trigger] quadratic[i] < 8
}

/// `true` iff the phase with coefficients `linear`, `quadratic` is invariant along `direction`.
#[verifier::spinoff_prover]
#[verifier::rlimit(40)]
pub fn phase_is_invariant_along(linear: &Vec<i32>, quadratic: &Vec<i32>, direction: &Vec<bool>) -> (r: bool)
    requires
        phase_coefficients_wf(linear@, quadratic@),
        direction@.len() == linear@.len(),
    ensures
        r == phase_invariant_spec(linear@, quadratic@, direction@),
{
    let n = linear.len();
    let quadratic_len = quadratic.len();
    let mut first: usize = 0;
    while first < n
        invariant
            phase_coefficients_wf(linear@, quadratic@),
            quadratic_len == quadratic@.len(),
            direction@.len() == n,
            n == linear@.len(),
            first <= n,
            forall|i: int, j: int|
                0 <= i < first && i < j < n && direction@[i] != direction@[j] ==> (2 * #[trigger] quadratic@[i * n
                    + j]) % 8 == 0,
        decreases n - first,
    {
        let mut second: usize = first + 1;
        while second < n
            invariant
                phase_coefficients_wf(linear@, quadratic@),
                quadratic_len == quadratic@.len(),
                direction@.len() == n,
                n == linear@.len(),
                first < n,
                first + 1 <= second <= n,
                forall|i: int, j: int|
                    0 <= i < first && i < j < n && direction@[i] != direction@[j] ==> (2 * #[trigger] quadratic@[i
                        * n + j]) % 8 == 0,
                forall|j: int|
                    first < j < second && direction@[first as int] != direction@[j] ==> (2 * #[trigger] quadratic@[first
                        * n + j]) % 8 == 0,
            decreases n - second,
        {
            proof {
                crate::separation_phase::lemma_pair_index_in_range(first as int, second as int, n as int);
            }
            let coefficient = quadratic[first * n + second];
            if direction[first] != direction[second] && (2 * coefficient) % 8 != 0 {
                return false;
            }
            second = second + 1;
        }
        first = first + 1;
    }
    let mut constant: i32 = 0;
    let mut j: usize = 0;
    while j < n
        invariant
            phase_coefficients_wf(linear@, quadratic@),
            quadratic_len == quadratic@.len(),
            mixed_pairs_even(quadratic@, n as int, direction@),
            direction@.len() == n,
            n == linear@.len(),
            j <= n,
            0 <= constant < 8,
            constant as int == (direction_linear_sum(linear@, direction@, j as int) + direction_quadratic_sum(
                quadratic@,
                n as int,
                direction@,
                j as int,
            )) % 8,
        decreases n - j,
    {
        if direction[j] {
            let ghost before = direction_linear_sum(linear@, direction@, j as int) + direction_quadratic_sum(
                quadratic@,
                n as int,
                direction@,
                j as int,
            );
            let mut row_sum: i32 = 0;
            let mut i: usize = 0;
            while i < j
                invariant
                    phase_coefficients_wf(linear@, quadratic@),
                    quadratic_len == quadratic@.len(),
                    direction@.len() == n,
                    n == linear@.len(),
                    j < n,
                    i <= j,
                    0 <= row_sum < 8,
                    row_sum as int == direction_pair_sum(quadratic@, n as int, direction@, j as int, i as int) % 8,
                decreases j - i,
            {
                if direction[i] {
                    proof {
                        crate::separation_phase::lemma_pair_index_in_range(i as int, j as int, n as int);
                        lemma_add_mod_noop_right(
                            quadratic@[i * n + j] as int,
                            direction_pair_sum(quadratic@, n as int, direction@, j as int, i as int),
                            8,
                        );
                    }
                    row_sum = (row_sum + quadratic[i * n + j]) % 8;
                }
                i = i + 1;
            }
            proof {
                lemma_add_mod_noop(before, linear@[j as int] as int, 8);
                lemma_add_mod_noop(
                    before + linear@[j as int] as int,
                    direction_pair_sum(quadratic@, n as int, direction@, j as int, j as int),
                    8,
                );
                lemma_add_mod_noop(constant as int, linear@[j as int] as int, 8);
            }
            constant = (constant + linear[j]) % 8;
            proof {
                lemma_add_mod_noop(constant as int, row_sum as int, 8);
                assert((before + linear@[j as int] as int) % 8 == constant as int) by {
                    lemma_add_mod_noop(before, linear@[j as int] as int, 8);
                }
            }
            constant = (constant + row_sum) % 8;
        }
        j = j + 1;
    }
    if constant != 0 {
        return false;
    }
    let mut k: usize = 0;
    while k < n
        invariant
            phase_coefficients_wf(linear@, quadratic@),
            quadratic_len == quadratic@.len(),
            mixed_pairs_even(quadratic@, n as int, direction@),
            derivative_constant(linear@, quadratic@, direction@) % 8 == 0,
            direction@.len() == n,
            n == linear@.len(),
            k <= n,
            forall|m: int| 0 <= m < k ==> #[trigger] derivative_linear(linear@, quadratic@, direction@, m) % 8 == 0,
        decreases n - k,
    {
        let mut partner_sum: i32 = 0;
        let mut m: usize = 0;
        while m < n
            invariant
                phase_coefficients_wf(linear@, quadratic@),
                quadratic_len == quadratic@.len(),
                direction@.len() == n,
                n == linear@.len(),
                k < n,
                m <= n,
                0 <= partner_sum < 8,
                partner_sum as int == direction_pair_sum(quadratic@, n as int, direction@, k as int, m as int) % 8,
            decreases n - m,
        {
            if direction[m] && m != k {
                let coefficient = if k < m {
                    proof {
                        crate::separation_phase::lemma_pair_index_in_range(k as int, m as int, n as int);
                    }
                    quadratic[k * n + m]
                } else {
                    proof {
                        crate::separation_phase::lemma_pair_index_in_range(m as int, k as int, n as int);
                    }
                    quadratic[m * n + k]
                };
                proof {
                    lemma_add_mod_noop_right(
                        coefficient as int,
                        direction_pair_sum(quadratic@, n as int, direction@, k as int, m as int),
                        8,
                    );
                }
                partner_sum = (partner_sum + coefficient) % 8;
            }
            m = m + 1;
        }
        let ghost s = direction_pair_sum(quadratic@, n as int, direction@, k as int, n as int);
        let ghost l = linear@[k as int] as int;
        let vanishes = if direction[k] {
            let v = (2 * linear[k] + partner_sum) % 8 == 0;
            proof {
                lemma_add_mod_noop_right(2 * l, s, 8);
                assert((2 * l + partner_sum as int) % 8 == (2 * l + s) % 8);
                lemma_negation_mod_8(2 * l + s);
                assert(-(2 * l + s) == -2 * l - s);
                assert(derivative_linear(linear@, quadratic@, direction@, k as int) == -2 * l - s);
                assert(v == (derivative_linear(linear@, quadratic@, direction@, k as int) % 8 == 0));
            }
            v
        } else {
            proof {
                assert(derivative_linear(linear@, quadratic@, direction@, k as int) == s);
            }
            partner_sum == 0
        };
        if !vanishes {
            return false;
        }
        k = k + 1;
    }
    true
}

/// `x` is a multiple of 8 exactly when `−x` is.
proof fn lemma_negation_mod_8(x: int)
    ensures
        (-x) % 8 == 0 <==> x % 8 == 0,
{
    assert((-x) % 8 == 0 ==> x % 8 == 0) by (nonlinear_arith);
    assert(x % 8 == 0 ==> (-x) % 8 == 0) by (nonlinear_arith);
}


/// An affine map `x ↦ M x + s` over `𝔽₂`.
pub struct AffineMap {
    matrix: BitMatrix,
    shift: Vec<bool>,
}

/// The matrix, shift and input dimension of an affine map.
pub struct AffineSpec {
    pub matrix: Seq<Seq<bool>>,
    pub shift: Seq<bool>,
    pub input_dimension: nat,
}

impl AffineSpec {
    /// The dimension of the image space.
    pub open spec fn output_dimension(self) -> nat {
        self.shift.len()
    }

    /// The matrix has one row per output coordinate, each of the input dimension.
    pub open spec fn well_shaped(self) -> bool {
        &&& self.matrix.len() == self.shift.len()
        &&& forall|i: int| 0 <= i < self.matrix.len() ==> (#[trigger] self.matrix[i]).len() == self.input_dimension
    }

    /// `M v + s`.
    pub open spec fn apply(self, v: Seq<bool>) -> Seq<bool> {
        bit_xor(mat_vec_spec(self.matrix, v), self.shift)
    }
}

/// Column `j` of the matrix `m`.
pub open spec fn column_of(m: Seq<Seq<bool>>, j: int) -> Seq<bool> {
    Seq::new(m.len(), |k: int| m[k][j])
}

/// The composition `a ∘ b : x ↦ M_a (M_b x + s_b) + s_a`.
pub open spec fn compose_spec(a: AffineSpec, b: AffineSpec) -> AffineSpec {
    AffineSpec {
        matrix: Seq::new(
            a.matrix.len(),
            |i: int| Seq::new(b.input_dimension, |j: int| bit_dot(a.matrix[i], column_of(b.matrix, j))),
        ),
        shift: bit_xor(mat_vec_spec(a.matrix, b.shift), a.shift),
        input_dimension: b.input_dimension,
    }
}

impl View for AffineMap {
    type V = AffineSpec;

    closed spec fn view(&self) -> AffineSpec {
        AffineSpec { matrix: self.matrix@, shift: self.shift@, input_dimension: self.matrix.column_count as nat }
    }
}

impl AffineMap {
    /// The matrix is rectangular with one row per shift entry.
    pub closed spec fn wf(&self) -> bool {
        &&& self.matrix.well_formed()
        &&& self.matrix.rows@.len() == self.shift@.len()
    }

    /// A well-formed map has a well-shaped view.
    pub proof fn lemma_wf(&self)
        requires
            self.wf(),
        ensures
            self@.well_shaped(),
    {
    }

    /// The linear map `x ↦ M x`.
    pub fn linear(matrix: BitMatrix) -> (r: AffineMap)
        requires
            matrix.well_formed(),
        ensures
            r.wf(),
            r@.matrix == matrix@,
            r@.shift == crate::gf2::bit_zeros(matrix.rows@.len()),
            r@.input_dimension == matrix.column_count,
    {
        let rows = matrix.row_count();
        AffineMap { matrix, shift: zeros(rows) }
    }

    /// The affine map `x ↦ M x + s`.
    pub fn affine(matrix: BitMatrix, shift: Vec<bool>) -> (r: AffineMap)
        requires
            matrix.well_formed(),
            matrix.rows@.len() == shift@.len(),
        ensures
            r.wf(),
            r@.matrix == matrix@,
            r@.shift == shift@,
            r@.input_dimension == matrix.column_count,
    {
        AffineMap { matrix, shift }
    }

    /// The zero map from `input_dimension` to `output_dimension` coordinates.
    pub fn zero(input_dimension: usize, output_dimension: usize) -> (r: AffineMap)
        ensures
            r.wf(),
            r@.input_dimension == input_dimension,
            r@.shift == crate::gf2::bit_zeros(output_dimension as nat),
            r@.matrix.len() == output_dimension,
            forall|i: int| 0 <= i < output_dimension ==> #[trigger] r@.matrix[i] == crate::gf2::bit_zeros(
                input_dimension as nat,
            ),
    {
        AffineMap { matrix: BitMatrix::zeros(output_dimension, input_dimension), shift: zeros(output_dimension) }
    }

    /// The dimension of the source space.
    pub fn input_dimension(&self) -> (r: usize)
        ensures
            r == self@.input_dimension,
    {
        self.matrix.column_count
    }

    /// The dimension of the image space.
    pub fn output_dimension(&self) -> (r: usize)
        ensures
            r == self@.output_dimension(),
    {
        self.shift.len()
    }

    /// The linear part `M`.
    pub fn matrix(&self) -> (r: &BitMatrix)
        requires
            self.wf(),
        ensures
            r.well_formed(),
            r@ == self@.matrix,
            r.column_count == self@.input_dimension,
    {
        &self.matrix
    }

    /// The translation `s`.
    pub fn shift(&self) -> (r: &Vec<bool>)
        ensures
            r@ == self@.shift,
    {
        &self.shift
    }

    /// `M v + s`.
    pub fn apply(&self, v: &Vec<bool>) -> (r: Vec<bool>)
        requires
            self.wf(),
            v@.len() == self@.input_dimension,
        ensures
            r@ == self@.apply(v@),
    {
        let mut image = mat_vec(&self.matrix, v);
        crate::gf2::xor_assign(&mut image, &self.shift);
        image
    }

    /// The composition `self ∘ other`.
    pub fn dot(&self, other: &AffineMap) -> (r: AffineMap)
        requires
            self.wf(),
            other.wf(),
            self@.input_dimension == other@.output_dimension(),
        ensures
            r.wf(),
            r@ == compose_spec(self@, other@),
    {
        let inner = other.shift.len();
        let columns_count = other.matrix.column_count;
        let mut columns: Vec<Vec<bool>> = Vec::new();
        let mut j: usize = 0;
        while j < columns_count
            invariant
                other.wf(),
                inner == other@.output_dimension(),
                columns_count == other@.input_dimension,
                j <= columns_count,
                columns@.len() == j,
                forall|c: int| 0 <= c < j ==> (#[trigger] columns@[c])@ == column_of(other@.matrix, c),
            decreases columns_count - j,
        {
            let mut column: Vec<bool> = Vec::new();
            let mut k: usize = 0;
            while k < inner
                invariant
                    other.wf(),
                    inner == other@.output_dimension(),
                    columns_count == other@.input_dimension,
                    j < columns_count,
                    k <= inner,
                    column@.len() == k,
                    forall|c: int| 0 <= c < k ==> column@[c] == other@.matrix[c][j as int],
                decreases inner - k,
            {
                column.push(other.matrix.rows[k][j]);
                k = k + 1;
            }
            proof {
                assert(column@ =~= column_of(other@.matrix, j as int));
            }
            columns.push(column);
            j = j + 1;
        }
        let mut rows: Vec<Vec<bool>> = Vec::new();
        let mut i: usize = 0;
        while i < self.matrix.rows.len()
            invariant
                self.wf(),
                other.wf(),
                self@.input_dimension == other@.output_dimension(),
                inner == other@.output_dimension(),
                columns_count == other@.input_dimension,
                columns@.len() == columns_count,
                forall|c: int| 0 <= c < columns_count ==> (#[trigger] columns@[c])@ == column_of(other@.matrix, c),
                i <= self.matrix.rows@.len(),
                rows@.len() == i,
                forall|r: int| 0 <= r < i ==> (#[trigger] rows@[r])@ == compose_spec(self@, other@).matrix[r],
            decreases self.matrix.rows@.len() - i,
        {
            let mut row: Vec<bool> = Vec::new();
            let mut c: usize = 0;
            while c < columns_count
                invariant
                    self.wf(),
                    other.wf(),
                    self@.input_dimension == other@.output_dimension(),
                    columns@.len() == columns_count,
                    columns_count == other@.input_dimension,
                    forall|cc: int| 0 <= cc < columns_count ==> (#[trigger] columns@[cc])@ == column_of(other@.matrix, cc),
                    i < self.matrix.rows@.len(),
                    c <= columns_count,
                    row@.len() == c,
                    forall|cc: int| 0 <= cc < c ==> row@[cc] == bit_dot(self@.matrix[i as int], column_of(other@.matrix, cc)),
                decreases columns_count - c,
            {
                let entry = crate::gf2::dot(&self.matrix.rows[i], &columns[c]);
                row.push(entry);
                c = c + 1;
            }
            proof {
                assert(row@ =~= compose_spec(self@, other@).matrix[i as int]);
            }
            rows.push(row);
            i = i + 1;
        }
        let mut shift = mat_vec(&self.matrix, &other.shift);
        crate::gf2::xor_assign(&mut shift, &self.shift);
        let r = AffineMap { matrix: BitMatrix { rows, column_count: columns_count }, shift };
        proof {
            assert(r@.matrix =~= compose_spec(self@, other@).matrix);
        }
        r
    }

    /// `true` iff the two maps have the same matrix, shift and input dimension.
    pub fn equals(&self, other: &AffineMap) -> (r: bool)
        requires
            self.wf(),
            other.wf(),
        ensures
            r == (self@ == other@),
    {
        if self.matrix.column_count != other.matrix.column_count || self.matrix.rows.len() != other.matrix.rows.len() {
            return false;
        }
        let mut i: usize = 0;
        while i < self.matrix.rows.len()
            invariant
                self.wf(),
                other.wf(),
                self.matrix.rows@.len() == other.matrix.rows@.len(),
                i <= self.matrix.rows@.len(),
                forall|k: int| 0 <= k < i ==> self@.matrix[k] == other@.matrix[k],
            decreases self.matrix.rows@.len() - i,
        {
            if !bits_equal(&self.matrix.rows[i], &other.matrix.rows[i]) {
                proof {
                    assert(self@.matrix[i as int] == self.matrix.rows@[i as int]@);
                    assert(other@.matrix[i as int] == other.matrix.rows@[i as int]@);
                }
                return false;
            }
            i = i + 1;
        }
        proof {
            assert(self@.matrix =~= other@.matrix);
        }
        bits_equal(&self.shift, &other.shift)
    }
}



/// The random-bit correspondence by provenance: bit `j` of the other action maps to bit `i` of
/// this one when both are symbolic angles, or both are true random bits, of the same rank in
/// allocation order.
pub open spec fn provenance_matrix_spec(self_angles: Seq<bool>, other_angles: Seq<bool>) -> Seq<Seq<bool>> {
    Seq::new(
        self_angles.len(),
        |i: int|
            Seq::new(
                other_angles.len(),
                |j: int|
                    self_angles[i] == other_angles[j] && count_equal(self_angles, self_angles[i], i) == count_equal(
                        other_angles,
                        other_angles[j],
                        j,
                    ),
            ),
    )
}

/// The rank of each position among the positions of the same kind before it.
fn kind_ranks(bits: &Vec<bool>) -> (r: Vec<usize>)
    ensures
        r@.len() == bits@.len(),
        forall|i: int| 0 <= i < bits@.len() ==> #[trigger] r@[i] as int == count_equal(bits@, bits@[i], i),
{
    let mut ranks: Vec<usize> = Vec::new();
    let mut set_count: usize = 0;
    let mut clear_count: usize = 0;
    let mut i: usize = 0;
    while i < bits.len()
        invariant
            i <= bits@.len(),
            ranks@.len() == i,
            set_count as int == count_equal(bits@, true, i as int),
            clear_count as int == count_equal(bits@, false, i as int),
            set_count <= i,
            clear_count <= i,
            forall|k: int| 0 <= k < i ==> #[trigger] ranks@[k] as int == count_equal(bits@, bits@[k], k),
        decreases bits@.len() - i,
    {
        if bits[i] {
            ranks.push(set_count);
            set_count = set_count + 1;
        } else {
            ranks.push(clear_count);
            clear_count = clear_count + 1;
        }
        i = i + 1;
    }
    ranks
}

/// The number of set entries of `bits`.
fn count_set(bits: &Vec<bool>) -> (r: usize)
    ensures
        r as int == count_equal(bits@, true, bits@.len() as int),
{
    let mut count: usize = 0;
    let mut i: usize = 0;
    while i < bits.len()
        invariant
            i <= bits@.len(),
            count <= i,
            count as int == count_equal(bits@, true, i as int),
        decreases bits@.len() - i,
    {
        if bits[i] {
            count = count + 1;
        }
        i = i + 1;
    }
    count
}

/// The linear random-bit correspondence by provenance between two actions with the given
/// symbolic-angle indicators; the actions must have equally many symbolic angles.
pub fn provenance_random_map(self_angles: &Vec<bool>, other_angles: &Vec<bool>) -> (r: Result<
    AffineMap,
    ActionsInequivalenceReason,
>)
    ensures
        r is Err <==> count_equal(self_angles@, true, self_angles@.len() as int) != count_equal(
            other_angles@,
            true,
            other_angles@.len() as int,
        ),
        r matches Err(e) ==> e == ActionsInequivalenceReason::SymbolicAngleCount,
        r matches Ok(map) ==> map.wf() && map@.matrix == provenance_matrix_spec(self_angles@, other_angles@)
            && map@.shift == crate::gf2::bit_zeros(self_angles@.len()) && map@.input_dimension == other_angles@.len(),
{
    if count_set(self_angles) != count_set(other_angles) {
        return Err(ActionsInequivalenceReason::SymbolicAngleCount);
    }
    let self_ranks = kind_ranks(self_angles);
    let other_ranks = kind_ranks(other_angles);
    let mut rows: Vec<Vec<bool>> = Vec::new();
    let mut i: usize = 0;
    while i < self_angles.len()
        invariant
            self_ranks@.len() == self_angles@.len(),
            other_ranks@.len() == other_angles@.len(),
            forall|k: int| 0 <= k < self_angles@.len() ==> #[trigger] self_ranks@[k] as int == count_equal(self_angles@, self_angles@[k], k),
            forall|k: int| 0 <= k < other_angles@.len() ==> #[trigger] other_ranks@[k] as int == count_equal(other_angles@, other_angles@[k], k),
            i <= self_angles@.len(),
            rows@.len() == i,
            forall|k: int| 0 <= k < i ==> (#[trigger] rows@[k])@ == provenance_matrix_spec(self_angles@, other_angles@)[k],
        decreases self_angles@.len() - i,
    {
        let mut row: Vec<bool> = Vec::new();
        let mut j: usize = 0;
        while j < other_angles.len()
            invariant
                self_ranks@.len() == self_angles@.len(),
                other_ranks@.len() == other_angles@.len(),
                forall|k: int| 0 <= k < self_angles@.len() ==> #[trigger] self_ranks@[k] as int == count_equal(self_angles@, self_angles@[k], k),
                forall|k: int| 0 <= k < other_angles@.len() ==> #[trigger] other_ranks@[k] as int == count_equal(other_angles@, other_angles@[k], k),
                i < self_angles@.len(),
                j <= other_angles@.len(),
                row@.len() == j,
                forall|k: int| 0 <= k < j ==> row@[k] == provenance_matrix_spec(self_angles@, other_angles@)[i as int][k],
            decreases other_angles@.len() - j,
        {
            row.push(self_angles[i] == other_angles[j] && self_ranks[i] == other_ranks[j]);
            j = j + 1;
        }
        proof {
            assert(row@ =~= provenance_matrix_spec(self_angles@, other_angles@)[i as int]);
        }
        rows.push(row);
        i = i + 1;
    }
    let matrix = BitMatrix { rows, column_count: other_angles.len() };
    proof {
        assert(matrix@ =~= provenance_matrix_spec(self_angles@, other_angles@));
    }
    Ok(AffineMap::linear(matrix))
}

/// Every symbolic-angle row of `map` is the coordinate of the other action's symbolic angle of
/// the same rank, with no translation, and the two actions have equally many symbolic angles.
pub open spec fn angle_correspondence_spec(self_angles: Seq<bool>, other_angles: Seq<bool>, map: AffineSpec) -> bool {
    &&& count_equal(self_angles, true, self_angles.len() as int) == count_equal(other_angles, true, other_angles.len() as int)
    &&& forall|i: int|
        0 <= i < self_angles.len() && #[trigger] self_angles[i] ==> {
            &&& !map.shift[i]
            &&& forall|j: int|
                0 <= j < other_angles.len() ==> #[trigger] map.matrix[i][j] == (other_angles[j] && count_equal(
                    other_angles,
                    true,
                    j,
                ) == count_equal(self_angles, true, i))
        }
}

/// `true` iff `map` sends every symbolic angle of the other action to the symbolic angle of the
/// same rank of this one, without mixing in other random bits.
pub fn angle_correspondence_is_clean(self_angles: &Vec<bool>, other_angles: &Vec<bool>, map: &AffineMap) -> (r: bool)
    requires
        map.wf(),
        map@.input_dimension == other_angles@.len(),
        map@.output_dimension() == self_angles@.len(),
    ensures
        r == angle_correspondence_spec(self_angles@, other_angles@, map@),
{
    proof {
        map.lemma_wf();
    }
    if count_set(self_angles) != count_set(other_angles) {
        return false;
    }
    let self_ranks = kind_ranks(self_angles);
    let other_ranks = kind_ranks(other_angles);
    let matrix = map.matrix();
    let shift = map.shift();
    let mut i: usize = 0;
    while i < self_angles.len()
        invariant
            map.wf(),
            map@.well_shaped(),
            matrix@ == map@.matrix,
            matrix.well_formed(),
            matrix.column_count == other_angles@.len(),
            shift@ == map@.shift,
            map@.input_dimension == other_angles@.len(),
            map@.output_dimension() == self_angles@.len(),
            count_equal(self_angles@, true, self_angles@.len() as int) == count_equal(other_angles@, true, other_angles@.len() as int),
            self_ranks@.len() == self_angles@.len(),
            other_ranks@.len() == other_angles@.len(),
            forall|k: int| 0 <= k < self_angles@.len() ==> #[trigger] self_ranks@[k] as int == count_equal(self_angles@, self_angles@[k], k),
            forall|k: int| 0 <= k < other_angles@.len() ==> #[trigger] other_ranks@[k] as int == count_equal(other_angles@, other_angles@[k], k),
            i <= self_angles@.len(),
            forall|k: int|
                0 <= k < i && #[trigger] self_angles@[k] ==> {
                    &&& !map@.shift[k]
                    &&& forall|j: int|
                        0 <= j < other_angles@.len() ==> #[trigger] map@.matrix[k][j] == (other_angles@[j] && count_equal(
                            other_angles@,
                            true,
                            j,
                        ) == count_equal(self_angles@, true, k))
                },
        decreases self_angles@.len() - i,
    {
        if self_angles[i] {
            if shift[i] {
                return false;
            }
            let mut j: usize = 0;
            while j < other_angles.len()
                invariant
                    map@.well_shaped(),
                    matrix@ == map@.matrix,
                    matrix.well_formed(),
                    matrix.column_count == other_angles@.len(),
                    map@.input_dimension == other_angles@.len(),
                    map@.output_dimension() == self_angles@.len(),
                    self_ranks@.len() == self_angles@.len(),
                    other_ranks@.len() == other_angles@.len(),
                    forall|k: int| 0 <= k < self_angles@.len() ==> #[trigger] self_ranks@[k] as int == count_equal(self_angles@, self_angles@[k], k),
                    forall|k: int| 0 <= k < other_angles@.len() ==> #[trigger] other_ranks@[k] as int == count_equal(other_angles@, other_angles@[k], k),
                    i < self_angles@.len(),
                    self_angles@[i as int],
                    j <= other_angles@.len(),
                    forall|jj: int|
                        0 <= jj < j ==> #[trigger] map@.matrix[i as int][jj] == (other_angles@[jj] && count_equal(
                            other_angles@,
                            true,
                            jj,
                        ) == count_equal(self_angles@, true, i as int)),
                decreases other_angles@.len() - j,
            {
                let expected = other_angles[j] && other_ranks[j] == self_ranks[i];
                let entry = matrix.get(i, j);
                proof {
                    assert(entry == matrix@[i as int][j as int]);
                    assert(self_ranks@[i as int] as int == count_equal(self_angles@, true, i as int));
                }
                if entry != expected {
                    proof {
                        assert(self_angles@[i as int]);
                        assert(map@.matrix[i as int][j as int] != (other_angles@[j as int] && count_equal(
                            other_angles@,
                            true,
                            j as int,
                        ) == count_equal(self_angles@, true, i as int)));
                    }
                    return false;
                }
                j = j + 1;
            }
        }
        i = i + 1;
    }
    true
}


/// Outcome `o` records the allocation of a symbolic angle.
pub open spec fn is_symbolic_outcome(v: SimulationSpec, o: int) -> bool {
    v.random_outcome_indicator[o] && v.symbolic_angle_indicator[count_equal(v.random_outcome_indicator, true, o) as int]
}

/// The outcomes below `m` that are not symbolic-angle allocations, in order.
pub open spec fn physical_outcomes(v: SimulationSpec, m: int) -> Seq<int>
    decreases m,
{
    if m <= 0 {
        Seq::empty()
    } else if is_symbolic_outcome(v, m - 1) {
        physical_outcomes(v, m - 1)
    } else {
        physical_outcomes(v, m - 1).push(m - 1)
    }
}

/// The rows of the outcome matrix `M` (on the live random bits) of the physical outcomes.
pub open spec fn physical_outcome_matrix_spec(v: SimulationSpec) -> Seq<Seq<bool>> {
    let rows = physical_outcomes(v, v.outcome_count() as int);
    Seq::new(rows.len(), |k: int| resize_bits(v.outcome_matrix[rows[k]], v.random_bit_count))
}

/// The outcome map with the rows of symbolic-angle allocations omitted.
pub fn physical_outcome_matrix(simulation: &PhasedOutcomeCompleteSimulation) -> (r: BitMatrix)
    requires
        simulation.wf(),
    ensures
        r.well_formed(),
        r.column_count == simulation@.random_bit_count,
        r@ == physical_outcome_matrix_spec(simulation@),
{
    proof {
        simulation.lemma_consistent();
    }
    let ghost v = simulation@;
    let outcomes = simulation.outcome_matrix();
    let indicator = simulation.random_outcome_indicator();
    let symbolic = simulation.symbolic_angle_indicator();
    let count = indicator.len();
    proof {
        assert(outcomes.rows@.len() == outcomes@.len());
    }
    let mut rows: Vec<Vec<bool>> = Vec::new();
    let mut random_bit: usize = 0;
    let mut outcome: usize = 0;
    while outcome < count
        invariant
            v == simulation@,
            v.consistent(),
            indicator@ == v.random_outcome_indicator,
            symbolic@ == v.symbolic_angle_indicator,
            count == v.outcome_count(),
            outcomes.well_formed(),
            outcomes@ == resize_matrix(v.outcome_matrix, v.outcome_count(), v.random_bit_count),
            outcomes.rows@.len() == count,
            outcome <= count,
            random_bit as int == count_equal(v.random_outcome_indicator, true, outcome as int),
            rows@.len() == physical_outcomes(v, outcome as int).len(),
            forall|k: int|
                0 <= k < rows@.len() ==> (#[trigger] rows@[k])@ == resize_bits(
                    v.outcome_matrix[physical_outcomes(v, outcome as int)[k]],
                    v.random_bit_count,
                ),
        decreases count - outcome,
    {
        let is_symbolic = if indicator[outcome] {
            proof {
                crate::gf2::lemma_count_equal_monotone(v.random_outcome_indicator, true, outcome + 1, count as int);
            }
            let s = symbolic[random_bit];
            random_bit = random_bit + 1;
            s
        } else {
            false
        };
        if !is_symbolic {
            let row = outcomes.rows[outcome].clone();
            proof {
                assert(outcomes@[outcome as int] == outcomes.rows@[outcome as int]@);
                assert(row@ =~= resize_bits(v.outcome_matrix[outcome as int], v.random_bit_count));
            }
            rows.push(row);
        }
        outcome = outcome + 1;
    }
    let r = BitMatrix { rows, column_count: outcomes.column_count };
    proof {
        assert(r@ =~= physical_outcome_matrix_spec(v));
    }
    r
}

/// The branch phase function of a phased Choi state: the `ζ₈` exponent of branch `r` is
/// `2⟨p, r⟩ + 4⟨B r + s, r⟩` plus the separation phase at the branch label `A r`.
pub struct PhaseData {
    linear_i: Vec<bool>,
    linear_sign: Vec<bool>,
    quadratic: BitMatrix,
    branch_labels: BitMatrix,
    encoder_phase: SeparationPhase,
}

/// The components `p`, `s`, `B`, `A` and the separation phase of a [`PhaseData`].
pub struct PhaseDataView {
    pub linear_i: Seq<bool>,
    pub linear_sign: Seq<bool>,
    pub quadratic: Seq<Seq<bool>>,
    pub branch_labels: Seq<Seq<bool>>,
    pub encoder_phase: SeparationPhaseView,
}

impl View for PhaseData {
    type V = PhaseDataView;

    closed spec fn view(&self) -> PhaseDataView {
        PhaseDataView {
            linear_i: self.linear_i@,
            linear_sign: self.linear_sign@,
            quadratic: self.quadratic@,
            branch_labels: self.branch_labels@,
            encoder_phase: self.encoder_phase@,
        }
    }
}

/// The `ζ₈` exponent of branch `r`.
pub open spec fn phase_data_value(d: PhaseDataView, r: Seq<bool>) -> int {
    let n = d.linear_i.len() as int;
    (phase_form_value(n, r, d.linear_i, d.linear_sign, d.quadratic) + crate::separation_phase::polynomial_value(
        d.encoder_phase.constant,
        d.encoder_phase.linear,
        d.encoder_phase.quadratic,
        mat_vec_spec(d.branch_labels, r),
    ) % 8) % 8
}

impl PhaseData {
    /// All components are sized for the same number of random bits, and the branch labels for
    /// the separation phase.
    pub closed spec fn wf(&self) -> bool {
        let n = self.linear_i@.len();
        &&& self.linear_sign@.len() == n
        &&& self.quadratic.well_formed()
        &&& self.quadratic.rows@.len() == n
        &&& self.quadratic.column_count == n
        &&& self.branch_labels.well_formed()
        &&& self.branch_labels.column_count == n
        &&& self.branch_labels.rows@.len() == self.encoder_phase@.linear.len()
        &&& self.encoder_phase.well_formed()
    }

    /// Extracts the branch phase recorded by `simulation`, with the separation phase
    /// `encoder_phase` of its encoder.
    pub fn from_simulation(simulation: &PhasedOutcomeCompleteSimulation, encoder_phase: SeparationPhase) -> (r: PhaseData)
        requires
            simulation.wf(),
            encoder_phase.well_formed(),
            encoder_phase@.linear.len() == simulation@.qubit_count,
        ensures
            r.wf(),
            r@.linear_i == resize_bits(simulation@.linear_i_phase, simulation@.random_bit_count),
            r@.linear_sign == resize_bits(simulation@.linear_sign_phase, simulation@.random_bit_count),
            r@.quadratic == crate::gf2::resize_matrix(
                simulation@.quadratic_phase_matrix,
                simulation@.random_bit_count,
                simulation@.random_bit_count,
            ),
            r@.branch_labels == crate::gf2::resize_matrix(
                simulation@.sign_matrix,
                simulation@.qubit_count,
                simulation@.random_bit_count,
            ),
            r@.encoder_phase == encoder_phase@,
    {
        proof {
            simulation.lemma_consistent();
        }
        let quadratic = simulation.quadratic_phase_matrix();
        let branch_labels = simulation.sign_matrix();
        proof {
            assert(quadratic.rows@.len() == quadratic@.len());
            assert(branch_labels.rows@.len() == branch_labels@.len());
        }
        PhaseData {
            linear_i: simulation.linear_i_phase(),
            linear_sign: simulation.linear_sign_phase(),
            quadratic,
            branch_labels,
            encoder_phase,
        }
    }

    /// The number of random bits.
    pub fn random_count(&self) -> (r: usize)
        ensures
            r == self@.linear_i.len(),
    {
        self.linear_i.len()
    }

    /// The `ζ₈` exponent of the branch `random_bits`.
    pub fn phase_exponent(&self, random_bits: &Vec<bool>) -> (r: u8)
        requires
            self.wf(),
            random_bits@.len() == self@.linear_i.len(),
        ensures
            r as int == phase_data_value(self@, random_bits@),
            r < 8,
    {
        let explicit_phase = phase_form_exponent(
            self.linear_i.len(),
            random_bits,
            &self.linear_i,
            &self.linear_sign,
            &self.quadratic,
        );
        let branch_label = mat_vec(&self.branch_labels, random_bits);
        let encoder_part = self.encoder_phase.evaluate(&branch_label);
        (explicit_phase + encoder_part) % 8
    }
}


/// The linear coefficients `(v_i − c) mod 8` of a phase with value `c` at `0` and `v_i` at `e_i`.
pub open spec fn interpolated_linear(constant: int, unit_values: Seq<i32>) -> Seq<i32> {
    Seq::new(unit_values.len(), |i: int| ((unit_values[i] - constant) % 8) as i32)
}

/// The quadratic coefficient at slot `p = i · n + j`: `(v_{ij} − c − l_i − l_j) mod 8` for
/// `i < j`, zero elsewhere.
pub open spec fn interpolated_quadratic(constant: int, unit_values: Seq<i32>, pair_values: Seq<i32>) -> Seq<i32> {
    let n = unit_values.len() as int;
    let linear = interpolated_linear(constant, unit_values);
    Seq::new(
        pair_values.len(),
        |p: int|
            if p / n < p % n {
                ((pair_values[p] - constant - linear[p / n] - linear[p % n]) % 8) as i32
            } else {
                0i32
            },
    )
}

/// The coefficients of the degree-at-most-two phase taking the value `constant` at `0`,
/// `unit_values[i]` at `e_i` and `pair_values[i · n + j]` at `e_i + e_j` (`i < j`), all modulo 8.
pub fn quadratic_phase_coefficients(constant: i32, unit_values: &Vec<i32>, pair_values: &Vec<i32>) -> (r: (
    Vec<i32>,
    Vec<i32>,
))
    requires
        0 <= constant < 8,
        pair_values@.len() == unit_values@.len() * unit_values@.len(),
        forall|i: int| 0 <= i < unit_values@.len() ==> 0 <= #[trigger] unit_values@[i] < 8,
        forall|i: int| 0 <= i < pair_values@.len() ==> 0 <= #[trigger] pair_values@[i] < 8,
    ensures
        r.0@ == interpolated_linear(constant as int, unit_values@),
        r.1@ == interpolated_quadratic(constant as int, unit_values@, pair_values@),
        phase_coefficients_wf(r.0@, r.1@),
{
    let n = unit_values.len();
    let mut linear: Vec<i32> = Vec::new();
    let mut i: usize = 0;
    while i < n
        invariant
            n == unit_values@.len(),
            0 <= constant < 8,
            forall|k: int| 0 <= k < n ==> 0 <= #[trigger] unit_values@[k] < 8,
            i <= n,
            linear@.len() == i,
            forall|k: int| 0 <= k < i ==> #[trigger] linear@[k] == interpolated_linear(constant as int, unit_values@)[k],
        decreases n - i,
    {
        linear.push((unit_values[i] - constant + 8) % 8);
        proof {
            assert((unit_values@[i as int] - constant + 8) % 8 == (unit_values@[i as int] - constant) % 8) by {
                vstd::arithmetic::div_mod::lemma_mod_add_multiples_vanish(unit_values@[i as int] - constant, 8);
            }
        }
        i = i + 1;
    }
    proof {
        assert(linear@ =~= interpolated_linear(constant as int, unit_values@));
    }
    let mut quadratic: Vec<i32> = Vec::new();
    let mut p: usize = 0;
    while p < pair_values.len()
        invariant
            n == unit_values@.len(),
            pair_values@.len() == n * n,
            linear@ == interpolated_linear(constant as int, unit_values@),
            forall|k: int| 0 <= k < pair_values@.len() ==> 0 <= #[trigger] pair_values@[k] < 8,
            0 <= constant < 8,
            p <= pair_values@.len(),
            quadratic@.len() == p,
            forall|k: int|
                0 <= k < p ==> #[trigger] quadratic@[k] == interpolated_quadratic(
                    constant as int,
                    unit_values@,
                    pair_values@,
                )[k],
        decreases pair_values@.len() - p,
    {
        let first = p / n;
        let second = p % n;
        let value = if first < second {
            proof {
                assert(first < n) by (nonlinear_arith)
                    requires
                        first == p / n,
                        p < n * n,
                        n > 0,
                ;
            }
            let v = pair_values[p] - constant - linear[first] - linear[second] + 24;
            proof {
                let x = pair_values@[p as int] - constant - linear@[first as int] - linear@[second as int];
                assert(v == x + 24);
                vstd::arithmetic::div_mod::lemma_mod_add_multiples_vanish(x + 16, 8);
                vstd::arithmetic::div_mod::lemma_mod_add_multiples_vanish(x + 8, 8);
                vstd::arithmetic::div_mod::lemma_mod_add_multiples_vanish(x, 8);
            }
            v % 8
        } else {
            0i32
        };
        quadratic.push(value);
        p = p + 1;
    }
    proof {
        assert(quadratic@ =~= interpolated_quadratic(constant as int, unit_values@, pair_values@));
    }
    (linear, quadratic)
}


/// The `ζ₈` exponent of the phase difference between branch `map(r)` of `s` and branch `r` of
/// `o`.
pub open spec fn phase_difference_value(s: PhaseDataView, o: PhaseDataView, map: AffineSpec, r: Seq<bool>) -> int {
    (phase_data_value(s, map.apply(r)) - phase_data_value(o, r)) % 8
}

/// The phase difference on the unit labels `e_i` of length `n`.
pub open spec fn difference_on_units(s: PhaseDataView, o: PhaseDataView, map: AffineSpec, n: nat) -> Seq<i32> {
    Seq::new(n, |i: int| phase_difference_value(s, o, map, crate::gf2::bit_unit(n, i)) as i32)
}

/// The phase difference on the pair labels `e_i + e_j` (slot `i · n + j`, `i < j`).
pub open spec fn difference_on_pairs(s: PhaseDataView, o: PhaseDataView, map: AffineSpec, n: nat) -> Seq<i32> {
    Seq::new(
        n * n,
        |p: int|
            if p / (n as int) < p % (n as int) {
                phase_difference_value(s, o, map, crate::separation_phase::pair_label(n, p / (n as int), p % (n as int)))
                    as i32
            } else {
                0i32
            },
    )
}

/// The phase difference between the two branch phase functions under `map` is invariant along
/// every row of `kernel`.
pub open spec fn relative_phase_spec(s: PhaseDataView, o: PhaseDataView, map: AffineSpec, kernel: Seq<Seq<bool>>) -> bool {
    let n = o.linear_i.len();
    let constant = phase_difference_value(s, o, map, crate::gf2::bit_zeros(n));
    let units = difference_on_units(s, o, map, n);
    let pairs = difference_on_pairs(s, o, map, n);
    forall|k: int|
        0 <= k < kernel.len() ==> phase_invariant_spec(
            interpolated_linear(constant, units),
            interpolated_quadratic(constant, units, pairs),
            #[trigger] kernel[k],
        )
}

/// `true` iff the difference between the branch phases of `self_phase` at `map(r)` and of
/// `other_phase` at `r` is invariant along every row of `kernel`, the directions of the random
/// bits that leave the physical outcomes unchanged.
pub fn relative_phase_matches(
    self_phase: &PhaseData,
    other_phase: &PhaseData,
    map: &AffineMap,
    kernel: &BitMatrix,
) -> (r: bool)
    requires
        self_phase.wf(),
        other_phase.wf(),
        map.wf(),
        map@.input_dimension == other_phase@.linear_i.len(),
        map@.output_dimension() == self_phase@.linear_i.len(),
        kernel.well_formed(),
        kernel.column_count == other_phase@.linear_i.len(),
        other_phase@.linear_i.len() * other_phase@.linear_i.len() <= usize::MAX,
    ensures
        r == relative_phase_spec(self_phase@, other_phase@, map@, kernel@),
{
    proof {
        map.lemma_wf();
    }
    let n = other_phase.random_count();
    let zero = zeros(n);
    let constant = phase_difference(self_phase, other_phase, map, &zero);
    let mut units: Vec<i32> = Vec::new();
    let mut i: usize = 0;
    while i < n
        invariant
            self_phase.wf(),
            other_phase.wf(),
            map.wf(),
            map@.input_dimension == n,
            map@.output_dimension() == self_phase@.linear_i.len(),
            n == other_phase@.linear_i.len(),
            i <= n,
            units@.len() == i,
            forall|k: int| 0 <= k < i ==> #[trigger] units@[k] == difference_on_units(self_phase@, other_phase@, map@, n as nat)[k],
        decreases n - i,
    {
        let label = crate::gf2::unit(n, i);
        units.push(phase_difference(self_phase, other_phase, map, &label));
        i = i + 1;
    }
    proof {
        assert(units@ =~= difference_on_units(self_phase@, other_phase@, map@, n as nat));
    }
    let total = n * n;
    let mut pairs: Vec<i32> = Vec::new();
    let mut p: usize = 0;
    while p < total
        invariant
            self_phase.wf(),
            other_phase.wf(),
            map.wf(),
            map@.input_dimension == n,
            map@.output_dimension() == self_phase@.linear_i.len(),
            n == other_phase@.linear_i.len(),
            total == n * n,
            p <= total,
            pairs@.len() == p,
            forall|k: int| 0 <= k < p ==> #[trigger] pairs@[k] == difference_on_pairs(self_phase@, other_phase@, map@, n as nat)[k],
        decreases total - p,
    {
        let first = p / n;
        let second = p % n;
        let value = if first < second {
            proof {
                assert(first < n) by (nonlinear_arith)
                    requires
                        first == p / n,
                        p < n * n,
                        n > 0,
                ;
            }
            let mut label = crate::gf2::unit(n, first);
            label.set(second, true);
            proof {
                assert(label@ =~= crate::separation_phase::pair_label(n as nat, first as int, second as int));
            }
            phase_difference(self_phase, other_phase, map, &label)
        } else {
            0i32
        };
        pairs.push(value);
        p = p + 1;
    }
    proof {
        assert(pairs@ =~= difference_on_pairs(self_phase@, other_phase@, map@, n as nat));
    }
    let (linear, quadratic) = quadratic_phase_coefficients(constant, &units, &pairs);
    let ghost spec_constant = phase_difference_value(self_phase@, other_phase@, map@, crate::gf2::bit_zeros(n as nat));
    proof {
        assert(zero@ == crate::gf2::bit_zeros(n as nat));
    }
    let mut row: usize = 0;
    while row < kernel.rows.len()
        invariant
            linear@ == interpolated_linear(spec_constant, difference_on_units(self_phase@, other_phase@, map@, n as nat)),
            quadratic@ == interpolated_quadratic(
                spec_constant,
                difference_on_units(self_phase@, other_phase@, map@, n as nat),
                difference_on_pairs(self_phase@, other_phase@, map@, n as nat),
            ),
            n == other_phase@.linear_i.len(),
            spec_constant == phase_difference_value(self_phase@, other_phase@, map@, crate::gf2::bit_zeros(n as nat)),
            kernel.well_formed(),
            kernel.column_count == n,
            phase_coefficients_wf(linear@, quadratic@),
            linear@.len() == n,
            row <= kernel.rows@.len(),
            forall|k: int| 0 <= k < row ==> phase_invariant_spec(linear@, quadratic@, #[trigger] kernel@[k]),
        decreases kernel.rows@.len() - row,
    {
        proof {
            assert(kernel@[row as int] == kernel.rows@[row as int]@);
        }
        if !phase_is_invariant_along(&linear, &quadratic, &kernel.rows[row]) {
            proof {
                let units = difference_on_units(self_phase@, other_phase@, map@, n as nat);
                let pairs = difference_on_pairs(self_phase@, other_phase@, map@, n as nat);
                assert(!phase_invariant_spec(
                    interpolated_linear(spec_constant, units),
                    interpolated_quadratic(spec_constant, units, pairs),
                    kernel@[row as int],
                ));
            }
            return false;
        }
        row = row + 1;
    }
    true
}

/// The phase difference `(φ_self(map(r)) − φ_other(r)) mod 8` at `r`.
fn phase_difference(self_phase: &PhaseData, other_phase: &PhaseData, map: &AffineMap, r: &Vec<bool>) -> (d: i32)
    requires
        self_phase.wf(),
        other_phase.wf(),
        map.wf(),
        map@.input_dimension == other_phase@.linear_i.len(),
        map@.output_dimension() == self_phase@.linear_i.len(),
        r@.len() == other_phase@.linear_i.len(),
    ensures
        d as int == phase_difference_value(self_phase@, other_phase@, map@, r@),
        0 <= d < 8,
{
    proof {
        map.lemma_wf();
    }
    let image = map.apply(r);
    let self_value = self_phase.phase_exponent(&image) as i32;
    let other_value = other_phase.phase_exponent(r) as i32;
    proof {
        vstd::arithmetic::div_mod::lemma_mod_add_multiples_vanish(self_value - other_value, 8);
    }
    (self_value - other_value + 8) % 8
}


/// A Pauli operator whose sign is `(−1)^⟨mask, outcomes⟩`.
pub struct SignedPauli {
    pub pauli: DensePauli,
    /// The sign of `pauli` is the inner product of this mask with the outcome vector.
    pub outcomes_sign_mask: Vec<bool>,
}

impl SignedPauli {
    /// The outcomes on which the sign depends, in increasing order.
    pub fn sign_support(&self) -> (r: Vec<usize>)
        ensures
            forall|k: int| 0 <= k < r@.len() ==> (#[trigger] r@[k]) < self.outcomes_sign_mask@.len() && self.outcomes_sign_mask@[r@[k] as int],
            forall|i: int| 0 <= i < self.outcomes_sign_mask@.len() && self.outcomes_sign_mask@[i] ==> r@.contains(i as usize),
            forall|k: int, l: int| 0 <= k < l < r@.len() ==> r@[k] < r@[l],
    {
        crate::gf2::support(&self.outcomes_sign_mask)
    }
}

/// The views of a list of Pauli operators.
pub open spec fn paulis_view(paulis: Seq<DensePauli>) -> Seq<PauliSpec> {
    paulis.map_values(|p: DensePauli| p@)
}

/// `true` iff the two lists hold the same operators in the same order.
pub fn paulis_equal(a: &Vec<DensePauli>, b: &Vec<DensePauli>) -> (r: bool)
    ensures
        r == (paulis_view(a@) == paulis_view(b@)),
{
    if a.len() != b.len() {
        proof {
            assert(paulis_view(a@).len() != paulis_view(b@).len());
        }
        return false;
    }
    let mut k: usize = 0;
    while k < a.len()
        invariant
            a@.len() == b@.len(),
            k <= a@.len(),
            forall|j: int| 0 <= j < k ==> paulis_view(a@)[j] == paulis_view(b@)[j],
        decreases a@.len() - k,
    {
        if !crate::clifford::pauli_equal(&a[k], &b[k]) {
            proof {
                assert(paulis_view(a@)[k as int] != paulis_view(b@)[k as int]);
            }
            return false;
        }
        k = k + 1;
    }
    proof {
        assert(paulis_view(a@) =~= paulis_view(b@));
    }
    true
}

/// Canonical generators of a stabilizer group restricted to some qubits, with their signs as an
/// affine function of the inner random bits.
pub struct GeneratorsWithSigns {
    canonical_generators: Vec<DensePauli>,
    sign_from_random: AffineMap,
    canonical_to_original: Vec<usize>,
}

/// The generators, the sign map and the original qubits of a [`GeneratorsWithSigns`].
pub struct GeneratorsView {
    pub generators: Seq<PauliSpec>,
    pub sign_from_random: AffineSpec,
    pub qubits: Seq<usize>,
}

impl View for GeneratorsWithSigns {
    type V = GeneratorsView;

    closed spec fn view(&self) -> GeneratorsView {
        GeneratorsView {
            generators: paulis_view(self.canonical_generators@),
            sign_from_random: self.sign_from_random@,
            qubits: self.canonical_to_original@,
        }
    }
}

impl GeneratorsWithSigns {
    /// The sign map is well formed with one output per generator, and every generator is well
    /// formed.
    pub closed spec fn wf(&self) -> bool {
        &&& self.sign_from_random.wf()
        &&& self.canonical_generators@.len() == self.sign_from_random@.output_dimension()
        &&& forall|k: int| 0 <= k < self.canonical_generators@.len() ==> (#[trigger] self.canonical_generators@[k]).wf()
    }

    /// Generators with the sign of generator `j` given by coordinate `j` of `sign_from_random`,
    /// acting on the original qubits `qubits`.
    pub fn new(canonical_generators: Vec<DensePauli>, sign_from_random: AffineMap, qubits: &[usize]) -> (r: Self)
        requires
            sign_from_random.wf(),
            canonical_generators@.len() == sign_from_random@.output_dimension(),
            forall|k: int| 0 <= k < canonical_generators@.len() ==> (#[trigger] canonical_generators@[k]).wf(),
        ensures
            r.wf(),
            r@.generators == paulis_view(canonical_generators@),
            r@.sign_from_random == sign_from_random@,
            r@.qubits == qubits@,
    {
        let mut original: Vec<usize> = Vec::new();
        let mut k: usize = 0;
        while k < qubits.len()
            invariant
                k <= qubits@.len(),
                original@ == qubits@.take(k as int),
            decreases qubits@.len() - k,
        {
            original.push(qubits[k]);
            proof {
                assert(original@ =~= qubits@.take(k + 1));
            }
            k = k + 1;
        }
        proof {
            assert(qubits@.take(qubits@.len() as int) =~= qubits@);
        }
        GeneratorsWithSigns { canonical_generators, sign_from_random, canonical_to_original: original }
    }

    /// The generators without their signs.
    pub fn abs(&self) -> (r: &Vec<DensePauli>)
        ensures
            paulis_view(r@) == self@.generators,
    {
        &self.canonical_generators
    }

    /// The original qubits.
    pub fn qubits(&self) -> (r: &Vec<usize>)
        ensures
            r@ == self@.qubits,
    {
        &self.canonical_to_original
    }

    /// `true` iff the signs of `self`, pulled back along `self_random_from_other_random`, differ
    /// from the signs of `other`.
    pub fn is_equivalent_with_map(&self, other: &GeneratorsWithSigns, self_random_from_other_random: &AffineMap) -> (r: bool)
        requires
            self.wf(),
            other.wf(),
            self_random_from_other_random.wf(),
            self@.sign_from_random.input_dimension == self_random_from_other_random@.output_dimension(),
        ensures
            r == (compose_spec(self@.sign_from_random, self_random_from_other_random@) != other@.sign_from_random),
    {
        let pulled_back = self.sign_from_random.dot(self_random_from_other_random);
        !pulled_back.equals(&other.sign_from_random)
    }

    /// The generators with signs as affine functions of the outcomes: generator `j` is negated
    /// when the translation of the composed sign map is set at `j`, and its outcome mask is row
    /// `j` of the composed matrix.
    pub fn with_transformed_signs(&self, random_from_outcomes: &AffineMap) -> (r: Vec<SignedPauli>)
        requires
            self.wf(),
            random_from_outcomes.wf(),
            self@.sign_from_random.input_dimension == random_from_outcomes@.output_dimension(),
        ensures
            r@.len() == self@.generators.len(),
            forall|j: int|
                0 <= j < r@.len() ==> {
                    let composed = compose_spec(self@.sign_from_random, random_from_outcomes@);
                    &&& (#[trigger] r@[j]).pauli@ == if composed.shift[j] {
                        crate::pauli::pauli_scale(self@.generators[j], 2)
                    } else {
                        self@.generators[j]
                    }
                    &&& r@[j].outcomes_sign_mask@ == composed.matrix[j]
                },
    {
        let sign_from_outcome = self.sign_from_random.dot(random_from_outcomes);
        let ghost composed = compose_spec(self@.sign_from_random, random_from_outcomes@);
        proof {
            sign_from_outcome.lemma_wf();
        }
        let matrix = sign_from_outcome.matrix();
        let shift = sign_from_outcome.shift();
        let mut result: Vec<SignedPauli> = Vec::new();
        let mut index: usize = 0;
        while index < self.canonical_generators.len()
            invariant
                self.wf(),
                sign_from_outcome@ == composed,
                composed.well_shaped(),
                composed.output_dimension() == self@.generators.len(),
                matrix@ == composed.matrix,
                shift@ == composed.shift,
                matrix.well_formed(),
                index <= self.canonical_generators@.len(),
                result@.len() == index,
                forall|j: int|
                    0 <= j < index ==> {
                        &&& (#[trigger] result@[j]).pauli@ == if composed.shift[j] {
                            crate::pauli::pauli_scale(self@.generators[j], 2)
                        } else {
                            self@.generators[j]
                        }
                        &&& result@[j].outcomes_sign_mask@ == composed.matrix[j]
                    },
            decreases self.canonical_generators@.len() - index,
        {
            let mut observable = self.canonical_generators[index].duplicate();
            if shift[index] {
                observable.add_assign_phase_exp(2);
            }
            let mask = matrix.rows[index].clone();
            proof {
                assert(mask@ =~= composed.matrix[index as int]);
            }
            result.push(SignedPauli { pauli: observable, outcomes_sign_mask: mask });
            index = index + 1;
        }
        result
    }
}


/// `seq![reason]` when `condition` holds, the empty list otherwise.
pub open spec fn reason_if(condition: bool, reason: ActionsInequivalenceReason) -> Seq<ActionsInequivalenceReason> {
    if condition {
        seq![reason]
    } else {
        Seq::empty()
    }
}

/// The action of a Clifford circuit with measurements: canonical observables, output
/// stabilizers, Choi-state stabilizers and auxiliary stabilizers, each with signs depending on
/// the inner random bits, and the affine maps between outcomes and random bits.
pub struct CircuitAction {
    observables: GeneratorsWithSigns,
    stabilizers: GeneratorsWithSigns,
    choi_state_stabilizers: GeneratorsWithSigns,
    auxiliary_stabilizers: GeneratorsWithSigns,
    random_from_outcomes: AffineMap,
    outcomes_from_random: AffineMap,
    input_qubit_ids: Vec<usize>,
}

/// The components of a [`CircuitAction`].
pub struct CircuitActionView {
    pub observables: GeneratorsView,
    pub stabilizers: GeneratorsView,
    pub choi_state_stabilizers: GeneratorsView,
    pub auxiliary_stabilizers: GeneratorsView,
    pub random_from_outcomes: AffineSpec,
    pub outcomes_from_random: AffineSpec,
    pub inputs: Seq<usize>,
}

impl View for CircuitAction {
    type V = CircuitActionView;

    closed spec fn view(&self) -> CircuitActionView {
        CircuitActionView {
            observables: self.observables@,
            stabilizers: self.stabilizers@,
            choi_state_stabilizers: self.choi_state_stabilizers@,
            auxiliary_stabilizers: self.auxiliary_stabilizers@,
            random_from_outcomes: self.random_from_outcomes@,
            outcomes_from_random: self.outcomes_from_random@,
            inputs: self.input_qubit_ids@,
        }
    }
}

impl CircuitActionView {
    /// The number of outcomes.
    pub open spec fn outcome_count(self) -> nat {
        self.random_from_outcomes.input_dimension
    }

    /// The number of inner random bits.
    pub open spec fn random_count(self) -> nat {
        self.random_from_outcomes.output_dimension()
    }
}

/// The reasons, if any, why two actions differ regardless of signs: first the qubit counts,
/// then the generator counts, then the generators, then the Choi state.
pub open spec fn up_to_signs_reasons(a: CircuitActionView, b: CircuitActionView) -> Seq<ActionsInequivalenceReason> {
    let shape = reason_if(a.inputs.len() != b.inputs.len(), ActionsInequivalenceReason::InputQubitCount) + reason_if(
        a.stabilizers.qubits.len() != b.stabilizers.qubits.len(),
        ActionsInequivalenceReason::OutputQubitCount,
    );
    let counts = reason_if(
        a.observables.generators.len() != b.observables.generators.len(),
        ActionsInequivalenceReason::ObservablesCount,
    ) + reason_if(
        a.stabilizers.generators.len() != b.stabilizers.generators.len(),
        ActionsInequivalenceReason::StabilizersCount,
    );
    let contents = reason_if(
        a.observables.generators != b.observables.generators,
        ActionsInequivalenceReason::Observables,
    ) + reason_if(a.stabilizers.generators != b.stabilizers.generators, ActionsInequivalenceReason::Stabilizers);
    if shape.len() > 0 {
        shape
    } else if counts.len() > 0 {
        counts
    } else if contents.len() > 0 {
        contents
    } else {
        reason_if(
            a.choi_state_stabilizers.generators != b.choi_state_stabilizers.generators,
            ActionsInequivalenceReason::ChoiState,
        )
    }
}

/// The sign reasons under the random-bit correspondence `map` (other's random bits to self's).
pub open spec fn sign_reasons_spec(a: CircuitActionView, b: CircuitActionView, map: AffineSpec) -> Seq<
    ActionsInequivalenceReason,
> {
    reason_if(
        compose_spec(a.observables.sign_from_random, map) != b.observables.sign_from_random,
        ActionsInequivalenceReason::ObservablesSigns,
    ) + reason_if(
        compose_spec(a.stabilizers.sign_from_random, map) != b.stabilizers.sign_from_random,
        ActionsInequivalenceReason::StabilizersSigns,
    ) + reason_if(
        compose_spec(a.choi_state_stabilizers.sign_from_random, map) != b.choi_state_stabilizers.sign_from_random,
        ActionsInequivalenceReason::ChoiStateSigns,
    )
}

/// The zero map from the outcomes of `from` to the outcomes of `to`.
pub open spec fn zero_map_spec(to: CircuitActionView, from: CircuitActionView) -> AffineSpec {
    AffineSpec {
        matrix: Seq::new(to.outcome_count(), |i: int| crate::gf2::bit_zeros(from.outcome_count())),
        shift: crate::gf2::bit_zeros(to.outcome_count()),
        input_dimension: from.outcome_count(),
    }
}

/// The correspondence of random bits induced by a correspondence of outcomes.
pub open spec fn random_map_from_outcome_map(a: CircuitActionView, b: CircuitActionView, outcome_map: AffineSpec) -> AffineSpec {
    compose_spec(a.random_from_outcomes, compose_spec(outcome_map, b.outcomes_from_random))
}

impl CircuitAction {
    /// The generator sets and maps are well formed and agree on the numbers of outcomes and
    /// random bits.
    pub closed spec fn wf(&self) -> bool {
        let random = self.random_from_outcomes@.output_dimension();
        let outcomes = self.random_from_outcomes@.input_dimension;
        &&& self.observables.wf()
        &&& self.stabilizers.wf()
        &&& self.choi_state_stabilizers.wf()
        &&& self.auxiliary_stabilizers.wf()
        &&& self.random_from_outcomes.wf()
        &&& self.outcomes_from_random.wf()
        &&& self.outcomes_from_random@.input_dimension == random
        &&& self.outcomes_from_random@.output_dimension() == outcomes
        &&& self.observables@.sign_from_random.input_dimension == random
        &&& self.stabilizers@.sign_from_random.input_dimension == random
        &&& self.choi_state_stabilizers@.sign_from_random.input_dimension == random
        &&& self.auxiliary_stabilizers@.sign_from_random.input_dimension == random
    }

    /// Assembles an action from its canonical generator sets and its outcome maps.
    pub fn new(
        observables: GeneratorsWithSigns,
        stabilizers: GeneratorsWithSigns,
        choi_state_stabilizers: GeneratorsWithSigns,
        auxiliary_stabilizers: GeneratorsWithSigns,
        random_from_outcomes: AffineMap,
        outcomes_from_random: AffineMap,
        input_qubits: &[usize],
    ) -> (r: CircuitAction)
        requires
            observables.wf(),
            stabilizers.wf(),
            choi_state_stabilizers.wf(),
            auxiliary_stabilizers.wf(),
            random_from_outcomes.wf(),
            outcomes_from_random.wf(),
            outcomes_from_random@.input_dimension == random_from_outcomes@.output_dimension(),
            outcomes_from_random@.output_dimension() == random_from_outcomes@.input_dimension,
            observables@.sign_from_random.input_dimension == random_from_outcomes@.output_dimension(),
            stabilizers@.sign_from_random.input_dimension == random_from_outcomes@.output_dimension(),
            choi_state_stabilizers@.sign_from_random.input_dimension == random_from_outcomes@.output_dimension(),
            auxiliary_stabilizers@.sign_from_random.input_dimension == random_from_outcomes@.output_dimension(),
        ensures
            r.wf(),
            r@ == (CircuitActionView {
                observables: observables@,
                stabilizers: stabilizers@,
                choi_state_stabilizers: choi_state_stabilizers@,
                auxiliary_stabilizers: auxiliary_stabilizers@,
                random_from_outcomes: random_from_outcomes@,
                outcomes_from_random: outcomes_from_random@,
                inputs: input_qubits@,
            }),
    {
        let mut inputs: Vec<usize> = Vec::new();
        let mut k: usize = 0;
        while k < input_qubits.len()
            invariant
                k <= input_qubits@.len(),
                inputs@ == input_qubits@.take(k as int),
            decreases input_qubits@.len() - k,
        {
            inputs.push(input_qubits[k]);
            proof {
                assert(inputs@ =~= input_qubits@.take(k + 1));
            }
            k = k + 1;
        }
        proof {
            assert(input_qubits@.take(input_qubits@.len() as int) =~= input_qubits@);
        }
        CircuitAction {
            observables,
            stabilizers,
            choi_state_stabilizers,
            auxiliary_stabilizers,
            random_from_outcomes,
            outcomes_from_random,
            input_qubit_ids: inputs,
        }
    }

    /// The canonical observables measured by the circuit, without signs.
    pub fn observables(&self) -> (r: &Vec<DensePauli>)
        ensures
            paulis_view(r@) == self@.observables.generators,
    {
        self.observables.abs()
    }

    /// The canonical stabilizers of the output state, without signs.
    pub fn stabilizers(&self) -> (r: &Vec<DensePauli>)
        ensures
            paulis_view(r@) == self@.stabilizers.generators,
    {
        self.stabilizers.abs()
    }

    /// The canonical stabilizers of the Choi state, without signs.
    pub fn choi_state_stabilizers(&self) -> (r: &Vec<DensePauli>)
        ensures
            paulis_view(r@) == self@.choi_state_stabilizers.generators,
    {
        self.choi_state_stabilizers.abs()
    }

    /// The canonical stabilizers of the auxiliary qubits, without signs.
    pub fn auxiliary_stabilizers(&self) -> (r: &Vec<DensePauli>)
        ensures
            paulis_view(r@) == self@.auxiliary_stabilizers.generators,
    {
        self.auxiliary_stabilizers.abs()
    }

    /// The input qubits.
    pub fn input_qubits(&self) -> (r: &Vec<usize>)
        ensures
            r@ == self@.inputs,
    {
        &self.input_qubit_ids
    }

    /// The output qubits.
    pub fn output_qubits(&self) -> (r: &Vec<usize>)
        ensures
            r@ == self@.stabilizers.qubits,
    {
        self.stabilizers.qubits()
    }

    /// The auxiliary qubits.
    pub fn auxiliary_qubits(&self) -> (r: &Vec<usize>)
        ensures
            r@ == self@.auxiliary_stabilizers.qubits,
    {
        self.auxiliary_stabilizers.qubits()
    }

    /// The number of outcomes.
    pub fn outcome_count(&self) -> (r: usize)
        ensures
            r == self@.outcome_count(),
    {
        self.random_from_outcomes.input_dimension()
    }

    /// The observables with signs as functions of the outcomes.
    pub fn signed_observables(&self) -> (r: Vec<SignedPauli>)
        requires
            self.wf(),
        ensures
            r@.len() == self@.observables.generators.len(),
    {
        self.observables.with_transformed_signs(&self.random_from_outcomes)
    }

    /// The output stabilizers with signs as functions of the outcomes.
    pub fn signed_stabilizers(&self) -> (r: Vec<SignedPauli>)
        requires
            self.wf(),
        ensures
            r@.len() == self@.stabilizers.generators.len(),
    {
        self.stabilizers.with_transformed_signs(&self.random_from_outcomes)
    }

    /// The Choi-state stabilizers with signs as functions of the outcomes.
    pub fn signed_choi_state_stabilizers(&self) -> (r: Vec<SignedPauli>)
        requires
            self.wf(),
        ensures
            r@.len() == self@.choi_state_stabilizers.generators.len(),
    {
        self.choi_state_stabilizers.with_transformed_signs(&self.random_from_outcomes)
    }

    /// The auxiliary stabilizers with signs as functions of the outcomes.
    pub fn signed_auxiliary_stabilizers(&self) -> (r: Vec<SignedPauli>)
        requires
            self.wf(),
        ensures
            r@.len() == self@.auxiliary_stabilizers.generators.len(),
    {
        self.auxiliary_stabilizers.with_transformed_signs(&self.random_from_outcomes)
    }

    /// `Ok(())` if the two actions agree up to signs, otherwise the reasons they differ.
    pub fn is_equivalent_up_to_signs(&self, other: &CircuitAction) -> (r: Result<(), Vec<ActionsInequivalenceReason>>)
        ensures
            r is Ok <==> up_to_signs_reasons(self@, other@).len() == 0,
            r matches Err(reasons) ==> reasons@ == up_to_signs_reasons(self@, other@),
    {
        let mut reasons: Vec<ActionsInequivalenceReason> = Vec::new();
        if self.input_qubit_ids.len() != other.input_qubit_ids.len() {
            reasons.push(ActionsInequivalenceReason::InputQubitCount);
        }
        if self.output_qubits().len() != other.output_qubits().len() {
            reasons.push(ActionsInequivalenceReason::OutputQubitCount);
        }
        if reasons.len() > 0 {
            proof {
                assert(reasons@ =~= up_to_signs_reasons(self@, other@));
            }
            return Err(reasons);
        }
        if self.observables().len() != other.observables().len() {
            reasons.push(ActionsInequivalenceReason::ObservablesCount);
        }
        if self.stabilizers().len() != other.stabilizers().len() {
            reasons.push(ActionsInequivalenceReason::StabilizersCount);
        }
        if reasons.len() > 0 {
            proof {
                assert(reasons@ =~= up_to_signs_reasons(self@, other@));
            }
            return Err(reasons);
        }
        if !paulis_equal(self.observables(), other.observables()) {
            reasons.push(ActionsInequivalenceReason::Observables);
        }
        if !paulis_equal(self.stabilizers(), other.stabilizers()) {
            reasons.push(ActionsInequivalenceReason::Stabilizers);
        }
        if reasons.len() > 0 {
            proof {
                assert(reasons@ =~= up_to_signs_reasons(self@, other@));
            }
            return Err(reasons);
        }
        if !paulis_equal(self.choi_state_stabilizers(), other.choi_state_stabilizers()) {
            reasons.push(ActionsInequivalenceReason::ChoiState);
        }
        proof {
            assert(reasons@ =~= up_to_signs_reasons(self@, other@));
        }
        if reasons.len() == 0 {
            Ok(())
        } else {
            Err(reasons)
        }
    }

    /// The sign reasons under the random-bit correspondence `self_random_from_other_random`.
    pub fn sign_reasons_with_random_map(&self, other: &CircuitAction, self_random_from_other_random: &AffineMap) -> (r: Vec<
        ActionsInequivalenceReason,
    >)
        requires
            self.wf(),
            other.wf(),
            self_random_from_other_random.wf(),
            self_random_from_other_random@.output_dimension() == self@.random_count(),
        ensures
            r@ == sign_reasons_spec(self@, other@, self_random_from_other_random@),
    {
        let mut reasons: Vec<ActionsInequivalenceReason> = Vec::new();
        if self.observables.is_equivalent_with_map(&other.observables, self_random_from_other_random) {
            reasons.push(ActionsInequivalenceReason::ObservablesSigns);
        }
        if self.stabilizers.is_equivalent_with_map(&other.stabilizers, self_random_from_other_random) {
            reasons.push(ActionsInequivalenceReason::StabilizersSigns);
        }
        if self.choi_state_stabilizers.is_equivalent_with_map(
            &other.choi_state_stabilizers,
            self_random_from_other_random,
        ) {
            reasons.push(ActionsInequivalenceReason::ChoiStateSigns);
        }
        proof {
            assert(reasons@ =~= sign_reasons_spec(self@, other@, self_random_from_other_random@));
        }
        reasons
    }

    /// `Ok(())` if the actions agree, signs included, when the outcomes of `self` are the image
    /// of the outcomes of `other` under `self_outcomes_from_other_outcomes` (the zero map when
    /// absent); otherwise the reasons they differ.
    pub fn is_equivalent_with_map(
        &self,
        other: &CircuitAction,
        self_outcomes_from_other_outcomes: Option<&AffineMap>,
    ) -> (r: Result<(), Vec<ActionsInequivalenceReason>>)
        requires
            self.wf(),
            other.wf(),
            self_outcomes_from_other_outcomes matches Some(map) ==> map.wf() && map@.input_dimension == other@.outcome_count()
                && map@.output_dimension() == self@.outcome_count(),
        ensures
            up_to_signs_reasons(self@, other@).len() > 0 ==> (r matches Err(v) && v@ == up_to_signs_reasons(
                self@,
                other@,
            )),
            up_to_signs_reasons(self@, other@).len() == 0 ==> ({
                let outcome_map = match self_outcomes_from_other_outcomes {
                    Some(map) => map@,
                    None => zero_map_spec(self@, other@),
                };
                let reasons = sign_reasons_spec(self@, other@, random_map_from_outcome_map(self@, other@, outcome_map));
                &&& (r is Ok <==> reasons.len() == 0)
                &&& r matches Err(v) ==> v@ == reasons
            }),
    {
        match self.is_equivalent_up_to_signs(other) {
            Err(reasons) => {
                return Err(reasons);
            },
            Ok(()) => {},
        }
        let zero = AffineMap::zero(other.outcome_count(), self.outcome_count());
        proof {
            assert(zero@.matrix =~= zero_map_spec(self@, other@).matrix);
        }
        let outcome_map = match self_outcomes_from_other_outcomes {
            Some(map) => map,
            None => &zero,
        };
        let self_outcomes_from_other_random = outcome_map.dot(&other.outcomes_from_random);
        let self_random_from_other_random = self.random_from_outcomes.dot(&self_outcomes_from_other_random);
        let reasons = self.sign_reasons_with_random_map(other, &self_random_from_other_random);
        if reasons.len() == 0 {
            Ok(())
        } else {
            Err(reasons)
        }
    }
}


/// `a` followed by the entries of `b` not already present, in order.
pub open spec fn append_new(a: Seq<ActionsInequivalenceReason>, b: Seq<ActionsInequivalenceReason>) -> Seq<
    ActionsInequivalenceReason,
>
    decreases b.len(),
{
    if b.len() == 0 {
        a
    } else {
        let r = append_new(a, b.drop_last());
        if r.contains(b.last()) {
            r
        } else {
            r.push(b.last())
        }
    }
}

/// `true` iff `reasons` contains `reason`.
fn contains_reason(reasons: &Vec<ActionsInequivalenceReason>, reason: ActionsInequivalenceReason) -> (r: bool)
    ensures
        r == reasons@.contains(reason),
{
    let mut k: usize = 0;
    while k < reasons.len()
        invariant
            k <= reasons@.len(),
            forall|j: int| 0 <= j < k ==> reasons@[j] != reason,
        decreases reasons@.len() - k,
    {
        if reasons[k] == reason {
            return true;
        }
        k = k + 1;
    }
    false
}

/// The exact-phase analog of [`CircuitAction`]: the phaseless action together with the branch
/// phase function of the Choi state, the outcome map restricted to physical outcomes (and the
/// directions of random bits it does not see), the symbolic-angle indicator of the random bits
/// and the absolute global phase.
pub struct PhasedCircuitAction {
    action: CircuitAction,
    phase: PhaseData,
    physical_outcomes_from_random: BitMatrix,
    physical_kernel: BitMatrix,
    symbolic_angles: Vec<bool>,
    global_phase: u8,
}

/// The components of a [`PhasedCircuitAction`].
pub struct PhasedCircuitActionView {
    pub action: CircuitActionView,
    pub phase: PhaseDataView,
    pub physical_outcomes_from_random: Seq<Seq<bool>>,
    pub physical_kernel: Seq<Seq<bool>>,
    pub symbolic_angles: Seq<bool>,
    pub global_phase: u8,
}

impl View for PhasedCircuitAction {
    type V = PhasedCircuitActionView;

    closed spec fn view(&self) -> PhasedCircuitActionView {
        PhasedCircuitActionView {
            action: self.action@,
            phase: self.phase@,
            physical_outcomes_from_random: self.physical_outcomes_from_random@,
            physical_kernel: self.physical_kernel@,
            symbolic_angles: self.symbolic_angles@,
            global_phase: self.global_phase,
        }
    }
}

/// The provenance correspondence as an affine map.
pub open spec fn provenance_map_spec(self_angles: Seq<bool>, other_angles: Seq<bool>) -> AffineSpec {
    AffineSpec {
        matrix: provenance_matrix_spec(self_angles, other_angles),
        shift: crate::gf2::bit_zeros(self_angles.len()),
        input_dimension: other_angles.len(),
    }
}

/// The relative branch phases of `a` and `b` agree under `map` on the physical fibres of `b`.
pub open spec fn relative_matches_spec(a: PhasedCircuitActionView, b: PhasedCircuitActionView, map: AffineSpec) -> bool {
    relative_phase_spec(a.phase, b.phase, map, b.physical_kernel)
}

/// The reasons two phased actions differ under the random-bit correspondence `map` (and, when
/// given, the reverse correspondence `reverse`).
pub open spec fn check_reasons(
    a: PhasedCircuitActionView,
    b: PhasedCircuitActionView,
    map: AffineSpec,
    reverse: Option<AffineSpec>,
) -> Seq<ActionsInequivalenceReason> {
    let up = up_to_signs_reasons(a.action, b.action);
    if up.len() > 0 {
        up
    } else {
        let forward = sign_reasons_spec(a.action, b.action, map);
        let both = match reverse {
            Some(rev) => append_new(forward, sign_reasons_spec(b.action, a.action, rev)),
            None => forward,
        };
        let relative = relative_matches_spec(a, b, map) && match reverse {
            Some(rev) => relative_matches_spec(b, a, rev),
            None => true,
        };
        if relative {
            both
        } else {
            both.push(ActionsInequivalenceReason::RelativePhase)
        }
    }
}

/// The reasons two phased actions differ under the correspondence of random bits by provenance.
pub open spec fn equivalence_reasons(a: PhasedCircuitActionView, b: PhasedCircuitActionView) -> Seq<
    ActionsInequivalenceReason,
> {
    if count_equal(a.symbolic_angles, true, a.symbolic_angles.len() as int) != count_equal(
        b.symbolic_angles,
        true,
        b.symbolic_angles.len() as int,
    ) {
        seq![ActionsInequivalenceReason::SymbolicAngleCount]
    } else {
        check_reasons(
            a,
            b,
            provenance_map_spec(a.symbolic_angles, b.symbolic_angles),
            Some(provenance_map_spec(b.symbolic_angles, a.symbolic_angles)),
        )
    }
}

impl PhasedCircuitAction {
    /// The parts agree on the number of random bits.
    pub closed spec fn wf(&self) -> bool {
        let n = self.action@.random_count();
        &&& self.action.wf()
        &&& self.phase.wf()
        &&& self.phase@.linear_i.len() == n
        &&& self.symbolic_angles@.len() == n
        &&& self.physical_outcomes_from_random.well_formed()
        &&& self.physical_outcomes_from_random.column_count == n
        &&& self.physical_kernel.well_formed()
        &&& self.physical_kernel.column_count == n
        &&& forall|k: int|
            0 <= k < self.physical_kernel@.len() ==> crate::gf2::bit_is_zero(
                #[trigger] mat_vec_spec(self.physical_outcomes_from_random@, self.physical_kernel@[k]),
            )
        &&& crate::kernel::spans_kernel(self.physical_kernel@, self.physical_outcomes_from_random@, n)
        &&& n * n <= usize::MAX
        &&& self.global_phase < 8
    }

    /// The phased action of the Choi state recorded by `simulation`, given its phaseless `action`
    /// and the separation phase `encoder_phase` of its encoder.
    pub fn new(action: CircuitAction, simulation: &PhasedOutcomeCompleteSimulation, encoder_phase: SeparationPhase) -> (r: Self)
        requires
            action.wf(),
            simulation.wf(),
            encoder_phase.well_formed(),
            encoder_phase@.linear.len() == simulation@.qubit_count,
            action@.random_count() == simulation@.random_bit_count,
            simulation@.random_bit_count * simulation@.random_bit_count <= usize::MAX,
        ensures
            r.wf(),
            r@.action == action@,
            r@.symbolic_angles == simulation@.symbolic_angle_indicator,
            r@.physical_outcomes_from_random == physical_outcome_matrix_spec(simulation@),
            r@.global_phase as int == phase_data_value(
                r@.phase,
                crate::gf2::bit_zeros(simulation@.random_bit_count),
            ),
            forall|k: int|
                0 <= k < r@.physical_kernel.len() ==> crate::gf2::bit_is_zero(
                    #[trigger] mat_vec_spec(r@.physical_outcomes_from_random, r@.physical_kernel[k]),
                ),
    {
        proof {
            simulation.lemma_consistent();
        }
        let symbolic_angles = simulation.symbolic_angle_indicator().clone();
        proof {
            assert(symbolic_angles@ =~= simulation@.symbolic_angle_indicator);
        }
        let phase = PhaseData::from_simulation(simulation, encoder_phase);
        let zero = zeros(simulation.random_outcome_count());
        let global_phase = phase.phase_exponent(&zero);
        let physical = physical_outcome_matrix(simulation);
        let kernel = kernel_basis(&physical);
        PhasedCircuitAction {
            action,
            phase,
            physical_outcomes_from_random: physical,
            physical_kernel: kernel,
            symbolic_angles,
            global_phase,
        }
    }

    /// The underlying phaseless action.
    pub fn action(&self) -> (r: &CircuitAction)
        ensures
            r@ == self@.action,
    {
        &self.action
    }

    /// The absolute global `ζ₈` phase.
    pub fn global_phase(&self) -> (r: u8)
        ensures
            r == self@.global_phase,
    {
        self.global_phase
    }

    /// The canonical Choi-state stabilizers.
    pub fn choi_state_stabilizers(&self) -> (r: &Vec<DensePauli>)
        ensures
            paulis_view(r@) == self@.action.choi_state_stabilizers.generators,
    {
        self.action.choi_state_stabilizers()
    }

    /// `Ok(())` if the phaseless actions agree up to signs, otherwise the reasons.
    pub fn is_equivalent_up_to_signs(&self, other: &PhasedCircuitAction) -> (r: Result<(), Vec<ActionsInequivalenceReason>>)
        ensures
            r is Ok <==> up_to_signs_reasons(self@.action, other@.action).len() == 0,
            r matches Err(reasons) ==> reasons@ == up_to_signs_reasons(self@.action, other@.action),
    {
        self.action.is_equivalent_up_to_signs(&other.action)
    }

    /// `true` iff the branch phases of `self` at `map(r)` and of `other` at `r` differ by a
    /// phase that is constant on every physical-outcome fibre of `other`.
    pub fn relative_phase_matches(&self, other: &PhasedCircuitAction, self_random_from_other_random: &AffineMap) -> (r: bool)
        requires
            self.wf(),
            other.wf(),
            self_random_from_other_random.wf(),
            self_random_from_other_random@.input_dimension == other@.action.random_count(),
            self_random_from_other_random@.output_dimension() == self@.action.random_count(),
        ensures
            r == relative_matches_spec(self@, other@, self_random_from_other_random@),
    {
        relative_phase_matches(&self.phase, &other.phase, self_random_from_other_random, &other.physical_kernel)
    }

    /// The count, sign and relative-phase comparison under the random-bit correspondence
    /// `self_random_from_other_random`, and under `reverse_random_map` in the other direction
    /// when given.
    pub fn check_with_random_map(
        &self,
        other: &PhasedCircuitAction,
        self_random_from_other_random: &AffineMap,
        reverse_random_map: Option<&AffineMap>,
    ) -> (r: Result<(), Vec<ActionsInequivalenceReason>>)
        requires
            self.wf(),
            other.wf(),
            self_random_from_other_random.wf(),
            self_random_from_other_random@.input_dimension == other@.action.random_count(),
            self_random_from_other_random@.output_dimension() == self@.action.random_count(),
            reverse_random_map matches Some(reverse) ==> reverse.wf() && reverse@.input_dimension
                == self@.action.random_count() && reverse@.output_dimension() == other@.action.random_count(),
        ensures
            ({
                let reverse = match reverse_random_map {
                    Some(map) => Some(map@),
                    None => None,
                };
                let reasons = check_reasons(self@, other@, self_random_from_other_random@, reverse);
                &&& (r is Ok <==> reasons.len() == 0)
                &&& r matches Err(v) ==> v@ == reasons
            }),
    {
        match self.action.is_equivalent_up_to_signs(&other.action) {
            Err(reasons) => {
                return Err(reasons);
            },
            Ok(()) => {},
        }
        let mut reasons = self.action.sign_reasons_with_random_map(&other.action, self_random_from_other_random);
        let ghost forward = reasons@;
        if let Some(other_random_from_self_random) = reverse_random_map {
            let backward = other.action.sign_reasons_with_random_map(&self.action, other_random_from_self_random);
            let mut k: usize = 0;
            while k < backward.len()
                invariant
                    k <= backward@.len(),
                    reasons@ == append_new(forward, backward@.take(k as int)),
                decreases backward@.len() - k,
            {
                proof {
                    assert(backward@.take(k + 1).drop_last() =~= backward@.take(k as int));
                }
                let reason = backward[k];
                if !contains_reason(&reasons, reason) {
                    reasons.push(reason);
                }
                k = k + 1;
            }
            proof {
                assert(backward@.take(backward@.len() as int) =~= backward@);
            }
        }
        let forward_matches = self.relative_phase_matches(other, self_random_from_other_random);
        let relative_phase_matches = forward_matches && match reverse_random_map {
            Some(other_random_from_self_random) => other.relative_phase_matches(self, other_random_from_self_random),
            None => true,
        };
        if !relative_phase_matches {
            reasons.push(ActionsInequivalenceReason::RelativePhase);
        }
        if reasons.len() == 0 {
            Ok(())
        } else {
            Err(reasons)
        }
    }

    /// `Ok(())` if the two phased actions implement the same operator up to a global phase, with
    /// symbolic angles corresponding one to one in allocation order and true random bits by
    /// rank; otherwise the reasons they differ.
    pub fn is_equivalent(&self, other: &PhasedCircuitAction) -> (r: Result<(), Vec<ActionsInequivalenceReason>>)
        requires
            self.wf(),
            other.wf(),
        ensures
            r is Ok <==> equivalence_reasons(self@, other@).len() == 0,
            r matches Err(v) ==> v@ == equivalence_reasons(self@, other@),
    {
        let self_random_from_other_random = match provenance_random_map(&self.symbolic_angles, &other.symbolic_angles) {
            Ok(map) => map,
            Err(reason) => {
                let reasons = vec![reason];
                proof {
                    assert(reasons@ =~= seq![ActionsInequivalenceReason::SymbolicAngleCount]);
                }
                return Err(reasons);
            },
        };
        let other_random_from_self_random = match provenance_random_map(&other.symbolic_angles, &self.symbolic_angles) {
            Ok(map) => map,
            Err(reason) => {
                let reasons = vec![reason];
                proof {
                    assert(reasons@ =~= seq![ActionsInequivalenceReason::SymbolicAngleCount]);
                }
                return Err(reasons);
            },
        };
        proof {
            assert(self_random_from_other_random@ == provenance_map_spec(self@.symbolic_angles, other@.symbolic_angles));
            assert(other_random_from_self_random@ == provenance_map_spec(other@.symbolic_angles, self@.symbolic_angles));
        }
        self.check_with_random_map(other, &self_random_from_other_random, Some(&other_random_from_self_random))
    }

    /// Like [`Self::is_equivalent`], and additionally the absolute global phases agree.
    pub fn is_equivalent_with_global_phase(&self, other: &PhasedCircuitAction) -> (r: Result<
        (),
        Vec<ActionsInequivalenceReason>,
    >)
        requires
            self.wf(),
            other.wf(),
        ensures
            equivalence_reasons(self@, other@).len() > 0 ==> (r matches Err(v) && v@ == equivalence_reasons(
                self@,
                other@,
            )),
            equivalence_reasons(self@, other@).len() == 0 ==> (r is Ok <==> self@.global_phase == other@.global_phase),
            equivalence_reasons(self@, other@).len() == 0 ==> (r matches Err(v) ==> v@ == seq![
                ActionsInequivalenceReason::GlobalPhase,
            ]),
    {
        match self.is_equivalent(other) {
            Err(reasons) => {
                return Err(reasons);
            },
            Ok(()) => {},
        }
        if self.global_phase != other.global_phase {
            let reasons = vec![ActionsInequivalenceReason::GlobalPhase];
            proof {
                assert(reasons@ =~= seq![ActionsInequivalenceReason::GlobalPhase]);
            }
            return Err(reasons);
        }
        Ok(())
    }

    /// `Ok(())` if the phased actions agree (up to a global phase) when the outcomes of `self`
    /// are the image of those of `other` under `self_outcomes_from_other_outcomes` (the zero map
    /// when absent), the map keeping symbolic angles apart; otherwise the reasons they differ.
    pub fn is_equivalent_with_map(
        &self,
        other: &PhasedCircuitAction,
        self_outcomes_from_other_outcomes: Option<&AffineMap>,
    ) -> (r: Result<(), Vec<ActionsInequivalenceReason>>)
        requires
            self.wf(),
            other.wf(),
            self_outcomes_from_other_outcomes matches Some(map) ==> map.wf() && map@.input_dimension
                == other@.action.outcome_count() && map@.output_dimension() == self@.action.outcome_count(),
        ensures
            ({
                let outcome_map = match self_outcomes_from_other_outcomes {
                    Some(map) => map@,
                    None => zero_map_spec(self@.action, other@.action),
                };
                let random_map = random_map_from_outcome_map(self@.action, other@.action, outcome_map);
                &&& !angle_correspondence_spec(self@.symbolic_angles, other@.symbolic_angles, random_map) ==> (r matches Err(
                    v,
                ) && v@ == seq![ActionsInequivalenceReason::SymbolicAngleMixed])
                &&& angle_correspondence_spec(self@.symbolic_angles, other@.symbolic_angles, random_map) ==> {
                    let reasons = check_reasons(self@, other@, random_map, None);
                    &&& (r is Ok <==> reasons.len() == 0)
                    &&& r matches Err(v) ==> v@ == reasons
                }
            }),
    {
        let zero = AffineMap::zero(other.action.outcome_count(), self.action.outcome_count());
        proof {
            assert(zero@.matrix =~= zero_map_spec(self@.action, other@.action).matrix);
        }
        let outcome_map = match self_outcomes_from_other_outcomes {
            Some(map) => map,
            None => &zero,
        };
        let self_outcomes_from_other_random = outcome_map.dot(&other.action.outcomes_from_random);
        let self_random_from_other_random = self.action.random_from_outcomes.dot(&self_outcomes_from_other_random);
        if !angle_correspondence_is_clean(&self.symbolic_angles, &other.symbolic_angles, &self_random_from_other_random) {
            let reasons = vec![ActionsInequivalenceReason::SymbolicAngleMixed];
            proof {
                assert(reasons@ =~= seq![ActionsInequivalenceReason::SymbolicAngleMixed]);
            }
            return Err(reasons);
        }
        self.check_with_random_map(other, &self_random_from_other_random, None)
    }
}


/// `Σ_{j<m} (x_j + y_j) v_j = Σ_{j<m} x_j v_j + Σ_{j<m} y_j v_j`.
proof fn lemma_dot_prefix_xor_left(x: Seq<bool>, y: Seq<bool>, v: Seq<bool>, m: int)
    requires
        0 <= m <= x.len(),
        x.len() == y.len(),
    ensures
        crate::gf2::dot_prefix(bit_xor(x, y), v, m) == (crate::gf2::dot_prefix(x, v, m) != crate::gf2::dot_prefix(
            y,
            v,
            m,
        )),
    decreases m,
{
    if m > 0 {
        lemma_dot_prefix_xor_left(x, y, v, m - 1);
    }
}

/// `Σ_{j<m} (c b_j) v_j = c Σ_{j<m} b_j v_j`.
proof fn lemma_dot_prefix_scale(c: bool, b: Seq<bool>, v: Seq<bool>, m: int)
    requires
        0 <= m <= b.len(),
    ensures
        crate::gf2::dot_prefix(Seq::new(b.len(), |j: int| c && b[j]), v, m) == (c && crate::gf2::dot_prefix(b, v, m)),
    decreases m,
{
    if m > 0 {
        lemma_dot_prefix_scale(c, b, v, m - 1);
    }
}

/// The entries `Σ_{k<K} a_k b_{kj}` of the partial row-times-matrix product.
spec fn partial_row_product(a: Seq<bool>, b: Seq<Seq<bool>>, columns: nat, count: int) -> Seq<bool> {
    Seq::new(columns, |j: int| crate::gf2::dot_prefix(a, column_of(b, j), count))
}

/// `(a B) · v = a · (B v)` over the first `count` rows of `B`.
proof fn lemma_row_product_dot(a: Seq<bool>, b: Seq<Seq<bool>>, columns: nat, v: Seq<bool>, count: int)
    requires
        0 <= count <= a.len(),
        a.len() == b.len(),
        v.len() == columns,
        forall|k: int| 0 <= k < b.len() ==> (#[trigger] b[k]).len() == columns,
    ensures
        bit_dot(partial_row_product(a, b, columns, count), v) == crate::gf2::dot_prefix(a, mat_vec_spec(b, v), count),
    decreases count,
{
    if count == 0 {
        crate::pauli::lemma_dot_zeros_left(partial_row_product(a, b, columns, count), v);
    } else {
        lemma_row_product_dot(a, b, columns, v, count - 1);
        let previous = partial_row_product(a, b, columns, count - 1);
        let scaled = Seq::new(b[count - 1].len(), |j: int| a[count - 1] && b[count - 1][j]);
        assert(partial_row_product(a, b, columns, count) =~= bit_xor(previous, scaled));
        lemma_dot_prefix_xor_left(previous, scaled, v, columns as int);
        lemma_dot_prefix_scale(a[count - 1], b[count - 1], v, columns as int);
    }
}

/// Composition of affine maps applies them in turn: `(a ∘ b)(v) = a(b(v))`.
pub proof fn lemma_compose_apply(a: AffineSpec, b: AffineSpec, v: Seq<bool>)
    requires
        a.well_shaped(),
        b.well_shaped(),
        a.input_dimension == b.output_dimension(),
        v.len() == b.input_dimension,
    ensures
        compose_spec(a, b).apply(v) == a.apply(b.apply(v)),
{
    let composed = compose_spec(a, b);
    let inner = b.apply(v);
    assert forall|i: int| 0 <= i < a.matrix.len() implies #[trigger] composed.apply(v)[i] == a.apply(inner)[i] by {
        let row = a.matrix[i];
        assert(composed.matrix[i] =~= partial_row_product(row, b.matrix, b.input_dimension, row.len() as int));
        lemma_row_product_dot(row, b.matrix, b.input_dimension, v, row.len() as int);
        crate::decomposition::lemma_dot_xor_right(row, mat_vec_spec(b.matrix, v), b.shift);
    }
    assert(composed.apply(v) =~= a.apply(inner));
}

/// `append_new(a, b)` is empty exactly when both lists are.
proof fn lemma_append_new_empty(a: Seq<ActionsInequivalenceReason>, b: Seq<ActionsInequivalenceReason>)
    ensures
        append_new(a, b).len() == 0 <==> (a.len() == 0 && b.len() == 0),
        append_new(a, b).len() >= a.len(),
    decreases b.len(),
{
    if b.len() > 0 {
        lemma_append_new_empty(a, b.drop_last());
        let r = append_new(a, b.drop_last());
        if r.contains(b.last()) {
            assert(r.len() > 0);
        }
    }
}

/// Comparing two actions regardless of signs finds no difference exactly when they have equally
/// many input and output qubits and the same canonical observables, output stabilizers and
/// Choi-state stabilizers.
pub proof fn lemma_up_to_signs_reasons_exact(a: CircuitActionView, b: CircuitActionView)
    ensures
        up_to_signs_reasons(a, b).len() == 0 <==> {
            &&& a.inputs.len() == b.inputs.len()
            &&& a.stabilizers.qubits.len() == b.stabilizers.qubits.len()
            &&& a.observables.generators == b.observables.generators
            &&& a.stabilizers.generators == b.stabilizers.generators
            &&& a.choi_state_stabilizers.generators == b.choi_state_stabilizers.generators
        },
{
}

/// Under a correspondence `map` of random bits (those of `b` to those of `a`), comparing signs
/// finds no difference exactly when the sign maps of the observables, of the output stabilizers
/// and of the Choi-state stabilizers of `a`, pulled back along `map`, are those of `b`.
pub proof fn lemma_sign_reasons_exact(a: CircuitActionView, b: CircuitActionView, map: AffineSpec)
    ensures
        sign_reasons_spec(a, b, map).len() == 0 <==> {
            &&& compose_spec(a.observables.sign_from_random, map) == b.observables.sign_from_random
            &&& compose_spec(a.stabilizers.sign_from_random, map) == b.stabilizers.sign_from_random
            &&& compose_spec(a.choi_state_stabilizers.sign_from_random, map) == b.choi_state_stabilizers.sign_from_random
        },
{
}

/// Two phased actions found equivalent have equally many symbolic angles, agree regardless of
/// signs, have the same signed observables, output stabilizers and Choi state under the
/// correspondence of random bits by provenance (in both directions), and have matching relative
/// branch phases.
pub proof fn lemma_equivalent_phased_actions_agree(a: PhasedCircuitActionView, b: PhasedCircuitActionView)
    requires
        equivalence_reasons(a, b).len() == 0,
    ensures
        count_equal(a.symbolic_angles, true, a.symbolic_angles.len() as int) == count_equal(
            b.symbolic_angles,
            true,
            b.symbolic_angles.len() as int,
        ),
        a.action.inputs.len() == b.action.inputs.len(),
        a.action.stabilizers.qubits.len() == b.action.stabilizers.qubits.len(),
        a.action.observables.generators == b.action.observables.generators,
        a.action.stabilizers.generators == b.action.stabilizers.generators,
        a.action.choi_state_stabilizers.generators == b.action.choi_state_stabilizers.generators,
        ({
            let map = provenance_map_spec(a.symbolic_angles, b.symbolic_angles);
            &&& compose_spec(a.action.observables.sign_from_random, map) == b.action.observables.sign_from_random
            &&& compose_spec(a.action.stabilizers.sign_from_random, map) == b.action.stabilizers.sign_from_random
            &&& compose_spec(a.action.choi_state_stabilizers.sign_from_random, map)
                == b.action.choi_state_stabilizers.sign_from_random
            &&& relative_matches_spec(a, b, map)
        }),
        ({
            let map = provenance_map_spec(b.symbolic_angles, a.symbolic_angles);
            &&& compose_spec(b.action.observables.sign_from_random, map) == a.action.observables.sign_from_random
            &&& compose_spec(b.action.stabilizers.sign_from_random, map) == a.action.stabilizers.sign_from_random
            &&& compose_spec(b.action.choi_state_stabilizers.sign_from_random, map)
                == a.action.choi_state_stabilizers.sign_from_random
            &&& relative_matches_spec(b, a, map)
        }),
{
    let ab = provenance_map_spec(a.symbolic_angles, b.symbolic_angles);
    let ba = provenance_map_spec(b.symbolic_angles, a.symbolic_angles);
    lemma_up_to_signs_reasons_exact(a.action, b.action);
    let f = sign_reasons_spec(a.action, b.action, ab);
    let g = sign_reasons_spec(b.action, a.action, ba);
    lemma_append_new_empty(f, g);
    lemma_sign_reasons_exact(a.action, b.action, ab);
    lemma_sign_reasons_exact(b.action, a.action, ba);
    if !(relative_matches_spec(a, b, ab) && relative_matches_spec(b, a, ba)) {
        assert(append_new(f, g).push(ActionsInequivalenceReason::RelativePhase).len() > 0);
    }
}

/// Equivalence of phased actions is symmetric: `a` is equivalent to `b` exactly when `b` is
/// equivalent to `a`, so `a.is_equivalent(&b)` succeeds exactly when `b.is_equivalent(&a)` does.
pub proof fn lemma_equivalence_symmetric(a: PhasedCircuitActionView, b: PhasedCircuitActionView)
    ensures
        equivalence_reasons(a, b).len() == 0 <==> equivalence_reasons(b, a).len() == 0,
{
    let count_a = count_equal(a.symbolic_angles, true, a.symbolic_angles.len() as int);
    let count_b = count_equal(b.symbolic_angles, true, b.symbolic_angles.len() as int);
    if count_a == count_b {
        let ab = provenance_map_spec(a.symbolic_angles, b.symbolic_angles);
        let ba = provenance_map_spec(b.symbolic_angles, a.symbolic_angles);
        assert(up_to_signs_reasons(a.action, b.action) =~= up_to_signs_reasons(b.action, a.action));
        lemma_append_new_empty(sign_reasons_spec(a.action, b.action, ab), sign_reasons_spec(b.action, a.action, ba));
        lemma_append_new_empty(sign_reasons_spec(b.action, a.action, ba), sign_reasons_spec(a.action, b.action, ab));
    }
}

/// `append_new(a, b)` holds exactly the reasons of `a` and of `b`.
proof fn lemma_append_new_contains(a: Seq<ActionsInequivalenceReason>, b: Seq<ActionsInequivalenceReason>, r: ActionsInequivalenceReason)
    ensures
        append_new(a, b).contains(r) <==> a.contains(r) || b.contains(r),
    decreases b.len(),
{
    if b.len() > 0 {
        lemma_append_new_contains(a, b.drop_last(), r);
        let prefix = append_new(a, b.drop_last());
        if b.drop_last().contains(r) {
            let k = choose|k: int| 0 <= k < b.drop_last().len() && b.drop_last()[k] == r;
            assert(b[k] == r);
        }
        if b.contains(r) {
            let k = choose|k: int| 0 <= k < b.len() && b[k] == r;
            if k < b.len() - 1 {
                assert(b.drop_last()[k] == r);
            }
        }
        if !prefix.contains(b.last()) {
            let pushed = prefix.push(b.last());
            if prefix.contains(r) {
                let k = choose|k: int| 0 <= k < prefix.len() && prefix[k] == r;
                assert(pushed[k] == r);
            }
            if pushed.contains(r) {
                let k = choose|k: int| 0 <= k < pushed.len() && pushed[k] == r;
                if k < prefix.len() {
                    assert(prefix[k] == r);
                }
            }
            assert(pushed[prefix.len() as int] == b.last());
        }
    }
}

/// The reasons two phased actions differ do not depend on the order of comparison: every reason
/// that `a` versus `b` reports is reported by `b` versus `a`, and conversely, so when
/// `a.is_equivalent(&b)` and `b.is_equivalent(&a)` fail they hold the same set of reasons.
pub proof fn lemma_equivalence_reasons_symmetric(
    a: PhasedCircuitActionView,
    b: PhasedCircuitActionView,
    r: ActionsInequivalenceReason,
)
    ensures
        equivalence_reasons(a, b).contains(r) <==> equivalence_reasons(b, a).contains(r),
{
    let count_a = count_equal(a.symbolic_angles, true, a.symbolic_angles.len() as int);
    let count_b = count_equal(b.symbolic_angles, true, b.symbolic_angles.len() as int);
    if count_a == count_b {
        let ab = provenance_map_spec(a.symbolic_angles, b.symbolic_angles);
        let ba = provenance_map_spec(b.symbolic_angles, a.symbolic_angles);
        assert(up_to_signs_reasons(a.action, b.action) =~= up_to_signs_reasons(b.action, a.action));
        let f = sign_reasons_spec(a.action, b.action, ab);
        let g = sign_reasons_spec(b.action, a.action, ba);
        lemma_append_new_contains(f, g, r);
        lemma_append_new_contains(g, f, r);
        let both_ab = append_new(f, g);
        let both_ba = append_new(g, f);
        let p = ActionsInequivalenceReason::RelativePhase;
        if r == p {
            assert(both_ab.push(p)[both_ab.len() as int] == p);
            assert(both_ba.push(p)[both_ba.len() as int] == p);
        }
        assert(both_ab.push(p).contains(r) <==> both_ab.contains(r) || r == p) by {
            if both_ab.push(p).contains(r) {
                let k = choose|k: int| 0 <= k < both_ab.push(p).len() && both_ab.push(p)[k] == r;
                if k < both_ab.len() {
                    assert(both_ab[k] == r);
                }
            }
            if both_ab.contains(r) {
                let k = choose|k: int| 0 <= k < both_ab.len() && both_ab[k] == r;
                assert(both_ab.push(p)[k] == r);
            }
        }
        assert(both_ba.push(p).contains(r) <==> both_ba.contains(r) || r == p) by {
            if both_ba.push(p).contains(r) {
                let k = choose|k: int| 0 <= k < both_ba.push(p).len() && both_ba.push(p)[k] == r;
                if k < both_ba.len() {
                    assert(both_ba[k] == r);
                }
            }
            if both_ba.contains(r) {
                let k = choose|k: int| 0 <= k < both_ba.len() && both_ba[k] == r;
                assert(both_ba.push(p)[k] == r);
            }
        }
    }
}

/// Positions of the same kind have different ranks among the positions of that kind.
proof fn lemma_rank_strictly_grows(bits: Seq<bool>, i: int, j: int)
    requires
        0 <= i < j <= bits.len(),
    ensures
        count_equal(bits, bits[i], i) < count_equal(bits, bits[i], j),
{
    crate::gf2::lemma_count_equal_monotone(bits, bits[i], i + 1, j);
}

/// The correspondence of random bits by provenance between a list of kinds and itself is the
/// identity.
proof fn lemma_provenance_map_identity(angles: Seq<bool>)
    ensures
        provenance_map_spec(angles, angles).matrix == Seq::new(
            angles.len(),
            |i: int| crate::gf2::bit_unit(angles.len(), i),
        ),
{
    let n = angles.len();
    let m = provenance_matrix_spec(angles, angles);
    assert forall|i: int| 0 <= i < n implies m[i] =~= crate::gf2::bit_unit(n, i) by {
        assert forall|j: int| 0 <= j < n implies m[i][j] == (j == i) by {
            if j < i && angles[i] == angles[j] {
                lemma_rank_strictly_grows(angles, j, i);
            }
            if i < j && angles[i] == angles[j] {
                lemma_rank_strictly_grows(angles, i, j);
            }
        }
    }
    assert(m =~= Seq::new(n, |i: int| crate::gf2::bit_unit(n, i)));
}

/// The identity map fixes every vector of its input dimension.
proof fn lemma_identity_apply(angles: Seq<bool>, r: Seq<bool>)
    requires
        r.len() == angles.len(),
    ensures
        provenance_map_spec(angles, angles).apply(r) == r,
{
    let n = angles.len();
    lemma_provenance_map_identity(angles);
    let map = provenance_map_spec(angles, angles);
    assert forall|i: int| 0 <= i < n implies #[trigger] map.apply(r)[i] == r[i] by {
        crate::pauli::lemma_dot_unit_left(n, i, r);
    }
    assert(map.apply(r) =~= r);
}

/// Composing a map of input dimension `n` with the identity on `n` bits gives the map back.
proof fn lemma_compose_identity(a: AffineSpec, angles: Seq<bool>)
    requires
        a.well_shaped(),
        a.input_dimension == angles.len(),
    ensures
        compose_spec(a, provenance_map_spec(angles, angles)) == a,
{
    let n = angles.len();
    lemma_provenance_map_identity(angles);
    let id = provenance_map_spec(angles, angles);
    let c = compose_spec(a, id);
    assert forall|i: int| 0 <= i < a.matrix.len() implies c.matrix[i] =~= a.matrix[i] by {
        assert(a.matrix[i].len() == n);
        assert forall|j: int| 0 <= j < n implies c.matrix[i][j] == a.matrix[i][j] by {
            assert(column_of(id.matrix, j) =~= crate::gf2::bit_unit(n, j));
            crate::decomposition::lemma_dot_symmetric(a.matrix[i], crate::gf2::bit_unit(n, j));
            crate::pauli::lemma_dot_unit_left(n, j, a.matrix[i]);
        }
    }
    assert forall|i: int| 0 <= i < a.shift.len() implies c.shift[i] == a.shift[i] by {
        assert(a.matrix[i].len() == n);
        crate::decomposition::lemma_dot_symmetric(a.matrix[i], crate::gf2::bit_zeros(n));
        crate::pauli::lemma_dot_zeros_left(crate::gf2::bit_zeros(n), a.matrix[i]);
    }
    assert(c.matrix =~= a.matrix);
    assert(c.shift =~= a.shift);
}

/// Sums over the bits of a direction of all-zero coefficients vanish.
proof fn lemma_zero_direction_sums(linear: Seq<i32>, quadratic: Seq<i32>, n: int, d: Seq<bool>, k: int, m: int)
    requires
        forall|i: int| 0 <= i < linear.len() ==> linear[i] == 0,
        forall|i: int| 0 <= i < quadratic.len() ==> quadratic[i] == 0,
        0 <= k < n,
        m <= n,
        linear.len() == n,
        quadratic.len() == n * n,
    ensures
        direction_linear_sum(linear, d, m) == 0,
        direction_pair_sum(quadratic, n, d, k, m) == 0,
        direction_quadratic_sum(quadratic, n, d, m) == 0,
    decreases m,
{
    if m > 0 {
        lemma_zero_direction_sums(linear, quadratic, n, d, k, m - 1);
        if m - 1 != k {
            crate::separation_phase::lemma_pair_index_in_range(k, m - 1, n);
            crate::separation_phase::lemma_pair_index_in_range(m - 1, k, n);
        }
        lemma_zero_direction_sums(linear, quadratic, n, d, m - 1, m - 1);
    }
}

/// A phase with all-zero coefficients is invariant along every direction.
proof fn lemma_zero_phase_invariant(linear: Seq<i32>, quadratic: Seq<i32>, d: Seq<bool>)
    requires
        forall|i: int| 0 <= i < linear.len() ==> linear[i] == 0,
        forall|i: int| 0 <= i < quadratic.len() ==> quadratic[i] == 0,
        quadratic.len() == linear.len() * linear.len(),
    ensures
        phase_invariant_spec(linear, quadratic, d),
{
    let n = linear.len() as int;
    assert forall|i: int, j: int| 0 <= i < j < n && d[i] != d[j] implies (2 * #[trigger] quadratic[i * n + j]) % 8
        == 0 by {
        crate::separation_phase::lemma_pair_index_in_range(i, j, n);
    }
    if n > 0 {
        lemma_zero_direction_sums(linear, quadratic, n, d, 0, n);
    } else {
        assert(direction_linear_sum(linear, d, n) == 0);
        assert(direction_quadratic_sum(quadratic, n, d, n) == 0);
    }
    assert forall|k: int| 0 <= k < n implies #[trigger] derivative_linear(linear, quadratic, d, k) % 8 == 0 by {
        lemma_zero_direction_sums(linear, quadratic, n, d, k, n);
    }
}

/// Equivalence of phased actions is reflexive: a well-formed phased action is equivalent to
/// itself, with no reason reported, so `a.is_equivalent(&a)` returns `Ok(())`.
pub proof fn lemma_equivalence_reflexive(a: PhasedCircuitAction)
    requires
        a.wf(),
    ensures
        equivalence_reasons(a@, a@).len() == 0,
{
    let v = a@;
    let angles = v.symbolic_angles;
    let n = angles.len();
    let id = provenance_map_spec(angles, angles);
    assert(up_to_signs_reasons(v.action, v.action) =~= Seq::<ActionsInequivalenceReason>::empty());
    a.action.observables.sign_from_random.lemma_wf();
    a.action.stabilizers.sign_from_random.lemma_wf();
    a.action.choi_state_stabilizers.sign_from_random.lemma_wf();
    lemma_compose_identity(v.action.observables.sign_from_random, angles);
    lemma_compose_identity(v.action.stabilizers.sign_from_random, angles);
    lemma_compose_identity(v.action.choi_state_stabilizers.sign_from_random, angles);
    let f = sign_reasons_spec(v.action, v.action, id);
    assert(f =~= Seq::<ActionsInequivalenceReason>::empty());
    assert(append_new(f, f) =~= f) by {
        assert(f.len() == 0);
    }
    let p = v.phase;
    assert(p.linear_i.len() == n);
    let zeros = crate::gf2::bit_zeros(n);
    lemma_identity_apply(angles, zeros);
    let units = difference_on_units(p, p, id, n);
    let pairs = difference_on_pairs(p, p, id, n);
    assert forall|i: int| 0 <= i < n implies units[i] == 0 by {
        lemma_identity_apply(angles, crate::gf2::bit_unit(n, i));
    }
    assert forall|q: int| 0 <= q < pairs.len() implies pairs[q] == 0 by {
        if q / (n as int) < q % (n as int) {
            lemma_identity_apply(angles, crate::separation_phase::pair_label(n, q / (n as int), q % (n as int)));
        }
    }
    let linear = interpolated_linear(0, units);
    let quadratic = interpolated_quadratic(0, units, pairs);
    assert(phase_difference_value(p, p, id, zeros) == 0);
    assert forall|i: int| 0 <= i < linear.len() implies linear[i] == 0 by {}
    assert forall|q: int| 0 <= q < quadratic.len() implies quadratic[q] == 0 by {
        let nn = n as int;
        assert(nn > 0) by (nonlinear_arith)
            requires
                0 <= q < nn * nn,
                nn >= 0,
        ;
        assert(q / nn < nn) by (nonlinear_arith)
            requires
                0 <= q < nn * nn,
                nn > 0,
        ;
        if q / nn < q % nn {
            assert(linear[q / nn] == 0);
            assert(linear[q % nn] == 0);
        }
    }
    assert forall|k: int| 0 <= k < v.physical_kernel.len() implies phase_invariant_spec(
        linear,
        quadratic,
        #[trigger] v.physical_kernel[k],
    ) by {
        lemma_zero_phase_invariant(linear, quadratic, v.physical_kernel[k]);
    }
    assert(relative_matches_spec(v, v, id));
}

/// The linear coefficients of the degree-at-most-two polynomial that interpolates the phase
/// difference between `s` at `map(r)` and `o` at `r` on `0`, the unit labels and the pairs.
pub open spec fn difference_linear(s: PhaseDataView, o: PhaseDataView, map: AffineSpec) -> Seq<i32> {
    let n = o.linear_i.len();
    interpolated_linear(
        phase_difference_value(s, o, map, crate::gf2::bit_zeros(n)),
        difference_on_units(s, o, map, n),
    )
}

/// The quadratic coefficients of the same interpolating polynomial.
pub open spec fn difference_quadratic(s: PhaseDataView, o: PhaseDataView, map: AffineSpec) -> Seq<i32> {
    let n = o.linear_i.len();
    interpolated_quadratic(
        phase_difference_value(s, o, map, crate::gf2::bit_zeros(n)),
        difference_on_units(s, o, map, n),
        difference_on_pairs(s, o, map, n),
    )
}

/// The relative-phase test of two phased actions is exact: it accepts the correspondence `map`
/// iff the interpolated phase difference is periodic along every direction of the random bits of
/// `b` that leaves the physical outcomes of `b` unchanged.
pub proof fn lemma_relative_phase_test_is_exact(a: PhasedCircuitAction, b: PhasedCircuitAction, map: AffineSpec)
    requires
        a.wf(),
        b.wf(),
    ensures
        relative_matches_spec(a@, b@, map) <==> forall|d: Seq<bool>|
            d.len() == b@.phase.linear_i.len() && #[trigger] crate::gf2::bit_is_zero(
                mat_vec_spec(b@.physical_outcomes_from_random, d),
            ) ==> crate::phase_invariance::periodic_along(
                difference_linear(a@.phase, b@.phase, map),
                difference_quadratic(a@.phase, b@.phase, map),
                d,
            ),
{
    let n = b@.phase.linear_i.len();
    let linear = difference_linear(a@.phase, b@.phase, map);
    let quadratic = difference_quadratic(a@.phase, b@.phase, map);
    let kernel = b@.physical_kernel;
    assert(phase_coefficients_wf(linear, quadratic));
    assert forall|t: int| 0 <= t < kernel.len() implies (#[trigger] kernel[t]).len() == n by {
        assert(b.physical_kernel.rows@[t]@.len() == b.physical_kernel.column_count);
    }
    if relative_matches_spec(a@, b@, map) {
        assert forall|t: int| 0 <= t < kernel.len() implies crate::phase_invariance::periodic_along(
            linear,
            quadratic,
            #[trigger] kernel[t],
        ) by {
            assert(phase_invariant_spec(linear, quadratic, kernel[t]));
            crate::phase_invariance::lemma_invariance_test_is_exact(linear, quadratic, kernel[t]);
        }
        assert forall|d: Seq<bool>|
            d.len() == n && #[trigger] crate::gf2::bit_is_zero(mat_vec_spec(b@.physical_outcomes_from_random, d))
                implies crate::phase_invariance::periodic_along(linear, quadratic, d) by {
            let c = choose|c: Seq<bool>| c.len() == kernel.len() && #[trigger] crate::gf2::combination(kernel, c, n) == d;
            crate::phase_invariance::lemma_periodic_along_combination(linear, quadratic, kernel, c, kernel.len() as int);
        }
    }
    if forall|d: Seq<bool>|
        d.len() == n && #[trigger] crate::gf2::bit_is_zero(mat_vec_spec(b@.physical_outcomes_from_random, d))
            ==> crate::phase_invariance::periodic_along(linear, quadratic, d) {
        assert forall|t: int| 0 <= t < kernel.len() implies phase_invariant_spec(linear, quadratic, #[trigger] kernel[t]) by {
            assert(crate::gf2::bit_is_zero(mat_vec_spec(b@.physical_outcomes_from_random, kernel[t])));
            crate::phase_invariance::lemma_invariance_test_is_exact(linear, quadratic, kernel[t]);
        }
    }
}

} // verus!
