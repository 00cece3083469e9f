//! Exact stabilizer simulation with global-phase tracking, built on Clifford tableaux over `𝔽₂`.
//!
//! The library models Pauli operators, Clifford unitaries (with and without an exactly tracked
//! `ζ₈` phase), their decomposition into Pauli exponentials, the polynomial phases that separate
//! auxiliary qubits, and an outcome-complete simulator that records every measurement branch at
//! once. Every operation is stated over mathematical views and proved.
pub mod zeta8;
pub mod gf2;
pub mod separation_phase;
pub mod pauli;
pub mod clifford;
pub mod echelon;
pub mod phased_clifford;
pub mod decomposition;
pub mod phase_form;
pub mod simulation;
pub mod auxiliary;
pub mod action;
pub mod phase_invariance;
pub mod kernel;
pub mod stabilizer_group;
pub mod validity;

use vstd::prelude::*;
use crate::clifford::{CliffordUnitary, UnitaryOp};
use crate::pauli::{DensePauli, PauliSpec};

verus! {

/// The common interface of stabilizer simulators: gates, Pauli operators, measurements and
/// stabilizer queries on a state whose measurement outcomes are numbered in order of allocation.
pub trait Simulation: Default + Sized {
    /// The simulator's internal invariant.
    spec fn valid(&self) -> bool;

    /// The number of live qubits.
    spec fn live_qubits(&self) -> nat;

    /// The number of outcomes recorded so far.
    spec fn recorded_outcomes(&self) -> nat;

    /// Another outcome (and random bit) can be recorded.
    spec fn has_outcome_room(&self) -> bool;

    /// The register can grow to cover every qubit on which `observable` acts.
    spec fn accepts(&self, observable: PauliSpec) -> bool;

    /// `observable` is accepted and is Hermitian, so that it can be measured or rotated about.
    spec fn accepts_hermitian(&self, observable: PauliSpec) -> bool;

    /// The register can grow to cover the listed qubits.
    spec fn accepts_qubits(&self, qubits: Seq<usize>) -> bool;

    /// `observable` acts only on qubits the simulator already holds.
    spec fn holds(&self, observable: PauliSpec) -> bool;

    /// The pair satisfies what the controlled Pauli needs of it.
    spec fn accepts_controlled_pair(&self, observable1: PauliSpec, observable2: PauliSpec) -> bool;

    /// The pair satisfies what a measurement with a hint needs of it.
    spec fn accepts_hint(&self, observable: PauliSpec, hint: PauliSpec) -> bool;

    /// The simulator can apply a Clifford given only up to its global phase.
    spec fn accepts_phaseless_clifford(&self) -> bool;

    /// A simulator with these capacities can be built.
    spec fn accepts_capacities(qubit_count: nat, outcome_count: nat, random_outcome_count: nat) -> bool;

    /// The qubit capacity can grow to `capacity`.
    spec fn accepts_qubit_capacity(&self, capacity: nat) -> bool;

    /// The outcome capacity can grow to `capacity`.
    spec fn accepts_outcome_capacity(&self, capacity: nat) -> bool;

    /// `after` is this state with `observable` applied on the branches where the sum of the
    /// listed outcomes equals `parity`, and left as it is on the others.
    spec fn conditionally_applies(&self, after: &Self, observable: PauliSpec, outcomes: Seq<usize>, parity: bool) -> bool;

    /// Allocates a new random outcome and returns its position.
    fn allocate_random_bit(&mut self) -> (r: usize)
        requires
            old(self).valid(),
            old(self).has_outcome_room(),
        ensures
            final(self).valid(),
            r == old(self).recorded_outcomes(),
            final(self).recorded_outcomes() == old(self).recorded_outcomes() + 1,
            final(self).live_qubits() == old(self).live_qubits(),
    ;

    /// Allocates a new outcome standing for a symbolic rotation angle; by default a random bit.
    fn allocate_symbolic_angle(&mut self) -> (r: usize)
        requires
            old(self).valid(),
            old(self).has_outcome_room(),
        ensures
            final(self).valid(),
            r == old(self).recorded_outcomes(),
            final(self).recorded_outcomes() == old(self).recorded_outcomes() + 1,
            final(self).live_qubits() == old(self).live_qubits(),
    {
        self.allocate_random_bit()
    }

    /// Applies the symbolic rotation `exp(iα P)` whose angle `α` is held by outcome `angle`.
    fn symbolic_pauli_exp(&mut self, observable: &DensePauli, angle: usize)
        requires
            old(self).valid(),
            observable.wf(),
            old(self).accepts(observable@),
            angle < old(self).recorded_outcomes(),
        ensures
            final(self).valid(),
            final(self).recorded_outcomes() == old(self).recorded_outcomes(),
            old(self).conditionally_applies(final(self), observable@, seq![angle], true),
    {
        let outcomes = [angle];
        proof {
            assert(outcomes@ =~= seq![angle]);
        }
        self.conditional_pauli(observable, &outcomes, true)
    }

    /// Applies a Clifford unitary, given up to its global phase, on `support`.
    fn clifford(&mut self, clifford: &CliffordUnitary, support: &[usize])
        requires
            old(self).valid(),
            old(self).accepts_phaseless_clifford(),
        ensures
            final(self).valid(),
    ;

    /// Applies `observable` when the sum of the listed outcomes equals `parity`.
    fn conditional_pauli(&mut self, observable: &DensePauli, outcomes: &[usize], parity: bool)
        requires
            old(self).valid(),
            observable.wf(),
            old(self).accepts(observable@),
            forall|k: int| 0 <= k < outcomes@.len() ==> (#[trigger] outcomes@[k]) < old(self).recorded_outcomes(),
        ensures
            final(self).valid(),
            final(self).recorded_outcomes() == old(self).recorded_outcomes(),
            old(self).conditionally_applies(final(self), observable@, outcomes@, parity),
    ;

    /// Applies `observable2` on the `+1` eigenspace of `observable1`.
    fn controlled_pauli(&mut self, observable1: &DensePauli, observable2: &DensePauli)
        requires
            old(self).valid(),
            observable1.wf(),
            observable2.wf(),
            old(self).accepts_controlled_pair(observable1@, observable2@),
        ensures
            final(self).valid(),
            final(self).recorded_outcomes() == old(self).recorded_outcomes(),
    ;

    /// Applies the Pauli operator `observable`.
    fn pauli(&mut self, observable: &DensePauli)
        requires
            old(self).valid(),
            observable.wf(),
            old(self).accepts(observable@),
        ensures
            final(self).valid(),
            final(self).recorded_outcomes() == old(self).recorded_outcomes(),
    ;

    /// Applies `exp(iπ/4 · observable)`.
    fn pauli_exp(&mut self, observable: &DensePauli)
        requires
            old(self).valid(),
            observable.wf(),
            old(self).accepts_hermitian(observable@),
        ensures
            final(self).valid(),
            final(self).recorded_outcomes() == old(self).recorded_outcomes(),
    ;

    /// Relabels the qubits of `support`: qubit `support[i]` takes the role of
    /// `support[permutation[i]]`.
    fn permute(&mut self, permutation: &[usize], support: &[usize])
        requires
            old(self).valid(),
            permutation@.len() == support@.len(),
            forall|i: int| 0 <= i < permutation@.len() ==> (#[trigger] permutation@[i]) < support@.len(),
            forall|i: int, j: int| 0 <= i < j < support@.len() ==> support@[i] != support@[j],
            forall|i: int, j: int| 0 <= i < j < permutation@.len() ==> permutation@[i] != permutation@[j],
            old(self).accepts_qubits(support@),
        ensures
            final(self).valid(),
            final(self).recorded_outcomes() == old(self).recorded_outcomes(),
    ;

    /// Applies the named gate on `support`.
    fn unitary_op(&mut self, operation: UnitaryOp, support: &[usize])
        requires
            old(self).valid(),
            support@.len() >= crate::clifford::op_arity(operation),
            crate::clifford::op_arity(operation) == 2 ==> support@[0] != support@[1],
            old(self).accepts_qubits(support@),
        ensures
            final(self).valid(),
            final(self).recorded_outcomes() == old(self).recorded_outcomes(),
    ;

    /// `true` iff `observable` stabilizes the state.
    fn is_stabilizer(&self, observable: &DensePauli) -> bool
        requires
            self.valid(),
            observable.wf(),
            self.holds(observable@),
    ;

    /// `true` iff `observable` stabilizes the state up to sign.
    fn is_stabilizer_up_to_sign(&self, observable: &DensePauli) -> bool
        requires
            self.valid(),
            observable.wf(),
            self.holds(observable@),
    ;

    /// `true` iff `observable` stabilizes the state with the sign given by the parity of the
    /// listed outcomes.
    fn is_stabilizer_with_conditional_sign(&self, observable: &DensePauli, outcomes: &[usize]) -> bool
        requires
            self.valid(),
            observable.wf(),
            self.holds(observable@),
            forall|k: int| 0 <= k < outcomes@.len() ==> (#[trigger] outcomes@[k]) < self.recorded_outcomes(),
    ;

    /// Measures `observable` and returns the outcome's position.
    fn measure(&mut self, observable: &DensePauli) -> (r: usize)
        requires
            old(self).valid(),
            observable.wf(),
            old(self).accepts_hermitian(observable@),
            old(self).has_outcome_room(),
        ensures
            final(self).valid(),
            r < final(self).recorded_outcomes(),
            final(self).recorded_outcomes() >= old(self).recorded_outcomes(),
    ;

    /// Measures `observable` using `hint`, an anticommuting stabilizer, and returns the outcome's
    /// position.
    fn measure_with_hint(&mut self, observable: &DensePauli, hint: &DensePauli) -> (r: usize)
        requires
            old(self).valid(),
            observable.wf(),
            hint.wf(),
            old(self).accepts_hint(observable@, hint@),
            old(self).has_outcome_room(),
        ensures
            final(self).valid(),
            r < final(self).recorded_outcomes(),
            final(self).recorded_outcomes() >= old(self).recorded_outcomes(),
    ;

    /// The number of live qubits.
    fn qubit_count(&self) -> (r: usize)
        ensures
            r == self.live_qubits(),
    ;

    /// The number of outcomes recorded so far.
    fn outcome_count(&self) -> (r: usize)
        ensures
            r == self.recorded_outcomes(),
    ;

    /// A simulator on `qubit_count` qubits.
    fn new(qubit_count: usize) -> (s: Self)
        requires
            Self::accepts_capacities(qubit_count as nat, 0, 0),
        ensures
            s.valid(),
            s.live_qubits() == qubit_count,
            s.recorded_outcomes() == 0,
    {
        Self::with_capacity(qubit_count, 0, 0)
    }

    /// A simulator on `qubit_count` qubits with room for the given numbers of outcomes.
    fn with_capacity(qubit_count: usize, outcome_count: usize, random_outcome_count: usize) -> (s: Self)
        requires
            Self::accepts_capacities(qubit_count as nat, outcome_count as nat, random_outcome_count as nat),
        ensures
            s.valid(),
            s.live_qubits() == qubit_count,
            s.recorded_outcomes() == 0,
    ;

    /// The number of qubits the simulator has room for.
    fn qubit_capacity(&self) -> (r: usize)
        requires
            self.valid(),
        ensures
            r >= self.live_qubits(),
    ;

    /// Grows the qubit capacity to at least `new_qubit_capacity`.
    fn reserve_qubits(&mut self, new_qubit_capacity: usize)
        requires
            old(self).valid(),
            old(self).accepts_qubit_capacity(new_qubit_capacity as nat),
        ensures
            final(self).valid(),
            final(self).live_qubits() == old(self).live_qubits(),
            final(self).recorded_outcomes() == old(self).recorded_outcomes(),
    ;

    /// The number of outcomes the simulator has room for.
    fn outcome_capacity(&self) -> (r: usize)
        requires
            self.valid(),
        ensures
            r >= self.recorded_outcomes(),
    ;

    /// The number of random outcomes the simulator has room for.
    fn random_outcome_capacity(&self) -> usize
        requires
            self.valid(),
    ;

    /// Grows the outcome capacities to at least the given values.
    fn reserve_outcomes(&mut self, new_outcome_capacity: usize, new_random_outcome_capacity: usize)
        requires
            old(self).valid(),
            new_outcome_capacity >= new_random_outcome_capacity,
            old(self).accepts_outcome_capacity(new_outcome_capacity as nat),
        ensures
            final(self).valid(),
            final(self).live_qubits() == old(self).live_qubits(),
            final(self).recorded_outcomes() == old(self).recorded_outcomes(),
    ;
}

} // verus!
