# pauliverse

Exact stabilizer simulation with global-phase tracking, written in Verus: every executable
function carries a contract over mathematical views (`Seq`, `int`, Pauli and tableau models) and
is proved against it.

## Layout

- `src/zeta8.rs`: exact arithmetic on powers of `ζ₈ = e^{iπ/4}`.
- `src/gf2.rs`: bit vectors and matrices over `𝔽₂`.
- `src/pauli.rs`: dense Pauli operators and their algebra.
- `src/clifford.rs`: Clifford unitaries stored by generator images; gates, images and preimages.
- `src/echelon.rs`: reduced bases over `𝔽₂`; a target is solved exactly when it lies in the span.
- `src/kernel.rs`: reduced row echelon form and a basis of the null space of a matrix over `𝔽₂`.
- `src/phased_clifford.rs`: Clifford unitaries that track one exact amplitude of their encoder state.
- `src/stabilizer_group.rs`: products of commuting stabilizers, and the uniqueness of the relative
  phase of a basis string that they determine.
- `src/validity.rs`: every operation that changes a tableau keeps it the tableau of a Clifford
  unitary; phased Clifford unitaries and the simulator's encoder carry this as part of their
  well-formedness.
- `src/decomposition.rs`: decomposition of a Clifford into `π/4` Pauli exponentials; it succeeds
  exactly on the tableaux of Clifford unitaries.
- `src/phase_form.rs`, `src/separation_phase.rs`: quadratic `ζ₈` phase polynomials.
- `src/simulation.rs`: the phased outcome-complete simulator and the `Simulation` interface.
- `src/auxiliary.rs`: building blocks of the separation of disentangled auxiliary qubits.
- `src/action.rs`: circuit actions, their assembly from the restrictions of a simulated state,
  and their equivalence checks.
- `src/phase_invariance.rs`: exactness of the invariance test on quadratic phases.

Random bits come from the `rand` crate: `src/simulation.rs` declares its `StdRng` type and holds
two small trusted wrappers, one drawing a bit from a given `StdRng` and one seeding a `StdRng`
from the operating system (which may fail, and then sampling reports `None`); everything else
is verified.

## Not included

The construction of circuit actions from circuits (`action_of`, `phased_action_of`) and the
computation of the marginal encoders and stabilizer restrictions of a state are not part of this
crate: they rest on a circuit type and on the tableau restriction and group-encoding routines of
the underlying Clifford library, none of which is available here. What follows those routines is
included and verified: `action::action_from_simulation` assembles an action from given
restrictions of a simulated state (and refuses it when the auxiliary qubits are entangled),
`auxiliary::separate_auxiliary_qubits` separates the auxiliary qubits of an encoder given its
marginal encoders, and `src/action.rs` compares given actions.

`tests/` exercises the library on concrete circuits.
