# zkvm_rs

A STARK-based zkVM: a register machine with four registers and six
instructions (NOP, IMM, ADD, MUL, SUB, HALT) over the Goldilocks field
(p = 2^64 - 2^32 + 1), with the whole proving pipeline: execution, trace,
algebraic constraints (AIR), STARK proof generation with FRI, and
verification. Every function of the library carries a Verus contract and is
verified; SHA-256 comes from the `sha2` crate.

## Layout

| Module | Contents |
|---|---|
| `number_theory` | primality, Fermat's little theorem, the Euler criterion for 7, primality of p |
| `field` | `Fp`, residues modulo p, inverse, roots of unity, the field laws |
| `polynomial`, `division`, `interpolation` | coefficient-form polynomials: evaluation, interpolation and its uniqueness, arithmetic, long division |
| `domain` | the trace subgroup and the LDE coset |
| `instruction`, `vm`, `trace` | the ISA, the interpreter, the 13-column trace and its padding |
| `air`, `air_laws` | the eight transition constraints and their soundness for VM traces |
| `hash`, `merkle`, `channel` | SHA-256, Merkle commitments, the Fiat-Shamir transcript |
| `fri`, `folding` | the FRI commit, query and verification phases; folding halves the degree |
| `prover`, `stark_verifier`, `completeness` | the STARK prover and verifier, and the proof that honest proofs verify |

`app/main.rs` runs the demonstration program `(3 + 4)^2 - (3 + 4) = 42`
through the pipeline and prints each step.

## Protocol

The trace (n rows, 13 columns) is interpolated on the subgroup of order n
and extended to a coset of 32n points. The transition constraints have
degree at most 15 in the trace columns, and they bind every step but the one
from the last row back to the first, so the quotient C(x) / Z(x), with
Z(x) = (x^n - 1) / (x - w^(n-1)), is a polynomial of degree below 16n exactly
when the composition vanishes on the constrained rows. FRI folds the
committed quotient down to a last layer of two values and checks that this
layer is constant, which is the degree bound 16n. `lemma_stark_completeness`
shows that honest proofs with such a quotient are accepted;
`lemma_fri_commit_low_degree` shows why the last layer of a low-degree
function is constant.
