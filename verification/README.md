# ecdlp_5_bit

A verified library for the reversible oracle of Shor's algorithm on the
elliptic-curve discrete logarithm over the toy curve `y^2 = x^3 + 7` mod 31,
whose group has order 21 and generator `G = (1, 15)`: the oracle maps
scalars `a`, `b` and a point `Q` to `aG + bQ`.

The library is written in Verus; every function in `src/` carries a contract
that Verus proves.

## Layout

- `src/circuit.rs`: operations, qubit and bit identifiers, and the summary of
  a gate stream (widths, counts, register layout).
- `src/ops_io.rs`: the binary operation format and its compressed artifact;
  parsing undoes encoding for both the raw and the compressed format, and a
  compressed payload is read record by record, only as far as the declared
  count.
- `src/curve.rs`: reference arithmetic in F_31 and on the curve, with the
  double-and-add ladder.
- `src/group.rs`: the 21 multiples of `G`; the ladder agrees with repeated
  addition, and `aG + bQ = (a + bq) G` when `Q = qG`.
- `src/shor_oracle/`: the circuit builder (`builder.rs`), boolean signals
  (`signal.rs`), the one-shot meaning of a gate stream (`semantics.rs`), the
  F_31 kernels (`field_circuits.rs`, `field_arithmetic.rs`), point registers
  and the point addition, negation and doubling circuits (`mod.rs`), what
  they compute (`point_arith.rs`, `point_semantics.rs`), and the scalar
  multiplication schedule (`scalar_api.rs`, `scalar_strategy.rs`).
- `src/sim.rs`: a 64-shot bit-parallel simulator with gate counts and
  Toffoli depth.
- `src/eval.rs`: evaluation of an oracle circuit: inputs drawn from a
  Fiat-Shamir stream seeded by the circuit, batched simulation, and the
  checks of outputs, inputs, phases and ancillas.
- `app/`: the two command-line stages, building the circuit artifact and
  evaluating one, with their file and environment handling.
- `tests/`: tests of each module on concrete values.

## Main results

Every circuit-building result below holds on condition that building did
not fail: the builder marks itself failed when it runs out of identifiers
or is handed an operation that is not well formed, and from then on makes
no claim about what it emits. Nothing here proves that it does not fail.

- The point addition circuit XORs, into its output register, the sum its
  case analysis selects, and restores every scratch qubit; on reduced
  coordinates where the group law is defined, that sum is the group law's.
  Negation and doubling likewise.
- The controlled addition adds its addend into the accumulator where the
  selector qubit is set, and leaves every other qubit as it was, for points
  of the group generated by `G`.
- The scalar multiplication schedule adds `k P` into its output, for `k`
  the five-bit scalar and `P` the base point, and clears its three scratch
  points again.
- The oracle body (`oracle_into`) XORs exactly the reference `aG + bQ`
  into the output register and leaves every other qubit as it was, for `Q`
  in the group generated by `G` and scratch qubits that start clear
  (`oracle_law.rs` composes the recorded scalar multiplications, the sum
  and the reversed replays).
- The F_31 kernels (addition, subtraction, multiplication, multiplication by a
  constant, inversion) XOR their exact value into their target and restore
  their scratch.
- Evaluation returns exactly the verdict its specification describes for each
  shot and batch, on the shots drawn from the SHAKE256 stream of the
  circuit's transcript (shot `i` from its bytes `3i` to `3i + 2`); the
  simulator's measurements and resets take the stream's next words in
  order, and its counters are exact. Nothing links the simulator's run of a
  circuit to the one-shot meaning the oracle's law is stated over.
