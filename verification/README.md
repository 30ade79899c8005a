# cmt_software

A layered arithmetic circuit over the prime field of order 2^31 - 1, and an
interactive proof of its output in the style of the layer-by-layer sum-check
protocol: the prover sends, round by round, a polynomial of degree at most 2
in one variable; the verifier checks that it sums to the current claim, draws
a random value, and at the end of each layer reduces two claims to one on a
line through them.

The library is written in Verus and verified.

- `src/field.rs`: the field `Zp` (and the two-element ring `Zpe`), inverses by
  the extended Euclidean algorithm, and the field laws.
- `src/math_helper.rs`: bits of gate labels, the multilinear extension of
  equality, lines through labels, Lagrange interpolation.
- `src/poly.rs`: polynomials by their coefficients; the bound on the number
  of roots and the exactness of Lagrange interpolation.
- `src/arith_circuit.rs`: gates, circuits, evaluation, and the multilinear
  extensions of gate values and of wiring.
- `src/circuit_text.rs`: the text format of circuits and its parser.
- `src/circuit_gen.rs`: random circuits and their text.
- `src/prover.rs`, `src/sumcheck_verifier.rs`: the two sides of the protocol.
- `src/completeness.rs`: every round of an honest run passes, whatever the
  random values.

`app/main.rs` reads `circ.txt`, prints the circuit, runs the protocol and
prints `Accept` or `Reject`; `gen` as its argument writes a random circuit
to `circ.txt` instead.
