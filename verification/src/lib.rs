//! Circuit evaluation and an interactive sum-check proof (prover and verifier)
//! over the prime field of order 2^31 - 1.
pub mod field;
pub mod math_helper;
pub mod poly;
pub mod arith_circuit;
pub mod prover;
pub mod sumcheck_verifier;
pub mod completeness;
pub mod circuit_text;
pub mod circuit_gen;
