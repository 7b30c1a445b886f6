//! Ring-LWE / Ring-GSW ciphertext arithmetic and key material for a Boolean
//! fully homomorphic encryption engine.
//!
//! Polynomials live in `Z_q[X]/(X^N + 1)` and are stored as `Vec<u64>` of
//! coefficients reduced modulo `q`; products are negacyclic schoolbook
//! products, so the keys named "evaluation domain" hold their expanded rows
//! in the coefficient representation that these products consume.
//! Randomness is an input: uniform parts, errors, ephemeral secrets and the
//! output of seeded generators are handed to the functions that use them, in
//! the order their contracts state.
pub mod arith;
pub mod ring;
pub mod error;
pub mod secret;
pub mod rlwe;
pub mod decompose;
pub mod automorphism;
pub mod draws;
pub mod rgsw;
pub mod keys;
