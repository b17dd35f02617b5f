//! A FRI low-degree proximity argument over a prime field: field arithmetic,
//! dense univariate polynomials, a binary Merkle commitment, a Fiat-Shamir
//! transcript and the commit / query / verify protocol built from them.
pub mod acceptance;
pub mod arith;
pub mod bigint;
pub mod channel;
pub mod completeness;
pub mod digest;
pub mod error;
pub mod field;
pub mod fri;
pub mod fri_laws;
pub mod fri_math;
pub mod ntt_laws;
pub mod poly_laws;
pub mod poly_math;
pub mod polynomial;
pub mod tree;
