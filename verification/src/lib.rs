//! Building blocks of an interactive proof for layered arithmetic circuits over a
//! prime field: multilinear polynomials over the boolean hypercube, products and
//! sums of them, circuits of addition and multiplication gates with their selector
//! polynomials, a Fiat-Shamir transcript, and the sumcheck protocol built on it.
//!
//! Beside them stand a few routines on polynomials in one variable, Lagrange
//! interpolation and Shamir secret sharing.
pub mod modular;
pub mod field;
pub mod bn254;
pub mod hypercube;
pub mod multilinear_polynomial;
pub mod binary;
pub mod circuit;
pub mod sum_poly;
pub mod transcript;
pub mod sumcheck_implementation;
pub mod dense_polynomial;
pub mod interpolation;
pub mod shamir;
pub mod partial_sumcheck;
pub mod lagrange;
