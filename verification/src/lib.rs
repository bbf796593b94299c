//! Sparse symbolic algebra for spin decoherence operators.
//!
//! A [`product::DecoherenceProduct`] is a canonical tensor-product term over
//! indexed single-spin decoherence symbols; the sparse containers map such
//! products — or ordered pairs of them, for Lindblad noise — to complex
//! coefficients under strict term-combination and exact-cancellation rules.

pub mod coefficient;
pub mod error;
pub mod laws;
pub mod matrix;
pub mod noise;
pub mod noise_system;
pub mod operator;
pub mod product;
pub mod serialize;
pub mod system;
pub mod token;
