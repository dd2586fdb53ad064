pub mod air;
pub mod air_laws;
pub mod channel;
pub mod completeness;
pub mod division;
pub mod domain;
pub mod field;
pub mod folding;
pub mod fri;
pub mod hash;
pub mod instruction;
pub mod interpolation;
pub mod laws;
pub mod merkle;
pub mod number_theory;
pub mod polynomial;
pub mod prover;
pub mod trace;
pub mod vm;
pub mod stark_verifier;
