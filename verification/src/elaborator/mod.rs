//! Elaboration of proofs: errors and the passes that report them.

pub mod error;
pub mod eunif;
