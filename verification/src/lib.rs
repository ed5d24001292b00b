//! Verified building blocks of a checker for the Alethe proof format: finite automata over
//! character ranges, union-find, and helpers used by the proof rules.
pub mod ast;
pub mod automata;
pub mod benchmarking;
pub mod cc;
pub mod checker;
pub mod cli;
pub mod elaborator;
pub mod error;
pub mod parser;
pub mod text;
pub mod utils;
