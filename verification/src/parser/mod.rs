//! Reading the SMT-LIB and Alethe formats.

pub mod lexer;
