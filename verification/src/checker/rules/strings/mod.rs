//! Rules of the theory of strings.

pub mod normalization;
pub mod utils;
