//! Checking of proof steps.

pub mod rules;
