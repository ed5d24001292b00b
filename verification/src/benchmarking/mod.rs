//! Collection of measurements.

pub mod metrics;
