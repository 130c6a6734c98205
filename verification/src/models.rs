//! Probability models for the coder.

pub mod modeltrait;
pub mod standard;
