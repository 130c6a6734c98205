//! Arithmetic coding: a lossless entropy coder over a caller-defined alphabet,
//! driven by a pluggable symbol-probability model, with a bit-level buffer.

pub mod bitmanipulator;
pub mod bits;
pub mod coding;
pub mod decoder;
pub mod encoder;
pub mod error;
pub mod models;
pub mod range;
pub mod roundtrip;
pub mod totality;
pub mod weights;
