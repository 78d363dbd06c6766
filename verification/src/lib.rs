//! A safety layer for exchanging values between a host program and an
//! embedded managed runtime whose collector relocates heap blocks.
//!
//! The runtime's heap is held as an explicit model: allocation primitives may
//! trigger a collection cycle that moves every live block, the root stack is
//! the only storage the collector repairs, and every conversion algorithm is
//! proved to leave the root stack at its prior depth while producing a value
//! whose decoding equals the abstract form of its input.

pub mod conv;
pub mod heap;
pub mod runtime;
pub mod value;
