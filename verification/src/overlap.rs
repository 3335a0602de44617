//! The interval-overlap sweep.
//!
//! `model` defines what the sweep computes, `engine` is the executable sweep,
//! and `laws` states what holds of every result.

pub mod coherence;
pub mod engine;
pub mod laws;
pub mod model;
pub mod sums;
pub mod timeline;
