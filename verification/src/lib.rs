//! A white / pink noise synthesis core.
//!
//! Samples are decimal fixed-point numbers: an `i64` holds the sample value
//! times `filter::SCALE`.  The pink-noise shaping filter, the per-sample
//! generator, the buffer-fill routine and the volume-argument parser are all
//! verified; randomness and the audio device live outside this crate.

pub mod config;
pub mod filter;
pub mod generator;
pub mod rng;
