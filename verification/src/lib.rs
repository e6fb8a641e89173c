//! The verified core of an audio round-trip latency meter.

pub mod app;
pub mod audio;
pub mod cli;
pub mod detection;
pub mod detector;
pub mod dsp;
pub mod float_bits;
pub mod latency;
pub mod probe;
pub mod ranking;
pub mod state;
