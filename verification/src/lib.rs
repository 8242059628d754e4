//! Binaural speaker-simulation DSP core.
//!
//! The library implements the two signal-processing subsystems of a
//! headphone cross-feed processor in exact fixed-point arithmetic, so that
//! every processing step has a precise, machine-checked contract:
//!
//! - a four-path partitioned block-convolution engine
//!   ([`convolution::ConvolutionEngine`]) that spatializes a stereo signal
//!   through head-related impulse responses, and
//! - a per-band biquad parametric equalizer
//!   ([`eq::StereoParametricEQ`]) with analytically derived RBJ filter
//!   coefficients ([`biquad::BiquadFilter`]).
//!
//! Samples and impulse-response taps are Q16.16 values carried in `i32`
//! (see [`fixed`]); filter coefficients are Q2.30 values carried in `i64`.
//! All intermediate products are accumulated exactly in `i128` and only
//! narrowed (with saturation) at well-defined points, so the contracts can
//! state the result of every operation as an exact integer expression.

pub mod autoeq;
pub mod biquad;
pub mod convolution;
pub mod eq;
pub mod fixed;
pub mod trig;
