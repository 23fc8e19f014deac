//! A second-order high-shelf filter for interleaved PCM audio, computed
//! entirely in fixed-point arithmetic.
//!
//! A filter is built from a [`filter::HighShelf2Config`]: sample format,
//! channel count, sample rate, gain in decibels, shelf slope and corner
//! frequency.  [`design`] turns the last four into the five coefficients of
//! a [`biquad::Biquad`], which then filters [`frames::Frames`] call after
//! call, remembering the two latest inputs and outputs of every channel.
//!
//! Numbers that are not integers are fixed-point values with 32 fractional
//! bits (see [`fixed`]).  Samples are stored words whose meaning
//! [`format::Format`] gives; single-precision samples are carried as their
//! bit patterns.  [`laws`] states what holds of the filter as a whole.

pub mod biquad;
pub mod design;
pub mod error;
pub mod filter;
pub mod fixed;
pub mod format;
pub mod frames;
pub mod laws;
