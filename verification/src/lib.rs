//! A batch compiler from textual music scores to raw PCM audio samples.
//!
//! Scores are line-oriented command texts (`META`, `DEFAULT`, `NOTE`,
//! `REPEAT`, `END_REPEAT`). Each `NOTE` schedules one sound event with a
//! waveform, an ADSR envelope, optional pitch glide and vibrato. The renderer
//! sums every active note at each output sample and hard-clips the result
//! into signed 16-bit little-endian PCM at 16000 Hz.
//!
//! All quantities (seconds, beats, hertz, amplitudes) are carried as Q16.16
//! fixed-point numbers ([`fixed::Fx`]), so every arithmetic step has an exact
//! integer specification.

pub mod fixed;
pub mod wave;
pub mod envelope;
pub mod warp;
pub mod note;
pub mod render;
pub mod parse;
pub mod command;
