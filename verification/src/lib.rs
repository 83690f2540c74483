//! Loudness measurement, normalization decisions, and PCM/WAV container
//! encoding for mono audio, with machine-checked contracts.

pub mod meter;
pub mod norm;
pub mod pcm;
