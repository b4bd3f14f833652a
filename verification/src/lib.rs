//! Core of a live-captioning pipeline: bounded ring-buffer ingestion,
//! sample preprocessing, acoustic feature extraction, online speaker
//! clustering with temporal smoothing, speaker identity management, and
//! merging of transcript tokens with speaker segments.
//!
//! Audio amplitudes are carried as fixed-point integers: one unit is a
//! millionth of full scale, so the canonical range [-1, 1] becomes
//! [-1_000_000, 1_000_000]. Times are carried in milliseconds.

pub mod cluster;
pub mod config;
pub mod diarize;
pub mod embedding;
pub mod features;
pub mod identity;
pub mod math;
pub mod preprocess;
pub mod ring;
pub mod sample;
pub mod session;
pub mod transcript;
