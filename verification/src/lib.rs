//! Real-time-safe data reduction for audio visualizers.
//!
//! A live sample stream is compressed into small, fixed-memory summaries
//! that a display can read: a circular buffer primitive, a waveform
//! min/max downsampler, a decaying-minimum envelope, and a decaying
//! histogram. Sample amplitudes are plain fixed-point integers; decay
//! weights are fixed-point fractions of [`samples::WEIGHT_ONE`].
//!
//! Each aggregator is owned by whoever embeds it; a real-time producer
//! and a display consumer share one by wrapping it in a
//! mutual-exclusion guard of their own. Ingestion never allocates:
//! only construction and the (consumer-driven) capacity changes do.

pub mod samples;
pub mod ring_buffer;
pub mod waveform_buffer;
pub mod minima_buffer;
pub mod histogram_buffer;
