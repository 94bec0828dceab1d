//! Transformations of a mass spectrum's peak list before it is drawn: keeping the peaks
//! inside a mass window, rescaling intensities against the tallest peak, and a per-frame
//! memoizer that spares a redraw loop from recomputing either on every frame.

pub mod bounder;
pub mod frame_cache;
pub mod normalizer;
pub mod pipeline;
pub mod spectrum;
