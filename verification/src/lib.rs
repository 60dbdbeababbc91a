//! Streaming lip-sync built on an Audio2Face bundle.

pub mod arkit;
pub mod arkit_laws;
pub mod audio2face;
pub mod error;
pub mod float_bits;
pub mod float_convert;
pub mod float_exact;
pub mod float_ops;
pub mod float_rounding;
pub mod json;
pub mod lip_sync;
pub mod narrowing_laws;
pub mod real_sums;
pub mod smoothing_laws;
pub mod smoothing_range_laws;
pub mod text;
pub mod text_laws;
