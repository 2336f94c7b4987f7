//! Group varint: four unsigned 32-bit integers share one header byte that
//! records how many bytes each of them takes, followed by their big-endian
//! payload bytes without padding.
//!
//! - [`width`]: how many bytes a value takes.
//! - [`format`]: the packed form of a run of values, and how it reads back.
//! - [`model`]: what a run of added values leaves committed and what staged.
//! - [`codec`]: the encoder that takes one value at a time, and its decoder.
//! - [`sample`]: random input to try the codec on.

pub mod codec;
pub mod format;
pub mod model;
pub mod sample;
pub mod width;
