//! A static-frequency symbol-remapping codec.
//!
//! The pipeline counts how often each character occurs in a text, assigns
//! each distinct character a single-byte code ranked by descending
//! frequency, encodes the text as one byte per character, and decodes the
//! bytes back to the original text through the inverse mapping.

pub mod alist;
pub mod errors;
pub mod freq;
pub mod mapping;
pub mod codec;
