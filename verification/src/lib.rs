//! Decoder for the WebAssembly binary module format.
//!
//! The entry point is [`decode::decode_module`], which turns raw module bytes
//! into a [`model::ModuleSummary`] or a [`error::DecodeError`].  Decoding is
//! all-or-nothing: any failure aborts the whole decode.  A paired encoder in
//! [`encode`] produces bytes that decode back to the summary they came from.

pub mod cursor;
pub mod decode;
pub mod encode;
pub mod error;
pub mod laws;
pub mod model;
pub mod sections;
