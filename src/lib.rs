//! Decoder for precompiled Lua 5.1 chunks.
//!
//! - `format`: the chunk grammar as spec functions over byte sequences, and
//!   the error type.
//! - `undump`: the decoded types and the decoder, proved to follow the grammar.
//! - `laws`: properties of decoding over all inputs, proved from the grammar.
pub mod format;
pub mod laws;
pub mod undump;

pub use format::DecodeError;
pub use undump::{undump, Constant, Function, LocVar};
