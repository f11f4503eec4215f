//! Sandboxed, single-shot data-transformation units behind a common host
//! boundary: a byte-level token-substitution engine, a structural converter
//! from JSON text to a MessagePack-style binary layout, and an access-log
//! field extractor that normalizes timestamps and merges matched fields
//! back into the record.

pub mod convert;
pub mod extract;
pub mod host;
pub mod jsonio;
pub mod msgpack;
pub mod substitute;
pub mod value;
