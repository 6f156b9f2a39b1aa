//! The flat backend: fixed-width integers and length-prefixed runs, written
//! through an incremental writer into a buffer that can be used again.
//!
//! The layout has no tags, no names and no per-field lengths. A boolean is
//! one byte, 0 or 1; an integer or a float is 8 little-endian bytes; a string
//! or a byte array is an 8-byte length and its bytes; an array is an 8-byte
//! count and its elements; a struct is its fields in schema order. A flat
//! buffer is read front to back: there is no way to a field or an element
//! but through those before it.

pub mod buf;
pub mod codec;

pub use buf::{Builder, FlatbinBuf};
pub use codec::{decode_flat, decode_flat_prefix, encode_flat, encode_flat_alloc};
