//! The variable-length backend: integers and lengths are written in a
//! compact variable-width form, so small documents stay small.

pub mod de;
pub mod ser;
pub mod wire;

pub use crate::error::Error;
pub use de::{deserialize, deserialize_prefix};
pub use ser::{serialize, serialize_into};
