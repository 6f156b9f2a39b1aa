//! The traversal that every backend shares: schema and document are walked
//! together, in schema order.

pub mod spec;
pub mod encode;
pub mod decode;
pub mod laws;
pub mod order;
