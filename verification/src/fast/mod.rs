//! The streaming codec: a structured stream of tokens is encoded into a
//! flat buffer, and a flat buffer is decoded into a stream of tokens,
//! without a document value in between.

pub mod decode;
pub mod encode;
pub mod laws;
pub mod token;
pub mod tree;

pub use decode::decode_stream;
pub use encode::encode_stream;
pub use token::Token;
pub use tree::{materialize, tokens_of};
