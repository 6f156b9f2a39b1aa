//! The reference codec: the tree-based encode and decode that the other
//! paths are held against. It works on flat buffers, and an encode either
//! returns all the bytes or none.

use crate::codec::order::in_schema_order;
use crate::codec::spec::{decoding, encoding};
use crate::error::{Error, Failure};
use crate::flatbin::codec::{decode_flat, encode_flat_alloc};
use crate::layout::Layout;
use crate::ty::Ty;
use crate::value::Value;
use vstd::prelude::*;

verus! {

/// Encodes a document value against a schema.
pub fn encode_tree(ty: &Ty, value: &Value) -> (r: Result<Vec<u8>, Error>)
    ensures
        match encoding(Layout::Flat, ty@, value@).failure {
            None => r matches Ok(bytes) && bytes@ == encoding(Layout::Flat, ty@, value@).bytes,
            Some(failure) => r matches Err(e) && e@ == failure,
        },
{
    encode_flat_alloc(ty, value)
}

/// Decodes a document value from all of `bytes`, as the schema asks. The
/// members of every decoded object stand in schema order.
pub fn decode_tree(ty: &Ty, bytes: &[u8]) -> (r: Result<Value, Error>)
    ensures
        match decoding(Layout::Flat, ty@, bytes@) {
            Some((doc, used)) => if used == bytes@.len() {
                r matches Ok(v) && v@ == doc
            } else {
                r matches Err(e) && e@ == Failure::Serialization
            },
            None => r matches Err(e) && e@ == Failure::Serialization,
        },
        r matches Ok(v) ==> in_schema_order(ty@, v),
{
    decode_flat(ty, bytes)
}

} // verus!
