//! Writing a document in the variable-length layout.

use crate::codec::encode::encode;
use crate::codec::spec::encoding;
use crate::error::Error;
use crate::layout::Layout;
use crate::ty::Ty;
use crate::value::Value;
use vstd::prelude::*;

verus! {

/// Encodes `value` against `ty` into a new buffer. On failure nothing is
/// returned but the error.
pub fn serialize(ty: &Ty, value: &Value) -> (r: Result<Vec<u8>, Error>)
    ensures
        match encoding(Layout::Varint, ty@, value@).failure {
            None => r matches Ok(bytes) && bytes@ == encoding(Layout::Varint, ty@, value@).bytes,
            Some(failure) => r matches Err(e) && e@ == failure,
        },
{
    let mut buffer = Vec::new();
    match serialize_into(ty, value, &mut buffer) {
        Ok(()) => {
            Ok(buffer)
        },
        Err(e) => Err(e),
    }
}

/// Appends the encoding of `value` against `ty` to `buffer`.
///
/// On failure `buffer` keeps the bytes that were appended before the node
/// that failed: the caller truncates or discards it before using it again.
pub fn serialize_into(ty: &Ty, value: &Value, buffer: &mut Vec<u8>) -> (r: Result<(), Error>)
    ensures
        final(buffer)@ == old(buffer)@ + encoding(Layout::Varint, ty@, value@).bytes,
        match r {
            Ok(()) => encoding(Layout::Varint, ty@, value@).failure is None,
            Err(e) => encoding(Layout::Varint, ty@, value@).failure == Some(e@),
        },
{
    encode(Layout::Varint, ty, value, buffer)
}

} // verus!
