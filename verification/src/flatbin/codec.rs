//! Encoding into and decoding from the flat layout.

use crate::codec::decode::decode;
use crate::codec::order::in_schema_order;
use crate::codec::spec::{decoding, encoding};
use crate::error::{Error, Failure};
use crate::flatbin::buf::{Builder, FlatbinBuf};
use crate::layout::{skip, Layout};
use crate::ty::Ty;
use crate::value::Value;
use vstd::prelude::*;
use vstd::slice::slice_to_vec;

verus! {

/// Writes `value` against `ty` through `builder` into its backing buffer.
///
/// On failure the buffer holds the bytes appended before the node that
/// failed, and the caller clears it before using it again.
pub fn encode_flat<'a>(ty: &Ty, value: &Value, builder: Builder<'a>) -> (r: Result<(), Error>)
    ensures
        final(builder.buf)@ == old(builder.buf)@ + encoding(Layout::Flat, ty@, value@).bytes,
        match r {
            Ok(()) => encoding(Layout::Flat, ty@, value@).failure is None,
            Err(e) => encoding(Layout::Flat, ty@, value@).failure == Some(e@),
        },
{
    let mut builder = builder;
    builder.write(ty, value)
}

/// Encodes `value` against `ty` into a new vector. On failure nothing is
/// returned but the error.
pub fn encode_flat_alloc(ty: &Ty, value: &Value) -> (r: Result<Vec<u8>, Error>)
    ensures
        match encoding(Layout::Flat, ty@, value@).failure {
            None => r matches Ok(bytes) && bytes@ == encoding(Layout::Flat, ty@, value@).bytes,
            Some(failure) => r matches Err(e) && e@ == failure,
        },
{
    let mut buf = FlatbinBuf::new();
    match encode_flat(ty, value, Builder::new(&mut buf)) {
        Ok(()) => {
            Ok(slice_to_vec(buf.as_bytes()))
        },
        Err(e) => Err(e),
    }
}

/// Decodes the whole of `bytes` as `ty` asks. Bytes left over after the
/// document are an error, as are bytes that end early or do not fit the
/// schema. The members of every decoded object stand in schema order.
pub fn decode_flat(ty: &Ty, bytes: &[u8]) -> (r: Result<Value, Error>)
    ensures
        match decoding(Layout::Flat, ty@, bytes@) {
            Some((doc, used)) => if used == bytes@.len() {
                r matches Ok(v) && v@ == doc
            } else {
                r matches Err(e) && e@ == Failure::Serialization
            },
            None => r matches Err(e) && e@ == Failure::Serialization,
        },
        r matches Ok(v) ==> in_schema_order(ty@, v),
{
    let (document, end) = decode_flat_prefix(ty, bytes)?;
    if end == bytes.len() {
        Ok(document)
    } else {
        Err(Error::Serialization)
    }
}

/// Decodes a document from the front of `bytes` and returns it with the
/// number of bytes it took; what follows is left unread.
pub fn decode_flat_prefix(ty: &Ty, bytes: &[u8]) -> (r: Result<(Value, usize), Error>)
    ensures
        match decoding(Layout::Flat, ty@, bytes@) {
            Some((doc, used)) => r matches Ok((v, end)) && v@ == doc && end == used && end
                <= bytes@.len(),
            None => r matches Err(e) && e@ == Failure::Serialization,
        },
        r matches Ok((v, _)) ==> in_schema_order(ty@, v),
{
    assert(skip(bytes@, 0) =~= bytes@);
    decode(Layout::Flat, ty, bytes, 0)
}

} // verus!
