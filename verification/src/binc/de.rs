//! Reading a document from the variable-length layout.

use crate::codec::decode::decode;
use crate::codec::order::in_schema_order;
use crate::codec::spec::decoding;
use crate::error::{Error, Failure};
use crate::layout::{skip, Layout};
use crate::ty::Ty;
use crate::value::Value;
use vstd::prelude::*;

verus! {

/// Decodes the whole of `value` as `ty` asks. Bytes left over after the
/// document are an error, as are bytes that end early or do not fit the
/// schema. The members of every decoded object stand in schema order.
pub fn deserialize(ty: &Ty, value: &[u8]) -> (r: Result<Value, Error>)
    ensures
        match decoding(Layout::Varint, ty@, value@) {
            Some((doc, used)) => if used == value@.len() {
                r matches Ok(v) && v@ == doc
            } else {
                r matches Err(e) && e@ == Failure::Serialization
            },
            None => r matches Err(e) && e@ == Failure::Serialization,
        },
        r matches Ok(v) ==> in_schema_order(ty@, v),
{
    let (document, end) = deserialize_prefix(ty, value)?;
    if end == value.len() {
        Ok(document)
    } else {
        Err(Error::Serialization)
    }
}

/// Decodes a document from the front of `value` and returns it with the
/// number of bytes it took; what follows is left unread.
pub fn deserialize_prefix(ty: &Ty, value: &[u8]) -> (r: Result<(Value, usize), Error>)
    ensures
        match decoding(Layout::Varint, ty@, value@) {
            Some((doc, used)) => r matches Ok((v, end)) && v@ == doc && end == used && end
                <= value@.len(),
            None => r matches Err(e) && e@ == Failure::Serialization,
        },
        r matches Ok((v, _)) ==> in_schema_order(ty@, v),
{
    assert(skip(value@, 0) =~= value@);
    decode(Layout::Varint, ty, value, 0)
}

} // verus!
