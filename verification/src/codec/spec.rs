//! What encoding writes and what decoding reads, as functions of the models.

use crate::assoc::keys_of;
use crate::error::Failure;
use crate::layout::{
    bool_bytes, count_bytes, float_bytes, int_bytes, parse_blob, parse_bool, parse_count,
    parse_float, parse_int, parse_text, parse_uint, skip, text_bytes, uint_bytes, Layout,
};
use crate::ty::Schema;
use crate::value::{finite_bits, Doc, Num};
use vstd::prelude::*;

verus! {

/// The outcome of an encode: the bytes appended, and the failure that
/// stopped it, if one did. After a failure the bytes are those that were
/// appended before it.
pub struct Written {
    pub bytes: Seq<u8>,
    pub failure: Option<Failure>,
}

/// A complete write of `bytes`.
pub open spec fn written(bytes: Seq<u8>) -> Written {
    Written { bytes, failure: None }
}

/// A write that failed at once.
pub open spec fn failed(failure: Failure) -> Written {
    Written { bytes: Seq::empty(), failure: Some(failure) }
}

/// `head`, then what `tail` wrote.
pub open spec fn after(head: Seq<u8>, tail: Written) -> Written {
    Written { bytes: head + tail.bytes, failure: tail.failure }
}

/// The name under which errors report what a schema node asks for.
pub open spec fn expected_name(ty: Schema) -> Seq<char> {
    match ty {
        Schema::Bool => "a boolean"@,
        Schema::U64 => "a non-negative integer"@,
        Schema::I64 => "an integer"@,
        Schema::F64 => "a number"@,
        Schema::Bytes => "a byte array"@,
        Schema::String => "a string"@,
        Schema::Array(_) => "an array"@,
        Schema::Struct(_) => "an object"@,
    }
}

/// The failure of a value whose kind is not what the node asks for.
pub open spec fn unexpected(ty: Schema, doc: Doc) -> Failure {
    Failure::UnexpectedType { expected: expected_name(ty), got: doc.kind_name() }
}

/// The byte that an element of a byte array stands for: it must be an
/// integer between 0 and 255.
pub open spec fn byte_of(doc: Doc) -> Option<u8> {
    match doc.as_u64() {
        Some(n) => if n <= 255 {
            Some(n as u8)
        } else {
            None
        },
        None => None,
    }
}

/// The names of a struct node's fields.
pub open spec fn field_names(fields: Seq<(Seq<char>, Schema)>) -> Set<Seq<char>> {
    keys_of(fields).to_set()
}

/// The failure of an object whose keys, `got`, are not the fields of the
/// node: it carries both counts, both name sets and their two differences.
pub open spec fn field_mismatch_with(
    fields: Seq<(Seq<char>, Schema)>,
    got: Set<Seq<char>>,
) -> Failure {
    Failure::FieldMismatch {
        expected_len: fields.len(),
        expected: field_names(fields),
        got_len: got.len(),
        got,
        missing: field_names(fields).difference(got),
        extra: got.difference(field_names(fields)),
    }
}

/// The failure of an object whose keys are not the fields of the node.
pub open spec fn field_mismatch(
    fields: Seq<(Seq<char>, Schema)>,
    members: Map<Seq<char>, Doc>,
) -> Failure {
    field_mismatch_with(fields, members.dom())
}

/// Writing the first `k` elements of a byte array.
pub open spec fn encode_bytes(items: Seq<Doc>, k: nat) -> Written
    decreases k,
{
    if k == 0 || k > items.len() {
        written(Seq::empty())
    } else {
        let prev = encode_bytes(items, (k - 1) as nat);
        if prev.failure is Some {
            prev
        } else {
            match byte_of(items[k - 1]) {
                Some(b) => written(prev.bytes.push(b)),
                None => Written { bytes: prev.bytes, failure: Some(Failure::NotAByte) },
            }
        }
    }
}

/// Writing the first `k` elements of an array.
pub open spec fn encode_items(layout: Layout, inner: Schema, items: Seq<Doc>, k: nat) -> Written
    decreases inner, k,
{
    if k == 0 || k > items.len() {
        written(Seq::empty())
    } else {
        let prev = encode_items(layout, inner, items, (k - 1) as nat);
        if prev.failure is Some {
            prev
        } else {
            after(prev.bytes, encoding(layout, inner, items[k - 1]))
        }
    }
}

/// Whether an object has exactly the keys that a struct node asks for: as
/// many keys as the node has fields, and the keys are the fields' names.
pub open spec fn keys_match(fields: Seq<(Seq<char>, Schema)>, members: Map<Seq<char>, Doc>) -> bool {
    fields.len() == members.len() && members.dom() == field_names(fields)
}

/// Writing the first `k` fields of a struct, each looked up by its name.
pub open spec fn encode_fields(
    layout: Layout,
    fields: Seq<(Seq<char>, Schema)>,
    members: Map<Seq<char>, Doc>,
    k: nat,
) -> Written
    decreases fields, k,
{
    if k == 0 || k > fields.len() {
        written(Seq::empty())
    } else {
        let prev = encode_fields(layout, fields, members, (k - 1) as nat);
        if prev.failure is Some {
            prev
        } else {
            after(prev.bytes, encoding(layout, fields[k - 1].1, members[fields[k - 1].0]))
        }
    }
}

/// Writing a document against a schema node.
///
/// A scalar is written in the layout's form of it. A byte array and an
/// array are a count and then the elements; a string is a length and its
/// UTF-8 bytes; a struct is its fields in schema order, with no names and
/// no count. A value of the wrong kind fails with `UnexpectedType`. An
/// object whose keys are not exactly the names of the node's fields fails
/// with `FieldMismatch` at the struct node, before any of its fields is
/// written, whatever the values under the keys are. A byte-array element
/// that is no byte fails with `NotAByte`.
pub open spec fn encoding(layout: Layout, ty: Schema, doc: Doc) -> Written
    decreases ty, 0nat,
{
    match ty {
        Schema::Bool => match doc.as_bool() {
            Some(b) => written(bool_bytes(b)),
            None => failed(unexpected(ty, doc)),
        },
        Schema::U64 => match doc.as_u64() {
            Some(n) => written(uint_bytes(layout, n)),
            None => failed(unexpected(ty, doc)),
        },
        Schema::I64 => match doc.as_i64() {
            Some(i) => written(int_bytes(layout, i)),
            None => failed(unexpected(ty, doc)),
        },
        Schema::F64 => match doc.as_float_bits() {
            Some(bits) => written(float_bytes(bits)),
            None => failed(unexpected(ty, doc)),
        },
        Schema::Bytes => match doc.as_array() {
            Some(items) => after(
                count_bytes(layout, items.len()),
                encode_bytes(items, items.len()),
            ),
            None => failed(unexpected(ty, doc)),
        },
        Schema::String => match doc.as_str() {
            Some(text) => written(text_bytes(layout, text)),
            None => failed(unexpected(ty, doc)),
        },
        Schema::Array(inner) => match doc.as_array() {
            Some(items) => after(
                count_bytes(layout, items.len()),
                encode_items(layout, *inner, items, items.len()),
            ),
            None => failed(unexpected(ty, doc)),
        },
        Schema::Struct(fields) => match doc.as_object() {
            Some(members) => if keys_match(fields, members) {
                encode_fields(layout, fields, members, fields.len())
            } else {
                failed(field_mismatch(fields, members))
            },
            None => failed(unexpected(ty, doc)),
        },
    }
}

/// The elements that the bytes of a byte array stand for.
pub open spec fn byte_docs(payload: Seq<u8>) -> Seq<Doc> {
    Seq::new(payload.len(), |i: int| Doc::Number(Num::PosInt(payload[i] as u64)))
}

/// The value that the bit pattern of a float stands for: a number if it is
/// finite, else null.
pub open spec fn float_doc(bits: u64) -> Doc {
    if finite_bits(bits) {
        Doc::Number(Num::Float(bits))
    } else {
        Doc::Null
    }
}

/// Reading `k` elements from the front of `s`: the elements and the number
/// of bytes taken.
pub open spec fn decode_items(layout: Layout, inner: Schema, s: Seq<u8>, k: nat) -> Option<
    (Seq<Doc>, nat),
>
    decreases inner, k,
{
    if k == 0 {
        Some((Seq::empty(), 0nat))
    } else {
        match decode_items(layout, inner, s, (k - 1) as nat) {
            Some((init, used)) => if used <= s.len() {
                match decoding(layout, inner, skip(s, used)) {
                    Some((item, more)) => Some((init.push(item), used + more)),
                    None => None,
                }
            } else {
                None
            },
            None => None,
        }
    }
}

/// Reading the first `k` fields of a struct from the front of `s`: the
/// mapping from their names to their values, and the number of bytes taken.
pub open spec fn decode_fields(
    layout: Layout,
    fields: Seq<(Seq<char>, Schema)>,
    s: Seq<u8>,
    k: nat,
) -> Option<(Map<Seq<char>, Doc>, nat)>
    decreases fields, k,
{
    if k == 0 || k > fields.len() {
        Some((Map::empty(), 0nat))
    } else {
        match decode_fields(layout, fields, s, (k - 1) as nat) {
            Some((init, used)) => if used <= s.len() {
                match decoding(layout, fields[k - 1].1, skip(s, used)) {
                    Some((value, more)) => Some((init.insert(fields[k - 1].0, value), used + more)),
                    None => None,
                }
            } else {
                None
            },
            None => None,
        }
    }
}

/// Reading a document from the front of `s` as a schema node asks: the
/// document and the number of bytes taken, or nothing where the bytes end
/// early or are not what the node asks for.
pub open spec fn decoding(layout: Layout, ty: Schema, s: Seq<u8>) -> Option<(Doc, nat)>
    decreases ty, 0nat,
{
    match ty {
        Schema::Bool => match parse_bool(s) {
            Some((b, used)) => Some((Doc::Bool(b), used)),
            None => None,
        },
        Schema::U64 => match parse_uint(layout, s) {
            Some((n, used)) => Some((Doc::Number(Num::PosInt(n)), used)),
            None => None,
        },
        Schema::I64 => match parse_int(layout, s) {
            Some((i, used)) => Some((Doc::Number(Num::of_i64(i)), used)),
            None => None,
        },
        Schema::F64 => match parse_float(s) {
            Some((bits, used)) => Some((float_doc(bits), used)),
            None => None,
        },
        Schema::Bytes => match parse_blob(layout, s) {
            Some((payload, used)) => Some((Doc::Array(byte_docs(payload)), used)),
            None => None,
        },
        Schema::String => match parse_text(layout, s) {
            Some((text, used)) => Some((Doc::String(text), used)),
            None => None,
        },
        Schema::Array(inner) => match parse_count(layout, s) {
            Some((n, used)) => if used <= s.len() {
                match decode_items(layout, *inner, skip(s, used), n) {
                    Some((items, more)) => Some((Doc::Array(items), used + more)),
                    None => None,
                }
            } else {
                None
            },
            None => None,
        },
        Schema::Struct(fields) => match decode_fields(layout, fields, s, fields.len()) {
            Some((members, used)) => Some((Doc::Object(members), used)),
            None => None,
        },
    }
}

} // verus!
