//! Encoding a document value against a schema.

use crate::assoc::keys_of;
use crate::codec::spec;
use crate::codec::spec::{
    encode_bytes, encode_fields, encode_items, encoding, field_names, keys_match,
};
use crate::error::{Error, Failure};
use crate::layout::{
    count_bytes, put_byte, put_flag, put_float, put_int, put_text, put_uint, Layout,
};
use crate::names::NameSet;
use crate::text::str_eq;
use crate::ty::{fields_of, Field, Schema, Ty};
use crate::value::{docs_of, Doc, Number, Object, Value};
use vstd::prelude::*;

verus! {

/// The error for a value whose kind is not the `expected` one.
pub fn unexpected_type(expected: &'static str, value: &Value) -> (e: Error)
    ensures
        e@ == (Failure::UnexpectedType { expected: expected@, got: value@.kind_name() }),
{
    Error::UnexpectedType { expected, got: value.kind() }
}

/// The byte that a number stands for as an element of a byte array: it
/// must be an integer between 0 and 255.
pub fn byte_of_number(n: &Number) -> (r: Result<u8, Error>)
    ensures
        match r {
            Ok(b) => spec::byte_of(Doc::Number(n@)) == Some(b),
            Err(e) => spec::byte_of(Doc::Number(n@)) is None && e@ == Failure::NotAByte,
        },
{
    match n.as_u64() {
        Some(v) => if v <= 255 {
            Ok(v as u8)
        } else {
            Err(Error::NotAByte)
        },
        None => Err(Error::NotAByte),
    }
}

/// The byte that an element of a byte array stands for.
pub fn byte_of(value: &Value) -> (r: Result<u8, Error>)
    ensures
        match r {
            Ok(b) => spec::byte_of(value@) == Some(b),
            Err(e) => spec::byte_of(value@) is None && e@ == Failure::NotAByte,
        },
{
    match value {
        Value::Number(n) => byte_of_number(n),
        _ => Err(Error::NotAByte),
    }
}

/// Appends the encoding of `value` against `ty` to `out`.
///
/// On failure `out` keeps what was appended before the failing node: there
/// is no rollback, and the caller discards the buffer or truncates it.
pub fn encode(layout: Layout, ty: &Ty, value: &Value, out: &mut Vec<u8>) -> (r: Result<(), Error>)
    ensures
        final(out)@ == old(out)@ + encoding(layout, ty@, value@).bytes,
        match r {
            Ok(()) => encoding(layout, ty@, value@).failure is None,
            Err(e) => encoding(layout, ty@, value@).failure == Some(e@),
        },
    decreases ty, 0nat,
{
    match ty {
        Ty::Bool => match value.as_bool() {
            Some(b) => put_flag(layout, out, b),
            None => Err(unexpected_type("a boolean", value)),
        },
        Ty::U64 => match value.as_u64() {
            Some(n) => put_uint(layout, out, n),
            None => Err(unexpected_type("a non-negative integer", value)),
        },
        Ty::I64 => match value.as_i64() {
            Some(i) => put_int(layout, out, i),
            None => Err(unexpected_type("an integer", value)),
        },
        Ty::F64 => match value.as_float_bits() {
            Some(bits) => {
                put_float(out, bits);
                Ok(())
            },
            None => Err(unexpected_type("a number", value)),
        },
        Ty::Bytes => match value.as_array() {
            Some(items) => encode_byte_array(layout, items, out),
            None => Err(unexpected_type("a byte array", value)),
        },
        Ty::String => match value.as_str() {
            Some(text) => put_text(layout, out, text),
            None => Err(unexpected_type("a string", value)),
        },
        Ty::Array { inner } => match value.as_array() {
            Some(items) => encode_array(layout, inner, items, out),
            None => Err(unexpected_type("an array", value)),
        },
        Ty::Struct { fields } => match value.as_object() {
            Some(object) => {
                proof {
                    Ty::lemma_struct_view(*fields);
                }
                encode_struct(layout, fields, object, out)
            },
            None => Err(unexpected_type("an object", value)),
        },
    }
}

/// Appends a byte array: the count, then one byte for each element.
#[verifier::loop_isolation(false)]
fn encode_byte_array(layout: Layout, items: &Vec<Value>, out: &mut Vec<u8>) -> (r: Result<
    (),
    Error,
>)
    ensures
        final(out)@ == old(out)@ + count_bytes(layout, items@.len()) + encode_bytes(
            docs_of(items@),
            items@.len(),
        ).bytes,
        match r {
            Ok(()) => encode_bytes(docs_of(items@), items@.len()).failure is None,
            Err(e) => encode_bytes(docs_of(items@), items@.len()).failure == Some(e@),
        },
{
    let ghost start = out@;
    let ghost docs = docs_of(items@);
    put_uint(layout, out, items.len() as u64)?;
    let ghost head = count_bytes(layout, docs.len());
    let mut i: usize = 0;
    while i < items.len()
        invariant
            i <= items@.len(),
            encode_bytes(docs, i as nat).failure is None,
            out@ == start + head + encode_bytes(docs, i as nat).bytes,
        decreases items@.len() - i,
    {
        match byte_of(&items[i]) {
            Ok(b) => {
                put_byte(layout, out, b)?;
            },
            Err(e) => {
                proof {
                    lemma_bytes_failure_stays(docs, (i + 1) as nat, docs.len());
                }
                return Err(e);
            },
        }
        i += 1;
    }
    Ok(())
}

/// Appends an array: the count, then each element against `inner`.
#[verifier::loop_isolation(false)]
fn encode_array(layout: Layout, inner: &Ty, items: &Vec<Value>, out: &mut Vec<u8>) -> (r: Result<
    (),
    Error,
>)
    ensures
        final(out)@ == old(out)@ + count_bytes(layout, items@.len()) + encode_items(
            layout,
            inner@,
            docs_of(items@),
            items@.len(),
        ).bytes,
        match r {
            Ok(()) => encode_items(layout, inner@, docs_of(items@), items@.len()).failure is None,
            Err(e) => encode_items(layout, inner@, docs_of(items@), items@.len()).failure == Some(
                e@,
            ),
        },
    decreases inner, 1nat,
{
    let ghost start = out@;
    let ghost docs = docs_of(items@);
    put_uint(layout, out, items.len() as u64)?;
    let ghost head = count_bytes(layout, docs.len());
    let mut i: usize = 0;
    while i < items.len()
        invariant
            i <= items@.len(),
            encode_items(layout, inner@, docs, i as nat).failure is None,
            out@ == start + head + encode_items(layout, inner@, docs, i as nat).bytes,
        decreases items@.len() - i,
    {
        match encode(layout, inner, &items[i], out) {
            Ok(()) => {
                assert(out@ =~= start + head + encode_items(
                    layout,
                    inner@,
                    docs,
                    (i + 1) as nat,
                ).bytes);
            },
            Err(e) => {
                proof {
                    lemma_items_failure_stays(layout, inner@, docs, (i + 1) as nat, docs.len());
                }
                assert(out@ =~= start + head + encode_items(
                    layout,
                    inner@,
                    docs,
                    (i + 1) as nat,
                ).bytes);
                return Err(e);
            },
        }
        i += 1;
    }
    Ok(())
}

/// Whether `name` is the name of one of `fields`.
pub fn has_field(fields: &Vec<Field>, name: &str) -> (r: bool)
    ensures
        r == field_names(fields_of(fields@)).contains(name@),
{
    let ghost names = keys_of(fields_of(fields@));
    let mut i: usize = 0;
    while i < fields.len()
        invariant
            i <= fields@.len(),
            names == keys_of(fields_of(fields@)),
            forall|j: int| 0 <= j < i ==> names[j] != name@,
        decreases fields@.len() - i,
    {
        if str_eq(fields[i].name.as_str(), name) {
            assert(names[i as int] == name@);
            return true;
        }
        i += 1;
    }
    false
}

/// Whether every key of `object` is the name of one of `fields`.
fn keys_are_fields(fields: &Vec<Field>, object: &Object) -> (r: bool)
    ensures
        r == object@.dom().subset_of(field_names(fields_of(fields@))),
{
    let count = object.len();
    let mut i: usize = 0;
    while i < count
        invariant
            i <= count,
            count == object.keys().len(),
            forall|k: Seq<char>| #[trigger] object@.contains_key(k) <==> object.keys().contains(k),
            forall|j: int|
                0 <= j < i ==> field_names(fields_of(fields@)).contains(#[trigger] object.keys()[j]),
        decreases count - i,
    {
        match object.entry(i) {
            Some((key, _)) => {
                if !has_field(fields, key.as_str()) {
                    return false;
                }
            },
            None => {},
        }
        i += 1;
    }
    assert forall|k: Seq<char>| object@.dom().contains(k) implies field_names(
        fields_of(fields@),
    ).contains(k) by {
        assert(object@.contains_key(k));
        let j = choose|j: int| 0 <= j < object.keys().len() && object.keys()[j] == k;
        assert(field_names(fields_of(fields@)).contains(object.keys()[j]));
    }
    true
}

/// The value of each field in `object`, in schema order, if `object` has
/// exactly the keys that the struct node asks for.
fn members_in_order<'a>(fields: &Vec<Field>, object: &'a Object) -> (r: Option<Vec<&'a Value>>)
    ensures
        match r {
            Some(values) => keys_match(fields_of(fields@), object@) && values@.len() == fields@.len()
                && forall|j: int|
                0 <= j < fields@.len() ==> (#[trigger] values@[j])@ == object@[fields@[j].name@],
            None => !keys_match(fields_of(fields@), object@),
        },
{
    let ghost shape = fields_of(fields@);
    if fields.len() != object.len() {
        return None;
    }
    let mut values: Vec<&'a Value> = Vec::new();
    let mut i: usize = 0;
    while i < fields.len()
        invariant
            i <= fields@.len(),
            shape == fields_of(fields@),
            values@.len() == i,
            forall|j: int| 0 <= j < i ==> object@.contains_key(#[trigger] keys_of(shape)[j]),
            forall|j: int|
                0 <= j < i ==> (#[trigger] values@[j])@ == object@[fields@[j].name@],
        decreases fields@.len() - i,
    {
        assert(keys_of(shape)[i as int] == fields@[i as int].name@);
        match object.get(fields[i].name.as_str()) {
            Some(value) => {
                values.push(value);
            },
            None => {
                assert(field_names(shape).contains(keys_of(shape)[i as int]));
                return None;
            },
        }
        i += 1;
    }
    if !keys_are_fields(fields, object) {
        return None;
    }
    assert(object@.dom() =~= field_names(shape)) by {
        assert forall|k: Seq<char>| field_names(shape).contains(k) implies object@.dom().contains(
            k,
        ) by {
            let j = choose|j: int| 0 <= j < keys_of(shape).len() && keys_of(shape)[j] == k;
            assert(object@.contains_key(keys_of(shape)[j]));
        }
    }
    Some(values)
}

/// Appends a struct. The object must have exactly the keys that the node
/// asks for, which is tested before anything is written; then each field's
/// value is appended in schema order.
#[verifier::loop_isolation(false)]
fn encode_struct(layout: Layout, fields: &Vec<Field>, object: &Object, out: &mut Vec<u8>) -> (r:
    Result<(), Error>)
    ensures
        final(out)@ == old(out)@ + encoding(
            layout,
            Schema::Struct(fields_of(fields@)),
            Doc::Object(object@),
        ).bytes,
        match r {
            Ok(()) => encoding(
                layout,
                Schema::Struct(fields_of(fields@)),
                Doc::Object(object@),
            ).failure is None,
            Err(e) => encoding(
                layout,
                Schema::Struct(fields_of(fields@)),
                Doc::Object(object@),
            ).failure == Some(e@),
        },
    decreases fields, 1nat,
{
    let ghost start = out@;
    let ghost shape = fields_of(fields@);
    let ghost members = object@;
    let values = match members_in_order(fields, object) {
        Some(values) => values,
        None => {
            assert(out@ =~= start + Seq::empty());
            return Err(field_mismatch(fields, object));
        },
    };
    assert(out@ =~= start + encode_fields(layout, shape, members, 0).bytes);
    let mut i: usize = 0;
    while i < fields.len()
        invariant
            i <= fields@.len(),
            encode_fields(layout, shape, members, i as nat).failure is None,
            out@ == start + encode_fields(layout, shape, members, i as nat).bytes,
        decreases fields@.len() - i,
    {
        let field = &fields[i];
        assert(shape[i as int] == (field.name@, field.ty@));
        match encode(layout, &field.ty, values[i], out) {
            Ok(()) => {
                assert(out@ =~= start + encode_fields(layout, shape, members, (i + 1) as nat).bytes);
            },
            Err(e) => {
                proof {
                    lemma_fields_failure_stays(layout, shape, members, (i + 1) as nat, shape.len());
                }
                assert(out@ =~= start + encode_fields(layout, shape, members, (i + 1) as nat).bytes);
                return Err(e);
            },
        }
        i += 1;
    }
    Ok(())
}

/// Once the elements of a byte array have failed, more elements change
/// nothing.
pub proof fn lemma_bytes_failure_stays(items: Seq<Doc>, k: nat, n: nat)
    requires
        encode_bytes(items, k).failure is Some,
        k <= n <= items.len(),
    ensures
        encode_bytes(items, n) == encode_bytes(items, k),
    decreases n,
{
    if k < n {
        lemma_bytes_failure_stays(items, k, (n - 1) as nat);
    }
}

/// Once the elements of an array have failed, more elements change nothing.
pub proof fn lemma_items_failure_stays(
    layout: Layout,
    inner: Schema,
    items: Seq<Doc>,
    k: nat,
    n: nat,
)
    requires
        encode_items(layout, inner, items, k).failure is Some,
        k <= n <= items.len(),
    ensures
        encode_items(layout, inner, items, n) == encode_items(layout, inner, items, k),
    decreases n,
{
    if k < n {
        lemma_items_failure_stays(layout, inner, items, k, (n - 1) as nat);
    }
}

/// Once the fields of a struct have failed, more fields change nothing.
pub proof fn lemma_fields_failure_stays(
    layout: Layout,
    fields: Seq<(Seq<char>, Schema)>,
    members: Map<Seq<char>, Doc>,
    k: nat,
    n: nat,
)
    requires
        encode_fields(layout, fields, members, k).failure is Some,
        k <= n <= fields.len(),
    ensures
        encode_fields(layout, fields, members, n) == encode_fields(layout, fields, members, k),
    decreases n,
{
    if k < n {
        lemma_fields_failure_stays(layout, fields, members, k, (n - 1) as nat);
    }
}

/// The keys of an object, as a set.
pub fn key_set(object: &Object) -> (r: NameSet)
    ensures
        r@ == object@.dom(),
{
    let count = object.len();
    let mut got = NameSet::new();
    let mut i: usize = 0;
    while i < count
        invariant
            i <= count,
            count == object.keys().len(),
            forall|k: Seq<char>| #[trigger] object@.contains_key(k) <==> object.keys().contains(k),
            forall|k: Seq<char>|
                got@.contains(k) <==> exists|j: int| 0 <= j < i && object.keys()[j] == k,
        decreases count - i,
    {
        match object.entry(i) {
            Some((key, _)) => {
                got.insert(key.clone());
            },
            None => {},
        }
        i += 1;
    }
    got
}

/// The error for an object whose keys are not the fields of a struct node:
/// both counts, both name sets, the fields without a key and the keys
/// without a field.
pub fn field_mismatch(fields: &Vec<Field>, object: &Object) -> (e: Error)
    ensures
        e@ == spec::field_mismatch(fields_of(fields@), object@),
{
    let got = key_set(object);
    field_mismatch_of(fields, &got)
}

/// The error for keys, `got`, that are not the fields of a struct node.
pub fn field_mismatch_of(fields: &Vec<Field>, got: &NameSet) -> (e: Error)
    ensures
        e@ == spec::field_mismatch_with(fields_of(fields@), got@),
{
    let ghost shape = fields_of(fields@);
    let ghost names = keys_of(shape);
    let mut expected = NameSet::new();
    let mut missing = NameSet::new();
    let mut i: usize = 0;
    while i < fields.len()
        invariant
            i <= fields@.len(),
            shape == fields_of(fields@),
            names == keys_of(shape),
            forall|k: Seq<char>|
                expected@.contains(k) <==> exists|j: int| 0 <= j < i && names[j] == k,
            forall|k: Seq<char>|
                missing@.contains(k) <==> !got@.contains(k) && exists|j: int|
                    0 <= j < i && names[j] == k,
        decreases fields@.len() - i,
    {
        let name = &fields[i].name;
        assert(names[i as int] == name@);
        expected.insert(name.clone());
        if !got.contains(name.as_str()) {
            missing.insert(name.clone());
        }
        i += 1;
    }
    let count = got.len();
    let mut same = NameSet::new();
    let mut extra = NameSet::new();
    let mut i: usize = 0;
    while i < count
        invariant
            i <= count,
            count == got.seq().len(),
            forall|k: Seq<char>| #[trigger] got@.contains(k) <==> got.seq().contains(k),
            forall|k: Seq<char>|
                same@.contains(k) <==> exists|j: int| 0 <= j < i && got.seq()[j] == k,
            forall|k: Seq<char>|
                extra@.contains(k) <==> !expected@.contains(k) && exists|j: int|
                    0 <= j < i && got.seq()[j] == k,
        decreases count - i,
    {
        match got.name(i) {
            Some(name) => {
                same.insert(name.clone());
                if !expected.contains(name.as_str()) {
                    extra.insert(name.clone());
                }
            },
            None => {},
        }
        i += 1;
    }
    proof {
        assert(expected@ =~= field_names(shape));
        assert(same@ =~= got@);
        assert(missing@ =~= field_names(shape).difference(got@));
        assert(extra@ =~= got@.difference(field_names(shape)));
    }
    Error::FieldMismatch {
        expected_len: fields.len(),
        expected,
        got_len: count,
        got: same,
        missing,
        extra,
    }
}

} // verus!
