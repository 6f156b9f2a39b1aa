//! Decoding a document value from bytes, as a schema asks.

use crate::codec::order::{first_names, in_schema_order, last_of_its_name};
use crate::codec::spec::{byte_docs, decode_fields, decode_items, decoding};
use crate::error::{Error, Failure};
use crate::layout::{
    skip, take_blob, take_count, take_flag, take_float, take_int, take_text, take_uint, Layout,
};
use crate::ty::{fields_of, Field, Schema, Ty};
use crate::value::{docs_of, Doc, Number, Object, Value};
use vstd::prelude::*;

verus! {

/// Reads a value at `pos` of `input` as `ty` asks: the value and the
/// position after it. Fails with `Serialization` where the bytes end early
/// or are not what the schema asks for. The members of every object that is
/// read stand in schema order.
pub(crate) fn decode(layout: Layout, ty: &Ty, input: &[u8], pos: usize) -> (r: Result<
    (Value, usize),
    Error,
>)
    requires
        pos <= input@.len(),
    ensures
        match decoding(layout, ty@, skip(input@, pos as nat)) {
            Some((doc, used)) => r matches Ok((value, next)) && value@ == doc && next == pos + used
                && next <= input@.len(),
            None => r matches Err(e) && e@ == Failure::Serialization,
        },
        r matches Ok((value, _)) ==> in_schema_order(ty@, value),
    decreases ty, 0nat,
{
    match ty {
        Ty::Bool => {
            let (b, next) = take_flag(layout, input, pos)?;
            Ok((Value::Bool(b), next))
        },
        Ty::U64 => {
            let (n, next) = take_uint(layout, input, pos)?;
            Ok((Value::Number(Number::from_u64(n)), next))
        },
        Ty::I64 => {
            let (i, next) = take_int(layout, input, pos)?;
            Ok((Value::Number(Number::from_i64(i)), next))
        },
        Ty::F64 => {
            let (bits, next) = take_float(input, pos)?;
            match Number::from_float_bits(bits) {
                Some(n) => Ok((Value::Number(n), next)),
                None => Ok((Value::Null, next)),
            }
        },
        Ty::Bytes => {
            let (payload, next) = take_blob(layout, input, pos)?;
            Ok((byte_array(payload), next))
        },
        Ty::String => {
            let (text, next) = take_text(layout, input, pos)?;
            Ok((Value::String(text), next))
        },
        Ty::Array { inner } => decode_array(layout, inner, input, pos),
        Ty::Struct { fields } => {
            proof {
                Ty::lemma_struct_view(*fields);
            }
            decode_struct(layout, fields, input, pos)
        },
    }
}

/// The array of small integers that a run of bytes stands for.
pub fn byte_array(payload: &[u8]) -> (r: Value)
    ensures
        r@ == Doc::Array(byte_docs(payload@)),
{
    let mut items: Vec<Value> = Vec::new();
    let mut i: usize = 0;
    while i < payload.len()
        invariant
            i <= payload@.len(),
            items@.len() == i,
            forall|j: int| 0 <= j < i ==> (#[trigger] items@[j])@ == byte_docs(payload@)[j],
        decreases payload@.len() - i,
    {
        items.push(Value::Number(Number::from_u64(payload[i] as u64)));
        i += 1;
    }
    proof {
        Value::lemma_array_view(items);
        assert(docs_of(items@) =~= byte_docs(payload@));
    }
    Value::Array(items)
}

/// Once the elements of an array cannot be read, asking for more of them
/// changes nothing.
pub proof fn lemma_items_none_stays(layout: Layout, inner: Schema, s: Seq<u8>, k: nat, n: nat)
    requires
        decode_items(layout, inner, s, k) is None,
        k <= n,
    ensures
        decode_items(layout, inner, s, n) is None,
    decreases n,
{
    if k < n {
        lemma_items_none_stays(layout, inner, s, k, (n - 1) as nat);
    }
}

/// Once the fields of a struct cannot be read, asking for more of them
/// changes nothing.
pub proof fn lemma_fields_none_stays(
    layout: Layout,
    fields: Seq<(Seq<char>, Schema)>,
    s: Seq<u8>,
    k: nat,
    n: nat,
)
    requires
        decode_fields(layout, fields, s, k) is None,
        k <= n <= fields.len(),
    ensures
        decode_fields(layout, fields, s, n) is None,
    decreases n,
{
    if k < n {
        lemma_fields_none_stays(layout, fields, s, k, (n - 1) as nat);
    }
}

/// Reads an array at `pos`: the count, then that many elements.
#[verifier::loop_isolation(false)]
fn decode_array(layout: Layout, inner: &Ty, input: &[u8], pos: usize) -> (r: Result<
    (Value, usize),
    Error,
>)
    requires
        pos <= input@.len(),
    ensures
        match decoding(layout, Schema::Array(Box::new(inner@)), skip(input@, pos as nat)) {
            Some((doc, used)) => r matches Ok((value, next)) && value@ == doc && next == pos + used
                && next <= input@.len(),
            None => r matches Err(e) && e@ == Failure::Serialization,
        },
        r matches Ok((value, _)) ==> in_schema_order(Schema::Array(Box::new(inner@)), value),
    decreases inner, 1nat,
{
    let (n, start) = take_count(layout, input, pos)?;
    let ghost body = skip(input@, start as nat);
    assert(body =~= skip(skip(input@, pos as nat), (start - pos) as nat));
    let mut items: Vec<Value> = Vec::new();
    let mut at = start;
    let mut i: usize = 0;
    while i < n
        invariant
            i <= n,
            start <= at <= input@.len(),
            decode_items(layout, inner@, body, i as nat) == Some(
                (docs_of(items@), (at - start) as nat),
            ),
            forall|j: int| 0 <= j < items@.len() ==> in_schema_order(inner@, #[trigger] items@[j]),
        decreases n - i,
    {
        assert(skip(input@, at as nat) =~= skip(body, (at - start) as nat));
        match decode(layout, inner, input, at) {
            Ok((item, next)) => {
                items.push(item);
                at = next;
            },
            Err(e) => {
                proof {
                    lemma_items_none_stays(layout, inner@, body, (i + 1) as nat, n as nat);
                }
                return Err(e);
            },
        }
        i += 1;
    }
    proof {
        Value::lemma_array_view(items);
    }
    Ok((Value::Array(items), at))
}

/// Reads a struct at `pos`: each field in schema order, kept under its
/// name.
#[verifier::loop_isolation(false)]
fn decode_struct(layout: Layout, fields: &Vec<Field>, input: &[u8], pos: usize) -> (r: Result<
    (Value, usize),
    Error,
>)
    requires
        pos <= input@.len(),
    ensures
        match decoding(layout, Schema::Struct(fields_of(fields@)), skip(input@, pos as nat)) {
            Some((doc, used)) => r matches Ok((value, next)) && value@ == doc && next == pos + used
                && next <= input@.len(),
            None => r matches Err(e) && e@ == Failure::Serialization,
        },
        r matches Ok((value, _)) ==> in_schema_order(Schema::Struct(fields_of(fields@)), value),
    decreases fields, 1nat,
{
    let ghost shape = fields_of(fields@);
    let ghost body = skip(input@, pos as nat);
    let mut object = Object::new();
    let mut at = pos;
    let mut i: usize = 0;
    while i < fields.len()
        invariant
            i <= fields@.len(),
            pos <= at <= input@.len(),
            decode_fields(layout, shape, body, i as nat) == Some((object@, (at - pos) as nat)),
            object.keys() == first_names(shape, i as nat),
            forall|j: int| 0 <= j < i ==> object@.contains_key((#[trigger] shape[j]).0),
            forall|j: int|
                0 <= j < i && last_of_its_name(shape, j, i as nat) ==> in_schema_order(
                    (#[trigger] shape[j]).1,
                    object.value_of(shape[j].0),
                ),
        decreases fields@.len() - i,
    {
        let field = &fields[i];
        assert(shape[i as int] == (field.name@, field.ty@));
        assert(skip(input@, at as nat) =~= skip(body, (at - pos) as nat));
        match decode(layout, &field.ty, input, at) {
            Ok((value, next)) => {
                let ghost before = object;
                object.insert(field.name.clone(), value);
                at = next;
                assert forall|j: int|
                    0 <= j < i + 1 && last_of_its_name(
                        shape,
                        j,
                        (i + 1) as nat,
                    ) implies in_schema_order((#[trigger] shape[j]).1, object.value_of(shape[j].0)) by {
                    if j < i {
                        assert(shape[i as int].0 != shape[j].0);
                        assert(last_of_its_name(shape, j, i as nat));
                        assert(before@.contains_key(shape[j].0));
                        assert(object.value_of(shape[j].0) == before.value_of(shape[j].0));
                    }
                }
            },
            Err(e) => {
                proof {
                    lemma_fields_none_stays(layout, shape, body, (i + 1) as nat, shape.len());
                }
                return Err(e);
            },
        }
        i += 1;
    }
    Ok((Value::Object(object), at))
}

} // verus!
