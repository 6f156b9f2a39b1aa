//! What holds of encoding and decoding together.

use crate::assoc::keys_of;
use crate::codec::spec::{
    byte_docs, byte_of, decode_fields, decode_items, decoding, encode_bytes, encode_fields,
    encode_items, encoding, failed, field_mismatch, field_names, keys_match,
};
use crate::error::Failure;
use crate::layout::{
    count_bytes, lemma_blob_round_trip, lemma_bool_round_trip, lemma_float_round_trip,
    lemma_int_round_trip, lemma_text_round_trip, lemma_uint_round_trip, skip, Layout,
};
use crate::ty::Schema;
use crate::value::Doc;
use vstd::prelude::*;
use vstd::utf8::encode_utf8;

verus! {

/// Whether a document structurally matches a schema node: it has the kind
/// that the node asks for, in the form that decoding gives back.
///
/// An unsigned integer is a non-negative one; a signed integer fits in 64
/// bits; a float is a finite float, not an integer; the elements of a byte
/// array are integers up to 255; the keys of an object are exactly the
/// names of the struct's fields, which are distinct. Lengths fit the
/// machine's word.
pub open spec fn conforms(ty: Schema, doc: Doc) -> bool
    decreases ty,
{
    match ty {
        Schema::Bool => doc is Bool,
        Schema::U64 => doc matches Doc::Number(n) && n is PosInt,
        Schema::I64 => doc matches Doc::Number(n) && n.wf() && n.as_i64() is Some,
        Schema::F64 => doc matches Doc::Number(n) && n is Float && n.wf(),
        Schema::Bytes => doc matches Doc::Array(items) && items.len() <= usize::MAX && forall|
            i: int,
        | 0 <= i < items.len() ==> byte_of(#[trigger] items[i]) is Some,
        Schema::String => doc matches Doc::String(text) && encode_utf8(text).len() <= usize::MAX,
        Schema::Array(inner) => doc matches Doc::Array(items) && items.len() <= usize::MAX
            && forall|i: int| 0 <= i < items.len() ==> conforms(*inner, #[trigger] items[i]),
        Schema::Struct(fields) => doc matches Doc::Object(members) && keys_of(
            fields,
        ).no_duplicates() && members.dom() == field_names(fields) && forall|i: int|
            0 <= i < fields.len() ==> conforms((#[trigger] fields[i]).1, members[fields[i].0]),
    }
}

/// The mapping from the names of the first `k` fields to their values in
/// `members`.
pub open spec fn first_fields(
    fields: Seq<(Seq<char>, Schema)>,
    members: Map<Seq<char>, Doc>,
    k: nat,
) -> Map<Seq<char>, Doc>
    decreases k,
{
    if k == 0 || k > fields.len() {
        Map::empty()
    } else {
        first_fields(fields, members, (k - 1) as nat).insert(
            fields[k - 1].0,
            members[fields[k - 1].0],
        )
    }
}

/// `first_fields` holds the first `k` names, each with its value in
/// `members`.
pub proof fn lemma_first_fields(
    fields: Seq<(Seq<char>, Schema)>,
    members: Map<Seq<char>, Doc>,
    k: nat,
)
    requires
        k <= fields.len(),
    ensures
        forall|key: Seq<char>| #[trigger]
            first_fields(fields, members, k).contains_key(key) <==> exists|j: int|
                0 <= j < k && keys_of(fields)[j] == key,
        forall|key: Seq<char>| #[trigger]
            first_fields(fields, members, k).contains_key(key) ==> first_fields(
                fields,
                members,
                k,
            )[key] == members[key],
    decreases k,
{
    if k > 0 {
        lemma_first_fields(fields, members, (k - 1) as nat);
        let prev = first_fields(fields, members, (k - 1) as nat);
        assert forall|key: Seq<char>| #[trigger]
            first_fields(fields, members, k).contains_key(key) <==> exists|j: int|
                0 <= j < k && keys_of(fields)[j] == key by {
            if key == fields[k - 1].0 {
                assert(keys_of(fields)[k - 1] == key);
            } else if prev.contains_key(key) {
                let j = choose|j: int| 0 <= j < k - 1 && keys_of(fields)[j] == key;
                assert(0 <= j < k && keys_of(fields)[j] == key);
            }
            if exists|j: int| 0 <= j < k && keys_of(fields)[j] == key {
                let j = choose|j: int| 0 <= j < k && keys_of(fields)[j] == key;
                if j < k - 1 {
                    assert(prev.contains_key(key));
                }
            }
        }
    }
}

/// The elements of a conforming byte array are written one byte each.
pub proof fn lemma_bytes_written(items: Seq<Doc>, k: nat)
    requires
        k <= items.len(),
        forall|i: int| 0 <= i < items.len() ==> byte_of(#[trigger] items[i]) is Some,
    ensures
        encode_bytes(items, k).failure is None,
        encode_bytes(items, k).bytes.len() == k,
        forall|j: int|
            0 <= j < k ==> Some(#[trigger] encode_bytes(items, k).bytes[j]) == byte_of(items[j]),
    decreases k,
{
    if k > 0 {
        lemma_bytes_written(items, (k - 1) as nat);
    }
}

/// The first `k` elements of a conforming array are written without
/// failure and read back as they were.
pub proof fn lemma_items_round_trip(
    layout: Layout,
    inner: Schema,
    items: Seq<Doc>,
    k: nat,
    rest: Seq<u8>,
)
    requires
        k <= items.len(),
        forall|i: int| 0 <= i < items.len() ==> conforms(inner, #[trigger] items[i]),
    ensures
        encode_items(layout, inner, items, k).failure is None,
        decode_items(layout, inner, encode_items(layout, inner, items, k).bytes + rest, k) == Some(
            (items.take(k as int), encode_items(layout, inner, items, k).bytes.len()),
        ),
    decreases inner, k,
{
    let now = encode_items(layout, inner, items, k);
    if k > 0 {
        let prev = encode_items(layout, inner, items, (k - 1) as nat);
        let item = encoding(layout, inner, items[k - 1]);
        lemma_items_round_trip(layout, inner, items, (k - 1) as nat, item.bytes + rest);
        lemma_round_trip_prefix(layout, inner, items[k - 1], rest);
        let s = now.bytes + rest;
        assert(s =~= prev.bytes + (item.bytes + rest));
        assert(skip(s, prev.bytes.len()) =~= item.bytes + rest);
    }
}

/// The first `k` fields of a conforming object are written without failure
/// and read back as they were.
pub proof fn lemma_fields_round_trip(
    layout: Layout,
    fields: Seq<(Seq<char>, Schema)>,
    members: Map<Seq<char>, Doc>,
    k: nat,
    rest: Seq<u8>,
)
    requires
        k <= fields.len(),
        members.dom() == field_names(fields),
        forall|i: int|
            0 <= i < fields.len() ==> conforms((#[trigger] fields[i]).1, members[fields[i].0]),
    ensures
        encode_fields(layout, fields, members, k).failure is None,
        decode_fields(
            layout,
            fields,
            encode_fields(layout, fields, members, k).bytes + rest,
            k,
        ) == Some(
            (
                first_fields(fields, members, k),
                encode_fields(layout, fields, members, k).bytes.len(),
            ),
        ),
    decreases fields, k,
{
    let now = encode_fields(layout, fields, members, k);
    if k > 0 {
        let prev = encode_fields(layout, fields, members, (k - 1) as nat);
        let name = fields[k - 1].0;
        assert(keys_of(fields)[k - 1] == name);
        let item = encoding(layout, fields[k - 1].1, members[name]);
        lemma_fields_round_trip(layout, fields, members, (k - 1) as nat, item.bytes + rest);
        lemma_round_trip_prefix(layout, fields[k - 1].1, members[name], rest);
        let s = now.bytes + rest;
        assert(s =~= prev.bytes + (item.bytes + rest));
        assert(skip(s, prev.bytes.len()) =~= item.bytes + rest);
    }
}

/// A conforming document is written without failure, and read back from
/// the front of its bytes, whatever follows them, it is the same document.
pub proof fn lemma_round_trip_prefix(layout: Layout, ty: Schema, doc: Doc, rest: Seq<u8>)
    requires
        conforms(ty, doc),
    ensures
        encoding(layout, ty, doc).failure is None,
        decoding(layout, ty, encoding(layout, ty, doc).bytes + rest) == Some(
            (doc, encoding(layout, ty, doc).bytes.len()),
        ),
    decreases ty, 0nat,
{
    let out = encoding(layout, ty, doc);
    let s = out.bytes + rest;
    match ty {
        Schema::Bool => {
            lemma_bool_round_trip(doc->Bool_0, rest);
        },
        Schema::U64 => {
            lemma_uint_round_trip(layout, doc.as_u64()->Some_0, rest);
        },
        Schema::I64 => {
            let n = doc->Number_0;
            let i = n.as_i64()->Some_0;
            lemma_int_round_trip(layout, i, rest);
        },
        Schema::F64 => {
            lemma_float_round_trip(doc.as_float_bits()->Some_0, rest);
        },
        Schema::Bytes => {
            let items = doc->Array_0;
            let body = encode_bytes(items, items.len());
            lemma_bytes_written(items, items.len());
            lemma_blob_round_trip(layout, body.bytes, rest);
            assert(byte_docs(body.bytes) =~= items);
        },
        Schema::String => {
            lemma_text_round_trip(layout, doc->String_0, rest);
        },
        Schema::Array(inner) => {
            let items = doc->Array_0;
            let head = count_bytes(layout, items.len());
            let body = encode_items(layout, *inner, items, items.len());
            lemma_uint_round_trip(layout, items.len() as u64, body.bytes + rest);
            lemma_items_round_trip(layout, *inner, items, items.len(), rest);
            assert(s =~= head + (body.bytes + rest));
            assert(skip(s, head.len()) =~= body.bytes + rest);
            assert(items.take(items.len() as int) =~= items);
        },
        Schema::Struct(fields) => {
            let members = doc->Object_0;
            keys_of(fields).unique_seq_to_set();
            lemma_fields_round_trip(layout, fields, members, fields.len(), rest);
            lemma_first_fields(fields, members, fields.len());
            let back = first_fields(fields, members, fields.len());
            assert forall|key: Seq<char>| back.contains_key(key) <==> members.contains_key(
                key,
            ) by {
                if members.contains_key(key) {
                    let j = choose|j: int| 0 <= j < keys_of(fields).len() && keys_of(fields)[j]
                        == key;
                }
                if back.contains_key(key) {
                    let j = choose|j: int| 0 <= j < fields.len() && keys_of(fields)[j] == key;
                }
            }
            assert(back =~= members);
        },
    }
}

/// Round-trip identity: a document that structurally matches its schema is
/// encoded without failure, and decoding its bytes gives the document back
/// and takes all of them. This holds in both layouts.
pub proof fn lemma_round_trip(layout: Layout, ty: Schema, doc: Doc)
    requires
        conforms(ty, doc),
    ensures
        encoding(layout, ty, doc).failure is None,
        decoding(layout, ty, encoding(layout, ty, doc).bytes) == Some(
            (doc, encoding(layout, ty, doc).bytes.len()),
        ),
{
    lemma_round_trip_prefix(layout, ty, doc, Seq::empty());
    assert(encoding(layout, ty, doc).bytes + Seq::<u8>::empty() =~= encoding(
        layout,
        ty,
        doc,
    ).bytes);
}

/// Cross-backend equivalence: a document that structurally matches its
/// schema is encoded by the variable-length and by the flat layout, and
/// each layout's bytes decode, in that layout, to the document itself. The
/// two buffers may differ in length and content.
pub proof fn lemma_cross_backend(ty: Schema, doc: Doc)
    requires
        conforms(ty, doc),
    ensures
        encoding(Layout::Varint, ty, doc).failure is None,
        encoding(Layout::Flat, ty, doc).failure is None,
        decoding(Layout::Varint, ty, encoding(Layout::Varint, ty, doc).bytes) == Some(
            (doc, encoding(Layout::Varint, ty, doc).bytes.len()),
        ),
        decoding(Layout::Flat, ty, encoding(Layout::Flat, ty, doc).bytes) == Some(
            (doc, encoding(Layout::Flat, ty, doc).bytes.len()),
        ),
{
    lemma_round_trip(Layout::Varint, ty, doc);
    lemma_round_trip(Layout::Flat, ty, doc);
}

/// The first `k` elements of an array fail alike in any two layouts.
pub proof fn lemma_items_fail_alike(a: Layout, b: Layout, inner: Schema, items: Seq<Doc>, k: nat)
    ensures
        encode_items(a, inner, items, k).failure == encode_items(b, inner, items, k).failure,
    decreases inner, k,
{
    if k > 0 && k <= items.len() {
        lemma_items_fail_alike(a, b, inner, items, (k - 1) as nat);
        lemma_fails_alike(a, b, inner, items[k - 1]);
    }
}

/// The first `k` fields of a struct fail alike in any two layouts.
pub proof fn lemma_fields_fail_alike(
    a: Layout,
    b: Layout,
    fields: Seq<(Seq<char>, Schema)>,
    members: Map<Seq<char>, Doc>,
    k: nat,
)
    ensures
        encode_fields(a, fields, members, k).failure == encode_fields(
            b,
            fields,
            members,
            k,
        ).failure,
    decreases fields, k,
{
    if k > 0 && k <= fields.len() {
        lemma_fields_fail_alike(a, b, fields, members, (k - 1) as nat);
        lemma_fails_alike(a, b, fields[k - 1].1, members[fields[k - 1].0]);
    }
}

/// Validation does not depend on the layout: whether an encode fails, and
/// with which error, is the same for every backend.
pub proof fn lemma_fails_alike(a: Layout, b: Layout, ty: Schema, doc: Doc)
    ensures
        encoding(a, ty, doc).failure == encoding(b, ty, doc).failure,
    decreases ty, 0nat,
{
    match ty {
        Schema::Array(inner) => {
            if let Doc::Array(items) = doc {
                lemma_items_fail_alike(a, b, *inner, items, items.len());
            }
        },
        Schema::Struct(fields) => {
            if let Doc::Object(members) = doc {
                lemma_fields_fail_alike(a, b, fields, members, fields.len());
            }
        },
        _ => {},
    }
}

/// Byte validation: a byte array with an element that is not an integer
/// between 0 and 255 fails as not a byte, in every layout, and not as a
/// value of the wrong kind.
pub proof fn lemma_not_a_byte(layout: Layout, items: Seq<Doc>, i: int)
    requires
        0 <= i < items.len(),
        byte_of(items[i]) is None,
    ensures
        encoding(layout, Schema::Bytes, Doc::Array(items)).failure == Some(
            Failure::NotAByte,
        ),
{
    lemma_bytes_fail(items, items.len());
}

/// The elements of a byte array fail only as not a byte, and they fail
/// where one of them is no byte.
pub proof fn lemma_bytes_fail(items: Seq<Doc>, k: nat)
    requires
        k <= items.len(),
    ensures
        encode_bytes(items, k).failure is None || encode_bytes(items, k).failure == Some(
            Failure::NotAByte,
        ),
        encode_bytes(items, k).failure is None <==> forall|j: int|
            0 <= j < k ==> byte_of(#[trigger] items[j]) is Some,
    decreases k,
{
    if k > 0 {
        lemma_bytes_fail(items, (k - 1) as nat);
    }
}

/// Field-set equality: for a struct node with distinct field names, an
/// object has exactly the keys that the node asks for when its keys are the
/// node's field names; that the numbers agree follows.
pub proof fn lemma_field_check_is_set_equality(
    fields: Seq<(Seq<char>, Schema)>,
    members: Map<Seq<char>, Doc>,
)
    requires
        keys_of(fields).no_duplicates(),
    ensures
        keys_match(fields, members) <==> members.dom() == field_names(fields),
{
    keys_of(fields).unique_seq_to_set();
}

/// Field mismatch reporting: an object whose keys are not exactly the names
/// of the struct's fields, or are not as many as the fields, fails at the
/// struct node with the field mismatch that names every missing and every
/// extra key. Nothing is written, no field is looked into, and the values
/// under the keys do not matter. This holds in every layout.
pub proof fn lemma_field_mismatch_reported(
    layout: Layout,
    fields: Seq<(Seq<char>, Schema)>,
    members: Map<Seq<char>, Doc>,
)
    requires
        members.dom() != field_names(fields) || fields.len() != members.len(),
    ensures
        encoding(layout, Schema::Struct(fields), Doc::Object(members)) == failed(
            field_mismatch(fields, members),
        ),
        field_mismatch(fields, members) == (Failure::FieldMismatch {
            expected_len: fields.len(),
            expected: field_names(fields),
            got_len: members.len(),
            got: members.dom(),
            missing: field_names(fields).difference(members.dom()),
            extra: members.dom().difference(field_names(fields)),
        }),
{
}

} // verus!
