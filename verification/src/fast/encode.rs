//! Encoding a structured stream into a flat buffer. The stream is walked
//! against the schema and written as it is read; no document value is
//! built.

use crate::assoc::{keys_of, lemma_skip_step, map_of};
use crate::codec::encode::{
    byte_of_number, field_mismatch_of, has_field, lemma_bytes_failure_stays,
    lemma_fields_failure_stays, lemma_items_failure_stays,
};
use crate::codec::spec::{
    encode_bytes, encode_fields, encode_items, encoding, field_names, keys_match,
};
use crate::error::{Error, Failure};
use crate::fast::token::{
    document_of, items_at, lemma_items_end, lemma_members_end, lemma_value_end, members_at,
    skip_value, toks, value_at, Token,
};
use crate::flatbin::buf::Builder;
use crate::layout::{
    count_bytes, patch_count, put_byte, put_flag, put_float, put_int, put_text, put_uint,
    reserve_count, Layout,
};
use crate::names::NameSet;
use crate::text::str_eq;
use crate::ty::{fields_of, Field, Schema, Ty};
use crate::value::Doc;
use vstd::prelude::*;

verus! {

/// What streaming a value leaves behind: where the reference codec encodes
/// the value, the position after it and the same bytes; where it fails, the
/// same error, with the buffer's old content still in front.
pub open spec fn streamed(
    ty: Schema,
    doc: Doc,
    end: nat,
    before: Seq<u8>,
    after: Seq<u8>,
    r: Result<usize, Error>,
) -> bool {
    match encoding(Layout::Flat, ty, doc).failure {
        None => r matches Ok(next) && next == end && after == before + encoding(
            Layout::Flat,
            ty,
            doc,
        ).bytes,
        Some(failure) => r matches Err(e) && e@ == failure && before.is_prefix_of(after),
    }
}

/// The error for the value at `pos`, whose kind is not the `expected` one.
fn unexpected_at(expected: &'static str, tokens: &[Token], pos: usize) -> (e: Error)
    requires
        value_at(toks(tokens@), pos as nat) is Some,
    ensures
        e@ == (Failure::UnexpectedType {
            expected: expected@,
            got: value_at(toks(tokens@), pos as nat)->Some_0.0.kind_name(),
        }),
{
    let got = match &tokens[pos] {
        Token::Null => "null",
        Token::Bool(_) => "a boolean",
        Token::Number(_) => "a number",
        Token::String(_) => "a string",
        Token::StartArray => "an array",
        _ => "an object",
    };
    Error::UnexpectedType { expected, got }
}

/// Streams the value at `pos` against `ty` into `out`.
fn stream_node(ty: &Ty, tokens: &[Token], pos: usize, out: &mut Vec<u8>) -> (r: Result<
    usize,
    Error,
>)
    requires
        value_at(toks(tokens@), pos as nat) is Some,
    ensures
        streamed(
            ty@,
            value_at(toks(tokens@), pos as nat)->Some_0.0,
            value_at(toks(tokens@), pos as nat)->Some_0.1,
            old(out)@,
            final(out)@,
            r,
        ),
    decreases ty, 0nat,
{
    let token = &tokens[pos];
    match ty {
        Ty::Bool => match token {
            Token::Bool(b) => {
                put_flag(Layout::Flat, out, *b)?;
                Ok(pos + 1)
            },
            _ => Err(unexpected_at("a boolean", tokens, pos)),
        },
        Ty::U64 => match token {
            Token::Number(n) => match n.as_u64() {
                Some(v) => {
                    put_uint(Layout::Flat, out, v)?;
                    Ok(pos + 1)
                },
                None => Err(unexpected_at("a non-negative integer", tokens, pos)),
            },
            _ => Err(unexpected_at("a non-negative integer", tokens, pos)),
        },
        Ty::I64 => match token {
            Token::Number(n) => match n.as_i64() {
                Some(v) => {
                    put_int(Layout::Flat, out, v)?;
                    Ok(pos + 1)
                },
                None => Err(unexpected_at("an integer", tokens, pos)),
            },
            _ => Err(unexpected_at("an integer", tokens, pos)),
        },
        Ty::F64 => match token {
            Token::Number(n) => match n.as_float_bits() {
                Some(bits) => {
                    put_float(out, bits);
                    Ok(pos + 1)
                },
                None => Err(unexpected_at("a number", tokens, pos)),
            },
            _ => Err(unexpected_at("a number", tokens, pos)),
        },
        Ty::Bytes => match token {
            Token::StartArray => stream_bytes(tokens, pos + 1, out),
            _ => Err(unexpected_at("a byte array", tokens, pos)),
        },
        Ty::String => match token {
            Token::String(text) => {
                put_text(Layout::Flat, out, text.as_str())?;
                Ok(pos + 1)
            },
            _ => Err(unexpected_at("a string", tokens, pos)),
        },
        Ty::Array { inner } => match token {
            Token::StartArray => stream_items(inner, tokens, pos + 1, out),
            _ => Err(unexpected_at("an array", tokens, pos)),
        },
        Ty::Struct { fields } => match token {
            Token::StartObject => {
                proof {
                    Ty::lemma_struct_view(*fields);
                }
                stream_struct(fields, tokens, pos + 1, out)
            },
            _ => Err(unexpected_at("an object", tokens, pos)),
        },
    }
}

/// Streams the elements of a byte array, from `pos` up to its end.
#[verifier::loop_isolation(false)]
fn stream_bytes(tokens: &[Token], pos: usize, out: &mut Vec<u8>) -> (r: Result<usize, Error>)
    requires
        items_at(toks(tokens@), pos as nat) is Some,
    ensures
        streamed(
            Schema::Bytes,
            Doc::Array(items_at(toks(tokens@), pos as nat)->Some_0.0),
            items_at(toks(tokens@), pos as nat)->Some_0.1,
            old(out)@,
            final(out)@,
            r,
        ),
{
    let ghost t = toks(tokens@);
    let ghost start = out@;
    let ghost items = items_at(t, pos as nat)->Some_0.0;
    let ghost end = items_at(t, pos as nat)->Some_0.1;
    let room = reserve_count(out);
    let ghost reserved = out@;
    let mut at = pos;
    let mut count: usize = 0;
    loop
        invariant
            pos <= at,
            count <= at - pos,
            count <= items.len(),
            items_at(t, at as nat) == Some((items.skip(count as int), end)),
            encode_bytes(items, count as nat).failure is None,
            out@ == reserved + encode_bytes(items, count as nat).bytes,
        decreases tokens@.len() - at,
    {
        proof {
            lemma_items_end(t, at as nat);
            lemma_value_end(t, at as nat);
        }
        let token = &tokens[at];
        if let Token::EndArray = token {
            patch_count(out, room, count);
            assert(out@ =~= start + (count_bytes(Layout::Flat, items.len()) + encode_bytes(
                items,
                items.len(),
            ).bytes));
            return Ok(at + 1);
        }
        let ghost rest = items_at(t, value_at(t, at as nat)->Some_0.1)->Some_0.0;
        proof {
            lemma_skip_step(items, count as int, value_at(t, at as nat)->Some_0.0, rest);
        }
        let byte = match token {
            Token::Number(n) => byte_of_number(n),
            _ => Err(Error::NotAByte),
        };
        match byte {
            Ok(b) => {
                put_byte(Layout::Flat, out, b)?;
                at += 1;
                count += 1;
            },
            Err(e) => {
                proof {
                    lemma_bytes_failure_stays(items, (count + 1) as nat, items.len());
                }
                return Err(e);
            },
        }
    }
}

/// Streams the elements of an array against `inner`, from `pos` up to its
/// end.
#[verifier::loop_isolation(false)]
fn stream_items(inner: &Ty, tokens: &[Token], pos: usize, out: &mut Vec<u8>) -> (r: Result<
    usize,
    Error,
>)
    requires
        items_at(toks(tokens@), pos as nat) is Some,
    ensures
        streamed(
            Schema::Array(Box::new(inner@)),
            Doc::Array(items_at(toks(tokens@), pos as nat)->Some_0.0),
            items_at(toks(tokens@), pos as nat)->Some_0.1,
            old(out)@,
            final(out)@,
            r,
        ),
    decreases inner, 1nat,
{
    let ghost t = toks(tokens@);
    let ghost start = out@;
    let ghost items = items_at(t, pos as nat)->Some_0.0;
    let ghost end = items_at(t, pos as nat)->Some_0.1;
    let room = reserve_count(out);
    let ghost reserved = out@;
    let mut at = pos;
    let mut count: usize = 0;
    loop
        invariant
            pos <= at,
            count <= at - pos,
            count <= items.len(),
            items_at(t, at as nat) == Some((items.skip(count as int), end)),
            encode_items(Layout::Flat, inner@, items, count as nat).failure is None,
            out@ == reserved + encode_items(Layout::Flat, inner@, items, count as nat).bytes,
        decreases tokens@.len() - at,
    {
        proof {
            lemma_items_end(t, at as nat);
            lemma_value_end(t, at as nat);
        }
        let token = &tokens[at];
        if let Token::EndArray = token {
            patch_count(out, room, count);
            assert(out@ =~= start + (count_bytes(Layout::Flat, items.len()) + encode_items(
                Layout::Flat,
                inner@,
                items,
                items.len(),
            ).bytes));
            return Ok(at + 1);
        }
        let ghost rest = items_at(t, value_at(t, at as nat)->Some_0.1)->Some_0.0;
        proof {
            lemma_skip_step(items, count as int, value_at(t, at as nat)->Some_0.0, rest);
        }
        match stream_node(inner, tokens, at, out) {
            Ok(next) => {
                assert(out@ =~= reserved + encode_items(
                    Layout::Flat,
                    inner@,
                    items,
                    (count + 1) as nat,
                ).bytes);
                at = next;
                count += 1;
            },
            Err(e) => {
                proof {
                    lemma_items_failure_stays(
                        Layout::Flat,
                        inner@,
                        items,
                        (count + 1) as nat,
                        items.len(),
                    );
                }
                return Err(e);
            },
        }
    }
}

/// The keys of the members from `pos` on, and the position after the
/// object's end.
#[verifier::loop_isolation(false)]
fn scan_keys(tokens: &[Token], pos: usize) -> (r: (NameSet, usize))
    requires
        members_at(toks(tokens@), pos as nat) is Some,
    ensures
        r.0@ == map_of(members_at(toks(tokens@), pos as nat)->Some_0.0).dom(),
        r.1 == members_at(toks(tokens@), pos as nat)->Some_0.1,
{
    let ghost t = toks(tokens@);
    let ghost pairs = members_at(t, pos as nat)->Some_0.0;
    let ghost end = members_at(t, pos as nat)->Some_0.1;
    let mut names = NameSet::new();
    let mut at = pos;
    let ghost mut seen: int = 0;
    assert(pairs.skip(0) =~= pairs);
    loop
        invariant
            pos <= at,
            0 <= seen <= pairs.len(),
            members_at(t, at as nat) == Some((pairs.skip(seen), end)),
            names@ == map_of(pairs.take(seen)).dom(),
        decreases tokens@.len() - at,
    {
        proof {
            lemma_members_end(t, at as nat);
            lemma_value_end(t, (at + 1) as nat);
        }
        let token = &tokens[at];
        match token {
            Token::Key(key) => {
                let ghost value = value_at(t, (at + 1) as nat)->Some_0.0;
                let ghost next = value_at(t, (at + 1) as nat)->Some_0.1;
                let ghost rest = members_at(t, next)->Some_0.0;
                proof {
                    lemma_skip_step(pairs, seen, (key@, value), rest);
                }
                names.insert(key.clone());
                match skip_value(tokens, at + 1) {
                    Some(after) => {
                        at = after;
                    },
                    None => {
                        assert(false);
                    },
                }
                proof {
                    seen = seen + 1;
                }
            },
            _ => {
                return (names, at + 1);
            },
        }
    }
}

/// Where the value of the member with key `name` starts, among the members
/// from `pos` on: of several such members, the last.
#[verifier::loop_isolation(false)]
fn find_member(tokens: &[Token], pos: usize, name: &str) -> (r: Option<usize>)
    requires
        members_at(toks(tokens@), pos as nat) is Some,
    ensures
        match r {
            Some(at) => map_of(members_at(toks(tokens@), pos as nat)->Some_0.0).contains_key(
                name@,
            ) && value_at(toks(tokens@), at as nat) is Some && value_at(
                toks(tokens@),
                at as nat,
            )->Some_0.0 == map_of(members_at(toks(tokens@), pos as nat)->Some_0.0)[name@],
            None => !map_of(members_at(toks(tokens@), pos as nat)->Some_0.0).contains_key(name@),
        },
{
    let ghost t = toks(tokens@);
    let ghost pairs = members_at(t, pos as nat)->Some_0.0;
    let ghost end = members_at(t, pos as nat)->Some_0.1;
    let mut found: Option<usize> = None;
    let mut at = pos;
    let ghost mut seen: int = 0;
    assert(pairs.skip(0) =~= pairs);
    loop
        invariant
            pos <= at,
            0 <= seen <= pairs.len(),
            members_at(t, at as nat) == Some((pairs.skip(seen), end)),
            match found {
                Some(place) => map_of(pairs.take(seen)).contains_key(name@) && value_at(
                    t,
                    place as nat,
                ) is Some && value_at(t, place as nat)->Some_0.0 == map_of(pairs.take(seen))[name@],
                None => !map_of(pairs.take(seen)).contains_key(name@),
            },
        decreases tokens@.len() - at,
    {
        proof {
            lemma_members_end(t, at as nat);
            lemma_value_end(t, (at + 1) as nat);
        }
        let token = &tokens[at];
        match token {
            Token::Key(key) => {
                let ghost value = value_at(t, (at + 1) as nat)->Some_0.0;
                let ghost next = value_at(t, (at + 1) as nat)->Some_0.1;
                let ghost rest = members_at(t, next)->Some_0.0;
                proof {
                    lemma_skip_step(pairs, seen, (key@, value), rest);
                }
                if str_eq(key.as_str(), name) {
                    found = Some(at + 1);
                }
                match skip_value(tokens, at + 1) {
                    Some(after) => {
                        at = after;
                    },
                    None => {
                        assert(false);
                    },
                }
                proof {
                    seen = seen + 1;
                }
            },
            _ => {
                return found;
            },
        }
    }
}

/// Whether every name of `names` is the name of one of `fields`.
fn names_are_fields(fields: &Vec<Field>, names: &NameSet) -> (r: bool)
    ensures
        r == names@.subset_of(field_names(fields_of(fields@))),
{
    let count = names.len();
    let mut i: usize = 0;
    while i < count
        invariant
            i <= count,
            count == names.seq().len(),
            forall|k: Seq<char>| #[trigger] names@.contains(k) <==> names.seq().contains(k),
            forall|j: int|
                0 <= j < i ==> field_names(fields_of(fields@)).contains(#[trigger] names.seq()[j]),
        decreases count - i,
    {
        match names.name(i) {
            Some(name) => {
                if !has_field(fields, name.as_str()) {
                    return false;
                }
            },
            None => {},
        }
        i += 1;
    }
    assert forall|k: Seq<char>| names@.contains(k) implies field_names(
        fields_of(fields@),
    ).contains(k) by {
        let j = choose|j: int| 0 <= j < names.seq().len() && names.seq()[j] == k;
        assert(field_names(fields_of(fields@)).contains(names.seq()[j]));
    }
    true
}

/// Where the value of each field starts among the members from `pos` on,
/// in schema order, if the members have exactly the keys that the struct
/// node asks for. `names` holds the members' keys.
fn places_in_order(fields: &Vec<Field>, tokens: &[Token], pos: usize, names: &NameSet) -> (r:
    Option<Vec<usize>>)
    requires
        members_at(toks(tokens@), pos as nat) is Some,
        names@ == map_of(members_at(toks(tokens@), pos as nat)->Some_0.0).dom(),
    ensures
        match r {
            Some(places) => keys_match(
                fields_of(fields@),
                map_of(members_at(toks(tokens@), pos as nat)->Some_0.0),
            ) && places@.len() == fields@.len() && forall|j: int|
                0 <= j < fields@.len() ==> value_at(toks(tokens@), (#[trigger] places@[j]) as nat)
                    is Some && value_at(toks(tokens@), places@[j] as nat)->Some_0.0 == map_of(
                    members_at(toks(tokens@), pos as nat)->Some_0.0,
                )[fields@[j].name@],
            None => !keys_match(
                fields_of(fields@),
                map_of(members_at(toks(tokens@), pos as nat)->Some_0.0),
            ),
        },
{
    let ghost t = toks(tokens@);
    let ghost shape = fields_of(fields@);
    let ghost members = map_of(members_at(t, pos as nat)->Some_0.0);
    if fields.len() != names.len() {
        return None;
    }
    let mut places: Vec<usize> = Vec::new();
    let mut i: usize = 0;
    while i < fields.len()
        invariant
            i <= fields@.len(),
            shape == fields_of(fields@),
            members == map_of(members_at(t, pos as nat)->Some_0.0),
            t == toks(tokens@),
            members_at(t, pos as nat) is Some,
            places@.len() == i,
            forall|j: int| 0 <= j < i ==> members.contains_key(#[trigger] keys_of(shape)[j]),
            forall|j: int|
                0 <= j < i ==> value_at(t, (#[trigger] places@[j]) as nat) is Some && value_at(
                    t,
                    places@[j] as nat,
                )->Some_0.0 == members[fields@[j].name@],
        decreases fields@.len() - i,
    {
        assert(keys_of(shape)[i as int] == fields@[i as int].name@);
        match find_member(tokens, pos, fields[i].name.as_str()) {
            Some(place) => {
                places.push(place);
            },
            None => {
                assert(field_names(shape).contains(keys_of(shape)[i as int]));
                return None;
            },
        }
        i += 1;
    }
    if !names_are_fields(fields, names) {
        return None;
    }
    assert(members.dom() =~= field_names(shape)) by {
        assert forall|k: Seq<char>| field_names(shape).contains(k) implies members.dom().contains(
            k,
        ) by {
            let j = choose|j: int| 0 <= j < keys_of(shape).len() && keys_of(shape)[j] == k;
            assert(members.contains_key(keys_of(shape)[j]));
        }
    }
    Some(places)
}

/// Streams an object against a struct node, from the first member at `pos`
/// up to the object's end. The members may come in any order. Their keys
/// are held against the node's field names before anything is written;
/// then each field's value is streamed from where it stands, in schema
/// order.
#[verifier::loop_isolation(false)]
fn stream_struct(fields: &Vec<Field>, tokens: &[Token], pos: usize, out: &mut Vec<u8>) -> (r:
    Result<usize, Error>)
    requires
        members_at(toks(tokens@), pos as nat) is Some,
    ensures
        streamed(
            Schema::Struct(fields_of(fields@)),
            Doc::Object(map_of(members_at(toks(tokens@), pos as nat)->Some_0.0)),
            members_at(toks(tokens@), pos as nat)->Some_0.1,
            old(out)@,
            final(out)@,
            r,
        ),
    decreases fields, 1nat,
{
    let ghost t = toks(tokens@);
    let ghost start = out@;
    let ghost shape = fields_of(fields@);
    let ghost members = map_of(members_at(t, pos as nat)->Some_0.0);
    assert(start.is_prefix_of(start));
    let (names, end) = scan_keys(tokens, pos);
    let places = match places_in_order(fields, tokens, pos, &names) {
        Some(places) => places,
        None => {
            return Err(field_mismatch_of(fields, &names));
        },
    };
    assert(out@ =~= start + encode_fields(Layout::Flat, shape, members, 0).bytes);
    let mut i: usize = 0;
    while i < fields.len()
        invariant
            i <= fields@.len(),
            encode_fields(Layout::Flat, shape, members, i as nat).failure is None,
            out@ == start + encode_fields(Layout::Flat, shape, members, i as nat).bytes,
        decreases fields@.len() - i,
    {
        let field = &fields[i];
        assert(shape[i as int] == (field.name@, field.ty@));
        match stream_node(&field.ty, tokens, places[i], out) {
            Ok(_) => {
                assert(out@ =~= start + encode_fields(
                    Layout::Flat,
                    shape,
                    members,
                    (i + 1) as nat,
                ).bytes);
            },
            Err(e) => {
                proof {
                    lemma_fields_failure_stays(
                        Layout::Flat,
                        shape,
                        members,
                        (i + 1) as nat,
                        shape.len(),
                    );
                }
                assert(start.is_prefix_of(out@));
                return Err(e);
            },
        }
        i += 1;
    }
    Ok(end)
}

/// Encodes the document that the stream `tokens` stands for against `ty`,
/// through `builder` into its backing buffer.
///
/// The outcome is that of the reference codec on that document: the same
/// bytes, or the same error. A stream that is no document, one that ends
/// early or goes on after its value, fails with `Serialization` and leaves
/// the buffer as it was. After another failure the buffer holds its old
/// content and then bytes of no use: the caller clears it.
pub fn encode_stream<'a>(ty: &Ty, tokens: &[Token], builder: Builder<'a>) -> (r: Result<(), Error>)
    ensures
        match document_of(toks(tokens@)) {
            Some(doc) => match encoding(Layout::Flat, ty@, doc).failure {
                None => r is Ok && final(builder.buf)@ == old(builder.buf)@ + encoding(
                    Layout::Flat,
                    ty@,
                    doc,
                ).bytes,
                Some(failure) => r matches Err(e) && e@ == failure && old(
                    builder.buf,
                )@.is_prefix_of(final(builder.buf)@),
            },
            None => r matches Err(e) && e@ == Failure::Serialization && final(builder.buf)@
                == old(builder.buf)@,
        },
{
    let whole = match skip_value(tokens, 0) {
        Some(end) => end == tokens.len(),
        None => false,
    };
    if !whole {
        return Err(Error::Serialization);
    }
    let builder = builder;
    match stream_node(ty, tokens, 0, builder.buf.bytes_mut()) {
        Ok(_) => Ok(()),
        Err(e) => Err(e),
    }
}

} // verus!
