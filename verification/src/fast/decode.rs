//! Decoding a flat buffer into a structured stream. The buffer is walked
//! against the schema and each token is handed on as it is read; no
//! document value is built.

use crate::error::{Error, Failure};
use crate::fast::token::{toks, Tok, Token};
use crate::layout::{
    parse_blob, parse_bool, parse_count, parse_float, parse_int, parse_text, parse_uint, skip,
    take_blob, take_count, take_flag, take_float, take_int, take_text, take_uint, Layout,
};
use crate::ty::{fields_of, Field, Schema, Ty};
use crate::value::{finite_bits, Num, Number};
use vstd::prelude::*;

verus! {

/// The tokens of a run of bytes: each byte as a small integer.
pub open spec fn byte_toks(payload: Seq<u8>) -> Seq<Tok> {
    Seq::new(payload.len(), |i: int| Tok::Number(Num::PosInt(payload[i] as u64)))
}

/// The token of a float's bit pattern: a number if it is finite, else
/// null.
pub open spec fn float_tok(bits: u64) -> Tok {
    if finite_bits(bits) {
        Tok::Number(Num::Float(bits))
    } else {
        Tok::Null
    }
}

/// The tokens of the first `k` elements of an array read from the front of
/// `s`, and the number of bytes taken.
pub open spec fn emit_items(inner: Schema, s: Seq<u8>, k: nat) -> Option<(Seq<Tok>, nat)>
    decreases inner, k,
{
    if k == 0 {
        Some((Seq::empty(), 0nat))
    } else {
        match emit_items(inner, s, (k - 1) as nat) {
            Some((init, used)) => if used <= s.len() {
                match emitting(inner, skip(s, used)) {
                    Some((item, more)) => Some((init + item, used + more)),
                    None => None,
                }
            } else {
                None
            },
            None => None,
        }
    }
}

/// The tokens of the first `k` fields of a struct read from the front of
/// `s`, each a key and then the field's value, and the number of bytes
/// taken.
pub open spec fn emit_fields(fields: Seq<(Seq<char>, Schema)>, s: Seq<u8>, k: nat) -> Option<
    (Seq<Tok>, nat),
>
    decreases fields, k,
{
    if k == 0 || k > fields.len() {
        Some((Seq::empty(), 0nat))
    } else {
        match emit_fields(fields, s, (k - 1) as nat) {
            Some((init, used)) => if used <= s.len() {
                match emitting(fields[k - 1].1, skip(s, used)) {
                    Some((value, more)) => Some(
                        (init + seq![Tok::Key(fields[k - 1].0)] + value, used + more),
                    ),
                    None => None,
                }
            } else {
                None
            },
            None => None,
        }
    }
}

/// The stream of the document at the front of the flat bytes `s`, as a
/// schema node asks, and the number of bytes taken; nothing where the
/// bytes end early or are not what the node asks for. The members of an
/// object come in schema order.
pub open spec fn emitting(ty: Schema, s: Seq<u8>) -> Option<(Seq<Tok>, nat)>
    decreases ty, 0nat,
{
    match ty {
        Schema::Bool => match parse_bool(s) {
            Some((b, used)) => Some((seq![Tok::Bool(b)], used)),
            None => None,
        },
        Schema::U64 => match parse_uint(Layout::Flat, s) {
            Some((n, used)) => Some((seq![Tok::Number(Num::PosInt(n))], used)),
            None => None,
        },
        Schema::I64 => match parse_int(Layout::Flat, s) {
            Some((i, used)) => Some((seq![Tok::Number(Num::of_i64(i))], used)),
            None => None,
        },
        Schema::F64 => match parse_float(s) {
            Some((bits, used)) => Some((seq![float_tok(bits)], used)),
            None => None,
        },
        Schema::Bytes => match parse_blob(Layout::Flat, s) {
            Some((payload, used)) => Some(
                (seq![Tok::StartArray] + byte_toks(payload) + seq![Tok::EndArray], used),
            ),
            None => None,
        },
        Schema::String => match parse_text(Layout::Flat, s) {
            Some((text, used)) => Some((seq![Tok::String(text)], used)),
            None => None,
        },
        Schema::Array(inner) => match parse_count(Layout::Flat, s) {
            Some((n, used)) => if used <= s.len() {
                match emit_items(*inner, skip(s, used), n) {
                    Some((items, more)) => Some(
                        (seq![Tok::StartArray] + items + seq![Tok::EndArray], used + more),
                    ),
                    None => None,
                }
            } else {
                None
            },
            None => None,
        },
        Schema::Struct(fields) => match emit_fields(fields, s, fields.len()) {
            Some((members, used)) => Some(
                (seq![Tok::StartObject] + members + seq![Tok::EndObject], used),
            ),
            None => None,
        },
    }
}

/// What emitting a value leaves behind: the position after it and its
/// tokens at the end of the sink, or the error, with the sink's old content
/// still in front.
pub open spec fn emitted(
    outcome: Option<(Seq<Tok>, nat)>,
    pos: usize,
    limit: nat,
    before: Seq<Tok>,
    after: Seq<Tok>,
    r: Result<usize, Error>,
) -> bool {
    match outcome {
        Some((tokens, used)) => r matches Ok(next) && next == pos + used && next <= limit && after
            == before + tokens,
        None => r matches Err(e) && e@ == Failure::Serialization && before.is_prefix_of(after),
    }
}

/// Appending a token to a run appends its model to the run's models.
pub proof fn lemma_toks_push(tokens: Seq<Token>, token: Token)
    ensures
        toks(tokens.push(token)) == toks(tokens).push(token@),
{
}

/// Once the elements of an array cannot be read, asking for more of them
/// changes nothing.
pub proof fn lemma_emit_items_none_stays(inner: Schema, s: Seq<u8>, k: nat, n: nat)
    requires
        emit_items(inner, s, k) is None,
        k <= n,
    ensures
        emit_items(inner, s, n) is None,
    decreases n,
{
    if k < n {
        lemma_emit_items_none_stays(inner, s, k, (n - 1) as nat);
    }
}

/// Once the fields of a struct cannot be read, asking for more of them
/// changes nothing.
pub proof fn lemma_emit_fields_none_stays(
    fields: Seq<(Seq<char>, Schema)>,
    s: Seq<u8>,
    k: nat,
    n: nat,
)
    requires
        emit_fields(fields, s, k) is None,
        k <= n <= fields.len(),
    ensures
        emit_fields(fields, s, n) is None,
    decreases n,
{
    if k < n {
        lemma_emit_fields_none_stays(fields, s, k, (n - 1) as nat);
    }
}

/// Appends one token to the sink.
fn emit(sink: &mut Vec<Token>, token: Token)
    ensures
        toks(final(sink)@) == toks(old(sink)@).push(token@),
        toks(old(sink)@).is_prefix_of(toks(final(sink)@)),
{
    proof {
        lemma_toks_push(sink@, token);
    }
    sink.push(token);
}

/// Emits the value at `pos` of `input`, as `ty` asks.
fn emit_node(ty: &Ty, input: &[u8], pos: usize, sink: &mut Vec<Token>) -> (r: Result<usize, Error>)
    requires
        pos <= input@.len(),
    ensures
        emitted(
            emitting(ty@, skip(input@, pos as nat)),
            pos,
            input@.len(),
            toks(old(sink)@),
            toks(final(sink)@),
            r,
        ),
    decreases ty, 0nat,
{
    let ghost before = toks(sink@);
    match ty {
        Ty::Bool => {
            let (b, next) = take_flag(Layout::Flat, input, pos)?;
            emit(sink, Token::Bool(b));
            assert(toks(sink@) =~= before + seq![Tok::Bool(b)]);
            Ok(next)
        },
        Ty::U64 => {
            let (n, next) = take_uint(Layout::Flat, input, pos)?;
            emit(sink, Token::Number(Number::from_u64(n)));
            assert(toks(sink@) =~= before + seq![Tok::Number(Num::PosInt(n))]);
            Ok(next)
        },
        Ty::I64 => {
            let (i, next) = take_int(Layout::Flat, input, pos)?;
            emit(sink, Token::Number(Number::from_i64(i)));
            assert(toks(sink@) =~= before + seq![Tok::Number(Num::of_i64(i))]);
            Ok(next)
        },
        Ty::F64 => {
            let (bits, next) = take_float(input, pos)?;
            match Number::from_float_bits(bits) {
                Some(n) => emit(sink, Token::Number(n)),
                None => emit(sink, Token::Null),
            }
            assert(toks(sink@) =~= before + seq![float_tok(bits)]);
            Ok(next)
        },
        Ty::Bytes => {
            let (payload, next) = take_blob(Layout::Flat, input, pos)?;
            emit_bytes(payload, sink);
            Ok(next)
        },
        Ty::String => {
            let (text, next) = take_text(Layout::Flat, input, pos)?;
            emit(sink, Token::String(text));
            assert(toks(sink@) =~= before + seq![Tok::String(text@)]);
            Ok(next)
        },
        Ty::Array { inner } => emit_array(inner, input, pos, sink),
        Ty::Struct { fields } => {
            proof {
                Ty::lemma_struct_view(*fields);
            }
            emit_struct(fields, input, pos, sink)
        },
    }
}

/// Emits a run of bytes as an array of small integers.
fn emit_bytes(payload: &[u8], sink: &mut Vec<Token>)
    ensures
        toks(final(sink)@) == toks(old(sink)@) + (seq![Tok::StartArray] + byte_toks(payload@)
            + seq![Tok::EndArray]),
{
    let ghost before = toks(sink@);
    emit(sink, Token::StartArray);
    let mut i: usize = 0;
    while i < payload.len()
        invariant
            i <= payload@.len(),
            toks(sink@) == before + seq![Tok::StartArray] + byte_toks(payload@).take(i as int),
        decreases payload@.len() - i,
    {
        emit(sink, Token::Number(Number::from_u64(payload[i] as u64)));
        assert(byte_toks(payload@).take(i + 1) =~= byte_toks(payload@).take(i as int).push(
            byte_toks(payload@)[i as int],
        ));
        i += 1;
    }
    emit(sink, Token::EndArray);
    assert(toks(sink@) =~= before + (seq![Tok::StartArray] + byte_toks(payload@)
        + seq![Tok::EndArray]));
}

/// Emits an array at `pos`: the count is read, then that many elements are
/// emitted between the array's two tokens.
#[verifier::loop_isolation(false)]
fn emit_array(inner: &Ty, input: &[u8], pos: usize, sink: &mut Vec<Token>) -> (r: Result<
    usize,
    Error,
>)
    requires
        pos <= input@.len(),
    ensures
        emitted(
            emitting(Schema::Array(Box::new(inner@)), skip(input@, pos as nat)),
            pos,
            input@.len(),
            toks(old(sink)@),
            toks(final(sink)@),
            r,
        ),
    decreases inner, 1nat,
{
    let ghost before = toks(sink@);
    let (n, start) = take_count(Layout::Flat, input, pos)?;
    let ghost body = skip(input@, start as nat);
    assert(body =~= skip(skip(input@, pos as nat), (start - pos) as nat));
    emit(sink, Token::StartArray);
    let mut at = start;
    let mut i: usize = 0;
    while i < n
        invariant
            i <= n,
            start <= at <= input@.len(),
            emit_items(inner@, body, i as nat) is Some,
            emit_items(inner@, body, i as nat)->Some_0.1 == at - start,
            toks(sink@) == before + seq![Tok::StartArray] + emit_items(
                inner@,
                body,
                i as nat,
            )->Some_0.0,
        decreases n - i,
    {
        assert(skip(input@, at as nat) =~= skip(body, (at - start) as nat));
        match emit_node(inner, input, at, sink) {
            Ok(next) => {
                assert(toks(sink@) =~= before + seq![Tok::StartArray] + emit_items(
                    inner@,
                    body,
                    (i + 1) as nat,
                )->Some_0.0);
                at = next;
            },
            Err(e) => {
                proof {
                    lemma_emit_items_none_stays(inner@, body, (i + 1) as nat, n as nat);
                }
                return Err(e);
            },
        }
        i += 1;
    }
    let ghost items = emit_items(inner@, body, n as nat)->Some_0.0;
    emit(sink, Token::EndArray);
    assert(toks(sink@) =~= before + (seq![Tok::StartArray] + items + seq![Tok::EndArray]));
    Ok(at)
}

/// Emits a struct at `pos`: between the object's two tokens, each field's
/// name as a key and then its value, in schema order.
#[verifier::loop_isolation(false)]
fn emit_struct(fields: &Vec<Field>, input: &[u8], pos: usize, sink: &mut Vec<Token>) -> (r: Result<
    usize,
    Error,
>)
    requires
        pos <= input@.len(),
    ensures
        emitted(
            emitting(Schema::Struct(fields_of(fields@)), skip(input@, pos as nat)),
            pos,
            input@.len(),
            toks(old(sink)@),
            toks(final(sink)@),
            r,
        ),
    decreases fields, 1nat,
{
    let ghost before = toks(sink@);
    let ghost shape = fields_of(fields@);
    let ghost body = skip(input@, pos as nat);
    emit(sink, Token::StartObject);
    let mut at = pos;
    let mut i: usize = 0;
    while i < fields.len()
        invariant
            i <= fields@.len(),
            pos <= at <= input@.len(),
            emit_fields(shape, body, i as nat) is Some,
            emit_fields(shape, body, i as nat)->Some_0.1 == at - pos,
            toks(sink@) == before + seq![Tok::StartObject] + emit_fields(
                shape,
                body,
                i as nat,
            )->Some_0.0,
        decreases fields@.len() - i,
    {
        let field = &fields[i];
        assert(skip(input@, at as nat) =~= skip(body, (at - pos) as nat));
        emit(sink, Token::Key(field.name.clone()));
        match emit_node(&field.ty, input, at, sink) {
            Ok(next) => {
                assert(toks(sink@) =~= before + seq![Tok::StartObject] + emit_fields(
                    shape,
                    body,
                    (i + 1) as nat,
                )->Some_0.0);
                at = next;
            },
            Err(e) => {
                proof {
                    lemma_emit_fields_none_stays(shape, body, (i + 1) as nat, shape.len());
                }
                return Err(e);
            },
        }
        i += 1;
    }
    let ghost members = emit_fields(shape, body, shape.len())->Some_0.0;
    emit(sink, Token::EndObject);
    assert(toks(sink@) =~= before + (seq![Tok::StartObject] + members + seq![Tok::EndObject]));
    Ok(at)
}

/// Decodes the whole of the flat buffer `bytes` as `ty` asks and appends
/// the document's stream to `sink`.
///
/// Bytes that end early, do not fit the schema or go on after the document
/// fail with `Serialization`. After a failure the sink holds its old
/// content and then tokens of no use: the caller drops them.
pub fn decode_stream(ty: &Ty, bytes: &[u8], sink: &mut Vec<Token>) -> (r: Result<(), Error>)
    ensures
        match emitting(ty@, bytes@) {
            Some((tokens, used)) => if used == bytes@.len() {
                r is Ok && toks(final(sink)@) == toks(old(sink)@) + tokens
            } else {
                r matches Err(e) && e@ == Failure::Serialization && toks(old(sink)@).is_prefix_of(
                    toks(final(sink)@),
                )
            },
            None => r matches Err(e) && e@ == Failure::Serialization && toks(
                old(sink)@,
            ).is_prefix_of(toks(final(sink)@)),
        },
{
    assert(skip(bytes@, 0) =~= bytes@);
    let end = emit_node(ty, bytes, 0, sink)?;
    if end == bytes.len() {
        Ok(())
    } else {
        Err(Error::Serialization)
    }
}

} // verus!
