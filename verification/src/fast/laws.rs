//! What holds of streams and documents together.

use crate::assoc::map_of;
use crate::codec::laws::{conforms, lemma_round_trip};
use crate::codec::spec::{byte_docs, decode_fields, decode_items, decoding, encoding};
use crate::fast::decode::{byte_toks, emit_fields, emit_items, emitting};
use crate::fast::token::{document_of, items_at, lemma_value_end, members_at, value_at, Tok};
use crate::layout::{skip, Layout};
use crate::ty::Schema;
use crate::value::Doc;
use vstd::prelude::*;

verus! {

/// Whether the stream `a` is exactly the value `doc`.
pub open spec fn spells(a: Seq<Tok>, doc: Doc) -> bool {
    value_at(a, 0) == Some((doc, a.len()))
}

/// Whether the stream `a` is a key and then exactly the value of `pair`.
pub open spec fn spells_member(a: Seq<Tok>, pair: (Seq<char>, Doc)) -> bool {
    a.len() >= 1 && a[0] == Tok::Key(pair.0) && spells(a.skip(1), pair.1)
}

/// A value is read alike wherever its tokens stand: with tokens `p` before
/// the stream and `q` after it, the same value is found, `p.len()` further
/// on.
pub proof fn lemma_value_framed(a: Seq<Tok>, pos: nat, p: Seq<Tok>, q: Seq<Tok>)
    requires
        value_at(a, pos) is Some,
    ensures
        value_at(p + a + q, p.len() + pos) == Some(
            (value_at(a, pos)->Some_0.0, p.len() + value_at(a, pos)->Some_0.1),
        ),
    decreases a.len() - pos, 0nat,
{
    match a[pos as int] {
        Tok::StartArray => {
            lemma_items_framed(a, pos + 1, p, q);
        },
        Tok::StartObject => {
            lemma_members_framed(a, pos + 1, p, q);
        },
        _ => {},
    }
}

/// A run of elements is read alike wherever its tokens stand.
pub proof fn lemma_items_framed(a: Seq<Tok>, pos: nat, p: Seq<Tok>, q: Seq<Tok>)
    requires
        items_at(a, pos) is Some,
    ensures
        items_at(p + a + q, p.len() + pos) == Some(
            (items_at(a, pos)->Some_0.0, p.len() + items_at(a, pos)->Some_0.1),
        ),
    decreases a.len() - pos, 1nat,
{
    if !(a[pos as int] is EndArray) {
        let next = value_at(a, pos)->Some_0.1;
        lemma_value_framed(a, pos, p, q);
        lemma_items_framed(a, next, p, q);
    }
}

/// A run of members is read alike wherever its tokens stand.
pub proof fn lemma_members_framed(a: Seq<Tok>, pos: nat, p: Seq<Tok>, q: Seq<Tok>)
    requires
        members_at(a, pos) is Some,
    ensures
        members_at(p + a + q, p.len() + pos) == Some(
            (members_at(a, pos)->Some_0.0, p.len() + members_at(a, pos)->Some_0.1),
        ),
    decreases a.len() - pos, 1nat,
{
    if a[pos as int] is Key {
        let next = value_at(a, pos + 1)->Some_0.1;
        lemma_value_framed(a, pos + 1, p, q);
        lemma_members_framed(a, next, p, q);
    }
}

/// The streams of values, one after another and closed by `EndArray`, are
/// read as the list of those values.
pub proof fn lemma_items_of_parts(
    p: Seq<Tok>,
    parts: Seq<Seq<Tok>>,
    items: Seq<Doc>,
    q: Seq<Tok>,
)
    requires
        parts.len() == items.len(),
        forall|i: int| 0 <= i < parts.len() ==> spells(#[trigger] parts[i], items[i]),
    ensures
        items_at(p + parts.flatten() + seq![Tok::EndArray] + q, p.len()) == Some(
            (items, p.len() + parts.flatten().len() + 1),
        ),
    decreases parts.len(),
{
    let t = p + parts.flatten() + seq![Tok::EndArray] + q;
    if parts.len() > 0 {
        let first = parts[0];
        let rest = parts.drop_first();
        let after = rest.flatten() + seq![Tok::EndArray] + q;
        lemma_value_end(first, 0);
        lemma_value_framed(first, 0, p, after);
        assert(t =~= p + first + after);
        assert forall|i: int| 0 <= i < rest.len() implies spells(
            #[trigger] rest[i],
            items.drop_first()[i],
        ) by {}
        lemma_items_of_parts(p + first, rest, items.drop_first(), q);
        assert(t =~= (p + first) + rest.flatten() + seq![Tok::EndArray] + q);
    }
}

/// The streams of members, one after another and closed by `EndObject`,
/// are read as the list of those members.
pub proof fn lemma_members_of_parts(
    p: Seq<Tok>,
    parts: Seq<Seq<Tok>>,
    pairs: Seq<(Seq<char>, Doc)>,
    q: Seq<Tok>,
)
    requires
        parts.len() == pairs.len(),
        forall|i: int| 0 <= i < parts.len() ==> spells_member(#[trigger] parts[i], pairs[i]),
    ensures
        members_at(p + parts.flatten() + seq![Tok::EndObject] + q, p.len()) == Some(
            (pairs, p.len() + parts.flatten().len() + 1),
        ),
    decreases parts.len(),
{
    let t = p + parts.flatten() + seq![Tok::EndObject] + q;
    if parts.len() > 0 {
        let first = parts[0];
        let rest = parts.drop_first();
        let after = rest.flatten() + seq![Tok::EndObject] + q;
        let value = first.skip(1);
        lemma_value_end(value, 0);
        lemma_value_framed(value, 0, p + seq![first[0]], after);
        assert(t =~= (p + seq![first[0]]) + value + after);
        assert forall|i: int| 0 <= i < rest.len() implies spells_member(
            #[trigger] rest[i],
            pairs.drop_first()[i],
        ) by {}
        lemma_members_of_parts(p + first, rest, pairs.drop_first(), q);
        assert(t =~= (p + first) + rest.flatten() + seq![Tok::EndObject] + q);
    }
}

/// Each token of `run` as a stream of its own.
pub open spec fn singles(run: Seq<Tok>) -> Seq<Seq<Tok>> {
    Seq::new(run.len(), |i: int| seq![run[i]])
}

/// One-token streams, put together again, are the run they came from.
pub proof fn lemma_singles_flatten(run: Seq<Tok>)
    ensures
        singles(run).flatten() == run,
    decreases run.len(),
{
    if run.len() > 0 {
        lemma_singles_flatten(run.drop_last());
        assert(singles(run) =~= singles(run.drop_last()).push(seq![run.last()]));
        singles(run.drop_last()).lemma_flatten_push(seq![run.last()]);
    }
}

/// The streams of the first `k` elements of an array at the front of `s`.
pub open spec fn item_parts(inner: Schema, s: Seq<u8>, k: nat) -> Seq<Seq<Tok>>
    decreases k,
{
    if k == 0 {
        Seq::empty()
    } else {
        item_parts(inner, s, (k - 1) as nat).push(
            emitting(inner, skip(s, emit_items(inner, s, (k - 1) as nat)->Some_0.1))->Some_0.0,
        )
    }
}

/// The streams of the first `k` fields of a struct at the front of `s`,
/// each with its key.
pub open spec fn field_parts(fields: Seq<(Seq<char>, Schema)>, s: Seq<u8>, k: nat) -> Seq<
    Seq<Tok>,
>
    decreases k,
{
    if k == 0 || k > fields.len() {
        Seq::empty()
    } else {
        field_parts(fields, s, (k - 1) as nat).push(
            seq![Tok::Key(fields[k - 1].0)] + emitting(
                fields[k - 1].1,
                skip(s, emit_fields(fields, s, (k - 1) as nat)->Some_0.1),
            )->Some_0.0,
        )
    }
}

/// The first `k` fields of a struct at the front of `s`, as members.
pub open spec fn field_pairs(fields: Seq<(Seq<char>, Schema)>, s: Seq<u8>, k: nat) -> Seq<
    (Seq<char>, Doc),
>
    decreases k,
{
    if k == 0 || k > fields.len() {
        Seq::empty()
    } else {
        field_pairs(fields, s, (k - 1) as nat).push(
            (
                fields[k - 1].0,
                decoding(
                    Layout::Flat,
                    fields[k - 1].1,
                    skip(s, decode_fields(Layout::Flat, fields, s, (k - 1) as nat)->Some_0.1),
                )->Some_0.0,
            ),
        )
    }
}

/// The first `k` elements of an array are emitted where they are decoded,
/// from as many bytes, and the stream of each is exactly the element.
pub proof fn lemma_emit_items_match(inner: Schema, s: Seq<u8>, k: nat)
    ensures
        emit_items(inner, s, k) is Some <==> decode_items(Layout::Flat, inner, s, k) is Some,
        emit_items(inner, s, k) is Some ==> {
            &&& emit_items(inner, s, k)->Some_0.1 == decode_items(
                Layout::Flat,
                inner,
                s,
                k,
            )->Some_0.1
            &&& emit_items(inner, s, k)->Some_0.0 == item_parts(inner, s, k).flatten()
            &&& item_parts(inner, s, k).len() == k
            &&& decode_items(Layout::Flat, inner, s, k)->Some_0.0.len() == k
            &&& forall|i: int|
                0 <= i < k ==> spells(
                    #[trigger] item_parts(inner, s, k)[i],
                    decode_items(Layout::Flat, inner, s, k)->Some_0.0[i],
                )
        },
    decreases inner, k,
{
    if k > 0 {
        lemma_emit_items_match(inner, s, (k - 1) as nat);
        if let Some((init, used)) = emit_items(inner, s, (k - 1) as nat) {
            if used <= s.len() {
                lemma_stream_spells(inner, skip(s, used));
                if let Some((item, more)) = emitting(inner, skip(s, used)) {
                    let before = item_parts(inner, s, (k - 1) as nat);
                    before.lemma_flatten_push(item);
                    let docs = decode_items(Layout::Flat, inner, s, k)->Some_0.0;
                    assert forall|i: int| 0 <= i < k implies spells(
                        #[trigger] item_parts(inner, s, k)[i],
                        docs[i],
                    ) by {}
                }
            }
        }
    }
}

/// The first `k` fields of a struct are emitted where they are decoded,
/// from as many bytes; the stream of each is its key and exactly its
/// value, and the members read from the streams make up the decoded
/// mapping.
pub proof fn lemma_emit_fields_match(fields: Seq<(Seq<char>, Schema)>, s: Seq<u8>, k: nat)
    requires
        k <= fields.len(),
    ensures
        emit_fields(fields, s, k) is Some <==> decode_fields(Layout::Flat, fields, s, k) is Some,
        emit_fields(fields, s, k) is Some ==> {
            &&& emit_fields(fields, s, k)->Some_0.1 == decode_fields(
                Layout::Flat,
                fields,
                s,
                k,
            )->Some_0.1
            &&& emit_fields(fields, s, k)->Some_0.0 == field_parts(fields, s, k).flatten()
            &&& field_parts(fields, s, k).len() == k
            &&& field_pairs(fields, s, k).len() == k
            &&& map_of(field_pairs(fields, s, k)) == decode_fields(
                Layout::Flat,
                fields,
                s,
                k,
            )->Some_0.0
            &&& forall|i: int|
                0 <= i < k ==> spells_member(
                    #[trigger] field_parts(fields, s, k)[i],
                    field_pairs(fields, s, k)[i],
                )
        },
    decreases fields, k,
{
    if k > 0 {
        lemma_emit_fields_match(fields, s, (k - 1) as nat);
        if let Some((init, used)) = emit_fields(fields, s, (k - 1) as nat) {
            if used <= s.len() {
                lemma_stream_spells(fields[k - 1].1, skip(s, used));
                if let Some((value, more)) = emitting(fields[k - 1].1, skip(s, used)) {
                    let before = field_parts(fields, s, (k - 1) as nat);
                    let part = seq![Tok::Key(fields[k - 1].0)] + value;
                    before.lemma_flatten_push(part);
                    let pairs = field_pairs(fields, s, k);
                    let pairs_before = field_pairs(fields, s, (k - 1) as nat);
                    assert(pairs.drop_last() =~= pairs_before);
                    assert(part.skip(1) =~= value);
                    assert forall|i: int| 0 <= i < k implies spells_member(
                        #[trigger] field_parts(fields, s, k)[i],
                        pairs[i],
                    ) by {}
                }
            }
        }
    }
}

/// A flat buffer is streamed exactly where it is decoded, from as many
/// bytes, and the stream is exactly the decoded document.
pub proof fn lemma_stream_spells(ty: Schema, s: Seq<u8>)
    ensures
        emitting(ty, s) is Some <==> decoding(Layout::Flat, ty, s) is Some,
        emitting(ty, s) is Some ==> emitting(ty, s)->Some_0.1 == decoding(
            Layout::Flat,
            ty,
            s,
        )->Some_0.1 && spells(emitting(ty, s)->Some_0.0, decoding(Layout::Flat, ty, s)->Some_0.0),
    decreases ty, 0nat,
{
    if let Some((tokens, used)) = emitting(ty, s) {
        match ty {
            Schema::Bytes => {
                let payload = crate::layout::parse_blob(Layout::Flat, s)->Some_0.0;
                let run = byte_toks(payload);
                let items = byte_docs(payload);
                lemma_singles_flatten(run);
                lemma_items_of_parts(seq![Tok::StartArray], singles(run), items, Seq::empty());
                assert(tokens =~= seq![Tok::StartArray] + singles(run).flatten()
                    + seq![Tok::EndArray] + Seq::empty());
            },
            Schema::Array(inner) => {
                let (n, head) = crate::layout::parse_count(Layout::Flat, s)->Some_0;
                lemma_emit_items_match(*inner, skip(s, head), n);
                let parts = item_parts(*inner, skip(s, head), n);
                let items = decode_items(Layout::Flat, *inner, skip(s, head), n)->Some_0.0;
                lemma_items_of_parts(seq![Tok::StartArray], parts, items, Seq::empty());
                assert(tokens =~= seq![Tok::StartArray] + parts.flatten() + seq![Tok::EndArray]
                    + Seq::empty());
            },
            Schema::Struct(fields) => {
                lemma_emit_fields_match(fields, s, fields.len());
                let parts = field_parts(fields, s, fields.len());
                let pairs = field_pairs(fields, s, fields.len());
                lemma_members_of_parts(seq![Tok::StartObject], parts, pairs, Seq::empty());
                assert(tokens =~= seq![Tok::StartObject] + parts.flatten()
                    + seq![Tok::EndObject] + Seq::empty());
            },
            _ => {},
        }
    } else {
        match ty {
            Schema::Array(inner) => {
                if let Some((n, head)) = crate::layout::parse_count(Layout::Flat, s) {
                    if head <= s.len() {
                        lemma_emit_items_match(*inner, skip(s, head), n);
                    }
                }
            },
            Schema::Struct(fields) => {
                lemma_emit_fields_match(fields, s, fields.len());
            },
            _ => {},
        }
    }
}

/// Streaming equivalence, decoding: the streaming decoder succeeds on
/// exactly the buffers that the reference decoder reads, takes as many
/// bytes, and the stream it emits stands for the document that the
/// reference decoder returns.
pub proof fn lemma_decode_stream_is_decode_tree(ty: Schema, s: Seq<u8>)
    ensures
        match decoding(Layout::Flat, ty, s) {
            Some((doc, used)) => emitting(ty, s) is Some && emitting(ty, s)->Some_0.1 == used
                && document_of(emitting(ty, s)->Some_0.0) == Some(doc),
            None => emitting(ty, s) is None,
        },
{
    lemma_stream_spells(ty, s);
}

/// Streaming equivalence, encoding: where a stream stands for a document
/// that structurally matches the schema, the bytes that the streaming
/// encoder writes, which are those of the reference encoder, decode to
/// that document, and streamed out again they stand for it still.
pub proof fn lemma_stream_round_trip(ty: Schema, tokens: Seq<Tok>)
    requires
        document_of(tokens) is Some,
        conforms(ty, document_of(tokens)->Some_0),
    ensures
        encoding(Layout::Flat, ty, document_of(tokens)->Some_0).failure is None,
        decoding(
            Layout::Flat,
            ty,
            encoding(Layout::Flat, ty, document_of(tokens)->Some_0).bytes,
        ) == Some(
            (
                document_of(tokens)->Some_0,
                encoding(Layout::Flat, ty, document_of(tokens)->Some_0).bytes.len(),
            ),
        ),
        emitting(ty, encoding(Layout::Flat, ty, document_of(tokens)->Some_0).bytes) is Some,
        document_of(
            emitting(
                ty,
                encoding(Layout::Flat, ty, document_of(tokens)->Some_0).bytes,
            )->Some_0.0,
        ) == document_of(tokens),
{
    let doc = document_of(tokens)->Some_0;
    lemma_round_trip(Layout::Flat, ty, doc);
    lemma_stream_spells(ty, encoding(Layout::Flat, ty, doc).bytes);
}

} // verus!
