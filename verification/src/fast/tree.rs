//! Between streams and document values: a value written out as a stream,
//! and a stream built up into a value.

use crate::assoc::{keys_of, lemma_map_of_dom, lemma_map_of_index, map_of};
use crate::error::{Error, Failure};
use crate::fast::laws::{lemma_items_of_parts, lemma_members_of_parts, spells, spells_member};
use crate::fast::token::{
    document_of, items_at, lemma_items_end, lemma_members_end, lemma_value_end, members_at, toks,
    value_at, Tok, Token,
};
use crate::value::{docs_of, Doc, Object, Value};
use vstd::prelude::*;

verus! {

/// The members that a key list and a mapping stand for, in the list's
/// order.
pub open spec fn pairs_of(keys: Seq<Seq<char>>, members: Map<Seq<char>, Doc>) -> Seq<
    (Seq<char>, Doc),
> {
    Seq::new(keys.len(), |i: int| (keys[i], members[keys[i]]))
}

/// Where a list without repetition holds exactly the keys of a mapping,
/// the members in the list's order stand for the mapping.
pub proof fn lemma_pairs_of(keys: Seq<Seq<char>>, members: Map<Seq<char>, Doc>)
    requires
        keys.no_duplicates(),
        forall|k: Seq<char>| #[trigger] members.contains_key(k) <==> keys.contains(k),
    ensures
        map_of(pairs_of(keys, members)) == members,
{
    let pairs = pairs_of(keys, members);
    assert(keys_of(pairs) =~= keys);
    lemma_map_of_dom(pairs);
    assert forall|k: Seq<char>| map_of(pairs).contains_key(k) implies map_of(pairs)[k]
        == members[k] by {
        let i = choose|i: int| 0 <= i < keys.len() && keys[i] == k;
        lemma_map_of_index(pairs, i);
    }
}

/// Appends `more` to `out`.
fn append(out: &mut Vec<Token>, more: Vec<Token>)
    ensures
        toks(final(out)@) == toks(old(out)@) + toks(more@),
{
    let mut more = more;
    out.append(&mut more);
}

/// Appends one token to `out`.
fn push(out: &mut Vec<Token>, token: Token)
    ensures
        toks(final(out)@) == toks(old(out)@) + seq![token@],
{
    out.push(token);
}

/// The stream of a document value. The members of an object come in the
/// object's own order.
pub fn tokens_of(value: &Value) -> (r: Vec<Token>)
    ensures
        document_of(toks(r@)) == Some(value@),
    decreases value, 0nat,
{
    let mut out: Vec<Token> = Vec::new();
    match value {
        Value::Null => {
            push(&mut out, Token::Null);
        },
        Value::Bool(b) => {
            push(&mut out, Token::Bool(*b));
        },
        Value::Number(n) => {
            push(&mut out, Token::Number(*n));
        },
        Value::String(s) => {
            push(&mut out, Token::String(s.clone()));
        },
        Value::Array(items) => {
            proof {
                Value::lemma_array_view(*items);
            }
            return tokens_of_items(items);
        },
        Value::Object(object) => {
            return tokens_of_members(object);
        },
    }
    out
}

/// The stream of an array.
#[verifier::loop_isolation(false)]
fn tokens_of_items(items: &Vec<Value>) -> (r: Vec<Token>)
    ensures
        document_of(toks(r@)) == Some(Doc::Array(docs_of(items@))),
    decreases items, 1nat,
{
    let ghost docs = docs_of(items@);
    let mut out: Vec<Token> = Vec::new();
    push(&mut out, Token::StartArray);
    let ghost mut parts: Seq<Seq<Tok>> = Seq::empty();
    let mut i: usize = 0;
    while i < items.len()
        invariant
            i <= items@.len(),
            parts.len() == i,
            forall|j: int| 0 <= j < i ==> spells(#[trigger] parts[j], docs[j]),
            toks(out@) == seq![Tok::StartArray] + parts.flatten(),
        decreases items@.len() - i,
    {
        let part = tokens_of(&items[i]);
        proof {
            parts.lemma_flatten_push(toks(part@));
        }
        append(&mut out, part);
        proof {
            parts = parts.push(toks(part@));
        }
        i += 1;
    }
    push(&mut out, Token::EndArray);
    proof {
        lemma_items_of_parts(seq![Tok::StartArray], parts, docs, Seq::empty());
        assert(toks(out@) =~= seq![Tok::StartArray] + parts.flatten() + seq![Tok::EndArray]
            + Seq::empty());
    }
    out
}

/// The stream of an object.
#[verifier::loop_isolation(false)]
fn tokens_of_members(object: &Object) -> (r: Vec<Token>)
    ensures
        document_of(toks(r@)) == Some(Doc::Object(object@)),
    decreases object, 1nat,
{
    let count = object.len();
    let ghost pairs = pairs_of(object.keys(), object@);
    let mut out: Vec<Token> = Vec::new();
    push(&mut out, Token::StartObject);
    let ghost mut parts: Seq<Seq<Tok>> = Seq::empty();
    let mut i: usize = 0;
    while i < count
        invariant
            i <= count,
            parts.len() == i,
            forall|j: int| 0 <= j < i ==> spells_member(#[trigger] parts[j], pairs[j]),
            toks(out@) == seq![Tok::StartObject] + parts.flatten(),
        decreases count - i,
    {
        match object.entry(i) {
            Some((key, value)) => {
                let body = tokens_of(value);
                let ghost part = seq![Tok::Key(key@)] + toks(body@);
                proof {
                    parts.lemma_flatten_push(part);
                    assert(part.skip(1) =~= toks(body@));
                }
                push(&mut out, Token::Key(key.clone()));
                append(&mut out, body);
                proof {
                    parts = parts.push(part);
                }
            },
            None => {},
        }
        i += 1;
    }
    push(&mut out, Token::EndObject);
    proof {
        lemma_pairs_of(object.keys(), object@);
        lemma_members_of_parts(seq![Tok::StartObject], parts, pairs, Seq::empty());
        assert(toks(out@) =~= seq![Tok::StartObject] + parts.flatten() + seq![Tok::EndObject]
            + Seq::empty());
    }
    out
}

/// The document value that the whole stream `tokens` stands for. A stream
/// that is no document, one that ends early or goes on after its value,
/// fails with `Serialization`.
pub fn materialize(tokens: &[Token]) -> (r: Result<Value, Error>)
    ensures
        match document_of(toks(tokens@)) {
            Some(doc) => r matches Ok(value) && value@ == doc,
            None => r matches Err(e) && e@ == Failure::Serialization,
        },
{
    match build_value(tokens, 0) {
        Some((value, end)) => if end == tokens.len() {
            Ok(value)
        } else {
            Err(Error::Serialization)
        },
        None => Err(Error::Serialization),
    }
}

/// The value that starts at `pos`, and the position after it.
fn build_value(tokens: &[Token], pos: usize) -> (r: Option<(Value, usize)>)
    ensures
        match value_at(toks(tokens@), pos as nat) {
            Some((doc, end)) => r matches Some((value, next)) && value@ == doc && next == end,
            None => r is None,
        },
    decreases tokens@.len() - pos, 0nat,
{
    let ghost t = toks(tokens@);
    proof {
        lemma_value_end(t, pos as nat);
    }
    if pos >= tokens.len() {
        return None;
    }
    let token = &tokens[pos];
    match token {
        Token::Null => Some((Value::Null, pos + 1)),
        Token::Bool(b) => Some((Value::Bool(*b), pos + 1)),
        Token::Number(n) => Some((Value::Number(*n), pos + 1)),
        Token::String(s) => Some((Value::String(s.clone()), pos + 1)),
        Token::StartArray => build_items(tokens, pos + 1),
        Token::StartObject => build_members(tokens, pos + 1),
        _ => None,
    }
}

/// The array whose elements start at `pos`, and the position after its
/// end.
#[verifier::loop_isolation(false)]
fn build_items(tokens: &[Token], pos: usize) -> (r: Option<(Value, usize)>)
    ensures
        match items_at(toks(tokens@), pos as nat) {
            Some((docs, end)) => r matches Some((value, next)) && value@ == Doc::Array(docs)
                && next == end,
            None => r is None,
        },
    decreases tokens@.len() - pos, 1nat,
{
    let ghost t = toks(tokens@);
    let mut items: Vec<Value> = Vec::new();
    let mut at = pos;
    loop
        invariant
            pos <= at,
            items_at(t, pos as nat) == match items_at(t, at as nat) {
                Some((rest, end)) => Some((docs_of(items@) + rest, end)),
                None => None,
            },
        decreases tokens@.len() - at,
    {
        proof {
            lemma_items_end(t, at as nat);
            lemma_value_end(t, at as nat);
        }
        if at >= tokens.len() {
            return None;
        }
        let token = &tokens[at];
        if let Token::EndArray = token {
            proof {
                Value::lemma_array_view(items);
            }
            return Some((Value::Array(items), at + 1));
        }
        match build_value(tokens, at) {
            Some((item, next)) => {
                proof {
                    if let Some((rest, end)) = items_at(t, next as nat) {
                        assert(docs_of(items@) + (seq![item@] + rest) =~= docs_of(
                            items@.push(item),
                        ) + rest);
                    }
                }
                items.push(item);
                at = next;
            },
            None => {
                return None;
            },
        }
    }
}

/// The object whose members start at `pos`, and the position after its
/// end.
#[verifier::loop_isolation(false)]
fn build_members(tokens: &[Token], pos: usize) -> (r: Option<(Value, usize)>)
    ensures
        match members_at(toks(tokens@), pos as nat) {
            Some((pairs, end)) => r matches Some((value, next)) && value@ == Doc::Object(
                map_of(pairs),
            ) && next == end,
            None => r is None,
        },
    decreases tokens@.len() - pos, 1nat,
{
    let ghost t = toks(tokens@);
    let mut object = Object::new();
    let mut at = pos;
    let ghost mut seen: Seq<(Seq<char>, Doc)> = Seq::empty();
    loop
        invariant
            pos <= at,
            object@ == map_of(seen),
            members_at(t, pos as nat) == match members_at(t, at as nat) {
                Some((rest, end)) => Some((seen + rest, end)),
                None => None,
            },
        decreases tokens@.len() - at,
    {
        proof {
            lemma_members_end(t, at as nat);
            lemma_value_end(t, (at + 1) as nat);
        }
        if at >= tokens.len() {
            return None;
        }
        let token = &tokens[at];
        match token {
            Token::EndObject => {
                return Some((Value::Object(object), at + 1));
            },
            Token::Key(key) => match build_value(tokens, at + 1) {
                Some((value, next)) => {
                    proof {
                        let pair = (key@, value@);
                        assert(seen.push(pair).drop_last() =~= seen);
                        seen = seen.push(pair);
                    }
                    object.insert(key.clone(), value);
                    at = next;
                },
                None => {
                    return None;
                },
            },
            _ => {
                return None;
            },
        }
    }
}

} // verus!
