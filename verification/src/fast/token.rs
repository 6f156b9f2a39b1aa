//! Structured streams: the tokens that a pull parser yields and that a sink
//! takes, and the document that a stream stands for.

use crate::assoc::map_of;
use crate::value::{Doc, Num, Number};
use vstd::prelude::*;

verus! {

/// One token of a structured stream.
#[derive(Debug)]
pub enum Token {
    Null,
    Bool(bool),
    Number(Number),
    String(String),
    StartArray,
    EndArray,
    StartObject,
    /// The key of an object's member; the member's value follows.
    Key(String),
    EndObject,
}

/// The model of a token.
pub enum Tok {
    Null,
    Bool(bool),
    Number(Num),
    String(Seq<char>),
    StartArray,
    EndArray,
    StartObject,
    Key(Seq<char>),
    EndObject,
}

impl View for Token {
    type V = Tok;

    open spec fn view(&self) -> Tok {
        match self {
            Token::Null => Tok::Null,
            Token::Bool(b) => Tok::Bool(*b),
            Token::Number(n) => Tok::Number(n@),
            Token::String(s) => Tok::String(s@),
            Token::StartArray => Tok::StartArray,
            Token::EndArray => Tok::EndArray,
            Token::StartObject => Tok::StartObject,
            Token::Key(k) => Tok::Key(k@),
            Token::EndObject => Tok::EndObject,
        }
    }
}

/// The models of a run of tokens.
pub open spec fn toks(tokens: Seq<Token>) -> Seq<Tok> {
    Seq::new(tokens.len(), |i: int| tokens[i]@)
}

/// The value that starts at `pos` of a stream, and the position after it.
/// An array is its elements between `StartArray` and `EndArray`; an object
/// is its members, each a key and a value, between `StartObject` and
/// `EndObject`, and of two members with one key the later one counts.
pub open spec fn value_at(t: Seq<Tok>, pos: nat) -> Option<(Doc, nat)>
    decreases t.len() - pos, 0nat,
{
    if pos >= t.len() {
        None
    } else {
        match t[pos as int] {
            Tok::Null => Some((Doc::Null, pos + 1)),
            Tok::Bool(b) => Some((Doc::Bool(b), pos + 1)),
            Tok::Number(n) => Some((Doc::Number(n), pos + 1)),
            Tok::String(s) => Some((Doc::String(s), pos + 1)),
            Tok::StartArray => match items_at(t, pos + 1) {
                Some((items, end)) => Some((Doc::Array(items), end)),
                None => None,
            },
            Tok::StartObject => match members_at(t, pos + 1) {
                Some((pairs, end)) => Some((Doc::Object(map_of(pairs)), end)),
                None => None,
            },
            _ => None,
        }
    }
}

/// The elements from `pos` up to the `EndArray` that closes them, and the
/// position after it.
pub open spec fn items_at(t: Seq<Tok>, pos: nat) -> Option<(Seq<Doc>, nat)>
    decreases t.len() - pos, 1nat,
{
    if pos >= t.len() {
        None
    } else if t[pos as int] is EndArray {
        Some((Seq::empty(), pos + 1))
    } else {
        match value_at(t, pos) {
            Some((item, next)) => if pos < next <= t.len() {
                match items_at(t, next) {
                    Some((rest, end)) => Some((seq![item] + rest, end)),
                    None => None,
                }
            } else {
                None
            },
            None => None,
        }
    }
}

/// The members from `pos` up to the `EndObject` that closes them, and the
/// position after it.
pub open spec fn members_at(t: Seq<Tok>, pos: nat) -> Option<(Seq<(Seq<char>, Doc)>, nat)>
    decreases t.len() - pos, 1nat,
{
    if pos >= t.len() {
        None
    } else {
        match t[pos as int] {
            Tok::EndObject => Some((Seq::empty(), pos + 1)),
            Tok::Key(key) => match value_at(t, pos + 1) {
                Some((value, next)) => if pos < next <= t.len() {
                    match members_at(t, next) {
                        Some((rest, end)) => Some((seq![(key, value)] + rest, end)),
                        None => None,
                    }
                } else {
                    None
                },
                None => None,
            },
            _ => None,
        }
    }
}

/// The document that a whole stream stands for: the stream is one value
/// and nothing after it.
pub open spec fn document_of(t: Seq<Tok>) -> Option<Doc> {
    match value_at(t, 0) {
        Some((doc, end)) => if end == t.len() {
            Some(doc)
        } else {
            None
        },
        None => None,
    }
}

/// Where the value that starts at `pos` ends.
pub open spec fn value_end(t: Seq<Tok>, pos: nat) -> Option<nat> {
    match value_at(t, pos) {
        Some((_, end)) => Some(end),
        None => None,
    }
}

/// Where the elements from `pos` on end.
pub open spec fn items_end(t: Seq<Tok>, pos: nat) -> Option<nat> {
    match items_at(t, pos) {
        Some((_, end)) => Some(end),
        None => None,
    }
}

/// Where the members from `pos` on end.
pub open spec fn members_end(t: Seq<Tok>, pos: nat) -> Option<nat> {
    match members_at(t, pos) {
        Some((_, end)) => Some(end),
        None => None,
    }
}

/// A value ends after its start and within the stream.
pub proof fn lemma_value_end(t: Seq<Tok>, pos: nat)
    ensures
        value_at(t, pos) matches Some((_, end)) ==> pos < end <= t.len(),
    decreases t.len() - pos, 0nat,
{
    if pos < t.len() {
        match t[pos as int] {
            Tok::StartArray => lemma_items_end(t, pos + 1),
            Tok::StartObject => lemma_members_end(t, pos + 1),
            _ => {},
        }
    }
}

/// A run of elements ends after its start and within the stream.
pub proof fn lemma_items_end(t: Seq<Tok>, pos: nat)
    ensures
        items_at(t, pos) matches Some((_, end)) ==> pos < end <= t.len(),
    decreases t.len() - pos, 1nat,
{
    if pos < t.len() && !(t[pos as int] is EndArray) {
        lemma_value_end(t, pos);
        if let Some((_, next)) = value_at(t, pos) {
            if pos < next <= t.len() {
                lemma_items_end(t, next);
            }
        }
    }
}

/// A run of members ends after its start and within the stream.
pub proof fn lemma_members_end(t: Seq<Tok>, pos: nat)
    ensures
        members_at(t, pos) matches Some((_, end)) ==> pos < end <= t.len(),
    decreases t.len() - pos, 1nat,
{
    if pos < t.len() && t[pos as int] is Key {
        lemma_value_end(t, pos + 1);
        if let Some((_, next)) = value_at(t, pos + 1) {
            if pos < next <= t.len() {
                lemma_members_end(t, next);
            }
        }
    }
}

/// The position after the value that starts at `pos`, if a value starts
/// there.
pub fn skip_value(tokens: &[Token], pos: usize) -> (r: Option<usize>)
    ensures
        r matches Some(end) ==> pos < end <= tokens@.len(),
        match r {
            Some(end) => value_end(toks(tokens@), pos as nat) == Some(end as nat),
            None => value_end(toks(tokens@), pos as nat) is None,
        },
    decreases tokens@.len() - pos, 0nat,
{
    let ghost t = toks(tokens@);
    proof {
        lemma_value_end(t, pos as nat);
    }
    if pos >= tokens.len() {
        return None;
    }
    match &tokens[pos] {
        Token::Null | Token::Bool(_) | Token::Number(_) | Token::String(_) => Some(pos + 1),
        Token::StartArray => skip_items(tokens, pos + 1),
        Token::StartObject => skip_members(tokens, pos + 1),
        _ => None,
    }
}

/// The position after the `EndArray` that closes the elements from `pos`
/// on.
#[verifier::loop_isolation(false)]
pub fn skip_items(tokens: &[Token], pos: usize) -> (r: Option<usize>)
    ensures
        r matches Some(end) ==> pos < end <= tokens@.len(),
        match r {
            Some(end) => items_end(toks(tokens@), pos as nat) == Some(end as nat),
            None => items_end(toks(tokens@), pos as nat) is None,
        },
    decreases tokens@.len() - pos, 1nat,
{
    let ghost t = toks(tokens@);
    let mut at = pos;
    loop
        invariant
            pos <= at,
            items_end(t, at as nat) == items_end(t, pos as nat),
        decreases tokens@.len() - at,
    {
        proof {
            lemma_items_end(t, at as nat);
        }
        if at >= tokens.len() {
            return None;
        }
        if let Token::EndArray = &tokens[at] {
            return Some(at + 1);
        }
        match skip_value(tokens, at) {
            Some(next) => {
                at = next;
            },
            None => {
                return None;
            },
        }
    }
}

/// The position after the `EndObject` that closes the members from `pos`
/// on.
#[verifier::loop_isolation(false)]
pub fn skip_members(tokens: &[Token], pos: usize) -> (r: Option<usize>)
    ensures
        r matches Some(end) ==> pos < end <= tokens@.len(),
        match r {
            Some(end) => members_end(toks(tokens@), pos as nat) == Some(end as nat),
            None => members_end(toks(tokens@), pos as nat) is None,
        },
    decreases tokens@.len() - pos, 1nat,
{
    let ghost t = toks(tokens@);
    let mut at = pos;
    loop
        invariant
            pos <= at,
            members_end(t, at as nat) == members_end(t, pos as nat),
        decreases tokens@.len() - at,
    {
        proof {
            lemma_members_end(t, at as nat);
        }
        if at >= tokens.len() {
            return None;
        }
        match &tokens[at] {
            Token::EndObject => {
                return Some(at + 1);
            },
            Token::Key(_) => match skip_value(tokens, at + 1) {
                Some(next) => {
                    at = next;
                },
                None => {
                    return None;
                },
            },
            _ => {
                return None;
            },
        }
    }
}

} // verus!
