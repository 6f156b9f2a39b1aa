//! What can go wrong while a document is encoded or decoded.

use crate::names::NameSet;
use vstd::prelude::*;

verus! {

/// The failure of an encode or a decode.
#[derive(Debug)]
#[allow(inconsistent_fields)]
pub enum Error {
    /// The value's kind is not the one the schema node asks for.
    UnexpectedType { expected: &'static str, got: &'static str },
    /// An element of a byte array is not an integer between 0 and 255.
    NotAByte,
    /// The keys of an object are not exactly the fields of its struct node.
    FieldMismatch {
        expected_len: usize,
        expected: NameSet,
        got_len: usize,
        got: NameSet,
        missing: NameSet,
        extra: NameSet,
    },
    /// The bytes cannot be read as the schema asks.
    Serialization,
}

/// The model of an [`Error`].
#[allow(inconsistent_fields)]
pub enum Failure {
    UnexpectedType { expected: Seq<char>, got: Seq<char> },
    NotAByte,
    FieldMismatch {
        expected_len: nat,
        expected: Set<Seq<char>>,
        got_len: nat,
        got: Set<Seq<char>>,
        missing: Set<Seq<char>>,
        extra: Set<Seq<char>>,
    },
    Serialization,
}

impl View for Error {
    type V = Failure;

    open spec fn view(&self) -> Failure {
        match self {
            Error::UnexpectedType { expected, got } => Failure::UnexpectedType {
                expected: expected@,
                got: got@,
            },
            Error::NotAByte => Failure::NotAByte,
            Error::FieldMismatch { expected_len, expected, got_len, got, missing, extra } => {
                Failure::FieldMismatch {
                    expected_len: *expected_len as nat,
                    expected: expected@,
                    got_len: *got_len as nat,
                    got: got@,
                    missing: missing@,
                    extra: extra@,
                }
            },
            Error::Serialization => Failure::Serialization,
        }
    }
}

} // verus!
