//! The primitives of the variable-length layout, and the calls that write
//! and read them.

use bincode::Options;
use vstd::bytes::{
    spec_u16_from_le_bytes, spec_u16_to_le_bytes, spec_u32_from_le_bytes, spec_u32_to_le_bytes,
    spec_u64_from_le_bytes, spec_u64_to_le_bytes,
};
use vstd::prelude::*;
use vstd::string::StringSliceAdditionalSpecFns;

verus! {

#[verifier::external_type_specification]
#[verifier::external_body]
pub struct ExErrorKind(bincode::ErrorKind);

/// The variable-width form of an unsigned integer: one byte up to 250, else
/// a marker byte and the integer in 2, 4 or 8 little-endian bytes.
pub open spec fn varint(n: u64) -> Seq<u8> {
    if n <= 250 {
        seq![n as u8]
    } else if n <= 0xffff {
        seq![251u8] + spec_u16_to_le_bytes(n as u16)
    } else if n <= 0xffff_ffff {
        seq![252u8] + spec_u32_to_le_bytes(n as u32)
    } else {
        seq![253u8] + spec_u64_to_le_bytes(n)
    }
}

/// The unsigned integer that stands for a signed one: 0, -1, 1, -2, 2, ...
/// become 0, 1, 2, 3, 4, ...
pub open spec fn zigzag(i: i64) -> u64 {
    if i < 0 {
        (-2 * i - 1) as u64
    } else {
        (2 * i) as u64
    }
}

/// The signed integer that an unsigned one stands for.
pub open spec fn unzigzag(n: u64) -> i64 {
    if n % 2 == 0 {
        (n / 2) as i64
    } else {
        (-(n / 2) - 1) as i64
    }
}

/// One byte, 0 or 1.
pub open spec fn bool_byte(b: bool) -> Seq<u8> {
    seq![if b { 1u8 } else { 0u8 }]
}

/// Reads an unsigned integer from the front of `s`: the integer and the
/// number of bytes it took. Any marker is accepted with any value after it;
/// the markers 254 and 255 are not.
pub open spec fn parse_varint(s: Seq<u8>) -> Option<(u64, nat)> {
    if s.len() < 1 {
        None
    } else if s[0] <= 250 {
        Some((s[0] as u64, 1nat))
    } else if s[0] == 251 {
        if s.len() >= 3 {
            Some((spec_u16_from_le_bytes(s.subrange(1, 3)) as u64, 3nat))
        } else {
            None
        }
    } else if s[0] == 252 {
        if s.len() >= 5 {
            Some((spec_u32_from_le_bytes(s.subrange(1, 5)) as u64, 5nat))
        } else {
            None
        }
    } else if s[0] == 253 {
        if s.len() >= 9 {
            Some((spec_u64_from_le_bytes(s.subrange(1, 9)), 9nat))
        } else {
            None
        }
    } else {
        None
    }
}

/// Reads a signed integer from the front of `s`.
pub open spec fn parse_zigzag(s: Seq<u8>) -> Option<(i64, nat)> {
    match parse_varint(s) {
        Some((n, used)) => Some((unzigzag(n), used)),
        None => None,
    }
}

/// Reads a boolean from the front of `s`: a byte that is 0 or 1.
pub open spec fn parse_bool_byte(s: Seq<u8>) -> Option<(bool, nat)> {
    if s.len() >= 1 && s[0] <= 1 {
        Some((s[0] == 1, 1nat))
    } else {
        None
    }
}

/// Appends a boolean with `bincode::Options::serialize_into`, under
/// `bincode::DefaultOptions`. Those options set no size limit, so only the
/// writer could fail, and a vector does not: the call succeeds and the
/// buffer grows by one byte, 0 or 1.
#[verifier::external_body]
pub(crate) fn put_bool(buffer: &mut Vec<u8>, v: bool) -> (r: Result<(), bincode::Error>)
    ensures
        r is Ok,
        final(buffer)@ == old(buffer)@ + bool_byte(v),
{
    bincode::DefaultOptions::new().serialize_into(buffer, &v)
}

/// Appends one byte with `bincode::Options::serialize_into`, under
/// `bincode::DefaultOptions`: a `u8` is written as itself.
#[verifier::external_body]
pub(crate) fn put_u8(buffer: &mut Vec<u8>, v: u8) -> (r: Result<(), bincode::Error>)
    ensures
        r is Ok,
        final(buffer)@ == old(buffer)@.push(v),
{
    bincode::DefaultOptions::new().serialize_into(buffer, &v)
}

/// Appends a `u64` with `bincode::Options::serialize_into`, under
/// `bincode::DefaultOptions`, whose integer encoding is the variable-width
/// one in little-endian order.
#[verifier::external_body]
pub(crate) fn put_u64(buffer: &mut Vec<u8>, v: u64) -> (r: Result<(), bincode::Error>)
    ensures
        r is Ok,
        final(buffer)@ == old(buffer)@ + varint(v),
{
    bincode::DefaultOptions::new().serialize_into(buffer, &v)
}

/// Appends an `i64` with `bincode::Options::serialize_into`, under
/// `bincode::DefaultOptions`: the zigzag form of the integer, written as an
/// unsigned one.
#[verifier::external_body]
pub(crate) fn put_i64(buffer: &mut Vec<u8>, v: i64) -> (r: Result<(), bincode::Error>)
    ensures
        r is Ok,
        final(buffer)@ == old(buffer)@ + varint(zigzag(v)),
{
    bincode::DefaultOptions::new().serialize_into(buffer, &v)
}

/// Appends a string with `bincode::Options::serialize_into`, under
/// `bincode::DefaultOptions`: the length of its UTF-8 form as an unsigned
/// integer, then those bytes.
#[verifier::external_body]
pub(crate) fn put_str(buffer: &mut Vec<u8>, v: &str) -> (r: Result<(), bincode::Error>)
    ensures
        r is Ok,
        final(buffer)@ == old(buffer)@ + varint(v.spec_bytes().len() as u64) + v.spec_bytes(),
{
    bincode::DefaultOptions::new().serialize_into(buffer, v)
}

/// Reads a boolean from the front of `input` with
/// `bincode::Options::deserialize_from`, under `bincode::DefaultOptions`.
/// Returns the value and how many bytes of `input` are left; fails where
/// the input is empty or its first byte is neither 0 nor 1.
#[verifier::external_body]
pub(crate) fn get_bool(input: &[u8]) -> (r: Result<(bool, usize), bincode::Error>)
    ensures
        match r {
            Ok((v, left)) => left <= input@.len() && parse_bool_byte(input@) == Some(
                (v, (input@.len() - left) as nat),
            ),
            Err(_) => parse_bool_byte(input@) is None,
        },
{
    let mut reader = input;
    let v: bool = bincode::DefaultOptions::new().deserialize_from(&mut reader)?;
    Ok((v, reader.len()))
}

/// Reads a `u64` from the front of `input` with
/// `bincode::Options::deserialize_from`, under `bincode::DefaultOptions`.
/// Returns the value and how many bytes of `input` are left; fails where
/// the input ends early or starts with the marker 254 or 255.
#[verifier::external_body]
pub(crate) fn get_u64(input: &[u8]) -> (r: Result<(u64, usize), bincode::Error>)
    ensures
        match r {
            Ok((v, left)) => left <= input@.len() && parse_varint(input@) == Some(
                (v, (input@.len() - left) as nat),
            ),
            Err(_) => parse_varint(input@) is None,
        },
{
    let mut reader = input;
    let v: u64 = bincode::DefaultOptions::new().deserialize_from(&mut reader)?;
    Ok((v, reader.len()))
}

/// Reads an `i64` from the front of `input` with
/// `bincode::Options::deserialize_from`, under `bincode::DefaultOptions`:
/// an unsigned integer, taken out of its zigzag form.
#[verifier::external_body]
pub(crate) fn get_i64(input: &[u8]) -> (r: Result<(i64, usize), bincode::Error>)
    ensures
        match r {
            Ok((v, left)) => left <= input@.len() && parse_zigzag(input@) == Some(
                (v, (input@.len() - left) as nat),
            ),
            Err(_) => parse_zigzag(input@) is None,
        },
{
    let mut reader = input;
    let v: i64 = bincode::DefaultOptions::new().deserialize_from(&mut reader)?;
    Ok((v, reader.len()))
}

} // verus!
