//! The two byte layouts and their primitives. Both layouts are tag-free and
//! positional; they differ in how integers and lengths are written.

use crate::binc::wire::{
    bool_byte, get_bool, get_i64, get_u64, parse_bool_byte, parse_varint, parse_zigzag, put_bool,
    put_i64, put_str, put_u64, put_u8, unzigzag, varint, zigzag,
};
use crate::error::{Error, Failure};
use crate::text::str_from_utf8;
use vstd::bytes::{
    lemma_auto_spec_u16_to_from_le_bytes, lemma_auto_spec_u32_to_from_le_bytes,
    lemma_auto_spec_u64_to_from_le_bytes, spec_u64_from_le_bytes, spec_u64_to_le_bytes,
    u64_from_le_bytes, u64_to_le_bytes,
};
use vstd::prelude::*;
use vstd::slice::{slice_subrange, slice_to_vec};
use vstd::utf8::{decode_utf8, encode_utf8, valid_utf8};

verus! {

/// A byte layout.
#[derive(Clone, Copy, Debug, PartialEq, Eq)]
pub enum Layout {
    /// Integers and lengths in variable width, signed integers in zigzag
    /// form.
    Varint,
    /// Integers and lengths in 8 little-endian bytes.
    Flat,
}

/// An unsigned integer in a layout.
pub open spec fn uint_bytes(layout: Layout, n: u64) -> Seq<u8> {
    match layout {
        Layout::Varint => varint(n),
        Layout::Flat => spec_u64_to_le_bytes(n),
    }
}

/// A signed integer in a layout.
pub open spec fn int_bytes(layout: Layout, i: i64) -> Seq<u8> {
    match layout {
        Layout::Varint => varint(zigzag(i)),
        Layout::Flat => spec_u64_to_le_bytes(i as u64),
    }
}

/// A boolean: one byte, 0 or 1.
pub open spec fn bool_bytes(b: bool) -> Seq<u8> {
    bool_byte(b)
}

/// A float, given by its bit pattern: 8 little-endian bytes.
pub open spec fn float_bytes(bits: u64) -> Seq<u8> {
    spec_u64_to_le_bytes(bits)
}

/// A length or a count.
pub open spec fn count_bytes(layout: Layout, n: nat) -> Seq<u8> {
    uint_bytes(layout, n as u64)
}

/// A string: the length of its UTF-8 form, then those bytes.
pub open spec fn text_bytes(layout: Layout, s: Seq<char>) -> Seq<u8> {
    count_bytes(layout, encode_utf8(s).len()) + encode_utf8(s)
}

/// What is left of `s` after its first `n` bytes.
pub open spec fn skip(s: Seq<u8>, n: nat) -> Seq<u8> {
    s.subrange(n as int, s.len() as int)
}

/// Reads an unsigned integer from the front of `s`: the value and the
/// number of bytes taken.
pub open spec fn parse_uint(layout: Layout, s: Seq<u8>) -> Option<(u64, nat)> {
    match layout {
        Layout::Varint => parse_varint(s),
        Layout::Flat => if s.len() >= 8 {
            Some((spec_u64_from_le_bytes(s.subrange(0, 8)), 8nat))
        } else {
            None
        },
    }
}

/// Reads a signed integer from the front of `s`.
pub open spec fn parse_int(layout: Layout, s: Seq<u8>) -> Option<(i64, nat)> {
    match layout {
        Layout::Varint => parse_zigzag(s),
        Layout::Flat => if s.len() >= 8 {
            Some((spec_u64_from_le_bytes(s.subrange(0, 8)) as i64, 8nat))
        } else {
            None
        },
    }
}

/// Reads a boolean from the front of `s`.
pub open spec fn parse_bool(s: Seq<u8>) -> Option<(bool, nat)> {
    parse_bool_byte(s)
}

/// Reads the bit pattern of a float from the front of `s`.
pub open spec fn parse_float(s: Seq<u8>) -> Option<(u64, nat)> {
    if s.len() >= 8 {
        Some((spec_u64_from_le_bytes(s.subrange(0, 8)), 8nat))
    } else {
        None
    }
}

/// Reads a length or a count from the front of `s`: one that a `usize`
/// holds.
pub open spec fn parse_count(layout: Layout, s: Seq<u8>) -> Option<(nat, nat)> {
    match parse_uint(layout, s) {
        Some((n, used)) => if n <= usize::MAX {
            Some((n as nat, used))
        } else {
            None
        },
        None => None,
    }
}

/// Reads a length and that many bytes from the front of `s`: the bytes and
/// the number of bytes taken in all.
pub open spec fn parse_blob(layout: Layout, s: Seq<u8>) -> Option<(Seq<u8>, nat)> {
    match parse_count(layout, s) {
        Some((n, used)) => if used + n <= s.len() {
            Some((s.subrange(used as int, (used + n) as int), used + n))
        } else {
            None
        },
        None => None,
    }
}

/// Reads a string from the front of `s`: a length and that many bytes,
/// which must be valid UTF-8.
pub open spec fn parse_text(layout: Layout, s: Seq<u8>) -> Option<(Seq<char>, nat)> {
    match parse_blob(layout, s) {
        Some((payload, used)) => if valid_utf8(payload) {
            Some((decode_utf8(payload), used))
        } else {
            None
        },
        None => None,
    }
}

/// Appends an unsigned integer.
pub fn put_uint(layout: Layout, out: &mut Vec<u8>, n: u64) -> (r: Result<(), Error>)
    ensures
        r is Ok,
        final(out)@ == old(out)@ + uint_bytes(layout, n),
{
    match layout {
        Layout::Varint => match put_u64(out, n) {
            Ok(()) => Ok(()),
            Err(_) => Err(Error::Serialization),
        },
        Layout::Flat => {
            let mut bytes = u64_to_le_bytes(n);
            out.append(&mut bytes);
            Ok(())
        },
    }
}

/// Appends a signed integer.
pub fn put_int(layout: Layout, out: &mut Vec<u8>, i: i64) -> (r: Result<(), Error>)
    ensures
        r is Ok,
        final(out)@ == old(out)@ + int_bytes(layout, i),
{
    match layout {
        Layout::Varint => match put_i64(out, i) {
            Ok(()) => Ok(()),
            Err(_) => Err(Error::Serialization),
        },
        Layout::Flat => {
            let mut bytes = u64_to_le_bytes(i as u64);
            out.append(&mut bytes);
            Ok(())
        },
    }
}

/// Appends a boolean.
pub fn put_flag(layout: Layout, out: &mut Vec<u8>, b: bool) -> (r: Result<(), Error>)
    ensures
        r is Ok,
        final(out)@ == old(out)@ + bool_bytes(b),
{
    match layout {
        Layout::Varint => match put_bool(out, b) {
            Ok(()) => Ok(()),
            Err(_) => Err(Error::Serialization),
        },
        Layout::Flat => {
            out.push(if b { 1u8 } else { 0u8 });
            Ok(())
        },
    }
}

/// Appends one byte.
pub fn put_byte(layout: Layout, out: &mut Vec<u8>, b: u8) -> (r: Result<(), Error>)
    ensures
        r is Ok,
        final(out)@ == old(out)@.push(b),
{
    match layout {
        Layout::Varint => match put_u8(out, b) {
            Ok(()) => Ok(()),
            Err(_) => Err(Error::Serialization),
        },
        Layout::Flat => {
            out.push(b);
            Ok(())
        },
    }
}

/// Appends a float, given by its bit pattern.
pub fn put_float(out: &mut Vec<u8>, bits: u64)
    ensures
        final(out)@ == old(out)@ + float_bytes(bits),
{
    let mut bytes = u64_to_le_bytes(bits);
    out.append(&mut bytes);
}

/// Appends a string.
pub fn put_text(layout: Layout, out: &mut Vec<u8>, text: &str) -> (r: Result<(), Error>)
    ensures
        r is Ok,
        final(out)@ == old(out)@ + text_bytes(layout, text@),
{
    match layout {
        Layout::Varint => match put_str(out, text) {
            Ok(()) => {
                Ok(())
            },
            Err(_) => Err(Error::Serialization),
        },
        Layout::Flat => {
            let payload = text.as_bytes();
            let mut head = u64_to_le_bytes(payload.len() as u64);
            let mut body = slice_to_vec(payload);
            out.append(&mut head);
            out.append(&mut body);
            Ok(())
        },
    }
}

/// Appends room for a count of the flat layout, to be filled in once the
/// count is known; returns where it stands.
pub(crate) fn reserve_count(out: &mut Vec<u8>) -> (at: usize)
    ensures
        at == old(out)@.len(),
        final(out)@.len() == old(out)@.len() + 8,
        final(out)@.subrange(0, at as int) == old(out)@,
{
    let at = out.len();
    let mut room = u64_to_le_bytes(0);
    out.append(&mut room);
    at
}

/// Writes a count of the flat layout into the room reserved at `at`.
pub(crate) fn patch_count(out: &mut Vec<u8>, at: usize, n: usize)
    requires
        at + 8 <= old(out)@.len(),
    ensures
        final(out)@ == old(out)@.subrange(0, at as int) + count_bytes(Layout::Flat, n as nat)
            + old(out)@.subrange(at + 8, old(out)@.len() as int),
{
    let bytes = u64_to_le_bytes(n as u64);
    let len = out.len();
    let mut j: usize = 0;
    while j < 8
        invariant
            j <= 8,
            bytes@.len() == 8,
            at + 8 <= len,
            at + 8 <= out@.len(),
            out@.len() == old(out)@.len(),
            forall|i: int| 0 <= i < at ==> out@[i] == old(out)@[i],
            forall|i: int| at + 8 <= i < out@.len() ==> out@[i] == old(out)@[i],
            forall|i: int| 0 <= i < j ==> out@[at + i] == bytes@[i],
        decreases 8 - j,
    {
        out.set(at + j, bytes[j]);
        j += 1;
    }
    assert(out@ =~= old(out)@.subrange(0, at as int) + bytes@ + old(out)@.subrange(
        at + 8,
        old(out)@.len() as int,
    ));
}

/// Reads an unsigned integer at `pos`: the value and the position after it.
pub(crate) fn take_uint(layout: Layout, input: &[u8], pos: usize) -> (r: Result<(u64, usize), Error>)
    requires
        pos <= input@.len(),
    ensures
        match parse_uint(layout, skip(input@, pos as nat)) {
            Some((v, used)) => r matches Ok((w, next)) && w == v && next == pos + used && next <= input@.len(),
            None => r matches Err(e) && e@ == Failure::Serialization,
        },
{
    match layout {
        Layout::Varint => match get_u64(slice_subrange(input, pos, input.len())) {
            Ok((v, left)) => Ok((v, input.len() - left)),
            Err(_) => Err(Error::Serialization),
        },
        Layout::Flat => {
            if input.len() - pos >= 8 {
                let v = u64_from_le_bytes(slice_subrange(input, pos, pos + 8));
                assert(input@.subrange(pos as int, pos + 8) =~= skip(input@, pos as nat).subrange(
                    0,
                    8,
                ));
                Ok((v, pos + 8))
            } else {
                Err(Error::Serialization)
            }
        },
    }
}

/// Reads a signed integer at `pos`: the value and the position after it.
pub(crate) fn take_int(layout: Layout, input: &[u8], pos: usize) -> (r: Result<(i64, usize), Error>)
    requires
        pos <= input@.len(),
    ensures
        match parse_int(layout, skip(input@, pos as nat)) {
            Some((v, used)) => r matches Ok((w, next)) && w == v && next == pos + used && next <= input@.len(),
            None => r matches Err(e) && e@ == Failure::Serialization,
        },
{
    match layout {
        Layout::Varint => match get_i64(slice_subrange(input, pos, input.len())) {
            Ok((v, left)) => Ok((v, input.len() - left)),
            Err(_) => Err(Error::Serialization),
        },
        Layout::Flat => {
            if input.len() - pos >= 8 {
                let v = u64_from_le_bytes(slice_subrange(input, pos, pos + 8));
                assert(input@.subrange(pos as int, pos + 8) =~= skip(input@, pos as nat).subrange(
                    0,
                    8,
                ));
                Ok((v as i64, pos + 8))
            } else {
                Err(Error::Serialization)
            }
        },
    }
}

/// Reads a boolean at `pos`: the value and the position after it.
pub(crate) fn take_flag(layout: Layout, input: &[u8], pos: usize) -> (r: Result<(bool, usize), Error>)
    requires
        pos <= input@.len(),
    ensures
        match parse_bool(skip(input@, pos as nat)) {
            Some((v, used)) => r matches Ok((w, next)) && w == v && next == pos + used && next <= input@.len(),
            None => r matches Err(e) && e@ == Failure::Serialization,
        },
{
    match layout {
        Layout::Varint => match get_bool(slice_subrange(input, pos, input.len())) {
            Ok((v, left)) => Ok((v, input.len() - left)),
            Err(_) => Err(Error::Serialization),
        },
        Layout::Flat => {
            if pos < input.len() && input[pos] <= 1 {
                Ok((input[pos] == 1, pos + 1))
            } else {
                Err(Error::Serialization)
            }
        },
    }
}

/// Reads the bit pattern of a float at `pos`, and the position after it.
pub(crate) fn take_float(input: &[u8], pos: usize) -> (r: Result<(u64, usize), Error>)
    requires
        pos <= input@.len(),
    ensures
        match parse_float(skip(input@, pos as nat)) {
            Some((v, used)) => r matches Ok((w, next)) && w == v && next == pos + used && next <= input@.len(),
            None => r matches Err(e) && e@ == Failure::Serialization,
        },
{
    if input.len() - pos >= 8 {
        let v = u64_from_le_bytes(slice_subrange(input, pos, pos + 8));
        assert(input@.subrange(pos as int, pos + 8) =~= skip(input@, pos as nat).subrange(0, 8));
        Ok((v, pos + 8))
    } else {
        Err(Error::Serialization)
    }
}

/// Reads a length or a count at `pos`, and the position after it.
pub(crate) fn take_count(layout: Layout, input: &[u8], pos: usize) -> (r: Result<(usize, usize), Error>)
    requires
        pos <= input@.len(),
    ensures
        match parse_count(layout, skip(input@, pos as nat)) {
            Some((n, used)) => r matches Ok((m, next)) && m == n && next == pos + used && next <= input@.len(),
            None => r matches Err(e) && e@ == Failure::Serialization,
        },
{
    let (n, next) = take_uint(layout, input, pos)?;
    if n <= usize::MAX as u64 {
        Ok((n as usize, next))
    } else {
        Err(Error::Serialization)
    }
}

/// Reads a length and that many bytes at `pos`: the bytes and the position
/// after them.
pub(crate) fn take_blob<'a>(layout: Layout, input: &'a [u8], pos: usize) -> (r: Result<
    (&'a [u8], usize),
    Error,
>)
    requires
        pos <= input@.len(),
    ensures
        match parse_blob(layout, skip(input@, pos as nat)) {
            Some((payload, used)) => r matches Ok((bytes, next)) && bytes@ == payload && next
                == pos + used && next <= input@.len(),
            None => r matches Err(e) && e@ == Failure::Serialization,
        },
{
    let (n, start) = take_count(layout, input, pos)?;
    if n <= input.len() - start {
        let bytes = slice_subrange(input, start, start + n);
        Ok((bytes, start + n))
    } else {
        Err(Error::Serialization)
    }
}

/// Reads a string at `pos`, and the position after it.
pub(crate) fn take_text(layout: Layout, input: &[u8], pos: usize) -> (r: Result<(String, usize), Error>)
    requires
        pos <= input@.len(),
    ensures
        match parse_text(layout, skip(input@, pos as nat)) {
            Some((text, used)) => r matches Ok((s, next)) && s@ == text && next == pos + used && next <= input@.len(),
            None => r matches Err(e) && e@ == Failure::Serialization,
        },
{
    let (bytes, next) = take_blob(layout, input, pos)?;
    match str_from_utf8(bytes) {
        Some(s) => Ok((s.to_owned(), next)),
        None => Err(Error::Serialization),
    }
}

/// An unsigned integer, written and read back, is itself.
pub proof fn lemma_uint_round_trip(layout: Layout, n: u64, rest: Seq<u8>)
    ensures
        parse_uint(layout, uint_bytes(layout, n) + rest) == Some(
            (n, uint_bytes(layout, n).len()),
        ),
{
    lemma_auto_spec_u16_to_from_le_bytes();
    lemma_auto_spec_u32_to_from_le_bytes();
    lemma_auto_spec_u64_to_from_le_bytes();
    let s = uint_bytes(layout, n) + rest;
    match layout {
        Layout::Varint => {
            if 250 < n <= 0xffff {
                assert(s.subrange(1, 3) =~= vstd::bytes::spec_u16_to_le_bytes(n as u16));
            } else if 0xffff < n <= 0xffff_ffff {
                assert(s.subrange(1, 5) =~= vstd::bytes::spec_u32_to_le_bytes(n as u32));
            } else if n > 0xffff_ffff {
                assert(s.subrange(1, 9) =~= spec_u64_to_le_bytes(n));
            }
        },
        Layout::Flat => {
            assert(s.subrange(0, 8) =~= spec_u64_to_le_bytes(n));
        },
    }
}

/// Zigzag is undone by its inverse.
pub proof fn lemma_zigzag_round_trip(i: i64)
    ensures
        unzigzag(zigzag(i)) == i,
{
}

/// A signed integer, written and read back, is itself.
pub proof fn lemma_int_round_trip(layout: Layout, i: i64, rest: Seq<u8>)
    ensures
        parse_int(layout, int_bytes(layout, i) + rest) == Some((i, int_bytes(layout, i).len())),
{
    match layout {
        Layout::Varint => {
            lemma_uint_round_trip(layout, zigzag(i), rest);
            lemma_zigzag_round_trip(i);
        },
        Layout::Flat => {
            lemma_auto_spec_u64_to_from_le_bytes();
            let s = int_bytes(layout, i) + rest;
            assert(s.subrange(0, 8) =~= spec_u64_to_le_bytes(i as u64));
            assert((i as u64) as i64 == i) by (bit_vector);
        },
    }
}

/// A boolean, written and read back, is itself.
pub proof fn lemma_bool_round_trip(b: bool, rest: Seq<u8>)
    ensures
        parse_bool(bool_bytes(b) + rest) == Some((b, 1nat)),
{
}

/// A float's bit pattern, written and read back, is itself.
pub proof fn lemma_float_round_trip(bits: u64, rest: Seq<u8>)
    ensures
        parse_float(float_bytes(bits) + rest) == Some((bits, float_bytes(bits).len())),
{
    lemma_auto_spec_u64_to_from_le_bytes();
    assert((float_bytes(bits) + rest).subrange(0, 8) =~= spec_u64_to_le_bytes(bits));
}

/// A length and its bytes, written and read back, are those bytes.
pub proof fn lemma_blob_round_trip(layout: Layout, payload: Seq<u8>, rest: Seq<u8>)
    requires
        payload.len() <= usize::MAX,
    ensures
        parse_blob(layout, count_bytes(layout, payload.len()) + payload + rest) == Some(
            (payload, count_bytes(layout, payload.len()).len() + payload.len()),
        ),
{
    let head = count_bytes(layout, payload.len());
    let s = head + payload + rest;
    lemma_uint_round_trip(layout, payload.len() as u64, payload + rest);
    assert(s =~= head + (payload + rest));
}

/// A string, written and read back, is itself.
pub proof fn lemma_text_round_trip(layout: Layout, text: Seq<char>, rest: Seq<u8>)
    requires
        encode_utf8(text).len() <= usize::MAX,
    ensures
        parse_text(layout, text_bytes(layout, text) + rest) == Some(
            (text, text_bytes(layout, text).len()),
        ),
{
    lemma_blob_round_trip(layout, encode_utf8(text), rest);
    vstd::utf8::encode_utf8_valid_utf8(text);
    vstd::utf8::encode_utf8_decode_utf8(text);
}

} // verus!
