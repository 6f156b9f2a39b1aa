//! The backing buffer and the writer bound to it.

use crate::codec::encode::encode;
use crate::codec::spec::encoding;
use crate::error::Error;
use crate::layout::Layout;
use crate::ty::Ty;
use crate::value::Value;
use vstd::prelude::*;

verus! {

/// A growable byte buffer that encodes are written into. It can be cleared
/// and used again, which keeps its allocation.
#[derive(Debug)]
pub struct FlatbinBuf {
    bytes: Vec<u8>,
}

impl View for FlatbinBuf {
    type V = Seq<u8>;

    closed spec fn view(&self) -> Seq<u8> {
        self.bytes@
    }
}

impl FlatbinBuf {
    /// An empty buffer.
    pub fn new() -> (r: FlatbinBuf)
        ensures
            r@ == Seq::<u8>::empty(),
    {
        FlatbinBuf { bytes: Vec::new() }
    }

    /// Drops the content and keeps the allocation.
    pub fn clear(&mut self)
        ensures
            final(self)@ == Seq::<u8>::empty(),
    {
        self.bytes.clear();
    }

    /// The number of bytes held.
    pub fn len(&self) -> (r: usize)
        ensures
            r == self@.len(),
    {
        self.bytes.len()
    }

    /// The content.
    pub fn as_bytes(&self) -> (r: &[u8])
        ensures
            r@ == self@,
    {
        self.bytes.as_slice()
    }

    /// The buffer's vector, for the writer and the streaming encoder.
    pub(crate) fn bytes_mut(&mut self) -> (r: &mut Vec<u8>)
        ensures
            r@ == old(self)@,
            final(self)@ == final(r)@,
    {
        &mut self.bytes
    }
}

/// An incremental writer: a cursor bound to one backing buffer for one
/// encode session. It appends after what the buffer already holds.
///
/// A write that fails leaves in the buffer the bytes appended before the
/// failure. Nothing is rolled back: the caller resets the session, or
/// clears the buffer, before the buffer is used again.
pub struct Builder<'a> {
    pub buf: &'a mut FlatbinBuf,
}

impl<'a> Builder<'a> {
    /// Begins a session on `buf`.
    pub fn new(buf: &'a mut FlatbinBuf) -> (r: Builder<'a>)
        ensures
            r.buf@ == old(buf)@,
            final(buf)@ == final(r.buf)@,
    {
        Builder { buf }
    }

    /// Appends the flat encoding of `value` against `ty`.
    pub fn write(&mut self, ty: &Ty, value: &Value) -> (r: Result<(), Error>)
        ensures
            final(self).buf@ == old(self).buf@ + encoding(Layout::Flat, ty@, value@).bytes,
            match r {
                Ok(()) => encoding(Layout::Flat, ty@, value@).failure is None,
                Err(e) => encoding(Layout::Flat, ty@, value@).failure == Some(e@),
            },
            final(final(self).buf)@ == final(old(self).buf)@,
    {
        encode(Layout::Flat, ty, value, &mut self.buf.bytes)
    }

    /// Drops what the buffer holds and keeps its allocation, so that the
    /// session starts over.
    pub fn reset(&mut self)
        ensures
            final(self).buf@ == Seq::<u8>::empty(),
            final(final(self).buf)@ == final(old(self).buf)@,
    {
        self.buf.clear();
    }
}

} // verus!
