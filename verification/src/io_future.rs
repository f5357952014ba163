use vstd::prelude::*;

verus! {

/// A pending read of `buf` from `reader`: polling it reads once the
/// reader's source is readable.
pub struct AsyncRead<'a, R> {
    pub reader: &'a mut R,
    pub buf: &'a mut [u8],
}

/// Builds the future that reads into `buf` from `reader`.
pub fn read<'a, R>(reader: &'a mut R, buf: &'a mut [u8]) -> (r: AsyncRead<'a, R>)
    ensures
        *r.reader == *old(reader),
        r.buf@ == old(buf)@,
        *final(reader) == *final(r.reader),
        final(buf)@ == final(r.buf)@,
{
    AsyncRead { reader: reader, buf: buf }
}

/// A pending write of `buf` to `writer`.
pub struct AsyncWrite<'a, W> {
    pub writer: &'a mut W,
    pub buf: &'a mut [u8],
}

/// Builds the future that writes `buf` to `writer`.
pub fn write<'a, W>(writer: &'a mut W, buf: &'a mut [u8]) -> (r: AsyncWrite<'a, W>)
    ensures
        *r.writer == *old(writer),
        r.buf@ == old(buf)@,
        *final(writer) == *final(r.writer),
        final(buf)@ == final(r.buf)@,
{
    AsyncWrite { writer: writer, buf: buf }
}

} // verus!
