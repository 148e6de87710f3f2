//! Byte buffers: the `bytes` crate as the rest of the library sees it.
//!
//! Every item here is trusted: its contract restates what the named function
//! of `bytes` does, over the two names [`content`] and [`written`].

use vstd::prelude::*;

use bytes::{BufMut, Bytes, BytesMut};

verus! {

/// The immutable buffer of the `bytes` crate.
#[verifier::external_type_specification]
#[verifier::external_body]
pub struct ExBytes(bytes::Bytes);

/// The growable buffer of the `bytes` crate.
#[verifier::external_type_specification]
#[verifier::external_body]
pub struct ExBytesMut(bytes::BytesMut);

/// The bytes that a `Bytes` holds.
pub uninterp spec fn content(b: Bytes) -> Seq<u8>;

/// The bytes that a `BytesMut` holds.
pub uninterp spec fn written(b: BytesMut) -> Seq<u8>;

/// `Bytes::len`: how many bytes are held. They are handed out as one slice,
/// so there are at most `isize::MAX` of them.
pub assume_specification[ bytes::Bytes::len ](b: &Bytes) -> (n: usize)
    ensures
        n == content(*b).len(),
        n <= isize::MAX,
;

/// `Bytes::copy_from_slice`: a buffer with a copy of the slice.
pub assume_specification[ bytes::Bytes::copy_from_slice ](data: &[u8]) -> (b: Bytes)
    ensures
        content(b) == data@,
;

/// `Bytes::clone`: another handle to the same bytes.
pub assume_specification[ <bytes::Bytes as Clone>::clone ](b: &Bytes) -> (c: Bytes)
    ensures
        content(c) == content(*b),
;

/// `BytesMut::new`: an empty buffer.
pub assume_specification[ bytes::BytesMut::new ]() -> (b: BytesMut)
    ensures
        written(b) == Seq::<u8>::empty(),
;

/// `BytesMut::with_capacity`: an empty buffer with room reserved. More than
/// `isize::MAX` bytes of room cannot be reserved.
pub assume_specification[ bytes::BytesMut::with_capacity ](capacity: usize) -> (b: BytesMut)
    requires
        capacity <= isize::MAX,
    ensures
        written(b) == Seq::<u8>::empty(),
;

/// `BytesMut::extend_from_slice`: appends the slice. A buffer never holds
/// more than `isize::MAX` bytes.
pub assume_specification[ bytes::BytesMut::extend_from_slice ](b: &mut BytesMut, extend: &[u8])
    requires
        written(*old(b)).len() + extend@.len() <= isize::MAX,
    ensures
        written(*final(b)) == written(*old(b)) + extend@,
;

/// `BytesMut::freeze`: the same bytes, no longer writable.
pub assume_specification[ bytes::BytesMut::freeze ](b: BytesMut) -> (f: Bytes)
    ensures
        content(f) == written(b),
;

/// `BufMut::put_u8` on a `BytesMut`: appends one byte.
#[verifier::external_body]
pub(crate) fn put_u8(out: &mut BytesMut, n: u8)
    requires
        written(*old(out)).len() + 1 <= isize::MAX,
    ensures
        written(*final(out)) == written(*old(out)) + seq![n],
{
    out.put_u8(n)
}

/// `BufMut::put_u16` on a `BytesMut`: appends the two bytes of `n`, the most
/// significant one first.
#[verifier::external_body]
pub(crate) fn put_u16(out: &mut BytesMut, n: u16)
    requires
        written(*old(out)).len() + 2 <= isize::MAX,
    ensures
        written(*final(out)) == written(*old(out)) + seq![(n / 256) as u8, (n % 256) as u8],
{
    out.put_u16(n)
}

/// `BufMut::put_u32` on a `BytesMut`: appends the four bytes of `n`, the most
/// significant one first.
#[verifier::external_body]
pub(crate) fn put_u32(out: &mut BytesMut, n: u32)
    requires
        written(*old(out)).len() + 4 <= isize::MAX,
    ensures
        written(*final(out)) == written(*old(out)) + seq![
            (n / 0x100_0000) as u8,
            (n / 0x1_0000 % 256) as u8,
            (n / 0x100 % 256) as u8,
            (n % 256) as u8,
        ],
{
    out.put_u32(n)
}

/// `BufMut::put_slice` on a `BytesMut`: appends the slice.
#[verifier::external_body]
pub(crate) fn put_slice(out: &mut BytesMut, src: &[u8])
    requires
        written(*old(out)).len() + src@.len() <= isize::MAX,
    ensures
        written(*final(out)) == written(*old(out)) + src@,
{
    out.put_slice(src)
}

/// `Bytes::deref`: the held bytes as a slice.
#[verifier::external_body]
pub(crate) fn as_slice(b: &Bytes) -> (s: &[u8])
    ensures
        s@ == content(*b),
{
    b
}

/// `Bytes::slice`: the bytes from `begin` up to `end`. Panics where the two
/// do not delimit a range of the buffer.
#[verifier::external_body]
pub(crate) fn slice(b: &Bytes, begin: usize, end: usize) -> (s: Bytes)
    requires
        begin <= end <= content(*b).len(),
    ensures
        content(s) == content(*b).subrange(begin as int, end as int),
{
    b.slice(begin..end)
}

/// `Bytes::from(Vec<u8>)`: takes over the bytes of the vector.
#[verifier::external_body]
pub(crate) fn from_vec(v: Vec<u8>) -> (b: Bytes)
    ensures
        content(b) == v@,
{
    Bytes::from(v)
}

/// `BytesMut::deref`: the bytes written so far as a slice.
#[verifier::external_body]
pub(crate) fn written_slice(b: &BytesMut) -> (s: &[u8])
    ensures
        s@ == written(*b),
{
    b
}

/// `BytesMut::deref_mut`: the bytes written so far as a slice to change in
/// place.
#[verifier::external_body]
pub(crate) fn written_slice_mut(b: &mut BytesMut) -> (s: &mut [u8])
    ensures
        s@ == written(*old(b)),
        written(*final(b)) == final(s)@,
{
    b
}

} // verus!
