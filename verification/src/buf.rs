//! What the library relies on of the `bytes` crate.
//!
//! `Bytes` and `BytesMut` are opaque here; `content` and `buffered` name the
//! bytes that a value of each holds, and every contract below is stated over
//! those names.

use bytes::{Buf, BufMut, Bytes, BytesMut};
use vstd::prelude::*;

use crate::bigendian::{be, from_be};

verus! {

/// `bytes::Bytes`, a handle on bytes that are shared and never change.
#[verifier::external_type_specification]
#[verifier::external_body]
pub struct ExBytes(bytes::Bytes);

/// `bytes::BytesMut`, a buffer that grows at its end and is read from its front.
#[verifier::external_type_specification]
#[verifier::external_body]
pub struct ExBytesMut(bytes::BytesMut);

/// The bytes that a `Bytes` handle shows.
pub uninterp spec fn content(b: Bytes) -> Seq<u8>;

/// The bytes that a `BytesMut` buffer holds, oldest first.
pub uninterp spec fn buffered(b: BytesMut) -> Seq<u8>;

/// `Bytes::len` is the number of bytes that the handle shows.
pub assume_specification[ bytes::Bytes::len ](b: &bytes::Bytes) -> (n: usize)
    ensures
        n == content(*b).len(),
;

/// `Bytes::copy_from_slice` shows a copy of the slice.
pub assume_specification[ bytes::Bytes::copy_from_slice ](data: &[u8]) -> (b: bytes::Bytes)
    ensures
        content(b) == data@,
;

/// Cloning a `Bytes` handle gives a handle on the same bytes.
pub assume_specification[ <bytes::Bytes as Clone>::clone ](b: &bytes::Bytes) -> (r: bytes::Bytes)
    ensures
        content(r) == content(*b),
;

/// `BytesMut::new` holds no bytes.
pub assume_specification[ bytes::BytesMut::new ]() -> (b: bytes::BytesMut)
    ensures
        buffered(b) == Seq::<u8>::empty(),
;

/// `BytesMut::len` is the number of bytes held.
pub assume_specification[ bytes::BytesMut::len ](b: &bytes::BytesMut) -> (n: usize)
    ensures
        n == buffered(*b).len(),
;

/// `BytesMut::split_to` moves the first `at` bytes out, in order; it panics
/// where there are fewer.
pub assume_specification[ bytes::BytesMut::split_to ](b: &mut bytes::BytesMut, at: usize) -> (head:
    bytes::BytesMut)
    requires
        at <= buffered(*old(b)).len(),
    ensures
        buffered(head) == buffered(*old(b)).take(at as int),
        buffered(*final(b)) == buffered(*old(b)).skip(at as int),
;

/// `BytesMut::freeze` shows the bytes that the buffer held.
pub assume_specification[ bytes::BytesMut::freeze ](b: bytes::BytesMut) -> (r: bytes::Bytes)
    ensures
        content(r) == buffered(b),
;

/// `BytesMut::extend_from_slice` appends the slice. An allocation ends at
/// `isize::MAX` bytes.
pub assume_specification[ bytes::BytesMut::extend_from_slice ](
    b: &mut bytes::BytesMut,
    extend: &[u8],
)
    requires
        buffered(*old(b)).len() + extend@.len() <= isize::MAX,
    ensures
        buffered(*final(b)) == buffered(*old(b)) + extend@,
;

/// `BufMut::put_u8` on `BytesMut` appends the byte.
#[verifier::external_body]
pub(crate) fn put_u8(b: &mut BytesMut, v: u8)
    requires
        buffered(*old(b)).len() + 1 <= isize::MAX,
    ensures
        buffered(*final(b)) == buffered(*old(b)).push(v),
{
    b.put_u8(v)
}

/// `BufMut::put_u16` on `BytesMut` appends the value's two bytes, most
/// significant first.
#[verifier::external_body]
pub(crate) fn put_u16(b: &mut BytesMut, v: u16)
    requires
        buffered(*old(b)).len() + 2 <= isize::MAX,
    ensures
        buffered(*final(b)) == buffered(*old(b)) + be(v as nat, 2),
{
    b.put_u16(v)
}

/// `BufMut::put_u32` on `BytesMut` appends the value's four bytes, most
/// significant first.
#[verifier::external_body]
pub(crate) fn put_u32(b: &mut BytesMut, v: u32)
    requires
        buffered(*old(b)).len() + 4 <= isize::MAX,
    ensures
        buffered(*final(b)) == buffered(*old(b)) + be(v as nat, 4),
{
    b.put_u32(v)
}

/// `BufMut::put_u64` on `BytesMut` appends the value's eight bytes, most
/// significant first.
#[verifier::external_body]
pub(crate) fn put_u64(b: &mut BytesMut, v: u64)
    requires
        buffered(*old(b)).len() + 8 <= isize::MAX,
    ensures
        buffered(*final(b)) == buffered(*old(b)) + be(v as nat, 8),
{
    b.put_u64(v)
}

/// `Buf::get_u8` on `BytesMut` takes the first byte out; it panics on an empty
/// buffer.
#[verifier::external_body]
pub(crate) fn get_u8(b: &mut BytesMut) -> (v: u8)
    requires
        buffered(*old(b)).len() >= 1,
    ensures
        v == buffered(*old(b))[0],
        buffered(*final(b)) == buffered(*old(b)).skip(1),
{
    b.get_u8()
}

/// `Buf::get_u16` on `BytesMut` takes the first two bytes out, as a big-endian
/// number; it panics where there are fewer.
#[verifier::external_body]
pub(crate) fn get_u16(b: &mut BytesMut) -> (v: u16)
    requires
        buffered(*old(b)).len() >= 2,
    ensures
        v as nat == from_be(buffered(*old(b)).take(2)),
        buffered(*final(b)) == buffered(*old(b)).skip(2),
{
    b.get_u16()
}

/// `Buf::get_u64` on `BytesMut` takes the first eight bytes out, as a
/// big-endian number; it panics where there are fewer.
#[verifier::external_body]
pub(crate) fn get_u64(b: &mut BytesMut) -> (v: u64)
    requires
        buffered(*old(b)).len() >= 8,
    ensures
        v as nat == from_be(buffered(*old(b)).take(8)),
        buffered(*final(b)) == buffered(*old(b)).skip(8),
{
    b.get_u64()
}

/// `Buf::advance` on `BytesMut` drops the first `n` bytes; it panics where
/// there are fewer.
#[verifier::external_body]
pub(crate) fn advance(b: &mut BytesMut, n: usize)
    requires
        n <= buffered(*old(b)).len(),
    ensures
        buffered(*final(b)) == buffered(*old(b)).skip(n as int),
{
    b.advance(n)
}

/// `Buf::advance` on `Bytes` drops the first `n` bytes from the handle; it
/// panics where there are fewer.
#[verifier::external_body]
pub(crate) fn advance_shared(b: &mut Bytes, n: usize)
    requires
        n <= content(*old(b)).len(),
    ensures
        content(*final(b)) == content(*old(b)).skip(n as int),
{
    b.advance(n)
}

/// `Buf::chunk` on `BytesMut` shows all the bytes held.
#[verifier::external_body]
pub(crate) fn view_buffered(b: &BytesMut) -> (s: &[u8])
    ensures
        s@ == buffered(*b),
{
    b.chunk()
}

/// `Buf::chunk` on `Bytes` shows all the bytes of the handle.
#[verifier::external_body]
pub(crate) fn view_content(b: &Bytes) -> (s: &[u8])
    ensures
        s@ == content(*b),
{
    b.chunk()
}

/// `Bytes::slice` gives a handle on part of the bytes; it panics where the
/// range does not lie inside them.
#[verifier::external_body]
pub(crate) fn slice(b: &Bytes, from: usize, to: usize) -> (r: Bytes)
    requires
        from <= to <= content(*b).len(),
    ensures
        content(r) == content(*b).subrange(from as int, to as int),
{
    b.slice(from..to)
}

} // verus!
