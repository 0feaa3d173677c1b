//! The Read Buffer: a growable byte accumulator, one per connection.  It is
//! the `bytes` crate's `BytesMut`, held behind a small trusted surface; every
//! contract speaks of `buf_bytes`, the bytes the buffer currently holds,
//! front to back.

use vstd::prelude::*;

verus! {

#[verifier::external_type_specification]
#[verifier::external_body]
pub struct ExBytesMut(bytes::BytesMut);

/// The bytes a buffer currently holds, front to back.
pub uninterp spec fn buf_bytes(b: bytes::BytesMut) -> Seq<u8>;

/// Relies on `BytesMut::new`: a buffer is created empty.
#[verifier::external_body]
pub(crate) fn buf_new() -> (b: bytes::BytesMut)
    ensures
        buf_bytes(b) == Seq::<u8>::empty(),
{
    bytes::BytesMut::new()
}

/// Relies on `BytesMut::len`: the number of bytes held.
#[verifier::external_body]
pub(crate) fn buf_len(b: &bytes::BytesMut) -> (n: usize)
    ensures
        n == buf_bytes(*b).len(),
{
    b.len()
}

/// Relies on the `Deref` impl of `BytesMut` to a byte slice: the byte at
/// index `i`.
#[verifier::external_body]
pub(crate) fn buf_get(b: &bytes::BytesMut, i: usize) -> (r: u8)
    requires
        i < buf_bytes(*b).len(),
    ensures
        r == buf_bytes(*b)[i as int],
{
    b[i]
}

/// Relies on `BytesMut::extend_from_slice`: appends the given bytes at the
/// back, keeping what was already there.
#[verifier::external_body]
pub(crate) fn buf_extend(b: &mut bytes::BytesMut, data: &Vec<u8>)
    ensures
        buf_bytes(*final(b)) == buf_bytes(*old(b)) + data@,
{
    b.extend_from_slice(data.as_slice());
}

/// Relies on `Buf::advance` for `BytesMut`: discards `cnt` bytes from the
/// front.  It panics past the length, so that is required away.
#[verifier::external_body]
pub(crate) fn buf_advance(b: &mut bytes::BytesMut, cnt: usize)
    requires
        cnt <= buf_bytes(*old(b)).len(),
    ensures
        buf_bytes(*final(b)) == buf_bytes(*old(b)).skip(cnt as int),
{
    bytes::Buf::advance(b, cnt);
}

/// Relies on the `Deref` impl of `BytesMut` and `slice::to_vec`: copies the
/// bytes from `start` up to `end` out into a fresh vector.
#[verifier::external_body]
pub(crate) fn buf_copy_range(b: &bytes::BytesMut, start: usize, end: usize) -> (r: Vec<u8>)
    requires
        start <= end <= buf_bytes(*b).len(),
    ensures
        r@ == buf_bytes(*b).subrange(start as int, end as int),
{
    b[start..end].to_vec()
}

} // verus!
