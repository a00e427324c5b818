//! Trusted view of `bytes::BytesMut`, the growable byte buffer that backs
//! connection read/write buffers and the publish stage.
//!
//! Every contract in this crate speaks of a buffer through `bm_contents`,
//! the sequence of bytes it currently holds.

use vstd::prelude::*;

verus! {

#[verifier::external_type_specification]
#[verifier::external_body]
pub struct ExBytesMut(bytes::BytesMut);

/// The bytes currently held by the buffer, in order.
pub uninterp spec fn bm_contents(b: bytes::BytesMut) -> Seq<u8>;

/// Relies on `bytes::BytesMut::with_capacity`: the new buffer has length zero.
#[verifier::external_body]
pub fn bm_with_capacity(capacity: usize) -> (r: bytes::BytesMut)
    ensures
        bm_contents(r) == Seq::<u8>::empty(),
{
    bytes::BytesMut::with_capacity(capacity)
}

/// Relies on `bytes::BytesMut::len`: the number of bytes in the buffer.
#[verifier::external_body]
pub fn bm_len(b: &bytes::BytesMut) -> (r: usize)
    ensures
        r == bm_contents(*b).len(),
{
    b.len()
}

/// Relies on `<BytesMut as Deref<Target = [u8]>>`: indexing reads the byte at
/// that position.
#[verifier::external_body]
pub fn bm_byte_at(b: &bytes::BytesMut, i: usize) -> (r: u8)
    requires
        i < bm_contents(*b).len(),
    ensures
        r == bm_contents(*b)[i as int],
{
    b[i]
}

/// Relies on `bytes::BytesMut::split_to`: the first `at` bytes move to the
/// returned buffer and the rest stay behind. Panics when `at > len`, which the
/// precondition rules out.
#[verifier::external_body]
pub fn bm_split_to(b: &mut bytes::BytesMut, at: usize) -> (r: bytes::BytesMut)
    requires
        at <= bm_contents(*old(b)).len(),
    ensures
        bm_contents(r) == bm_contents(*old(b)).take(at as int),
        bm_contents(*final(b)) == bm_contents(*old(b)).skip(at as int),
{
    b.split_to(at)
}

/// Relies on `bytes::BytesMut::reserve`: capacity grows, contents stay.
#[verifier::external_body]
pub fn bm_reserve(b: &mut bytes::BytesMut, additional: usize)
    ensures
        bm_contents(*final(b)) == bm_contents(*old(b)),
{
    b.reserve(additional)
}

/// Relies on `bytes::BytesMut::extend_from_slice`: appends the slice,
/// growing the buffer as needed.
#[verifier::external_body]
pub fn bm_extend(b: &mut bytes::BytesMut, data: &[u8])
    ensures
        bm_contents(*final(b)) == bm_contents(*old(b)) + data@,
{
    b.extend_from_slice(data)
}

/// Relies on `bytes::BytesMut::split`: takes the whole contents, leaving the
/// buffer empty, and on `to_vec` to copy them out.
#[verifier::external_body]
pub fn bm_take(b: &mut bytes::BytesMut) -> (r: Vec<u8>)
    ensures
        r@ == bm_contents(*old(b)),
        bm_contents(*final(b)) == Seq::<u8>::empty(),
{
    let taken = b.split();
    taken.to_vec()
}

/// Relies on `<BytesMut as Deref<Target = [u8]>>` and `to_vec`: copies the
/// contents out without changing the buffer.
#[verifier::external_body]
pub fn bm_to_vec(b: &bytes::BytesMut) -> (r: Vec<u8>)
    ensures
        r@ == bm_contents(*b),
{
    b.to_vec()
}

} // verus!
