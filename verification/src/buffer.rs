//! Trusted surface over the `bytes` crate's growable buffer, which backs
//! the codec's input buffering: consuming a parsed prefix discards it
//! permanently instead of copying the remainder.

use vstd::prelude::*;

verus! {

#[verifier::external_type_specification]
#[verifier::external_body]
pub struct ExBytesMut(bytes::BytesMut);

/// The bytes a buffer currently holds.
pub uninterp spec fn bm_bytes(b: bytes::BytesMut) -> Seq<u8>;

/// Relies on BytesMut::with_capacity: the new buffer is empty.
#[verifier::external_body]
pub fn bm_with_capacity(cap: usize) -> (r: bytes::BytesMut)
    ensures
        bm_bytes(r) == Seq::<u8>::empty(),
{
    bytes::BytesMut::with_capacity(cap)
}

/// Relies on BytesMut's From over a byte slice: the buffer holds a copy
/// of the given bytes.
#[verifier::external_body]
pub fn bm_from_vec(v: Vec<u8>) -> (r: bytes::BytesMut)
    ensures
        bm_bytes(r) == v@,
{
    bytes::BytesMut::from(v.as_slice())
}

/// Relies on BytesMut::len.
#[verifier::external_body]
pub fn bm_len(b: &bytes::BytesMut) -> (r: usize)
    ensures
        r == bm_bytes(*b).len(),
{
    b.len()
}

/// Relies on indexing through BytesMut's Deref to a byte slice: copies
/// the first `n` bytes out.
#[verifier::external_body]
pub fn bm_copy_prefix(b: &bytes::BytesMut, n: usize) -> (r: Vec<u8>)
    requires
        n <= bm_bytes(*b).len(),
    ensures
        r@ == bm_bytes(*b).take(n as int),
{
    b[..n].to_vec()
}

/// Relies on Buf::advance for BytesMut: discards the first `n` bytes.
#[verifier::external_body]
pub fn bm_advance(b: &mut bytes::BytesMut, n: usize)
    requires
        n <= bm_bytes(*old(b)).len(),
    ensures
        bm_bytes(*final(b)) == bm_bytes(*old(b)).skip(n as int),
{
    bytes::Buf::advance(b, n)
}

/// Relies on BytesMut::extend_from_slice: appends the bytes.
#[verifier::external_body]
pub fn bm_extend(b: &mut bytes::BytesMut, v: &Vec<u8>)
    requires
        bm_bytes(*old(b)).len() + v@.len() <= usize::MAX,
    ensures
        bm_bytes(*final(b)) == bm_bytes(*old(b)) + v@,
{
    b.extend_from_slice(v.as_slice())
}

} // verus!
