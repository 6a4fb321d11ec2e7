//! The shared byte buffers of the `bytes` crate, as the page logic sees them.

use bytes::{Bytes, BytesMut};
use vstd::prelude::*;

verus! {

#[verifier::external_type_specification]
#[verifier::external_body]
pub struct ExBytes(bytes::Bytes);

#[verifier::external_type_specification]
#[verifier::external_body]
pub struct ExBytesMut(bytes::BytesMut);

/// The bytes that an immutable shared buffer holds, in order.
pub uninterp spec fn bytes_view(b: bytes::Bytes) -> Seq<u8>;

/// The bytes that a mutable buffer holds, in order.
pub uninterp spec fn bytes_mut_view(b: bytes::BytesMut) -> Seq<u8>;

/// `len` zero bytes.
pub open spec fn zeros(len: nat) -> Seq<u8> {
    Seq::new(len, |i: int| 0u8)
}

/// Relies on `BytesMut::zeroed`: a buffer of `len` zero bytes.
pub assume_specification[ bytes::BytesMut::zeroed ](len: usize) -> (r: bytes::BytesMut)
    ensures
        bytes_mut_view(r) == zeros(len as nat),
;

/// Relies on `BytesMut::freeze`: the same bytes, now immutable and shareable.
pub assume_specification[ bytes::BytesMut::freeze ](b: bytes::BytesMut) -> (r: bytes::Bytes)
    ensures
        bytes_view(r) == bytes_mut_view(b),
;

/// Relies on `Bytes::new`: an empty buffer.
pub assume_specification[ bytes::Bytes::new ]() -> (r: bytes::Bytes)
    ensures
        bytes_view(r) == Seq::<u8>::empty(),
;

/// Relies on `Clone for Bytes`: another handle on the same bytes.
pub assume_specification[ <bytes::Bytes as Clone>::clone ](b: &bytes::Bytes) -> (r: bytes::Bytes)
    ensures
        bytes_view(r) == bytes_view(*b),
;

/// Relies on `From<Vec<u8>> for Bytes`: the vector's bytes, without a copy.
pub assume_specification[ <bytes::Bytes as core::convert::From<Vec<u8>>>::from ](v: Vec<u8>) -> (r:
    bytes::Bytes)
    ensures
        bytes_view(r) == v@,
;

/// Relies on `Bytes::slice`: a handle on the first `n` bytes of `b`. It panics
/// past the end, which `requires` leaves out.
#[verifier::external_body]
pub(crate) fn bytes_prefix(b: &Bytes, n: usize) -> (r: Bytes)
    requires
        n <= bytes_view(*b).len(),
    ensures
        bytes_view(r) == bytes_view(*b).subrange(0, n as int),
{
    b.slice(0..n)
}

/// Relies on `DerefMut for BytesMut` and `<[u8]>::copy_from_slice`: the `n` bytes
/// of `src` from `from` on replace the `n` bytes of `dst` from `at` on.
#[verifier::external_body]
pub(crate) fn copy_into(dst: &mut BytesMut, at: usize, src: &[u8], from: usize, n: usize)
    requires
        at + n <= bytes_mut_view(*old(dst)).len(),
        from + n <= src@.len(),
    ensures
        bytes_mut_view(*final(dst)) == bytes_mut_view(*old(dst)).subrange(0, at as int) + src@.subrange(
            from as int,
            from + n,
        ) + bytes_mut_view(*old(dst)).subrange(at + n, bytes_mut_view(*old(dst)).len() as int),
{
    dst[at..at + n].copy_from_slice(&src[from..from + n]);
}

} // verus!
