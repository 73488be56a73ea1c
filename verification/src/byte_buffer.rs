//! Trusted view of `bytes::BytesMut`, the fixed-size byte buffer into
//! which fragment payloads are copied.
//!
//! The buffer's contents are named by [`byte_buffer_bytes`]; each wrapper
//! states over that name what the crate's own documentation and source
//! promise of the call it makes.

use vstd::prelude::*;

verus! {

#[verifier::external_type_specification]
#[verifier::external_body]
pub struct ExBytesMut(bytes::BytesMut);

/// The bytes a `BytesMut` holds, in order.
pub uninterp spec fn byte_buffer_bytes(b: bytes::BytesMut) -> Seq<u8>;

/// Relies on `bytes::BytesMut::zeroed`: a buffer of `len` zero bytes.
#[verifier::external_body]
pub(crate) fn buffer_zeroed(len: usize) -> (r: bytes::BytesMut)
    ensures
        byte_buffer_bytes(r) == Seq::new(len as nat, |i: int| 0u8),
{
    bytes::BytesMut::zeroed(len)
}

/// Relies on `bytes::BytesMut::as_mut` handing out the buffer's bytes as
/// a mutable slice; the slice copy then overwrites `src.len()` bytes at
/// offset `at` and leaves the rest.
#[verifier::external_body]
pub(crate) fn buffer_write_at(b: &mut bytes::BytesMut, at: usize, src: &Vec<u8>)
    requires
        at + src@.len() <= byte_buffer_bytes(*old(b)).len(),
    ensures
        byte_buffer_bytes(*final(b)) == byte_buffer_bytes(*old(b)).take(at as int) + src@
            + byte_buffer_bytes(*old(b)).skip(at as int + src@.len() as int),
{
    b.as_mut()[at..at + src.len()].copy_from_slice(src.as_slice())
}

/// Relies on `bytes::BytesMut`'s `Deref` to `[u8]`: reads the byte at
/// index `i`; indexing past the end panics, so it is required away.
#[verifier::external_body]
pub(crate) fn buffer_byte_at(b: &bytes::BytesMut, i: usize) -> (r: u8)
    requires
        i < byte_buffer_bytes(*b).len(),
    ensures
        r == byte_buffer_bytes(*b)[i as int],
{
    b[i]
}

/// Relies on `bytes::BytesMut`'s `Deref` to `[u8]`: copies out the bytes
/// from `from` to the end; a start past the end panics, so it is
/// required away.
#[verifier::external_body]
pub(crate) fn buffer_suffix_to_vec(b: &bytes::BytesMut, from: usize) -> (r: Vec<u8>)
    requires
        from <= byte_buffer_bytes(*b).len(),
    ensures
        r@ == byte_buffer_bytes(*b).skip(from as int),
{
    b[from..].to_vec()
}

} // verus!
