//! Reference-counted byte buffers.

use bytes::Bytes;
use vstd::prelude::*;

verus! {

/// A cheaply cloneable, immutable buffer of bytes.
#[verifier::external_type_specification]
#[verifier::external_body]
pub struct ExBytes(bytes::Bytes);

/// The bytes that a buffer holds.
pub uninterp spec fn buffer_contents(buffer: bytes::Bytes) -> Seq<u8>;

/// Calls `bytes::Bytes::from` on a vector. Claimed: the buffer holds the bytes
/// of the vector.
#[verifier::external_body]
pub(crate) fn buffer_from_vec(bytes: Vec<u8>) -> (buffer: Bytes)
    ensures
        buffer_contents(buffer) == bytes@,
{
    Bytes::from(bytes)
}

/// Calls `bytes::Bytes::copy_from_slice`. Claimed: the buffer holds the bytes of
/// the slice.
#[verifier::external_body]
pub(crate) fn buffer_from_slice(bytes: &[u8]) -> (buffer: Bytes)
    ensures
        buffer_contents(buffer) == bytes@,
{
    Bytes::copy_from_slice(bytes)
}

/// Dereferences a `bytes::Bytes` to a slice. Claimed: the slice has the bytes
/// that the buffer holds.
#[verifier::external_body]
pub(crate) fn buffer_as_slice(buffer: &Bytes) -> (bytes: &[u8])
    ensures
        bytes@ == buffer_contents(*buffer),
{
    buffer
}

/// The bytes that each buffer of a sequence holds.
pub open spec fn buffers_contents(buffers: Seq<Bytes>) -> Seq<Seq<u8>> {
    buffers.map_values(|buffer: Bytes| buffer_contents(buffer))
}

} // verus!
