//! Shared-ownership byte buffers, used for zero-copy segments.
//!
//! A `bytes::Bytes` value is a reference-counted handle to immutable byte
//! storage. The buffer chain holds such handles so that a zero-copy segment
//! keeps its backing storage alive for the duration of an encode call.

use bytes::Bytes;
use vstd::prelude::*;

verus! {

#[verifier::external_type_specification]
#[verifier::external_body]
pub struct ExBytes(Bytes);

/// The byte contents of a shared buffer handle.
pub uninterp spec fn bytes_seq(b: Bytes) -> Seq<u8>;

/// Relies on the `From<Vec<u8>>` impl of `bytes::Bytes`: the handle takes
/// ownership of the vector and exposes exactly its bytes.
#[verifier::external_body]
pub fn bytes_from_vec(v: Vec<u8>) -> (r: Bytes)
    ensures
        bytes_seq(r) == v@,
{
    Bytes::from(v)
}

/// Relies on `Bytes::len`: the length of the contents.
#[verifier::external_body]
pub fn bytes_len(b: &Bytes) -> (r: usize)
    ensures
        r == bytes_seq(*b).len(),
{
    b.len()
}

/// Relies on `Bytes::as_ref` (the `AsRef<[u8]>` impl): a view of the
/// contents as a byte slice.
#[verifier::external_body]
pub fn bytes_as_slice(b: &Bytes) -> (r: &[u8])
    ensures
        r@ == bytes_seq(*b),
{
    b.as_ref()
}

} // verus!
