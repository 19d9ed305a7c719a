//! Shared-ownership strings, the payload type of string fields.
//!
//! A `faststr::FastStr` is a cheaply clonable, reference-counted string.
//! Contracts speak of its UTF-8 bytes, so the wire specifications stay in
//! the byte domain.

use bytes::Bytes;
use faststr::FastStr;
use vstd::prelude::*;

use crate::extbytes::bytes_seq;

verus! {

#[verifier::external_type_specification]
#[verifier::external_body]
pub struct ExFastStr(FastStr);

/// The UTF-8 bytes of a shared string.
pub uninterp spec fn faststr_seq(s: FastStr) -> Seq<u8>;

/// Whether a byte sequence is valid UTF-8, as judged by
/// `FastStr::from_vec_u8`.
pub uninterp spec fn utf8_valid(s: Seq<u8>) -> bool;

/// Relies on `FastStr::from_vec_u8`: it returns a string over exactly the
/// given bytes when they are valid UTF-8, and an error otherwise. A string
/// built this way holds valid UTF-8 by construction.
#[verifier::external_body]
pub fn fs_from_vec(v: Vec<u8>) -> (r: Option<FastStr>)
    ensures
        r is Some <==> utf8_valid(v@),
        r is Some ==> faststr_seq(r->0) == v@,
{
    match FastStr::from_vec_u8(v) {
        Ok(s) => Some(s),
        Err(_) => None,
    }
}

/// Relies on `FastStr::len`: the byte length of the string.
#[verifier::external_body]
pub fn fs_len(s: &FastStr) -> (r: usize)
    ensures
        r == faststr_seq(*s).len(),
{
    s.len()
}

/// Relies on `str::as_bytes` through `FastStr::as_str`: the UTF-8 bytes of
/// the string.
#[verifier::external_body]
pub fn fs_as_slice(s: &FastStr) -> (r: &[u8])
    ensures
        r@ == faststr_seq(*s),
{
    s.as_str().as_bytes()
}

/// Relies on `FastStr::into_bytes` (after a cheap handle clone): a shared
/// byte buffer over the same storage, without copying the contents.
#[verifier::external_body]
pub fn fs_to_bytes(s: &FastStr) -> (r: Bytes)
    ensures
        bytes_seq(r) == faststr_seq(*s),
{
    s.clone().into_bytes()
}

/// Relies on `FastStr::new` on the empty literal: an empty string.
#[verifier::external_body]
pub fn fs_empty() -> (r: FastStr)
    ensures
        faststr_seq(r) == Seq::<u8>::empty(),
        utf8_valid(faststr_seq(r)),
{
    FastStr::new("")
}

/// Relies on the `Clone` impl of `FastStr`: cloning copies the
/// reference-counted handle and exposes the same bytes.
pub assume_specification[ <FastStr as Clone>::clone ](s: &FastStr) -> (r: FastStr)
    ensures
        faststr_seq(r) == faststr_seq(*s),
;

} // verus!
