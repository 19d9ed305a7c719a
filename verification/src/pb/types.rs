//! The message contract of the length-delimited format, and its
//! implementations for the well-known wrapper types.
//!
//! A wrapper type carries a single scalar as field number 1 and elides the
//! field entirely when the value is the type's zero/empty value; decoding an
//! absent field yields that zero value back.

use bytes::Bytes;
use faststr::FastStr;
use vstd::prelude::*;

use crate::buffer::{BufferChain, FlatBuf, WireWrite};
use crate::error::DecodeError;
use crate::extbytes::{bytes_from_vec, bytes_len, bytes_seq};
use crate::extstr::{faststr_seq, fs_as_slice, fs_empty, fs_from_vec, fs_len, utf8_valid};
use crate::pb::encoding::{
    copy_range, len_delim_field, lemma_len_delim_field_len, lemma_parse_len_delim_field,
    lemma_parse_varint_field, lemma_varint_field_len, parse_field_spec, read_field, varint_field,
    varint_len, write_len_delim_field, write_varint_field, FieldData, FieldDataView, WireType,
};
use crate::varint::{
    i32_of_u64, i32_to_u64, i64_of_u64, i64_to_u64, u64_of_i32, u64_of_i64, u64_to_i32, u64_to_i64,
};

verus! {

/// The contract every message type implements.
///
/// Contracts are stated over a mathematical view of the type
/// ([`Message::m_view`]); `wire_bytes_of` pins the canonical encoding of a
/// view down to the byte, so the bounds-checked and the exact-presized
/// encode paths are proved to produce identical output, and `size` equals
/// the exact byte count either one writes.
pub trait Message: Sized {
    /// The mathematical image of the message.
    type V;

    /// The view of this message value.
    spec fn m_view(&self) -> Self::V;

    /// The canonical wire bytes of a view.
    spec fn wire_bytes_of(v: Self::V) -> Seq<u8>;

    /// How many of the wire bytes can be welded into a buffer chain as
    /// zero-copy segments instead of being copied.
    spec fn zero_copy_of(v: Self::V) -> nat;

    /// The view of a freshly constructed message.
    spec fn default_view() -> Self::V;

    /// The typed merge of one pre-parsed field into a view, or the decode
    /// error it provokes. `raw` holds the field's exact bytes, key
    /// included, for unknown-field retention.
    spec fn merge_spec(
        v: Self::V,
        id: u32,
        wt: WireType,
        data: FieldDataView,
        raw: Seq<u8>,
    ) -> Result<Self::V, DecodeError>;

    /// Zero-copy bytes never exceed the total wire size.
    proof fn lemma_zero_copy_le(v: Self::V)
        ensures
            Self::zero_copy_of(v) <= Self::wire_bytes_of(v).len(),
    ;

    /// A message holding the type's zero/empty value.
    fn new_default() -> (r: Self)
        ensures
            r.m_view() == Self::default_view(),
    ;

    /// The exact byte count `encode_raw` writes: the size pass.
    fn encoded_len(&self) -> (r: usize)
        requires
            Self::wire_bytes_of(self.m_view()).len() <= usize::MAX,
        ensures
            r == Self::wire_bytes_of(self.m_view()).len(),
    ;

    /// The byte count of the wire bytes a buffer chain can carry zero-copy.
    fn zero_copy_len(&self) -> (r: usize)
        requires
            Self::wire_bytes_of(self.m_view()).len() <= usize::MAX,
        ensures
            r == Self::zero_copy_of(self.m_view()),
    ;

    /// Append the canonical wire bytes to a growable buffer chain: the
    /// bounds-checked path.
    fn encode_raw(&self, chain: &mut BufferChain)
        requires
            old(chain).wf_chain(),
            old(chain).chain_bytes().len() + Self::wire_bytes_of(self.m_view()).len()
                <= usize::MAX,
        ensures
            final(chain).wf_chain(),
            final(chain).chain_bytes() == old(chain).chain_bytes() + Self::wire_bytes_of(
                self.m_view(),
            ),
    ;

    /// Write the canonical wire bytes into an exact-presized buffer: the
    /// unchecked path. Its precondition — room for exactly the size pass's
    /// byte count — is discharged statically, never at run time.
    fn encode_raw_unchecked(&self, buf: &mut FlatBuf)
        requires
            old(buf).wwf(),
            old(buf).room() >= Self::wire_bytes_of(self.m_view()).len(),
        ensures
            final(buf).wwf(),
            final(buf).flat_bytes() == old(buf).flat_bytes() + Self::wire_bytes_of(self.m_view()),
            final(buf).room() == old(buf).room() - Self::wire_bytes_of(self.m_view()).len(),
    ;

    /// Merge one pre-parsed field, exactly as `merge_spec` says.
    fn merge_field(&mut self, id: u32, wt: WireType, data: &FieldData, raw: &[u8]) -> (r: Result<
        (),
        DecodeError,
    >)
        ensures
            match r {
                Ok(()) => Self::merge_spec(old(self).m_view(), id, wt, data@, raw@)
                    == Ok::<Self::V, DecodeError>(final(self).m_view()),
                Err(e) => Self::merge_spec(old(self).m_view(), id, wt, data@, raw@)
                    == Err::<Self::V, DecodeError>(e),
            },
    ;
}

/// Fold the fields at the front of `s` into the view `v`, field by field,
/// until the input is exhausted.
pub open spec fn decode_fields_spec<M: Message>(s: Seq<u8>, v: M::V) -> Result<M::V, DecodeError>
    decreases s.len(),
{
    if s.len() == 0 {
        Ok(v)
    } else {
        match parse_field_spec(s) {
            Err(e) => Err(e),
            Ok((id, wt, data, c)) => if 0 < c <= s.len() {
                match M::merge_spec(v, id, wt, data, s.take(c)) {
                    Ok(v2) => decode_fields_spec::<M>(s.skip(c), v2),
                    Err(e) => Err(e),
                }
            } else {
                Err(DecodeError::Truncated)
            },
        }
    }
}

/// The view decoded from `s`, starting from the type's zero value, or the
/// decode error `s` provokes.
pub open spec fn decode_spec<M: Message>(s: Seq<u8>) -> Result<M::V, DecodeError> {
    decode_fields_spec::<M>(s, M::default_view())
}

/// Decode a message from a byte slice: the bounds-checked path. Returns
/// `Ok` exactly when `decode_spec` does, and then the decoded view is the
/// specified one.
pub fn decode<M: Message>(buf: &[u8]) -> (r: Result<M, DecodeError>)
    ensures
        match r {
            Ok(m) => decode_spec::<M>(buf@) == Ok::<M::V, DecodeError>(m.m_view()),
            Err(e) => decode_spec::<M>(buf@) == Err::<M::V, DecodeError>(e),
        },
{
    let mut m = M::new_default();
    let mut pos: usize = 0;
    assert(buf@.skip(0) =~= buf@);
    while pos < buf.len()
        invariant
            pos <= buf@.len(),
            decode_fields_spec::<M>(buf@, M::default_view()) == decode_fields_spec::<M>(
                buf@.skip(pos as int),
                m.m_view(),
            ),
        decreases buf@.len() - pos,
    {
        let ghost s = buf@.skip(pos as int);
        match read_field(buf, pos) {
            Err(e) => {
                return Err(e);
            },
            Ok((id, wt, data, newpos)) => {
                let ghost c = newpos - pos;
                let raw = copy_range(buf, pos, newpos);
                proof {
                    assert(raw@ =~= s.take(c));
                    assert(s.skip(c) =~= buf@.skip(newpos as int));
                }
                match m.merge_field(id, wt, &data, raw.as_slice()) {
                    Err(e) => {
                        return Err(e);
                    },
                    Ok(()) => {},
                }
                pos = newpos;
            },
        }
    }
    assert(buf@.skip(pos as int).len() == 0);
    Ok(m)
}

/// Decode a message from a frame already known to hold a whole, valid
/// encoding — input framed and validated by the transport. The
/// precondition is discharged statically by the caller; no per-read check
/// remains at run time, and no error can be reported.
pub fn decode_trusted_frame<M: Message>(buf: &[u8]) -> (r: M)
    requires
        decode_spec::<M>(buf@) is Ok,
    ensures
        decode_spec::<M>(buf@) == Ok::<M::V, DecodeError>(r.m_view()),
{
    match decode::<M>(buf) {
        Ok(m) => m,
        Err(_) => vstd::pervasive::unreached(),
    }
}

/// Encode through a growable buffer chain and stream it to one vector: the
/// bounds-checked path.
pub fn encode_to_vec<M: Message>(m: &M) -> (r: Vec<u8>)
    requires
        M::wire_bytes_of(m.m_view()).len() <= usize::MAX,
    ensures
        r@ == M::wire_bytes_of(m.m_view()),
{
    let mut chain = BufferChain::new();
    m.encode_raw(&mut chain);
    let mut out: Vec<u8> = Vec::new();
    chain.finalize(&mut out);
    assert(out@ =~= M::wire_bytes_of(m.m_view()));
    out
}

/// Run the size pass, allocate exactly that many bytes, and fill them with
/// the unchecked path: zero growth, zero slack.
pub fn encode_to_vec_exact<M: Message>(m: &M) -> (r: Vec<u8>)
    requires
        M::wire_bytes_of(m.m_view()).len() <= usize::MAX,
    ensures
        r@ == M::wire_bytes_of(m.m_view()),
{
    let n = m.encoded_len();
    let mut buf = FlatBuf::with_exact_size(n);
    m.encode_raw_unchecked(&mut buf);
    assert(buf.flat_bytes() =~= M::wire_bytes_of(m.m_view()));
    buf.into_vec()
}

impl Message for bool {
    type V = bool;

    open spec fn m_view(&self) -> bool {
        *self
    }

    open spec fn wire_bytes_of(v: bool) -> Seq<u8> {
        if v {
            varint_field(1, 1)
        } else {
            Seq::empty()
        }
    }

    open spec fn zero_copy_of(v: bool) -> nat {
        0
    }

    open spec fn default_view() -> bool {
        false
    }

    open spec fn merge_spec(v: bool, id: u32, wt: WireType, data: FieldDataView, raw: Seq<u8>) -> Result<
        bool,
        DecodeError,
    > {
        if id == 1 {
            match data {
                FieldDataView::VInt(x) => if wt == WireType::Varint {
                    Ok(x != 0)
                } else {
                    Err(DecodeError::InvalidWireType)
                },
                _ => Err(DecodeError::InvalidWireType),
            }
        } else {
            Ok(v)
        }
    }

    proof fn lemma_zero_copy_le(v: bool) {
    }

    fn new_default() -> (r: Self) {
        false
    }

    fn encoded_len(&self) -> (r: usize) {
        proof {
            lemma_varint_field_len(1, 1);
        }
        if *self {
            2
        } else {
            0
        }
    }

    fn zero_copy_len(&self) -> (r: usize) {
        0
    }

    fn encode_raw(&self, chain: &mut BufferChain) {
        if *self {
            write_varint_field(chain, 1, 1);
        }
    }

    fn encode_raw_unchecked(&self, buf: &mut FlatBuf) {
        if *self {
            write_varint_field(buf, 1, 1);
        } else {
            assert(final(buf).flat_bytes() =~= old(buf).flat_bytes());
        }
    }

    fn merge_field(&mut self, id: u32, wt: WireType, data: &FieldData, raw: &[u8]) -> (r: Result<
        (),
        DecodeError,
    >) {
        if id == 1 {
            match data {
                FieldData::VInt(x) => {
                    if wt == WireType::Varint {
                        *self = *x != 0;
                        Ok(())
                    } else {
                        Err(DecodeError::InvalidWireType)
                    }
                },
                _ => Err(DecodeError::InvalidWireType),
            }
        } else {
            Ok(())
        }
    }
}

impl Message for u64 {
    type V = u64;

    open spec fn m_view(&self) -> u64 {
        *self
    }

    open spec fn wire_bytes_of(v: u64) -> Seq<u8> {
        if v != 0 {
            varint_field(1, v)
        } else {
            Seq::empty()
        }
    }

    open spec fn zero_copy_of(v: u64) -> nat {
        0
    }

    open spec fn default_view() -> u64 {
        0
    }

    open spec fn merge_spec(v: u64, id: u32, wt: WireType, data: FieldDataView, raw: Seq<u8>) -> Result<
        u64,
        DecodeError,
    > {
        if id == 1 {
            match data {
                FieldDataView::VInt(x) => if wt == WireType::Varint {
                    Ok(x)
                } else {
                    Err(DecodeError::InvalidWireType)
                },
                _ => Err(DecodeError::InvalidWireType),
            }
        } else {
            Ok(v)
        }
    }

    proof fn lemma_zero_copy_le(v: u64) {
    }

    fn new_default() -> (r: Self) {
        0
    }

    fn encoded_len(&self) -> (r: usize) {
        proof {
            lemma_varint_field_len(1, *self);
        }
        if *self != 0 {
            1 + varint_len(*self)
        } else {
            0
        }
    }

    fn zero_copy_len(&self) -> (r: usize) {
        0
    }

    fn encode_raw(&self, chain: &mut BufferChain) {
        if *self != 0 {
            write_varint_field(chain, 1, *self);
        }
    }

    fn encode_raw_unchecked(&self, buf: &mut FlatBuf) {
        if *self != 0 {
            write_varint_field(buf, 1, *self);
        } else {
            assert(final(buf).flat_bytes() =~= old(buf).flat_bytes());
        }
    }

    fn merge_field(&mut self, id: u32, wt: WireType, data: &FieldData, raw: &[u8]) -> (r: Result<
        (),
        DecodeError,
    >) {
        if id == 1 {
            match data {
                FieldData::VInt(x) => {
                    if wt == WireType::Varint {
                        *self = *x;
                        Ok(())
                    } else {
                        Err(DecodeError::InvalidWireType)
                    }
                },
                _ => Err(DecodeError::InvalidWireType),
            }
        } else {
            Ok(())
        }
    }
}

impl Message for u32 {
    type V = u32;

    open spec fn m_view(&self) -> u32 {
        *self
    }

    open spec fn wire_bytes_of(v: u32) -> Seq<u8> {
        if v != 0 {
            varint_field(1, v as u64)
        } else {
            Seq::empty()
        }
    }

    open spec fn zero_copy_of(v: u32) -> nat {
        0
    }

    open spec fn default_view() -> u32 {
        0
    }

    open spec fn merge_spec(v: u32, id: u32, wt: WireType, data: FieldDataView, raw: Seq<u8>) -> Result<
        u32,
        DecodeError,
    > {
        if id == 1 {
            match data {
                FieldDataView::VInt(x) => if wt == WireType::Varint {
                    Ok((x % 0x1_0000_0000) as u32)
                } else {
                    Err(DecodeError::InvalidWireType)
                },
                _ => Err(DecodeError::InvalidWireType),
            }
        } else {
            Ok(v)
        }
    }

    proof fn lemma_zero_copy_le(v: u32) {
    }

    fn new_default() -> (r: Self) {
        0
    }

    fn encoded_len(&self) -> (r: usize) {
        proof {
            lemma_varint_field_len(1, *self as u64);
        }
        if *self != 0 {
            1 + varint_len(*self as u64)
        } else {
            0
        }
    }

    fn zero_copy_len(&self) -> (r: usize) {
        0
    }

    fn encode_raw(&self, chain: &mut BufferChain) {
        if *self != 0 {
            write_varint_field(chain, 1, *self as u64);
        }
    }

    fn encode_raw_unchecked(&self, buf: &mut FlatBuf) {
        if *self != 0 {
            write_varint_field(buf, 1, *self as u64);
        } else {
            assert(final(buf).flat_bytes() =~= old(buf).flat_bytes());
        }
    }

    fn merge_field(&mut self, id: u32, wt: WireType, data: &FieldData, raw: &[u8]) -> (r: Result<
        (),
        DecodeError,
    >) {
        if id == 1 {
            match data {
                FieldData::VInt(x) => {
                    if wt == WireType::Varint {
                        *self = (*x % 0x1_0000_0000) as u32;
                        Ok(())
                    } else {
                        Err(DecodeError::InvalidWireType)
                    }
                },
                _ => Err(DecodeError::InvalidWireType),
            }
        } else {
            Ok(())
        }
    }
}

impl Message for i64 {
    type V = i64;

    open spec fn m_view(&self) -> i64 {
        *self
    }

    open spec fn wire_bytes_of(v: i64) -> Seq<u8> {
        if v != 0 {
            varint_field(1, u64_of_i64(v))
        } else {
            Seq::empty()
        }
    }

    open spec fn zero_copy_of(v: i64) -> nat {
        0
    }

    open spec fn default_view() -> i64 {
        0
    }

    open spec fn merge_spec(v: i64, id: u32, wt: WireType, data: FieldDataView, raw: Seq<u8>) -> Result<
        i64,
        DecodeError,
    > {
        if id == 1 {
            match data {
                FieldDataView::VInt(x) => if wt == WireType::Varint {
                    Ok(i64_of_u64(x))
                } else {
                    Err(DecodeError::InvalidWireType)
                },
                _ => Err(DecodeError::InvalidWireType),
            }
        } else {
            Ok(v)
        }
    }

    proof fn lemma_zero_copy_le(v: i64) {
    }

    fn new_default() -> (r: Self) {
        0
    }

    fn encoded_len(&self) -> (r: usize) {
        proof {
            lemma_varint_field_len(1, u64_of_i64(*self));
        }
        if *self != 0 {
            1 + varint_len(i64_to_u64(*self))
        } else {
            0
        }
    }

    fn zero_copy_len(&self) -> (r: usize) {
        0
    }

    fn encode_raw(&self, chain: &mut BufferChain) {
        if *self != 0 {
            write_varint_field(chain, 1, i64_to_u64(*self));
        }
    }

    fn encode_raw_unchecked(&self, buf: &mut FlatBuf) {
        if *self != 0 {
            write_varint_field(buf, 1, i64_to_u64(*self));
        } else {
            assert(final(buf).flat_bytes() =~= old(buf).flat_bytes());
        }
    }

    fn merge_field(&mut self, id: u32, wt: WireType, data: &FieldData, raw: &[u8]) -> (r: Result<
        (),
        DecodeError,
    >) {
        if id == 1 {
            match data {
                FieldData::VInt(x) => {
                    if wt == WireType::Varint {
                        *self = u64_to_i64(*x);
                        Ok(())
                    } else {
                        Err(DecodeError::InvalidWireType)
                    }
                },
                _ => Err(DecodeError::InvalidWireType),
            }
        } else {
            Ok(())
        }
    }
}

impl Message for i32 {
    type V = i32;

    open spec fn m_view(&self) -> i32 {
        *self
    }

    open spec fn wire_bytes_of(v: i32) -> Seq<u8> {
        if v != 0 {
            varint_field(1, u64_of_i32(v))
        } else {
            Seq::empty()
        }
    }

    open spec fn zero_copy_of(v: i32) -> nat {
        0
    }

    open spec fn default_view() -> i32 {
        0
    }

    open spec fn merge_spec(v: i32, id: u32, wt: WireType, data: FieldDataView, raw: Seq<u8>) -> Result<
        i32,
        DecodeError,
    > {
        if id == 1 {
            match data {
                FieldDataView::VInt(x) => if wt == WireType::Varint {
                    Ok(i32_of_u64(x))
                } else {
                    Err(DecodeError::InvalidWireType)
                },
                _ => Err(DecodeError::InvalidWireType),
            }
        } else {
            Ok(v)
        }
    }

    proof fn lemma_zero_copy_le(v: i32) {
    }

    fn new_default() -> (r: Self) {
        0
    }

    fn encoded_len(&self) -> (r: usize) {
        proof {
            lemma_varint_field_len(1, u64_of_i32(*self));
        }
        if *self != 0 {
            1 + varint_len(i32_to_u64(*self))
        } else {
            0
        }
    }

    fn zero_copy_len(&self) -> (r: usize) {
        0
    }

    fn encode_raw(&self, chain: &mut BufferChain) {
        if *self != 0 {
            write_varint_field(chain, 1, i32_to_u64(*self));
        }
    }

    fn encode_raw_unchecked(&self, buf: &mut FlatBuf) {
        if *self != 0 {
            write_varint_field(buf, 1, i32_to_u64(*self));
        } else {
            assert(final(buf).flat_bytes() =~= old(buf).flat_bytes());
        }
    }

    fn merge_field(&mut self, id: u32, wt: WireType, data: &FieldData, raw: &[u8]) -> (r: Result<
        (),
        DecodeError,
    >) {
        if id == 1 {
            match data {
                FieldData::VInt(x) => {
                    if wt == WireType::Varint {
                        *self = u64_to_i32(*x);
                        Ok(())
                    } else {
                        Err(DecodeError::InvalidWireType)
                    }
                },
                _ => Err(DecodeError::InvalidWireType),
            }
        } else {
            Ok(())
        }
    }
}

impl Message for FastStr {
    type V = Seq<u8>;

    open spec fn m_view(&self) -> Seq<u8> {
        faststr_seq(*self)
    }

    open spec fn wire_bytes_of(v: Seq<u8>) -> Seq<u8> {
        if v.len() != 0 {
            len_delim_field(1, v)
        } else {
            Seq::empty()
        }
    }

    open spec fn zero_copy_of(v: Seq<u8>) -> nat {
        if v.len() != 0 {
            v.len()
        } else {
            0
        }
    }

    open spec fn default_view() -> Seq<u8> {
        Seq::empty()
    }

    open spec fn merge_spec(v: Seq<u8>, id: u32, wt: WireType, data: FieldDataView, raw: Seq<u8>) -> Result<
        Seq<u8>,
        DecodeError,
    > {
        if id == 1 {
            match data {
                FieldDataView::LenPayload(p) => if wt == WireType::LengthDelimited {
                    if utf8_valid(p) {
                        Ok(p)
                    } else {
                        Err(DecodeError::InvalidUtf8)
                    }
                } else {
                    Err(DecodeError::InvalidWireType)
                },
                _ => Err(DecodeError::InvalidWireType),
            }
        } else {
            Ok(v)
        }
    }

    proof fn lemma_zero_copy_le(v: Seq<u8>) {
        if v.len() != 0 {
            lemma_len_delim_field_len(1, v);
        }
    }

    fn new_default() -> (r: Self) {
        fs_empty()
    }

    fn encoded_len(&self) -> (r: usize) {
        proof {
            lemma_len_delim_field_len(1, faststr_seq(*self));
        }
        let n = fs_len(self);
        if n != 0 {
            1 + varint_len(n as u64) + n
        } else {
            0
        }
    }

    fn zero_copy_len(&self) -> (r: usize) {
        proof {
            lemma_len_delim_field_len(1, faststr_seq(*self));
        }
        fs_len(self)
    }

    fn encode_raw(&self, chain: &mut BufferChain) {
        proof {
            lemma_len_delim_field_len(1, faststr_seq(*self));
        }
        let n = fs_len(self);
        if n != 0 {
            write_len_delim_field(chain, 1, fs_as_slice(self));
        }
    }

    fn encode_raw_unchecked(&self, buf: &mut FlatBuf) {
        proof {
            lemma_len_delim_field_len(1, faststr_seq(*self));
        }
        let n = fs_len(self);
        if n != 0 {
            write_len_delim_field(buf, 1, fs_as_slice(self));
        } else {
            assert(final(buf).flat_bytes() =~= old(buf).flat_bytes());
        }
    }

    fn merge_field(&mut self, id: u32, wt: WireType, data: &FieldData, raw: &[u8]) -> (r: Result<
        (),
        DecodeError,
    >) {
        if id == 1 {
            match data {
                FieldData::LenPayload(p) => {
                    if wt == WireType::LengthDelimited {
                        let v = copy_range(p.as_slice(), 0, p.len());
                        assert(v@ =~= p@);
                        match fs_from_vec(v) {
                            Some(s) => {
                                *self = s;
                                Ok(())
                            },
                            None => Err(DecodeError::InvalidUtf8),
                        }
                    } else {
                        Err(DecodeError::InvalidWireType)
                    }
                },
                _ => Err(DecodeError::InvalidWireType),
            }
        } else {
            Ok(())
        }
    }
}

impl Message for Vec<u8> {
    type V = Seq<u8>;

    open spec fn m_view(&self) -> Seq<u8> {
        self@
    }

    open spec fn wire_bytes_of(v: Seq<u8>) -> Seq<u8> {
        if v.len() != 0 {
            len_delim_field(1, v)
        } else {
            Seq::empty()
        }
    }

    open spec fn zero_copy_of(v: Seq<u8>) -> nat {
        0
    }

    open spec fn default_view() -> Seq<u8> {
        Seq::empty()
    }

    open spec fn merge_spec(v: Seq<u8>, id: u32, wt: WireType, data: FieldDataView, raw: Seq<u8>) -> Result<
        Seq<u8>,
        DecodeError,
    > {
        if id == 1 {
            match data {
                FieldDataView::LenPayload(p) => if wt == WireType::LengthDelimited {
                    Ok(p)
                } else {
                    Err(DecodeError::InvalidWireType)
                },
                _ => Err(DecodeError::InvalidWireType),
            }
        } else {
            Ok(v)
        }
    }

    proof fn lemma_zero_copy_le(v: Seq<u8>) {
    }

    fn new_default() -> (r: Self) {
        Vec::new()
    }

    fn encoded_len(&self) -> (r: usize) {
        proof {
            lemma_len_delim_field_len(1, self@);
        }
        let n = self.len();
        if n != 0 {
            1 + varint_len(n as u64) + n
        } else {
            0
        }
    }

    fn zero_copy_len(&self) -> (r: usize) {
        0
    }

    fn encode_raw(&self, chain: &mut BufferChain) {
        proof {
            lemma_len_delim_field_len(1, self@);
        }
        if self.len() != 0 {
            write_len_delim_field(chain, 1, self.as_slice());
        }
    }

    fn encode_raw_unchecked(&self, buf: &mut FlatBuf) {
        proof {
            lemma_len_delim_field_len(1, self@);
        }
        if self.len() != 0 {
            write_len_delim_field(buf, 1, self.as_slice());
        } else {
            assert(final(buf).flat_bytes() =~= old(buf).flat_bytes());
        }
    }

    fn merge_field(&mut self, id: u32, wt: WireType, data: &FieldData, raw: &[u8]) -> (r: Result<
        (),
        DecodeError,
    >) {
        if id == 1 {
            match data {
                FieldData::LenPayload(p) => {
                    if wt == WireType::LengthDelimited {
                        let v = copy_range(p.as_slice(), 0, p.len());
                        assert(v@ =~= p@);
                        *self = v;
                        Ok(())
                    } else {
                        Err(DecodeError::InvalidWireType)
                    }
                },
                _ => Err(DecodeError::InvalidWireType),
            }
        } else {
            Ok(())
        }
    }
}

impl Message for Bytes {
    type V = Seq<u8>;

    open spec fn m_view(&self) -> Seq<u8> {
        bytes_seq(*self)
    }

    open spec fn wire_bytes_of(v: Seq<u8>) -> Seq<u8> {
        if v.len() != 0 {
            len_delim_field(1, v)
        } else {
            Seq::empty()
        }
    }

    open spec fn zero_copy_of(v: Seq<u8>) -> nat {
        if v.len() != 0 {
            v.len()
        } else {
            0
        }
    }

    open spec fn default_view() -> Seq<u8> {
        Seq::empty()
    }

    open spec fn merge_spec(v: Seq<u8>, id: u32, wt: WireType, data: FieldDataView, raw: Seq<u8>) -> Result<
        Seq<u8>,
        DecodeError,
    > {
        if id == 1 {
            match data {
                FieldDataView::LenPayload(p) => if wt == WireType::LengthDelimited {
                    Ok(p)
                } else {
                    Err(DecodeError::InvalidWireType)
                },
                _ => Err(DecodeError::InvalidWireType),
            }
        } else {
            Ok(v)
        }
    }

    proof fn lemma_zero_copy_le(v: Seq<u8>) {
        if v.len() != 0 {
            lemma_len_delim_field_len(1, v);
        }
    }

    fn new_default() -> (r: Self) {
        bytes_from_vec(Vec::new())
    }

    fn encoded_len(&self) -> (r: usize) {
        proof {
            lemma_len_delim_field_len(1, bytes_seq(*self));
        }
        let n = bytes_len(self);
        if n != 0 {
            1 + varint_len(n as u64) + n
        } else {
            0
        }
    }

    fn zero_copy_len(&self) -> (r: usize) {
        proof {
            lemma_len_delim_field_len(1, bytes_seq(*self));
        }
        bytes_len(self)
    }

    fn encode_raw(&self, chain: &mut BufferChain) {
        proof {
            lemma_len_delim_field_len(1, bytes_seq(*self));
        }
        let n = bytes_len(self);
        if n != 0 {
            let s = crate::extbytes::bytes_as_slice(self);
            write_len_delim_field(chain, 1, s);
        }
    }

    fn encode_raw_unchecked(&self, buf: &mut FlatBuf) {
        proof {
            lemma_len_delim_field_len(1, bytes_seq(*self));
        }
        let n = bytes_len(self);
        if n != 0 {
            let s = crate::extbytes::bytes_as_slice(self);
            write_len_delim_field(buf, 1, s);
        } else {
            assert(final(buf).flat_bytes() =~= old(buf).flat_bytes());
        }
    }

    fn merge_field(&mut self, id: u32, wt: WireType, data: &FieldData, raw: &[u8]) -> (r: Result<
        (),
        DecodeError,
    >) {
        if id == 1 {
            match data {
                FieldData::LenPayload(p) => {
                    if wt == WireType::LengthDelimited {
                        let v = copy_range(p.as_slice(), 0, p.len());
                        assert(v@ =~= p@);
                        *self = bytes_from_vec(v);
                        Ok(())
                    } else {
                        Err(DecodeError::InvalidWireType)
                    }
                },
                _ => Err(DecodeError::InvalidWireType),
            }
        } else {
            Ok(())
        }
    }
}



impl Message for () {
    type V = ();

    open spec fn m_view(&self) -> () {
        ()
    }

    open spec fn wire_bytes_of(v: ()) -> Seq<u8> {
        Seq::empty()
    }

    open spec fn zero_copy_of(v: ()) -> nat {
        0
    }

    open spec fn default_view() -> () {
        ()
    }

    open spec fn merge_spec(v: (), id: u32, wt: WireType, data: FieldDataView, raw: Seq<u8>) -> Result<
        (),
        DecodeError,
    > {
        Ok(v)
    }

    proof fn lemma_zero_copy_le(v: ()) {
    }

    fn new_default() -> (r: Self) {
    }

    fn encoded_len(&self) -> (r: usize) {
        0
    }

    fn zero_copy_len(&self) -> (r: usize) {
        0
    }

    fn encode_raw(&self, chain: &mut BufferChain) {
        assert(final(chain).chain_bytes() =~= old(chain).chain_bytes());
    }

    fn encode_raw_unchecked(&self, buf: &mut FlatBuf) {
        assert(final(buf).flat_bytes() =~= old(buf).flat_bytes());
    }

    fn merge_field(&mut self, id: u32, wt: WireType, data: &FieldData, raw: &[u8]) -> (r: Result<
        (),
        DecodeError,
    >) {
        Ok(())
    }
}

/// One step of the decode fold: a whole parsed field followed by the rest
/// of the input merges and leaves the rest to decode.
pub proof fn lemma_decode_field_step<M: Message>(
    field: Seq<u8>,
    rest: Seq<u8>,
    v: M::V,
    id: u32,
    wt: WireType,
    data: FieldDataView,
    v2: M::V,
)
    requires
        parse_field_spec(field + rest) == Ok::<(u32, WireType, FieldDataView, int), DecodeError>(
            (id, wt, data, field.len() as int),
        ),
        field.len() > 0,
        M::merge_spec(v, id, wt, data, field) == Ok::<M::V, DecodeError>(v2),
    ensures
        decode_fields_spec::<M>(field + rest, v) == decode_fields_spec::<M>(rest, v2),
{
    let s = field + rest;
    assert(s.take(field.len() as int) =~= field);
    assert(s.skip(field.len() as int) =~= rest);
}

/// Decoding an empty input yields the type's zero/empty value: an absent
/// wrapper field decodes to the default.
pub proof fn lemma_decode_empty<M: Message>()
    ensures
        decode_spec::<M>(Seq::<u8>::empty()) == Ok::<M::V, DecodeError>(M::default_view()),
{
}

/// Round trip for the boolean wrapper, and its default elision: `false`
/// encodes to no bytes at all.
pub proof fn lemma_bool_round_trip(v: bool)
    ensures
        decode_spec::<bool>(<bool as Message>::wire_bytes_of(v)) == Ok::<bool, DecodeError>(v),
        !v ==> <bool as Message>::wire_bytes_of(v) == Seq::<u8>::empty(),
{
    if v {
        lemma_parse_varint_field(1, 1, Seq::empty());
        assert(varint_field(1, 1) + Seq::<u8>::empty() =~= varint_field(1, 1));
        lemma_varint_field_len(1, 1);
        lemma_decode_field_step::<bool>(
            varint_field(1, 1),
            Seq::empty(),
            false,
            1,
            WireType::Varint,
            FieldDataView::VInt(1),
            true,
        );
    }
}

/// Round trip for the unsigned 64-bit wrapper.
pub proof fn lemma_u64_round_trip(v: u64)
    ensures
        decode_spec::<u64>(<u64 as Message>::wire_bytes_of(v)) == Ok::<u64, DecodeError>(v),
        v == 0 ==> <u64 as Message>::wire_bytes_of(v) == Seq::<u8>::empty(),
{
    if v != 0 {
        lemma_parse_varint_field(1, v, Seq::empty());
        assert(varint_field(1, v) + Seq::<u8>::empty() =~= varint_field(1, v));
        lemma_varint_field_len(1, v);
        lemma_decode_field_step::<u64>(
            varint_field(1, v),
            Seq::empty(),
            0,
            1,
            WireType::Varint,
            FieldDataView::VInt(v),
            v,
        );
    }
}

/// Round trip for the unsigned 32-bit wrapper.
pub proof fn lemma_u32_round_trip(v: u32)
    ensures
        decode_spec::<u32>(<u32 as Message>::wire_bytes_of(v)) == Ok::<u32, DecodeError>(v),
        v == 0 ==> <u32 as Message>::wire_bytes_of(v) == Seq::<u8>::empty(),
{
    if v != 0 {
        lemma_parse_varint_field(1, v as u64, Seq::empty());
        assert(varint_field(1, v as u64) + Seq::<u8>::empty() =~= varint_field(1, v as u64));
        lemma_varint_field_len(1, v as u64);
        assert((v as u64) % 0x1_0000_0000 == v as u64) by {
            vstd::arithmetic::div_mod::lemma_small_mod(v as nat, 0x1_0000_0000);
        }
        lemma_decode_field_step::<u32>(
            varint_field(1, v as u64),
            Seq::empty(),
            0,
            1,
            WireType::Varint,
            FieldDataView::VInt(v as u64),
            v,
        );
    }
}

/// Round trip for the signed 64-bit wrapper.
pub proof fn lemma_i64_round_trip(v: i64)
    ensures
        decode_spec::<i64>(<i64 as Message>::wire_bytes_of(v)) == Ok::<i64, DecodeError>(v),
        v == 0 ==> <i64 as Message>::wire_bytes_of(v) == Seq::<u8>::empty(),
{
    if v != 0 {
        lemma_parse_varint_field(1, u64_of_i64(v), Seq::empty());
        assert(varint_field(1, u64_of_i64(v)) + Seq::<u8>::empty() =~= varint_field(
            1,
            u64_of_i64(v),
        ));
        lemma_varint_field_len(1, u64_of_i64(v));
        crate::varint::lemma_i64_u64_round_trip(v);
        lemma_decode_field_step::<i64>(
            varint_field(1, u64_of_i64(v)),
            Seq::empty(),
            0,
            1,
            WireType::Varint,
            FieldDataView::VInt(u64_of_i64(v)),
            v,
        );
    }
}

/// Round trip for the signed 32-bit wrapper.
pub proof fn lemma_i32_round_trip(v: i32)
    ensures
        decode_spec::<i32>(<i32 as Message>::wire_bytes_of(v)) == Ok::<i32, DecodeError>(v),
        v == 0 ==> <i32 as Message>::wire_bytes_of(v) == Seq::<u8>::empty(),
{
    if v != 0 {
        lemma_parse_varint_field(1, u64_of_i32(v), Seq::empty());
        assert(varint_field(1, u64_of_i32(v)) + Seq::<u8>::empty() =~= varint_field(
            1,
            u64_of_i32(v),
        ));
        lemma_varint_field_len(1, u64_of_i32(v));
        crate::varint::lemma_i32_u64_round_trip(v);
        lemma_decode_field_step::<i32>(
            varint_field(1, u64_of_i32(v)),
            Seq::empty(),
            0,
            1,
            WireType::Varint,
            FieldDataView::VInt(u64_of_i32(v)),
            v,
        );
    }
}

/// Round trip for the string wrapper, over any valid UTF-8 contents.
pub proof fn lemma_string_round_trip(v: Seq<u8>)
    requires
        utf8_valid(v),
        v.len() <= u64::MAX,
    ensures
        decode_spec::<FastStr>(<FastStr as Message>::wire_bytes_of(v)) == Ok::<Seq<u8>, DecodeError>(v),
        v.len() == 0 ==> <FastStr as Message>::wire_bytes_of(v) == Seq::<u8>::empty(),
{
    if v.len() != 0 {
        lemma_parse_len_delim_field(1, v, Seq::empty());
        assert(len_delim_field(1, v) + Seq::<u8>::empty() =~= len_delim_field(1, v));
        lemma_len_delim_field_len(1, v);
        lemma_decode_field_step::<FastStr>(
            len_delim_field(1, v),
            Seq::empty(),
            Seq::empty(),
            1,
            WireType::LengthDelimited,
            FieldDataView::LenPayload(v),
            v,
        );
    } else {
        assert(v =~= Seq::<u8>::empty());
    }
}

/// Round trip for the owned-bytes wrapper.
pub proof fn lemma_vec_round_trip(v: Seq<u8>)
    requires
        v.len() <= u64::MAX,
    ensures
        decode_spec::<Vec<u8>>(<Vec<u8> as Message>::wire_bytes_of(v)) == Ok::<Seq<u8>, DecodeError>(v),
        v.len() == 0 ==> <Vec<u8> as Message>::wire_bytes_of(v) == Seq::<u8>::empty(),
{
    if v.len() != 0 {
        lemma_parse_len_delim_field(1, v, Seq::empty());
        assert(len_delim_field(1, v) + Seq::<u8>::empty() =~= len_delim_field(1, v));
        lemma_len_delim_field_len(1, v);
        lemma_decode_field_step::<Vec<u8>>(
            len_delim_field(1, v),
            Seq::empty(),
            Seq::empty(),
            1,
            WireType::LengthDelimited,
            FieldDataView::LenPayload(v),
            v,
        );
    } else {
        assert(v =~= Seq::<u8>::empty());
    }
}

/// Round trip for the shared-bytes wrapper.
pub proof fn lemma_bytes_round_trip(v: Seq<u8>)
    requires
        v.len() <= u64::MAX,
    ensures
        decode_spec::<Bytes>(<Bytes as Message>::wire_bytes_of(v)) == Ok::<Seq<u8>, DecodeError>(v),
        v.len() == 0 ==> <Bytes as Message>::wire_bytes_of(v) == Seq::<u8>::empty(),
{
    if v.len() != 0 {
        lemma_parse_len_delim_field(1, v, Seq::empty());
        assert(len_delim_field(1, v) + Seq::<u8>::empty() =~= len_delim_field(1, v));
        lemma_len_delim_field_len(1, v);
        lemma_decode_field_step::<Bytes>(
            len_delim_field(1, v),
            Seq::empty(),
            Seq::empty(),
            1,
            WireType::LengthDelimited,
            FieldDataView::LenPayload(v),
            v,
        );
    } else {
        assert(v =~= Seq::<u8>::empty());
    }
}

} // verus!
