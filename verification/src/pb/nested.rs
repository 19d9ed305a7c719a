//! A record embedding another message, in the length-delimited format.
//!
//! An embedded message travels as a length-delimited field: its own
//! encoding, prefixed by its byte count. Sizing therefore works bottom-up
//! — the child's size is computed first, then the prefix that depends on
//! it — and decoding recurses into a new frame bounded by the prefix.

use faststr::FastStr;
use vstd::prelude::*;

use crate::buffer::{BufferChain, FlatBuf, WireWrite};
use crate::error::DecodeError;
use crate::extstr::{faststr_seq, fs_as_slice, fs_empty, fs_from_vec, fs_len, utf8_valid};
use crate::mask::FieldMask;
use crate::pb::encoding::{
    copy_range, len_delim_field, lemma_len_delim_field_len, lemma_parse_len_delim_field,
    varint_len, write_len_delim_field, write_len_delim_header, FieldData, FieldDataView, WireType,
};
use crate::pb::string::{a_wf, a_wire_bytes_masked, lemma_a_round_trip, lemma_mask_pruning, A, AView};
use crate::pb::types::{decode, decode_spec, lemma_decode_field_step, Message};
use crate::varint::{lemma_varint_len_monotone, lemma_varint_spec_len, varint_len_spec};

verus! {

/// A record with an optional embedded [`A`] (field 1) and a required
/// string `tag` (field 2).
#[derive(Debug, Clone, PartialEq)]
pub struct N {
    pub inner: Option<A>,
    pub tag: FastStr,
}

/// The mathematical image of [`N`].
pub struct NView {
    pub inner: Option<AView>,
    pub tag: Seq<u8>,
}

/// A view is well formed when its parts are.
pub open spec fn n_wf(v: NView) -> bool {
    &&& match v.inner {
        Some(av) => a_wf(av) && <A as Message>::wire_bytes_of(av).len() <= u64::MAX,
        None => true,
    }
    &&& utf8_valid(v.tag)
    &&& v.tag.len() <= u64::MAX
}

/// The bytes field 1 contributes: the embedded record's whole encoding,
/// length-prefixed; nothing when it is absent.
pub open spec fn n_field1(v: NView) -> Seq<u8> {
    match v.inner {
        Some(av) => len_delim_field(1, <A as Message>::wire_bytes_of(av)),
        None => Seq::empty(),
    }
}


/// The embedded field is at least as long as the embedded record, and
/// every piece of the encoding has the byte counts the size pass uses.
proof fn lemma_n_lens(v: NView)
    ensures
        len_delim_field(2, v.tag).len() == 1 + varint_len_spec(v.tag.len() as u64) + v.tag.len(),
        match v.inner {
            Some(av) => {
                let inner = <A as Message>::wire_bytes_of(av);
                n_field1(v).len() == 1 + varint_len_spec(inner.len() as u64) + inner.len()
            },
            None => n_field1(v).len() == 0,
        },
{
    lemma_len_delim_field_len(2, v.tag);
    lemma_varint_spec_len(crate::pb::encoding::key_spec(2, WireType::LengthDelimited));
    lemma_varint_spec_len(v.tag.len() as u64);
    match v.inner {
        Some(av) => {
            let inner = <A as Message>::wire_bytes_of(av);
            lemma_len_delim_field_len(1, inner);
            lemma_varint_spec_len(crate::pb::encoding::key_spec(1, WireType::LengthDelimited));
            lemma_varint_spec_len(inner.len() as u64);
        },
        None => {},
    }
}

impl Message for N {
    type V = NView;

    open spec fn m_view(&self) -> NView {
        NView {
            inner: match self.inner {
                Some(m) => Some(m.m_view()),
                None => None,
            },
            tag: faststr_seq(self.tag),
        }
    }

    open spec fn wire_bytes_of(v: NView) -> Seq<u8> {
        n_field1(v) + len_delim_field(2, v.tag)
    }

    open spec fn zero_copy_of(v: NView) -> nat {
        0
    }

    open spec fn default_view() -> NView {
        NView { inner: None, tag: Seq::empty() }
    }

    open spec fn merge_spec(v: NView, id: u32, wt: WireType, data: FieldDataView, raw: Seq<u8>) -> Result<
        NView,
        DecodeError,
    > {
        if id == 1 {
            match data {
                FieldDataView::LenPayload(p) => if wt == WireType::LengthDelimited {
                    match decode_spec::<A>(p) {
                        Ok(av) => Ok(NView { inner: Some(av), tag: v.tag }),
                        Err(e) => Err(e),
                    }
                } else {
                    Err(DecodeError::InvalidWireType)
                },
                _ => Err(DecodeError::InvalidWireType),
            }
        } else if id == 2 {
            match data {
                FieldDataView::LenPayload(p) => if wt == WireType::LengthDelimited {
                    if utf8_valid(p) {
                        Ok(NView { inner: v.inner, tag: p })
                    } else {
                        Err(DecodeError::InvalidUtf8)
                    }
                } else {
                    Err(DecodeError::InvalidWireType)
                },
                _ => Err(DecodeError::InvalidWireType),
            }
        } else {
            Ok(v)
        }
    }

    proof fn lemma_zero_copy_le(v: NView) {
    }

    fn new_default() -> (r: Self) {
        N { inner: None, tag: fs_empty() }
    }

    fn encoded_len(&self) -> (r: usize) {
        let ghost v = self.m_view();
        proof {
            lemma_n_lens(v);
        }
        // bottom-up: the child's size first, then the prefix that depends
        // on it
        let l1: usize = match &self.inner {
            Some(m) => {
                let inner_len = m.encoded_len();
                1 + varint_len(inner_len as u64) + inner_len
            },
            None => 0,
        };
        let nt = fs_len(&self.tag);
        l1 + (1 + varint_len(nt as u64) + nt)
    }

    fn zero_copy_len(&self) -> (r: usize) {
        0
    }

    fn encode_raw(&self, chain: &mut BufferChain) {
        let ghost v = self.m_view();
        proof {
            lemma_n_lens(v);
        }
        match &self.inner {
            Some(m) => {
                let inner_len = m.encoded_len();
                write_len_delim_header(chain, 1, inner_len);
                m.encode_raw(chain);
            },
            None => {},
        }
        write_len_delim_field(chain, 2, fs_as_slice(&self.tag));
        assert(final(chain).chain_bytes() =~= old(chain).chain_bytes()
            + <N as Message>::wire_bytes_of(v));
    }

    fn encode_raw_unchecked(&self, buf: &mut FlatBuf) {
        let ghost v = self.m_view();
        let cap = buf.data.len();
        assert(<N as Message>::wire_bytes_of(v).len() <= cap);
        proof {
            lemma_n_lens(v);
        }
        match &self.inner {
            Some(m) => {
                let inner_len = m.encoded_len();
                write_len_delim_header(buf, 1, inner_len);
                m.encode_raw_unchecked(buf);
            },
            None => {},
        }
        write_len_delim_field(buf, 2, fs_as_slice(&self.tag));
        assert(final(buf).flat_bytes() =~= old(buf).flat_bytes() + <N as Message>::wire_bytes_of(
            v,
        ));
    }

    fn merge_field(&mut self, id: u32, wt: WireType, data: &FieldData, raw: &[u8]) -> (r: Result<
        (),
        DecodeError,
    >) {
        if id == 1 {
            match data {
                FieldData::LenPayload(p) => {
                    if wt == WireType::LengthDelimited {
                        match decode::<A>(p.as_slice()) {
                            Ok(m) => {
                                self.inner = Some(m);
                                Ok(())
                            },
                            Err(e) => Err(e),
                        }
                    } else {
                        Err(DecodeError::InvalidWireType)
                    }
                },
                _ => Err(DecodeError::InvalidWireType),
            }
        } else if id == 2 {
            match data {
                FieldData::LenPayload(p) => {
                    if wt == WireType::LengthDelimited {
                        let bytes = copy_range(p.as_slice(), 0, p.len());
                        assert(bytes@ =~= p@);
                        match fs_from_vec(bytes) {
                            Some(s) => {
                                self.tag = s;
                                Ok(())
                            },
                            None => Err(DecodeError::InvalidUtf8),
                        }
                    } else {
                        Err(DecodeError::InvalidWireType)
                    }
                },
                _ => Err(DecodeError::InvalidWireType),
            }
        } else {
            Ok(())
        }
    }
}

/// Round trip for [`N`]: the embedded record is recovered through its own
/// frame, and the outer fields around it.
pub proof fn lemma_n_round_trip(v: NView)
    requires
        n_wf(v),
    ensures
        decode_spec::<N>(<N as Message>::wire_bytes_of(v)) == Ok::<NView, DecodeError>(
            NView { inner: v.inner, tag: v.tag },
        ),
{
    let d0 = <N as Message>::default_view();
    let f2 = len_delim_field(2, v.tag);
    lemma_len_delim_field_len(2, v.tag);
    match v.inner {
        Some(av) => {
            let payload = <A as Message>::wire_bytes_of(av);
            let f1 = len_delim_field(1, payload);
            lemma_len_delim_field_len(1, payload);
            lemma_parse_len_delim_field(1, payload, f2);
            lemma_a_round_trip(av);
            let v1 = NView { inner: Some(AView { a: av.a, b: av.b }), tag: d0.tag };
            lemma_decode_field_step::<N>(
                f1,
                f2,
                d0,
                1,
                WireType::LengthDelimited,
                FieldDataView::LenPayload(payload),
                v1,
            );
            lemma_parse_len_delim_field(2, v.tag, Seq::empty());
            assert(f2 + Seq::<u8>::empty() =~= f2);
            lemma_decode_field_step::<N>(
                f2,
                Seq::empty(),
                v1,
                2,
                WireType::LengthDelimited,
                FieldDataView::LenPayload(v.tag),
                NView { inner: v1.inner, tag: v.tag },
            );
            assert(<N as Message>::wire_bytes_of(v) == f1 + f2);
        },
        None => {
            lemma_parse_len_delim_field(2, v.tag, Seq::empty());
            assert(f2 + Seq::<u8>::empty() =~= f2);
            lemma_decode_field_step::<N>(
                f2,
                Seq::empty(),
                d0,
                2,
                WireType::LengthDelimited,
                FieldDataView::LenPayload(v.tag),
                NView { inner: None, tag: v.tag },
            );
            assert(<N as Message>::wire_bytes_of(v) =~= f2);
        },
    }
}

/// The bytes of [`N`] encoded under a mask: the child mask of field 1
/// governs the embedded record's own fields.
pub open spec fn n_wire_bytes_masked(v: NView, mask: FieldMask) -> Seq<u8> {
    (if mask.includes_spec(1) {
        match v.inner {
            Some(av) => len_delim_field(1, a_wire_bytes_masked(av, mask.child_spec(1))),
            None => Seq::empty(),
        }
    } else {
        Seq::empty()
    }) + (if mask.includes_spec(2) {
        len_delim_field(2, v.tag)
    } else {
        Seq::empty()
    })
}

impl A {
    /// The exact byte count `encode_masked` writes: the size pass under a
    /// mask, again computed before encoding.
    pub fn encoded_len_masked(&self, mask: &FieldMask) -> (r: usize)
        requires
            <A as Message>::wire_bytes_of(self.m_view()).len() <= usize::MAX,
        ensures
            r == a_wire_bytes_masked(self.m_view(), *mask).len(),
    {
        let ghost v = self.m_view();
        proof {
            lemma_len_delim_field_len(2, v.b);
            match v.a {
                Some(p) => lemma_len_delim_field_len(1, p),
                None => {},
            }
        }
        let la: usize = if mask.includes(1) {
            match &self.a {
                Some(s) => {
                    let n = fs_len(s);
                    1 + varint_len(n as u64) + n
                },
                None => 0,
            }
        } else {
            0
        };
        if mask.includes(2) {
            let nb = fs_len(&self.b);
            la + (1 + varint_len(nb as u64) + nb)
        } else {
            la
        }
    }
}

impl N {
    /// Encode under a mask: an excluded field contributes nothing, and
    /// the child mask of field 1 prunes inside the embedded record.
    pub fn encode_masked(&self, mask: &FieldMask, chain: &mut BufferChain)
        requires
            old(chain).wf_chain(),
            old(chain).chain_bytes().len() + <N as Message>::wire_bytes_of(self.m_view()).len()
                <= usize::MAX,
        ensures
            final(chain).wf_chain(),
            final(chain).chain_bytes() == old(chain).chain_bytes() + n_wire_bytes_masked(
                self.m_view(),
                *mask,
            ),
    {
        let ghost v = self.m_view();
        proof {
            lemma_n_lens(v);
            match v.inner {
                Some(av) => {
                    let full = <A as Message>::wire_bytes_of(av);
                    let cs = mask.child_spec(1);
                    lemma_masked_le(av, cs);
                    lemma_varint_len_monotone(
                        a_wire_bytes_masked(av, cs).len() as u64,
                        full.len() as u64,
                    );
                    lemma_len_delim_field_len(1, a_wire_bytes_masked(av, cs));
                    lemma_varint_spec_len(a_wire_bytes_masked(av, cs).len() as u64);
                },
                None => {},
            }
        }
        if mask.includes(1) {
            match &self.inner {
                Some(m) => {
                    let ghost cs = mask.child_spec(1);
                    match mask.child_of(1) {
                        Some(child) => {
                            let inner_len = m.encoded_len_masked(child);
                            proof {
                                lemma_len_delim_field_len(1, a_wire_bytes_masked(m.m_view(), cs));
                            }
                            write_len_delim_header(chain, 1, inner_len);
                            m.encode_masked(child, chain);
                        },
                        None => {
                            // the open default: everything below is included
                            proof {
                                assert(a_wire_bytes_masked(m.m_view(), cs)
                                    =~= <A as Message>::wire_bytes_of(m.m_view()));
                                lemma_len_delim_field_len(1, a_wire_bytes_masked(m.m_view(), cs));
                            }
                            let inner_len = m.encoded_len();
                            write_len_delim_header(chain, 1, inner_len);
                            m.encode_raw(chain);
                        },
                    }
                },
                None => {},
            }
        }
        if mask.includes(2) {
            write_len_delim_field(chain, 2, fs_as_slice(&self.tag));
        }
        assert(final(chain).chain_bytes() =~= old(chain).chain_bytes() + n_wire_bytes_masked(
            v,
            *mask,
        ));
    }
}

/// A masked encoding is never longer than the plain one.
pub proof fn lemma_masked_le(v: AView, mask: FieldMask)
    ensures
        a_wire_bytes_masked(v, mask).len() <= <A as Message>::wire_bytes_of(v).len(),
{
}

/// Mask pruning reaches through nesting: a mask that keeps the required
/// fields and excludes the embedded record's optional field yields
/// exactly the encoding of the record with that nested field cleared.
pub proof fn lemma_nested_mask_pruning(v: NView, mask: FieldMask)
    requires
        mask.includes_spec(2),
        mask.includes_spec(1) ==> mask.child_spec(1).includes_spec(2),
    ensures
        n_wire_bytes_masked(v, mask) == <N as Message>::wire_bytes_of(
            NView {
                inner: if mask.includes_spec(1) {
                    match v.inner {
                        Some(av) => Some(
                            AView {
                                a: if mask.child_spec(1).includes_spec(1) {
                                    av.a
                                } else {
                                    None
                                },
                                b: av.b,
                            },
                        ),
                        None => None,
                    }
                } else {
                    None
                },
                tag: v.tag,
            },
        ),
{
    if mask.includes_spec(1) {
        match v.inner {
            Some(av) => {
                lemma_mask_pruning(av, mask.child_spec(1));
            },
            None => {},
        }
    }
    assert(n_wire_bytes_masked(v, mask) =~= <N as Message>::wire_bytes_of(
        NView {
            inner: if mask.includes_spec(1) {
                match v.inner {
                    Some(av) => Some(
                        AView {
                            a: if mask.child_spec(1).includes_spec(1) {
                                av.a
                            } else {
                                None
                            },
                            b: av.b,
                        },
                    ),
                    None => None,
                }
            } else {
                None
            },
            tag: v.tag,
        },
    ));
}

} // verus!
