//! Generated-style record types over string fields, in the
//! length-delimited format.
//!
//! [`A`] is the wide schema: an optional string `a` (field 1) and a
//! required string `b` (field 2). [`B`] is the same record under a
//! narrower schema that knows only field 2, with unknown-field capture
//! enabled: whatever it does not recognize is retained byte-for-byte and
//! re-emitted on encode.

use faststr::FastStr;
use vstd::prelude::*;

use crate::buffer::{BufferChain, FlatBuf, WireWrite};
use crate::error::DecodeError;
use crate::extstr::{faststr_seq, fs_as_slice, fs_empty, fs_from_vec, fs_len, fs_to_bytes, utf8_valid};
use crate::mask::FieldMask;
use crate::pb::encoding::{
    copy_range, len_delim_field, lemma_len_delim_field_len, lemma_parse_len_delim_field,
    varint_len, write_len_delim_field, write_len_delim_header, FieldData, FieldDataView, WireType,
};
use crate::pb::types::{
    decode_fields_spec, decode_spec, lemma_decode_field_step, Message,
};
use crate::unknown::{unknown_bytes, UnknownFieldView, UnknownFields};

verus! {

/// A record with an optional string `a` (field 1) and a required string
/// `b` (field 2). Unknown fields are skipped, not retained.
#[derive(PartialOrd, Hash, Eq, Ord, Debug, Clone, PartialEq)]
pub struct A {
    pub a: Option<FastStr>,
    pub b: FastStr,
}

/// The mathematical image of [`A`]: each string as its UTF-8 bytes.
pub struct AView {
    pub a: Option<Seq<u8>>,
    pub b: Seq<u8>,
}

/// A view is well formed when its strings hold valid UTF-8 of encodable
/// length.
pub open spec fn a_wf(v: AView) -> bool {
    &&& match v.a {
        Some(p) => utf8_valid(p) && p.len() <= u64::MAX,
        None => true,
    }
    &&& utf8_valid(v.b)
    &&& v.b.len() <= u64::MAX
}

/// The bytes field 1 contributes: nothing when `a` is absent.
pub open spec fn a_field1(v: AView) -> Seq<u8> {
    match v.a {
        Some(p) => len_delim_field(1, p),
        None => Seq::empty(),
    }
}

impl Message for A {
    type V = AView;

    open spec fn m_view(&self) -> AView {
        AView {
            a: match self.a {
                Some(s) => Some(faststr_seq(s)),
                None => None,
            },
            b: faststr_seq(self.b),
        }
    }

    open spec fn wire_bytes_of(v: AView) -> Seq<u8> {
        a_field1(v) + len_delim_field(2, v.b)
    }

    open spec fn zero_copy_of(v: AView) -> nat {
        (match v.a {
            Some(p) => p.len(),
            None => 0,
        }) + v.b.len()
    }

    open spec fn default_view() -> AView {
        AView { a: None, b: Seq::empty() }
    }

    open spec fn merge_spec(v: AView, id: u32, wt: WireType, data: FieldDataView, raw: Seq<u8>) -> Result<
        AView,
        DecodeError,
    > {
        if id == 1 {
            match data {
                FieldDataView::LenPayload(p) => if wt == WireType::LengthDelimited {
                    if utf8_valid(p) {
                        Ok(AView { a: Some(p), b: v.b })
                    } else {
                        Err(DecodeError::InvalidUtf8)
                    }
                } else {
                    Err(DecodeError::InvalidWireType)
                },
                _ => Err(DecodeError::InvalidWireType),
            }
        } else if id == 2 {
            match data {
                FieldDataView::LenPayload(p) => if wt == WireType::LengthDelimited {
                    if utf8_valid(p) {
                        Ok(AView { a: v.a, b: p })
                    } else {
                        Err(DecodeError::InvalidUtf8)
                    }
                } else {
                    Err(DecodeError::InvalidWireType)
                },
                _ => Err(DecodeError::InvalidWireType),
            }
        } else {
            Ok(v)
        }
    }

    proof fn lemma_zero_copy_le(v: AView) {
        lemma_len_delim_field_len(2, v.b);
        match v.a {
            Some(p) => lemma_len_delim_field_len(1, p),
            None => {},
        }
    }

    fn new_default() -> (r: Self) {
        A { a: None, b: fs_empty() }
    }

    fn encoded_len(&self) -> (r: usize) {
        proof {
            lemma_len_delim_field_len(2, faststr_seq(self.b));
            match self.m_view().a {
                Some(p) => lemma_len_delim_field_len(1, p),
                None => {},
            }
        }
        let la: usize = match &self.a {
            Some(s) => {
                let n = fs_len(s);
                1 + varint_len(n as u64) + n
            },
            None => 0,
        };
        let nb = fs_len(&self.b);
        la + (1 + varint_len(nb as u64) + nb)
    }

    fn zero_copy_len(&self) -> (r: usize) {
        proof {
            <A as Message>::lemma_zero_copy_le(self.m_view());
        }
        match &self.a {
            Some(s) => fs_len(s) + fs_len(&self.b),
            None => fs_len(&self.b),
        }
    }

    fn encode_raw(&self, chain: &mut BufferChain) {
        let ghost v = self.m_view();
        match &self.a {
            Some(s) => {
                write_len_delim_field(chain, 1, fs_as_slice(s));
            },
            None => {},
        }
        write_len_delim_field(chain, 2, fs_as_slice(&self.b));
        assert(final(chain).chain_bytes() =~= old(chain).chain_bytes()
            + <A as Message>::wire_bytes_of(v));
    }

    fn encode_raw_unchecked(&self, buf: &mut FlatBuf) {
        let ghost v = self.m_view();
        match &self.a {
            Some(s) => {
                write_len_delim_field(buf, 1, fs_as_slice(s));
            },
            None => {},
        }
        write_len_delim_field(buf, 2, fs_as_slice(&self.b));
        assert(final(buf).flat_bytes() =~= old(buf).flat_bytes() + <A as Message>::wire_bytes_of(
            v,
        ));
    }

    fn merge_field(&mut self, id: u32, wt: WireType, data: &FieldData, raw: &[u8]) -> (r: Result<
        (),
        DecodeError,
    >) {
        if id == 1 || id == 2 {
            match data {
                FieldData::LenPayload(p) => {
                    if wt == WireType::LengthDelimited {
                        let v = copy_range(p.as_slice(), 0, p.len());
                        assert(v@ =~= p@);
                        match fs_from_vec(v) {
                            Some(s) => {
                                if id == 1 {
                                    self.a = Some(s);
                                } else {
                                    self.b = s;
                                }
                                Ok(())
                            },
                            None => Err(DecodeError::InvalidUtf8),
                        }
                    } else {
                        Err(DecodeError::InvalidWireType)
                    }
                },
                _ => Err(DecodeError::InvalidWireType),
            }
        } else {
            Ok(())
        }
    }
}

impl Default for A {
    /// The record holding every field's zero/empty value.
    fn default() -> (r: Self)
        ensures
            r.m_view() == <A as Message>::default_view(),
    {
        <A as Message>::new_default()
    }
}

impl A {
    /// Encode into a buffer chain with the string payloads welded in as
    /// zero-copy segments: only the field headers are copied, exactly
    /// `size - zero-copy size` bytes.
    pub fn encode_zero_copy(&self, chain: &mut BufferChain)
        requires
            old(chain).wf_chain(),
            old(chain).chain_bytes().len() + <A as Message>::wire_bytes_of(self.m_view()).len()
                <= usize::MAX,
        ensures
            final(chain).wf_chain(),
            final(chain).chain_bytes() == old(chain).chain_bytes() + <A as Message>::wire_bytes_of(
                self.m_view(),
            ),
            final(chain).copied_bytes() == old(chain).copied_bytes()
                + <A as Message>::wire_bytes_of(self.m_view()).len() - <A as Message>::zero_copy_of(
                self.m_view(),
            ),
    {
        let ghost v = self.m_view();
        proof {
            lemma_len_delim_field_len(2, v.b);
            match v.a {
                Some(p) => lemma_len_delim_field_len(1, p),
                None => {},
            }
        }
        match &self.a {
            Some(s) => {
                let mut header: Vec<u8> = Vec::new();
                write_len_delim_header(&mut header, 1, fs_len(s));
                chain.append_owned(header.as_slice());
                chain.append_zero_copy(fs_to_bytes(s));
            },
            None => {},
        }
        let mut header: Vec<u8> = Vec::new();
        write_len_delim_header(&mut header, 2, fs_len(&self.b));
        chain.append_owned(header.as_slice());
        chain.append_zero_copy(fs_to_bytes(&self.b));
        assert(final(chain).chain_bytes() =~= old(chain).chain_bytes()
            + <A as Message>::wire_bytes_of(v));
    }

    /// Encode under a mask: a field whose number the mask excludes
    /// contributes no bytes at all.
    pub fn encode_masked(&self, mask: &FieldMask, chain: &mut BufferChain)
        requires
            old(chain).wf_chain(),
            old(chain).chain_bytes().len() + <A as Message>::wire_bytes_of(self.m_view()).len()
                <= usize::MAX,
        ensures
            final(chain).wf_chain(),
            final(chain).chain_bytes() == old(chain).chain_bytes() + a_wire_bytes_masked(
                self.m_view(),
                *mask,
            ),
    {
        let ghost v = self.m_view();
        proof {
            lemma_len_delim_field_len(2, v.b);
            match v.a {
                Some(p) => lemma_len_delim_field_len(1, p),
                None => {},
            }
        }
        if mask.includes(1) {
            match &self.a {
                Some(s) => {
                    write_len_delim_field(chain, 1, fs_as_slice(s));
                },
                None => {},
            }
        }
        if mask.includes(2) {
            write_len_delim_field(chain, 2, fs_as_slice(&self.b));
        }
        assert(final(chain).chain_bytes() =~= old(chain).chain_bytes() + a_wire_bytes_masked(
            v,
            *mask,
        ));
    }
}

/// The bytes of [`A`] encoded under a mask: each excluded field is pruned.
pub open spec fn a_wire_bytes_masked(v: AView, mask: FieldMask) -> Seq<u8> {
    (if mask.includes_spec(1) {
        a_field1(v)
    } else {
        Seq::empty()
    }) + (if mask.includes_spec(2) {
        len_delim_field(2, v.b)
    } else {
        Seq::empty()
    })
}

/// Mask pruning: excluding a field under a mask removes exactly that
/// field's bytes. When the required field stays included, the masked
/// output equals the plain encoding of the record with the excluded field
/// cleared; when everything is excluded, no bytes remain.
pub proof fn lemma_mask_pruning(v: AView, mask: FieldMask)
    ensures
        mask.includes_spec(2) ==> a_wire_bytes_masked(v, mask) == <A as Message>::wire_bytes_of(
            AView {
                a: if mask.includes_spec(1) {
                    v.a
                } else {
                    None
                },
                b: v.b,
            },
        ),
        !mask.includes_spec(1) && !mask.includes_spec(2) ==> a_wire_bytes_masked(v, mask)
            == Seq::<u8>::empty(),
{
    if mask.includes_spec(2) {
        if mask.includes_spec(1) {
            assert(a_wire_bytes_masked(v, mask) =~= <A as Message>::wire_bytes_of(
                AView { a: v.a, b: v.b },
            ));
        } else {
            assert(a_wire_bytes_masked(v, mask) =~= <A as Message>::wire_bytes_of(
                AView { a: None, b: v.b },
            ));
        }
    }
    if !mask.includes_spec(1) && !mask.includes_spec(2) {
        assert(a_wire_bytes_masked(v, mask) =~= Seq::<u8>::empty());
    }
}

/// Round trip for [`A`]: decoding its canonical encoding restores the
/// record, fields and all.
pub proof fn lemma_a_round_trip(v: AView)
    requires
        a_wf(v),
    ensures
        decode_spec::<A>(<A as Message>::wire_bytes_of(v)) == Ok::<AView, DecodeError>(
            AView { a: v.a, b: v.b },
        ),
{
    let d0 = <A as Message>::default_view();
    let f2 = len_delim_field(2, v.b);
    lemma_len_delim_field_len(2, v.b);
    match v.a {
        Some(p) => {
            let f1 = len_delim_field(1, p);
            lemma_len_delim_field_len(1, p);
            lemma_parse_len_delim_field(1, p, f2);
            let v1 = AView { a: Some(p), b: d0.b };
            lemma_decode_field_step::<A>(
                f1,
                f2,
                d0,
                1,
                WireType::LengthDelimited,
                FieldDataView::LenPayload(p),
                v1,
            );
            lemma_parse_len_delim_field(2, v.b, Seq::empty());
            assert(f2 + Seq::<u8>::empty() =~= f2);
            lemma_decode_field_step::<A>(
                f2,
                Seq::empty(),
                v1,
                2,
                WireType::LengthDelimited,
                FieldDataView::LenPayload(v.b),
                AView { a: Some(p), b: v.b },
            );
            assert(<A as Message>::wire_bytes_of(v) == f1 + f2);
        },
        None => {
            lemma_parse_len_delim_field(2, v.b, Seq::empty());
            assert(f2 + Seq::<u8>::empty() =~= f2);
            lemma_decode_field_step::<A>(
                f2,
                Seq::empty(),
                d0,
                2,
                WireType::LengthDelimited,
                FieldDataView::LenPayload(v.b),
                AView { a: None, b: v.b },
            );
            assert(<A as Message>::wire_bytes_of(v) =~= f2);
        },
    }
}

/// The same record under a narrower schema that knows only the required
/// string `b` (field 2). Unknown-field capture is enabled: every
/// unrecognized field is retained with its exact bytes and re-emitted,
/// after the known fields, on encode.
#[derive(Debug, Clone, PartialEq, Eq)]
pub struct B {
    pub b: FastStr,
    pub unknown_fields: UnknownFields,
}

/// The mathematical image of [`B`].
pub struct BView {
    pub b: Seq<u8>,
    pub unknown: Seq<UnknownFieldView>,
}

impl Message for B {
    type V = BView;

    open spec fn m_view(&self) -> BView {
        BView { b: faststr_seq(self.b), unknown: self.unknown_fields@ }
    }

    open spec fn wire_bytes_of(v: BView) -> Seq<u8> {
        len_delim_field(2, v.b) + unknown_bytes(v.unknown)
    }

    open spec fn zero_copy_of(v: BView) -> nat {
        v.b.len()
    }

    open spec fn default_view() -> BView {
        BView { b: Seq::empty(), unknown: Seq::empty() }
    }

    open spec fn merge_spec(v: BView, id: u32, wt: WireType, data: FieldDataView, raw: Seq<u8>) -> Result<
        BView,
        DecodeError,
    > {
        if id == 2 {
            match data {
                FieldDataView::LenPayload(p) => if wt == WireType::LengthDelimited {
                    if utf8_valid(p) {
                        Ok(BView { b: p, unknown: v.unknown })
                    } else {
                        Err(DecodeError::InvalidUtf8)
                    }
                } else {
                    Err(DecodeError::InvalidWireType)
                },
                _ => Err(DecodeError::InvalidWireType),
            }
        } else {
            Ok(
                BView {
                    b: v.b,
                    unknown: v.unknown.push(UnknownFieldView { id, wire_type: wt, bytes: raw }),
                },
            )
        }
    }

    proof fn lemma_zero_copy_le(v: BView) {
        lemma_len_delim_field_len(2, v.b);
    }

    fn new_default() -> (r: Self) {
        B { b: fs_empty(), unknown_fields: UnknownFields::new() }
    }

    fn encoded_len(&self) -> (r: usize) {
        proof {
            lemma_len_delim_field_len(2, faststr_seq(self.b));
        }
        let nb = fs_len(&self.b);
        let lb: usize = 1 + varint_len(nb as u64) + nb;
        lb + self.unknown_fields.byte_len()
    }

    fn zero_copy_len(&self) -> (r: usize) {
        proof {
            lemma_len_delim_field_len(2, faststr_seq(self.b));
        }
        fs_len(&self.b)
    }

    fn encode_raw(&self, chain: &mut BufferChain) {
        let ghost v = self.m_view();
        proof {
            lemma_len_delim_field_len(2, v.b);
        }
        write_len_delim_field(chain, 2, fs_as_slice(&self.b));
        self.unknown_fields.encode_fields(chain);
        assert(final(chain).chain_bytes() =~= old(chain).chain_bytes()
            + <B as Message>::wire_bytes_of(v));
    }

    fn encode_raw_unchecked(&self, buf: &mut FlatBuf) {
        let ghost v = self.m_view();
        proof {
            lemma_len_delim_field_len(2, v.b);
        }
        write_len_delim_field(buf, 2, fs_as_slice(&self.b));
        self.unknown_fields.encode_fields(buf);
        assert(final(buf).flat_bytes() =~= old(buf).flat_bytes() + <B as Message>::wire_bytes_of(
            v,
        ));
    }

    fn merge_field(&mut self, id: u32, wt: WireType, data: &FieldData, raw: &[u8]) -> (r: Result<
        (),
        DecodeError,
    >) {
        if id == 2 {
            match data {
                FieldData::LenPayload(p) => {
                    if wt == WireType::LengthDelimited {
                        let v = copy_range(p.as_slice(), 0, p.len());
                        assert(v@ =~= p@);
                        match fs_from_vec(v) {
                            Some(s) => {
                                self.b = s;
                                Ok(())
                            },
                            None => Err(DecodeError::InvalidUtf8),
                        }
                    } else {
                        Err(DecodeError::InvalidWireType)
                    }
                },
                _ => Err(DecodeError::InvalidWireType),
            }
        } else {
            let bytes = copy_range(raw, 0, raw.len());
            assert(bytes@ =~= raw@);
            self.unknown_fields.push_field(id, wt, bytes);
            Ok(())
        }
    }
}

impl Default for B {
    /// The record holding every field's zero/empty value, with nothing
    /// retained.
    fn default() -> (r: Self)
        ensures
            r.m_view() == <B as Message>::default_view(),
    {
        <B as Message>::new_default()
    }
}

/// Unknown-field preservation: a buffer produced under the wide schema,
/// decoded under the narrow one, retains the unrecognized field's exact
/// bytes, and re-encoding emits them unmodified after the known field.
pub proof fn lemma_unknown_preserved(v: AView)
    requires
        a_wf(v),
        v.a is Some,
    ensures
        ({
            let uf = UnknownFieldView {
                id: 1,
                wire_type: WireType::LengthDelimited,
                bytes: len_delim_field(1, v.a->0),
            };
            let bv = BView { b: v.b, unknown: seq![uf] };
            &&& decode_spec::<B>(<A as Message>::wire_bytes_of(v)) == Ok::<BView, DecodeError>(bv)
            &&& <B as Message>::wire_bytes_of(bv) == len_delim_field(2, v.b) + len_delim_field(
                1,
                v.a->0,
            )
        }),
{
    let p = v.a->0;
    let d0 = <B as Message>::default_view();
    let f1 = len_delim_field(1, p);
    let f2 = len_delim_field(2, v.b);
    let uf = UnknownFieldView { id: 1, wire_type: WireType::LengthDelimited, bytes: f1 };
    lemma_len_delim_field_len(1, p);
    lemma_len_delim_field_len(2, v.b);
    lemma_parse_len_delim_field(1, p, f2);
    let v1 = BView { b: d0.b, unknown: d0.unknown.push(uf) };
    lemma_decode_field_step::<B>(
        f1,
        f2,
        d0,
        1,
        WireType::LengthDelimited,
        FieldDataView::LenPayload(p),
        v1,
    );
    lemma_parse_len_delim_field(2, v.b, Seq::empty());
    assert(f2 + Seq::<u8>::empty() =~= f2);
    let v2 = BView { b: v.b, unknown: v1.unknown };
    lemma_decode_field_step::<B>(
        f2,
        Seq::empty(),
        v1,
        2,
        WireType::LengthDelimited,
        FieldDataView::LenPayload(v.b),
        v2,
    );
    assert(<A as Message>::wire_bytes_of(v) == f1 + f2);
    assert(v2.unknown =~= seq![uf]);
    assert(seq![uf].drop_last() =~= Seq::<UnknownFieldView>::empty());
    assert(seq![uf].last() == uf);
    assert(unknown_bytes(Seq::<UnknownFieldView>::empty()) == Seq::<u8>::empty());
    assert(unknown_bytes(seq![uf]) =~= f1);
}


/// The typed merge of [`A`] under a mask: a field the mask excludes is
/// skipped without being examined.
pub open spec fn a_merge_masked_spec(
    v: AView,
    mask: FieldMask,
    id: u32,
    wt: WireType,
    data: FieldDataView,
) -> Result<AView, DecodeError> {
    if !mask.includes_spec(id) {
        Ok(v)
    } else {
        <A as Message>::merge_spec(v, id, wt, data, Seq::empty())
    }
}

/// Fold the fields at the front of `s` into `v`, consulting the mask
/// before each field: excluded fields are bounded and skipped, never
/// merged.
pub open spec fn a_parse_masked(s: Seq<u8>, v: AView, mask: FieldMask) -> Result<AView, DecodeError>
    decreases s.len(),
{
    if s.len() == 0 {
        Ok(v)
    } else {
        match crate::pb::encoding::parse_field_spec(s) {
            Err(e) => Err(e),
            Ok((id, wt, data, c)) => if 0 < c <= s.len() {
                match a_merge_masked_spec(v, mask, id, wt, data) {
                    Ok(v2) => a_parse_masked(s.skip(c), v2, mask),
                    Err(e) => Err(e),
                }
            } else {
                Err(DecodeError::Truncated)
            },
        }
    }
}

impl A {
    /// Decode under a mask: a field the mask excludes is skipped without
    /// allocating or examining its value — not even its validity is
    /// checked beyond the boundaries needed to step over it. The mask
    /// never causes a failure of its own.
    pub fn decode_masked(buf: &[u8], mask: &FieldMask) -> (r: Result<A, DecodeError>)
        ensures
            match r {
                Ok(m) => a_parse_masked(buf@, <A as Message>::default_view(), *mask)
                    == Ok::<AView, DecodeError>(m.m_view()),
                Err(e) => a_parse_masked(buf@, <A as Message>::default_view(), *mask)
                    == Err::<AView, DecodeError>(e),
            },
    {
        let mut m = <A as Message>::new_default();
        let mut pos: usize = 0;
        assert(buf@.skip(0) =~= buf@);
        while pos < buf.len()
            invariant
                pos <= buf@.len(),
                a_parse_masked(buf@, <A as Message>::default_view(), *mask) == a_parse_masked(
                    buf@.skip(pos as int),
                    m.m_view(),
                    *mask,
                ),
            decreases buf@.len() - pos,
        {
            let ghost s = buf@.skip(pos as int);
            let peek = match crate::varint::decode_varint(buf, pos) {
                Ok((k, _)) => k,
                Err(e) => {
                    return Err(e);
                },
            };
            let id64 = peek / 8;
            if 1 <= id64 && id64 <= crate::pb::encoding::MAX_FIELD_ID as u64 && !mask.includes(
                id64 as u32,
            ) {
                match crate::pb::encoding::skip_field(buf, pos) {
                    Ok(newpos) => {
                        proof {
                            assert(s.skip(newpos - pos) =~= buf@.skip(newpos as int));
                        }
                        pos = newpos;
                    },
                    Err(e) => {
                        return Err(e);
                    },
                }
            } else {
                match crate::pb::encoding::read_field(buf, pos) {
                    Err(e) => {
                        return Err(e);
                    },
                    Ok((id, wt, data, newpos)) => {
                        proof {
                            assert(s.skip(newpos - pos) =~= buf@.skip(newpos as int));
                        }
                        let empty_raw: Vec<u8> = Vec::new();
                        match m.merge_field(id, wt, &data, empty_raw.as_slice()) {
                            Err(e) => {
                                return Err(e);
                            },
                            Ok(()) => {},
                        }
                        pos = newpos;
                    },
                }
            }
        }
        assert(buf@.skip(pos as int).len() == 0);
        Ok(m)
    }
}


/// A record with one repeated string field (field 1): each occurrence on
/// the wire appends one element, and encoding emits one field per
/// element, in order.
#[derive(Debug, Clone, PartialEq, Eq)]
pub struct R {
    pub items: Vec<FastStr>,
}

/// The fields a list of elements contributes: one per element, in order.
pub open spec fn rep_fields(items: Seq<Seq<u8>>) -> Seq<u8>
    decreases items.len(),
{
    if items.len() == 0 {
        Seq::empty()
    } else {
        len_delim_field(1, items.first()) + rep_fields(items.drop_first())
    }
}

/// The field bytes of concatenated element lists concatenate.
pub proof fn lemma_rep_fields_concat(a: Seq<Seq<u8>>, b: Seq<Seq<u8>>)
    ensures
        rep_fields(a + b) == rep_fields(a) + rep_fields(b),
    decreases a.len(),
{
    if a.len() == 0 {
        assert(a + b =~= b);
        assert(rep_fields(a) + rep_fields(b) =~= rep_fields(b));
    } else {
        assert((a + b).drop_first() =~= a.drop_first() + b);
        assert((a + b).first() == a.first());
        lemma_rep_fields_concat(a.drop_first(), b);
        assert(rep_fields(a + b) =~= rep_fields(a) + rep_fields(b));
    }
}

/// Splitting off the last of the first `i + 1` elements.
pub proof fn lemma_rep_fields_take(items: Seq<Seq<u8>>, i: int)
    requires
        0 <= i < items.len(),
    ensures
        rep_fields(items.take(i + 1)) == rep_fields(items.take(i)) + len_delim_field(1, items[i]),
{
    assert(items.take(i + 1) =~= items.take(i) + seq![items[i]]);
    lemma_rep_fields_concat(items.take(i), seq![items[i]]);
    assert(seq![items[i]].drop_first() =~= Seq::<Seq<u8>>::empty());
    assert(seq![items[i]].first() == items[i]);
    assert(rep_fields(Seq::<Seq<u8>>::empty()) == Seq::<u8>::empty());
    assert(rep_fields(seq![items[i]]) =~= len_delim_field(1, items[i]));
}

/// A prefix of the elements contributes no more bytes than all of them.
pub proof fn lemma_rep_fields_take_le(items: Seq<Seq<u8>>, i: int)
    requires
        0 <= i <= items.len(),
    ensures
        rep_fields(items.take(i)).len() <= rep_fields(items).len(),
    decreases items.len() - i,
{
    if i < items.len() {
        lemma_rep_fields_take(items, i);
        lemma_rep_fields_take_le(items, i + 1);
    } else {
        assert(items.take(i) =~= items);
    }
}

impl Message for R {
    type V = Seq<Seq<u8>>;

    open spec fn m_view(&self) -> Seq<Seq<u8>> {
        self.items@.map_values(|s: FastStr| faststr_seq(s))
    }

    open spec fn wire_bytes_of(v: Seq<Seq<u8>>) -> Seq<u8> {
        rep_fields(v)
    }

    open spec fn zero_copy_of(v: Seq<Seq<u8>>) -> nat {
        0
    }

    open spec fn default_view() -> Seq<Seq<u8>> {
        Seq::empty()
    }

    open spec fn merge_spec(v: Seq<Seq<u8>>, id: u32, wt: WireType, data: FieldDataView, raw: Seq<u8>) -> Result<
        Seq<Seq<u8>>,
        DecodeError,
    > {
        if id == 1 {
            match data {
                FieldDataView::LenPayload(p) => if wt == WireType::LengthDelimited {
                    if utf8_valid(p) {
                        Ok(v.push(p))
                    } else {
                        Err(DecodeError::InvalidUtf8)
                    }
                } else {
                    Err(DecodeError::InvalidWireType)
                },
                _ => Err(DecodeError::InvalidWireType),
            }
        } else {
            Ok(v)
        }
    }

    proof fn lemma_zero_copy_le(v: Seq<Seq<u8>>) {
    }

    fn new_default() -> (r: Self) {
        let r = R { items: Vec::new() };
        assert(r.m_view() =~= Seq::<Seq<u8>>::empty());
        r
    }

    fn encoded_len(&self) -> (r: usize) {
        let ghost v = self.m_view();
        let n = self.items.len();
        let mut total: usize = 0;
        let mut i: usize = 0;
        assert(rep_fields(v.take(0)) =~= Seq::<u8>::empty());
        while i < n
            invariant
                i <= n == v.len(),
                v == self.m_view(),
                rep_fields(v).len() <= usize::MAX,
                total == rep_fields(v.take(i as int)).len(),
            decreases n - i,
        {
            proof {
                lemma_rep_fields_take(v, i as int);
                lemma_rep_fields_take_le(v, i + 1);
                lemma_len_delim_field_len(1, v[i as int]);
            }
            let s = &self.items[i];
            assert(faststr_seq(*s) == v[i as int]);
            let len = fs_len(s);
            total = total + (1 + varint_len(len as u64) + len);
            i = i + 1;
        }
        assert(v.take(n as int) =~= v);
        total
    }

    fn zero_copy_len(&self) -> (r: usize) {
        0
    }

    fn encode_raw(&self, chain: &mut BufferChain) {
        let ghost v = self.m_view();
        let n = self.items.len();
        let mut i: usize = 0;
        assert(chain.chain_bytes() =~= old(chain).chain_bytes() + rep_fields(v.take(0)));
        while i < n
            invariant
                i <= n == v.len(),
                v == self.m_view(),
                chain.wf_chain(),
                old(chain).chain_bytes().len() + rep_fields(v).len() <= usize::MAX,
                chain.chain_bytes() == old(chain).chain_bytes() + rep_fields(v.take(i as int)),
            decreases n - i,
        {
            proof {
                lemma_rep_fields_take(v, i as int);
                lemma_rep_fields_take_le(v, i + 1);
                lemma_len_delim_field_len(1, v[i as int]);
            }
            let s = &self.items[i];
            assert(faststr_seq(*s) == v[i as int]);
            write_len_delim_field(chain, 1, fs_as_slice(s));
            assert(chain.chain_bytes() =~= old(chain).chain_bytes() + rep_fields(v.take(i + 1)));
            i = i + 1;
        }
        assert(v.take(n as int) =~= v);
    }

    fn encode_raw_unchecked(&self, buf: &mut FlatBuf) {
        let ghost v = self.m_view();
        let n = self.items.len();
        let mut i: usize = 0;
        assert(buf.flat_bytes() =~= old(buf).flat_bytes() + rep_fields(v.take(0)));
        while i < n
            invariant
                i <= n == v.len(),
                v == self.m_view(),
                buf.wwf(),
                old(buf).room() >= rep_fields(v).len(),
                buf.flat_bytes() == old(buf).flat_bytes() + rep_fields(v.take(i as int)),
                buf.room() == old(buf).room() - rep_fields(v.take(i as int)).len(),
            decreases n - i,
        {
            proof {
                lemma_rep_fields_take(v, i as int);
                lemma_rep_fields_take_le(v, i + 1);
                lemma_len_delim_field_len(1, v[i as int]);
            }
            let s = &self.items[i];
            assert(faststr_seq(*s) == v[i as int]);
            write_len_delim_field(buf, 1, fs_as_slice(s));
            assert(buf.flat_bytes() =~= old(buf).flat_bytes() + rep_fields(v.take(i + 1)));
            i = i + 1;
        }
        assert(v.take(n as int) =~= v);
    }

    fn merge_field(&mut self, id: u32, wt: WireType, data: &FieldData, raw: &[u8]) -> (r: Result<
        (),
        DecodeError,
    >) {
        if id == 1 {
            match data {
                FieldData::LenPayload(p) => {
                    if wt == WireType::LengthDelimited {
                        let bytes = copy_range(p.as_slice(), 0, p.len());
                        assert(bytes@ =~= p@);
                        match fs_from_vec(bytes) {
                            Some(s) => {
                                self.items.push(s);
                                assert(final(self).m_view() =~= old(self).m_view().push(p@));
                                Ok(())
                            },
                            None => Err(DecodeError::InvalidUtf8),
                        }
                    } else {
                        Err(DecodeError::InvalidWireType)
                    }
                },
                _ => Err(DecodeError::InvalidWireType),
            }
        } else {
            Ok(())
        }
    }
}

/// Whether every element is valid UTF-8 of encodable length.
pub open spec fn r_wf(items: Seq<Seq<u8>>) -> bool {
    forall|i: int|
        0 <= i < items.len() ==> utf8_valid(#[trigger] items[i]) && items[i].len() <= u64::MAX
}

proof fn lemma_r_round_trip_from(items: Seq<Seq<u8>>, acc: Seq<Seq<u8>>)
    requires
        r_wf(items),
    ensures
        decode_fields_spec::<R>(rep_fields(items), acc) == Ok::<Seq<Seq<u8>>, DecodeError>(
            acc + items,
        ),
    decreases items.len(),
{
    if items.len() == 0 {
        assert(rep_fields(items).len() == 0);
        assert(acc + items =~= acc);
    } else {
        let p = items.first();
        let field = len_delim_field(1, p);
        let rest = rep_fields(items.drop_first());
        lemma_len_delim_field_len(1, p);
        lemma_parse_len_delim_field(1, p, rest);
        lemma_decode_field_step::<R>(
            field,
            rest,
            acc,
            1,
            WireType::LengthDelimited,
            FieldDataView::LenPayload(p),
            acc.push(p),
        );
        assert forall|j: int|
            0 <= j < items.drop_first().len() implies utf8_valid(
            #[trigger] items.drop_first()[j],
        ) && items.drop_first()[j].len() <= u64::MAX by {
            assert(items.drop_first()[j] == items[j + 1]);
        }
        lemma_r_round_trip_from(items.drop_first(), acc.push(p));
        assert(acc.push(p) + items.drop_first() =~= acc + items);
    }
}

/// Round trip for the repeated-field record: decoding its encoding
/// restores the elements, in order; each wire occurrence appended one.
pub proof fn lemma_r_round_trip(items: Seq<Seq<u8>>)
    requires
        r_wf(items),
    ensures
        decode_spec::<R>(<R as Message>::wire_bytes_of(items)) == Ok::<Seq<Seq<u8>>, DecodeError>(
            items,
        ),
{
    lemma_r_round_trip_from(items, Seq::empty());
    assert(Seq::<Seq<u8>>::empty() + items =~= items);
}

} // verus!
