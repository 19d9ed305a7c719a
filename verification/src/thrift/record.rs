//! A generated-style record bound to the field-header format.
//!
//! Each required field is always written; the optional field is omitted
//! when absent; the structure is closed by the stop byte. Decoding
//! succeeds only when the terminator is present and nothing follows it.

use faststr::FastStr;
use vstd::prelude::*;

use crate::buffer::{BufferChain, FlatBuf, WireWrite};
use crate::error::DecodeError;
use crate::mask::FieldMask;
use crate::extstr::{faststr_seq, fs_as_slice, fs_empty, fs_from_vec, fs_len, fs_to_bytes, utf8_valid};
use crate::pb::encoding::copy_range;
use crate::thrift::encoding::{
    lemma_be_bytes_len, lemma_parse_tbool_field, lemma_parse_ti32_field, lemma_parse_ti64_field,
    lemma_parse_tstring_field, lemma_parse_tstrlist_field, lemma_str_elems_take,
    lemma_str_elems_take_le, parse_tfield_spec, read_tfield, str_elems_bytes, tbool_field,
    tfield_header, ti32_field, ti64_field, tstring_bytes, tstring_field, tstrlist_field, write_be,
    write_tfield_header, TFieldData, TFieldDataView, T_BOOL, T_I32, T_I64, T_LIST, T_STOP,
    T_STRING,
};
use crate::varint::{
    i32_of_u64, i32_to_u64, i64_of_u64, i64_to_u64, lemma_i32_u64_round_trip,
    lemma_i64_u64_round_trip, u64_of_i64, u64_to_i32, u64_to_i64,
};

verus! {

/// A record in the field-header format: a boolean `flag` (field 1), a
/// 4-byte `count` (field 2), an 8-byte `id` (field 3), a required string
/// `name` (field 4) and an optional string `note` (field 5).
#[derive(Debug, Clone, PartialEq, Eq)]
pub struct C {
    pub flag: bool,
    pub count: i32,
    pub id: i64,
    pub name: FastStr,
    pub note: Option<FastStr>,
}

/// The mathematical image of [`C`].
pub struct CView {
    pub flag: bool,
    pub count: i32,
    pub id: i64,
    pub name: Seq<u8>,
    pub note: Option<Seq<u8>>,
}

impl View for C {
    type V = CView;

    open spec fn view(&self) -> CView {
        CView {
            flag: self.flag,
            count: self.count,
            id: self.id,
            name: faststr_seq(self.name),
            note: match self.note {
                Some(s) => Some(faststr_seq(s)),
                None => None,
            },
        }
    }
}

/// A view is well formed when its strings hold valid UTF-8 short enough
/// for a 4-byte length prefix.
pub open spec fn c_wf(v: CView) -> bool {
    &&& utf8_valid(v.name)
    &&& v.name.len() < 0x1_0000_0000
    &&& match v.note {
        Some(p) => utf8_valid(p) && p.len() < 0x1_0000_0000,
        None => true,
    }
}

/// The view of a freshly constructed record.
pub open spec fn c_default() -> CView {
    CView { flag: false, count: 0, id: 0, name: Seq::empty(), note: None }
}

/// The bytes the optional field contributes: nothing when absent.
pub open spec fn c_note_field(v: CView) -> Seq<u8> {
    match v.note {
        Some(p) => tstring_field(5, p),
        None => Seq::empty(),
    }
}

/// The canonical wire bytes of a view: every required field, the optional
/// field when present, and the terminator.
pub open spec fn c_wire_bytes(v: CView) -> Seq<u8> {
    tbool_field(1, v.flag) + ti32_field(2, v.count) + ti64_field(3, v.id) + tstring_field(
        4,
        v.name,
    ) + c_note_field(v) + seq![T_STOP]
}

/// The byte count welded zero-copy by the chain encoder: the string
/// payloads.
pub open spec fn c_zero_copy(v: CView) -> nat {
    v.name.len() + match v.note {
        Some(p) => p.len(),
        None => 0,
    }
}

/// The typed merge of one pre-parsed field, or the decode error it
/// provokes. Fields with unrecognized ids are skipped.
pub open spec fn c_merge_spec(v: CView, id: u16, data: TFieldDataView) -> Result<CView, DecodeError> {
    if id == 1 {
        match data {
            TFieldDataView::TBool(b) => Ok(
                CView { flag: b, count: v.count, id: v.id, name: v.name, note: v.note },
            ),
            _ => Err(DecodeError::InvalidWireType),
        }
    } else if id == 2 {
        match data {
            TFieldDataView::TI32(x) => Ok(
                CView { flag: v.flag, count: i32_of_u64(x), id: v.id, name: v.name, note: v.note },
            ),
            _ => Err(DecodeError::InvalidWireType),
        }
    } else if id == 3 {
        match data {
            TFieldDataView::TI64(x) => Ok(
                CView { flag: v.flag, count: v.count, id: i64_of_u64(x), name: v.name, note: v.note },
            ),
            _ => Err(DecodeError::InvalidWireType),
        }
    } else if id == 4 {
        match data {
            TFieldDataView::TStr(p) => if utf8_valid(p) {
                Ok(CView { flag: v.flag, count: v.count, id: v.id, name: p, note: v.note })
            } else {
                Err(DecodeError::InvalidUtf8)
            },
            _ => Err(DecodeError::InvalidWireType),
        }
    } else if id == 5 {
        match data {
            TFieldDataView::TStr(p) => if utf8_valid(p) {
                Ok(CView { flag: v.flag, count: v.count, id: v.id, name: v.name, note: Some(p) })
            } else {
                Err(DecodeError::InvalidUtf8)
            },
            _ => Err(DecodeError::InvalidWireType),
        }
    } else {
        Ok(v)
    }
}

/// Fold the fields at the front of `s` into `v` until the terminator.
/// Success requires the terminator to be the last byte: a missing or
/// non-final terminator is a structure-end mismatch.
pub open spec fn c_parse_fields(s: Seq<u8>, v: CView) -> Result<CView, DecodeError>
    decreases s.len(),
{
    if s.len() == 0 {
        Err(DecodeError::MismatchedStructureEnd)
    } else if s[0] == T_STOP {
        if s.len() == 1 {
            Ok(v)
        } else {
            Err(DecodeError::MismatchedStructureEnd)
        }
    } else {
        match parse_tfield_spec(s) {
            Err(e) => Err(e),
            Ok((id, data, c)) => if 0 < c <= s.len() {
                match c_merge_spec(v, id, data) {
                    Ok(v2) => c_parse_fields(s.skip(c), v2),
                    Err(e) => Err(e),
                }
            } else {
                Err(DecodeError::Truncated)
            },
        }
    }
}

/// The view decoded from `s`, starting from the zero record.
pub open spec fn c_parse(s: Seq<u8>) -> Result<CView, DecodeError> {
    c_parse_fields(s, c_default())
}

/// The byte counts of the record's fields.
pub proof fn lemma_c_field_lens(v: CView)
    ensures
        tbool_field(1, v.flag).len() == 4,
        ti32_field(2, v.count).len() == 7,
        ti64_field(3, v.id).len() == 11,
        tstring_field(4, v.name).len() == 7 + v.name.len(),
        c_note_field(v).len() == (match v.note {
            Some(p) => 7 + p.len(),
            None => 0nat,
        }),
        c_wire_bytes(v).len() == 30 + v.name.len() + (match v.note {
            Some(p) => 7 + p.len(),
            None => 0nat,
        }),
{
    lemma_be_bytes_len(1, 2);
    lemma_be_bytes_len(2, 2);
    lemma_be_bytes_len(3, 2);
    lemma_be_bytes_len(4, 2);
    lemma_be_bytes_len(5, 2);
    lemma_be_bytes_len(u64_of_i64(v.count as i64) % 0x1_0000_0000, 4);
    lemma_be_bytes_len(u64_of_i64(v.id), 8);
    lemma_be_bytes_len(v.name.len() as u64, 4);
    match v.note {
        Some(p) => {
            lemma_be_bytes_len(5, 2);
            lemma_be_bytes_len(p.len() as u64, 4);
        },
        None => {},
    }
}

/// Write the whole record, terminator included, to a sink.
fn encode_c<W: WireWrite>(c: &C, w: &mut W)
    requires
        old(w).wwf(),
        old(w).room() >= c_wire_bytes(c@).len(),
    ensures
        final(w).wwf(),
        final(w).wview() == old(w).wview() + c_wire_bytes(c@),
        final(w).room() == old(w).room() - c_wire_bytes(c@).len(),
{
    let ghost v = c@;
    proof {
        lemma_c_field_lens(v);
    }
    write_tfield_header(w, T_BOOL, 1);
    w.put_byte(if c.flag {
        1
    } else {
        0
    });
    write_tfield_header(w, T_I32, 2);
    write_be(w, i32_to_u64(c.count) % 0x1_0000_0000, 4);
    write_tfield_header(w, T_I64, 3);
    write_be(w, i64_to_u64(c.id), 8);
    write_tfield_header(w, T_STRING, 4);
    write_be(w, fs_len(&c.name) as u64, 4);
    w.put_slice(fs_as_slice(&c.name));
    match &c.note {
        Some(s) => {
            write_tfield_header(w, T_STRING, 5);
            write_be(w, fs_len(s) as u64, 4);
            w.put_slice(fs_as_slice(s));
        },
        None => {},
    }
    w.put_byte(T_STOP);
    assert(final(w).wview() =~= old(w).wview() + c_wire_bytes(v));
}

impl C {
    /// A record holding every field's zero/empty value.
    pub fn new_default() -> (r: Self)
        ensures
            r@ == c_default(),
    {
        C { flag: false, count: 0, id: 0, name: fs_empty(), note: None }
    }

    /// The exact byte count `encode_raw` writes: the size pass.
    pub fn encoded_len(&self) -> (r: usize)
        requires
            c_wire_bytes(self@).len() <= usize::MAX,
        ensures
            r == c_wire_bytes(self@).len(),
    {
        proof {
            lemma_c_field_lens(self@);
        }
        let base: usize = 30 + fs_len(&self.name);
        match &self.note {
            Some(s) => base + 7 + fs_len(s),
            None => base,
        }
    }

    /// The byte count of the wire bytes a buffer chain can carry
    /// zero-copy: the string payloads.
    pub fn zero_copy_len(&self) -> (r: usize)
        requires
            c_wire_bytes(self@).len() <= usize::MAX,
        ensures
            r == c_zero_copy(self@),
    {
        proof {
            lemma_c_field_lens(self@);
        }
        match &self.note {
            Some(s) => fs_len(&self.name) + fs_len(s),
            None => fs_len(&self.name),
        }
    }

    /// Append the canonical wire bytes to a growable buffer chain: the
    /// bounds-checked path.
    pub fn encode_raw(&self, chain: &mut BufferChain)
        requires
            old(chain).wf_chain(),
            old(chain).chain_bytes().len() + c_wire_bytes(self@).len() <= usize::MAX,
        ensures
            final(chain).wf_chain(),
            final(chain).chain_bytes() == old(chain).chain_bytes() + c_wire_bytes(self@),
    {
        encode_c(self, chain);
    }

    /// Write the canonical wire bytes into an exact-presized buffer: the
    /// unchecked path, its capacity precondition discharged statically.
    pub fn encode_raw_unchecked(&self, buf: &mut FlatBuf)
        requires
            old(buf).wwf(),
            old(buf).room() >= c_wire_bytes(self@).len(),
        ensures
            final(buf).wwf(),
            final(buf).flat_bytes() == old(buf).flat_bytes() + c_wire_bytes(self@),
            final(buf).room() == old(buf).room() - c_wire_bytes(self@).len(),
    {
        encode_c(self, buf);
    }

    /// Merge one pre-parsed field, exactly as `c_merge_spec` says.
    fn merge_tfield(&mut self, id: u16, data: &TFieldData) -> (r: Result<(), DecodeError>)
        ensures
            match r {
                Ok(()) => c_merge_spec(old(self)@, id, data@) == Ok::<CView, DecodeError>(
                    final(self)@,
                ),
                Err(e) => c_merge_spec(old(self)@, id, data@) == Err::<CView, DecodeError>(e),
            },
    {
        if id == 1 {
            match data {
                TFieldData::TBool(b) => {
                    self.flag = *b;
                    Ok(())
                },
                _ => Err(DecodeError::InvalidWireType),
            }
        } else if id == 2 {
            match data {
                TFieldData::TI32(x) => {
                    self.count = u64_to_i32(*x);
                    Ok(())
                },
                _ => Err(DecodeError::InvalidWireType),
            }
        } else if id == 3 {
            match data {
                TFieldData::TI64(x) => {
                    self.id = u64_to_i64(*x);
                    Ok(())
                },
                _ => Err(DecodeError::InvalidWireType),
            }
        } else if id == 4 || id == 5 {
            match data {
                TFieldData::TStr(p) => {
                    let bytes = copy_range(p.as_slice(), 0, p.len());
                    assert(bytes@ =~= p@);
                    match fs_from_vec(bytes) {
                        Some(s) => {
                            if id == 4 {
                                self.name = s;
                            } else {
                                self.note = Some(s);
                            }
                            Ok(())
                        },
                        None => Err(DecodeError::InvalidUtf8),
                    }
                },
                _ => Err(DecodeError::InvalidWireType),
            }
        } else {
            Ok(())
        }
    }

    /// Decode a record from a byte slice: the bounds-checked path.
    /// Returns `Ok` exactly when `c_parse` does.
    pub fn decode(buf: &[u8]) -> (r: Result<C, DecodeError>)
        ensures
            match r {
                Ok(m) => c_parse(buf@) == Ok::<CView, DecodeError>(m@),
                Err(e) => c_parse(buf@) == Err::<CView, DecodeError>(e),
            },
    {
        let mut m = C::new_default();
        let mut pos: usize = 0;
        assert(buf@.skip(0) =~= buf@);
        loop
            invariant
                pos <= buf@.len(),
                c_parse_fields(buf@, c_default()) == c_parse_fields(buf@.skip(pos as int), m@),
            decreases buf@.len() - pos,
        {
            let ghost s = buf@.skip(pos as int);
            if pos == buf.len() {
                return Err(DecodeError::MismatchedStructureEnd);
            }
            let t = buf[pos];
            assert(t == s[0]);
            if t == T_STOP {
                if pos + 1 == buf.len() {
                    return Ok(m);
                } else {
                    return Err(DecodeError::MismatchedStructureEnd);
                }
            }
            match read_tfield(buf, pos) {
                Err(e) => {
                    return Err(e);
                },
                Ok((id, data, newpos)) => {
                    proof {
                        assert(s.skip(newpos - pos) =~= buf@.skip(newpos as int));
                    }
                    match m.merge_tfield(id, &data) {
                        Err(e) => {
                            return Err(e);
                        },
                        Ok(()) => {},
                    }
                    pos = newpos;
                },
            }
        }
    }

    /// Decode a record from a frame already known to hold a whole, valid
    /// encoding; the precondition is discharged statically by the caller,
    /// and no check or error remains at run time.
    pub fn decode_trusted_frame(buf: &[u8]) -> (r: C)
        requires
            c_parse(buf@) is Ok,
        ensures
            c_parse(buf@) == Ok::<CView, DecodeError>(r@),
    {
        match C::decode(buf) {
            Ok(m) => m,
            Err(_) => vstd::pervasive::unreached(),
        }
    }
}

impl Default for C {
    /// The record holding every field's zero/empty value.
    fn default() -> (r: Self)
        ensures
            r@ == c_default(),
    {
        C::new_default()
    }
}

/// One step of the decode fold: a whole parsed field followed by the rest
/// of the input merges and leaves the rest to parse.
proof fn lemma_c_parse_step(
    field: Seq<u8>,
    rest: Seq<u8>,
    v: CView,
    id: u16,
    data: TFieldDataView,
    v2: CView,
)
    requires
        parse_tfield_spec(field + rest) == Ok::<(u16, TFieldDataView, int), DecodeError>(
            (id, data, field.len() as int),
        ),
        field.len() > 0,
        c_merge_spec(v, id, data) == Ok::<CView, DecodeError>(v2),
    ensures
        c_parse_fields(field + rest, v) == c_parse_fields(rest, v2),
{
    let s = field + rest;
    assert(s.len() > 0);
    assert(s[0] != T_STOP);
    assert(s.skip(field.len() as int) =~= rest);
}

/// Round trip: decoding the canonical encoding of a well-formed record
/// restores it, field for field.
#[verifier::rlimit(50)]
pub proof fn lemma_c_round_trip(v: CView)
    requires
        c_wf(v),
    ensures
        c_parse(c_wire_bytes(v)) == Ok::<CView, DecodeError>(
            CView { flag: v.flag, count: v.count, id: v.id, name: v.name, note: v.note },
        ),
{
    let d0 = c_default();
    let stop = seq![T_STOP];
    let r4 = c_note_field(v) + stop;
    let r3 = tstring_field(4, v.name) + r4;
    let r2 = ti64_field(3, v.id) + r3;
    let r1 = ti32_field(2, v.count) + r2;
    let s0 = tbool_field(1, v.flag) + r1;
    assert(c_wire_bytes(v) =~= s0);

    lemma_parse_tbool_field(1, v.flag, r1);
    let d1 = CView { flag: v.flag, count: d0.count, id: d0.id, name: d0.name, note: d0.note };
    lemma_c_parse_step(tbool_field(1, v.flag), r1, d0, 1, TFieldDataView::TBool(v.flag), d1);

    lemma_parse_ti32_field(2, v.count, r2);
    lemma_i32_u64_round_trip(v.count);
    let img32 = u64_of_i64(v.count as i64) % 0x1_0000_0000;
    assert(i32_of_u64(img32) == v.count) by {
        vstd::arithmetic::div_mod::lemma_mod_twice(
            u64_of_i64(v.count as i64) as int,
            0x1_0000_0000,
        );
    }
    let d2 = CView { flag: v.flag, count: v.count, id: d0.id, name: d0.name, note: d0.note };
    lemma_c_parse_step(ti32_field(2, v.count), r2, d1, 2, TFieldDataView::TI32(img32), d2);

    lemma_parse_ti64_field(3, v.id, r3);
    lemma_i64_u64_round_trip(v.id);
    let d3 = CView { flag: v.flag, count: v.count, id: v.id, name: d0.name, note: d0.note };
    lemma_c_parse_step(ti64_field(3, v.id), r3, d2, 3, TFieldDataView::TI64(u64_of_i64(v.id)), d3);

    lemma_parse_tstring_field(4, v.name, r4);
    let d4 = CView { flag: v.flag, count: v.count, id: v.id, name: v.name, note: d0.note };
    lemma_c_parse_step(tstring_field(4, v.name), r4, d3, 4, TFieldDataView::TStr(v.name), d4);

    match v.note {
        Some(p) => {
            lemma_parse_tstring_field(5, p, stop);
            let d5 = CView { flag: v.flag, count: v.count, id: v.id, name: v.name, note: Some(p) };
            lemma_c_parse_step(tstring_field(5, p), stop, d4, 5, TFieldDataView::TStr(p), d5);
            assert(r4 =~= tstring_field(5, p) + stop);
        },
        None => {
            assert(r4 =~= stop);
        },
    }
    assert(c_parse_fields(stop, CView { flag: v.flag, count: v.count, id: v.id, name: v.name, note: v.note })
        == Ok::<CView, DecodeError>(
        CView { flag: v.flag, count: v.count, id: v.id, name: v.name, note: v.note },
    ));
}


/// The bytes of [`C`] encoded under a mask: each excluded field is
/// pruned; the terminator always remains.
pub open spec fn c_wire_bytes_masked(v: CView, mask: FieldMask) -> Seq<u8> {
    (if mask.includes_spec(1) {
        tbool_field(1, v.flag)
    } else {
        Seq::empty()
    }) + (if mask.includes_spec(2) {
        ti32_field(2, v.count)
    } else {
        Seq::empty()
    }) + (if mask.includes_spec(3) {
        ti64_field(3, v.id)
    } else {
        Seq::empty()
    }) + (if mask.includes_spec(4) {
        tstring_field(4, v.name)
    } else {
        Seq::empty()
    }) + (if mask.includes_spec(5) {
        c_note_field(v)
    } else {
        Seq::empty()
    }) + seq![T_STOP]
}

impl C {
    /// Encode under a mask: a field whose number the mask excludes
    /// contributes no bytes at all; the terminator is always written.
    #[verifier::rlimit(100)]
    pub fn encode_masked(&self, mask: &FieldMask, chain: &mut BufferChain)
        requires
            old(chain).wf_chain(),
            old(chain).chain_bytes().len() + c_wire_bytes(self@).len() <= usize::MAX,
        ensures
            final(chain).wf_chain(),
            final(chain).chain_bytes() == old(chain).chain_bytes() + c_wire_bytes_masked(
                self@,
                *mask,
            ),
    {
        let ghost v = self@;
        let ghost w0 = old(chain).chain_bytes();
        let ghost s1 = if mask.includes_spec(1) {
            tbool_field(1, v.flag)
        } else {
            Seq::<u8>::empty()
        };
        let ghost s2 = if mask.includes_spec(2) {
            ti32_field(2, v.count)
        } else {
            Seq::<u8>::empty()
        };
        let ghost s3 = if mask.includes_spec(3) {
            ti64_field(3, v.id)
        } else {
            Seq::<u8>::empty()
        };
        let ghost s4 = if mask.includes_spec(4) {
            tstring_field(4, v.name)
        } else {
            Seq::<u8>::empty()
        };
        let ghost s5 = if mask.includes_spec(5) {
            c_note_field(v)
        } else {
            Seq::<u8>::empty()
        };
        proof {
            lemma_c_field_lens(v);
        }
        if mask.includes(1) {
            write_tfield_header(chain, T_BOOL, 1);
            chain.put_byte(if self.flag {
                1
            } else {
                0
            });
        }
        assert(chain.chain_bytes() =~= w0 + s1);
        if mask.includes(2) {
            write_tfield_header(chain, T_I32, 2);
            write_be(chain, i32_to_u64(self.count) % 0x1_0000_0000, 4);
        }
        assert(chain.chain_bytes() =~= w0 + (s1 + s2));
        if mask.includes(3) {
            write_tfield_header(chain, T_I64, 3);
            write_be(chain, i64_to_u64(self.id), 8);
        }
        assert(chain.chain_bytes() =~= w0 + (s1 + s2 + s3));
        if mask.includes(4) {
            write_tfield_header(chain, T_STRING, 4);
            write_be(chain, fs_len(&self.name) as u64, 4);
            chain.put_slice(fs_as_slice(&self.name));
        }
        assert(chain.chain_bytes() =~= w0 + (s1 + s2 + s3 + s4));
        if mask.includes(5) {
            match &self.note {
                Some(s) => {
                    write_tfield_header(chain, T_STRING, 5);
                    write_be(chain, fs_len(s) as u64, 4);
                    chain.put_slice(fs_as_slice(s));
                },
                None => {},
            }
        }
        assert(chain.chain_bytes() =~= w0 + (s1 + s2 + s3 + s4 + s5));
        chain.put_byte(T_STOP);
        assert(final(chain).chain_bytes() =~= w0 + c_wire_bytes_masked(v, *mask));
    }
}

/// Mask pruning in the field-header format: the masked output holds
/// exactly the included fields' bytes and the terminator; under an open
/// mask it is the plain encoding.
pub proof fn lemma_c_mask_pruning(v: CView, mask: FieldMask)
    ensures
        (forall|id: u32| mask.includes_spec(id)) ==> c_wire_bytes_masked(v, mask) == c_wire_bytes(
            v,
        ),
        !mask.includes_spec(5) ==> c_wire_bytes_masked(v, mask) == c_wire_bytes_masked(
            CView { flag: v.flag, count: v.count, id: v.id, name: v.name, note: None },
            mask,
        ),
        (forall|id: u32| !mask.includes_spec(id)) ==> c_wire_bytes_masked(v, mask) == seq![T_STOP],
{
    if forall|id: u32| mask.includes_spec(id) {
        assert(mask.includes_spec(1));
        assert(mask.includes_spec(2));
        assert(mask.includes_spec(3));
        assert(mask.includes_spec(4));
        assert(mask.includes_spec(5));
        assert(c_wire_bytes_masked(v, mask) =~= c_wire_bytes(v));
    }
    if !mask.includes_spec(5) {
        assert(c_wire_bytes_masked(v, mask) =~= c_wire_bytes_masked(
            CView { flag: v.flag, count: v.count, id: v.id, name: v.name, note: None },
            mask,
        ));
    }
    if forall|id: u32| !mask.includes_spec(id) {
        assert(!mask.includes_spec(1));
        assert(!mask.includes_spec(2));
        assert(!mask.includes_spec(3));
        assert(!mask.includes_spec(4));
        assert(!mask.includes_spec(5));
        assert(c_wire_bytes_masked(v, mask) =~= seq![T_STOP]);
    }
}


impl C {
    /// Encode into a buffer chain with the string payloads welded in as
    /// zero-copy segments: only headers and fixed-width values are
    /// copied, exactly `size - zero-copy size` bytes.
    pub fn encode_zero_copy(&self, chain: &mut BufferChain)
        requires
            old(chain).wf_chain(),
            old(chain).chain_bytes().len() + c_wire_bytes(self@).len() <= usize::MAX,
        ensures
            final(chain).wf_chain(),
            final(chain).chain_bytes() == old(chain).chain_bytes() + c_wire_bytes(self@),
            final(chain).copied_bytes() == old(chain).copied_bytes() + c_wire_bytes(self@).len()
                - c_zero_copy(self@),
    {
        let ghost v = self@;
        let ghost w0 = old(chain).chain_bytes();
        proof {
            lemma_c_field_lens(v);
        }
        let mut head: Vec<u8> = Vec::new();
        write_tfield_header(&mut head, T_BOOL, 1);
        head.push(if self.flag {
            1
        } else {
            0
        });
        write_tfield_header(&mut head, T_I32, 2);
        write_be(&mut head, i32_to_u64(self.count) % 0x1_0000_0000, 4);
        write_tfield_header(&mut head, T_I64, 3);
        write_be(&mut head, i64_to_u64(self.id), 8);
        write_tfield_header(&mut head, T_STRING, 4);
        write_be(&mut head, fs_len(&self.name) as u64, 4);
        assert(head@ =~= tbool_field(1, v.flag) + ti32_field(2, v.count) + ti64_field(3, v.id)
            + tfield_header(T_STRING, 4) + crate::thrift::encoding::be_bytes(
            v.name.len() as u64,
            4,
        ));
        chain.append_owned(head.as_slice());
        chain.append_zero_copy(fs_to_bytes(&self.name));
        assert(chain.chain_bytes() =~= w0 + (tbool_field(1, v.flag) + ti32_field(2, v.count)
            + ti64_field(3, v.id) + tstring_field(4, v.name)));
        match &self.note {
            Some(s) => {
                let mut head2: Vec<u8> = Vec::new();
                write_tfield_header(&mut head2, T_STRING, 5);
                write_be(&mut head2, fs_len(s) as u64, 4);
                chain.append_owned(head2.as_slice());
                chain.append_zero_copy(fs_to_bytes(s));
                assert(chain.chain_bytes() =~= w0 + (tbool_field(1, v.flag) + ti32_field(
                    2,
                    v.count,
                ) + ti64_field(3, v.id) + tstring_field(4, v.name) + c_note_field(v)));
            },
            None => {},
        }
        let stop: [u8; 1] = [T_STOP];
        chain.append_owned(&stop);
        assert(final(chain).chain_bytes() =~= w0 + c_wire_bytes(v));
    }
}


/// A record with one repeated string field, carried as a list (field 1):
/// an element-type byte, a 4-byte big-endian element count, and the
/// elements.
#[derive(Debug, Clone, PartialEq, Eq)]
pub struct S {
    pub labels: Vec<FastStr>,
}

impl View for S {
    type V = Seq<Seq<u8>>;

    open spec fn view(&self) -> Seq<Seq<u8>> {
        self.labels@.map_values(|s: FastStr| faststr_seq(s))
    }
}

/// Whether every element is valid UTF-8 and short enough for its 4-byte
/// length prefix, with a count the 4-byte header can carry.
pub open spec fn s_wf(v: Seq<Seq<u8>>) -> bool {
    &&& v.len() < 0x1_0000_0000
    &&& forall|j: int|
        0 <= j < v.len() ==> utf8_valid(#[trigger] v[j]) && v[j].len() < 0x1_0000_0000
}

/// The canonical wire bytes: the list field and the terminator.
pub open spec fn s_wire_bytes(v: Seq<Seq<u8>>) -> Seq<u8> {
    tstrlist_field(1, v) + seq![T_STOP]
}

/// Whether every element of a parsed list holds valid UTF-8.
pub open spec fn all_utf8(es: Seq<Seq<u8>>) -> bool {
    forall|j: int| 0 <= j < es.len() ==> utf8_valid(#[trigger] es[j])
}

/// The typed merge of one pre-parsed field: a list replaces the elements
/// wholesale; fields with unrecognized ids are skipped.
pub open spec fn s_merge_spec(v: Seq<Seq<u8>>, id: u16, data: TFieldDataView) -> Result<
    Seq<Seq<u8>>,
    DecodeError,
> {
    if id == 1 {
        match data {
            TFieldDataView::TStrList(es) => if all_utf8(es) {
                Ok(es)
            } else {
                Err(DecodeError::InvalidUtf8)
            },
            _ => Err(DecodeError::InvalidWireType),
        }
    } else {
        Ok(v)
    }
}

/// Fold the fields at the front of `s` until the terminator, as for the
/// other records of this format.
pub open spec fn s_parse_fields(s: Seq<u8>, v: Seq<Seq<u8>>) -> Result<Seq<Seq<u8>>, DecodeError>
    decreases s.len(),
{
    if s.len() == 0 {
        Err(DecodeError::MismatchedStructureEnd)
    } else if s[0] == T_STOP {
        if s.len() == 1 {
            Ok(v)
        } else {
            Err(DecodeError::MismatchedStructureEnd)
        }
    } else {
        match parse_tfield_spec(s) {
            Err(e) => Err(e),
            Ok((id, data, c)) => if 0 < c <= s.len() {
                match s_merge_spec(v, id, data) {
                    Ok(v2) => s_parse_fields(s.skip(c), v2),
                    Err(e) => Err(e),
                }
            } else {
                Err(DecodeError::Truncated)
            },
        }
    }
}

/// The view decoded from `s`, starting from the empty list.
pub open spec fn s_parse(s: Seq<u8>) -> Result<Seq<Seq<u8>>, DecodeError> {
    s_parse_fields(s, Seq::empty())
}

impl S {
    /// A record with no elements.
    pub fn new_default() -> (r: Self)
        ensures
            r@ == Seq::<Seq<u8>>::empty(),
    {
        let r = S { labels: Vec::new() };
        assert(r@ =~= Seq::<Seq<u8>>::empty());
        r
    }

    /// The exact byte count `encode_raw` writes: the size pass.
    pub fn encoded_len(&self) -> (r: usize)
        requires
            s_wire_bytes(self@).len() <= usize::MAX,
        ensures
            r == s_wire_bytes(self@).len(),
    {
        let ghost v = self@;
        proof {
            lemma_be_bytes_len(1, 2);
            lemma_be_bytes_len(v.len() as u64, 4);
        }
        let n = self.labels.len();
        let mut total: usize = 9;
        let mut i: usize = 0;
        assert(str_elems_bytes(v.take(0)) =~= Seq::<u8>::empty());
        while i < n
            invariant
                i <= n == v.len(),
                v == self@,
                s_wire_bytes(v).len() <= usize::MAX,
                s_wire_bytes(v).len() == 9 + str_elems_bytes(v).len(),
                total == 9 + str_elems_bytes(v.take(i as int)).len(),
            decreases n - i,
        {
            proof {
                lemma_str_elems_take(v, i as int);
                lemma_str_elems_take_le(v, i + 1);
                lemma_be_bytes_len(v[i as int].len() as u64, 4);
            }
            let s = &self.labels[i];
            assert(faststr_seq(*s) == v[i as int]);
            let len = fs_len(s);
            total = total + (4 + len);
            i = i + 1;
        }
        assert(v.take(n as int) =~= v);
        total
    }

    /// Append the canonical wire bytes to a sink.
    fn encode_into<W: WireWrite>(&self, w: &mut W)
        requires
            old(w).wwf(),
            old(w).room() >= s_wire_bytes(self@).len(),
        ensures
            final(w).wwf(),
            final(w).wview() == old(w).wview() + s_wire_bytes(self@),
            final(w).room() == old(w).room() - s_wire_bytes(self@).len(),
    {
        let ghost v = self@;
        let ghost w0 = old(w).wview();
        proof {
            lemma_be_bytes_len(1, 2);
            lemma_be_bytes_len(v.len() as u64, 4);
        }
        write_tfield_header(w, T_LIST, 1);
        w.put_byte(T_STRING);
        write_be(w, self.labels.len() as u64, 4);
        let ghost pre = tfield_header(T_LIST, 1) + seq![T_STRING] + crate::thrift::encoding::be_bytes(
            v.len() as u64,
            4,
        );
        assert(w.wview() =~= w0 + pre);
        let n = self.labels.len();
        let mut i: usize = 0;
        assert(str_elems_bytes(v.take(0)) =~= Seq::<u8>::empty());
        assert(w.wview() =~= w0 + pre + str_elems_bytes(v.take(0)));
        while i < n
            invariant
                i <= n == v.len(),
                v == self@,
                w.wwf(),
                s_wire_bytes(v).len() == 9 + str_elems_bytes(v).len(),
                w.wview() == w0 + pre + str_elems_bytes(v.take(i as int)),
                w.room() == old(w).room() - 8 - str_elems_bytes(v.take(i as int)).len(),
                old(w).room() >= s_wire_bytes(v).len(),
            decreases n - i,
        {
            proof {
                lemma_str_elems_take(v, i as int);
                lemma_str_elems_take_le(v, i + 1);
                lemma_be_bytes_len(v[i as int].len() as u64, 4);
            }
            let s = &self.labels[i];
            assert(faststr_seq(*s) == v[i as int]);
            write_be(w, fs_len(s) as u64, 4);
            w.put_slice(fs_as_slice(s));
            assert(w.wview() =~= w0 + pre + str_elems_bytes(v.take(i + 1)));
            i = i + 1;
        }
        assert(v.take(n as int) =~= v);
        w.put_byte(T_STOP);
        assert(final(w).wview() =~= w0 + s_wire_bytes(v));
    }

    /// Append the canonical wire bytes to a growable buffer chain: the
    /// bounds-checked path.
    pub fn encode_raw(&self, chain: &mut BufferChain)
        requires
            old(chain).wf_chain(),
            old(chain).chain_bytes().len() + s_wire_bytes(self@).len() <= usize::MAX,
        ensures
            final(chain).wf_chain(),
            final(chain).chain_bytes() == old(chain).chain_bytes() + s_wire_bytes(self@),
    {
        self.encode_into(chain);
    }

    /// Write the canonical wire bytes into an exact-presized buffer: the
    /// unchecked path, its capacity precondition discharged statically.
    pub fn encode_raw_unchecked(&self, buf: &mut FlatBuf)
        requires
            old(buf).wwf(),
            old(buf).room() >= s_wire_bytes(self@).len(),
        ensures
            final(buf).wwf(),
            final(buf).flat_bytes() == old(buf).flat_bytes() + s_wire_bytes(self@),
            final(buf).room() == old(buf).room() - s_wire_bytes(self@).len(),
    {
        self.encode_into(buf);
    }

    /// Merge one pre-parsed field, exactly as `s_merge_spec` says.
    fn merge_tfield(&mut self, id: u16, data: &TFieldData) -> (r: Result<(), DecodeError>)
        ensures
            match r {
                Ok(()) => s_merge_spec(old(self)@, id, data@) == Ok::<Seq<Seq<u8>>, DecodeError>(
                    final(self)@,
                ),
                Err(e) => s_merge_spec(old(self)@, id, data@) == Err::<Seq<Seq<u8>>, DecodeError>(
                    e,
                ),
            },
    {
        if id == 1 {
            match data {
                TFieldData::TStrList(es) => {
                    let ghost esv = es@.map_values(|e: Vec<u8>| e@);
                    let mut labels: Vec<FastStr> = Vec::new();
                    let n = es.len();
                    let mut i: usize = 0;
                    assert(labels@.map_values(|s: FastStr| faststr_seq(s)) =~= esv.take(0));
                    while i < n
                        invariant
                            i <= n == esv.len(),
                            esv == es@.map_values(|e: Vec<u8>| e@),
                            data@ == TFieldDataView::TStrList(esv),
                            id == 1,
                            old(self)@ == self@,
                            labels@.map_values(|s: FastStr| faststr_seq(s)) == esv.take(i as int),
                            forall|j: int| 0 <= j < i ==> utf8_valid(#[trigger] esv[j]),
                        decreases n - i,
                    {
                        let e = &es[i];
                        let bytes = copy_range(e.as_slice(), 0, e.len());
                        assert(bytes@ =~= esv[i as int]);
                        match fs_from_vec(bytes) {
                            Some(s) => {
                                let ghost oldl = labels@;
                                labels.push(s);
                                proof {
                                    assert(faststr_seq(s) == esv[i as int]);
                                    assert(labels@ == oldl.push(s));
                                    assert(labels@.map_values(|s2: FastStr| faststr_seq(s2))
                                        =~= oldl.map_values(|s2: FastStr| faststr_seq(s2)).push(
                                        faststr_seq(s),
                                    ));
                                    assert(esv.take(i + 1) =~= esv.take(i as int).push(
                                        esv[i as int],
                                    ));
                                    assert(labels@.map_values(|s2: FastStr| faststr_seq(s2))
                                        == esv.take(i + 1));
                                }
                            },
                            None => {
                                assert(!utf8_valid(esv[i as int]));
                                assert(!all_utf8(esv));
                                return Err(DecodeError::InvalidUtf8);
                            },
                        }
                        i = i + 1;
                    }
                    assert(esv.take(n as int) =~= esv);
                    assert(all_utf8(esv));
                    self.labels = labels;
                    Ok(())
                },
                _ => Err(DecodeError::InvalidWireType),
            }
        } else {
            Ok(())
        }
    }

    /// Decode a record from a byte slice: the bounds-checked path.
    pub fn decode(buf: &[u8]) -> (r: Result<S, DecodeError>)
        ensures
            match r {
                Ok(m) => s_parse(buf@) == Ok::<Seq<Seq<u8>>, DecodeError>(m@),
                Err(e) => s_parse(buf@) == Err::<Seq<Seq<u8>>, DecodeError>(e),
            },
    {
        let mut m = S::new_default();
        let mut pos: usize = 0;
        assert(buf@.skip(0) =~= buf@);
        loop
            invariant
                pos <= buf@.len(),
                s_parse_fields(buf@, Seq::empty()) == s_parse_fields(buf@.skip(pos as int), m@),
            decreases buf@.len() - pos,
        {
            let ghost s = buf@.skip(pos as int);
            if pos == buf.len() {
                return Err(DecodeError::MismatchedStructureEnd);
            }
            let t = buf[pos];
            assert(t == s[0]);
            if t == T_STOP {
                if pos + 1 == buf.len() {
                    return Ok(m);
                } else {
                    return Err(DecodeError::MismatchedStructureEnd);
                }
            }
            match read_tfield(buf, pos) {
                Err(e) => {
                    return Err(e);
                },
                Ok((id, data, newpos)) => {
                    proof {
                        assert(s.skip(newpos - pos) =~= buf@.skip(newpos as int));
                    }
                    match m.merge_tfield(id, &data) {
                        Err(e) => {
                            return Err(e);
                        },
                        Ok(()) => {},
                    }
                    pos = newpos;
                },
            }
        }
    }
}

/// Round trip for the list record: decoding its encoding restores the
/// elements, in order.
pub proof fn lemma_s_round_trip(v: Seq<Seq<u8>>)
    requires
        s_wf(v),
    ensures
        s_parse(s_wire_bytes(v)) == Ok::<Seq<Seq<u8>>, DecodeError>(v),
{
    let stop = seq![T_STOP];
    lemma_parse_tstrlist_field(1, v, stop);
    let field = tstrlist_field(1, v);
    let s = field + stop;
    assert(s_wire_bytes(v) == s);
    assert(s.len() > 0);
    assert(s[0] == T_LIST);
    assert(s.skip(field.len() as int) =~= stop);
    assert(all_utf8(v));
    assert(s_merge_spec(Seq::empty(), 1, TFieldDataView::TStrList(v)) == Ok::<
        Seq<Seq<u8>>,
        DecodeError,
    >(v));
    assert(s_parse_fields(stop, v) == Ok::<Seq<Seq<u8>>, DecodeError>(v));
}

} // verus!
