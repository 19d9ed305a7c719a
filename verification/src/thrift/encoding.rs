//! Primitives of the field-header binary format.

use vstd::prelude::*;

use crate::buffer::WireWrite;
use crate::error::DecodeError;
use crate::pb::encoding::pow256;
use crate::varint::u64_of_i64;

verus! {

/// The reserved terminator closing a structure.
pub const T_STOP: u8 = 0;

/// The type code of a boolean value.
pub const T_BOOL: u8 = 2;

/// The type code of a 4-byte signed integer.
pub const T_I32: u8 = 8;

/// The type code of an 8-byte signed integer.
pub const T_I64: u8 = 10;

/// The type code of a string: a 4-byte byte count, then the raw bytes.
pub const T_STRING: u8 = 11;

/// The type code of a list: an element-type byte, a 4-byte big-endian
/// element count, then the elements.
pub const T_LIST: u8 = 15;

/// The `k`-byte big-endian block of `v`: high bytes first.
pub open spec fn be_bytes(v: u64, k: nat) -> Seq<u8>
    decreases k,
{
    if k == 0 {
        Seq::empty()
    } else {
        be_bytes(v / 0x100, (k - 1) as nat) + seq![(v % 0x100) as u8]
    }
}

/// The big-endian value of the first `k` bytes of `s`.
pub open spec fn be_value(s: Seq<u8>, k: nat) -> u64
    decreases k,
{
    if k == 0 {
        0
    } else {
        (be_value(s, (k - 1) as nat) * 0x100 + s[k - 1]) as u64
    }
}

pub proof fn lemma_be_bytes_len(v: u64, k: nat)
    ensures
        be_bytes(v, k).len() == k,
    decreases k,
{
    if k > 0 {
        lemma_be_bytes_len(v / 0x100, (k - 1) as nat);
    }
}

/// The big-endian value reads only the first `k` bytes.
pub proof fn lemma_be_value_prefix(s: Seq<u8>, t: Seq<u8>, k: nat)
    requires
        k <= s.len(),
        k <= t.len(),
        forall|i: int| 0 <= i < k ==> s[i] == t[i],
    ensures
        be_value(s, k) == be_value(t, k),
    decreases k,
{
    if k > 0 {
        lemma_be_value_prefix(s, t, (k - 1) as nat);
    }
}

/// The big-endian value is bounded by `256^k`.
pub proof fn lemma_be_value_bound(s: Seq<u8>, k: nat)
    requires
        k <= 8,
    ensures
        be_value(s, k) < pow256(k),
        pow256(k) <= 0x1_0000_0000_0000_0000,
    decreases k,
{
    lemma_pow256_eight();
    lemma_pow256_le_eight(k);
    if k > 0 {
        lemma_be_value_bound(s, (k - 1) as nat);
    }
}

proof fn lemma_pow256_eight()
    ensures
        pow256(2) == 0x1_0000,
        pow256(4) == 0x1_0000_0000,
        pow256(8) == 0x1_0000_0000_0000_0000,
{
    assert(pow256(0) == 1);
    assert(pow256(1) == 0x100);
    assert(pow256(2) == 0x1_0000);
    assert(pow256(3) == 0x100_0000);
    assert(pow256(4) == 0x1_0000_0000);
    assert(pow256(5) == 0x100_0000_0000);
    assert(pow256(6) == 0x1_0000_0000_0000);
    assert(pow256(7) == 0x100_0000_0000_0000);
}

proof fn lemma_pow256_le_eight(k: nat)
    requires
        k <= 8,
    ensures
        pow256(k) <= pow256(8),
    decreases 8 - k,
{
    if k < 8 {
        lemma_pow256_le_eight(k + 1);
        lemma_pow256_pos_t(k);
    }
}

proof fn lemma_pow256_pos_t(k: nat)
    ensures
        pow256(k) >= 1,
    decreases k,
{
    if k > 0 {
        lemma_pow256_pos_t((k - 1) as nat);
    }
}

/// Printing then parsing a big-endian block returns the value.
pub proof fn lemma_be_round_trip(v: u64, k: nat)
    requires
        k <= 8,
        v < pow256(k),
    ensures
        be_value(be_bytes(v, k), k) == v,
    decreases k,
{
    if k > 0 {
        let hi = be_bytes(v / 0x100, (k - 1) as nat);
        lemma_be_bytes_len(v / 0x100, (k - 1) as nat);
        assert(v / 0x100 < pow256((k - 1) as nat)) by {
            vstd::arithmetic::div_mod::lemma_multiply_divide_lt(
                v as int,
                0x100,
                pow256((k - 1) as nat),
            );
        }
        lemma_be_round_trip(v / 0x100, (k - 1) as nat);
        let s = be_bytes(v, k);
        assert(forall|i: int| 0 <= i < k - 1 ==> s[i] == hi[i]);
        lemma_be_value_prefix(s, hi, (k - 1) as nat);
        assert(s[k - 1] == (v % 0x100) as u8);
        vstd::arithmetic::div_mod::lemma_fundamental_div_mod(v as int, 0x100);
    }
}

/// Write a `k`-byte big-endian block.
pub fn write_be<W: WireWrite>(w: &mut W, v: u64, k: usize)
    requires
        old(w).wwf(),
        k <= 8,
        old(w).room() >= k,
    ensures
        final(w).wwf(),
        final(w).wview() == old(w).wview() + be_bytes(v, k as nat),
        final(w).room() == old(w).room() - k,
    decreases k,
{
    if k > 0 {
        write_be(w, v / 0x100, k - 1);
        w.put_byte((v % 0x100) as u8);
        assert(final(w).wview() =~= old(w).wview() + be_bytes(v, k as nat));
    } else {
        assert(final(w).wview() =~= old(w).wview() + be_bytes(v, 0));
    }
}

/// Read the big-endian value of `k` bytes starting at `pos`.
pub fn read_be(buf: &[u8], pos: usize, k: usize) -> (r: u64)
    requires
        k <= 8,
        pos + k <= buf@.len(),
    ensures
        r == be_value(buf@.skip(pos as int), k as nat),
{
    let ghost s = buf@.skip(pos as int);
    let blen = buf.len();
    let mut v: u64 = 0;
    let mut i: usize = 0;
    while i < k
        invariant
            i <= k <= 8,
            pos + k <= blen == buf@.len(),
            s == buf@.skip(pos as int),
            v == be_value(s, i as nat),
            v < pow256(i as nat),
        decreases k - i,
    {
        proof {
            lemma_be_value_bound(s, i as nat);
            lemma_be_value_bound(s, (i + 1) as nat);
        }
        v = v * 0x100 + (buf[pos + i] as u64);
        assert(s[i as int] == buf@.skip(pos as int)[i as int]);
        i = i + 1;
    }
    v
}

/// The header introducing a field: type code, then the field id.
pub open spec fn tfield_header(t: u8, id: u16) -> Seq<u8> {
    seq![t] + be_bytes(id as u64, 2)
}

/// The value bytes of a string: 4-byte big-endian count, then the bytes.
pub open spec fn tstring_bytes(p: Seq<u8>) -> Seq<u8> {
    be_bytes(p.len() as u64, 4) + p
}

/// A whole boolean field.
pub open spec fn tbool_field(id: u16, v: bool) -> Seq<u8> {
    tfield_header(T_BOOL, id) + seq![if v { 1u8 } else { 0u8 }]
}

/// A whole 4-byte signed integer field; the value is the low half of the
/// two's-complement image.
pub open spec fn ti32_field(id: u16, v: i32) -> Seq<u8> {
    tfield_header(T_I32, id) + be_bytes(u64_of_i64(v as i64) % 0x1_0000_0000, 4)
}

/// A whole 8-byte signed integer field.
pub open spec fn ti64_field(id: u16, v: i64) -> Seq<u8> {
    tfield_header(T_I64, id) + be_bytes(u64_of_i64(v), 8)
}

/// A whole string field.
pub open spec fn tstring_field(id: u16, p: Seq<u8>) -> Seq<u8> {
    tfield_header(T_STRING, id) + tstring_bytes(p)
}

/// Pre-parsed contents of one field.
pub enum TFieldData {
    /// A boolean value.
    TBool(bool),
    /// The 4-byte big-endian block's value.
    TI32(u64),
    /// The 8-byte big-endian block's value.
    TI64(u64),
    /// A string's payload bytes.
    TStr(Vec<u8>),
    /// A string list's elements.
    TStrList(Vec<Vec<u8>>),
}

/// The mathematical image of pre-parsed field contents.
pub enum TFieldDataView {
    TBool(bool),
    TI32(u64),
    TI64(u64),
    TStr(Seq<u8>),
    TStrList(Seq<Seq<u8>>),
}

impl View for TFieldData {
    type V = TFieldDataView;

    open spec fn view(&self) -> TFieldDataView {
        match self {
            TFieldData::TBool(v) => TFieldDataView::TBool(*v),
            TFieldData::TI32(v) => TFieldDataView::TI32(*v),
            TFieldData::TI64(v) => TFieldDataView::TI64(*v),
            TFieldData::TStr(p) => TFieldDataView::TStr(p@),
            TFieldData::TStrList(es) => TFieldDataView::TStrList(
                es@.map_values(|e: Vec<u8>| e@),
            ),
        }
    }
}

/// Parse `count` length-prefixed strings from the front of `s`: the
/// elements and the byte count consumed.
pub open spec fn parse_str_elems(s: Seq<u8>, count: nat) -> Result<(Seq<Seq<u8>>, int), DecodeError>
    decreases count,
{
    if count == 0 {
        Ok((Seq::empty(), 0))
    } else if s.len() < 4 {
        Err(DecodeError::Truncated)
    } else {
        let n = be_value(s, 4);
        if n > s.len() - 4 {
            Err(DecodeError::LengthOverflow)
        } else {
            match parse_str_elems(s.skip(4 + n), (count - 1) as nat) {
                Ok((rest, c)) => Ok((seq![s.subrange(4, 4 + n)] + rest, 4 + n + c)),
                Err(e) => Err(e),
            }
        }
    }
}

/// Parse one whole non-terminator field from the front of `s`: its id,
/// pre-parsed contents, and byte count, header included.
pub open spec fn parse_tfield_spec(s: Seq<u8>) -> Result<(u16, TFieldDataView, int), DecodeError> {
    if s.len() == 0 || s[0] == T_STOP {
        Err(DecodeError::MismatchedStructureEnd)
    } else if s.len() < 3 {
        Err(DecodeError::Truncated)
    } else {
        let t = s[0];
        let id = be_value(s.skip(1), 2) as u16;
        let body = s.skip(3);
        if t == T_BOOL {
            if body.len() >= 1 {
                Ok((id, TFieldDataView::TBool(body[0] != 0), 4))
            } else {
                Err(DecodeError::Truncated)
            }
        } else if t == T_I32 {
            if body.len() >= 4 {
                Ok((id, TFieldDataView::TI32(be_value(body, 4)), 7))
            } else {
                Err(DecodeError::Truncated)
            }
        } else if t == T_I64 {
            if body.len() >= 8 {
                Ok((id, TFieldDataView::TI64(be_value(body, 8)), 11))
            } else {
                Err(DecodeError::Truncated)
            }
        } else if t == T_STRING {
            if body.len() >= 4 {
                let n = be_value(body, 4);
                if n > body.len() - 4 {
                    Err(DecodeError::LengthOverflow)
                } else {
                    Ok((id, TFieldDataView::TStr(body.subrange(4, 4 + n)), 7 + n))
                }
            } else {
                Err(DecodeError::Truncated)
            }
        } else if t == T_LIST {
            if body.len() >= 5 {
                if body[0] != T_STRING {
                    Err(DecodeError::InvalidWireType)
                } else {
                    let cnt = be_value(body.skip(1), 4);
                    match parse_str_elems(body.skip(5), cnt as nat) {
                        Ok((elems, c)) => Ok((id, TFieldDataView::TStrList(elems), 8 + c)),
                        Err(e) => Err(e),
                    }
                }
            } else {
                Err(DecodeError::Truncated)
            }
        } else {
            Err(DecodeError::InvalidWireType)
        }
    }
}

/// Read `count` length-prefixed strings starting at `pos`: the elements
/// and the position just past the last one.
pub fn read_str_elems(buf: &[u8], pos: usize, count: u64) -> (r: Result<
    (Vec<Vec<u8>>, usize),
    DecodeError,
>)
    requires
        pos <= buf@.len(),
    ensures
        ({
            let sp = parse_str_elems(buf@.skip(pos as int), count as nat);
            match r {
                Ok((elems, newpos)) => {
                    &&& sp == Ok::<(Seq<Seq<u8>>, int), DecodeError>(
                        (elems@.map_values(|e: Vec<u8>| e@), newpos - pos),
                    )
                    &&& pos <= newpos <= buf@.len()
                },
                Err(e) => sp == Err::<(Seq<Seq<u8>>, int), _>(e),
            }
        }),
{
    let ghost s0 = buf@.skip(pos as int);
    let blen = buf.len();
    let mut elems: Vec<Vec<u8>> = Vec::new();
    let mut cur: usize = pos;
    let mut i: u64 = 0;
    assert(elems@.map_values(|e: Vec<u8>| e@) =~= Seq::<Seq<u8>>::empty());
    while i < count
        invariant
            pos <= cur <= blen == buf@.len(),
            i <= count,
            s0 == buf@.skip(pos as int),
            ({
                let sp = parse_str_elems(buf@.skip(cur as int), (count - i) as nat);
                match sp {
                    Ok((rest, c)) => parse_str_elems(s0, count as nat) == Ok::<
                        (Seq<Seq<u8>>, int),
                        DecodeError,
                    >((elems@.map_values(|e: Vec<u8>| e@) + rest, cur - pos + c)),
                    Err(e) => parse_str_elems(s0, count as nat) == Err::<
                        (Seq<Seq<u8>>, int),
                        DecodeError,
                    >(e),
                }
            }),
        decreases count - i,
    {
        let ghost scur = buf@.skip(cur as int);
        if blen - cur < 4 {
            return Err(DecodeError::Truncated);
        }
        let n = read_be(buf, cur, 4);
        proof {
            lemma_be_value_bound(scur, 4);
        }
        if n > (blen - cur - 4) as u64 {
            assert(n > scur.len() - 4);
            return Err(DecodeError::LengthOverflow);
        }
        let nn = n as usize;
        let payload = crate::pb::encoding::copy_range(buf, cur + 4, cur + 4 + nn);
        proof {
            assert(payload@ =~= scur.subrange(4, 4 + n as int));
        }
        let ghost oldelems = elems@;
        elems.push(payload);
        proof {
            assert(elems@.map_values(|e: Vec<u8>| e@) =~= oldelems.map_values(
                |e: Vec<u8>| e@,
            ).push(payload@));
            assert(buf@.skip(cur as int + 4 + nn as int) =~= scur.skip(4 + n as int));
            let spn = parse_str_elems(
                buf@.skip(cur as int + 4 + nn as int),
                (count - i - 1) as nat,
            );
            if spn is Ok {
                let rest = spn->Ok_0.0;
                assert(oldelems.map_values(|e: Vec<u8>| e@) + (seq![scur.subrange(
                    4,
                    4 + n as int,
                )] + rest) =~= oldelems.map_values(|e: Vec<u8>| e@).push(payload@) + rest);
            }
        }
        cur = cur + 4 + nn;
        i = i + 1;
    }
    assert(parse_str_elems(buf@.skip(cur as int), 0) == Ok::<(Seq<Seq<u8>>, int), DecodeError>(
        (Seq::empty(), 0),
    ));
    assert(elems@.map_values(|e: Vec<u8>| e@) + Seq::<Seq<u8>>::empty() =~= elems@.map_values(
        |e: Vec<u8>| e@,
    ));
    Ok((elems, cur))
}

/// Read one whole non-terminator field starting at `pos`.
pub fn read_tfield(buf: &[u8], pos: usize) -> (r: Result<(u16, TFieldData, usize), DecodeError>)
    requires
        pos <= buf@.len(),
    ensures
        ({
            let sp = parse_tfield_spec(buf@.skip(pos as int));
            match r {
                Ok((id, data, newpos)) => {
                    &&& sp == Ok::<_, DecodeError>((id, data@, newpos - pos))
                    &&& pos < newpos <= buf@.len()
                },
                Err(e) => sp == Err::<(u16, TFieldDataView, int), _>(e),
            }
        }),
{
    let ghost s = buf@.skip(pos as int);
    if pos == buf.len() {
        return Err(DecodeError::MismatchedStructureEnd);
    }
    let t = buf[pos];
    assert(t == s[0]);
    if t == T_STOP {
        return Err(DecodeError::MismatchedStructureEnd);
    }
    if buf.len() - pos < 3 {
        return Err(DecodeError::Truncated);
    }
    let id64 = read_be(buf, pos + 1, 2);
    proof {
        lemma_be_value_bound(buf@.skip(pos as int + 1), 2);
        assert(buf@.skip(pos as int + 1) =~= s.skip(1));
        lemma_be_value_prefix(buf@.skip(pos as int + 1), s.skip(1), 2);
    }
    let id = id64 as u16;
    let bodypos = pos + 3;
    assert(buf@.skip(bodypos as int) =~= s.skip(3));
    let remaining = buf.len() - bodypos;
    if t == T_BOOL {
        if remaining >= 1 {
            let b = buf[bodypos];
            assert(b == s.skip(3)[0]);
            Ok((id, TFieldData::TBool(b != 0), bodypos + 1))
        } else {
            Err(DecodeError::Truncated)
        }
    } else if t == T_I32 {
        if remaining >= 4 {
            let v = read_be(buf, bodypos, 4);
            Ok((id, TFieldData::TI32(v), bodypos + 4))
        } else {
            Err(DecodeError::Truncated)
        }
    } else if t == T_I64 {
        if remaining >= 8 {
            let v = read_be(buf, bodypos, 8);
            Ok((id, TFieldData::TI64(v), bodypos + 8))
        } else {
            Err(DecodeError::Truncated)
        }
    } else if t == T_STRING {
        if remaining >= 4 {
            let n = read_be(buf, bodypos, 4);
            proof {
                lemma_be_value_bound(buf@.skip(bodypos as int), 4);
            }
            if n > (remaining - 4) as u64 {
                Err(DecodeError::LengthOverflow)
            } else {
                let nn = n as usize;
                let payload = crate::pb::encoding::copy_range(buf, bodypos + 4, bodypos + 4 + nn);
                assert(payload@ =~= s.skip(3).subrange(4, 4 + n as int));
                Ok((id, TFieldData::TStr(payload), bodypos + 4 + nn))
            }
        } else {
            Err(DecodeError::Truncated)
        }
    } else if t == T_LIST {
        if remaining >= 5 {
            let et = buf[bodypos];
            assert(et == s.skip(3)[0]);
            if et != T_STRING {
                Err(DecodeError::InvalidWireType)
            } else {
                let cnt = read_be(buf, bodypos + 1, 4);
                proof {
                    lemma_be_value_bound(buf@.skip(bodypos as int + 1), 4);
                    assert(buf@.skip(bodypos as int + 1) =~= s.skip(3).skip(1));
                    lemma_be_value_prefix(buf@.skip(bodypos as int + 1), s.skip(3).skip(1), 4);
                }
                match read_str_elems(buf, bodypos + 5, cnt) {
                    Ok((elems, newpos)) => {
                        proof {
                            assert(buf@.skip(bodypos as int + 5) =~= s.skip(3).skip(5));
                        }
                        Ok((id, TFieldData::TStrList(elems), newpos))
                    },
                    Err(e) => {
                        assert(buf@.skip(bodypos as int + 5) =~= s.skip(3).skip(5));
                        Err(e)
                    },
                }
            }
        } else {
            Err(DecodeError::Truncated)
        }
    } else {
        Err(DecodeError::InvalidWireType)
    }
}

/// Write a field header.
pub fn write_tfield_header<W: WireWrite>(w: &mut W, t: u8, id: u16)
    requires
        old(w).wwf(),
        old(w).room() >= 3,
    ensures
        final(w).wwf(),
        final(w).wview() == old(w).wview() + tfield_header(t, id),
        final(w).room() == old(w).room() - 3,
{
    proof {
        lemma_be_bytes_len(id as u64, 2);
    }
    w.put_byte(t);
    write_be(w, id as u64, 2);
    assert(final(w).wview() =~= old(w).wview() + tfield_header(t, id));
}

/// Parsing inverts printing for a boolean field.
pub proof fn lemma_parse_tbool_field(id: u16, v: bool, rest: Seq<u8>)
    ensures
        parse_tfield_spec(tbool_field(id, v) + rest) == Ok::<(u16, TFieldDataView, int), DecodeError>(
            (id, TFieldDataView::TBool(v), 4),
        ),
        tbool_field(id, v).len() == 4,
{
    let s = tbool_field(id, v) + rest;
    lemma_be_bytes_len(id as u64, 2);
    assert(s =~= tfield_header(T_BOOL, id) + (seq![if v { 1u8 } else { 0u8 }] + rest));
    lemma_header_parse(T_BOOL, id, seq![if v { 1u8 } else { 0u8 }] + rest, s);
    assert(s.skip(3)[0] == (if v { 1u8 } else { 0u8 }));
}

/// Parsing inverts printing for a 4-byte integer field.
pub proof fn lemma_parse_ti32_field(id: u16, v: i32, rest: Seq<u8>)
    ensures
        parse_tfield_spec(ti32_field(id, v) + rest) == Ok::<(u16, TFieldDataView, int), DecodeError>(
            (id, TFieldDataView::TI32(u64_of_i64(v as i64) % 0x1_0000_0000), 7),
        ),
        ti32_field(id, v).len() == 7,
{
    let img = u64_of_i64(v as i64) % 0x1_0000_0000;
    let s = ti32_field(id, v) + rest;
    lemma_be_bytes_len(img, 4);
    assert(s =~= tfield_header(T_I32, id) + (be_bytes(img, 4) + rest));
    lemma_header_parse(T_I32, id, be_bytes(img, 4) + rest, s);
    let body = s.skip(3);
    assert(forall|i: int| 0 <= i < 4 ==> body[i] == be_bytes(img, 4)[i]);
    lemma_be_value_prefix(body, be_bytes(img, 4), 4);
    lemma_pow256_eight();
    lemma_be_round_trip(img, 4);
}

/// Parsing inverts printing for an 8-byte integer field.
pub proof fn lemma_parse_ti64_field(id: u16, v: i64, rest: Seq<u8>)
    ensures
        parse_tfield_spec(ti64_field(id, v) + rest) == Ok::<(u16, TFieldDataView, int), DecodeError>(
            (id, TFieldDataView::TI64(u64_of_i64(v)), 11),
        ),
        ti64_field(id, v).len() == 11,
{
    let img = u64_of_i64(v);
    let s = ti64_field(id, v) + rest;
    lemma_be_bytes_len(img, 8);
    assert(s =~= tfield_header(T_I64, id) + (be_bytes(img, 8) + rest));
    lemma_header_parse(T_I64, id, be_bytes(img, 8) + rest, s);
    let body = s.skip(3);
    assert(forall|i: int| 0 <= i < 8 ==> body[i] == be_bytes(img, 8)[i]);
    lemma_be_value_prefix(body, be_bytes(img, 8), 8);
    lemma_pow256_eight();
    assert(img < pow256(8));
    lemma_be_round_trip(img, 8);
}

/// Parsing inverts printing for a string field.
pub proof fn lemma_parse_tstring_field(id: u16, p: Seq<u8>, rest: Seq<u8>)
    requires
        p.len() < 0x1_0000_0000,
    ensures
        parse_tfield_spec(tstring_field(id, p) + rest) == Ok::<(u16, TFieldDataView, int), DecodeError>(
            (id, TFieldDataView::TStr(p), 7 + p.len() as int),
        ),
        tstring_field(id, p).len() == 7 + p.len(),
{
    let n = p.len() as u64;
    let s = tstring_field(id, p) + rest;
    lemma_be_bytes_len(n, 4);
    assert(s =~= tfield_header(T_STRING, id) + ((be_bytes(n, 4) + p) + rest));
    lemma_header_parse(T_STRING, id, (be_bytes(n, 4) + p) + rest, s);
    let body = s.skip(3);
    assert(forall|i: int| 0 <= i < 4 ==> body[i] == be_bytes(n, 4)[i]);
    lemma_be_value_prefix(body, be_bytes(n, 4), 4);
    lemma_pow256_eight();
    assert(n < pow256(4));
    lemma_be_round_trip(n, 4);
    assert(body.subrange(4, 4 + n as int) =~= p);
}

/// The header of a printed field parses back to its type code and id.
proof fn lemma_header_parse(t: u8, id: u16, value_and_rest: Seq<u8>, s: Seq<u8>)
    requires
        s == tfield_header(t, id) + value_and_rest,
        t != T_STOP,
    ensures
        s.len() == 3 + value_and_rest.len(),
        s[0] == t,
        be_value(s.skip(1), 2) == id,
        s.skip(3) == value_and_rest,
{
    lemma_be_bytes_len(id as u64, 2);
    assert(s.skip(3) =~= value_and_rest);
    assert(forall|i: int| 0 <= i < 2 ==> s.skip(1)[i] == be_bytes(id as u64, 2)[i]);
    lemma_be_value_prefix(s.skip(1), be_bytes(id as u64, 2), 2);
    lemma_pow256_eight();
    assert((id as u64) < pow256(2));
    lemma_be_round_trip(id as u64, 2);
}


/// The value bytes of a string list's elements, in order.
pub open spec fn str_elems_bytes(items: Seq<Seq<u8>>) -> Seq<u8>
    decreases items.len(),
{
    if items.len() == 0 {
        Seq::empty()
    } else {
        tstring_bytes(items.first()) + str_elems_bytes(items.drop_first())
    }
}

/// A whole string-list field: header, element type, element count,
/// elements.
pub open spec fn tstrlist_field(id: u16, items: Seq<Seq<u8>>) -> Seq<u8> {
    tfield_header(T_LIST, id) + seq![T_STRING] + be_bytes(items.len() as u64, 4)
        + str_elems_bytes(items)
}

/// The element bytes of concatenated lists concatenate.
pub proof fn lemma_str_elems_concat(a: Seq<Seq<u8>>, b: Seq<Seq<u8>>)
    ensures
        str_elems_bytes(a + b) == str_elems_bytes(a) + str_elems_bytes(b),
    decreases a.len(),
{
    if a.len() == 0 {
        assert(a + b =~= b);
        assert(str_elems_bytes(a) + str_elems_bytes(b) =~= str_elems_bytes(b));
    } else {
        assert((a + b).drop_first() =~= a.drop_first() + b);
        assert((a + b).first() == a.first());
        lemma_str_elems_concat(a.drop_first(), b);
        assert(str_elems_bytes(a + b) =~= str_elems_bytes(a) + str_elems_bytes(b));
    }
}

/// Splitting off the last of the first `i + 1` elements.
pub proof fn lemma_str_elems_take(items: Seq<Seq<u8>>, i: int)
    requires
        0 <= i < items.len(),
    ensures
        str_elems_bytes(items.take(i + 1)) == str_elems_bytes(items.take(i)) + tstring_bytes(
            items[i],
        ),
{
    assert(items.take(i + 1) =~= items.take(i) + seq![items[i]]);
    lemma_str_elems_concat(items.take(i), seq![items[i]]);
    assert(seq![items[i]].drop_first() =~= Seq::<Seq<u8>>::empty());
    assert(seq![items[i]].first() == items[i]);
    assert(str_elems_bytes(Seq::<Seq<u8>>::empty()) == Seq::<u8>::empty());
    assert(str_elems_bytes(seq![items[i]]) =~= tstring_bytes(items[i]));
}

/// A prefix of the elements contributes no more bytes than all of them.
pub proof fn lemma_str_elems_take_le(items: Seq<Seq<u8>>, i: int)
    requires
        0 <= i <= items.len(),
    ensures
        str_elems_bytes(items.take(i)).len() <= str_elems_bytes(items).len(),
    decreases items.len() - i,
{
    if i < items.len() {
        lemma_str_elems_take(items, i);
        lemma_str_elems_take_le(items, i + 1);
    } else {
        assert(items.take(i) =~= items);
    }
}

/// Parsing inverts printing for a list's elements.
pub proof fn lemma_parse_str_elems_print(items: Seq<Seq<u8>>, rest: Seq<u8>)
    requires
        forall|j: int| 0 <= j < items.len() ==> (#[trigger] items[j]).len() < 0x1_0000_0000,
    ensures
        parse_str_elems(str_elems_bytes(items) + rest, items.len()) == Ok::<
            (Seq<Seq<u8>>, int),
            DecodeError,
        >((items, str_elems_bytes(items).len() as int)),
    decreases items.len(),
{
    if items.len() == 0 {
        assert(str_elems_bytes(items).len() == 0);
        assert(parse_str_elems(str_elems_bytes(items) + rest, 0) == Ok::<
            (Seq<Seq<u8>>, int),
            DecodeError,
        >((Seq::empty(), 0)));
        assert(Seq::<Seq<u8>>::empty() =~= items);
    } else {
        let p = items.first();
        let n = p.len() as u64;
        let tail = items.drop_first();
        lemma_be_bytes_len(n, 4);
        let s = str_elems_bytes(items) + rest;
        assert(s =~= (be_bytes(n, 4) + p) + (str_elems_bytes(tail) + rest));
        assert(forall|j: int| 0 <= j < 4 ==> s[j] == be_bytes(n, 4)[j]);
        lemma_be_value_prefix(s, be_bytes(n, 4), 4);
        lemma_pow256_eight();
        lemma_be_round_trip(n, 4);
        assert(s.subrange(4, 4 + n as int) =~= p);
        assert(s.skip(4 + n as int) =~= str_elems_bytes(tail) + rest);
        assert forall|j: int| 0 <= j < tail.len() implies (#[trigger] tail[j]).len()
            < 0x1_0000_0000 by {
            assert(tail[j] == items[j + 1]);
        }
        lemma_parse_str_elems_print(tail, rest);
        assert(seq![p] + tail =~= items);
    }
}

/// Parsing inverts printing for a whole string-list field.
pub proof fn lemma_parse_tstrlist_field(id: u16, items: Seq<Seq<u8>>, rest: Seq<u8>)
    requires
        items.len() < 0x1_0000_0000,
        forall|j: int| 0 <= j < items.len() ==> (#[trigger] items[j]).len() < 0x1_0000_0000,
    ensures
        parse_tfield_spec(tstrlist_field(id, items) + rest) == Ok::<
            (u16, TFieldDataView, int),
            DecodeError,
        >((id, TFieldDataView::TStrList(items), 8 + str_elems_bytes(items).len() as int)),
        tstrlist_field(id, items).len() == 8 + str_elems_bytes(items).len(),
{
    let cnt = items.len() as u64;
    let s = tstrlist_field(id, items) + rest;
    lemma_be_bytes_len(cnt, 4);
    lemma_be_bytes_len(id as u64, 2);
    let vr = seq![T_STRING] + be_bytes(cnt, 4) + str_elems_bytes(items) + rest;
    assert(s =~= tfield_header(T_LIST, id) + vr);
    lemma_header_parse(T_LIST, id, vr, s);
    let body = s.skip(3);
    assert(body[0] == T_STRING);
    assert(forall|j: int| 0 <= j < 4 ==> body.skip(1)[j] == be_bytes(cnt, 4)[j]);
    lemma_be_value_prefix(body.skip(1), be_bytes(cnt, 4), 4);
    lemma_pow256_eight();
    lemma_be_round_trip(cnt, 4);
    assert(body.skip(5) =~= str_elems_bytes(items) + rest);
    lemma_parse_str_elems_print(items, rest);
}

} // verus!
