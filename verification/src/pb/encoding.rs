//! Primitives of the length-delimited tag/value wire format.
//!
//! A field key is the variable-width integer `(field number << 3) | wire
//! type`. Scalars are carried as variable-width integers or fixed-width
//! little-endian blocks; composites and strings are length-delimited: a
//! variable-width byte count followed by that many payload bytes.

use vstd::prelude::*;

use crate::buffer::WireWrite;
use crate::error::DecodeError;
use crate::varint::{
    decode_varint, lemma_varint_round_trip, lemma_varint_spec_len, parse_varint_spec, varint_len_spec,
    varint_spec,
};

verus! {

/// The largest permitted field number.
pub const MAX_FIELD_ID: u32 = 0x1FFF_FFFF;

/// How a value's bytes are structured on the wire.
#[derive(Clone, Copy, Debug, PartialEq, Eq, Structural)]
pub enum WireType {
    /// A variable-width integer.
    Varint,
    /// An 8-byte little-endian block.
    SixtyFourBit,
    /// A byte count followed by that many payload bytes.
    LengthDelimited,
    /// A 4-byte little-endian block.
    ThirtyTwoBit,
}

/// The 3-bit code of a wire type.
pub open spec fn wire_type_num(wt: WireType) -> u64 {
    match wt {
        WireType::Varint => 0,
        WireType::SixtyFourBit => 1,
        WireType::LengthDelimited => 2,
        WireType::ThirtyTwoBit => 5,
    }
}

/// The wire type encoded by a 3-bit code, if it is one this format defines.
pub open spec fn wire_type_of_num(n: u64) -> Option<WireType> {
    if n == 0 {
        Some(WireType::Varint)
    } else if n == 1 {
        Some(WireType::SixtyFourBit)
    } else if n == 2 {
        Some(WireType::LengthDelimited)
    } else if n == 5 {
        Some(WireType::ThirtyTwoBit)
    } else {
        None
    }
}

/// Map a 3-bit code to its wire type.
pub fn wire_type_from_num(n: u64) -> (r: Option<WireType>)
    ensures
        r == wire_type_of_num(n),
{
    if n == 0 {
        Some(WireType::Varint)
    } else if n == 1 {
        Some(WireType::SixtyFourBit)
    } else if n == 2 {
        Some(WireType::LengthDelimited)
    } else if n == 5 {
        Some(WireType::ThirtyTwoBit)
    } else {
        None
    }
}

/// Whether `id` is a permitted field number.
pub open spec fn valid_field_id(id: u32) -> bool {
    1 <= id <= MAX_FIELD_ID
}

/// The key carrying a field number and a wire type.
pub open spec fn key_spec(id: u32, wt: WireType) -> u64 {
    (id * 8 + wire_type_num(wt)) as u64
}

/// The bytes of a field holding a variable-width integer value.
pub open spec fn varint_field(id: u32, v: u64) -> Seq<u8> {
    varint_spec(key_spec(id, WireType::Varint)) + varint_spec(v)
}

/// The byte count of a field holding a variable-width integer value.
pub open spec fn varint_field_len(id: u32, v: u64) -> nat {
    varint_len_spec(key_spec(id, WireType::Varint)) + varint_len_spec(v)
}

/// The bytes of a length-delimited field: key, byte count, payload.
pub open spec fn len_delim_field(id: u32, payload: Seq<u8>) -> Seq<u8> {
    varint_spec(key_spec(id, WireType::LengthDelimited)) + varint_spec(payload.len() as u64)
        + payload
}

/// The byte count of a length-delimited field.
pub open spec fn len_delim_field_len(id: u32, payload: Seq<u8>) -> nat {
    varint_len_spec(key_spec(id, WireType::LengthDelimited)) + varint_len_spec(
        payload.len() as u64,
    ) + payload.len()
}

pub proof fn lemma_varint_field_len(id: u32, v: u64)
    ensures
        varint_field(id, v).len() == varint_field_len(id, v),
{
    lemma_varint_spec_len(key_spec(id, WireType::Varint));
    lemma_varint_spec_len(v);
}

pub proof fn lemma_len_delim_field_len(id: u32, payload: Seq<u8>)
    ensures
        len_delim_field(id, payload).len() == len_delim_field_len(id, payload),
{
    lemma_varint_spec_len(key_spec(id, WireType::LengthDelimited));
    lemma_varint_spec_len(payload.len() as u64);
}

/// Write a variable-width integer.
pub fn write_varint<W: WireWrite>(w: &mut W, n: u64)
    requires
        old(w).wwf(),
        old(w).room() >= varint_len_spec(n),
    ensures
        final(w).wwf(),
        final(w).wview() == old(w).wview() + varint_spec(n),
        final(w).room() == old(w).room() - varint_len_spec(n),
    decreases n,
{
    if n < 0x80 {
        w.put_byte(n as u8);
        assert(final(w).wview() =~= old(w).wview() + varint_spec(n));
    } else {
        proof {
            assert(varint_len_spec(n) == 1 + varint_len_spec(n / 0x80));
        }
        w.put_byte((n % 0x80 + 0x80) as u8);
        write_varint(w, n / 0x80);
        assert(final(w).wview() =~= old(w).wview() + varint_spec(n));
    }
}

/// Write a field key.
pub fn write_key<W: WireWrite>(w: &mut W, id: u32, wt: WireType)
    requires
        old(w).wwf(),
        valid_field_id(id),
        old(w).room() >= varint_len_spec(key_spec(id, wt)),
    ensures
        final(w).wwf(),
        final(w).wview() == old(w).wview() + varint_spec(key_spec(id, wt)),
        final(w).room() == old(w).room() - varint_len_spec(key_spec(id, wt)),
{
    let num: u64 = match wt {
        WireType::Varint => 0,
        WireType::SixtyFourBit => 1,
        WireType::LengthDelimited => 2,
        WireType::ThirtyTwoBit => 5,
    };
    let key: u64 = (id as u64) * 8 + num;
    write_varint(w, key);
}

/// Pre-parsed contents of one field, before the typed merge.
pub enum FieldData {
    /// A variable-width integer value.
    VInt(u64),
    /// An 8-byte little-endian value.
    F64(u64),
    /// A 4-byte little-endian value.
    F32(u32),
    /// The payload of a length-delimited field.
    LenPayload(Vec<u8>),
}

/// The mathematical image of pre-parsed field contents.
pub enum FieldDataView {
    VInt(u64),
    F64(u64),
    F32(u32),
    LenPayload(Seq<u8>),
}

impl View for FieldData {
    type V = FieldDataView;

    open spec fn view(&self) -> FieldDataView {
        match self {
            FieldData::VInt(v) => FieldDataView::VInt(*v),
            FieldData::F64(v) => FieldDataView::F64(*v),
            FieldData::F32(v) => FieldDataView::F32(*v),
            FieldData::LenPayload(p) => FieldDataView::LenPayload(p@),
        }
    }
}

/// The little-endian value of `k` bytes starting at `s[0]`.
pub open spec fn le_value(s: Seq<u8>, k: nat) -> u64
    decreases k,
{
    if k == 0 {
        0
    } else {
        (s[0] + 0x100 * le_value(s.skip(1), (k - 1) as nat)) as u64
    }
}

/// Parse one whole field from the front of `s`: its field number, wire
/// type, pre-parsed contents, and the byte count of the field including its
/// key.
pub open spec fn parse_field_spec(s: Seq<u8>) -> Result<(u32, WireType, FieldDataView, int), DecodeError> {
    match parse_varint_spec(s) {
        Err(e) => Err(e),
        Ok((k, c1)) => {
            let id = k / 8;
            if !(1 <= id <= MAX_FIELD_ID) {
                Err(DecodeError::InvalidWireType)
            } else {
                match wire_type_of_num(k % 8) {
                    None => Err(DecodeError::InvalidWireType),
                    Some(wt) => match parse_field_body(s.skip(c1), wt) {
                        Err(e) => Err(e),
                        Ok((data, c2)) => Ok((id as u32, wt, data, c1 + c2)),
                    },
                }
            }
        },
    }
}

/// Parse the value part of a field, after its key.
pub open spec fn parse_field_body(s: Seq<u8>, wt: WireType) -> Result<(FieldDataView, int), DecodeError> {
    match wt {
        WireType::Varint => match parse_varint_spec(s) {
            Err(e) => Err(e),
            Ok((v, c)) => Ok((FieldDataView::VInt(v), c)),
        },
        WireType::SixtyFourBit => if s.len() >= 8 {
            Ok((FieldDataView::F64(le_value(s, 8)), 8))
        } else {
            Err(DecodeError::Truncated)
        },
        WireType::ThirtyTwoBit => if s.len() >= 4 {
            Ok((FieldDataView::F32(le_value(s, 4) as u32), 4))
        } else {
            Err(DecodeError::Truncated)
        },
        WireType::LengthDelimited => match parse_varint_spec(s) {
            Err(e) => Err(e),
            Ok((n, c)) => if n > s.len() - c {
                Err(DecodeError::LengthOverflow)
            } else {
                Ok((FieldDataView::LenPayload(s.subrange(c, c + n)), c + n))
            },
        },
    }
}

/// Parsing inverts printing for a field holding a variable-width value.
pub proof fn lemma_parse_varint_field(id: u32, v: u64, rest: Seq<u8>)
    requires
        valid_field_id(id),
    ensures
        parse_field_spec(varint_field(id, v) + rest) == Ok::<_, DecodeError>(
            (id, WireType::Varint, FieldDataView::VInt(v), varint_field_len(id, v) as int),
        ),
{
    let key = key_spec(id, WireType::Varint);
    let s = varint_field(id, v) + rest;
    assert(s =~= varint_spec(key) + (varint_spec(v) + rest));
    lemma_varint_round_trip(key, varint_spec(v) + rest);
    assert(key / 8 == id as u64) by {
        vstd::arithmetic::div_mod::lemma_fundamental_div_mod_converse(
            key as int,
            8,
            id as int,
            0,
        );
    }
    assert(key % 8 == 0) by {
        vstd::arithmetic::div_mod::lemma_fundamental_div_mod_converse(
            key as int,
            8,
            id as int,
            0,
        );
    }
    let c1 = varint_len_spec(key) as int;
    assert(s.skip(c1) =~= varint_spec(v) + rest) by {
        lemma_varint_spec_len(key);
    }
    lemma_varint_round_trip(v, rest);
}

/// Parsing inverts printing for a length-delimited field.
pub proof fn lemma_parse_len_delim_field(id: u32, payload: Seq<u8>, rest: Seq<u8>)
    requires
        valid_field_id(id),
        payload.len() <= u64::MAX,
    ensures
        parse_field_spec(len_delim_field(id, payload) + rest) == Ok::<_, DecodeError>(
            (
                id,
                WireType::LengthDelimited,
                FieldDataView::LenPayload(payload),
                len_delim_field_len(id, payload) as int,
            ),
        ),
{
    let key = key_spec(id, WireType::LengthDelimited);
    let n = payload.len() as u64;
    let s = len_delim_field(id, payload) + rest;
    assert(s =~= varint_spec(key) + (varint_spec(n) + (payload + rest)));
    lemma_varint_round_trip(key, varint_spec(n) + (payload + rest));
    assert(key / 8 == id as u64 && key % 8 == 2) by {
        vstd::arithmetic::div_mod::lemma_fundamental_div_mod_converse(
            key as int,
            8,
            id as int,
            2,
        );
    }
    let c1 = varint_len_spec(key) as int;
    assert(s.skip(c1) =~= varint_spec(n) + (payload + rest)) by {
        lemma_varint_spec_len(key);
    }
    lemma_varint_round_trip(n, payload + rest);
    lemma_varint_spec_len(n);
    lemma_varint_spec_len(key);
    let c2 = varint_len_spec(n) as int;
    let body = s.skip(c1);
    assert(body.skip(c2) =~= payload + rest) by {
        lemma_varint_spec_len(n);
    }
    assert(body.subrange(c2, c2 + n as int) =~= payload);
    assert(parse_field_body(body, WireType::LengthDelimited) == Ok::<_, DecodeError>(
        (FieldDataView::LenPayload(payload), c2 + n as int),
    ));
}

/// Copy `buf[start..end]` into a fresh vector.
pub fn copy_range(buf: &[u8], start: usize, end: usize) -> (r: Vec<u8>)
    requires
        start <= end <= buf@.len(),
    ensures
        r@ == buf@.subrange(start as int, end as int),
{
    let mut r: Vec<u8> = Vec::new();
    let mut i: usize = start;
    while i < end
        invariant
            start <= i <= end <= buf@.len(),
            r@ == buf@.subrange(start as int, i as int),
        decreases end - i,
    {
        r.push(buf[i]);
        assert(r@ =~= buf@.subrange(start as int, i + 1));
        i = i + 1;
    }
    r
}

/// Read one whole field starting at `pos`: its field number, wire type,
/// pre-parsed contents, and the position just past its last byte.
pub fn read_field(buf: &[u8], pos: usize) -> (r: Result<(u32, WireType, FieldData, usize), DecodeError>)
    requires
        pos <= buf@.len(),
    ensures
        ({
            let sp = parse_field_spec(buf@.skip(pos as int));
            match r {
                Ok((id, wt, data, newpos)) => {
                    &&& sp == Ok::<_, DecodeError>((id, wt, data@, newpos - pos))
                    &&& pos < newpos <= buf@.len()
                },
                Err(e) => sp == Err::<(u32, WireType, FieldDataView, int), _>(e),
            }
        }),
{
    let s = buf;
    let ghost sview = buf@.skip(pos as int);
    let (k, p1) = match decode_varint(buf, pos) {
        Ok(kc) => kc,
        Err(e) => {
            return Err(e);
        },
    };
    let id64 = k / 8;
    if !(1 <= id64 && id64 <= MAX_FIELD_ID as u64) {
        return Err(DecodeError::InvalidWireType);
    }
    let id = id64 as u32;
    let wt = match wire_type_from_num(k % 8) {
        Some(wt) => wt,
        None => {
            return Err(DecodeError::InvalidWireType);
        },
    };
    assert(buf@.skip(pos as int).skip(p1 - pos) =~= buf@.skip(p1 as int));
    match wt {
        WireType::Varint => {
            match decode_varint(buf, p1) {
                Ok((v, p2)) => Ok((id, wt, FieldData::VInt(v), p2)),
                Err(e) => Err(e),
            }
        },
        WireType::SixtyFourBit => {
            if buf.len() - p1 >= 8 {
                let v = read_le(buf, p1, 8);
                Ok((id, wt, FieldData::F64(v), p1 + 8))
            } else {
                Err(DecodeError::Truncated)
            }
        },
        WireType::ThirtyTwoBit => {
            if buf.len() - p1 >= 4 {
                let v = read_le(buf, p1, 4);
                proof {
                    lemma_le_value_bound(buf@.skip(p1 as int), 4);
                }
                Ok((id, wt, FieldData::F32(v as u32), p1 + 4))
            } else {
                Err(DecodeError::Truncated)
            }
        },
        WireType::LengthDelimited => {
            match decode_varint(buf, p1) {
                Ok((n, p2)) => {
                    if n > (buf.len() - p2) as u64 {
                        assert(n > sview.skip(p1 - pos).len() - (p2 - p1));
                        Err(DecodeError::LengthOverflow)
                    } else {
                        let nn = n as usize;
                        let payload = copy_range(buf, p2, p2 + nn);
                        assert(payload@ =~= sview.skip(p1 - pos).subrange(
                            p2 - p1,
                            p2 - p1 + n as int,
                        ));
                        Ok((id, wt, FieldData::LenPayload(payload), p2 + nn))
                    }
                },
                Err(e) => Err(e),
            }
        },
    }
}

/// An accumulated little-endian value is bounded by `256^k`.
pub proof fn lemma_le_value_bound(s: Seq<u8>, k: nat)
    requires
        k <= 7,
    ensures
        le_value(s, k) < pow256(k),
        pow256(k) <= 0x100_0000_0000_0000,
    decreases k,
{
    lemma_pow256_seven();
    lemma_pow256_le(k, 7);
    if k > 0 {
        lemma_le_value_bound(s.skip(1), (k - 1) as nat);
    }
}

proof fn lemma_pow256_seven()
    ensures
        pow256(7) == 0x100_0000_0000_0000,
{
    assert(pow256(0) == 1);
    assert(pow256(1) == 0x100);
    assert(pow256(2) == 0x1_0000);
    assert(pow256(3) == 0x100_0000);
    assert(pow256(4) == 0x1_0000_0000);
    assert(pow256(5) == 0x100_0000_0000);
    assert(pow256(6) == 0x1_0000_0000_0000);
}

proof fn lemma_pow256_pos(k: nat)
    ensures
        pow256(k) >= 1,
    decreases k,
{
    if k > 0 {
        lemma_pow256_pos((k - 1) as nat);
    }
}

proof fn lemma_pow256_le(j: nat, k: nat)
    requires
        j <= k,
    ensures
        pow256(j) <= pow256(k),
    decreases k,
{
    if j < k {
        lemma_pow256_le(j, (k - 1) as nat);
        lemma_pow256_pos((k - 1) as nat);
    }
}

/// `256^k`.
pub open spec fn pow256(k: nat) -> int
    decreases k,
{
    if k == 0 {
        1
    } else {
        0x100 * pow256((k - 1) as nat)
    }
}

/// Read the little-endian value of `k` bytes starting at `pos`.
pub fn read_le(buf: &[u8], pos: usize, k: usize) -> (r: u64)
    requires
        k <= 8,
        pos + k <= buf@.len(),
    ensures
        r == le_value(buf@.skip(pos as int), k as nat),
    decreases k,
{
    if k == 0 {
        0
    } else {
        let b = buf[pos];
        let rest = read_le(buf, pos + 1, k - 1);
        proof {
            lemma_le_value_bound(buf@.skip(pos as int + 1), (k - 1) as nat);
            assert(buf@.skip(pos as int).skip(1) =~= buf@.skip(pos as int + 1));
        }
        b as u64 + 0x100 * rest
    }
}

/// Write an 8-byte little-endian block.
pub fn write_fixed64<W: WireWrite>(w: &mut W, v: u64)
    requires
        old(w).wwf(),
        old(w).room() >= 8,
    ensures
        final(w).wwf(),
        final(w).wview() == old(w).wview() + fixed64_le(v),
        final(w).room() == old(w).room() - 8,
{
    let ghost w0 = *w;
    let mut x = v;
    let mut i: usize = 0;
    while i < 8
        invariant
            i <= 8,
            w.wwf(),
            w0.room() >= 8,
            x == shr8(v, i as nat),
            w.wview() == w0.wview() + fixed64_le(v).take(i as int),
            w.room() == w0.room() - i,
        decreases 8 - i,
    {
        proof {
            lemma_shr8_step(v, i as nat);
        }
        w.put_byte((x % 0x100) as u8);
        x = x / 0x100;
        assert(w.wview() =~= w0.wview() + fixed64_le(v).take(i + 1));
        i = i + 1;
    }
    assert(fixed64_le(v).take(8) =~= fixed64_le(v));
}

/// The 8-byte little-endian block of `v`.
pub open spec fn fixed64_le(v: u64) -> Seq<u8> {
    Seq::new(8, |i: int| (shr8(v, i as nat) % 0x100) as u8)
}

/// The 4-byte little-endian block of `v`.
pub open spec fn fixed32_le(v: u32) -> Seq<u8> {
    Seq::new(4, |i: int| (shr8(v as u64, i as nat) % 0x100) as u8)
}

/// `v` shifted right by `8 * k` bits, in the arithmetic domain.
pub open spec fn shr8(v: u64, k: nat) -> u64
    decreases k,
{
    if k == 0 {
        v
    } else {
        shr8(v, (k - 1) as nat) / 0x100
    }
}

proof fn lemma_shr8_step(v: u64, k: nat)
    ensures
        shr8(v, k) / 0x100 == shr8(v, k + 1),
{
    assert(shr8(v, (k + 1) as nat) == shr8(v, k) / 0x100);
}

/// Write a 4-byte little-endian block.
pub fn write_fixed32<W: WireWrite>(w: &mut W, v: u32)
    requires
        old(w).wwf(),
        old(w).room() >= 4,
    ensures
        final(w).wwf(),
        final(w).wview() == old(w).wview() + fixed32_le(v),
        final(w).room() == old(w).room() - 4,
{
    let ghost w0 = *w;
    let mut x = v as u64;
    let mut i: usize = 0;
    while i < 4
        invariant
            i <= 4,
            w.wwf(),
            w0.room() >= 4,
            x == shr8(v as u64, i as nat),
            w.wview() == w0.wview() + fixed32_le(v).take(i as int),
            w.room() == w0.room() - i,
        decreases 4 - i,
    {
        proof {
            lemma_shr8_step(v as u64, i as nat);
        }
        w.put_byte((x % 0x100) as u8);
        x = x / 0x100;
        assert(w.wview() =~= w0.wview() + fixed32_le(v).take(i + 1));
        i = i + 1;
    }
    assert(fixed32_le(v).take(4) =~= fixed32_le(v));
}


/// The byte count of the canonical variable-width encoding of `n`, as an
/// executable value.
pub fn varint_len(n: u64) -> (r: usize)
    ensures
        r == varint_len_spec(n),
        1 <= r <= 10,
{
    crate::varint::varint_len(n)
}

/// Write a whole field holding a variable-width integer value.
pub fn write_varint_field<W: WireWrite>(w: &mut W, id: u32, v: u64)
    requires
        old(w).wwf(),
        valid_field_id(id),
        old(w).room() >= varint_field(id, v).len(),
    ensures
        final(w).wwf(),
        final(w).wview() == old(w).wview() + varint_field(id, v),
        final(w).room() == old(w).room() - varint_field(id, v).len(),
{
    proof {
        lemma_varint_field_len(id, v);
        lemma_varint_spec_len(key_spec(id, WireType::Varint));
        lemma_varint_spec_len(v);
    }
    write_key(w, id, WireType::Varint);
    write_varint(w, v);
    assert(final(w).wview() =~= old(w).wview() + varint_field(id, v));
}

/// Write the key and byte count of a length-delimited field; the payload
/// follows separately.
pub fn write_len_delim_header<W: WireWrite>(w: &mut W, id: u32, len: usize)
    requires
        old(w).wwf(),
        valid_field_id(id),
        old(w).room() >= varint_len_spec(key_spec(id, WireType::LengthDelimited))
            + varint_len_spec(len as u64),
    ensures
        final(w).wwf(),
        final(w).wview() == old(w).wview() + varint_spec(key_spec(id, WireType::LengthDelimited))
            + varint_spec(len as u64),
        final(w).room() == old(w).room() - varint_len_spec(
            key_spec(id, WireType::LengthDelimited),
        ) - varint_len_spec(len as u64),
{
    proof {
        lemma_varint_spec_len(key_spec(id, WireType::LengthDelimited));
        lemma_varint_spec_len(len as u64);
    }
    write_key(w, id, WireType::LengthDelimited);
    write_varint(w, len as u64);
}

/// Write a whole length-delimited field, payload included.
pub fn write_len_delim_field<W: WireWrite>(w: &mut W, id: u32, payload: &[u8])
    requires
        old(w).wwf(),
        valid_field_id(id),
        old(w).room() >= len_delim_field(id, payload@).len(),
    ensures
        final(w).wwf(),
        final(w).wview() == old(w).wview() + len_delim_field(id, payload@),
        final(w).room() == old(w).room() - len_delim_field(id, payload@).len(),
{
    proof {
        lemma_len_delim_field_len(id, payload@);
        lemma_varint_spec_len(key_spec(id, WireType::LengthDelimited));
        lemma_varint_spec_len(payload@.len() as u64);
    }
    let len = payload.len();
    write_len_delim_header(w, id, len);
    w.put_slice(payload);
    assert(final(w).wview() =~= old(w).wview() + len_delim_field(id, payload@));
}


/// Skip one whole field starting at `pos` without allocating its value:
/// the position just past its last byte, with the same boundary and error
/// behaviour as reading it.
pub fn skip_field(buf: &[u8], pos: usize) -> (r: Result<usize, DecodeError>)
    requires
        pos <= buf@.len(),
    ensures
        ({
            let sp = parse_field_spec(buf@.skip(pos as int));
            match r {
                Ok(newpos) => {
                    &&& sp is Ok
                    &&& sp->Ok_0.3 == newpos - pos
                    &&& pos < newpos <= buf@.len()
                },
                Err(e) => sp == Err::<(u32, WireType, FieldDataView, int), _>(e),
            }
        }),
{
    let ghost sview = buf@.skip(pos as int);
    let (k, p1) = match decode_varint(buf, pos) {
        Ok(kc) => kc,
        Err(e) => {
            return Err(e);
        },
    };
    let id64 = k / 8;
    if !(1 <= id64 && id64 <= MAX_FIELD_ID as u64) {
        return Err(DecodeError::InvalidWireType);
    }
    let wt = match wire_type_from_num(k % 8) {
        Some(wt) => wt,
        None => {
            return Err(DecodeError::InvalidWireType);
        },
    };
    assert(buf@.skip(pos as int).skip(p1 - pos) =~= buf@.skip(p1 as int));
    match wt {
        WireType::Varint => {
            match decode_varint(buf, p1) {
                Ok((_, p2)) => Ok(p2),
                Err(e) => Err(e),
            }
        },
        WireType::SixtyFourBit => {
            if buf.len() - p1 >= 8 {
                Ok(p1 + 8)
            } else {
                Err(DecodeError::Truncated)
            }
        },
        WireType::ThirtyTwoBit => {
            if buf.len() - p1 >= 4 {
                Ok(p1 + 4)
            } else {
                Err(DecodeError::Truncated)
            }
        },
        WireType::LengthDelimited => {
            match decode_varint(buf, p1) {
                Ok((n, p2)) => {
                    if n > (buf.len() - p2) as u64 {
                        assert(n > sview.skip(p1 - pos).len() - (p2 - p1));
                        Err(DecodeError::LengthOverflow)
                    } else {
                        Ok(p2 + n as usize)
                    }
                },
                Err(e) => Err(e),
            }
        },
    }
}

} // verus!
