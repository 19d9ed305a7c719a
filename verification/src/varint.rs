//! Variable-width integers: little-endian base-128 groups with a high
//! continuation bit, and the zigzag mapping of signed integers.

use vstd::arithmetic::div_mod::lemma_fundamental_div_mod;
use vstd::prelude::*;

use crate::error::DecodeError;

verus! {

/// The canonical byte sequence of `n` as a variable-width integer.
pub open spec fn varint_spec(n: u64) -> Seq<u8>
    decreases n,
{
    if n < 0x80 {
        seq![n as u8]
    } else {
        seq![(n % 0x80 + 0x80) as u8] + varint_spec(n / 0x80)
    }
}

/// The byte count of the canonical encoding of `n`.
pub open spec fn varint_len_spec(n: u64) -> nat
    decreases n,
{
    if n < 0x80 {
        1
    } else {
        1 + varint_len_spec(n / 0x80)
    }
}

/// Parse a variable-width integer from the front of `s`, yielding the value
/// and the number of bytes consumed.
pub open spec fn parse_varint_spec(s: Seq<u8>) -> Result<(u64, int), DecodeError>
    decreases s.len(),
{
    if s.len() == 0 {
        Err(DecodeError::Truncated)
    } else {
        let b = s[0];
        if b < 0x80 {
            Ok((b as u64, 1))
        } else {
            match parse_varint_spec(s.skip(1)) {
                Ok((v, c)) => if (b - 0x80) + v * 0x80 <= u64::MAX {
                    Ok((((b - 0x80) + v * 0x80) as u64, c + 1))
                } else {
                    Err(DecodeError::LengthOverflow)
                },
                Err(e) => Err(e),
            }
        }
    }
}

pub proof fn lemma_varint_spec_len(n: u64)
    ensures
        varint_spec(n).len() == varint_len_spec(n),
        1 <= varint_len_spec(n) <= 10,
    decreases n,
{
    if n >= 0x80 {
        lemma_varint_spec_len(n / 0x80);
        if n / 0x80 >= 0x80 {
            assert(n / 0x80 / 0x80 == n / 0x4000) by {
                vstd::arithmetic::div_mod::lemma_div_denominator(n as int, 0x80, 0x80);
            }
        }
        assert(varint_len_spec(n) <= 10) by {
            lemma_varint_len_bound(n);
        }
    }
}

proof fn lemma_varint_len_bound(n: u64)
    ensures
        varint_len_spec(n) <= 10,
{
    assert(pow128(0) == 1);
    assert(pow128(1) == 0x80);
    assert(pow128(2) == 0x4000);
    assert(pow128(3) == 0x20_0000);
    assert(pow128(4) == 0x1000_0000);
    assert(pow128(5) == 0x8_0000_0000);
    assert(pow128(6) == 0x400_0000_0000);
    assert(pow128(7) == 0x2_0000_0000_0000);
    assert(pow128(8) == 0x100_0000_0000_0000);
    assert(pow128(9) == 0x8000_0000_0000_0000);
    assert(pow128(10) == 0x40_0000_0000_0000_0000);
    lemma_varint_len_small(n, 10);
}

/// If `n` fits in `7 * k` bits then its encoding takes at most `k` bytes.
proof fn lemma_varint_len_small(n: u64, k: nat)
    requires
        k >= 1,
        n < pow128(k),
    ensures
        varint_len_spec(n) <= k,
    decreases k,
{
    if n >= 0x80 {
        assert(n / 0x80 < pow128((k - 1) as nat)) by {
            vstd::arithmetic::div_mod::lemma_multiply_divide_lt(
                n as int,
                0x80,
                pow128((k - 1) as nat),
            );
        }
        lemma_varint_len_small(n / 0x80, (k - 1) as nat);
    }
}

/// `128^k`, the count of values whose encoding fits in `k` bytes.
pub open spec fn pow128(k: nat) -> int
    decreases k,
{
    if k == 0 {
        1
    } else {
        0x80 * pow128((k - 1) as nat)
    }
}

/// Parsing inverts printing: the canonical encoding of `n`, followed by
/// anything, parses back to `n`, consuming exactly the encoding.
pub proof fn lemma_varint_round_trip(n: u64, rest: Seq<u8>)
    ensures
        parse_varint_spec(varint_spec(n) + rest) == Ok::<(u64, int), DecodeError>(
            (n, varint_len_spec(n) as int),
        ),
    decreases n,
{
    let s = varint_spec(n) + rest;
    if n < 0x80 {
        assert(s[0] == n as u8);
    } else {
        lemma_varint_round_trip(n / 0x80, rest);
        assert(s.skip(1) =~= varint_spec(n / 0x80) + rest);
        assert(s[0] == (n % 0x80 + 0x80) as u8);
        let b = s[0];
        assert(b - 0x80 == n % 0x80);
        lemma_fundamental_div_mod(n as int, 0x80);
        assert((b - 0x80) + (n / 0x80) * 0x80 == n);
    }
}

/// Decode a variable-width integer starting at `pos`; on success the new
/// position follows the last byte read.
pub fn decode_varint(buf: &[u8], pos: usize) -> (r: Result<(u64, usize), DecodeError>)
    requires
        pos <= buf@.len(),
    ensures
        match r {
            Ok((v, newpos)) => {
                &&& parse_varint_spec(buf@.skip(pos as int)) == Ok::<(u64, int), DecodeError>(
                    (v, newpos - pos),
                )
                &&& pos < newpos <= buf@.len()
            },
            Err(e) => parse_varint_spec(buf@.skip(pos as int)) == Err::<(u64, int), DecodeError>(e),
        },
    decreases buf@.len() - pos,
{
    if pos == buf.len() {
        assert(buf@.skip(pos as int).len() == 0);
        return Err(DecodeError::Truncated);
    }
    let b = buf[pos];
    assert(b == buf@.skip(pos as int)[0]);
    if b < 0x80 {
        Ok((b as u64, pos + 1))
    } else {
        match decode_varint(buf, pos + 1) {
            Ok((v, newpos)) => {
                assert(buf@.skip(pos as int).skip(1) =~= buf@.skip(pos as int + 1));
                if v <= (u64::MAX - (b - 0x80) as u64) / 0x80 {
                    proof {
                        lemma_fundamental_div_mod(u64::MAX - (b - 0x80) as u64, 0x80);
                    }
                    Ok(((b - 0x80) as u64 + v * 0x80, newpos))
                } else {
                    proof {
                        lemma_fundamental_div_mod(u64::MAX - (b - 0x80) as u64, 0x80);
                    }
                    Err(DecodeError::LengthOverflow)
                }
            },
            Err(e) => {
                assert(buf@.skip(pos as int).skip(1) =~= buf@.skip(pos as int + 1));
                Err(e)
            },
        }
    }
}

/// The zigzag image of a signed integer: non-negative values map to evens,
/// negative values to odds.
pub open spec fn zigzag_spec(n: i64) -> u64 {
    if n >= 0 {
        (2 * n) as u64
    } else {
        (-2 * n - 1) as u64
    }
}

/// Map a signed integer to its zigzag image.
pub fn zigzag(n: i64) -> (r: u64)
    ensures
        r == zigzag_spec(n),
{
    if n >= 0 {
        2 * (n as u64)
    } else {
        let m = (-(n + 1)) as u64;
        2 * m + 1
    }
}

/// Invert the zigzag mapping.
pub fn unzigzag(z: u64) -> (r: i64)
    ensures
        zigzag_spec(r) == z,
        r == unzigzag_spec(z),
{
    if z % 2 == 0 {
        (z / 2) as i64
    } else {
        let h = z / 2;
        proof {
            lemma_fundamental_div_mod(z as int, 2);
        }
        -(h as i64) - 1
    }
}

/// The signed integer whose zigzag image is `z`.
pub open spec fn unzigzag_spec(z: u64) -> i64 {
    if z % 2 == 0 {
        (z / 2) as i64
    } else {
        (-(z / 2) - 1) as i64
    }
}

/// The zigzag mapping is a bijection: decoding after encoding returns the
/// original value.
pub proof fn lemma_zigzag_round_trip(n: i64)
    ensures
        unzigzag_spec(zigzag_spec(n)) == n,
{
    lemma_fundamental_div_mod(zigzag_spec(n) as int, 2);
}

/// The two's-complement image of a signed 64-bit integer, used when a plain
/// (non-zigzag) signed field is carried as a variable-width integer.
pub open spec fn u64_of_i64(n: i64) -> u64 {
    if n >= 0 {
        n as u64
    } else {
        (n + 0x1_0000_0000_0000_0000) as u64
    }
}

/// The signed value carried by a two's-complement image.
pub open spec fn i64_of_u64(u: u64) -> i64 {
    if u <= i64::MAX as u64 {
        u as i64
    } else {
        (u - 0x1_0000_0000_0000_0000) as i64
    }
}

/// Map a signed 64-bit integer to its two's-complement image.
pub fn i64_to_u64(n: i64) -> (r: u64)
    ensures
        r == u64_of_i64(n),
{
    if n >= 0 {
        n as u64
    } else {
        let m = (-(n + 1)) as u64;
        u64::MAX - m
    }
}

/// Recover a signed 64-bit integer from its two's-complement image.
pub fn u64_to_i64(u: u64) -> (r: i64)
    ensures
        r == i64_of_u64(u),
        u64_of_i64(r) == u,
{
    if u <= i64::MAX as u64 {
        u as i64
    } else {
        let m = u64::MAX - u;
        -(m as i64) - 1
    }
}

/// The two's-complement mapping is a bijection on 64-bit values.
pub proof fn lemma_i64_u64_round_trip(n: i64)
    ensures
        i64_of_u64(u64_of_i64(n)) == n,
{
}


/// The byte count of the canonical variable-width encoding of `n`.
pub fn varint_len(n: u64) -> (r: usize)
    ensures
        r == varint_len_spec(n),
        1 <= r <= 10,
    decreases n,
{
    proof {
        lemma_varint_spec_len(n);
    }
    if n < 0x80 {
        1
    } else {
        proof {
            lemma_varint_spec_len(n / 0x80);
        }
        1 + varint_len(n / 0x80)
    }
}

/// The sign-extended two's-complement image of a signed 32-bit integer.
pub open spec fn u64_of_i32(n: i32) -> u64 {
    u64_of_i64(n as i64)
}

/// The signed 32-bit value carried by the low 32 bits of `u`.
pub open spec fn i32_of_u64(u: u64) -> i32 {
    let low = u % 0x1_0000_0000;
    if low <= i32::MAX {
        low as i32
    } else {
        (low - 0x1_0000_0000) as i32
    }
}

/// Map a signed 32-bit integer to its sign-extended image.
pub fn i32_to_u64(n: i32) -> (r: u64)
    ensures
        r == u64_of_i32(n),
{
    i64_to_u64(n as i64)
}

/// Recover a signed 32-bit integer from the low 32 bits of an image.
pub fn u64_to_i32(u: u64) -> (r: i32)
    ensures
        r == i32_of_u64(u),
{
    let low = u % 0x1_0000_0000;
    if low <= i32::MAX as u64 {
        low as i32
    } else {
        let m = 0x1_0000_0000u64 - low;
        let v: i64 = -(m as i64);
        v as i32
    }
}

/// Sign extension round trips through the low 32 bits.
pub proof fn lemma_i32_u64_round_trip(n: i32)
    ensures
        i32_of_u64(u64_of_i32(n)) == n,
{
    if n >= 0 {
        lemma_fundamental_div_mod(n as int, 0x1_0000_0000);
        vstd::arithmetic::div_mod::lemma_small_mod(n as nat, 0x1_0000_0000);
    } else {
        let x = (n + 0x1_0000_0000_0000_0000) as u64;
        assert(x % 0x1_0000_0000 == n + 0x1_0000_0000) by {
            vstd::arithmetic::div_mod::lemma_fundamental_div_mod_converse(
                x as int,
                0x1_0000_0000,
                0xFFFF_FFFF,
                n + 0x1_0000_0000,
            );
        }
    }
}


/// The encoding of a smaller value is never longer.
pub proof fn lemma_varint_len_monotone(m: u64, n: u64)
    requires
        m <= n,
    ensures
        varint_len_spec(m) <= varint_len_spec(n),
    decreases n,
{
    lemma_varint_spec_len(m);
    lemma_varint_spec_len(n);
    if m >= 0x80 {
        assert(m / 0x80 <= n / 0x80) by {
            vstd::arithmetic::div_mod::lemma_div_is_ordered(m as int, n as int, 0x80);
        }
        lemma_varint_len_monotone(m / 0x80, n / 0x80);
    }
}

} // verus!
