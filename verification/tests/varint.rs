use pilota::error::DecodeError;
use pilota::pb::encoding::write_varint;
use pilota::varint::{decode_varint, i32_to_u64, i64_to_u64, u64_to_i32, u64_to_i64, unzigzag, varint_len, zigzag};

fn varint_bytes(n: u64) -> Vec<u8> {
    let mut v: Vec<u8> = Vec::new();
    write_varint(&mut v, n);
    v
}

#[test]
fn varint_small_values() {
    assert_eq!(varint_bytes(0), vec![0x00]);
    assert_eq!(varint_bytes(1), vec![0x01]);
    assert_eq!(varint_bytes(127), vec![0x7F]);
    assert_eq!(varint_bytes(128), vec![0x80, 0x01]);
    assert_eq!(varint_bytes(300), vec![0xAC, 0x02]);
}

#[test]
fn varint_max_value() {
    let v = varint_bytes(u64::MAX);
    assert_eq!(v.len(), 10);
    assert_eq!(
        v,
        vec![0xFF, 0xFF, 0xFF, 0xFF, 0xFF, 0xFF, 0xFF, 0xFF, 0xFF, 0x01]
    );
}

#[test]
fn varint_len_matches_encoding() {
    for n in [0u64, 1, 127, 128, 16383, 16384, 300, u64::MAX, u64::MAX - 1] {
        assert_eq!(varint_len(n), varint_bytes(n).len());
    }
}

#[test]
fn varint_round_trip_exec() {
    for n in [0u64, 1, 127, 128, 255, 300, 16384, 1 << 62, u64::MAX] {
        let v = varint_bytes(n);
        let (value, newpos) = decode_varint(&v, 0).unwrap();
        assert_eq!(value, n);
        assert_eq!(newpos, v.len());
    }
}

#[test]
fn varint_truncated() {
    assert_eq!(decode_varint(&[], 0), Err(DecodeError::Truncated));
    assert_eq!(decode_varint(&[0x80], 0), Err(DecodeError::Truncated));
}

#[test]
fn varint_over_long() {
    let v = [0xFF, 0xFF, 0xFF, 0xFF, 0xFF, 0xFF, 0xFF, 0xFF, 0xFF, 0x02];
    assert_eq!(decode_varint(&v, 0), Err(DecodeError::LengthOverflow));
}

#[test]
fn zigzag_values() {
    assert_eq!(zigzag(0), 0);
    assert_eq!(zigzag(-1), 1);
    assert_eq!(zigzag(1), 2);
    assert_eq!(zigzag(-2), 3);
    assert_eq!(zigzag(2), 4);
    assert_eq!(zigzag(i64::MIN), u64::MAX);
    assert_eq!(zigzag(i64::MAX), u64::MAX - 1);
}

#[test]
fn zigzag_round_trip_exec() {
    for n in [0i64, 1, -1, 2, -2, i64::MAX, i64::MIN, 123456789, -123456789] {
        assert_eq!(unzigzag(zigzag(n)), n);
    }
}

#[test]
fn twos_complement_round_trips() {
    for n in [0i64, 1, -1, i64::MAX, i64::MIN] {
        assert_eq!(u64_to_i64(i64_to_u64(n)), n);
    }
    for n in [0i32, 1, -1, i32::MAX, i32::MIN] {
        assert_eq!(u64_to_i32(i32_to_u64(n)), n);
    }
    assert_eq!(i64_to_u64(-1), u64::MAX);
    assert_eq!(i32_to_u64(-1), u64::MAX);
}
