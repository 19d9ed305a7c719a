use bytes::Bytes;
use faststr::FastStr;
use pilota::error::DecodeError;
use pilota::pb::types::{decode, decode_trusted_frame, encode_to_vec, encode_to_vec_exact, Message};

fn check_round_trip<M: Message + PartialEq + std::fmt::Debug>(m: M) {
    let safe = encode_to_vec(&m);
    let exact = encode_to_vec_exact(&m);
    assert_eq!(safe, exact);
    assert_eq!(m.encoded_len(), safe.len());
    let back: M = decode(&safe).unwrap();
    assert_eq!(back, m);
}

#[test]
fn bool_wrapper_default_elision() {
    assert_eq!(encode_to_vec(&false), Vec::<u8>::new());
    assert_eq!(encode_to_vec(&true), vec![0x08, 0x01]);
    assert_eq!(decode::<bool>(&[]), Ok(false));
    assert_eq!(decode::<bool>(&[0x08, 0x01]), Ok(true));
    check_round_trip(true);
    check_round_trip(false);
}

#[test]
fn u64_wrapper() {
    assert_eq!(encode_to_vec(&0u64), Vec::<u8>::new());
    assert_eq!(encode_to_vec(&5u64), vec![0x08, 0x05]);
    assert_eq!(encode_to_vec(&300u64), vec![0x08, 0xAC, 0x02]);
    check_round_trip(0u64);
    check_round_trip(300u64);
    check_round_trip(u64::MAX);
}

#[test]
fn u32_wrapper() {
    assert_eq!(encode_to_vec(&7u32), vec![0x08, 0x07]);
    check_round_trip(0u32);
    check_round_trip(7u32);
    check_round_trip(u32::MAX);
}

#[test]
fn i64_wrapper_negative_is_ten_bytes() {
    let v = encode_to_vec(&-1i64);
    assert_eq!(v.len(), 11);
    assert_eq!(
        v,
        vec![0x08, 0xFF, 0xFF, 0xFF, 0xFF, 0xFF, 0xFF, 0xFF, 0xFF, 0xFF, 0x01]
    );
    check_round_trip(-1i64);
    check_round_trip(i64::MIN);
    check_round_trip(i64::MAX);
}

#[test]
fn i32_wrapper_sign_extends() {
    let v = encode_to_vec(&-1i32);
    assert_eq!(
        v,
        vec![0x08, 0xFF, 0xFF, 0xFF, 0xFF, 0xFF, 0xFF, 0xFF, 0xFF, 0xFF, 0x01]
    );
    check_round_trip(-1i32);
    check_round_trip(i32::MIN);
    check_round_trip(i32::MAX);
}

#[test]
fn string_wrapper() {
    let s = FastStr::new("hi");
    assert_eq!(encode_to_vec(&s), vec![0x0A, 0x02, 0x68, 0x69]);
    assert_eq!(encode_to_vec(&FastStr::new("")), Vec::<u8>::new());
    assert_eq!(decode::<FastStr>(&[]), Ok(FastStr::new("")));
    check_round_trip(FastStr::new("hello world"));
}

#[test]
fn bytes_wrappers() {
    let v: Vec<u8> = vec![1, 2, 3];
    assert_eq!(encode_to_vec(&v), vec![0x0A, 0x03, 1, 2, 3]);
    check_round_trip(v);
    check_round_trip(Vec::<u8>::new());
    let b = Bytes::from(vec![9u8, 8, 7]);
    assert_eq!(encode_to_vec(&b), vec![0x0A, 0x03, 9, 8, 7]);
    let back: Bytes = decode(&encode_to_vec(&b)).unwrap();
    assert_eq!(back, b);
}

#[test]
fn wrapper_decode_errors() {
    assert_eq!(decode::<u64>(&[0x08]), Err::<u64, _>(DecodeError::Truncated));
    // wire type 2 where the value would demand a payload that is not there
    assert_eq!(
        decode::<u64>(&[0x0A, 0x05, 0x01]),
        Err::<u64, _>(DecodeError::LengthOverflow)
    );
    // field key with the reserved group wire type
    assert_eq!(
        decode::<u64>(&[0x0B]),
        Err::<u64, _>(DecodeError::InvalidWireType)
    );
    // a length-delimited value handed to a varint wrapper
    assert_eq!(
        decode::<u64>(&[0x0A, 0x01, 0x41]),
        Err::<u64, _>(DecodeError::InvalidWireType)
    );
    // invalid bytes in a string payload
    assert_eq!(
        decode::<FastStr>(&[0x0A, 0x01, 0xFF]),
        Err::<FastStr, _>(DecodeError::InvalidUtf8)
    );
}

#[test]
fn trusted_frame_matches_checked_decode() {
    let s = FastStr::new("frame");
    let buf = encode_to_vec(&s);
    let unchecked: FastStr = decode_trusted_frame(&buf);
    let checked: FastStr = decode(&buf).unwrap();
    assert_eq!(unchecked, checked);
}

#[test]
fn unknown_field_is_skipped_by_wrappers() {
    // field 3, varint 5: unknown to every wrapper, skipped without effect
    assert_eq!(decode::<u64>(&[0x18, 0x05]), Ok(0u64));
    assert_eq!(decode::<bool>(&[0x18, 0x05, 0x08, 0x01]), Ok(true));
}

#[test]
fn empty_message_ignores_every_field() {
    assert_eq!(encode_to_vec(&()), Vec::<u8>::new());
    assert_eq!(decode::<()>(&[]), Ok(()));
    assert_eq!(decode::<()>(&[0x08, 0x01, 0x12, 0x00]), Ok(()));
    // field boundaries are still validated while skipping
    assert_eq!(decode::<()>(&[0x08]), Err::<(), _>(DecodeError::Truncated));
}
