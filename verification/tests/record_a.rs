use faststr::FastStr;
use pilota::buffer::BufferChain;
use pilota::error::DecodeError;
use pilota::mask::FieldMask;
use pilota::pb::string::A;
use pilota::pb::types::{decode, encode_to_vec, encode_to_vec_exact, Message};

fn fs(s: &str) -> FastStr {
    FastStr::new(s)
}

#[test]
fn scenario_optional_absent() {
    let m = A { a: None, b: fs("hi") };
    assert_eq!(encode_to_vec(&m), vec![0x12, 0x02, 0x68, 0x69]);
}

#[test]
fn scenario_optional_present() {
    let m = A { a: Some(fs("x")), b: fs("y") };
    assert_eq!(encode_to_vec(&m), vec![0x0A, 0x01, 0x78, 0x12, 0x01, 0x79]);
}

#[test]
fn round_trip_both_shapes() {
    for m in [
        A { a: None, b: fs("hi") },
        A { a: Some(fs("x")), b: fs("y") },
        A { a: Some(fs("")), b: fs("") },
        A { a: None, b: fs("") },
    ] {
        let buf = encode_to_vec(&m);
        let back: A = decode(&buf).unwrap();
        assert_eq!(back, m);
    }
}

#[test]
fn safe_and_unchecked_paths_are_byte_identical() {
    for m in [
        A { a: None, b: fs("hi") },
        A { a: Some(fs("abcdef")), b: fs("0123456789") },
        A { a: Some(fs("")), b: fs("") },
    ] {
        assert_eq!(encode_to_vec(&m), encode_to_vec_exact(&m));
    }
}

#[test]
fn size_is_exact() {
    for m in [
        A { a: None, b: fs("hi") },
        A { a: Some(fs("x")), b: fs("y") },
        A { a: Some(fs("a longer value here")), b: fs("and another one") },
    ] {
        assert_eq!(m.encoded_len(), encode_to_vec(&m).len());
    }
}

#[test]
fn zero_copy_accounting() {
    let m = A { a: Some(fs("x")), b: fs("y") };
    let size = m.encoded_len();
    let zc = m.zero_copy_len();
    assert!(zc <= size);
    assert_eq!(size, 6);
    assert_eq!(zc, 2);

    let mut chain = BufferChain::new();
    m.encode_zero_copy(&mut chain);
    assert_eq!(chain.current_length(), size);
    assert_eq!(chain.copied_length(), size - zc);

    let mut out: Vec<u8> = Vec::new();
    chain.finalize(&mut out);
    assert_eq!(out, encode_to_vec(&m));
}

#[test]
fn masked_encode_prunes_excluded_field() {
    let m = A { a: Some(fs("x")), b: fs("y") };
    let exclude_a = FieldMask::Partial(vec![(1, FieldMask::ExcludeAll)]);
    let mut chain = BufferChain::new();
    m.encode_masked(&exclude_a, &mut chain);
    let mut out: Vec<u8> = Vec::new();
    chain.finalize(&mut out);
    assert_eq!(out, encode_to_vec(&A { a: None, b: fs("y") }));

    let exclude_both = FieldMask::ExcludeAll;
    let mut chain2 = BufferChain::new();
    m.encode_masked(&exclude_both, &mut chain2);
    let mut out2: Vec<u8> = Vec::new();
    chain2.finalize(&mut out2);
    assert_eq!(out2, Vec::<u8>::new());

    let include_all = FieldMask::IncludeAll;
    let mut chain3 = BufferChain::new();
    m.encode_masked(&include_all, &mut chain3);
    let mut out3: Vec<u8> = Vec::new();
    chain3.finalize(&mut out3);
    assert_eq!(out3, encode_to_vec(&m));
}

#[test]
fn unknown_field_is_skipped() {
    // field 3 (varint) is unknown to A and skipped; field 2 still lands
    let buf = vec![0x18, 0x05, 0x12, 0x01, 0x79];
    let m: A = decode(&buf).unwrap();
    assert_eq!(m, A { a: None, b: fs("y") });
}

#[test]
fn decode_errors() {
    // truncated: length prefix missing
    assert_eq!(decode::<A>(&[0x12]), Err::<A, _>(DecodeError::Truncated));
    // length prefix larger than the remaining input
    assert_eq!(
        decode::<A>(&[0x12, 0x05, 0x68]),
        Err::<A, _>(DecodeError::LengthOverflow)
    );
    // a varint value for the string field
    assert_eq!(
        decode::<A>(&[0x08, 0x01]),
        Err::<A, _>(DecodeError::InvalidWireType)
    );
    // invalid bytes in a string payload
    assert_eq!(
        decode::<A>(&[0x0A, 0x01, 0xFF]),
        Err::<A, _>(DecodeError::InvalidUtf8)
    );
}

#[test]
fn last_field_wins_on_duplicates() {
    let buf = vec![0x12, 0x01, 0x79, 0x12, 0x01, 0x7A];
    let m: A = decode(&buf).unwrap();
    assert_eq!(m, A { a: None, b: fs("z") });
}

#[test]
fn masked_decode_skips_without_examining() {
    // field 1 holds invalid string bytes; excluded by the mask, it is
    // stepped over without being checked, and field 2 still lands
    let buf = vec![0x0A, 0x01, 0xFF, 0x12, 0x01, 0x79];
    let exclude_a = FieldMask::Partial(vec![(1, FieldMask::ExcludeAll)]);
    let m = A::decode_masked(&buf, &exclude_a).unwrap();
    assert_eq!(m, A { a: None, b: fs("y") });
    // without the mask the same bytes are rejected
    assert_eq!(decode::<A>(&buf), Err::<A, _>(DecodeError::InvalidUtf8));
    // an including mask decodes everything
    let all = FieldMask::IncludeAll;
    let good = vec![0x0A, 0x01, 0x78, 0x12, 0x01, 0x79];
    let m2 = A::decode_masked(&good, &all).unwrap();
    assert_eq!(m2, A { a: Some(fs("x")), b: fs("y") });
}
