use faststr::FastStr;
use pilota::buffer::{BufferChain, FlatBuf};
use pilota::mask::FieldMask;
use pilota::thrift::record::S;
use pilota::error::DecodeError;
use pilota::thrift::record::C;

fn fs(s: &str) -> FastStr {
    FastStr::new(s)
}

fn encode_c(m: &C) -> Vec<u8> {
    let mut chain = BufferChain::new();
    m.encode_raw(&mut chain);
    let mut out: Vec<u8> = Vec::new();
    chain.finalize(&mut out);
    out
}

fn encode_c_exact(m: &C) -> Vec<u8> {
    let mut buf = FlatBuf::with_exact_size(m.encoded_len());
    m.encode_raw_unchecked(&mut buf);
    buf.into_vec()
}

#[test]
fn exact_bytes_without_optional() {
    let m = C { flag: true, count: 5, id: 7, name: fs("ab"), note: None };
    let expected = vec![
        2, 0, 1, 1, // bool field 1, true
        8, 0, 2, 0, 0, 0, 5, // i32 field 2
        10, 0, 3, 0, 0, 0, 0, 0, 0, 0, 7, // i64 field 3
        11, 0, 4, 0, 0, 0, 2, 0x61, 0x62, // string field 4, "ab"
        0, // stop
    ];
    assert_eq!(encode_c(&m), expected);
}

#[test]
fn exact_bytes_with_optional() {
    let m = C { flag: false, count: 0, id: 0, name: fs(""), note: Some(fs("z")) };
    let expected = vec![
        2, 0, 1, 0, // bool field 1, false
        8, 0, 2, 0, 0, 0, 0, // i32 field 2
        10, 0, 3, 0, 0, 0, 0, 0, 0, 0, 0, // i64 field 3
        11, 0, 4, 0, 0, 0, 0, // string field 4, empty
        11, 0, 5, 0, 0, 0, 1, 0x7A, // string field 5, "z"
        0, // stop
    ];
    assert_eq!(encode_c(&m), expected);
}

#[test]
fn negative_values_use_twos_complement() {
    let m = C { flag: false, count: -2, id: -1, name: fs(""), note: None };
    let out = encode_c(&m);
    assert_eq!(&out[4..11], &[8, 0, 2, 0xFF, 0xFF, 0xFF, 0xFE]);
    assert_eq!(
        &out[11..22],
        &[10, 0, 3, 0xFF, 0xFF, 0xFF, 0xFF, 0xFF, 0xFF, 0xFF, 0xFF]
    );
}

#[test]
fn round_trip_and_dual_path() {
    for m in [
        C { flag: true, count: 5, id: 7, name: fs("ab"), note: None },
        C { flag: false, count: -2, id: -1, name: fs(""), note: Some(fs("note")) },
        C { flag: true, count: i32::MIN, id: i64::MIN, name: fs("n"), note: Some(fs("")) },
    ] {
        let safe = encode_c(&m);
        let exact = encode_c_exact(&m);
        assert_eq!(safe, exact);
        assert_eq!(m.encoded_len(), safe.len());
        assert!(m.zero_copy_len() <= m.encoded_len());
        let back = C::decode(&safe).unwrap();
        assert_eq!(back, m);
        let framed = C::decode_trusted_frame(&safe);
        assert_eq!(framed, m);
    }
}

#[test]
fn unknown_field_is_skipped_by_record() {
    // bool field with id 9, unknown to the schema, then the terminator
    let buf = vec![2, 0, 9, 1, 0];
    let m = C::decode(&buf).unwrap();
    assert_eq!(m, C { flag: false, count: 0, id: 0, name: fs(""), note: None });
}

#[test]
fn structure_end_errors() {
    // no terminator at all
    assert_eq!(
        C::decode(&[2, 0, 1, 1]),
        Err(DecodeError::MismatchedStructureEnd)
    );
    // bytes after the terminator
    assert_eq!(C::decode(&[0, 0]), Err(DecodeError::MismatchedStructureEnd));
    // empty input has no terminator either
    assert_eq!(C::decode(&[]), Err(DecodeError::MismatchedStructureEnd));
}

#[test]
fn value_errors() {
    // header cut off
    assert_eq!(C::decode(&[2, 0]), Err(DecodeError::Truncated));
    // value cut off
    assert_eq!(C::decode(&[8, 0, 2, 0, 0]), Err(DecodeError::Truncated));
    // unsupported type code
    assert_eq!(C::decode(&[7, 0, 1, 0]), Err(DecodeError::InvalidWireType));
    // a known field with the wrong type code
    assert_eq!(
        C::decode(&[8, 0, 1, 0, 0, 0, 1, 0]),
        Err(DecodeError::InvalidWireType)
    );
    // string length beyond the remaining input
    assert_eq!(
        C::decode(&[11, 0, 4, 0, 0, 0, 9, 0x61, 0]),
        Err(DecodeError::LengthOverflow)
    );
    // invalid bytes in a string payload
    assert_eq!(
        C::decode(&[11, 0, 4, 0, 0, 0, 1, 0xFF, 0]),
        Err(DecodeError::InvalidUtf8)
    );
}

#[test]
fn masked_encode_prunes_fields() {
    let m = C { flag: true, count: 5, id: 7, name: fs("ab"), note: Some(fs("z")) };
    // exclude everything but the name: only field 4 and the stop remain
    let mask = FieldMask::Partial(vec![
        (1, FieldMask::ExcludeAll),
        (2, FieldMask::ExcludeAll),
        (3, FieldMask::ExcludeAll),
        (5, FieldMask::ExcludeAll),
    ]);
    let mut chain = BufferChain::new();
    m.encode_masked(&mask, &mut chain);
    let mut out: Vec<u8> = Vec::new();
    chain.finalize(&mut out);
    assert_eq!(out, vec![11, 0, 4, 0, 0, 0, 2, 0x61, 0x62, 0]);

    // an open mask changes nothing
    let mut chain2 = BufferChain::new();
    m.encode_masked(&FieldMask::IncludeAll, &mut chain2);
    let mut out2: Vec<u8> = Vec::new();
    chain2.finalize(&mut out2);
    assert_eq!(out2, encode_c(&m));

    // excluding every field leaves only the terminator
    let mut chain3 = BufferChain::new();
    m.encode_masked(&FieldMask::ExcludeAll, &mut chain3);
    let mut out3: Vec<u8> = Vec::new();
    chain3.finalize(&mut out3);
    assert_eq!(out3, vec![0]);
}

#[test]
fn zero_copy_accounting_for_the_record() {
    let m = C { flag: true, count: 5, id: 7, name: fs("ab"), note: Some(fs("z")) };
    let size = m.encoded_len();
    let zc = m.zero_copy_len();
    assert_eq!(zc, 3);
    let mut chain = BufferChain::new();
    m.encode_zero_copy(&mut chain);
    assert_eq!(chain.current_length(), size);
    assert_eq!(chain.copied_length(), size - zc);
    let mut out: Vec<u8> = Vec::new();
    chain.finalize(&mut out);
    assert_eq!(out, encode_c(&m));
}

fn encode_s(m: &S) -> Vec<u8> {
    let mut chain = BufferChain::new();
    m.encode_raw(&mut chain);
    let mut out: Vec<u8> = Vec::new();
    chain.finalize(&mut out);
    out
}

#[test]
fn list_field_exact_bytes() {
    let m = S { labels: vec![fs("a"), fs("bc")] };
    let expected = vec![
        15, 0, 1, // list field 1
        11, // element type: string
        0, 0, 0, 2, // two elements
        0, 0, 0, 1, 0x61, // "a"
        0, 0, 0, 2, 0x62, 0x63, // "bc"
        0, // stop
    ];
    assert_eq!(encode_s(&m), expected);
}

#[test]
fn list_round_trip() {
    for m in [
        S { labels: vec![] },
        S { labels: vec![fs("")] },
        S { labels: vec![fs("a"), fs("bc"), fs("a")] },
    ] {
        let safe = encode_s(&m);
        let mut buf = FlatBuf::with_exact_size(m.encoded_len());
        m.encode_raw_unchecked(&mut buf);
        assert_eq!(safe, buf.into_vec());
        assert_eq!(m.encoded_len(), safe.len());
        let back = S::decode(&safe).unwrap();
        assert_eq!(back, m);
    }
}

#[test]
fn list_errors() {
    // element count beyond the input
    assert_eq!(
        S::decode(&[15, 0, 1, 11, 0, 0, 0, 2, 0, 0, 0, 1, 0x61, 0]),
        Err(DecodeError::Truncated)
    );
    // an element whose length exceeds the input
    assert_eq!(
        S::decode(&[15, 0, 1, 11, 0, 0, 0, 1, 0, 0, 0, 9, 0x61, 0]),
        Err(DecodeError::LengthOverflow)
    );
    // an unsupported element type
    assert_eq!(
        S::decode(&[15, 0, 1, 8, 0, 0, 0, 0, 0]),
        Err(DecodeError::InvalidWireType)
    );
    // invalid bytes in an element
    assert_eq!(
        S::decode(&[15, 0, 1, 11, 0, 0, 0, 1, 0, 0, 0, 1, 0xFF, 0]),
        Err(DecodeError::InvalidUtf8)
    );
}
