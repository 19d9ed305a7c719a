use faststr::FastStr;
use pilota::buffer::BufferChain;
use pilota::error::DecodeError;
use pilota::mask::FieldMask;
use pilota::pb::nested::N;
use pilota::pb::string::A;
use pilota::pb::types::{decode, encode_to_vec, encode_to_vec_exact, Message};

fn fs(s: &str) -> FastStr {
    FastStr::new(s)
}

fn sample() -> N {
    N { inner: Some(A { a: Some(fs("x")), b: fs("y") }), tag: fs("t") }
}

#[test]
fn nested_exact_bytes() {
    // inner record "x"/"y" is 6 bytes, carried length-prefixed as field 1
    let expected = vec![
        0x0A, 0x06, 0x0A, 0x01, 0x78, 0x12, 0x01, 0x79, // field 1: embedded A
        0x12, 0x01, 0x74, // field 2: "t"
    ];
    assert_eq!(encode_to_vec(&sample()), expected);
}

#[test]
fn nested_round_trip() {
    for m in [
        sample(),
        N { inner: None, tag: fs("only") },
        N { inner: Some(A { a: None, b: fs("") }), tag: fs("") },
    ] {
        let safe = encode_to_vec(&m);
        let exact = encode_to_vec_exact(&m);
        assert_eq!(safe, exact);
        assert_eq!(m.encoded_len(), safe.len());
        let back: N = decode(&safe).unwrap();
        assert_eq!(back, m);
    }
}

#[test]
fn nested_error_propagates_from_the_inner_frame() {
    // the embedded frame holds invalid string bytes for the inner field 2
    let buf = vec![0x0A, 0x03, 0x12, 0x01, 0xFF, 0x12, 0x01, 0x74];
    assert_eq!(decode::<N>(&buf), Err::<N, _>(DecodeError::InvalidUtf8));
    // the embedded frame's length exceeds the input
    let buf2 = vec![0x0A, 0x09, 0x12];
    assert_eq!(decode::<N>(&buf2), Err::<N, _>(DecodeError::LengthOverflow));
}

#[test]
fn nested_mask_prunes_at_depth() {
    let m = sample();
    // exclude the embedded record's own field 1, two levels down
    let mask = FieldMask::Partial(vec![(
        1,
        FieldMask::Partial(vec![(1, FieldMask::ExcludeAll)]),
    )]);
    let mut chain = BufferChain::new();
    m.encode_masked(&mask, &mut chain);
    let mut out: Vec<u8> = Vec::new();
    chain.finalize(&mut out);
    let pruned = N { inner: Some(A { a: None, b: fs("y") }), tag: fs("t") };
    assert_eq!(out, encode_to_vec(&pruned));

    // exclude the whole embedded record
    let mask2 = FieldMask::Partial(vec![(1, FieldMask::ExcludeAll)]);
    let mut chain2 = BufferChain::new();
    m.encode_masked(&mask2, &mut chain2);
    let mut out2: Vec<u8> = Vec::new();
    chain2.finalize(&mut out2);
    assert_eq!(out2, encode_to_vec(&N { inner: None, tag: fs("t") }));

    // an open mask changes nothing
    let mut chain3 = BufferChain::new();
    m.encode_masked(&FieldMask::IncludeAll, &mut chain3);
    let mut out3: Vec<u8> = Vec::new();
    chain3.finalize(&mut out3);
    assert_eq!(out3, encode_to_vec(&m));
}

#[test]
fn masked_size_pass_matches_masked_output() {
    let m = A { a: Some(fs("x")), b: fs("y") };
    let mask = FieldMask::Partial(vec![(1, FieldMask::ExcludeAll)]);
    let mut chain = BufferChain::new();
    m.encode_masked(&mask, &mut chain);
    assert_eq!(m.encoded_len_masked(&mask), chain.current_length());
    assert_eq!(m.encoded_len_masked(&FieldMask::IncludeAll), m.encoded_len());
}
