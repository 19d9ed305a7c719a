use faststr::FastStr;
use pilota::error::DecodeError;
use pilota::pb::string::R;
use pilota::pb::types::{decode, encode_to_vec, encode_to_vec_exact, Message};

fn fs(s: &str) -> FastStr {
    FastStr::new(s)
}

#[test]
fn repeated_field_exact_bytes() {
    let m = R { items: vec![fs("x"), fs("yz")] };
    assert_eq!(
        encode_to_vec(&m),
        vec![0x0A, 0x01, 0x78, 0x0A, 0x02, 0x79, 0x7A]
    );
    assert_eq!(encode_to_vec(&R { items: vec![] }), Vec::<u8>::new());
}

#[test]
fn repeated_field_round_trip() {
    for m in [
        R { items: vec![] },
        R { items: vec![fs("")] },
        R { items: vec![fs("x"), fs("yz"), fs("x")] },
    ] {
        let safe = encode_to_vec(&m);
        let exact = encode_to_vec_exact(&m);
        assert_eq!(safe, exact);
        assert_eq!(m.encoded_len(), safe.len());
        let back: R = decode(&safe).unwrap();
        assert_eq!(back, m);
    }
}

#[test]
fn each_occurrence_appends_in_order() {
    let buf = vec![0x0A, 0x01, 0x61, 0x18, 0x05, 0x0A, 0x01, 0x62];
    let m: R = decode(&buf).unwrap();
    assert_eq!(m, R { items: vec![fs("a"), fs("b")] });
}

#[test]
fn repeated_field_errors() {
    assert_eq!(
        decode::<R>(&[0x0A, 0x01, 0xFF]),
        Err::<R, _>(DecodeError::InvalidUtf8)
    );
    assert_eq!(
        decode::<R>(&[0x08, 0x01]),
        Err::<R, _>(DecodeError::InvalidWireType)
    );
}
