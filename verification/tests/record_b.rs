use faststr::FastStr;
use pilota::pb::encoding::WireType;
use pilota::pb::string::{A, B};
use pilota::pb::types::{decode, encode_to_vec, Message};

fn fs(s: &str) -> FastStr {
    FastStr::new(s)
}

#[test]
fn unknown_field_preserved_across_schemas() {
    // produced under the wide schema, which has field 1
    let wide = A { a: Some(fs("x")), b: fs("y") };
    let buf = encode_to_vec(&wide);

    // decoded under the narrow schema, which lacks field 1
    let narrow: B = decode(&buf).unwrap();
    assert_eq!(narrow.b, fs("y"));
    assert_eq!(narrow.unknown_fields.len(), 1);
    let kept = narrow.unknown_fields.get(0);
    assert_eq!(kept.id, 1);
    assert_eq!(kept.wire_type, WireType::LengthDelimited);
    assert_eq!(kept.bytes, vec![0x0A, 0x01, 0x78]);

    // re-encoding reproduces the unrecognized field's exact bytes
    let reencoded = encode_to_vec(&narrow);
    assert_eq!(reencoded, vec![0x12, 0x01, 0x79, 0x0A, 0x01, 0x78]);

    // and the wide schema recovers the whole record from that output
    let recovered: A = decode(&reencoded).unwrap();
    assert_eq!(recovered, wide);
}

#[test]
fn narrow_round_trip_without_unknowns() {
    let m = A { a: None, b: fs("only-b") };
    let buf = encode_to_vec(&m);
    let narrow: B = decode(&buf).unwrap();
    assert_eq!(narrow.b, fs("only-b"));
    assert_eq!(narrow.unknown_fields.len(), 0);
    assert_eq!(encode_to_vec(&narrow), buf);
}

#[test]
fn narrow_size_counts_retained_bytes() {
    let wide = A { a: Some(fs("abc")), b: fs("y") };
    let buf = encode_to_vec(&wide);
    let narrow: B = decode(&buf).unwrap();
    assert_eq!(narrow.encoded_len(), buf.len());
    assert_eq!(encode_to_vec(&narrow).len(), buf.len());
}
