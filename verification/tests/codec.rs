use alkahest::deserialize;
use alkahest::serialize;
use alkahest::serialized_size;
use alkahest::size_hint;
use alkahest::Formula;
use alkahest::Value;

fn encode(f: &Formula, v: &Value, w: usize) -> Vec<u8> {
    let total = serialized_size(f, v, w);
    let mut buf = vec![0u8; total];
    let (s, h) = serialize(f, v, w, &mut buf).expect("buffer was sized to fit");
    assert_eq!(s + h, total);
    buf
}

#[test]
fn list_of_three_u32_layout() {
    // A growable sequence of three 4-byte integers behind a reference
    // pair with 4-byte words: 8 stack bytes, 12 heap bytes.
    let f = Formula::List(Box::new(Formula::U32));
    let v = Value::List(vec![Value::U32(1), Value::U32(2), Value::U32(3)]);
    let total = serialized_size(&f, &v, 4);
    assert_eq!(total, 20);
    let mut buf = vec![0u8; 20];
    let (s, h) = serialize(&f, &v, 4, &mut buf).unwrap();
    assert_eq!((s, h), (8, 12));
    assert_eq!(
        buf,
        vec![8, 0, 0, 0, 3, 0, 0, 0, 1, 0, 0, 0, 2, 0, 0, 0, 3, 0, 0, 0]
    );
    let (back, end) = deserialize(&f, 4, &buf).unwrap();
    assert_eq!(end, 8);
    assert_eq!(back, v);
}

#[test]
fn text_hi_layout_and_round_trip() {
    // Text "hi": two heap bytes, decoded back equal.
    let f = Formula::Text;
    let v = Value::Text(b"hi".to_vec());
    let buf = encode(&f, &v, 4);
    assert_eq!(buf, vec![8, 0, 0, 0, 2, 0, 0, 0, b'h', b'i']);
    let (back, _) = deserialize(&f, 4, &buf).unwrap();
    assert_eq!(back, v);
}

#[test]
fn text_zero_copy_borrow() {
    // Dereferencing the text's reference yields a borrowed view of
    // exactly the heap bytes, no copy.
    let f = Formula::Text;
    let v = Value::Text(b"hi".to_vec());
    let buf = encode(&f, &v, 4);
    let mut de = alkahest::Deserializer::new(&buf);
    let mut sub = de.deref(4).unwrap();
    let borrowed = sub.read_all_bytes();
    assert_eq!(borrowed, b"hi");
}

#[test]
fn absent_optional_is_discriminant_only() {
    // An absent optional consumes only its 4-byte discriminant.
    let f = Formula::Maybe(Box::new(Formula::U32));
    let v = Value::Nothing;
    let buf = encode(&f, &v, 4);
    assert_eq!(buf, vec![0, 0, 0, 0]);
    let (back, end) = deserialize(&f, 4, &buf).unwrap();
    assert_eq!(end, 4);
    assert_eq!(back, Value::Nothing);
}

#[test]
fn present_optional_round_trip() {
    let f = Formula::Maybe(Box::new(Formula::U16));
    let v = Value::Just(Box::new(Value::U16(300)));
    let buf = encode(&f, &v, 4);
    assert_eq!(buf, vec![1, 0, 0, 0, 44, 1]);
    let (back, _) = deserialize(&f, 4, &buf).unwrap();
    assert_eq!(back, v);
}

#[test]
fn truncated_heap_is_bounds_violation() {
    // Cutting one byte off the heap region must be detected as an
    // out-of-bounds reference, never a crash or a wrong value.
    let f = Formula::List(Box::new(Formula::U32));
    let v = Value::List(vec![Value::U32(1), Value::U32(2), Value::U32(3)]);
    let mut buf = encode(&f, &v, 4);
    buf.pop();
    let r = deserialize(&f, 4, &buf);
    assert_eq!(r, Err(alkahest::DeserializeError::OutOfBounds));
}

#[test]
fn truncated_text_is_bounds_violation() {
    let f = Formula::Text;
    let v = Value::Text(b"hi".to_vec());
    let mut buf = encode(&f, &v, 4);
    buf.pop();
    let r = deserialize(&f, 4, &buf);
    assert_eq!(r, Err(alkahest::DeserializeError::OutOfBounds));
}

#[test]
fn union_decode_follows_stored_discriminant() {
    // Encoding the second variant and decoding yields the second
    // variant: the decode path is keyed by the discriminant actually
    // in the buffer, not by any caller expectation.
    let f = Formula::Union(vec![
        Formula::Tuple(vec![Formula::U8]),
        Formula::Tuple(vec![Formula::U32]),
    ]);
    let v = Value::Variant(1, Box::new(Value::Tuple(vec![Value::U32(7)])));
    let buf = encode(&f, &v, 4);
    let (back, _) = deserialize(&f, 4, &buf).unwrap();
    match back {
        Value::Variant(d, payload) => {
            assert_eq!(d, 1);
            assert_eq!(*payload, Value::Tuple(vec![Value::U32(7)]));
        }
        other => panic!("expected a variant, got {:?}", other),
    }
}

#[test]
fn union_both_variants_round_trip() {
    let f = Formula::Union(vec![Formula::U8, Formula::Text]);
    for v in [
        Value::Variant(0, Box::new(Value::U8(9))),
        Value::Variant(1, Box::new(Value::Text(b"abc".to_vec()))),
    ] {
        let buf = encode(&f, &v, 4);
        let (back, _) = deserialize(&f, 4, &buf).unwrap();
        assert_eq!(back, v);
    }
}

#[test]
fn primitives_round_trip_every_width() {
    let cases: Vec<(Formula, Value)> = vec![
        (Formula::Bool, Value::Bool(true)),
        (Formula::Bool, Value::Bool(false)),
        (Formula::U8, Value::U8(255)),
        (Formula::U16, Value::U16(65535)),
        (Formula::U32, Value::U32(0xDEADBEEF)),
        (Formula::U64, Value::U64(0x0102030405060708)),
    ];
    for w in [1usize, 2, 4, 8] {
        for (f, v) in &cases {
            let buf = encode(f, v, w);
            let (back, _) = deserialize(f, w, &buf).unwrap();
            assert_eq!(&back, v);
        }
    }
}

#[test]
fn nested_list_of_text_round_trip() {
    // Sequence elements that themselves own heap content: each slot is
    // a reference pair, payloads follow the packed slots.
    let f = Formula::List(Box::new(Formula::Text));
    let v = Value::List(vec![
        Value::Text(b"ab".to_vec()),
        Value::Text(b"c".to_vec()),
        Value::Text(b"".to_vec()),
    ]);
    for w in [2usize, 4, 8] {
        let buf = encode(&f, &v, w);
        let (back, _) = deserialize(&f, w, &buf).unwrap();
        assert_eq!(back, v);
    }
}

#[test]
fn tuple_and_array_round_trip() {
    let f = Formula::Tuple(vec![
        Formula::U8,
        Formula::Array(Box::new(Formula::U16), 3),
        Formula::Text,
    ]);
    let v = Value::Tuple(vec![
        Value::U8(5),
        Value::List(vec![Value::U16(10), Value::U16(20), Value::U16(30)]),
        Value::Text("héllo".as_bytes().to_vec()),
    ]);
    let buf = encode(&f, &v, 4);
    let (back, _) = deserialize(&f, 4, &buf).unwrap();
    assert_eq!(back, v);
}

#[test]
fn explicit_reference_round_trip() {
    let f = Formula::RefTo(Box::new(Formula::Blob));
    let v = Value::Blob(vec![1, 2, 3, 4, 5]);
    let buf = encode(&f, &v, 4);
    assert_eq!(buf, vec![8, 0, 0, 0, 5, 0, 0, 0, 1, 2, 3, 4, 5]);
    let (back, end) = deserialize(&f, 4, &buf).unwrap();
    assert_eq!(end, 8);
    assert_eq!(back, v);
}

#[test]
fn bare_blob_takes_rest_of_view() {
    let f = Formula::Blob;
    let v = Value::Blob(vec![9, 8, 7]);
    let buf = encode(&f, &v, 4);
    assert_eq!(buf, vec![9, 8, 7]);
    let (back, end) = deserialize(&f, 4, &buf).unwrap();
    assert_eq!(end, 3);
    assert_eq!(back, v);
}

#[test]
fn empty_list_and_empty_text() {
    let lf = Formula::List(Box::new(Formula::U64));
    let lv = Value::List(vec![]);
    let buf = encode(&lf, &lv, 4);
    assert_eq!(buf.len(), 8);
    assert_eq!(deserialize(&lf, 4, &buf).unwrap().0, lv);

    let tf = Formula::Text;
    let tv = Value::Text(vec![]);
    let buf = encode(&tf, &tv, 2);
    assert_eq!(buf, vec![4, 0, 0, 0]);
    assert_eq!(deserialize(&tf, 2, &buf).unwrap().0, tv);
}

#[test]
fn size_hint_matches_bytes_written() {
    // Whenever the hint is definite it equals the exact count written.
    let f = Formula::Tuple(vec![Formula::Text, Formula::U32]);
    let v = Value::Tuple(vec![
        Value::Text(b"sizing".to_vec()),
        Value::U32(1),
    ]);
    let hint = size_hint(&f, &v, 4).expect("encodable value has a definite hint");
    let buf = encode(&f, &v, 4);
    assert_eq!(hint, buf.len());
}

#[test]
fn size_hint_rejects_mismatched_shape() {
    assert_eq!(size_hint(&Formula::U32, &Value::Bool(true), 4), None);
}

#[test]
fn size_hint_rejects_narrow_width() {
    // 300 heap bytes cannot be addressed by 1-byte reference words.
    let f = Formula::Text;
    let v = Value::Text(vec![b'x'; 300]);
    assert_eq!(size_hint(&f, &v, 1), None);
    assert!(size_hint(&f, &v, 2).is_some());
}

#[test]
fn heapless_values_ignore_the_width_bound() {
    // A heapless encoding writes no reference words, so its size is
    // not limited by the word width: 300 inline bytes encode and
    // decode fine with 1-byte words.
    let f = Formula::Array(Box::new(Formula::U8), 300);
    let v = Value::List((0..300).map(|i| Value::U8((i % 251) as u8)).collect());
    assert_eq!(size_hint(&f, &v, 1), Some(300));
    let buf = encode(&f, &v, 1);
    assert_eq!(buf.len(), 300);
    let (back, end) = deserialize(&f, 1, &buf).unwrap();
    assert_eq!(end, 300);
    assert_eq!(back, v);
}

#[test]
fn serialize_reports_missing_bytes_and_retries() {
    // The overflow signal carries exactly the number of additional
    // bytes required, so one grow-and-retry succeeds.
    let f = Formula::Text;
    let v = Value::Text(b"grow me".to_vec());
    let total = serialized_size(&f, &v, 4);
    let mut buf = vec![0u8; 3];
    let extra = serialize(&f, &v, 4, &mut buf).unwrap_err();
    assert_eq!(extra, total - 3);
    let mut buf = vec![0u8; 3 + extra];
    assert!(serialize(&f, &v, 4, &mut buf).is_ok());
    let (back, _) = deserialize(&f, 4, &buf).unwrap();
    assert_eq!(back, v);
}

#[test]
fn relocated_copy_decodes_identically() {
    // Offsets are self-relative: a verbatim copy in a fresh allocation
    // decodes to the same value.
    let f = Formula::List(Box::new(Formula::Text));
    let v = Value::List(vec![
        Value::Text(b"moved".to_vec()),
        Value::Text(b"around".to_vec()),
    ]);
    let buf = encode(&f, &v, 4);
    let copy: Vec<u8> = buf.iter().copied().collect();
    let (a, pa) = deserialize(&f, 4, &buf).unwrap();
    let (b, pb) = deserialize(&f, 4, &copy).unwrap();
    assert_eq!(a, b);
    assert_eq!(pa, pb);
}

#[test]
fn bool_decodes_any_nonzero_as_true() {
    let buf = vec![7u8];
    let (back, _) = deserialize(&Formula::Bool, 4, &buf).unwrap();
    assert_eq!(back, Value::Bool(true));
}

#[test]
fn serialize_preserves_bytes_past_the_encoding() {
    // Writing into a larger buffer touches only the encoding's bytes.
    let f = Formula::U32;
    let v = Value::U32(0x01020304);
    let mut buf = vec![0xAAu8; 7];
    let (s, h) = serialize(&f, &v, 4, &mut buf).unwrap();
    assert_eq!((s, h), (4, 0));
    assert_eq!(buf, vec![4, 3, 2, 1, 0xAA, 0xAA, 0xAA]);
}

#[test]
fn width_check_accepts_the_four_widths() {
    assert!(alkahest::width_ok(1));
    assert!(alkahest::width_ok(2));
    assert!(alkahest::width_ok(4));
    assert!(alkahest::width_ok(8));
    assert!(!alkahest::width_ok(0));
    assert!(!alkahest::width_ok(3));
    assert!(!alkahest::width_ok(16));
}
