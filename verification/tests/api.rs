use alkahest::deserialize;
use alkahest::formula_fast_sizes;
use alkahest::serialize;
use alkahest::serialized_size;
use alkahest::Deserializer;
use alkahest::Formula;
use alkahest::Serializer;
use alkahest::Skip;
use alkahest::Value;

fn encode(f: &Formula, v: &Value, w: usize) -> Vec<u8> {
    let total = serialized_size(f, v, w);
    let mut buf = vec![0u8; total];
    serialize(f, v, w, &mut buf).expect("buffer was sized to fit");
    buf
}

#[test]
fn serializer_write_value_matches_serialize() {
    let f = Formula::Text;
    let v = Value::Text(b"hi".to_vec());
    let mut ser = Serializer::new(4, 8);
    ser.write_value(&f, &v);
    let (bytes, stack, heap) = ser.finish();
    assert_eq!((stack, heap), (8, 2));
    assert_eq!(bytes, encode(&f, &v, 4));
}

#[test]
fn serializer_write_bytes_is_raw_heap_copy() {
    let mut ser = Serializer::new(4, 0);
    ser.write_bytes(b"abc");
    let (bytes, stack, heap) = ser.finish();
    assert_eq!((stack, heap), (0, 3));
    assert_eq!(bytes, b"abc".to_vec());
}

#[test]
fn serializer_write_ref_matches_reference_formula() {
    let inner = Formula::Blob;
    let v = Value::Blob(vec![1, 2]);
    let mut ser = Serializer::new(4, 8);
    ser.write_ref(&inner, &v);
    let (bytes, _, _) = ser.finish();
    let f = Formula::RefTo(Box::new(Formula::Blob));
    assert_eq!(bytes, encode(&f, &v, 4));
}

#[test]
fn serializer_two_fields_in_order() {
    // Writing a tuple's fields one by one gives the tuple's encoding.
    let f = Formula::Tuple(vec![Formula::U8, Formula::Text]);
    let v = Value::Tuple(vec![Value::U8(7), Value::Text(b"xy".to_vec())]);
    let mut ser = Serializer::new(4, 9);
    ser.write_value(&Formula::U8, &Value::U8(7));
    ser.write_value(&Formula::Text, &Value::Text(b"xy".to_vec()));
    let (bytes, stack, heap) = ser.finish();
    assert_eq!((stack, heap), (9, 2));
    assert_eq!(bytes, encode(&f, &v, 4));
}

#[test]
fn deserializer_walks_fields_sequentially() {
    let f = Formula::Tuple(vec![Formula::U32, Formula::Text]);
    let v = Value::Tuple(vec![Value::U32(9), Value::Text(b"hi".to_vec())]);
    let buf = encode(&f, &v, 4);
    let mut de = Deserializer::new(&buf);
    let first = de.deserialize(&Formula::U32, 4).unwrap();
    assert_eq!(first, Value::U32(9));
    let second = de.deserialize(&Formula::Text, 4).unwrap();
    assert_eq!(second, Value::Text(b"hi".to_vec()));
}

#[test]
fn skip_advances_exactly_like_decode() {
    // Skipping the first field then decoding the second sees the same
    // bytes a full decode of both would.
    let f = Formula::Tuple(vec![Formula::Text, Formula::U32]);
    let v = Value::Tuple(vec![Value::Text(b"skipped".to_vec()), Value::U32(11)]);
    let buf = encode(&f, &v, 4);

    let mut with_skip = Deserializer::new(&buf);
    with_skip.skip_value(&Formula::Text, 4).unwrap();
    let pos_after_skip = with_skip.pos;
    let second = with_skip.deserialize(&Formula::U32, 4).unwrap();
    assert_eq!(second, Value::U32(11));

    let mut with_decode = Deserializer::new(&buf);
    with_decode.deserialize(&Formula::Text, 4).unwrap();
    assert_eq!(with_decode.pos, pos_after_skip);
}

#[test]
fn skip_detects_errors_like_decode() {
    // Invalid text fails a skip with the same error a decode gives.
    let buf = vec![8u8, 0, 0, 0, 1, 0, 0, 0, 0xFF];
    let mut de = Deserializer::new(&buf);
    let r = de.skip_value(&Formula::Text, 4);
    assert_eq!(r, Err(alkahest::DeserializeError::BadUtf8));
    assert_eq!(de.pos, 0);
}

#[test]
fn skip_type_deserializes_to_nothing() {
    let f = Formula::List(Box::new(Formula::U32));
    let v = Value::List(vec![Value::U32(1), Value::U32(2)]);
    let buf = encode(&f, &v, 4);
    let mut de = Deserializer::new(&buf);
    let skip: Skip = Skip::deserialize(&mut de, &f, 4).unwrap();
    let _ = skip;
    assert_eq!(de.pos, 8);
}

#[test]
fn into_iter_exposes_count_and_elements() {
    let f = Formula::List(Box::new(Formula::U32));
    let v = Value::List(vec![Value::U32(4), Value::U32(5), Value::U32(6)]);
    let buf = encode(&f, &v, 4);
    let mut de = Deserializer::new(&buf);
    let mut it = de.into_iter(&Formula::U32, 4).unwrap();
    assert_eq!(it.len(), 3);
    assert_eq!(it.next(), Some(Ok(Value::U32(4))));
    assert_eq!(it.next(), Some(Ok(Value::U32(5))));
    assert_eq!(it.len(), 1);
    assert_eq!(it.next(), Some(Ok(Value::U32(6))));
    assert_eq!(it.next(), None);
}

#[test]
fn lazy_defers_and_then_decodes() {
    let f = Formula::Text;
    let v = Value::Text(b"later".to_vec());
    let buf = encode(&f, &v, 4);
    let mut de = Deserializer::new(&buf);
    let lz = de.lazy(&f, 4).unwrap();
    assert_eq!(de.pos, 8);
    assert_eq!(lz.get().unwrap(), v);
}

#[test]
fn deserialize_in_place_refills_a_sequence() {
    let f = Formula::List(Box::new(Formula::U16));
    let old = Value::List(vec![Value::U16(1), Value::U16(2), Value::U16(3)]);
    let new = Value::List(vec![Value::U16(9), Value::U16(8)]);
    let buf = encode(&f, &new, 4);
    let mut place = old;
    let mut de = Deserializer::new(&buf);
    de.deserialize_in_place(&f, 4, &mut place).unwrap();
    assert_eq!(place, new);
}

#[test]
fn deserialize_in_place_replaces_other_shapes() {
    let f = Formula::U32;
    let buf = encode(&f, &Value::U32(77), 4);
    let mut place = Value::Bool(false);
    let mut de = Deserializer::new(&buf);
    de.deserialize_in_place(&f, 4, &mut place).unwrap();
    assert_eq!(place, Value::U32(77));
}

#[test]
fn deref_scopes_to_exact_range() {
    let f = Formula::RefTo(Box::new(Formula::Blob));
    let v = Value::Blob(vec![10, 20, 30]);
    let buf = encode(&f, &v, 4);
    let mut de = Deserializer::new(&buf);
    let mut sub = de.deref(4).unwrap();
    assert_eq!(de.pos, 8);
    assert_eq!(sub.read_all_bytes(), &[10, 20, 30]);
}

#[test]
fn formula_queries_report_layout() {
    let prim_pair = Formula::Tuple(vec![Formula::U32, Formula::U8]);
    assert_eq!(prim_pair.max_stack_size(4), Some(5));
    assert!(prim_pair.exact_size());
    assert!(prim_pair.heapless());
    assert_eq!(formula_fast_sizes(&prim_pair, 4), Some(5));

    let text = Formula::Text;
    assert_eq!(text.max_stack_size(4), Some(8));
    assert_eq!(text.max_stack_size(2), Some(4));
    assert!(text.exact_size());
    assert!(!text.heapless());
    assert_eq!(formula_fast_sizes(&text, 4), None);

    let opt = Formula::Maybe(Box::new(Formula::U64));
    assert_eq!(opt.max_stack_size(4), Some(12));
    assert!(!opt.exact_size());
    assert!(opt.heapless());

    assert_eq!(Formula::Blob.max_stack_size(4), None);
}

#[test]
fn non_ref_strips_one_reference_layer() {
    let f = Formula::RefTo(Box::new(Formula::U32));
    assert!(matches!(f.non_ref(), Formula::U32));
    let l = Formula::List(Box::new(Formula::Text));
    assert!(matches!(l.non_ref(), Formula::Text));
    assert!(matches!(Formula::U8.non_ref(), Formula::U8));
}

#[test]
fn formula_check_accepts_and_rejects() {
    // Well-formedness is the runtime gate for every codec entry point.
    let good = Formula::Tuple(vec![
        Formula::U32,
        Formula::List(Box::new(Formula::Text)),
        Formula::Maybe(Box::new(Formula::U8)),
    ]);
    assert!(good.check(4));

    // Raw inline bytes are unsized: they cannot be a tuple field, an
    // array element, or a sequence element.
    assert!(!Formula::Tuple(vec![Formula::Blob, Formula::U8]).check(4));
    assert!(!Formula::List(Box::new(Formula::Blob)).check(4));
    // Sequence elements must be exact-size so they pack at a stride.
    assert!(!Formula::List(Box::new(Formula::Maybe(Box::new(Formula::U8)))).check(4));
    // Behind a reference, raw bytes are fine.
    assert!(Formula::RefTo(Box::new(Formula::Blob)).check(4));
}

#[test]
fn into_iter_over_heapful_elements() {
    let f = Formula::List(Box::new(Formula::Text));
    let v = Value::List(vec![
        Value::Text(b"one".to_vec()),
        Value::Text(b"two".to_vec()),
    ]);
    let buf = encode(&f, &v, 4);
    let mut de = Deserializer::new(&buf);
    let mut it = de.into_iter(&Formula::Text, 4).unwrap();
    assert_eq!(it.len(), 2);
    assert_eq!(it.next(), Some(Ok(Value::Text(b"one".to_vec()))));
    assert_eq!(it.next(), Some(Ok(Value::Text(b"two".to_vec()))));
    assert_eq!(it.next(), None);
}

#[test]
fn widest_words_layout() {
    // 8-byte reference words double the pair, nothing else moves.
    let f = Formula::Text;
    let v = Value::Text(b"w".to_vec());
    let buf = encode(&f, &v, 8);
    assert_eq!(
        buf,
        vec![16, 0, 0, 0, 0, 0, 0, 0, 1, 0, 0, 0, 0, 0, 0, 0, b'w']
    );
    let (back, _) = deserialize(&f, 8, &buf).unwrap();
    assert_eq!(back, v);
}

#[test]
fn in_place_refill_shrinks_a_longer_sequence() {
    let f = Formula::List(Box::new(Formula::U8));
    let longer = Value::List((0..10).map(|_| Value::U8(1)).collect());
    let shorter = Value::List(vec![Value::U8(3), Value::U8(4)]);
    let buf = encode(&f, &shorter, 2);
    let mut place = longer;
    let mut de = Deserializer::new(&buf);
    de.deserialize_in_place(&f, 2, &mut place).unwrap();
    assert_eq!(place, shorter);
}

#[test]
fn into_iter_rejects_short_or_overreaching_sequences() {
    // A view too short for the reference pair.
    let short = vec![1u8, 2, 3];
    let mut de = Deserializer::new(&short);
    let r = de.into_iter(&Formula::U32, 4);
    assert!(matches!(r, Err(alkahest::DeserializeError::OutOfBounds)));
    assert_eq!(de.pos, 0);

    // A pair whose count reaches past the end of the view.
    let overreach = vec![8u8, 0, 0, 0, 9, 0, 0, 0];
    let mut de = Deserializer::new(&overreach);
    let r = de.into_iter(&Formula::U32, 4);
    assert!(matches!(r, Err(alkahest::DeserializeError::OutOfBounds)));
    assert_eq!(de.pos, 0);
}

#[test]
fn failed_in_place_refill_appends_decoded_prefix() {
    // A sequence refill pushes elements as they decode; when one
    // fails, the prior contents remain with the successfully decoded
    // prefix appended after them, and the element's error surfaces.
    // Layout (4-byte words): pair (8, 2), two 8-byte element slots,
    // then the payloads "a" (valid) and 0xFF (invalid).
    let f = Formula::List(Box::new(Formula::Text));
    let mut bad = vec![8u8, 0, 0, 0, 2, 0, 0, 0];
    bad.extend_from_slice(&[16, 0, 0, 0, 1, 0, 0, 0]);
    bad.extend_from_slice(&[9, 0, 0, 0, 1, 0, 0, 0]);
    bad.push(b'a');
    bad.push(0xFF);
    let mut place = Value::List(vec![Value::Text(b"old".to_vec())]);
    let mut de = Deserializer::new(&bad);
    let r = de.deserialize_in_place(&f, 4, &mut place);
    assert_eq!(r, Err(alkahest::DeserializeError::BadUtf8));
    assert_eq!(
        place,
        Value::List(vec![
            Value::Text(b"old".to_vec()),
            Value::Text(b"a".to_vec()),
        ])
    );
    assert_eq!(de.pos, 0);
}

#[test]
fn failed_in_place_refill_on_bad_bounds_keeps_old_contents() {
    // When the reference pair itself is unreadable, no element was
    // decoded: the sequence target keeps exactly its old contents.
    let f = Formula::List(Box::new(Formula::U32));
    let short = vec![1u8, 2, 3];
    let mut place = Value::List(vec![Value::U32(5)]);
    let mut de = Deserializer::new(&short);
    let r = de.deserialize_in_place(&f, 4, &mut place);
    assert_eq!(r, Err(alkahest::DeserializeError::OutOfBounds));
    assert_eq!(place, Value::List(vec![Value::U32(5)]));
}

#[test]
fn failed_in_place_text_decode_leaves_target_empty() {
    // A text target is cleared before decoding, so a failure leaves it
    // empty and the error is propagated unchanged.
    let bad = vec![8u8, 0, 0, 0, 1, 0, 0, 0, 0xFF];
    let mut place = Value::Text(b"old".to_vec());
    let mut de = Deserializer::new(&bad);
    let r = de.deserialize_in_place(&Formula::Text, 4, &mut place);
    assert_eq!(r, Err(alkahest::DeserializeError::BadUtf8));
    assert_eq!(place, Value::Text(vec![]));
    assert_eq!(de.pos, 0);
}

#[test]
fn in_place_text_refill_succeeds() {
    let f = Formula::Text;
    let v = Value::Text(b"fresh".to_vec());
    let buf = encode(&f, &v, 4);
    let mut place = Value::Text(b"stale".to_vec());
    let mut de = Deserializer::new(&buf);
    de.deserialize_in_place(&f, 4, &mut place).unwrap();
    assert_eq!(place, v);
    assert_eq!(de.pos, 8);
}

#[test]
fn failed_in_place_decode_leaves_other_targets_untouched() {
    let f = Formula::U32;
    let too_short = vec![1u8, 2];
    let mut place = Value::U32(42);
    let mut de = Deserializer::new(&too_short);
    let r = de.deserialize_in_place(&f, 4, &mut place);
    assert_eq!(r, Err(alkahest::DeserializeError::OutOfBounds));
    assert_eq!(place, Value::U32(42));
}

#[test]
fn exactly_fitting_buffer_is_never_rejected() {
    // The overflow signal is only raised for a strictly short buffer,
    // and then always carries a positive byte count.
    let f = Formula::Text;
    let v = Value::Text(b"snug".to_vec());
    let total = serialized_size(&f, &v, 4);
    let mut buf = vec![0u8; total];
    assert!(serialize(&f, &v, 4, &mut buf).is_ok());
    let mut small = vec![0u8; total - 1];
    assert_eq!(serialize(&f, &v, 4, &mut small), Err(1));
}
