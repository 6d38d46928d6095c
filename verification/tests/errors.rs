use alkahest::deserialize;
use alkahest::DeserializeError;
use alkahest::Formula;

#[test]
fn short_fixed_read_is_out_of_bounds() {
    let buf = vec![1u8, 2, 3];
    let r = deserialize(&Formula::U32, 4, &buf);
    assert_eq!(r, Err(DeserializeError::OutOfBounds));
}

#[test]
fn reference_past_end_is_out_of_bounds() {
    // A reference pair claiming (offset 8, length 4) in an 8-byte view.
    let buf = vec![8u8, 0, 0, 0, 4, 0, 0, 0];
    let f = Formula::RefTo(Box::new(Formula::Blob));
    let r = deserialize(&f, 4, &buf);
    assert_eq!(r, Err(DeserializeError::OutOfBounds));
}

#[test]
fn unknown_optional_tag_is_bad_discriminant() {
    let buf = vec![5u8, 0, 0, 0];
    let f = Formula::Maybe(Box::new(Formula::U32));
    let r = deserialize(&f, 4, &buf);
    assert_eq!(r, Err(DeserializeError::BadDiscriminant));
}

#[test]
fn unknown_union_tag_is_bad_discriminant() {
    let buf = vec![2u8, 0, 0, 0, 0, 0, 0, 0];
    let f = Formula::Union(vec![Formula::U32, Formula::U32]);
    let r = deserialize(&f, 4, &buf);
    assert_eq!(r, Err(DeserializeError::BadDiscriminant));
}

#[test]
fn invalid_text_bytes_are_bad_utf8() {
    // A lone continuation byte is never valid UTF-8.
    let buf = vec![8u8, 0, 0, 0, 1, 0, 0, 0, 0x80];
    let r = deserialize(&Formula::Text, 4, &buf);
    assert_eq!(r, Err(DeserializeError::BadUtf8));
}

#[test]
fn overlong_text_encoding_is_bad_utf8() {
    // 0xC0 0xAF is an overlong encoding of '/': rejected.
    let buf = vec![8u8, 0, 0, 0, 2, 0, 0, 0, 0xC0, 0xAF];
    let r = deserialize(&Formula::Text, 4, &buf);
    assert_eq!(r, Err(DeserializeError::BadUtf8));
}

#[test]
fn surrogate_text_encoding_is_bad_utf8() {
    // 0xED 0xA0 0x80 encodes the surrogate U+D800: rejected.
    let buf = vec![8u8, 0, 0, 0, 3, 0, 0, 0, 0xED, 0xA0, 0x80];
    let r = deserialize(&Formula::Text, 4, &buf);
    assert_eq!(r, Err(DeserializeError::BadUtf8));
}

#[test]
fn wrong_fixed_payload_length_is_size_mismatch() {
    // A reference to a 4-byte exact formula whose stored length says 3.
    let buf = vec![8u8, 0, 0, 0, 3, 0, 0, 0, 7, 0, 0];
    let f = Formula::RefTo(Box::new(Formula::U32));
    let r = deserialize(&f, 4, &buf);
    assert_eq!(r, Err(DeserializeError::SizeMismatch));
}

#[test]
fn nested_element_error_propagates() {
    // A sequence whose second element holds invalid text: the element
    // error surfaces from the sequence decode.
    // Layout (w = 4): pair (8, 2), two 8-byte element slots, then the
    // two payloads: "a" (valid) and 0xFF (invalid).
    let mut buf = vec![8u8, 0, 0, 0, 2, 0, 0, 0];
    buf.extend_from_slice(&[16, 0, 0, 0, 1, 0, 0, 0]);
    buf.extend_from_slice(&[9, 0, 0, 0, 1, 0, 0, 0]);
    buf.push(b'a');
    buf.push(0xFF);
    let f = Formula::List(Box::new(Formula::Text));
    let r = deserialize(&f, 4, &buf);
    assert_eq!(r, Err(DeserializeError::BadUtf8));
}

#[test]
fn empty_buffer_fails_for_sized_formula() {
    let buf: Vec<u8> = vec![];
    let r = deserialize(&Formula::Bool, 4, &buf);
    assert_eq!(r, Err(DeserializeError::OutOfBounds));
}
