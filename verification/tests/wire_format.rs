use linux_tuples_client::{decode_tuple, encode_tuple, string_area_fits, ti, ciot, DecodeError, E};

fn s(x: &str) -> E {
    E::S(x.to_string())
}

fn d(x: f64) -> E {
    E::D(x.to_bits())
}

fn same(a: &[E], b: &[E]) -> bool {
    if a.len() != b.len() {
        return false;
    }
    for (x, y) in a.iter().zip(b.iter()) {
        let eq = match (x, y) {
            (E::I(p), E::I(q)) => p == q,
            (E::D(p), E::D(q)) => p == q,
            (E::S(p), E::S(q)) => p == q,
            (E::Wildcard, E::Wildcard) => true,
            _ => false,
        };
        if !eq {
            return false;
        }
    }
    true
}

fn header(count: i32, strings: i32) -> Vec<u8> {
    let mut v = count.to_le_bytes().to_vec();
    v.extend_from_slice(&strings.to_le_bytes());
    v
}

fn record(tag: u8, field8: [u8; 8], field16: [u8; 8]) -> Vec<u8> {
    let mut r = vec![tag, 0, 0, 0, 0, 0, 0, 0];
    r.extend_from_slice(&field8);
    r.extend_from_slice(&field16);
    r
}

#[test]
fn ti_is_little_endian() {
    assert_eq!(ti(1), [1, 0, 0, 0]);
    assert_eq!(ti(-1), [255, 255, 255, 255]);
    assert_eq!(ti(0x01020304), [4, 3, 2, 1]);
}

#[test]
fn ciot_reads_back_ti() {
    for v in [0, 7, -1, i32::MIN, i32::MAX, 123456789] {
        assert_eq!(ciot(&ti(v), 0), v);
    }
}

#[test]
fn encode_exact_bytes_with_reused_record_buffer() {
    let tuple = vec![E::I(10), d(10.1), s("123")];
    let bytes = encode_tuple(&tuple);
    let mut want = header(3, 3);
    want.extend(record(b'i', [10, 0, 0, 0, 0, 0, 0, 0], [0; 8]));
    want.extend(record(b'd', [51, 51, 51, 51, 51, 51, 36, 64], [0; 8]));
    // The string record keeps the upper half of the double that the buffer held before.
    want.extend(record(b's', [0, 0, 0, 0, 51, 51, 36, 64], [3, 0, 0, 0, 0, 0, 0, 0]));
    want.extend_from_slice(b"123");
    assert_eq!(bytes, want);
}

#[test]
fn encode_string_offsets() {
    let tuple = vec![s("12789"), E::I(10), d(5.0), s("1234")];
    let bytes = encode_tuple(&tuple);
    assert_eq!(bytes.len(), 8 + 4 * 24 + 9);
    assert_eq!(ciot(&bytes, 0), 4);
    assert_eq!(ciot(&bytes, 4), 9);
    let last = 8 + 3 * 24;
    assert_eq!(ciot(&bytes, last), 115);
    assert_eq!(ciot(&bytes, last + 8), 5);
    assert_eq!(ciot(&bytes, last + 16), 4);
    assert_eq!(&bytes[bytes.len() - 9..], b"127891234");
}

#[test]
fn encode_wildcard_writes_only_its_tag() {
    let tuple = vec![E::I(7), E::Wildcard];
    let bytes = encode_tuple(&tuple);
    let mut want = header(2, 0);
    want.extend(record(b'i', [7, 0, 0, 0, 0, 0, 0, 0], [0; 8]));
    want.extend(record(b'?', [7, 0, 0, 0, 0, 0, 0, 0], [0; 8]));
    assert_eq!(bytes, want);
}

#[test]
fn roundtrip_mixed_tuple() {
    let tuple = vec![s("Nested tuple"), E::I(-5), d(2.1), s(""), s("äöü"), E::I(i32::MAX)];
    let bytes = encode_tuple(&tuple);
    let (back, used) = decode_tuple(&bytes).unwrap();
    assert!(same(&back, &tuple));
    assert_eq!(used, bytes.len());
}

#[test]
fn roundtrip_ignores_following_bytes() {
    let tuple = vec![s("abc"), E::I(1)];
    let mut bytes = encode_tuple(&tuple);
    let len = bytes.len();
    bytes.extend_from_slice(&[9, 9, 9, 9, 9]);
    let (back, used) = decode_tuple(&bytes).unwrap();
    assert!(same(&back, &tuple));
    assert_eq!(used, len);
}

#[test]
fn roundtrip_empty_strings_only() {
    let tuple = vec![s(""), s("")];
    let bytes = encode_tuple(&tuple);
    assert_eq!(ciot(&bytes, 4), 0);
    let (back, used) = decode_tuple(&bytes).unwrap();
    assert!(same(&back, &tuple));
    assert_eq!(used, bytes.len());
}

#[test]
fn roundtrip_empty_tuple() {
    let tuple: Vec<E> = vec![];
    let bytes = encode_tuple(&tuple);
    assert_eq!(bytes, header(0, 0));
    let (back, used) = decode_tuple(&bytes).unwrap();
    assert!(back.is_empty());
    assert_eq!(used, 8);
}

#[test]
fn decode_no_match_answer() {
    let (back, used) = decode_tuple(&[255, 255, 255, 255]).unwrap();
    assert!(back.is_empty());
    assert_eq!(used, 4);
}

#[test]
fn decode_drops_received_wildcard() {
    let bytes = encode_tuple(&vec![s("ab"), E::Wildcard]);
    let (back, _) = decode_tuple(&bytes).unwrap();
    assert!(same(&back, &[s("ab")]));
}

#[test]
fn decode_wildcard_before_string_misses_element() {
    let bytes = encode_tuple(&vec![E::Wildcard, s("ab")]);
    assert_eq!(decode_tuple(&bytes).err(), Some(DecodeError::MissingElement));
}

#[test]
fn decode_unknown_tag_skipped_without_strings() {
    let mut bytes = header(2, 0);
    bytes.extend(record(b'x', [0; 8], [0; 8]));
    bytes.extend(record(b'i', [3, 0, 0, 0, 0, 0, 0, 0], [0; 8]));
    let (back, used) = decode_tuple(&bytes).unwrap();
    assert!(same(&back, &[E::I(3)]));
    assert_eq!(used, 56);
}

#[test]
fn decode_unknown_tag_with_strings_misses_descriptor() {
    let mut bytes = header(2, 1);
    bytes.extend(record(b's', [0; 8], [1, 0, 0, 0, 0, 0, 0, 0]));
    bytes.extend(record(b'x', [0; 8], [0; 8]));
    bytes.push(b'z');
    assert_eq!(decode_tuple(&bytes).err(), Some(DecodeError::MissingDescriptor));
}

#[test]
fn decode_truncated() {
    assert_eq!(decode_tuple(&[1, 0]).err(), Some(DecodeError::Truncated));
    assert_eq!(decode_tuple(&[1, 0, 0, 0, 0]).err(), Some(DecodeError::Truncated));
    let bytes = encode_tuple(&vec![s("abc")]);
    assert_eq!(decode_tuple(&bytes[..bytes.len() - 1]).err(), Some(DecodeError::Truncated));
}

#[test]
fn decode_negative_string_length() {
    let bytes = header(0, -3);
    assert_eq!(decode_tuple(&bytes).err(), Some(DecodeError::NegativeStringLength));
}

#[test]
fn decode_negative_count_reads_no_records() {
    let bytes = header(-7, 0);
    let (back, used) = decode_tuple(&bytes).unwrap();
    assert!(back.is_empty());
    assert_eq!(used, 8);
}

#[test]
fn decode_bad_string_range() {
    let mut bytes = header(1, 2);
    bytes.extend(record(b's', [1, 0, 0, 0, 0, 0, 0, 0], [2, 0, 0, 0, 0, 0, 0, 0]));
    bytes.extend_from_slice(b"ab");
    assert_eq!(decode_tuple(&bytes).err(), Some(DecodeError::BadStringRange));
    let mut bytes = header(1, 2);
    bytes.extend(record(b's', [255, 255, 255, 255, 0, 0, 0, 0], [1, 0, 0, 0, 0, 0, 0, 0]));
    bytes.extend_from_slice(b"ab");
    assert_eq!(decode_tuple(&bytes).err(), Some(DecodeError::BadStringRange));
}

#[test]
fn decode_invalid_utf8() {
    let mut bytes = header(1, 2);
    bytes.extend(record(b's', [0; 8], [2, 0, 0, 0, 0, 0, 0, 0]));
    bytes.extend_from_slice(&[0xff, 0xfe]);
    assert_eq!(decode_tuple(&bytes).err(), Some(DecodeError::InvalidUtf8));
}

#[test]
fn decode_valid_utf8_string() {
    let mut bytes = header(1, 4);
    bytes.extend(record(b's', [1, 0, 0, 0, 0, 0, 0, 0], [2, 0, 0, 0, 0, 0, 0, 0]));
    bytes.extend_from_slice(&[b'x', 0xc3, 0xa9, b'y']);
    let (back, used) = decode_tuple(&bytes).unwrap();
    assert!(same(&back, &[s("é")]));
    assert_eq!(used, 36);
}

#[test]
fn string_area_fits_small_tuple() {
    assert!(string_area_fits(&vec![s("abc"), E::I(1)]));
    assert!(string_area_fits(&vec![]));
}
