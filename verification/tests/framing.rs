use linux_tuples_client::{
    decode_tuple, decode_tuples, dump_bytes_needed, encode_tuple, tuple_bytes_needed, DecodeError,
    E,
};

fn s(x: &str) -> E {
    E::S(x.to_string())
}

fn dump_of(tuples: &[Vec<E>]) -> Vec<u8> {
    let mut v = (tuples.len() as i32).to_le_bytes().to_vec();
    for t in tuples {
        v.extend(encode_tuple(t));
    }
    v
}

#[test]
fn tuple_needed_walks_to_end_of_message() {
    let bytes = encode_tuple(&vec![s("hello"), E::I(4)]);
    let mut have: Vec<u8> = vec![];
    let mut steps = 0;
    loop {
        let need = tuple_bytes_needed(&have).unwrap() as usize;
        if need == 0 {
            break;
        }
        assert!(have.len() + need <= bytes.len());
        have.extend_from_slice(&bytes[have.len()..have.len() + need]);
        steps += 1;
    }
    assert_eq!(have, bytes);
    assert_eq!(steps, 3);
}

#[test]
fn tuple_needed_values() {
    assert_eq!(tuple_bytes_needed(&[]), Ok(4));
    assert_eq!(tuple_bytes_needed(&[2, 0]), Ok(2));
    assert_eq!(tuple_bytes_needed(&[255, 255, 255, 255]), Ok(0));
    assert_eq!(tuple_bytes_needed(&[2, 0, 0, 0]), Ok(4));
    assert_eq!(tuple_bytes_needed(&[2, 0, 0, 0, 5, 0, 0, 0]), Ok(48 + 5));
    assert_eq!(
        tuple_bytes_needed(&[0, 0, 0, 0, 255, 255, 255, 255]),
        Err(DecodeError::NegativeStringLength)
    );
}

#[test]
fn dump_roundtrip() {
    let tuples = vec![vec![E::I(10), s("123")], vec![], vec![s("x"), E::D(0)]];
    let bytes = dump_of(&tuples);
    assert_eq!(dump_bytes_needed(&bytes), Ok(0));
    let (back, used) = decode_tuples(&bytes).unwrap();
    assert_eq!(used, bytes.len());
    assert_eq!(back.len(), 3);
    assert!(matches!(back[0][0], E::I(10)));
    assert!(matches!(&back[0][1], E::S(x) if x == "123"));
    assert!(back[1].is_empty());
    assert!(matches!(&back[2][0], E::S(x) if x == "x"));
    assert!(matches!(back[2][1], E::D(0)));
}

#[test]
fn dump_needed_walks_to_end() {
    let tuples = vec![vec![s("ab")], vec![E::I(3), s("cde")]];
    let bytes = dump_of(&tuples);
    let mut have: Vec<u8> = vec![];
    loop {
        let need = dump_bytes_needed(&have).unwrap() as usize;
        if need == 0 {
            break;
        }
        assert!(have.len() + need <= bytes.len());
        have.extend_from_slice(&bytes[have.len()..have.len() + need]);
    }
    assert_eq!(have, bytes);
}

#[test]
fn dump_with_no_match_answers() {
    let bytes = vec![2, 0, 0, 0, 255, 255, 255, 255, 255, 255, 255, 255];
    assert_eq!(dump_bytes_needed(&bytes), Ok(0));
    let (back, used) = decode_tuples(&bytes).unwrap();
    assert_eq!(back.len(), 2);
    assert!(back[0].is_empty() && back[1].is_empty());
    assert_eq!(used, 12);
}

#[test]
fn dump_errors() {
    assert_eq!(decode_tuples(&[1, 0]).err(), Some(DecodeError::Truncated));
    assert_eq!(decode_tuples(&[1, 0, 0, 0]).err(), Some(DecodeError::Truncated));
    assert_eq!(dump_bytes_needed(&[1, 0, 0, 0]), Ok(4));
    let (back, used) = decode_tuples(&[0xfe, 0xff, 0xff, 0xff]).unwrap();
    assert!(back.is_empty());
    assert_eq!(used, 4);
}

#[test]
fn decode_matches_frame_length() {
    let bytes = encode_tuple(&vec![s("q"), E::I(2), E::D(7)]);
    let need_from_empty = tuple_bytes_needed(&bytes[..8]).unwrap() as usize;
    let (_, used) = decode_tuple(&bytes).unwrap();
    assert_eq!(8 + need_from_empty, used);
}
