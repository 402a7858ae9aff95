use trie_healing::error::RLPDecodeError;
use trie_healing::nibbles::Nibbles;
use trie_healing::rlp::{
    be_to_u64, decode_bytes, decode_item, decode_list, encode_bytes, encode_list, push_be_bytes,
};

fn rlp_bytes(data: &[u8]) -> Vec<u8> {
    let mut out = Vec::new();
    encode_bytes(data, &mut out);
    out
}

fn rlp_list(payload: &[u8]) -> Vec<u8> {
    let mut out = Vec::new();
    encode_list(payload, &mut out);
    out
}

#[test]
fn byte_strings_follow_the_known_examples() {
    assert_eq!(rlp_bytes(b"dog"), vec![0x83, b'd', b'o', b'g']);
    assert_eq!(rlp_bytes(&[]), vec![0x80]);
    assert_eq!(rlp_bytes(&[0x00]), vec![0x00]);
    assert_eq!(rlp_bytes(&[0x0f]), vec![0x0f]);
    assert_eq!(rlp_bytes(&[0x7f]), vec![0x7f]);
    assert_eq!(rlp_bytes(&[0x80]), vec![0x81, 0x80]);
    assert_eq!(rlp_bytes(&[0x04, 0x00]), vec![0x82, 0x04, 0x00]);
}

#[test]
fn long_byte_string_carries_its_length_digits() {
    let data = vec![7u8; 1024];
    let out = rlp_bytes(&data);
    assert_eq!(&out[..3], &[0xb9, 0x04, 0x00]);
    assert_eq!(&out[3..], &data[..]);
    let fifty_five = rlp_bytes(&[1u8; 55]);
    assert_eq!(fifty_five[0], 0xb7);
    assert_eq!(fifty_five.len(), 56);
    let fifty_six = rlp_bytes(&[1u8; 56]);
    assert_eq!(&fifty_six[..2], &[0xb8, 56]);
    assert_eq!(fifty_six.len(), 58);
}

#[test]
fn lists_follow_the_known_examples() {
    assert_eq!(rlp_list(&[]), vec![0xc0]);
    let mut payload = rlp_bytes(b"cat");
    payload.extend_from_slice(&rlp_bytes(b"dog"));
    assert_eq!(
        rlp_list(&payload),
        vec![0xc8, 0x83, b'c', b'a', b't', 0x83, b'd', b'o', b'g']
    );
    let long = rlp_list(&[0x80u8; 300]);
    assert_eq!(&long[..3], &[0xf9, 0x01, 0x2c]);
    assert_eq!(long.len(), 303);
}

#[test]
fn encoders_append_to_what_the_buffer_holds() {
    let mut buf = vec![0xaa, 0xbb];
    encode_bytes(b"dog", &mut buf);
    encode_list(&[0x01], &mut buf);
    assert_eq!(buf, vec![0xaa, 0xbb, 0x83, b'd', b'o', b'g', 0xc1, 0x01]);
}

#[test]
fn decode_item_splits_payload_and_rest() {
    assert_eq!(
        decode_item(&[0x83, 1, 2, 3, 9, 9]),
        Ok((false, &[1u8, 2, 3][..], &[9u8, 9][..]))
    );
    assert_eq!(
        decode_item(&[0xc2, 1, 2, 9]),
        Ok((true, &[1u8, 2][..], &[9u8][..]))
    );
    assert_eq!(decode_item(&[0x05]), Ok((false, &[5u8][..], &[][..])));
    assert_eq!(decode_item(&[0x80]), Ok((false, &[][..], &[][..])));
    let long = rlp_bytes(&[3u8; 200]);
    let (is_list, payload, rest) = decode_item(&long).unwrap();
    assert!(!is_list);
    assert_eq!(payload, &[3u8; 200][..]);
    assert!(rest.is_empty());
}

#[test]
fn decode_item_refuses_short_and_redundant_input() {
    assert_eq!(decode_item(&[]), Err(RLPDecodeError::InvalidLength));
    assert_eq!(decode_item(&[0x83, 1, 2]), Err(RLPDecodeError::InvalidLength));
    assert_eq!(decode_item(&[0xb8]), Err(RLPDecodeError::InvalidLength));
    assert_eq!(decode_item(&[0xb8, 56, 1]), Err(RLPDecodeError::InvalidLength));
    // one byte under 0x80 behind a header
    assert_eq!(decode_item(&[0x81, 0x7f]), Err(RLPDecodeError::MalformedData));
    // a long header for a short payload
    assert_eq!(
        decode_item(&[0xb8, 3, 1, 2, 3]),
        Err(RLPDecodeError::MalformedData)
    );
    // length digits that begin with zero
    let mut padded = vec![0xb9, 0x00, 0x40];
    padded.extend_from_slice(&[0u8; 64]);
    assert_eq!(decode_item(&padded), Err(RLPDecodeError::MalformedData));
    // a length that no input can hold
    assert_eq!(
        decode_item(&[0xbf, 0xff, 0xff, 0xff, 0xff, 0xff, 0xff, 0xff, 0xff, 1]),
        Err(RLPDecodeError::InvalidLength)
    );
}

#[test]
fn decode_bytes_and_list_tell_the_kinds_apart() {
    assert_eq!(decode_bytes(&[0xc0]), Err(RLPDecodeError::UnexpectedList));
    assert_eq!(decode_list(&[0x80]), Err(RLPDecodeError::UnexpectedString));
    assert_eq!(decode_bytes(&[0x82, 5, 6, 7]), Ok((&[5u8, 6][..], &[7u8][..])));
    assert_eq!(decode_list(&[0xc1, 5, 6]), Ok((&[5u8][..], &[6u8][..])));
}

#[test]
fn big_endian_digits_have_no_leading_zero() {
    let mut out = Vec::new();
    push_be_bytes(0, &mut out);
    assert!(out.is_empty());
    push_be_bytes(0x01_02_03, &mut out);
    assert_eq!(out, vec![1, 2, 3]);
    assert_eq!(be_to_u64(&[1, 2, 3]), 0x01_02_03);
    assert_eq!(be_to_u64(&[]), 0);
    assert_eq!(be_to_u64(&[0xff; 8]), u64::MAX);
    let mut max = Vec::new();
    push_be_bytes(u64::MAX, &mut max);
    assert_eq!(max, vec![0xff; 8]);
}

#[test]
fn nibbles_unpack_and_pack_bytes() {
    let path = Nibbles::from_bytes(&[0x12, 0xab, 0x0f]);
    assert_eq!(path.as_slice(), &[1, 2, 10, 11, 0, 15]);
    assert_eq!(path.len(), 6);
    assert_eq!(path.to_bytes(), vec![0x12, 0xab, 0x0f]);
    let odd = Nibbles::from_hex(vec![1, 2, 3]).unwrap();
    assert_eq!(odd.to_bytes(), vec![0x12, 0x30]);
    assert!(Nibbles::new().to_bytes().is_empty());
    assert!(Nibbles::new().is_empty());
}

#[test]
fn nibbles_refuse_values_over_fifteen() {
    assert!(Nibbles::from_hex(vec![0, 15, 16]).is_none());
    assert!(Nibbles::from_hex(vec![255]).is_none());
    assert!(Nibbles::from_hex(vec![]).is_some());
    let path = Nibbles::from_hex(vec![1]).unwrap();
    assert!(path.append_new(16).is_none());
    assert_eq!(path.append_new(15).unwrap().as_slice(), &[1, 15]);
}

#[test]
fn nibbles_concat_keeps_the_order() {
    let a = Nibbles::from_hex(vec![1, 2]).unwrap();
    let b = Nibbles::from_hex(vec![3]).unwrap();
    assert_eq!(a.concat(&b).as_slice(), &[1, 2, 3]);
    assert_eq!(b.concat(&a).as_slice(), &[3, 1, 2]);
    assert_eq!(a.concat(&Nibbles::new()), a);
    assert_eq!(a.clone(), a);
}

#[test]
fn compact_form_follows_the_known_examples() {
    let odd = Nibbles::from_hex(vec![1, 2, 3, 4, 5]).unwrap();
    assert_eq!(odd.encode_compact(false), vec![0x11, 0x23, 0x45]);
    let even = Nibbles::from_hex(vec![0, 1, 2, 3, 4, 5]).unwrap();
    assert_eq!(even.encode_compact(false), vec![0x00, 0x01, 0x23, 0x45]);
    let even_leaf = Nibbles::from_hex(vec![0, 15, 1, 12, 11, 8]).unwrap();
    assert_eq!(even_leaf.encode_compact(true), vec![0x20, 0x0f, 0x1c, 0xb8]);
    let odd_leaf = Nibbles::from_hex(vec![15, 1, 12, 11, 8]).unwrap();
    assert_eq!(odd_leaf.encode_compact(true), vec![0x3f, 0x1c, 0xb8]);
    assert_eq!(Nibbles::new().encode_compact(true), vec![0x20]);
    assert_eq!(Nibbles::new().encode_compact(false), vec![0x00]);
}

#[test]
fn stored_path_round_trip() {
    let path = Nibbles::from_hex(vec![0, 7, 15]).unwrap();
    let mut bytes = Vec::new();
    path.encode(&mut bytes);
    assert_eq!(bytes, vec![0x83, 0, 7, 15]);
    bytes.push(0x42);
    let (back, rest) = Nibbles::decode_unfinished(&bytes).unwrap();
    assert_eq!(back, path);
    assert_eq!(rest, &[0x42]);
    assert_eq!(
        Nibbles::decode_unfinished(&[0x82, 1, 16]).map(|(n, _)| n),
        Err(RLPDecodeError::MalformedData)
    );
}
