use stegacean::codec::{decode, encode, encode_payload, make_u8, CapacityError};
use stegacean::packer::{add_bits, pack, TERMINATOR};

fn bits_from(text: &str) -> Vec<bool> {
    text.chars().filter(|c| *c != ' ').map(|c| c == '1').collect()
}

#[test]
fn scenario_hi_in_four_pixels() {
    let payload = [0x68u8, 0x69];
    let bits = pack(&payload);
    assert_eq!(bits, bits_from("01101000 01101001 00000100"));

    let mut buffer = vec![0u8; 32];
    assert_eq!(encode(&mut buffer, &bits), Ok(()));
    for i in 0..24 {
        assert_eq!(buffer[i], if bits[i] { 1 } else { 0 });
    }
    assert_eq!(buffer[0], 0);
    assert_eq!(buffer[1], 1);
    assert!(buffer[24..].iter().all(|b| *b == 0));
    assert_eq!(decode(&buffer), vec![0x68, 0x69]);
}

#[test]
fn encode_payload_matches_pack_then_encode() {
    let payload = b"hi";
    let mut a = vec![0u8; 32];
    let mut b = vec![0u8; 32];
    assert_eq!(encode_payload(&mut a, payload), Ok(()));
    assert_eq!(encode(&mut b, &pack(payload)), Ok(()));
    assert_eq!(a, b);
    assert_eq!(decode(&a), payload.to_vec());
}

#[test]
fn pack_of_empty_payload_is_the_terminator() {
    assert_eq!(pack(&[]), bits_from("00000100"));
}

#[test]
fn empty_payload_decodes_to_nothing() {
    let mut buffer = vec![0xffu8; 8];
    assert_eq!(encode_payload(&mut buffer, &[]), Ok(()));
    assert_eq!(buffer, vec![0xfe, 0xfe, 0xfe, 0xfe, 0xfe, 0xff, 0xfe, 0xfe]);
    assert_eq!(decode(&buffer), Vec::<u8>::new());
}

#[test]
fn pack_is_deterministic() {
    let payload = b"steganography";
    let first = pack(payload);
    let second = pack(&payload.to_vec());
    assert_eq!(first, second);
    assert_eq!(first.len(), 8 * (payload.len() + 1));
}

#[test]
fn add_bits_appends_most_significant_first() {
    let mut bits = vec![true];
    add_bits(0b1010_0011, &mut bits);
    assert_eq!(bits, bits_from("1 10100011"));
    add_bits(TERMINATOR, &mut bits);
    assert_eq!(bits, bits_from("1 10100011 00000100"));
}

#[test]
fn make_u8_weights_flags_most_significant_first() {
    assert_eq!(make_u8([0; 8]), 0);
    assert_eq!(make_u8([1, 0, 0, 0, 0, 0, 0, 1]), 129);
    assert_eq!(make_u8([0, 1, 1, 0, 1, 0, 0, 0]), 0x68);
    assert_eq!(make_u8([5, 9, 255, 1, 1, 1, 1, 2]), 255);
}

#[test]
fn capacity_error_leaves_buffer_untouched() {
    let original: Vec<u8> = (0..23u8).map(|i| i.wrapping_mul(37)).collect();
    let mut buffer = original.clone();
    assert_eq!(
        encode_payload(&mut buffer, b"hi"),
        Err(CapacityError { needed: 24, available: 23 })
    );
    assert_eq!(buffer, original);

    let original: Vec<u8> = (0..31u8).collect();
    let mut buffer = original.clone();
    assert_eq!(
        encode_payload(&mut buffer, b"abc"),
        Err(CapacityError { needed: 32, available: 31 })
    );
    assert_eq!(buffer, original);

    let mut empty: Vec<u8> = Vec::new();
    assert_eq!(
        encode_payload(&mut empty, &[]),
        Err(CapacityError { needed: 8, available: 0 })
    );
}

#[test]
fn encode_rejects_more_bits_than_bytes() {
    let original = vec![7u8, 8, 9];
    let mut buffer = original.clone();
    let bits = vec![true, false, true, true];
    assert_eq!(encode(&mut buffer, &bits), Err(CapacityError { needed: 4, available: 3 }));
    assert_eq!(buffer, original);
}

#[test]
fn encode_fills_exactly_the_whole_buffer() {
    let mut buffer = vec![0x80u8; 24];
    assert_eq!(encode_payload(&mut buffer, b"AB"), Ok(()));
    assert_eq!(decode(&buffer), b"AB".to_vec());
    assert!(buffer.iter().all(|b| *b & 0xfe == 0x80));
}

#[test]
fn encode_keeps_high_bits_and_bytes_past_the_bits() {
    let original: Vec<u8> = (0..64u32).map(|i| (i * 53 % 256) as u8).collect();
    let mut buffer = original.clone();
    let bits = pack(b"ok");
    assert_eq!(encode(&mut buffer, &bits), Ok(()));
    for i in 0..bits.len() {
        assert_eq!(buffer[i] & 0xfe, original[i] & 0xfe);
        assert_eq!(buffer[i] & 1 == 1, bits[i]);
    }
    assert_eq!(buffer[bits.len()..], original[bits.len()..]);
}

#[test]
fn round_trip_over_busy_pixels() {
    let payload: Vec<u8> = (0..=255u8).filter(|b| *b != TERMINATOR).collect();
    let mut buffer: Vec<u8> = (0..(8 * 300u32)).map(|i| (i * 29 % 251) as u8).collect();
    assert_eq!(encode_payload(&mut buffer, &payload), Ok(()));
    assert_eq!(decode(&buffer), payload);
}

#[test]
fn decode_stops_at_terminator_and_ignores_the_rest() {
    let mut buffer = vec![0u8; 40];
    assert_eq!(encode_payload(&mut buffer, b"x"), Ok(()));
    // the bytes after the terminator spell out 0xff, which is never read
    for b in buffer[16..24].iter_mut() {
        *b |= 1;
    }
    assert_eq!(decode(&buffer), b"x".to_vec());
    let out = decode(&buffer);
    assert!(!out.contains(&TERMINATOR));
}

#[test]
fn decode_without_terminator_gives_every_whole_byte() {
    // two groups that carry 0xff and 0x01, then five bytes of an unfinished group
    let mut buffer = vec![1u8; 8];
    buffer.extend_from_slice(&[0, 0, 0, 0, 0, 0, 0, 1]);
    buffer.extend_from_slice(&[1, 1, 1, 1, 1]);
    assert_eq!(decode(&buffer), vec![0xff, 0x01]);
    assert_eq!(decode(&[]), Vec::<u8>::new());
    assert_eq!(decode(&[1, 1, 1, 1, 1, 1, 1]), Vec::<u8>::new());
}

#[test]
fn payload_holding_the_terminator_is_cut_there() {
    let mut buffer = vec![0u8; 64];
    assert_eq!(encode_payload(&mut buffer, &[0x41, TERMINATOR, 0x42]), Ok(()));
    assert_eq!(decode(&buffer), vec![0x41]);
}
