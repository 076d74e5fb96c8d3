use lzw::codec::DecodeError;
use lzw::codec::decode;
use lzw::codec::encode;
use lzw::wire::compress;
use lzw::wire::decompress;

#[test]
fn empty_input() {
    let input: Vec<u8> = Vec::new();
    let codes = encode(&input);
    assert_eq!(codes.len(), 0);
    let back = decode(&codes).unwrap();
    assert_eq!(back.len(), 0);
    let wire = compress(&input);
    assert_eq!(wire.len(), 0);
    assert_eq!(decompress(&wire).unwrap(), input);
}

#[test]
fn single_byte_input() {
    for b in [0u8, 1, 65, 254, 255] {
        let input = vec![b];
        let codes = encode(&input);
        assert_eq!(codes, vec![b as u16]);
        assert_eq!(decode(&codes).unwrap(), input);
    }
}

#[test]
fn two_distinct_bytes() {
    let input = vec![65u8, 66];
    let codes = encode(&input);
    assert_eq!(codes, vec![65u16, 66]);
    assert_eq!(decode(&codes).unwrap(), input);
}

#[test]
fn known_pattern_codes() {
    // A B A B: emits A, B, then the code 256 assigned to "AB".
    let input = vec![65u8, 66, 65, 66];
    let codes = encode(&input);
    assert_eq!(codes, vec![65u16, 66, 256]);
    assert_eq!(decode(&codes).unwrap(), input);
}

#[test]
fn round_trip_text() {
    let input: Vec<u8> = b"TOBEORNOTTOBEORTOBEORNOT".to_vec();
    let codes = encode(&input);
    assert!(codes.len() < input.len());
    assert_eq!(decode(&codes).unwrap(), input);
    assert_eq!(decompress(&compress(&input)).unwrap(), input);
}

#[test]
fn round_trip_all_byte_values() {
    let mut input: Vec<u8> = Vec::new();
    for round in 0..3u16 {
        for b in 0..=255u8 {
            input.push(b);
            if round == 2 {
                input.push(b);
            }
        }
    }
    let codes = encode(&input);
    assert_eq!(decode(&codes).unwrap(), input);
}

#[test]
fn encoding_is_deterministic() {
    let input: Vec<u8> = b"abracadabra abracadabra abracadabra".to_vec();
    let first = encode(&input);
    let second = encode(&input);
    assert_eq!(first, second);
    assert_eq!(compress(&input), compress(&input));
}

#[test]
fn code_range() {
    let mut input: Vec<u8> = Vec::new();
    for i in 0..5000u32 {
        input.push((i % 251) as u8);
        input.push((i % 7) as u8);
    }
    let codes = encode(&input);
    for &c in codes.iter() {
        assert!(c < 65535);
    }
    assert_eq!(decode(&codes).unwrap(), input);
}

#[test]
fn unknown_code_recovery() {
    // The stream "code(X), code(X + firstByte(X))" where the second code was
    // assigned by the encoder one step before the decoder can have derived
    // it: the decoder must synthesize "AA" from prev = "A" on its own.
    let codes = vec![65u16, 256];
    let out = decode(&codes).unwrap();
    assert_eq!(out, vec![65u8, 65, 65]);
    // And that stream is exactly what "AAA" encodes to.
    assert_eq!(encode(&vec![65u8, 65, 65]), codes);
}

#[test]
fn large_repetitive_input() {
    let input = vec![7u8; 100_000];
    let codes = encode(&input);
    assert!(codes.len() < 1000);
    assert_eq!(decode(&codes).unwrap(), input);
}

#[test]
fn first_code_unresolvable() {
    assert_eq!(decode(&vec![256u16]), Err(DecodeError::BadCode));
    assert_eq!(decode(&vec![300u16, 65]), Err(DecodeError::BadCode));
}

#[test]
fn code_beyond_next_free() {
    // After one code the next free code is 256; 300 skips ahead.
    assert_eq!(decode(&vec![65u16, 300]), Err(DecodeError::BadCode));
    // The ceiling value itself is never assignable.
    assert_eq!(decode(&vec![65u16, 65535]), Err(DecodeError::BadCode));
    // Valid prefix, then a bad code: the error is reported, nothing panics.
    assert_eq!(decode(&vec![65u16, 66, 65, 1000]), Err(DecodeError::BadCode));
}
