use lzw::codec::DecodeError;
use lzw::wire::bytes_to_codes;
use lzw::wire::codes_to_bytes;
use lzw::wire::compress;
use lzw::wire::decompress;

#[test]
fn little_endian_layout() {
    let codes = vec![65u16, 256, 65534];
    let bytes = codes_to_bytes(&codes);
    assert_eq!(bytes, vec![65u8, 0, 0, 1, 254, 255]);
    assert_eq!(bytes_to_codes(&bytes).unwrap(), codes);
}

#[test]
fn wire_round_trip_empty() {
    let codes: Vec<u16> = Vec::new();
    let bytes = codes_to_bytes(&codes);
    assert_eq!(bytes.len(), 0);
    assert_eq!(bytes_to_codes(&bytes).unwrap(), codes);
}

#[test]
fn compress_wire_bytes() {
    // A B A B encodes to the codes 65, 66, 256, little-endian on the wire.
    let input = vec![65u8, 66, 65, 66];
    let wire = compress(&input);
    assert_eq!(wire, vec![65u8, 0, 66, 0, 0, 1]);
    assert_eq!(decompress(&wire).unwrap(), input);
}

#[test]
fn odd_length_is_rejected() {
    assert_eq!(bytes_to_codes(&vec![65u8]), Err(DecodeError::OddLength));
    assert_eq!(decompress(&vec![65u8, 0, 66]), Err(DecodeError::OddLength));
}

#[test]
fn bad_code_after_framing() {
    // Even length, but the single code 256 has no entry at stream start.
    assert_eq!(decompress(&vec![0u8, 1]), Err(DecodeError::BadCode));
}
