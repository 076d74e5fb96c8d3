use lzw::codec::decode;
use lzw::codec::encode;
use lzw::codec::DecodeError;
use lzw::codec::Decoder;
use lzw::codec::Encoder;

#[test]
fn encoder_streams_like_encode() {
    let input: Vec<u8> = b"she sells sea shells by the sea shore".to_vec();
    let mut encoder = Encoder::new();
    let mut streamed: Vec<u16> = Vec::new();
    for &b in &input {
        if let Some(code) = encoder.push_byte(b) {
            streamed.push(code);
        }
    }
    if let Some(code) = encoder.finish() {
        streamed.push(code);
    }
    assert_eq!(streamed, encode(&input));
}

#[test]
fn encoder_empty_emits_nothing() {
    let encoder = Encoder::new();
    assert_eq!(encoder.finish(), None);
}

#[test]
fn decoder_streams_like_decode() {
    let input: Vec<u8> = b"she sells sea shells by the sea shore".to_vec();
    let codes = encode(&input);
    let mut decoder = Decoder::new();
    let mut streamed: Vec<u8> = Vec::new();
    for &c in &codes {
        streamed.extend_from_slice(&decoder.push_code(c).unwrap());
    }
    assert_eq!(streamed, input);
    assert_eq!(streamed, decode(&codes).unwrap());
}

#[test]
fn decoder_rejects_and_stays_usable() {
    let mut decoder = Decoder::new();
    assert_eq!(decoder.push_code(65).unwrap(), vec![65u8]);
    // An unresolvable code is rejected and leaves the decoder unchanged.
    assert_eq!(decoder.push_code(9999), Err(DecodeError::BadCode));
    // The next free code is still 256, so the unknown-code race resolves.
    assert_eq!(decoder.push_code(256).unwrap(), vec![65u8, 65]);
}
