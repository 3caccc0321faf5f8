use base64::Engine;
use flate2::write::GzEncoder;
use flate2::Compression;
use pipedash::codec::{decode, unmask_save, xor, DecodeError, SAVE_XOR_KEY};
use std::io::Write;

fn gzip(text: &str) -> Vec<u8> {
    let mut enc = GzEncoder::new(Vec::new(), Compression::default());
    enc.write_all(text.as_bytes()).unwrap();
    enc.finish().unwrap()
}

fn encode(text: &str) -> Vec<u8> {
    base64::engine::general_purpose::URL_SAFE.encode(gzip(text)).into_bytes()
}

#[test]
fn xor_twice_gives_bytes_back() {
    let bytes: Vec<u8> = (0u8..=255).collect();
    let once = xor(&bytes, SAVE_XOR_KEY);
    assert_ne!(once, bytes);
    assert_eq!(once[0], 11);
    assert_eq!(xor(&once, SAVE_XOR_KEY), bytes);
    assert_eq!(xor(&[], 11), Vec::<u8>::new());
}

#[test]
fn unmask_drops_padding_zeros() {
    assert_eq!(unmask_save(&[11, 1, 11, 2]), vec![10, 9]);
    assert_eq!(unmask_save(&[11, 11]), Vec::<u8>::new());
}

#[test]
fn decode_without_mask() {
    let d = decode(&encode("hello, level"), false).unwrap();
    assert_eq!(d.text, "hello, level");
    assert!(!d.decompression_failed);
}

#[test]
fn decode_with_mask_tolerates_stripped_padding() {
    let mut masked: Vec<u8> = encode("<d><k>LLM_01</k></d>").iter().map(|b| b ^ 11).collect();
    masked.push(11);
    masked.insert(0, 11);
    let d = decode(&masked, true).unwrap();
    assert_eq!(d.text, "<d><k>LLM_01</k></d>");
}

#[test]
fn decode_rejects_bad_base64() {
    assert_eq!(decode(b"not base64 at all!", false).unwrap_err(), DecodeError::Encoding);
}

#[test]
fn decode_bad_gzip_gives_empty_text() {
    let bytes = base64::engine::general_purpose::URL_SAFE.encode(b"plain bytes").into_bytes();
    let d = decode(&bytes, false).unwrap();
    assert_eq!(d.text, "");
    assert!(d.decompression_failed);
}
