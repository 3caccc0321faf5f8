use base64::Engine;
use flate2::write::GzEncoder;
use flate2::Compression;
use pipedash::level::{parse_marker_color, InnerLevel, MarkerColor};
use pipedash::lines::Timestamp;
use pipedash::text::{parse_seconds_as_nanos, split};
use std::io::Write;

fn chars(s: &str) -> Vec<char> {
    s.chars().collect()
}

fn nanos(lines: &pipedash::lines::Lines<Timestamp>) -> Vec<i64> {
    lines.get_positions().iter().map(|t| t.as_nanos()).collect()
}

#[test]
fn property_and_markers_scenario() {
    let level = InnerLevel::from_raw("8,foo,9,bar;1.0~0.8~2.5~0.9".to_string());
    assert_eq!(level.get_property("8").as_deref(), Some("foo"));
    assert_eq!(level.get_property("9").as_deref(), Some("bar"));
    let lines = level.get_lines();
    assert_eq!(nanos(&lines.orange), vec![1_000_000_000]);
    assert_eq!(nanos(&lines.yellow), vec![2_500_000_000]);
    assert!(lines.green.empty());
}

#[test]
fn property_lookup_edges() {
    let level = InnerLevel::from_raw("a,1,b,2,a,3,c;d,4".to_string());
    assert_eq!(level.get_property("a").as_deref(), Some("1"));
    assert_eq!(level.get_property("b").as_deref(), Some("2"));
    assert_eq!(level.get_property("c"), None);
    assert_eq!(level.get_property("d"), None);
    assert_eq!(level.get_property("1"), None);
    assert_eq!(InnerLevel::from_raw(String::new()).get_property(""), None);
}

#[test]
fn no_valid_markers_gives_empty_buckets() {
    let level = InnerLevel::from_raw("k,v;x~y~1.0~0.5~2.0~abc~3.0".to_string());
    let lines = level.get_lines();
    assert!(lines.orange.empty() && lines.yellow.empty() && lines.green.empty());
    assert!(lines.is_empty());
    assert!(InnerLevel::from_raw(String::new()).get_lines().is_empty());
}

#[test]
fn markers_of_every_colour_and_duplicates() {
    let level = InnerLevel::from_raw("h;3~1.0~1.5~0.8~3~1~0.25~0.9~1.5~0.8".to_string());
    let lines = level.get_lines();
    assert_eq!(nanos(&lines.green), vec![3_000_000_000]);
    assert_eq!(nanos(&lines.orange), vec![1_500_000_000]);
    assert_eq!(nanos(&lines.yellow), vec![250_000_000]);
    assert!(!lines.is_empty());
}

#[test]
fn markers_without_header() {
    let lines = InnerLevel::from_raw("2~1.0".to_string()).get_lines();
    assert_eq!(nanos(&lines.green), vec![2_000_000_000]);
}

#[test]
fn colour_codes_round_to_nearest() {
    assert_eq!(parse_marker_color(&chars("0.8")), Some(MarkerColor::Orange));
    assert_eq!(parse_marker_color(&chars("0.849")), Some(MarkerColor::Orange));
    assert_eq!(parse_marker_color(&chars("0.85")), Some(MarkerColor::Yellow));
    assert_eq!(parse_marker_color(&chars(".9")), Some(MarkerColor::Yellow));
    assert_eq!(parse_marker_color(&chars("1")), Some(MarkerColor::Green));
    assert_eq!(parse_marker_color(&chars("+1.04")), Some(MarkerColor::Green));
    assert_eq!(parse_marker_color(&chars("1.05")), None);
    assert_eq!(parse_marker_color(&chars("-0.8")), None);
    assert_eq!(parse_marker_color(&chars("20.8")), None);
    assert_eq!(parse_marker_color(&chars("0.x")), None);
    assert_eq!(parse_marker_color(&chars("")), None);
}

#[test]
fn seconds_read_to_truncated_nanos() {
    assert_eq!(parse_seconds_as_nanos(&chars("1.5")), Some(1_500_000_000));
    assert_eq!(parse_seconds_as_nanos(&chars("-0.25")), Some(-250_000_000));
    assert_eq!(parse_seconds_as_nanos(&chars("0.0000000019")), Some(1));
    assert_eq!(parse_seconds_as_nanos(&chars("7.")), Some(7_000_000_000));
    assert_eq!(parse_seconds_as_nanos(&chars("9223372036.854775807")), Some(i64::MAX));
    assert_eq!(parse_seconds_as_nanos(&chars("9223372036.854775808")), None);
    assert_eq!(parse_seconds_as_nanos(&chars("1.2.3")), None);
    assert_eq!(parse_seconds_as_nanos(&chars(".")), None);
    assert_eq!(parse_seconds_as_nanos(&chars("abc")), None);
}

#[test]
fn split_keeps_empty_pieces() {
    let pieces: Vec<String> = split(&chars("a~~b~"), &chars("~"))
        .iter()
        .map(|p| p.iter().collect())
        .collect();
    assert_eq!(pieces, vec!["a", "", "b", ""]);
    let pieces: Vec<String> = split(&chars("1~|~x~|~"), &chars("~|~"))
        .iter()
        .map(|p| p.iter().collect())
        .collect();
    assert_eq!(pieces, vec!["1", "x", ""]);
}

#[test]
fn digests_tell_texts_apart() {
    let a = InnerLevel::from_raw("1,2;3~0.8".to_string());
    let b = InnerLevel::from_raw("1,2;3~0.9".to_string());
    let c = InnerLevel::from_raw("1,2;3~0.8".to_string());
    assert_ne!(a.hash(), b.hash());
    assert_eq!(a.hash(), c.hash());
}

#[test]
fn digest_is_md5() {
    let empty = InnerLevel::from_raw(String::new()).hash();
    assert_eq!(
        empty,
        [0xd4, 0x1d, 0x8c, 0xd9, 0x8f, 0x00, 0xb2, 0x04, 0xe9, 0x80, 0x09, 0x98, 0xec, 0xf8, 0x42, 0x7e]
    );
}

#[test]
fn payload_decodes_into_inner_level() {
    let mut enc = GzEncoder::new(Vec::new(), Compression::default());
    enc.write_all(b"k1,5;1.0~1.0").unwrap();
    let payload = base64::engine::general_purpose::URL_SAFE.encode(enc.finish().unwrap());
    let level = InnerLevel::try_from_encoded_ils(&payload).unwrap();
    assert_eq!(level.raw_text(), "k1,5;1.0~1.0");
    assert_eq!(level.get_property("k1").as_deref(), Some("5"));
    assert!(InnerLevel::try_from_encoded_ils("%%%").is_none());
}

#[test]
fn exponent_forms_read() {
    assert_eq!(parse_seconds_as_nanos(&chars("1e0")), Some(1_000_000_000));
    assert_eq!(parse_seconds_as_nanos(&chars("2.5E-1")), Some(250_000_000));
    assert_eq!(parse_seconds_as_nanos(&chars("1e+2")), Some(100_000_000_000));
    assert_eq!(parse_seconds_as_nanos(&chars("-1.5e-9")), Some(-1));
    assert_eq!(parse_seconds_as_nanos(&chars("5e-10")), Some(0));
    assert_eq!(parse_seconds_as_nanos(&chars("12345e-3")), Some(12_345_000_000));
    assert_eq!(parse_seconds_as_nanos(&chars("1e9")), Some(1_000_000_000_000_000_000));
    assert_eq!(parse_seconds_as_nanos(&chars("1e10")), None);
    assert_eq!(parse_seconds_as_nanos(&chars("1e11")), None);
    assert_eq!(parse_seconds_as_nanos(&chars("0e9999")), Some(0));
    assert_eq!(parse_seconds_as_nanos(&chars("1e10000")), None);
    assert_eq!(parse_seconds_as_nanos(&chars("1e")), None);
    assert_eq!(parse_seconds_as_nanos(&chars("e5")), None);
    assert_eq!(parse_seconds_as_nanos(&chars("1e2e3")), None);
    assert_eq!(parse_marker_color(&chars("8e-1")), Some(MarkerColor::Orange));
    assert_eq!(parse_marker_color(&chars("0.09E1")), Some(MarkerColor::Yellow));
    assert_eq!(parse_marker_color(&chars("100e-2")), Some(MarkerColor::Green));
    assert_eq!(parse_marker_color(&chars("1e1")), None);
}

#[test]
fn exponent_markers_in_a_level() {
    let lines = InnerLevel::from_raw("h;1e0~8E-1~25e-1~0.9".to_string()).get_lines();
    assert_eq!(nanos(&lines.orange), vec![1_000_000_000]);
    assert_eq!(nanos(&lines.yellow), vec![2_500_000_000]);
}

#[test]
fn corrupt_payload_is_flagged() {
    let payload = base64::engine::general_purpose::URL_SAFE.encode(b"not gzip");
    let level = InnerLevel::try_from_encoded_ils(&payload).unwrap();
    assert_eq!(level.raw_text(), "");
    assert!(level.decompression_failed());
    assert!(!InnerLevel::from_raw("x".to_string()).decompression_failed());
}
