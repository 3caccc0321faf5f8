use base64::Engine;
use flate2::write::GzEncoder;
use flate2::Compression;
use pipedash::save::{LoadError, OuterLevel, PlistValue};
use std::io::Write;

fn s(text: &str) -> String {
    text.to_string()
}

fn payload(text: &str) -> String {
    let mut enc = GzEncoder::new(Vec::new(), Compression::default());
    enc.write_all(text.as_bytes()).unwrap();
    base64::engine::general_purpose::URL_SAFE.encode(enc.finish().unwrap())
}

fn level(name: Option<&str>, revision: Option<i64>, inner: Option<&str>) -> PlistValue {
    let mut fields = Vec::new();
    if let Some(n) = name {
        fields.push((s("k2"), PlistValue::Str(s(n))));
    }
    if let Some(r) = revision {
        fields.push((s("k46"), PlistValue::Int(r)));
    }
    if let Some(t) = inner {
        fields.push((s("k4"), PlistValue::Str(payload(t))));
    }
    PlistValue::Dict(fields)
}

fn document() -> PlistValue {
    PlistValue::Dict(vec![
        (s("other"), PlistValue::Int(3)),
        (
            s("LLM_01"),
            PlistValue::Dict(vec![
                (s("_isArr"), PlistValue::Other),
                (s("k_0"), level(Some("First"), None, Some("a,1;1.0~0.8"))),
                (s("k_1"), level(None, Some(2), Some("x"))),
                (s("k_2"), level(Some("Second"), Some(4), Some("b,2;2.0~1.0"))),
                (s("k_3"), PlistValue::Str(s("not a level"))),
                (s("k_4"), level(Some("Second"), Some(5), None)),
            ]),
        ),
    ])
}

#[test]
fn load_all_lists_named_levels_in_order() {
    let levels = OuterLevel::load_all(&document()).unwrap();
    let got: Vec<(String, Option<i64>)> =
        levels.iter().map(|l| (l.name().to_string(), l.revision())).collect();
    assert_eq!(
        got,
        vec![(s("First"), None), (s("Second"), Some(4)), (s("Second"), Some(5))]
    );
}

#[test]
fn load_all_without_level_list() {
    let doc = PlistValue::Dict(vec![(s("LLM_02"), PlistValue::Dict(vec![]))]);
    assert_eq!(OuterLevel::load_all(&doc).unwrap_err(), LoadError::MissingLevelList);
    let doc = PlistValue::Dict(vec![(s("LLM_01"), PlistValue::Int(1))]);
    assert_eq!(OuterLevel::load_all(&doc).unwrap_err(), LoadError::MissingLevelList);
    assert_eq!(OuterLevel::load_all(&PlistValue::Other).unwrap_err(), LoadError::MissingLevelList);
}

#[test]
fn load_inner_finds_by_name_and_revision() {
    let doc = document();
    let inner = OuterLevel::new(s("Second"), Some(4)).load_inner(&doc).unwrap();
    assert_eq!(inner.raw_text(), "b,2;2.0~1.0");
    let inner = OuterLevel::new(s("First"), None).load_inner(&doc).unwrap();
    assert_eq!(inner.get_property("a").as_deref(), Some("1"));
}

#[test]
fn load_inner_errors() {
    let doc = document();
    assert_eq!(
        OuterLevel::new(s("Second"), Some(9)).load_inner(&doc).unwrap_err(),
        LoadError::LevelNotFound
    );
    assert_eq!(
        OuterLevel::new(s("Second"), Some(5)).load_inner(&doc).unwrap_err(),
        LoadError::MissingPayload
    );
    assert_eq!(
        OuterLevel::new(s("First"), None).load_inner(&PlistValue::Other).unwrap_err(),
        LoadError::MissingLevelList
    );
    let bad = PlistValue::Dict(vec![(
        s("LLM_01"),
        PlistValue::Dict(vec![(
            s("k_0"),
            PlistValue::Dict(vec![
                (s("k2"), PlistValue::Str(s("Bad"))),
                (s("k4"), PlistValue::Str(s("%%%"))),
            ]),
        )]),
    )]);
    assert_eq!(
        OuterLevel::new(s("Bad"), None).load_inner(&bad).unwrap_err(),
        LoadError::UndecodablePayload
    );
}

#[test]
fn skipped_entries_are_reported() {
    let skipped = OuterLevel::skipped_entries(&document()).unwrap();
    assert_eq!(skipped, vec![s("k_1"), s("k_3")]);
    assert_eq!(
        OuterLevel::skipped_entries(&PlistValue::Other).unwrap_err(),
        LoadError::MissingLevelList
    );
}

#[test]
fn load_inner_flags_corrupt_payload() {
    let doc = PlistValue::Dict(vec![(
        s("LLM_01"),
        PlistValue::Dict(vec![(
            s("k_0"),
            PlistValue::Dict(vec![
                (s("k2"), PlistValue::Str(s("Broken"))),
                (s("k4"), PlistValue::Str(base64::engine::general_purpose::URL_SAFE.encode(b"zz"))),
            ]),
        )]),
    )]);
    let inner = OuterLevel::new(s("Broken"), None).load_inner(&doc).unwrap();
    assert!(inner.decompression_failed());
    assert_eq!(inner.raw_text(), "");
    let fine = OuterLevel::new(s("First"), None).load_inner(&document()).unwrap();
    assert!(!fine.decompression_failed());
}
