use autocitefetch::formats::{load_doi_overrides, parse_auto, parse_json, parse_yaml, parser_for, Format};
use autocitefetch::source::bibfile::BibParser;

#[test]
fn auto_accepts_json_and_yaml() {
    let json = br#"{"a": {"title": "T"}}"#;
    let yaml = b"a:\n  title: T\n";
    assert_eq!(parse_auto(json).unwrap(), parse_auto(yaml).unwrap());
}

#[test]
fn auto_accepts_json_the_yaml_reader_rejects() {
    // Why `auto` tries JSON first instead of leaning on YAML being a JSON
    // superset: it isn't quite one. An integer literal past the YAML
    // reader's range is valid JSON and an error there.
    let json = br#"{"a": 123456789012345678901234567890}"#;
    assert!(parse_yaml(json).is_err());
    assert!(parse_auto(json).is_ok());
}

#[test]
fn auto_reports_both_parsers_on_garbage() {
    let err = parse_auto(b"not: [valid").unwrap_err();
    assert!(err.contains("JSON"), "{err}");
    assert!(err.contains("YAML"), "{err}");
}

#[test]
fn overrides_map_string_to_some_and_null_to_none() {
    // `~` is YAML's null: the *suppress the DOI* case, which is why the
    // value type is `Option<String>` rather than `String`.
    let mut got = load_doi_overrides(
        "ovr.yaml",
        b"1211.1037: 10.1103/PhysRevA.86.052329\n0704.0001: ~\n",
    )
    .unwrap();
    got.sort();
    assert_eq!(
        got,
        vec![
            ("0704.0001".to_string(), None),
            (
                "1211.1037".to_string(),
                Some("10.1103/PhysRevA.86.052329".to_string())
            ),
        ]
    );
}

#[test]
fn overrides_reject_a_non_string_value() {
    let err = load_doi_overrides("ovr.json", br#"{"1211.1037": 42}"#).unwrap_err();
    assert!(err.contains("must be a DOI string or null"), "{err}");
}

#[test]
fn overrides_reject_a_file_that_is_not_a_mapping() {
    let err = load_doi_overrides("ovr.json", b"[1, 2]").unwrap_err();
    assert!(err.contains("expected a mapping"), "{err}");
}

#[test]
fn a_format_picks_its_parser() {
    let yaml = b"a: 1\n";
    assert!(parser_for(Format::Json).parse(yaml).is_err());
    assert_eq!(parser_for(Format::Yaml).parse(yaml), parse_json(br#"{"a":1}"#));
    assert_eq!(parser_for(Format::Auto).parse(yaml), parse_json(br#"{"a":1}"#));
}
