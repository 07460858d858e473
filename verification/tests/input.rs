use autocitefetch::input::{append_list, parse_cite};

#[test]
fn splits_at_the_first_colon_only() {
    assert_eq!(
        parse_cite("doi:10.1103/PhysRev.47.777").unwrap(),
        ("doi".into(), "10.1103/PhysRev.47.777".into())
    );
    // A `manual:` key is the citation text: colons and interior spacing are
    // payload and must survive verbatim.
    assert_eq!(
        parse_cite("manual:Einstein, A.: On the Method").unwrap(),
        ("manual".into(), "Einstein, A.: On the Method".into())
    );
}

#[test]
fn rejects_specs_that_are_not_prefix_key() {
    for bad in ["1211.1037", ":1211.1037", "arxiv:"] {
        assert!(parse_cite(bad).is_err(), "{bad} should not parse");
    }
}

#[test]
fn list_skips_blanks_and_comments_and_numbers_errors() {
    let mut out = Vec::new();
    append_list(&mut out, "# a note\n\n  arxiv:1211.1037  \n", "f").unwrap();
    assert_eq!(out, vec![("arxiv".into(), "1211.1037".into())]);

    let err = append_list(&mut out, "doi:ok\nnope\n", "f").unwrap_err();
    assert!(err.starts_with("f:2:"), "{err}");
}
