//! Whole courses: a retrieval from its first pass to its report, and a source that is asked
//! until it needs no more requests.

use std::collections::BTreeSet;
use std::time::Duration;

use autocitefetch::csl::get_str;
use autocitefetch::filecache::load_merged;
use autocitefetch::formats::{parser_for, Format, FormatParser};
use autocitefetch::index::TextMap;
use autocitefetch::inquiry::Inquiry;
use autocitefetch::json::read_json;
use autocitefetch::members::{members, values};
use autocitefetch::session::{Action, Session};
use autocitefetch::setup::BuiltIn;
use autocitefetch::source::arxiv::ArxivSource;
use autocitefetch::source::bibfile::BibliographyFileSource;
use autocitefetch::source::doi::DoiSource;
use autocitefetch::source::manual::ManualSource;
use autocitefetch::{
    CitationManager, CslValue, FetchError, FileCacheStore, Outcome, Resolution, Response,
    RetrieveReport, Timestamp,
};

fn json(text: &str) -> CslValue {
    read_json(text.as_bytes()).unwrap()
}

fn texts(s: &[&str]) -> Vec<String> {
    s.iter().map(|t| t.to_string()).collect()
}

fn ok(body: &str) -> Result<Response, FetchError> {
    Ok(Response { status: 200, headers: TextMap::new(), body: body.as_bytes().to_vec() })
}

// --- retrievals ------------------------------------------------------------------

/// What a retrieval did: the ids that it asked for, the passes, and the report.
struct Course {
    asked: Vec<String>,
    passes: usize,
    report: RetrieveReport,
}

/// Carries a retrieval out over a source in which each key points at others in turn.
fn carried_out(limit: usize, keys: &[&str], next: &dyn Fn(&str) -> Option<String>) -> Course {
    let merged = load_merged(Ok(None), "d/c.jsonl", Vec::new()).unwrap();
    let mut store = FileCacheStore::open("d", "c", "w", merged);
    let source: BibliographyFileSource<FormatParser> =
        BibliographyFileSource::new(Vec::new()).with_parser(parser_for(Format::Json));
    let mgr = CitationManager::new()
        .with_max_chain_depth(limit)
        .register("c", source.with_ttl(Duration::from_secs(3600)))
        .unwrap();
    let cites: Vec<(String, String)> =
        keys.iter().map(|k| ("c".to_string(), k.to_string())).collect();
    let mut session = Session::new(&cites);
    let mut asked = Vec::new();
    let mut passes = 0;
    loop {
        match session.next(&mgr, &mut store, Timestamp::from_millis(0)) {
            Action::Planned { .. } => passes += 1,
            Action::Ask { prefix, keys } => {
                let mut got = Vec::new();
                for k in &keys {
                    asked.push(format!("{prefix}:{k}"));
                    got.push(match next(k) {
                        Some(target) => Resolution {
                            key: k.clone(),
                            outcome: Outcome::Chained {
                                prefix: "c".to_string(),
                                key: target,
                                set_properties: json("{}"),
                            },
                        },
                        None => Resolution {
                            key: k.clone(),
                            outcome: Outcome::Concrete { csl: json(r#"{"title":"t"}"#), ttl: None },
                        },
                    });
                }
                session.answer(got);
            }
            Action::Finished { .. } => break,
            _ => {}
        }
    }
    Course { asked, passes, report: session.into_report() }
}

fn successor(k: &str) -> Option<String> {
    Some((k.parse::<u32>().unwrap() + 1).to_string())
}

#[test]
fn a_chain_without_end_is_left_at_the_limit() {
    for limit in [1, 2, 3, 8] {
        let c = carried_out(limit, &["0"], &successor);
        let expected: Vec<String> = (0..limit).map(|k| format!("c:{k}")).collect();
        assert_eq!(c.asked, expected, "limit {limit}");
        assert!(c.passes <= limit + 1, "limit {limit}: {} passes", c.passes);
        assert_eq!(c.report.failures.len(), 1);
        assert_eq!(c.report.failures[0].key, limit.to_string());
        assert_eq!(
            c.report.failures[0].message,
            format!("citation chain error: `c:{limit}` is more than {limit} links from a requested citation")
        );
    }
}

#[test]
fn no_citation_is_asked_for_twice() {
    // A ring, entered at several places, and a request that stands twice.
    let ring = |k: &str| Some(((k.parse::<u32>().unwrap() + 1) % 5).to_string());
    let c = carried_out(8, &["0", "3", "0", "1"], &ring);
    let distinct: BTreeSet<&String> = c.asked.iter().collect();
    assert_eq!(distinct.len(), c.asked.len(), "asked: {:?}", c.asked);
    assert_eq!(distinct.len(), 5);
    assert!(c.passes <= 9);
    assert!(c.report.is_complete(), "{:?}", c.report.failures);
}

#[test]
fn a_chain_that_ends_before_the_limit_is_complete() {
    let short = |k: &str| if k == "2" { None } else { successor(k) };
    let c = carried_out(3, &["0"], &short);
    assert_eq!(c.asked, texts(&["c:0", "c:1", "c:2"]));
    assert!(c.report.is_complete(), "{:?}", c.report.failures);
}

// --- inquiries -------------------------------------------------------------------

/// Asks a source with these replies, one after another, and says which URLs were asked
/// for and what it came to.
fn asked(
    source: &BuiltIn,
    keys: &[&str],
    replies: Vec<Result<Response, FetchError>>,
) -> (Vec<String>, Vec<Resolution>) {
    let mut replies = replies.into_iter();
    let mut urls = Vec::new();
    let mut inquiry = Inquiry::begin(source, "p", &texts(keys));
    while let Some(req) = inquiry.request(source) {
        urls.push(req.url.clone());
        inquiry = inquiry.reply(source, replies.next().expect("one request too many"));
    }
    assert!(replies.next().is_none(), "one request too few");
    (urls, inquiry.resolutions())
}

fn bib(files: &[&str]) -> BuiltIn {
    BuiltIn::Bib(BibliographyFileSource::new(texts(files)).with_parser(parser_for(Format::Json)))
}

fn title(r: &Resolution) -> String {
    match &r.outcome {
        Outcome::Concrete { csl, .. } => {
            get_str(csl, &["title"]).expect("a title").clone()
        }
        other => panic!("{other:?}"),
    }
}

fn failure(r: &Resolution) -> String {
    match &r.outcome {
        Outcome::Failed(e) => e.message(),
        other => panic!("{other:?}"),
    }
}

#[test]
fn a_bibliography_is_read_file_by_file() {
    let source = bib(&["a.json", "b.json"]);
    let a = r#"[{"id":"x","title":"first"},{"id":"y","title":"only"}]"#;
    let b = r#"[{"id":"x","title":"second"}]"#;
    let (urls, got) = asked(&source, &["x", "y", "z"], vec![ok(a), ok(b)]);
    assert_eq!(urls, ["a.json", "b.json"]);
    assert_eq!(got.len(), 3);
    assert_eq!(title(&got[0]), "second");
    assert_eq!(title(&got[1]), "only");
    assert!(matches!(got[2].outcome, Outcome::Missing(_)));

    // No file, no request.
    let (urls, got) = asked(&bib(&[]), &["x"], Vec::new());
    assert!(urls.is_empty());
    assert!(matches!(got[0].outcome, Outcome::Missing(_)));
}

#[test]
fn the_first_file_that_cannot_be_loaded_fails_every_key() {
    let source = bib(&["a.json", "b.json", "c.json"]);
    let a = r#"[{"id":"x","title":"first"}]"#;
    let down = Err(FetchError::Transport("down".to_string()));
    let (urls, got) = asked(&source, &["x", "y"], vec![ok(a), down]);
    assert_eq!(urls, ["a.json", "b.json"], "nothing is asked for after it");
    assert_eq!(got.len(), 2);
    for (r, key) in got.iter().zip(["x", "y"]) {
        assert_eq!(r.key, key);
        assert_eq!(failure(r), "source error: fetch error: transport: down");
    }
}

#[test]
fn the_file_of_overriding_dois_comes_before_the_feed() {
    let source = BuiltIn::Arxiv(ArxivSource::new().with_override_dois_file("https://h/dois.json"));
    let (urls, got) = asked(&source, &["1211.1037"], vec![ok("[]")]);
    assert_eq!(urls, ["https://h/dois.json"], "without it the feed is not asked for");
    assert!(failure(&got[0]).contains("DOI-override file"), "{}", failure(&got[0]));

    let down = Err(FetchError::Status(503));
    let (urls, got) = asked(&source, &["1211.1037"], vec![ok("{}"), down]);
    assert_eq!(
        urls,
        [
            "https://h/dois.json",
            "https://export.arxiv.org/api/query?id_list=1211.1037&max_results=1"
        ]
    );
    assert_eq!(got.len(), 1);
    assert!(!failure(&got[0]).contains("DOI-override file"), "{}", failure(&got[0]));

    let plain = BuiltIn::Arxiv(ArxivSource::new());
    let (urls, _) = asked(&plain, &["1211.1037"], vec![Err(FetchError::Status(503))]);
    assert_eq!(urls.len(), 1);
}

#[test]
fn dois_are_asked_for_one_by_one_and_refused_ones_not_at_all() {
    let source = BuiltIn::Doi(DoiSource::new());
    let (urls, got) = asked(
        &source,
        &["", "10.1/a", "10.1/b c", "10.1/d"],
        vec![ok(r#"{"title":"a"}"#), Err(FetchError::Status(503))],
    );
    assert_eq!(urls, ["https://doi.org/10.1/a", "https://doi.org/10.1/d"]);
    let keys: Vec<&str> = got.iter().map(|r| r.key.as_str()).collect();
    assert_eq!(keys, ["", "10.1/a", "10.1/b c", "10.1/d"]);
    assert!(failure(&got[0]).contains("empty DOI"));
    assert_eq!(title(&got[1]), "a");
    assert!(failure(&got[2]).contains("contains whitespace"));
    assert!(matches!(got[3].outcome, Outcome::Failed(_)));
}

#[test]
fn manual_citations_need_no_request() {
    let source = BuiltIn::Manual(ManualSource::new("text"));
    let (urls, got) = asked(&source, &["one", "two"], Vec::new());
    assert!(urls.is_empty());
    assert_eq!(got.len(), 2);
    // Before the requests are answered there are no resolutions.
    let open = Inquiry::begin(&bib(&["a.json"]), "p", &texts(&["x"]));
    assert!(open.resolutions().is_empty());
}

// --- members ---------------------------------------------------------------------

fn cut(text: &str) -> Vec<(String, String)> {
    members(text)
}

#[test]
fn an_object_is_cut_into_its_members() {
    let got = cut(r#"{"a":1,"b":{"c":[1,2],"d":"},{"},"a":"x\\\"y"}"#);
    let pair = |n: &str, v: &str| (n.to_string(), v.to_string());
    assert_eq!(
        got,
        [
            pair(r#""a""#, "1"),
            pair(r#""b""#, r#"{"c":[1,2],"d":"},{"}"#),
            pair(r#""a""#, r#""x\\\"y""#),
        ]
    );
    assert_eq!(values(&got, "a"), ["1", r#""x\\\"y""#]);
    assert_eq!(values(&got, "b").len(), 1);
    assert!(values(&got, "c").is_empty());
    // A name is compared as what it reads as.
    let escaped = cut("{\"\\u0061\":1,\"a\":2}");
    assert_eq!(values(&escaped, "a"), ["1", "2"]);
}
