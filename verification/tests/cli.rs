//! The command line: sources, citations, warnings, progress lines and the output.

use std::time::Duration;

use autocitefetch::cli::SourceKind::{Arxiv, Bib, Doi, Manual};
use autocitefetch::cli::{warn_about_unusable_options, Cli, SourceKind};
use autocitefetch::filecache::load_merged;
use autocitefetch::formats::Format;
use autocitefetch::input::{append_list, collect, lists_to_read, parse_cite, prefixes};
use autocitefetch::json::read_json;
use autocitefetch::output::{
    closing_text, error_line, exit_status, failure_text, incomplete_text, message_line, opening_text,
    output_text,
};
use autocitefetch::progress::StderrReporter;
use autocitefetch::setup::{build_arxiv, build_manager, BuiltIn};
use autocitefetch::source::arxiv::ArxivSource;
use autocitefetch::source::doi::DoiSource;
use autocitefetch::{
    CacheRecord, CitationManager, CiteFailure, CslValue, Error, Event, FetchError, FileCacheStore,
    Payload, Resolved, Source, Timestamp, Wait,
};

fn cli() -> Cli {
    Cli {
        input: Vec::new(),
        cite: Vec::new(),
        output: None,
        compact: false,
        enable: Vec::new(),
        disable: Vec::new(),
        bib: Vec::new(),
        bib_format: Format::Auto,
        arxiv_doi_overrides: None,
        no_arxiv_chaining: false,
        manual_format: None,
        drop_field: Vec::new(),
        cache_dir: ".".to_string(),
        cache_name: ".citations".to_string(),
        user_agent: None,
        verbose: 0,
    }
}

fn texts(s: &[&str]) -> Vec<String> {
    s.iter().map(|t| t.to_string()).collect()
}

fn pairs(s: &[(&str, &str)]) -> Vec<(String, String)> {
    s.iter().map(|(p, k)| (p.to_string(), k.to_string())).collect()
}

#[test]
fn sources_are_narrowed_and_come_once() {
    assert_eq!(cli().enabled_sources(), [Arxiv, Doi, Bib, Manual]);
    let c = Cli { disable: vec![Bib, Doi], ..cli() };
    assert_eq!(c.enabled_sources(), [Arxiv, Manual]);
    let c = Cli { enable: vec![Doi, Arxiv, Doi], ..cli() };
    assert_eq!(c.enabled_sources(), [Doi, Arxiv]);
    let c = Cli { enable: vec![Doi], disable: vec![Doi], ..cli() };
    assert!(c.enabled_sources().is_empty());
    let all: Vec<&str> = SourceKind::all().iter().map(|k| k.prefix()).collect();
    assert_eq!(all, ["arxiv", "doi", "bib", "manual"]);
}

#[test]
fn the_manual_format_has_a_default() {
    assert_eq!(cli().manual_format(), "flm");
    let c = Cli { manual_format: Some("latex".to_string()), ..cli() };
    assert_eq!(c.manual_format(), "latex");
}

#[test]
fn complaints_about_specs_name_them() {
    assert_eq!(parse_cite("nope").unwrap_err(), "`nope`: expected `prefix:key`");
    assert_eq!(parse_cite(" :k").unwrap_err(), "` :k`: empty citation prefix");
    assert_eq!(parse_cite("p:").unwrap_err(), "`p:`: empty citation key");
    assert_eq!(parse_cite(" p : k ").unwrap(), ("p".to_string(), " k ".to_string()));
}

#[test]
fn a_list_that_fails_keeps_what_came_before() {
    let mut out = pairs(&[("x", "1")]);
    let err = append_list(&mut out, "a:1\r\n#b:2\n:3\nc:4", "list").unwrap_err();
    assert_eq!(err, "list:3: `:3`: empty citation prefix");
    assert_eq!(out, pairs(&[("x", "1"), ("a", "1")]));
}

#[test]
fn citations_are_collected_in_order_and_once() {
    let c = Cli {
        input: texts(&["a.txt", "-"]),
        cite: texts(&["doi:2", "arxiv:1"]),
        ..cli()
    };
    assert_eq!(lists_to_read(&c), ["a.txt", "-"]);
    let got = collect(&c, &texts(&["arxiv:1\ndoi:2\n", "doi:3\narxiv:1\n"])).unwrap();
    assert_eq!(got, pairs(&[("arxiv", "1"), ("doi", "2"), ("doi", "3")]));
    assert_eq!(prefixes(&got), ["arxiv", "doi"]);

    // Standard input is read only where nothing else is given.
    assert_eq!(lists_to_read(&cli()), ["<stdin>"]);
    assert_eq!(
        collect(&cli(), &texts(&["nope"])).unwrap_err(),
        "<stdin>:1: `nope`: expected `prefix:key`"
    );
    let c = Cli { cite: texts(&["doi:1"]), ..cli() };
    assert!(lists_to_read(&c).is_empty());
    assert_eq!(collect(&c, &Vec::new()).unwrap(), pairs(&[("doi", "1")]));
    let c = Cli { cite: texts(&["doi"]), ..cli() };
    assert_eq!(
        collect(&c, &Vec::new()).unwrap_err(),
        "--cite `doi`: expected `prefix:key`"
    );
}

#[test]
fn what_is_asked_for_in_vain_is_pointed_out() {
    let sources = vec![SourceKind::Doi];
    let c = Cli {
        bib: texts(&["refs.json"]),
        no_arxiv_chaining: true,
        manual_format: Some("flm".to_string()),
        ..cli()
    };
    assert_eq!(
        warn_about_unusable_options(&c, &pairs(&[("doi", "1"), ("isbn", "2"), ("isbn", "3")]), &sources),
        [
            "the `bib` source is disabled; --bib file(s) will be ignored",
            "the `arxiv` source is disabled; its options will be ignored",
            "the `manual` source is disabled; --manual-format will be ignored",
            "no enabled source for prefix `isbn`; those citations will fail",
        ]
    );
    assert_eq!(
        warn_about_unusable_options(&cli(), &pairs(&[("bib", "k")]), &SourceKind::all()),
        ["`bib:` citations were requested but no --bib file was given"]
    );
    assert!(warn_about_unusable_options(&cli(), &pairs(&[("doi", "1")]), &SourceKind::all()).is_empty());
}

#[test]
fn progress_lines_follow_the_level() {
    let quiet = StderrReporter::new(0);
    let some = StderrReporter::new(1);
    let all = StderrReporter::new(2);
    let err = Error::Source("down".to_string());
    let fetch = FetchError::Status(500);
    let second = Some(Duration::from_millis(1100));
    let hang = Some(Duration::from_secs(2));
    let cases = [
        (Event::RetrieveStarted { cites: 3 }, None, None),
        (
            Event::PassStarted { pass: 1, cached: 2, to_fetch: 3 },
            Some("pass 1: 2 cached, 3 to fetch"),
            Some("pass 1: 2 cached, 3 to fetch"),
        ),
        (Event::PassFinished { pass: 1, discovered: 0 }, None, None),
        (
            Event::PassFinished { pass: 1, discovered: 2 },
            Some("pass 1: queued 2 chained citation(s)"),
            Some("pass 1: queued 2 chained citation(s)"),
        ),
        (
            Event::SourceStarted { prefix: "doi", keys: 5, chunks: 5 },
            Some("doi: fetching 5 key(s) in 5 request(s)"),
            Some("doi: fetching 5 key(s) in 5 request(s)"),
        ),
        (
            Event::SourceProgress { prefix: "doi", done: 1, total: 5 },
            Some("doi: 1/5"),
            Some("doi: 1/5"),
        ),
        (
            Event::SourceFinished { prefix: "doi", done: 5 },
            Some("doi: 5 key(s) done"),
            Some("doi: 5 key(s) done"),
        ),
        (
            Event::CiteResolved { prefix: "doi", key: "1", how: Resolved::Concrete },
            None,
            Some("doi:1: resolved"),
        ),
        (
            Event::CiteResolved {
                prefix: "arxiv",
                key: "1",
                how: Resolved::Chained { prefix: "doi", key: "2" },
            },
            None,
            Some("arxiv:1 -> doi:2"),
        ),
        (
            Event::CiteFailed { prefix: "doi", key: "1", err: &err, grace_served: false },
            None,
            None,
        ),
        (
            Event::WaitStarted { what: Wait::RateLimit { prefix: "doi" }, expected: second },
            None,
            Some("doi: waiting LEN (rate limit)"),
        ),
        (
            Event::WaitStarted { what: Wait::RateLimit { prefix: "arxiv" }, expected: hang },
            Some("arxiv: waiting LEN (rate limit)"),
            Some("arxiv: waiting LEN (rate limit)"),
        ),
        (
            Event::WaitStarted { what: Wait::Backoff { url: "u", attempt: 0 }, expected: second },
            Some("retrying u in LEN (attempt 2)"),
            Some("retrying u in LEN (attempt 2)"),
        ),
        (
            Event::WaitStarted { what: Wait::CacheFlush, expected: None },
            Some("compacting the cache"),
            Some("compacting the cache"),
        ),
        (
            Event::WaitFinished { what: Wait::RateLimit { prefix: "doi" } },
            None,
            Some("doi: ...done waiting"),
        ),
        (
            Event::WaitFinished { what: Wait::Backoff { url: "u", attempt: 0 } },
            None,
            Some("...retrying u now"),
        ),
        (Event::WaitFinished { what: Wait::CacheFlush }, None, Some("...cache compacted")),
        (Event::RequestStarted { url: "u", attempt: 0 }, None, Some("GET u")),
        (Event::RequestStarted { url: "u", attempt: 1 }, None, Some("GET u (attempt 2)")),
        (Event::RequestFinished { url: "u", result: Ok(200) }, None, Some("200 <- u")),
        (
            Event::RetrieveFinished { considered: 4, failed: 1 },
            Some("retrieval done: 4 citation(s) considered, 1 failed"),
            Some("retrieval done: 4 citation(s) considered, 1 failed"),
        ),
    ];
    for (ev, one, two) in &cases {
        assert_eq!(quiet.line(ev, "LEN"), None, "{ev:?}");
        let named = |s: &Option<&str>| s.map(|s| format!("autocitefetch: {s}"));
        assert_eq!(some.line(ev, "LEN"), named(one), "{ev:?}");
        assert_eq!(all.line(ev, "LEN"), named(two), "{ev:?}");
        assert_eq!(StderrReporter::new(9).line(ev, "LEN"), named(two), "{ev:?}");
    }
    let served = Event::CiteFailed { prefix: "doi", key: "1", err: &err, grace_served: true };
    let line = some.line(&served, "").unwrap();
    assert_eq!(line, format!("autocitefetch: doi:1: {} — serving the cached copy", err.message()));
    let failed = Event::RequestFinished { url: "u", result: Err(&fetch) };
    let line = all.line(&failed, "").unwrap();
    assert_eq!(line, format!("autocitefetch: failed <- u: {}", fetch.message()));
}

fn failure(origin: Option<(&str, &str)>) -> CiteFailure {
    CiteFailure {
        prefix: "doi".to_string(),
        key: "10.1/x".to_string(),
        message: "gone".to_string(),
        origin: origin.map(|(p, k)| (p.to_string(), k.to_string())),
    }
}

#[test]
fn a_failure_line_names_the_request_behind_a_chain() {
    assert_eq!(failure_text(&failure(None)), "doi:10.1/x: gone");
    assert_eq!(failure_text(&failure(Some(("doi", "10.1/x")))), "doi:10.1/x: gone");
    assert_eq!(
        failure_text(&failure(Some(("arxiv", "1")))),
        "doi:10.1/x: gone (needed by arxiv:1)"
    );
}

#[test]
fn items_are_written_once_and_what_is_missing_is_counted() {
    let merged = load_merged(Ok(None), "d/c.jsonl", Vec::new()).unwrap();
    let mut store = FileCacheStore::open("d", "c", "w", merged);
    let record = |text: &str| CacheRecord {
        payload: Payload::Concrete(read_json(text.as_bytes()).unwrap()),
        stale_after: Timestamp::from_millis(1),
        expires: Timestamp::from_millis(2),
    };
    store.put("doi:10.1/a", record(r#"{"id":"doi:10.1/a","title":"A"}"#));
    store.put("doi:10.1/b", record(r#"{"id":"doi:10.1/b","title":"B"}"#));
    let mgr = CitationManager::new().register("doi", DoiSource::new()).unwrap();
    let cites = pairs(&[
        ("doi", "10.1/A"),
        ("doi", "10.1/b"),
        ("doi", " 10.1/a "),
        ("doi", "10.1/x"),
        ("doi", "10.1/y"),
    ]);
    let back = mgr.read_back(&store, &cites, &vec![failure(None)]);
    assert_eq!(back.items.len(), 2);
    assert_eq!(back.unresolved, 2);
    // A failure was reported of one of them already.
    assert_eq!(back.lines, ["doi:10.1/y: citation `doi:10.1/y` not found"]);
    assert_eq!(
        output_text(back.items, true),
        "[{\"id\":\"doi:10.1/a\",\"title\":\"A\"},{\"id\":\"doi:10.1/b\",\"title\":\"B\"}]\n"
    );
    assert_eq!(output_text(Vec::new(), false), "[]\n");
    assert_eq!(
        output_text(vec![CslValue::Null], false),
        "[\n  null\n]\n"
    );
}

#[test]
fn a_run_says_what_it_does_and_how_it_ended() {
    assert_eq!(opening_text(3, &vec![Arxiv, Doi, Manual]), "resolving 3 citation(s) via arxiv, doi, manual");
    assert_eq!(opening_text(1, &vec![Bib]), "resolving 1 citation(s) via bib");
    assert_eq!(opening_text(2, &vec![]), "resolving 2 citation(s) via no sources");
    assert_eq!(closing_text(12, 0), "wrote 12 item(s), 0 unresolved");
    assert_eq!(incomplete_text(4), "4 citation(s) could not be resolved (see above)");
    assert_eq!(message_line("doi:1: gone"), "autocitefetch: doi:1: gone");
    assert_eq!(error_line("no such file"), "autocitefetch: error: no such file");
    assert_eq!(exit_status(&Ok(0)), 0);
    assert_eq!(exit_status(&Ok(7)), 1);
    assert_eq!(exit_status(&Err("no such file".to_string())), 2);
}

/// Exactly the enabled sources are bound, each with its own chunks and pauses.
#[test]
fn a_manager_binds_the_enabled_sources() {
    let c = Cli { drop_field: texts(&["reference", "abstract"]), ..cli() };
    let m = build_manager(&c, &vec![Doi, Manual], &Vec::new());
    assert!(matches!(m.source("doi"), Some(BuiltIn::Doi(_))));
    assert!(matches!(m.source("manual"), Some(BuiltIn::Manual(_))));
    assert!(m.source("arxiv").is_none());
    assert!(m.source("bib").is_none());
    assert_eq!(m.dropped_csl_fields(), &texts(&["reference", "abstract"]));
    assert_eq!(m.max_chain_depth(), 16);
    assert_eq!((m.policy().stale_percent, m.policy().jitter_percent), (80, 15));
    assert_eq!(m.policy().grace, Duration::from_secs(14 * 24 * 60 * 60));
    assert_eq!(m.retry_policy().max_retries, 5);
    assert_eq!(m.retry_policy().base, Duration::from_millis(500));
    assert_eq!(m.retry_policy().cap, Duration::from_secs(30));
    assert!(m.retry_policy().honor_retry_after);

    let all = build_manager(&cli(), &SourceKind::all(), &Vec::new());
    let doi = all.source("doi").unwrap();
    assert_eq!(doi.chunk_size(), 1);
    assert_eq!(doi.min_interval(), Duration::from_millis(1100));
    assert_eq!(doi.normalize_key(" 10.1103/PhysRev "), "10.1103/physrev");
    let arxiv = all.source("arxiv").unwrap();
    assert_eq!(arxiv.chunk_size(), 100);
    assert_eq!(arxiv.normalize_key(" quant-ph/0001001 "), "quant-ph/0001001");
    let manual = all.source("manual").unwrap();
    assert_eq!(manual.normalize_key(" Bohr, N. "), " Bohr, N. ");
    assert_eq!(manual.chunk_size(), usize::MAX);
}

/// The overrides of the command line reach the arXiv source.
#[test]
fn an_arxiv_source_is_built_with_its_overrides() {
    let dois = vec![
        ("1211.1037".to_string(), Some("10.1000/x".to_string())),
        ("1211.1038".to_string(), None),
    ];
    let built: ArxivSource = build_arxiv(&cli(), dois);
    let table = built.overrides(None).unwrap();
    assert_eq!(table.get("1211.1037").unwrap().as_deref(), Some("10.1000/x"));
    assert_eq!(table.get("1211.1038").unwrap().as_deref(), None);
    assert!(table.get("1211.1039").is_none());
}
