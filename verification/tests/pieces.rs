//! The pieces that the rest is made of: URLs, values, texts, hashes, feeds and chunks.

use std::time::Duration;

use autocitefetch::csl::{cite_id, get_str, merge_defaults, merge_over, set_id};
use autocitefetch::driver::{chunked, pacing_wait};
use autocitefetch::filecache::load_merged;
use autocitefetch::hash::{fnv1a, low_bytes};
use autocitefetch::index::TextMap;
use autocitefetch::json::{read_json, read_yaml, write_json};
use autocitefetch::lines::byte_lines;
use autocitefetch::session::{Action, Session};
use autocitefetch::source::atom::{decode_entities, parse_feed};
use autocitefetch::source::folded_key;
use autocitefetch::source::manual::ManualSource;
use autocitefetch::sorted::SortedMap;
use autocitefetch::text::{collapse_ws, decimal_text, signed, trimmed, unsigned, words_of};
use autocitefetch::urls::{is_http, local_path, percent_decode, percent_encode};
use autocitefetch::{
    CitationManager, CslValue, Error, FetchError, FileCacheStore, Method, Request, Response,
    Source, StoreError, Timestamp,
};

fn json(text: &str) -> CslValue {
    read_json(text.as_bytes()).unwrap()
}

fn texts(s: &[&str]) -> Vec<String> {
    s.iter().map(|t| t.to_string()).collect()
}

// --- URLs ----------------------------------------------------------------------

#[test]
fn decoding_undoes_encoding() {
    for s in ["", "plain-text_1.2~", "a b/c?d=e&f%20", "ünïcødé ☃", "100%"] {
        for slash in [true, false] {
            assert_eq!(percent_decode(&percent_encode(s, slash)), s, "{s:?}");
        }
    }
    assert_eq!(percent_encode("a/b c", true), "a/b%20c");
    assert_eq!(percent_encode("a/b c", false), "a%2Fb%20c");
    assert_eq!(percent_encode("é", false), "%C3%A9");
}

#[test]
fn what_is_no_escape_stays() {
    assert_eq!(percent_decode("100%"), "100%");
    assert_eq!(percent_decode("%zz%4"), "%zz%4");
    assert_eq!(percent_decode("%41%6a"), "Aj");
    // Bytes that are no UTF-8 are replaced.
    assert_eq!(percent_decode("%ff!"), "\u{fffd}!");
}

#[test]
fn files_are_told_from_the_network() {
    assert!(is_http("http://x") && is_http("https://x"));
    assert!(!is_http("file:///x") && !is_http("refs.json") && !is_http("httpx://"));
    assert_eq!(local_path("file:///tmp/a%20b.json"), "/tmp/a b.json");
    assert_eq!(local_path("file://host/tmp/x"), "/tmp/x");
    assert_eq!(local_path("file://nothing"), "nothing");
    assert_eq!(local_path("file:rel/x"), "rel/x");
    assert_eq!(local_path("file:/abs/x"), "/abs/x");
    // A bare path is taken as it stands.
    assert_eq!(local_path("dir/100%25.json"), "dir/100%25.json");
}

// --- values ----------------------------------------------------------------------

#[test]
fn members_are_merged_over_and_under() {
    let mut a = json(r#"{"x":1,"y":2}"#);
    merge_over(&mut a, &json(r#"{"y":3,"z":4}"#));
    assert_eq!(a, json(r#"{"x":1,"y":3,"z":4}"#));
    let mut b = json(r#"{"x":1,"y":2}"#);
    merge_defaults(&mut b, &json(r#"{"y":3,"z":4}"#));
    assert_eq!(b, json(r#"{"x":1,"y":2,"z":4}"#));
    // What is no object is left alone, and gives nothing.
    let mut c = json("[1]");
    merge_over(&mut c, &json(r#"{"y":3}"#));
    assert_eq!(c, json("[1]"));
    let mut d = json(r#"{"x":1}"#);
    merge_defaults(&mut d, &json("null"));
    assert_eq!(d, json(r#"{"x":1}"#));
}

#[test]
fn ids_are_set_on_objects_only() {
    assert_eq!(cite_id("doi", "10.1/x"), "doi:10.1/x");
    let mut v = json(r#"{"id":"old","t":1}"#);
    assert!(set_id(&mut v, "doi:1"));
    assert_eq!(v, json(r#"{"id":"doi:1","t":1}"#));
    let mut v = json("[]");
    assert!(!set_id(&mut v, "doi:1"));
    assert_eq!(v, json("[]"));
}

#[test]
fn the_first_text_among_members_is_found() {
    let v = json(r#"{"a":1,"b":"two","c":"three"}"#);
    assert_eq!(get_str(&v, &["a", "b", "c"]).map(|s| s.as_str()), Some("two"));
    assert_eq!(get_str(&v, &["a", "x"]), None);
    assert_eq!(get_str(&json("7"), &["a"]), None);
}

#[test]
fn json_and_yaml_are_read_and_written() {
    let text = r#"{"b":[1,-2.5,1e400,null,true],"a":{"ü":"\n\"\\"}}"#;
    // Members come in the order of their names.
    assert!(read_json(text.as_bytes()).is_err(), "a number beyond range is refused");
    let text = r#"{"b":[1,-2.5,null,true],"a":{"ü":"\n\"\\"}}"#;
    assert_eq!(write_json(&json(text), true), r#"{"a":{"ü":"\n\"\\"},"b":[1,-2.5,null,true]}"#);
    assert_eq!(write_json(&json(r#"{"a":[1]}"#), false), "{\n  \"a\": [\n    1\n  ]\n}");
    assert_eq!(read_yaml(b"a: [1, two]\n").unwrap(), json(r#"{"a":[1,"two"]}"#));
    assert!(read_json(b"{").is_err());
    assert!(read_json(b"{} x").is_err());
    // The last of two members with one name counts.
    assert_eq!(json(r#"{"a":1,"a":2}"#), json(r#"{"a":2}"#));
}

#[test]
fn maps_keep_their_orders() {
    let mut sorted: SortedMap<u8> = SortedMap::new();
    let mut kept: TextMap<u8> = TextMap::new();
    for (i, k) in ["b", "a", "é", "z", "a"].iter().enumerate() {
        sorted.insert(k.to_string(), i as u8);
        kept.insert(k.to_string(), i as u8);
    }
    let in_order: Vec<&str> = (0..sorted.len()).map(|i| sorted.key_at(i).as_str()).collect();
    assert_eq!(in_order, ["a", "b", "z", "é"]);
    let as_came: Vec<&str> = (0..kept.len()).map(|i| kept.key_at(i).as_str()).collect();
    assert_eq!(as_came, ["b", "a", "é", "z"]);
    assert_eq!((sorted.get("a"), kept.get("a")), (Some(&4), Some(&4)));
    sorted.remove("a");
    assert_eq!(sorted.get("a"), None);
    assert_eq!(sorted.len(), 3);
}

// --- texts, numbers and hashes ----------------------------------------------------

#[test]
fn texts_are_trimmed_and_collapsed() {
    assert_eq!(trimmed("\u{a0} x y\t\n"), "x y");
    assert_eq!(collapse_ws("  a \n b\u{2003}c "), "a b c");
    assert_eq!(words_of(" a  b "), ["a", "b"]);
    assert_eq!(folded_key("  10.1/AbÉ "), "10.1/abÉ");
    assert_eq!(byte_lines(b"a\n\nb"), [b"a".to_vec(), b"".to_vec(), b"b".to_vec()]);
}

#[test]
fn numbers_are_read_as_the_standard_library_reads_them() {
    for s in ["0", "7", "+7", "007", "-7", "", "+", "-", "1 ", "x", "18446744073709551615", "18446744073709551616"] {
        assert_eq!(unsigned(s, u64::MAX), s.parse::<u64>().ok(), "{s:?}");
        assert_eq!(signed(s), s.parse::<i64>().ok(), "{s:?}");
    }
    assert_eq!(unsigned("256", 255), None);
    for n in [0, 9, 10, 1234567890, u64::MAX] {
        assert_eq!(decimal_text(n), n.to_string());
    }
}

#[test]
fn hashes_are_those_of_the_published_algorithm() {
    assert_eq!(fnv1a(b""), 0xcbf2_9ce4_8422_2325);
    assert_eq!(fnv1a(b"a"), 0xaf63_dc4c_8601_ec8c);
    assert_eq!(fnv1a(b"foobar"), 0x8594_4171_f739_67e8);
    assert_eq!(low_bytes(0x0102_0304, 4), [4, 3, 2, 1]);
}

// --- requests and errors ----------------------------------------------------------

#[test]
fn requests_are_built_step_by_step() {
    let r = Request::get("u").header("Accept", "x").header("ACCEPT", "y");
    assert_eq!(r.method, Method::Get);
    assert_eq!(r.headers.get("accept").map(|s| s.as_str()), Some("y"));
    assert_eq!(r.headers.len(), 1);
    let r = Request::post("u").with_body(b"b".to_vec());
    assert_eq!(r.method, Method::Post);
    assert_eq!(r.body.as_deref(), Some(&b"b"[..]));
    let ok = Response { status: 299, headers: TextMap::new(), body: b"\xc3\xa9".to_vec() };
    assert!(ok.is_success());
    assert_eq!(ok.text().unwrap(), "é");
    let bad = Response { status: 300, headers: TextMap::new(), body: vec![0xff] };
    assert!(!bad.is_success());
    assert!(bad.text().is_err());
}

#[test]
fn every_error_has_its_text() {
    for (error, want) in [
        (Error::UnknownPrefix("x".into()), "no source registered for prefix `x`"),
        (
            Error::InvalidPrefix("a:b".into()),
            "invalid source prefix `a:b`: must be non-empty and contain no ':'",
        ),
        (Error::InvalidId("x".into()), "malformed citation id `x`: expected `prefix:key`"),
        (Error::NotFound("doi:1".into()), "citation `doi:1` not found"),
        (Error::Chain("c".into()), "citation chain error: c"),
        (Error::from(FetchError::Status(404)), "fetch error: http status 404"),
        (Error::Fetch(FetchError::Transport("t".into())), "fetch error: transport: t"),
        (Error::Fetch(FetchError::Other("o".into())), "fetch error: o"),
        (Error::from(StoreError("disk".into())), "cache store error: disk"),
        (Error::Parse("p".into()), "parse error: p"),
        (Error::Source("s".into()), "source error: s"),
    ] {
        assert_eq!(error.message(), want, "{error:?}");
    }
}

// --- feeds -------------------------------------------------------------------------

#[test]
fn references_undo_escaping() {
    assert_eq!(decode_entities("a &amp;lt; &lt;b&gt; &#65;&#x42;"), "a &lt; <b> AB");
    assert_eq!(decode_entities("&#xD800;&#0;&nbsp;&"), "&#xD800;\u{0}&nbsp;&");
}

#[test]
fn fields_are_read_inside_entries_only() {
    let feed = "<feed><title>F</title><updated>1999</updated><entry>\
        <id>http://arxiv.org/abs/1.2v3</id><title>T</title>\
        <author><name>A B</name></author></entry></feed>";
    let entries = parse_feed(feed).unwrap();
    assert_eq!(entries.len(), 1);
    assert_eq!(entries[0].arxivid, "1.2");
    assert_eq!(entries[0].version, Some(3));
    assert_eq!(entries[0].title.as_deref(), Some("T"));
    assert_eq!(entries[0].authors, ["A B"]);
    assert_eq!(entries[0].updated, None);
    assert!(parse_feed("<a><b></a>").is_ok(), "a tokenizer does not match tags");
    assert!(parse_feed("<<").is_err());
}

// --- chunks, pauses and the course of a retrieval ----------------------------------

#[test]
fn chunks_lose_nothing() {
    let keys = texts(&["a", "b", "c", "d", "e"]);
    assert_eq!(chunked(&keys, 2), [texts(&["a", "b"]), texts(&["c", "d"]), texts(&["e"])]);
    assert_eq!(chunked(&keys, 0).len(), 5, "a chunk has at least one key");
    assert_eq!(chunked(&keys, usize::MAX), std::slice::from_ref(&keys));
    assert!(chunked(&Vec::new(), 3).is_empty());
}

#[test]
fn pauses_run_from_start_to_start() {
    let at = |ms| Timestamp::from_millis(ms);
    let gap = Duration::from_millis(1100);
    assert_eq!(pacing_wait(None, at(0), gap), None);
    assert_eq!(pacing_wait(Some(at(0)), at(200), gap), Some(Duration::from_millis(900)));
    assert_eq!(pacing_wait(Some(at(0)), at(1100), gap), None);
    // A clock that was set back.
    assert_eq!(pacing_wait(Some(at(500)), at(0), gap), Some(gap));
    assert_eq!(pacing_wait(Some(at(0)), at(0), Duration::ZERO), None);
    // An interval need not be one of whole milliseconds.
    let short = Duration::from_micros(500);
    assert_eq!(pacing_wait(Some(at(0)), at(0), short), Some(short));
    assert_eq!(pacing_wait(Some(at(0)), at(1), short), None);
    let odd = Duration::from_micros(1500);
    assert_eq!(pacing_wait(Some(at(0)), at(1), odd), Some(Duration::from_micros(500)));
    assert_eq!(pacing_wait(Some(at(0)), at(2), odd), None);
}

#[test]
fn a_retrieval_takes_its_course() {
    let merged = load_merged(Ok(None), "d/c.jsonl", Vec::new()).unwrap();
    let mut store = FileCacheStore::open("d", "c", "w", merged);
    let mgr = CitationManager::new().register("manual", ManualSource::new("text")).unwrap();
    let now = Timestamp::from_millis(0);
    let cites = vec![
        ("manual".to_string(), "one".to_string()),
        ("nobody".to_string(), "two".to_string()),
        ("manual".to_string(), "one".to_string()),
    ];
    let mut session = Session::new(&cites);
    assert!(session.report().is_complete());
    assert!(session.progress().is_none());

    let a = session.next(&mgr, &mut store, now);
    assert!(matches!(a, Action::Planned { pass: 1, cached: 0, to_fetch: 1 }));
    let a = session.next(&mgr, &mut store, now);
    assert!(matches!(a, Action::Began { total: 1, chunks: 1, .. }));
    let a = session.next(&mgr, &mut store, now);
    let Action::Ask { prefix, keys } = a else {
        panic!("the source is to be asked");
    };
    assert_eq!((prefix.as_str(), keys.clone()), ("manual", texts(&["one"])));
    session.answer(mgr.source(&prefix).unwrap().retrieve_chunk(&keys));
    let a = session.next(&mgr, &mut store, now);
    assert!(matches!(a, Action::Ended { done: 1, .. }));
    let a = session.next(&mgr, &mut store, now);
    let Action::Settled { notes } = a else {
        panic!("the answers are to be settled");
    };
    assert_eq!(notes.len(), 1);
    assert!(notes[0].line.is_none(), "what lives for no time is not written");
    let a = session.next(&mgr, &mut store, now);
    assert!(matches!(a, Action::Closed { pass: 1, discovered: 0 }));
    for _ in 0..2 {
        let a = session.next(&mgr, &mut store, now);
        assert!(matches!(a, Action::Finished { considered: 2, failed: 1 }));
    }
    let report = session.into_report();
    assert_eq!(report.failures[0].message, "no source registered for prefix `nobody`");
}

#[test]
fn a_key_that_nobody_answers_is_reported() {
    let merged = load_merged(Ok(None), "d/c.jsonl", Vec::new()).unwrap();
    let mut store = FileCacheStore::open("d", "c", "w", merged);
    let mgr = CitationManager::new().register("manual", ManualSource::new("text")).unwrap();
    assert_eq!(mgr.source("manual").unwrap().default_ttl(), Duration::ZERO);
    let mut session = Session::new(&[("manual".to_string(), "one".to_string())]);
    loop {
        // The host never hands an answer over.
        let a = session.next(&mgr, &mut store, Timestamp::from_millis(0));
        if let Action::Finished { failed, .. } = a {
            assert_eq!(failed, 1);
            break;
        }
    }
    assert!(session.into_report().failures[0].message.contains("no resolution"));
}
