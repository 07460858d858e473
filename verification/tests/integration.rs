//! Retrieval end to end with the DOI and the manual source, with a table of URLs in place
//! of the network.

use std::cell::{Cell, RefCell};
use std::collections::BTreeMap;
use std::rc::Rc;
use std::time::Duration;

use autocitefetch::filecache::load_merged;
use autocitefetch::json::{read_json, write_json};
use autocitefetch::retry::Attempts;
use autocitefetch::session::{Action, Session};
use autocitefetch::source::folded_key;
use autocitefetch::index::TextMap;
use autocitefetch::source::doi::DoiSource;
use autocitefetch::source::manual::ManualSource;
use autocitefetch::{
    CacheRecord, CitationManager, Clock, CslValue, Error, FetchError, FileCacheStore, Outcome, Payload,
    Request, Resolution, Response, RetrieveReport, RetryPolicy, Source, StoreError, Timestamp,
    TtlPolicy,
};
use serde_json::Value;

// --- a host: it fetches, waits and keeps the store, and asks the library what to do ---

trait Fetcher {
    fn fetch(&self, req: &Request) -> Result<Response, FetchError>;
}

trait Timer {
    fn sleep(&self, dur: Duration);
}

/// What a source is given to answer with: the prefix it is bound to, and a fetcher that
/// tries again where the policy says so.
struct Ctx<'a> {
    prefix: &'a str,
    fetcher: &'a dyn Fetcher,
    timer: &'a dyn Timer,
    retries: RetryPolicy,
}

impl Ctx<'_> {
    fn fetch(&self, req: &Request) -> Result<Response, FetchError> {
        let mut attempts = Attempts::new();
        loop {
            let reply = self.fetcher.fetch(req);
            match attempts.after(&self.retries, &req.url, &reply) {
                Some(dur) => self.timer.sleep(dur),
                None => return reply,
            }
        }
    }
}

/// A source together with how the host gets its answers.
trait Answers {
    fn normalize(&self, key: &str) -> String {
        folded_key(key)
    }
    fn chunk(&self) -> usize {
        512
    }
    fn interval(&self) -> Duration {
        Duration::from_millis(1000)
    }
    fn ttl(&self) -> Duration {
        Duration::from_secs(30 * 24 * 60 * 60)
    }
    fn answer(&self, keys: Vec<String>, ctx: &Ctx<'_>) -> Vec<Resolution>;
}

struct Bound(Box<dyn Answers>);

impl Source for Bound {
    fn normalize_key(&self, key: &str) -> String {
        self.0.normalize(key)
    }
    fn chunk_size(&self) -> usize {
        self.0.chunk()
    }
    fn min_interval(&self) -> Duration {
        self.0.interval()
    }
    fn default_ttl(&self) -> Duration {
        self.0.ttl()
    }
}

/// A store in memory, which counts what a retrieval appends to its log.
#[derive(Clone)]
struct MemStore {
    inner: Rc<RefCell<FileCacheStore>>,
    puts: Rc<Cell<u32>>,
}

impl Default for MemStore {
    fn default() -> Self {
        let merged = load_merged(Ok(None), "d/c.jsonl", Vec::new()).unwrap();
        MemStore {
            inner: Rc::new(RefCell::new(FileCacheStore::open("d", "c", "w", merged))),
            puts: Rc::new(Cell::new(0)),
        }
    }
}

#[allow(dead_code)]
impl MemStore {
    fn seed(&self, id: &str, payload: Payload, stale_after: i64, expires: i64) {
        let record = CacheRecord {
            payload,
            stale_after: Timestamp::from_millis(stale_after),
            expires: Timestamp::from_millis(expires),
        };
        self.inner.borrow_mut().put(id, record);
    }
    fn put(&self, id: &str, record: CacheRecord) -> Result<(), StoreError> {
        self.inner.borrow_mut().put(id, record);
        Ok(())
    }
    fn get(&self, id: &str) -> Result<Option<CacheRecord>, StoreError> {
        Ok(self.inner.borrow().get(id))
    }
    fn entries(&self) -> Result<Vec<(String, CacheRecord)>, StoreError> {
        Ok(self.inner.borrow().entries())
    }
}

struct Host {
    mgr: CitationManager<Bound>,
    fetcher: Box<dyn Fetcher>,
    store: MemStore,
    clock: Box<dyn Clock>,
    timer: Box<dyn Timer>,
}

#[allow(dead_code)]
impl Host {
    fn new(
        fetcher: impl Fetcher + 'static,
        store: MemStore,
        clock: impl Clock + 'static,
        timer: impl Timer + 'static,
    ) -> Host {
        Host {
            mgr: CitationManager::new(),
            fetcher: Box::new(fetcher),
            store,
            clock: Box::new(clock),
            timer: Box::new(timer),
        }
    }

    fn register(self, prefix: &str, source: impl Answers + 'static) -> Result<Host, Error> {
        let mgr = self.mgr.register(prefix, Bound(Box::new(source)))?;
        Ok(Host { mgr, ..self })
    }

    fn with_policy(self, policy: TtlPolicy) -> Host {
        Host { mgr: self.mgr.with_policy(policy), ..self }
    }

    fn with_max_chain_depth(self, depth: usize) -> Host {
        Host { mgr: self.mgr.with_max_chain_depth(depth), ..self }
    }

    fn with_dropped_csl_fields<const N: usize>(self, names: [&str; N]) -> Host {
        let names = names.iter().map(|n| n.to_string()).collect();
        Host { mgr: self.mgr.with_dropped_csl_fields(names), ..self }
    }

    fn store(&self) -> &MemStore {
        &self.store
    }

    fn retrieve(&self, cites: &[(String, String)]) -> Result<RetrieveReport, Error> {
        let mut session = Session::new(cites);
        loop {
            let now = self.clock.now();
            let action = session.next(&self.mgr, &mut self.store.inner.borrow_mut(), now);
            match action {
                Action::Wait { length, .. } => self.timer.sleep(length),
                Action::Ask { prefix, keys } => {
                    let ctx = Ctx {
                        prefix: &prefix,
                        fetcher: self.fetcher.as_ref(),
                        timer: self.timer.as_ref(),
                        retries: self.mgr.retry_policy(),
                    };
                    let got = self.mgr.source(&prefix).unwrap().0.answer(keys, &ctx);
                    session.answer(got);
                }
                Action::Settled { notes } => {
                    let lines = notes.iter().filter(|n| n.line.is_some()).count();
                    self.store.puts.set(self.store.puts.get() + lines as u32);
                }
                Action::Finished { .. } => return Ok(session.into_report()),
                _ => {}
            }
        }
    }

    fn get(&self, prefix: &str, key: &str) -> Result<Value, Error> {
        self.mgr.get(&self.store.inner.borrow(), prefix, key).map(|v| value(&v))
    }

    fn get_by_id(&self, id: &str) -> Result<Value, Error> {
        self.mgr.get_by_id(&self.store.inner.borrow(), id).map(|v| value(&v))
    }

    fn prune(&self) -> Result<usize, Error> {
        let now = self.clock.now();
        let pruning = self.mgr.prune(&mut self.store.inner.borrow_mut(), now);
        pruning.written(Ok(()))?.flushed(Ok(()))
    }
}

/// An item as a value that can be looked into by name.
fn value(v: &CslValue) -> Value {
    serde_json::from_str(&write_json(v, true)).unwrap()
}

/// A value from its JSON text.
#[allow(dead_code)]
fn json(text: &str) -> CslValue {
    read_json(text.as_bytes()).unwrap()
}

/// Answers from a table of URLs and keeps a log of what it was asked.
struct MockFetcher {
    routes: BTreeMap<String, (u16, Vec<u8>)>,
    calls: Calls,
}

/// What was asked of a [`MockFetcher`].
#[derive(Clone, Default)]
struct Calls(Rc<RefCell<Vec<(String, Option<String>)>>>);

#[allow(dead_code)]
impl Calls {
    fn urls(&self) -> Vec<String> {
        self.0.borrow().iter().map(|r| r.0.clone()).collect()
    }
    fn len(&self) -> usize {
        self.0.borrow().len()
    }
    /// The `accept` header of the last request.
    fn last_accept(&self) -> Option<String> {
        self.0.borrow().last().expect("no fetch was made").1.clone()
    }
}

#[allow(dead_code)]
impl MockFetcher {
    fn new() -> Self {
        MockFetcher { routes: BTreeMap::new(), calls: Calls::default() }
    }
    fn route(mut self, url: &str, status: u16, body: &str) -> Self {
        self.routes.insert(url.into(), (status, body.as_bytes().to_vec()));
        self
    }
    fn calls(&self) -> Calls {
        self.calls.clone()
    }
}

impl Fetcher for MockFetcher {
    fn fetch(&self, req: &Request) -> Result<Response, FetchError> {
        let accept = req.headers.get("accept").cloned();
        self.calls.0.borrow_mut().push((req.url.clone(), accept));
        match self.routes.get(&req.url) {
            Some((status, body)) => Ok(Response {
                status: *status,
                headers: TextMap::new(),
                body: body.clone(),
            }),
            None => Err(FetchError::Status(404)),
        }
    }
}

struct FixedClock(i64);
impl Clock for FixedClock {
    fn now(&self) -> Timestamp {
        Timestamp::from_millis(self.0)
    }
}

struct InstantTimer;
impl Timer for InstantTimer {
    fn sleep(&self, _dur: Duration) {}
}

impl Answers for DoiSource {
    fn normalize(&self, key: &str) -> String {
        self.normalize_key(key)
    }
    fn chunk(&self) -> usize {
        self.chunk_size()
    }
    fn interval(&self) -> Duration {
        self.min_interval()
    }
    fn ttl(&self) -> Duration {
        self.default_ttl()
    }
    fn answer(&self, keys: Vec<String>, ctx: &Ctx<'_>) -> Vec<Resolution> {
        keys.iter()
            .map(|doi| match self.request(doi) {
                Ok(req) => self.resolve(ctx.prefix, doi, ctx.fetch(&req)),
                Err(refused) => refused,
            })
            .collect()
    }
}

impl Answers for ManualSource {
    fn normalize(&self, key: &str) -> String {
        self.normalize_key(key)
    }
    fn chunk(&self) -> usize {
        self.chunk_size()
    }
    fn interval(&self) -> Duration {
        self.min_interval()
    }
    fn ttl(&self) -> Duration {
        self.default_ttl()
    }
    fn answer(&self, keys: Vec<String>, _ctx: &Ctx<'_>) -> Vec<Resolution> {
        self.retrieve_chunk(&keys)
    }
}

/// Stands in for arXiv: it always chains to a DOI and attaches `arxivid`.
struct ChainSource;
impl Answers for ChainSource {
    fn answer(&self, keys: Vec<String>, _ctx: &Ctx<'_>) -> Vec<Resolution> {
        keys.into_iter()
            .map(|k| Resolution {
                key: k.clone(),
                outcome: Outcome::Chained {
                    prefix: "doi".into(),
                    key: format!("10.9999/{k}"),
                    set_properties: json(&format!("{{\"arxivid\":\"{k}\"}}")),
                },
            })
            .collect()
    }
}

// --- tests ---------------------------------------------------------------

#[test]
fn arxiv_chains_to_doi_and_merges_set_properties() {
    let fetcher = MockFetcher::new().route(
        "https://doi.org/10.9999/1211.1037",
        200,
        r#"{"type":"article-journal","title":"Chained Title","DOI":"10.9999/1211.1037"}"#,
    );
    let mgr = Host::new(fetcher, MemStore::default(), FixedClock(0), InstantTimer)
        .register("arxiv", ChainSource).unwrap()
        .register("doi", DoiSource::new()).unwrap();

    let cites = vec![("arxiv".to_string(), "1211.1037".to_string())];
    let report = mgr.retrieve(&cites).unwrap();
    assert!(report.is_complete(), "failures: {:?}", report.failures);

    // Reading the arXiv key follows the chain to the DOI entry, rewrites the
    // id back to the requested one, and merges the chained `arxivid`.
    let item = mgr.get("arxiv", "1211.1037").unwrap();
    assert_eq!(item["id"], "arxiv:1211.1037");
    assert_eq!(item["title"], "Chained Title");
    assert_eq!(item["arxivid"], "1211.1037", "set_properties should be merged in");
    // Chained through the doi source, so the uppercase `DOI` is normalized to a
    // lowercase `doi` key on ingest (this value has no letters to lowercase).
    assert_eq!(item["doi"], "10.9999/1211.1037");
    assert_eq!(item.get("DOI"), None, "uppercase DOI key must not survive");
}

#[test]
fn response_header_lookup_is_case_insensitive_in_both_directions() {
    // `Response::headers` only *asks* fetchers to lowercase names. A host that
    // stores the canonical `Retry-After` must be understood too, or an explicit
    // `503 Retry-After: 120` would be ignored.
    let mut resp = Response {
        status: 503,
        headers: TextMap::new(),
        body: Vec::new(),
    };
    resp.headers.insert("Retry-After".into(), "120".into());
    resp.headers.insert("content-type".into(), "text/plain".into());

    assert_eq!(resp.header("retry-after"), Some("120"));
    assert_eq!(resp.header("Retry-After"), Some("120"));
    assert_eq!(resp.header("RETRY-AFTER"), Some("120"));
    assert_eq!(resp.header("Content-Type"), Some("text/plain"));
    assert_eq!(resp.header("x-absent"), None);
}

#[test]
fn doi_requests_carry_the_csl_json_accept_header() {
    // Without this, doi.org serves an HTML landing page instead of CSL-JSON.
    let fetcher =
        MockFetcher::new().route("https://doi.org/10.1/x", 200, r#"{"title":"t"}"#);
    let calls = fetcher.calls();
    let mgr = Host::new(fetcher, MemStore::default(), FixedClock(0), InstantTimer)
        .register("doi", DoiSource::new()).unwrap();

    let cites = vec![("doi".to_string(), "10.1/x".to_string())];
    mgr.retrieve(&cites).unwrap();

    assert_eq!(
        calls.last_accept().as_deref(),
        Some("application/vnd.citationstyles.csl+json")
    );
}

#[test]
fn doi_non_success_status_is_one_reported_failure() {
    // A non-404 non-success status (e.g. a 403 the retrying fetcher does not
    // retry) is a reachability `Failed`, reported with the status named. A 404
    // is handled separately — see `doi_404_is_an_authoritative_missing`.
    let fetcher = MockFetcher::new().route("https://doi.org/10.1/forbidden", 403, "Forbidden");
    let mgr = Host::new(fetcher, MemStore::default(), FixedClock(0), InstantTimer)
        .register("doi", DoiSource::new()).unwrap();

    let cites = vec![("doi".to_string(), "10.1/forbidden".to_string())];
    let report = mgr.retrieve(&cites).unwrap();
    assert_eq!(report.failures.len(), 1, "{:?}", report.failures);
    assert_eq!(report.failures[0].prefix, "doi");
    assert_eq!(report.failures[0].key, "10.1/forbidden");
    assert!(
        report.failures[0].message.contains("403"),
        "message should name the status: {}",
        report.failures[0].message
    );
    // Nothing was cached, so reading it back fails too.
    assert!(mgr.get("doi", "10.1/forbidden").is_err());
}

/// A doi.org 404 is authoritative "no such DOI" (`Outcome::Missing`), so it is
/// always reported and nothing is cached — distinct from a 5xx/403 reachability
/// `Failed`.
#[test]
fn doi_404_is_an_authoritative_missing() {
    let fetcher = MockFetcher::new().route("https://doi.org/10.1/gone", 404, "Not Found");
    let mgr = Host::new(fetcher, MemStore::default(), FixedClock(0), InstantTimer)
        .register("doi", DoiSource::new()).unwrap();

    let cites = vec![("doi".to_string(), "10.1/gone".to_string())];
    let report = mgr.retrieve(&cites).unwrap();
    assert_eq!(report.failures.len(), 1, "{:?}", report.failures);
    assert_eq!(report.failures[0].key, "10.1/gone");
    // The message is the authoritative "not found", not a bare status line.
    assert!(
        report.failures[0].message.contains("not found"),
        "a 404 should read as authoritative not-found: {}",
        report.failures[0].message
    );
    // Nothing was cached.
    assert!(mgr.get("doi", "10.1/gone").is_err());
}

#[test]
fn doi_body_that_is_not_json_is_a_parse_failure() {
    // A captive portal / landing page, and a truncated response.
    for body in ["<!DOCTYPE html><html><body>Landing</body></html>", ""] {
        let fetcher = MockFetcher::new().route("https://doi.org/10.1/x", 200, body);
        let mgr = Host::new(fetcher, MemStore::default(), FixedClock(0), InstantTimer)
            .register("doi", DoiSource::new()).unwrap();

        let cites = vec![("doi".to_string(), "10.1/x".to_string())];
        let report = mgr.retrieve(&cites).unwrap();
        assert_eq!(report.failures.len(), 1, "body {body:?}: {:?}", report.failures);
        assert!(
            report.failures[0].message.contains("parse error"),
            "body {body:?} should be a parse error, got {}",
            report.failures[0].message
        );
        assert!(mgr.get("doi", "10.1/x").is_err(), "body {body:?} must not be cached");
    }
}

#[test]
fn doi_200_with_json_that_is_not_a_csl_object_is_a_failure() {
    // All of these parse as JSON. Accepting them would cache an empty
    // `{"id":"doi:…"}` shell for a year and report nothing.
    for body in ["null", "[]", "\"nope\"", "123", "{}"] {
        let fetcher = MockFetcher::new().route("https://doi.org/10.1/x", 200, body);
        let mgr = Host::new(fetcher, MemStore::default(), FixedClock(0), InstantTimer)
            .register("doi", DoiSource::new()).unwrap();

        let cites = vec![("doi".to_string(), "10.1/x".to_string())];
        let report = mgr.retrieve(&cites).unwrap();
        assert_eq!(report.failures.len(), 1, "body {body} was accepted: {:?}", report.failures);
        assert!(
            mgr.get("doi", "10.1/x").is_err(),
            "body {body} must not be cached"
        );
    }
}

#[test]
fn a_malformed_doi_is_rejected_without_fetching_anything() {
    // Whitespace would corrupt the path; an empty key would fetch doi.org's
    // homepage and cache whatever came back.
    for key in ["10.1103/Phys Rev.47.777", "", "   "] {
        let fetcher = MockFetcher::new();
        let calls = fetcher.calls();
        let mgr = Host::new(fetcher, MemStore::default(), FixedClock(0), InstantTimer)
            .register("doi", DoiSource::new()).unwrap();

        let cites = vec![("doi".to_string(), key.to_string())];
        let report = mgr.retrieve(&cites).unwrap();
        assert_eq!(report.failures.len(), 1, "key {key:?}: {:?}", report.failures);
        assert_eq!(calls.len(), 0, "key {key:?} must not reach the network");
    }
}

#[test]
fn unknown_prefix_is_reported_not_fatal() {
    let mgr = Host::new(MockFetcher::new(), MemStore::default(), FixedClock(0), InstantTimer)
        .register("manual", ManualSource::new("markdown")).unwrap();

    let cites = vec![
        ("nope".to_string(), "x".to_string()),
        ("manual".to_string(), "ok".to_string()),
    ];
    let report = mgr.retrieve(&cites).unwrap();
    assert_eq!(report.failures.len(), 1);
    assert_eq!(report.failures[0].prefix, "nope");
    // The good one still resolved.
    assert!(mgr.get("manual", "ok").is_ok());
}

// --- keys of DOIs, whose case means nothing ----------------------------------

#[test]
fn a_doi_is_asked_for_and_kept_in_small_letters() {
    let fetcher = MockFetcher::new().route(
        "https://doi.org/10.1103/physrev.47.777",
        200,
        r#"{"type":"article-journal","title":"Can Quantum-Mechanical Description…","DOI":"10.1103/PhysRev.47.777","URL":"https://doi.org/10.1103/PhysRev.47.777"}"#,
    );
    let calls = fetcher.calls();
    let mgr = Host::new(fetcher, MemStore::default(), FixedClock(0), InstantTimer)
        .register("doi", DoiSource::new()).unwrap();

    // Three spellings of one DOI: one entry, one fetch.
    let cites = vec![
        ("doi".to_string(), "10.1103/PhysRev.47.777".to_string()),
        ("doi".to_string(), "  10.1103/PhysRev.47.777  ".to_string()),
        ("doi".to_string(), "10.1103/PHYSREV.47.777".to_string()),
    ];
    let report = mgr.retrieve(&cites).unwrap();
    assert!(report.is_complete(), "failures: {:?}", report.failures);
    assert_eq!(calls.urls(), ["https://doi.org/10.1103/physrev.47.777"]);

    for (prefix, key) in &cites {
        let item = mgr.get(prefix, key).unwrap();
        assert_eq!(item["id"], "doi:10.1103/physrev.47.777");
        // The key `DOI` becomes `doi`, its value in small letters.
        assert_eq!(item["doi"], "10.1103/physrev.47.777");
        assert_eq!(item.get("DOI"), None);
        // Nothing else is touched.
        assert!(item["title"].as_str().unwrap().starts_with("Can Quantum"));
        assert_eq!(item["URL"], "https://doi.org/10.1103/PhysRev.47.777");
    }
}

#[test]
fn a_doi_url_keeps_slashes_and_escapes_the_rest() {
    const KEY: &str = "10.1002/(sici)1096-8628(20000403)91:4<317::aid-ajmg16>3.0.co;2-9";
    const URL: &str = "https://doi.org/10.1002/%28sici%291096-8628%2820000403%2991%3A4%3C317%3A%3Aaid-ajmg16%3E3.0.co%3B2-9";
    let fetcher = MockFetcher::new().route(URL, 200, r#"{"type":"article-journal","title":"Encoded"}"#);
    let calls = fetcher.calls();
    let mgr = Host::new(fetcher, MemStore::default(), FixedClock(0), InstantTimer)
        .register("doi", DoiSource::new()).unwrap();
    let report = mgr.retrieve(&[("doi".to_string(), KEY.to_string())]).unwrap();
    assert!(report.is_complete(), "failures: {:?}", report.failures);
    assert_eq!(calls.urls(), [URL]);
}

#[test]
fn an_existing_small_doi_member_wins() {
    for (body, want) in [
        (r#"{"title":"t","doi":"10.1/B","DOI":"10.1/A"}"#, r#""10.1/b""#),
        (r#"{"title":"t","DOI":7}"#, "7"),
        (r#"{"title":"t","doi":null,"DOI":"10.1/A"}"#, "null"),
    ] {
        let fetcher = MockFetcher::new().route("https://doi.org/10.1/x", 200, body);
        let mgr = Host::new(fetcher, MemStore::default(), FixedClock(0), InstantTimer)
            .register("doi", DoiSource::new()).unwrap();
        mgr.retrieve(&[("doi".to_string(), "10.1/x".to_string())]).unwrap();
        let item = mgr.get("doi", "10.1/x").unwrap();
        assert_eq!(item["doi"].to_string(), want, "{body}");
        assert_eq!(item.get("DOI"), None);
    }
}

// --- the text of a manual citation is its key ---------------------------------

#[test]
fn a_manual_citation_keeps_its_text_as_it_is() {
    let mgr = Host::new(MockFetcher::new(), MemStore::default(), FixedClock(0), InstantTimer)
        .register("manual", ManualSource::new("markdown")).unwrap();
    let padded = "  Bohr, N. (1913)  ".to_string();
    let report = mgr.retrieve(&[("manual".to_string(), padded.clone())]).unwrap();
    assert!(report.is_complete(), "failures: {:?}", report.failures);
    let item = mgr.get("manual", &padded).unwrap();
    assert_eq!(item["id"], "manual:  Bohr, N. (1913)  ");
    assert_eq!(item["_ready_formatted"]["markdown"], padded);
    assert!(mgr.get("manual", "Bohr, N. (1913)").is_err(), "another text is another citation");
}
