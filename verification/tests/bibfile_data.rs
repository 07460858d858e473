//! The bibliography source: entries given as data, files, and parsers of the host's own.

use std::cell::{Cell, RefCell};
use std::collections::BTreeMap;
use std::rc::Rc;
use std::time::Duration;

use autocitefetch::filecache::load_merged;
use autocitefetch::json::{read_json, write_json};
use autocitefetch::retry::Attempts;
use autocitefetch::session::{Action, Session};
use autocitefetch::source::folded_key;
use autocitefetch::index::TextMap;
use autocitefetch::source::bibfile::{BibParser, BibliographyFileSource};
use autocitefetch::{
    CacheRecord, CitationManager, Clock, CslValue, Error, FetchError, FileCacheStore, Payload,
    Request, Resolution, Response, RetrieveReport, RetryPolicy, Source, StoreError, Timestamp,
    TtlPolicy,
};
use serde_json::Value;

// --- a host: it fetches, waits and keeps the store, and asks the library what to do ---

trait Fetcher {
    fn fetch(&self, req: &Request) -> Result<Response, FetchError>;
}

trait Timer {
    fn sleep(&self, dur: Duration);
}

/// What a source is given to answer with: the prefix it is bound to, and a fetcher that
/// tries again where the policy says so.
struct Ctx<'a> {
    prefix: &'a str,
    fetcher: &'a dyn Fetcher,
    timer: &'a dyn Timer,
    retries: RetryPolicy,
}

impl Ctx<'_> {
    fn fetch(&self, req: &Request) -> Result<Response, FetchError> {
        let mut attempts = Attempts::new();
        loop {
            let reply = self.fetcher.fetch(req);
            match attempts.after(&self.retries, &req.url, &reply) {
                Some(dur) => self.timer.sleep(dur),
                None => return reply,
            }
        }
    }
}

/// A source together with how the host gets its answers.
trait Answers {
    fn normalize(&self, key: &str) -> String {
        folded_key(key)
    }
    fn chunk(&self) -> usize {
        512
    }
    fn interval(&self) -> Duration {
        Duration::from_millis(1000)
    }
    fn ttl(&self) -> Duration {
        Duration::from_secs(30 * 24 * 60 * 60)
    }
    fn answer(&self, keys: Vec<String>, ctx: &Ctx<'_>) -> Vec<Resolution>;
}

struct Bound(Box<dyn Answers>);

impl Source for Bound {
    fn normalize_key(&self, key: &str) -> String {
        self.0.normalize(key)
    }
    fn chunk_size(&self) -> usize {
        self.0.chunk()
    }
    fn min_interval(&self) -> Duration {
        self.0.interval()
    }
    fn default_ttl(&self) -> Duration {
        self.0.ttl()
    }
}

/// A store in memory, which counts what a retrieval appends to its log.
#[derive(Clone)]
struct MemStore {
    inner: Rc<RefCell<FileCacheStore>>,
    puts: Rc<Cell<u32>>,
}

impl Default for MemStore {
    fn default() -> Self {
        let merged = load_merged(Ok(None), "d/c.jsonl", Vec::new()).unwrap();
        MemStore {
            inner: Rc::new(RefCell::new(FileCacheStore::open("d", "c", "w", merged))),
            puts: Rc::new(Cell::new(0)),
        }
    }
}

#[allow(dead_code)]
impl MemStore {
    fn seed(&self, id: &str, payload: Payload, stale_after: i64, expires: i64) {
        let record = CacheRecord {
            payload,
            stale_after: Timestamp::from_millis(stale_after),
            expires: Timestamp::from_millis(expires),
        };
        self.inner.borrow_mut().put(id, record);
    }
    fn put(&self, id: &str, record: CacheRecord) -> Result<(), StoreError> {
        self.inner.borrow_mut().put(id, record);
        Ok(())
    }
    fn get(&self, id: &str) -> Result<Option<CacheRecord>, StoreError> {
        Ok(self.inner.borrow().get(id))
    }
    fn entries(&self) -> Result<Vec<(String, CacheRecord)>, StoreError> {
        Ok(self.inner.borrow().entries())
    }
}

struct Host {
    mgr: CitationManager<Bound>,
    fetcher: Box<dyn Fetcher>,
    store: MemStore,
    clock: Box<dyn Clock>,
    timer: Box<dyn Timer>,
}

#[allow(dead_code)]
impl Host {
    fn new(
        fetcher: impl Fetcher + 'static,
        store: MemStore,
        clock: impl Clock + 'static,
        timer: impl Timer + 'static,
    ) -> Host {
        Host {
            mgr: CitationManager::new(),
            fetcher: Box::new(fetcher),
            store,
            clock: Box::new(clock),
            timer: Box::new(timer),
        }
    }

    fn register(self, prefix: &str, source: impl Answers + 'static) -> Result<Host, Error> {
        let mgr = self.mgr.register(prefix, Bound(Box::new(source)))?;
        Ok(Host { mgr, ..self })
    }

    fn with_policy(self, policy: TtlPolicy) -> Host {
        Host { mgr: self.mgr.with_policy(policy), ..self }
    }

    fn with_max_chain_depth(self, depth: usize) -> Host {
        Host { mgr: self.mgr.with_max_chain_depth(depth), ..self }
    }

    fn with_dropped_csl_fields<const N: usize>(self, names: [&str; N]) -> Host {
        let names = names.iter().map(|n| n.to_string()).collect();
        Host { mgr: self.mgr.with_dropped_csl_fields(names), ..self }
    }

    fn store(&self) -> &MemStore {
        &self.store
    }

    fn retrieve(&self, cites: &[(String, String)]) -> Result<RetrieveReport, Error> {
        let mut session = Session::new(cites);
        loop {
            let now = self.clock.now();
            let action = session.next(&self.mgr, &mut self.store.inner.borrow_mut(), now);
            match action {
                Action::Wait { length, .. } => self.timer.sleep(length),
                Action::Ask { prefix, keys } => {
                    let ctx = Ctx {
                        prefix: &prefix,
                        fetcher: self.fetcher.as_ref(),
                        timer: self.timer.as_ref(),
                        retries: self.mgr.retry_policy(),
                    };
                    let got = self.mgr.source(&prefix).unwrap().0.answer(keys, &ctx);
                    session.answer(got);
                }
                Action::Settled { notes } => {
                    let lines = notes.iter().filter(|n| n.line.is_some()).count();
                    self.store.puts.set(self.store.puts.get() + lines as u32);
                }
                Action::Finished { .. } => return Ok(session.into_report()),
                _ => {}
            }
        }
    }

    fn get(&self, prefix: &str, key: &str) -> Result<Value, Error> {
        self.mgr.get(&self.store.inner.borrow(), prefix, key).map(|v| value(&v))
    }

    fn get_by_id(&self, id: &str) -> Result<Value, Error> {
        self.mgr.get_by_id(&self.store.inner.borrow(), id).map(|v| value(&v))
    }

    fn prune(&self) -> Result<usize, Error> {
        let now = self.clock.now();
        let pruning = self.mgr.prune(&mut self.store.inner.borrow_mut(), now);
        pruning.written(Ok(()))?.flushed(Ok(()))
    }
}

/// An item as a value that can be looked into by name.
fn value(v: &CslValue) -> Value {
    serde_json::from_str(&write_json(v, true)).unwrap()
}

/// A value from its JSON text.
#[allow(dead_code)]
fn json(text: &str) -> CslValue {
    read_json(text.as_bytes()).unwrap()
}

/// Answers from a table of URLs and keeps a log of what it was asked.
struct MockFetcher {
    routes: BTreeMap<String, (u16, Vec<u8>)>,
    calls: Calls,
}

/// What was asked of a [`MockFetcher`].
#[derive(Clone, Default)]
struct Calls(Rc<RefCell<Vec<(String, Option<String>)>>>);

#[allow(dead_code)]
impl Calls {
    fn urls(&self) -> Vec<String> {
        self.0.borrow().iter().map(|r| r.0.clone()).collect()
    }
    fn len(&self) -> usize {
        self.0.borrow().len()
    }
    /// The `accept` header of the last request.
    fn last_accept(&self) -> Option<String> {
        self.0.borrow().last().expect("no fetch was made").1.clone()
    }
}

#[allow(dead_code)]
impl MockFetcher {
    fn new() -> Self {
        MockFetcher { routes: BTreeMap::new(), calls: Calls::default() }
    }
    fn route(mut self, url: &str, status: u16, body: &str) -> Self {
        self.routes.insert(url.into(), (status, body.as_bytes().to_vec()));
        self
    }
    fn calls(&self) -> Calls {
        self.calls.clone()
    }
}

impl Fetcher for MockFetcher {
    fn fetch(&self, req: &Request) -> Result<Response, FetchError> {
        let accept = req.headers.get("accept").cloned();
        self.calls.0.borrow_mut().push((req.url.clone(), accept));
        match self.routes.get(&req.url) {
            Some((status, body)) => Ok(Response {
                status: *status,
                headers: TextMap::new(),
                body: body.clone(),
            }),
            None => Err(FetchError::Transport(format!("no route: {}", req.url))),
        }
    }
}

struct FixedClock(i64);
impl Clock for FixedClock {
    fn now(&self) -> Timestamp {
        Timestamp::from_millis(self.0)
    }
}

struct InstantTimer;
impl Timer for InstantTimer {
    fn sleep(&self, _dur: Duration) {}
}

impl<P: BibParser> Answers for BibliographyFileSource<P> {
    fn normalize(&self, key: &str) -> String {
        self.normalize_key(key)
    }
    fn chunk(&self) -> usize {
        self.chunk_size()
    }
    fn interval(&self) -> Duration {
        self.min_interval()
    }
    fn ttl(&self) -> Duration {
        self.default_ttl()
    }
    fn answer(&self, keys: Vec<String>, ctx: &Ctx<'_>) -> Vec<Resolution> {
        let mut index = self.index();
        for url in self.files() {
            let reply = ctx.fetch(&Request::get(url));
            if let Err(e) = self.load_file(&mut index, url, reply) {
                return self.fail(&keys, &e);
            }
        }
        self.retrieve_chunk(&index, &keys)
    }
}

/// Ignores the bytes.
struct CustomParser;
impl BibParser for CustomParser {
    fn parse(&self, _bytes: &[u8]) -> Result<CslValue, String> {
        Ok(json(r#"[{"id":"x1","type":"article-journal","title":"Custom Parsed"}]"#))
    }
}

#[test]
fn from_entries_resolves_without_any_fetch() {
    // No routes: if the source tried to fetch anything, it would error.
    let bib = BibliographyFileSource::from_entries(vec![(
        "knuth1984".to_string(),
        json(r#"{"id":"knuth1984","type":"book","title":"The TeXbook"}"#),
    )]);
    let mgr = Host::new(MockFetcher::new(), MemStore::default(), FixedClock(0), InstantTimer)
        .register("bib", bib).unwrap();

    let cites = vec![("bib".to_string(), "knuth1984".to_string())];
    let report = mgr.retrieve(&cites).unwrap();
    assert!(report.is_complete(), "failures: {:?}", report.failures);

    let item = mgr.get("bib", "knuth1984").unwrap();
    assert_eq!(item["title"], "The TeXbook");
    assert_eq!(item["id"], "bib:knuth1984");
}

#[test]
fn with_parser_uses_the_injected_parser() {
    // The file body is deliberately NOT valid JSON. The default JSON parser
    // would fail; a custom parser that ignores the bytes proves injection.
    let file_url = "https://host.example/refs.bib";
    let fetcher = MockFetcher::new().route(file_url, 200, "THIS IS NOT JSON");

    let bib = BibliographyFileSource::new(vec![file_url.to_string()]).with_parser(CustomParser);
    let mgr = Host::new(fetcher, MemStore::default(), FixedClock(0), InstantTimer)
        .register("bib", bib).unwrap();

    let cites = vec![("bib".to_string(), "x1".to_string())];
    let report = mgr.retrieve(&cites).unwrap();
    assert!(report.is_complete(), "failures: {:?}", report.failures);

    let item = mgr.get("bib", "x1").unwrap();
    assert_eq!(item["title"], "Custom Parsed");
}

const BIB_JSON: &str = r#"[
  {
    "id": "knuth1984",
    "type": "book",
    "title": "The TeXbook",
    "author": [{"family": "Knuth", "given": "Donald E."}],
    "issued": {"date-parts": [[1984]]}
  }
]"#;

fn host(fetcher: MockFetcher, files: &[&str]) -> Host {
    let files = files.iter().map(|f| f.to_string()).collect();
    Host::new(fetcher, MemStore::default(), FixedClock(0), InstantTimer)
        .register("bib", BibliographyFileSource::new(files))
        .unwrap()
}

fn bib(key: &str) -> Vec<(String, String)> {
    vec![("bib".to_string(), key.to_string())]
}

#[test]
fn bibliography_file_resolves_offline_through_the_fetcher() {
    let mgr = host(MockFetcher::new().route("refs.json", 200, BIB_JSON), &["refs.json"]);
    let report = mgr.retrieve(&bib("knuth1984")).unwrap();
    assert!(report.is_complete(), "failures: {:?}", report.failures);

    let item = mgr.get("bib", "knuth1984").unwrap();
    assert_eq!(item["id"], "bib:knuth1984");
    assert_eq!(item["title"], "The TeXbook");
    assert_eq!(item["type"], "book");

    // A missing key in the same file is reported, not fatal.
    let report = mgr.retrieve(&bib("does-not-exist")).unwrap();
    assert_eq!(report.failures.len(), 1);
}

#[test]
fn later_files_win() {
    let fetcher = MockFetcher::new()
        .route("a.json", 200, r#"[{"id":"k","title":"first"},{"id":"only-a","title":"A"}]"#)
        .route("b.json", 200, r#"{"k":{"title":"second"}}"#);
    let mgr = host(fetcher, &["a.json", "b.json"]);
    let cites = vec![bib("k").remove(0), bib("only-a").remove(0)];
    assert!(mgr.retrieve(&cites).unwrap().is_complete());
    assert_eq!(mgr.get("bib", "k").unwrap()["title"], "second");
    assert_eq!(mgr.get("bib", "only-a").unwrap()["title"], "A");
}

#[test]
fn a_file_that_cannot_be_loaded_fails_every_key() {
    for (status, body, want) in [
        (404, "", "404"),
        (200, "nonsense", "parse error"),
        (200, "7", "neither an array nor an object"),
    ] {
        let fetcher = MockFetcher::new()
            .route("good.json", 200, BIB_JSON)
            .route("bad.json", status, body);
        let mgr = host(fetcher, &["good.json", "bad.json"]);
        let cites = vec![bib("knuth1984").remove(0), bib("other").remove(0)];
        let report = mgr.retrieve(&cites).unwrap();
        assert_eq!(report.failures.len(), 2, "{:?}", report.failures);
        for f in &report.failures {
            assert!(f.message.contains(want), "{}", f.message);
        }
    }
}

#[test]
fn an_absent_key_drops_what_was_cached() {
    let mgr = host(MockFetcher::new().route("refs.json", 200, "[]"), &["refs.json"]);
    mgr.store().seed("bib:gone", Payload::Concrete(json(r#"{"id":"bib:gone"}"#)), -10, -10);
    let report = mgr.retrieve(&bib("gone")).unwrap();
    assert_eq!(report.failures[0].message, "citation `key `gone` not found in bibliography` not found");
    assert!(mgr.store().get("bib:gone").unwrap().is_none());
}
