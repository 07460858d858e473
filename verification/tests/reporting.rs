//! What a host that reports progress narrates: the events come from the retrieval's
//! actions, from the notes on what was settled, and from the tries of a request.

use std::cell::{Cell, RefCell};
use std::rc::Rc;
use std::time::Duration;

use autocitefetch::filecache::load_merged;
use autocitefetch::json::{read_json, write_json};
use autocitefetch::retry::Attempts;
use autocitefetch::session::{Action, Session};
use autocitefetch::source::folded_key;
use autocitefetch::index::TextMap;
use autocitefetch::{
    CacheRecord, CitationManager, Clock, CslValue, Error, Event, FetchError, FileCacheStore,
    NopReporter, Payload, Reporter, Request, Resolution, Resolved, Response, RetrieveReport,
    RetryPolicy, Source, StoreError, Timestamp, TtlPolicy, Wait,
};
use serde_json::Value;

// --- a host: it fetches, waits and keeps the store, and asks the library what to do ---

trait Fetcher {
    fn fetch(&self, req: &Request) -> Result<Response, FetchError>;
}

trait Timer {
    fn sleep(&self, dur: Duration);
}

/// A reporter of some type, shared by whoever has something to tell.
trait Listener {
    fn hear(&self, ev: &Event<'_>);
}

impl<R: Reporter> Listener for RefCell<R> {
    fn hear(&self, ev: &Event<'_>) {
        self.borrow_mut().report(ev);
    }
}

/// What a source is given to answer with: the prefix it is bound to, and a fetcher that
/// tries again where the policy says so.
struct Ctx<'a> {
    prefix: &'a str,
    fetcher: &'a dyn Fetcher,
    timer: &'a dyn Timer,
    retries: RetryPolicy,
    reporter: &'a dyn Listener,
}

impl Ctx<'_> {
    fn fetch(&self, req: &Request) -> Result<Response, FetchError> {
        let mut attempts = Attempts::new();
        loop {
            let url = req.url.as_str();
            let attempt = attempts.attempt();
            self.reporter.hear(&Event::RequestStarted { url, attempt });
            let reply = self.fetcher.fetch(req);
            let result = match &reply {
                Ok(resp) => Ok(resp.status),
                Err(e) => Err(e),
            };
            self.reporter.hear(&Event::RequestFinished { url, result });
            match attempts.after(&self.retries, &req.url, &reply) {
                Some(dur) => {
                    let what = Wait::Backoff { url, attempt };
                    self.reporter.hear(&Event::WaitStarted { what, expected: Some(dur) });
                    self.timer.sleep(dur);
                    self.reporter.hear(&Event::WaitFinished { what });
                }
                None => return reply,
            }
        }
    }
}

/// A source together with how the host gets its answers.
trait Answers {
    fn normalize(&self, key: &str) -> String {
        folded_key(key)
    }
    fn chunk(&self) -> usize {
        512
    }
    fn interval(&self) -> Duration {
        Duration::from_millis(1000)
    }
    fn ttl(&self) -> Duration {
        Duration::from_secs(30 * 24 * 60 * 60)
    }
    fn answer(&self, keys: Vec<String>, ctx: &Ctx<'_>) -> Vec<Resolution>;
}

struct Bound(Box<dyn Answers>);

impl Source for Bound {
    fn normalize_key(&self, key: &str) -> String {
        self.0.normalize(key)
    }
    fn chunk_size(&self) -> usize {
        self.0.chunk()
    }
    fn min_interval(&self) -> Duration {
        self.0.interval()
    }
    fn default_ttl(&self) -> Duration {
        self.0.ttl()
    }
}

/// A store in memory, which counts what a retrieval appends to its log.
#[derive(Clone)]
struct MemStore {
    inner: Rc<RefCell<FileCacheStore>>,
    puts: Rc<Cell<u32>>,
}

impl Default for MemStore {
    fn default() -> Self {
        let merged = load_merged(Ok(None), "d/c.jsonl", Vec::new()).unwrap();
        MemStore {
            inner: Rc::new(RefCell::new(FileCacheStore::open("d", "c", "w", merged))),
            puts: Rc::new(Cell::new(0)),
        }
    }
}

#[allow(dead_code)]
impl MemStore {
    fn seed(self, id: &str, record: CacheRecord) -> Self {
        self.inner.borrow_mut().put(id, record);
        self
    }
    fn put(&self, id: &str, record: CacheRecord) -> Result<(), StoreError> {
        self.inner.borrow_mut().put(id, record);
        Ok(())
    }
    fn get(&self, id: &str) -> Result<Option<CacheRecord>, StoreError> {
        Ok(self.inner.borrow().get(id))
    }
    fn entries(&self) -> Result<Vec<(String, CacheRecord)>, StoreError> {
        Ok(self.inner.borrow().entries())
    }
}

struct Host {
    mgr: CitationManager<Bound>,
    fetcher: Box<dyn Fetcher>,
    store: MemStore,
    clock: Box<dyn Clock>,
    timer: Box<dyn Timer>,
    reporter: Box<dyn Listener>,
}

#[allow(dead_code)]
impl Host {
    fn new(
        fetcher: impl Fetcher + 'static,
        store: MemStore,
        clock: impl Clock + 'static,
        timer: impl Timer + 'static,
    ) -> Host {
        Host {
            mgr: CitationManager::new(),
            fetcher: Box::new(fetcher),
            store,
            clock: Box::new(clock),
            timer: Box::new(timer),
            reporter: Box::new(RefCell::new(NopReporter)),
        }
    }

    fn with_reporter(self, reporter: impl Reporter + 'static) -> Host {
        Host { reporter: Box::new(RefCell::new(reporter)), ..self }
    }

    fn register(self, prefix: &str, source: impl Answers + 'static) -> Result<Host, Error> {
        let mgr = self.mgr.register(prefix, Bound(Box::new(source)))?;
        Ok(Host { mgr, ..self })
    }

    fn with_policy(self, policy: TtlPolicy) -> Host {
        Host { mgr: self.mgr.with_policy(policy), ..self }
    }

    fn with_max_chain_depth(self, depth: usize) -> Host {
        Host { mgr: self.mgr.with_max_chain_depth(depth), ..self }
    }

    fn with_dropped_csl_fields<const N: usize>(self, names: [&str; N]) -> Host {
        let names = names.iter().map(|n| n.to_string()).collect();
        Host { mgr: self.mgr.with_dropped_csl_fields(names), ..self }
    }

    fn store(&self) -> &MemStore {
        &self.store
    }

    fn retrieve(&self, cites: &[(String, String)]) -> Result<RetrieveReport, Error> {
        let reporter = self.reporter.as_ref();
        let mut session = Session::new(cites);
        reporter.hear(&Event::RetrieveStarted { cites: cites.len() });
        loop {
            let now = self.clock.now();
            let action = session.next(&self.mgr, &mut self.store.inner.borrow_mut(), now);
            if let Action::Finished { .. } = action {
                let what = Wait::CacheFlush;
                reporter.hear(&Event::WaitStarted { what, expected: None });
                reporter.hear(&Event::WaitFinished { what });
            }
            if let Some(ev) = action.event() {
                reporter.hear(&ev);
            }
            match action {
                Action::Wait { prefix, length } => {
                    self.timer.sleep(length);
                    let what = Wait::RateLimit { prefix: &prefix };
                    reporter.hear(&Event::WaitFinished { what });
                }
                Action::Ask { prefix, keys } => {
                    let ctx = Ctx {
                        prefix: &prefix,
                        fetcher: self.fetcher.as_ref(),
                        timer: self.timer.as_ref(),
                        retries: self.mgr.retry_policy(),
                        reporter,
                    };
                    let got = self.mgr.source(&prefix).unwrap().0.answer(keys, &ctx);
                    session.answer(got);
                    if let Some(ev) = session.progress() {
                        reporter.hear(&ev);
                    }
                }
                Action::Settled { notes } => {
                    for note in &notes {
                        reporter.hear(&note.event());
                    }
                }
                Action::Finished { .. } => return Ok(session.into_report()),
                _ => {}
            }
        }
    }

    fn get(&self, prefix: &str, key: &str) -> Result<Value, Error> {
        self.mgr.get(&self.store.inner.borrow(), prefix, key).map(|v| value(&v))
    }

    fn get_by_id(&self, id: &str) -> Result<Value, Error> {
        self.mgr.get_by_id(&self.store.inner.borrow(), id).map(|v| value(&v))
    }

    fn prune(&self) -> Result<usize, Error> {
        let now = self.clock.now();
        let pruning = self.mgr.prune(&mut self.store.inner.borrow_mut(), now);
        pruning.written(Ok(()))?.flushed(Ok(()))
    }
}

/// An item as a value that can be looked into by name.
fn value(v: &CslValue) -> Value {
    serde_json::from_str(&write_json(v, true)).unwrap()
}

/// A value from its JSON text.
#[allow(dead_code)]
fn json(text: &str) -> CslValue {
    read_json(text.as_bytes()).unwrap()
}

struct FixedClock(i64);
impl Clock for FixedClock {
    fn now(&self) -> Timestamp {
        Timestamp::from_millis(self.0)
    }
}

struct InstantTimer;
impl Timer for InstantTimer {
    fn sleep(&self, _dur: Duration) {}
}

// --- the reporter ------------------------------------------------------------

/// Flattens every event to a short stable string. `Rc`-shared so it stays
/// readable after being handed to the host.
#[derive(Clone, Default)]
struct RecordingReporter(Rc<RefCell<Vec<String>>>);

impl RecordingReporter {
    fn log(&self) -> Vec<String> {
        self.0.borrow().clone()
    }

    /// Position of the first line equal to `line`; panics if absent, so an
    /// ordering assertion fails with a useful message rather than on `None`.
    fn index_of(&self, line: &str) -> usize {
        let log = self.log();
        log.iter()
            .position(|l| l == line)
            .unwrap_or_else(|| panic!("no `{line}` in:\n{}", log.join("\n")))
    }

    fn count_starting_with(&self, prefix: &str) -> usize {
        self.log().iter().filter(|l| l.starts_with(prefix)).count()
    }

    fn assert_has(&self, line: &str) {
        let log = self.log();
        assert!(
            log.iter().any(|l| l == line),
            "expected `{line}` in:\n{}",
            log.join("\n")
        );
    }

    fn assert_lacks(&self, prefix: &str) {
        let log = self.log();
        assert!(
            !log.iter().any(|l| l.starts_with(prefix)),
            "unexpected `{prefix}…` in:\n{}",
            log.join("\n")
        );
    }
}

impl Reporter for RecordingReporter {
    fn report(&mut self, ev: &Event<'_>) {
        let line = match *ev {
            Event::RetrieveStarted { cites } => format!("retrieve:start cites={cites}"),
            Event::PassStarted {
                pass,
                cached,
                to_fetch,
            } => format!("pass{pass}:start cached={cached} fetch={to_fetch}"),
            Event::PassFinished { pass, discovered } => {
                format!("pass{pass}:end discovered={discovered}")
            }
            Event::RetrieveFinished { considered, failed } => {
                format!("retrieve:end considered={considered} failed={failed}")
            }
            Event::SourceStarted {
                prefix,
                keys,
                chunks,
            } => format!("{prefix}:start keys={keys} chunks={chunks}"),
            Event::SourceProgress {
                prefix,
                done,
                total,
            } => format!("{prefix}:progress {done}/{total}"),
            Event::SourceFinished { prefix, done } => format!("{prefix}:end done={done}"),
            Event::CiteResolved { prefix, key, how } => match how {
                Resolved::Concrete => format!("resolved {prefix}:{key}"),
                Resolved::Chained {
                    prefix: tp,
                    key: tk,
                } => format!("chained {prefix}:{key} -> {tp}:{tk}"),
                _ => format!("resolved? {prefix}:{key}"),
            },
            Event::CiteFailed {
                prefix,
                key,
                grace_served,
                ..
            } => format!("failed {prefix}:{key} grace={grace_served}"),
            Event::WaitStarted { what, expected } => {
                format!("wait:start {} {:?}", wait_name(what), expected)
            }
            Event::WaitFinished { what } => format!("wait:end {}", wait_name(what)),
            Event::RequestStarted { url, attempt } => format!("req:start {url} #{attempt}"),
            Event::RequestFinished { url, result } => match result {
                Ok(status) => format!("req:end {url} {status}"),
                Err(_) => format!("req:end {url} ERR"),
            },
            _ => "unknown".to_string(),
        };
        self.0.borrow_mut().push(line);
    }
}

fn wait_name(w: Wait<'_>) -> String {
    match w {
        Wait::RateLimit { prefix } => format!("ratelimit({prefix})"),
        Wait::Backoff { url, attempt } => format!("backoff({url},#{attempt})"),
        Wait::CacheFlush => "flush".to_string(),
        _ => "other".to_string(),
    }
}

/// Has no route at all.
#[derive(Default)]
struct MockFetcher;

impl Fetcher for MockFetcher {
    fn fetch(&self, _req: &Request) -> Result<Response, FetchError> {
        Err(FetchError::Status(404))
    }
}

/// Fails the first `fail_times` requests with a retryable status, then serves
/// `body`.
struct FlakyFetcher {
    fail_times: RefCell<u32>,
    body: String,
}

impl Fetcher for FlakyFetcher {
    fn fetch(&self, _req: &Request) -> Result<Response, FetchError> {
        let mut left = self.fail_times.borrow_mut();
        let (status, body) = if *left > 0 {
            *left -= 1;
            (503, Vec::new())
        } else {
            (200, self.body.as_bytes().to_vec())
        };
        Ok(Response { status, headers: TextMap::new(), body })
    }
}

// --- test sources ----------------------------------------------------------

fn item(id: &str) -> String {
    format!(r#"{{"id":"{id}","title":"t"}}"#)
}

/// Resolves every key to concrete CSL without any I/O.
struct PlainSource {
    chunk: usize,
    interval: Duration,
}

impl Answers for PlainSource {
    fn chunk(&self) -> usize {
        self.chunk
    }
    fn interval(&self) -> Duration {
        self.interval
    }
    fn answer(&self, keys: Vec<String>, _ctx: &Ctx<'_>) -> Vec<Resolution> {
        keys.iter().map(|k| Resolution::concrete(k, json(&item(k)))).collect()
    }
}

/// Chains every key to `doi:10.9999/<key>`, like the real arXiv source.
struct ChainSource;

impl Answers for ChainSource {
    fn interval(&self) -> Duration {
        Duration::ZERO
    }
    fn answer(&self, keys: Vec<String>, _ctx: &Ctx<'_>) -> Vec<Resolution> {
        keys.iter()
            .map(|k| Resolution::chained(k, "doi", &format!("10.9999/{k}"), CslValue::Null))
            .collect()
    }
}

/// Always unreachable, so that the grace window applies.
struct FailingSource;

impl Answers for FailingSource {
    fn interval(&self) -> Duration {
        Duration::ZERO
    }
    fn answer(&self, keys: Vec<String>, _ctx: &Ctx<'_>) -> Vec<Resolution> {
        keys.iter()
            .map(|k| Resolution::failed(k, Error::Source("upstream is down".into())))
            .collect()
    }
}

/// Reachable, but authoritatively has no such key.
struct MissingSource;

impl Answers for MissingSource {
    fn interval(&self) -> Duration {
        Duration::ZERO
    }
    fn answer(&self, keys: Vec<String>, _ctx: &Ctx<'_>) -> Vec<Resolution> {
        keys.iter()
            .map(|k| Resolution::missing(k, Error::NotFound(format!("doi:{k}"))))
            .collect()
    }
}

/// Fetches one URL per key, so the retries are in the path.
struct HttpSource;

impl Answers for HttpSource {
    fn chunk(&self) -> usize {
        1
    }
    fn interval(&self) -> Duration {
        Duration::ZERO
    }
    fn answer(&self, keys: Vec<String>, ctx: &Ctx<'_>) -> Vec<Resolution> {
        keys.iter()
            .map(|k| match ctx.fetch(&Request::get(&format!("https://example.test/{k}"))) {
                Ok(resp) if resp.status == 200 => match read_json(&resp.body) {
                    Ok(csl) => Resolution::concrete(k, csl),
                    Err(e) => Resolution::failed(k, Error::Parse(e)),
                },
                Ok(resp) => {
                    Resolution::failed(k, Error::Source(format!("status {}", resp.status)))
                }
                Err(e) => Resolution::failed(k, Error::Fetch(e)),
            })
            .collect()
    }
}

fn cite(prefix: &str, key: &str) -> (String, String) {
    (prefix.to_string(), key.to_string())
}

// --- tests -----------------------------------------------------------------

#[test]
fn a_simple_retrieval_is_narrated_end_to_end() {
    let rep = RecordingReporter::default();
    let mgr = Host::new(
        MockFetcher::default(),
        MemStore::default(),
        FixedClock(0),
        InstantTimer,
    )
    .with_reporter(rep.clone())
    .register(
        "bib",
        PlainSource {
            chunk: 512,
            interval: Duration::ZERO,
        },
    )
    .unwrap();

    let report = mgr.retrieve(&[cite("bib", "knuth1984")]).unwrap();
    assert!(report.is_complete(), "failures: {:?}", report.failures);

    for line in [
        "retrieve:start cites=1",
        "pass1:start cached=0 fetch=1",
        "bib:start keys=1 chunks=1",
        "bib:progress 1/1",
        "bib:end done=1",
        "resolved bib:knuth1984",
        "pass1:end discovered=0",
        "wait:start flush None",
        "wait:end flush",
        "retrieve:end considered=1 failed=0",
    ] {
        rep.assert_has(line);
    }

    // The order the whole design depends on: lifecycle brackets everything,
    // and the flush is announced after the last pass, not during it.
    assert!(rep.index_of("retrieve:start cites=1") < rep.index_of("pass1:start cached=0 fetch=1"));
    assert!(rep.index_of("pass1:end discovered=0") < rep.index_of("wait:start flush None"));
    assert!(rep.index_of("wait:end flush") < rep.index_of("retrieve:end considered=1 failed=0"));
}

#[test]
fn source_progress_arrives_before_the_pass_applies_its_resolutions() {
    // The manager applies a pass's resolutions serially *after* every source
    // returned, so `CiteResolved` comes in one burst at the end. The driver's
    // `SourceProgress` is what advances during the pass — a progress display
    // built on the wrong one would jump straight from 0% to 100%.
    let rep = RecordingReporter::default();
    let mgr = Host::new(
        MockFetcher::default(),
        MemStore::default(),
        FixedClock(0),
        InstantTimer,
    )
    .with_reporter(rep.clone())
    .register(
        "bib",
        PlainSource {
            chunk: 1,
            interval: Duration::ZERO,
        },
    )
    .unwrap();

    mgr.retrieve(&[cite("bib", "a"), cite("bib", "b")]).unwrap();

    // Every chunk reported progress before *any* citation was applied.
    assert!(rep.index_of("bib:progress 1/2") < rep.index_of("resolved bib:a"));
    assert!(rep.index_of("bib:progress 2/2") < rep.index_of("resolved bib:a"));
}

#[test]
fn pacing_between_chunks_is_announced_with_its_duration() {
    // Two chunks of one key each, 1100 ms apart: the gap before the second is
    // exactly the kind of silence that reads as a hang.
    let rep = RecordingReporter::default();
    let mgr = Host::new(
        MockFetcher::default(),
        MemStore::default(),
        FixedClock(0),
        InstantTimer,
    )
    .with_reporter(rep.clone())
    .register(
        "doi",
        PlainSource {
            chunk: 1,
            interval: Duration::from_millis(1100),
        },
    )
    .unwrap();

    mgr.retrieve(&[cite("doi", "10.1/a"), cite("doi", "10.1/b")]).unwrap();

    rep.assert_has("wait:start ratelimit(doi) Some(1.1s)");
    rep.assert_has("wait:end ratelimit(doi)");
    // One gap for two chunks: pacing is start→start, and the first chunk has no
    // predecessor to be paced against.
    assert_eq!(rep.count_starting_with("wait:start ratelimit"), 1);
}

#[test]
fn a_chain_shows_two_passes_and_a_growing_denominator() {
    let rep = RecordingReporter::default();
    let mgr = Host::new(
        MockFetcher::default(),
        MemStore::default(),
        FixedClock(0),
        InstantTimer,
    )
    .with_reporter(rep.clone())
    .register("arxiv", ChainSource)
    .unwrap()
    .register(
        "doi",
        PlainSource {
            chunk: 512,
            interval: Duration::ZERO,
        },
    )
    .unwrap();

    let report = mgr.retrieve(&[cite("arxiv", "1211.1037")]).unwrap();
    assert!(report.is_complete(), "failures: {:?}", report.failures);

    rep.assert_has("chained arxiv:1211.1037 -> doi:10.9999/1211.1037");
    // Pass 1 queued the chain target; pass 2 fetched it. This is the event that
    // tells a host its denominator just grew.
    rep.assert_has("pass1:end discovered=1");
    rep.assert_has("pass2:start cached=0 fetch=1");
    rep.assert_has("resolved doi:10.9999/1211.1037");
    // Two citations were touched for one request: the chain target counts.
    rep.assert_has("retrieve:end considered=2 failed=0");
    // Exactly one flush, at the very end — not one per pass.
    assert_eq!(rep.count_starting_with("wait:start flush"), 1);
}

#[test]
fn retry_backoff_is_announced_with_each_attempt() {
    let rep = RecordingReporter::default();
    let fetcher = FlakyFetcher {
        fail_times: RefCell::new(2),
        body: item("doi:10.1/x"),
    };
    let mgr = Host::new(fetcher, MemStore::default(), FixedClock(0), InstantTimer)
        .with_reporter(rep.clone())
        .register("doi", HttpSource)
        .unwrap();

    let report = mgr.retrieve(&[cite("doi", "10.1/x")]).unwrap();
    assert!(report.is_complete(), "failures: {:?}", report.failures);

    let url = "https://example.test/10.1/x";
    // Three attempts: two 503s and the 200 that finally worked.
    assert_eq!(rep.count_starting_with(&format!("req:start {url}")), 3);
    rep.assert_has(&format!("req:end {url} 503"));
    rep.assert_has(&format!("req:end {url} 200"));
    // …separated by two announced backoffs, which are otherwise entirely
    // silent (up to 30 s each with the default policy).
    assert_eq!(rep.count_starting_with("wait:start backoff"), 2);
    rep.assert_has(&format!("wait:end backoff({url},#0)"));
    rep.assert_has(&format!("wait:end backoff({url},#1)"));
}

#[test]
fn a_grace_served_failure_is_reported_even_though_it_is_not_in_the_report() {
    // Stale-while-revalidate: the source is down but a cached copy is still
    // inside the grace window, so `retrieve` reports success. Without the event
    // this — the one moment the grace window does its job — would be invisible.
    let now = 1_000_000_000i64;
    let csl = json(&item("doi:10.1/x"));
    let stale = CacheRecord {
        payload: Payload::Concrete(csl),
        stale_after: Timestamp::from_millis(now - 20_000),
        // Hard-expired ten seconds ago, far inside the 14-day grace window.
        expires: Timestamp::from_millis(now - 10_000),
    };

    let rep = RecordingReporter::default();
    let mgr = Host::new(
        MockFetcher::default(),
        MemStore::default().seed("doi:10.1/x", stale),
        FixedClock(now),
        InstantTimer,
    )
    .with_reporter(rep.clone())
    .register("doi", FailingSource)
    .unwrap();

    let report = mgr.retrieve(&[cite("doi", "10.1/x")]).unwrap();
    assert!(
        report.is_complete(),
        "a grace-served failure must not reach the report: {:?}",
        report.failures
    );

    rep.assert_has("failed doi:10.1/x grace=true");
    rep.assert_has("retrieve:end considered=1 failed=0");
    // The cached copy is still what `get` returns.
    let got = mgr.get("doi", "10.1/x").unwrap();
    assert_eq!(got.get("title").and_then(|v| v.as_str()), Some("t"));
}

#[test]
fn an_authoritative_miss_is_reported_as_a_real_failure() {
    let rep = RecordingReporter::default();
    let mgr = Host::new(
        MockFetcher::default(),
        MemStore::default(),
        FixedClock(0),
        InstantTimer,
    )
    .with_reporter(rep.clone())
    .register("doi", MissingSource)
    .unwrap();

    let report = mgr.retrieve(&[cite("doi", "10.1/nope")]).unwrap();
    assert_eq!(report.failures.len(), 1);

    rep.assert_has("failed doi:10.1/nope grace=false");
    rep.assert_has("retrieve:end considered=1 failed=1");
    rep.assert_lacks("resolved ");
}

#[test]
fn a_fully_cached_run_reports_cache_hits_and_drives_no_source() {
    let now = 1_000_000_000i64;
    let csl = json(&item("doi:10.1/x"));
    let fresh = CacheRecord {
        payload: Payload::Concrete(csl),
        stale_after: Timestamp::from_millis(now + 60_000),
        expires: Timestamp::from_millis(now + 120_000),
    };

    let rep = RecordingReporter::default();
    let mgr = Host::new(
        MockFetcher::default(),
        MemStore::default().seed("doi:10.1/x", fresh),
        FixedClock(now),
        InstantTimer,
    )
    .with_reporter(rep.clone())
    .register("doi", FailingSource)
    .unwrap();

    mgr.retrieve(&[cite("doi", "10.1/x")]).unwrap();

    rep.assert_has("pass1:start cached=1 fetch=0");
    // Nothing was driven, so no source events at all — the counts in
    // `PassStarted` are the only thing a display has to work from here.
    rep.assert_lacks("doi:start");
    rep.assert_lacks("req:start");
    rep.assert_has("retrieve:end considered=1 failed=0");
}
