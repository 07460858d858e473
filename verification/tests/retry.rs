//! Retries: a flaky fetcher that fails a few times and then succeeds is retried behind the
//! source's back, while a hard 404 passes straight through; and how long the waits are.

use std::cell::{Cell, RefCell};
use std::collections::BTreeMap;
use std::rc::Rc;
use std::time::Duration;

use autocitefetch::filecache::load_merged;
use autocitefetch::json::{read_json, write_json};
use autocitefetch::retry::Attempts;
use autocitefetch::session::{Action, Session};
use autocitefetch::source::folded_key;
use autocitefetch::index::TextMap;
use autocitefetch::retry::parse_retry_after;
use autocitefetch::source::doi::DoiSource;
use autocitefetch::{
    CacheRecord, CitationManager, Clock, CslValue, Error, FetchError, FileCacheStore, Payload,
    Request, Resolution, Response, RetrieveReport, RetryPolicy, Source, StoreError, Timestamp,
    TtlPolicy,
};
use serde_json::Value;

// --- a host: it fetches, waits and keeps the store, and asks the library what to do ---

trait Fetcher {
    fn fetch(&self, req: &Request) -> Result<Response, FetchError>;
}

trait Timer {
    fn sleep(&self, dur: Duration);
}

/// What a source is given to answer with: the prefix it is bound to, and a fetcher that
/// tries again where the policy says so.
struct Ctx<'a> {
    prefix: &'a str,
    fetcher: &'a dyn Fetcher,
    timer: &'a dyn Timer,
    retries: RetryPolicy,
}

impl Ctx<'_> {
    fn fetch(&self, req: &Request) -> Result<Response, FetchError> {
        let mut attempts = Attempts::new();
        loop {
            let reply = self.fetcher.fetch(req);
            match attempts.after(&self.retries, &req.url, &reply) {
                Some(dur) => self.timer.sleep(dur),
                None => return reply,
            }
        }
    }
}

/// A source together with how the host gets its answers.
trait Answers {
    fn normalize(&self, key: &str) -> String {
        folded_key(key)
    }
    fn chunk(&self) -> usize {
        512
    }
    fn interval(&self) -> Duration {
        Duration::from_millis(1000)
    }
    fn ttl(&self) -> Duration {
        Duration::from_secs(30 * 24 * 60 * 60)
    }
    fn answer(&self, keys: Vec<String>, ctx: &Ctx<'_>) -> Vec<Resolution>;
}

struct Bound(Box<dyn Answers>);

impl Source for Bound {
    fn normalize_key(&self, key: &str) -> String {
        self.0.normalize(key)
    }
    fn chunk_size(&self) -> usize {
        self.0.chunk()
    }
    fn min_interval(&self) -> Duration {
        self.0.interval()
    }
    fn default_ttl(&self) -> Duration {
        self.0.ttl()
    }
}

/// A store in memory, which counts what a retrieval appends to its log.
#[derive(Clone)]
struct MemStore {
    inner: Rc<RefCell<FileCacheStore>>,
    puts: Rc<Cell<u32>>,
}

impl Default for MemStore {
    fn default() -> Self {
        let merged = load_merged(Ok(None), "d/c.jsonl", Vec::new()).unwrap();
        MemStore {
            inner: Rc::new(RefCell::new(FileCacheStore::open("d", "c", "w", merged))),
            puts: Rc::new(Cell::new(0)),
        }
    }
}

#[allow(dead_code)]
impl MemStore {
    fn seed(&self, id: &str, payload: Payload, stale_after: i64, expires: i64) {
        let record = CacheRecord {
            payload,
            stale_after: Timestamp::from_millis(stale_after),
            expires: Timestamp::from_millis(expires),
        };
        self.inner.borrow_mut().put(id, record);
    }
    fn put(&self, id: &str, record: CacheRecord) -> Result<(), StoreError> {
        self.inner.borrow_mut().put(id, record);
        Ok(())
    }
    fn get(&self, id: &str) -> Result<Option<CacheRecord>, StoreError> {
        Ok(self.inner.borrow().get(id))
    }
    fn entries(&self) -> Result<Vec<(String, CacheRecord)>, StoreError> {
        Ok(self.inner.borrow().entries())
    }
}

struct Host {
    mgr: CitationManager<Bound>,
    fetcher: Box<dyn Fetcher>,
    store: MemStore,
    clock: Box<dyn Clock>,
    timer: Box<dyn Timer>,
}

#[allow(dead_code)]
impl Host {
    fn new(
        fetcher: impl Fetcher + 'static,
        store: MemStore,
        clock: impl Clock + 'static,
        timer: impl Timer + 'static,
    ) -> Host {
        Host {
            mgr: CitationManager::new(),
            fetcher: Box::new(fetcher),
            store,
            clock: Box::new(clock),
            timer: Box::new(timer),
        }
    }

    fn register(self, prefix: &str, source: impl Answers + 'static) -> Result<Host, Error> {
        let mgr = self.mgr.register(prefix, Bound(Box::new(source)))?;
        Ok(Host { mgr, ..self })
    }

    fn with_policy(self, policy: TtlPolicy) -> Host {
        Host { mgr: self.mgr.with_policy(policy), ..self }
    }

    fn with_max_chain_depth(self, depth: usize) -> Host {
        Host { mgr: self.mgr.with_max_chain_depth(depth), ..self }
    }

    fn with_dropped_csl_fields<const N: usize>(self, names: [&str; N]) -> Host {
        let names = names.iter().map(|n| n.to_string()).collect();
        Host { mgr: self.mgr.with_dropped_csl_fields(names), ..self }
    }

    fn store(&self) -> &MemStore {
        &self.store
    }

    fn retrieve(&self, cites: &[(String, String)]) -> Result<RetrieveReport, Error> {
        let mut session = Session::new(cites);
        loop {
            let now = self.clock.now();
            let action = session.next(&self.mgr, &mut self.store.inner.borrow_mut(), now);
            match action {
                Action::Wait { length, .. } => self.timer.sleep(length),
                Action::Ask { prefix, keys } => {
                    let ctx = Ctx {
                        prefix: &prefix,
                        fetcher: self.fetcher.as_ref(),
                        timer: self.timer.as_ref(),
                        retries: self.mgr.retry_policy(),
                    };
                    let got = self.mgr.source(&prefix).unwrap().0.answer(keys, &ctx);
                    session.answer(got);
                }
                Action::Settled { notes } => {
                    let lines = notes.iter().filter(|n| n.line.is_some()).count();
                    self.store.puts.set(self.store.puts.get() + lines as u32);
                }
                Action::Finished { .. } => return Ok(session.into_report()),
                _ => {}
            }
        }
    }

    fn get(&self, prefix: &str, key: &str) -> Result<Value, Error> {
        self.mgr.get(&self.store.inner.borrow(), prefix, key).map(|v| value(&v))
    }

    fn get_by_id(&self, id: &str) -> Result<Value, Error> {
        self.mgr.get_by_id(&self.store.inner.borrow(), id).map(|v| value(&v))
    }

    fn prune(&self) -> Result<usize, Error> {
        let now = self.clock.now();
        let pruning = self.mgr.prune(&mut self.store.inner.borrow_mut(), now);
        pruning.written(Ok(()))?.flushed(Ok(()))
    }
}

/// An item as a value that can be looked into by name.
fn value(v: &CslValue) -> Value {
    serde_json::from_str(&write_json(v, true)).unwrap()
}

/// A value from its JSON text.
#[allow(dead_code)]
fn json(text: &str) -> CslValue {
    read_json(text.as_bytes()).unwrap()
}

struct FixedClock(i64);
impl Clock for FixedClock {
    fn now(&self) -> Timestamp {
        Timestamp::from_millis(self.0)
    }
}

impl Answers for DoiSource {
    fn normalize(&self, key: &str) -> String {
        self.normalize_key(key)
    }
    fn chunk(&self) -> usize {
        self.chunk_size()
    }
    fn interval(&self) -> Duration {
        self.min_interval()
    }
    fn ttl(&self) -> Duration {
        self.default_ttl()
    }
    fn answer(&self, keys: Vec<String>, ctx: &Ctx<'_>) -> Vec<Resolution> {
        keys.iter()
            .map(|doi| match self.request(doi) {
                Ok(req) => self.resolve(ctx.prefix, doi, ctx.fetch(&req)),
                Err(refused) => refused,
            })
            .collect()
    }
}

/// How the flaky fetcher expresses a transient failure.
#[derive(Clone, Copy)]
enum FailMode {
    /// A retryable HTTP status (as doi.org's 503).
    Status(u16),
    /// A retryable transport error.
    Transport,
}

/// Fails the first `fail_first` attempts for the matching url, then serves a
/// 200 with `body`.
struct FlakyFetcher {
    url: String,
    fail_first: u32,
    mode: FailMode,
    /// `Retry-After` header value attached to failure responses, if any.
    retry_after: Option<String>,
    body: Vec<u8>,
    attempts: RefCell<BTreeMap<String, u32>>,
}

impl FlakyFetcher {
    fn new(url: &str, fail_first: u32, mode: FailMode, body: &str) -> Self {
        FlakyFetcher {
            url: url.into(),
            fail_first,
            mode,
            retry_after: None,
            body: body.as_bytes().to_vec(),
            attempts: RefCell::new(BTreeMap::new()),
        }
    }
    fn with_retry_after(mut self, value: &str) -> Self {
        self.retry_after = Some(value.into());
        self
    }
    fn failure_response(&self, status: u16) -> Response {
        let mut resp = Response { status, headers: TextMap::new(), body: Vec::new() };
        if let Some(ra) = &self.retry_after {
            resp.headers.insert("retry-after".into(), ra.clone());
        }
        resp
    }
}

impl Fetcher for FlakyFetcher {
    fn fetch(&self, req: &Request) -> Result<Response, FetchError> {
        let n = {
            let mut a = self.attempts.borrow_mut();
            let c = a.entry(req.url.clone()).or_insert(0);
            *c += 1;
            *c
        };
        if req.url != self.url {
            Err(FetchError::Status(404))
        } else if n <= self.fail_first {
            match self.mode {
                FailMode::Status(s) => Ok(self.failure_response(s)),
                FailMode::Transport => Err(FetchError::Transport("connection reset".into())),
            }
        } else {
            Ok(Response { status: 200, headers: TextMap::new(), body: self.body.clone() })
        }
    }
}

/// A timer that records *how long* each sleep was.
#[derive(Clone, Default)]
struct RecordingTimer {
    sleeps: Rc<RefCell<Vec<Duration>>>,
}
impl RecordingTimer {
    fn millis(&self) -> Vec<u64> {
        self.sleeps
            .borrow()
            .iter()
            .map(|d| d.as_millis() as u64)
            .collect()
    }
}
impl Timer for RecordingTimer {
    fn sleep(&self, dur: Duration) {
        self.sleeps.borrow_mut().push(dur);
    }
}

/// Always answers with the same status (plus an optional `Retry-After`), so a
/// policy's delay schedule can be read straight off the timer.
struct AlwaysFails {
    status: u16,
    retry_after: Option<&'static str>,
    calls: Cell<u32>,
}
impl AlwaysFails {
    fn new(status: u16) -> Self {
        AlwaysFails {
            status,
            retry_after: None,
            calls: Cell::new(0),
        }
    }
    fn with_retry_after(mut self, value: &'static str) -> Self {
        self.retry_after = Some(value);
        self
    }
}
impl Fetcher for AlwaysFails {
    fn fetch(&self, _req: &Request) -> Result<Response, FetchError> {
        self.calls.set(self.calls.get() + 1);
        let mut resp = Response { status: self.status, headers: TextMap::new(), body: Vec::new() };
        if let Some(ra) = self.retry_after {
            resp.headers.insert("retry-after".into(), ra.into());
        }
        Ok(resp)
    }
}

/// Run one request with retries and return the delays it slept.
fn delays_for(fetcher: &AlwaysFails, policy: RetryPolicy, url: &str) -> Vec<u64> {
    let timer = RecordingTimer::default();
    let ctx = Ctx { prefix: "x", fetcher, timer: &timer, retries: policy };
    let resp = ctx.fetch(&Request::get(url)).expect("status is surfaced as Ok");
    assert_eq!(resp.status, fetcher.status);
    timer.millis()
}

fn policy(max_retries: u32, base_ms: u64, cap_ms: u64, honor: bool) -> RetryPolicy {
    RetryPolicy {
        max_retries,
        base: Duration::from_millis(base_ms),
        cap: Duration::from_millis(cap_ms),
        honor_retry_after: honor,
    }
}

// --- tests: interposition through a real source ----------------------------

const DOI: &str = "10.1234/retry";
const DOI_URL: &str = "https://doi.org/10.1234/retry";
const BODY: &str = r#"{"type":"article-journal","title":"Retry Worked","DOI":"10.1234/retry"}"#;

/// A flaky source that returns retryable 503s a few times is retried behind the
/// DOI source's back and eventually resolves — with exactly K backoff sleeps,
/// each one longer than the last.
#[test]
fn retryable_503_is_retried_until_it_succeeds() {
    const K: u32 = 3;
    let timer = RecordingTimer::default();
    let sleeps = timer.clone();
    let fetcher = FlakyFetcher::new(DOI_URL, K, FailMode::Status(503), BODY);
    let mgr = Host::new(fetcher, MemStore::default(), FixedClock(0), timer)
        .register("doi", DoiSource::new()).unwrap();

    let cites = vec![("doi".to_string(), DOI.to_string())];
    let report = mgr.retrieve(&cites).unwrap();
    assert!(report.is_complete(), "failures: {:?}", report.failures);

    // Resolved despite the transient failures.
    let item = mgr.get("doi", DOI).unwrap();
    assert_eq!(item["id"], "doi:10.1234/retry");
    assert_eq!(item["title"], "Retry Worked");

    // Exactly K backoff sleeps: one before each of the K retries, and the
    // default policy's 500 ms base doubling each time (plus <=25% jitter).
    let d = sleeps.millis();
    assert_eq!(d.len(), K as usize, "expected exactly K backoff sleeps");
    for (i, ms) in d.iter().enumerate() {
        let nominal = 500u64 << i;
        assert!(
            (nominal..=nominal + nominal / 4).contains(ms),
            "delay {i} = {ms} ms is outside [{nominal}, {}]",
            nominal + nominal / 4
        );
    }
}

/// The `Err` path is retried too: retryable transport errors back off and retry.
#[test]
fn retryable_transport_error_is_retried_until_it_succeeds() {
    const K: u32 = 2;
    let timer = RecordingTimer::default();
    let sleeps = timer.clone();
    let fetcher = FlakyFetcher::new(DOI_URL, K, FailMode::Transport, BODY);
    let mgr = Host::new(fetcher, MemStore::default(), FixedClock(0), timer)
        .register("doi", DoiSource::new()).unwrap();

    let cites = vec![("doi".to_string(), DOI.to_string())];
    let report = mgr.retrieve(&cites).unwrap();
    assert!(report.is_complete(), "failures: {:?}", report.failures);

    assert_eq!(mgr.get("doi", DOI).unwrap()["title"], "Retry Worked");
    assert_eq!(sleeps.millis().len(), K as usize);
}

/// A 404 is a hard, non-retryable status: it passes straight through with zero
/// backoff sleeps and the citation is reported as failed.
#[test]
fn non_retryable_404_is_not_retried() {
    // fail_first is huge, but the mode is 404 → the wrapper must not retry it.
    let timer = RecordingTimer::default();
    let sleeps = timer.clone();
    let fetcher = FlakyFetcher::new(DOI_URL, 99, FailMode::Status(404), BODY);
    let mgr = Host::new(fetcher, MemStore::default(), FixedClock(0), timer)
        .register("doi", DoiSource::new()).unwrap();

    let cites = vec![("doi".to_string(), DOI.to_string())];
    let report = mgr.retrieve(&cites).unwrap();

    // Reported as a failure, and never resolvable.
    assert_eq!(report.failures.len(), 1, "the 404 should surface as a failure");
    assert_eq!(report.failures[0].prefix, "doi");
    assert!(mgr.get("doi", DOI).is_err());

    // Zero backoff sleeps: a 404 is not retried.
    assert!(sleeps.millis().is_empty(), "a 404 must not be retried");
}

/// A source is retried through the wrapper even when the server sends a
/// `Retry-After`, and the wait is the header's value.
#[test]
fn retry_after_reaches_the_wrapper_through_a_source() {
    let timer = RecordingTimer::default();
    let sleeps = timer.clone();
    let fetcher =
        FlakyFetcher::new(DOI_URL, 1, FailMode::Status(429), BODY).with_retry_after("3");
    let mgr = Host::new(fetcher, MemStore::default(), FixedClock(0), timer)
        .register("doi", DoiSource::new()).unwrap();

    let cites = vec![("doi".to_string(), DOI.to_string())];
    assert!(mgr.retrieve(&cites).unwrap().is_complete());
    assert_eq!(sleeps.millis(), vec![3000]);
}

// --- tests: the backoff schedule itself ------------------------------------

/// Retries are exhausted after `max_retries`, and the last response is then
/// passed through as-is.
#[test]
fn retries_are_exhausted_then_the_response_passes_through() {
    let fetcher = AlwaysFails::new(503);
    let d = delays_for(&fetcher, policy(2, 500, 30_000, true), "https://x.test/a");
    assert_eq!(d.len(), 2, "max_retries sleeps, then give up");
    assert_eq!(fetcher.calls.get(), 3, "max_retries + 1 attempts");
}

/// Every status in the retryable set is retried; everything else is not.
#[test]
fn the_retryable_status_set_is_429_500_502_503_504() {
    for status in [429, 500, 502, 503, 504] {
        let fetcher = AlwaysFails::new(status);
        let d = delays_for(&fetcher, policy(2, 500, 30_000, true), "https://x.test/a");
        assert_eq!(d.len(), 2, "status {status} should be retried");
    }
    for status in [200, 301, 400, 403, 404, 418, 501] {
        let fetcher = AlwaysFails::new(status);
        let d = delays_for(&fetcher, policy(2, 500, 30_000, true), "https://x.test/a");
        assert!(d.is_empty(), "status {status} must not be retried");
    }
}

/// The exponential term doubles per attempt and the jitter never exceeds 25%.
#[test]
fn backoff_doubles_with_bounded_jitter() {
    let fetcher = AlwaysFails::new(503);
    let d = delays_for(&fetcher, policy(4, 100, 30_000, true), "https://x.test/a");
    assert_eq!(d.len(), 4);
    for (i, ms) in d.iter().enumerate() {
        let nominal = 100u64 << i;
        assert!(
            (nominal..=nominal + nominal / 4 + 1).contains(ms),
            "delay {i} = {ms} ms is outside [{nominal}, {}]",
            nominal + nominal / 4 + 1
        );
    }
}

/// Once the exponential term reaches `cap`, the jitter must survive: capping
/// the *sum* would erase it, and during a sustained outage every client would retry
/// on exactly the same 30 s cadence. Two urls must still get different delays, and
/// neither may exceed the cap.
#[test]
fn jitter_survives_once_the_backoff_reaches_the_cap() {
    let p = policy(1, 30_000, 30_000, true);
    let a = delays_for(&AlwaysFails::new(503), p, "https://x.test/a");
    let b = delays_for(&AlwaysFails::new(503), p, "https://x.test/bbbb");
    for d in [&a, &b] {
        assert_eq!(d.len(), 1);
        assert!(
            (22_500..=30_000).contains(&d[0]),
            "capped delay {} ms outside the jitter window",
            d[0]
        );
    }
    assert_ne!(a[0], b[0], "the jitter was swallowed by the cap");
}

/// A numeric `Retry-After` wins over the computed backoff, but is clamped into
/// `[base, cap]` — `Retry-After: 0` must not make a loop without waits.
#[test]
fn retry_after_is_honored_but_clamped() {
    let p = policy(3, 500, 30_000, true);

    let seven = delays_for(&AlwaysFails::new(503).with_retry_after("7"), p, "https://x.test/a");
    assert_eq!(seven, vec![7000, 7000, 7000]);

    let zero = delays_for(&AlwaysFails::new(429).with_retry_after("0"), p, "https://x.test/a");
    assert_eq!(zero, vec![500, 500, 500], "Retry-After: 0 must be floored");

    let huge =
        delays_for(&AlwaysFails::new(503).with_retry_after("99999"), p, "https://x.test/a");
    assert_eq!(huge, vec![30_000, 30_000, 30_000], "must be capped");

    // The HTTP-date form is unparseable here (no clock) → exponential backoff.
    let date = delays_for(
        &AlwaysFails::new(503).with_retry_after("Wed, 21 Oct 2015 07:28:00 GMT"),
        p,
        "https://x.test/a",
    );
    assert!(
        (500..=625).contains(&date[0]) && (1000..=1250).contains(&date[1]),
        "expected exponential backoff, got {date:?}"
    );
}

/// With `honor_retry_after` off the header is not even parsed, let alone used.
#[test]
fn retry_after_is_ignored_when_the_policy_says_so() {
    let fetcher = AlwaysFails::new(503).with_retry_after("7");
    let d = delays_for(&fetcher, policy(2, 500, 30_000, false), "https://x.test/a");
    assert!(
        (500..=625).contains(&d[0]) && (1000..=1250).contains(&d[1]),
        "expected the exponential schedule, got {d:?}"
    );
}

/// A wait can be told exactly: the hash of the URL and the attempt picks the jitter.
#[test]
fn a_wait_is_the_same_in_every_run() {
    let p = policy(5, 500, 30_000, true);
    let first = p.backoff("https://doi.org/10.1/x", 0, None);
    assert_eq!(p.backoff("https://doi.org/10.1/x", 0, None), first);
    // FNV-1a of the URL and of the attempt in four bytes, low byte first.
    let mut h: u64 = 0xcbf2_9ce4_8422_2325;
    for b in "https://doi.org/10.1/x".bytes().chain([0, 0, 0, 0]) {
        h = (h ^ b as u64).wrapping_mul(0x100_0000_01b3);
    }
    assert_eq!(first, Duration::from_millis(500 + h % 126));
    // A wish longer than the base is taken, whatever the attempt.
    let asked = Some(Duration::from_millis(1234));
    assert_eq!(p.backoff("u", 40, asked), Duration::from_millis(1234));
    // After many attempts the cap holds.
    assert!(p.backoff("u", 40, None) <= Duration::from_secs(30));
    assert!(p.backoff("u", u32::MAX, None) >= Duration::from_millis(22_500));
}

/// Only a number of seconds is read from the header.
#[test]
fn retry_after_reads_whole_seconds_only() {
    for (text, want) in [
        ("7", Some(7)),
        (" 8 ", Some(8)),
        ("+9", Some(9)),
        ("-1", None),
        ("1.5", None),
        ("", None),
        ("18446744073709551616", None),
    ] {
        let mut resp = Response { status: 503, headers: TextMap::new(), body: Vec::new() };
        resp.headers.insert("Retry-After".into(), text.into());
        assert_eq!(parse_retry_after(&resp), want.map(Duration::from_secs), "{text:?}");
    }
}

#[test]
fn which_failures_are_tried_again() {
    assert!(FetchError::Transport("t".into()).is_retryable());
    for status in [429, 500, 502, 503, 504] {
        assert!(FetchError::Status(status).is_retryable(), "{status}");
    }
    assert!(!FetchError::Status(404).is_retryable());
    let p = RetryPolicy::default();
    assert_eq!((p.max_retries, p.base, p.cap), (5, Duration::from_millis(500), Duration::from_secs(30)));
    assert!(p.after_error("u", 4, &FetchError::Status(503)).is_some());
    assert!(p.after_error("u", 5, &FetchError::Status(503)).is_none());
    assert!(p.after_error("u", 0, &FetchError::Status(404)).is_none());
}
