//! The cache as a host keeps it in a directory that several writers share: the main file
//! under its own name, and everything else under `._{base}`, with a lock that each writer
//! holds beside its log for as long as it has one. The directory is in memory.

use std::cell::RefCell;
use std::collections::{BTreeMap, BTreeSet};
use std::rc::Rc;

use autocitefetch::filecache::{
    fs_store, liveness_lock, load_merged, main_path, path_in, sidecars, FileCacheStore, FsError,
    Merged,
};
use autocitefetch::json::{read_json, write_json};
use autocitefetch::session::{Action, Session};
use autocitefetch::source::manual::ManualSource;
use autocitefetch::{CacheRecord, CitationManager, Payload, StoreError, Timestamp};

const DIR: &str = "cache";
const BASE: &str = "citations";
const SIDE: &str = "._citations";

/// The files of the directory, and the locks that somebody holds.
#[derive(Default)]
struct Directory {
    files: RefCell<BTreeMap<String, Vec<u8>>>,
    held: RefCell<BTreeSet<String>>,
}

impl Directory {
    fn names(&self) -> Vec<String> {
        self.files.borrow().keys().cloned().collect()
    }
    fn holds(&self, name: &str) -> bool {
        self.files.borrow().contains_key(name)
    }
    fn text(&self, name: &str) -> String {
        String::from_utf8(self.files.borrow()[name].clone()).unwrap()
    }
    fn write(&self, name: &str, text: &str) {
        self.files.borrow_mut().insert(name.to_string(), text.as_bytes().to_vec());
    }
    fn logs(&self) -> Vec<String> {
        self.names().into_iter().filter(|n| n.starts_with(SIDE) && n.ends_with(".log")).collect()
    }
    /// Takes the lock at a path if nobody holds it.
    fn try_lock(&self, name: &str) -> bool {
        self.files.borrow_mut().entry(name.to_string()).or_default();
        self.held.borrow_mut().insert(name.to_string())
    }
    /// Removes a lock file that is held.
    fn give_back(&self, name: &str) {
        self.files.borrow_mut().remove(name);
        self.held.borrow_mut().remove(name);
    }
}

/// The name of the file at a path in the directory.
fn name_of(path: &str) -> &str {
    path.strip_prefix("cache/").unwrap()
}

struct Writer {
    dir: Rc<Directory>,
    store: RefCell<FileCacheStore>,
    /// The lock beside this writer's log, while it is held.
    lock: RefCell<Option<String>>,
}

fn load(dir: &Directory) -> Result<Merged, FsError> {
    let main = main_path(DIR, BASE);
    let logs = sidecars(&dir.names(), SIDE)
        .into_iter()
        .map(|name| {
            let content = dir.files.borrow().get(name_of(&path_in(DIR, &name))).cloned();
            (name, Ok(content))
        })
        .collect();
    let bytes = dir.files.borrow().get(name_of(&main)).cloned();
    load_merged(Ok(bytes), &main, logs)
}

impl Writer {
    fn open(dir: &Rc<Directory>, id: &str) -> Writer {
        let merged = load(dir).unwrap();
        Writer {
            dir: dir.clone(),
            store: RefCell::new(FileCacheStore::open_beside(DIR, BASE, SIDE, id, merged)),
            lock: RefCell::new(None),
        }
    }

    fn append(&self, line: Option<String>) {
        let Some(line) = line else {
            return;
        };
        let store = self.store.borrow();
        let log = name_of(store.log_file());
        if self.lock.borrow().is_none() {
            let lock = liveness_lock(log);
            assert!(self.dir.try_lock(&lock));
            *self.lock.borrow_mut() = Some(lock);
        }
        self.dir
            .files
            .borrow_mut()
            .entry(log.to_string())
            .or_default()
            .extend_from_slice(line.as_bytes());
    }

    fn put(&self, id: &str, record: CacheRecord) {
        let line = self.store.borrow_mut().put(id, record);
        self.append(line);
    }

    fn remove(&self, id: &str) {
        let line = self.store.borrow_mut().remove(id);
        self.append(line);
    }

    fn get(&self, id: &str) -> Option<CacheRecord> {
        self.store.borrow().get(id)
    }

    fn flush(&self) -> Result<(), StoreError> {
        let mut store = self.store.borrow_mut();
        let compaction = name_of(store.lock_file()).to_string();
        assert!(self.dir.try_lock(&compaction), "nobody else compacts");
        let compacting = store.begin_compaction(load(&self.dir))?;
        self.dir.write(name_of(store.main_file()), compacting.text());
        let done = compacting.replaced(Ok(()))?;
        if done.own_log_is_spent(&store) {
            self.dir.files.borrow_mut().remove(name_of(store.log_file()));
            if let Some(lock) = self.lock.borrow_mut().take() {
                self.dir.give_back(&lock);
            }
        }
        for log in done.peers_to_reap(&store, &self.dir.names()) {
            let lock = liveness_lock(&log);
            if self.dir.try_lock(&lock) {
                self.dir.files.borrow_mut().remove(&log);
                self.dir.give_back(&lock);
            }
        }
        store.end_compaction(done);
        self.dir.give_back(&compaction);
        Ok(())
    }

    /// The process ends: its locks are released, its files stay.
    fn crash(self) {
        if let Some(lock) = self.lock.borrow_mut().take() {
            self.dir.held.borrow_mut().remove(&lock);
        }
    }
}

fn record(expires_ms: i64) -> CacheRecord {
    CacheRecord {
        payload: Payload::Concrete(read_json(br#"{"id": "x", "title": "t"}"#).unwrap()),
        stale_after: Timestamp::from_millis(expires_ms / 2),
        expires: Timestamp::from_millis(expires_ms),
    }
}

fn ephemeral(at_ms: i64) -> CacheRecord {
    CacheRecord {
        payload: Payload::Concrete(read_json(br#"{"id": "m", "note": "Bohr"}"#).unwrap()),
        stale_after: Timestamp::from_millis(at_ms),
        expires: Timestamp::from_millis(at_ms),
    }
}

#[test]
fn put_flush_reopen_roundtrip_leaves_single_committed_file() {
    let dir = Rc::new(Directory::default());
    let store = Writer::open(&dir, "1-1");
    store.put("doi:10.1/a", record(1000));
    store.put("arxiv:2101.00001", record(2000));
    store.flush().unwrap();
    assert_eq!(
        dir.names(),
        ["citations.jsonl"],
        "a finished run must leave nothing but the committable file"
    );
    let reopened = Writer::open(&dir, "2-2");
    assert!(reopened.get("doi:10.1/a").is_some());
    assert!(reopened.get("arxiv:2101.00001").is_some());
    assert_eq!(reopened.store.borrow().entries().len(), 2);
}

#[test]
fn only_the_main_file_is_outside_the_underscore_dot_prefix() {
    let dir = Rc::new(Directory::default());
    // A *live* peer, so the directory also holds a log and a lock that this
    // store's flush is not allowed to reap.
    let store = Writer::open(&dir, "1-1");
    let peer = Writer::open(&dir, "2-2");
    peer.put("doi:10.1/peer", record(1000));
    store.put("doi:10.1/a", record(1000));
    store.flush().unwrap();

    let stray: Vec<String> = dir
        .names()
        .into_iter()
        .filter(|n| n != "citations.jsonl" && !n.starts_with("._citations"))
        .collect();
    assert!(stray.is_empty(), "found: {stray:?}");
    let logs = dir.logs();
    assert_eq!(logs.len(), 1, "the live peer's log is in the directory, found {logs:?}");
    assert!(dir.holds(&format!("{}.lock", logs[0])));
}

#[test]
fn put_then_remove_then_flush_removes_on_disk() {
    let dir = Rc::new(Directory::default());
    let store = Writer::open(&dir, "1-1");
    store.put("doi:10.1/gone", record(1000));
    store.remove("doi:10.1/gone");
    store.flush().unwrap();
    assert!(store.get("doi:10.1/gone").is_none());
    assert!(!dir.text("citations.jsonl").contains("doi:10.1/gone"));
    assert!(Writer::open(&dir, "2-2").get("doi:10.1/gone").is_none());
}

#[test]
fn refetch_with_smaller_expires_wins_on_disk() {
    let dir = Rc::new(Directory::default());
    let store = Writer::open(&dir, "1-1");
    store.put("doi:10.1/a", record(5000));
    store.flush().unwrap();
    store.put("doi:10.1/a", record(1000));
    store.flush().unwrap();
    assert_eq!(
        Writer::open(&dir, "2-2").get("doi:10.1/a").unwrap().expires,
        Timestamp::from_millis(1000),
        "the newer, smaller-expiry re-fetch must win"
    );
}

#[test]
fn a_crashed_writers_sidecar_is_reaped() {
    let dir = Rc::new(Directory::default());
    let a = Writer::open(&dir, "1-1");
    a.put("doi:crashed", record(1234));
    let before = dir.logs();
    assert_eq!(before.len(), 1, "exactly A's log present, found {before:?}");
    a.crash();

    let b = Writer::open(&dir, "2-2");
    b.flush().unwrap();
    assert!(b.get("doi:crashed").is_some(), "the crashed writer's data must be folded in");
    assert!(dir.text("citations.jsonl").contains("doi:crashed"));
    assert!(dir.logs().is_empty(), "found {:?}", dir.logs());
    for name in &before {
        assert!(!dir.holds(&format!("{name}.lock")));
    }
}

#[test]
fn a_live_writers_sidecar_is_not_reaped() {
    let dir = Rc::new(Directory::default());
    let a = Writer::open(&dir, "1-1");
    a.put("doi:from-a", record(1234));
    let logs = dir.logs();
    assert_eq!(logs.len(), 1, "A's log present, found {logs:?}");

    // B compacts while A is still alive and holds its lock.
    let b = Writer::open(&dir, "2-2");
    b.flush().unwrap();
    assert!(dir.holds(&logs[0]), "a live writer's log must survive a peer's flush");

    a.put("doi:from-a-again", record(5678));
    a.flush().unwrap();
    let reader = Writer::open(&dir, "3-3");
    assert!(reader.get("doi:from-a").is_some());
    assert!(reader.get("doi:from-a-again").is_some());
}

#[test]
fn a_sidecar_written_after_a_flush_is_still_protected() {
    let dir = Rc::new(Directory::default());
    let a = Writer::open(&dir, "1-1");
    a.put("doi:before", record(1234));
    a.flush().unwrap();
    assert!(dir.logs().is_empty(), "A's flush leaves no log behind");

    a.put("doi:after", record(5678));
    let logs = dir.logs();
    assert_eq!(logs.len(), 1, "A's new log, found {logs:?}");
    assert!(dir.holds(&format!("{}.lock", logs[0])));

    let b = Writer::open(&dir, "2-2");
    b.flush().unwrap();
    assert!(dir.holds(&logs[0]));

    a.flush().unwrap();
    let reader = Writer::open(&dir, "3-3");
    for id in ["doi:before", "doi:after"] {
        assert!(reader.get(id).is_some(), "{id} must survive");
    }
}

#[test]
fn main_file_shape_is_header_plus_sorted_entries() {
    let dir = Rc::new(Directory::default());
    let store = Writer::open(&dir, "1-1");
    for id in ["doi:10.2/z", "arxiv:2101.00001", "doi:10.1/a"] {
        store.put(id, record(1000));
    }
    store.flush().unwrap();

    let text = dir.text("citations.jsonl");
    let lines: Vec<&str> = text.lines().collect();
    assert_eq!(lines.len(), 4, "header + one line per entry: {lines:?}");
    assert_eq!(lines[0], r#"{"schema":1}"#, "line 0 is the schema header");
    assert!(text.ends_with('\n'), "file ends with a newline");
    let ids: Vec<String> = lines[1..]
        .iter()
        .map(|l| {
            let v: serde_json::Value = serde_json::from_str(l).expect("each line is one entry");
            assert!(v.get("rec").is_some(), "entry carries its record");
            v["id"].as_str().expect("entry carries its id").to_string()
        })
        .collect();
    assert_eq!(ids, ["arxiv:2101.00001", "doi:10.1/a", "doi:10.2/z"]);
}

#[test]
fn reopen_returns_the_same_payload_and_expiry() {
    let dir = Rc::new(Directory::default());
    let concrete = read_json(
        r#"{
            "id": "doi:10.1/a",
            "title": "Ünïcødé, \"quotes\" and \\backslashes\\",
            "author": [{"family": "Doe", "given": "J."}],
            "issued": {"date-parts": [[2021, 3, 14]]}
        }"#
        .as_bytes(),
    )
    .unwrap();
    let stored = CacheRecord {
        payload: Payload::Concrete(concrete.clone()),
        stale_after: Timestamp::from_millis(1_700_000_000_123),
        expires: Timestamp::from_millis(1_800_000_000_456),
    };
    let chained = CacheRecord {
        payload: Payload::Chained {
            prefix: "doi".into(),
            key: "10.1/a".into(),
            set_properties: read_json(br#"{"note": "via arXiv"}"#).unwrap(),
        },
        stale_after: Timestamp::from_millis(1),
        expires: Timestamp::from_millis(2),
    };
    let store = Writer::open(&dir, "1-1");
    store.put("doi:10.1/a", stored.clone());
    store.put("arxiv:2101.00001", chained.clone());
    store.flush().unwrap();

    let reopened = Writer::open(&dir, "2-2");
    let got = reopened.get("doi:10.1/a").expect("present");
    assert_eq!(got.stale_after, stored.stale_after);
    assert_eq!(got.expires, stored.expires);
    match got.payload {
        Payload::Concrete(v) => assert_eq!(v, concrete),
        other => panic!("expected a concrete payload, got {other:?}"),
    }
    let got = reopened.get("arxiv:2101.00001").expect("present");
    assert_eq!(got.stale_after, chained.stale_after);
    assert_eq!(got.expires, chained.expires);
    match got.payload {
        Payload::Chained { prefix, key, set_properties } => {
            assert_eq!(prefix, "doi");
            assert_eq!(key, "10.1/a");
            assert_eq!(set_properties, read_json(br#"{"note": "via arXiv"}"#).unwrap());
        }
        other => panic!("expected a chained payload, got {other:?}"),
    }
}

#[test]
fn flush_does_not_delete_foreign_citations_star_log_files() {
    let dir = Rc::new(Directory::default());
    let store = Writer::open(&dir, "1-1");
    let foreign = [
        ("._citations.import-notes.log", "hand-written import notes\n"),
        ("._citations.log", "a log named without a writer segment\n"),
        ("citations.4711-1.log", "a log under the bare base\n"),
        ("unrelated.log", "nothing to do with the cache\n"),
    ];
    for (name, body) in foreign {
        dir.write(name, body);
    }
    store.put("doi:10.1/a", record(1000));
    store.flush().unwrap();
    for (name, body) in foreign {
        assert!(dir.holds(name), "{name} was deleted by a compaction");
        assert_eq!(dir.text(name), body, "{name} was modified by a compaction");
    }
    assert!(store.get("doi:10.1/a").is_some());
}

#[test]
fn flush_creates_the_compaction_lockfile_and_takes_it_away_again() {
    let dir = Rc::new(Directory::default());
    let store = Writer::open(&dir, "1-1");
    let lock = "._citations.lock";
    assert_eq!(store.store.borrow().lock_file(), format!("cache/{lock}"));
    assert!(!dir.holds(lock), "nothing takes the lock before a flush");

    store.put("doi:10.1/a", record(1000));
    store.flush().unwrap();
    assert!(!dir.holds(lock));

    store.put("doi:10.1/b", record(2000));
    store.flush().unwrap();
    assert!(!dir.holds(lock), "and again on the next flush");
    assert_eq!(store.store.borrow().entries().len(), 2);
}

#[test]
fn ephemeral_records_are_never_committed_to_disk() {
    let dir = Rc::new(Directory::default());
    let store = Writer::open(&dir, "1-1");
    store.put("doi:keep", record(1000));
    store.put("manual:Bohr, N. (1913)", ephemeral(0));

    // Usable within the run, before the flush and after it.
    assert!(store.get("manual:Bohr, N. (1913)").is_some());
    for name in dir.names() {
        assert!(!dir.text(&name).contains("Bohr"), "leaked into {name}");
    }
    store.flush().unwrap();
    assert!(store.get("manual:Bohr, N. (1913)").is_some());
    assert!(store.get("doi:keep").is_some());

    let main = dir.text("citations.jsonl");
    assert!(main.contains("doi:keep"), "normal record committed: {main}");
    for name in dir.names() {
        assert!(!dir.text(&name).contains("Bohr"), "leaked into {name}");
    }
    let reopened = Writer::open(&dir, "2-2");
    assert!(reopened.get("doi:keep").is_some());
    assert!(reopened.get("manual:Bohr, N. (1913)").is_none());
}

#[test]
fn manual_citation_is_usable_in_run_but_never_persisted() {
    let dir = Rc::new(Directory::default());
    let store = Writer::open(&dir, "1-1");
    let mgr = CitationManager::new().register("manual", ManualSource::new("flm")).unwrap();
    let now = Timestamp::from_millis(1_000);
    let text = "Bohr, N. (1913). On the Constitution of Atoms.";

    let mut session = Session::new(&[("manual".to_string(), text.to_string())]);
    loop {
        let action = session.next(&mgr, &mut store.store.borrow_mut(), now);
        match action {
            Action::Ask { prefix, keys } => {
                session.answer(mgr.source(&prefix).unwrap().retrieve_chunk(&keys));
            }
            Action::Settled { notes } => {
                for note in notes {
                    store.append(note.line);
                }
            }
            Action::Finished { .. } => break,
            _ => {}
        }
    }
    let report = session.into_report();
    assert!(report.is_complete(), "{:?}", report.failures);
    store.flush().unwrap();

    let item = mgr.get(&store.store.borrow(), "manual", text).expect("get within run");
    let item: serde_json::Value = serde_json::from_str(&write_json(&item, true)).unwrap();
    assert_eq!(item["_ready_formatted"]["flm"], text);
    assert!(!dir.text("citations.jsonl").contains("Bohr"));
    let reopened = Writer::open(&dir, "2-2");
    assert!(mgr.get(&reopened.store.borrow(), "manual", text).is_err());
}
