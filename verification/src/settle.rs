//! What becomes of the answers of a source: records, further citations, failures.

use crate::cache::{expiries, within_grace};
use crate::csl::{fields, group_csl, id_of, json_map, set_id, CslValue, Json};
use crate::driver::texts;
use crate::env::Timestamp;
use crate::error::{joined, Error, ErrorView};
use crate::filecache::{adds, ephemeral, FileCacheStore};
use crate::index::TextMap;
use crate::json::{json_written, plain, DEPTH_LIMIT};
use crate::manager::{
    as_seen, seen_item, seen_map, CitationManager, ItemView, Seen, SeenView, WorkItem,
};
use crate::record::{entry_tree, tombstone_tree, Change};
use crate::retrieval::{at_least_deep, lookup, opt_record, Retrieval, RunView};
use crate::source::{resolution_views, Outcome, OutcomeView, Resolution, ResolutionView, Source};
use crate::store::{CacheRecord, Payload, PayloadView, RecordView};
use crate::text::same;
use core::time::Duration;
use vstd::prelude::*;
use vstd::string::*;

verus! {

/// What becomes of one requested key.
pub enum Verdict {
    /// The record is stored; the target of a pointer is looked at next.
    Put { item: WorkItem, record: CacheRecord, next: Option<WorkItem> },
    /// The key could not be resolved now.
    Failed { item: WorkItem, error: Error },
    /// There is no such key.
    Missing { item: WorkItem, error: Error },
}

/// What becomes of one requested key, by its meaning.
pub enum VerdictView {
    Put { item: ItemView, record: RecordView, next: Option<ItemView> },
    Failed { item: ItemView, error: ErrorView },
    Missing { item: ItemView, error: ErrorView },
}

/// A citation that may be absent, by its meaning.
pub open spec fn opt_item(w: Option<WorkItem>) -> Option<ItemView> {
    match w {
        Some(w) => Some(w@),
        None => None,
    }
}

impl View for Verdict {
    type V = VerdictView;

    open spec fn view(&self) -> VerdictView {
        match self {
            Verdict::Put { item, record, next } => VerdictView::Put {
                item: item@,
                record: record@,
                next: opt_item(*next),
            },
            Verdict::Failed { item, error } => VerdictView::Failed { item: item@, error: error@ },
            Verdict::Missing { item, error } => VerdictView::Missing { item: item@, error: error@ },
        }
    }
}

impl VerdictView {
    /// The citation that is decided on.
    pub open spec fn item(self) -> ItemView {
        match self {
            VerdictView::Put { item, .. } => item,
            VerdictView::Failed { item, .. } => item,
            VerdictView::Missing { item, .. } => item,
        }
    }
}

/// The views of verdicts.
pub open spec fn verdict_views(s: Seq<Verdict>) -> Seq<VerdictView> {
    s.map_values(|v: Verdict| v@)
}

/// A value without the named members, if it is an object. What is nested in other
/// members stays.
pub open spec fn without(j: Json, names: Seq<Seq<char>>) -> Json {
    match j {
        Json::Object(m) => Json::Object(m.remove_keys(names.to_set())),
        _ => j,
    }
}

/// Removes the named members, if the value is an object.
fn drop_fields(item: &mut CslValue, names: &Vec<String>)
    ensures
        final(item)@ == without(old(item)@, texts(names@)),
{
    broadcast use group_csl;

    let ghost all = texts(names@);
    match item {
        CslValue::Object(m) => {
            let ghost start = json_map(m@);
            let mut i: usize = 0;
            assert(start.remove_keys(all.take(0).to_set()) =~= start);
            while i < names.len()
                invariant
                    i <= names@.len(),
                    all == texts(names@),
                    json_map(m@) == start.remove_keys(all.take(i as int).to_set()),
                decreases names@.len() - i,
            {
                let ghost now = m@;
                m.remove(names[i].as_str());
                proof {
                    crate::csl::lemma_json_map_remove(now, names@[i as int]@);
                    let a = all.take(i as int);
                    let b = all.take(i + 1);
                    assert(b =~= a.push(all[i as int]));
                    assert(b.to_set() =~= a.to_set().insert(all[i as int])) by {
                        assert forall|x: Seq<char>| b.to_set().contains(x) == a.to_set().insert(
                            all[i as int],
                        ).contains(x) by {
                            if a.contains(x) {
                                let k = choose|k: int| 0 <= k < a.len() && a[k] == x;
                                assert(b[k] == x);
                            }
                            assert(b[i as int] == all[i as int]);
                        }
                    }
                    assert(json_map(m@) =~= start.remove_keys(b.to_set()));
                }
                i += 1;
            }
            assert(all.take(i as int) =~= all);
        },
        _ => {},
    }
}

/// The error of an item that is no object.
pub open spec fn non_object(id: Seq<char>) -> ErrorView {
    ErrorView::Source("source returned a non-object CSL payload for `"@ + id + "`"@)
}

/// The error of a pointer to itself.
pub open spec fn self_chain(id: Seq<char>) -> ErrorView {
    ErrorView::Chain("`"@ + id + "` chains to itself"@)
}

/// The error of a key that its source did not answer.
pub open spec fn no_resolution(prefix: Seq<char>, key: Seq<char>) -> ErrorView {
    ErrorView::Source(
        "source `"@ + prefix + "` returned no resolution for key `"@ + key + "`"@,
    )
}

/// Whether one of the resolutions is for the key.
pub open spec fn answers(resolutions: Seq<ResolutionView>, key: Seq<char>) -> bool {
    exists|i: int| 0 <= i < resolutions.len() && (#[trigger] resolutions[i]).key == key
}

impl<S: Source> CitationManager<S> {
    /// The record for a payload that is stored at `now`.
    pub open spec fn record_at(
        self,
        payload: PayloadView,
        now: int,
        ttl: Duration,
        id: Seq<char>,
    ) -> RecordView {
        let (stale_after, expires) = expiries(self.ttl_policy(), now, ttl, id);
        RecordView { payload, stale_after, expires }
    }

    /// What becomes of a citation, by what its source answered. An item is stored
    /// without the dropped fields, under its own id, and with its own lifetime if it
    /// has one. A pointer is stored with its target's key in the form in which the
    /// target is kept, and that target is looked at next. An item that is no object,
    /// and a pointer to itself, are failures.
    pub open spec fn verdict_of(
        self,
        item: ItemView,
        outcome: OutcomeView,
        default_ttl: Duration,
        now: int,
    ) -> VerdictView {
        match outcome {
            OutcomeView::Concrete { csl, ttl } => if csl is Object {
                VerdictView::Put {
                    item,
                    record: self.record_at(
                        PayloadView::Concrete(
                            Json::Object(
                                fields(without(csl, self.dropped())).insert(
                                    "id"@,
                                    Json::Text(item.id()),
                                ),
                            ),
                        ),
                        now,
                        match ttl {
                            Some(t) => t,
                            None => default_ttl,
                        },
                        item.id(),
                    ),
                    next: None,
                }
            } else {
                VerdictView::Failed { item, error: non_object(item.id()) }
            },
            OutcomeView::Chained { prefix, key, set_properties } => {
                let key = self.form(prefix, key);
                if prefix == item.prefix && key == item.key {
                    VerdictView::Failed { item, error: self_chain(item.id()) }
                } else {
                    VerdictView::Put {
                        item,
                        record: self.record_at(
                            PayloadView::Chained {
                                prefix,
                                key,
                                set_properties: without(set_properties, self.dropped()),
                            },
                            now,
                            default_ttl,
                            item.id(),
                        ),
                        next: Some(item.target(prefix, key)),
                    }
                }
            },
            OutcomeView::Failed(error) => VerdictView::Failed { item, error },
            OutcomeView::Missing(error) => VerdictView::Missing { item, error },
        }
    }

    /// What becomes of the requested keys that are answered: the first resolution
    /// for a key counts, and one for a key that was not requested does not.
    pub open spec fn answered(
        self,
        prefix: Seq<char>,
        requested: Seq<Seq<char>>,
        resolutions: Seq<ResolutionView>,
        seen: Map<Seq<char>, SeenView>,
        default_ttl: Duration,
        now: int,
    ) -> Seq<VerdictView>
        decreases resolutions.len(),
    {
        if resolutions.len() == 0 {
            Seq::empty()
        } else {
            let front = resolutions.drop_last();
            let last = resolutions.last();
            let verdicts = self.answered(prefix, requested, front, seen, default_ttl, now);
            if requested.contains(last.key) && !answers(front, last.key) {
                verdicts.push(
                    self.verdict_of(as_seen(seen, prefix, last.key), last.outcome, default_ttl, now),
                )
            } else {
                verdicts
            }
        }
    }

    /// What becomes of the requested keys that are not answered: each is a failure.
    pub open spec fn unanswered(
        self,
        prefix: Seq<char>,
        requested: Seq<Seq<char>>,
        resolutions: Seq<ResolutionView>,
        seen: Map<Seq<char>, SeenView>,
    ) -> Seq<VerdictView>
        decreases requested.len(),
    {
        if requested.len() == 0 {
            Seq::empty()
        } else {
            let verdicts = self.unanswered(prefix, requested.drop_last(), resolutions, seen);
            let key = requested.last();
            if answers(resolutions, key) {
                verdicts
            } else {
                verdicts.push(
                    VerdictView::Failed {
                        item: as_seen(seen, prefix, key),
                        error: no_resolution(prefix, key),
                    },
                )
            }
        }
    }

    /// What becomes of the keys that were requested from a source.
    pub open spec fn settled(
        self,
        prefix: Seq<char>,
        requested: Seq<Seq<char>>,
        resolutions: Seq<ResolutionView>,
        seen: Map<Seq<char>, SeenView>,
        default_ttl: Duration,
        now: int,
    ) -> Seq<VerdictView> {
        self.answered(prefix, requested, resolutions, seen, default_ttl, now) + self.unanswered(
            prefix,
            requested,
            resolutions,
            seen,
        )
    }

    /// Decides what becomes of a citation, by what its source answered.
    pub fn verdict(
        &self,
        item: WorkItem,
        outcome: Outcome,
        default_ttl: Duration,
        now: Timestamp,
    ) -> (r: Verdict)
        ensures
            r@ == self.verdict_of(item@, outcome@, default_ttl, now.0 as int),
    {
        let id = item.id();
        let policy = self.policy();
        match outcome {
            Outcome::Concrete { csl, ttl } => {
                let mut csl = csl;
                drop_fields(&mut csl, self.dropped_csl_fields());
                if !set_id(&mut csl, id.as_str()) {
                    let m = joined(
                        "source returned a non-object CSL payload for `",
                        id.as_str(),
                        "`",
                    );
                    return Verdict::Failed { item, error: Error::Source(m) };
                }
                let ttl = match ttl {
                    Some(t) => t,
                    None => default_ttl,
                };
                let record = policy.make_record(Payload::Concrete(csl), now, ttl, id.as_str());
                Verdict::Put { item, record, next: None }
            },
            Outcome::Chained { prefix, key, set_properties } => {
                let key = self.normalize_key(prefix.as_str(), key.as_str());
                if same(prefix.as_str(), item.prefix.as_str()) && same(
                    key.as_str(),
                    item.key.as_str(),
                ) {
                    let m = joined("`", id.as_str(), "` chains to itself");
                    return Verdict::Failed { item, error: Error::Chain(m) };
                }
                let mut set_properties = set_properties;
                drop_fields(&mut set_properties, self.dropped_csl_fields());
                let next = item.target(prefix.as_str(), key.as_str());
                let payload = Payload::Chained { prefix, key, set_properties };
                let record = policy.make_record(payload, now, default_ttl, id.as_str());
                Verdict::Put { item, record, next: Some(next) }
            },
            Outcome::Failed(error) => Verdict::Failed { item, error },
            Outcome::Missing(error) => Verdict::Missing { item, error },
        }
    }
}

/// One resolution more answers one key more.
proof fn lemma_answers_more(resolutions: Seq<ResolutionView>, i: int, key: Seq<char>)
    requires
        0 <= i < resolutions.len(),
    ensures
        answers(resolutions.take(i + 1), key) == (answers(resolutions.take(i), key)
            || resolutions[i].key == key),
{
    let a = resolutions.take(i);
    let b = resolutions.take(i + 1);
    if answers(a, key) {
        let k = choose|k: int| 0 <= k < a.len() && (#[trigger] a[k]).key == key;
        assert(b[k].key == key);
    }
    if resolutions[i].key == key {
        assert(b[i].key == key);
    }
    if answers(b, key) {
        let k = choose|k: int| 0 <= k < b.len() && (#[trigger] b[k]).key == key;
        if k < i {
            assert(a[k].key == key);
        }
    }
}

/// The keys as a set.
fn key_set(keys: &Vec<String>) -> (r: TextMap<bool>)
    ensures
        forall|k: Seq<char>| #[trigger] r@.contains_key(k) == texts(keys@).contains(k),
{
    let ghost all = texts(keys@);
    let mut out: TextMap<bool> = TextMap::new();
    let mut i: usize = 0;
    while i < keys.len()
        invariant
            i <= keys@.len(),
            all == texts(keys@),
            forall|k: Seq<char>| #[trigger]
                out@.contains_key(k) == exists|j: int| 0 <= j < i && #[trigger] all[j] == k,
        decreases keys@.len() - i,
    {
        let ghost before = out@;
        out.insert(keys[i].clone(), true);
        proof {
            assert(all[i as int] == keys@[i as int]@);
            assert forall|k: Seq<char>| #[trigger] out@.contains_key(k) == exists|j: int|
                0 <= j < i + 1 && #[trigger] all[j] == k by {
                if before.contains_key(k) {
                    let j = choose|j: int| 0 <= j < i && #[trigger] all[j] == k;
                    assert(0 <= j < i + 1 && all[j] == k);
                }
                if out@.contains_key(k) && !before.contains_key(k) {
                    assert(all[i as int] == k);
                }
            }
        }
        i += 1;
    }
    proof {
        assert forall|k: Seq<char>| #[trigger] out@.contains_key(k) == all.contains(k) by {
            if out@.contains_key(k) {
                let j = choose|j: int| 0 <= j < i && #[trigger] all[j] == k;
                assert(all[j] == k);
            }
            if all.contains(k) {
                let j = choose|j: int| 0 <= j < all.len() && all[j] == k;
                assert(0 <= j < i && all[j] == k);
            }
        }
    }
    out
}

impl<S: Source> CitationManager<S> {
    /// Decides what becomes of the keys that were requested from the source bound to
    /// `prefix`, by what it answered.
    pub fn settle(
        &self,
        prefix: &str,
        requested: &Vec<String>,
        resolutions: &Vec<Resolution>,
        seen: &TextMap<Seen>,
        default_ttl: Duration,
        now: Timestamp,
    ) -> (r: Vec<Verdict>)
        ensures
            verdict_views(r@) == self.settled(
                prefix@,
                texts(requested@),
                resolution_views(resolutions@),
                seen_map(seen@),
                default_ttl,
                now.0 as int,
            ),
    {
        let ghost all = resolution_views(resolutions@);
        let ghost keys = texts(requested@);
        let ghost known = seen_map(seen@);
        let asked = key_set(requested);
        let mut handled: TextMap<bool> = TextMap::new();
        let mut out: Vec<Verdict> = Vec::new();
        let mut i: usize = 0;
        proof {
            assert(all.take(0) =~= Seq::empty());
            assert(verdict_views(out@) =~= Seq::empty());
        }
        while i < resolutions.len()
            invariant
                i <= resolutions@.len(),
                all == resolution_views(resolutions@),
                keys == texts(requested@),
                known == seen_map(seen@),
                forall|k: Seq<char>| #[trigger] asked@.contains_key(k) == keys.contains(k),
                forall|k: Seq<char>| #[trigger]
                    handled@.contains_key(k) == answers(all.take(i as int), k),
                verdict_views(out@) == self.answered(
                    prefix@,
                    keys,
                    all.take(i as int),
                    known,
                    default_ttl,
                    now.0 as int,
                ),
            decreases resolutions@.len() - i,
        {
            let ghost front = all.take(i as int);
            let ghost more = all.take(i + 1);
            let ghost before = out@;
            let ghost done = handled@;
            let res = &resolutions[i];
            proof {
                assert(more.drop_last() =~= front);
                assert(more.last() == res@);
            }
            if asked.contains_key(res.key.as_str()) && !handled.contains_key(res.key.as_str()) {
                let item = seen_item(seen, prefix, res.key.as_str());
                let v = self.verdict(item, res.outcome.clone(), default_ttl, now);
                out.push(v);
                assert(verdict_views(out@) =~= verdict_views(before).push(v@));
            }
            handled.insert(res.key.clone(), true);
            proof {
                assert forall|k: Seq<char>| #[trigger] handled@.contains_key(k) == answers(
                    more,
                    k,
                ) by {
                    lemma_answers_more(all, i as int, k);
                    assert(done.contains_key(k) == answers(front, k));
                }
            }
            i += 1;
        }
        assert(all.take(i as int) =~= all);
        let ghost first = verdict_views(out@);
        let mut j: usize = 0;
        proof {
            assert(keys.take(0) =~= Seq::empty());
            assert(first =~= first + self.unanswered(prefix@, keys.take(0), all, known));
        }
        while j < requested.len()
            invariant
                j <= requested@.len(),
                keys == texts(requested@),
                known == seen_map(seen@),
                forall|k: Seq<char>| #[trigger] handled@.contains_key(k) == answers(all, k),
                verdict_views(out@) == first + self.unanswered(
                    prefix@,
                    keys.take(j as int),
                    all,
                    known,
                ),
            decreases requested@.len() - j,
        {
            let ghost before = out@;
            let ghost more = keys.take(j + 1);
            proof {
                assert(more.drop_last() =~= keys.take(j as int));
                assert(more.last() == requested@[j as int]@);
            }
            let key = &requested[j];
            if !handled.contains_key(key.as_str()) {
                let item = seen_item(seen, prefix, key.as_str());
                let m = joined("source `", prefix, "` returned no resolution for key `").concat(
                    key.as_str(),
                ).concat("`");
                let v = Verdict::Failed { item, error: Error::Source(m) };
                out.push(v);
                assert(verdict_views(out@) =~= verdict_views(before).push(v@));
                assert(verdict_views(out@) =~= first + self.unanswered(prefix@, more, all, known));
            }
            j += 1;
        }
        assert(keys.take(j as int) =~= keys);
        out
    }
}

/// Whether a record that may be absent is tolerated though it could not be fetched
/// again.
pub open spec fn kept(record: Option<RecordView>, grace: Duration, now: int) -> bool {
    match record {
        Some(r) => within_grace(r.expires, grace, now),
        None => false,
    }
}

/// What has to be looked at so that a record can be read: the target, if it is a
/// pointer.
pub open spec fn targets(item: ItemView, record: Option<RecordView>) -> Seq<ItemView> {
    match record {
        Some(r) => match r.payload {
            PayloadView::Chained { prefix, key, .. } => seq![item.target(prefix, key)],
            PayloadView::Concrete(_) => Seq::empty(),
        },
        None => Seq::empty(),
    }
}

/// The retrieval after a failure: a record within its grace keeps being served, and
/// nothing is reported; its target is still needed if it is a pointer. Otherwise
/// the failure is reported.
pub open spec fn failure_noted(
    run: RunView,
    item: ItemView,
    error: ErrorView,
    record: Option<RecordView>,
    grace: Duration,
    now: int,
) -> RunView {
    if kept(record, grace, now) {
        RunView { worklist: run.worklist + targets(item, record), ..run }
    } else {
        RunView { failures: run.failures.push(item.failure(error)), ..run }
    }
}

/// A cache and a retrieval after one verdict.
pub open spec fn committed(
    cache: Map<Seq<char>, RecordView>,
    run: RunView,
    verdict: VerdictView,
    grace: Duration,
    now: int,
) -> (Map<Seq<char>, RecordView>, RunView) {
    match verdict {
        VerdictView::Put { item, record, next } => (
            cache.insert(item.id(), record),
            RunView {
                worklist: match next {
                    Some(w) => run.worklist.push(w),
                    None => run.worklist,
                },
                ..run
            },
        ),
        VerdictView::Failed { item, error } => (
            cache,
            failure_noted(run, item, error, lookup(cache, item.id()), grace, now),
        ),
        VerdictView::Missing { item, error } => (
            cache.remove(item.id()),
            RunView { failures: run.failures.push(item.failure(error)), ..run },
        ),
    }
}

/// A cache and a retrieval after verdicts, one after another.
pub open spec fn committed_all(
    cache: Map<Seq<char>, RecordView>,
    run: RunView,
    verdicts: Seq<VerdictView>,
    grace: Duration,
    now: int,
) -> (Map<Seq<char>, RecordView>, RunView)
    decreases verdicts.len(),
{
    if verdicts.len() == 0 {
        (cache, run)
    } else {
        let (c, r) = committed_all(cache, run, verdicts.drop_last(), grace, now);
        committed(c, r, verdicts.last(), grace, now)
    }
}

/// The ids that the files hold a record of, after one verdict.
pub open spec fn filed_after(filed: Set<Seq<char>>, verdict: VerdictView) -> Set<Seq<char>> {
    match verdict {
        VerdictView::Put { item, record, .. } => if ephemeral(record) {
            filed
        } else {
            filed.insert(item.id())
        },
        VerdictView::Failed { .. } => filed,
        VerdictView::Missing { item, .. } => filed.remove(item.id()),
    }
}

/// The ids that the files hold a record of, after verdicts, one after another.
pub open spec fn filed_after_all(
    filed: Set<Seq<char>>,
    verdicts: Seq<VerdictView>,
) -> Set<Seq<char>>
    decreases verdicts.len(),
{
    if verdicts.len() == 0 {
        filed
    } else {
        filed_after(filed_after_all(filed, verdicts.drop_last()), verdicts.last())
    }
}

/// What came of carrying a verdict out.
pub struct Commit {
    /// What to append to this writer's log.
    pub line: Option<String>,
    /// Whether a record within its grace is served in spite of a failure.
    pub grace_served: bool,
}

/// What a verdict appends to this writer's log.
pub open spec fn logged(
    cache: Map<Seq<char>, RecordView>,
    filed: Set<Seq<char>>,
    verdict: Verdict,
    line: Option<String>,
) -> bool {
    match verdict {
        Verdict::Put { item, record, .. } => match line {
            Some(line) => {
                &&& !ephemeral(record@)
                &&& line@ == json_written(entry_tree(item@.id(), record)) + seq!['\n']
                &&& plain(entry_tree(item@.id(), record), DEPTH_LIMIT as nat) ==> adds(
                    line@,
                    Change::Put(item@.id(), record@),
                )
            },
            None => ephemeral(record@),
        },
        Verdict::Failed { .. } => line is None,
        Verdict::Missing { item, .. } => {
            let silent = cache.contains_key(item@.id()) && !filed.contains(item@.id());
            match line {
                Some(line) => {
                    &&& !silent
                    &&& line@ == json_written(tombstone_tree(item@.id())) + seq!['\n']
                    &&& adds(line@, Change::Remove(item@.id()))
                },
                None => silent,
            }
        },
    }
}

impl<S: Source> CitationManager<S> {
    /// Notes that a citation could not be resolved now: unless a record of it is
    /// within its grace, that is reported. Says whether there is such a record.
    pub fn note_failure(
        &self,
        run: &mut Retrieval,
        item: &WorkItem,
        error: &Error,
        record: &Option<CacheRecord>,
        now: Timestamp,
    ) -> (r: bool)
        ensures
            r == kept(opt_record(*record), self.ttl_policy().grace, now.0 as int),
            final(run)@ == failure_noted(
                old(run)@,
                item@,
                error@,
                opt_record(*record),
                self.ttl_policy().grace,
                now.0 as int,
            ),
    {
        let ghost start = run@;
        if let Some(rec) = record {
            if self.policy().usable_within_grace(rec, now) {
                match &rec.payload {
                    Payload::Chained { prefix, key, .. } => {
                        run.follow(item.target(prefix.as_str(), key.as_str()));
                    },
                    Payload::Concrete(_) => {},
                }
                assert(run@.worklist =~= start.worklist + targets(item@, opt_record(*record)));
                return true;
            }
        }
        run.fail(item, error);
        false
    }

    /// Carries a verdict out on the store and the retrieval, and says what to append
    /// to this writer's log and whether a record within its grace is served in spite of
    /// a failure.
    pub fn commit(
        &self,
        run: &mut Retrieval,
        store: &mut FileCacheStore,
        verdict: Verdict,
        now: Timestamp,
    ) -> (r: Commit)
        ensures
            (final(store).cached(), final(run)@) == committed(
                old(store).cached(),
                old(run)@,
                verdict@,
                self.ttl_policy().grace,
                now.0 as int,
            ),
            final(store).same_files(*old(store)),
            final(store).filed() == filed_after(old(store).filed(), verdict@),
            logged(old(store).cached(), old(store).filed(), verdict, r.line),
            r.grace_served == (verdict is Failed && kept(
                lookup(old(store).cached(), verdict@.item().id()),
                self.ttl_policy().grace,
                now.0 as int,
            )),
    {
        match verdict {
            Verdict::Put { item, record, next } => {
                let id = item.id();
                let line = store.put(id.as_str(), record);
                if let Some(w) = next {
                    run.follow(w);
                }
                Commit { line, grace_served: false }
            },
            Verdict::Failed { item, error } => {
                let id = item.id();
                let record = store.get(id.as_str());
                let grace_served = self.note_failure(run, &item, &error, &record, now);
                Commit { line: None, grace_served }
            },
            Verdict::Missing { item, error } => {
                let id = item.id();
                let line = store.remove(id.as_str());
                run.fail(&item, &error);
                Commit { line, grace_served: false }
            },
        }
    }
}

/// What came of a requested key, for the log and for whoever is told of progress.
pub struct Note {
    pub prefix: String,
    pub key: String,
    pub outcome: Noted,
    /// What to append to this writer's log.
    pub line: Option<String>,
}

/// How a requested key fared.
pub enum Noted {
    /// An item was stored.
    Item,
    /// A pointer was stored.
    Pointer { prefix: String, key: String },
    /// Nothing was stored. Where a record within its grace is served, nothing is
    /// reported either.
    Failure { error: Error, grace_served: bool },
}

/// Whether a note says what came of a verdict that is carried out on the cache.
pub open spec fn note_tells(
    cache: Map<Seq<char>, RecordView>,
    filed: Set<Seq<char>>,
    verdict: Verdict,
    grace: Duration,
    now: int,
    note: Note,
) -> bool {
    let item = verdict@.item();
    &&& note.prefix@ == item.prefix
    &&& note.key@ == item.key
    &&& logged(cache, filed, verdict, note.line)
    &&& match verdict@ {
        VerdictView::Put { record, .. } => match record.payload {
            PayloadView::Concrete(_) => note.outcome is Item,
            PayloadView::Chained { prefix, key, .. } => note.outcome matches Noted::Pointer {
                prefix: p,
                key: k,
            } && p@ == prefix && k@ == key,
        },
        VerdictView::Failed { error, .. } => note.outcome matches Noted::Failure {
            error: e,
            grace_served,
        } && e@ == error && grace_served == kept(lookup(cache, item.id()), grace, now),
        VerdictView::Missing { error, .. } => note.outcome matches Noted::Failure {
            error: e,
            grace_served,
        } && e@ == error && !grace_served,
    }
}

/// Whether notes say what came of verdicts that are carried out one after another.
pub open spec fn notes_tell(
    cache: Map<Seq<char>, RecordView>,
    filed: Set<Seq<char>>,
    run: RunView,
    verdicts: Seq<Verdict>,
    grace: Duration,
    now: int,
    notes: Seq<Note>,
) -> bool {
    &&& notes.len() == verdicts.len()
    &&& forall|i: int|
        0 <= i < notes.len() ==> note_tells(
            committed_all(cache, run, verdict_views(verdicts.take(i)), grace, now).0,
            filed_after_all(filed, verdict_views(verdicts.take(i))),
            verdicts[i],
            grace,
            now,
            #[trigger] notes[i],
        )
}

impl<S: Source> CitationManager<S> {
    /// Carries a verdict out, and says what came of it.
    fn carry_out(
        &self,
        run: &mut Retrieval,
        store: &mut FileCacheStore,
        verdict: Verdict,
        now: Timestamp,
    ) -> (r: Note)
        ensures
            (final(store).cached(), final(run)@) == committed(
                old(store).cached(),
                old(run)@,
                verdict@,
                self.ttl_policy().grace,
                now.0 as int,
            ),
            final(store).filed() == filed_after(old(store).filed(), verdict@),
            final(store).same_files(*old(store)),
            note_tells(
                old(store).cached(),
                old(store).filed(),
                verdict,
                self.ttl_policy().grace,
                now.0 as int,
                r,
            ),
    {
        let (prefix, key, outcome) = match &verdict {
            Verdict::Put { item, record, .. } => {
                let outcome = match &record.payload {
                    Payload::Concrete(_) => Noted::Item,
                    Payload::Chained { prefix, key, .. } => Noted::Pointer {
                        prefix: prefix.clone(),
                        key: key.clone(),
                    },
                };
                (item.prefix.clone(), item.key.clone(), outcome)
            },
            Verdict::Failed { item, error } => (
                item.prefix.clone(),
                item.key.clone(),
                Noted::Failure { error: error.clone(), grace_served: false },
            ),
            Verdict::Missing { item, error } => (
                item.prefix.clone(),
                item.key.clone(),
                Noted::Failure { error: error.clone(), grace_served: false },
            ),
        };
        let done = self.commit(run, store, verdict, now);
        let outcome = match outcome {
            Noted::Failure { error, .. } => Noted::Failure {
                error,
                grace_served: done.grace_served,
            },
            other => other,
        };
        Note { prefix, key, outcome, line: done.line }
    }

    /// Carries verdicts out one after another, and says what came of each.
    pub fn commit_all(
        &self,
        run: &mut Retrieval,
        store: &mut FileCacheStore,
        verdicts: Vec<Verdict>,
        now: Timestamp,
    ) -> (r: Vec<Note>)
        ensures
            (final(store).cached(), final(run)@) == committed_all(
                old(store).cached(),
                old(run)@,
                verdict_views(verdicts@),
                self.ttl_policy().grace,
                now.0 as int,
            ),
            final(store).filed() == filed_after_all(
                old(store).filed(),
                verdict_views(verdicts@),
            ),
            final(store).same_files(*old(store)),
            notes_tell(
                old(store).cached(),
                old(store).filed(),
                old(run)@,
                verdicts@,
                self.ttl_policy().grace,
                now.0 as int,
                r@,
            ),
    {
        let ghost all = verdicts@;
        let ghost cache = store.cached();
        let ghost filed = store.filed();
        let ghost start = run@;
        let ghost grace = self.ttl_policy().grace;
        let ghost at = now.0 as int;
        let mut left = verdicts;
        let mut out: Vec<Note> = Vec::new();
        proof {
            assert(verdict_views(all.take(0)) =~= Seq::empty());
            assert(all.skip(0) =~= all);
        }
        while left.len() > 0
            invariant
                cache == old(store).cached(),
                filed == old(store).filed(),
                store.filed() == filed_after_all(
                    filed,
                    verdict_views(all.take(out@.len() as int)),
                ),
                start == old(run)@,
                grace == self.ttl_policy().grace,
                at == now.0 as int,
                out@.len() + left@.len() == all.len(),
                left@ == all.skip(out@.len() as int),
                store.same_files(*old(store)),
                (store.cached(), run@) == committed_all(
                    cache,
                    start,
                    verdict_views(all.take(out@.len() as int)),
                    grace,
                    at,
                ),
                forall|i: int|
                    0 <= i < out@.len() ==> note_tells(
                        committed_all(cache, start, verdict_views(all.take(i)), grace, at).0,
                        filed_after_all(filed, verdict_views(all.take(i))),
                        all[i],
                        grace,
                        at,
                        #[trigger] out@[i],
                    ),
            decreases left@.len(),
        {
            let ghost n = out@.len() as int;
            let verdict = left.remove(0);
            proof {
                assert(verdict == all[n]);
                assert(left@ =~= all.skip(n + 1));
                let q = verdict_views(all.take(n + 1));
                assert(q.drop_last() =~= verdict_views(all.take(n)));
                assert(q.last() == verdict@);
            }
            let note = self.carry_out(run, store, verdict, now);
            out.push(note);
        }
        assert(all.take(out@.len() as int) =~= all);
        out
    }
}

/// Verdicts on distinct keys of one prefix.
pub open spec fn distinct_verdicts(prefix: Seq<char>, verdicts: Seq<VerdictView>) -> bool {
    &&& forall|i: int| 0 <= i < verdicts.len() ==> (#[trigger] verdicts[i]).item().prefix == prefix
    &&& forall|i: int, j: int|
        0 <= i < j < verdicts.len() ==> (#[trigger] verdicts[i]).item().key != (
        #[trigger] verdicts[j]).item().key
}

/// Whether one of the verdicts is on the key.
pub open spec fn decides(verdicts: Seq<VerdictView>, key: Seq<char>) -> bool {
    exists|i: int| 0 <= i < verdicts.len() && (#[trigger] verdicts[i]).item().key == key
}

/// A source is owed one verdict per requested key whatever it answered: there is no
/// verdict on a key that was not requested, none is left out, and none comes twice.
pub proof fn law_one_verdict_per_key<S: Source>(
    manager: CitationManager<S>,
    prefix: Seq<char>,
    requested: Seq<Seq<char>>,
    resolutions: Seq<ResolutionView>,
    seen: Map<Seq<char>, SeenView>,
    default_ttl: Duration,
    now: int,
)
    requires
        requested.no_duplicates(),
    ensures
        ({
            let v = manager.settled(prefix, requested, resolutions, seen, default_ttl, now);
            &&& distinct_verdicts(prefix, v)
            &&& v.len() == requested.len()
            &&& forall|k: Seq<char>| #[trigger] decides(v, k) == requested.contains(k)
        }),
{
    let a = manager.answered(prefix, requested, resolutions, seen, default_ttl, now);
    let b = manager.unanswered(prefix, requested, resolutions, seen);
    let v = a + b;
    lemma_answered(manager, prefix, requested, resolutions, seen, default_ttl, now);
    lemma_unanswered(manager, prefix, requested, resolutions, seen);
    assert forall|i: int| 0 <= i < v.len() implies (#[trigger] v[i]).item().prefix == prefix by {
        if i < a.len() {
            assert(a[i].item().prefix == prefix);
        } else {
            assert(b[i - a.len()].item().prefix == prefix);
        }
    }
    assert forall|i: int, j: int| 0 <= i < j < v.len() implies (#[trigger] v[i]).item().key != (
    #[trigger] v[j]).item().key by {
        if j < a.len() {
            assert(a[i].item().key != a[j].item().key);
        } else if i >= a.len() {
            assert(b[i - a.len()].item().key != b[j - a.len()].item().key);
        } else {
            assert(decides(a, a[i].item().key));
            assert(decides(b, b[j - a.len()].item().key));
        }
    }
    assert forall|k: Seq<char>| #[trigger] decides(v, k) == requested.contains(k) by {
        assert(decides(a, k) == (requested.contains(k) && answers(resolutions, k)));
        assert(decides(b, k) == (requested.contains(k) && !answers(resolutions, k)));
        if decides(v, k) {
            let i = choose|i: int| 0 <= i < v.len() && (#[trigger] v[i]).item().key == k;
            if i < a.len() {
                assert(a[i].item().key == k);
            } else {
                assert(b[i - a.len()].item().key == k);
            }
        }
        if decides(a, k) {
            let i = choose|i: int| 0 <= i < a.len() && (#[trigger] a[i]).item().key == k;
            assert(v[i].item().key == k);
        }
        if decides(b, k) {
            let i = choose|i: int| 0 <= i < b.len() && (#[trigger] b[i]).item().key == k;
            assert(v[a.len() + i].item().key == k);
        }
    }
    let keys = v.map_values(|x: VerdictView| x.item().key);
    assert(keys.no_duplicates());
    assert(keys.to_set() =~= requested.to_set()) by {
        assert forall|k: Seq<char>| keys.to_set().contains(k) == requested.to_set().contains(k) by {
            assert(decides(v, k) == requested.contains(k));
            if keys.contains(k) {
                let i = choose|i: int| 0 <= i < keys.len() && keys[i] == k;
                assert(v[i].item().key == k);
            }
            if decides(v, k) {
                let i = choose|i: int| 0 <= i < v.len() && (#[trigger] v[i]).item().key == k;
                assert(keys[i] == k);
            }
        }
    }
    keys.unique_seq_to_set();
    requested.unique_seq_to_set();
}

proof fn lemma_answered<S: Source>(
    manager: CitationManager<S>,
    prefix: Seq<char>,
    requested: Seq<Seq<char>>,
    resolutions: Seq<ResolutionView>,
    seen: Map<Seq<char>, SeenView>,
    default_ttl: Duration,
    now: int,
)
    ensures
        ({
            let v = manager.answered(prefix, requested, resolutions, seen, default_ttl, now);
            &&& distinct_verdicts(prefix, v)
            &&& forall|k: Seq<char>| #[trigger]
                decides(v, k) == (requested.contains(k) && answers(resolutions, k))
        }),
    decreases resolutions.len(),
{
    let v = manager.answered(prefix, requested, resolutions, seen, default_ttl, now);
    if resolutions.len() == 0 {
        assert forall|k: Seq<char>| #[trigger] decides(v, k) == (requested.contains(k) && answers(
            resolutions,
            k,
        )) by {}
    } else {
        let front = resolutions.drop_last();
        let last = resolutions.last();
        let n = resolutions.len() - 1;
        let f = manager.answered(prefix, requested, front, seen, default_ttl, now);
        lemma_answered(manager, prefix, requested, front, seen, default_ttl, now);
        assert(resolutions.take(n) =~= front);
        assert(resolutions.take(n + 1) =~= resolutions);
        let more = requested.contains(last.key) && !answers(front, last.key);
        if more {
            assert(v.last().item().key == last.key);
            assert(v =~= f.push(v.last()));
            assert forall|i: int, j: int| 0 <= i < j < v.len() implies (#[trigger] v[i]).item().key
                != (#[trigger] v[j]).item().key by {
                if j < f.len() {
                    assert(f[i].item().key != f[j].item().key);
                } else if f[i].item().key == last.key {
                    assert(decides(f, last.key));
                }
            }
            assert forall|i: int| 0 <= i < v.len() implies (#[trigger] v[i]).item().prefix
                == prefix by {
                if i < f.len() {
                    assert(f[i].item().prefix == prefix);
                }
            }
        }
        assert forall|k: Seq<char>| #[trigger] decides(v, k) == (requested.contains(k) && answers(
            resolutions,
            k,
        )) by {
            lemma_answers_more(resolutions, n, k);
            assert(decides(f, k) == (requested.contains(k) && answers(front, k)));
            if decides(f, k) {
                let i = choose|i: int| 0 <= i < f.len() && (#[trigger] f[i]).item().key == k;
                assert(v[i].item().key == k);
            }
            if more {
                assert(v[f.len() as int].item().key == last.key);
            }
            if decides(v, k) {
                let i = choose|i: int| 0 <= i < v.len() && (#[trigger] v[i]).item().key == k;
                if i < f.len() {
                    assert(f[i].item().key == k);
                }
            }
        }
    }
}

proof fn lemma_unanswered<S: Source>(
    manager: CitationManager<S>,
    prefix: Seq<char>,
    requested: Seq<Seq<char>>,
    resolutions: Seq<ResolutionView>,
    seen: Map<Seq<char>, SeenView>,
)
    requires
        requested.no_duplicates(),
    ensures
        ({
            let v = manager.unanswered(prefix, requested, resolutions, seen);
            &&& distinct_verdicts(prefix, v)
            &&& forall|k: Seq<char>| #[trigger]
                decides(v, k) == (requested.contains(k) && !answers(resolutions, k))
        }),
    decreases requested.len(),
{
    let v = manager.unanswered(prefix, requested, resolutions, seen);
    if requested.len() == 0 {
        assert forall|k: Seq<char>| #[trigger] decides(v, k) == (requested.contains(k) && !answers(
            resolutions,
            k,
        )) by {}
    } else {
        let front = requested.drop_last();
        let key = requested.last();
        let f = manager.unanswered(prefix, front, resolutions, seen);
        lemma_unanswered(manager, prefix, front, resolutions, seen);
        assert(!front.contains(key)) by {
            if front.contains(key) {
                let i = choose|i: int| 0 <= i < front.len() && front[i] == key;
                assert(requested[i] == requested[requested.len() - 1]);
            }
        }
        let more = !answers(resolutions, key);
        if more {
            assert(v =~= f.push(v.last()));
            assert forall|i: int, j: int| 0 <= i < j < v.len() implies (#[trigger] v[i]).item().key
                != (#[trigger] v[j]).item().key by {
                if j < f.len() {
                    assert(f[i].item().key != f[j].item().key);
                } else if f[i].item().key == key {
                    assert(decides(f, key));
                }
            }
            assert forall|i: int| 0 <= i < v.len() implies (#[trigger] v[i]).item().prefix
                == prefix by {
                if i < f.len() {
                    assert(f[i].item().prefix == prefix);
                }
            }
        }
        assert forall|k: Seq<char>| #[trigger] decides(v, k) == (requested.contains(k) && !answers(
            resolutions,
            k,
        )) by {
            assert(decides(f, k) == (front.contains(k) && !answers(resolutions, k)));
            assert(requested.contains(k) == (front.contains(k) || k == key)) by {
                if requested.contains(k) {
                    let i = choose|i: int| 0 <= i < requested.len() && requested[i] == k;
                    if i < front.len() {
                        assert(front[i] == k);
                    }
                }
                if front.contains(k) {
                    let i = choose|i: int| 0 <= i < front.len() && front[i] == k;
                    assert(requested[i] == k);
                }
                assert(requested[requested.len() - 1] == key);
            }
            if decides(f, k) {
                let i = choose|i: int| 0 <= i < f.len() && (#[trigger] f[i]).item().key == k;
                assert(v[i].item().key == k);
            }
            if more {
                assert(v[f.len() as int].item().key == key);
            }
            if decides(v, k) {
                let i = choose|i: int| 0 <= i < v.len() && (#[trigger] v[i]).item().key == k;
                if i < f.len() {
                    assert(f[i].item().key == k);
                }
            }
        }
    }
}

/// Whether a citation is accounted for: there is a record of it, or one of the
/// failures from `from` on is its own.
pub open spec fn accounted(
    cache: Map<Seq<char>, RecordView>,
    run: RunView,
    from: nat,
    item: ItemView,
) -> bool {
    cache.contains_key(item.id()) || exists|i: int|
        from <= i < run.failures.len() && (#[trigger] run.failures[i]).prefix == item.prefix
            && run.failures[i].key == item.key
}

/// Different keys of one prefix have different ids.
pub proof fn law_ids_tell_keys_apart(prefix: Seq<char>, a: Seq<char>, b: Seq<char>)
    requires
        id_of(prefix, a) == id_of(prefix, b),
    ensures
        a == b,
{
    let n = prefix.len() + 1;
    assert(id_of(prefix, a).skip(n as int) =~= a);
    assert(id_of(prefix, b).skip(n as int) =~= b);
}

/// No requested key is passed over in silence: once the verdicts on the keys that a
/// source was asked for are carried out, each key has a record or is reported.
pub proof fn law_every_key_is_stored_or_reported<S: Source>(
    manager: CitationManager<S>,
    cache: Map<Seq<char>, RecordView>,
    run: RunView,
    prefix: Seq<char>,
    requested: Seq<Seq<char>>,
    resolutions: Seq<ResolutionView>,
    default_ttl: Duration,
    now: int,
    key: Seq<char>,
)
    requires
        requested.no_duplicates(),
        requested.contains(key),
    ensures
        ({
            let v = manager.settled(prefix, requested, resolutions, run.seen, default_ttl, now);
            let (c, r) = committed_all(cache, run, v, manager.ttl_policy().grace, now);
            accounted(c, r, run.failures.len(), as_seen(run.seen, prefix, key))
        }),
{
    let v = manager.settled(prefix, requested, resolutions, run.seen, default_ttl, now);
    law_one_verdict_per_key(manager, prefix, requested, resolutions, run.seen, default_ttl, now);
    assert(decides(v, key));
    let i = choose|i: int| 0 <= i < v.len() && (#[trigger] v[i]).item().key == key;
    lemma_committed_accounts(cache, run, prefix, v, manager.ttl_policy().grace, now, i);
}

proof fn lemma_committed_accounts(
    cache: Map<Seq<char>, RecordView>,
    run: RunView,
    prefix: Seq<char>,
    verdicts: Seq<VerdictView>,
    grace: Duration,
    now: int,
    i: int,
)
    requires
        distinct_verdicts(prefix, verdicts),
        0 <= i < verdicts.len(),
    ensures
        ({
            let (c, r) = committed_all(cache, run, verdicts, grace, now);
            &&& r.failures.len() >= run.failures.len()
            &&& c.contains_key(id_of(prefix, verdicts[i].item().key)) || exists|k: int|
                run.failures.len() <= k < r.failures.len() && (#[trigger] r.failures[k]).prefix
                    == prefix && r.failures[k].key == verdicts[i].item().key
        }),
    decreases verdicts.len(),
{
    let front = verdicts.drop_last();
    let last = verdicts.last();
    let n = verdicts.len() - 1;
    let (c0, r0) = committed_all(cache, run, front, grace, now);
    let (c, r) = committed_all(cache, run, verdicts, grace, now);
    lemma_failures_grow(cache, run, front, grace, now);
    assert(distinct_verdicts(prefix, front)) by {
        assert forall|a: int, b: int| 0 <= a < b < front.len() implies (
        #[trigger] front[a]).item().key != (#[trigger] front[b]).item().key by {
            assert(verdicts[a].item().key != verdicts[b].item().key);
        }
        assert forall|a: int| 0 <= a < front.len() implies (#[trigger] front[a]).item().prefix
            == prefix by {
            assert(verdicts[a].item().prefix == prefix);
        }
    }
    if i == n {
        assert(last.item().prefix == prefix);
        if r.failures.len() > r0.failures.len() {
            assert(r.failures[r0.failures.len() as int].key == last.item().key);
        }
    } else {
        lemma_committed_accounts(cache, run, prefix, front, grace, now, i);
        assert(front[i] == verdicts[i]);
        let key = verdicts[i].item().key;
        assert(verdicts[n].item().prefix == prefix);
        assert(verdicts[i].item().key != verdicts[n].item().key);
        if id_of(prefix, key) == last.item().id() {
            law_ids_tell_keys_apart(prefix, key, last.item().key);
        }
        if !c0.contains_key(id_of(prefix, key)) {
            let k = choose|k: int|
                run.failures.len() <= k < r0.failures.len() && (#[trigger] r0.failures[k]).prefix
                    == prefix && r0.failures[k].key == key;
            assert(r.failures[k] == r0.failures[k]);
        }
    }
}

pub proof fn lemma_failures_grow(
    cache: Map<Seq<char>, RecordView>,
    run: RunView,
    verdicts: Seq<VerdictView>,
    grace: Duration,
    now: int,
)
    ensures
        committed_all(cache, run, verdicts, grace, now).1.failures.len() >= run.failures.len(),
        forall|k: int|
            0 <= k < run.failures.len() ==> #[trigger] committed_all(
                cache,
                run,
                verdicts,
                grace,
                now,
            ).1.failures[k] == run.failures[k],
    decreases verdicts.len(),
{
    if verdicts.len() > 0 {
        lemma_failures_grow(cache, run, verdicts.drop_last(), grace, now);
    }
}

/// An outage costs no record: where a source cannot answer, the cache stays as it
/// is, and the citation is reported exactly where it has no record within its
/// grace.
pub proof fn law_an_outage_keeps_the_cache(
    cache: Map<Seq<char>, RecordView>,
    run: RunView,
    item: ItemView,
    error: ErrorView,
    grace: Duration,
    now: int,
)
    ensures
        ({
            let (c, r) = committed(cache, run, VerdictView::Failed { item, error }, grace, now);
            &&& c == cache
            &&& r.failures == (if kept(lookup(cache, item.id()), grace, now) {
                run.failures
            } else {
                run.failures.push(item.failure(error))
            })
        }),
{
}

/// A key that its source says does not exist is always reported, and its record is
/// gone, whether or not it was within its grace.
pub proof fn law_a_missing_key_is_dropped_and_reported(
    cache: Map<Seq<char>, RecordView>,
    run: RunView,
    item: ItemView,
    error: ErrorView,
    grace: Duration,
    now: int,
)
    ensures
        ({
            let (c, r) = committed(cache, run, VerdictView::Missing { item, error }, grace, now);
            &&& !c.contains_key(item.id())
            &&& r.failures == run.failures.push(item.failure(error))
            &&& r.worklist == run.worklist
        }),
{
}

/// What is fetched from a pointer goes back to the citation that was requested, and
/// is one pointer further away from it.
pub proof fn law_targets_go_back_to_the_request(item: ItemView, prefix: Seq<char>, key: Seq<char>)
    ensures
        item.target(prefix, key).origin == Some(item.root()),
        item.target(prefix, key).root() == item.root(),
        item.depth < usize::MAX ==> item.target(prefix, key).depth == item.depth + 1,
{
}

/// Dropped fields are not stored, neither in an item nor in what a pointer sets;
/// only an item's own id is there though it be dropped.
pub proof fn law_dropped_fields_are_not_stored<S: Source>(
    manager: CitationManager<S>,
    item: ItemView,
    outcome: OutcomeView,
    default_ttl: Duration,
    now: int,
    name: Seq<char>,
)
    requires
        manager.dropped().contains(name),
    ensures
        match manager.verdict_of(item, outcome, default_ttl, now) {
            VerdictView::Put { record, .. } => match record.payload {
                PayloadView::Concrete(csl) => name != "id"@ ==> !fields(csl).contains_key(name),
                PayloadView::Chained { set_properties, .. } => !fields(
                    set_properties,
                ).contains_key(name),
            },
            _ => true,
        },
{
    assert(manager.dropped().to_set().contains(name));
}

/// A verdict on a citation that is at least so far away, which leads only further.
pub open spec fn leads_deeper(verdict: VerdictView, depth: nat) -> bool {
    &&& depth <= verdict.item().depth < usize::MAX
    &&& verdict matches VerdictView::Put { next: Some(t), .. } ==> t.depth > depth
}

/// What the answers of a source lead to is one pointer further away than what it was
/// asked for.
pub proof fn law_answers_deepen<S: Source>(
    manager: CitationManager<S>,
    cache: Map<Seq<char>, RecordView>,
    run: RunView,
    prefix: Seq<char>,
    requested: Seq<Seq<char>>,
    resolutions: Seq<ResolutionView>,
    default_ttl: Duration,
    now: int,
    depth: nat,
)
    requires
        at_least_deep(run.worklist, depth + 1),
        forall|k: Seq<char>| #[trigger]
            requested.contains(k) ==> depth <= as_seen(run.seen, prefix, k).depth < usize::MAX,
    ensures
        ({
            let v = manager.settled(prefix, requested, resolutions, run.seen, default_ttl, now);
            at_least_deep(
                committed_all(cache, run, v, manager.ttl_policy().grace, now).1.worklist,
                depth + 1,
            )
        }),
{
    let a = manager.answered(prefix, requested, resolutions, run.seen, default_ttl, now);
    let b = manager.unanswered(prefix, requested, resolutions, run.seen);
    let v = a + b;
    lemma_answered_deep(
        manager,
        prefix,
        requested,
        resolutions,
        run.seen,
        default_ttl,
        now,
        depth,
    );
    lemma_unanswered_deep(manager, prefix, requested, resolutions, run.seen, depth);
    assert forall|i: int| 0 <= i < v.len() implies leads_deeper(#[trigger] v[i], depth) by {
        if i < a.len() {
            assert(leads_deeper(a[i], depth));
        } else {
            assert(leads_deeper(b[i - a.len()], depth));
        }
    }
    lemma_committed_deep(cache, run, v, manager.ttl_policy().grace, now, depth);
}

proof fn lemma_verdict_deep<S: Source>(
    manager: CitationManager<S>,
    item: ItemView,
    outcome: OutcomeView,
    default_ttl: Duration,
    now: int,
    depth: nat,
)
    requires
        depth <= item.depth < usize::MAX,
    ensures
        leads_deeper(manager.verdict_of(item, outcome, default_ttl, now), depth),
{
}

proof fn lemma_answered_deep<S: Source>(
    manager: CitationManager<S>,
    prefix: Seq<char>,
    requested: Seq<Seq<char>>,
    resolutions: Seq<ResolutionView>,
    seen: Map<Seq<char>, SeenView>,
    default_ttl: Duration,
    now: int,
    depth: nat,
)
    requires
        forall|k: Seq<char>| #[trigger]
            requested.contains(k) ==> depth <= as_seen(seen, prefix, k).depth < usize::MAX,
    ensures
        ({
            let v = manager.answered(prefix, requested, resolutions, seen, default_ttl, now);
            forall|i: int| 0 <= i < v.len() ==> leads_deeper(#[trigger] v[i], depth)
        }),
    decreases resolutions.len(),
{
    if resolutions.len() > 0 {
        let front = resolutions.drop_last();
        let last = resolutions.last();
        lemma_answered_deep(manager, prefix, requested, front, seen, default_ttl, now, depth);
        let f = manager.answered(prefix, requested, front, seen, default_ttl, now);
        let v = manager.answered(prefix, requested, resolutions, seen, default_ttl, now);
        let item = as_seen(seen, prefix, last.key);
        if requested.contains(last.key) {
            lemma_verdict_deep(manager, item, last.outcome, default_ttl, now, depth);
        }
        assert forall|i: int| 0 <= i < v.len() implies leads_deeper(#[trigger] v[i], depth) by {
            if i < f.len() {
                assert(v[i] == f[i]);
            }
        }
    }
}

proof fn lemma_unanswered_deep<S: Source>(
    manager: CitationManager<S>,
    prefix: Seq<char>,
    requested: Seq<Seq<char>>,
    resolutions: Seq<ResolutionView>,
    seen: Map<Seq<char>, SeenView>,
    depth: nat,
)
    requires
        forall|k: Seq<char>| #[trigger]
            requested.contains(k) ==> depth <= as_seen(seen, prefix, k).depth < usize::MAX,
    ensures
        ({
            let v = manager.unanswered(prefix, requested, resolutions, seen);
            forall|i: int| 0 <= i < v.len() ==> leads_deeper(#[trigger] v[i], depth)
        }),
    decreases requested.len(),
{
    if requested.len() > 0 {
        let front = requested.drop_last();
        assert forall|k: Seq<char>| #[trigger] front.contains(k) implies depth <= as_seen(
            seen,
            prefix,
            k,
        ).depth < usize::MAX by {
            let i = choose|i: int| 0 <= i < front.len() && front[i] == k;
            assert(requested[i] == k);
            assert(requested.contains(k));
        }
        lemma_unanswered_deep(manager, prefix, front, resolutions, seen, depth);
        assert(requested[requested.len() - 1] == requested.last());
        assert(requested.contains(requested.last()));
        let f = manager.unanswered(prefix, front, resolutions, seen);
        let v = manager.unanswered(prefix, requested, resolutions, seen);
        assert forall|i: int| 0 <= i < v.len() implies leads_deeper(#[trigger] v[i], depth) by {
            if i < f.len() {
                assert(v[i] == f[i]);
            }
        }
    }
}

proof fn lemma_committed_deep(
    cache: Map<Seq<char>, RecordView>,
    run: RunView,
    verdicts: Seq<VerdictView>,
    grace: Duration,
    now: int,
    depth: nat,
)
    requires
        at_least_deep(run.worklist, depth + 1),
        forall|i: int| 0 <= i < verdicts.len() ==> leads_deeper(#[trigger] verdicts[i], depth),
    ensures
        at_least_deep(committed_all(cache, run, verdicts, grace, now).1.worklist, depth + 1),
    decreases verdicts.len(),
{
    if verdicts.len() > 0 {
        let front = verdicts.drop_last();
        assert forall|i: int| 0 <= i < front.len() implies leads_deeper(
            #[trigger] front[i],
            depth,
        ) by {
            assert(leads_deeper(verdicts[i], depth));
        }
        lemma_committed_deep(cache, run, front, grace, now, depth);
        assert(leads_deeper(verdicts[verdicts.len() - 1], depth));
    }
}

} // verus!
