//! The decisions of a retrieval: what to look up, what to fetch, what to store and
//! what to report.

use crate::cache::refetch;
use crate::csl::id_of;
use crate::driver::texts;
use crate::env::Timestamp;
use crate::error::{joined, Error, ErrorView};
use crate::filecache::FileCacheStore;
use crate::index::TextMap;
use crate::manager::{
    as_seen, item_views, seen_map, CitationManager, CiteFailure, FailureView, ItemView,
    RetrieveReport, Seen, SeenView, WorkItem,
};
use crate::source::Source;
use crate::store::{CacheRecord, Payload, PayloadView, RecordView};
use crate::text::{decimal, decimal_text, same};
use vstd::prelude::*;
use vstd::string::*;

verus! {

/// A retrieval under way.
pub struct Retrieval {
    /// The citations of the next pass.
    pub worklist: Vec<WorkItem>,
    /// The ids that were come upon so far.
    pub seen: TextMap<Seen>,
    /// What is reported so far.
    pub report: RetrieveReport,
}

/// The views of failures.
pub open spec fn failure_views(s: Seq<CiteFailure>) -> Seq<FailureView> {
    s.map_values(|f: CiteFailure| f@)
}

/// A retrieval under way, by its meaning.
pub struct RunView {
    pub worklist: Seq<ItemView>,
    pub seen: Map<Seq<char>, SeenView>,
    pub failures: Seq<FailureView>,
}

impl View for Retrieval {
    type V = RunView;

    open spec fn view(&self) -> RunView {
        RunView {
            worklist: item_views(self.worklist@),
            seen: seen_map(self.seen@),
            failures: failure_views(self.report.failures@),
        }
    }
}

/// The citations that are requested, as a list of work.
pub open spec fn requested_items(cites: Seq<(String, String)>) -> Seq<ItemView> {
    cites.map_values(
        |c: (String, String)| ItemView { prefix: c.0@, key: c.1@, depth: 0, origin: None },
    )
}

impl Retrieval {
    /// A retrieval of the requested citations.
    pub fn new(cites: &[(String, String)]) -> (r: Self)
        ensures
            r@ == (RunView {
                worklist: requested_items(cites@),
                seen: Map::empty(),
                failures: Seq::empty(),
            }),
    {
        let ghost all = requested_items(cites@);
        let mut worklist: Vec<WorkItem> = Vec::new();
        let mut i: usize = 0;
        assert(item_views(worklist@) =~= all.take(0));
        while i < cites.len()
            invariant
                i <= cites@.len(),
                all == requested_items(cites@),
                item_views(worklist@) == all.take(i as int),
            decreases cites@.len() - i,
        {
            let ghost before = worklist@;
            let item = WorkItem {
                prefix: cites[i].0.clone(),
                key: cites[i].1.clone(),
                depth: 0,
                origin: None,
            };
            worklist.push(item);
            assert(item_views(worklist@) =~= item_views(before).push(item@));
            i += 1;
            assert(all.take(i as int) =~= all.take(i - 1).push(all[i - 1]));
        }
        assert(all.take(i as int) =~= all);
        let r = Retrieval { worklist, seen: TextMap::new(), report: RetrieveReport::default() };
        assert(r@.seen =~= Map::empty());
        assert(r@.failures =~= Seq::empty());
        r
    }

    /// Takes the citations of the next pass out, if there is a next pass.
    pub fn next_pass(&mut self) -> (r: Option<Vec<WorkItem>>)
        ensures
            match r {
                Some(batch) => old(self)@.worklist.len() > 0 && item_views(batch@) == old(
                    self,
                )@.worklist,
                None => old(self)@.worklist.len() == 0,
            },
            final(self)@ == (RunView { worklist: Seq::empty(), ..old(self)@ }),
    {
        let mut batch: Vec<WorkItem> = Vec::new();
        std::mem::swap(&mut batch, &mut self.worklist);
        assert(self@.worklist =~= Seq::empty());
        if batch.len() == 0 {
            return None;
        }
        Some(batch)
    }

    /// Adds a citation to the next pass.
    pub fn follow(&mut self, item: WorkItem)
        ensures
            final(self)@ == (RunView {
                worklist: old(self)@.worklist.push(item@),
                ..old(self)@
            }),
    {
        let ghost before = self.worklist@;
        self.worklist.push(item);
        assert(item_views(self.worklist@) =~= item_views(before).push(item@));
    }

    /// Reports a failure.
    pub fn fail(&mut self, item: &WorkItem, error: &Error)
        ensures
            final(self)@ == (RunView {
                failures: old(self)@.failures.push(item@.failure(error@)),
                ..old(self)@
            }),
    {
        let ghost before = self.report.failures@;
        let f = item.failure(error);
        self.report.failures.push(f);
        assert(failure_views(self.report.failures@) =~= failure_views(before).push(f@));
    }
}

/// A citation that is not looked up, and why.
pub struct Refusal {
    pub item: WorkItem,
    pub error: Error,
}

/// A citation that is not looked up, by its meaning.
pub struct RefusalView {
    pub item: ItemView,
    pub error: ErrorView,
}

impl View for Refusal {
    type V = RefusalView;

    open spec fn view(&self) -> RefusalView {
        RefusalView { item: self.item@, error: self.error@ }
    }
}

/// The failures that refused citations are.
pub open spec fn refusal_failures(s: Seq<RefusalView>) -> Seq<FailureView> {
    s.map_values(|r: RefusalView| r.item.failure(r.error))
}

/// The views of refusals.
pub open spec fn refusal_views(s: Seq<Refusal>) -> Seq<RefusalView> {
    s.map_values(|r: Refusal| r@)
}

/// What is to be looked up in the cache.
pub struct Sifted {
    /// The citations to look up, their keys in the form in which they are kept.
    pub candidates: Vec<WorkItem>,
    /// Those that are not looked up.
    pub refused: Vec<Refusal>,
}

/// What is to be looked up, by its meaning.
pub struct SiftedView {
    pub seen: Map<Seq<char>, SeenView>,
    pub candidates: Seq<ItemView>,
    pub refused: Seq<RefusalView>,
}

/// The error of a citation that is too many pointers away.
pub open spec fn too_deep(id: Seq<char>, limit: nat) -> ErrorView {
    ErrorView::Chain(
        "`"@ + id + "` is more than "@ + decimal(limit) + " links from a requested citation"@,
    )
}

/// A pass that decides what to do with the citations that are to be looked at.
pub struct PassPlan {
    /// The citations to fetch.
    pub fetch: Vec<WorkItem>,
    /// The targets of pointers that are kept.
    pub follow: Vec<WorkItem>,
    /// How many citations are served from the cache.
    pub cached: usize,
}

/// The plan of a pass, by its meaning.
pub struct PlanView {
    pub fetch: Seq<ItemView>,
    pub follow: Seq<ItemView>,
    pub cached: nat,
}

impl View for PassPlan {
    type V = PlanView;

    open spec fn view(&self) -> PlanView {
        PlanView {
            fetch: item_views(self.fetch@),
            follow: item_views(self.follow@),
            cached: self.cached as nat,
        }
    }
}

/// A record that may be absent, by its meaning.
pub open spec fn opt_record(r: Option<CacheRecord>) -> Option<RecordView> {
    match r {
        Some(rec) => Some(rec@),
        None => None,
    }
}

/// What a pass does with one citation: without a record, or with one that is due,
/// it fetches; a record that is kept counts as cached, and where it is a pointer its
/// target is followed. The target of a pointer that is due is not followed: the
/// fetch may replace the pointer.
pub open spec fn plan_one(
    plan: PlanView,
    item: ItemView,
    rec: Option<RecordView>,
    now: int,
) -> PlanView {
    match rec {
        None => PlanView { fetch: plan.fetch.push(item), ..plan },
        Some(r) => if refetch(r.stale_after, r.expires, now, item.id()) {
            PlanView { fetch: plan.fetch.push(item), ..plan }
        } else {
            PlanView {
                fetch: plan.fetch,
                follow: match r.payload {
                    PayloadView::Chained { prefix, key, .. } => plan.follow.push(
                        item.target(prefix, key),
                    ),
                    PayloadView::Concrete(_) => plan.follow,
                },
                cached: plan.cached + 1,
            }
        },
    }
}

/// What a pass does with the citations, given what the cache holds of each.
pub open spec fn plan_all(
    items: Seq<ItemView>,
    records: Seq<Option<RecordView>>,
    now: int,
) -> PlanView
    decreases items.len(),
{
    if items.len() == 0 {
        PlanView { fetch: Seq::empty(), follow: Seq::empty(), cached: 0 }
    } else {
        plan_one(
            plan_all(items.drop_last(), records.drop_last(), now),
            items.last(),
            records.last(),
            now,
        )
    }
}

/// The views of what the cache holds.
pub open spec fn record_views(s: Seq<Option<CacheRecord>>) -> Seq<Option<RecordView>> {
    s.map_values(|r: Option<CacheRecord>| opt_record(r))
}

impl<S: Source> CitationManager<S> {
    /// What becomes of one citation that is to be looked at: one that was come upon
    /// before is passed over; one that is too many pointers away, or whose prefix
    /// no source is bound to, is refused; any other is looked up.
    pub open spec fn sift_one(self, st: SiftedView, item: ItemView) -> SiftedView {
        let item = ItemView { key: self.form(item.prefix, item.key), ..item };
        if st.seen.contains_key(item.id()) {
            st
        } else {
            let st = SiftedView {
                seen: st.seen.insert(
                    item.id(),
                    SeenView { depth: item.depth, origin: item.origin },
                ),
                ..st
            };
            if item.depth >= self.depth_limit() {
                SiftedView {
                    refused: st.refused.push(
                        RefusalView { item, error: too_deep(item.id(), self.depth_limit()) },
                    ),
                    ..st
                }
            } else if !self.bound().contains_key(item.prefix) {
                SiftedView {
                    refused: st.refused.push(
                        RefusalView { item, error: ErrorView::UnknownPrefix(item.prefix) },
                    ),
                    ..st
                }
            } else {
                SiftedView { candidates: st.candidates.push(item), ..st }
            }
        }
    }

    /// What becomes of the citations that are to be looked at, one after another.
    pub open spec fn sift_all(
        self,
        seen: Map<Seq<char>, SeenView>,
        batch: Seq<ItemView>,
    ) -> SiftedView
        decreases batch.len(),
    {
        if batch.len() == 0 {
            SiftedView { seen, candidates: Seq::empty(), refused: Seq::empty() }
        } else {
            self.sift_one(self.sift_all(seen, batch.drop_last()), batch.last())
        }
    }

    /// Decides which citations of a pass are looked up in the cache.
    pub fn sift(&self, batch: &Vec<WorkItem>, seen: &mut TextMap<Seen>) -> (r: Sifted)
        ensures
            ({
                let a = self.sift_all(seen_map(old(seen)@), item_views(batch@));
                &&& seen_map(final(seen)@) == a.seen
                &&& item_views(r.candidates@) == a.candidates
                &&& refusal_views(r.refused@) == a.refused
            }),
    {
        let ghost start = seen_map(seen@);
        let ghost all = item_views(batch@);
        let mut candidates: Vec<WorkItem> = Vec::new();
        let mut refused: Vec<Refusal> = Vec::new();
        let limit: usize = self.max_chain_depth();
        let mut i: usize = 0;
        proof {
            assert(all.take(0) =~= Seq::empty());
            assert(item_views(candidates@) =~= Seq::empty());
            assert(refusal_views(refused@) =~= Seq::empty());
        }
        while i < batch.len()
            invariant
                i <= batch@.len(),
                all == item_views(batch@),
                limit == self.depth_limit(),
                seen_map(seen@) == self.sift_all(start, all.take(i as int)).seen,
                item_views(candidates@) == self.sift_all(start, all.take(i as int)).candidates,
                refusal_views(refused@) == self.sift_all(start, all.take(i as int)).refused,
            decreases batch@.len() - i,
        {
            let ghost st = self.sift_all(start, all.take(i as int));
            proof {
                assert(all.take(i + 1).drop_last() =~= all.take(i as int));
                assert(all.take(i + 1).last() == batch@[i as int]@);
            }
            let w = &batch[i];
            let key = self.normalize_key(w.prefix.as_str(), w.key.as_str());
            let item = WorkItem {
                prefix: w.prefix.clone(),
                key,
                depth: w.depth,
                origin: w.copy_origin(),
            };
            let id = item.id();
            if !seen.contains_key(id.as_str()) {
                let how = Seen { depth: item.depth, origin: item.copy_origin() };
                let ghost before = seen@;
                let ghost shown = how@;
                seen.insert(id.clone(), how);
                proof {
                    assert(seen_map(seen@) =~= seen_map(before).insert(item@.id(), shown));
                }
                let ghost c = candidates@;
                let ghost f = refused@;
                if item.depth >= limit {
                    let n = decimal_text(limit as u64);
                    let m = joined("`", id.as_str(), "` is more than ").concat(n.as_str()).concat(
                        " links from a requested citation",
                    );
                    let no = Refusal { item, error: Error::Chain(m) };
                    refused.push(no);
                    assert(refusal_views(refused@) =~= refusal_views(f).push(no@));
                } else if self.source(item.prefix.as_str()).is_none() {
                    let p = item.prefix.clone();
                    let no = Refusal { item, error: Error::UnknownPrefix(p) };
                    refused.push(no);
                    assert(refusal_views(refused@) =~= refusal_views(f).push(no@));
                } else {
                    candidates.push(item);
                    assert(item_views(candidates@) =~= item_views(c).push(item@));
                }
            }
            i += 1;
        }
        assert(all.take(i as int) =~= all);
        Sifted { candidates, refused }
    }

    /// Decides what to do with the citations that were looked up, given what the
    /// cache holds of each.
    pub fn plan(
        &self,
        candidates: &Vec<WorkItem>,
        records: &Vec<Option<CacheRecord>>,
        now: Timestamp,
    ) -> (r: PassPlan)
        requires
            records@.len() == candidates@.len(),
        ensures
            r@ == plan_all(item_views(candidates@), record_views(records@), now.0 as int),
    {
        let policy = self.policy();
        let ghost items = item_views(candidates@);
        let ghost recs = record_views(records@);
        let mut fetch: Vec<WorkItem> = Vec::new();
        let mut follow: Vec<WorkItem> = Vec::new();
        let mut cached: usize = 0;
        let mut i: usize = 0;
        proof {
            assert(items.take(0) =~= Seq::empty());
            assert(item_views(fetch@) =~= Seq::empty());
            assert(item_views(follow@) =~= Seq::empty());
        }
        while i < candidates.len()
            invariant
                i <= candidates@.len() == records@.len(),
                cached <= i,
                items == item_views(candidates@),
                recs == record_views(records@),
                item_views(fetch@) == plan_all(
                    items.take(i as int),
                    recs.take(i as int),
                    now.0 as int,
                ).fetch,
                item_views(follow@) == plan_all(
                    items.take(i as int),
                    recs.take(i as int),
                    now.0 as int,
                ).follow,
                cached == plan_all(items.take(i as int), recs.take(i as int), now.0 as int).cached,
            decreases candidates@.len() - i,
        {
            proof {
                assert(items.take(i + 1).drop_last() =~= items.take(i as int));
                assert(recs.take(i + 1).drop_last() =~= recs.take(i as int));
                assert(items.take(i + 1).last() == candidates@[i as int]@);
                assert(recs.take(i + 1).last() == opt_record(records@[i as int]));
            }
            let item = &candidates[i];
            let ghost f = fetch@;
            let ghost w = follow@;
            match &records[i] {
                None => {
                    fetch.push(item.clone());
                    assert(item_views(fetch@) =~= item_views(f).push(item@));
                },
                Some(rec) => {
                    let id = item.id();
                    if policy.should_refetch(rec, now, id.as_str()) {
                        fetch.push(item.clone());
                        assert(item_views(fetch@) =~= item_views(f).push(item@));
                    } else {
                        cached += 1;
                        if let Payload::Chained { prefix, key, .. } = &rec.payload {
                            follow.push(item.target(prefix.as_str(), key.as_str()));
                            assert(item_views(follow@) =~= item_views(w).push(
                                item@.target(prefix@, key@),
                            ));
                        }
                    }
                },
            }
            i += 1;
        }
        assert(items.take(i as int) =~= items);
        assert(recs.take(i as int) =~= recs);
        PassPlan { fetch, follow, cached }
    }
}

/// What a cache holds under an id.
pub open spec fn lookup(cache: Map<Seq<char>, RecordView>, id: Seq<char>) -> Option<RecordView> {
    if cache.contains_key(id) {
        Some(cache[id])
    } else {
        None
    }
}

/// What a cache holds of each citation.
pub open spec fn lookups(
    cache: Map<Seq<char>, RecordView>,
    items: Seq<ItemView>,
) -> Seq<Option<RecordView>> {
    items.map_values(|w: ItemView| lookup(cache, w.id()))
}

impl<S: Source> CitationManager<S> {
    /// How a pass starts: what its list of work comes to, given the cache.
    pub open spec fn pass_plan(
        self,
        run: RunView,
        cache: Map<Seq<char>, RecordView>,
        now: int,
    ) -> PlanView {
        let sifted = self.sift_all(run.seen, run.worklist);
        plan_all(sifted.candidates, lookups(cache, sifted.candidates), now)
    }

    /// The retrieval once a pass has started: the pointers that are kept are
    /// followed in the next pass, and what is refused is reported.
    pub open spec fn pass_opened(
        self,
        run: RunView,
        cache: Map<Seq<char>, RecordView>,
        now: int,
    ) -> RunView {
        let sifted = self.sift_all(run.seen, run.worklist);
        RunView {
            worklist: self.pass_plan(run, cache, now).follow,
            seen: sifted.seen,
            failures: run.failures + refusal_failures(sifted.refused),
        }
    }

    /// Starts the next pass, if there is anything to look at, and says which keys
    /// to fetch from which source.
    pub fn open_pass(&self, run: &mut Retrieval, store: &FileCacheStore, now: Timestamp) -> (r:
        Option<PassStart>)
        ensures
            match r {
                Some(start) => {
                    let plan = self.pass_plan(old(run)@, store.cached(), now.0 as int);
                    &&& old(run)@.worklist.len() > 0
                    &&& bucket_views(start.buckets@) == grouped(plan.fetch)
                    &&& start.to_fetch == plan.fetch.len()
                    &&& start.cached == plan.cached
                    &&& final(run)@ == self.pass_opened(old(run)@, store.cached(), now.0 as int)
                },
                None => old(run)@.worklist.len() == 0 && final(run)@ == old(run)@,
            },
    {
        let ghost start = run@;
        let batch = match run.next_pass() {
            Some(batch) => batch,
            None => {
                assert(start.worklist =~= Seq::empty());
                return None;
            },
        };
        let sifted = self.sift(&batch, &mut run.seen);
        let ghost held = sifted.refused@;
        let ghost wanted = item_views(sifted.candidates@);
        let mut i: usize = 0;
        proof {
            assert(refusal_failures(refusal_views(held).take(0)) =~= Seq::empty());
            assert(run@.failures =~= start.failures + refusal_failures(
                refusal_views(held).take(0),
            ));
        }
        while i < sifted.refused.len()
            invariant
                i <= sifted.refused@.len(),
                held == sifted.refused@,
                run@.worklist == Seq::<ItemView>::empty(),
                run@.seen == self.sift_all(start.seen, start.worklist).seen,
                run@.failures == start.failures + refusal_failures(
                    refusal_views(held).take(i as int),
                ),
            decreases sifted.refused@.len() - i,
        {
            let ghost before = run@.failures;
            let no = &sifted.refused[i];
            run.fail(&no.item, &no.error);
            i += 1;
            proof {
                assert(refusal_views(held).take(i as int) =~= refusal_views(held).take(
                    i - 1,
                ).push(no@));
                assert(refusal_failures(refusal_views(held).take(i as int)) =~= refusal_failures(
                    refusal_views(held).take(i - 1),
                ).push(no@.item.failure(no@.error)));
                assert(run@.failures =~= start.failures + refusal_failures(
                    refusal_views(held).take(i as int),
                ));
            }
        }
        assert(refusal_views(held).take(i as int) =~= refusal_views(held));
        let mut records: Vec<Option<CacheRecord>> = Vec::new();
        let mut j: usize = 0;
        while j < sifted.candidates.len()
            invariant
                j <= sifted.candidates@.len(),
                wanted == item_views(sifted.candidates@),
                records@.len() == j,
                forall|k: int|
                    0 <= k < j ==> opt_record(#[trigger] records@[k]) == lookup(
                        store.cached(),
                        wanted[k].id(),
                    ),
            decreases sifted.candidates@.len() - j,
        {
            let id = sifted.candidates[j].id();
            records.push(store.get(id.as_str()));
            j += 1;
        }
        assert(record_views(records@) =~= lookups(store.cached(), wanted));
        let PassPlan { fetch, follow, cached } = self.plan(&sifted.candidates, &records, now);
        run.worklist = follow;
        Some(PassStart { buckets: bucketed(&fetch), to_fetch: fetch.len(), cached })
    }
}

/// What a pass starts with.
pub struct PassStart {
    /// The keys to fetch, by the source that they go to.
    pub buckets: Vec<Bucket>,
    /// How many keys there are to fetch.
    pub to_fetch: usize,
    /// How many citations are served from the cache.
    pub cached: usize,
}

/// The keys that go to one source in a pass.
pub struct Bucket {
    pub prefix: String,
    pub keys: Vec<String>,
}

impl View for Bucket {
    type V = (Seq<char>, Seq<Seq<char>>);

    open spec fn view(&self) -> (Seq<char>, Seq<Seq<char>>) {
        (self.prefix@, texts(self.keys@))
    }
}

/// The views of buckets.
pub open spec fn bucket_views(s: Seq<Bucket>) -> Seq<(Seq<char>, Seq<Seq<char>>)> {
    s.map_values(|b: Bucket| b@)
}

/// Where the bucket of a prefix stands; one past the end where there is none.
pub open spec fn bucket_at(b: Seq<(Seq<char>, Seq<Seq<char>>)>, prefix: Seq<char>) -> nat
    decreases b.len(),
{
    if b.len() == 0 || b[0].0 == prefix {
        0
    } else {
        1 + bucket_at(b.skip(1), prefix)
    }
}

/// The buckets with one more key.
pub open spec fn with_key(
    b: Seq<(Seq<char>, Seq<Seq<char>>)>,
    prefix: Seq<char>,
    key: Seq<char>,
) -> Seq<(Seq<char>, Seq<Seq<char>>)> {
    let i = bucket_at(b, prefix) as int;
    if i < b.len() {
        b.update(i, (prefix, b[i].1.push(key)))
    } else {
        b.push((prefix, seq![key]))
    }
}

/// The keys of the citations, by prefix, each prefix where it first comes.
pub open spec fn grouped(items: Seq<ItemView>) -> Seq<(Seq<char>, Seq<Seq<char>>)>
    decreases items.len(),
{
    if items.len() == 0 {
        Seq::empty()
    } else {
        with_key(grouped(items.drop_last()), items.last().prefix, items.last().key)
    }
}

/// Finding the first bucket of a prefix.
proof fn lemma_bucket_at(b: Seq<(Seq<char>, Seq<Seq<char>>)>, prefix: Seq<char>, i: int)
    requires
        0 <= i <= b.len(),
        forall|k: int| 0 <= k < i ==> (#[trigger] b[k]).0 != prefix,
        i < b.len() ==> b[i].0 == prefix,
    ensures
        bucket_at(b, prefix) == i,
    decreases b.len(),
{
    if i > 0 {
        let rest = b.skip(1);
        assert(b[0].0 != prefix);
        assert forall|k: int| 0 <= k < i - 1 implies (#[trigger] rest[k]).0 != prefix by {
            assert(rest[k] == b[k + 1]);
        }
        lemma_bucket_at(rest, prefix, i - 1);
    }
}

/// The keys to fetch, by the source that they go to.
pub fn bucketed(items: &Vec<WorkItem>) -> (r: Vec<Bucket>)
    ensures
        bucket_views(r@) == grouped(item_views(items@)),
{
    let ghost all = item_views(items@);
    let mut out: Vec<Bucket> = Vec::new();
    let mut i: usize = 0;
    proof {
        assert(all.take(0) =~= Seq::empty());
        assert(bucket_views(out@) =~= Seq::empty());
    }
    while i < items.len()
        invariant
            i <= items@.len(),
            all == item_views(items@),
            bucket_views(out@) == grouped(all.take(i as int)),
        decreases items@.len() - i,
    {
        proof {
            assert(all.take(i + 1).drop_last() =~= all.take(i as int));
            assert(all.take(i + 1).last() == items@[i as int]@);
        }
        let item = &items[i];
        let ghost before = bucket_views(out@);
        let mut at: usize = 0;
        while at < out.len() && !same(out[at].prefix.as_str(), item.prefix.as_str())
            invariant
                at <= out@.len(),
                before == bucket_views(out@),
                forall|k: int| 0 <= k < at ==> (#[trigger] before[k]).0 != item.prefix@,
            decreases out@.len() - at,
        {
            assert(before[at as int].0 == out@[at as int].prefix@);
            at += 1;
        }
        proof {
            if at < out@.len() {
                assert(before[at as int].0 == out@[at as int].prefix@);
            }
            lemma_bucket_at(before, item.prefix@, at as int);
        }
        if at < out.len() {
            let mut keys: Vec<String> = Vec::new();
            let ghost old_keys = texts(out@[at as int].keys@);
            std::mem::swap(&mut keys, &mut out[at].keys);
            assert(texts(keys@) == old_keys);
            keys.push(item.key.clone());
            assert(texts(keys@) =~= old_keys.push(item.key@));
            out[at].keys = keys;
            assert(bucket_views(out@) =~= with_key(before, item.prefix@, item.key@));
        } else {
            let mut keys: Vec<String> = Vec::new();
            keys.push(item.key.clone());
            assert(texts(keys@) =~= seq![item.key@]);
            out.push(Bucket { prefix: item.prefix.clone(), keys });
            assert(bucket_views(out@) =~= with_key(before, item.prefix@, item.key@));
        }
        i += 1;
    }
    assert(all.take(i as int) =~= all);
    out
}

/// The keys of the citations that have the prefix, in order.
pub open spec fn keys_with(items: Seq<ItemView>, prefix: Seq<char>) -> Seq<Seq<char>>
    decreases items.len(),
{
    if items.len() == 0 {
        Seq::empty()
    } else if items.last().prefix == prefix {
        keys_with(items.drop_last(), prefix).push(items.last().key)
    } else {
        keys_with(items.drop_last(), prefix)
    }
}

/// A source is asked once in a pass, and for exactly the keys that are to be
/// fetched from it: buckets have distinct prefixes, none is empty, the bucket of a
/// prefix holds the keys with that prefix in order, and no citation is left out.
pub proof fn law_buckets_partition(items: Seq<ItemView>)
    ensures
        forall|i: int, j: int|
            0 <= i < j < grouped(items).len() ==> (#[trigger] grouped(items)[i]).0 != (
            #[trigger] grouped(items)[j]).0,
        forall|i: int|
            0 <= i < grouped(items).len() ==> (#[trigger] grouped(items)[i]).1 == keys_with(
                items,
                grouped(items)[i].0,
            ) && grouped(items)[i].1.len() > 0,
        forall|p: Seq<char>|
            #![trigger keys_with(items, p)]
            keys_with(items, p).len() > 0 ==> exists|i: int|
                0 <= i < grouped(items).len() && (#[trigger] grouped(items)[i]).0 == p,
    decreases items.len(),
{
    if items.len() > 0 {
        let front = items.drop_last();
        let last = items.last();
        law_buckets_partition(front);
        let b = grouped(front);
        let g = grouped(items);
        let at = bucket_at(b, last.prefix) as int;
        lemma_bucket_found(b, last.prefix);
        if at >= b.len() {
            assert(keys_with(front, last.prefix).len() == 0) by {
                if keys_with(front, last.prefix).len() > 0 {
                    let i = choose|i: int| 0 <= i < b.len() && (#[trigger] b[i]).0 == last.prefix;
                    assert(b[i].0 != last.prefix);
                }
            }
            assert(g == b.push((last.prefix, seq![last.key])));
            assert(keys_with(items, last.prefix) =~= seq![last.key]);
        } else {
            assert(g == b.update(at, (last.prefix, b[at].1.push(last.key))));
        }
        assert forall|i: int, j: int| 0 <= i < j < g.len() implies (#[trigger] g[i]).0 != (
        #[trigger] g[j]).0 by {
            if j < b.len() {
                assert(b[i].0 != b[j].0);
            } else {
                assert(b[i].0 != last.prefix);
            }
        }
        assert forall|i: int| 0 <= i < g.len() implies (#[trigger] g[i]).1 == keys_with(
            items,
            g[i].0,
        ) && g[i].1.len() > 0 by {
            if i < b.len() {
                assert(b[i].1 == keys_with(front, b[i].0));
                if i != at && at < b.len() {
                    assert(b[i].0 != b[at].0);
                }
            }
        }
        assert forall|p: Seq<char>|
            #![trigger keys_with(items, p)]
            keys_with(items, p).len() > 0 implies exists|i: int|
            0 <= i < g.len() && (#[trigger] g[i]).0 == p by {
            if p == last.prefix {
                assert(g[at].0 == p);
            } else {
                assert(keys_with(front, p).len() > 0);
                let i = choose|i: int| 0 <= i < b.len() && (#[trigger] b[i]).0 == p;
                assert(g[i].0 == p);
            }
        }
    }
}

/// What stands where a bucket is looked for.
proof fn lemma_bucket_found(b: Seq<(Seq<char>, Seq<Seq<char>>)>, prefix: Seq<char>)
    ensures
        bucket_at(b, prefix) <= b.len(),
        forall|k: int| 0 <= k < bucket_at(b, prefix) ==> (#[trigger] b[k]).0 != prefix,
        bucket_at(b, prefix) < b.len() ==> b[bucket_at(b, prefix) as int].0 == prefix,
    decreases b.len(),
{
    if b.len() > 0 && b[0].0 != prefix {
        let rest = b.skip(1);
        lemma_bucket_found(rest, prefix);
        assert forall|k: int| 0 <= k < bucket_at(b, prefix) implies (#[trigger] b[k]).0
            != prefix by {
            if k > 0 {
                assert(b[k] == rest[k - 1]);
            }
        }
    }
}

/// Whether every citation is at least so many pointers away from a request.
pub open spec fn at_least_deep(items: Seq<ItemView>, depth: nat) -> bool {
    forall|i: int| 0 <= i < items.len() ==> (#[trigger] items[i]).depth >= depth
}

/// Whether every source keeps its word that a key in the form in which it is kept is in
/// that form already.
pub open spec fn forms_are_stable<S: Source>(manager: CitationManager<S>) -> bool {
    forall|prefix: Seq<char>, key: Seq<char>| #[trigger]
        manager.form(prefix, manager.form(prefix, key)) == manager.form(prefix, key)
}

/// What is looked up: an id is looked up at most once in a retrieval, in whatever
/// spellings it comes; its prefix is bound, its key has the form in which it is
/// kept, it is close enough to a request, and how it was come upon is remembered.
pub proof fn law_candidates<S: Source>(
    manager: CitationManager<S>,
    seen: Map<Seq<char>, SeenView>,
    batch: Seq<ItemView>,
)
    ensures
        ({
            let a = manager.sift_all(seen, batch);
            &&& forall|i: int|
                0 <= i < a.candidates.len() ==> {
                    let c = #[trigger] a.candidates[i];
                    &&& !seen.contains_key(c.id())
                    &&& a.seen.contains_key(c.id())
                    &&& as_seen(a.seen, c.prefix, c.key) == c
                    &&& manager.bound().contains_key(c.prefix)
                    &&& forms_are_stable(manager) ==> manager.form(c.prefix, c.key) == c.key
                    &&& c.depth < manager.depth_limit()
                }
            &&& forall|i: int, j: int|
                0 <= i < j < a.candidates.len() ==> (#[trigger] a.candidates[i]).id() != (
                #[trigger] a.candidates[j]).id()
            &&& forall|id: Seq<char>| #[trigger]
                seen.contains_key(id) ==> a.seen.contains_key(id) && a.seen[id] == seen[id]
        }),
    decreases batch.len(),
{
    if batch.len() > 0 {
        let front = batch.drop_last();
        law_candidates(manager, seen, front);
        let f = manager.sift_all(seen, front);
        let a = manager.sift_all(seen, batch);
        let last = batch.last();
        let item = ItemView { key: manager.form(last.prefix, last.key), ..last };
        if forms_are_stable(manager) {
            assert(manager.form(last.prefix, manager.form(last.prefix, last.key)) == item.key);
        }
        if !f.seen.contains_key(item.id()) {
            let n = f.candidates.len();
            assert forall|i: int| 0 <= i < a.candidates.len() implies {
                let c = #[trigger] a.candidates[i];
                &&& !seen.contains_key(c.id())
                &&& a.seen.contains_key(c.id())
                &&& as_seen(a.seen, c.prefix, c.key) == c
                &&& manager.bound().contains_key(c.prefix)
                &&& forms_are_stable(manager) ==> manager.form(c.prefix, c.key) == c.key
                &&& c.depth < manager.depth_limit()
            } by {
                if i < n {
                    assert(a.candidates[i] == f.candidates[i]);
                    assert(f.seen.contains_key(f.candidates[i].id()));
                } else {
                    assert(a.candidates[i] == item);
                }
            }
            assert forall|i: int, j: int| 0 <= i < j < a.candidates.len() implies (
            #[trigger] a.candidates[i]).id() != (#[trigger] a.candidates[j]).id() by {
                assert(f.seen.contains_key(f.candidates[i].id()));
                if j < n {
                    assert(f.candidates[i].id() != f.candidates[j].id());
                }
            }
        }
    }
}

/// Every citation of a list of work is looked up or reported, in this pass or in an
/// earlier one: its id is known afterwards, and an id that is new is that of a
/// candidate or of a refused citation.
pub proof fn law_nothing_is_passed_over<S: Source>(
    manager: CitationManager<S>,
    seen: Map<Seq<char>, SeenView>,
    batch: Seq<ItemView>,
)
    ensures
        ({
            let a = manager.sift_all(seen, batch);
            &&& forall|i: int|
                0 <= i < batch.len() ==> a.seen.contains_key(
                    id_of(
                        (#[trigger] batch[i]).prefix,
                        manager.form(batch[i].prefix, batch[i].key),
                    ),
                )
            &&& forall|id: Seq<char>| #[trigger]
                a.seen.contains_key(id) ==> {
                    ||| seen.contains_key(id)
                    ||| exists|i: int|
                        0 <= i < a.candidates.len() && (#[trigger] a.candidates[i]).id() == id
                    ||| exists|i: int|
                        0 <= i < a.refused.len() && (#[trigger] a.refused[i]).item.id() == id
                }
        }),
    decreases batch.len(),
{
    if batch.len() > 0 {
        let front = batch.drop_last();
        law_nothing_is_passed_over(manager, seen, front);
        let f = manager.sift_all(seen, front);
        let a = manager.sift_all(seen, batch);
        let last = batch.last();
        let item = ItemView { key: manager.form(last.prefix, last.key), ..last };
        assert forall|i: int| 0 <= i < batch.len() implies a.seen.contains_key(
            id_of((#[trigger] batch[i]).prefix, manager.form(batch[i].prefix, batch[i].key)),
        ) by {
            if i < front.len() {
                assert(front[i] == batch[i]);
            }
        }
        assert forall|id: Seq<char>| #[trigger] a.seen.contains_key(id) implies {
            ||| seen.contains_key(id)
            ||| exists|i: int|
                0 <= i < a.candidates.len() && (#[trigger] a.candidates[i]).id() == id
            ||| exists|i: int| 0 <= i < a.refused.len() && (#[trigger] a.refused[i]).item.id() == id
        } by {
            if f.seen.contains_key(id) {
                if exists|i: int|
                    0 <= i < f.candidates.len() && (#[trigger] f.candidates[i]).id() == id {
                    let i = choose|i: int|
                        0 <= i < f.candidates.len() && (#[trigger] f.candidates[i]).id() == id;
                    assert(a.candidates[i].id() == id);
                }
                if exists|i: int|
                    0 <= i < f.refused.len() && (#[trigger] f.refused[i]).item.id() == id {
                    let i = choose|i: int|
                        0 <= i < f.refused.len() && (#[trigger] f.refused[i]).item.id() == id;
                    assert(a.refused[i].item.id() == id);
                }
            } else {
                if a.candidates.len() > f.candidates.len() {
                    assert(a.candidates[f.candidates.len() as int].id() == id);
                } else {
                    assert(a.refused[f.refused.len() as int].item.id() == id);
                }
            }
        }
    }
}

/// A retrieval ends, however its sources chain: what a pass fetches is close enough
/// to a request and no closer than its list of work, what it follows is one pointer
/// further away, and a list of work that is too far away comes to nothing.
pub proof fn law_passes_deepen<S: Source>(
    manager: CitationManager<S>,
    run: RunView,
    cache: Map<Seq<char>, RecordView>,
    now: int,
    depth: nat,
)
    requires
        at_least_deep(run.worklist, depth),
        manager.depth_limit() <= usize::MAX,
    ensures
        ({
            let plan = manager.pass_plan(run, cache, now);
            &&& at_least_deep(plan.fetch, depth)
            &&& forall|i: int|
                0 <= i < plan.fetch.len() ==> (#[trigger] plan.fetch[i]).depth
                    < manager.depth_limit()
            &&& at_least_deep(plan.follow, depth + 1)
            &&& depth >= manager.depth_limit() ==> plan.fetch.len() == 0 && plan.follow.len() == 0
        }),
{
    let a = manager.sift_all(run.seen, run.worklist);
    law_candidates(manager, run.seen, run.worklist);
    lemma_candidates_deep(manager, run.seen, run.worklist, depth);
    lemma_plan_deep(
        a.candidates,
        lookups(cache, a.candidates),
        now,
        depth,
        manager.depth_limit(),
    );
    if depth >= manager.depth_limit() && a.candidates.len() > 0 {
        assert(a.candidates[0].depth >= depth);
    }
}

proof fn lemma_candidates_deep<S: Source>(
    manager: CitationManager<S>,
    seen: Map<Seq<char>, SeenView>,
    batch: Seq<ItemView>,
    depth: nat,
)
    requires
        at_least_deep(batch, depth),
    ensures
        at_least_deep(manager.sift_all(seen, batch).candidates, depth),
    decreases batch.len(),
{
    if batch.len() > 0 {
        let front = batch.drop_last();
        assert forall|i: int| 0 <= i < front.len() implies (#[trigger] front[i]).depth
            >= depth by {
            assert(batch[i].depth >= depth);
        }
        lemma_candidates_deep(manager, seen, front, depth);
        assert(batch[batch.len() - 1].depth >= depth);
    }
}

proof fn lemma_plan_deep(
    items: Seq<ItemView>,
    records: Seq<Option<RecordView>>,
    now: int,
    depth: nat,
    limit: nat,
)
    requires
        at_least_deep(items, depth),
        limit <= usize::MAX,
        forall|i: int| 0 <= i < items.len() ==> (#[trigger] items[i]).depth < limit,
    ensures
        at_least_deep(plan_all(items, records, now).fetch, depth),
        forall|i: int|
            0 <= i < plan_all(items, records, now).fetch.len() ==> (#[trigger] plan_all(
                items,
                records,
                now,
            ).fetch[i]).depth < limit,
        at_least_deep(plan_all(items, records, now).follow, depth + 1),
        items.len() == 0 ==> plan_all(items, records, now).fetch.len() == 0 && plan_all(
            items,
            records,
            now,
        ).follow.len() == 0,
    decreases items.len(),
{
    if items.len() > 0 {
        let front = items.drop_last();
        assert forall|i: int| 0 <= i < front.len() implies (#[trigger] front[i]).depth >= depth
            && front[i].depth < limit by {
            assert(items[i].depth >= depth);
        }
        lemma_plan_deep(front, records.drop_last(), now, depth, limit);
        assert(items[items.len() - 1].depth >= depth);
    }
}

/// A source is never asked for a key twice in one pass.
pub proof fn law_no_key_is_fetched_twice<S: Source>(
    manager: CitationManager<S>,
    run: RunView,
    cache: Map<Seq<char>, RecordView>,
    now: int,
    prefix: Seq<char>,
)
    ensures
        keys_with(manager.pass_plan(run, cache, now).fetch, prefix).no_duplicates(),
{
    let a = manager.sift_all(run.seen, run.worklist);
    law_candidates(manager, run.seen, run.worklist);
    let records = lookups(cache, a.candidates);
    lemma_fetch_from(a.candidates, records, now);
    lemma_keys_distinct(plan_all(a.candidates, records, now).fetch, prefix);
}

/// Whether the ids of the citations are distinct.
pub open spec fn distinct_ids(items: Seq<ItemView>) -> bool {
    forall|i: int, j: int|
        0 <= i < j < items.len() ==> (#[trigger] items[i]).id() != (#[trigger] items[j]).id()
}

pub proof fn lemma_fetch_from(items: Seq<ItemView>, records: Seq<Option<RecordView>>, now: int)
    requires
        distinct_ids(items),
    ensures
        distinct_ids(plan_all(items, records, now).fetch),
        forall|i: int|
            0 <= i < plan_all(items, records, now).fetch.len() ==> items.contains(
                #[trigger] plan_all(items, records, now).fetch[i],
            ),
    decreases items.len(),
{
    if items.len() > 0 {
        let front = items.drop_last();
        let f = plan_all(front, records.drop_last(), now).fetch;
        let g = plan_all(items, records, now).fetch;
        let n = items.len() - 1;
        assert(distinct_ids(front)) by {
            assert forall|i: int, j: int| 0 <= i < j < front.len() implies (
            #[trigger] front[i]).id() != (#[trigger] front[j]).id() by {
                assert(items[i].id() != items[j].id());
            }
        }
        lemma_fetch_from(front, records.drop_last(), now);
        assert forall|i: int| 0 <= i < g.len() implies items.contains(#[trigger] g[i]) by {
            if i < f.len() {
                assert(g[i] == f[i]);
                let k = choose|k: int| 0 <= k < front.len() && front[k] == f[i];
                assert(items[k] == g[i]);
            } else {
                assert(items[n] == g[i]);
            }
        }
        assert forall|i: int, j: int| 0 <= i < j < g.len() implies (#[trigger] g[i]).id() != (
        #[trigger] g[j]).id() by {
            assert(g[i] == f[i]);
            if j < f.len() {
                assert(f[i].id() != f[j].id());
            } else {
                assert(front.contains(f[i]));
                let k = choose|k: int| 0 <= k < front.len() && front[k] == f[i];
                assert(items[k].id() != items[n].id());
            }
        }
    }
}

pub proof fn lemma_keys_distinct(items: Seq<ItemView>, prefix: Seq<char>)
    requires
        distinct_ids(items),
    ensures
        keys_with(items, prefix).no_duplicates(),
        forall|i: int|
            0 <= i < keys_with(items, prefix).len() ==> exists|k: int|
                0 <= k < items.len() && (#[trigger] items[k]).id() == id_of(
                    prefix,
                    #[trigger] keys_with(items, prefix)[i],
                ),
    decreases items.len(),
{
    if items.len() > 0 {
        let front = items.drop_last();
        let n = items.len() - 1;
        assert(distinct_ids(front)) by {
            assert forall|i: int, j: int| 0 <= i < j < front.len() implies (
            #[trigger] front[i]).id() != (#[trigger] front[j]).id() by {
                assert(items[i].id() != items[j].id());
            }
        }
        lemma_keys_distinct(front, prefix);
        let f = keys_with(front, prefix);
        let g = keys_with(items, prefix);
        assert forall|i: int| 0 <= i < g.len() implies exists|k: int|
            0 <= k < items.len() && (#[trigger] items[k]).id() == id_of(
                prefix,
                #[trigger] g[i],
            ) by {
            if i < f.len() {
                assert(g[i] == f[i]);
                let k = choose|k: int|
                    0 <= k < front.len() && (#[trigger] front[k]).id() == id_of(prefix, f[i]);
                assert(items[k].id() == id_of(prefix, g[i]));
            } else {
                assert(items[n].id() == id_of(prefix, g[i]));
            }
        }
        if items.last().prefix == prefix {
            assert forall|i: int| 0 <= i < f.len() implies f[i] != items.last().key by {
                let k = choose|k: int|
                    0 <= k < front.len() && (#[trigger] front[k]).id() == id_of(prefix, f[i]);
                assert(items[k].id() != items[n].id());
            }
        }
    }
}

pub proof fn lemma_key_has_item(items: Seq<ItemView>, prefix: Seq<char>, key: Seq<char>)
    requires
        keys_with(items, prefix).contains(key),
    ensures
        exists|i: int|
            0 <= i < items.len() && (#[trigger] items[i]).prefix == prefix && items[i].key == key,
    decreases items.len(),
{
    if items.len() > 0 {
        let front = items.drop_last();
        let n = items.len() - 1;
        let g = keys_with(items, prefix);
        let k = choose|k: int| 0 <= k < g.len() && g[k] == key;
        if items.last().prefix == prefix && items.last().key == key {
            assert(items[n].prefix == prefix);
        } else {
            let f = keys_with(front, prefix);
            assert(f[k] == key);
            lemma_key_has_item(front, prefix, key);
            let i = choose|i: int|
                0 <= i < front.len() && (#[trigger] front[i]).prefix == prefix && front[i].key
                    == key;
            assert(items[i].prefix == prefix);
        }
    }
}

/// How a key that a pass fetches was come upon is remembered: it is no closer to a
/// request than the list of work, and close enough.
pub proof fn law_fetched_keys_are_known<S: Source>(
    manager: CitationManager<S>,
    run: RunView,
    cache: Map<Seq<char>, RecordView>,
    now: int,
    depth: nat,
)
    requires
        at_least_deep(run.worklist, depth),
        manager.depth_limit() <= usize::MAX,
    ensures
        ({
            let buckets = grouped(manager.pass_plan(run, cache, now).fetch);
            let seen = manager.pass_opened(run, cache, now).seen;
            forall|i: int, k: Seq<char>|
                0 <= i < buckets.len() && #[trigger] buckets[i].1.contains(k) ==> depth <= as_seen(
                    seen,
                    buckets[i].0,
                    k,
                ).depth < manager.depth_limit()
        }),
{
    let a = manager.sift_all(run.seen, run.worklist);
    let records = lookups(cache, a.candidates);
    let fetch = manager.pass_plan(run, cache, now).fetch;
    let buckets = grouped(fetch);
    let seen = manager.pass_opened(run, cache, now).seen;
    law_candidates(manager, run.seen, run.worklist);
    lemma_fetch_from(a.candidates, records, now);
    law_passes_deepen(manager, run, cache, now, depth);
    law_buckets_partition(fetch);
    assert forall|i: int, k: Seq<char>|
        0 <= i < buckets.len() && #[trigger] buckets[i].1.contains(k) implies depth <= as_seen(
        seen,
        buckets[i].0,
        k,
    ).depth < manager.depth_limit() by {
        lemma_key_has_item(fetch, buckets[i].0, k);
        let j = choose|j: int|
            0 <= j < fetch.len() && (#[trigger] fetch[j]).prefix == buckets[i].0 && fetch[j].key
                == k;
        assert(a.candidates.contains(fetch[j]));
        let c = choose|c: int| 0 <= c < a.candidates.len() && a.candidates[c] == fetch[j];
        assert(as_seen(a.seen, a.candidates[c].prefix, a.candidates[c].key) == a.candidates[c]);
    }
}

} // verus!
