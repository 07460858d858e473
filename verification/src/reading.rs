//! Reading a citation from the cache: following pointers to an item.

use crate::cache::within_grace;
use crate::csl::{
    cite_id, fields, group_csl, id_of, merge_defaults, merge_over, set_id, CslValue, Json,
};
use crate::error::{joined, Error, ErrorView};
use crate::filecache::{adds, FileCacheStore};
use crate::json::json_written;
use crate::manager::{CitationManager, ItemView};
use crate::env::Timestamp;
use crate::record::{tombstone_tree, Change};
use crate::retrieval::{lookup, opt_record};
use crate::settle::{self_chain, VerdictView};
use crate::sorted::SortedMap;
use crate::source::{OutcomeView, Source};
use crate::store::{CacheRecord, Payload, PayloadView, RecordView, StoreError};
use crate::text::{chars_of, decimal, decimal_text, same, text_of};
use core::time::Duration;
use vstd::prelude::*;
use vstd::string::*;

verus! {

/// Where the reading of a citation stands.
pub struct ChainWalk {
    /// The id that was asked for.
    pub requested: String,
    /// The id whose record is needed next.
    pub current: String,
    /// What the pointers so far set, those closer to the request first.
    pub accumulated: CslValue,
    /// How many more records may be looked at.
    pub left: usize,
}

/// Where the reading of a citation stands, by its meaning.
pub struct WalkView {
    pub requested: Seq<char>,
    pub current: Seq<char>,
    pub accumulated: Json,
    pub left: nat,
}

impl View for ChainWalk {
    type V = WalkView;

    open spec fn view(&self) -> WalkView {
        WalkView {
            requested: self.requested@,
            current: self.current@,
            accumulated: self.accumulated@,
            left: self.left as nat,
        }
    }
}

/// What reading comes to next.
pub enum Step {
    /// The record of the walk's current id is needed.
    Lookup(ChainWalk),
    Done(Result<CslValue, Error>),
}

/// What reading comes to next, by its meaning.
pub enum StepView {
    Lookup(WalkView),
    Done(Result<Json, ErrorView>),
}

/// What reading gives, by its meaning.
pub open spec fn item_view(r: Result<CslValue, Error>) -> Result<Json, ErrorView> {
    match r {
        Ok(v) => Ok(v@),
        Err(e) => Err(e@),
    }
}

impl View for Step {
    type V = StepView;

    open spec fn view(&self) -> StepView {
        match self {
            Step::Lookup(w) => StepView::Lookup(w@),
            Step::Done(r) => StepView::Done(item_view(*r)),
        }
    }
}

/// The error of a chain that is too long.
pub open spec fn too_long(requested: Seq<char>, limit: nat) -> ErrorView {
    ErrorView::Chain(
        "chain from `"@ + requested + "` is longer than the "@ + decimal(limit) + " link limit"@,
    )
}

/// The error of an id that is not in the cache.
pub open spec fn absent(requested: Seq<char>, current: Seq<char>) -> ErrorView {
    if current == requested {
        ErrorView::NotFound(requested)
    } else {
        ErrorView::Chain(
            "`"@ + requested + "` chains to `"@ + current + "`, which is not in the cache"@,
        )
    }
}

/// An item with what pointers set, under the id that was asked for.
pub open spec fn overridden(item: Json, set: Json, id: Seq<char>) -> Json {
    let merged = if item is Object && set is Object {
        Json::Object(fields(item).union_prefer_right(fields(set)))
    } else {
        item
    };
    if merged is Object {
        Json::Object(fields(merged).insert("id"@, Json::Text(id)))
    } else {
        merged
    }
}

/// What pointers set, with what a further one sets below it.
pub open spec fn extended(set: Json, further: Json) -> Json {
    if set is Object && further is Object {
        Json::Object(fields(further).union_prefer_right(fields(set)))
    } else {
        set
    }
}

impl<S: Source> CitationManager<S> {
    /// A walk that goes on, or the error if it has gone too far.
    pub open spec fn going_on(self, walk: WalkView) -> StepView {
        if walk.left == 0 {
            StepView::Done(Err(too_long(walk.requested, self.depth_limit())))
        } else {
            StepView::Lookup(walk)
        }
    }

    /// How reading a citation begins.
    pub open spec fn begun(self, prefix: Seq<char>, key: Seq<char>) -> StepView {
        let id = id_of(prefix, self.form(prefix, key));
        self.going_on(
            WalkView {
                requested: id,
                current: id,
                accumulated: Json::Object(Map::empty()),
                left: self.depth_limit(),
            },
        )
    }

    /// What reading comes to once the record of the current id is known. What
    /// pointers set overrides the item that they lead to, a pointer closer to the
    /// request overrides one further away, and the id is the one asked for.
    pub open spec fn advanced(self, walk: WalkView, record: Option<RecordView>) -> StepView {
        match record {
            None => StepView::Done(Err(absent(walk.requested, walk.current))),
            Some(r) => match r.payload {
                PayloadView::Concrete(csl) => StepView::Done(
                    Ok(overridden(csl, walk.accumulated, walk.requested)),
                ),
                PayloadView::Chained { prefix, key, set_properties } => {
                    let next = id_of(prefix, self.form(prefix, key));
                    if next == walk.current {
                        StepView::Done(Err(self_chain(walk.current)))
                    } else {
                        self.going_on(
                            WalkView {
                                requested: walk.requested,
                                current: next,
                                accumulated: extended(walk.accumulated, set_properties),
                                left: (walk.left - 1) as nat,
                            },
                        )
                    }
                },
            },
        }
    }

    /// What reading gives in the end, given the cache.
    pub open spec fn finished(self, cache: Map<Seq<char>, RecordView>, step: StepView) -> Result<
        Json,
        ErrorView,
    >
        decreases
                match step {
                    StepView::Lookup(w) => w.left,
                    StepView::Done(_) => 0,
                },
    {
        match step {
            StepView::Done(r) => r,
            StepView::Lookup(w) => if w.left == 0 {
                Err(too_long(w.requested, self.depth_limit()))
            } else {
                self.finished(cache, self.advanced(w, lookup(cache, w.current)))
            },
        }
    }

    /// What a citation reads as, given the cache.
    pub open spec fn read(
        self,
        cache: Map<Seq<char>, RecordView>,
        prefix: Seq<char>,
        key: Seq<char>,
    ) -> Result<Json, ErrorView> {
        self.finished(cache, self.begun(prefix, key))
    }

    /// A walk that goes on, or the error if it has gone too far.
    fn go_on(&self, walk: ChainWalk) -> (r: Step)
        ensures
            r@ == self.going_on(walk@),
    {
        if walk.left == 0 {
            let n = decimal_text(self.max_chain_depth() as u64);
            let m = joined("chain from `", walk.requested.as_str(), "` is longer than the ").concat(
                n.as_str(),
            ).concat(" link limit");
            return Step::Done(Err(Error::Chain(m)));
        }
        Step::Lookup(walk)
    }

    /// Begins to read a citation.
    pub fn begin(&self, prefix: &str, key: &str) -> (r: Step)
        ensures
            r@ == self.begun(prefix@, key@),
    {
        broadcast use group_csl;

        let key = self.normalize_key(prefix, key);
        let id = cite_id(prefix, key.as_str());
        let accumulated = CslValue::Object(SortedMap::new());
        assert(accumulated@ == Json::Object(Map::empty()));
        self.go_on(
            ChainWalk {
                requested: id.clone(),
                current: id,
                accumulated,
                left: self.max_chain_depth(),
            },
        )
    }

    /// Goes on reading a citation, once the record of the walk's current id is known.
    pub fn advance(&self, walk: ChainWalk, record: Option<CacheRecord>) -> (r: Step)
        requires
            walk@.left > 0,
        ensures
            r@ == self.advanced(walk@, opt_record(record)),
    {
        let ChainWalk { requested, current, accumulated, left } = walk;
        let payload = match record {
            Some(rec) => rec.payload,
            None => {
                if same(current.as_str(), requested.as_str()) {
                    return Step::Done(Err(Error::NotFound(requested)));
                }
                let m = joined("`", requested.as_str(), "` chains to `").concat(
                    current.as_str(),
                ).concat("`, which is not in the cache");
                return Step::Done(Err(Error::Chain(m)));
            },
        };
        match payload {
            Payload::Concrete(csl) => {
                let mut csl = csl;
                merge_over(&mut csl, &accumulated);
                set_id(&mut csl, requested.as_str());
                Step::Done(Ok(csl))
            },
            Payload::Chained { prefix, key, set_properties } => {
                let mut accumulated = accumulated;
                merge_defaults(&mut accumulated, &set_properties);
                let key = self.normalize_key(prefix.as_str(), key.as_str());
                let next = cite_id(prefix.as_str(), key.as_str());
                if same(next.as_str(), current.as_str()) {
                    let m = joined("`", current.as_str(), "` chains to itself");
                    return Step::Done(Err(Error::Chain(m)));
                }
                self.go_on(ChainWalk { requested, current: next, accumulated, left: left - 1 })
            },
        }
    }

    /// Reads a citation from the store, through its pointers.
    pub fn get(&self, store: &FileCacheStore, prefix: &str, key: &str) -> (r: Result<
        CslValue,
        Error,
    >)
        ensures
            item_view(r) == self.read(store.cached(), prefix@, key@),
    {
        let mut step = self.begin(prefix, key);
        loop
            invariant
                self.finished(store.cached(), step@) == self.read(store.cached(), prefix@, key@),
                step@ matches StepView::Lookup(w) ==> w.left > 0,
            decreases
                    match step@ {
                        StepView::Lookup(w) => w.left,
                        StepView::Done(_) => 0,
                    },
        {
            match step {
                Step::Done(r) => {
                    return r;
                },
                Step::Lookup(walk) => {
                    let record = store.get(walk.current.as_str());
                    step = self.advance(walk, record);
                },
            }
        }
    }
}

/// The prefix and the key of an id: what stands before and behind its first colon.
pub open spec fn split_id(id: Seq<char>) -> Option<(Seq<char>, Seq<char>)> {
    if id.contains(':') {
        let i = id.index_of_first(':')->Some_0;
        Some((id.take(i), id.skip(i + 1)))
    } else {
        None
    }
}

/// Splits an id at its first colon.
pub fn split_at_colon(id: &str) -> (r: Option<(String, String)>)
    ensures
        match r {
            Some((prefix, key)) => split_id(id@) == Some((prefix@, key@)),
            None => split_id(id@) is None,
        },
{
    let v = chars_of(id);
    let n: usize = v.len();
    let mut i: usize = 0;
    while i < n
        invariant
            i <= n == v@.len(),
            v@ == id@,
            forall|k: int| 0 <= k < i ==> #[trigger] v@[k] != ':',
        decreases n - i,
    {
        if v[i] == ':' {
            proof {
                assert(id@[i as int] == ':');
                assert(id@.contains(':'));
                id@.index_of_first_ensures(':');
                let at = id@.index_of_first(':')->Some_0;
                assert(v@[at] == ':');
                assert(at == i);
            }
            let prefix = text_of(&v, 0, i);
            let key = text_of(&v, i + 1, n);
            assert(prefix@ =~= id@.take(i as int));
            assert(key@ =~= id@.skip(i + 1));
            return Some((prefix, key));
        }
        i += 1;
    }
    None
}

/// The lines that drop these entries, one each.
pub open spec fn logs_removals(lines: Seq<String>, ids: Seq<Seq<char>>) -> bool {
    &&& lines.len() == ids.len()
    &&& forall|i: int|
        0 <= i < ids.len() ==> (#[trigger] lines[i])@ == json_written(tombstone_tree(ids[i]))
            + seq!['\n'] && adds(lines[i]@, Change::Remove(ids[i]))
}

/// The lines that drop what `before` has and `after` has not, as far as the files hold a
/// record of it.
pub open spec fn logs_difference(
    lines: Seq<String>,
    before: Map<Seq<char>, RecordView>,
    filed: Set<Seq<char>>,
    after: Map<Seq<char>, RecordView>,
) -> bool {
    exists|ids: Seq<Seq<char>>|
        {
            &&& #[trigger] logs_removals(lines, ids)
            &&& ids.no_duplicates()
            &&& forall|id: Seq<char>| #[trigger]
                ids.contains(id) == (before.contains_key(id) && !after.contains_key(id)
                    && filed.contains(id))
        }
}

/// Records were dropped: the lines that say so are to be appended to this writer's log.
pub struct Pruning {
    removed: usize,
    lines: Vec<String>,
}

/// Records were dropped, and this writer's log says so: the cache is to be flushed.
pub struct Pruned {
    removed: usize,
}

impl Pruning {
    /// How many records were dropped.
    pub closed spec fn count(self) -> nat {
        self.removed as nat
    }

    /// What to append to this writer's log.
    pub closed spec fn log(self) -> Seq<String> {
        self.lines@
    }

    /// What to append to this writer's log.
    pub fn lines(&self) -> (r: &Vec<String>)
        ensures
            r@ == self.log(),
    {
        &self.lines
    }

    /// What follows from the outcome of appending the lines. Where that failed the prune
    /// has failed.
    pub fn written(self, outcome: Result<(), StoreError>) -> (r: Result<Pruned, Error>)
        ensures
            match outcome {
                Ok(_) => r matches Ok(p) && p.count() == self.count(),
                Err(e) => r == Err::<Pruned, Error>(Error::Store(e)),
            },
    {
        match outcome {
            Ok(_) => Ok(Pruned { removed: self.removed }),
            Err(e) => Err(Error::Store(e)),
        }
    }
}

impl Pruned {
    /// How many records were dropped.
    pub closed spec fn count(self) -> nat {
        self.removed as nat
    }

    /// How many records a prune dropped, once the cache was flushed. Where the flush
    /// failed the prune has failed.
    pub fn flushed(self, outcome: Result<(), StoreError>) -> (r: Result<usize, Error>)
        ensures
            match outcome {
                Ok(_) => r matches Ok(n) && n == self.count(),
                Err(e) => r == Err::<usize, Error>(Error::Store(e)),
            },
    {
        match outcome {
            Ok(_) => Ok(self.removed),
            Err(e) => Err(Error::Store(e)),
        }
    }
}

impl<S: Source> CitationManager<S> {
    /// Reads a citation by its id. An id without a colon is refused.
    pub fn get_by_id(&self, store: &FileCacheStore, id: &str) -> (r: Result<CslValue, Error>)
        ensures
            item_view(r) == (match split_id(id@) {
                Some((prefix, key)) => self.read(store.cached(), prefix, key),
                None => Err(ErrorView::InvalidId(id@)),
            }),
    {
        match split_at_colon(id) {
            Some((prefix, key)) => self.get(store, prefix.as_str(), key.as_str()),
            None => Err(Error::InvalidId(id.to_owned())),
        }
    }

    /// A cache without the records that are past their grace.
    pub open spec fn pruned(self, cache: Map<Seq<char>, RecordView>, now: int) -> Map<
        Seq<char>,
        RecordView,
    > {
        cache.restrict(
            Set::new(
                |id: Seq<char>|
                    cache.contains_key(id) && within_grace(
                        cache[id].expires,
                        self.ttl_policy().grace,
                        now,
                    ),
            ),
        )
    }

    /// Drops the records that are past their grace. How many there were is said once the
    /// removals are appended to this writer's log, and the cache is flushed.
    pub fn prune(&self, store: &mut FileCacheStore, now: Timestamp) -> (r: Pruning)
        ensures
            final(store).cached() == self.pruned(old(store).cached(), now.0 as int),
            final(store).filed() == old(store).filed().intersect(final(store).cached().dom()),
            final(store).same_files(*old(store)),
            r.count() == old(store).cached().dom().difference(final(store).cached().dom()).len(),
            logs_difference(
                r.log(),
                old(store).cached(),
                old(store).filed(),
                final(store).cached(),
            ),
    {
        let ghost start = store.cached();
        let ghost filed = store.filed();
        proof {
            old(store).lemma_filed_is_cached();
        }
        let entries = store.entries();
        let policy = self.policy();
        let mut lines: Vec<String> = Vec::new();
        let mut removed: usize = 0;
        let mut i: usize = 0;
        let ghost mut gone = Set::<Seq<char>>::empty();
        let ghost mut ids = Seq::<Seq<char>>::empty();
        assert(start.remove_keys(gone) =~= start);
        assert(filed.difference(gone) =~= filed);
        while i < entries.len()
            invariant
                i <= entries@.len(),
                removed <= i,
                policy == self.ttl_policy(),
                forall|a: int, b: int|
                    0 <= a < b < entries@.len() ==> crate::sorted::before(
                        (#[trigger] entries@[a]).0@,
                        (#[trigger] entries@[b]).0@,
                    ),
                forall|a: int|
                    0 <= a < entries@.len() ==> start.contains_key((#[trigger] entries@[a]).0@)
                        && start[entries@[a].0@] == entries@[a].1@,
                store.cached() == start.remove_keys(gone),
                store.filed() == filed.difference(gone),
                store.same_files(*old(store)),
                start == old(store).cached(),
                filed == old(store).filed(),
                gone.finite(),
                gone.len() == removed,
                logs_removals(lines@, ids),
                ids.no_duplicates(),
                forall|id: Seq<char>| #[trigger]
                    ids.contains(id) == (gone.contains(id) && filed.contains(id)),
                forall|id: Seq<char>| #[trigger]
                    gone.contains(id) ==> exists|a: int|
                        0 <= a < i && (#[trigger] entries@[a]).0@ == id && !within_grace(
                            entries@[a].1@.expires,
                            policy.grace,
                            now.0 as int,
                        ),
                forall|a: int|
                    0 <= a < i && !within_grace(
                        (#[trigger] entries@[a]).1@.expires,
                        policy.grace,
                        now.0 as int,
                    ) ==> gone.contains(entries@[a].0@),
            decreases entries@.len() - i,
        {
            let ghost before = gone;
            let ghost id = entries@[i as int].0@;
            if !policy.usable_within_grace(&entries[i].1, now) {
                proof {
                    if gone.contains(id) {
                        let a = choose|a: int|
                            0 <= a < i && (#[trigger] entries@[a]).0@ == id && !within_grace(
                                entries@[a].1@.expires,
                                policy.grace,
                                now.0 as int,
                            );
                        assert(crate::sorted::before(entries@[a].0@, entries@[i as int].0@));
                        crate::sorted::lemma_before_irreflexive(id);
                    }
                    gone = gone.insert(id);
                }
                let ghost logged = ids;
                if let Some(line) = store.remove(entries[i].0.as_str()) {
                    lines.push(line);
                    proof {
                        ids = ids.push(id);
                        assert(!logged.contains(id));
                        assert(ids.no_duplicates());
                    }
                }
                proof {
                    assert forall|k: Seq<char>| #[trigger] ids.contains(k) == (gone.contains(k)
                        && filed.contains(k)) by {
                        if logged.contains(k) {
                            let a = choose|a: int| 0 <= a < logged.len() && logged[a] == k;
                            assert(ids[a] == k);
                        }
                        if k == id && filed.contains(k) {
                            assert(ids[logged.len() as int] == k);
                        }
                        if ids.contains(k) && k != id {
                            let a = choose|a: int| 0 <= a < ids.len() && ids[a] == k;
                            assert(logged[a] == k);
                        }
                        if ids.contains(k) && k == id {
                            assert(!logged.contains(k));
                        }
                    }
                }
                removed += 1;
                assert(store.cached() =~= start.remove_keys(gone));
                assert(store.filed() =~= filed.difference(gone));
            }
            i += 1;
            proof {
                assert forall|k: Seq<char>| #[trigger] gone.contains(k) implies exists|a: int|
                    0 <= a < i && (#[trigger] entries@[a]).0@ == k && !within_grace(
                        entries@[a].1@.expires,
                        policy.grace,
                        now.0 as int,
                    ) by {
                    if before.contains(k) {
                        let a = choose|a: int|
                            0 <= a < i - 1 && (#[trigger] entries@[a]).0@ == k && !within_grace(
                                entries@[a].1@.expires,
                                policy.grace,
                                now.0 as int,
                            );
                        assert(0 <= a < i && entries@[a].0@ == k);
                    } else {
                        assert(entries@[i - 1].0@ == k);
                    }
                }
            }
        }
        proof {
            assert forall|k: Seq<char>| #[trigger] gone.contains(k) == (start.contains_key(k)
                && !within_grace(start[k].expires, policy.grace, now.0 as int)) by {
                if gone.contains(k) {
                    let a = choose|a: int|
                        0 <= a < i && (#[trigger] entries@[a]).0@ == k && !within_grace(
                            entries@[a].1@.expires,
                            policy.grace,
                            now.0 as int,
                        );
                    assert(start.contains_key(entries@[a].0@));
                }
                if start.contains_key(k) {
                    let a = choose|a: int| 0 <= a < entries@.len() && (#[trigger] entries@[a]).0@
                        == k;
                    assert(start[entries@[a].0@] == entries@[a].1@);
                }
            }
            assert(store.cached() =~= self.pruned(start, now.0 as int));
            assert(start.dom().difference(store.cached().dom()) =~= gone);
            assert forall|id: Seq<char>| #[trigger] ids.contains(id) == (start.contains_key(id)
                && !store.cached().contains_key(id) && filed.contains(id)) by {
                assert(gone.contains(id) == (start.contains_key(id) && !within_grace(
                    start[id].expires,
                    policy.grace,
                    now.0 as int,
                )));
            }
            assert(logs_removals(lines@, ids));
            assert(logs_difference(lines@, start, filed, store.cached()));
            assert(store.filed() =~= filed.intersect(store.cached().dom()));
        }
        Pruning { removed, lines }
    }
}

/// What a prune leaves, another prune at the same time leaves too: it drops nothing.
pub proof fn law_a_second_prune_drops_nothing<S: Source>(
    manager: CitationManager<S>,
    cache: Map<Seq<char>, RecordView>,
    now: int,
)
    ensures
        ({
            let once = manager.pruned(cache, now);
            &&& manager.pruned(once, now) == once
            &&& once.dom().difference(manager.pruned(once, now).dom()).len() == 0
        }),
{
    let once = manager.pruned(cache, now);
    assert(manager.pruned(once, now) =~= once);
    assert(once.dom().difference(once.dom()) =~= Set::empty());
}

/// What was stored is read: once an item has been stored, reading its citation gives
/// it, without the dropped fields and under its id.
pub proof fn law_a_stored_item_is_read<S: Source>(
    manager: CitationManager<S>,
    cache: Map<Seq<char>, RecordView>,
    item: ItemView,
    csl: Json,
    ttl: Option<Duration>,
    default_ttl: Duration,
    now: int,
)
    requires
        csl is Object,
        manager.form(item.prefix, item.key) == item.key,
        manager.depth_limit() > 0,
    ensures
        ({
            let outcome = OutcomeView::Concrete { csl, ttl };
            match manager.verdict_of(item, outcome, default_ttl, now) {
                VerdictView::Put { record, .. } => manager.read(
                    cache.insert(item.id(), record),
                    item.prefix,
                    item.key,
                ) == Ok::<Json, ErrorView>(
                    Json::Object(
                        fields(crate::settle::without(csl, manager.dropped())).insert(
                            "id"@,
                            Json::Text(item.id()),
                        ),
                    ),
                ),
                _ => false,
            }
        }),
{
    let outcome = OutcomeView::Concrete { csl, ttl };
    let record = manager.verdict_of(item, outcome, default_ttl, now)->record;
    let c = cache.insert(item.id(), record);
    let stored = record.payload->Concrete_0;
    reveal_with_fuel(CitationManager::finished, 3);
    assert(fields(stored).union_prefer_right(Map::empty()) =~= fields(stored));
    assert(fields(stored).insert("id"@, Json::Text(item.id())) =~= fields(stored));
}

/// The spelling of a key does not matter: all spellings with one form read the same.
pub proof fn law_spellings_read_alike<S: Source>(
    manager: CitationManager<S>,
    cache: Map<Seq<char>, RecordView>,
    prefix: Seq<char>,
    a: Seq<char>,
    b: Seq<char>,
)
    requires
        manager.form(prefix, a) == manager.form(prefix, b),
    ensures
        manager.read(cache, prefix, a) == manager.read(cache, prefix, b),
{
}

/// What is read as an object carries the id that was asked for, whatever pointers
/// set and wherever they lead.
pub proof fn law_the_requested_id_wins<S: Source>(
    manager: CitationManager<S>,
    cache: Map<Seq<char>, RecordView>,
    prefix: Seq<char>,
    key: Seq<char>,
)
    ensures
        match manager.read(cache, prefix, key) {
            Ok(item) => item is Object ==> fields(item).contains_key("id"@) && fields(item)["id"@]
                == Json::Text(id_of(prefix, manager.form(prefix, key))),
            Err(_) => true,
        },
{
    lemma_id_wins(manager, cache, manager.begun(prefix, key), id_of(prefix, manager.form(prefix, key)));
}

proof fn lemma_id_wins<S: Source>(
    manager: CitationManager<S>,
    cache: Map<Seq<char>, RecordView>,
    step: StepView,
    id: Seq<char>,
)
    requires
        match step {
            StepView::Lookup(w) => w.requested == id,
            StepView::Done(Ok(item)) => item is Object ==> fields(item).contains_key("id"@)
                && fields(item)["id"@] == Json::Text(id),
            StepView::Done(Err(_)) => true,
        },
    ensures
        match manager.finished(cache, step) {
            Ok(item) => item is Object ==> fields(item).contains_key("id"@) && fields(item)["id"@]
                == Json::Text(id),
            Err(_) => true,
        },
    decreases
            match step {
                StepView::Lookup(w) => w.left,
                StepView::Done(_) => 0,
            },
{
    if let StepView::Lookup(w) = step {
        if w.left > 0 {
            lemma_id_wins(manager, cache, manager.advanced(w, lookup(cache, w.current)), id);
        }
    }
}

/// What a pointer sets overrides the item that it leads to.
pub proof fn law_pointers_override_their_target<S: Source>(
    manager: CitationManager<S>,
    cache: Map<Seq<char>, RecordView>,
    prefix: Seq<char>,
    key: Seq<char>,
    name: Seq<char>,
)
    requires
        manager.depth_limit() > 1,
        ({
            let id = id_of(prefix, manager.form(prefix, key));
            &&& cache.contains_key(id)
            &&& cache[id].payload matches PayloadView::Chained { prefix: p, key: k, set_properties }
            &&& id_of(p, manager.form(p, k)) != id
            &&& cache.contains_key(id_of(p, manager.form(p, k)))
            &&& cache[id_of(p, manager.form(p, k))].payload matches PayloadView::Concrete(target)
            &&& set_properties is Object && target is Object
        }),
        name != "id"@,
    ensures
        ({
            let id = id_of(prefix, manager.form(prefix, key));
            let set = cache[id].payload->set_properties;
            let target = cache[id_of(
                cache[id].payload->prefix,
                manager.form(cache[id].payload->prefix, cache[id].payload->key),
            )].payload->Concrete_0;
            match manager.read(cache, prefix, key) {
                Ok(item) => {
                    &&& fields(set).contains_key(name) ==> fields(item).contains_key(name)
                        && fields(item)[name] == fields(set)[name]
                    &&& !fields(set).contains_key(name) ==> fields(item).contains_key(name)
                        == fields(target).contains_key(name) && (fields(target).contains_key(name)
                        ==> fields(item)[name] == fields(target)[name])
                },
                Err(_) => false,
            }
        }),
{
    reveal_with_fuel(CitationManager::finished, 4);
    let id = id_of(prefix, manager.form(prefix, key));
    let set = cache[id].payload->set_properties;
    assert(fields(set).union_prefer_right(Map::empty()) =~= fields(set));
}

/// An id made of a prefix without a colon and a key is split into the two again.
pub proof fn law_ids_split_again(prefix: Seq<char>, key: Seq<char>)
    requires
        !prefix.contains(':'),
    ensures
        split_id(id_of(prefix, key)) == Some((prefix, key)),
{
    let id = id_of(prefix, key);
    let n = prefix.len() as int;
    assert(id[n] == ':');
    assert(id.contains(':'));
    id.index_of_first_ensures(':');
    let at = id.index_of_first(':')->Some_0;
    assert(at == n) by {
        if at < n {
            assert(prefix[at] == ':');
        }
        if at > n {
            assert(id[n] != ':');
        }
    }
    assert(id.take(n) =~= prefix);
    assert(id.skip(n + 1) =~= key);
}

} // verus!
