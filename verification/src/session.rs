//! A retrieval step by step: what a host has to do next.
//!
//! The host asks [`Session::next`] what to do, does it, and asks again, until the
//! retrieval is finished. A pass is planned, its sources are asked one after another, a
//! chunk of keys at a time, with a pause where a source wants one; only when all have
//! answered are their answers settled, and what they lead to makes up the next pass.

use crate::driver::{
    chunk_limit, chunked, chunks, joined_chunks, law_chunks_partition,
    law_pauses_keep_the_interval, pacing_wait, pause_nanos, text_lists, texts,
};
use crate::env::{duration_nanos, Timestamp};
use crate::error::Error;
use crate::filecache::FileCacheStore;
use crate::index::TextMap;
use crate::manager::{as_seen, CitationManager, RetrieveReport};
use crate::report::{time_of, times, Event, Resolved, Wait};
use crate::retrieval::{
    at_least_deep, bucket_views, grouped, law_fetched_keys_are_known, law_passes_deepen,
    requested_items, Bucket, Retrieval, RunView,
};
use crate::settle::{
    committed_all, filed_after_all, law_answers_deepen, notes_tell, verdict_views, Note, Noted, Verdict,
    VerdictView,
};
use crate::source::{resolution_views, Resolution, ResolutionView, Source};
use crate::store::{RecordView, StoreError};
use core::time::Duration;
use vstd::prelude::*;
use vstd::string::*;

verus! {

/// A source that is being asked.
pub struct Asking {
    prefix: String,
    keys: Vec<String>,
    left: Vec<Vec<String>>,
    done: usize,
    paced: bool,
    interval: Duration,
    ttl: Duration,
    got: Vec<Resolution>,
}

/// A source that is being asked, by its meaning.
pub struct AskingView {
    pub prefix: Seq<char>,
    /// All keys that it is asked for in this pass.
    pub keys: Seq<Seq<char>>,
    /// The chunks that it was not asked for yet.
    pub left: Seq<Seq<Seq<char>>>,
    /// How many keys it was asked for.
    pub done: nat,
    /// Whether the pause before the next chunk is over.
    pub paced: bool,
    /// How far apart its requests start at least.
    pub interval: Duration,
    /// The lifetime of its entries that come without one.
    pub ttl: Duration,
    /// What it answered.
    pub got: Seq<ResolutionView>,
}

impl View for Asking {
    type V = AskingView;

    closed spec fn view(&self) -> AskingView {
        AskingView {
            prefix: self.prefix@,
            keys: texts(self.keys@),
            left: text_lists(self.left@),
            done: self.done as nat,
            paced: self.paced,
            interval: self.interval,
            ttl: self.ttl,
            got: resolution_views(self.got@),
        }
    }
}

/// A source that has answered.
pub struct Answered {
    prefix: String,
    keys: Vec<String>,
    ttl: Duration,
    got: Vec<Resolution>,
}

/// A source that has answered, by its meaning.
pub struct AnsweredView {
    pub prefix: Seq<char>,
    pub keys: Seq<Seq<char>>,
    pub ttl: Duration,
    pub got: Seq<ResolutionView>,
}

impl View for Answered {
    type V = AnsweredView;

    closed spec fn view(&self) -> AnsweredView {
        AnsweredView {
            prefix: self.prefix@,
            keys: texts(self.keys@),
            ttl: self.ttl,
            got: resolution_views(self.got@),
        }
    }
}

/// The views of sources that have answered.
pub open spec fn answered_views(s: Seq<Answered>) -> Seq<AnsweredView> {
    s.map_values(|a: Answered| a@)
}

/// A source that may be absent, by its meaning.
pub open spec fn opt_asking(a: Option<Asking>) -> Option<AskingView> {
    match a {
        Some(a) => Some(a@),
        None => None,
    }
}

/// A retrieval and where it stands.
pub struct Session {
    run: Retrieval,
    pass: usize,
    in_pass: bool,
    waiting: Vec<Bucket>,
    asking: Option<Asking>,
    answered: Vec<Answered>,
    last: TextMap<Timestamp>,
}

/// A retrieval and where it stands, by its meaning.
pub struct SessionView {
    pub run: RunView,
    /// How many passes were planned.
    pub pass: nat,
    /// Whether the last of them is under way.
    pub in_pass: bool,
    /// The sources that are to be asked in this pass, with their keys.
    pub waiting: Seq<(Seq<char>, Seq<Seq<char>>)>,
    /// The source that is being asked.
    pub asking: Option<AskingView>,
    /// The sources that have answered, and whose answers are not settled.
    pub answered: Seq<AnsweredView>,
    /// When each source was last asked, in this pass or in an earlier one.
    pub last: Map<Seq<char>, int>,
}

impl View for Session {
    type V = SessionView;

    closed spec fn view(&self) -> SessionView {
        SessionView {
            run: self.run@,
            pass: self.pass as nat,
            in_pass: self.in_pass,
            waiting: bucket_views(self.waiting@),
            asking: opt_asking(self.asking),
            answered: answered_views(self.answered@),
            last: times(self.last@),
        }
    }
}

/// What the host has to do next, or is told.
pub enum Action {
    /// A pass is planned: so many citations are served from the cache, and so many keys
    /// are to be fetched. Passes count from one.
    Planned { pass: usize, cached: usize, to_fetch: usize },
    /// A source is about to be asked for keys.
    Began { prefix: String, total: usize, chunks: usize },
    /// The host waits before it asks the source.
    Wait { prefix: String, length: Duration },
    /// The host asks the source for the keys, and hands the answer to
    /// [`Session::answer`].
    Ask { prefix: String, keys: Vec<String> },
    /// The source has been asked for so many keys, which are all.
    Ended { prefix: String, done: usize },
    /// The answers of a source were settled.
    Settled { notes: Vec<Note> },
    /// The pass is over, with so many citations left for the next one.
    Closed { pass: usize, discovered: usize },
    /// The retrieval is over.
    Finished { considered: usize, failed: usize },
}

/// A count that does not go beyond what a `usize` holds.
pub open spec fn capped(n: nat) -> nat {
    if n > usize::MAX {
        usize::MAX as nat
    } else {
        n
    }
}

fn count_up(a: usize, b: usize) -> (r: usize)
    ensures
        r == capped((a + b) as nat),
{
    if b <= usize::MAX - a {
        a + b
    } else {
        usize::MAX
    }
}

/// How long the next chunk has to wait, in nanoseconds.
pub open spec fn pause_of(a: AskingView, last: Map<Seq<char>, int>, now: int) -> nat {
    if a.paced {
        0
    } else {
        pause_nanos(time_of(last, a.prefix), now, duration_nanos(a.interval))
    }
}

/// A source once it was asked for its next chunk.
pub open spec fn asked(a: AskingView) -> AskingView {
    AskingView {
        left: a.left.skip(1),
        done: capped(a.done + a.left[0].len()),
        paced: false,
        ..a
    }
}

/// Where the retrieval stands once the first of the waiting sources is being asked.
pub open spec fn begun(
    s: SessionView,
    left: Seq<Seq<Seq<char>>>,
    interval: Duration,
    ttl: Duration,
) -> SessionView {
    SessionView {
        waiting: s.waiting.skip(1),
        asking: Some(
            AskingView {
                prefix: s.waiting[0].0,
                keys: s.waiting[0].1,
                left,
                done: 0,
                paced: false,
                interval,
                ttl,
                got: Seq::empty(),
            },
        ),
        ..s
    }
}

/// Where the retrieval stands once a source has answered.
pub open spec fn ended(s: SessionView, a: AskingView) -> SessionView {
    SessionView {
        asking: None,
        answered: s.answered.push(
            AnsweredView { prefix: a.prefix, keys: a.keys, ttl: a.ttl, got: a.got },
        ),
        ..s
    }
}

/// What comes next of a source that is being asked.
pub open spec fn goes_on(
    s: SessionView,
    a: AskingView,
    now: int,
    t: SessionView,
    action: Action,
) -> bool {
    if a.left.len() == 0 {
        &&& t == ended(s, a)
        &&& action matches Action::Ended { prefix, done } && prefix@ == a.prefix && done == a.done
    } else if pause_of(a, s.last, now) > 0 {
        &&& t == SessionView { asking: Some(AskingView { paced: true, ..a }), ..s }
        &&& action matches Action::Wait { prefix, length } && prefix@ == a.prefix
            && duration_nanos(length) == pause_of(a, s.last, now)
    } else {
        &&& t == SessionView {
            asking: Some(asked(a)),
            last: s.last.insert(a.prefix, now),
            ..s
        }
        &&& action matches Action::Ask { prefix, keys } && prefix@ == a.prefix && texts(keys@)
            == a.left[0]
    }
}

/// Whether notes say what came of verdicts with these meanings.
pub open spec fn tells(
    cache: Map<Seq<char>, RecordView>,
    filed: Set<Seq<char>>,
    run: RunView,
    verdicts: Seq<VerdictView>,
    grace: Duration,
    now: int,
    notes: Seq<Note>,
) -> bool {
    exists|v: Seq<Verdict>|
        verdict_views(v) == verdicts && #[trigger] notes_tell(
            cache,
            filed,
            run,
            v,
            grace,
            now,
            notes,
        )
}

impl<S: Source> CitationManager<S> {
    /// Whether the keys are cut as the source that is bound to the prefix wants them.
    pub open spec fn cuts(
        self,
        prefix: Seq<char>,
        keys: Seq<Seq<char>>,
        left: Seq<Seq<Seq<char>>>,
    ) -> bool {
        if self.bound().contains_key(prefix) {
            exists|size: usize|
                {
                    &&& #[trigger] call_ensures(S::chunk_size, (&self.bound()[prefix],), size)
                    &&& left == chunks(keys, chunk_limit(size))
                }
        } else {
            left.len() == 0
        }
    }

    /// Whether these are the pause and the lifetime that the source that is bound to the
    /// prefix wants.
    pub open spec fn times(self, prefix: Seq<char>, interval: Duration, ttl: Duration) -> bool {
        self.bound().contains_key(prefix) ==> {
            &&& call_ensures(S::min_interval, (&self.bound()[prefix],), interval)
            &&& call_ensures(S::default_ttl, (&self.bound()[prefix],), ttl)
        }
    }

    /// What comes next of a source that waits to be asked.
    pub open spec fn begins(self, s: SessionView, t: SessionView, action: Action) -> bool {
        &&& t.asking is Some
        &&& t == begun(s, t.asking->Some_0.left, t.asking->Some_0.interval, t.asking->Some_0.ttl)
        &&& self.cuts(s.waiting[0].0, s.waiting[0].1, t.asking->Some_0.left)
        &&& self.times(s.waiting[0].0, t.asking->Some_0.interval, t.asking->Some_0.ttl)
        &&& action matches Action::Began { prefix, total, chunks } && prefix@ == s.waiting[0].0
            && total == s.waiting[0].1.len() && chunks == t.asking->Some_0.left.len()
    }

    /// What comes next of answers.
    pub open spec fn settles(
        self,
        s: SessionView,
        cache: Map<Seq<char>, RecordView>,
        filed: Set<Seq<char>>,
        now: int,
        t: SessionView,
        cache_after: Map<Seq<char>, RecordView>,
        filed_then: Set<Seq<char>>,
        action: Action,
    ) -> bool {
        let a = s.answered[0];
        let verdicts = self.settled(a.prefix, a.keys, a.got, s.run.seen, a.ttl, now);
        let grace = self.ttl_policy().grace;
        &&& (cache_after, t.run) == committed_all(cache, s.run, verdicts, grace, now)
        &&& filed_then == filed_after_all(filed, verdicts)
        &&& t == SessionView { run: t.run, answered: s.answered.skip(1), ..s }
        &&& action matches Action::Settled { notes } && tells(
            cache,
            filed,
            s.run,
            verdicts,
            grace,
            now,
            notes@,
        )
    }

    /// Where the retrieval stands once its next pass is planned.
    pub open spec fn planned(
        self,
        s: SessionView,
        cache: Map<Seq<char>, RecordView>,
        now: int,
    ) -> SessionView {
        SessionView {
            run: self.pass_opened(s.run, cache, now),
            pass: capped(s.pass + 1),
            in_pass: true,
            waiting: grouped(self.pass_plan(s.run, cache, now).fetch),
            ..s
        }
    }

    /// What comes next between passes.
    pub open spec fn turns(
        self,
        s: SessionView,
        cache: Map<Seq<char>, RecordView>,
        now: int,
        t: SessionView,
        action: Action,
    ) -> bool {
        if s.in_pass {
            &&& t == SessionView { in_pass: false, ..s }
            &&& action matches Action::Closed { pass, discovered } && pass == s.pass
                && discovered == s.run.worklist.len()
        } else if s.run.worklist.len() > 0 {
            let plan = self.pass_plan(s.run, cache, now);
            &&& t == self.planned(s, cache, now)
            &&& action matches Action::Planned { pass, cached, to_fetch } && pass == t.pass
                && cached == plan.cached && to_fetch == plan.fetch.len()
        } else {
            &&& t == s
            &&& action matches Action::Finished { considered, failed } && considered
                == s.run.seen.len() && failed == s.run.failures.len()
        }
    }

    /// What comes next of a retrieval that stands at `s`, at the time `now`: it stands at
    /// `t` then, the cache and what the files hold of it are what they are afterwards, and
    /// the host is told the action.
    pub open spec fn steps(
        self,
        s: SessionView,
        cache: Map<Seq<char>, RecordView>,
        filed: Set<Seq<char>>,
        now: int,
        t: SessionView,
        cache_after: Map<Seq<char>, RecordView>,
        filed_then: Set<Seq<char>>,
        action: Action,
    ) -> bool {
        if s.asking is Some {
            goes_on(s, s.asking->Some_0, now, t, action) && cache_after == cache && filed_then == filed
        } else if s.waiting.len() > 0 {
            self.begins(s, t, action) && cache_after == cache && filed_then == filed
        } else if s.answered.len() > 0 {
            self.settles(s, cache, filed, now, t, cache_after, filed_then, action)
        } else {
            self.turns(s, cache, now, t, action) && cache_after == cache && filed_then == filed
        }
    }
}

impl Session {
    /// A retrieval of the requested citations that has not begun.
    pub fn new(cites: &[(String, String)]) -> (r: Self)
        ensures
            r@ == (SessionView {
                run: RunView {
                    worklist: requested_items(cites@),
                    seen: Map::empty(),
                    failures: Seq::empty(),
                },
                pass: 0,
                in_pass: false,
                waiting: Seq::empty(),
                asking: None,
                answered: Seq::empty(),
                last: Map::empty(),
            }),
    {
        let r = Session {
            run: Retrieval::new(cites),
            pass: 0,
            in_pass: false,
            waiting: Vec::new(),
            asking: None,
            answered: Vec::new(),
            last: TextMap::new(),
        };
        proof {
            assert(r@.waiting =~= Seq::empty());
            assert(r@.answered =~= Seq::empty());
            assert(r@.last =~= Map::empty());
        }
        r
    }

    /// What is reported so far.
    pub fn report(&self) -> (r: &RetrieveReport)
        ensures
            crate::retrieval::failure_views(r.failures@) == self@.run.failures,
    {
        &self.run.report
    }

    /// What is reported in the end.
    pub fn into_report(self) -> (r: RetrieveReport)
        ensures
            crate::retrieval::failure_views(r.failures@) == self@.run.failures,
    {
        self.run.report
    }

    /// What the retrieval comes to, once the cache was flushed. A write to the cache that
    /// failed ends a retrieval, and what was written before is flushed all the same; what
    /// was reported so far is lost with it.
    pub fn conclude(self, written: Result<(), StoreError>, flushed: Result<(), StoreError>) -> (r:
        Result<RetrieveReport, Error>)
        ensures
            match r {
                Ok(report) => written is Ok && flushed is Ok && crate::retrieval::failure_views(
                    report.failures@,
                ) == self@.run.failures,
                Err(e) => match (written, flushed) {
                    (Err(w), _) => e == Error::Store(w),
                    (_, Err(f)) => e == Error::Store(f),
                    _ => false,
                },
            },
    {
        match (written, flushed) {
            (Err(e), _) => Err(Error::Store(e)),
            (_, Err(e)) => Err(Error::Store(e)),
            _ => Ok(self.run.report),
        }
    }

    /// Goes on with the source that is being asked, which was taken out.
    fn go_on(&mut self, asking: Asking, now: Timestamp) -> (r: Action)
        requires
            old(self)@.asking is None,
        ensures
            goes_on(
                (SessionView { asking: Some(asking@), ..old(self)@ }),
                asking@,
                now.0 as int,
                final(self)@,
                r,
            ),
    {
        let ghost s = SessionView { asking: Some(asking@), ..self@ };
        let ghost a = asking@;
        let ghost before = self.answered@;
        let ghost marks = self.last@;
        let mut asking = asking;
        if asking.left.len() == 0 {
            let prefix = asking.prefix.clone();
            let done: usize = asking.done;
            self.answered.push(
                Answered {
                    prefix: asking.prefix,
                    keys: asking.keys,
                    ttl: asking.ttl,
                    got: asking.got,
                },
            );
            proof {
                assert(self@.answered =~= ended(s, a).answered);
            }
            return Action::Ended { prefix, done };
        }
        let prefix = asking.prefix.clone();
        let earlier: Option<Timestamp> = match self.last.get(prefix.as_str()) {
            Some(t) => Some(*t),
            None => None,
        };
        let pause = if asking.paced {
            None
        } else {
            pacing_wait(earlier, now, asking.interval)
        };
        match pause {
            Some(length) => {
                asking.paced = true;
                self.asking = Some(asking);
                Action::Wait { prefix, length }
            },
            None => {
                let ghost rest = asking.left@;
                let keys = asking.left.remove(0);
                asking.done = count_up(asking.done, keys.len());
                asking.paced = false;
                proof {
                    assert(text_lists(asking.left@) =~= text_lists(rest).skip(1));
                    assert(texts(keys@) == a.left[0]);
                }
                self.asking = Some(asking);
                self.last.insert(prefix.clone(), now);
                proof {
                    assert(times(self.last@) =~= times(marks).insert(prefix@, now.0 as int));
                }
                Action::Ask { prefix, keys }
            },
        }
    }

    /// Begins to ask the first of the waiting sources.
    fn begin<S: Source>(&mut self, manager: &CitationManager<S>) -> (r: Action)
        requires
            old(self)@.asking is None,
            old(self)@.waiting.len() > 0,
        ensures
            manager.begins(old(self)@, final(self)@, r),
    {
        let ghost s = self@;
        let ghost before = self.waiting@;
        let bucket = self.waiting.remove(0);
        proof {
            assert(bucket_views(self.waiting@) =~= s.waiting.skip(1));
            assert(bucket@ == s.waiting[0]);
        }
        let (left, interval, ttl) = match manager.source(bucket.prefix.as_str()) {
            Some(source) => {
                let size: usize = source.chunk_size();
                let left = chunked(&bucket.keys, size);
                assert(text_lists(left@) == chunks(texts(bucket.keys@), chunk_limit(size)));
                (left, source.min_interval(), source.default_ttl())
            },
            None => (Vec::new(), Duration::from_millis(0), Duration::from_millis(0)),
        };
        let prefix = bucket.prefix.clone();
        let total: usize = bucket.keys.len();
        let chunks: usize = left.len();
        self.asking = Some(
            Asking {
                prefix: bucket.prefix,
                keys: bucket.keys,
                left,
                done: 0,
                paced: false,
                interval,
                ttl,
                got: Vec::new(),
            },
        );
        proof {
            assert(self@.asking->Some_0.got =~= Seq::empty());
        }
        Action::Began { prefix, total, chunks }
    }

    /// Settles the first of the answers.
    fn settle<S: Source>(
        &mut self,
        manager: &CitationManager<S>,
        store: &mut FileCacheStore,
        now: Timestamp,
    ) -> (r: Action)
        requires
            old(self)@.answered.len() > 0,
        ensures
            manager.settles(
                old(self)@,
                old(store).cached(),
                old(store).filed(),
                now.0 as int,
                final(self)@,
                final(store).cached(),
                final(store).filed(),
                r,
            ),
            final(store).same_files(*old(store)),
    {
        let ghost s = self@;
        let answer = self.answered.remove(0);
        proof {
            assert(answered_views(self.answered@) =~= s.answered.skip(1));
            assert(answer@ == s.answered[0]);
        }
        let verdicts = manager.settle(
            answer.prefix.as_str(),
            &answer.keys,
            &answer.got,
            &self.run.seen,
            answer.ttl,
            now,
        );
        let ghost v = verdicts@;
        let notes = manager.commit_all(&mut self.run, store, verdicts, now);
        proof {
            assert(notes_tell(
                old(store).cached(),
                old(store).filed(),
                s.run,
                v,
                manager.ttl_policy().grace,
                now.0 as int,
                notes@,
            ));
            assert(tells(
                old(store).cached(),
                old(store).filed(),
                s.run,
                verdict_views(v),
                manager.ttl_policy().grace,
                now.0 as int,
                notes@,
            ));
        }
        Action::Settled { notes }
    }

    /// What the host has to do next, at the time `now`.
    pub fn next<S: Source>(
        &mut self,
        manager: &CitationManager<S>,
        store: &mut FileCacheStore,
        now: Timestamp,
    ) -> (r: Action)
        ensures
            manager.steps(
                old(self)@,
                old(store).cached(),
                old(store).filed(),
                now.0 as int,
                final(self)@,
                final(store).cached(),
                final(store).filed(),
                r,
            ),
            final(store).same_files(*old(store)),
    {
        let ghost s = self@;
        if let Some(asking) = self.asking.take() {
            return self.go_on(asking, now);
        }
        if self.waiting.len() > 0 {
            return self.begin(manager);
        }
        if self.answered.len() > 0 {
            return self.settle(manager, store, now);
        }
        if self.in_pass {
            self.in_pass = false;
            return Action::Closed { pass: self.pass, discovered: self.run.worklist.len() };
        }
        match manager.open_pass(&mut self.run, store, now) {
            Some(start) => {
                self.pass = count_up(self.pass, 1);
                self.in_pass = true;
                self.waiting = start.buckets;
                Action::Planned { pass: self.pass, cached: start.cached, to_fetch: start.to_fetch }
            },
            None => {
                let considered: usize = self.run.seen.len();
                proof {
                    assert(s.run.seen.dom() =~= self.run.seen@.dom());
                }
                Action::Finished { considered, failed: self.run.report.failures.len() }
            },
        }
    }

    /// Takes the answer of the source that was asked.
    pub fn answer(&mut self, resolutions: Vec<Resolution>)
        ensures
            final(self)@ == heard(old(self)@, resolution_views(resolutions@)),
    {
        let ghost s = self@;
        let ghost more = resolution_views(resolutions@);
        if let Some(asking) = self.asking.take() {
            let mut asking = asking;
            let mut resolutions = resolutions;
            let ghost before = asking.got@;
            asking.got.append(&mut resolutions);
            proof {
                assert(resolution_views(asking.got@) =~= resolution_views(before) + more);
            }
            self.asking = Some(asking);
        }
    }
}

/// Where the retrieval stands once the source that is being asked has answered.
pub open spec fn heard(s: SessionView, more: Seq<ResolutionView>) -> SessionView {
    match s.asking {
        Some(a) => SessionView { asking: Some(AskingView { got: a.got + more, ..a }), ..s },
        None => s,
    }
}

/// Whether a citation was resolved into a pointer to this one.
pub open spec fn points_to(how: Resolved<'_>, prefix: Seq<char>, key: Seq<char>) -> bool {
    how matches Resolved::Chained { prefix: p, key: k } && p@ == prefix && k@ == key
}

impl Note {
    /// What came of the key, as an event.
    pub fn event(&self) -> (r: Event<'_>)
        ensures
            match self.outcome {
                Noted::Item => r matches Event::CiteResolved { prefix, key, how } && prefix@
                    == self.prefix@ && key@ == self.key@ && how is Concrete,
                Noted::Pointer { prefix: p, key: k } => r matches Event::CiteResolved {
                    prefix,
                    key,
                    how,
                } && prefix@ == self.prefix@ && key@ == self.key@ && points_to(how, p@, k@),
                Noted::Failure { error, grace_served: g } => r matches Event::CiteFailed {
                    prefix,
                    key,
                    err,
                    grace_served,
                } && prefix@ == self.prefix@ && key@ == self.key@ && err@ == error@ && grace_served
                    == g,
            },
    {
        let prefix = self.prefix.as_str();
        let key = self.key.as_str();
        match &self.outcome {
            Noted::Item => Event::CiteResolved { prefix, key, how: Resolved::Concrete },
            Noted::Pointer { prefix: p, key: k } => Event::CiteResolved {
                prefix,
                key,
                how: Resolved::Chained { prefix: p.as_str(), key: k.as_str() },
            },
            Noted::Failure { error, grace_served } => Event::CiteFailed {
                prefix,
                key,
                err: error,
                grace_served: *grace_served,
            },
        }
    }
}

/// Whether an event announces an action. Notes have events of their own, and an answer is
/// announced by the progress that it makes.
pub open spec fn announces(ev: Option<Event<'_>>, action: Action) -> bool {
    match action {
        Action::Planned { pass, cached, to_fetch } => ev matches Some(
            Event::PassStarted { pass: p, cached: c, to_fetch: f },
        ) && p == pass && c == cached && f == to_fetch,
        Action::Began { prefix, total, chunks } => ev matches Some(
            Event::SourceStarted { prefix: p, keys, chunks: c },
        ) && p@ == prefix@ && keys == total && c == chunks,
        Action::Wait { prefix, length } => ev matches Some(
            Event::WaitStarted { what: Wait::RateLimit { prefix: p }, expected: Some(d) },
        ) && p@ == prefix@ && d == length,
        Action::Ask { .. } => ev is None,
        Action::Ended { prefix, done } => ev matches Some(
            Event::SourceFinished { prefix: p, done: d },
        ) && p@ == prefix@ && d == done,
        Action::Settled { .. } => ev is None,
        Action::Closed { pass, discovered } => ev matches Some(
            Event::PassFinished { pass: p, discovered: d },
        ) && p == pass && d == discovered,
        Action::Finished { considered, failed } => ev matches Some(
            Event::RetrieveFinished { considered: c, failed: f },
        ) && c == considered && f == failed,
    }
}

impl Action {
    /// The event that announces the action.
    pub fn event(&self) -> (r: Option<Event<'_>>)
        ensures
            announces(r, *self),
    {
        match self {
            Action::Planned { pass, cached, to_fetch } => Some(
                Event::PassStarted { pass: *pass, cached: *cached, to_fetch: *to_fetch },
            ),
            Action::Began { prefix, total, chunks } => Some(
                Event::SourceStarted { prefix: prefix.as_str(), keys: *total, chunks: *chunks },
            ),
            Action::Wait { prefix, length } => Some(
                Event::WaitStarted {
                    what: Wait::RateLimit { prefix: prefix.as_str() },
                    expected: Some(*length),
                },
            ),
            Action::Ask { .. } => None,
            Action::Ended { prefix, done } => Some(
                Event::SourceFinished { prefix: prefix.as_str(), done: *done },
            ),
            Action::Settled { .. } => None,
            Action::Closed { pass, discovered } => Some(
                Event::PassFinished { pass: *pass, discovered: *discovered },
            ),
            Action::Finished { considered, failed } => Some(
                Event::RetrieveFinished { considered: *considered, failed: *failed },
            ),
        }
    }
}

impl Session {
    /// How far the source that is being asked has come, as an event.
    pub fn progress(&self) -> (r: Option<Event<'_>>)
        ensures
            match self@.asking {
                Some(a) => r matches Some(Event::SourceProgress { prefix, done, total }) && prefix@
                    == a.prefix && done == a.done && total == a.keys.len(),
                None => r is None,
            },
    {
        match &self.asking {
            Some(a) => Some(
                Event::SourceProgress {
                    prefix: a.prefix.as_str(),
                    done: a.done,
                    total: a.keys.len(),
                },
            ),
            None => None,
        }
    }
}

/// Nothing is settled before every source of the pass has answered, and a pass is over
/// only when all answers are settled.
pub proof fn law_answers_come_before_settling<S: Source>(
    manager: CitationManager<S>,
    s: SessionView,
    cache: Map<Seq<char>, RecordView>,
    filed: Set<Seq<char>>,
    now: int,
    t: SessionView,
    cache_after: Map<Seq<char>, RecordView>,
    filed_then: Set<Seq<char>>,
    action: Action,
)
    requires
        manager.steps(s, cache, filed, now, t, cache_after, filed_then, action),
    ensures
        action is Settled ==> s.asking is None && s.waiting.len() == 0,
        !(action is Settled) ==> cache_after == cache && filed_then == filed && t.run.failures.len() >= s.run.failures.len(),
        action is Closed ==> s.asking is None && s.waiting.len() == 0 && s.answered.len() == 0,
        action is Finished ==> s.run.worklist.len() == 0 && t == s,
{
}

/// Whether what a source was asked for and what it is still to be asked for are all its
/// keys, in order.
pub open spec fn covers(a: AskingView) -> bool {
    &&& a.keys.len() <= usize::MAX
    &&& a.done <= a.keys.len()
    &&& joined_chunks(a.left) == a.keys.skip(a.done as int)
}

/// A source is asked for each of its keys, once and in order: when it begins, all are to
/// be asked for; each request takes the next ones; and it ends when none are left.
pub proof fn law_every_key_is_asked_for<S: Source>(
    manager: CitationManager<S>,
    s: SessionView,
    now: int,
    t: SessionView,
    action: Action,
)
    ensures
        s.waiting.len() > 0 && s.waiting[0].1.len() <= usize::MAX && manager.bound().contains_key(
            s.waiting[0].0,
        ) && manager.begins(s, t, action) ==> covers(t.asking->Some_0),
        forall|a: AskingView|
            covers(a) && #[trigger] goes_on(s, a, now, t, action) ==> match action {
                Action::Ask { keys, .. } => {
                    &&& t.asking is Some && covers(t.asking->Some_0)
                    &&& t.asking->Some_0.done == a.done + keys@.len()
                    &&& texts(keys@) == a.keys.subrange(a.done as int, (a.done + keys@.len()) as int)
                },
                Action::Wait { .. } => t.asking is Some && covers(t.asking->Some_0),
                Action::Ended { done, .. } => done == a.keys.len(),
                _ => false,
            },
{
    if s.waiting.len() > 0 && manager.bound().contains_key(s.waiting[0].0) && manager.begins(
        s,
        t,
        action,
    ) {
        let a = t.asking->Some_0;
        let size = choose|size: usize| a.left == chunks(a.keys, #[trigger] chunk_limit(size));
        law_chunks_partition(a.keys, chunk_limit(size));
        assert(a.keys.skip(0) =~= a.keys);
    }
    assert forall|a: AskingView|
        covers(a) && #[trigger] goes_on(s, a, now, t, action) implies match action {
        Action::Ask { keys, .. } => {
            &&& t.asking is Some && covers(t.asking->Some_0)
            &&& t.asking->Some_0.done == a.done + keys@.len()
            &&& texts(keys@) == a.keys.subrange(a.done as int, (a.done + keys@.len()) as int)
        },
        Action::Wait { .. } => t.asking is Some && covers(t.asking->Some_0),
        Action::Ended { done, .. } => done == a.keys.len(),
        _ => false,
    } by {
        let rest = a.keys.skip(a.done as int);
        if a.left.len() == 0 {
            assert(rest.len() == 0);
        } else if pause_of(a, s.last, now) == 0 {
            let piece = a.left[0];
            let n = piece.len();
            assert(rest == piece + joined_chunks(a.left.skip(1)));
            assert(n <= rest.len());
            let tail = joined_chunks(a.left.skip(1));
            assert(rest.skip(n as int) =~= tail);
            assert(rest.skip(n as int) =~= a.keys.skip((a.done + n) as int));
            assert(piece =~= a.keys.subrange(a.done as int, (a.done + n) as int)) by {
                assert(piece =~= rest.take(n as int));
            }
            if let Action::Ask { keys, .. } = action {
                assert(texts(keys@).len() == keys@.len());
            }
        }
    }
}

/// Requests to a source start at least its interval apart, in one pass and across passes:
/// one starts at once only if the one before it started long enough ago; otherwise the
/// host is told to wait, and if it waits that long, the request starts late enough.
pub proof fn law_requests_keep_the_interval(
    s: SessionView,
    a: AskingView,
    now: int,
    t: SessionView,
    action: Action,
    later: int,
    u: SessionView,
    next: Action,
)
    requires
        !a.paced,
        goes_on(s, a, now, t, action),
        s.last.contains_key(a.prefix),
        i64::MIN <= s.last[a.prefix] <= now <= i64::MAX,
        now - s.last[a.prefix] <= i64::MAX,
    ensures
        action is Ask ==> t.last[a.prefix] == now && now * 1_000_000 >= s.last[a.prefix]
            * 1_000_000 + duration_nanos(a.interval),
        action matches Action::Wait { length, .. } ==> (goes_on(t, t.asking->Some_0, later, u, next)
            && later * 1_000_000 >= now * 1_000_000 + duration_nanos(length) ==> next is Ask
            && u.last[a.prefix] == later && later * 1_000_000 >= s.last[a.prefix] * 1_000_000
            + duration_nanos(a.interval)),
{
    law_pauses_keep_the_interval(s.last[a.prefix], now, duration_nanos(a.interval));
}

/// Whether how the keys were come upon is remembered, each at least `depth` pointers away
/// from a request.
pub open spec fn keys_known(
    run: RunView,
    prefix: Seq<char>,
    keys: Seq<Seq<char>>,
    depth: nat,
) -> bool {
    forall|k: Seq<char>| #[trigger]
        keys.contains(k) ==> depth <= as_seen(run.seen, prefix, k).depth < usize::MAX
}

/// Whether a retrieval is on its course: what is left for the next pass is as many
/// pointers away from a request as passes were planned, and what this pass asks for is at
/// most one closer.
pub open spec fn on_course(s: SessionView) -> bool {
    &&& at_least_deep(s.run.worklist, s.pass)
    &&& s.in_pass ==> s.pass > 0
    &&& !s.in_pass ==> s.waiting.len() == 0 && s.asking is None && s.answered.len() == 0
    &&& s.in_pass ==> forall|i: int|
        0 <= i < s.waiting.len() ==> keys_known(
            s.run,
            (#[trigger] s.waiting[i]).0,
            s.waiting[i].1,
            (s.pass - 1) as nat,
        )
    &&& s.in_pass && s.asking is Some ==> keys_known(
        s.run,
        s.asking->Some_0.prefix,
        s.asking->Some_0.keys,
        (s.pass - 1) as nat,
    )
    &&& s.in_pass ==> forall|i: int|
        0 <= i < s.answered.len() ==> keys_known(
            s.run,
            (#[trigger] s.answered[i]).prefix,
            s.answered[i].keys,
            (s.pass - 1) as nat,
        )
}

/// Carrying verdicts out does not change what was come upon.
pub proof fn lemma_seen_stays(
    cache: Map<Seq<char>, RecordView>,
    run: RunView,
    verdicts: Seq<VerdictView>,
    grace: Duration,
    now: int,
)
    ensures
        committed_all(cache, run, verdicts, grace, now).1.seen == run.seen,
    decreases verdicts.len(),
{
    if verdicts.len() > 0 {
        lemma_seen_stays(cache, run, verdicts.drop_last(), grace, now);
    }
}

/// A retrieval ends, however its sources chain: it stays on its course from its start
/// through every step and every answer, and once more passes were planned than a citation
/// may be pointers away, the next pass fetches nothing and leaves nothing for another.
pub proof fn law_a_retrieval_ends<S: Source>(
    manager: CitationManager<S>,
    s: SessionView,
    cache: Map<Seq<char>, RecordView>,
    filed: Set<Seq<char>>,
    now: int,
    t: SessionView,
    cache_after: Map<Seq<char>, RecordView>,
    filed_then: Set<Seq<char>>,
    action: Action,
)
    requires
        on_course(s),
        s.pass < usize::MAX,
        manager.depth_limit() <= usize::MAX,
        manager.steps(s, cache, filed, now, t, cache_after, filed_then, action),
    ensures
        on_course(t),
        action is Planned ==> t.pass == s.pass + 1,
        !(action is Planned) ==> t.pass == s.pass,
        action is Planned && s.pass >= manager.depth_limit() ==> t.waiting.len() == 0
            && t.run.worklist.len() == 0,
{
    if s.asking is Some {
        let a = s.asking->Some_0;
        if a.left.len() == 0 {
            assert forall|i: int| 0 <= i < t.answered.len() implies keys_known(
                t.run,
                (#[trigger] t.answered[i]).prefix,
                t.answered[i].keys,
                (t.pass - 1) as nat,
            ) by {
                if i < s.answered.len() {
                    assert(t.answered[i] == s.answered[i]);
                }
            }
        }
    } else if s.waiting.len() > 0 {
        assert(keys_known(s.run, s.waiting[0].0, s.waiting[0].1, (s.pass - 1) as nat));
        assert forall|i: int| 0 <= i < t.waiting.len() implies keys_known(
            t.run,
            (#[trigger] t.waiting[i]).0,
            t.waiting[i].1,
            (t.pass - 1) as nat,
        ) by {
            assert(t.waiting[i] == s.waiting[i + 1]);
        }
    } else if s.answered.len() > 0 {
        let a = s.answered[0];
        let verdicts = manager.settled(a.prefix, a.keys, a.got, s.run.seen, a.ttl, now);
        lemma_seen_stays(cache, s.run, verdicts, manager.ttl_policy().grace, now);
        assert(keys_known(s.run, a.prefix, a.keys, (s.pass - 1) as nat));
        law_answers_deepen(
            manager,
            cache,
            s.run,
            a.prefix,
            a.keys,
            a.got,
            a.ttl,
            now,
            (s.pass - 1) as nat,
        );
        assert forall|i: int| 0 <= i < t.answered.len() implies keys_known(
            t.run,
            (#[trigger] t.answered[i]).prefix,
            t.answered[i].keys,
            (t.pass - 1) as nat,
        ) by {
            assert(t.answered[i] == s.answered[i + 1]);
            assert(keys_known(
                s.run,
                s.answered[i + 1].prefix,
                s.answered[i + 1].keys,
                (s.pass - 1) as nat,
            ));
        }
    } else if !s.in_pass && s.run.worklist.len() > 0 {
        law_passes_deepen(manager, s.run, cache, now, s.pass);
        law_fetched_keys_are_known(manager, s.run, cache, now, s.pass);
        let buckets = grouped(manager.pass_plan(s.run, cache, now).fetch);
        assert forall|i: int| 0 <= i < t.waiting.len() implies keys_known(
            t.run,
            (#[trigger] t.waiting[i]).0,
            t.waiting[i].1,
            (t.pass - 1) as nat,
        ) by {
            assert(t.waiting[i] == buckets[i]);
        }
    }
}

/// A retrieval starts on its course, and an answer does not take it off.
pub proof fn law_a_retrieval_is_on_its_course(
    cites: Seq<(String, String)>,
    s: SessionView,
    more: Seq<ResolutionView>,
)
    ensures
        on_course(
            SessionView {
                run: RunView {
                    worklist: requested_items(cites),
                    seen: Map::empty(),
                    failures: Seq::empty(),
                },
                pass: 0,
                in_pass: false,
                waiting: Seq::empty(),
                asking: None,
                answered: Seq::empty(),
                last: Map::empty(),
            },
        ),
        on_course(s) ==> on_course(heard(s, more)),
{
}

/// How much is left to do in a pass: sources to begin with, requests and pauses of the one
/// that is being asked, and answers to settle.
pub open spec fn left_to_do(s: SessionView) -> (nat, nat, nat, nat) {
    (
        s.waiting.len(),
        match s.asking {
            Some(a) => 1 + 2 * a.left.len() + (if a.paced {
                0nat
            } else {
                1nat
            }),
            None => 0,
        },
        s.answered.len(),
        if s.in_pass {
            1
        } else {
            0
        },
    )
}

/// Within a pass every step uses something up: the retrieval comes to the end of each
/// pass in finitely many steps.
pub proof fn law_a_pass_ends<S: Source>(
    manager: CitationManager<S>,
    s: SessionView,
    cache: Map<Seq<char>, RecordView>,
    filed: Set<Seq<char>>,
    now: int,
    t: SessionView,
    cache_after: Map<Seq<char>, RecordView>,
    filed_then: Set<Seq<char>>,
    action: Action,
)
    requires
        manager.steps(s, cache, filed, now, t, cache_after, filed_then, action),
        !(action is Planned),
        !(action is Finished),
    ensures
        ({
            let a = left_to_do(s);
            let b = left_to_do(t);
            ||| b.0 < a.0
            ||| b.0 == a.0 && b.1 < a.1
            ||| b.0 == a.0 && b.1 == a.1 && b.2 < a.2
            ||| b.0 == a.0 && b.1 == a.1 && b.2 == a.2 && b.3 < a.3
        }),
{
}

} // verus!
