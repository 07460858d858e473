//! Progress: the events of a retrieval, and who is told of them.
//!
//! Events are *samples* or *milestones*. A sample is a periodic reading that may be
//! dropped; a milestone must be delivered. Dropping is safe because every event that
//! ends something carries final counts. Events name their subject, since the work on
//! several sources may overlap.

use crate::env::{clamp, duration_millis, millis_i64, sub_clamped, Clock, Timestamp};
use crate::error::Error;
use crate::fetch::FetchError;
use crate::index::TextMap;
use core::time::Duration;
use vstd::prelude::*;
use vstd::string::*;

verus! {

/// Whom the host wants to be told of progress. A report is handled at once and
/// influences nothing.
pub trait Reporter: Sized {
    /// Whether the reporter may be `after` once it was told of the event.
    open spec fn takes(&self, ev: Event<'_>, after: &Self) -> bool {
        true
    }

    /// Handles an event.
    fn report(&mut self, ev: &Event<'_>)
        ensures
            old(self).takes(*ev, final(self)),
    ;
}

/// A reporter that discards everything.
#[derive(Clone, Copy, Debug)]
pub struct NopReporter;

impl Reporter for NopReporter {
    open spec fn takes(&self, ev: Event<'_>, after: &Self) -> bool {
        *after == *self
    }

    fn report(&mut self, _ev: &Event<'_>) {
    }
}

/// How a citation was resolved.
#[derive(Clone, Copy, Debug)]
#[non_exhaustive]
pub enum Resolved<'a> {
    /// An item was stored.
    Concrete,
    /// A pointer was stored; its target is fetched in a later pass.
    Chained { prefix: &'a str, key: &'a str },
}

/// What a retrieval waits for.
#[derive(Clone, Copy, Debug)]
#[non_exhaustive]
pub enum Wait<'a> {
    /// The interval between the requests to a source.
    RateLimit { prefix: &'a str },
    /// A pause before a failed request is sent again. `attempt` counts from zero and
    /// is that of the request that failed.
    Backoff { url: &'a str, attempt: u32 },
    /// The compaction of the cache.
    CacheFlush,
}

/// Something that a retrieval did or is about to do.
#[derive(Debug)]
#[non_exhaustive]
pub enum Event<'a> {
    /// A retrieval began. Targets of pointers are not counted: they are not known yet.
    RetrieveStarted { cites: usize },
    /// A pass is planned: so many citations are served from the cache, and so many are
    /// to be fetched. Passes count from one.
    PassStarted { pass: usize, cached: usize, to_fetch: usize },
    /// A pass ended, with so many citations left for the next one.
    PassFinished { pass: usize, discovered: usize },
    /// The retrieval ended. Every id that was come upon counts as considered.
    RetrieveFinished { considered: usize, failed: usize },
    /// A source is about to be asked for keys.
    SourceStarted { prefix: &'a str, keys: usize, chunks: usize },
    /// So many of the keys have been handed to the source. The only sample.
    SourceProgress { prefix: &'a str, done: usize, total: usize },
    /// A source is done in this pass.
    SourceFinished { prefix: &'a str, done: usize },
    /// A citation was resolved and stored.
    CiteResolved { prefix: &'a str, key: &'a str, how: Resolved<'a> },
    /// A citation was not resolved. Where a record within its grace is served, the
    /// failure is not reported otherwise.
    CiteFailed { prefix: &'a str, key: &'a str, err: &'a Error, grace_served: bool },
    /// A wait begins, with its length if that is known.
    WaitStarted { what: Wait<'a>, expected: Option<Duration> },
    /// A wait ended.
    WaitFinished { what: Wait<'a> },
    /// A request is sent. `attempt` counts from zero.
    RequestStarted { url: &'a str, attempt: u32 },
    /// A request was answered with a status, or failed.
    RequestFinished { url: &'a str, result: Result<u16, &'a FetchError> },
}

/// The subject of a sample; of a milestone, none.
pub open spec fn subject(ev: Event<'_>) -> Option<Seq<char>> {
    match ev {
        Event::SourceProgress { prefix, .. } => Some(prefix@),
        _ => None,
    }
}

impl<'a> Event<'a> {
    /// The subject of a sample, by which it is throttled; none for a milestone.
    pub fn sample_key(&self) -> (r: Option<&str>)
        ensures
            match r {
                Some(p) => subject(*self) == Some(p@),
                None => subject(*self) is None,
            },
    {
        match self {
            Event::SourceProgress { prefix, .. } => Some(prefix),
            _ => None,
        }
    }

    /// Whether the event may be dropped.
    pub fn is_sample(&self) -> (r: bool)
        ensures
            r == (subject(*self) is Some),
    {
        self.sample_key().is_some()
    }
}

/// Whether a sample is due at `now`, where the last one of its subject was delivered
/// at `last`.
pub open spec fn is_due(last: Option<int>, now: int, min_gap: nat) -> bool {
    match last {
        Some(t) => clamp(now - t) >= clamp(min_gap as int),
        None => true,
    }
}

/// When samples were last delivered, in milliseconds.
pub open spec fn times(m: Map<Seq<char>, Timestamp>) -> Map<Seq<char>, int> {
    m.map_values(|t: Timestamp| t.0 as int)
}

/// When a sample of a subject was last delivered, if one was.
pub open spec fn time_of(last: Map<Seq<char>, int>, p: Seq<char>) -> Option<int> {
    if last.contains_key(p) {
        Some(last[p])
    } else {
        None
    }
}

/// Whether an event is delivered.
pub open spec fn delivered(
    last: Map<Seq<char>, int>,
    ev: Event<'_>,
    now: int,
    min_gap: nat,
) -> bool {
    match subject(ev) {
        Some(p) => is_due(time_of(last, p), now, min_gap),
        None => true,
    }
}

/// When samples were last delivered, after an event.
pub open spec fn noted(
    last: Map<Seq<char>, int>,
    ev: Event<'_>,
    now: int,
    min_gap: nat,
) -> Map<Seq<char>, int> {
    match subject(ev) {
        Some(p) => if delivered(last, ev, now, min_gap) {
            last.insert(p, now)
        } else {
            last
        },
        None => last,
    }
}

/// Lets at most one sample per subject pass in a gap of time, and every milestone.
pub struct Throttle {
    min_gap: Duration,
    last: TextMap<Timestamp>,
}

impl Throttle {
    /// The least time between samples of one subject, in milliseconds.
    pub closed spec fn gap(self) -> nat {
        duration_millis(self.min_gap)
    }

    /// When a sample of each subject was last let pass.
    pub closed spec fn last(self) -> Map<Seq<char>, int> {
        times(self.last@)
    }

    /// A throttle that has let nothing pass yet.
    pub fn new(min_gap: Duration) -> (r: Self)
        ensures
            r.gap() == duration_millis(min_gap),
            r.last() == Map::<Seq<char>, int>::empty(),
    {
        let r = Throttle { min_gap, last: TextMap::new() };
        assert(r.last() =~= Map::<Seq<char>, int>::empty());
        r
    }

    /// Says whether an event is delivered at `now`, and remembers it.
    pub fn passes(&mut self, ev: &Event<'_>, now: Timestamp) -> (r: bool)
        ensures
            r == delivered(old(self).last(), *ev, now.0 as int, old(self).gap()),
            final(self).last() == noted(old(self).last(), *ev, now.0 as int, old(self).gap()),
            final(self).gap() == old(self).gap(),
    {
        let key = match ev.sample_key() {
            Some(key) => key,
            None => {
                return true;
            },
        };
        let due = match self.last.get(key) {
            Some(prev) => {
                let elapsed: i64 = sub_clamped(now.0, prev.0);
                let gap: i64 = millis_i64(self.min_gap);
                elapsed >= gap
            },
            None => true,
        };
        if due {
            let ghost before = self.last@;
            self.last.insert(key.to_owned(), now);
            assert(times(self.last@) =~= times(before).insert(key@, now.0 as int));
        }
        due
    }
}

/// A reporter whose samples are throttled.
pub struct ThrottledReporter<R: Reporter, C: Clock> {
    inner: R,
    clock: C,
    throttle: Throttle,
}

impl<R: Reporter, C: Clock> ThrottledReporter<R, C> {
    /// The reporter that events are passed on to.
    pub closed spec fn target(self) -> R {
        self.inner
    }

    /// The clock that is read for samples.
    pub closed spec fn source_of_time(self) -> C {
        self.clock
    }

    /// What is let pass.
    pub closed spec fn gate(self) -> Throttle {
        self.throttle
    }

    /// A reporter that passes on at most one sample per subject in `min_gap`.
    pub fn new(inner: R, clock: C, min_gap: Duration) -> (r: Self)
        ensures
            r.target() == inner,
            r.source_of_time() == clock,
            r.gate().gap() == duration_millis(min_gap),
            r.gate().last() == Map::<Seq<char>, int>::empty(),
    {
        ThrottledReporter { inner, clock, throttle: Throttle::new(min_gap) }
    }

    /// The reporter that events are passed on to.
    pub fn inner(&self) -> (r: &R)
        ensures
            *r == self.target(),
    {
        &self.inner
    }

    /// The clock that is read for samples.
    pub fn clock(&self) -> (r: &C)
        ensures
            *r == self.source_of_time(),
    {
        &self.clock
    }

    /// What becomes of an event, where `after` is the reporter afterwards: a sample is
    /// judged at the time that the clock gives; what is delivered is passed on, and what is
    /// not leaves the target as it was; and when it was delivered is noted.
    pub open spec fn handles(self, ev: Event<'_>, now: Timestamp, after: Self) -> bool {
        let passes = delivered(self.gate().last(), ev, now.0 as int, self.gate().gap());
        &&& subject(ev) is Some ==> call_ensures(C::now, (&self.source_of_time(),), now)
        &&& passes ==> self.target().takes(ev, &after.target())
        &&& !passes ==> after.target() == self.target()
        &&& after.gate().last() == noted(
            self.gate().last(),
            ev,
            now.0 as int,
            self.gate().gap(),
        )
        &&& after.gate().gap() == self.gate().gap()
        &&& after.source_of_time() == self.source_of_time()
    }
}

impl<R: Reporter, C: Clock> Reporter for ThrottledReporter<R, C> {
    open spec fn takes(&self, ev: Event<'_>, after: &Self) -> bool {
        exists|now: Timestamp| #[trigger] self.handles(ev, now, *after)
    }

    /// Passes an event on, unless it is a sample that is not due.
    fn report(&mut self, ev: &Event<'_>) {
        if ev.is_sample() {
            let now = self.clock.now();
            if self.throttle.passes(ev, now) {
                self.inner.report(ev);
            }
            assert(old(self).handles(*ev, now, *self));
        } else {
            self.inner.report(ev);
            assert(old(self).handles(*ev, Timestamp(0), *self));
        }
    }
}

/// Milestones are always delivered, and leave no trace in what is remembered.
pub proof fn law_milestones_pass(
    last: Map<Seq<char>, int>,
    ev: Event<'_>,
    now: int,
    min_gap: nat,
)
    requires
        subject(ev) is None,
    ensures
        delivered(last, ev, now, min_gap),
        noted(last, ev, now, min_gap) == last,
{
}

/// Once a sample of a subject was delivered, the next one of that subject is delivered
/// only when the gap has passed.
pub proof fn law_samples_keep_the_gap(
    last: Map<Seq<char>, int>,
    first: Event<'_>,
    t: int,
    second: Event<'_>,
    now: int,
    min_gap: nat,
)
    requires
        subject(first) is Some,
        subject(second) == subject(first),
        delivered(last, first, t, min_gap),
        i64::MIN <= now - t <= i64::MAX,
        min_gap <= i64::MAX,
    ensures
        delivered(noted(last, first, t, min_gap), second, now, min_gap) == (now - t >= min_gap),
{
}

/// One source cannot keep the samples of another from being delivered.
pub proof fn law_subjects_do_not_interfere(
    last: Map<Seq<char>, int>,
    first: Event<'_>,
    t: int,
    second: Event<'_>,
    now: int,
    min_gap: nat,
)
    requires
        subject(first) != subject(second),
    ensures
        delivered(noted(last, first, t, min_gap), second, now, min_gap) == delivered(
            last,
            second,
            now,
            min_gap,
        ),
{
}

} // verus!
