//! What becomes of the citations that a retrieval is for.

use crate::course::{at_first, is_taken, resumes, runs, Turn};
use crate::csl::id_of;
use crate::env::duration_millis;
use crate::laws::planning::{
    law_a_plan_deals_with_every_citation, law_buckets_hold_what_is_fetched,
};
use crate::laws::storing::{carried_out, law_verdicts_are_carried_out};
use crate::manager::{CitationManager, FailureView};
use crate::retrieval::{
    grouped, law_buckets_partition, law_candidates, law_nothing_is_passed_over, lemma_fetch_from,
    lemma_keys_distinct, lookups, refusal_failures, requested_items,
};
use crate::session::{heard, SessionView};
use crate::settle::{committed_all, decides, law_one_verdict_per_key};
use crate::source::{ResolutionView, Source};
use crate::store::RecordView;
use core::time::Duration;
use vstd::prelude::*;

verus! {

/// Whether one of the keys has the id.
pub open spec fn has_key(prefix: Seq<char>, keys: Seq<Seq<char>>, id: Seq<char>) -> bool {
    exists|k: Seq<char>| #[trigger] keys.contains(k) && id_of(prefix, k) == id
}

/// Whether a source is to be asked for an id, is being asked for it, or was asked for it and
/// what it answered is not settled.
pub open spec fn is_under_way(s: SessionView, id: Seq<char>) -> bool {
    ||| exists|i: int|
        0 <= i < s.waiting.len() && has_key((#[trigger] s.waiting[i]).0, s.waiting[i].1, id)
    ||| s.asking is Some && has_key(s.asking->Some_0.prefix, s.asking->Some_0.keys, id)
    ||| exists|i: int|
        0 <= i < s.answered.len() && has_key(
            (#[trigger] s.answered[i]).prefix,
            s.answered[i].keys,
            id,
        )
}

/// Whether a failure of an id is among the failures.
pub open spec fn is_reported(failures: Seq<FailureView>, id: Seq<char>) -> bool {
    exists|k: int|
        0 <= k < failures.len() && id_of((#[trigger] failures[k]).prefix, failures[k].key) == id
}

/// Whether an id is dealt with: it has a record, or its failure is reported.
pub open spec fn is_done(
    s: SessionView,
    cache: Map<Seq<char>, RecordView>,
    id: Seq<char>,
) -> bool {
    cache.contains_key(id) || is_reported(s.run.failures, id)
}

/// Whether the expiries in a cache are so that a grace can be put on top of them.
pub open spec fn is_within_time(cache: Map<Seq<char>, RecordView>, grace: Duration) -> bool {
    forall|id: Seq<char>| #[trigger]
        cache.contains_key(id) ==> i64::MIN <= cache[id].expires && cache[id].expires
            + duration_millis(grace) <= i64::MAX
}

/// Whether no source is asked for a key twice at once, and every id that was come upon is
/// under way or dealt with.
spec fn is_kept_track_of(s: SessionView, cache: Map<Seq<char>, RecordView>) -> bool {
    &&& forall|i: int| 0 <= i < s.waiting.len() ==> (#[trigger] s.waiting[i]).1.no_duplicates()
    &&& s.asking is Some ==> s.asking->Some_0.keys.no_duplicates()
    &&& forall|i: int|
        0 <= i < s.answered.len() ==> (#[trigger] s.answered[i]).keys.no_duplicates()
    &&& forall|id: Seq<char>| #[trigger]
        s.run.seen.contains_key(id) ==> is_under_way(s, id) || is_done(s, cache, id)
}

/// Whether an id was come upon, or is to be looked at next.
pub open spec fn is_come_upon<S: Source>(
    manager: CitationManager<S>,
    s: SessionView,
    id: Seq<char>,
) -> bool {
    s.run.seen.contains_key(id) || exists|i: int|
        0 <= i < s.run.worklist.len() && id_of(
            (#[trigger] s.run.worklist[i]).prefix,
            manager.form(s.run.worklist[i].prefix, s.run.worklist[i].key),
        ) == id
}

proof fn lemma_reported_stays(a: Seq<FailureView>, b: Seq<FailureView>, id: Seq<char>)
    requires
        a.is_prefix_of(b),
        is_reported(a, id),
    ensures
        is_reported(b, id),
{
    let k = choose|k: int| 0 <= k < a.len() && id_of((#[trigger] a[k]).prefix, a[k].key) == id;
    assert(b[k] == a[k]);
}

/// The step that settles answers.
proof fn lemma_settled<S: Source>(manager: CitationManager<S>, t: Turn)
    requires
        is_taken(manager, t),
        t.before.asking is None,
        t.before.waiting.len() == 0,
        t.before.answered.len() > 0,
        is_kept_track_of(t.before, t.cache),
        is_within_time(t.cache, manager.ttl_policy().grace),
        duration_millis(manager.ttl_policy().grace) <= i64::MAX,
    ensures
        is_kept_track_of(t.after, t.cache_after),
        t.before.run.seen == t.after.run.seen,
        t.before.run.worklist.is_prefix_of(t.after.run.worklist),
{
    let s = t.before;
    let a = s.answered[0];
    let grace = manager.ttl_policy().grace;
    let v = manager.settled(a.prefix, a.keys, a.got, s.run.seen, a.ttl, t.now);
    law_one_verdict_per_key(manager, a.prefix, a.keys, a.got, s.run.seen, a.ttl, t.now);
    law_verdicts_are_carried_out(t.cache, s.run, a.prefix, v, grace, t.now);
    assert((t.cache_after, t.after.run) == committed_all(t.cache, s.run, v, grace, t.now));
    assert forall|i: int| 0 <= i < v.len() implies is_done(
        t.after,
        t.cache_after,
        (#[trigger] v[i]).item().id(),
    ) by {
        assert(carried_out(t.cache, s.run, v[i], grace, t.now, t.cache_after, t.after.run));
    }
    assert forall|id: Seq<char>| #[trigger] t.after.run.seen.contains_key(id) implies is_under_way(
        t.after,
        id,
    ) || is_done(t.after, t.cache_after, id) by {
        if exists|i: int| 0 <= i < v.len() && (#[trigger] v[i]).item().id() == id {
        } else {
            assert(t.cache_after.contains_key(id) == t.cache.contains_key(id));
            if is_done(s, t.cache, id) {
                if is_reported(s.run.failures, id) {
                    lemma_reported_stays(s.run.failures, t.after.run.failures, id);
                }
            } else {
                assert(is_under_way(s, id));
                let n = choose|n: int|
                    0 <= n < s.answered.len() && has_key(
                        (#[trigger] s.answered[n]).prefix,
                        s.answered[n].keys,
                        id,
                    );
                if n == 0 {
                    let k = choose|k: Seq<char>| #[trigger]
                        a.keys.contains(k) && id_of(a.prefix, k) == id;
                    assert(decides(v, k));
                    let i = choose|i: int| 0 <= i < v.len() && (#[trigger] v[i]).item().key == k;
                    assert(v[i].item().id() == id);
                } else {
                    assert(t.after.answered[n - 1] == s.answered[n]);
                }
            }
        }
    }
    assert forall|i: int| 0 <= i < t.after.answered.len() implies (
    #[trigger] t.after.answered[i]).keys.no_duplicates() by {
        assert(t.after.answered[i] == s.answered[i + 1]);
    }
}

/// The step that plans a pass.
proof fn lemma_planned<S: Source>(manager: CitationManager<S>, t: Turn)
    requires
        is_taken(manager, t),
        t.before.asking is None,
        t.before.waiting.len() == 0,
        t.before.answered.len() == 0,
        !t.before.in_pass,
        t.before.run.worklist.len() > 0,
        is_kept_track_of(t.before, t.cache),
    ensures
        is_kept_track_of(t.after, t.cache_after),
        forall|id: Seq<char>|
            is_come_upon(manager, t.before, id) ==> #[trigger] t.after.run.seen.contains_key(id),
{
    let s = t.before;
    let sifted = manager.sift_all(s.run.seen, s.run.worklist);
    let records = lookups(t.cache, sifted.candidates);
    let plan = manager.pass_plan(s.run, t.cache, t.now);
    law_nothing_is_passed_over(manager, s.run.seen, s.run.worklist);
    law_candidates(manager, s.run.seen, s.run.worklist);
    law_a_plan_deals_with_every_citation(sifted.candidates, records, t.now);
    lemma_fetch_from(sifted.candidates, records, t.now);
    law_buckets_hold_what_is_fetched(plan.fetch);
    law_buckets_partition(plan.fetch);
    assert forall|i: int| 0 <= i < t.after.waiting.len() implies (
    #[trigger] t.after.waiting[i]).1.no_duplicates() by {
        lemma_keys_distinct(plan.fetch, grouped(plan.fetch)[i].0);
    }
    assert forall|id: Seq<char>| #[trigger] t.after.run.seen.contains_key(id) implies is_under_way(
        t.after,
        id,
    ) || is_done(t.after, t.cache_after, id) by {
        assert(sifted.seen.contains_key(id));
        if s.run.seen.contains_key(id) {
            assert(!is_under_way(s, id));
            assert(is_done(s, t.cache, id));
            if is_reported(s.run.failures, id) {
                lemma_reported_stays(s.run.failures, t.after.run.failures, id);
            }
        } else if exists|i: int|
            0 <= i < sifted.candidates.len() && (#[trigger] sifted.candidates[i]).id() == id {
            let i = choose|i: int|
                0 <= i < sifted.candidates.len() && (#[trigger] sifted.candidates[i]).id() == id;
            let c = sifted.candidates[i];
            if plan.fetch.contains(c) {
                let j = choose|j: int| 0 <= j < plan.fetch.len() && plan.fetch[j] == c;
                let b = choose|b: int|
                    0 <= b < grouped(plan.fetch).len() && (#[trigger] grouped(plan.fetch)[b]).0
                        == plan.fetch[j].prefix && grouped(plan.fetch)[b].1.contains(
                        plan.fetch[j].key,
                    );
                assert(t.after.waiting[b].1.contains(c.key));
                assert(has_key(t.after.waiting[b].0, t.after.waiting[b].1, id));
            } else {
                assert(records[i] is Some);
                assert(t.cache.contains_key(id));
            }
        } else {
            let i = choose|i: int|
                0 <= i < sifted.refused.len() && (#[trigger] sifted.refused[i]).item.id() == id;
            let n = s.run.failures.len() as int + i;
            assert(t.after.run.failures[n] == refusal_failures(sifted.refused)[i]);
            assert(id_of(t.after.run.failures[n].prefix, t.after.run.failures[n].key) == id);
        }
    }
}

/// A step of a source that waits to be asked or is being asked.
proof fn lemma_asked<S: Source>(manager: CitationManager<S>, t: Turn)
    requires
        is_taken(manager, t),
        t.before.asking is Some || t.before.waiting.len() > 0,
        is_kept_track_of(t.before, t.cache),
    ensures
        is_kept_track_of(t.after, t.cache_after),
        t.before.run == t.after.run,
{
    let s = t.before;
    if s.asking is None {
        assert forall|i: int| 0 <= i < t.after.waiting.len() implies (
        #[trigger] t.after.waiting[i]).1.no_duplicates() by {
            assert(t.after.waiting[i] == s.waiting[i + 1]);
        }
        assert(s.waiting[0].1.no_duplicates());
    }
    assert forall|i: int| 0 <= i < t.after.answered.len() implies (
    #[trigger] t.after.answered[i]).keys.no_duplicates() by {
        if i < s.answered.len() {
            assert(t.after.answered[i] == s.answered[i]);
        }
    }
    assert forall|id: Seq<char>| #[trigger] t.after.run.seen.contains_key(id) implies is_under_way(
        t.after,
        id,
    ) || is_done(t.after, t.cache_after, id) by {
        assert(s.run.seen.contains_key(id));
        if !is_done(s, t.cache, id) {
            assert(is_under_way(s, id));
            if exists|n: int|
                0 <= n < s.answered.len() && has_key(
                    (#[trigger] s.answered[n]).prefix,
                    s.answered[n].keys,
                    id,
                ) {
                let n = choose|n: int|
                    0 <= n < s.answered.len() && has_key(
                        (#[trigger] s.answered[n]).prefix,
                        s.answered[n].keys,
                        id,
                    );
                assert(t.after.answered[n] == s.answered[n]);
            } else if s.asking is Some && has_key(
                s.asking->Some_0.prefix,
                s.asking->Some_0.keys,
                id,
            ) {
                if t.after.asking is None {
                    let n = s.answered.len() as int;
                    assert(has_key(t.after.answered[n].prefix, t.after.answered[n].keys, id));
                }
            } else {
                let n = choose|n: int|
                    0 <= n < s.waiting.len() && has_key(
                        (#[trigger] s.waiting[n]).0,
                        s.waiting[n].1,
                        id,
                    );
                if s.asking is Some {
                    assert(t.after.waiting[n] == s.waiting[n]);
                } else if n > 0 {
                    assert(t.after.waiting[n - 1] == s.waiting[n]);
                }
            }
        }
    }
}

/// Any step.
proof fn lemma_step<S: Source>(manager: CitationManager<S>, t: Turn)
    requires
        is_taken(manager, t),
        is_kept_track_of(t.before, t.cache),
        is_within_time(t.cache, manager.ttl_policy().grace),
        duration_millis(manager.ttl_policy().grace) <= i64::MAX,
    ensures
        is_kept_track_of(t.after, t.cache_after),
        forall|id: Seq<char>|
            is_come_upon(manager, t.before, id) ==> #[trigger] is_come_upon(manager, t.after, id),
{
    let s = t.before;
    if s.asking is Some || s.waiting.len() > 0 {
        lemma_asked(manager, t);
    } else if s.answered.len() > 0 {
        lemma_settled(manager, t);
        assert forall|id: Seq<char>| is_come_upon(manager, s, id) implies #[trigger] is_come_upon(
            manager,
            t.after,
            id,
        ) by {
            if !s.run.seen.contains_key(id) {
                let i = choose|i: int|
                    0 <= i < s.run.worklist.len() && id_of(
                        (#[trigger] s.run.worklist[i]).prefix,
                        manager.form(s.run.worklist[i].prefix, s.run.worklist[i].key),
                    ) == id;
                assert(t.after.run.worklist[i] == s.run.worklist[i]);
            }
        }
    } else if !s.in_pass && s.run.worklist.len() > 0 {
        lemma_planned(manager, t);
    } else {
        assert(t.after.run == s.run);
        assert forall|id: Seq<char>| #[trigger] t.after.run.seen.contains_key(
            id,
        ) implies is_under_way(t.after, id) || is_done(t.after, t.cache_after, id) by {
            assert(is_under_way(s, id) || is_done(s, t.cache, id));
        }
    }
}

/// An answer does not lose anything.
proof fn lemma_resumed(a: SessionView, b: SessionView, cache: Map<Seq<char>, RecordView>)
    requires
        resumes(a, b),
        is_kept_track_of(a, cache),
    ensures
        is_kept_track_of(b, cache),
        b.run == a.run,
{
    if b != a {
        let more = choose|more: Seq<ResolutionView>| b == #[trigger] heard(a, more);
        assert forall|id: Seq<char>| #[trigger] b.run.seen.contains_key(id) implies is_under_way(
            b,
            id,
        ) || is_done(b, cache, id) by {
            assert(b.waiting == a.waiting && b.answered == a.answered && b.run == a.run);
            assert(a.run.seen.contains_key(id));
            assert(is_under_way(a, id) || is_done(a, cache, id));
            if is_under_way(a, id) {
                assert(is_under_way(b, id));
            }
        }
    }
}

/// Whether nothing but the retrieval changes the cache.
pub open spec fn is_undisturbed(turns: Seq<Turn>) -> bool {
    forall|i: int| 0 < i < turns.len() ==> (#[trigger] turns[i]).cache == turns[i - 1].cache_after
}

proof fn lemma_run<S: Source>(
    manager: CitationManager<S>,
    cites: Seq<(String, String)>,
    turns: Seq<Turn>,
    id: Seq<char>,
)
    requires
        runs(manager, cites, turns),
        is_undisturbed(turns),
        turns.len() > 0,
        duration_millis(manager.ttl_policy().grace) <= i64::MAX,
        forall|i: int|
            0 <= i < turns.len() ==> is_within_time(
                (#[trigger] turns[i]).cache,
                manager.ttl_policy().grace,
            ),
        is_come_upon(manager, at_first(cites), id),
    ensures
        is_kept_track_of(turns.last().after, turns.last().cache_after),
        is_come_upon(manager, turns.last().after, id),
    decreases turns.len(),
{
    let n = turns.len() - 1;
    let t = turns[n];
    if n > 0 {
        let front = turns.drop_last();
        assert forall|i: int| 0 <= i < front.len() implies is_taken(manager, #[trigger] front[i]) by {
            assert(front[i] == turns[i]);
        }
        assert forall|i: int| 0 < i < front.len() implies resumes(
            front[i - 1].after,
            (#[trigger] front[i]).before,
        ) by {
            assert(front[i] == turns[i]);
        }
        assert forall|i: int| 0 < i < front.len() implies (#[trigger] front[i]).cache == front[i
            - 1].cache_after by {
            assert(front[i] == turns[i]);
        }
        assert forall|i: int| 0 <= i < front.len() implies is_within_time(
            (#[trigger] front[i]).cache,
            manager.ttl_policy().grace,
        ) by {
            assert(front[i] == turns[i]);
        }
        lemma_run(manager, cites, front, id);
        assert(front.last() == turns[n - 1]);
        lemma_resumed(turns[n - 1].after, t.before, t.cache);
    }
    assert(is_within_time(t.cache, manager.ttl_policy().grace));
    assert(is_taken(manager, t));
    lemma_step(manager, t);
}

/// When a retrieval is over, every requested citation has a record in the cache or its
/// failure is reported; and so it is with whatever else was come upon on the way.
pub proof fn law_every_citation_is_retrieved_or_reported<S: Source>(
    manager: CitationManager<S>,
    cites: Seq<(String, String)>,
    turns: Seq<Turn>,
    i: int,
)
    requires
        runs(manager, cites, turns),
        is_undisturbed(turns),
        turns.len() > 0,
        turns.last().action is Finished,
        duration_millis(manager.ttl_policy().grace) <= i64::MAX,
        forall|i: int|
            0 <= i < turns.len() ==> is_within_time(
                (#[trigger] turns[i]).cache,
                manager.ttl_policy().grace,
            ),
        0 <= i < cites.len(),
    ensures
        ({
            let id = id_of(cites[i].0@, manager.form(cites[i].0@, cites[i].1@));
            let last = turns.last();
            last.cache_after.contains_key(id) || is_reported(last.after.run.failures, id)
        }),
        forall|id: Seq<char>| #[trigger]
            turns.last().after.run.seen.contains_key(id) ==> turns.last().cache_after.contains_key(
                id,
            ) || is_reported(turns.last().after.run.failures, id),
{
    let id = id_of(cites[i].0@, manager.form(cites[i].0@, cites[i].1@));
    let first = at_first(cites);
    assert(first.run.worklist[i] == requested_items(cites)[i]);
    assert(is_come_upon(manager, first, id));
    lemma_run(manager, cites, turns, id);
    let t = turns[turns.len() - 1];
    assert(is_taken(manager, t));
    assert(t.before.asking is None && t.before.waiting.len() == 0 && t.before.answered.len() == 0);
    assert(t.after == t.before);
    assert(t.after.run.seen.contains_key(id));
    assert forall|id: Seq<char>| #[trigger]
        t.after.run.seen.contains_key(id) implies t.cache_after.contains_key(id) || is_reported(
        t.after.run.failures,
        id,
    ) by {
        assert(!is_under_way(t.after, id));
    }
}

} // verus!
