//! What becomes of answers: they are stored as they came, for as long as they live.

use crate::cache::{expiries, law_jitter_is_bounded, TtlPolicy};
use crate::csl::Json;
use crate::env::{duration_millis, duration_nanos};
use crate::error::{error_text, ErrorView};
use crate::filecache::ephemeral;
use crate::laws::planning::follows;
use crate::manager::{as_seen, CitationManager, FailureView, ItemView, SeenView};
use crate::retrieval::{plan_all, RunView};
use crate::settle::{
    answers, committed, committed_all, distinct_verdicts, filed_after, law_ids_tell_keys_apart,
    logged, no_resolution, Verdict, VerdictView,
};
use crate::source::{OutcomeView, ResolutionView, Source};
use crate::store::{PayloadView, RecordView};
use core::time::Duration;
use vstd::prelude::*;
use vstd::string::*;

verus! {

/// How many milliseconds an answer lives: as long as it says itself, or else as long as its
/// source says.
pub open spec fn lifetime(outcome: OutcomeView, default_ttl: Duration) -> nat {
    match outcome {
        OutcomeView::Concrete { ttl: Some(t), .. } => duration_millis(t),
        _ => duration_millis(default_ttl),
    }
}

/// The two expiries of what is stored: the hard one is the lifetime from now, give or take
/// the jitter, and the soft one is its part of the hard one.
pub proof fn law_expiries_follow_the_lifetime(
    policy: TtlPolicy,
    now: int,
    ttl: Duration,
    id: Seq<char>,
)
    requires
        i64::MIN <= now,
        duration_millis(ttl) > 0,
        now + 2 * duration_millis(ttl) <= i64::MAX,
        duration_millis(ttl) <= i64::MAX,
        policy.jitter_percent <= 100,
        policy.stale_percent <= 100,
    ensures
        ({
            let d = duration_millis(ttl) as int;
            let (stale_after, expires) = expiries(policy, now, ttl, id);
            &&& now + d - d * policy.jitter_percent / 100 <= expires
            &&& expires <= now + d + d * policy.jitter_percent / 100
            &&& stale_after == now + (expires - now) * policy.stale_percent / 100
        }),
{
    let d = duration_millis(ttl) as int;
    let j = policy.jitter_percent as int;
    let h = crate::cache::id_hash(id) as int;
    let hard = crate::cache::hard_millis(d, j, h);
    law_jitter_is_bounded(d, j, h);
    assert(0 <= d * j / 100 <= d) by (nonlinear_arith)
        requires
            0 < d,
            0 <= j <= 100,
    ;
    assert(0 <= hard * (policy.stale_percent as int) / 100 <= hard) by (nonlinear_arith)
        requires
            0 <= hard,
            0 <= policy.stale_percent <= 100,
    ;
    assert(duration_nanos(ttl) != 0);
}

/// What a source answers lives as long as it should, be it an item or a pointer: under the
/// default percentages its hard expiry lies within 15 percent of its lifetime from now and
/// its soft expiry at 80 percent of that, so that it is written to the log and counts as
/// filed, and no pass that is planned before its soft expiry fetches it again.
pub proof fn law_an_answer_lives_its_lifetime<S: Source>(
    manager: CitationManager<S>,
    item: ItemView,
    outcome: OutcomeView,
    default_ttl: Duration,
    now: int,
    record: RecordView,
    next: Option<ItemView>,
)
    requires
        manager.ttl_policy().jitter_percent == 15,
        manager.ttl_policy().stale_percent == 80,
        i64::MIN <= now,
        lifetime(outcome, default_ttl) > 0,
        now + 2 * lifetime(outcome, default_ttl) <= i64::MAX,
        lifetime(outcome, default_ttl) <= i64::MAX,
        manager.verdict_of(item, outcome, default_ttl, now) == (VerdictView::Put {
            item,
            record,
            next,
        }),
    ensures
        ({
            let d = lifetime(outcome, default_ttl) as int;
            &&& now + d - d * 15 / 100 <= record.expires <= now + d + d * 15 / 100
            &&& record.stale_after == now + (record.expires - now) * 80 / 100
            &&& now <= record.stale_after < record.expires
        }),
        !ephemeral(record),
        forall|filed: Set<Seq<char>>| #[trigger]
            filed_after(filed, VerdictView::Put { item, record, next }) == filed.insert(item.id()),
        forall|cache: Map<Seq<char>, RecordView>, filed: Set<Seq<char>>, v: Verdict, line: Option<
            String,
        >|
            v@ == (VerdictView::Put { item, record, next }) && #[trigger] logged(
                cache,
                filed,
                v,
                line,
            ) ==> line is Some,
        forall|when: int|
            when < record.stale_after ==> #[trigger] plan_all(
                seq![item],
                seq![Some(record)],
                when,
            ).fetch.len() == 0,
{
    let ttl = match outcome {
        OutcomeView::Concrete { ttl: Some(t), .. } => t,
        _ => default_ttl,
    };
    law_expiries_follow_the_lifetime(manager.ttl_policy(), now, ttl, item.id());
    let d = duration_millis(ttl) as int;
    let hard = record.expires - now;
    assert(hard > 0);
    assert forall|when: int| when < record.stale_after implies #[trigger] plan_all(
        seq![item],
        seq![Some(record)],
        when,
    ).fetch.len() == 0 by {
        reveal_with_fuel(plan_all, 2);
        assert(seq![item].drop_last() =~= Seq::empty());
        assert(seq![Some(record)].drop_last() =~= Seq::empty());
    }
}

/// The members of an object that are stored: those that are not dropped, each as it came.
pub open spec fn stored_members(
    came: Map<Seq<char>, Json>,
    stored: Map<Seq<char>, Json>,
    dropped: Seq<Seq<char>>,
    name: Seq<char>,
) -> bool {
    if came.contains_key(name) && !dropped.contains(name) {
        stored.contains_key(name) && stored[name] == came[name]
    } else {
        !stored.contains_key(name)
    }
}

/// Whether properties are stored as they came, but for what is dropped.
pub open spec fn stored_properties(
    came: Json,
    stored: Json,
    dropped: Seq<Seq<char>>,
    name: Seq<char>,
) -> bool {
    match came {
        Json::Object(m) => stored matches Json::Object(s) && stored_members(m, s, dropped, name),
        _ => stored == came,
    }
}

/// An answer is stored as it came. An item keeps every member that is not dropped and gets
/// its own id; a pointer keeps its target, whose key is put in the form in which the target's
/// source keeps it, and its properties, and its target is what is looked at next, one pointer
/// further from the request. What is no object, and a pointer to itself, are failures. What
/// failed or is missing stays so.
pub proof fn law_an_answer_is_stored_as_it_came<S: Source>(
    manager: CitationManager<S>,
    item: ItemView,
    outcome: OutcomeView,
    default_ttl: Duration,
    now: int,
    name: Seq<char>,
)
    ensures
        ({
            let v = manager.verdict_of(item, outcome, default_ttl, now);
            match outcome {
                OutcomeView::Concrete { csl: Json::Object(m), .. } => {
                    &&& v matches VerdictView::Put { item: i, record, next: None }
                    &&& i == item
                    &&& record.payload matches PayloadView::Concrete(Json::Object(s))
                    &&& s.contains_key("id"@)
                    &&& s["id"@] == Json::Text(item.prefix + ":"@ + item.key)
                    &&& name != "id"@ ==> stored_members(m, s, manager.dropped(), name)
                },
                OutcomeView::Concrete { .. } => v == (VerdictView::Failed {
                    item,
                    error: ErrorView::Source(
                        "source returned a non-object CSL payload for `"@ + (item.prefix + ":"@
                            + item.key) + "`"@,
                    ),
                }),
                OutcomeView::Chained { prefix, key, set_properties } => {
                    let k = if manager.bound().contains_key(prefix) {
                        manager.bound()[prefix].key_form(key)
                    } else {
                        key
                    };
                    if prefix == item.prefix && k == item.key {
                        v == (VerdictView::Failed {
                            item,
                            error: ErrorView::Chain(
                                "`"@ + (item.prefix + ":"@ + item.key) + "` chains to itself"@,
                            ),
                        })
                    } else {
                        &&& v matches VerdictView::Put { item: i, record, next: Some(t) }
                        &&& i == item
                        &&& record.payload matches PayloadView::Chained {
                            prefix: p,
                            key: stored_key,
                            set_properties: set,
                        }
                        &&& p == prefix
                        &&& stored_key == k
                        &&& stored_properties(set_properties, set, manager.dropped(), name)
                        &&& t.prefix == prefix
                        &&& t.key == k
                        &&& item.depth < usize::MAX ==> t.depth == item.depth + 1
                        &&& t.origin == (match item.origin {
                            Some(o) => Some(o),
                            None => Some((item.prefix, item.key)),
                        })
                    }
                },
                OutcomeView::Failed(e) => v == (VerdictView::Failed { item, error: e }),
                OutcomeView::Missing(e) => v == (VerdictView::Missing { item, error: e }),
            }
        }),
{
    let d = manager.dropped();
    assert(d.to_set().contains(name) == d.contains(name));
    reveal_strlit(":");
    assert(seq![':'] =~= ":"@);
    assert(item.id() =~= item.prefix + ":"@ + item.key);
}

/// The first answer to a requested key decides what becomes of it, whatever else the source
/// answered and however many keys it was asked for.
pub proof fn law_the_first_answer_counts<S: Source>(
    manager: CitationManager<S>,
    prefix: Seq<char>,
    requested: Seq<Seq<char>>,
    resolutions: Seq<ResolutionView>,
    seen: Map<Seq<char>, SeenView>,
    default_ttl: Duration,
    now: int,
    i: int,
)
    requires
        0 <= i < resolutions.len(),
        requested.contains(resolutions[i].key),
        forall|j: int| 0 <= j < i ==> (#[trigger] resolutions[j]).key != resolutions[i].key,
    ensures
        manager.settled(prefix, requested, resolutions, seen, default_ttl, now).contains(
            manager.verdict_of(
                as_seen(seen, prefix, resolutions[i].key),
                resolutions[i].outcome,
                default_ttl,
                now,
            ),
        ),
{
    let a = manager.answered(prefix, requested, resolutions, seen, default_ttl, now);
    let b = manager.unanswered(prefix, requested, resolutions, seen);
    let v = manager.verdict_of(
        as_seen(seen, prefix, resolutions[i].key),
        resolutions[i].outcome,
        default_ttl,
        now,
    );
    lemma_first_answer(manager, prefix, requested, resolutions, seen, default_ttl, now, i);
    let k = choose|k: int| 0 <= k < a.len() && a[k] == v;
    assert((a + b)[k] == v);
}

proof fn lemma_first_answer<S: Source>(
    manager: CitationManager<S>,
    prefix: Seq<char>,
    requested: Seq<Seq<char>>,
    resolutions: Seq<ResolutionView>,
    seen: Map<Seq<char>, SeenView>,
    default_ttl: Duration,
    now: int,
    i: int,
)
    requires
        0 <= i < resolutions.len(),
        requested.contains(resolutions[i].key),
        forall|j: int| 0 <= j < i ==> (#[trigger] resolutions[j]).key != resolutions[i].key,
    ensures
        manager.answered(prefix, requested, resolutions, seen, default_ttl, now).contains(
            manager.verdict_of(
                as_seen(seen, prefix, resolutions[i].key),
                resolutions[i].outcome,
                default_ttl,
                now,
            ),
        ),
    decreases resolutions.len(),
{
    let front = resolutions.drop_last();
    let f = manager.answered(prefix, requested, front, seen, default_ttl, now);
    let a = manager.answered(prefix, requested, resolutions, seen, default_ttl, now);
    let v = manager.verdict_of(
        as_seen(seen, prefix, resolutions[i].key),
        resolutions[i].outcome,
        default_ttl,
        now,
    );
    if i < front.len() {
        assert forall|j: int| 0 <= j < i implies (#[trigger] front[j]).key != front[i].key by {
            assert(resolutions[j].key != resolutions[i].key);
        }
        lemma_first_answer(manager, prefix, requested, front, seen, default_ttl, now, i);
        let k = choose|k: int| 0 <= k < f.len() && f[k] == v;
        assert(a[k] == v);
    } else {
        assert(!answers(front, resolutions.last().key)) by {
            if answers(front, resolutions.last().key) {
                let j = choose|j: int|
                    0 <= j < front.len() && (#[trigger] front[j]).key == resolutions.last().key;
                assert(resolutions[j].key != resolutions[i].key);
            }
        }
        assert(a[f.len() as int] == v);
    }
}

/// A requested key that is not answered at all is a failure that says so.
pub proof fn law_what_is_not_answered_fails<S: Source>(
    manager: CitationManager<S>,
    prefix: Seq<char>,
    requested: Seq<Seq<char>>,
    resolutions: Seq<ResolutionView>,
    seen: Map<Seq<char>, SeenView>,
    default_ttl: Duration,
    now: int,
    key: Seq<char>,
)
    requires
        requested.contains(key),
        forall|j: int| 0 <= j < resolutions.len() ==> (#[trigger] resolutions[j]).key != key,
    ensures
        manager.settled(prefix, requested, resolutions, seen, default_ttl, now).contains(
            VerdictView::Failed {
                item: as_seen(seen, prefix, key),
                error: ErrorView::Source(
                    "source `"@ + prefix + "` returned no resolution for key `"@ + key + "`"@,
                ),
            },
        ),
{
    let a = manager.answered(prefix, requested, resolutions, seen, default_ttl, now);
    let b = manager.unanswered(prefix, requested, resolutions, seen);
    let v = VerdictView::Failed {
        item: as_seen(seen, prefix, key),
        error: no_resolution(prefix, key),
    };
    assert(!answers(resolutions, key));
    lemma_not_answered(manager, prefix, requested, resolutions, seen, key);
    let k = choose|k: int| 0 <= k < b.len() && b[k] == v;
    assert((a + b)[a.len() + k] == v);
}

proof fn lemma_not_answered<S: Source>(
    manager: CitationManager<S>,
    prefix: Seq<char>,
    requested: Seq<Seq<char>>,
    resolutions: Seq<ResolutionView>,
    seen: Map<Seq<char>, SeenView>,
    key: Seq<char>,
)
    requires
        requested.contains(key),
        !answers(resolutions, key),
    ensures
        manager.unanswered(prefix, requested, resolutions, seen).contains(
            VerdictView::Failed {
                item: as_seen(seen, prefix, key),
                error: no_resolution(prefix, key),
            },
        ),
    decreases requested.len(),
{
    let front = requested.drop_last();
    let f = manager.unanswered(prefix, front, resolutions, seen);
    let b = manager.unanswered(prefix, requested, resolutions, seen);
    let v = VerdictView::Failed {
        item: as_seen(seen, prefix, key),
        error: no_resolution(prefix, key),
    };
    if requested.last() == key {
        assert(b[f.len() as int] == v);
    } else {
        let i = choose|i: int| 0 <= i < requested.len() && requested[i] == key;
        assert(front[i] == key);
        lemma_not_answered(manager, prefix, front, resolutions, seen, key);
        let k = choose|k: int| 0 <= k < f.len() && f[k] == v;
        assert(b[k] == v);
    }
}

/// Whether a failure tells of a citation and an error.
pub open spec fn tells_of(f: FailureView, item: ItemView, error: ErrorView) -> bool {
    &&& f.prefix == item.prefix
    &&& f.key == item.key
    &&& f.message == error_text(error)
    &&& f.origin == item.origin
}

/// Whether a failure that tells of a citation and an error is among those from `from` on.
pub open spec fn told(
    failures: Seq<FailureView>,
    from: nat,
    item: ItemView,
    error: ErrorView,
) -> bool {
    exists|k: int| from <= k < failures.len() && tells_of(#[trigger] failures[k], item, error)
}

/// Whether a record may still be served so long after its hard expiry.
pub open spec fn in_grace(
    cache: Map<Seq<char>, RecordView>,
    id: Seq<char>,
    grace: Duration,
    now: int,
) -> bool {
    cache.contains_key(id) && now < cache[id].expires + duration_millis(grace)
}

/// Whether a verdict was carried out: a record is in the cache, and its target is in the
/// next pass; a failure left the record alone and is reported unless the record is within
/// its grace, in which case a pointer's target is in the next pass; what is missing is gone
/// and reported.
pub open spec fn carried_out(
    cache: Map<Seq<char>, RecordView>,
    run: RunView,
    verdict: VerdictView,
    grace: Duration,
    now: int,
    after: Map<Seq<char>, RecordView>,
    left: RunView,
) -> bool {
    match verdict {
        VerdictView::Put { item, record, next } => {
            &&& after.contains_key(item.id())
            &&& after[item.id()] == record
            &&& next matches Some(t) ==> left.worklist.contains(t)
        },
        VerdictView::Failed { item, error } => {
            &&& after.contains_key(item.id()) == cache.contains_key(item.id())
            &&& cache.contains_key(item.id()) ==> after[item.id()] == cache[item.id()]
            &&& if in_grace(cache, item.id(), grace, now) {
                cache[item.id()].payload matches PayloadView::Chained { prefix, key, .. }
                    ==> follows(left.worklist, item, prefix, key)
            } else {
                told(left.failures, run.failures.len(), item, error)
            }
        },
        VerdictView::Missing { item, error } => {
            &&& !after.contains_key(item.id())
            &&& told(left.failures, run.failures.len(), item, error)
        },
    }
}

/// Every verdict on the keys of a source is carried out, whatever the others are; a record
/// that no verdict is on stays as it is, what was reported or due before stays so, and
/// nothing is reported of a key whose answer is stored, nor anything twice.
pub proof fn law_verdicts_are_carried_out(
    cache: Map<Seq<char>, RecordView>,
    run: RunView,
    prefix: Seq<char>,
    verdicts: Seq<VerdictView>,
    grace: Duration,
    now: int,
)
    requires
        distinct_verdicts(prefix, verdicts),
        duration_millis(grace) <= i64::MAX,
        forall|id: Seq<char>| #[trigger]
            cache.contains_key(id) ==> i64::MIN <= cache[id].expires && cache[id].expires
                + duration_millis(grace) <= i64::MAX,
    ensures
        ({
            let (after, left) = committed_all(cache, run, verdicts, grace, now);
            &&& forall|i: int|
                0 <= i < verdicts.len() ==> carried_out(
                    cache,
                    run,
                    #[trigger] verdicts[i],
                    grace,
                    now,
                    after,
                    left,
                )
            &&& forall|id: Seq<char>|
                (forall|i: int| 0 <= i < verdicts.len() ==> (#[trigger] verdicts[i]).item().id()
                    != id) ==> (#[trigger] after.contains_key(id) == cache.contains_key(id) && (
                cache.contains_key(id) ==> after[id] == cache[id]))
            &&& left.seen == run.seen
            &&& run.worklist.is_prefix_of(left.worklist)
            &&& run.failures.is_prefix_of(left.failures)
            &&& forall|k: int|
                run.failures.len() <= k < left.failures.len() ==> exists|i: int|
                    0 <= i < verdicts.len() && !((#[trigger] verdicts[i]) is Put)
                        && verdicts[i].item().prefix == (#[trigger] left.failures[k]).prefix
                        && verdicts[i].item().key == left.failures[k].key
            &&& forall|k: int, l: int|
                run.failures.len() <= k < l < left.failures.len() ==> (
                #[trigger] left.failures[k]).key != (#[trigger] left.failures[l]).key
            &&& left.worklist.len() - run.worklist.len() + left.failures.len() - run.failures.len()
                <= verdicts.len()
        }),
    decreases verdicts.len(),
{
    let (after, left) = committed_all(cache, run, verdicts, grace, now);
    if verdicts.len() > 0 {
        let front = verdicts.drop_last();
        let last = verdicts.last();
        let n = verdicts.len() - 1;
        let (c0, r0) = committed_all(cache, run, front, grace, now);
        assert(distinct_verdicts(prefix, front)) by {
            assert forall|a: int, b: int| 0 <= a < b < front.len() implies (
            #[trigger] front[a]).item().key != (#[trigger] front[b]).item().key by {
                assert(verdicts[a].item().key != verdicts[b].item().key);
            }
            assert forall|a: int| 0 <= a < front.len() implies (#[trigger] front[a]).item().prefix
                == prefix by {
                assert(verdicts[a].item().prefix == prefix);
            }
        }
        law_verdicts_are_carried_out(cache, run, prefix, front, grace, now);
        assert(verdicts[n].item().prefix == prefix);
        let own = last.item().id();
        assert forall|i: int| 0 <= i < front.len() implies (#[trigger] front[i]).item().id()
            != own by {
            assert(verdicts[i].item().prefix == prefix);
            assert(verdicts[i].item().key != verdicts[n].item().key);
            if front[i].item().id() == own {
                law_ids_tell_keys_apart(prefix, front[i].item().key, last.item().key);
            }
        }
        assert(c0.contains_key(own) == cache.contains_key(own));
        assert(run.worklist.is_prefix_of(left.worklist)) by {
            assert(r0.worklist.is_prefix_of(left.worklist));
            assert forall|k: int| 0 <= k < run.worklist.len() implies run.worklist[k]
                == left.worklist[k] by {
                assert(run.worklist[k] == r0.worklist[k]);
            }
        }
        assert(run.failures.is_prefix_of(left.failures)) by {
            assert(r0.failures.is_prefix_of(left.failures));
            assert forall|k: int| 0 <= k < run.failures.len() implies run.failures[k]
                == left.failures[k] by {
                assert(run.failures[k] == r0.failures[k]);
            }
        }
        assert forall|i: int| 0 <= i < verdicts.len() implies carried_out(
            cache,
            run,
            #[trigger] verdicts[i],
            grace,
            now,
            after,
            left,
        ) by {
            if i < n {
                assert(front[i] == verdicts[i]);
                assert(carried_out(cache, run, front[i], grace, now, c0, r0));
                assert(front[i].item().id() != own);
                lemma_stays_carried_out(cache, run, front[i], grace, now, c0, r0, after, left);
            } else {
                lemma_last_carried_out(cache, run, last, grace, now, c0, r0);
            }
        }
        assert forall|id: Seq<char>|
            (forall|i: int| 0 <= i < verdicts.len() ==> (#[trigger] verdicts[i]).item().id()
                != id) implies (#[trigger] after.contains_key(id) == cache.contains_key(id) && (
        cache.contains_key(id) ==> after[id] == cache[id])) by {
            assert forall|i: int| 0 <= i < front.len() implies (#[trigger] front[i]).item().id()
                != id by {
                assert(verdicts[i].item().id() != id);
            }
            assert(verdicts[n].item().id() != id);
            assert(c0.contains_key(id) == cache.contains_key(id));
        }
        assert forall|k: int| run.failures.len() <= k < left.failures.len() implies exists|i: int|
            0 <= i < verdicts.len() && !((#[trigger] verdicts[i]) is Put)
                && verdicts[i].item().prefix == (#[trigger] left.failures[k]).prefix
                && verdicts[i].item().key == left.failures[k].key by {
            if k < r0.failures.len() {
                assert(left.failures[k] == r0.failures[k]);
                let i = choose|i: int|
                    0 <= i < front.len() && !((#[trigger] front[i]) is Put)
                        && front[i].item().prefix == r0.failures[k].prefix && front[i].item().key
                        == r0.failures[k].key;
                assert(verdicts[i] == front[i]);
            } else {
                assert(!(verdicts[n] is Put));
            }
        }
        assert forall|k: int, l: int| run.failures.len() <= k < l < left.failures.len() implies (
        #[trigger] left.failures[k]).key != (#[trigger] left.failures[l]).key by {
            assert(left.failures[k] == r0.failures[k]);
            if l < r0.failures.len() {
                assert(left.failures[l] == r0.failures[l]);
            } else {
                let i = choose|i: int|
                    0 <= i < front.len() && !((#[trigger] front[i]) is Put)
                        && front[i].item().prefix == r0.failures[k].prefix && front[i].item().key
                        == r0.failures[k].key;
                assert(verdicts[i].item().key != verdicts[n].item().key);
            }
        }
    }
}

proof fn lemma_stays_carried_out(
    cache: Map<Seq<char>, RecordView>,
    run: RunView,
    verdict: VerdictView,
    grace: Duration,
    now: int,
    c0: Map<Seq<char>, RecordView>,
    r0: RunView,
    after: Map<Seq<char>, RecordView>,
    left: RunView,
)
    requires
        carried_out(cache, run, verdict, grace, now, c0, r0),
        after.contains_key(verdict.item().id()) == c0.contains_key(verdict.item().id()),
        c0.contains_key(verdict.item().id()) ==> after[verdict.item().id()]
            == c0[verdict.item().id()],
        r0.worklist.is_prefix_of(left.worklist),
        r0.failures.is_prefix_of(left.failures),
    ensures
        carried_out(cache, run, verdict, grace, now, after, left),
{
    match verdict {
        VerdictView::Put { item, record, next } => {
            if let Some(t) = next {
                let k = choose|k: int| 0 <= k < r0.worklist.len() && r0.worklist[k] == t;
                assert(left.worklist[k] == t);
            }
        },
        VerdictView::Failed { item, error } => {
            if in_grace(cache, item.id(), grace, now) {
                if let PayloadView::Chained { prefix, key, .. } = cache[item.id()].payload {
                    let k = choose|k: int|
                        0 <= k < r0.worklist.len() && (#[trigger] r0.worklist[k]).prefix == prefix
                            && r0.worklist[k].key == key && (item.depth < usize::MAX
                            ==> r0.worklist[k].depth == item.depth + 1) && r0.worklist[k].origin
                            == (match item.origin {
                            Some(o) => Some(o),
                            None => Some((item.prefix, item.key)),
                        });
                    assert(left.worklist[k] == r0.worklist[k]);
                }
            } else {
                let k = choose|k: int|
                    run.failures.len() <= k < r0.failures.len() && tells_of(
                        #[trigger] r0.failures[k],
                        item,
                        error,
                    );
                assert(left.failures[k] == r0.failures[k]);
            }
        },
        VerdictView::Missing { item, error } => {
            let k = choose|k: int|
                run.failures.len() <= k < r0.failures.len() && tells_of(
                    #[trigger] r0.failures[k],
                    item,
                    error,
                );
            assert(left.failures[k] == r0.failures[k]);
        },
    }
}

proof fn lemma_last_carried_out(
    cache: Map<Seq<char>, RecordView>,
    run: RunView,
    verdict: VerdictView,
    grace: Duration,
    now: int,
    c0: Map<Seq<char>, RecordView>,
    r0: RunView,
)
    requires
        duration_millis(grace) <= i64::MAX,
        c0.contains_key(verdict.item().id()) == cache.contains_key(verdict.item().id()),
        cache.contains_key(verdict.item().id()) ==> c0[verdict.item().id()]
            == cache[verdict.item().id()] && i64::MIN <= cache[verdict.item().id()].expires
            && cache[verdict.item().id()].expires + duration_millis(grace) <= i64::MAX,
        run.failures.len() <= r0.failures.len(),
    ensures
        carried_out(
            cache,
            run,
            verdict,
            grace,
            now,
            committed(c0, r0, verdict, grace, now).0,
            committed(c0, r0, verdict, grace, now).1,
        ),
{
    let left = committed(c0, r0, verdict, grace, now).1;
    match verdict {
        VerdictView::Put { next, .. } => {
            if let Some(t) = next {
                assert(left.worklist[r0.worklist.len() as int] == t);
            }
        },
        VerdictView::Failed { item, error } => {
            if in_grace(cache, item.id(), grace, now) {
                if let PayloadView::Chained { prefix, key, .. } = cache[item.id()].payload {
                    let k = r0.worklist.len() as int;
                    assert(left.worklist[k].prefix == prefix);
                }
            } else {
                assert(tells_of(left.failures[r0.failures.len() as int], item, error));
            }
        },
        VerdictView::Missing { item, error } => {
            assert(tells_of(left.failures[r0.failures.len() as int], item, error));
        },
    }
}

/// Verdicts are carried out one after another, in their order.
pub proof fn law_verdicts_are_carried_out_in_order(
    cache: Map<Seq<char>, RecordView>,
    run: RunView,
    a: Seq<VerdictView>,
    b: Seq<VerdictView>,
    grace: Duration,
    now: int,
)
    ensures
        ({
            let (c, r) = committed_all(cache, run, a, grace, now);
            committed_all(cache, run, a + b, grace, now) == committed_all(c, r, b, grace, now)
        }),
    decreases b.len(),
{
    if b.len() == 0 {
        assert(a + b =~= a);
    } else {
        law_verdicts_are_carried_out_in_order(cache, run, a, b.drop_last(), grace, now);
        assert((a + b).drop_last() =~= a + b.drop_last());
        assert((a + b).last() == b.last());
    }
}

/// Whether one verdict comes before another.
pub open spec fn comes_before(v: Seq<VerdictView>, a: VerdictView, b: VerdictView) -> bool {
    exists|i: int, j: int| 0 <= i < j < v.len() && #[trigger] v[i] == a && #[trigger] v[j] == b
}

/// Verdicts come in the order of the answers that they are on, and those on keys without an
/// answer come behind them, in the order in which they were asked for.
pub proof fn law_verdicts_follow_the_answers<S: Source>(
    manager: CitationManager<S>,
    prefix: Seq<char>,
    requested: Seq<Seq<char>>,
    resolutions: Seq<ResolutionView>,
    seen: Map<Seq<char>, SeenView>,
    default_ttl: Duration,
    now: int,
    i: int,
    j: int,
)
    ensures
        ({
            let v = manager.settled(prefix, requested, resolutions, seen, default_ttl, now);
            let on = |n: int|
                manager.verdict_of(
                    as_seen(seen, prefix, resolutions[n].key),
                    resolutions[n].outcome,
                    default_ttl,
                    now,
                );
            let none = |n: int|
                VerdictView::Failed {
                    item: as_seen(seen, prefix, requested[n]),
                    error: ErrorView::Source(
                        "source `"@ + prefix + "` returned no resolution for key `"@ + requested[n]
                            + "`"@,
                    ),
                };
            &&& is_first_answer(requested, resolutions, i) && is_first_answer(
                requested,
                resolutions,
                j,
            ) && i < j ==> comes_before(v, on(i), on(j))
            &&& is_first_answer(requested, resolutions, i) && is_unanswered(
                requested,
                resolutions,
                j,
            ) ==> comes_before(v, on(i), none(j))
            &&& is_unanswered(requested, resolutions, i) && is_unanswered(requested, resolutions, j)
                && i < j ==> comes_before(v, none(i), none(j))
        }),
{
    let a = manager.answered(prefix, requested, resolutions, seen, default_ttl, now);
    let b = manager.unanswered(prefix, requested, resolutions, seen);
    let v = a + b;
    if is_first_answer(requested, resolutions, i) {
        let x = lemma_answered_at(
            manager,
            prefix,
            requested,
            resolutions,
            seen,
            default_ttl,
            now,
            i,
        );
        assert(v[x] == a[x]);
        if is_first_answer(requested, resolutions, j) && i < j {
            let y = lemma_answered_at(
                manager,
                prefix,
                requested,
                resolutions,
                seen,
                default_ttl,
                now,
                j,
            );
            assert(v[y] == a[y]);
            lemma_answered_grows(
                manager,
                prefix,
                requested,
                resolutions,
                seen,
                default_ttl,
                now,
                i,
                j,
            );
        }
        if is_unanswered(requested, resolutions, j) {
            let y = lemma_unanswered_at(manager, prefix, requested, resolutions, seen, j);
            assert(v[a.len() + y] == b[y]);
        }
    }
    if is_unanswered(requested, resolutions, i) && is_unanswered(requested, resolutions, j) && i
        < j {
        let x = lemma_unanswered_at(manager, prefix, requested, resolutions, seen, i);
        let y = lemma_unanswered_at(manager, prefix, requested, resolutions, seen, j);
        lemma_unanswered_grows(manager, prefix, requested, resolutions, seen, i, j);
        assert(v[a.len() + x] == b[x]);
        assert(v[a.len() + y] == b[y]);
    }
}

/// Whether a resolution is the first one of a requested key.
pub open spec fn is_first_answer(
    requested: Seq<Seq<char>>,
    resolutions: Seq<ResolutionView>,
    i: int,
) -> bool {
    &&& 0 <= i < resolutions.len()
    &&& requested.contains(resolutions[i].key)
    &&& forall|j: int| 0 <= j < i ==> (#[trigger] resolutions[j]).key != resolutions[i].key
}

/// Whether a requested key has no resolution.
pub open spec fn is_unanswered(
    requested: Seq<Seq<char>>,
    resolutions: Seq<ResolutionView>,
    i: int,
) -> bool {
    &&& 0 <= i < requested.len()
    &&& forall|j: int| 0 <= j < resolutions.len() ==> (#[trigger] resolutions[j]).key != requested[i]
}

proof fn lemma_answered_at<S: Source>(
    manager: CitationManager<S>,
    prefix: Seq<char>,
    requested: Seq<Seq<char>>,
    resolutions: Seq<ResolutionView>,
    seen: Map<Seq<char>, SeenView>,
    default_ttl: Duration,
    now: int,
    i: int,
) -> (x: int)
    requires
        is_first_answer(requested, resolutions, i),
    ensures
        ({
            let a = manager.answered(prefix, requested, resolutions, seen, default_ttl, now);
            let before = manager.answered(
                prefix,
                requested,
                resolutions.take(i),
                seen,
                default_ttl,
                now,
            );
            &&& x == before.len()
            &&& x < a.len()
            &&& a[x] == manager.verdict_of(
                as_seen(seen, prefix, resolutions[i].key),
                resolutions[i].outcome,
                default_ttl,
                now,
            )
        }),
    decreases resolutions.len(),
{
    let front = resolutions.drop_last();
    if i < front.len() {
        assert(front[i] == resolutions[i]);
        assert forall|j: int| 0 <= j < i implies (#[trigger] front[j]).key != front[i].key by {
            assert(front[j] == resolutions[j]);
        }
        assert(front.take(i) =~= resolutions.take(i));
        lemma_answered_at(manager, prefix, requested, front, seen, default_ttl, now, i)
    } else {
        assert(front =~= resolutions.take(i));
        assert(!answers(front, resolutions[i].key)) by {
            if answers(front, resolutions[i].key) {
                let j = choose|j: int|
                    0 <= j < front.len() && (#[trigger] front[j]).key == resolutions[i].key;
                assert(resolutions[j].key == resolutions[i].key);
            }
        }
        manager.answered(prefix, requested, front, seen, default_ttl, now).len() as int
    }
}

proof fn lemma_answered_grows<S: Source>(
    manager: CitationManager<S>,
    prefix: Seq<char>,
    requested: Seq<Seq<char>>,
    resolutions: Seq<ResolutionView>,
    seen: Map<Seq<char>, SeenView>,
    default_ttl: Duration,
    now: int,
    i: int,
    j: int,
)
    requires
        is_first_answer(requested, resolutions, i),
        i < j <= resolutions.len(),
    ensures
        manager.answered(
            prefix,
            requested,
            resolutions.take(i),
            seen,
            default_ttl,
            now,
        ).len() < manager.answered(
            prefix,
            requested,
            resolutions.take(j),
            seen,
            default_ttl,
            now,
        ).len(),
{
    let part = resolutions.take(j);
    assert(part[i] == resolutions[i]);
    assert forall|k: int| 0 <= k < i implies (#[trigger] part[k]).key != part[i].key by {
        assert(part[k] == resolutions[k]);
    }
    assert(part.take(i) =~= resolutions.take(i));
    let x = lemma_answered_at(manager, prefix, requested, part, seen, default_ttl, now, i);
}

proof fn lemma_unanswered_at<S: Source>(
    manager: CitationManager<S>,
    prefix: Seq<char>,
    requested: Seq<Seq<char>>,
    resolutions: Seq<ResolutionView>,
    seen: Map<Seq<char>, SeenView>,
    i: int,
) -> (x: int)
    requires
        is_unanswered(requested, resolutions, i),
    ensures
        ({
            let b = manager.unanswered(prefix, requested, resolutions, seen);
            &&& x == manager.unanswered(prefix, requested.take(i), resolutions, seen).len()
            &&& x < b.len()
            &&& b[x] == (VerdictView::Failed {
                item: as_seen(seen, prefix, requested[i]),
                error: ErrorView::Source(
                    "source `"@ + prefix + "` returned no resolution for key `"@ + requested[i]
                        + "`"@,
                ),
            })
        }),
    decreases requested.len(),
{
    let front = requested.drop_last();
    if i < front.len() {
        assert(front[i] == requested[i]);
        assert(front.take(i) =~= requested.take(i));
        lemma_unanswered_at(manager, prefix, front, resolutions, seen, i)
    } else {
        assert(front =~= requested.take(i));
        assert(!answers(resolutions, requested[i]));
        manager.unanswered(prefix, front, resolutions, seen).len() as int
    }
}

proof fn lemma_unanswered_grows<S: Source>(
    manager: CitationManager<S>,
    prefix: Seq<char>,
    requested: Seq<Seq<char>>,
    resolutions: Seq<ResolutionView>,
    seen: Map<Seq<char>, SeenView>,
    i: int,
    j: int,
)
    requires
        is_unanswered(requested, resolutions, i),
        i < j <= requested.len(),
    ensures
        manager.unanswered(prefix, requested.take(i), resolutions, seen).len()
            < manager.unanswered(prefix, requested.take(j), resolutions, seen).len(),
{
    let part = requested.take(j);
    assert(part[i] == requested[i]);
    assert(part.take(i) =~= requested.take(i));
    let x = lemma_unanswered_at(manager, prefix, part, resolutions, seen, i);
}

} // verus!
