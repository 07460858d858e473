//! What a pass does with the citations that it looks at, and how its sources are asked.

use crate::csl::id_of;
use crate::driver::{chunks, pause_nanos};
use crate::error::{error_text, ErrorView};
use crate::manager::{CitationManager, ItemView, SeenView};
use crate::retrieval::{
    distinct_ids, grouped, keys_with, law_buckets_partition, law_candidates, lemma_key_has_item,
    lookup, lookups, plan_all, refusal_failures, RefusalView, RunView,
};
use crate::source::Source;
use crate::store::{PayloadView, RecordView};
use crate::text::decimal;
use vstd::prelude::*;
use vstd::string::*;

verus! {

/// Whether the target of a pointer is among the citations, one pointer further than the
/// citation that it belongs to.
pub open spec fn follows(
    follow: Seq<ItemView>,
    item: ItemView,
    prefix: Seq<char>,
    key: Seq<char>,
) -> bool {
    exists|k: int|
        0 <= k < follow.len() && (#[trigger] follow[k]).prefix == prefix && follow[k].key == key
            && (item.depth < usize::MAX ==> follow[k].depth == item.depth + 1) && follow[k].origin
            == (match item.origin {
            Some(o) => Some(o),
            None => Some((item.prefix, item.key)),
        })
}

/// Whether a citation is dealt with as its record demands: without a record it is fetched,
/// and so it is with one that has expired; with a fresh one it is not, and the target of a
/// pointer is followed.
pub open spec fn dealt_with(
    fetch: Seq<ItemView>,
    follow: Seq<ItemView>,
    item: ItemView,
    record: Option<RecordView>,
    now: int,
) -> bool {
    match record {
        None => fetch.contains(item),
        Some(r) => {
            &&& now < r.stale_after ==> !fetch.contains(item)
            &&& r.stale_after <= now && r.expires <= now ==> fetch.contains(item)
            &&& !fetch.contains(item) ==> (r.payload matches PayloadView::Chained {
                prefix,
                key,
                ..
            } ==> follows(follow, item, prefix, key))
        },
    }
}

/// Every citation that a pass looks at is fetched or served from the cache, as its record
/// demands, and nothing else is fetched.
pub proof fn law_a_plan_deals_with_every_citation(
    items: Seq<ItemView>,
    records: Seq<Option<RecordView>>,
    now: int,
)
    requires
        items.len() == records.len(),
        distinct_ids(items),
    ensures
        ({
            let plan = plan_all(items, records, now);
            &&& forall|i: int|
                0 <= i < items.len() ==> dealt_with(
                    plan.fetch,
                    plan.follow,
                    #[trigger] items[i],
                    records[i],
                    now,
                )
            &&& forall|k: int|
                0 <= k < plan.fetch.len() ==> items.contains(#[trigger] plan.fetch[k])
            &&& plan.fetch.len() + plan.cached == items.len()
            &&& plan.follow.len() <= plan.cached
        }),
    decreases items.len(),
{
    if items.len() > 0 {
        let front = items.drop_last();
        let n = items.len() - 1;
        let last = items.last();
        assert(distinct_ids(front)) by {
            assert forall|i: int, j: int| 0 <= i < j < front.len() implies (
            #[trigger] front[i]).id() != (#[trigger] front[j]).id() by {
                assert(items[i].id() != items[j].id());
            }
        }
        law_a_plan_deals_with_every_citation(front, records.drop_last(), now);
        let p = plan_all(front, records.drop_last(), now);
        let q = plan_all(items, records, now);
        assert forall|x: ItemView| x != last implies #[trigger] q.fetch.contains(x)
            == p.fetch.contains(x) by {
            if p.fetch.contains(x) {
                let k = choose|k: int| 0 <= k < p.fetch.len() && p.fetch[k] == x;
                assert(q.fetch[k] == x);
            }
            if q.fetch.contains(x) {
                let k = choose|k: int| 0 <= k < q.fetch.len() && q.fetch[k] == x;
                assert(k < p.fetch.len());
                assert(p.fetch[k] == x);
            }
        }
        assert(!p.fetch.contains(last)) by {
            if p.fetch.contains(last) {
                let k = choose|k: int| 0 <= k < p.fetch.len() && p.fetch[k] == last;
                assert(front.contains(p.fetch[k]));
                let i = choose|i: int| 0 <= i < front.len() && front[i] == last;
                assert(items[i].id() != items[n].id());
            }
        }
        assert forall|i: int| 0 <= i < items.len() implies dealt_with(
            q.fetch,
            q.follow,
            #[trigger] items[i],
            records[i],
            now,
        ) by {
            if i < n {
                assert(front[i] == items[i]);
                assert(items[i].id() != items[n].id());
                assert(dealt_with(p.fetch, p.follow, front[i], records[i], now));
                if let Some(r) = records[i] {
                    if let PayloadView::Chained { prefix, key, .. } = r.payload {
                        if follows(p.follow, items[i], prefix, key) {
                            let k = choose|k: int|
                                0 <= k < p.follow.len() && (#[trigger] p.follow[k]).prefix
                                    == prefix && p.follow[k].key == key && (items[i].depth
                                    < usize::MAX ==> p.follow[k].depth == items[i].depth + 1)
                                    && p.follow[k].origin == (match items[i].origin {
                                    Some(o) => Some(o),
                                    None => Some((items[i].prefix, items[i].key)),
                                });
                            assert(q.follow[k] == p.follow[k]);
                        }
                    }
                }
            } else {
                if q.fetch.len() > p.fetch.len() {
                    assert(q.fetch[p.fetch.len() as int] == last);
                } else if let Some(r) = records[i] {
                    if let PayloadView::Chained { prefix, key, .. } = r.payload {
                        let k = p.follow.len() as int;
                        assert(q.follow[k].prefix == prefix);
                    }
                }
            }
        }
        assert forall|k: int| 0 <= k < q.fetch.len() implies items.contains(
            #[trigger] q.fetch[k],
        ) by {
            if k < p.fetch.len() {
                assert(front.contains(p.fetch[k]));
                let i = choose|i: int| 0 <= i < front.len() && front[i] == p.fetch[k];
                assert(items[i] == q.fetch[k]);
            } else {
                assert(items[n] == q.fetch[k]);
            }
        }
    }
}

/// The citation with its key in the form in which its source keeps it.
pub open spec fn kept_form<S: Source>(manager: CitationManager<S>, item: ItemView) -> ItemView {
    ItemView {
        key: if manager.bound().contains_key(item.prefix) {
            manager.bound()[item.prefix].key_form(item.key)
        } else {
            item.key
        },
        ..item
    }
}

/// Whether a citation is new to a pass: neither was its id come upon before, nor does it
/// stand earlier in the list.
pub open spec fn is_new<S: Source>(
    manager: CitationManager<S>,
    seen: Map<Seq<char>, SeenView>,
    batch: Seq<ItemView>,
    i: int,
) -> bool {
    let own = kept_form(manager, batch[i]);
    &&& !seen.contains_key(id_of(own.prefix, own.key))
    &&& forall|j: int|
        0 <= j < i ==> {
            let other = kept_form(manager, #[trigger] batch[j]);
            id_of(other.prefix, other.key) != id_of(own.prefix, own.key)
        }
}

/// A citation that is new to a pass is looked up if a source is bound to its prefix and it
/// is close enough to a request; if it is too far it is refused as that, and if there is no
/// source for it, as that. How it was come upon is remembered.
pub proof fn law_what_is_new_is_looked_up_or_refused<S: Source>(
    manager: CitationManager<S>,
    seen: Map<Seq<char>, SeenView>,
    batch: Seq<ItemView>,
    i: int,
)
    requires
        0 <= i < batch.len(),
        is_new(manager, seen, batch, i),
    ensures
        ({
            let a = manager.sift_all(seen, batch);
            let own = kept_form(manager, batch[i]);
            let id = id_of(own.prefix, own.key);
            &&& a.seen.contains_key(id)
            &&& a.seen[id].depth == own.depth
            &&& a.seen[id].origin == own.origin
            &&& if own.depth >= manager.depth_limit() {
                a.refused.contains(
                    RefusalView {
                        item: own,
                        error: ErrorView::Chain(
                            "`"@ + id + "` is more than "@ + decimal(manager.depth_limit())
                                + " links from a requested citation"@,
                        ),
                    },
                )
            } else if !manager.bound().contains_key(own.prefix) {
                a.refused.contains(
                    RefusalView { item: own, error: ErrorView::UnknownPrefix(own.prefix) },
                )
            } else {
                a.candidates.contains(own)
            }
        }),
    decreases batch.len(),
{
    let front = batch.drop_last();
    let n = batch.len() - 1;
    let f = manager.sift_all(seen, front);
    let a = manager.sift_all(seen, batch);
    let own = kept_form(manager, batch[i]);
    let id = own.id();
    let far = RefusalView {
        item: own,
        error: ErrorView::Chain(
            "`"@ + id + "` is more than "@ + decimal(manager.depth_limit())
                + " links from a requested citation"@,
        ),
    };
    if i < n {
        assert(front[i] == batch[i]);
        assert(is_new(manager, seen, front, i)) by {
            assert forall|j: int| 0 <= j < i implies {
                let other = kept_form(manager, #[trigger] front[j]);
                id_of(other.prefix, other.key) != id_of(own.prefix, own.key)
            } by {
                assert(front[j] == batch[j]);
            }
        }
        law_what_is_new_is_looked_up_or_refused(manager, seen, front, i);
        if own.depth >= manager.depth_limit() {
            let k = choose|k: int| 0 <= k < f.refused.len() && f.refused[k] == far;
            assert(a.refused[k] == far);
        } else if !manager.bound().contains_key(own.prefix) {
            let v = RefusalView { item: own, error: ErrorView::UnknownPrefix(own.prefix) };
            let k = choose|k: int| 0 <= k < f.refused.len() && f.refused[k] == v;
            assert(a.refused[k] == v);
        } else {
            let k = choose|k: int| 0 <= k < f.candidates.len() && f.candidates[k] == own;
            assert(a.candidates[k] == own);
        }
    } else {
        lemma_only_these_are_seen(manager, seen, front, id);
        if f.seen.contains_key(id) {
            let j = choose|j: int|
                0 <= j < front.len() && kept_form(manager, #[trigger] front[j]).id() == id;
            assert(batch[j] == front[j]);
            assert(kept_form(manager, batch[j]).id() != id);
        }
        if own.depth >= manager.depth_limit() {
            assert(a.refused[f.refused.len() as int] == far);
        } else if !manager.bound().contains_key(own.prefix) {
            assert(a.refused[f.refused.len() as int].item == own);
        } else {
            assert(a.candidates[f.candidates.len() as int] == own);
        }
    }
}

proof fn lemma_only_these_are_seen<S: Source>(
    manager: CitationManager<S>,
    seen: Map<Seq<char>, SeenView>,
    batch: Seq<ItemView>,
    id: Seq<char>,
)
    ensures
        manager.sift_all(seen, batch).seen.contains_key(id) ==> seen.contains_key(id) || exists|
            j: int,
        |
            0 <= j < batch.len() && kept_form(manager, #[trigger] batch[j]).id() == id,
    decreases batch.len(),
{
    if batch.len() > 0 {
        let front = batch.drop_last();
        let n = batch.len() - 1;
        lemma_only_these_are_seen(manager, seen, front, id);
        let f = manager.sift_all(seen, front);
        if manager.sift_all(seen, batch).seen.contains_key(id) && !seen.contains_key(id) {
            if f.seen.contains_key(id) {
                let j = choose|j: int|
                    0 <= j < front.len() && kept_form(manager, #[trigger] front[j]).id() == id;
                assert(batch[j] == front[j]);
            } else {
                assert(kept_form(manager, batch[n]).id() == id);
            }
        }
    }
}

/// What a pass does with a citation of its list that is new, whatever else is on the list:
/// one without a source and one that is too far away are reported; any other is fetched if
/// the cache has no record of it or an expired one, and is not fetched if the cache has a
/// fresh one, whose target is then looked at in the next pass if it is a pointer.
pub proof fn law_a_pass_deals_with_what_is_new<S: Source>(
    manager: CitationManager<S>,
    run: RunView,
    cache: Map<Seq<char>, RecordView>,
    now: int,
    i: int,
)
    requires
        0 <= i < run.worklist.len(),
        is_new(manager, run.seen, run.worklist, i),
    ensures
        ({
            let plan = manager.pass_plan(run, cache, now);
            let open = manager.pass_opened(run, cache, now);
            let own = kept_form(manager, run.worklist[i]);
            let id = id_of(own.prefix, own.key);
            &&& run.failures.is_prefix_of(open.failures)
            &&& open.worklist == plan.follow
            &&& if own.depth >= manager.depth_limit() {
                exists|k: int|
                    run.failures.len() <= k < open.failures.len() && (
                    #[trigger] open.failures[k]).prefix == own.prefix && open.failures[k].key
                        == own.key && open.failures[k].origin == own.origin
            } else if !manager.bound().contains_key(own.prefix) {
                exists|k: int|
                    run.failures.len() <= k < open.failures.len() && (
                    #[trigger] open.failures[k]).prefix == own.prefix && open.failures[k].key
                        == own.key && open.failures[k].origin == own.origin
                        && open.failures[k].message == error_text(
                        ErrorView::UnknownPrefix(own.prefix),
                    )
            } else {
                dealt_with(
                    plan.fetch,
                    open.worklist,
                    own,
                    if cache.contains_key(id) {
                        Some(cache[id])
                    } else {
                        None
                    },
                    now,
                )
            }
        }),
{
    let a = manager.sift_all(run.seen, run.worklist);
    let own = kept_form(manager, run.worklist[i]);
    let records = lookups(cache, a.candidates);
    let open = manager.pass_opened(run, cache, now);
    law_what_is_new_is_looked_up_or_refused(manager, run.seen, run.worklist, i);
    law_candidates(manager, run.seen, run.worklist);
    let failed = refusal_failures(a.refused);
    if own.depth >= manager.depth_limit() || !manager.bound().contains_key(own.prefix) {
        let k = if own.depth >= manager.depth_limit() {
            choose|k: int|
                0 <= k < a.refused.len() && (#[trigger] a.refused[k]).item == own
                    && a.refused[k].error is Chain
        } else {
            choose|k: int|
                0 <= k < a.refused.len() && a.refused[k] == (RefusalView {
                    item: own,
                    error: ErrorView::UnknownPrefix(own.prefix),
                })
        };
        assert(failed[k] == own.failure(a.refused[k].error));
        assert(open.failures[run.failures.len() + k] == failed[k]);
    } else {
        law_a_plan_deals_with_every_citation(a.candidates, records, now);
        let k = choose|k: int| 0 <= k < a.candidates.len() && a.candidates[k] == own;
        assert(records[k] == lookup(cache, own.id()));
        assert(dealt_with(
            plan_all(a.candidates, records, now).fetch,
            plan_all(a.candidates, records, now).follow,
            a.candidates[k],
            records[k],
            now,
        ));
    }
}

/// A source is asked for exactly the keys that are to be fetched from it: a key is in the
/// bucket of a prefix if and only if a citation with that prefix and key is to be fetched.
pub proof fn law_buckets_hold_what_is_fetched(items: Seq<ItemView>)
    ensures
        forall|i: int|
            0 <= i < items.len() ==> exists|b: int|
                0 <= b < grouped(items).len() && (#[trigger] grouped(items)[b]).0 == (
                #[trigger] items[i]).prefix && grouped(items)[b].1.contains(items[i].key),
        forall|b: int, k: Seq<char>|
            0 <= b < grouped(items).len() && #[trigger] grouped(items)[b].1.contains(k)
                ==> exists|i: int|
                0 <= i < items.len() && (#[trigger] items[i]).prefix == grouped(items)[b].0
                    && items[i].key == k,
{
    law_buckets_partition(items);
    let g = grouped(items);
    assert forall|i: int| 0 <= i < items.len() implies exists|b: int|
        0 <= b < g.len() && (#[trigger] g[b]).0 == (#[trigger] items[i]).prefix && g[b].1.contains(
            items[i].key,
        ) by {
        lemma_item_has_key(items, i);
        assert(keys_with(items, items[i].prefix).len() > 0);
        let b = choose|b: int| 0 <= b < g.len() && (#[trigger] g[b]).0 == items[i].prefix;
        assert(g[b].1 == keys_with(items, g[b].0));
    }
    assert forall|b: int, k: Seq<char>|
        0 <= b < g.len() && #[trigger] g[b].1.contains(k) implies exists|i: int|
        0 <= i < items.len() && (#[trigger] items[i]).prefix == g[b].0 && items[i].key == k by {
        assert(g[b].1 == keys_with(items, g[b].0));
        lemma_key_has_item(items, g[b].0, k);
    }
}

proof fn lemma_item_has_key(items: Seq<ItemView>, i: int)
    requires
        0 <= i < items.len(),
    ensures
        keys_with(items, items[i].prefix).contains(items[i].key),
    decreases items.len(),
{
    let front = items.drop_last();
    let prefix = items[i].prefix;
    let f = keys_with(front, prefix);
    let g = keys_with(items, prefix);
    if i < front.len() {
        assert(front[i] == items[i]);
        lemma_item_has_key(front, i);
        let k = choose|k: int| 0 <= k < f.len() && f[k] == items[i].key;
        assert(g[k] == items[i].key);
    } else {
        assert(g[f.len() as int] == items[i].key);
    }
}

/// Chunks are as long as they may be: only the last one may be shorter.
pub proof fn law_chunks_are_full<T>(s: Seq<T>, n: nat)
    requires
        n > 0,
    ensures
        forall|i: int|
            0 <= i < chunks(s, n).len() - 1 ==> (#[trigger] chunks(s, n)[i]).len() == n,
        s.len() <= n ==> chunks(s, n).len() <= 1,
    decreases s.len(),
{
    let c = chunks(s, n);
    if s.len() > n {
        let rest = s.skip(n as int);
        law_chunks_are_full(rest, n);
        assert forall|i: int| 0 <= i < c.len() - 1 implies (#[trigger] c[i]).len() == n by {
            if i > 0 {
                assert(c[i] == chunks(rest, n)[i - 1]);
            }
        }
    }
}

/// A pause is no longer than it has to be: none before the first request to a source, none
/// once the interval is over, and until then what is left of it.
pub proof fn law_pauses_are_no_longer_than_needed(last: int, now: int, interval: nat)
    requires
        now - last <= i64::MAX,
    ensures
        pause_nanos(None, now, interval) == 0,
        now <= last ==> pause_nanos(Some(last), now, interval) == interval,
        last < now && (now - last) * 1_000_000 >= interval ==> pause_nanos(Some(last), now, interval) == 0,
        last <= now && (now - last) * 1_000_000 < interval ==> (now - last) * 1_000_000 + pause_nanos(
            Some(last),
            now,
            interval,
        ) == interval,
{
}

/// What is fetched and what is followed stand in the order of the list, and so does what is
/// looked up and what is refused: more on a list only adds behind it.
pub proof fn law_plans_keep_the_order<S: Source>(
    manager: CitationManager<S>,
    seen: Map<Seq<char>, SeenView>,
    batch: Seq<ItemView>,
    items: Seq<ItemView>,
    records: Seq<Option<RecordView>>,
    now: int,
    n: int,
)
    requires
        items.len() == records.len(),
    ensures
        0 <= n <= items.len() ==> {
            let part = plan_all(items.take(n), records.take(n), now);
            let plan = plan_all(items, records, now);
            &&& part.fetch.is_prefix_of(plan.fetch)
            &&& part.follow.is_prefix_of(plan.follow)
        },
        0 <= n <= batch.len() ==> {
            let part = manager.sift_all(seen, batch.take(n));
            let all = manager.sift_all(seen, batch);
            &&& part.candidates.is_prefix_of(all.candidates)
            &&& part.refused.is_prefix_of(all.refused)
        },
    decreases items.len() + batch.len(),
{
    if 0 <= n <= items.len() {
        if n == items.len() {
            assert(items.take(n) =~= items);
            assert(records.take(n) =~= records);
        } else {
            let front = items.drop_last();
            let known = records.drop_last();
            assert(front.take(n) =~= items.take(n));
            assert(known.take(n) =~= records.take(n));
            law_plans_keep_the_order(manager, seen, Seq::empty(), front, known, now, n);
        }
    }
    if 0 <= n <= batch.len() {
        if n == batch.len() {
            assert(batch.take(n) =~= batch);
        } else {
            let front = batch.drop_last();
            assert(front.take(n) =~= batch.take(n));
            law_plans_keep_the_order(manager, seen, front, Seq::empty(), Seq::empty(), now, n);
        }
    }
}

} // verus!
