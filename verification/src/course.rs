//! What holds of a retrieval as a whole, from its start through every step and answer.

use crate::csl::id_of;
use crate::driver::{chunk_limit, chunks, joined_chunks, law_chunks_partition, texts};
use crate::error::error_text;
use crate::manager::{CitationManager, FailureView, ItemView, SeenView};
use crate::retrieval::{
    grouped, keys_with, law_buckets_partition, law_candidates, lemma_fetch_from,
    lemma_key_has_item, lemma_keys_distinct, lookups, requested_items, too_deep, RunView,
};
use crate::session::{
    heard, law_a_retrieval_ends, law_a_retrieval_is_on_its_course, lemma_seen_stays, on_course,
    Action, SessionView,
};
use crate::settle::{law_ids_tell_keys_apart, lemma_failures_grow};
use crate::source::{ResolutionView, Source};
use crate::store::RecordView;
use vstd::prelude::*;

verus! {

/// One step of a retrieval: where it stands before and after, with the cache and what the
/// files hold of it, at what time it is taken, and what the host is told.
pub struct Turn {
    pub before: SessionView,
    pub cache: Map<Seq<char>, RecordView>,
    pub filed: Set<Seq<char>>,
    pub now: int,
    pub after: SessionView,
    pub cache_after: Map<Seq<char>, RecordView>,
    pub filed_then: Set<Seq<char>>,
    pub action: Action,
}

/// Where a retrieval of the requested citations stands that has not begun.
pub open spec fn at_first(cites: Seq<(String, String)>) -> SessionView {
    SessionView {
        run: RunView {
            worklist: requested_items(cites),
            seen: Map::empty(),
            failures: Seq::empty(),
        },
        pass: 0,
        in_pass: false,
        waiting: Seq::empty(),
        asking: None,
        answered: Seq::empty(),
        last: Map::empty(),
    }
}

/// Whether a retrieval may stand at `b` when it goes on, where its last step left it at
/// `a`: nothing or an answer came in between.
pub open spec fn resumes(a: SessionView, b: SessionView) -> bool {
    b == a || exists|more: Seq<ResolutionView>| b == #[trigger] heard(a, more)
}

/// Whether the step is one that the manager takes.
pub open spec fn is_taken<S: Source>(manager: CitationManager<S>, t: Turn) -> bool {
    manager.steps(
        t.before,
        t.cache,
        t.filed,
        t.now,
        t.after,
        t.cache_after,
        t.filed_then,
        t.action,
    )
}

/// Whether these are the first steps of a retrieval of the requested citations. The host
/// may answer whatever it likes, take its time, and change the cache between steps.
pub open spec fn runs<S: Source>(
    manager: CitationManager<S>,
    cites: Seq<(String, String)>,
    turns: Seq<Turn>,
) -> bool {
    &&& forall|i: int| 0 <= i < turns.len() ==> is_taken(manager, #[trigger] turns[i])
    &&& turns.len() > 0 ==> turns[0].before == at_first(cites)
    &&& forall|i: int|
        0 < i < turns.len() ==> resumes(turns[i - 1].after, (#[trigger] turns[i]).before)
}

/// Where the retrieval stands after the steps.
pub open spec fn reached(cites: Seq<(String, String)>, turns: Seq<Turn>) -> SessionView {
    if turns.len() == 0 {
        at_first(cites)
    } else {
        turns.last().after
    }
}

/// The ids of keys of one source.
pub open spec fn ids_of(prefix: Seq<char>, keys: Seq<Seq<char>>) -> Seq<Seq<char>> {
    keys.map_values(|k: Seq<char>| id_of(prefix, k))
}

/// The ids that sources are asked for in a step.
pub open spec fn asked_in(action: Action) -> Seq<Seq<char>> {
    match action {
        Action::Ask { prefix, keys } => ids_of(prefix@, texts(keys@)),
        _ => Seq::empty(),
    }
}

/// The ids that sources are asked for, in order.
pub open spec fn asked_ids(turns: Seq<Turn>) -> Seq<Seq<char>>
    decreases turns.len(),
{
    if turns.len() == 0 {
        Seq::empty()
    } else {
        asked_ids(turns.drop_last()) + asked_in(turns.last().action)
    }
}

/// How many passes are planned.
pub open spec fn passes(turns: Seq<Turn>) -> nat
    decreases turns.len(),
{
    if turns.len() == 0 {
        0
    } else if turns.last().action is Planned {
        passes(turns.drop_last()) + 1
    } else {
        passes(turns.drop_last())
    }
}

/// The ids that waiting sources are to be asked for.
pub open spec fn waiting_ids(w: Seq<(Seq<char>, Seq<Seq<char>>)>) -> Seq<Seq<char>>
    decreases w.len(),
{
    if w.len() == 0 {
        Seq::empty()
    } else {
        ids_of(w[0].0, w[0].1) + waiting_ids(w.skip(1))
    }
}

/// The ids that are still to be asked for in a pass.
pub open spec fn to_ask(s: SessionView) -> Seq<Seq<char>> {
    (match s.asking {
        Some(a) => ids_of(a.prefix, joined_chunks(a.left)),
        None => Seq::empty(),
    }) + waiting_ids(s.waiting)
}

/// Whether the ids that were asked for and those that still are to be are distinct, and
/// each was come upon close enough to a request.
spec fn sound(s: SessionView, asked: Seq<Seq<char>>, limit: nat) -> bool {
    let ids = asked + to_ask(s);
    &&& ids.no_duplicates()
    &&& forall|id: Seq<char>| #[trigger]
        ids.contains(id) ==> s.run.seen.contains_key(id) && s.run.seen[id].depth < limit
}

proof fn lemma_ids_concat(prefix: Seq<char>, a: Seq<Seq<char>>, b: Seq<Seq<char>>)
    ensures
        ids_of(prefix, a + b) == ids_of(prefix, a) + ids_of(prefix, b),
{
    assert(ids_of(prefix, a + b) =~= ids_of(prefix, a) + ids_of(prefix, b));
}

/// What is left out of distinct ids leaves distinct ids.
proof fn lemma_without_middle(a: Seq<Seq<char>>, b: Seq<Seq<char>>, c: Seq<Seq<char>>)
    requires
        (a + (b + c)).no_duplicates(),
    ensures
        (a + c).no_duplicates(),
        forall|id: Seq<char>| #[trigger] (a + c).contains(id) ==> (a + (b + c)).contains(id),
{
    let all = a + (b + c);
    let n = b.len() as int;
    let m = a.len() as int;
    assert forall|i: int| 0 <= i < (a + c).len() implies (a + c)[i] == all[if i < m {
        i
    } else {
        i + n
    }] by {}
    assert forall|i: int, j: int| 0 <= i < (a + c).len() && 0 <= j < (a + c).len() && i
        != j implies (a + c)[i] != (a + c)[j] by {
        let x = if i < m { i } else { i + n };
        let y = if j < m { j } else { j + n };
        assert(all[x] != all[y]);
    }
    assert forall|id: Seq<char>| #[trigger] (a + c).contains(id) implies all.contains(id) by {
        let i = choose|i: int| 0 <= i < (a + c).len() && (a + c)[i] == id;
        let x = if i < m { i } else { i + n };
        assert(all[x] == id);
    }
}

/// Where an id of waiting sources comes from.
proof fn lemma_waiting_from(w: Seq<(Seq<char>, Seq<Seq<char>>)>, id: Seq<char>)
    requires
        waiting_ids(w).contains(id),
    ensures
        exists|i: int, a: int|
            0 <= i < w.len() && 0 <= a < w[i].1.len() && id_of(w[i].0, #[trigger] w[i].1[a]) == id,
    decreases w.len(),
{
    let first = ids_of(w[0].0, w[0].1);
    let rest = waiting_ids(w.skip(1));
    let k = choose|k: int| 0 <= k < waiting_ids(w).len() && waiting_ids(w)[k] == id;
    if k < first.len() {
        assert(id_of(w[0].0, w[0].1[k]) == id);
    } else {
        assert(rest[k - first.len()] == id);
        lemma_waiting_from(w.skip(1), id);
        let (i, a) = choose|i: int, a: int|
            0 <= i < w.skip(1).len() && 0 <= a < w.skip(1)[i].1.len() && id_of(
                w.skip(1)[i].0,
                #[trigger] w.skip(1)[i].1[a],
            ) == id;
        assert(id_of(w[i + 1].0, w[i + 1].1[a]) == id);
    }
}

/// Whether no id stands twice with waiting sources.
spec fn apart(w: Seq<(Seq<char>, Seq<Seq<char>>)>) -> bool {
    &&& forall|i: int| 0 <= i < w.len() ==> (#[trigger] w[i]).1.no_duplicates()
    &&& forall|i: int, j: int, a: int, b: int|
        0 <= i < j < w.len() && 0 <= a < w[i].1.len() && 0 <= b < w[j].1.len() ==> id_of(
            w[i].0,
            #[trigger] w[i].1[a],
        ) != id_of(w[j].0, #[trigger] w[j].1[b])
}

proof fn lemma_apart(w: Seq<(Seq<char>, Seq<Seq<char>>)>)
    requires
        apart(w),
    ensures
        waiting_ids(w).no_duplicates(),
    decreases w.len(),
{
    if w.len() > 0 {
        let rest = w.skip(1);
        let first = ids_of(w[0].0, w[0].1);
        let ids = waiting_ids(w);
        assert(apart(rest)) by {
            assert forall|i: int| 0 <= i < rest.len() implies (
            #[trigger] rest[i]).1.no_duplicates() by {
                assert(w[i + 1].1.no_duplicates());
            }
            assert forall|i: int, j: int, a: int, b: int|
                0 <= i < j < rest.len() && 0 <= a < rest[i].1.len() && 0 <= b
                    < rest[j].1.len() implies id_of(rest[i].0, #[trigger] rest[i].1[a]) != id_of(
                rest[j].0,
                #[trigger] rest[j].1[b],
            ) by {
                assert(id_of(w[i + 1].0, w[i + 1].1[a]) != id_of(w[j + 1].0, w[j + 1].1[b]));
            }
        }
        lemma_apart(rest);
        assert forall|x: int, y: int| 0 <= x < ids.len() && 0 <= y < ids.len() && x
            < y implies ids[x] != ids[y] by {
            if y < first.len() {
                assert(w[0].1[x] != w[0].1[y]);
                if ids[x] == ids[y] {
                    law_ids_tell_keys_apart(w[0].0, w[0].1[x], w[0].1[y]);
                }
            } else if x < first.len() {
                let tail = waiting_ids(rest);
                assert(tail[y - first.len()] == ids[y]);
                lemma_waiting_from(rest, ids[y]);
                let (j, b) = choose|j: int, b: int|
                    0 <= j < rest.len() && 0 <= b < rest[j].1.len() && id_of(
                        rest[j].0,
                        #[trigger] rest[j].1[b],
                    ) == ids[y];
                assert(id_of(w[0].0, w[0].1[x]) != id_of(w[j + 1].0, w[j + 1].1[b]));
            } else {
                let tail = waiting_ids(rest);
                assert(tail[x - first.len()] != tail[y - first.len()]);
            }
        }
    }
}

/// What a pass is to ask for: distinct ids that were not come upon before, and now were,
/// close enough to a request.
proof fn lemma_planned<S: Source>(
    manager: CitationManager<S>,
    run: RunView,
    cache: Map<Seq<char>, RecordView>,
    now: int,
)
    ensures
        ({
            let ids = waiting_ids(grouped(manager.pass_plan(run, cache, now).fetch));
            let seen = manager.pass_opened(run, cache, now).seen;
            &&& ids.no_duplicates()
            &&& forall|id: Seq<char>| #[trigger]
                ids.contains(id) ==> !run.seen.contains_key(id) && seen.contains_key(id)
                    && seen[id].depth < manager.depth_limit()
            &&& forall|id: Seq<char>| #[trigger]
                run.seen.contains_key(id) ==> seen.contains_key(id) && seen[id] == run.seen[id]
        }),
{
    let a = manager.sift_all(run.seen, run.worklist);
    let records = lookups(cache, a.candidates);
    let fetch = manager.pass_plan(run, cache, now).fetch;
    let w = grouped(fetch);
    law_candidates(manager, run.seen, run.worklist);
    lemma_fetch_from(a.candidates, records, now);
    law_buckets_partition(fetch);
    assert(apart(w)) by {
        assert forall|i: int| 0 <= i < w.len() implies (#[trigger] w[i]).1.no_duplicates() by {
            lemma_keys_distinct(fetch, w[i].0);
        }
        assert forall|i: int, j: int, x: int, y: int|
            0 <= i < j < w.len() && 0 <= x < w[i].1.len() && 0 <= y < w[j].1.len() implies id_of(
            w[i].0,
            #[trigger] w[i].1[x],
        ) != id_of(w[j].0, #[trigger] w[j].1[y]) by {
            assert(w[i].0 != w[j].0);
            let p = item_at(fetch, w[i].0, w[i].1[x]);
            let q = item_at(fetch, w[j].0, w[j].1[y]);
            lemma_item_at(fetch, w[i].0, x);
            lemma_item_at(fetch, w[j].0, y);
            if p < q {
                assert(fetch[p].id() != fetch[q].id());
            } else {
                assert(fetch[q].id() != fetch[p].id());
            }
        }
    }
    lemma_apart(w);
    let ids = waiting_ids(w);
    assert forall|id: Seq<char>| #[trigger] ids.contains(id) implies !run.seen.contains_key(id)
        && a.seen.contains_key(id) && a.seen[id].depth < manager.depth_limit() by {
        lemma_waiting_from(w, id);
        let (i, x) = choose|i: int, x: int|
            0 <= i < w.len() && 0 <= x < w[i].1.len() && id_of(w[i].0, #[trigger] w[i].1[x]) == id;
        lemma_item_at(fetch, w[i].0, x);
        let p = item_at(fetch, w[i].0, w[i].1[x]);
        assert(a.candidates.contains(fetch[p]));
        let c = choose|c: int| 0 <= c < a.candidates.len() && a.candidates[c] == fetch[p];
        assert(!run.seen.contains_key(a.candidates[c].id()));
    }
}

/// A citation with the prefix and the key.
spec fn item_at(
    items: Seq<ItemView>,
    prefix: Seq<char>,
    key: Seq<char>,
) -> int {
    choose|i: int|
        0 <= i < items.len() && (#[trigger] items[i]).prefix == prefix && items[i].key == key
}

proof fn lemma_item_at(items: Seq<ItemView>, prefix: Seq<char>, x: int)
    requires
        0 <= x < keys_with(items, prefix).len(),
    ensures
        ({
            let key = keys_with(items, prefix)[x];
            let i = item_at(items, prefix, key);
            0 <= i < items.len() && items[i].prefix == prefix && items[i].key == key
        }),
{
    lemma_key_has_item(items, prefix, keys_with(items, prefix)[x]);
}

/// A step keeps what was asked for and what is to be distinct.
proof fn lemma_step<S: Source>(manager: CitationManager<S>, t: Turn, asked: Seq<Seq<char>>)
    requires
        is_taken(manager, t),
        sound(t.before, asked, manager.depth_limit()),
    ensures
        sound(t.after, asked + asked_in(t.action), manager.depth_limit()),
{
    let s = t.before;
    let u = t.after;
    let none = Seq::<Seq<char>>::empty();
    let rest = waiting_ids(s.waiting);
    if s.asking is Some {
        let a = s.asking->Some_0;
        if a.left.len() == 0 {
            assert(joined_chunks(a.left) =~= Seq::empty());
            assert(to_ask(s) =~= rest);
            assert(to_ask(u) =~= rest);
            assert(asked + none =~= asked);
        } else if t.action is Wait {
            assert(to_ask(u) =~= to_ask(s));
            assert(asked + none =~= asked);
        } else {
            let piece = a.left[0];
            let more = joined_chunks(a.left.skip(1));
            lemma_ids_concat(a.prefix, piece, more);
            assert(asked_in(t.action) == ids_of(a.prefix, piece));
            assert(asked + to_ask(s) =~= (asked + asked_in(t.action)) + to_ask(u));
        }
    } else if s.waiting.len() > 0 {
        let prefix = s.waiting[0].0;
        let keys = s.waiting[0].1;
        let left = u.asking->Some_0.left;
        assert(asked + none =~= asked);
        assert(to_ask(s) =~= ids_of(prefix, keys) + waiting_ids(s.waiting.skip(1)));
        if manager.bound().contains_key(prefix) {
            let size = choose|size: usize| left == chunks(keys, #[trigger] chunk_limit(size));
            law_chunks_partition(keys, chunk_limit(size));
            assert(to_ask(u) =~= to_ask(s));
        } else {
            assert(joined_chunks(left) =~= Seq::empty());
            assert(to_ask(u) =~= waiting_ids(s.waiting.skip(1)));
            lemma_without_middle(asked, ids_of(prefix, keys), waiting_ids(s.waiting.skip(1)));
        }
    } else if s.answered.len() > 0 {
        let a = s.answered[0];
        let verdicts = manager.settled(a.prefix, a.keys, a.got, s.run.seen, a.ttl, t.now);
        lemma_seen_stays(t.cache, s.run, verdicts, manager.ttl_policy().grace, t.now);
        assert(to_ask(u) =~= to_ask(s));
        assert(asked + none =~= asked);
    } else if !s.in_pass && s.run.worklist.len() > 0 {
        lemma_planned(manager, s.run, t.cache, t.now);
        let ids = waiting_ids(u.waiting);
        assert(to_ask(s) =~= none);
        assert(to_ask(u) =~= ids);
        assert(asked + none =~= asked);
        let all = asked + ids;
        assert forall|i: int, j: int| 0 <= i < all.len() && 0 <= j < all.len() && i
            < j implies all[i] != all[j] by {
            if i < asked.len() && j >= asked.len() {
                assert((asked + to_ask(s)).contains(all[i])) by {
                    assert((asked + to_ask(s))[i] == all[i]);
                }
                assert(ids[j - asked.len()] == all[j]);
                assert(ids.contains(all[j]));
            } else if j < asked.len() {
                assert((asked + to_ask(s))[i] != (asked + to_ask(s))[j]);
            } else {
                assert(ids[i - asked.len()] != ids[j - asked.len()]);
            }
        }
        assert forall|id: Seq<char>| #[trigger] all.contains(id) implies u.run.seen.contains_key(
            id,
        ) && u.run.seen[id].depth < manager.depth_limit() by {
            let i = choose|i: int| 0 <= i < all.len() && all[i] == id;
            if i < asked.len() {
                assert((asked + to_ask(s))[i] == id);
                assert((asked + to_ask(s)).contains(id));
            } else {
                assert(ids[i - asked.len()] == id);
                assert(ids.contains(id));
            }
        }
    } else {
        assert(to_ask(u) =~= to_ask(s));
        assert(asked + none =~= asked);
    }
}

/// An answer changes nothing of what was asked for and what is to be.
proof fn lemma_resumed(a: SessionView, b: SessionView, asked: Seq<Seq<char>>, limit: nat)
    requires
        sound(a, asked, limit),
        resumes(a, b),
    ensures
        sound(b, asked, limit),
{
    assert(to_ask(b) =~= to_ask(a));
}

/// In a whole retrieval no id is asked for twice, whatever the sources answer and however
/// they chain; and every id that is asked for is fewer pointers away from a request than
/// the manager follows.
pub proof fn law_no_id_is_asked_for_twice<S: Source>(
    manager: CitationManager<S>,
    cites: Seq<(String, String)>,
    turns: Seq<Turn>,
)
    requires
        runs(manager, cites, turns),
    ensures
        asked_ids(turns).no_duplicates(),
        forall|id: Seq<char>| #[trigger]
            asked_ids(turns).contains(id) ==> {
                let seen = reached(cites, turns).run.seen;
                seen.contains_key(id) && seen[id].depth < manager.depth_limit()
            },
{
    lemma_sound(manager, cites, turns);
    let asked = asked_ids(turns);
    let s = reached(cites, turns);
    let all = asked + to_ask(s);
    assert forall|i: int, j: int| 0 <= i < asked.len() && 0 <= j < asked.len() && i
        != j implies asked[i] != asked[j] by {
        assert(all[i] != all[j]);
    }
    assert forall|id: Seq<char>| #[trigger] asked.contains(id) implies s.run.seen.contains_key(id)
        && s.run.seen[id].depth < manager.depth_limit() by {
        let i = choose|i: int| 0 <= i < asked.len() && asked[i] == id;
        assert(all[i] == id);
        assert(all.contains(id));
    }
}

proof fn lemma_front<S: Source>(
    manager: CitationManager<S>,
    cites: Seq<(String, String)>,
    turns: Seq<Turn>,
)
    requires
        runs(manager, cites, turns),
        turns.len() > 0,
    ensures
        runs(manager, cites, turns.drop_last()),
        is_taken(manager, turns.last()),
        resumes(reached(cites, turns.drop_last()), turns.last().before),
{
    let front = turns.drop_last();
    let n = turns.len() - 1;
    assert(is_taken(manager, turns[n]));
    assert forall|i: int| 0 <= i < front.len() implies is_taken(manager, #[trigger] front[i]) by {
        assert(front[i] == turns[i]);
    }
    assert forall|i: int| 0 < i < front.len() implies resumes(
        front[i - 1].after,
        (#[trigger] front[i]).before,
    ) by {
        assert(front[i] == turns[i]);
    }
    if n > 0 {
        assert(front[0] == turns[0]);
        assert(resumes(turns[n - 1].after, turns[n].before));
    }
}

proof fn lemma_sound<S: Source>(
    manager: CitationManager<S>,
    cites: Seq<(String, String)>,
    turns: Seq<Turn>,
)
    requires
        runs(manager, cites, turns),
    ensures
        sound(reached(cites, turns), asked_ids(turns), manager.depth_limit()),
    decreases turns.len(),
{
    if turns.len() == 0 {
        assert(asked_ids(turns) + to_ask(at_first(cites)) =~= Seq::empty());
    } else {
        let front = turns.drop_last();
        let last = turns.last();
        lemma_front(manager, cites, turns);
        lemma_sound(manager, cites, front);
        lemma_resumed(
            reached(cites, front),
            last.before,
            asked_ids(front),
            manager.depth_limit(),
        );
        lemma_step(manager, last, asked_ids(front));
    }
}

/// Whether nothing is left to do but to close the pass.
spec fn idle(s: SessionView) -> bool {
    &&& s.waiting.len() == 0
    &&& s.asking is None
    &&& s.answered.len() == 0
    &&& s.run.worklist.len() == 0
}

/// Whether as many passes were planned as the retrieval counts, and no more than may be.
spec fn bounded(s: SessionView, planned: nat, limit: nat) -> bool {
    &&& on_course(s)
    &&& s.pass == planned
    &&& planned <= limit + 1
    &&& planned == limit + 1 ==> idle(s)
}

proof fn lemma_bounded<S: Source>(
    manager: CitationManager<S>,
    cites: Seq<(String, String)>,
    turns: Seq<Turn>,
)
    requires
        runs(manager, cites, turns),
        manager.depth_limit() < usize::MAX,
    ensures
        bounded(reached(cites, turns), passes(turns), manager.depth_limit()),
    decreases turns.len(),
{
    let limit = manager.depth_limit();
    if turns.len() == 0 {
        law_a_retrieval_is_on_its_course(cites, at_first(cites), Seq::empty());
    } else {
        let front = turns.drop_last();
        let t = turns.last();
        lemma_front(manager, cites, turns);
        lemma_bounded(manager, cites, front);
        let a = reached(cites, front);
        if t.before != a {
            let more = choose|more: Seq<ResolutionView>| t.before == #[trigger] heard(a, more);
            law_a_retrieval_is_on_its_course(cites, a, more);
        }
        assert(bounded(t.before, passes(front), limit));
        if t.before.pass == limit + 1 {
            assert(!(t.action is Planned));
            assert(idle(t.after) && t.after.pass == t.before.pass);
            assert(on_course(t.after));
        } else {
            law_a_retrieval_ends(
                manager,
                t.before,
                t.cache,
                t.filed,
                t.now,
                t.after,
                t.cache_after,
                t.filed_then,
                t.action,
            );
        }
    }
}

/// A whole retrieval plans at most one pass more than pointers are followed, whatever the
/// sources answer and however they chain.
pub proof fn law_passes_are_bounded<S: Source>(
    manager: CitationManager<S>,
    cites: Seq<(String, String)>,
    turns: Seq<Turn>,
)
    requires
        runs(manager, cites, turns),
        manager.depth_limit() < usize::MAX,
    ensures
        passes(turns) <= manager.depth_limit() + 1,
{
    lemma_bounded(manager, cites, turns);
}

/// Whether it is reported of an id that it is too many pointers away from a request.
pub open spec fn is_too_far(failures: Seq<FailureView>, id: Seq<char>, limit: nat) -> bool {
    exists|k: int|
        {
            &&& 0 <= k < failures.len()
            &&& id_of((#[trigger] failures[k]).prefix, failures[k].key) == id
            &&& failures[k].message == error_text(too_deep(id, limit))
        }
}

/// Whether it is reported of every id that was come upon too many pointers away.
spec fn far_is_reported(run: RunView, limit: nat) -> bool {
    forall|id: Seq<char>| #[trigger]
        run.seen.contains_key(id) && run.seen[id].depth >= limit ==> is_too_far(
            run.failures,
            id,
            limit,
        )
}

proof fn lemma_sift_far<S: Source>(
    manager: CitationManager<S>,
    seen: Map<Seq<char>, SeenView>,
    batch: Seq<ItemView>,
)
    ensures
        ({
            let a = manager.sift_all(seen, batch);
            forall|id: Seq<char>| #[trigger]
                a.seen.contains_key(id) && !seen.contains_key(id) && a.seen[id].depth
                    >= manager.depth_limit() ==> exists|i: int|
                    0 <= i < a.refused.len() && (#[trigger] a.refused[i]).item.id() == id
                        && a.refused[i].error == too_deep(id, manager.depth_limit())
        }),
    decreases batch.len(),
{
    if batch.len() > 0 {
        let front = batch.drop_last();
        lemma_sift_far(manager, seen, front);
        let f = manager.sift_all(seen, front);
        let a = manager.sift_all(seen, batch);
        let limit = manager.depth_limit();
        assert forall|id: Seq<char>| #[trigger]
            a.seen.contains_key(id) && !seen.contains_key(id) && a.seen[id].depth
                >= limit implies exists|i: int|
            0 <= i < a.refused.len() && (#[trigger] a.refused[i]).item.id() == id
                && a.refused[i].error == too_deep(id, limit) by {
            if f.seen.contains_key(id) {
                let i = choose|i: int|
                    0 <= i < f.refused.len() && (#[trigger] f.refused[i]).item.id() == id
                        && f.refused[i].error == too_deep(id, limit);
                assert(a.refused[i] == f.refused[i]);
            } else {
                assert(a.refused[f.refused.len() as int].item.id() == id);
            }
        }
    }
}

/// What is reported stays reported.
proof fn lemma_stays_reported(
    a: Seq<FailureView>,
    b: Seq<FailureView>,
    id: Seq<char>,
    limit: nat,
)
    requires
        is_too_far(a, id, limit),
        a.len() <= b.len(),
        forall|k: int| 0 <= k < a.len() ==> #[trigger] b[k] == a[k],
    ensures
        is_too_far(b, id, limit),
{
    let k = choose|k: int|
        {
            &&& 0 <= k < a.len()
            &&& id_of((#[trigger] a[k]).prefix, a[k].key) == id
            &&& a[k].message == error_text(too_deep(id, limit))
        };
    assert(b[k] == a[k]);
}

proof fn lemma_far_step<S: Source>(manager: CitationManager<S>, t: Turn)
    requires
        is_taken(manager, t),
        far_is_reported(t.before.run, manager.depth_limit()),
    ensures
        far_is_reported(t.after.run, manager.depth_limit()),
{
    let s = t.before;
    let u = t.after;
    let limit = manager.depth_limit();
    if s.asking is None && s.waiting.len() == 0 && s.answered.len() > 0 {
        let a = s.answered[0];
        let verdicts = manager.settled(a.prefix, a.keys, a.got, s.run.seen, a.ttl, t.now);
        let grace = manager.ttl_policy().grace;
        lemma_seen_stays(t.cache, s.run, verdicts, grace, t.now);
        lemma_failures_grow(t.cache, s.run, verdicts, grace, t.now);
        assert forall|id: Seq<char>| #[trigger]
            u.run.seen.contains_key(id) && u.run.seen[id].depth >= limit implies is_too_far(
            u.run.failures,
            id,
            limit,
        ) by {
            lemma_stays_reported(s.run.failures, u.run.failures, id, limit);
        }
    } else if s.asking is None && s.waiting.len() == 0 && !s.in_pass && s.run.worklist.len() > 0 {
        let sifted = manager.sift_all(s.run.seen, s.run.worklist);
        lemma_sift_far(manager, s.run.seen, s.run.worklist);
        law_candidates(manager, s.run.seen, s.run.worklist);
        assert forall|id: Seq<char>| #[trigger]
            u.run.seen.contains_key(id) && u.run.seen[id].depth >= limit implies is_too_far(
            u.run.failures,
            id,
            limit,
        ) by {
            if s.run.seen.contains_key(id) {
                lemma_stays_reported(s.run.failures, u.run.failures, id, limit);
            } else {
                assert(sifted.seen.contains_key(id));
                let i = choose|i: int|
                    0 <= i < sifted.refused.len() && (#[trigger] sifted.refused[i]).item.id() == id
                        && sifted.refused[i].error == too_deep(id, limit);
                let k = s.run.failures.len() + i;
                assert(u.run.failures[k] == sifted.refused[i].item.failure(
                    sifted.refused[i].error,
                ));
                assert(id_of(u.run.failures[k].prefix, u.run.failures[k].key) == id);
            }
        }
    }
}

/// In a whole retrieval, an id that is first come upon as many pointers away from a request
/// as the manager follows, or more, is never asked for: it is reported.
pub proof fn law_what_is_too_far_is_reported<S: Source>(
    manager: CitationManager<S>,
    cites: Seq<(String, String)>,
    turns: Seq<Turn>,
    id: Seq<char>,
)
    requires
        runs(manager, cites, turns),
        reached(cites, turns).run.seen.contains_key(id),
        reached(cites, turns).run.seen[id].depth >= manager.depth_limit(),
    ensures
        !asked_ids(turns).contains(id),
        is_too_far(reached(cites, turns).run.failures, id, manager.depth_limit()),
{
    law_no_id_is_asked_for_twice(manager, cites, turns);
    lemma_far(manager, cites, turns);
}

proof fn lemma_far<S: Source>(
    manager: CitationManager<S>,
    cites: Seq<(String, String)>,
    turns: Seq<Turn>,
)
    requires
        runs(manager, cites, turns),
    ensures
        far_is_reported(reached(cites, turns).run, manager.depth_limit()),
    decreases turns.len(),
{
    if turns.len() > 0 {
        lemma_front(manager, cites, turns);
        lemma_far(manager, cites, turns.drop_last());
        lemma_far_step(manager, turns.last());
    }
}

} // verus!
