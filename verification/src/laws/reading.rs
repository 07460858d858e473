//! What a citation reads as: the item that its pointers lead to, with what they set.

use crate::csl::{id_of, Json};
use crate::env::duration_millis;
use crate::error::ErrorView;
use crate::manager::CitationManager;
use crate::reading::{StepView, WalkView};
use crate::retrieval::lookup;
use crate::source::Source;
use crate::store::{PayloadView, RecordView};
use crate::text::decimal;
use vstd::prelude::*;
use vstd::string::*;

verus! {

/// Whether a record is a pointer from one id to another.
pub open spec fn points<S: Source>(
    manager: CitationManager<S>,
    cache: Map<Seq<char>, RecordView>,
    from: Seq<char>,
    to: Seq<char>,
) -> bool {
    &&& cache.contains_key(from)
    &&& cache[from].payload matches PayloadView::Chained { prefix, key, .. }
    &&& to == prefix + seq![':'] + (if manager.bound().contains_key(prefix) {
        manager.bound()[prefix].key_form(key)
    } else {
        key
    })
    &&& to != from
}

/// Whether each id points to the next one.
pub open spec fn is_chain<S: Source>(
    manager: CitationManager<S>,
    cache: Map<Seq<char>, RecordView>,
    ids: Seq<Seq<char>>,
) -> bool {
    forall|i: int| 0 <= i < ids.len() - 1 ==> #[trigger] points(manager, cache, ids[i], ids[i + 1])
}

/// The value of a member along a chain: the one that the first pointer with such a property
/// sets, or else that of the item at its end.
pub open spec fn along(
    cache: Map<Seq<char>, RecordView>,
    ids: Seq<Seq<char>>,
    name: Seq<char>,
) -> Option<Json>
    decreases ids.len(),
{
    if ids.len() == 0 {
        None
    } else {
        match cache[ids[0]].payload {
            PayloadView::Concrete(Json::Object(m)) => if m.contains_key(name) {
                Some(m[name])
            } else {
                None
            },
            PayloadView::Concrete(_) => None,
            PayloadView::Chained { set_properties: Json::Object(m), .. } if m.contains_key(name) =>
                Some(m[name]),
            PayloadView::Chained { .. } => along(cache, ids.skip(1), name),
        }
    }
}

/// Whether an item has this value for a member, or has no such member.
pub open spec fn has_value(m: Map<Seq<char>, Json>, name: Seq<char>, v: Option<Json>) -> bool {
    match v {
        Some(j) => m.contains_key(name) && m[name] == j,
        None => !m.contains_key(name),
    }
}

/// A citation reads as the item at the end of its chain, with what the pointers on the way
/// set, those closer to it before those further away, and under its own id, however old the
/// records are.
pub proof fn law_a_chain_is_read_through<S: Source>(
    manager: CitationManager<S>,
    cache: Map<Seq<char>, RecordView>,
    prefix: Seq<char>,
    key: Seq<char>,
    ids: Seq<Seq<char>>,
)
    requires
        0 < ids.len() <= manager.depth_limit(),
        ids[0] == id_of(prefix, manager.form(prefix, key)),
        is_chain(manager, cache, ids),
        cache.contains_key(ids.last()),
        cache[ids.last()].payload matches PayloadView::Concrete(j) && j is Object,
    ensures
        ({
            &&& manager.read(cache, prefix, key) matches Ok(Json::Object(m))
            &&& m.contains_key("id"@)
            &&& m["id"@] == Json::Text(ids[0])
            &&& forall|name: Seq<char>|
                name != "id"@ ==> #[trigger] has_value(m, name, along(cache, ids, name))
        }),
{
    let walk = WalkView {
        requested: ids[0],
        current: ids[0],
        accumulated: Json::Object(Map::empty()),
        left: manager.depth_limit(),
    };
    lemma_walk(manager, cache, walk, ids);
    let m = manager.read(cache, prefix, key)->Ok_0->Object_0;
    assert forall|name: Seq<char>| name != "id"@ implies #[trigger] has_value(
        m,
        name,
        along(cache, ids, name),
    ) by {
        assert(has_value(m, name, with_default(Map::empty(), name, along(cache, ids, name))));
    }
}

/// The value of a member that is set, or else the given one.
spec fn with_default(
    set: Map<Seq<char>, Json>,
    name: Seq<char>,
    v: Option<Json>,
) -> Option<Json> {
    if set.contains_key(name) {
        Some(set[name])
    } else {
        v
    }
}

proof fn lemma_walk<S: Source>(
    manager: CitationManager<S>,
    cache: Map<Seq<char>, RecordView>,
    walk: WalkView,
    ids: Seq<Seq<char>>,
)
    requires
        0 < ids.len() <= walk.left,
        walk.current == ids[0],
        walk.accumulated is Object,
        is_chain(manager, cache, ids),
        cache.contains_key(ids.last()),
        cache[ids.last()].payload matches PayloadView::Concrete(j) && j is Object,
    ensures
        ({
            &&& manager.finished(cache, StepView::Lookup(walk)) matches Ok(Json::Object(m))
            &&& m.contains_key("id"@)
            &&& m["id"@] == Json::Text(walk.requested)
            &&& forall|name: Seq<char>|
                name != "id"@ ==> #[trigger] has_value(
                    m,
                    name,
                    with_default(walk.accumulated->Object_0, name, along(cache, ids, name)),
                )
        }),
    decreases ids.len(),
{
    let acc = walk.accumulated->Object_0;
    let step = manager.advanced(walk, lookup(cache, walk.current));
    if ids.len() == 1 {
        assert(manager.finished(cache, StepView::Lookup(walk)) == manager.finished(cache, step));
        let m = manager.finished(cache, StepView::Lookup(walk))->Ok_0->Object_0;
        assert forall|name: Seq<char>| name != "id"@ implies #[trigger] has_value(
            m,
            name,
            with_default(acc, name, along(cache, ids, name)),
        ) by {}
    } else {
        let rest = ids.skip(1);
        assert(points(manager, cache, ids[0], ids[0int + 1]));
        assert(is_chain(manager, cache, rest)) by {
            assert forall|i: int| 0 <= i < rest.len() - 1 implies #[trigger] points(
                manager,
                cache,
                rest[i],
                rest[i + 1],
            ) by {
                assert(points(manager, cache, ids[i + 1], ids[i + 1 + 1]));
            }
        }
        assert(rest.last() == ids.last());
        let next = step->Lookup_0;
        lemma_walk(manager, cache, next, rest);
        let m = manager.finished(cache, step)->Ok_0->Object_0;
        assert forall|name: Seq<char>| name != "id"@ implies #[trigger] has_value(
            m,
            name,
            with_default(acc, name, along(cache, ids, name)),
        ) by {
            assert(has_value(
                m,
                name,
                with_default(next.accumulated->Object_0, name, along(cache, rest, name)),
            ));
        }
    }
}

/// A citation whose chain leads to nothing, or on for too long, does not read: the first is
/// said to be not found if there is no record of the citation itself, and the other two tell
/// where the chain breaks, or how long it may be.
pub proof fn law_a_chain_to_nothing_does_not_read<S: Source>(
    manager: CitationManager<S>,
    cache: Map<Seq<char>, RecordView>,
    prefix: Seq<char>,
    key: Seq<char>,
    ids: Seq<Seq<char>>,
)
    requires
        0 < ids.len(),
        ids[0] == id_of(prefix, manager.form(prefix, key)),
        is_chain(manager, cache, ids),
        ids.len() > manager.depth_limit() || !cache.contains_key(ids.last()),
    ensures
        manager.read(cache, prefix, key) is Err,
        manager.depth_limit() > 0 && !cache.contains_key(ids[0]) ==> manager.read(
            cache,
            prefix,
            key,
        ) == Err::<Json, ErrorView>(ErrorView::NotFound(ids[0])),
        0 < manager.depth_limit() < ids.len() ==> manager.read(cache, prefix, key) == Err::<
            Json,
            ErrorView,
        >(
            ErrorView::Chain(
                "chain from `"@ + ids[0] + "` is longer than the "@ + decimal(manager.depth_limit())
                    + " link limit"@,
            ),
        ),
        ids.len() <= manager.depth_limit() && ids.last() != ids[0] ==> manager.read(
            cache,
            prefix,
            key,
        ) == Err::<Json, ErrorView>(
            ErrorView::Chain(
                "`"@ + ids[0] + "` chains to `"@ + ids.last() + "`, which is not in the cache"@,
            ),
        ),
{
    let walk = WalkView {
        requested: ids[0],
        current: ids[0],
        accumulated: Json::Object(Map::empty()),
        left: manager.depth_limit(),
    };
    if manager.depth_limit() > 0 {
        lemma_walk_fails(manager, cache, walk, ids);
        if !cache.contains_key(ids[0]) {
            reveal_with_fuel(CitationManager::finished, 3);
        }
    }
}

proof fn lemma_walk_fails<S: Source>(
    manager: CitationManager<S>,
    cache: Map<Seq<char>, RecordView>,
    walk: WalkView,
    ids: Seq<Seq<char>>,
)
    requires
        0 < ids.len(),
        walk.current == ids[0],
        is_chain(manager, cache, ids),
        ids.len() > walk.left || !cache.contains_key(ids.last()),
    ensures
        manager.finished(cache, StepView::Lookup(walk)) is Err,
        0 < walk.left < ids.len() ==> manager.finished(cache, StepView::Lookup(walk)) == Err::<
            Json,
            ErrorView,
        >(
            ErrorView::Chain(
                "chain from `"@ + walk.requested + "` is longer than the "@ + decimal(
                    manager.depth_limit(),
                ) + " link limit"@,
            ),
        ),
        ids.len() <= walk.left && ids.last() != walk.requested ==> manager.finished(
            cache,
            StepView::Lookup(walk),
        ) == Err::<Json, ErrorView>(
            ErrorView::Chain(
                "`"@ + walk.requested + "` chains to `"@ + ids.last()
                    + "`, which is not in the cache"@,
            ),
        ),
    decreases ids.len(),
{
    if walk.left > 0 {
        let step = manager.advanced(walk, lookup(cache, walk.current));
        if ids.len() > 1 {
            let rest = ids.skip(1);
            assert(points(manager, cache, ids[0], ids[0int + 1]));
            assert(is_chain(manager, cache, rest)) by {
                assert forall|i: int| 0 <= i < rest.len() - 1 implies #[trigger] points(
                    manager,
                    cache,
                    rest[i],
                    rest[i + 1],
                ) by {
                    assert(points(manager, cache, ids[i + 1], ids[i + 1 + 1]));
                }
            }
            assert(rest.last() == ids.last());
            if let StepView::Lookup(next) = step {
                lemma_walk_fails(manager, cache, next, rest);
            }
        }
        assert(manager.finished(cache, step) is Err);
    }
}

/// A citation that points to itself does not read, and an item that is no object reads as it
/// is.
pub proof fn law_what_leads_nowhere_is_told<S: Source>(
    manager: CitationManager<S>,
    cache: Map<Seq<char>, RecordView>,
    prefix: Seq<char>,
    key: Seq<char>,
)
    requires
        manager.depth_limit() > 0,
        cache.contains_key(id_of(prefix, manager.form(prefix, key))),
    ensures
        ({
            let id = id_of(prefix, manager.form(prefix, key));
            match cache[id].payload {
                PayloadView::Chained { prefix: p, key: k, .. } => id_of(p, manager.form(p, k)) == id
                    ==> manager.read(cache, prefix, key) == Err::<Json, ErrorView>(
                    ErrorView::Chain("`"@ + id + "` chains to itself"@),
                ),
                PayloadView::Concrete(j) => !(j is Object) ==> manager.read(cache, prefix, key)
                    == Ok::<Json, ErrorView>(j),
            }
        }),
{
    let id = id_of(prefix, manager.form(prefix, key));
    let walk = WalkView {
        requested: id,
        current: id,
        accumulated: Json::Object(Map::empty()),
        left: manager.depth_limit(),
    };
    let step = manager.advanced(walk, lookup(cache, id));
    assert(manager.finished(cache, StepView::Lookup(walk)) == manager.finished(cache, step));
}

/// A prune drops exactly the records that are past their grace, and leaves the others as
/// they are.
pub proof fn law_a_prune_drops_what_is_past_its_grace<S: Source>(
    manager: CitationManager<S>,
    cache: Map<Seq<char>, RecordView>,
    now: int,
    id: Seq<char>,
)
    requires
        duration_millis(manager.ttl_policy().grace) <= i64::MAX,
        cache.contains_key(id) ==> i64::MIN <= cache[id].expires && cache[id].expires
            + duration_millis(manager.ttl_policy().grace) <= i64::MAX,
    ensures
        manager.pruned(cache, now).contains_key(id) <==> cache.contains_key(id) && now
            < cache[id].expires + duration_millis(manager.ttl_policy().grace),
        manager.pruned(cache, now).contains_key(id) ==> manager.pruned(cache, now)[id]
            == cache[id],
{
}

} // verus!
