//! How sources are asked, and what becomes of what they answer.

use crate::course::{is_taken, Turn};
use crate::csl::Json;
use crate::driver::{chunk_limit, chunks, texts};
use crate::env::{duration_millis, duration_nanos};
use crate::error::{error_text, ErrorView};
use crate::fetch::{text_map, FetchError, Request, Response};
use crate::filecache::{ends_line, replay};
use crate::formats::FormatParser;
use crate::inquiry::{
    dois_read, leads, names, opens, refused_doi, InquiryView, StageView,
};
use crate::json::{plain, DEPTH_LIMIT};
use crate::laws::reading::{along, has_value, law_a_chain_is_read_through};
use crate::laws::sources::law_overriding_dois_count;
use crate::laws::storing::{
    carried_out, in_grace, law_an_answer_is_stored_as_it_came, law_the_first_answer_counts,
    law_verdicts_are_carried_out, law_what_is_not_answered_fails, stored_members,
};
use crate::lines::split;
use crate::manager::{as_seen, CitationManager};
use crate::record::entry_tree;
use crate::retrieval::{grouped, RunView};
use crate::session::{heard, tells, Action, SessionView};
use crate::settle::{
    committed_all, distinct_verdicts, filed_after_all, law_ids_tell_keys_apart,
    law_one_verdict_per_key, note_tells, notes_tell, verdict_views, Note, Noted, Verdict,
    VerdictView,
};
use crate::setup::BuiltIn;
use crate::source::{OutcomeView, ResolutionView, Source};
use crate::source::arxiv::{chunk_resolutions, overrides_give, query_url, ArxivSource};
use crate::source::bibfile::{all_failed, bib_resolutions, loaded, BibliographyFileSource};
use crate::source::doi::{doi_fault, doi_outcome, doi_url, DoiSource};
use crate::source::manual::{is_manual, ManualSource};
use crate::store::{PayloadView, RecordView};
use core::time::Duration;
use vstd::prelude::*;
use vstd::string::*;
use vstd::utf8::encode_utf8;

verus! {

/// What a source answers is kept as it comes, in order, until all its keys were asked for,
/// and then it stands, with the keys and the lifetime, behind what was answered before.
/// Nothing else changes meanwhile but when the source was last asked.
pub proof fn law_what_is_heard_is_kept<S: Source>(manager: CitationManager<S>, t: Turn)
    requires
        is_taken(manager, t),
        t.before.asking is Some,
    ensures
        t.cache_after == t.cache,
        t.filed_then == t.filed,
        t.after.run == t.before.run,
        t.after.pass == t.before.pass,
        t.after.in_pass == t.before.in_pass,
        t.after.waiting == t.before.waiting,
        ({
            let a = t.before.asking->Some_0;
            match t.action {
                Action::Ended { prefix, done } => {
                    &&& a.left.len() == 0
                    &&& prefix@ == a.prefix
                    &&& done == a.done
                    &&& t.after.last == t.before.last
                    &&& t.after.asking is None
                    &&& t.after.answered.len() == t.before.answered.len() + 1
                    &&& t.before.answered.is_prefix_of(t.after.answered)
                    &&& t.after.answered.last().prefix == a.prefix
                    &&& t.after.answered.last().keys == a.keys
                    &&& t.after.answered.last().ttl == a.ttl
                    &&& t.after.answered.last().got == a.got
                },
                _ => {
                    &&& a.left.len() > 0
                    &&& t.after.answered == t.before.answered
                    &&& t.after.asking matches Some(b)
                    &&& b.prefix == a.prefix
                    &&& b.keys == a.keys
                    &&& b.ttl == a.ttl
                    &&& b.interval == a.interval
                    &&& b.got == a.got
                    &&& match t.action {
                        Action::Ask { prefix, keys } => {
                            &&& prefix@ == a.prefix
                            &&& a.left == seq![texts(keys@)] + b.left
                            &&& a.done + keys@.len() <= usize::MAX ==> b.done == a.done + keys@.len()
                            &&& !b.paced
                            &&& t.after.last.contains_key(a.prefix)
                            &&& t.after.last[a.prefix] == t.now
                            &&& forall|p: Seq<char>|
                                p != a.prefix ==> (#[trigger] t.after.last.contains_key(p)
                                    == t.before.last.contains_key(p) && (
                                t.before.last.contains_key(p) ==> t.after.last[p]
                                    == t.before.last[p]))
                        },
                        Action::Wait { prefix, length } => {
                            &&& prefix@ == a.prefix
                            &&& b.left == a.left
                            &&& b.done == a.done
                            &&& b.paced && !a.paced
                            &&& t.after.last == t.before.last
                            &&& t.before.last.contains_key(a.prefix)
                            &&& 0 < duration_nanos(length) <= duration_nanos(a.interval)
                        },
                        _ => false,
                    }
                },
            }
        }),
{
    let a = t.before.asking->Some_0;
    if a.left.len() > 0 {
        assert(a.left =~= seq![a.left[0]] + a.left.skip(1));
        if let Action::Ask { prefix, keys } = t.action {
            assert(texts(keys@).len() == keys@.len());
        }
    }
}

/// An answer goes behind what the source answered before, and changes nothing else.
pub proof fn law_answers_are_put_in_a_row(s: SessionView, more: Seq<ResolutionView>)
    ensures
        ({
            let t = heard(s, more);
            &&& t.run == s.run && t.pass == s.pass && t.in_pass == s.in_pass
            &&& t.waiting == s.waiting && t.answered == s.answered && t.last == s.last
            &&& s.asking is None ==> t.asking is None
            &&& s.asking matches Some(a) ==> {
                &&& t.asking matches Some(b)
                &&& b.got == a.got + more
                &&& b.prefix == a.prefix && b.keys == a.keys && b.left == a.left
                &&& b.done == a.done && b.paced == a.paced
                &&& b.interval == a.interval && b.ttl == a.ttl
            }
        }),
{
}

/// The sources of a pass are asked in turn, each for its own keys and on its own terms: in
/// chunks of the size, with the pause and for the lifetime that it wants.
pub proof fn law_sources_are_asked_on_their_terms<S: Source>(manager: CitationManager<S>, t: Turn)
    requires
        is_taken(manager, t),
        t.before.asking is None,
        t.before.waiting.len() > 0,
        manager.bound().contains_key(t.before.waiting[0].0),
    ensures
        t.cache_after == t.cache,
        t.filed_then == t.filed,
        t.after.run == t.before.run,
        t.after.answered == t.before.answered,
        t.after.last == t.before.last,
        t.after.pass == t.before.pass,
        t.after.in_pass == t.before.in_pass,
        t.before.waiting == seq![t.before.waiting[0]] + t.after.waiting,
        chunk_limit(0) == 1,
        forall|size: usize| size > 0 ==> #[trigger] chunk_limit(size) == size,
        ({
            let (prefix, keys) = t.before.waiting[0];
            let source = manager.bound()[prefix];
            &&& t.after.asking matches Some(a)
            &&& a.prefix == prefix
            &&& a.keys == keys
            &&& a.got.len() == 0
            &&& a.done == 0
            &&& !a.paced
            &&& call_ensures(S::min_interval, (&source,), a.interval)
            &&& call_ensures(S::default_ttl, (&source,), a.ttl)
            &&& exists|size: usize| #[trigger]
                call_ensures(S::chunk_size, (&source,), size) && a.left == chunks(
                    keys,
                    chunk_limit(size),
                )
            &&& t.action matches Action::Began { prefix: p, total, chunks: n }
            &&& p@ == prefix
            &&& total == keys.len()
            &&& n == a.left.len()
        }),
{
    assert(t.before.waiting =~= seq![t.before.waiting[0]] + t.before.waiting.skip(1));
}

/// The first answer to a key that was asked for becomes of the cache and of the report what
/// it says, and a key without an answer fails; what is stored, the files hold, and what is
/// missing they do not.
pub proof fn law_what_is_answered_is_settled<S: Source>(
    manager: CitationManager<S>,
    t: Turn,
    key: Seq<char>,
)
    requires
        is_taken(manager, t),
        t.before.asking is None,
        t.before.waiting.len() == 0,
        t.before.answered.len() > 0,
        t.before.answered[0].keys.no_duplicates(),
        t.before.answered[0].keys.contains(key),
        duration_millis(manager.ttl_policy().grace) <= i64::MAX,
        forall|id: Seq<char>| #[trigger]
            t.cache.contains_key(id) ==> i64::MIN <= t.cache[id].expires && t.cache[id].expires
                + duration_millis(manager.ttl_policy().grace) <= i64::MAX,
    ensures
        t.after.asking is None && t.after.waiting.len() == 0,
        t.before.answered == seq![t.before.answered[0]] + t.after.answered,
        t.after.pass == t.before.pass && t.after.in_pass == t.before.in_pass,
        t.after.last == t.before.last,
        t.after.run.seen == t.before.run.seen,
        ({
            let a = t.before.answered[0];
            let item = as_seen(t.before.run.seen, a.prefix, key);
            &&& forall|i: int|
                0 <= i < a.got.len() && (#[trigger] a.got[i]).key == key && (forall|j: int|
                    0 <= j < i ==> (#[trigger] a.got[j]).key != key) ==> is_settled(
                    manager,
                    t,
                    manager.verdict_of(item, a.got[i].outcome, a.ttl, t.now),
                )
            &&& (forall|j: int| 0 <= j < a.got.len() ==> (#[trigger] a.got[j]).key != key)
                ==> is_settled(
                manager,
                t,
                VerdictView::Failed {
                    item,
                    error: ErrorView::Source(
                        "source `"@ + a.prefix + "` returned no resolution for key `"@ + key
                            + "`"@,
                    ),
                },
            )
        }),
{
    let s = t.before;
    let a = s.answered[0];
    let grace = manager.ttl_policy().grace;
    let v = manager.settled(a.prefix, a.keys, a.got, s.run.seen, a.ttl, t.now);
    law_one_verdict_per_key(manager, a.prefix, a.keys, a.got, s.run.seen, a.ttl, t.now);
    law_verdicts_are_carried_out(t.cache, s.run, a.prefix, v, grace, t.now);
    assert(s.answered =~= seq![a] + s.answered.skip(1));
    assert forall|i: int|
        0 <= i < a.got.len() && (#[trigger] a.got[i]).key == key && (forall|j: int|
            0 <= j < i ==> (#[trigger] a.got[j]).key != key) implies is_settled(
        manager,
        t,
        manager.verdict_of(
            as_seen(s.run.seen, a.prefix, key),
            a.got[i].outcome,
            a.ttl,
            t.now,
        ),
    ) by {
        law_the_first_answer_counts(
            manager,
            a.prefix,
            a.keys,
            a.got,
            s.run.seen,
            a.ttl,
            t.now,
            i,
        );
        let one = manager.verdict_of(
            as_seen(s.run.seen, a.prefix, key),
            a.got[i].outcome,
            a.ttl,
            t.now,
        );
        let k = choose|k: int| 0 <= k < v.len() && v[k] == one;
        lemma_filed(t.filed, a.prefix, v, k);
    }
    if forall|j: int| 0 <= j < a.got.len() ==> (#[trigger] a.got[j]).key != key {
        law_what_is_not_answered_fails(
            manager,
            a.prefix,
            a.keys,
            a.got,
            s.run.seen,
            a.ttl,
            t.now,
            key,
        );
        let one = VerdictView::Failed {
            item: as_seen(s.run.seen, a.prefix, key),
            error: ErrorView::Source(
                "source `"@ + a.prefix + "` returned no resolution for key `"@ + key + "`"@,
            ),
        };
        let k = choose|k: int| 0 <= k < v.len() && v[k] == one;
        lemma_filed(t.filed, a.prefix, v, k);
    }
}

/// What a source answers is what is read afterwards: the item with its members, but for what
/// is dropped, and under the id of its citation.
pub proof fn law_what_is_answered_is_read<S: Source>(
    manager: CitationManager<S>,
    t: Turn,
    key: Seq<char>,
    i: int,
    name: Seq<char>,
)
    requires
        is_taken(manager, t),
        t.before.asking is None,
        t.before.waiting.len() == 0,
        t.before.answered.len() > 0,
        t.before.answered[0].keys.no_duplicates(),
        t.before.answered[0].keys.contains(key),
        duration_millis(manager.ttl_policy().grace) <= i64::MAX,
        forall|id: Seq<char>| #[trigger]
            t.cache.contains_key(id) ==> i64::MIN <= t.cache[id].expires && t.cache[id].expires
                + duration_millis(manager.ttl_policy().grace) <= i64::MAX,
        0 <= i < t.before.answered[0].got.len(),
        t.before.answered[0].got[i].key == key,
        forall|j: int| 0 <= j < i ==> (#[trigger] t.before.answered[0].got[j]).key != key,
        t.before.answered[0].got[i].outcome matches OutcomeView::Concrete { csl, .. }
            && csl is Object,
        manager.form(t.before.answered[0].prefix, key) == key,
        manager.depth_limit() > 0,
    ensures
        ({
            let a = t.before.answered[0];
            let came = a.got[i].outcome->Concrete_csl->Object_0;
            &&& manager.read(t.cache_after, a.prefix, key) matches Ok(Json::Object(m))
            &&& m.contains_key("id"@)
            &&& m["id"@] == Json::Text(a.prefix + ":"@ + key)
            &&& name != "id"@ ==> stored_members(came, m, manager.dropped(), name)
        }),
{
    let a = t.before.answered[0];
    let item = as_seen(t.before.run.seen, a.prefix, key);
    let id = item.id();
    law_what_is_answered_is_settled(manager, t, key);
    law_an_answer_is_stored_as_it_came(manager, item, a.got[i].outcome, a.ttl, t.now, name);
    assert(is_settled(manager, t, manager.verdict_of(item, a.got[i].outcome, a.ttl, t.now)));
    let ids = seq![id];
    law_a_chain_is_read_through(manager, t.cache_after, a.prefix, key, ids);
    let m = manager.read(t.cache_after, a.prefix, key)->Ok_0->Object_0;
    reveal_strlit(":");
    assert(id =~= a.prefix + ":"@ + key);
    if name != "id"@ {
        assert(has_value(m, name, along(t.cache_after, ids, name)));
    }
}

/// Whether a step carries a verdict out, in the cache, the report and the files.
pub open spec fn is_settled<S: Source>(
    manager: CitationManager<S>,
    t: Turn,
    verdict: VerdictView,
) -> bool {
    &&& carried_out(
        t.cache,
        t.before.run,
        verdict,
        manager.ttl_policy().grace,
        t.now,
        t.cache_after,
        t.after.run,
    )
    &&& t.filed_then.contains(verdict.item().id()) == (match verdict {
        VerdictView::Put { record, .. } => t.filed.contains(verdict.item().id())
            || record.stale_after != record.expires,
        VerdictView::Failed { .. } => t.filed.contains(verdict.item().id()),
        VerdictView::Missing { .. } => false,
    })
}

proof fn lemma_filed(
    filed: Set<Seq<char>>,
    prefix: Seq<char>,
    v: Seq<VerdictView>,
    k: int,
)
    requires
        distinct_verdicts(prefix, v),
        0 <= k < v.len(),
    ensures
        filed_after_all(filed, v).contains(v[k].item().id()) == (match v[k] {
            VerdictView::Put { record, .. } => filed.contains(v[k].item().id())
                || record.stale_after != record.expires,
            VerdictView::Failed { .. } => filed.contains(v[k].item().id()),
            VerdictView::Missing { .. } => false,
        }),
    decreases v.len(),
{
    let front = v.drop_last();
    let n = v.len() - 1;
    assert(distinct_verdicts(prefix, front)) by {
        assert forall|i: int| 0 <= i < front.len() implies (#[trigger] front[i]).item().prefix
            == prefix by {
            assert(v[i] == front[i]);
        }
        assert forall|i: int, j: int| 0 <= i < j < front.len() implies (
        #[trigger] front[i]).item().key != (#[trigger] front[j]).item().key by {
            assert(v[i].item().key != v[j].item().key);
        }
    }
    if k < n {
        lemma_filed(filed, prefix, front, k);
        assert(front[k] == v[k]);
        assert(v[k].item().key != v[n].item().key);
        assert(v[k].item().prefix == prefix && v[n].item().prefix == prefix);
        if v[k].item().id() == v[n].item().id() {
            law_ids_tell_keys_apart(prefix, v[k].item().key, v[n].item().key);
        }
    } else {
        lemma_filed_untouched(filed, front, v[n].item().id());
        assert forall|i: int| 0 <= i < front.len() implies (#[trigger] front[i]).item().id()
            != v[n].item().id() by {
            assert(v[i].item().key != v[n].item().key);
            assert(v[i].item().prefix == prefix && v[n].item().prefix == prefix);
            if v[i].item().id() == v[n].item().id() {
                law_ids_tell_keys_apart(prefix, v[i].item().key, v[n].item().key);
            }
        }
    }
}

proof fn lemma_filed_untouched(
    filed: Set<Seq<char>>,
    v: Seq<VerdictView>,
    id: Seq<char>,
)
    ensures
        filed_after_all(filed, v).contains(id) == filed.contains(id) || exists|i: int|
            0 <= i < v.len() && (#[trigger] v[i]).item().id() == id,
    decreases v.len(),
{
    if v.len() > 0 {
        let front = v.drop_last();
        lemma_filed_untouched(filed, front, id);
        if v.last().item().id() == id {
            assert(v[v.len() - 1].item().id() == id);
        } else if exists|i: int| 0 <= i < front.len() && (#[trigger] front[i]).item().id() == id {
            let i = choose|i: int| 0 <= i < front.len() && (#[trigger] front[i]).item().id() == id;
            assert(v[i].item().id() == id);
        }
    }
}

/// What is settled is logged: where the line is put behind a log, the log's replay has the
/// new record, or has none where the citation is missing; a failure is not logged. And it
/// is noted: what a citation was resolved into, or why it was not, and whether an old record
/// stands in.
pub proof fn law_what_is_settled_is_logged(
    cache: Map<Seq<char>, RecordView>,
    filed: Set<Seq<char>>,
    verdict: Verdict,
    grace: Duration,
    now: int,
    note: Note,
    log: Seq<u8>,
    start: Map<Seq<char>, RecordView>,
)
    requires
        note_tells(cache, filed, verdict, grace, now, note),
        ends_line(log),
        duration_millis(grace) <= i64::MAX,
        forall|id: Seq<char>| #[trigger]
            cache.contains_key(id) ==> i64::MIN <= cache[id].expires && cache[id].expires
                + duration_millis(grace) <= i64::MAX,
    ensures
        note.prefix@ == verdict@.item().prefix,
        note.key@ == verdict@.item().key,
        match verdict {
            Verdict::Put { item, record, .. } => {
                let id = item@.id();
                &&& record.stale_after != record.expires ==> note.line is Some
                &&& record.stale_after != record.expires && plain(
                    entry_tree(id, record),
                    DEPTH_LIMIT as nat,
                ) ==> {
                    let then = replay(split(log + encode_utf8(note.line->Some_0@), 10u8), start);
                    then.contains_key(id) && then[id] == record@
                }
                &&& match record@.payload {
                    PayloadView::Concrete(_) => note.outcome is Item,
                    PayloadView::Chained { prefix, key, .. } => note.outcome matches Noted::Pointer {
                        prefix: p,
                        key: k,
                    } && p@ == prefix && k@ == key,
                }
            },
            Verdict::Failed { item, error } => {
                &&& note.line is None
                &&& note.outcome matches Noted::Failure { error: e, grace_served }
                &&& e@ == error@
                &&& grace_served == in_grace(cache, item@.id(), grace, now)
            },
            Verdict::Missing { item, error } => {
                let id = item@.id();
                &&& filed.contains(id) || !cache.contains_key(id) ==> {
                    &&& note.line is Some
                    &&& !replay(
                        split(log + encode_utf8(note.line->Some_0@), 10u8),
                        start,
                    ).contains_key(id)
                }
                &&& note.outcome matches Noted::Failure { error: e, grace_served }
                &&& e@ == error@
                &&& !grace_served
            },
        },
{
}

/// Of every verdict there is one note, in order, and it tells of that verdict as it is carried
/// out behind those before it.
pub proof fn law_notes_follow_the_verdicts(
    cache: Map<Seq<char>, RecordView>,
    filed: Set<Seq<char>>,
    run: RunView,
    verdicts: Seq<VerdictView>,
    grace: Duration,
    now: int,
    notes: Seq<Note>,
    i: int,
)
    requires
        tells(cache, filed, run, verdicts, grace, now, notes),
    ensures
        notes.len() == verdicts.len(),
        0 <= i < notes.len() ==> {
            &&& notes[i].prefix@ == verdicts[i].item().prefix
            &&& notes[i].key@ == verdicts[i].item().key
            &&& exists|v: Verdict|
                v@ == verdicts[i] && #[trigger] note_tells(
                    committed_all(cache, run, verdicts.take(i), grace, now).0,
                    filed_after_all(filed, verdicts.take(i)),
                    v,
                    grace,
                    now,
                    notes[i],
                )
        },
{
    let v = choose|v: Seq<Verdict>|
        verdict_views(v) == verdicts && #[trigger] notes_tell(
            cache,
            filed,
            run,
            v,
            grace,
            now,
            notes,
        );
    assert(v.len() == verdicts.len());
    if 0 <= i < notes.len() {
        assert(verdict_views(v.take(i)) =~= verdicts.take(i));
        assert(v[i]@ == verdicts[i]);
        assert(note_tells(
            committed_all(cache, run, verdict_views(v.take(i)), grace, now).0,
            filed_after_all(filed, verdict_views(v.take(i))),
            v[i],
            grace,
            now,
            notes[i],
        ));
    }
}

/// Between passes the retrieval says where it is: a pass that is over leaves what is left for
/// the next one, a pass that is planned is one more and asks for what its plan fetches, and
/// the retrieval is over only where nothing is left.
pub proof fn law_passes_follow_each_other<S: Source>(manager: CitationManager<S>, t: Turn)
    requires
        is_taken(manager, t),
        t.before.asking is None,
        t.before.waiting.len() == 0,
        t.before.answered.len() == 0,
    ensures
        t.cache_after == t.cache,
        t.filed_then == t.filed,
        t.after.asking is None && t.after.answered.len() == 0,
        t.after.last == t.before.last,
        match t.action {
            Action::Closed { pass, discovered } => {
                &&& t.before.in_pass && !t.after.in_pass
                &&& pass == t.before.pass == t.after.pass
                &&& t.after.run == t.before.run
                &&& discovered == t.before.run.worklist.len()
                &&& t.after.waiting.len() == 0
            },
            Action::Planned { pass, cached, to_fetch } => {
                let plan = manager.pass_plan(t.before.run, t.cache, t.now);
                &&& !t.before.in_pass && t.after.in_pass
                &&& t.before.run.worklist.len() > 0
                &&& pass == t.after.pass
                &&& t.before.pass < usize::MAX ==> pass == t.before.pass + 1
                &&& t.after.waiting == grouped(plan.fetch)
                &&& to_fetch == plan.fetch.len()
                &&& cached == plan.cached
            },
            Action::Finished { considered, failed } => {
                &&& !t.before.in_pass
                &&& t.before.run.worklist.len() == 0
                &&& t.after == t.before
                &&& considered == t.before.run.seen.len()
                &&& failed == t.before.run.failures.len()
            },
            _ => false,
        },
{
}

/// Whether resolutions go on from others: those stay, and each further one is that of a DOI
/// that is refused without a request.
pub open spec fn goes_on_from(
    keys: Seq<Seq<char>>,
    before: Seq<ResolutionView>,
    after: Seq<ResolutionView>,
) -> bool {
    &&& before.is_prefix_of(after)
    &&& after.len() <= keys.len()
    &&& forall|i: int|
        before.len() <= i < after.len() ==> {
            &&& (#[trigger] after[i]).key == keys[i]
            &&& doi_fault(keys[i]) is Some
            &&& after[i].outcome == OutcomeView::Failed(doi_fault(keys[i])->Some_0)
        }
}

/// Whether an inquiry for DOIs stands where it should: it is done if each DOI has its
/// resolution, and otherwise the next one is to be asked for.
pub open spec fn stands_at(
    keys: Seq<Seq<char>>,
    before: Seq<ResolutionView>,
    stage: StageView,
) -> bool {
    match stage {
        StageView::Done(got) => goes_on_from(keys, before, got) && got.len() == keys.len(),
        StageView::Dois(got) => {
            &&& goes_on_from(keys, before, got)
            &&& got.len() < keys.len()
            &&& doi_fault(keys[got.len() as int]) is None
        },
        _ => false,
    }
}

/// DOIs are asked for one after another, each with the request that names it, and each gets
/// the resolution that its own reply comes to; those that are refused are not asked for.
pub proof fn law_dois_are_asked_for_in_turn(
    source: DoiSource,
    a: InquiryView,
    reply: Result<Response, FetchError>,
    stage: StageView,
)
    ensures
        opens(BuiltIn::Doi(source), a.keys, stage) ==> stands_at(a.keys, Seq::empty(), stage),
        a.stage matches StageView::Dois(got) ==> (got.len() < a.keys.len() && leads(
            BuiltIn::Doi(source),
            a,
            reply,
            stage,
        ) ==> {
            let key = a.keys[got.len() as int];
            stands_at(
                a.keys,
                got.push(ResolutionView { key, outcome: doi_outcome(a.prefix, key, reply) }),
                stage,
            )
        }),
{
    lemma_dois_read(a.keys, Seq::empty());
    if let StageView::Dois(got) = a.stage {
        if got.len() < a.keys.len() {
            let key = a.keys[got.len() as int];
            lemma_dois_read(
                a.keys,
                got.push(ResolutionView { key, outcome: doi_outcome(a.prefix, key, reply) }),
            );
        }
    }
}

proof fn lemma_dois_read(keys: Seq<Seq<char>>, got: Seq<ResolutionView>)
    requires
        got.len() <= keys.len(),
    ensures
        stands_at(keys, got, dois_read(keys, got)),
    decreases keys.len() - got.len(),
{
    if got.len() < keys.len() && doi_fault(keys[got.len() as int]) is Some {
        let next = got.push(refused_doi(keys[got.len() as int]));
        lemma_dois_read(keys, next);
        let end = match dois_read(keys, next) {
            StageView::Done(e) => e,
            StageView::Dois(e) => e,
            _ => next,
        };
        assert(next.is_prefix_of(end));
        assert(end[got.len() as int] == next[got.len() as int]);
        assert(got.is_prefix_of(end));
    }
}

/// The request for a DOI asks for its metadata as CSL-JSON.
pub proof fn law_metadata_is_asked_for(
    source: DoiSource,
    a: InquiryView,
    got: Seq<ResolutionView>,
    r: Option<Request>,
)
    requires
        names(BuiltIn::Doi(source), a, r),
        a.stage == StageView::Dois(got),
        got.len() < a.keys.len(),
        doi_fault(a.keys[got.len() as int]) is None,
    ensures
        ({
            &&& r matches Some(req)
            &&& req.url@ == doi_url(a.keys[got.len() as int])
            &&& req.method is Get
            &&& req.body is None
            &&& text_map(req.headers@).dom() =~= set!["accept"@]
            &&& text_map(req.headers@)["accept"@] == "application/vnd.citationstyles.csl+json"@
        }),
{
}

/// Papers are asked for in one query, behind the file of overriding DOIs where there is one;
/// those of the file and those given directly then count, and without the file no paper is
/// resolved.
pub proof fn law_papers_are_asked_for_in_one_query(
    source: ArxivSource,
    a: InquiryView,
    reply: Result<Response, FetchError>,
    stage: StageView,
    r: Option<Request>,
)
    ensures
        opens(BuiltIn::Arxiv(source), a.keys, stage) ==> (match source.file() {
            Some(_) => stage is Table,
            None => stage == StageView::Feed(source.inline()),
        }),
        names(BuiltIn::Arxiv(source), a, r) ==> (match a.stage {
            StageView::Table => source.file() matches Some(url) ==> (r matches Some(req) && req.url@
                == url && req.method is Get && req.body is None),
            StageView::Feed(_) => r matches Some(req) && req.url@ == query_url(a.keys)
                && req.method is Get && req.body is None,
            _ => r is None,
        }),
        leads(BuiltIn::Arxiv(source), a, reply, stage) ==> (match a.stage {
            StageView::Table => match stage {
                StageView::Feed(dois) => overrides_give(source.inline(), Some(reply), Ok(dois))
                    && forall|id: Seq<char>| #[trigger]
                    source.inline().contains_key(id) ==> dois.contains_key(id) && dois[id]
                        == source.inline()[id],
                StageView::Done(got) => {
                    &&& got.len() == a.keys.len()
                    &&& forall|i: int|
                        0 <= i < got.len() ==> (#[trigger] got[i]).key == a.keys[i]
                            && got[i].outcome is Failed
                },
                _ => false,
            },
            StageView::Feed(dois) => stage == StageView::Done(
                chunk_resolutions(source.target(), dois, a.keys, reply),
            ),
            _ => stage == a.stage,
        }),
{
    if leads(BuiltIn::Arxiv(source), a, reply, stage) && a.stage is Table {
        if let StageView::Feed(dois) = stage {
            assert forall|id: Seq<char>| #[trigger] source.inline().contains_key(
                id,
            ) implies dois.contains_key(id) && dois[id] == source.inline()[id] by {
                law_overriding_dois_count(source.inline(), Some(reply), dois, id);
            }
        }
    }
}

/// Manual citations need no request, and each key gets its text.
pub proof fn law_manual_citations_need_no_request(
    source: ManualSource,
    a: InquiryView,
    stage: StageView,
    r: Option<Request>,
)
    ensures
        names(BuiltIn::Manual(source), a, r) ==> r is None,
        opens(BuiltIn::Manual(source), a.keys, stage) ==> (stage matches StageView::Done(got) && {
            &&& got.len() == a.keys.len()
            &&& forall|i: int|
                0 <= i < got.len() ==> is_manual(#[trigger] got[i], source.format(), a.keys[i])
        }),
{
}

/// The files of a bibliography are asked for in order, and where each could be loaded the
/// keys are looked up in all of them, a later one before an earlier one; a file that cannot
/// be loaded fails every key.
pub proof fn law_files_are_asked_for_in_order(
    source: BibliographyFileSource<FormatParser>,
    a: InquiryView,
    at: nat,
    index: Map<Seq<char>, Json>,
    reply: Result<Response, FetchError>,
    stage: StageView,
    r: Option<Request>,
)
    requires
        a.stage == StageView::Files(at, index),
        at < source.locations().len(),
    ensures
        names(BuiltIn::Bib(source), a, r) ==> (r matches Some(req) && req.url@
            == source.locations()[at as int] && req.method is Get && req.body is None),
        leads(BuiltIn::Bib(source), a, reply, stage) ==> (match loaded(
            source.parser(),
            source.locations()[at as int],
            reply,
        ) {
            Ok(m) => {
                let all = Map::new(
                    |k: Seq<char>| index.contains_key(k) || m.contains_key(k),
                    |k: Seq<char>| if m.contains_key(k) { m[k] } else { index[k] },
                );
                if at + 1 < source.locations().len() {
                    stage == StageView::Files(at + 1, all)
                } else {
                    stage == StageView::Done(bib_resolutions(all, a.keys))
                }
            },
            Err(e) => stage == StageView::Done(all_failed(a.keys, error_text(e))),
        }),
{
    if let Ok(m) = loaded(source.parser(), source.locations()[at as int], reply) {
        let all = Map::new(
            |k: Seq<char>| index.contains_key(k) || m.contains_key(k),
            |k: Seq<char>| if m.contains_key(k) { m[k] } else { index[k] },
        );
        assert(index.union_prefer_right(m) =~= all);
    }
}

/// Where no file is given the keys are looked up at once in what was given directly, and
/// otherwise the first file is asked for.
pub proof fn law_a_bibliography_begins_with_what_is_given(
    source: BibliographyFileSource<FormatParser>,
    keys: Seq<Seq<char>>,
    stage: StageView,
)
    requires
        opens(BuiltIn::Bib(source), keys, stage),
    ensures
        source.locations().len() == 0 ==> stage == StageView::Done(
            bib_resolutions(source.given(), keys),
        ),
        source.locations().len() > 0 ==> stage == StageView::Files(0, source.given()),
{
}

} // verus!
