//! What the command line asks for, what formats are read, and what people are told.

use crate::cli::{all_kinds, enabled, prefix_of, serves, unserved, warnings, Cli, SourceKind};
use crate::csl::{meaning, meaning_of_members, Json, Tree};
use crate::env::{duration_nanos, Clock, Timestamp};
use crate::formats::{in_format, override_pairs, overrides_read, Format};
use crate::input::{distinct_of, law_distinct, prefixes_of};
use crate::json::{json_parsed, parsed_meaning, yaml_parsed};
use crate::laws::citing::law_every_prefix_is_named;
use crate::progress::line_for;
use crate::report::{subject, Event, Reporter, Resolved, ThrottledReporter, Wait};
use crate::sorted::{lemma_map_of_at, lemma_map_of_dom, map_of};
use crate::text::decimal;
use vstd::prelude::*;
use vstd::string::*;

verus! {

/// A source is enabled if and only if it is named, or none is named, and it is not disabled;
/// and none is enabled twice.
pub proof fn law_a_source_is_enabled_as_asked(cli: Cli, kind: SourceKind)
    ensures
        enabled(cli).contains(kind) <==> (cli.enable@.len() == 0 || cli.enable@.contains(kind))
            && !cli.disable@.contains(kind),
        enabled(cli).no_duplicates(),
{
    let base = if cli.enable@.len() == 0 {
        all_kinds()
    } else {
        cli.enable@
    };
    let keep = |k: SourceKind| !cli.disable@.contains(k);
    lemma_filter_contains(base, keep, kind);
    law_distinct(base.filter(keep));
    assert(all_kinds().contains(kind)) by {
        let a = all_kinds();
        assert(a[0] == SourceKind::Arxiv && a[1] == SourceKind::Doi && a[2] == SourceKind::Bib
            && a[3] == SourceKind::Manual);
    }
}

/// Sources are enabled in the order in which they are named, whatever is named behind them;
/// where none is named, all are, in an order of their own.
pub proof fn law_sources_keep_their_order(cli: Cli, first: Cli, n: int)
    requires
        0 < n <= cli.enable@.len(),
        first.enable@ == cli.enable@.take(n),
        first.disable@ == cli.disable@,
    ensures
        enabled(first).is_prefix_of(enabled(cli)),
        forall|all: Cli|
            all.enable@.len() == 0 && all.disable@.len() == 0 ==> #[trigger] enabled(all) == seq![
                SourceKind::Arxiv,
                SourceKind::Doi,
                SourceKind::Bib,
                SourceKind::Manual,
            ],
{
    let keep = |k: SourceKind| !cli.disable@.contains(k);
    let a = cli.enable@.take(n);
    let b = cli.enable@.skip(n);
    assert(cli.enable@ =~= a + b);
    Seq::filter_distributes_over_add(a, b, keep);
    lemma_distinct_prefix(a.filter(keep), b.filter(keep));
    assert(first.enable@.filter(|k: SourceKind| !first.disable@.contains(k)) == a.filter(keep));
    assert forall|all: Cli|
        all.enable@.len() == 0 && all.disable@.len() == 0 implies #[trigger] enabled(all) == seq![
        SourceKind::Arxiv,
        SourceKind::Doi,
        SourceKind::Bib,
        SourceKind::Manual,
    ] by {
        let every = |k: SourceKind| !all.disable@.contains(k);
        let k = all_kinds();
        reveal(Seq::filter);
        assert(k.drop_last().drop_last().drop_last().drop_last() =~= Seq::empty());
        assert(k.drop_last().drop_last().drop_last().drop_last().filter(every) =~= Seq::empty());
        assert(k.drop_last().drop_last().drop_last().filter(every) =~= k.take(1));
        assert(k.drop_last().drop_last().filter(every) =~= k.take(2));
        assert(k.drop_last().filter(every) =~= k.take(3));
        assert(k.filter(every) =~= k);
        lemma_distinct_stays(k);
    }
}

proof fn lemma_distinct_prefix(a: Seq<SourceKind>, b: Seq<SourceKind>)
    ensures
        distinct_of(a).is_prefix_of(distinct_of(a + b)),
    decreases b.len(),
{
    if b.len() == 0 {
        assert(a + b =~= a);
    } else {
        lemma_distinct_prefix(a, b.drop_last());
        assert((a + b).drop_last() =~= a + b.drop_last());
    }
}

proof fn lemma_distinct_stays(s: Seq<SourceKind>)
    requires
        s.no_duplicates(),
    ensures
        distinct_of(s) == s,
    decreases s.len(),
{
    if s.len() > 0 {
        let front = s.drop_last();
        lemma_distinct_stays(front);
        assert(!front.contains(s.last())) by {
            if front.contains(s.last()) {
                let i = choose|i: int| 0 <= i < front.len() && front[i] == s.last();
                assert(s[i] == s[s.len() - 1]);
            }
        }
        assert(front.push(s.last()) =~= s);
    } else {
        assert(distinct_of(s) =~= s);
    }
}

proof fn lemma_filter_contains<T>(s: Seq<T>, keep: spec_fn(T) -> bool, x: T)
    ensures
        s.filter(keep).contains(x) <==> s.contains(x) && keep(x),
    decreases s.len(),
{
    reveal(Seq::filter);
    if s.len() > 0 {
        let f = s.drop_last();
        let a = f.filter(keep);
        let b = s.filter(keep);
        lemma_filter_contains(f, keep, x);
        if b.contains(x) {
            let k = choose|k: int| 0 <= k < b.len() && b[k] == x;
            if k < a.len() {
                assert(a[k] == x);
                let i = choose|i: int| 0 <= i < f.len() && f[i] == x;
                assert(s[i] == x);
            } else {
                assert(s[s.len() - 1] == x);
            }
        }
        if s.contains(x) && keep(x) {
            let i = choose|i: int| 0 <= i < s.len() && s[i] == x;
            if i < f.len() {
                assert(f[i] == x);
                let k = choose|k: int| 0 <= k < a.len() && a[k] == x;
                assert(b[k] == x);
            } else {
                assert(b[a.len() as int] == x);
            }
        }
    }
}

/// The prefixes of the sources are the ones that people write.
pub proof fn law_sources_have_their_prefixes()
    ensures
        prefix_of(SourceKind::Arxiv) == "arxiv"@,
        prefix_of(SourceKind::Doi) == "doi"@,
        prefix_of(SourceKind::Bib) == "bib"@,
        prefix_of(SourceKind::Manual) == "manual"@,
{
}

/// What is asked for in vain is pointed out, each thing if and only if it is: files of a
/// bibliography that is disabled or that are missing, options of a source that is disabled,
/// and prefixes of requested citations that no source serves.
pub proof fn law_what_is_in_vain_is_pointed_out(
    cli: Cli,
    cites: Seq<(Seq<char>, Seq<char>)>,
    sources: Seq<SourceKind>,
    p: Seq<char>,
)
    ensures
        ({
            let w = warnings(cli, cites, sources);
            let bib = sources.contains(SourceKind::Bib);
            &&& cli.bib@.len() > 0 && !bib ==> w.contains(
                "the `bib` source is disabled; --bib file(s) will be ignored"@,
            )
            &&& cli.bib@.len() == 0 && bib && (exists|i: int|
                0 <= i < cites.len() && (#[trigger] cites[i]).0 == "bib"@) ==> w.contains(
                "`bib:` citations were requested but no --bib file was given"@,
            )
            &&& !sources.contains(SourceKind::Arxiv) && (cli.arxiv_doi_overrides is Some
                || cli.no_arxiv_chaining) ==> w.contains(
                "the `arxiv` source is disabled; its options will be ignored"@,
            )
            &&& !sources.contains(SourceKind::Manual) && cli.manual_format is Some ==> w.contains(
                "the `manual` source is disabled; --manual-format will be ignored"@,
            )
            &&& (exists|i: int| 0 <= i < cites.len() && (#[trigger] cites[i]).0 == p) && !(exists|
                k: int,
            |
                0 <= k < sources.len() && prefix_of(#[trigger] sources[k]) == p) ==> w.contains(
                "no enabled source for prefix `"@ + p + "`; those citations will fail"@,
            )
        }),
        // Nothing else is pointed out.
        warnings(cli, cites, sources).len() == one_if(
            cli.bib@.len() > 0 && !sources.contains(SourceKind::Bib),
        ) + one_if(
            cli.bib@.len() == 0 && sources.contains(SourceKind::Bib) && prefixes_of(
                cites,
            ).contains("bib"@),
        ) + one_if(
            !sources.contains(SourceKind::Arxiv) && (cli.arxiv_doi_overrides is Some
                || cli.no_arxiv_chaining),
        ) + one_if(
            !sources.contains(SourceKind::Manual) && cli.manual_format is Some,
        ) + prefixes_of(cites).filter(|x: Seq<char>| !serves(sources, x)).len(),
        // Where all is well, nothing is pointed out.
        (forall|i: int|
            0 <= i < cites.len() ==> serves(sources, (#[trigger] cites[i]).0)) && sources.contains(
            SourceKind::Bib,
        ) && sources.contains(SourceKind::Arxiv) && sources.contains(SourceKind::Manual)
            && cli.bib@.len() > 0 ==> warnings(cli, cites, sources).len() == 0,
{
    let requested = prefixes_of(cites);
    let bib = sources.contains(SourceKind::Bib);
    let a = crate::cli::when(
        cli.bib@.len() > 0 && !bib,
        "the `bib` source is disabled; --bib file(s) will be ignored"@,
    );
    let b = crate::cli::when(
        cli.bib@.len() == 0 && bib && requested.contains("bib"@),
        "`bib:` citations were requested but no --bib file was given"@,
    );
    let c = crate::cli::when(
        !sources.contains(SourceKind::Arxiv) && (cli.arxiv_doi_overrides is Some
            || cli.no_arxiv_chaining),
        "the `arxiv` source is disabled; its options will be ignored"@,
    );
    let d = crate::cli::when(
        !sources.contains(SourceKind::Manual) && cli.manual_format is Some,
        "the `manual` source is disabled; --manual-format will be ignored"@,
    );
    let e = unserved(requested, sources);
    let w = warnings(cli, cites, sources);
    assert(w == a + b + c + d + e);
    lemma_unserved_count(requested, sources);
    law_every_prefix_is_named(cites, "bib"@);
    law_every_prefix_is_named(cites, p);
    if a.len() > 0 {
        assert(w[0] == a[0]);
    }
    if b.len() > 0 {
        assert(w[a.len() as int] == b[0]);
    }
    if c.len() > 0 {
        assert(w[(a.len() + b.len()) as int] == c[0]);
    }
    if d.len() > 0 {
        assert(w[(a.len() + b.len() + c.len()) as int] == d[0]);
    }
    let text = "no enabled source for prefix `"@ + p + "`; those citations will fail"@;
    if requested.contains(p) && !serves(sources, p) {
        lemma_unserved(requested, sources, p);
        let k = choose|k: int| 0 <= k < e.len() && e[k] == text;
        assert(w[a.len() + b.len() + c.len() + d.len() + k] == text);
    }
    if forall|i: int| 0 <= i < cites.len() ==> serves(sources, (#[trigger] cites[i]).0) {
        assert forall|k: int| 0 <= k < requested.len() implies serves(
            sources,
            #[trigger] requested[k],
        ) by {
            law_every_prefix_is_named(cites, requested[k]);
            assert(requested.contains(requested[k]));
            let i = choose|i: int| 0 <= i < cites.len() && (#[trigger] cites[i]).0 == requested[k];
        }
        lemma_all_served(requested, sources);
    }
}

/// One if something holds, and otherwise none.
pub open spec fn one_if(condition: bool) -> nat {
    if condition {
        1
    } else {
        0
    }
}

proof fn lemma_unserved_count(prefixes: Seq<Seq<char>>, sources: Seq<SourceKind>)
    ensures
        unserved(prefixes, sources).len() == prefixes.filter(
            |x: Seq<char>| !serves(sources, x),
        ).len(),
    decreases prefixes.len(),
{
    reveal(Seq::filter);
    if prefixes.len() > 0 {
        lemma_unserved_count(prefixes.drop_last(), sources);
    }
}

proof fn lemma_unserved(prefixes: Seq<Seq<char>>, sources: Seq<SourceKind>, p: Seq<char>)
    requires
        prefixes.contains(p),
        !serves(sources, p),
    ensures
        unserved(prefixes, sources).contains(
            "no enabled source for prefix `"@ + p + "`; those citations will fail"@,
        ),
    decreases prefixes.len(),
{
    let text = "no enabled source for prefix `"@ + p + "`; those citations will fail"@;
    let front = prefixes.drop_last();
    let f = unserved(front, sources);
    let u = unserved(prefixes, sources);
    if prefixes.last() == p {
        assert(u[f.len() as int] == text);
    } else {
        let i = choose|i: int| 0 <= i < prefixes.len() && prefixes[i] == p;
        assert(front[i] == p);
        lemma_unserved(front, sources, p);
        let k = choose|k: int| 0 <= k < f.len() && f[k] == text;
        assert(u[k] == text);
    }
}

proof fn lemma_all_served(prefixes: Seq<Seq<char>>, sources: Seq<SourceKind>)
    requires
        forall|k: int| 0 <= k < prefixes.len() ==> serves(sources, #[trigger] prefixes[k]),
    ensures
        unserved(prefixes, sources).len() == 0,
    decreases prefixes.len(),
{
    if prefixes.len() > 0 {
        let front = prefixes.drop_last();
        assert forall|k: int| 0 <= k < front.len() implies serves(sources, #[trigger] front[k]) by {
            assert(prefixes[k] == front[k]);
        }
        lemma_all_served(front, sources);
        assert(serves(sources, prefixes[prefixes.len() - 1]));
    }
}

/// A file is read in its format; where either will do, as JSON if it is JSON, and otherwise
/// as YAML; and only what is neither is refused.
pub proof fn law_a_file_is_read_in_its_format(bytes: Seq<u8>)
    ensures
        match parsed_meaning(json_parsed(bytes)) {
            Ok(j) => in_format(Format::Json, bytes) == Ok::<Json, Seq<char>>(j) && in_format(
                Format::Auto,
                bytes,
            ) == Ok::<Json, Seq<char>>(j),
            Err(_) => in_format(Format::Json, bytes) is Err && (in_format(Format::Auto, bytes) is Ok
                <==> parsed_meaning(yaml_parsed(bytes)) is Ok),
        },
        match parsed_meaning(yaml_parsed(bytes)) {
            Ok(j) => in_format(Format::Yaml, bytes) == Ok::<Json, Seq<char>>(j) && (parsed_meaning(
                json_parsed(bytes),
            ) is Err ==> in_format(Format::Auto, bytes) == Ok::<Json, Seq<char>>(j)),
            Err(_) => in_format(Format::Yaml, bytes) is Err,
        },
{
}

/// A file of overriding DOIs gives every DOI that it holds, and every id that it suppresses
/// one of, and nothing else.
pub proof fn law_every_overriding_doi_is_read(
    name: Seq<char>,
    bytes: Seq<u8>,
    v: Vec<(String, Option<String>)>,
    id: Seq<char>,
)
    requires
        overrides_read(name, bytes, Ok(v)),
    ensures
        ({
            &&& in_format(Format::Auto, bytes) matches Ok(Json::Object(m))
            &&& m.contains_key(id) <==> exists|i: int|
                0 <= i < override_pairs(v@).len() && (#[trigger] override_pairs(v@)[i]).0 == id
            &&& forall|i: int|
                0 <= i < override_pairs(v@).len() ==> {
                    let (k, doi) = #[trigger] override_pairs(v@)[i];
                    &&& m.contains_key(k)
                    &&& match m[k] {
                        Json::Text(s) => doi == Some(s),
                        Json::Null => doi is None,
                        _ => false,
                    }
                }
        }),
{
    let p = override_pairs(v@);
    let m = in_format(Format::Auto, bytes)->Ok_0->Object_0;
    lemma_map_of_dom(p, id);
    assert forall|i: int| 0 <= i < p.len() implies {
        let (k, doi) = #[trigger] p[i];
        &&& m.contains_key(k)
        &&& match m[k] {
            Json::Text(s) => doi == Some(s),
            Json::Null => doi is None,
            _ => false,
        }
    } by {
        lemma_map_of_at(p, i);
        assert(map_of(p).contains_key(p[i].0));
    }
    if m.contains_key(id) {
        assert(map_of(p).contains_key(id));
    }
    if exists|i: int| 0 <= i < p.len() && (#[trigger] p[i]).0 == id {
        let i = choose|i: int| 0 <= i < p.len() && (#[trigger] p[i]).0 == id;
        lemma_map_of_at(p, i);
        assert(map_of(p).contains_key(id));
    }
}

/// A tree means what it says: texts, numbers and the like stay as they are, items of arrays
/// stay in order, and a name has the value of the last member with it.
pub proof fn law_a_tree_means_what_it_says(
    items: Seq<Tree>,
    members: Seq<(Seq<char>, Tree)>,
    i: int,
    name: Seq<char>,
)
    ensures
        meaning(Tree::Null) == Json::Null,
        forall|b: bool| #[trigger] meaning(Tree::Bool(b)) == Json::Bool(b),
        forall|t: Seq<char>| #[trigger] meaning(Tree::Text(t)) == Json::Text(t),
        forall|t: Seq<char>| #[trigger] meaning(Tree::Number(t)) == Json::Number(t),
        meaning(Tree::Array(items)) matches Json::Array(a) && a.len() == items.len() && (0 <= i
            < items.len() ==> a[i] == meaning(items[i])),
        meaning(Tree::Object(members)) matches Json::Object(m) && {
            &&& 0 <= i < members.len() && members[i].0 == name && (forall|j: int|
                i < j < members.len() ==> (#[trigger] members[j]).0 != name) ==> m.contains_key(
                name,
            ) && m[name] == meaning(members[i].1)
            &&& m.contains_key(name) ==> exists|j: int|
                0 <= j < members.len() && (#[trigger] members[j]).0 == name
        },
{
    lemma_members(members, i, name);
}

proof fn lemma_members(members: Seq<(Seq<char>, Tree)>, i: int, name: Seq<char>)
    ensures
        ({
            let m = meaning_of_members(members);
            &&& 0 <= i < members.len() && members[i].0 == name && (forall|j: int|
                i < j < members.len() ==> (#[trigger] members[j]).0 != name) ==> m.contains_key(
                name,
            ) && m[name] == meaning(members[i].1)
            &&& m.contains_key(name) ==> exists|j: int|
                0 <= j < members.len() && (#[trigger] members[j]).0 == name
        }),
    decreases members.len(),
{
    if members.len() > 0 {
        let front = members.drop_last();
        let n = members.len() - 1;
        lemma_members(front, i, name);
        if 0 <= i < n && members[i].0 == name && (forall|j: int|
            i < j < members.len() ==> (#[trigger] members[j]).0 != name) {
            assert(members[n].0 != name);
            assert(front[i] == members[i]);
            assert forall|j: int| i < j < front.len() implies (#[trigger] front[j]).0 != name by {
                assert(members[j] == front[j]);
            }
        }
        let m = meaning_of_members(members);
        if m.contains_key(name) {
            if members[n].0 == name {
            } else {
                assert(meaning_of_members(front).contains_key(name));
                let j = choose|j: int| 0 <= j < front.len() && (#[trigger] front[j]).0 == name;
                assert(members[j] == front[j]);
            }
        }
    }
}

/// What people are told of at the first level, and what only at the second. Of a wait for a
/// source they are told at the first only where it is long, and of the end of a pass only
/// where it led to more.
pub proof fn law_what_people_are_told_of(ev: Event<'_>, length: Seq<char>)
    ensures
        line_for(1, ev, length) is Some <==> match ev {
            Event::PassStarted { .. } => true,
            Event::PassFinished { discovered, .. } => discovered > 0,
            Event::SourceStarted { .. } => true,
            Event::SourceProgress { .. } => true,
            Event::SourceFinished { .. } => true,
            Event::CiteFailed { grace_served, .. } => grace_served,
            Event::WaitStarted { what: Wait::RateLimit { .. }, expected } => expected matches Some(d)
                && duration_nanos(d) >= 2_000_000_000,
            Event::WaitStarted { .. } => true,
            Event::RetrieveFinished { .. } => true,
            _ => false,
        },
        line_for(2, ev, length) is Some <==> match ev {
            Event::RetrieveStarted { .. } => false,
            Event::PassFinished { discovered, .. } => discovered > 0,
            Event::CiteFailed { grace_served, .. } => grace_served,
            _ => true,
        },
{
}

/// Lines of progress say how far it is: how much of a source is done and of how much, and
/// what a citation came to.
pub proof fn law_progress_is_told_in_numbers(
    prefix: &str,
    key: &str,
    done: usize,
    total: usize,
    length: Seq<char>,
)
    ensures
        line_for(1, Event::SourceProgress { prefix, done, total }, length) == Some(
            "autocitefetch: "@ + (prefix@ + ": "@ + decimal(done as nat) + "/"@ + decimal(
                total as nat,
            )),
        ),
        line_for(2, Event::CiteResolved { prefix, key, how: Resolved::Concrete }, length) == Some(
            "autocitefetch: "@ + (prefix@ + ":"@ + key@ + ": resolved"@),
        ),
{
}

/// Only the counters of a source may be dropped, and they are throttled source by source.
pub proof fn law_only_counters_are_samples(ev: Event<'_>)
    ensures
        subject(ev) is Some <==> ev is SourceProgress,
        ev matches Event::SourceProgress { prefix, .. } ==> subject(ev) == Some(prefix@),
{
}

/// A reporter that is throttled passes every milestone on, and a counter if it is the first
/// one of its source or the gap is over since the last one that it passed on.
pub proof fn law_a_throttled_reporter_passes_on<R: Reporter, C: Clock>(
    r: ThrottledReporter<R, C>,
    ev: Event<'_>,
    now: Timestamp,
    after: ThrottledReporter<R, C>,
)
    requires
        r.handles(ev, now, after),
        r.gate().gap() <= i64::MAX,
        forall|p: Seq<char>| #[trigger]
            r.gate().last().contains_key(p) ==> i64::MIN <= now.0 - r.gate().last()[p] <= i64::MAX,
    ensures
        !(ev is SourceProgress) ==> r.target().takes(ev, &after.target()) && after.gate().last()
            == r.gate().last(),
        ev matches Event::SourceProgress { prefix, .. } ==> {
            let last = r.gate().last();
            if !last.contains_key(prefix@) || now.0 - last[prefix@] >= r.gate().gap() {
                &&& r.target().takes(ev, &after.target())
                &&& after.gate().last().contains_key(prefix@)
                &&& after.gate().last()[prefix@] == now.0
            } else {
                after.target() == r.target() && after.gate().last() == last
            }
        },
{
}

} // verus!
