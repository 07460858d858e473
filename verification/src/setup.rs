//! From the command line to a manager: the sources that come with the library, bound to
//! their prefixes.

use crate::cli::{prefix_of, Cli, SourceKind};
use crate::csl::Json;
use crate::driver::{copy_range, texts};
use crate::env::{duration_millis, duration_nanos};
use crate::formats::{parser_for, FormatParser};
use crate::manager::{valid_prefix, CitationManager};
use crate::source::arxiv::{with_dois, ArxivSource};
use crate::source::bibfile::BibliographyFileSource;
use crate::source::doi::DoiSource;
use crate::source::manual::ManualSource;
use crate::source::Source;
use core::time::Duration;
use vstd::prelude::*;
use vstd::string::*;

verus! {

/// A source that comes with the library.
pub enum BuiltIn {
    Arxiv(ArxivSource),
    Doi(DoiSource),
    Bib(BibliographyFileSource<FormatParser>),
    Manual(ManualSource),
}

impl Source for BuiltIn {
    open spec fn key_form(&self, key: Seq<char>) -> Seq<char> {
        match self {
            BuiltIn::Arxiv(s) => s.key_form(key),
            BuiltIn::Doi(s) => s.key_form(key),
            BuiltIn::Bib(s) => s.key_form(key),
            BuiltIn::Manual(s) => s.key_form(key),
        }
    }

    fn normalize_key(&self, key: &str) -> (r: String) {
        match self {
            BuiltIn::Arxiv(s) => s.normalize_key(key),
            BuiltIn::Doi(s) => s.normalize_key(key),
            BuiltIn::Bib(s) => s.normalize_key(key),
            BuiltIn::Manual(s) => s.normalize_key(key),
        }
    }

    fn chunk_size(&self) -> (r: usize)
        ensures
            r == (match self {
                BuiltIn::Arxiv(_) => 100,
                BuiltIn::Doi(_) => 1,
                BuiltIn::Bib(_) => usize::MAX,
                BuiltIn::Manual(_) => usize::MAX,
            }),
    {
        match self {
            BuiltIn::Arxiv(s) => s.chunk_size(),
            BuiltIn::Doi(s) => s.chunk_size(),
            BuiltIn::Bib(s) => s.chunk_size(),
            BuiltIn::Manual(s) => s.chunk_size(),
        }
    }

    fn min_interval(&self) -> (r: Duration)
        ensures
            match self {
                BuiltIn::Arxiv(_) => duration_millis(r) == 3100,
                BuiltIn::Doi(_) => duration_millis(r) == 1100,
                BuiltIn::Bib(_) => duration_nanos(r) == 0,
                BuiltIn::Manual(_) => duration_nanos(r) == 0,
            },
    {
        match self {
            BuiltIn::Arxiv(s) => s.min_interval(),
            BuiltIn::Doi(s) => s.min_interval(),
            BuiltIn::Bib(s) => s.min_interval(),
            BuiltIn::Manual(s) => s.min_interval(),
        }
    }

    fn default_ttl(&self) -> (r: Duration)
        ensures
            match self {
                BuiltIn::Arxiv(_) => duration_nanos(r) == 10 * 24 * 60 * 60 * 1_000_000_000,
                BuiltIn::Doi(_) => duration_nanos(r) == 360 * 24 * 60 * 60 * 1_000_000_000,
                BuiltIn::Bib(s) => r == s.lifetime(),
                BuiltIn::Manual(_) => duration_nanos(r) == 0,
            },
    {
        match self {
            BuiltIn::Arxiv(s) => s.default_ttl(),
            BuiltIn::Doi(s) => s.default_ttl(),
            BuiltIn::Bib(s) => s.default_ttl(),
            BuiltIn::Manual(s) => s.default_ttl(),
        }
    }

    fn chains_to(&self) -> (r: Vec<String>)
        ensures
            texts(r@) == (match self {
                BuiltIn::Arxiv(s) => match s.target() {
                    Some(p) => seq![p],
                    None => Seq::empty(),
                },
                _ => Seq::empty(),
            }),
    {
        assert(texts(Seq::empty()) =~= Seq::empty());
        match self {
            BuiltIn::Arxiv(s) => s.chains_to(),
            _ => Vec::new(),
        }
    }
}

/// Whether a source is what the command line asks for.
pub open spec fn is_built(
    kind: SourceKind,
    cli: Cli,
    overrides: Seq<(String, Option<String>)>,
    source: BuiltIn,
) -> bool {
    match kind {
        SourceKind::Arxiv => source matches BuiltIn::Arxiv(s) && s.target() == (
        if cli.no_arxiv_chaining {
            None
        } else {
            Some("doi"@)
        }) && s.inline() == with_dois(Map::empty(), overrides) && s.file() is None,
        SourceKind::Doi => source == BuiltIn::Doi(DoiSource),
        SourceKind::Bib => source matches BuiltIn::Bib(s) && s.locations() == texts(cli.bib@)
            && s.given() == Map::<Seq<char>, Json>::empty() && s.parser().format == cli.bib_format
            && duration_nanos(s.lifetime()) == 60 * 1_000_000_000,
        SourceKind::Manual => source matches BuiltIn::Manual(s) && s.format() == (
        match cli.manual_format {
            Some(f) => f@,
            None => "flm"@,
        }),
    }
}

/// The arXiv source that the command line asks for, with these overriding DOIs. DOIs are
/// chained to the prefix that the DOI source is bound to.
pub fn build_arxiv(cli: &Cli, overrides: Vec<(String, Option<String>)>) -> (r: ArxivSource)
    ensures
        is_built(SourceKind::Arxiv, *cli, overrides@, BuiltIn::Arxiv(r)),
{
    let target = if cli.no_arxiv_chaining { None } else { Some(SourceKind::Doi.prefix()) };
    ArxivSource::new().chain_dois_to(target).with_override_dois(overrides)
}

/// A source that the command line asks for.
fn build(kind: SourceKind, cli: &Cli, overrides: Vec<(String, Option<String>)>) -> (r: BuiltIn)
    ensures
        is_built(kind, *cli, overrides@, r),
{
    match kind {
        SourceKind::Arxiv => BuiltIn::Arxiv(build_arxiv(cli, overrides)),
        SourceKind::Doi => BuiltIn::Doi(DoiSource::new()),
        SourceKind::Bib => {
            let files = copy_range(&cli.bib, 0, cli.bib.len());
            assert(texts(files@) =~= texts(cli.bib@));
            BuiltIn::Bib(
                BibliographyFileSource::new(files).with_parser(parser_for(cli.bib_format)),
            )
        },
        SourceKind::Manual => BuiltIn::Manual(ManualSource::new(cli.manual_format())),
    }
}

proof fn lemma_prefixes(a: SourceKind, b: SourceKind)
    ensures
        valid_prefix(prefix_of(a)),
        prefix_of(a) == prefix_of(b) ==> a == b,
{
    reveal_strlit("arxiv");
    reveal_strlit("doi");
    reveal_strlit("bib");
    reveal_strlit("manual");
    assert("arxiv"@[0] == 'a' && "doi"@[0] == 'd' && "bib"@[0] == 'b' && "manual"@[0] == 'm');
    assert(!"arxiv"@.contains(':'));
    assert(!"doi"@.contains(':'));
    assert(!"bib"@.contains(':'));
    assert(!"manual"@.contains(':'));
}

/// Copies of overriding DOIs.
fn copy_overrides(dois: &Vec<(String, Option<String>)>) -> (r: Vec<(String, Option<String>)>)
    ensures
        forall|m: Map<Seq<char>, Option<Seq<char>>>|
            with_dois(m, r@) == #[trigger] with_dois(m, dois@),
{
    let mut out: Vec<(String, Option<String>)> = Vec::new();
    let mut i: usize = 0;
    assert(dois@.take(0) =~= Seq::empty());
    while i < dois.len()
        invariant
            i <= dois@.len(),
            forall|m: Map<Seq<char>, Option<Seq<char>>>|
                with_dois(m, out@) == #[trigger] with_dois(m, dois@.take(i as int)),
        decreases dois@.len() - i,
    {
        let doi = match &dois[i].1 {
            Some(d) => Some(d.clone()),
            None => None,
        };
        let ghost before = out@;
        out.push((dois[i].0.clone(), doi));
        i += 1;
        proof {
            let t = dois@.take(i as int);
            assert(t.drop_last() =~= dois@.take(i - 1));
            assert(out@.drop_last() =~= before);
            assert forall|m: Map<Seq<char>, Option<Seq<char>>>|
                with_dois(m, out@) == #[trigger] with_dois(m, t) by {
                assert(with_dois(m, before) == with_dois(m, dois@.take(i - 1)));
            }
        }
    }
    assert(dois@.take(i as int) =~= dois@);
    out
}

/// A manager with the sources that are to be bound, each bound to its prefix, that drops
/// the fields that the command line names.
pub fn build_manager(
    cli: &Cli,
    sources: &Vec<SourceKind>,
    overrides: &Vec<(String, Option<String>)>,
) -> (r: CitationManager<BuiltIn>)
    ensures
        forall|kind: SourceKind|
            r.bound().contains_key(#[trigger] prefix_of(kind)) == sources@.contains(kind),
        forall|kind: SourceKind|
            sources@.contains(kind) ==> is_built(
                kind,
                *cli,
                overrides@,
                r.bound()[#[trigger] prefix_of(kind)],
            ),
        forall|p: Seq<char>| #[trigger]
            r.bound().contains_key(p) ==> exists|kind: SourceKind| p == #[trigger] prefix_of(kind),
        r.dropped() == texts(cli.drop_field@),
        r.depth_limit() == 16,
        r.ttl_policy().stale_percent == 80,
        r.ttl_policy().jitter_percent == 15,
        duration_millis(r.ttl_policy().grace) == 14 * 24 * 60 * 60 * 1000,
        r.retry_rules().max_retries == 5,
        duration_millis(r.retry_rules().base) == 500,
        duration_millis(r.retry_rules().cap) == 30_000,
        r.retry_rules().honor_retry_after,
{
    let names = copy_range(&cli.drop_field, 0, cli.drop_field.len());
    assert(texts(names@) =~= texts(cli.drop_field@));
    let mut manager: CitationManager<BuiltIn> = CitationManager::new().with_dropped_csl_fields(
        names,
    );
    let ghost policy = manager.ttl_policy();
    let ghost rules = manager.retry_rules();
    let mut i: usize = 0;
    while i < sources.len()
        invariant
            i <= sources@.len(),
            forall|kind: SourceKind|
                manager.bound().contains_key(#[trigger] prefix_of(kind)) == sources@.take(
                    i as int,
                ).contains(kind),
            forall|kind: SourceKind|
                sources@.take(i as int).contains(kind) ==> is_built(
                    kind,
                    *cli,
                    overrides@,
                    manager.bound()[#[trigger] prefix_of(kind)],
                ),
            forall|p: Seq<char>| #[trigger]
                manager.bound().contains_key(p) ==> exists|kind: SourceKind|
                    p == #[trigger] prefix_of(kind),
            manager.dropped() == texts(cli.drop_field@),
            manager.depth_limit() == 16,
            manager.ttl_policy() == policy,
            manager.retry_rules() == rules,
        decreases sources@.len() - i,
    {
        let kind: SourceKind = sources[i];
        let dois = copy_overrides(overrides);
        let source = build(kind, cli, dois);
        let ghost was = manager.bound();
        proof {
            assert(with_dois(Map::empty(), dois@) == with_dois(Map::empty(), overrides@));
            lemma_prefixes(kind, kind);
        }
        match manager.register(kind.prefix(), source) {
            Ok(m) => {
                manager = m;
            },
            // No prefix of a source that comes with the library is refused.
            Err(_) => {
                manager = CitationManager::new();
            },
        }
        i += 1;
        proof {
            assert(manager.bound() == was.insert(prefix_of(kind), source));
            let before = sources@.take(i - 1);
            assert(sources@.take(i as int) =~= before.push(kind));
            assert forall|k: SourceKind|
                manager.bound().contains_key(#[trigger] prefix_of(k)) == sources@.take(
                    i as int,
                ).contains(k) by {
                lemma_prefixes(k, kind);
                if before.contains(k) {
                    let j = choose|j: int| 0 <= j < before.len() && before[j] == k;
                    assert(before.push(kind)[j] == k);
                }
                if k == kind {
                    assert(before.push(kind)[before.len() as int] == k);
                }
            }
            assert forall|k: SourceKind|
                sources@.take(i as int).contains(k) implies is_built(
                k,
                *cli,
                overrides@,
                manager.bound()[#[trigger] prefix_of(k)],
            ) by {
                lemma_prefixes(k, kind);
            }
        }
    }
    assert(sources@.take(i as int) =~= sources@);
    manager
}

} // verus!
