//! The command line: which sources it enables, and what it asks for in vain.

use crate::driver::texts;
use crate::error::joined;
use crate::formats::Format;
use crate::input::{cite_views, distinct_of, prefixes, prefixes_of};
use crate::text::same;
use vstd::prelude::*;
use vstd::string::*;

verus! {

/// One of the sources that the command line knows, by the prefix that it is bound to.
#[derive(Clone, Copy, PartialEq, Eq, Debug, Structural)]
pub enum SourceKind {
    /// `arxiv:2301.00001`
    Arxiv,
    /// `doi:10.1103/PhysRev.47.777`
    Doi,
    /// `bib:knuth1984`
    Bib,
    /// `manual:Einstein, A. (1935)`
    Manual,
}

/// The prefix of a source.
pub open spec fn prefix_of(kind: SourceKind) -> Seq<char> {
    match kind {
        SourceKind::Arxiv => "arxiv"@,
        SourceKind::Doi => "doi"@,
        SourceKind::Bib => "bib"@,
        SourceKind::Manual => "manual"@,
    }
}

impl SourceKind {
    /// Every source.
    pub fn all() -> (r: Vec<SourceKind>)
        ensures
            r@ == all_kinds(),
    {
        let mut out: Vec<SourceKind> = Vec::new();
        out.push(SourceKind::Arxiv);
        out.push(SourceKind::Doi);
        out.push(SourceKind::Bib);
        out.push(SourceKind::Manual);
        assert(out@ =~= all_kinds());
        out
    }

    /// The prefix that the source is bound to.
    pub fn prefix(self) -> (r: &'static str)
        ensures
            r@ == prefix_of(self),
    {
        match self {
            SourceKind::Arxiv => "arxiv",
            SourceKind::Doi => "doi",
            SourceKind::Bib => "bib",
            SourceKind::Manual => "manual",
        }
    }
}

/// Every source.
pub open spec fn all_kinds() -> Seq<SourceKind> {
    seq![SourceKind::Arxiv, SourceKind::Doi, SourceKind::Bib, SourceKind::Manual]
}

/// What the command line says.
pub struct Cli {
    /// Files that list citations; `-` is standard input.
    pub input: Vec<String>,
    /// Citations that are given directly.
    pub cite: Vec<String>,
    /// Where to write, in place of standard output.
    pub output: Option<String>,
    /// Whether to write on one line.
    pub compact: bool,
    /// The sources to enable; all where none is named.
    pub enable: Vec<SourceKind>,
    /// The sources to disable in spite of that.
    pub disable: Vec<SourceKind>,
    /// Bibliography files.
    pub bib: Vec<String>,
    pub bib_format: Format,
    /// A file of overriding DOIs.
    pub arxiv_doi_overrides: Option<String>,
    /// Whether arXiv entries are kept in place of being chained to their DOIs.
    pub no_arxiv_chaining: bool,
    /// The format that manual citations are written in.
    pub manual_format: Option<String>,
    /// Fields to drop from every item.
    pub drop_field: Vec<String>,
    /// The directory of the cache files, and what their names begin with.
    pub cache_dir: String,
    pub cache_name: String,
    pub user_agent: Option<String>,
    /// How much progress to report.
    pub verbose: u8,
}

/// The sources that the command line enables: those that it names, or all, without
/// those that it disables, each once.
pub open spec fn enabled(cli: Cli) -> Seq<SourceKind> {
    let base = if cli.enable@.len() == 0 {
        all_kinds()
    } else {
        cli.enable@
    };
    distinct_of(base.filter(|k: SourceKind| !cli.disable@.contains(k)))
}

/// Whether a source is among others.
fn among(kinds: &Vec<SourceKind>, kind: SourceKind) -> (r: bool)
    ensures
        r == kinds@.contains(kind),
{
    let mut i: usize = 0;
    while i < kinds.len()
        invariant
            i <= kinds@.len(),
            forall|k: int| 0 <= k < i ==> #[trigger] kinds@[k] != kind,
        decreases kinds@.len() - i,
    {
        if kinds[i] == kind {
            assert(kinds@[i as int] == kind);
            return true;
        }
        i += 1;
    }
    false
}

impl Cli {
    /// The format that manual citations are written in; `flm` where none is named.
    pub fn manual_format(&self) -> (r: &str)
        ensures
            r@ == (match self.manual_format {
                Some(f) => f@,
                None => "flm"@,
            }),
    {
        match &self.manual_format {
            Some(f) => f.as_str(),
            None => "flm",
        }
    }

    /// The sources to bind.
    pub fn enabled_sources(&self) -> (r: Vec<SourceKind>)
        ensures
            r@ == enabled(*self),
    {
        let all = SourceKind::all();
        let base = if self.enable.len() == 0 { &all } else { &self.enable };
        let ghost wanted = |k: SourceKind| !self.disable@.contains(k);
        let mut out: Vec<SourceKind> = Vec::new();
        let mut i: usize = 0;
        proof {
            reveal(Seq::filter);
            assert(base@.take(0) =~= Seq::empty());
            assert(base@.take(0).filter(wanted) =~= Seq::empty());
        }
        while i < base.len()
            invariant
                i <= base@.len(),
                wanted == (|k: SourceKind| !self.disable@.contains(k)),
                out@ == distinct_of(base@.take(i as int).filter(wanted)),
            decreases base@.len() - i,
        {
            let kind: SourceKind = base[i];
            proof {
                reveal(Seq::filter);
                let t = base@.take(i + 1);
                assert(t.drop_last() =~= base@.take(i as int));
                assert(t.last() == kind);
                if wanted(kind) {
                    assert(t.filter(wanted) == base@.take(i as int).filter(wanted).push(kind));
                    assert(t.filter(wanted).drop_last() =~= base@.take(i as int).filter(wanted));
                }
            }
            if !among(&self.disable, kind) && !among(&out, kind) {
                out.push(kind);
            }
            i += 1;
        }
        assert(base@.take(i as int) =~= base@);
        out
    }
}

/// One text if the condition holds.
pub open spec fn when(condition: bool, text: Seq<char>) -> Seq<Seq<char>> {
    if condition {
        seq![text]
    } else {
        Seq::empty()
    }
}

/// The complaints about prefixes that no source is bound to.
pub open spec fn unserved(prefixes: Seq<Seq<char>>, sources: Seq<SourceKind>) -> Seq<Seq<char>>
    decreases prefixes.len(),
{
    if prefixes.len() == 0 {
        Seq::empty()
    } else {
        let p = prefixes.last();
        unserved(prefixes.drop_last(), sources) + when(
            !serves(sources, p),
            "no enabled source for prefix `"@ + p + "`; those citations will fail"@,
        )
    }
}

/// Whether one of the sources has the prefix.
pub open spec fn serves(sources: Seq<SourceKind>, prefix: Seq<char>) -> bool {
    exists|i: int| 0 <= i < sources.len() && prefix_of(#[trigger] sources[i]) == prefix
}

/// What to point out before any request is sent: options that do nothing, and
/// citations that cannot be resolved.
pub open spec fn warnings(
    cli: Cli,
    cites: Seq<(Seq<char>, Seq<char>)>,
    sources: Seq<SourceKind>,
) -> Seq<Seq<char>> {
    let bib = sources.contains(SourceKind::Bib);
    let requested = prefixes_of(cites);
    when(
        cli.bib@.len() > 0 && !bib,
        "the `bib` source is disabled; --bib file(s) will be ignored"@,
    ) + when(
        cli.bib@.len() == 0 && bib && requested.contains("bib"@),
        "`bib:` citations were requested but no --bib file was given"@,
    ) + when(
        !sources.contains(SourceKind::Arxiv) && (cli.arxiv_doi_overrides is Some
            || cli.no_arxiv_chaining),
        "the `arxiv` source is disabled; its options will be ignored"@,
    ) + when(
        !sources.contains(SourceKind::Manual) && cli.manual_format is Some,
        "the `manual` source is disabled; --manual-format will be ignored"@,
    ) + unserved(requested, sources)
}

/// Whether one of the sources has the prefix.
fn is_served(sources: &Vec<SourceKind>, prefix: &str) -> (r: bool)
    ensures
        r == serves(sources@, prefix@),
{
    let mut i: usize = 0;
    while i < sources.len()
        invariant
            i <= sources@.len(),
            forall|k: int| 0 <= k < i ==> prefix_of(#[trigger] sources@[k]) != prefix@,
        decreases sources@.len() - i,
    {
        if same(sources[i].prefix(), prefix) {
            assert(prefix_of(sources@[i as int]) == prefix@);
            return true;
        }
        i += 1;
    }
    false
}

/// Appends a text if the condition holds.
fn push_when(out: &mut Vec<String>, condition: bool, text: &str)
    ensures
        texts(final(out)@) == texts(old(out)@) + when(condition, text@),
{
    let ghost was = texts(out@);
    if condition {
        out.push(text.to_owned());
    }
    assert(texts(out@) =~= was + when(condition, text@));
}

/// What to point out before any request is sent.
pub fn warn_about_unusable_options(
    cli: &Cli,
    cites: &[(String, String)],
    sources: &Vec<SourceKind>,
) -> (r: Vec<String>)
    ensures
        texts(r@) == warnings(*cli, cite_views(cites@), sources@),
{
    let bib = among(sources, SourceKind::Bib);
    let requested = prefixes(cites);
    let ghost all = prefixes_of(cite_views(cites@));
    let n: usize = requested.len();
    let mut wants_bib = false;
    let mut j: usize = 0;
    while j < n
        invariant
            j <= n == requested@.len(),
            all == requested@.map_values(|p: &str| p@),
            wants_bib == exists|k: int| 0 <= k < j && #[trigger] all[k] == "bib"@,
        decreases n - j,
    {
        assert(all[j as int] == requested@[j as int]@);
        if same(requested[j], "bib") {
            wants_bib = true;
        }
        j += 1;
    }
    assert(wants_bib == all.contains("bib"@)) by {
        if all.contains("bib"@) {
            let k = choose|k: int| 0 <= k < all.len() && all[k] == "bib"@;
            assert(0 <= k < j && all[k] == "bib"@);
        }
    }
    let mut out: Vec<String> = Vec::new();
    assert(texts(out@) =~= Seq::empty());
    push_when(
        &mut out,
        cli.bib.len() > 0 && !bib,
        "the `bib` source is disabled; --bib file(s) will be ignored",
    );
    push_when(
        &mut out,
        cli.bib.len() == 0 && bib && wants_bib,
        "`bib:` citations were requested but no --bib file was given",
    );
    push_when(
        &mut out,
        !among(sources, SourceKind::Arxiv) && (cli.arxiv_doi_overrides.is_some()
            || cli.no_arxiv_chaining),
        "the `arxiv` source is disabled; its options will be ignored",
    );
    push_when(
        &mut out,
        !among(sources, SourceKind::Manual) && cli.manual_format.is_some(),
        "the `manual` source is disabled; --manual-format will be ignored",
    );
    let ghost first = texts(out@);
    let mut i: usize = 0;
    proof {
        assert(all.take(0) =~= Seq::empty());
        assert(first + unserved(all.take(0), sources@) =~= first);
    }
    while i < n
        invariant
            i <= n == requested@.len(),
            all == requested@.map_values(|p: &str| p@),
            texts(out@) == first + unserved(all.take(i as int), sources@),
        decreases n - i,
    {
        let p = requested[i];
        let m = joined("no enabled source for prefix `", p, "`; those citations will fail");
        let ghost was = texts(out@);
        push_when(&mut out, !is_served(sources, p), m.as_str());
        proof {
            assert(all.take(i + 1).drop_last() =~= all.take(i as int));
            assert(all.take(i + 1).last() == p@);
            assert(texts(out@) =~= first + unserved(all.take(i + 1), sources@));
        }
        i += 1;
    }
    assert(all.take(i as int) =~= all);
    proof {
        assert(texts(out@) =~= warnings(*cli, cite_views(cites@), sources@));
    }
    out
}

} // verus!
