//! Sources of bibliographic information, and what they answer.
//!
//! A source does not own a prefix: the host binds `(prefix, source)` when it
//! registers the source, so one type can serve several prefixes. Each source here
//! says which request to send for its keys and what the reply means; the host does
//! the sending.

pub mod arxiv;
pub mod atom;
pub mod bibfile;
pub mod doi;
pub mod manual;

use crate::csl::{CslValue, Json};
use crate::env::{duration_millis, duration_nanos};
use crate::error::{Error, ErrorView};
use crate::text::{
    is_white, lemma_trim_end, lemma_trim_start, lower, lower_char, lowered, trim, trim_end,
    trim_start, trimmed,
};
use core::time::Duration;
use vstd::prelude::*;
use vstd::string::*;

verus! {

/// What a source resolved a key into.
#[derive(Debug, PartialEq)]
pub enum Outcome {
    /// Metadata, with a lifetime of its own if it has one.
    Concrete { csl: CslValue, ttl: Option<Duration> },
    /// A pointer to another citation. `set_properties` overrides fields of the
    /// target when it is read.
    Chained { prefix: String, key: String, set_properties: CslValue },
    /// The source could not be reached or was in error. A cached copy within its
    /// grace keeps being served, and nothing is reported then.
    Failed(Error),
    /// The source was reached and has no such key. This is always reported, and a
    /// cached copy is dropped.
    Missing(Error),
}

/// An outcome by its meaning.
pub enum OutcomeView {
    Concrete { csl: Json, ttl: Option<Duration> },
    Chained { prefix: Seq<char>, key: Seq<char>, set_properties: Json },
    Failed(ErrorView),
    Missing(ErrorView),
}

impl View for Outcome {
    type V = OutcomeView;

    open spec fn view(&self) -> OutcomeView {
        match self {
            Outcome::Concrete { csl, ttl } => OutcomeView::Concrete { csl: csl@, ttl: *ttl },
            Outcome::Chained { prefix, key, set_properties } => OutcomeView::Chained {
                prefix: prefix@,
                key: key@,
                set_properties: set_properties@,
            },
            Outcome::Failed(e) => OutcomeView::Failed(e@),
            Outcome::Missing(e) => OutcomeView::Missing(e@),
        }
    }
}

impl Clone for Outcome {
    fn clone(&self) -> (r: Self)
        ensures
            r@ == self@,
    {
        match self {
            Outcome::Concrete { csl, ttl } => Outcome::Concrete { csl: csl.clone(), ttl: *ttl },
            Outcome::Chained { prefix, key, set_properties } => Outcome::Chained {
                prefix: prefix.clone(),
                key: key.clone(),
                set_properties: set_properties.clone(),
            },
            Outcome::Failed(e) => Outcome::Failed(e.clone()),
            Outcome::Missing(e) => Outcome::Missing(e.clone()),
        }
    }
}

/// The result of resolving one requested key.
#[derive(Debug, PartialEq)]
pub struct Resolution {
    /// The requested key.
    pub key: String,
    pub outcome: Outcome,
}

/// A resolution by its meaning.
pub struct ResolutionView {
    pub key: Seq<char>,
    pub outcome: OutcomeView,
}

impl View for Resolution {
    type V = ResolutionView;

    open spec fn view(&self) -> ResolutionView {
        ResolutionView { key: self.key@, outcome: self.outcome@ }
    }
}

impl Resolution {
    /// Resolved to metadata, with the source's lifetime.
    pub fn concrete(key: &str, csl: CslValue) -> (r: Self)
        ensures
            r@ == (ResolutionView {
                key: key@,
                outcome: OutcomeView::Concrete { csl: csl@, ttl: None },
            }),
    {
        Resolution { key: key.to_owned(), outcome: Outcome::Concrete { csl, ttl: None } }
    }

    /// Resolved to a pointer.
    pub fn chained(
        key: &str,
        target_prefix: &str,
        target_key: &str,
        set_properties: CslValue,
    ) -> (r: Self)
        ensures
            r@ == (ResolutionView {
                key: key@,
                outcome: OutcomeView::Chained {
                    prefix: target_prefix@,
                    key: target_key@,
                    set_properties: set_properties@,
                },
            }),
    {
        Resolution {
            key: key.to_owned(),
            outcome: Outcome::Chained {
                prefix: target_prefix.to_owned(),
                key: target_key.to_owned(),
                set_properties,
            },
        }
    }

    /// Not resolved because the source could not be reached or was in error.
    pub fn failed(key: &str, err: Error) -> (r: Self)
        ensures
            r@ == (ResolutionView { key: key@, outcome: OutcomeView::Failed(err@) }),
    {
        Resolution { key: key.to_owned(), outcome: Outcome::Failed(err) }
    }

    /// Not resolved because the source has no such key.
    pub fn missing(key: &str, err: Error) -> (r: Self)
        ensures
            r@ == (ResolutionView { key: key@, outcome: OutcomeView::Missing(err@) }),
    {
        Resolution { key: key.to_owned(), outcome: Outcome::Missing(err) }
    }
}

/// The views of resolutions.
pub open spec fn resolution_views(s: Seq<Resolution>) -> Seq<ResolutionView> {
    s.map_values(|r: Resolution| r@)
}

/// A provider of bibliographic information, bound to a prefix by the host.
pub trait Source {
    /// The form in which a key is kept: what a cache id is made of.
    open spec fn key_form(&self, key: Seq<char>) -> Seq<char> {
        folded_form(key)
    }

    /// Puts a requested key in the form in which it is kept. All spellings of a key
    /// that have one form share one cache entry and one fetch. Where a key is an
    /// identifier whose case and surrounding white space mean nothing, this is
    /// [`folded_key`].
    ///
    /// To put a key in that form again changes nothing: along a chain a key is
    /// normalized more than once.
    fn normalize_key(&self, key: &str) -> (r: String)
        ensures
            r@ == self.key_form(key@),
            self.key_form(r@) == r@,
    ;

    /// How many keys go into one request at most.
    fn chunk_size(&self) -> (r: usize)
        default_ensures
            r == 512,
    {
        512
    }

    /// How far apart requests start at least.
    fn min_interval(&self) -> (r: Duration)
        default_ensures
            duration_millis(r) == 1000,
    {
        Duration::from_millis(1000)
    }

    /// The lifetime of entries that come without one.
    fn default_ttl(&self) -> (r: Duration)
        default_ensures
            duration_nanos(r) == 30 * 24 * 60 * 60 * 1_000_000_000,
    {
        Duration::from_secs(30 * 24 * 60 * 60)
    }

    /// Prefixes that this source may chain to. For introspection only.
    fn chains_to(&self) -> (r: Vec<String>)
        default_ensures
            r@.len() == 0,
    {
        Vec::new()
    }
}

/// A key without the white space around it.
pub open spec fn trimmed_form(key: Seq<char>) -> Seq<char> {
    trim(key)
}

/// A key without the white space around it and in small letters.
pub open spec fn folded_form(key: Seq<char>) -> Seq<char> {
    lower(trim(key))
}

/// A key without the white space around it and in small letters.
pub fn folded_key(key: &str) -> (r: String)
    ensures
        r@ == folded_form(key@),
{
    let t = trimmed(key);
    lowered(t.as_str())
}

/// A text that neither begins nor ends with white space.
pub open spec fn tight(s: Seq<char>) -> bool {
    s.len() > 0 ==> !is_white(s[0]) && !is_white(s.last())
}

proof fn lemma_trim_start_first(s: Seq<char>)
    ensures
        trim_start(s).len() > 0 ==> !is_white(trim_start(s)[0]),
    decreases s.len(),
{
    if s.len() > 0 && is_white(s[0]) {
        lemma_trim_start_first(s.skip(1));
    }
}

proof fn lemma_trim_end_ends(s: Seq<char>)
    ensures
        trim_end(s).len() > 0 ==> !is_white(trim_end(s).last()) && trim_end(s)[0] == s[0],
    decreases s.len(),
{
    if s.len() > 0 && is_white(s.last()) {
        lemma_trim_end_ends(s.drop_last());
    }
}

/// What was trimmed is tight.
pub proof fn lemma_trim_is_tight(s: Seq<char>)
    ensures
        tight(trim(s)),
{
    lemma_trim_start_first(s);
    lemma_trim_end_ends(trim_start(s));
}

/// Trimming leaves a tight text alone.
pub proof fn lemma_tight_stays(s: Seq<char>)
    requires
        tight(s),
    ensures
        trim(s) == s,
{
    lemma_trim_start(s, 0);
    assert(s.skip(0) =~= s);
    lemma_trim_end(s, s.len() as int);
    assert(s.take(s.len() as int) =~= s);
}

/// Trimming twice is trimming once.
pub proof fn law_trimming_is_stable(key: Seq<char>)
    ensures
        trimmed_form(trimmed_form(key)) == trimmed_form(key),
{
    lemma_trim_is_tight(key);
    lemma_tight_stays(trim(key));
}

/// Folding twice is folding once.
pub proof fn law_folding_is_stable(key: Seq<char>)
    ensures
        folded_form(folded_form(key)) == folded_form(key),
{
    let t = trim(key);
    let f = lower(t);
    lemma_trim_is_tight(key);
    assert(tight(f)) by {
        if f.len() > 0 {
            assert(f[0] == lower_char(t[0]));
            assert(f.last() == lower_char(t.last()));
        }
    }
    lemma_tight_stays(f);
    assert(lower(f) =~= f);
}

} // verus!
