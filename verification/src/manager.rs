//! [`CitationManager`]: routing, what a retrieval decides, and reading through
//! chains.
//!
//! A retrieval works in passes over a list of citations. Each pass decides, from
//! what the cache holds, which keys to send to which source; the host sends them;
//! then the pass decides what to store and report. Pointers lead to further
//! citations, which are the next pass's list. The host performs the reads, writes
//! and requests in between.

use crate::cache::TtlPolicy;
use crate::csl::{cite_id, id_of};
use crate::driver::texts;
use crate::error::{error_text, Error, ErrorView};
use crate::index::TextMap;
use crate::retry::RetryPolicy;
use crate::source::Source;
use crate::text::chars_of;
use vstd::prelude::*;
use vstd::string::*;

verus! {

/// A citation by its prefix and its key.
pub open spec fn pair_view(p: Option<(String, String)>) -> Option<(Seq<char>, Seq<char>)> {
    match p {
        Some((a, b)) => Some((a@, b@)),
        None => None,
    }
}

/// A citation that could not be resolved and has no usable cached copy.
#[derive(Debug, PartialEq)]
pub struct CiteFailure {
    pub prefix: String,
    pub key: String,
    pub message: String,
    /// The requested citation whose chain led here; none where this citation was
    /// itself requested.
    pub origin: Option<(String, String)>,
}

/// A failure by its meaning.
pub struct FailureView {
    pub prefix: Seq<char>,
    pub key: Seq<char>,
    pub message: Seq<char>,
    pub origin: Option<(Seq<char>, Seq<char>)>,
}

impl View for CiteFailure {
    type V = FailureView;

    open spec fn view(&self) -> FailureView {
        FailureView {
            prefix: self.prefix@,
            key: self.key@,
            message: self.message@,
            origin: pair_view(self.origin),
        }
    }
}

/// What a retrieval reports.
#[derive(Debug, PartialEq)]
pub struct RetrieveReport {
    pub failures: Vec<CiteFailure>,
}

impl Default for RetrieveReport {
    fn default() -> (r: Self)
        ensures
            r.failures@.len() == 0,
    {
        RetrieveReport { failures: Vec::new() }
    }
}

impl RetrieveReport {
    /// Whether every citation was resolved.
    pub fn is_complete(&self) -> (r: bool)
        ensures
            r == (self.failures@.len() == 0),
    {
        self.failures.len() == 0
    }
}

/// A citation that a retrieval has to look at.
#[derive(Debug, PartialEq)]
pub struct WorkItem {
    pub prefix: String,
    pub key: String,
    /// How many pointers away from a requested citation it is.
    pub depth: usize,
    /// The requested citation whose chain led here; none where this citation was
    /// itself requested.
    pub origin: Option<(String, String)>,
}

/// A citation to look at, by its meaning.
pub struct ItemView {
    pub prefix: Seq<char>,
    pub key: Seq<char>,
    pub depth: nat,
    pub origin: Option<(Seq<char>, Seq<char>)>,
}

impl View for WorkItem {
    type V = ItemView;

    open spec fn view(&self) -> ItemView {
        ItemView {
            prefix: self.prefix@,
            key: self.key@,
            depth: self.depth as nat,
            origin: pair_view(self.origin),
        }
    }
}

/// The views of citations to look at.
pub open spec fn item_views(s: Seq<WorkItem>) -> Seq<ItemView> {
    s.map_values(|w: WorkItem| w@)
}

fn copy_pair(p: &Option<(String, String)>) -> (r: Option<(String, String)>)
    ensures
        pair_view(r) == pair_view(*p),
{
    match p {
        Some((a, b)) => Some((a.clone(), b.clone())),
        None => None,
    }
}

impl Clone for WorkItem {
    fn clone(&self) -> (r: Self)
        ensures
            r@ == self@,
    {
        WorkItem {
            prefix: self.prefix.clone(),
            key: self.key.clone(),
            depth: self.depth,
            origin: copy_pair(&self.origin),
        }
    }
}

impl ItemView {
    /// The id of the citation.
    pub open spec fn id(self) -> Seq<char> {
        id_of(self.prefix, self.key)
    }

    /// The requested citation that this one goes back to.
    pub open spec fn root(self) -> (Seq<char>, Seq<char>) {
        match self.origin {
            Some(p) => p,
            None => (self.prefix, self.key),
        }
    }

    /// The target of a pointer that this citation is.
    pub open spec fn target(self, prefix: Seq<char>, key: Seq<char>) -> ItemView {
        ItemView {
            prefix,
            key,
            depth: if self.depth < usize::MAX {
                self.depth + 1
            } else {
                self.depth
            },
            origin: Some(self.root()),
        }
    }

    /// The failure of this citation.
    pub open spec fn failure(self, error: ErrorView) -> FailureView {
        FailureView {
            prefix: self.prefix,
            key: self.key,
            message: error_text(error),
            origin: self.origin,
        }
    }
}

impl WorkItem {
    /// A copy of the requested citation whose chain led here.
    pub fn copy_origin(&self) -> (r: Option<(String, String)>)
        ensures
            pair_view(r) == self@.origin,
    {
        copy_pair(&self.origin)
    }

    /// The id of the citation.
    pub fn id(&self) -> (r: String)
        ensures
            r@ == self@.id(),
    {
        cite_id(self.prefix.as_str(), self.key.as_str())
    }

    /// The target of a pointer that this citation is.
    pub fn target(&self, prefix: &str, key: &str) -> (r: WorkItem)
        ensures
            r@ == self@.target(prefix@, key@),
    {
        let origin = match &self.origin {
            Some((a, b)) => Some((a.clone(), b.clone())),
            None => Some((self.prefix.clone(), self.key.clone())),
        };
        WorkItem {
            prefix: prefix.to_owned(),
            key: key.to_owned(),
            depth: if self.depth < usize::MAX { self.depth + 1 } else { self.depth },
            origin,
        }
    }

    /// The failure of this citation.
    pub fn failure(&self, error: &Error) -> (r: CiteFailure)
        ensures
            r@ == self@.failure(error@),
    {
        CiteFailure {
            prefix: self.prefix.clone(),
            key: self.key.clone(),
            message: error.message(),
            origin: copy_pair(&self.origin),
        }
    }
}

/// How a citation was first come upon.
pub struct Seen {
    pub depth: usize,
    pub origin: Option<(String, String)>,
}

/// How a citation was first come upon, by its meaning.
pub struct SeenView {
    pub depth: nat,
    pub origin: Option<(Seq<char>, Seq<char>)>,
}

impl View for Seen {
    type V = SeenView;

    open spec fn view(&self) -> SeenView {
        SeenView { depth: self.depth as nat, origin: pair_view(self.origin) }
    }
}

/// The ids that were come upon.
pub open spec fn seen_map(m: Map<Seq<char>, Seen>) -> Map<Seq<char>, SeenView> {
    m.map_values(|s: Seen| s@)
}

/// The citation with this prefix and key, as it was first come upon.
pub open spec fn as_seen(
    seen: Map<Seq<char>, SeenView>,
    prefix: Seq<char>,
    key: Seq<char>,
) -> ItemView {
    let id = id_of(prefix, key);
    if seen.contains_key(id) {
        ItemView { prefix, key, depth: seen[id].depth, origin: seen[id].origin }
    } else {
        ItemView { prefix, key, depth: 0, origin: None }
    }
}

pub fn seen_item(seen: &TextMap<Seen>, prefix: &str, key: &str) -> (r: WorkItem)
    ensures
        r@ == as_seen(seen_map(seen@), prefix@, key@),
{
    let id = cite_id(prefix, key);
    match seen.get(id.as_str()) {
        Some(s) => WorkItem {
            prefix: prefix.to_owned(),
            key: key.to_owned(),
            depth: s.depth,
            origin: copy_pair(&s.origin),
        },
        None => WorkItem { prefix: prefix.to_owned(), key: key.to_owned(), depth: 0, origin: None },
    }
}

/// The central decider: which source serves which prefix, and by which rules.
pub struct CitationManager<S: Source> {
    sources: TextMap<S>,
    policy: TtlPolicy,
    retry_policy: RetryPolicy,
    max_chain_depth: usize,
    dropped_fields: Vec<String>,
}

/// Whether a prefix makes ids that can be split again: it is not empty and holds no
/// colon.
pub open spec fn valid_prefix(prefix: Seq<char>) -> bool {
    prefix.len() > 0 && !prefix.contains(':')
}

impl<S: Source> CitationManager<S> {
    /// The source that each prefix is bound to.
    pub closed spec fn bound(self) -> Map<Seq<char>, S> {
        self.sources@
    }

    pub closed spec fn ttl_policy(self) -> TtlPolicy {
        self.policy
    }

    pub closed spec fn retry_rules(self) -> RetryPolicy {
        self.retry_policy
    }

    /// How many pointers a chain may have.
    pub closed spec fn depth_limit(self) -> nat {
        self.max_chain_depth as nat
    }

    /// The fields that are dropped from every item.
    pub closed spec fn dropped(self) -> Seq<Seq<char>> {
        texts(self.dropped_fields@)
    }

    /// The form in which a key is kept: that of the source that its prefix is bound
    /// to. A key of an unknown prefix stays as it is.
    pub open spec fn form(self, prefix: Seq<char>, key: Seq<char>) -> Seq<char> {
        if self.bound().contains_key(prefix) {
            self.bound()[prefix].key_form(key)
        } else {
            key
        }
    }

    /// A manager without sources, with the default policies.
    pub fn new() -> (r: Self)
        ensures
            r.bound() == Map::<Seq<char>, S>::empty(),
            r.depth_limit() == 16,
            r.dropped().len() == 0,
            r.ttl_policy().stale_percent == 80,
            r.ttl_policy().jitter_percent == 15,
            crate::env::duration_millis(r.ttl_policy().grace) == 14 * 24 * 60 * 60 * 1000,
            r.retry_rules().max_retries == 5,
            crate::env::duration_millis(r.retry_rules().base) == 500,
            crate::env::duration_millis(r.retry_rules().cap) == 30_000,
            r.retry_rules().honor_retry_after,
    {
        CitationManager {
            sources: TextMap::new(),
            policy: TtlPolicy::default(),
            retry_policy: RetryPolicy::default(),
            max_chain_depth: 16,
            dropped_fields: Vec::new(),
        }
    }

    /// Binds `prefix` to `source`, in place of a source that it was bound to. A
    /// prefix that is empty or holds a colon is refused.
    pub fn register(self, prefix: &str, source: S) -> (r: Result<Self, Error>)
        ensures
            match r {
                Ok(m) => {
                    &&& valid_prefix(prefix@)
                    &&& m.bound() == self.bound().insert(prefix@, source)
                    &&& m.ttl_policy() == self.ttl_policy()
                    &&& m.retry_rules() == self.retry_rules()
                    &&& m.depth_limit() == self.depth_limit()
                    &&& m.dropped() == self.dropped()
                },
                Err(e) => !valid_prefix(prefix@) && e@ == ErrorView::InvalidPrefix(prefix@),
            },
    {
        if prefix.is_empty() || has_colon(prefix) {
            return Err(Error::InvalidPrefix(prefix.to_owned()));
        }
        let CitationManager { mut sources, policy, retry_policy, max_chain_depth, dropped_fields } =
            self;
        sources.insert(prefix.to_owned(), source);
        Ok(CitationManager { sources, policy, retry_policy, max_chain_depth, dropped_fields })
    }

    /// The manager with another lifetime policy.
    pub fn with_policy(self, policy: TtlPolicy) -> (r: Self)
        ensures
            r.ttl_policy() == policy,
            r.bound() == self.bound(),
            r.retry_rules() == self.retry_rules(),
            r.depth_limit() == self.depth_limit(),
            r.dropped() == self.dropped(),
    {
        CitationManager {
            sources: self.sources,
            policy,
            retry_policy: self.retry_policy,
            max_chain_depth: self.max_chain_depth,
            dropped_fields: self.dropped_fields,
        }
    }

    /// The manager with another retry policy.
    pub fn with_retry_policy(self, policy: RetryPolicy) -> (r: Self)
        ensures
            r.retry_rules() == policy,
            r.bound() == self.bound(),
            r.ttl_policy() == self.ttl_policy(),
            r.depth_limit() == self.depth_limit(),
            r.dropped() == self.dropped(),
    {
        CitationManager {
            sources: self.sources,
            policy: self.policy,
            retry_policy: policy,
            max_chain_depth: self.max_chain_depth,
            dropped_fields: self.dropped_fields,
        }
    }

    /// The manager with another bound on the length of chains. It holds for
    /// retrieval and for reading alike.
    pub fn with_max_chain_depth(self, depth: usize) -> (r: Self)
        ensures
            r.depth_limit() == depth,
            r.bound() == self.bound(),
            r.ttl_policy() == self.ttl_policy(),
            r.retry_rules() == self.retry_rules(),
            r.dropped() == self.dropped(),
    {
        CitationManager {
            sources: self.sources,
            policy: self.policy,
            retry_policy: self.retry_policy,
            max_chain_depth: depth,
            dropped_fields: self.dropped_fields,
        }
    }

    /// The manager that drops these fields from every item before it is stored.
    pub fn with_dropped_csl_fields(self, names: Vec<String>) -> (r: Self)
        ensures
            r.dropped() == texts(names@),
            r.bound() == self.bound(),
            r.ttl_policy() == self.ttl_policy(),
            r.retry_rules() == self.retry_rules(),
            r.depth_limit() == self.depth_limit(),
    {
        CitationManager {
            sources: self.sources,
            policy: self.policy,
            retry_policy: self.retry_policy,
            max_chain_depth: self.max_chain_depth,
            dropped_fields: names,
        }
    }

    /// The source that the prefix is bound to.
    pub fn source(&self, prefix: &str) -> (r: Option<&S>)
        ensures
            r == (if self.bound().contains_key(prefix@) {
                Some(&self.bound()[prefix@])
            } else {
                None
            }),
    {
        self.sources.get(prefix)
    }

    /// The lifetime policy.
    pub fn policy(&self) -> (r: TtlPolicy)
        ensures
            r == self.ttl_policy(),
    {
        self.policy
    }

    /// How many pointers a chain may have.
    pub fn max_chain_depth(&self) -> (r: usize)
        ensures
            r == self.depth_limit(),
    {
        self.max_chain_depth
    }

    /// The fields that are dropped from every item.
    pub fn dropped_csl_fields(&self) -> (r: &Vec<String>)
        ensures
            texts(r@) == self.dropped(),
    {
        &self.dropped_fields
    }

    /// The retry policy that applies to every fetch.
    pub fn retry_policy(&self) -> (r: RetryPolicy)
        ensures
            r == self.retry_rules(),
    {
        self.retry_policy
    }

    /// Puts a key in the form in which it is kept.
    pub fn normalize_key(&self, prefix: &str, key: &str) -> (r: String)
        ensures
            r@ == self.form(prefix@, key@),
    {
        match self.sources.get(prefix) {
            Some(source) => source.normalize_key(key),
            None => key.to_owned(),
        }
    }
}

/// Whether the text holds a colon.
fn has_colon(s: &str) -> (r: bool)
    ensures
        r == s@.contains(':'),
{
    let v = chars_of(s);
    let mut i: usize = 0;
    while i < v.len()
        invariant
            i <= v@.len(),
            v@ == s@,
            forall|k: int| 0 <= k < i ==> #[trigger] v@[k] != ':',
        decreases v@.len() - i,
    {
        if v[i] == ':' {
            assert(s@[i as int] == ':');
            return true;
        }
        i += 1;
    }
    false
}

} // verus!
