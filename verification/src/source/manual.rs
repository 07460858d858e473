//! The `manual` source: the key *is* the formatted citation.
//!
//! This is for citations that no service knows. The text goes into the item under
//! `_ready_formatted`, below the name of the format that it is written in:
//!
//! ```json
//! { "_ready_formatted": { "flm": "Bohr, N. (1913). On the Constitution of ..." } }
//! ```
//!
//! Two keys that differ in case or white space are two citations. Entries have no
//! lifetime: they are resolved again in every run, which is free, and no file holds
//! them.

use crate::csl::{group_csl, CslValue, Json};
use crate::env::duration_nanos;
use crate::sorted::SortedMap;
use crate::source::{Outcome, OutcomeView, Resolution, ResolutionView, Source};
use core::time::Duration;
use vstd::prelude::*;
use vstd::string::*;

verus! {

/// Serves citations whose keys are the citations themselves.
pub struct ManualSource {
    format_name: String,
}

/// The item of a citation that is written out in a format.
pub open spec fn ready_formatted(format: Seq<char>, text: Seq<char>) -> Json {
    Json::Object(
        Map::empty().insert(
            "_ready_formatted"@,
            Json::Object(Map::empty().insert(format, Json::Text(text))),
        ),
    )
}

/// Whether this is the resolution of a manual citation: its item, without a
/// lifetime.
pub open spec fn is_manual(r: ResolutionView, format: Seq<char>, key: Seq<char>) -> bool {
    &&& r.key == key
    &&& r.outcome matches OutcomeView::Concrete { csl, ttl: Some(t) } && csl == ready_formatted(
        format,
        key,
    ) && duration_nanos(t) == 0
}

impl ManualSource {
    /// The format that the keys are written in.
    pub closed spec fn format(&self) -> Seq<char> {
        self.format_name@
    }

    /// A source for keys that are written in the named format (`flm`, `latex`,
    /// `html`, ...).
    pub fn new(format_name: &str) -> (r: Self)
        ensures
            r.format() == format_name@,
    {
        ManualSource { format_name: format_name.to_owned() }
    }

    /// Resolves a key: the citation is the key.
    pub fn resolve(&self, key: &str) -> (r: Resolution)
        ensures
            is_manual(r@, self.format(), key@),
    {
        broadcast use group_csl;

        let mut inner: SortedMap<CslValue> = SortedMap::new();
        inner.insert(self.format_name.clone(), CslValue::String(key.to_owned()));
        let mut outer: SortedMap<CslValue> = SortedMap::new();
        let formatted = CslValue::Object(inner);
        assert(formatted@ == Json::Object(Map::empty().insert(self.format(), Json::Text(key@))));
        outer.insert("_ready_formatted".to_owned(), formatted);
        let csl = CslValue::Object(outer);
        assert(csl@ == ready_formatted(self.format(), key@));
        Resolution {
            key: key.to_owned(),
            outcome: Outcome::Concrete { csl, ttl: Some(Duration::from_millis(0)) },
        }
    }

    /// Resolves keys, without a request.
    pub fn retrieve_chunk(&self, keys: &Vec<String>) -> (r: Vec<Resolution>)
        ensures
            r@.len() == keys@.len(),
            forall|i: int|
                0 <= i < keys@.len() ==> is_manual(
                    (#[trigger] r@[i])@,
                    self.format(),
                    keys@[i]@,
                ),
    {
        let mut out: Vec<Resolution> = Vec::new();
        let mut i: usize = 0;
        while i < keys.len()
            invariant
                i <= keys@.len(),
                out@.len() == i,
                forall|k: int|
                    0 <= k < i ==> is_manual((#[trigger] out@[k])@, self.format(), keys@[k]@),
            decreases keys@.len() - i,
        {
            out.push(self.resolve(keys[i].as_str()));
            i += 1;
        }
        out
    }
}

impl Source for ManualSource {
    open spec fn key_form(&self, key: Seq<char>) -> Seq<char> {
        key
    }

    fn normalize_key(&self, key: &str) -> (r: String) {
        key.to_owned()
    }

    fn chunk_size(&self) -> (r: usize)
        ensures
            r == usize::MAX,
    {
        usize::MAX
    }

    fn min_interval(&self) -> (r: Duration)
        ensures
            duration_nanos(r) == 0,
    {
        Duration::from_millis(0)
    }

    fn default_ttl(&self) -> (r: Duration)
        ensures
            duration_nanos(r) == 0,
    {
        Duration::from_millis(0)
    }
}

} // verus!
