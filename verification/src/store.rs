//! What the cache holds: records with a payload and a two-tier expiry.

use crate::csl::{CslValue, Json};
use crate::env::Timestamp;
use vstd::prelude::*;
use vstd::string::*;

verus! {

/// The payload of a cache entry: metadata, or a pointer to another citation whose
/// metadata is to be used instead.
#[derive(Debug, PartialEq)]
pub enum Payload {
    /// CSL-JSON, with its `id`.
    Concrete(CslValue),
    /// A pointer, such as `arxiv:... -> doi:...`. On reading, the target is
    /// resolved and `set_properties` overrides the target's fields.
    Chained { prefix: String, key: String, set_properties: CslValue },
}

/// A payload by its meaning.
pub enum PayloadView {
    Concrete(Json),
    Chained { prefix: Seq<char>, key: Seq<char>, set_properties: Json },
}

/// A cache entry.
///
/// Past `stale_after` it is preferably fetched again, past `expires` it is. Reads
/// look at neither.
#[derive(Debug, PartialEq)]
pub struct CacheRecord {
    pub payload: Payload,
    pub stale_after: Timestamp,
    pub expires: Timestamp,
}

/// A cache entry by its meaning, points in time in milliseconds.
pub struct RecordView {
    pub payload: PayloadView,
    pub stale_after: int,
    pub expires: int,
}

impl View for Payload {
    type V = PayloadView;

    open spec fn view(&self) -> PayloadView {
        match self {
            Payload::Concrete(csl) => PayloadView::Concrete(csl@),
            Payload::Chained { prefix, key, set_properties } => PayloadView::Chained {
                prefix: prefix@,
                key: key@,
                set_properties: set_properties@,
            },
        }
    }
}

impl View for CacheRecord {
    type V = RecordView;

    open spec fn view(&self) -> RecordView {
        RecordView {
            payload: self.payload@,
            stale_after: self.stale_after.0 as int,
            expires: self.expires.0 as int,
        }
    }
}

impl Clone for Payload {
    fn clone(&self) -> (r: Self)
        ensures
            r@ == self@,
    {
        match self {
            Payload::Concrete(csl) => Payload::Concrete(csl.clone()),
            Payload::Chained { prefix, key, set_properties } => Payload::Chained {
                prefix: prefix.clone(),
                key: key.clone(),
                set_properties: set_properties.clone(),
            },
        }
    }
}

impl Clone for CacheRecord {
    fn clone(&self) -> (r: Self)
        ensures
            r@ == self@,
    {
        CacheRecord {
            payload: self.payload.clone(),
            stale_after: self.stale_after,
            expires: self.expires,
        }
    }
}

/// The cache backend failed.
#[derive(Debug, PartialEq)]
pub struct StoreError(pub String);

impl Clone for StoreError {
    fn clone(&self) -> (r: Self)
        ensures
            r.0@ == self.0@,
    {
        StoreError(self.0.clone())
    }
}

impl StoreError {
    /// The message of the error.
    pub fn message(&self) -> (r: String)
        ensures
            r@ == self.0@,
    {
        self.0.clone()
    }
}

} // verus!
