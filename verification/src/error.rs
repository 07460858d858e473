//! What can go wrong in resolving or reading a citation.

use crate::fetch::{fetch_error_text, FetchError, FetchErrorView};
use crate::store::StoreError;
use vstd::prelude::*;
use vstd::string::*;

verus! {

/// Anything that can go wrong in resolving or reading a citation.
#[derive(Debug, PartialEq)]
pub enum Error {
    /// No source is registered for the citation prefix.
    UnknownPrefix(String),
    /// A source was registered under a prefix that is empty or holds a `:`, so
    /// that `prefix:key` ids would be ambiguous.
    InvalidPrefix(String),
    /// A citation id without a `:`.
    InvalidId(String),
    /// A key that was never resolved.
    NotFound(String),
    /// A chain of citation pointers that cannot be followed.
    Chain(String),
    /// The fetch of a URL failed.
    Fetch(FetchError),
    /// The cache backend failed.
    Store(StoreError),
    /// A response that could not be parsed into the expected shape.
    Parse(String),
    /// A failure that is particular to a source.
    Source(String),
}

/// An error by its meaning.
pub enum ErrorView {
    UnknownPrefix(Seq<char>),
    InvalidPrefix(Seq<char>),
    InvalidId(Seq<char>),
    NotFound(Seq<char>),
    Chain(Seq<char>),
    Fetch(FetchErrorView),
    Store(Seq<char>),
    Parse(Seq<char>),
    Source(Seq<char>),
}

impl View for Error {
    type V = ErrorView;

    open spec fn view(&self) -> ErrorView {
        match self {
            Error::UnknownPrefix(p) => ErrorView::UnknownPrefix(p@),
            Error::InvalidPrefix(p) => ErrorView::InvalidPrefix(p@),
            Error::InvalidId(id) => ErrorView::InvalidId(id@),
            Error::NotFound(id) => ErrorView::NotFound(id@),
            Error::Chain(m) => ErrorView::Chain(m@),
            Error::Fetch(e) => ErrorView::Fetch(e@),
            Error::Store(e) => ErrorView::Store(e.0@),
            Error::Parse(m) => ErrorView::Parse(m@),
            Error::Source(m) => ErrorView::Source(m@),
        }
    }
}

impl Clone for Error {
    fn clone(&self) -> (r: Self)
        ensures
            r@ == self@,
    {
        match self {
            Error::UnknownPrefix(p) => Error::UnknownPrefix(p.clone()),
            Error::InvalidPrefix(p) => Error::InvalidPrefix(p.clone()),
            Error::InvalidId(id) => Error::InvalidId(id.clone()),
            Error::NotFound(id) => Error::NotFound(id.clone()),
            Error::Chain(m) => Error::Chain(m.clone()),
            Error::Fetch(e) => Error::Fetch(e.clone()),
            Error::Store(e) => Error::Store(e.clone()),
            Error::Parse(m) => Error::Parse(m.clone()),
            Error::Source(m) => Error::Source(m.clone()),
        }
    }
}

/// The message of an error.
pub open spec fn error_text(e: ErrorView) -> Seq<char> {
    match e {
        ErrorView::UnknownPrefix(p) => "no source registered for prefix `"@ + p + "`"@,
        ErrorView::InvalidPrefix(p) => "invalid source prefix `"@ + p
            + "`: must be non-empty and contain no ':'"@,
        ErrorView::InvalidId(id) => "malformed citation id `"@ + id
            + "`: expected `prefix:key`"@,
        ErrorView::NotFound(id) => "citation `"@ + id + "` not found"@,
        ErrorView::Chain(m) => "citation chain error: "@ + m,
        ErrorView::Fetch(e) => "fetch error: "@ + fetch_error_text(e),
        ErrorView::Store(m) => "cache store error: "@ + m,
        ErrorView::Parse(m) => "parse error: "@ + m,
        ErrorView::Source(m) => "source error: "@ + m,
    }
}

/// Three texts in a row.
pub fn joined(a: &str, b: &str, c: &str) -> (r: String)
    ensures
        r@ == a@ + b@ + c@,
{
    a.to_owned().concat(b).concat(c)
}

impl Error {
    /// The message of the error.
    pub fn message(&self) -> (r: String)
        ensures
            r@ == error_text(self@),
    {
        match self {
            Error::UnknownPrefix(p) => joined("no source registered for prefix `", p.as_str(), "`"),
            Error::InvalidPrefix(p) => joined(
                "invalid source prefix `",
                p.as_str(),
                "`: must be non-empty and contain no ':'",
            ),
            Error::InvalidId(id) => joined(
                "malformed citation id `",
                id.as_str(),
                "`: expected `prefix:key`",
            ),
            Error::NotFound(id) => joined("citation `", id.as_str(), "` not found"),
            Error::Chain(m) => "citation chain error: ".to_owned().concat(m.as_str()),
            Error::Fetch(e) => "fetch error: ".to_owned().concat(e.message().as_str()),
            Error::Store(e) => "cache store error: ".to_owned().concat(e.0.as_str()),
            Error::Parse(m) => "parse error: ".to_owned().concat(m.as_str()),
            Error::Source(m) => "source error: ".to_owned().concat(m.as_str()),
        }
    }
}

impl From<FetchError> for Error {
    fn from(e: FetchError) -> (r: Self) {
        Error::Fetch(e)
    }
}

impl vstd::std_specs::convert::FromSpecImpl<FetchError> for Error {
    open spec fn obeys_from_spec() -> bool {
        true
    }

    open spec fn from_spec(e: FetchError) -> Self {
        Error::Fetch(e)
    }
}

impl From<StoreError> for Error {
    fn from(e: StoreError) -> (r: Self) {
        Error::Store(e)
    }
}

impl vstd::std_specs::convert::FromSpecImpl<StoreError> for Error {
    open spec fn obeys_from_spec() -> bool {
        true
    }

    open spec fn from_spec(e: StoreError) -> Self {
        Error::Store(e)
    }
}

} // verus!
