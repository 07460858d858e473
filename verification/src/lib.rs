//! Automatic retrieval of bibliographic citations into CSL-JSON.
//!
//! A citation is a prefix and a key, such as `arxiv:1211.1037`. The prefix selects a
//! source ([`source`]), which knows what to ask which service for a key, and what the
//! answer means. A [`CitationManager`] decides what a retrieval has to fetch, what
//! becomes of the answers, and how a citation is read from the cache through pointers to
//! other citations. The cache is a file of lines and logs beside it
//! ([`FileCacheStore`]).
//!
//! Nothing here reads, sends or waits: the host does, and hands over what it got.

pub mod cache;
pub mod cli;
pub mod compaction;
pub mod course;
pub mod csl;
pub mod driver;
pub mod env;
pub mod error;
pub mod fetch;
pub mod filecache;
pub mod formats;
pub mod hash;
pub mod index;
pub mod input;
pub mod inquiry;
pub mod json;
pub mod known;
pub mod laws;
pub mod lines;
pub mod manager;
pub mod members;
pub mod output;
pub mod progress;
pub mod reading;
pub mod record;
pub mod report;
pub mod retrieval;
pub mod retry;
pub mod session;
pub mod settle;
pub mod setup;
pub mod sorted;
pub mod source;
pub mod store;
pub mod text;
pub mod urls;

pub use cache::{Freshness, TtlPolicy};
pub use csl::CslValue;
pub use env::{BlockingTimer, Clock, SystemClock, Timestamp};
pub use error::Error;
pub use fetch::{FetchError, Method, Request, Response};
pub use filecache::{FileCacheStore, FsError};
pub use manager::{CitationManager, CiteFailure, RetrieveReport};
pub use report::{Event, NopReporter, Reporter, Resolved, ThrottledReporter, Wait};
pub use retry::RetryPolicy;
pub use source::{Outcome, Resolution, Source};
pub use store::{CacheRecord, Payload, StoreError};
