//! Requests, responses and the ways in which a fetch fails.

use crate::index::TextMap;
use crate::text::{decimal, decimal_text, lower, lowered};
use vstd::prelude::*;
use vstd::string::*;
use vstd::utf8::{decode_utf8, valid_utf8};

verus! {

/// `core::str::Utf8Error`, why bytes are no UTF-8.
#[verifier::external_type_specification]
#[verifier::external_body]
pub struct ExUtf8Error(core::str::Utf8Error);

/// `core::str::from_utf8`: the text that the bytes encode, if they are UTF-8.
pub assume_specification[ core::str::from_utf8 ](v: &[u8]) -> (r: Result<
    &str,
    core::str::Utf8Error,
>)
    ensures
        match r {
            Ok(s) => valid_utf8(v@) && s@ == decode_utf8(v@),
            Err(_) => !valid_utf8(v@),
        },
;

/// HTTP request method. Only the two that the sources need.
#[derive(Clone, Copy, Debug, PartialEq, Eq, Structural)]
pub enum Method {
    Get,
    Post,
}

/// A request to fetch a URL (or a `file:` path).
pub struct Request {
    pub url: String,
    pub method: Method,
    /// Header names are kept in lower case.
    pub headers: TextMap<String>,
    pub body: Option<Vec<u8>>,
}

/// A map of texts by the views of its values.
pub open spec fn text_map(m: Map<Seq<char>, String>) -> Map<Seq<char>, Seq<char>> {
    m.map_values(|s: String| s@)
}

impl Request {
    /// A `GET` request for `url`.
    pub fn get(url: &str) -> (r: Self)
        ensures
            r.url@ == url@,
            r.method == Method::Get,
            text_map(r.headers@) == Map::<Seq<char>, Seq<char>>::empty(),
            r.body is None,
    {
        let r = Request {
            url: url.to_owned(),
            method: Method::Get,
            headers: TextMap::new(),
            body: None,
        };
        assert(text_map(r.headers@) =~= Map::<Seq<char>, Seq<char>>::empty());
        r
    }

    /// A `POST` request for `url`.
    pub fn post(url: &str) -> (r: Self)
        ensures
            r.url@ == url@,
            r.method == Method::Post,
            text_map(r.headers@) == Map::<Seq<char>, Seq<char>>::empty(),
            r.body is None,
    {
        let r = Request {
            url: url.to_owned(),
            method: Method::Post,
            headers: TextMap::new(),
            body: None,
        };
        assert(text_map(r.headers@) =~= Map::<Seq<char>, Seq<char>>::empty());
        r
    }

    /// The request with a header more; its name is put in lower case.
    pub fn header(self, name: &str, value: &str) -> (r: Self)
        ensures
            r.url == self.url,
            r.method == self.method,
            text_map(r.headers@) == text_map(self.headers@).insert(lower(name@), value@),
            r.body == self.body,
    {
        let ghost before = self.headers@;
        let Request { url, method, mut headers, body } = self;
        headers.insert(lowered(name), value.to_owned());
        assert(text_map(headers@) =~= text_map(before).insert(lower(name@), value@));
        Request { url, method, headers, body }
    }

    /// The request with a body.
    pub fn with_body(self, body: Vec<u8>) -> (r: Self)
        ensures
            r.url == self.url,
            r.method == self.method,
            r.headers == self.headers,
            r.body == Some(body),
    {
        Request { url: self.url, method: self.method, headers: self.headers, body: Some(body) }
    }
}

/// A buffered response.
pub struct Response {
    pub status: u16,
    /// Fetchers should put header names in lower case.
    pub headers: TextMap<String>,
    pub body: Vec<u8>,
}

/// The value of the first header whose name is `name` in whatever case.
pub open spec fn first_header(pairs: Seq<(Seq<char>, String)>, name: Seq<char>) -> Option<Seq<char>>
    decreases pairs.len(),
{
    if pairs.len() == 0 {
        None
    } else if lower(pairs[0].0) == lower(name) {
        Some(pairs[0].1@)
    } else {
        first_header(pairs.skip(1), name)
    }
}

/// The value of the header `name`: what is kept under its lower-case name, or else
/// under another spelling of it.
pub open spec fn header_value(headers: TextMap<String>, name: Seq<char>) -> Option<Seq<char>> {
    if headers@.contains_key(lower(name)) {
        Some(headers@[lower(name)]@)
    } else {
        first_header(headers.pairs(), name)
    }
}

/// A text that may be absent, taken by view.
pub open spec fn opt_text(s: Option<&str>) -> Option<Seq<char>> {
    match s {
        Some(t) => Some(t@),
        None => None,
    }
}

impl Response {
    /// Whether the status is 2xx.
    pub fn is_success(&self) -> (r: bool)
        ensures
            r == (200 <= self.status < 300),
    {
        200 <= self.status && self.status < 300
    }

    /// The body decoded as UTF-8.
    pub fn text(&self) -> (r: Result<&str, core::str::Utf8Error>)
        ensures
            match r {
                Ok(s) => valid_utf8(self.body@) && s@ == decode_utf8(self.body@),
                Err(_) => !valid_utf8(self.body@),
            },
    {
        core::str::from_utf8(self.body.as_slice())
    }

    /// Looks up a response header, whatever the case of either name.
    pub fn header(&self, name: &str) -> (r: Option<&str>)
        ensures
            opt_text(r) == header_value(self.headers, name@),
    {
        let wanted = lowered(name);
        if let Some(v) = self.headers.get(wanted.as_str()) {
            return Some(v.as_str());
        }
        let n: usize = self.headers.len();
        let ghost p = self.headers.pairs();
        assert(p.skip(0) =~= p);
        let mut i: usize = 0;
        while i < n
            invariant
                i <= n == p.len(),
                p == self.headers.pairs(),
                wanted@ == lower(name@),
                first_header(p, name@) == first_header(p.skip(i as int), name@),
                !self.headers@.contains_key(lower(name@)),
            decreases n - i,
        {
            assert(p.skip(i as int)[0] == p[i as int]);
            assert(p.skip(i as int).skip(1) =~= p.skip(i + 1));
            if lowered(self.headers.key_at(i).as_str()) == wanted {
                return Some(self.headers.value_at(i).as_str());
            }
            i += 1;
        }
        None
    }
}

/// Why a fetch failed.
#[derive(Debug, PartialEq)]
pub enum FetchError {
    /// A failure of transport (DNS, connection, TLS, timeout).
    Transport(String),
    /// An HTTP status that the fetcher chose to surface as an error.
    Status(u16),
    /// Anything else.
    Other(String),
}

/// A fetch error by its meaning.
pub enum FetchErrorView {
    Transport(Seq<char>),
    Status(u16),
    Other(Seq<char>),
}

impl View for FetchError {
    type V = FetchErrorView;

    open spec fn view(&self) -> FetchErrorView {
        match self {
            FetchError::Transport(m) => FetchErrorView::Transport(m@),
            FetchError::Status(s) => FetchErrorView::Status(*s),
            FetchError::Other(m) => FetchErrorView::Other(m@),
        }
    }
}

impl Clone for FetchError {
    fn clone(&self) -> (r: Self)
        ensures
            r@ == self@,
    {
        match self {
            FetchError::Transport(m) => FetchError::Transport(m.clone()),
            FetchError::Status(s) => FetchError::Status(*s),
            FetchError::Other(m) => FetchError::Other(m.clone()),
        }
    }
}

/// The HTTP statuses that are worth another try.
pub open spec fn retryable_status(status: u16) -> bool {
    status == 429 || status == 500 || status == 502 || status == 503 || status == 504
}

/// Whether the status is worth another try.
pub fn is_retryable_status(status: u16) -> (r: bool)
    ensures
        r == retryable_status(status),
{
    status == 429 || status == 500 || status == 502 || status == 503 || status == 504
}

/// Whether another try might succeed where this failure came.
pub open spec fn retryable(e: FetchErrorView) -> bool {
    match e {
        FetchErrorView::Transport(_) => true,
        FetchErrorView::Status(s) => retryable_status(s),
        FetchErrorView::Other(_) => false,
    }
}

/// The message of a fetch error.
pub open spec fn fetch_error_text(e: FetchErrorView) -> Seq<char> {
    match e {
        FetchErrorView::Transport(m) => "transport: "@ + m,
        FetchErrorView::Status(s) => "http status "@ + decimal(s as nat),
        FetchErrorView::Other(m) => m,
    }
}

impl FetchError {
    /// Whether another try, after a wait, might succeed.
    pub fn is_retryable(&self) -> (r: bool)
        ensures
            r == retryable(self@),
    {
        match self {
            FetchError::Transport(_) => true,
            FetchError::Status(s) => is_retryable_status(*s),
            FetchError::Other(_) => false,
        }
    }

    /// The message of the error.
    pub fn message(&self) -> (r: String)
        ensures
            r@ == fetch_error_text(self@),
    {
        match self {
            FetchError::Transport(m) => "transport: ".to_owned().concat(m.as_str()),
            FetchError::Status(s) => "http status ".to_owned().concat(
                decimal_text(*s as u64).as_str(),
            ),
            FetchError::Other(m) => m.clone(),
        }
    }
}

} // verus!
