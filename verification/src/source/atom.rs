//! Reading the Atom feeds of the arXiv API.
//!
//! Elements are told apart by their local names, which is enough for these feeds.
//! Only what stands inside an `<entry>` is read.

use crate::driver::texts;
use crate::text::{
    chars_of, collapse_ws, collapsed, found_at, is_digit, lower, lowered, same, text_of, trim,
    trimmed, unsigned, all_digits, digits_value,
};
use crate::urls::{begins, hex_value};
use vstd::prelude::*;
use vstd::string::*;
use vstd::utf8::is_scalar;
use xmlparser::{ElementEnd, Token, Tokenizer};

verus! {

/// What an XML document is made of, as far as feeds need it.
pub enum XmlToken {
    /// A tag begins; the local name of its element.
    Start(String),
    /// The start tag that has begun ends.
    Open,
    /// The start tag that has begun ends, and with it the element.
    Empty,
    /// The end tag of an element with this local name.
    Close(String),
    /// Text as it is written, with its references.
    Text(String),
    /// Text that is to be taken literally.
    Cdata(String),
    /// Anything else.
    Other,
}

/// A token by its meaning.
pub enum TokenView {
    Start(Seq<char>),
    Open,
    Empty,
    Close(Seq<char>),
    Text(Seq<char>),
    Cdata(Seq<char>),
    Other,
}

impl View for XmlToken {
    type V = TokenView;

    open spec fn view(&self) -> TokenView {
        match self {
            XmlToken::Start(s) => TokenView::Start(s@),
            XmlToken::Open => TokenView::Open,
            XmlToken::Empty => TokenView::Empty,
            XmlToken::Close(s) => TokenView::Close(s@),
            XmlToken::Text(s) => TokenView::Text(s@),
            XmlToken::Cdata(s) => TokenView::Cdata(s@),
            XmlToken::Other => TokenView::Other,
        }
    }
}

/// The views of tokens.
pub open spec fn token_views(s: Seq<XmlToken>) -> Seq<TokenView> {
    s.map_values(|t: XmlToken| t@)
}

/// Tokens or an error, by their meaning.
pub open spec fn tokens_view(r: Result<Vec<XmlToken>, String>) -> Result<Seq<TokenView>, Seq<char>> {
    match r {
        Ok(v) => Ok(token_views(v@)),
        Err(e) => Err(e@),
    }
}

/// The tokens that `xmlparser` finds in a text, or the error that it stops at.
pub uninterp spec fn xml_tokens(text: Seq<char>) -> Result<Seq<TokenView>, Seq<char>>;

/// `xmlparser::Tokenizer`: the tokens of a text, up to its end or the first error.
/// They depend on the text alone.
#[verifier::external_body]
fn tokenize(xml: &str) -> (r: Result<Vec<XmlToken>, String>)
    ensures
        tokens_view(r) == xml_tokens(xml@),
{
    Tokenizer::from(xml).map(|t| t.map_err(|e| e.to_string()).map(|t| match t {
        Token::ElementStart { local, .. } => XmlToken::Start(local.to_string()),
        Token::ElementEnd { end: ElementEnd::Open, .. } => XmlToken::Open,
        Token::ElementEnd { end: ElementEnd::Empty, .. } => XmlToken::Empty,
        Token::ElementEnd { end: ElementEnd::Close(_, local), .. } => XmlToken::Close(local.to_string()),
        Token::Text { text } => XmlToken::Text(text.to_string()),
        Token::Cdata { text, .. } => XmlToken::Cdata(text.to_string()),
        _ => XmlToken::Other,
    })).collect()
}

/// `char::from_u32`: the character with a code, if there is one.
pub assume_specification[ char::from_u32 ](i: u32) -> (r: Option<char>)
    ensures
        match r {
            Some(c) => c as u32 == i,
            None => !is_scalar(i),
        },
;

/// The number that hexadecimal digits denote, if all are.
pub open spec fn hex_number(s: Seq<char>) -> Option<nat>
    decreases s.len(),
{
    if s.len() == 0 {
        Some(0)
    } else {
        match (hex_number(s.drop_last()), hex_of(s.last())) {
            (Some(n), Some(d)) => Some(n * 16 + d as nat),
            _ => None,
        }
    }
}

/// The value of a character as a hexadecimal digit.
pub open spec fn hex_of(c: char) -> Option<int> {
    if c as u32 <= 0x7f {
        hex_value(c as u8)
    } else {
        None
    }
}

/// The code that a numeric reference gives: what stands behind `#` in decimal, or
/// behind `#x` in hexadecimal digits.
pub open spec fn numeric_code(name: Seq<char>) -> Option<nat> {
    if name.len() < 2 || name[0] != '#' {
        None
    } else if name[1] == 'x' {
        if name.len() == 2 {
            None
        } else {
            hex_number(name.skip(2))
        }
    } else if all_digits(name.skip(1)) {
        Some(digits_value(name.skip(1)))
    } else {
        None
    }
}

/// The character that a reference stands for: one of the five that XML names, or the
/// one with a code.
pub open spec fn referred(name: Seq<char>) -> Option<char> {
    if name == "amp"@ {
        Some('&')
    } else if name == "lt"@ {
        Some('<')
    } else if name == "gt"@ {
        Some('>')
    } else if name == "quot"@ {
        Some('"')
    } else if name == "apos"@ {
        Some('\'')
    } else {
        match numeric_code(name) {
            Some(n) => if n <= u32::MAX && is_scalar(n as u32) {
                Some(n as u32 as char)
            } else {
                None
            },
            None => None,
        }
    }
}

/// Where a semicolon first stands at or behind `i`; the length where there is none.
pub open spec fn semicolon(s: Seq<char>, i: int) -> int
    decreases s.len() - i,
{
    if i >= s.len() || i < 0 {
        s.len() as int
    } else if s[i] == ';' {
        i
    } else {
        semicolon(s, i + 1)
    }
}

/// A text with its references replaced by what they stand for. What is no reference
/// stays as it is written.
pub open spec fn dereferenced(s: Seq<char>) -> Seq<char>
    decreases s.len(),
{
    if s.len() == 0 {
        Seq::empty()
    } else {
        let end = semicolon(s, 1);
        if s[0] == '&' && 1 <= end < s.len() && referred(s.subrange(1, end)) is Some {
            seq![referred(s.subrange(1, end))->Some_0] + dereferenced(s.skip(end + 1))
        } else {
            seq![s[0]] + dereferenced(s.skip(1))
        }
    }
}

proof fn lemma_semicolon(s: Seq<char>, i: int, at: int)
    requires
        0 <= i <= at <= s.len(),
        forall|k: int| i <= k < at ==> #[trigger] s[k] != ';',
        at < s.len() ==> s[at] == ';',
    ensures
        semicolon(s, i) == at,
    decreases at - i,
{
    if i < at {
        assert(s[i] != ';');
        lemma_semicolon(s, i + 1, at);
    }
}

fn hex_digit_of(c: char) -> (r: Option<u32>)
    ensures
        match r {
            Some(d) => hex_of(c) == Some(d as int) && d < 16,
            None => hex_of(c) is None,
        },
{
    if '0' <= c && c <= '9' {
        Some(c as u32 - 48)
    } else if 'a' <= c && c <= 'f' {
        Some(c as u32 - 87)
    } else if 'A' <= c && c <= 'F' {
        Some(c as u32 - 55)
    } else {
        None
    }
}

proof fn lemma_hex_grows(s: Seq<char>, n: int)
    requires
        0 <= n <= s.len(),
        hex_number(s) is Some,
    ensures
        hex_number(s.take(n)) is Some,
        hex_number(s.take(n))->Some_0 <= hex_number(s)->Some_0,
    decreases s.len(),
{
    if n < s.len() {
        assert(s.drop_last().take(n) =~= s.take(n));
        lemma_hex_grows(s.drop_last(), n);
    } else {
        assert(s.take(n) =~= s);
    }
}

/// The number that the hexadecimal digits of a text denote, if all are and it is no
/// more than 32 bits long.
fn hex_code(v: &Vec<char>) -> (r: Option<u32>)
    ensures
        match r {
            Some(n) => hex_number(v@) == Some(n as nat),
            None => hex_number(v@) is None || hex_number(v@)->Some_0 > u32::MAX,
        },
{
    let mut n: u32 = 0;
    let mut i: usize = 0;
    assert(v@.take(0) =~= Seq::empty());
    while i < v.len()
        invariant
            i <= v@.len(),
            hex_number(v@.take(i as int)) == Some(n as nat),
        decreases v@.len() - i,
    {
        proof {
            assert(v@.take(i + 1).drop_last() =~= v@.take(i as int));
            assert(v@.take(i + 1).last() == v@[i as int]);
            if hex_number(v@) is Some {
                lemma_hex_grows(v@, i + 1);
            }
        }
        let d: u32 = match hex_digit_of(v[i]) {
            Some(d) => d,
            None => {
                return None;
            },
        };
        if n > 0x0fff_ffff {
            return None;
        }
        n = n * 16 + d;
        i += 1;
    }
    assert(v@.take(i as int) =~= v@);
    Some(n)
}

/// The character that a reference stands for.
fn reference(name: &str) -> (r: Option<char>)
    ensures
        r == referred(name@),
{
    if same(name, "amp") {
        return Some('&');
    }
    if same(name, "lt") {
        return Some('<');
    }
    if same(name, "gt") {
        return Some('>');
    }
    if same(name, "quot") {
        return Some('"');
    }
    if same(name, "apos") {
        return Some('\'');
    }
    let v = chars_of(name);
    let n: usize = v.len();
    if n < 2 || v[0] != '#' {
        return None;
    }
    let code: u32;
    if v[1] == 'x' {
        if n == 2 {
            return None;
        }
        let rest = text_of(&v, 2, n);
        let digits = chars_of(rest.as_str());
        assert(digits@ =~= name@.skip(2));
        match hex_code(&digits) {
            Some(c) => {
                code = c;
            },
            None => {
                return None;
            },
        }
    } else {
        if v[1] == '+' {
            assert(name@.skip(1)[0] == '+');
            return None;
        }
        let rest = text_of(&v, 1, n);
        assert(rest@ =~= name@.skip(1));
        match unsigned(rest.as_str(), u32::MAX as u64) {
            Some(c) => {
                code = c as u32;
            },
            None => {
                return None;
            },
        }
    }
    let c = char::from_u32(code);
    proof {
        assert(numeric_code(name@) == Some(code as nat));
        if let Some(x) = c {
            vstd::utf8::char_is_scalar(x);
            vstd::utf8::char_u32_cast(x, code);
        }
    }
    c
}

/// Replaces the references in a text by what they stand for. Names that XML does not
/// define, numbers that are no characters and lone ampersands stay as they are
/// written.
pub fn decode_entities(s: &str) -> (r: String)
    ensures
        r@ == dereferenced(s@),
{
    let v = chars_of(s);
    let ghost all = v@;
    let n: usize = v.len();
    let mut out = String::new();
    let mut i: usize = 0;
    proof {
        assert(all.skip(0) =~= all);
        assert(out@ + dereferenced(all) =~= dereferenced(all));
    }
    while i < n
        invariant
            i <= n == v@.len(),
            all == v@,
            out@ + dereferenced(all.skip(i as int)) == dereferenced(all),
        decreases n - i,
    {
        let ghost rest = all.skip(i as int);
        let ghost before = out@;
        let mut c: char = v[i];
        let mut next: usize = i + 1;
        if c == '&' {
            let mut end: usize = i + 1;
            while end < n && v[end] != ';'
                invariant
                    i < end <= n == v@.len(),
                    all == v@,
                    rest == all.skip(i as int),
                    forall|k: int| 1 <= k < end - i ==> #[trigger] rest[k] != ';',
                decreases n - end,
            {
                assert(rest[end - i] == all[end as int]);
                end += 1;
            }
            proof {
                if end < n {
                    assert(rest[end - i] == all[end as int]);
                }
                lemma_semicolon(rest, 1, end - i);
            }
            if end < n {
                let name = text_of(&v, i + 1, end);
                assert(name@ =~= rest.subrange(1, end - i));
                if let Some(x) = reference(name.as_str()) {
                    c = x;
                    next = end + 1;
                }
            }
        }
        out.push(c);
        proof {
            assert(all.skip(next as int) =~= rest.skip(next - i));
            assert(out@ + dereferenced(all.skip(next as int)) =~= before + (seq![c] + dereferenced(
                rest.skip(next - i),
            )));
        }
        i = next;
    }
    assert(all.skip(n as int) =~= Seq::empty());
    assert(out@ + Seq::<char>::empty() =~= out@);
    out
}

/// How many digits stand at the end of a text.
pub open spec fn digits_at_end(s: Seq<char>) -> nat
    decreases s.len(),
{
    if s.len() == 0 || !is_digit(s.last()) {
        0
    } else {
        1 + digits_at_end(s.drop_last())
    }
}

/// An arXiv id without and with its version: `v` and digits at the end of the id,
/// behind something else.
pub open spec fn without_version(s: Seq<char>) -> (Seq<char>, Option<nat>) {
    let d = digits_at_end(s);
    let i = s.len() - d;
    if d > 0 && i >= 2 && (s[i - 1] == 'v' || s[i - 1] == 'V') && digits_value(s.skip(i))
        <= u32::MAX {
        (s.take(i - 1), Some(digits_value(s.skip(i))))
    } else {
        (s, None)
    }
}

proof fn lemma_digits_at_end(s: Seq<char>, i: int)
    requires
        0 <= i <= s.len(),
        forall|k: int| i <= k < s.len() ==> is_digit(#[trigger] s[k]),
        i > 0 ==> !is_digit(s[i - 1]),
    ensures
        digits_at_end(s) == s.len() - i,
    decreases s.len(),
{
    if i < s.len() {
        let front = s.drop_last();
        assert(is_digit(s[s.len() - 1]));
        assert forall|k: int| i <= k < front.len() implies is_digit(#[trigger] front[k]) by {
            assert(is_digit(s[k]));
        }
        lemma_digits_at_end(front, i);
    }
}

/// A version as a number.
pub open spec fn version_view(v: Option<u32>) -> Option<nat> {
    match v {
        Some(n) => Some(n as nat),
        None => None,
    }
}

/// Splits the version off an arXiv id.
pub fn split_version(s: &str) -> (r: (String, Option<u32>))
    ensures
        (r.0@, version_view(r.1)) == without_version(s@),
{
    let v = chars_of(s);
    let n: usize = v.len();
    let mut i: usize = n;
    while i > 0 && '0' <= v[i - 1] && v[i - 1] <= '9'
        invariant
            i <= n == v@.len(),
            forall|k: int| i <= k < n ==> is_digit(#[trigger] v@[k]),
        decreases i,
    {
        i -= 1;
    }
    proof {
        lemma_digits_at_end(v@, i as int);
    }
    if i < n && i >= 2 && (v[i - 1] == 'v' || v[i - 1] == 'V') {
        let digits = text_of(&v, i, n);
        assert(digits@ =~= s@.skip(i as int));
        proof {
            assert(is_digit(v@[i as int]));
            assert(digits@[0] == v@[i as int]);
            assert(all_digits(digits@));
        }
        if let Some(ver) = unsigned(digits.as_str(), u32::MAX as u64) {
            let base = text_of(&v, 0, i - 1);
            assert(base@ =~= s@.take(i - 1));
            return (base, Some(ver as u32));
        }
    }
    (s.to_owned(), None)
}

/// What stands behind `http://arxiv.org/abs/` or `https://arxiv.org/abs/`, in
/// whatever case these are written.
pub open spec fn abstract_id(id: Seq<char>) -> Option<Seq<char>> {
    let low = lower(id);
    let n = if begins(low, "http://"@) {
        7int
    } else {
        8int
    };
    if (begins(low, "http://"@) || begins(low, "https://"@)) && begins(
        low.skip(n),
        "arxiv.org/abs/"@,
    ) {
        Some(id.skip(n + 14))
    } else {
        None
    }
}

/// The arXiv id and the version that an entry's `<id>` names, if it names any.
pub open spec fn entry_id(id: Seq<char>) -> Option<(Seq<char>, Option<nat>)> {
    match abstract_id(id) {
        Some(part) => if part.len() == 0 {
            None
        } else {
            Some(without_version(part))
        },
        None => None,
    }
}

/// An entry's id by its meaning.
pub open spec fn id_view(r: Option<(String, Option<u32>)>) -> Option<(Seq<char>, Option<nat>)> {
    match r {
        Some((id, v)) => Some((id@, version_view(v))),
        None => None,
    }
}

/// Reads an entry's `<id>`, a URL with the arXiv id behind `arxiv.org/abs/`. The id of
/// an error entry is none.
pub fn parse_arxiv_id(id: &str) -> (r: Option<(String, Option<u32>)>)
    ensures
        id_view(r) == entry_id(id@),
{
    let v = chars_of(id);
    let n: usize = v.len();
    let low_text = lowered(id);
    let low = chars_of(low_text.as_str());
    proof {
        reveal_strlit("http://");
        reveal_strlit("https://");
        reveal_strlit("arxiv.org/abs/");
        assert(low@.len() == n);
    }
    let at: usize = if found_at(&low, 0, &chars_of("http://")) {
        7
    } else if found_at(&low, 0, &chars_of("https://")) {
        8
    } else {
        proof {
            lemma_begins(low@, "http://"@, 0);
            lemma_begins(low@, "https://"@, 0);
        }
        return None;
    };
    proof {
        lemma_begins(low@, "http://"@, 0);
        lemma_begins(low@, "https://"@, 0);
        lemma_begins(low@, "arxiv.org/abs/"@, at as int);
    }
    if !found_at(&low, at, &chars_of("arxiv.org/abs/")) {
        return None;
    }
    let part = text_of(&v, at + 14, n);
    assert(part@ =~= id@.skip(at + 14));
    if at + 14 == n {
        return None;
    }
    Some(split_version(part.as_str()))
}

proof fn lemma_begins(s: Seq<char>, part: Seq<char>, at: int)
    requires
        0 <= at <= s.len(),
    ensures
        begins(s.skip(at), part) == (at + part.len() <= s.len() && s.subrange(at, at + part.len())
            == part),
        at == 0 ==> begins(s, part) == begins(s.skip(at), part),
{
    if at + part.len() <= s.len() {
        assert(s.skip(at).take(part.len() as int) =~= s.subrange(at, at + part.len()));
    }
    assert(at == 0 ==> s.skip(at) =~= s);
}

/// An entry of a feed.
pub struct Entry {
    /// The arXiv id without its version.
    pub arxivid: String,
    pub version: Option<u32>,
    pub title: Option<String>,
    pub authors: Vec<String>,
    pub published: Option<String>,
    pub updated: Option<String>,
    pub doi: Option<String>,
}

/// An entry of a feed, by its meaning.
pub struct EntryView {
    pub arxivid: Seq<char>,
    pub version: Option<nat>,
    pub title: Option<Seq<char>>,
    pub authors: Seq<Seq<char>>,
    pub published: Option<Seq<char>>,
    pub updated: Option<Seq<char>>,
    pub doi: Option<Seq<char>>,
}

/// A text that may be absent, by its meaning.
pub open spec fn opt_view(s: Option<String>) -> Option<Seq<char>> {
    match s {
        Some(t) => Some(t@),
        None => None,
    }
}

impl View for Entry {
    type V = EntryView;

    open spec fn view(&self) -> EntryView {
        EntryView {
            arxivid: self.arxivid@,
            version: version_view(self.version),
            title: opt_view(self.title),
            authors: texts(self.authors@),
            published: opt_view(self.published),
            updated: opt_view(self.updated),
            doi: opt_view(self.doi),
        }
    }
}

/// The views of entries.
pub open spec fn entry_views(s: Seq<Entry>) -> Seq<EntryView> {
    s.map_values(|e: Entry| e@)
}

/// What is read of an entry that is not closed yet.
pub struct Raw {
    pub id: Option<String>,
    pub title: Option<String>,
    pub published: Option<String>,
    pub updated: Option<String>,
    pub doi: Option<String>,
    pub authors: Vec<String>,
}

/// What is read of an entry that is not closed yet, by its meaning.
pub struct RawView {
    pub id: Option<Seq<char>>,
    pub title: Option<Seq<char>>,
    pub published: Option<Seq<char>>,
    pub updated: Option<Seq<char>>,
    pub doi: Option<Seq<char>>,
    pub authors: Seq<Seq<char>>,
}

impl View for Raw {
    type V = RawView;

    open spec fn view(&self) -> RawView {
        RawView {
            id: opt_view(self.id),
            title: opt_view(self.title),
            published: opt_view(self.published),
            updated: opt_view(self.updated),
            doi: opt_view(self.doi),
            authors: texts(self.authors@),
        }
    }
}

/// The elements whose text is read.
#[derive(Clone, Copy, PartialEq, Eq, Structural)]
pub enum Field {
    Id,
    Title,
    Published,
    Updated,
    Doi,
    AuthorName,
}

/// The local name of an element whose text is read.
pub open spec fn tag(f: Field) -> Seq<char> {
    match f {
        Field::Id => "id"@,
        Field::Title => "title"@,
        Field::Published => "published"@,
        Field::Updated => "updated"@,
        Field::Doi => "doi"@,
        Field::AuthorName => "name"@,
    }
}

/// The field that an element with this local name is; a name counts inside an author
/// only.
pub open spec fn field_of(local: Seq<char>, in_author: bool) -> Option<Field> {
    if local == "id"@ {
        Some(Field::Id)
    } else if local == "title"@ {
        Some(Field::Title)
    } else if local == "published"@ {
        Some(Field::Published)
    } else if local == "updated"@ {
        Some(Field::Updated)
    } else if local == "doi"@ {
        Some(Field::Doi)
    } else if local == "name"@ && in_author {
        Some(Field::AuthorName)
    } else {
        None
    }
}

/// An entry without anything read of it.
pub open spec fn blank() -> RawView {
    RawView {
        id: None,
        title: None,
        published: None,
        updated: None,
        doi: None,
        authors: Seq::empty(),
    }
}

/// An entry with the text of one more field: titles and names with single spaces, the
/// rest trimmed.
pub open spec fn with_field(raw: RawView, f: Field, text: Seq<char>) -> RawView {
    match f {
        Field::Id => RawView { id: Some(trim(text)), ..raw },
        Field::Title => RawView { title: Some(collapsed(text)), ..raw },
        Field::Published => RawView { published: Some(trim(text)), ..raw },
        Field::Updated => RawView { updated: Some(trim(text)), ..raw },
        Field::Doi => RawView { doi: Some(trim(text)), ..raw },
        Field::AuthorName => RawView { authors: raw.authors.push(collapsed(text)), ..raw },
    }
}

/// The entry that was read, unless it is an error entry.
pub open spec fn finished(raw: RawView) -> Option<EntryView> {
    match raw.id {
        Some(id) => match entry_id(id) {
            Some((arxivid, version)) => Some(
                EntryView {
                    arxivid,
                    version,
                    title: raw.title,
                    authors: raw.authors,
                    published: raw.published,
                    updated: raw.updated,
                    doi: raw.doi,
                },
            ),
            None => None,
        },
        None => None,
    }
}

/// Where the reading of a feed stands.
pub struct FeedView {
    /// The entries that are complete.
    pub entries: Seq<EntryView>,
    /// The entry that is open.
    pub raw: Option<RawView>,
    /// Whether an author is open.
    pub in_author: bool,
    /// The field whose text is being read, and the text so far.
    pub capture: Option<Field>,
    pub buf: Seq<char>,
    /// The local name of the tag that has begun.
    pub pending: Seq<char>,
}

/// The feed after an element is opened.
pub open spec fn opened(st: FeedView, local: Seq<char>) -> FeedView {
    if local == "entry"@ {
        FeedView { raw: Some(blank()), in_author: false, capture: None, ..st }
    } else if st.raw is None {
        st
    } else if local == "author"@ {
        FeedView { in_author: true, ..st }
    } else {
        match field_of(local, st.in_author) {
            Some(f) => FeedView { capture: Some(f), buf: Seq::empty(), ..st },
            None => st,
        }
    }
}

/// The feed after the field whose text is being read is closed, if it is.
pub open spec fn captured(st: FeedView, local: Seq<char>) -> FeedView {
    match st.capture {
        Some(f) => if local == tag(f) {
            FeedView {
                capture: None,
                buf: Seq::empty(),
                raw: match st.raw {
                    Some(raw) => Some(with_field(raw, f, st.buf)),
                    None => None,
                },
                ..st
            }
        } else {
            st
        },
        None => st,
    }
}

/// The feed after an element is closed.
pub open spec fn closed_element(st: FeedView, local: Seq<char>) -> FeedView {
    let st = captured(st, local);
    if local == "author"@ {
        FeedView { in_author: false, ..st }
    } else if local == "entry"@ {
        match st.raw {
            Some(raw) => FeedView {
                raw: None,
                entries: match finished(raw) {
                    Some(e) => st.entries.push(e),
                    None => st.entries,
                },
                ..st
            },
            None => st,
        }
    } else {
        st
    }
}

/// The feed after text.
pub open spec fn read_text(st: FeedView, text: Seq<char>) -> FeedView {
    if st.capture is Some {
        FeedView { buf: st.buf + text, ..st }
    } else {
        st
    }
}

/// The feed after a token. References are resolved in text, not in literal text.
pub open spec fn stepped(st: FeedView, token: TokenView) -> FeedView {
    match token {
        TokenView::Start(local) => FeedView { pending: local, ..st },
        TokenView::Open => opened(st, st.pending),
        TokenView::Empty => closed_element(opened(st, st.pending), st.pending),
        TokenView::Close(local) => closed_element(st, local),
        TokenView::Text(text) => read_text(st, dereferenced(text)),
        TokenView::Cdata(text) => read_text(st, text),
        TokenView::Other => st,
    }
}

/// The feed after tokens, one after another.
pub open spec fn feed_after(tokens: Seq<TokenView>) -> FeedView
    decreases tokens.len(),
{
    if tokens.len() == 0 {
        FeedView {
            entries: Seq::empty(),
            raw: None,
            in_author: false,
            capture: None,
            buf: Seq::empty(),
            pending: Seq::empty(),
        }
    } else {
        stepped(feed_after(tokens.drop_last()), tokens.last())
    }
}

/// The entries of a feed that consists of these tokens.
pub open spec fn feed_entries(tokens: Seq<TokenView>) -> Seq<EntryView> {
    feed_after(tokens).entries
}

/// Reads a feed.
struct Parser {
    entries: Vec<Entry>,
    raw: Option<Raw>,
    in_author: bool,
    capture: Option<Field>,
    buf: String,
    pending: String,
}

/// An open entry that may be absent, by its meaning.
spec fn opt_raw(r: Option<Raw>) -> Option<RawView> {
    match r {
        Some(raw) => Some(raw@),
        None => None,
    }
}

impl View for Parser {
    type V = FeedView;

    closed spec fn view(&self) -> FeedView {
        FeedView {
            entries: entry_views(self.entries@),
            raw: opt_raw(self.raw),
            in_author: self.in_author,
            capture: self.capture,
            buf: self.buf@,
            pending: self.pending@,
        }
    }
}

fn blank_raw() -> (r: Raw)
    ensures
        r@ == blank(),
{
    let r = Raw {
        id: None,
        title: None,
        published: None,
        updated: None,
        doi: None,
        authors: Vec::new(),
    };
    assert(texts(r.authors@) =~= Seq::empty());
    r
}

/// Puts the text of a field into an entry.
fn set_field(raw: Raw, f: Field, text: &str) -> (r: Raw)
    ensures
        r@ == with_field(raw@, f, text@),
{
    match f {
        Field::Id => Raw { id: Some(trimmed(text)), ..raw },
        Field::Title => Raw { title: Some(collapse_ws(text)), ..raw },
        Field::Published => Raw { published: Some(trimmed(text)), ..raw },
        Field::Updated => Raw { updated: Some(trimmed(text)), ..raw },
        Field::Doi => Raw { doi: Some(trimmed(text)), ..raw },
        Field::AuthorName => {
            let Raw { id, title, published, updated, doi, mut authors } = raw;
            let ghost before = authors@;
            let name = collapse_ws(text);
            authors.push(name);
            assert(texts(authors@) =~= texts(before).push(name@));
            Raw { id, title, published, updated, doi, authors }
        },
    }
}

/// The entry that was read, unless it is an error entry.
fn into_entry(raw: Raw) -> (r: Option<Entry>)
    ensures
        match r {
            Some(e) => finished(raw@) == Some(e@),
            None => finished(raw@) is None,
        },
{
    let Raw { id, title, published, updated, doi, authors } = raw;
    let id = match id {
        Some(id) => id,
        None => {
            return None;
        },
    };
    match parse_arxiv_id(id.as_str()) {
        Some((arxivid, version)) => Some(
            Entry { arxivid, version, title, authors, published, updated, doi },
        ),
        None => None,
    }
}

/// The field that an element with this local name is.
fn field_named(local: &str, in_author: bool) -> (r: Option<Field>)
    ensures
        r == field_of(local@, in_author),
{
    if same(local, "id") {
        Some(Field::Id)
    } else if same(local, "title") {
        Some(Field::Title)
    } else if same(local, "published") {
        Some(Field::Published)
    } else if same(local, "updated") {
        Some(Field::Updated)
    } else if same(local, "doi") {
        Some(Field::Doi)
    } else if same(local, "name") && in_author {
        Some(Field::AuthorName)
    } else {
        None
    }
}

/// Whether an element with this local name is the field.
fn is_tag(f: Field, local: &str) -> (r: bool)
    ensures
        r == (local@ == tag(f)),
{
    match f {
        Field::Id => same(local, "id"),
        Field::Title => same(local, "title"),
        Field::Published => same(local, "published"),
        Field::Updated => same(local, "updated"),
        Field::Doi => same(local, "doi"),
        Field::AuthorName => same(local, "name"),
    }
}

impl Parser {
    fn new() -> (r: Self)
        ensures
            r@ == feed_after(Seq::empty()),
    {
        let r = Parser {
            entries: Vec::new(),
            raw: None,
            in_author: false,
            capture: None,
            buf: String::new(),
            pending: String::new(),
        };
        assert(r@.entries =~= Seq::empty());
        assert(r@.buf =~= Seq::empty());
        assert(r@.pending =~= Seq::empty());
        r
    }

    fn on_open(&mut self, local: &str)
        ensures
            final(self)@ == opened(old(self)@, local@),
    {
        if same(local, "entry") {
            self.raw = Some(blank_raw());
            self.in_author = false;
            self.capture = None;
            return;
        }
        if self.raw.is_none() {
            return;
        }
        if same(local, "author") {
            self.in_author = true;
            return;
        }
        if let Some(f) = field_named(local, self.in_author) {
            self.capture = Some(f);
            self.buf = String::new();
            assert(self.buf@ =~= Seq::empty());
        }
    }

    fn on_close(&mut self, local: &str)
        ensures
            final(self)@ == closed_element(old(self)@, local@),
    {
        let ghost start = self@;
        proof {
            reveal_strlit("author");
            reveal_strlit("entry");
            assert("author"@.len() != "entry"@.len());
        }
        if let Some(f) = self.capture {
            if is_tag(f, local) {
                let mut text = String::new();
                std::mem::swap(&mut text, &mut self.buf);
                assert(self.buf@ =~= Seq::empty());
                self.capture = None;
                if let Some(raw) = self.raw.take() {
                    self.raw = Some(set_field(raw, f, text.as_str()));
                }
            }
        }
        assert(self@ == captured(start, local@));
        if same(local, "author") {
            self.in_author = false;
        }
        if same(local, "entry") {
            if let Some(raw) = self.raw.take() {
                if let Some(e) = into_entry(raw) {
                    let ghost before = self.entries@;
                    self.entries.push(e);
                    assert(entry_views(self.entries@) =~= entry_views(before).push(e@));
                }
            }
        }
    }

    fn on_text(&mut self, text: &str)
        ensures
            final(self)@ == read_text(old(self)@, text@),
    {
        if self.capture.is_some() {
            self.buf.append(text);
        }
    }

    fn on_token(&mut self, token: &XmlToken)
        ensures
            final(self)@ == stepped(old(self)@, token@),
    {
        match token {
            XmlToken::Start(local) => {
                self.pending = local.clone();
            },
            XmlToken::Open => {
                let local = self.pending.clone();
                self.on_open(local.as_str());
            },
            XmlToken::Empty => {
                let local = self.pending.clone();
                self.on_open(local.as_str());
                self.on_close(local.as_str());
            },
            XmlToken::Close(local) => {
                self.on_close(local.as_str());
            },
            XmlToken::Text(text) => {
                let t = decode_entities(text.as_str());
                self.on_text(t.as_str());
            },
            XmlToken::Cdata(text) => {
                self.on_text(text.as_str());
            },
            XmlToken::Other => {},
        }
    }
}

/// The entries of a feed that consists of these tokens.
pub fn entries_from(tokens: &Vec<XmlToken>) -> (r: Vec<Entry>)
    ensures
        entry_views(r@) == feed_entries(token_views(tokens@)),
{
    let ghost all = token_views(tokens@);
    let mut p = Parser::new();
    let mut i: usize = 0;
    assert(all.take(0) =~= Seq::empty());
    while i < tokens.len()
        invariant
            i <= tokens@.len(),
            all == token_views(tokens@),
            p@ == feed_after(all.take(i as int)),
        decreases tokens@.len() - i,
    {
        proof {
            assert(all.take(i + 1).drop_last() =~= all.take(i as int));
            assert(all.take(i + 1).last() == tokens@[i as int]@);
        }
        p.on_token(&tokens[i]);
        i += 1;
    }
    assert(all.take(i as int) =~= all);
    p.entries
}

/// Reads a feed.
pub fn parse_feed(xml: &str) -> (r: Result<Vec<Entry>, String>)
    ensures
        match r {
            Ok(entries) => xml_tokens(xml@) matches Ok(tokens) && entry_views(entries@)
                == feed_entries(tokens),
            Err(m) => xml_tokens(xml@) matches Err(e) && m@ == "arXiv Atom XML parse error: "@ + e,
        },
{
    match tokenize(xml) {
        Ok(tokens) => Ok(entries_from(&tokens)),
        Err(e) => Err("arXiv Atom XML parse error: ".to_owned().concat(e.as_str())),
    }
}

/// A character as it is escaped in XML.
pub open spec fn escaped_char(c: char) -> Seq<char> {
    if c == '&' {
        "&amp;"@
    } else if c == '<' {
        "&lt;"@
    } else if c == '>' {
        "&gt;"@
    } else if c == '"' {
        "&quot;"@
    } else if c == '\'' {
        "&apos;"@
    } else {
        seq![c]
    }
}

/// A text as it is escaped in XML.
pub open spec fn escaped(s: Seq<char>) -> Seq<char>
    decreases s.len(),
{
    if s.len() == 0 {
        Seq::empty()
    } else {
        escaped_char(s[0]) + escaped(s.skip(1))
    }
}

/// Resolving references undoes escaping, for every text.
pub proof fn law_references_undo_escaping(s: Seq<char>)
    ensures
        dereferenced(escaped(s)) == s,
    decreases s.len(),
{
    if s.len() > 0 {
        let c = s[0];
        let rest = escaped(s.skip(1));
        let e = escaped_char(c);
        let t = e + rest;
        law_references_undo_escaping(s.skip(1));
        assert(s =~= seq![c] + s.skip(1));
        reveal_strlit("&amp;");
        reveal_strlit("&lt;");
        reveal_strlit("&gt;");
        reveal_strlit("&quot;");
        reveal_strlit("&apos;");
        reveal_strlit("amp");
        reveal_strlit("lt");
        reveal_strlit("gt");
        reveal_strlit("quot");
        reveal_strlit("apos");
        let n = e.len() as int;
        if n > 1 {
            assert(t[0] == '&');
            assert(t[n - 1] == ';');
            assert forall|k: int| 1 <= k < n - 1 implies #[trigger] t[k] != ';' by {
                assert(t[k] == e[k]);
            }
            lemma_semicolon(t, 1, n - 1);
            let name = t.subrange(1, n - 1);
            assert(name =~= e.subrange(1, n - 1));
            if c == '&' {
                assert(name =~= "amp"@);
            } else if c == '<' {
                assert(name =~= "lt"@);
                assert("lt"@.len() != "amp"@.len());
            } else if c == '>' {
                assert(name =~= "gt"@);
                assert("gt"@.len() != "amp"@.len());
                assert("gt"@[0] != "lt"@[0]);
            } else if c == '"' {
                assert(name =~= "quot"@);
                assert("quot"@.len() != "amp"@.len());
                assert("quot"@.len() != "lt"@.len());
                assert("quot"@.len() != "gt"@.len());
            } else {
                assert(name =~= "apos"@);
                assert("apos"@.len() != "amp"@.len());
                assert("apos"@.len() != "lt"@.len());
                assert("apos"@.len() != "gt"@.len());
                assert("apos"@[0] != "quot"@[0]);
            }
            assert(referred(name) == Some(c));
            assert(t.skip(n) =~= rest);
        } else {
            assert(t[0] == c);
            assert(t.skip(1) =~= rest);
        }
        assert(dereferenced(t) == seq![c] + dereferenced(rest));
    } else {
        assert(s =~= Seq::empty());
    }
}

/// What stands outside entries leaves no trace: no field is read there.
pub proof fn law_fields_are_read_inside_entries_only(tokens: Seq<TokenView>)
    ensures
        feed_after(tokens).raw is None ==> forall|local: Seq<char>|
            local != "entry"@ ==> #[trigger] opened(feed_after(tokens), local) == feed_after(tokens),
{
}

} // verus!
