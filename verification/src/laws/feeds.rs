//! What is read of a feed: every entry, with everything that is written of it.

use crate::source::atom::{
    blank, entry_id, escaped, feed_after, feed_entries, law_references_undo_escaping, stepped,
    with_field, without_version, EntryView, FeedView, Field, RawView, TokenView,
};
use crate::text::{all_digits, digits_value, is_digit, lower, spaced, trim, words};
use vstd::prelude::*;
use vstd::string::*;

verus! {

/// What is written of a paper in a feed.
pub struct Paper {
    pub id: Seq<char>,
    pub title: Option<Seq<char>>,
    pub published: Option<Seq<char>>,
    pub updated: Option<Seq<char>>,
    pub doi: Option<Seq<char>>,
    pub authors: Seq<Seq<char>>,
    /// Elements that are not read, with their texts.
    pub others: Seq<(Seq<char>, Seq<char>)>,
}

/// An element with a text.
pub open spec fn element(local: Seq<char>, text: Seq<char>) -> Seq<TokenView> {
    seq![
        TokenView::Start(local),
        TokenView::Open,
        TokenView::Text(escaped(text)),
        TokenView::Close(local),
    ]
}

/// An element with a text, if there is one.
pub open spec fn opt_element(local: Seq<char>, text: Option<Seq<char>>) -> Seq<TokenView> {
    match text {
        Some(t) => element(local, t),
        None => Seq::empty(),
    }
}

/// Authors, one after another.
pub open spec fn author_elements(authors: Seq<Seq<char>>) -> Seq<TokenView>
    decreases authors.len(),
{
    if authors.len() == 0 {
        Seq::empty()
    } else {
        author_elements(authors.drop_last()) + (seq![
            TokenView::Start("author"@),
            TokenView::Open,
        ] + element("name"@, authors.last()) + seq![TokenView::Close("author"@)])
    }
}

/// Elements, one after another.
pub open spec fn other_elements(others: Seq<(Seq<char>, Seq<char>)>) -> Seq<TokenView>
    decreases others.len(),
{
    if others.len() == 0 {
        Seq::empty()
    } else {
        other_elements(others.drop_last()) + element(others.last().0, others.last().1)
    }
}

/// The entry of a paper.
pub open spec fn entry_element(p: Paper) -> Seq<TokenView> {
    seq![TokenView::Start("entry"@), TokenView::Open] + element("id"@, p.id) + opt_element(
        "updated"@,
        p.updated,
    ) + opt_element("published"@, p.published) + opt_element("title"@, p.title) + other_elements(
        p.others,
    ) + author_elements(p.authors) + opt_element("doi"@, p.doi) + seq![TokenView::Close("entry"@)]
}

/// A feed with papers.
pub open spec fn feed_of(papers: Seq<Paper>) -> Seq<TokenView>
    decreases papers.len(),
{
    if papers.len() == 0 {
        Seq::empty()
    } else {
        feed_of(papers.drop_last()) + entry_element(papers.last())
    }
}

/// Whether an element with this name is one that is not read.
pub open spec fn is_unread(local: Seq<char>) -> bool {
    &&& local != "entry"@
    &&& local != "author"@
    &&& local != "id"@
    &&& local != "title"@
    &&& local != "published"@
    &&& local != "updated"@
    &&& local != "doi"@
}

/// A text with single spaces.
pub open spec fn tidy(s: Seq<char>) -> Seq<char> {
    spaced(words(s))
}

/// A trimmed text, if there is one.
pub open spec fn opt_trim(s: Option<Seq<char>>) -> Option<Seq<char>> {
    match s {
        Some(t) => Some(trim(t)),
        None => None,
    }
}

/// Whether an entry says what is written of a paper.
pub open spec fn says(e: EntryView, p: Paper) -> bool {
    &&& entry_id(trim(p.id)) == Some((e.arxivid, e.version))
    &&& e.title == (match p.title {
        Some(t) => Some(tidy(t)),
        None => None,
    })
    &&& e.published == opt_trim(p.published)
    &&& e.updated == opt_trim(p.updated)
    &&& e.doi == opt_trim(p.doi)
    &&& e.authors.len() == p.authors.len()
    &&& forall|i: int| 0 <= i < p.authors.len() ==> #[trigger] e.authors[i] == tidy(p.authors[i])
}

/// A feed is read in full: it has one entry for each paper, in order, and each says all that
/// is written of its paper, whatever else stands in the feed.
pub proof fn law_a_feed_is_read_in_full(papers: Seq<Paper>)
    requires
        forall|i: int| 0 <= i < papers.len() ==> entry_id(trim((#[trigger] papers[i]).id)) is Some,
        forall|i: int, j: int|
            0 <= i < papers.len() && 0 <= j < papers[i].others.len() ==> is_unread(
                (#[trigger] papers[i].others[j]).0,
            ),
    ensures
        feed_entries(feed_of(papers)).len() == papers.len(),
        forall|i: int|
            0 <= i < papers.len() ==> says(#[trigger] feed_entries(feed_of(papers))[i], papers[i]),
    decreases papers.len(),
{
    lemma_feed(papers);
}

/// The feed after tokens that follow others.
spec fn run(st: FeedView, tokens: Seq<TokenView>) -> FeedView
    decreases tokens.len(),
{
    if tokens.len() == 0 {
        st
    } else {
        stepped(run(st, tokens.drop_last()), tokens.last())
    }
}

proof fn lemma_run(a: Seq<TokenView>, b: Seq<TokenView>)
    ensures
        feed_after(a + b) == run(feed_after(a), b),
    decreases b.len(),
{
    if b.len() == 0 {
        assert(a + b =~= a);
    } else {
        lemma_run(a, b.drop_last());
        assert((a + b).drop_last() =~= a + b.drop_last());
        assert((a + b).last() == b.last());
    }
}

proof fn lemma_run_concat(st: FeedView, a: Seq<TokenView>, b: Seq<TokenView>)
    ensures
        run(st, a + b) == run(run(st, a), b),
    decreases b.len(),
{
    if b.len() == 0 {
        assert(a + b =~= a);
    } else {
        lemma_run_concat(st, a, b.drop_last());
        assert((a + b).drop_last() =~= a + b.drop_last());
        assert((a + b).last() == b.last());
    }
}

/// Whether an entry is open with this read of it, and nothing is being read.
spec fn open_with(st: FeedView, entries: Seq<EntryView>, raw: RawView, in_author: bool) -> bool {
    &&& st.entries == entries
    &&& st.raw == Some(raw)
    &&& st.in_author == in_author
    &&& st.capture is None
}

proof fn lemma_tags()
    ensures
        "entry"@ != "author"@,
        "entry"@ != "name"@,
        "author"@ != "name"@,
        "entry"@ != "id"@,
        "entry"@ != "title"@,
        "entry"@ != "published"@,
        "entry"@ != "updated"@,
        "entry"@ != "doi"@,
        "author"@ != "id"@,
        "author"@ != "title"@,
        "author"@ != "published"@,
        "author"@ != "updated"@,
        "author"@ != "doi"@,
        "name"@ != "id"@,
        "name"@ != "title"@,
        "name"@ != "published"@,
        "name"@ != "updated"@,
        "name"@ != "doi"@,
        "id"@ != "title"@,
        "id"@ != "published"@,
        "id"@ != "updated"@,
        "id"@ != "doi"@,
        "title"@ != "published"@,
        "title"@ != "updated"@,
        "title"@ != "doi"@,
        "published"@ != "updated"@,
        "published"@ != "doi"@,
        "updated"@ != "doi"@,
{
    reveal_strlit("entry");
    reveal_strlit("author");
    reveal_strlit("name");
    reveal_strlit("id");
    reveal_strlit("title");
    reveal_strlit("published");
    reveal_strlit("updated");
    reveal_strlit("doi");
    assert("entry"@[0] == 'e');
    assert("author"@[0] == 'a');
    assert("name"@[0] == 'n');
    assert("id"@[0] == 'i');
    assert("title"@[0] == 't');
    assert("published"@[0] == 'p');
    assert("updated"@[0] == 'u');
    assert("doi"@[0] == 'd');
}

proof fn lemma_four(st: FeedView, t: Seq<TokenView>)
    requires
        t.len() == 4,
    ensures
        run(st, t) == stepped(stepped(stepped(stepped(st, t[0]), t[1]), t[2]), t[3]),
{
    reveal_with_fuel(run, 5);
    assert(t.drop_last().last() == t[2]);
    assert(t.drop_last().drop_last().last() == t[1]);
    assert(t.drop_last().drop_last().drop_last().last() == t[0]);
}

proof fn lemma_two(st: FeedView, a: TokenView, b: TokenView)
    ensures
        run(st, seq![a]) == stepped(st, a),
        run(st, seq![a, b]) == stepped(stepped(st, a), b),
{
    reveal_with_fuel(run, 3);
    assert(seq![a].drop_last() =~= Seq::empty());
    assert(seq![a, b].drop_last() =~= seq![a]);
}

proof fn lemma_element(
    st: FeedView,
    entries: Seq<EntryView>,
    raw: RawView,
    in_author: bool,
    f: Field,
    text: Seq<char>,
)
    requires
        open_with(st, entries, raw, in_author),
        f == Field::AuthorName ==> in_author,
    ensures
        open_with(
            run(st, element(crate::source::atom::tag(f), text)),
            entries,
            with_field(raw, f, text),
            in_author,
        ),
{
    lemma_tags();
    law_references_undo_escaping(text);
    let t = element(crate::source::atom::tag(f), text);
    lemma_four(st, t);
    assert(Seq::<char>::empty() + text =~= text);
}

proof fn lemma_unread(
    st: FeedView,
    entries: Seq<EntryView>,
    raw: RawView,
    others: Seq<(Seq<char>, Seq<char>)>,
)
    requires
        open_with(st, entries, raw, false),
        forall|j: int| 0 <= j < others.len() ==> is_unread((#[trigger] others[j]).0),
    ensures
        open_with(run(st, other_elements(others)), entries, raw, false),
    decreases others.len(),
{
    if others.len() > 0 {
        let front = others.drop_last();
        assert forall|j: int| 0 <= j < front.len() implies is_unread((#[trigger] front[j]).0) by {
            assert(others[j] == front[j]);
        }
        lemma_unread(st, entries, raw, front);
        assert(is_unread(others[others.len() - 1].0));
        let t = element(others.last().0, others.last().1);
        lemma_run_concat(st, other_elements(front), t);
        lemma_four(run(st, other_elements(front)), t);
    }
}

/// What is read of an entry with more authors.
spec fn with_authors(raw: RawView, authors: Seq<Seq<char>>) -> RawView {
    RawView { authors: raw.authors + authors.map_values(|a: Seq<char>| tidy(a)), ..raw }
}

proof fn lemma_authors(
    st: FeedView,
    entries: Seq<EntryView>,
    raw: RawView,
    authors: Seq<Seq<char>>,
)
    requires
        open_with(st, entries, raw, false),
    ensures
        open_with(run(st, author_elements(authors)), entries, with_authors(raw, authors), false),
    decreases authors.len(),
{
    if authors.len() == 0 {
        assert(with_authors(raw, authors).authors =~= raw.authors);
    } else {
        lemma_tags();
        let front = authors.drop_last();
        lemma_authors(st, entries, raw, front);
        let mid = run(st, author_elements(front));
        let before = seq![TokenView::Start("author"@), TokenView::Open];
        let inner = element("name"@, authors.last());
        let after = seq![TokenView::Close("author"@)];
        lemma_run_concat(st, author_elements(front), before + inner + after);
        lemma_run_concat(mid, before + inner, after);
        lemma_run_concat(mid, before, inner);
        lemma_two(mid, TokenView::Start("author"@), TokenView::Open);
        let opened = run(mid, before);
        assert(open_with(opened, entries, with_authors(raw, front), true));
        lemma_element(
            opened,
            entries,
            with_authors(raw, front),
            true,
            Field::AuthorName,
            authors.last(),
        );
        lemma_two(run(opened, inner), TokenView::Close("author"@), TokenView::Open);
        assert(with_authors(raw, authors).authors =~= with_authors(raw, front).authors.push(
            tidy(authors.last()),
        ));
    }
}

proof fn lemma_optional(
    st: FeedView,
    entries: Seq<EntryView>,
    raw: RawView,
    f: Field,
    text: Option<Seq<char>>,
)
    requires
        open_with(st, entries, raw, false),
        f != Field::AuthorName,
    ensures
        open_with(
            run(st, opt_element(crate::source::atom::tag(f), text)),
            entries,
            match text {
                Some(t) => with_field(raw, f, t),
                None => raw,
            },
            false,
        ),
{
    if let Some(t) = text {
        lemma_element(st, entries, raw, false, f, t);
    }
}

proof fn lemma_entry(st: FeedView, p: Paper)
    requires
        st.raw is None,
        forall|j: int| 0 <= j < p.others.len() ==> is_unread((#[trigger] p.others[j]).0),
    ensures
        ({
            let done = run(st, entry_element(p));
            &&& done.raw is None
            &&& if entry_id(trim(p.id)) is Some {
                &&& done.entries.len() == st.entries.len() + 1
                &&& done.entries.drop_last() == st.entries
                &&& says(done.entries.last(), p)
            } else {
                done.entries == st.entries
            }
        }),
{
    lemma_tags();
    let start = seq![TokenView::Start("entry"@), TokenView::Open];
    let end = seq![TokenView::Close("entry"@)];
    let t1 = start + element("id"@, p.id);
    let t2 = t1 + opt_element("updated"@, p.updated);
    let t3 = t2 + opt_element("published"@, p.published);
    let t4 = t3 + opt_element("title"@, p.title);
    let t5 = t4 + other_elements(p.others);
    let t6 = t5 + author_elements(p.authors);
    let t7 = t6 + opt_element("doi"@, p.doi);
    lemma_run_concat(st, start, element("id"@, p.id));
    lemma_run_concat(st, t1, opt_element("updated"@, p.updated));
    lemma_run_concat(st, t2, opt_element("published"@, p.published));
    lemma_run_concat(st, t3, opt_element("title"@, p.title));
    lemma_run_concat(st, t4, other_elements(p.others));
    lemma_run_concat(st, t5, author_elements(p.authors));
    lemma_run_concat(st, t6, opt_element("doi"@, p.doi));
    lemma_run_concat(st, t7, end);
    lemma_two(st, TokenView::Start("entry"@), TokenView::Open);
    let e = st.entries;
    let r0 = blank();
    assert(open_with(run(st, start), e, r0, false));
    lemma_element(run(st, start), e, r0, false, Field::Id, p.id);
    let r1 = with_field(r0, Field::Id, p.id);
    lemma_optional(run(st, t1), e, r1, Field::Updated, p.updated);
    let r2 = match p.updated {
        Some(t) => with_field(r1, Field::Updated, t),
        None => r1,
    };
    lemma_optional(run(st, t2), e, r2, Field::Published, p.published);
    let r3 = match p.published {
        Some(t) => with_field(r2, Field::Published, t),
        None => r2,
    };
    lemma_optional(run(st, t3), e, r3, Field::Title, p.title);
    let r4 = match p.title {
        Some(t) => with_field(r3, Field::Title, t),
        None => r3,
    };
    lemma_unread(run(st, t4), e, r4, p.others);
    lemma_authors(run(st, t5), e, r4, p.authors);
    let r6 = with_authors(r4, p.authors);
    lemma_optional(run(st, t6), e, r6, Field::Doi, p.doi);
    let done = run(st, t7 + end);
    lemma_two(run(st, t7), TokenView::Close("entry"@), TokenView::Open);
    assert(entry_element(p) == t7 + end);
    if entry_id(trim(p.id)) is Some {
        assert(done.entries.drop_last() =~= st.entries);
    }
}

/// A paper whose address is not known has no entry, and does not keep the others from having
/// theirs.
pub proof fn law_a_paper_without_an_address_has_no_entry(papers: Seq<Paper>, p: Paper)
    requires
        forall|i: int| 0 <= i < papers.len() ==> entry_id(trim((#[trigger] papers[i]).id)) is Some,
        forall|i: int, j: int|
            0 <= i < papers.len() && 0 <= j < papers[i].others.len() ==> is_unread(
                (#[trigger] papers[i].others[j]).0,
            ),
        forall|j: int| 0 <= j < p.others.len() ==> is_unread((#[trigger] p.others[j]).0),
        entry_id(trim(p.id)) is None,
    ensures
        feed_entries(feed_of(papers.push(p))) == feed_entries(feed_of(papers)),
{
    lemma_feed(papers);
    assert(papers.push(p).drop_last() =~= papers);
    lemma_run(feed_of(papers), entry_element(p));
    lemma_entry(feed_after(feed_of(papers)), p);
}

proof fn lemma_feed(papers: Seq<Paper>)
    requires
        forall|i: int| 0 <= i < papers.len() ==> entry_id(trim((#[trigger] papers[i]).id)) is Some,
        forall|i: int, j: int|
            0 <= i < papers.len() && 0 <= j < papers[i].others.len() ==> is_unread(
                (#[trigger] papers[i].others[j]).0,
            ),
    ensures
        feed_after(feed_of(papers)).raw is None,
        feed_entries(feed_of(papers)).len() == papers.len(),
        forall|i: int|
            0 <= i < papers.len() ==> says(#[trigger] feed_entries(feed_of(papers))[i], papers[i]),
    decreases papers.len(),
{
    if papers.len() > 0 {
        let front = papers.drop_last();
        let p = papers.last();
        let n = papers.len() - 1;
        assert forall|i: int| 0 <= i < front.len() implies entry_id(
            trim((#[trigger] front[i]).id),
        ) is Some by {
            assert(papers[i] == front[i]);
        }
        assert forall|i: int, j: int|
            0 <= i < front.len() && 0 <= j < front[i].others.len() implies is_unread(
            (#[trigger] front[i].others[j]).0,
        ) by {
            assert(is_unread(papers[i].others[j].0));
        }
        lemma_feed(front);
        assert(papers[n] == p);
        assert forall|j: int| 0 <= j < p.others.len() implies is_unread(
            (#[trigger] p.others[j]).0,
        ) by {
            assert(is_unread(papers[n].others[j].0));
        }
        lemma_run(feed_of(front), entry_element(p));
        lemma_entry(feed_after(feed_of(front)), p);
        let was = feed_entries(feed_of(front));
        let now = feed_entries(feed_of(papers));
        assert forall|i: int| 0 <= i < papers.len() implies says(
            #[trigger] now[i],
            papers[i],
        ) by {
            if i < n {
                assert(now[i] == now.drop_last()[i]);
                assert(says(was[i], front[i]));
            }
        }
    }
}

/// An id with a version has that version: `v` and digits behind something that is not empty.
/// An id that does not end in a digit has none.
pub proof fn law_a_version_is_split_off(base: Seq<char>, digits: Seq<char>)
    requires
        base.len() > 0,
    ensures
        all_digits(digits) && digits_value(digits) <= u32::MAX ==> without_version(
            base + seq!['v'] + digits,
        ) == (base, Some(digits_value(digits))),
        all_digits(digits) && digits_value(digits) <= u32::MAX ==> without_version(
            base + seq!['V'] + digits,
        ) == (base, Some(digits_value(digits))),
        all_digits(digits) && digits_value(digits) > u32::MAX ==> without_version(
            base + seq!['v'] + digits,
        ) == (base + seq!['v'] + digits, None::<nat>),
        all_digits(digits) && !is_digit(base.last()) && base.last() != 'v' && base.last() != 'V'
            ==> without_version(base + digits) == (base + digits, None::<nat>),
        all_digits(digits) ==> without_version(seq!['v'] + digits) == (
            seq!['v'] + digits,
            None::<nat>,
        ),
        !is_digit(base.last()) ==> without_version(base) == (base, None::<nat>),
{
    let s = base + seq!['v'] + digits;
    if all_digits(digits) {
        let t = base + seq!['V'] + digits;
        lemma_ends_in_digits(base + seq!['V'], digits);
        assert(t.skip(t.len() - digits.len()) =~= digits);
        assert(t.take(t.len() - digits.len() - 1) =~= base);
        lemma_ends_in_digits(seq!['v'], digits);
        if !is_digit(base.last()) {
            lemma_ends_in_digits(base, digits);
        }
        lemma_ends_in_digits(base + seq!['v'], digits);
        assert(s.skip(s.len() - digits.len()) =~= digits);
        assert(s.take(s.len() - digits.len() - 1) =~= base);
    }
}

proof fn lemma_ends_in_digits(a: Seq<char>, digits: Seq<char>)
    requires
        a.len() > 0,
        !is_digit(a.last()),
        forall|i: int| 0 <= i < digits.len() ==> is_digit(#[trigger] digits[i]),
    ensures
        crate::source::atom::digits_at_end(a + digits) == digits.len(),
    decreases digits.len(),
{
    let s = a + digits;
    if digits.len() > 0 {
        let f = digits.drop_last();
        assert forall|i: int| 0 <= i < f.len() implies is_digit(#[trigger] f[i]) by {
            assert(digits[i] == f[i]);
        }
        lemma_ends_in_digits(a, f);
        assert(s.drop_last() =~= a + f);
        assert(is_digit(digits[digits.len() - 1]));
        assert(s.last() == digits.last());
    } else {
        assert(s =~= a);
    }
}

/// Whether a text begins so, in whatever case.
pub open spec fn begins_like(s: Seq<char>, start: Seq<char>) -> bool {
    s.len() >= start.len() && lower(s.take(start.len() as int)) == start
}

/// The case of an address does not count, and what has another one is not known.
pub proof fn law_other_addresses_are_not_known(s: Seq<char>)
    ensures
        begins_like(s, "http://arxiv.org/abs/"@) && s.len() > 21 ==> entry_id(s) == Some(
            without_version(s.skip(21)),
        ),
        begins_like(s, "https://arxiv.org/abs/"@) && s.len() > 22 ==> entry_id(s) == Some(
            without_version(s.skip(22)),
        ),
        !begins_like(s, "http://arxiv.org/abs/"@) && !begins_like(s, "https://arxiv.org/abs/"@)
            ==> entry_id(s) is None,
        s.len() <= 21 ==> entry_id(s) is None,
{
    reveal_strlit("http://arxiv.org/abs/");
    reveal_strlit("https://arxiv.org/abs/");
    reveal_strlit("http://");
    reveal_strlit("https://");
    reveal_strlit("arxiv.org/abs/");
    let low = lower(s);
    if s.len() >= 21 {
        let a = lower(s.take(21));
        assert(a =~= low.take(21));
        assert(low.take(7) =~= low.take(21).take(7));
        assert(low.skip(7).take(14) =~= low.take(21).skip(7));
        assert("http://arxiv.org/abs/"@.take(7) =~= "http://"@);
        assert("http://arxiv.org/abs/"@.skip(7) =~= "arxiv.org/abs/"@);
        assert("http://arxiv.org/abs/"@ =~= "http://"@ + "arxiv.org/abs/"@);
        assert(low.take(21) =~= low.take(7) + low.skip(7).take(14));
    }
    if s.len() >= 22 {
        let a = lower(s.take(22));
        assert(a =~= low.take(22));
        assert(low.take(8) =~= low.take(22).take(8));
        assert(low.skip(8).take(14) =~= low.take(22).skip(8));
        assert("https://arxiv.org/abs/"@.take(8) =~= "https://"@);
        assert("https://arxiv.org/abs/"@.skip(8) =~= "arxiv.org/abs/"@);
        assert("https://arxiv.org/abs/"@ =~= "https://"@ + "arxiv.org/abs/"@);
        assert(low.take(22) =~= low.take(8) + low.skip(8).take(14));
    }
    if s.len() >= 8 && low.take(7) == "http://"@ {
        assert(low.take(7)[4] == "http://"@[4]);
        if low.take(8) == "https://"@ {
            assert(low.take(8)[4] == "https://"@[4]);
        }
    }
}

/// However a feed is written, it says the same: text in sections says what escaped text
/// says, text in pieces what it says in one, an empty element what one says that is closed at
/// once, and comments and the like say nothing.
pub proof fn law_a_feed_says_the_same_however_written(
    tokens: Seq<TokenView>,
    a: Seq<char>,
    b: Seq<char>,
    local: Seq<char>,
)
    ensures
        feed_after(tokens.push(TokenView::Cdata(a))) == feed_after(
            tokens.push(TokenView::Text(escaped(a))),
        ),
        feed_after(tokens.push(TokenView::Cdata(a)).push(TokenView::Cdata(b))) == feed_after(
            tokens.push(TokenView::Cdata(a + b)),
        ),
        feed_after(tokens.push(TokenView::Start(local)).push(TokenView::Empty)) == feed_after(
            tokens.push(TokenView::Start(local)).push(TokenView::Open).push(
                TokenView::Close(local),
            ),
        ),
        feed_after(tokens.push(TokenView::Other)) == feed_after(tokens),
{
    law_references_undo_escaping(a);
    let st = feed_after(tokens);
    lemma_one_more_token(tokens, TokenView::Cdata(a));
    lemma_one_more_token(tokens, TokenView::Text(escaped(a)));
    lemma_one_more_token(tokens.push(TokenView::Cdata(a)), TokenView::Cdata(b));
    lemma_one_more_token(tokens, TokenView::Cdata(a + b));
    assert(st.buf + a + b =~= st.buf + (a + b));
    let started = tokens.push(TokenView::Start(local));
    lemma_one_more_token(tokens, TokenView::Start(local));
    lemma_one_more_token(started, TokenView::Empty);
    lemma_one_more_token(started, TokenView::Open);
    lemma_one_more_token(started.push(TokenView::Open), TokenView::Close(local));
    lemma_one_more_token(tokens, TokenView::Other);
}

proof fn lemma_one_more_token(tokens: Seq<TokenView>, t: TokenView)
    ensures
        feed_after(tokens.push(t)) == stepped(feed_after(tokens), t),
{
    assert(tokens.push(t).drop_last() =~= tokens);
}

/// The id of an entry is what stands behind `http://arxiv.org/abs/`, without its version.
pub proof fn law_an_entry_is_known_by_its_address(id: Seq<char>)
    requires
        id.len() > 0,
    ensures
        entry_id("http://arxiv.org/abs/"@ + id) == Some(without_version(id)),
        entry_id("https://arxiv.org/abs/"@ + id) == Some(without_version(id)),
{
    reveal_strlit("http://arxiv.org/abs/");
    reveal_strlit("https://arxiv.org/abs/");
    reveal_strlit("http://");
    reveal_strlit("https://");
    reveal_strlit("arxiv.org/abs/");
    let a = "http://arxiv.org/abs/"@ + id;
    let la = lower(a);
    assert(la.take(7) =~= "http://"@);
    assert(la.skip(7).take(14) =~= "arxiv.org/abs/"@);
    assert(a.skip(21) =~= id);
    let b = "https://arxiv.org/abs/"@ + id;
    let lb = lower(b);
    assert(lb.take(8) =~= "https://"@);
    assert(lb.take(7)[4] != "http://"@[4]);
    assert(lb.skip(8).take(14) =~= "arxiv.org/abs/"@);
    assert(b.skip(22) =~= id);
}

} // verus!
