//! What the sources answer: what a reply says of a key is what they resolve it to.

use crate::csl::{id_of, signed_decimal, Json};
use crate::env::duration_nanos;
use crate::error::ErrorView;
use crate::fetch::{fetch_error_text, FetchError, Response};
use crate::formats::FormatParser;
use crate::json::{json_parsed, parsed_meaning};
use crate::laws::texts::law_texts_are_cut_at_separators;
use crate::lines::split;
use crate::setup::BuiltIn;
use crate::source::{folded_form, trimmed_form, OutcomeView, ResolutionView, Source};
use crate::source::arxiv::{
    arxiv_outcome, author, best, better, chunk_resolutions,
    date_number, day_of, effective_doi, exact, file_gives, id_list, issued, item_of, json_numbers,
    law_the_best_entry_is_taken, overrides_give, query_url, with_dois,
    ArxivSource,
};
use crate::source::atom::{feed_entries, opt_view, without_version, xml_tokens, EntryView};
use crate::source::bibfile::{
    all_failed, bib_resolutions, entries_of, listed, loaded, BibParser,
    BibliographyFileSource,
};
use crate::source::doi::{doi_fault, doi_outcome, doi_url, DoiSource};
use crate::source::manual::{is_manual, ManualSource};
use crate::text::{decimal, is_white, lower, parse_signed, spaced, trim, words};
use crate::urls::{ascii_text, encoded, url_text};
use vstd::prelude::*;
use vstd::string::*;
use vstd::utf8::{decode_utf8, encode_utf8, valid_utf8};

verus! {

proof fn lemma_member_names()
    ensures
        "type"@ != "title"@,
        "type"@ != "author"@,
        "type"@ != "issued"@,
        "type"@ != "doi"@,
        "type"@ != "arxivid"@,
        "type"@ != "arxiv_version_number"@,
        "title"@ != "author"@,
        "title"@ != "issued"@,
        "title"@ != "doi"@,
        "title"@ != "arxivid"@,
        "title"@ != "arxiv_version_number"@,
        "author"@ != "issued"@,
        "author"@ != "doi"@,
        "author"@ != "arxivid"@,
        "author"@ != "arxiv_version_number"@,
        "issued"@ != "doi"@,
        "issued"@ != "arxivid"@,
        "issued"@ != "arxiv_version_number"@,
        "doi"@ != "arxivid"@,
        "doi"@ != "arxiv_version_number"@,
        "arxivid"@ != "arxiv_version_number"@,
        "given"@ != "family"@,
        "doi"@ != "DOI"@,
{
    reveal_strlit("type");
    reveal_strlit("title");
    reveal_strlit("author");
    reveal_strlit("issued");
    reveal_strlit("doi");
    reveal_strlit("DOI");
    reveal_strlit("arxivid");
    reveal_strlit("arxiv_version_number");
    reveal_strlit("given");
    reveal_strlit("family");
    assert("type"@.len() == 4);
    assert("title"@.len() == 5);
    assert("author"@.len() == 6);
    assert("author"@[0] == 'a');
    assert("issued"@.len() == 6);
    assert("issued"@[0] == 'i');
    assert("doi"@.len() == 3);
    assert("doi"@[0] == 'd');
    assert("DOI"@[0] == 'D');
    assert("arxivid"@.len() == 7);
    assert("arxiv_version_number"@.len() == 20);
    assert("given"@.len() == 5);
    assert("family"@.len() == 6);
}

/// Whether a member that may be absent has this text.
pub open spec fn has_text(
    m: Map<Seq<char>, Json>,
    name: Seq<char>,
    text: Option<Seq<char>>,
) -> bool {
    match text {
        Some(t) => m.contains_key(name) && m[name] == Json::Text(t),
        None => !m.contains_key(name),
    }
}

/// Whether a value names an author: the family name is the last word of the name, the given
/// name what stands before it, and nothing else is said.
pub open spec fn names_author(j: Json, name: Seq<char>) -> bool {
    let w = words(name);
    &&& j matches Json::Object(m)
    &&& forall|k: Seq<char>| #[trigger] m.contains_key(k) ==> k == "family"@ || k == "given"@
    &&& if w.len() == 0 {
        !m.contains_key("family"@) && !m.contains_key("given"@)
    } else if w.len() == 1 {
        m.contains_key("family"@) && m["family"@] == Json::Text(w[0]) && !m.contains_key("given"@)
    } else {
        &&& m.contains_key("family"@) && m.contains_key("given"@)
        &&& m["family"@] == Json::Text(w[w.len() - 1])
        &&& m["given"@] is Text
        &&& m["given"@]->Text_0 + seq![' '] + m["family"@]->Text_0 == spaced(w)
    }
}

/// The item of an entry says what the entry says, and no more: all its authors, each by name
/// and in order, its title, its date, the DOI in small letters, and its id and version.
pub proof fn law_an_item_says_what_its_entry_says(e: EntryView, doi: Option<Seq<char>>)
    ensures
        ({
            &&& item_of(e, doi) matches Json::Object(m)
            &&& m.contains_key("type"@) && m["type"@] == Json::Text("article-journal"@)
            &&& has_text(m, "title"@, e.title)
            &&& m.contains_key("author"@)
            &&& m["author"@] matches Json::Array(a)
            &&& a.len() == e.authors.len()
            &&& forall|i: int|
                0 <= i < e.authors.len() ==> names_author(#[trigger] a[i], e.authors[i])
            &&& has_text(
                m,
                "doi"@,
                match doi {
                    Some(d) => Some(lower(d)),
                    None => None,
                },
            )
            &&& has_text(m, "arxivid"@, Some(e.arxivid))
            &&& m.contains_key("arxiv_version_number"@)
            &&& m["arxiv_version_number"@] == (match e.version {
                Some(n) => Json::Number(decimal(n)),
                None => Json::Null,
            })
            &&& m.contains_key("issued"@) == (issued(
                if e.updated is Some {
                    e.updated
                } else {
                    e.published
                },
            ) is Some)
            &&& m.contains_key("issued"@) ==> Some(m["issued"@]) == issued(
                if e.updated is Some {
                    e.updated
                } else {
                    e.published
                },
            )
            &&& forall|k: Seq<char>| #[trigger]
                m.contains_key(k) ==> k == "type"@ || k == "title"@ || k == "author"@ || k
                    == "issued"@ || k == "doi"@ || k == "arxivid"@ || k == "arxiv_version_number"@
        }),
{
    lemma_member_names();
    let m = item_of(e, doi)->Object_0;
    let a = m["author"@]->Array_0;
    assert forall|i: int| 0 <= i < e.authors.len() implies names_author(
        #[trigger] a[i],
        e.authors[i],
    ) by {
        let w = words(e.authors[i]);
        assert(a[i] == author(e.authors[i]));
        if w.len() > 1 {
            assert(w.last() == w[w.len() - 1]);
        }
    }
}

/// Whether a text is a number without the characters that end a part of a date.
pub open spec fn is_date_part(s: Seq<char>, n: int) -> bool {
    &&& date_number(s) == Some(n)
    &&& forall|i: int|
        0 <= i < s.len() ==> #[trigger] s[i] != '-' && s[i] != 'T' && s[i] != 't' && s[i] != ' '
}

/// A date is read as its year, month and day, whatever time of day stands behind it, and as
/// its year, or year and month, where there is no more.
pub proof fn law_a_date_is_read_in_full(
    y: Seq<char>,
    year: int,
    m: Seq<char>,
    month: int,
    d: Seq<char>,
    day: int,
    time: Seq<char>,
)
    requires
        is_date_part(y, year),
        is_date_part(m, month),
        is_date_part(d, day),
    ensures
        is_issued(issued(Some(y + seq!['-'] + m + seq!['-'] + d + seq!['T'] + time)), seq![
            year,
            month,
            day,
        ]),
        is_issued(issued(Some(y + seq!['-'] + m + seq!['-'] + d)), seq![year, month, day]),
        is_issued(issued(Some(y + seq!['-'] + m)), seq![year, month]),
        is_issued(issued(Some(y)), seq![year]),
        issued(None) is None,
{
    let dash = seq!['-'];
    let ym = y + dash + m;
    let ymd = ym + dash + d;
    lemma_day(y, Seq::empty());
    lemma_day(ym, Seq::empty());
    lemma_day(ymd, Seq::empty());
    lemma_day(ymd, seq!['T'] + time);
    assert(y + Seq::<char>::empty() =~= y);
    assert(ym + Seq::<char>::empty() =~= ym);
    assert(ymd + Seq::<char>::empty() =~= ymd);
    assert(ymd + (seq!['T'] + time) =~= ymd + seq!['T'] + time);
    law_texts_are_cut_at_separators(y, '-', m);
    law_texts_are_cut_at_separators(ym, '-', d);
    law_texts_are_cut_at_separators(m, '-', d);
    law_texts_are_cut_at_separators(d, '-', d);
    assert(split(y, '-') =~= seq![y]);
    assert(split(ym, '-') =~= seq![y, m]);
    assert(split(ymd, '-') =~= seq![y, m, d]);
    lemma_issued(y, seq![year]);
    lemma_issued(ym, seq![year, month]);
    lemma_issued(ymd, seq![year, month, day]);
    lemma_issued(ymd + seq!['T'] + time, seq![year, month, day]);
}

/// A date is read as far as its parts are numbers, and not at all where it does not begin
/// with one; a space or a small `t` ends it as well.
pub proof fn law_a_date_is_read_as_far_as_it_goes(
    y: Seq<char>,
    year: int,
    m: Seq<char>,
    month: int,
    d: Seq<char>,
    bad: Seq<char>,
    end: char,
    time: Seq<char>,
)
    requires
        is_date_part(y, year),
        is_date_part(m, month),
        date_number(bad) is None,
        forall|i: int|
            0 <= i < bad.len() ==> #[trigger] bad[i] != '-' && bad[i] != 'T' && bad[i] != 't'
                && bad[i] != ' ',
        end == 't' || end == ' ' || end == 'T',
    ensures
        is_issued(issued(Some(y + seq!['-'] + bad)), seq![year]),
        is_issued(issued(Some(y + seq!['-'] + m + seq!['-'] + bad)), seq![year, month]),
        issued(Some(bad)) is None,
        is_issued(issued(Some(y + seq!['-'] + m + (seq![end] + time))), seq![year, month]),
        forall|s: Seq<char>| #[trigger] date_number(s) == parse_signed(trim(s)),
{
    let dash = seq!['-'];
    let none = Seq::<char>::empty();
    let yb = y + dash + bad;
    let ym = y + dash + m;
    let ymb = ym + dash + bad;
    lemma_day(yb, none);
    lemma_day(ymb, none);
    lemma_day(bad, none);
    lemma_day(ym, seq![end] + time);
    assert(yb + none =~= yb);
    assert(ymb + none =~= ymb);
    assert(bad + none =~= bad);
    law_texts_are_cut_at_separators(y, '-', bad);
    law_texts_are_cut_at_separators(y, '-', m);
    law_texts_are_cut_at_separators(ym, '-', bad);
    law_texts_are_cut_at_separators(m, '-', m);
    law_texts_are_cut_at_separators(bad, '-', bad);
    assert(split(bad, '-') =~= seq![bad]);
    assert(split(yb, '-') =~= seq![y, bad]);
    assert(split(ym, '-') =~= seq![y, m]);
    assert(split(ymb, '-') =~= seq![y, m, bad]);
    lemma_issued(yb, seq![year]);
    lemma_issued(ymb, seq![year, month]);
    lemma_issued(ym + (seq![end] + time), seq![year, month]);
}

/// Whether a value is a date with these parts.
pub open spec fn is_issued(j: Option<Json>, parts: Seq<int>) -> bool {
    &&& j matches Some(Json::Object(m))
    &&& m.contains_key("date-parts"@)
    &&& forall|k: Seq<char>| #[trigger] m.contains_key(k) ==> k == "date-parts"@
    &&& m["date-parts"@] matches Json::Array(outer)
    &&& outer.len() == 1
    &&& outer[0] matches Json::Array(n)
    &&& n.len() == parts.len()
    &&& forall|i: int|
        0 <= i < parts.len() ==> #[trigger] n[i] == Json::Number(signed_decimal(parts[i]))
}

proof fn lemma_issued(d: Seq<char>, n: Seq<int>)
    requires
        crate::source::arxiv::date_parts(split(day_of(d), '-')) == Some(n),
    ensures
        is_issued(issued(Some(d)), n),
{
    let outer = seq![Json::Array(json_numbers(n))];
    assert(outer[0]->Array_0 == json_numbers(n));
}

proof fn lemma_day(s: Seq<char>, rest: Seq<char>)
    requires
        forall|i: int| 0 <= i < s.len() ==> #[trigger] s[i] != 'T' && s[i] != 't' && s[i] != ' ',
        rest.len() > 0 ==> rest[0] == 'T' || rest[0] == 't' || rest[0] == ' ',
    ensures
        day_of(s + rest) == s,
    decreases s.len(),
{
    let t = s + rest;
    if s.len() > 0 {
        assert(t[0] == s[0]);
        assert(t.skip(1) =~= s.skip(1) + rest);
        lemma_day(s.skip(1), rest);
        assert(seq![s[0]] + s.skip(1) =~= s);
    } else {
        assert(t =~= rest);
        assert(s =~= Seq::empty());
    }
}

/// Whether a text is made of white space.
pub open spec fn is_blank(s: Seq<char>) -> bool {
    forall|i: int| 0 <= i < s.len() ==> is_white(#[trigger] s[i])
}

/// The DOI that counts for a paper: the one that it is overridden with, or else that of the
/// feed, and none where that is blank.
pub open spec fn doi_that_counts(
    overrides: Map<Seq<char>, Option<Seq<char>>>,
    base: Seq<char>,
    e: EntryView,
) -> Option<Seq<char>> {
    let d = if overrides.contains_key(base) {
        overrides[base]
    } else {
        e.doi
    };
    match d {
        Some(t) => if !is_blank(t) {
            Some(t)
        } else {
            None
        },
        None => None,
    }
}

/// Whether an entry is the best one with an id: the first one without a version, if there is
/// one, and otherwise the last one with the highest version.
pub open spec fn is_best_at(entries: Seq<EntryView>, base: Seq<char>, i: int) -> bool {
    &&& 0 <= i < entries.len()
    &&& entries[i].arxivid == base
    &&& match entries[i].version {
        Some(v) => forall|j: int|
            0 <= j < entries.len() && (#[trigger] entries[j]).arxivid == base ==> (
            entries[j].version matches Some(w) && w <= v && (w == v ==> j <= i)),
        None => forall|j: int|
            0 <= j < i && (#[trigger] entries[j]).arxivid == base ==> entries[j].version is Some,
    }
}

proof fn lemma_best_at(entries: Seq<EntryView>, base: Seq<char>) -> (i: int)
    requires
        exists|k: int| 0 <= k < entries.len() && (#[trigger] entries[k]).arxivid == base,
    ensures
        is_best_at(entries, base, i),
        best(entries, base) == Some(entries[i]),
    decreases entries.len(),
{
    let n = entries.len() - 1;
    let front = entries.drop_last();
    let e = entries[n];
    if exists|k: int| 0 <= k < front.len() && (#[trigger] front[k]).arxivid == base {
        let i = lemma_best_at(front, base);
        let b = front[i];
        assert(entries[i] == b);
        assert(forall|j: int| 0 <= j < n ==> (#[trigger] entries[j]) == front[j]);
        if e.arxivid != base {
            i
        } else if better(b, e) == b && b.version is None {
            i
        } else if better(b, e) == e {
            assert forall|j: int| 0 <= j < n && (#[trigger] entries[j]).arxivid == base implies (
            entries[j].version is Some && (b.version is Some && e.version is Some
                ==> entries[j].version->Some_0 <= b.version->Some_0)) by {
                assert(front[j] == entries[j]);
            }
            n
        } else {
            assert forall|j: int| 0 <= j < n && (#[trigger] entries[j]).arxivid == base implies (
            entries[j].version matches Some(w) && w <= b.version->Some_0 && (w
                == b.version->Some_0 ==> j <= i)) by {
                assert(front[j] == entries[j]);
            }
            i
        }
    } else {
        let k = choose|k: int| 0 <= k < entries.len() && (#[trigger] entries[k]).arxivid == base;
        if k < n {
            assert(front[k] == entries[k]);
        }
        law_the_best_entry_is_taken(front, base);
        assert(best(front, base) is None) by {
            if best(front, base) is Some {
                let b = best(front, base)->Some_0;
                let j = choose|j: int| 0 <= j < front.len() && front[j] == b;
                assert(front[j].arxivid == base);
            }
        }
        assert forall|j: int| 0 <= j < n implies (#[trigger] entries[j]).arxivid != base by {
            assert(front[j] == entries[j]);
        }
        n
    }
}

/// What a feed says of an id without a version. Where there is an entry for it, it is taken
/// from the best one: as a pointer to its DOI if there is one that counts and DOIs are
/// chained, and otherwise as its item. Where there is none, the key is missing.
pub proof fn law_an_id_is_answered_from_its_entry(
    target: Option<Seq<char>>,
    overrides: Map<Seq<char>, Option<Seq<char>>>,
    entries: Seq<EntryView>,
    key: Seq<char>,
)
    requires
        without_version(key).1 is None,
    ensures
        ({
            let base = without_version(key).0;
            let outcome = arxiv_outcome(target, overrides, entries, key);
            if exists|i: int| 0 <= i < entries.len() && (#[trigger] entries[i]).arxivid == base {
                exists|i: int|
                    {
                        let e = #[trigger] entries[i];
                        let doi = doi_that_counts(overrides, base, e);
                        &&& 0 <= i < entries.len()
                        &&& e.arxivid == base
                        &&& is_best_at(entries, base, i)
                        &&& if target is Some && doi is Some {
                            &&& outcome matches OutcomeView::Chained { prefix, key: k, set_properties }
                            &&& prefix == target->Some_0
                            &&& k == lower(doi->Some_0)
                            &&& set_properties matches Json::Object(m)
                            &&& has_text(m, "arxivid"@, Some(key))
                            &&& forall|x: Seq<char>| #[trigger]
                                m.contains_key(x) ==> x == "arxivid"@
                        } else {
                            outcome matches OutcomeView::Concrete { csl, ttl: None } && csl
                                == item_of(e, doi)
                        }
                    }
            } else {
                outcome == OutcomeView::Missing(
                    ErrorView::Source("no arXiv entry returned for `"@ + key + "`"@),
                )
            }
        }),
{
    let base = without_version(key).0;
    law_the_best_entry_is_taken(entries, base);
    if exists|i: int| 0 <= i < entries.len() && (#[trigger] entries[i]).arxivid == base {
        let i = lemma_best_at(entries, base);
        lemma_doi(overrides, base, entries[i]);
    } else if best(entries, base) is Some {
        let b = best(entries, base)->Some_0;
        let i = choose|i: int| 0 <= i < entries.len() && entries[i] == b;
        assert(entries[i].arxivid == base);
    }
}

/// What a feed says of an id with a version: the item of the entry with that very version,
/// with the DOI that counts, if the feed has one, and otherwise that it is missing.
pub proof fn law_a_version_is_answered_from_its_entry(
    target: Option<Seq<char>>,
    overrides: Map<Seq<char>, Option<Seq<char>>>,
    entries: Seq<EntryView>,
    key: Seq<char>,
)
    requires
        without_version(key).1 is Some,
    ensures
        ({
            let (base, version) = without_version(key);
            let outcome = arxiv_outcome(target, overrides, entries, key);
            if exists|i: int|
                0 <= i < entries.len() && (#[trigger] entries[i]).arxivid == base
                    && entries[i].version == version {
                exists|i: int|
                    {
                        let e = #[trigger] entries[i];
                        &&& 0 <= i < entries.len()
                        &&& e.arxivid == base
                        &&& e.version == version
                        &&& forall|j: int|
                            0 <= j < i ==> (#[trigger] entries[j]).arxivid != base
                                || entries[j].version != version
                        &&& outcome matches OutcomeView::Concrete { csl, ttl: None }
                        &&& csl == item_of(e, doi_that_counts(overrides, base, e))
                    }
            } else {
                outcome == OutcomeView::Missing(
                    ErrorView::Source("no arXiv entry returned for `"@ + key + "`"@),
                )
            }
        }),
{
    let (base, version) = without_version(key);
    lemma_exact_found(entries, base, version->Some_0);
    match exact(entries, base, version->Some_0) {
        Some(e) => {
            let i = choose|i: int|
                0 <= i < entries.len() && #[trigger] entries[i] == e && is_first_at(
                    entries,
                    base,
                    version->Some_0,
                    i,
                );
            lemma_doi(overrides, base, e);
            assert(entries[i].arxivid == base);
        },
        None => {},
    }
}

spec fn is_first_at(entries: Seq<EntryView>, base: Seq<char>, version: nat, i: int) -> bool {
    forall|j: int|
        0 <= j < i ==> (#[trigger] entries[j]).arxivid != base || entries[j].version != Some(version)
}

proof fn lemma_exact_found(entries: Seq<EntryView>, base: Seq<char>, version: nat)
    ensures
        match exact(entries, base, version) {
            Some(e) => e.arxivid == base && e.version == Some(version) && exists|i: int|
                0 <= i < entries.len() && #[trigger] entries[i] == e && is_first_at(
                    entries,
                    base,
                    version,
                    i,
                ),
            None => forall|i: int|
                0 <= i < entries.len() ==> (#[trigger] entries[i]).arxivid != base
                    || entries[i].version != Some(version),
        },
    decreases entries.len(),
{
    if entries.len() > 0 {
        let rest = entries.skip(1);
        lemma_exact_found(rest, base, version);
        if entries[0].arxivid == base && entries[0].version == Some(version) {
            assert(is_first_at(entries, base, version, 0));
        } else {
            match exact(rest, base, version) {
                Some(e) => {
                    let i = choose|i: int|
                        0 <= i < rest.len() && #[trigger] rest[i] == e && is_first_at(
                            rest,
                            base,
                            version,
                            i,
                        );
                    assert(entries[i + 1] == e);
                    assert forall|j: int| 0 <= j < i + 1 implies (#[trigger] entries[j]).arxivid
                        != base || entries[j].version != Some(version) by {
                        if j > 0 {
                            assert(rest[j - 1] == entries[j]);
                        }
                    }
                    assert(is_first_at(entries, base, version, i + 1));
                },
                None => {
                    assert forall|i: int| 0 <= i < entries.len() implies (
                    #[trigger] entries[i]).arxivid != base || entries[i].version != Some(
                        version,
                    ) by {
                        if i > 0 {
                            assert(rest[i - 1] == entries[i]);
                        }
                    }
                },
            }
        }
    }
}

proof fn lemma_doi(
    overrides: Map<Seq<char>, Option<Seq<char>>>,
    base: Seq<char>,
    e: EntryView,
)
    ensures
        effective_doi(overrides, base, e.doi) == doi_that_counts(overrides, base, e),
{
    let d = if overrides.contains_key(base) {
        overrides[base]
    } else {
        e.doi
    };
    if let Some(s) = d {
        lemma_blank(s);
    }
}

/// A text is blank once trimmed if and only if it is all white space.
proof fn lemma_blank(s: Seq<char>)
    ensures
        trim(s).len() == 0 <==> is_blank(s),
{
    crate::laws::texts::law_trimming_takes_off_the_ends(s);
    let (i, j) = choose|i: int, j: int|
        0 <= i <= j <= s.len() && trim(s) == #[trigger] s.subrange(i, j)
            && crate::laws::texts::all_white(s.take(i)) && crate::laws::texts::all_white(s.skip(j));
    if trim(s).len() == 0 {
        assert forall|k: int| 0 <= k < s.len() implies is_white(#[trigger] s[k]) by {
            if k < i {
                assert(s.take(i)[k] == s[k]);
            } else {
                assert(s.skip(j)[k - j] == s[k]);
            }
        }
    } else {
        assert(trim(s)[0] == s[i]);
    }
}

/// A feed answers each key of a chunk, in order and by itself: what it says of a key does
/// not depend on what else was asked for. Where the reply is no feed, every key fails.
pub proof fn law_a_chunk_is_answered_key_by_key(
    target: Option<Seq<char>>,
    overrides: Map<Seq<char>, Option<Seq<char>>>,
    keys: Seq<Seq<char>>,
    reply: Result<Response, FetchError>,
)
    ensures
        chunk_resolutions(target, overrides, keys, reply).len() == keys.len(),
        forall|i: int|
            0 <= i < keys.len() ==> {
                let r = #[trigger] chunk_resolutions(target, overrides, keys, reply)[i];
                &&& r.key == keys[i]
                &&& match reply {
                    Ok(resp) => if 200 <= resp.status < 300 && valid_utf8(resp.body@)
                        && xml_tokens(decode_utf8(resp.body@)) is Ok {
                        r.outcome == arxiv_outcome(
                            target,
                            overrides,
                            feed_entries(xml_tokens(decode_utf8(resp.body@))->Ok_0),
                            keys[i],
                        )
                    } else {
                        &&& r.outcome matches OutcomeView::Failed(ErrorView::Source(m))
                        &&& if !(200 <= resp.status < 300) {
                            m == "arXiv API returned status "@ + decimal(resp.status as nat)
                        } else if !valid_utf8(resp.body@) {
                            m == "arXiv response is not UTF-8"@
                        } else {
                            m == "arXiv Atom XML parse error: "@ + xml_tokens(
                                decode_utf8(resp.body@),
                            )->Err_0
                        }
                    },
                    Err(e) => r.outcome matches OutcomeView::Failed(ErrorView::Source(m)) && m
                        == "arXiv fetch failed: "@ + fetch_error_text(e@),
                }
            },
{
}

/// The URL that ids are asked for at names each of them, in order, and how many there are.
pub proof fn law_a_query_names_every_id(keys: Seq<Seq<char>>)
    requires
        keys.len() > 0,
    ensures
        split(id_list(keys), ',') == keys.map_values(|k: Seq<char>| url_text(k, false)),
        query_url(keys) == "https://export.arxiv.org/api/query?id_list="@ + id_list(keys)
            + "&max_results="@ + decimal(keys.len()),
    decreases keys.len(),
{
    let all = keys.map_values(|k: Seq<char>| url_text(k, false));
    let last = url_text(keys.last(), false);
    lemma_no_comma(keys.last());
    law_texts_are_cut_at_separators(last, ',', last);
    if keys.len() == 1 {
        assert(all =~= seq![last]);
    } else {
        let front = keys.drop_last();
        law_a_query_names_every_id(front);
        law_texts_are_cut_at_separators(id_list(front), ',', last);
        assert(all =~= front.map_values(|k: Seq<char>| url_text(k, false)) + seq![last]);
    }
}

proof fn lemma_no_comma(s: Seq<char>)
    ensures
        !url_text(s, false).contains(','),
{
    let bytes = encode_utf8(s);
    lemma_encoded_no_comma(bytes);
    let t = ascii_text(encoded(bytes, false));
    if t.contains(',') {
        let i = choose|i: int| 0 <= i < t.len() && t[i] == ',';
        assert(encoded(bytes, false)[i] as char == ',');
    }
}

proof fn lemma_encoded_no_comma(bytes: Seq<u8>)
    ensures
        forall|i: int|
            0 <= i < encoded(bytes, false).len() ==> #[trigger] encoded(bytes, false)[i] != 0x2c,
    decreases bytes.len(),
{
    if bytes.len() > 0 {
        lemma_encoded_no_comma(bytes.drop_last());
        let f = encoded(bytes.drop_last(), false);
        let b = bytes.last();
        let e = crate::urls::encoded_byte(b, false);
        assert(b as int / 16 < 16);
        assert forall|i: int| 0 <= i < e.len() implies #[trigger] e[i] != 0x2c by {}
        assert forall|i: int| 0 <= i < encoded(bytes, false).len() implies #[trigger] encoded(
            bytes,
            false,
        )[i] != 0x2c by {
            if i < f.len() {
                assert((f + e)[i] == f[i]);
            } else {
                assert((f + e)[i] == e[i - f.len()]);
            }
        }
    }
}

/// Overriding DOIs: those given directly count before those of the file, the last one given
/// for an id counts, and each that is in either is there.
pub proof fn law_overriding_dois_count(
    inline: Map<Seq<char>, Option<Seq<char>>>,
    reply: Option<Result<Response, FetchError>>,
    dois: Map<Seq<char>, Option<Seq<char>>>,
    id: Seq<char>,
)
    requires
        overrides_give(inline, reply, Ok(dois)),
    ensures
        inline.contains_key(id) ==> dois.contains_key(id) && dois[id] == inline[id],
        !inline.contains_key(id) && reply is None ==> !dois.contains_key(id),
        !inline.contains_key(id) ==> (reply matches Some(file) ==> {
            &&& file matches Ok(resp)
            &&& parsed_meaning(json_parsed(resp.body@)) matches Ok(Json::Object(m))
            &&& dois.contains_key(id) == m.contains_key(id)
            &&& m.contains_key(id) ==> (match m[id] {
                Json::Text(s) => dois[id] == Some(s),
                Json::Null => dois[id] is None,
                _ => false,
            })
        }),
{
}

/// Whether a file of overriding DOIs is one: a JSON object of texts and nulls that came with
/// a good status. Such a file is used, and no other is.
pub proof fn law_a_file_of_dois_is_used_if_it_is_one(
    reply: Result<Response, FetchError>,
    r: Result<Map<Seq<char>, Option<Seq<char>>>, Seq<char>>,
)
    requires
        file_gives(reply, r),
    ensures
        r is Ok <==> {
            &&& reply matches Ok(resp)
            &&& 200 <= resp.status < 300
            &&& parsed_meaning(json_parsed(resp.body@)) matches Ok(Json::Object(m))
            &&& forall|k: Seq<char>| #[trigger]
                m.contains_key(k) ==> m[k] is Text || m[k] is Null
        },
{
    if let Ok(resp) = reply {
        if let Ok(Json::Object(m)) = parsed_meaning(json_parsed(resp.body@)) {
            if 200 <= resp.status < 300 {
                if let Err(e) = r {
                    let id = choose|id: Seq<char>| #[trigger]
                        crate::source::arxiv::first_fault(m, id) && e
                            == crate::source::arxiv::fault_text(id);
                    assert(m.contains_key(id));
                }
            }
        }
    }
}

/// Of DOIs that are given one after another, the last one for an id counts, and ids that are
/// not among them keep what they had.
pub proof fn law_the_last_doi_given_counts(
    m: Map<Seq<char>, Option<Seq<char>>>,
    more: Seq<(String, Option<String>)>,
    i: int,
    id: Seq<char>,
)
    ensures
        0 <= i < more.len() && more[i].0@ == id && (forall|j: int|
            i < j < more.len() ==> (#[trigger] more[j]).0@ != id) ==> with_dois(
            m,
            more,
        ).contains_key(id) && with_dois(m, more)[id] == opt_view(more[i].1),
        (forall|j: int| 0 <= j < more.len() ==> (#[trigger] more[j]).0@ != id) ==> {
            &&& with_dois(m, more).contains_key(id) == m.contains_key(id)
            &&& m.contains_key(id) ==> with_dois(m, more)[id] == m[id]
        },
    decreases more.len(),
{
    if more.len() > 0 {
        let front = more.drop_last();
        let n = more.len() - 1;
        law_the_last_doi_given_counts(m, front, i, id);
        if 0 <= i < n && more[i].0@ == id && (forall|j: int|
            i < j < more.len() ==> (#[trigger] more[j]).0@ != id) {
            assert(more[n].0@ != id);
            assert(front[i] == more[i]);
            assert forall|j: int| i < j < front.len() implies (#[trigger] front[j]).0@ != id by {
                assert(more[j].0@ != id);
            }
        }
        if forall|j: int| 0 <= j < more.len() ==> (#[trigger] more[j]).0@ != id {
            assert(more[n].0@ != id);
            assert forall|j: int| 0 <= j < front.len() implies (#[trigger] front[j]).0@ != id by {
                assert(more[j].0@ != id);
            }
        }
    }
}

/// What doi.org answers is kept as it came: a good reply whose body is an object with members
/// resolves a DOI to an item that has every member of the body with its value, but for the
/// DOI, which it has under `doi` in small letters, and nothing besides. A body that is
/// anything else fails, and so does any other status, but for the one that says that there
/// is no such DOI, which is missing.
pub proof fn law_what_a_reply_says_of_a_doi_is_kept(
    prefix: Seq<char>,
    doi: Seq<char>,
    reply: Result<Response, FetchError>,
    name: Seq<char>,
)
    ensures
        ({
            let outcome = doi_outcome(prefix, doi, reply);
            match reply {
                Err(e) => outcome == OutcomeView::Failed(ErrorView::Fetch(e@)),
                Ok(resp) => if 200 <= resp.status < 300 {
                    match parsed_meaning(json_parsed(resp.body@)) {
                        Ok(Json::Object(m)) => if m.contains_key(name) {
                            &&& outcome matches OutcomeView::Concrete {
                                csl: Json::Object(s),
                                ttl: None,
                            }
                            &&& name != "DOI"@ && name != "doi"@ ==> s.contains_key(name) && s[name]
                                == m[name]
                            &&& forall|k: Seq<char>| #[trigger]
                                s.contains_key(k) && k != "doi"@ ==> m.contains_key(k) && k
                                    != "DOI"@
                            &&& s.contains_key("doi"@) == (m.contains_key("doi"@)
                                || m.contains_key("DOI"@))
                            &&& s.contains_key("doi"@) ==> s["doi"@] == (match (
                                if m.contains_key("doi"@) {
                                    m["doi"@]
                                } else {
                                    m["DOI"@]
                                }
                            ) {
                                Json::Text(t) => Json::Text(lower(t)),
                                j => j,
                            })
                        } else {
                            outcome is Concrete || outcome is Failed
                        },
                        _ => outcome is Failed,
                    }
                } else if resp.status == 404 {
                    outcome == OutcomeView::Missing(ErrorView::NotFound(prefix + ":"@ + doi))
                } else {
                    outcome == OutcomeView::Failed(
                        ErrorView::Source("doi.org returned status "@ + decimal(resp.status as nat)),
                    )
                },
            }
        }),
        // An object without members is no item.
        reply matches Ok(resp) && 200 <= resp.status < 300 && parsed_meaning(
            json_parsed(resp.body@),
        ) == Ok::<Json, Seq<char>>(Json::Object(Map::empty())) ==> doi_outcome(
            prefix,
            doi,
            reply,
        ) is Failed,
{
    reveal_strlit(":");
    assert(id_of(prefix, doi) =~= prefix + ":"@ + doi);
    lemma_member_names();
}

/// A DOI is asked for unless it is empty or holds white space, and at a URL that names it.
pub proof fn law_a_doi_is_asked_for_by_name(doi: Seq<char>)
    ensures
        doi_fault(doi) is None <==> doi.len() > 0 && forall|i: int|
            0 <= i < doi.len() ==> !is_white(#[trigger] doi[i]),
        doi_url(doi) == "https://doi.org/"@ + url_text(doi, true),
{
}

/// The entries of a bibliography: those of an object are its members; of a list each item
/// counts that has a text for its id, the last one with an id before the others. Anything
/// else is no bibliography.
pub proof fn law_a_bibliography_holds_its_items(items: Seq<Json>, i: int, id: Seq<char>)
    ensures
        forall|m: Map<Seq<char>, Json>| #[trigger]
            entries_of(Json::Object(m)) == Some(m),
        entries_of(Json::Array(items)) matches Some(all) && {
            &&& 0 <= i < items.len() && has_id(items[i], id) && (forall|j: int|
                i < j < items.len() ==> !has_id(#[trigger] items[j], id)) ==> all.contains_key(id)
                && all[id] == items[i]
            &&& all.contains_key(id) ==> exists|j: int|
                0 <= j < items.len() && has_id(#[trigger] items[j], id) && all[id] == items[j]
        },
        entries_of(Json::Null) is None,
        forall|b: bool| #[trigger] entries_of(Json::Bool(b)) is None,
        forall|t: Seq<char>| #[trigger] entries_of(Json::Text(t)) is None,
        forall|t: Seq<char>| #[trigger] entries_of(Json::Number(t)) is None,
{
    lemma_listed(items, i, id);
}

/// Whether an item has this id.
pub open spec fn has_id(item: Json, id: Seq<char>) -> bool {
    item matches Json::Object(m) && m.contains_key("id"@) && m["id"@] == Json::Text(id)
}

proof fn lemma_listed(items: Seq<Json>, i: int, id: Seq<char>)
    ensures
        0 <= i < items.len() && has_id(items[i], id) && (forall|j: int|
            i < j < items.len() ==> !has_id(#[trigger] items[j], id)) ==> listed(
            items,
        ).contains_key(id) && listed(items)[id] == items[i],
        listed(items).contains_key(id) ==> exists|j: int|
            0 <= j < items.len() && has_id(#[trigger] items[j], id) && listed(items)[id]
                == items[j],
    decreases items.len(),
{
    if items.len() > 0 {
        let front = items.drop_last();
        let n = items.len() - 1;
        lemma_listed(front, i, id);
        if has_id(items[n], id) {
            assert(listed(items)[id] == items[n]);
        } else {
            if 0 <= i < n && (forall|j: int|
                i < j < items.len() ==> !has_id(#[trigger] items[j], id)) {
                assert(front[i] == items[i]);
                assert forall|j: int| i < j < front.len() implies !has_id(
                    #[trigger] front[j],
                    id,
                ) by {
                    assert(items[j] == front[j]);
                }
            }
            if listed(items).contains_key(id) {
                assert(listed(front).contains_key(id));
                let j = choose|j: int|
                    0 <= j < front.len() && has_id(#[trigger] front[j], id) && listed(front)[id]
                        == front[j];
                assert(items[j] == front[j]);
            }
        }
    }
}

/// A bibliography file is loaded if it came with a good status and its parser makes a
/// bibliography of it, and then it has that one's entries.
pub proof fn law_a_file_is_loaded_if_it_is_a_bibliography<P: BibParser>(
    parser: P,
    url: Seq<char>,
    reply: Result<Response, FetchError>,
)
    ensures
        match loaded(parser, url, reply) {
            Ok(m) => {
                &&& reply matches Ok(resp)
                &&& 200 <= resp.status < 300
                &&& parser.parsed(resp.body@) matches Ok(j)
                &&& entries_of(j) == Some(m)
            },
            Err(e) => match reply {
                Err(f) => e == ErrorView::Fetch(f@),
                Ok(resp) => if !(200 <= resp.status < 300) {
                    e == ErrorView::Source(
                        "bibliography file `"@ + url + "` returned status "@ + decimal(
                            resp.status as nat,
                        ),
                    )
                } else {
                    match parser.parsed(resp.body@) {
                        Err(m) => e == ErrorView::Parse(m),
                        Ok(j) => !(j is Array) && !(j is Object) && e == ErrorView::Parse(
                            "bibliography file `"@ + url + "` is neither an array nor an object"@,
                        ),
                    }
                },
            },
        },
{
}

/// A bibliography answers each key, in order and by itself: with its entry, as it stands
/// there, if it has one, and otherwise that the key is missing. Where all keys fail, each
/// does.
pub proof fn law_a_bibliography_answers_key_by_key(
    index: Map<Seq<char>, Json>,
    keys: Seq<Seq<char>>,
    message: Seq<char>,
)
    ensures
        bib_resolutions(index, keys).len() == keys.len(),
        forall|i: int|
            0 <= i < keys.len() ==> {
                let r = #[trigger] bib_resolutions(index, keys)[i];
                &&& r.key == keys[i]
                &&& if index.contains_key(keys[i]) {
                    r.outcome == (OutcomeView::Concrete { csl: index[keys[i]], ttl: None })
                } else {
                    r.outcome == OutcomeView::Missing(
                        ErrorView::NotFound("key `"@ + keys[i] + "` not found in bibliography"@),
                    )
                }
            },
        all_failed(keys, message).len() == keys.len(),
        forall|i: int|
            0 <= i < keys.len() ==> (#[trigger] all_failed(keys, message)[i]).key == keys[i]
                && all_failed(keys, message)[i].outcome == OutcomeView::Failed(
                ErrorView::Source(message),
            ),
{
}

/// A manual citation is its own item: its text, in its format, and nothing else, and it is
/// not kept beyond the run.
pub proof fn law_a_manual_citation_is_its_text(
    r: ResolutionView,
    format: Seq<char>,
    key: Seq<char>,
)
    requires
        is_manual(r, format, key),
    ensures
        r.key == key,
        ({
            &&& r.outcome matches OutcomeView::Concrete { csl: Json::Object(m), ttl: Some(t) }
            &&& duration_nanos(t) == 0
            &&& m.dom() =~= set!["_ready_formatted"@]
            &&& m["_ready_formatted"@] matches Json::Object(f)
            &&& f.dom() =~= set![format]
            &&& f[format] == Json::Text(key)
        }),
{
}

/// Two spellings of a key come to the same form if and only if they differ in white space
/// around them, or, where the case does not count, in their capitals too.
pub proof fn law_forms_forget_what_does_not_count(a: Seq<char>, b: Seq<char>)
    ensures
        trimmed_form(a) == trim(a),
        folded_form(a) == lower(trim(a)),
        trim(a) == trim(b) ==> folded_form(a) == folded_form(b),
        lower(trim(a)) == lower(trim(b)) <==> folded_form(a) == folded_form(b),
{
}

/// Each source keeps its keys in a form of its own: ids of papers and keys of a bibliography
/// without the white space around them, DOIs in small letters too, and texts as they are.
pub proof fn law_each_source_has_its_form(
    papers: ArxivSource,
    dois: DoiSource,
    files: BibliographyFileSource<FormatParser>,
    texts: ManualSource,
    key: Seq<char>,
)
    ensures
        BuiltIn::Arxiv(papers).key_form(key) == trim(key),
        BuiltIn::Doi(dois).key_form(key) == lower(trim(key)),
        BuiltIn::Bib(files).key_form(key) == trim(key),
        BuiltIn::Manual(texts).key_form(key) == key,
{
}

} // verus!
