//! The `arxiv` source: the arXiv Atom API.
//!
//! A chunk of ids goes into one request, and each key is answered from the feed that
//! comes back. A key with a version (`...v2`) gets that version's metadata. A key
//! without one gets the best entry for its id, or a pointer to the entry's DOI where
//! it has one and chaining is on.
//!
//! The DOI of a paper can be overridden, or suppressed, by entries given directly or
//! in a JSON file. Keys are trimmed, and their case counts: old ids name a subject
//! class in it.

use crate::csl::{fields, group_csl, json_map, json_seq, number_of, signed_decimal, CslValue, Json};
use crate::driver::texts;
use crate::env::{duration_millis, duration_nanos};
use crate::error::{joined, Error, ErrorView};
use crate::fetch::{fetch_error_text, text_map, FetchError, Method, Request, Response};
use crate::index::TextMap;
use crate::json::{json_parsed, parsed_meaning, read_json};
use crate::lines::split;
use crate::sorted::{before, lemma_map_of_at, lemma_map_of_dom, map_of, ordered, SortedMap};
use crate::source::atom::{
    entry_views, feed_entries, opt_view, parse_feed, split_version, without_version, xml_tokens,
    Entry, EntryView,
};
use crate::source::bibfile::{all_failed, fail_all};
use crate::source::{
    law_trimming_is_stable, resolution_views, trimmed_form, OutcomeView, Resolution,
    ResolutionView, Source,
};
use crate::text::{
    chars_of, decimal, decimal_text, lower, lowered, parse_signed, pieces, same, signed, spaced,
    spaced_text, trim, trimmed, words, words_of,
};
use crate::urls::{percent_encode, url_text};
use core::time::Duration;
use vstd::prelude::*;
use vstd::string::*;
use vstd::utf8::{decode_utf8, valid_utf8};

verus! {

/// Serves arXiv ids.
pub struct ArxivSource {
    chain_to: Option<String>,
    override_dois: TextMap<Option<String>>,
    override_dois_file: Option<String>,
}

/// DOIs by arXiv ids; none suppresses the DOI.
pub open spec fn doi_map(m: Map<Seq<char>, Option<String>>) -> Map<Seq<char>, Option<Seq<char>>> {
    m.map_values(|d: Option<String>| opt_view(d))
}

/// Given DOIs with more of them, the last one for an id counting.
pub open spec fn with_dois(
    m: Map<Seq<char>, Option<Seq<char>>>,
    more: Seq<(String, Option<String>)>,
) -> Map<Seq<char>, Option<Seq<char>>>
    decreases more.len(),
{
    if more.len() == 0 {
        m
    } else {
        with_dois(m, more.drop_last()).insert(more.last().0@, opt_view(more.last().1))
    }
}

/// A copy of a text that may be absent.
fn copy_opt(s: &Option<String>) -> (r: Option<String>)
    ensures
        opt_view(r) == opt_view(*s),
{
    match s {
        Some(t) => Some(t.clone()),
        None => None,
    }
}

impl ArxivSource {
    /// The prefix that DOIs are chained to, if they are.
    pub closed spec fn target(&self) -> Option<Seq<char>> {
        opt_view(self.chain_to)
    }

    /// The overriding DOIs that were given directly.
    pub closed spec fn inline(&self) -> Map<Seq<char>, Option<Seq<char>>> {
        doi_map(self.override_dois@)
    }

    /// The file with more overriding DOIs, if there is one.
    pub closed spec fn file(&self) -> Option<Seq<char>> {
        opt_view(self.override_dois_file)
    }

    /// A source that chains DOIs to the prefix `doi`.
    pub fn new() -> (r: Self)
        ensures
            r.target() == Some("doi"@),
            r.inline() == Map::<Seq<char>, Option<Seq<char>>>::empty(),
            r.file() is None,
    {
        let r = ArxivSource {
            chain_to: Some("doi".to_owned()),
            override_dois: TextMap::new(),
            override_dois_file: None,
        };
        assert(r.inline() =~= Map::<Seq<char>, Option<Seq<char>>>::empty());
        r
    }

    /// The prefix that the source is bound to by convention.
    pub fn prefix(&self) -> (r: &'static str)
        ensures
            r@ == "arxiv"@,
    {
        "arxiv"
    }

    /// The source with chaining turned on or off. Turned on again, it goes to `doi`
    /// where no other prefix was named.
    pub fn chaining(self, on: bool) -> (r: Self)
        ensures
            r.target() == (if !on {
                None
            } else if self.target() is Some {
                self.target()
            } else {
                Some("doi"@)
            }),
            r.inline() == self.inline(),
            r.file() == self.file(),
    {
        let ArxivSource { chain_to, override_dois, override_dois_file } = self;
        let chain_to = if !on {
            None
        } else {
            match chain_to {
                Some(p) => Some(p),
                None => Some("doi".to_owned()),
            }
        };
        ArxivSource { chain_to, override_dois, override_dois_file }
    }

    /// The source with DOIs chained to the prefix, or not at all.
    pub fn chain_dois_to(self, prefix: Option<&str>) -> (r: Self)
        ensures
            r.target() == (match prefix {
                Some(p) => Some(p@),
                None => None,
            }),
            r.inline() == self.inline(),
            r.file() == self.file(),
    {
        let chain_to = match prefix {
            Some(p) => Some(p.to_owned()),
            None => None,
        };
        ArxivSource {
            chain_to,
            override_dois: self.override_dois,
            override_dois_file: self.override_dois_file,
        }
    }

    /// The source with more overriding DOIs. They win over those of the file and over
    /// the feed's; later ones win over earlier ones.
    pub fn with_override_dois(self, more: Vec<(String, Option<String>)>) -> (r: Self)
        ensures
            r.inline() == with_dois(self.inline(), more@),
            r.target() == self.target(),
            r.file() == self.file(),
    {
        let ghost start = self.inline();
        let ArxivSource { chain_to, mut override_dois, override_dois_file } = self;
        let mut i: usize = 0;
        assert(more@.take(0) =~= Seq::empty());
        while i < more.len()
            invariant
                i <= more@.len(),
                doi_map(override_dois@) == with_dois(start, more@.take(i as int)),
            decreases more@.len() - i,
        {
            let ghost now = override_dois@;
            let doi = copy_opt(&more[i].1);
            override_dois.insert(more[i].0.clone(), doi);
            proof {
                assert(more@.take(i + 1).drop_last() =~= more@.take(i as int));
                assert(more@.take(i + 1).last() == more@[i as int]);
                assert(doi_map(override_dois@) =~= doi_map(now).insert(
                    more@[i as int].0@,
                    opt_view(more@[i as int].1),
                ));
            }
            i += 1;
        }
        assert(more@.take(i as int) =~= more@);
        ArxivSource { chain_to, override_dois, override_dois_file }
    }

    /// The source with a JSON file of overriding DOIs.
    pub fn with_override_dois_file(self, url: &str) -> (r: Self)
        ensures
            r.file() == Some(url@),
            r.inline() == self.inline(),
            r.target() == self.target(),
    {
        ArxivSource {
            chain_to: self.chain_to,
            override_dois: self.override_dois,
            override_dois_file: Some(url.to_owned()),
        }
    }

    /// The file of overriding DOIs that has to be fetched before a chunk, if there is
    /// one.
    pub fn override_file(&self) -> (r: Option<&String>)
        ensures
            match r {
                Some(url) => self.file() == Some(url@),
                None => self.file() is None,
            },
    {
        match &self.override_dois_file {
            Some(url) => Some(url),
            None => None,
        }
    }
}

/// Whether a value of an override file is what it must be.
pub open spec fn is_override(j: Json) -> bool {
    j is Text || j is Null
}

/// A value of an override file as a DOI.
pub open spec fn as_override(j: Json) -> Option<Seq<char>> {
    match j {
        Json::Text(s) => Some(s),
        _ => None,
    }
}

/// The first id, in order, whose value in an override file is not what it must be.
pub open spec fn first_fault(m: Map<Seq<char>, Json>, id: Seq<char>) -> bool {
    &&& m.contains_key(id)
    &&& !is_override(m[id])
    &&& forall|k: Seq<char>| #[trigger]
        m.contains_key(k) && !is_override(m[k]) && k != id ==> before(id, k)
}

/// The values of an override file as DOIs.
pub open spec fn as_overrides(m: Map<Seq<char>, Json>) -> Map<Seq<char>, Option<Seq<char>>> {
    m.map_values(|j: Json| as_override(j))
}

/// The complaint about an entry of an override file.
pub open spec fn fault_text(id: Seq<char>) -> Seq<char> {
    "arXiv DOI-override entry `"@ + id + "` must be a string or null"@
}

/// Whether a text complains about the first entry of an override file that is not what
/// it must be.
pub open spec fn names_fault(m: Map<Seq<char>, Json>, text: Seq<char>) -> bool {
    exists|id: Seq<char>| #[trigger] first_fault(m, id) && text == fault_text(id)
}

/// Whether this is what an override file comes to, given the reply to its request: its
/// DOIs, or why it cannot be used.
pub open spec fn file_gives(
    reply: Result<Response, FetchError>,
    r: Result<Map<Seq<char>, Option<Seq<char>>>, Seq<char>>,
) -> bool {
    match reply {
        Err(e) => r == Err::<Map<Seq<char>, Option<Seq<char>>>, Seq<char>>(
            "arXiv DOI-override file fetch failed: "@ + fetch_error_text(e@),
        ),
        Ok(resp) => if !(200 <= resp.status < 300) {
            r == Err::<Map<Seq<char>, Option<Seq<char>>>, Seq<char>>(
                "arXiv DOI-override file returned status "@ + decimal(resp.status as nat),
            )
        } else {
            match parsed_meaning(json_parsed(resp.body@)) {
                Err(e) => r == Err::<Map<Seq<char>, Option<Seq<char>>>, Seq<char>>(
                    "arXiv DOI-override file is not valid JSON: "@ + e,
                ),
                Ok(Json::Object(m)) => match r {
                    Ok(dois) => {
                        &&& forall|k: Seq<char>| #[trigger] m.contains_key(k) ==> is_override(m[k])
                        &&& dois == as_overrides(m)
                    },
                    Err(e) => names_fault(m, e),
                },
                Ok(_) => r == Err::<Map<Seq<char>, Option<Seq<char>>>, Seq<char>>(
                    "arXiv DOI-override file is not a JSON object"@,
                ),
            }
        },
    }
}

/// What an override file comes to, by its meaning.
pub open spec fn dois_view(r: Result<TextMap<Option<String>>, String>) -> Result<
    Map<Seq<char>, Option<Seq<char>>>,
    Seq<char>,
> {
    match r {
        Ok(m) => Ok(doi_map(m@)),
        Err(e) => Err(e@),
    }
}

/// Reads an override file, given the reply to its request.
pub fn load_override_file(reply: Result<Response, FetchError>) -> (r: Result<
    TextMap<Option<String>>,
    String,
>)
    ensures
        file_gives(reply, dois_view(r)),
{
    broadcast use group_csl;

    let resp = match reply {
        Ok(resp) => resp,
        Err(e) => {
            return Err(
                "arXiv DOI-override file fetch failed: ".to_owned().concat(e.message().as_str()),
            );
        },
    };
    if !resp.is_success() {
        let n = decimal_text(resp.status as u64);
        return Err("arXiv DOI-override file returned status ".to_owned().concat(n.as_str()));
    }
    let value = match read_json(resp.body.as_slice()) {
        Ok(v) => v,
        Err(e) => {
            return Err(
                "arXiv DOI-override file is not valid JSON: ".to_owned().concat(e.as_str()),
            );
        },
    };
    let m = match value.as_object() {
        Some(m) => m,
        None => {
            return Err("arXiv DOI-override file is not a JSON object".to_owned());
        },
    };
    let ghost members = json_map(m@);
    let ghost p = m.pairs();
    let n: usize = m.len();
    let mut out: TextMap<Option<String>> = TextMap::new();
    let mut i: usize = 0;
    proof {
        assert(p.take(0) =~= Seq::empty());
        assert(doi_map(out@) =~= as_overrides(json_map(map_of(p.take(0)))));
    }
    while i < n
        invariant
            i <= n == p.len(),
            p == m.pairs(),
            ordered(p),
            members == json_map(m@),
            m@ == map_of(p),
            value@ == Json::Object(members),
            Ok::<Json, Seq<char>>(value@) == parsed_meaning(json_parsed(resp.body@)),
            reply == Ok::<Response, FetchError>(resp),
            200 <= resp.status < 300,
            forall|k: int| 0 <= k < i ==> is_override((#[trigger] p[k]).1@),
            doi_map(out@) == as_overrides(json_map(map_of(p.take(i as int)))),
        decreases n - i,
    {
        let k = m.key_at(i);
        let v = m.value_at(i);
        let doi = match v {
            CslValue::String(s) => Some(s.clone()),
            CslValue::Null => None,
            _ => {
                proof {
                    let id = p[i as int].0;
                    lemma_map_of_at(p, i as int);
                    assert(members[id] == v@);
                    crate::csl::lemma_view(*v);
                    crate::csl::lemma_leaf(*v);
                    assert(!is_override(v@));
                    assert forall|x: Seq<char>| #[trigger]
                        members.contains_key(x) && !is_override(members[x]) && x
                            != id implies before(id, x) by {
                        lemma_map_of_dom(p, x);
                        let a = choose|a: int| 0 <= a < p.len() && (#[trigger] p[a]).0 == x;
                        lemma_map_of_at(p, a);
                        assert(members[x] == p[a].1@);
                        if a < i {
                            assert(is_override(p[a].1@));
                        }
                        assert(before(p[i as int].0, p[a].0));
                    }
                    assert(first_fault(members, id));
                }
                let m = joined(
                    "arXiv DOI-override entry `",
                    k.as_str(),
                    "` must be a string or null",
                );
                assert(first_fault(members, k@) && m@ == fault_text(k@));
                assert(names_fault(members, m@));
                return Err(m);
            },
        };
        let ghost now = out@;
        out.insert(k.clone(), doi);
        proof {
            let a = map_of(p.take(i as int));
            assert(p.take(i + 1).drop_last() =~= p.take(i as int));
            assert(p.take(i + 1).last() == p[i as int]);
            crate::csl::lemma_json_map_insert(a, p[i as int].0, p[i as int].1);
            assert(doi_map(out@) =~= doi_map(now).insert(k@, opt_view(doi)));
            crate::csl::lemma_view(*v);
            assert(opt_view(doi) == as_override(v@));
            assert(as_overrides(json_map(map_of(p.take(i + 1)))) =~= as_overrides(
                json_map(a),
            ).insert(k@, as_override(v@)));
        }
        i += 1;
    }
    proof {
        assert(p.take(i as int) =~= p);
        assert forall|x: Seq<char>| #[trigger] members.contains_key(x) implies is_override(
            members[x],
        ) by {
            lemma_map_of_dom(p, x);
            let a = choose|a: int| 0 <= a < p.len() && (#[trigger] p[a]).0 == x;
            lemma_map_of_at(p, a);
        }
    }
    Ok(out)
}

/// Whether these are the overriding DOIs that count, or why there are none: those of
/// the file, if there is one, with those given directly laid over them.
pub open spec fn overrides_give(
    inline: Map<Seq<char>, Option<Seq<char>>>,
    reply: Option<Result<Response, FetchError>>,
    r: Result<Map<Seq<char>, Option<Seq<char>>>, Seq<char>>,
) -> bool {
    match reply {
        None => r == Ok::<Map<Seq<char>, Option<Seq<char>>>, Seq<char>>(inline),
        Some(reply) => match r {
            Ok(m) => exists|f: Map<Seq<char>, Option<Seq<char>>>|
                {
                    &&& #[trigger] file_gives(reply, Ok(f))
                    &&& m == f.union_prefer_right(inline)
                },
            Err(e) => file_gives(reply, Err(e)),
        },
    }
}

impl ArxivSource {
    /// The overriding DOIs that count, given the reply to the file's request if there
    /// is a file.
    pub fn overrides(&self, reply: Option<Result<Response, FetchError>>) -> (r: Result<
        TextMap<Option<String>>,
        String,
    >)
        ensures
            overrides_give(self.inline(), reply, dois_view(r)),
    {
        let ghost mut base = Map::<Seq<char>, Option<Seq<char>>>::empty();
        let mut out: TextMap<Option<String>> = match reply {
            Some(reply) => match load_override_file(reply) {
                Ok(m) => {
                    proof {
                        base = doi_map(m@);
                    }
                    m
                },
                Err(e) => {
                    return Err(e);
                },
            },
            None => TextMap::new(),
        };
        assert(doi_map(out@) =~= base);
        let ghost p = self.override_dois.pairs();
        let n: usize = self.override_dois.len();
        let mut i: usize = 0;
        proof {
            assert(p.take(0) =~= Seq::empty());
            assert(base.union_prefer_right(doi_map(map_of(p.take(0)))) =~= base);
        }
        while i < n
            invariant
                i <= n == p.len(),
                p == self.override_dois.pairs(),
                doi_map(out@) == base.union_prefer_right(doi_map(map_of(p.take(i as int)))),
            decreases n - i,
        {
            let ghost now = out@;
            let ghost a = map_of(p.take(i as int));
            let doi = copy_opt(self.override_dois.value_at(i));
            out.insert(self.override_dois.key_at(i).clone(), doi);
            proof {
                let k = p[i as int].0;
                assert(p.take(i + 1).drop_last() =~= p.take(i as int));
                assert(p.take(i + 1).last() == p[i as int]);
                assert(doi_map(out@) =~= doi_map(now).insert(k, opt_view(p[i as int].1)));
                assert(doi_map(map_of(p.take(i + 1))) =~= doi_map(a).insert(
                    k,
                    opt_view(p[i as int].1),
                ));
                assert(doi_map(out@) =~= base.union_prefer_right(doi_map(map_of(p.take(i + 1)))));
            }
            i += 1;
        }
        proof {
            assert(p.take(i as int) =~= p);
            if reply is None {
                assert(base.union_prefer_right(self.inline()) =~= self.inline());
            } else {
                assert(file_gives(reply->Some_0, Ok(base)));
            }
        }
        Ok(out)
    }
}

/// Ids for a URL, with commas between them.
pub open spec fn id_list(keys: Seq<Seq<char>>) -> Seq<char>
    decreases keys.len(),
{
    if keys.len() == 0 {
        Seq::empty()
    } else if keys.len() == 1 {
        url_text(keys[0], false)
    } else {
        id_list(keys.drop_last()) + seq![','] + url_text(keys.last(), false)
    }
}

/// The URL that ids are asked for at.
pub open spec fn query_url(keys: Seq<Seq<char>>) -> Seq<char> {
    "https://export.arxiv.org/api/query?id_list="@ + id_list(keys) + "&max_results="@ + decimal(
        keys.len(),
    )
}

/// The part of a date before the time of day.
pub open spec fn day_of(s: Seq<char>) -> Seq<char>
    decreases s.len(),
{
    if s.len() == 0 || s[0] == 'T' || s[0] == 't' || s[0] == ' ' {
        Seq::empty()
    } else {
        seq![s[0]] + day_of(s.skip(1))
    }
}

/// The number that a part of a date is.
pub open spec fn date_number(s: Seq<char>) -> Option<int> {
    parse_signed(trim(s))
}

/// Year, month and day of a date, as far as they are there.
pub open spec fn date_parts(parts: Seq<Seq<char>>) -> Option<Seq<int>> {
    match date_number(parts[0]) {
        None => None,
        Some(year) => if parts.len() < 2 || date_number(parts[1]) is None {
            Some(seq![year])
        } else if parts.len() < 3 || date_number(parts[2]) is None {
            Some(seq![year, date_number(parts[1])->Some_0])
        } else {
            Some(seq![year, date_number(parts[1])->Some_0, date_number(parts[2])->Some_0])
        },
    }
}

/// Integers as JSON.
pub open spec fn json_numbers(n: Seq<int>) -> Seq<Json> {
    n.map_values(|i: int| Json::Number(signed_decimal(i)))
}

/// A date as CSL-JSON has it.
pub open spec fn issued(date: Option<Seq<char>>) -> Option<Json> {
    match date {
        None => None,
        Some(d) => match date_parts(split(day_of(d), '-')) {
            None => None,
            Some(n) => Some(
                Json::Object(
                    Map::empty().insert(
                        "date-parts"@,
                        Json::Array(seq![Json::Array(json_numbers(n))]),
                    ),
                ),
            ),
        },
    }
}

/// An author as CSL-JSON has it: the last word is the family name, and what stands
/// before it the given name.
pub open spec fn author(name: Seq<char>) -> Json {
    let w = words(name);
    if w.len() == 0 {
        Json::Object(Map::empty())
    } else if w.len() == 1 {
        Json::Object(Map::empty().insert("family"@, Json::Text(w.last())))
    } else {
        Json::Object(
            Map::empty().insert("family"@, Json::Text(w.last())).insert(
                "given"@,
                Json::Text(spaced(w.drop_last())),
            ),
        )
    }
}

/// Members with one more, if there is one.
pub open spec fn with_some(
    m: Map<Seq<char>, Json>,
    name: Seq<char>,
    value: Option<Json>,
) -> Map<Seq<char>, Json> {
    match value {
        Some(v) => m.insert(name, v),
        None => m,
    }
}

/// A text that may be absent, as JSON.
pub open spec fn opt_json(s: Option<Seq<char>>) -> Option<Json> {
    match s {
        Some(t) => Some(Json::Text(t)),
        None => None,
    }
}

/// A text in small letters, if there is one.
pub open spec fn opt_lower(s: Option<Seq<char>>) -> Option<Seq<char>> {
    match s {
        Some(t) => Some(lower(t)),
        None => None,
    }
}

/// When an entry appeared: when its last revision did, or else its first.
pub open spec fn date_of(e: EntryView) -> Option<Seq<char>> {
    match e.updated {
        Some(d) => Some(d),
        None => e.published,
    }
}

/// The item of an entry with the DOI that counts.
pub open spec fn item_of(e: EntryView, doi: Option<Seq<char>>) -> Json {
    let m = Map::empty().insert("type"@, Json::Text("article-journal"@));
    let m = with_some(m, "title"@, opt_json(e.title));
    let m = m.insert("author"@, Json::Array(e.authors.map_values(|n: Seq<char>| author(n))));
    let m = with_some(m, "issued"@, issued(date_of(e)));
    let m = with_some(m, "doi"@, opt_json(opt_lower(doi)));
    let m = m.insert("arxivid"@, Json::Text(e.arxivid));
    let m = m.insert(
        "arxiv_version_number"@,
        match e.version {
            Some(n) => Json::Number(signed_decimal(n as int)),
            None => Json::Null,
        },
    );
    Json::Object(m)
}

/// The DOI that counts for a paper: an override before the feed's, and none where it
/// is blank.
pub open spec fn effective_doi(
    overrides: Map<Seq<char>, Option<Seq<char>>>,
    base: Seq<char>,
    feed: Option<Seq<char>>,
) -> Option<Seq<char>> {
    let doi = if overrides.contains_key(base) {
        overrides[base]
    } else {
        feed
    };
    match doi {
        Some(d) => if trim(d).len() > 0 {
            Some(d)
        } else {
            None
        },
        None => None,
    }
}

/// The first entry with the id and the version.
pub open spec fn exact(entries: Seq<EntryView>, base: Seq<char>, version: nat) -> Option<EntryView>
    decreases entries.len(),
{
    if entries.len() == 0 {
        None
    } else if entries[0].arxivid == base && entries[0].version == Some(version) {
        Some(entries[0])
    } else {
        exact(entries.skip(1), base, version)
    }
}

/// The better one of two entries for an id, `e` standing behind `b` in the feed: one
/// without a version is better than one with a version, of two without a version the
/// first is better, and of two with a version the one with the higher version, or the
/// second.
pub open spec fn better(b: EntryView, e: EntryView) -> EntryView {
    match (b.version, e.version) {
        (None, _) => b,
        (_, None) => e,
        (Some(x), Some(y)) => if y >= x {
            e
        } else {
            b
        },
    }
}

/// The best entry for an id.
pub open spec fn best(entries: Seq<EntryView>, base: Seq<char>) -> Option<EntryView>
    decreases entries.len(),
{
    if entries.len() == 0 {
        None
    } else {
        let b = best(entries.drop_last(), base);
        let e = entries.last();
        if e.arxivid != base {
            b
        } else {
            match b {
                None => Some(e),
                Some(b) => Some(better(b, e)),
            }
        }
    }
}

/// The error of a key that the feed does not have.
pub open spec fn no_entry(key: Seq<char>) -> ErrorView {
    ErrorView::Source("no arXiv entry returned for `"@ + key + "`"@)
}

/// What a feed says of a key.
pub open spec fn arxiv_outcome(
    target: Option<Seq<char>>,
    overrides: Map<Seq<char>, Option<Seq<char>>>,
    entries: Seq<EntryView>,
    key: Seq<char>,
) -> OutcomeView {
    let (base, version) = without_version(key);
    match version {
        Some(v) => match exact(entries, base, v) {
            Some(e) => OutcomeView::Concrete {
                csl: item_of(e, effective_doi(overrides, base, e.doi)),
                ttl: None,
            },
            None => OutcomeView::Missing(no_entry(key)),
        },
        None => match best(entries, base) {
            Some(e) => {
                let doi = effective_doi(overrides, base, e.doi);
                match (target, doi) {
                    (Some(t), Some(d)) => OutcomeView::Chained {
                        prefix: t,
                        key: lower(d),
                        set_properties: Json::Object(
                            Map::empty().insert("arxivid"@, Json::Text(key)),
                        ),
                    },
                    _ => OutcomeView::Concrete { csl: item_of(e, doi), ttl: None },
                }
            },
            None => OutcomeView::Missing(no_entry(key)),
        },
    }
}

/// A JSON array of integers.
fn number_array(n: &Vec<i64>) -> (r: CslValue)
    ensures
        r@ == Json::Array(json_numbers(n@.map_values(|i: i64| i as int))),
{
    broadcast use group_csl;

    let mut out: Vec<CslValue> = Vec::new();
    let ghost all = json_numbers(n@.map_values(|i: i64| i as int));
    let mut i: usize = 0;
    while i < n.len()
        invariant
            i <= n@.len(),
            out@.len() == i,
            all == json_numbers(n@.map_values(|i: i64| i as int)),
            forall|k: int| 0 <= k < i ==> (#[trigger] out@[k])@ == all[k],
        decreases n@.len() - i,
    {
        let v = CslValue::Number(number_of(n[i]));
        proof {
            crate::csl::lemma_view(v);
        }
        out.push(v);
        i += 1;
    }
    let r = CslValue::Array(out);
    proof {
        crate::csl::lemma_view(r);
        assert(json_seq(out@) =~= all);
    }
    r
}

/// Where the time of day begins in a date.
fn day_end(v: &Vec<char>) -> (r: usize)
    ensures
        r <= v@.len(),
        v@.take(r as int) == day_of(v@),
{
    let n: usize = v.len();
    let mut i: usize = 0;
    proof {
        assert(v@.skip(0) =~= v@);
        assert(v@.take(0) + day_of(v@) =~= day_of(v@));
    }
    while i < n && v[i] != 'T' && v[i] != 't' && v[i] != ' '
        invariant
            i <= n == v@.len(),
            v@.take(i as int) + day_of(v@.skip(i as int)) == day_of(v@),
        decreases n - i,
    {
        proof {
            let rest = v@.skip(i as int);
            assert(rest[0] == v@[i as int]);
            assert(rest.skip(1) =~= v@.skip(i + 1));
            assert(v@.take(i + 1) + day_of(v@.skip(i + 1)) =~= v@.take(i as int) + (seq![rest[0]]
                + day_of(rest.skip(1))));
        }
        i += 1;
    }
    proof {
        let rest = v@.skip(i as int);
        if i < n {
            assert(rest[0] == v@[i as int]);
        }
        assert(day_of(rest) =~= Seq::empty());
        assert(v@.take(i as int) + Seq::<char>::empty() =~= v@.take(i as int));
    }
    i
}

fn part_number(s: &String) -> (r: Option<i64>)
    ensures
        r == (match date_number(s@) {
            Some(n) => Some(n as i64),
            None => None,
        }),
        r matches Some(n) ==> date_number(s@) == Some(n as int),
{
    let t = trimmed(s.as_str());
    signed(t.as_str())
}

/// A date as CSL-JSON has it; the month and the day only if they are there.
fn build_issued(date: &Option<String>) -> (r: Option<CslValue>)
    ensures
        match r {
            Some(v) => issued(opt_view(*date)) == Some(v@),
            None => issued(opt_view(*date)) is None,
        },
{
    broadcast use group_csl;

    let d = match date {
        Some(d) => d,
        None => {
            return None;
        },
    };
    let v = chars_of(d.as_str());
    let end: usize = day_end(&v);
    let parts = pieces(&v, end, '-');
    let ghost p = parts@.map_values(|t: String| t@);
    proof {
        assert(p == split(day_of(d@), '-'));
        crate::lines::lemma_split_some(day_of(d@), '-');
        assert(p.len() == parts@.len());
    }
    assert(p[0] == parts@[0]@);
    let year: i64 = match part_number(&parts[0]) {
        Some(n) => n,
        None => {
            return None;
        },
    };
    let mut numbers: Vec<i64> = Vec::new();
    numbers.push(year);
    if parts.len() > 1 {
        assert(p[1] == parts@[1]@);
        if let Some(month) = part_number(&parts[1]) {
            numbers.push(month);
            if parts.len() > 2 {
                assert(p[2] == parts@[2]@);
                if let Some(day) = part_number(&parts[2]) {
                    numbers.push(day);
                }
            }
        }
    }
    assert(date_parts(p) == Some(numbers@.map_values(|i: i64| i as int))) by {
        assert(numbers@.map_values(|i: i64| i as int) =~= date_parts(p)->Some_0);
    }
    let inner = number_array(&numbers);
    let mut list: Vec<CslValue> = Vec::new();
    list.push(inner);
    let outer = CslValue::Array(list);
    proof {
        crate::csl::lemma_view(outer);
        assert(json_seq(list@) =~= seq![inner@]);
    }
    let mut m: SortedMap<CslValue> = SortedMap::new();
    m.insert("date-parts".to_owned(), outer);
    let r = CslValue::Object(m);
    assert(r@ == Json::Object(Map::empty().insert("date-parts"@, outer@)));
    Some(r)
}

/// An author as CSL-JSON has it.
fn build_author(name: &str) -> (r: CslValue)
    ensures
        r@ == author(name@),
{
    broadcast use group_csl;

    let w = words_of(name);
    let n: usize = w.len();
    let ghost all = w@.map_values(|t: String| t@);
    let mut m: SortedMap<CslValue> = SortedMap::new();
    if n > 0 {
        assert(all.last() == w@[n - 1]@);
        m.insert("family".to_owned(), CslValue::String(w[n - 1].clone()));
        if n > 1 {
            assert(all.take(n - 1) =~= all.drop_last());
            m.insert("given".to_owned(), CslValue::String(spaced_text(&w, n - 1)));
        }
    }
    CslValue::Object(m)
}

/// Authors as CSL-JSON has them.
fn build_authors(names: &Vec<String>) -> (r: CslValue)
    ensures
        r@ == Json::Array(texts(names@).map_values(|n: Seq<char>| author(n))),
{
    let ghost all = texts(names@).map_values(|n: Seq<char>| author(n));
    let mut out: Vec<CslValue> = Vec::new();
    let mut i: usize = 0;
    while i < names.len()
        invariant
            i <= names@.len(),
            out@.len() == i,
            all == texts(names@).map_values(|n: Seq<char>| author(n)),
            forall|k: int| 0 <= k < i ==> (#[trigger] out@[k])@ == all[k],
        decreases names@.len() - i,
    {
        out.push(build_author(names[i].as_str()));
        i += 1;
    }
    let r = CslValue::Array(out);
    proof {
        crate::csl::lemma_view(r);
        assert(json_seq(out@) =~= all);
    }
    r
}

/// The item of an entry with the DOI that counts.
fn build_csl(e: &Entry, doi: &Option<String>) -> (r: CslValue)
    ensures
        r@ == item_of(e@, opt_view(*doi)),
{
    broadcast use group_csl;

    let mut m: SortedMap<CslValue> = SortedMap::new();
    m.insert("type".to_owned(), CslValue::String("article-journal".to_owned()));
    if let Some(title) = &e.title {
        m.insert("title".to_owned(), CslValue::String(title.clone()));
    }
    let authors = build_authors(&e.authors);
    m.insert("author".to_owned(), authors);
    let date = match &e.updated {
        Some(d) => Some(d.clone()),
        None => copy_opt(&e.published),
    };
    if let Some(v) = build_issued(&date) {
        m.insert("issued".to_owned(), v);
    }
    if let Some(d) = doi {
        m.insert("doi".to_owned(), CslValue::String(lowered(d.as_str())));
    }
    m.insert("arxivid".to_owned(), CslValue::String(e.arxivid.clone()));
    let number = match e.version {
        Some(n) => CslValue::Number(number_of(n as i64)),
        None => CslValue::Null,
    };
    m.insert("arxiv_version_number".to_owned(), number);
    CslValue::Object(m)
}

/// The DOI that counts for a paper.
fn doi_for(overrides: &TextMap<Option<String>>, base: &str, feed: &Option<String>) -> (r: Option<
    String,
>)
    ensures
        opt_view(r) == effective_doi(doi_map(overrides@), base@, opt_view(*feed)),
{
    let doi = match overrides.get(base) {
        Some(d) => copy_opt(d),
        None => copy_opt(feed),
    };
    match doi {
        Some(d) => {
            let t = trimmed(d.as_str());
            if t.as_str().is_empty() {
                None
            } else {
                Some(d)
            }
        },
        None => None,
    }
}

/// The first entry with the id and the version.
fn select_exact<'a>(entries: &'a Vec<Entry>, base: &str, version: u32) -> (r: Option<&'a Entry>)
    ensures
        match r {
            Some(e) => exact(entry_views(entries@), base@, version as nat) == Some(e@),
            None => exact(entry_views(entries@), base@, version as nat) is None,
        },
{
    let ghost all = entry_views(entries@);
    let mut i: usize = 0;
    assert(all.skip(0) =~= all);
    while i < entries.len()
        invariant
            i <= entries@.len(),
            all == entry_views(entries@),
            exact(all, base@, version as nat) == exact(all.skip(i as int), base@, version as nat),
        decreases entries@.len() - i,
    {
        let e = &entries[i];
        assert(all.skip(i as int)[0] == e@);
        assert(all.skip(i as int).skip(1) =~= all.skip(i + 1));
        if let Some(v) = e.version {
            if v == version && same(e.arxivid.as_str(), base) {
                return Some(e);
            }
        }
        i += 1;
    }
    None
}

/// The best entry for an id.
fn select_best<'a>(entries: &'a Vec<Entry>, base: &str) -> (r: Option<&'a Entry>)
    ensures
        match r {
            Some(e) => best(entry_views(entries@), base@) == Some(e@),
            None => best(entry_views(entries@), base@) is None,
        },
{
    let ghost all = entry_views(entries@);
    let mut found: Option<&'a Entry> = None;
    let mut i: usize = 0;
    assert(all.take(0) =~= Seq::empty());
    while i < entries.len()
        invariant
            i <= entries@.len(),
            all == entry_views(entries@),
            match found {
                Some(e) => best(all.take(i as int), base@) == Some(e@),
                None => best(all.take(i as int), base@) is None,
            },
        decreases entries@.len() - i,
    {
        let e = &entries[i];
        proof {
            assert(all.take(i + 1).drop_last() =~= all.take(i as int));
            assert(all.take(i + 1).last() == e@);
        }
        if same(e.arxivid.as_str(), base) {
            found = match found {
                None => Some(e),
                Some(b) => match (b.version, e.version) {
                    (None, _) => Some(b),
                    (_, None) => Some(e),
                    (Some(x), Some(y)) => {
                        if y >= x {
                            Some(e)
                        } else {
                            Some(b)
                        }
                    },
                },
            };
        }
        i += 1;
    }
    assert(all.take(i as int) =~= all);
    found
}

impl ArxivSource {
    /// The request for a chunk of ids.
    pub fn request(&self, keys: &Vec<String>) -> (r: Request)
        ensures
            r.url@ == query_url(texts(keys@)),
            r.method == Method::Get,
            text_map(r.headers@) == Map::<Seq<char>, Seq<char>>::empty(),
            r.body is None,
    {
        let ghost all = texts(keys@);
        let mut list = String::new();
        let mut i: usize = 0;
        proof {
            assert(all.take(0) =~= Seq::empty());
            assert(list@ =~= id_list(all.take(0)));
        }
        while i < keys.len()
            invariant
                i <= keys@.len(),
                all == texts(keys@),
                list@ == id_list(all.take(i as int)),
            decreases keys@.len() - i,
        {
            let ghost before = list@;
            if i > 0 {
                list.push(',');
            }
            let id = percent_encode(keys[i].as_str(), false);
            list.append(id.as_str());
            proof {
                let t = all.take(i + 1);
                assert(t.drop_last() =~= all.take(i as int));
                assert(t.last() == keys@[i as int]@);
                if i > 0 {
                    assert(list@ =~= before + seq![','] + id@);
                } else {
                    assert(list@ =~= id@);
                }
            }
            i += 1;
        }
        assert(all.take(i as int) =~= all);
        let n = decimal_text(keys.len() as u64);
        let url = joined(
            "https://export.arxiv.org/api/query?id_list=",
            list.as_str(),
            "&max_results=",
        ).concat(n.as_str());
        Request::get(url.as_str())
    }

    /// What a feed's entries say of a key.
    pub fn resolve_key(
        &self,
        overrides: &TextMap<Option<String>>,
        key: &str,
        entries: &Vec<Entry>,
    ) -> (r: Resolution)
        ensures
            r@ == (ResolutionView {
                key: key@,
                outcome: arxiv_outcome(
                    self.target(),
                    doi_map(overrides@),
                    entry_views(entries@),
                    key@,
                ),
            }),
    {
        broadcast use group_csl;

        let (base, version) = split_version(key);
        if let Some(v) = version {
            return match select_exact(entries, base.as_str(), v) {
                Some(e) => {
                    let doi = doi_for(overrides, base.as_str(), &e.doi);
                    Resolution::concrete(key, build_csl(e, &doi))
                },
                None => Resolution::missing(
                    key,
                    Error::Source(joined("no arXiv entry returned for `", key, "`")),
                ),
            };
        }
        let e = match select_best(entries, base.as_str()) {
            Some(e) => e,
            None => {
                return Resolution::missing(
                    key,
                    Error::Source(joined("no arXiv entry returned for `", key, "`")),
                );
            },
        };
        let doi = doi_for(overrides, base.as_str(), &e.doi);
        if let Some(target) = &self.chain_to {
            if let Some(d) = &doi {
                let mut m: SortedMap<CslValue> = SortedMap::new();
                m.insert("arxivid".to_owned(), CslValue::String(key.to_owned()));
                let low = lowered(d.as_str());
                return Resolution::chained(
                    key,
                    target.as_str(),
                    low.as_str(),
                    CslValue::Object(m),
                );
            }
        }
        Resolution::concrete(key, build_csl(e, &doi))
    }

    /// What a feed's entries say of keys.
    pub fn resolve_keys(
        &self,
        overrides: &TextMap<Option<String>>,
        keys: &Vec<String>,
        entries: &Vec<Entry>,
    ) -> (r: Vec<Resolution>)
        ensures
            resolution_views(r@) == arxiv_resolutions(
                self.target(),
                doi_map(overrides@),
                entry_views(entries@),
                texts(keys@),
            ),
    {
        let ghost all = arxiv_resolutions(
            self.target(),
            doi_map(overrides@),
            entry_views(entries@),
            texts(keys@),
        );
        let mut out: Vec<Resolution> = Vec::new();
        let mut i: usize = 0;
        assert(resolution_views(out@) =~= all.take(0));
        while i < keys.len()
            invariant
                i <= keys@.len(),
                all == arxiv_resolutions(
                    self.target(),
                    doi_map(overrides@),
                    entry_views(entries@),
                    texts(keys@),
                ),
                resolution_views(out@) == all.take(i as int),
            decreases keys@.len() - i,
        {
            let ghost before = out@;
            let res = self.resolve_key(overrides, keys[i].as_str(), entries);
            out.push(res);
            assert(resolution_views(out@) =~= resolution_views(before).push(res@));
            i += 1;
            assert(all.take(i as int) =~= all.take(i - 1).push(all[i - 1]));
        }
        assert(all.take(i as int) =~= all);
        out
    }

    /// What a reply says of the keys of a chunk.
    pub fn retrieve_chunk(
        &self,
        overrides: &TextMap<Option<String>>,
        keys: &Vec<String>,
        reply: Result<Response, FetchError>,
    ) -> (r: Vec<Resolution>)
        ensures
            resolution_views(r@) == chunk_resolutions(
                self.target(),
                doi_map(overrides@),
                texts(keys@),
                reply,
            ),
    {
        let resp = match reply {
            Ok(resp) => resp,
            Err(e) => {
                let m = "arXiv fetch failed: ".to_owned().concat(e.message().as_str());
                return fail_all(keys, m.as_str());
            },
        };
        if !resp.is_success() {
            let n = decimal_text(resp.status as u64);
            let m = "arXiv API returned status ".to_owned().concat(n.as_str());
            return fail_all(keys, m.as_str());
        }
        let text = match resp.text() {
            Ok(t) => t,
            Err(_) => {
                return fail_all(keys, "arXiv response is not UTF-8");
            },
        };
        match parse_feed(text) {
            Ok(entries) => self.resolve_keys(overrides, keys, &entries),
            Err(m) => fail_all(keys, m.as_str()),
        }
    }
}

/// Keys with what a feed's entries say of them.
pub open spec fn arxiv_resolutions(
    target: Option<Seq<char>>,
    overrides: Map<Seq<char>, Option<Seq<char>>>,
    entries: Seq<EntryView>,
    keys: Seq<Seq<char>>,
) -> Seq<ResolutionView> {
    keys.map_values(
        |k: Seq<char>|
            ResolutionView { key: k, outcome: arxiv_outcome(target, overrides, entries, k) },
    )
}

/// Keys with what a reply says of them: all fail where the reply is no feed.
pub open spec fn chunk_resolutions(
    target: Option<Seq<char>>,
    overrides: Map<Seq<char>, Option<Seq<char>>>,
    keys: Seq<Seq<char>>,
    reply: Result<Response, FetchError>,
) -> Seq<ResolutionView> {
    match reply {
        Err(e) => all_failed(keys, "arXiv fetch failed: "@ + fetch_error_text(e@)),
        Ok(resp) => if !(200 <= resp.status < 300) {
            all_failed(keys, "arXiv API returned status "@ + decimal(resp.status as nat))
        } else if !valid_utf8(resp.body@) {
            all_failed(keys, "arXiv response is not UTF-8"@)
        } else {
            match xml_tokens(decode_utf8(resp.body@)) {
                Ok(tokens) => arxiv_resolutions(target, overrides, feed_entries(tokens), keys),
                Err(e) => all_failed(keys, "arXiv Atom XML parse error: "@ + e),
            }
        },
    }
}

impl Source for ArxivSource {
    open spec fn key_form(&self, key: Seq<char>) -> Seq<char> {
        trimmed_form(key)
    }

    fn normalize_key(&self, key: &str) -> (r: String) {
        proof {
            law_trimming_is_stable(key@);
        }
        trimmed(key)
    }

    fn chunk_size(&self) -> (r: usize)
        ensures
            r == 100,
    {
        100
    }

    fn min_interval(&self) -> (r: Duration)
        ensures
            duration_millis(r) == 3100,
    {
        Duration::from_millis(3100)
    }

    fn default_ttl(&self) -> (r: Duration)
        ensures
            duration_nanos(r) == 10 * 24 * 60 * 60 * 1_000_000_000,
    {
        Duration::from_secs(10 * 24 * 60 * 60)
    }

    fn chains_to(&self) -> (r: Vec<String>)
        ensures
            texts(r@) == (match self.target() {
                Some(p) => seq![p],
                None => Seq::empty(),
            }),
    {
        let mut out: Vec<String> = Vec::new();
        if let Some(p) = &self.chain_to {
            out.push(p.clone());
        }
        assert(texts(out@) =~= (match self.target() {
            Some(p) => seq![p],
            None => Seq::empty(),
        }));
        out
    }
}

/// A key with a version is never a pointer, and what it gets has that very version.
pub proof fn law_a_version_is_kept(
    target: Option<Seq<char>>,
    overrides: Map<Seq<char>, Option<Seq<char>>>,
    entries: Seq<EntryView>,
    key: Seq<char>,
)
    requires
        without_version(key).1 is Some,
    ensures
        match arxiv_outcome(target, overrides, entries, key) {
            OutcomeView::Concrete { csl, .. } => {
                let (base, version) = without_version(key);
                &&& fields(csl)["arxivid"@] == Json::Text(base)
                &&& fields(csl)["arxiv_version_number"@] == Json::Number(
                    signed_decimal(version->Some_0 as int),
                )
            },
            OutcomeView::Missing(_) => true,
            _ => false,
        },
{
    let (base, version) = without_version(key);
    lemma_exact(entries, base, version->Some_0);
    reveal_strlit("arxivid");
    reveal_strlit("arxiv_version_number");
    assert("arxivid"@.len() != "arxiv_version_number"@.len());
}

proof fn lemma_exact(entries: Seq<EntryView>, base: Seq<char>, version: nat)
    ensures
        exact(entries, base, version) matches Some(e) ==> e.arxivid == base && e.version == Some(
            version,
        ),
    decreases entries.len(),
{
    if entries.len() > 0 {
        lemma_exact(entries.skip(1), base, version);
    }
}

/// The entry that a key without a version gets: one of the feed for that id, without a
/// version if there is such a one, and otherwise with the highest version there is.
pub proof fn law_the_best_entry_is_taken(entries: Seq<EntryView>, base: Seq<char>)
    ensures
        match best(entries, base) {
            Some(b) => {
                &&& entries.contains(b)
                &&& b.arxivid == base
                &&& b.version is Some ==> forall|i: int|
                    0 <= i < entries.len() && (#[trigger] entries[i]).arxivid == base ==> {
                        &&& entries[i].version is Some
                        &&& entries[i].version->Some_0 <= b.version->Some_0
                    }
            },
            None => forall|i: int|
                0 <= i < entries.len() ==> (#[trigger] entries[i]).arxivid != base,
        },
    decreases entries.len(),
{
    if entries.len() > 0 {
        let front = entries.drop_last();
        let n = entries.len() - 1;
        let e = entries.last();
        law_the_best_entry_is_taken(front, base);
        match best(entries, base) {
            Some(b) => {
                assert(entries.contains(b)) by {
                    if b == e {
                        assert(entries[n] == b);
                    } else {
                        let k = choose|k: int| 0 <= k < front.len() && front[k] == b;
                        assert(entries[k] == b);
                    }
                }
                assert forall|i: int|
                    b.version is Some && 0 <= i < entries.len() && (
                    #[trigger] entries[i]).arxivid == base implies {
                    &&& entries[i].version is Some
                    &&& entries[i].version->Some_0 <= b.version->Some_0
                } by {
                    if i < n {
                        assert(front[i] == entries[i]);
                    }
                }
            },
            None => {
                assert forall|i: int| 0 <= i < entries.len() implies (#[trigger] entries[i]).arxivid
                    != base by {
                    if i < n {
                        assert(front[i] == entries[i]);
                    }
                }
            },
        }
    }
}

/// A blank DOI is no DOI: no key is chained to one, whether it comes from the feed or
/// from an override.
pub proof fn law_no_pointer_to_a_blank_doi(
    target: Option<Seq<char>>,
    overrides: Map<Seq<char>, Option<Seq<char>>>,
    entries: Seq<EntryView>,
    key: Seq<char>,
)
    ensures
        arxiv_outcome(target, overrides, entries, key) matches OutcomeView::Chained { key: k, .. }
            ==> k.len() > 0,
{
    let (base, version) = without_version(key);
    if let OutcomeView::Chained { key: k, .. } = arxiv_outcome(target, overrides, entries, key) {
        let e = best(entries, base)->Some_0;
        let d = effective_doi(overrides, base, e.doi)->Some_0;
        if d.len() == 0 {
            crate::text::lemma_trim_start(d, 0);
            assert(d.skip(0) =~= d);
            crate::text::lemma_trim_end(d, 0);
            assert(d.take(0) =~= d);
            assert(trim(d).len() == 0);
        }
    }
}

/// An override decides, whatever the feed says of the DOI.
pub proof fn law_overrides_win(
    overrides: Map<Seq<char>, Option<Seq<char>>>,
    base: Seq<char>,
    a: Option<Seq<char>>,
    b: Option<Seq<char>>,
)
    requires
        overrides.contains_key(base),
    ensures
        effective_doi(overrides, base, a) == effective_doi(overrides, base, b),
        overrides[base] is None ==> effective_doi(overrides, base, a) is None,
{
}

} // verus!
