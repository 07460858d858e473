//! The `doi` source: content negotiation at doi.org.
//!
//! Asked for CSL-JSON, doi.org answers with the item itself, which is stored as it
//! is but for one field: what CSL-JSON calls `DOI` is called `doi` here, in small
//! letters, as in the items of other sources. One DOI goes into one request.

use crate::csl::{cite_id, fields, group_csl, id_of, json_map, CslValue, Json};
use crate::env::{duration_millis, duration_nanos};
use crate::error::{joined, Error, ErrorView};
use crate::fetch::{text_map, FetchError, Method, Request, Response};
use crate::json::{json_parsed, parsed_meaning, read_json};
use crate::source::{
    folded_form, folded_key, law_folding_is_stable, OutcomeView, Resolution, ResolutionView,
    Source,
};
use crate::text::{chars_of, decimal, decimal_text, is_white, lower, lowered, white};
use crate::urls::{percent_encode, url_text};
use core::time::Duration;
use vstd::prelude::*;
use vstd::string::*;

verus! {

/// Serves DOIs.
pub struct DoiSource;

/// Whether a text holds white space.
pub open spec fn has_white(s: Seq<char>) -> bool {
    exists|i: int| 0 <= i < s.len() && is_white(#[trigger] s[i])
}

/// Why a key is no DOI that could be asked for.
pub open spec fn doi_fault(doi: Seq<char>) -> Option<ErrorView> {
    if doi.len() == 0 {
        Some(ErrorView::Source("empty DOI"@))
    } else if has_white(doi) {
        Some(ErrorView::Source("DOI `"@ + doi + "` contains whitespace"@))
    } else {
        None
    }
}

/// The URL that a DOI is asked for at.
pub open spec fn doi_url(doi: Seq<char>) -> Seq<char> {
    "https://doi.org/"@ + url_text(doi, true)
}

/// Whether a value can be an item: an object with members.
pub open spec fn is_item(j: Json) -> bool {
    j is Object && exists|k: Seq<char>| #[trigger] fields(j).contains_key(k)
}

/// A DOI as it is kept, small letters if it is a text.
pub open spec fn doi_value(j: Json) -> Json {
    match j {
        Json::Text(s) => Json::Text(lower(s)),
        _ => j,
    }
}

/// The members of an item with its DOI under `doi`. Where there are both spellings,
/// the small one is kept.
pub open spec fn with_small_doi(m: Map<Seq<char>, Json>) -> Map<Seq<char>, Json> {
    let rest = m.remove("DOI"@);
    if m.contains_key("doi"@) {
        rest.insert("doi"@, doi_value(m["doi"@]))
    } else if m.contains_key("DOI"@) {
        rest.insert("doi"@, doi_value(m["DOI"@]))
    } else {
        rest
    }
}

/// What a reply says of a DOI: an item; that there is no such DOI, where the status
/// is 404; otherwise nothing that could be used now.
pub open spec fn doi_outcome(
    prefix: Seq<char>,
    doi: Seq<char>,
    reply: Result<Response, FetchError>,
) -> OutcomeView {
    match reply {
        Ok(resp) => if 200 <= resp.status < 300 {
            match parsed_meaning(json_parsed(resp.body@)) {
                Ok(item) => if is_item(item) {
                    OutcomeView::Concrete {
                        csl: Json::Object(with_small_doi(fields(item))),
                        ttl: None,
                    }
                } else {
                    OutcomeView::Failed(
                        ErrorView::Parse(
                            "doi.org returned 200 but the body is not a non-empty JSON object"@,
                        ),
                    )
                },
                Err(e) => OutcomeView::Failed(ErrorView::Parse(e)),
            }
        } else if resp.status == 404 {
            OutcomeView::Missing(ErrorView::NotFound(id_of(prefix, doi)))
        } else {
            OutcomeView::Failed(
                ErrorView::Source("doi.org returned status "@ + decimal(resp.status as nat)),
            )
        },
        Err(e) => OutcomeView::Failed(ErrorView::Fetch(e@)),
    }
}

fn contains_white(s: &str) -> (r: bool)
    ensures
        r == has_white(s@),
{
    let v = chars_of(s);
    let mut i: usize = 0;
    while i < v.len()
        invariant
            i <= v@.len(),
            v@ == s@,
            forall|k: int| 0 <= k < i ==> !is_white(#[trigger] v@[k]),
        decreases v@.len() - i,
    {
        if white(v[i]) {
            assert(is_white(s@[i as int]));
            return true;
        }
        i += 1;
    }
    false
}

/// Moves the DOI of an item to `doi`, in small letters. A value that is no object
/// stays as it is.
pub fn normalize_doi_key(csl: &mut CslValue)
    ensures
        final(csl)@ == (if old(csl)@ is Object {
            Json::Object(with_small_doi(fields(old(csl)@)))
        } else {
            old(csl)@
        }),
{
    broadcast use group_csl;

    match csl {
        CslValue::Object(m) => {
            let ghost start = m@;
            let ghost members = json_map(start);
            proof {
                reveal_strlit("DOI");
                reveal_strlit("doi");
                assert("DOI"@[0] != "doi"@[0]);
            }
            let found = match m.get("doi") {
                Some(v) => Some(v.clone()),
                None => match m.get("DOI") {
                    Some(v) => Some(v.clone()),
                    None => None,
                },
            };
            m.remove("DOI");
            assert(json_map(m@) == members.remove("DOI"@)) by {
                crate::csl::lemma_json_map_remove(start, "DOI"@);
            }
            if let Some(v) = found {
                let value = match v.as_str() {
                    Some(s) => CslValue::String(lowered(s.as_str())),
                    None => v,
                };
                assert(value@ == doi_value(v@));
                let ghost now = m@;
                m.insert("doi".to_owned(), value);
                proof {
                    crate::csl::lemma_json_map_insert(now, "doi"@, value);
                }
            }
            assert(json_map(m@) =~= with_small_doi(members));
        },
        _ => {},
    }
}

impl DoiSource {
    /// A source for DOIs.
    pub fn new() -> (r: Self)
        ensures
            r == DoiSource,
    {
        DoiSource
    }

    /// The prefix that the source is bound to by convention.
    pub fn prefix(&self) -> (r: &'static str)
        ensures
            r@ == "doi"@,
    {
        "doi"
    }

    /// The request to send for a DOI. A key that is empty or holds white space is
    /// refused without a request.
    pub fn request(&self, doi: &str) -> (r: Result<Request, Resolution>)
        ensures
            match r {
                Ok(req) => {
                    &&& doi_fault(doi@) is None
                    &&& req.url@ == doi_url(doi@)
                    &&& req.method == Method::Get
                    &&& text_map(req.headers@) == Map::empty().insert(
                        "accept"@,
                        "application/vnd.citationstyles.csl+json"@,
                    )
                    &&& req.body is None
                },
                Err(res) => doi_fault(doi@) is Some && res@ == (ResolutionView {
                    key: doi@,
                    outcome: OutcomeView::Failed(doi_fault(doi@)->Some_0),
                }),
            },
    {
        if doi.is_empty() {
            return Err(Resolution::failed(doi, Error::Source("empty DOI".to_owned())));
        }
        if contains_white(doi) {
            let m = joined("DOI `", doi, "` contains whitespace");
            return Err(Resolution::failed(doi, Error::Source(m)));
        }
        let path = percent_encode(doi, true);
        let url = "https://doi.org/".to_owned().concat(path.as_str());
        let req = Request::get(url.as_str()).header(
            "accept",
            "application/vnd.citationstyles.csl+json",
        );
        proof {
            reveal_strlit("accept");
            assert(lower("accept"@) =~= "accept"@);
        }
        Ok(req)
    }

    /// What a reply says of a DOI that was asked for under a prefix.
    pub fn resolve(&self, prefix: &str, doi: &str, reply: Result<Response, FetchError>) -> (r:
        Resolution)
        ensures
            r@ == (ResolutionView { key: doi@, outcome: doi_outcome(prefix@, doi@, reply) }),
    {
        broadcast use group_csl;

        let resp = match reply {
            Ok(resp) => resp,
            Err(e) => {
                return Resolution::failed(doi, Error::Fetch(e));
            },
        };
        if resp.is_success() {
            let mut csl = match read_json(resp.body.as_slice()) {
                Ok(v) => v,
                Err(e) => {
                    return Resolution::failed(doi, Error::Parse(e));
                },
            };
            let item = match csl.as_object() {
                Some(m) => {
                    let n: usize = m.len();
                    proof {
                        m.lemma_pairs();
                        if n > 0 {
                            crate::sorted::lemma_map_of_at(m.pairs(), 0);
                            assert(fields(csl@).contains_key(m.pairs()[0].0));
                        } else if is_item(csl@) {
                            let k = choose|k: Seq<char>| #[trigger] fields(csl@).contains_key(k);
                            crate::sorted::lemma_map_of_dom(m.pairs(), k);
                        }
                    }
                    n > 0
                },
                None => false,
            };
            if !item {
                return Resolution::failed(
                    doi,
                    Error::Parse(
                        "doi.org returned 200 but the body is not a non-empty JSON object".to_owned(),
                    ),
                );
            }
            normalize_doi_key(&mut csl);
            return Resolution::concrete(doi, csl);
        }
        if resp.status == 404 {
            return Resolution::missing(doi, Error::NotFound(cite_id(prefix, doi)));
        }
        let n = decimal_text(resp.status as u64);
        let m = "doi.org returned status ".to_owned().concat(n.as_str());
        Resolution::failed(doi, Error::Source(m))
    }
}

impl Source for DoiSource {
    open spec fn key_form(&self, key: Seq<char>) -> Seq<char> {
        folded_form(key)
    }

    fn normalize_key(&self, key: &str) -> (r: String) {
        proof {
            law_folding_is_stable(key@);
        }
        folded_key(key)
    }

    fn chunk_size(&self) -> (r: usize)
        ensures
            r == 1,
    {
        1
    }

    fn min_interval(&self) -> (r: Duration)
        ensures
            duration_millis(r) == 1100,
    {
        Duration::from_millis(1100)
    }

    fn default_ttl(&self) -> (r: Duration)
        ensures
            duration_nanos(r) == 360 * 24 * 60 * 60 * 1_000_000_000,
    {
        Duration::from_secs(360 * 24 * 60 * 60)
    }
}

/// Only the DOI of an item is touched: every other member stays as it came.
pub proof fn law_only_the_doi_is_touched(m: Map<Seq<char>, Json>, name: Seq<char>)
    requires
        name != "doi"@,
        name != "DOI"@,
    ensures
        with_small_doi(m).contains_key(name) == m.contains_key(name),
        m.contains_key(name) ==> with_small_doi(m)[name] == m[name],
        !with_small_doi(m).contains_key("DOI"@),
{
    reveal_strlit("DOI");
    reveal_strlit("doi");
    assert("DOI"@[0] != "doi"@[0]);
}

} // verus!
