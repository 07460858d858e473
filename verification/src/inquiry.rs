//! Asking a source that comes with the library for keys: which requests to send, one after
//! another, and what their replies come to.
//!
//! The host begins an [`Inquiry`], sends the request that it names and hands over the
//! reply, until it names none; then it holds the resolutions.

use crate::csl::{json_map, CslValue, Json};
use crate::driver::{copy_range, texts};
use crate::error::{error_text, ErrorView};
use crate::fetch::{text_map, FetchError, Method, Request, Response};
use crate::formats::FormatParser;
use crate::index::TextMap;
use crate::setup::BuiltIn;
use crate::source::arxiv::{chunk_resolutions, doi_map, overrides_give, query_url};
use crate::source::bibfile::{
    all_failed, bib_resolutions, fail_all, laid_over, loaded, BibliographyFileSource,
};
use crate::source::doi::{doi_fault, doi_outcome, doi_url, DoiSource};
use crate::source::manual::is_manual;
use crate::source::{resolution_views, OutcomeView, Resolution, ResolutionView};
use vstd::prelude::*;
use vstd::string::*;

verus! {

/// A source that is asked for keys.
pub struct Inquiry {
    prefix: String,
    keys: Vec<String>,
    stage: Stage,
}

/// What the next request is for.
enum Stage {
    /// The bibliography file at this place; the entries of those before it.
    Files(usize, TextMap<CslValue>),
    /// The file of overriding DOIs.
    Table,
    /// The feed; the overriding DOIs.
    Feed(TextMap<Option<String>>),
    /// The first DOI that has no resolution yet; the resolutions of those before it.
    Dois(Vec<Resolution>),
    /// Nothing: these are the resolutions.
    Done(Vec<Resolution>),
}

/// A source that is asked for keys, by its meaning.
pub struct InquiryView {
    /// The prefix that the source is bound to.
    pub prefix: Seq<char>,
    pub keys: Seq<Seq<char>>,
    pub stage: StageView,
}

/// What the next request is for, by its meaning.
pub enum StageView {
    Files(nat, Map<Seq<char>, Json>),
    Table,
    Feed(Map<Seq<char>, Option<Seq<char>>>),
    Dois(Seq<ResolutionView>),
    Done(Seq<ResolutionView>),
}

impl View for Stage {
    type V = StageView;

    closed spec fn view(&self) -> StageView {
        match self {
            Stage::Files(at, index) => StageView::Files(*at as nat, json_map(index@)),
            Stage::Table => StageView::Table,
            Stage::Feed(dois) => StageView::Feed(doi_map(dois@)),
            Stage::Dois(got) => StageView::Dois(resolution_views(got@)),
            Stage::Done(got) => StageView::Done(resolution_views(got@)),
        }
    }
}

impl View for Inquiry {
    type V = InquiryView;

    closed spec fn view(&self) -> InquiryView {
        InquiryView { prefix: self.prefix@, keys: texts(self.keys@), stage: self.stage@ }
    }
}

/// What the next request is for, once so many files of a bibliography have been read.
pub open spec fn files_read(
    s: BibliographyFileSource<FormatParser>,
    keys: Seq<Seq<char>>,
    at: nat,
    index: Map<Seq<char>, Json>,
) -> StageView {
    if at < s.locations().len() {
        StageView::Files(at, index)
    } else {
        StageView::Done(bib_resolutions(index, keys))
    }
}

/// The resolution of a DOI that is refused without a request.
pub open spec fn refused_doi(doi: Seq<char>) -> ResolutionView {
    ResolutionView { key: doi, outcome: OutcomeView::Failed(doi_fault(doi)->Some_0) }
}

/// What the next request is for, once the first DOIs have these resolutions: those that
/// are refused without a request are passed over.
pub open spec fn dois_read(keys: Seq<Seq<char>>, got: Seq<ResolutionView>) -> StageView
    decreases keys.len() - got.len(),
{
    if got.len() >= keys.len() {
        StageView::Done(got)
    } else if doi_fault(keys[got.len() as int]) is Some {
        dois_read(keys, got.push(refused_doi(keys[got.len() as int])))
    } else {
        StageView::Dois(got)
    }
}

/// Whether resolutions are those of citations whose keys are their texts.
pub open spec fn all_manual(
    got: Seq<ResolutionView>,
    format: Seq<char>,
    keys: Seq<Seq<char>>,
) -> bool {
    &&& got.len() == keys.len()
    &&& forall|i: int| 0 <= i < keys.len() ==> is_manual(#[trigger] got[i], format, keys[i])
}

/// Whether this is what the first request to a source is for.
pub open spec fn opens(source: BuiltIn, keys: Seq<Seq<char>>, stage: StageView) -> bool {
    match source {
        BuiltIn::Arxiv(s) => stage == (if s.file() is Some {
            StageView::Table
        } else {
            StageView::Feed(s.inline())
        }),
        BuiltIn::Doi(_) => stage == dois_read(keys, Seq::empty()),
        BuiltIn::Bib(s) => stage == files_read(s, keys, 0, s.given()),
        BuiltIn::Manual(s) => stage matches StageView::Done(got) && all_manual(
            got,
            s.format(),
            keys,
        ),
    }
}

/// Where a reply to a request for a bibliography file leads: one that cannot be loaded
/// fails all keys, and any other is laid over those before it.
pub open spec fn file_replied(
    s: BibliographyFileSource<FormatParser>,
    keys: Seq<Seq<char>>,
    stage: StageView,
    reply: Result<Response, FetchError>,
) -> StageView {
    match stage {
        StageView::Files(at, index) => if at < s.locations().len() {
            match loaded(s.parser(), s.locations()[at as int], reply) {
                Ok(m) => files_read(s, keys, at + 1, index.union_prefer_right(m)),
                Err(e) => StageView::Done(all_failed(keys, error_text(e))),
            }
        } else {
            stage
        },
        _ => stage,
    }
}

/// Whether a reply leads from `a` to this stage. A file of overriding DOIs that cannot be
/// loaded fails all keys.
pub open spec fn leads(
    source: BuiltIn,
    a: InquiryView,
    reply: Result<Response, FetchError>,
    stage: StageView,
) -> bool {
    match (source, a.stage) {
        (BuiltIn::Bib(s), _) => stage == file_replied(s, a.keys, a.stage, reply),
        (BuiltIn::Arxiv(s), StageView::Table) => exists|
            r: Result<Map<Seq<char>, Option<Seq<char>>>, Seq<char>>,
        |
            {
                &&& #[trigger] overrides_give(s.inline(), Some(reply), r)
                &&& stage == (match r {
                    Ok(m) => StageView::Feed(m),
                    Err(e) => StageView::Done(all_failed(a.keys, e)),
                })
            },
        (BuiltIn::Arxiv(s), StageView::Feed(dois)) => stage == StageView::Done(
            chunk_resolutions(s.target(), dois, a.keys, reply),
        ),
        (BuiltIn::Doi(_), StageView::Dois(got)) => if got.len() < a.keys.len() {
            stage == dois_read(
                a.keys,
                got.push(
                    ResolutionView {
                        key: a.keys[got.len() as int],
                        outcome: doi_outcome(a.prefix, a.keys[got.len() as int], reply),
                    },
                ),
            )
        } else {
            stage == a.stage
        },
        _ => stage == a.stage,
    }
}

/// Whether a request asks for a URL and nothing else.
pub open spec fn gets(req: Request, url: Seq<char>) -> bool {
    &&& req.url@ == url
    &&& req.method == Method::Get
    &&& text_map(req.headers@) == Map::<Seq<char>, Seq<char>>::empty()
    &&& req.body is None
}

/// Whether this is the next request, if there is one.
pub open spec fn names(source: BuiltIn, a: InquiryView, r: Option<Request>) -> bool {
    match (source, a.stage) {
        (BuiltIn::Bib(s), StageView::Files(at, _)) => if at < s.locations().len() {
            r matches Some(req) && gets(req, s.locations()[at as int])
        } else {
            r is None
        },
        (BuiltIn::Arxiv(s), StageView::Table) => match s.file() {
            Some(url) => r matches Some(req) && gets(req, url),
            None => r is None,
        },
        (BuiltIn::Arxiv(_), StageView::Feed(_)) => r matches Some(req) && gets(
            req,
            query_url(a.keys),
        ),
        (BuiltIn::Doi(_), StageView::Dois(got)) => if got.len() < a.keys.len() && doi_fault(
            a.keys[got.len() as int],
        ) is None {
            r matches Some(req) && req.url@ == doi_url(a.keys[got.len() as int]) && req.method
                == Method::Get && text_map(req.headers@) == Map::empty().insert(
                "accept"@,
                "application/vnd.citationstyles.csl+json"@,
            ) && req.body is None
        } else {
            r is None
        },
        _ => r is None,
    }
}

/// What the next request is for, once so many files have been read.
fn after_files(
    s: &BibliographyFileSource<FormatParser>,
    keys: &Vec<String>,
    at: usize,
    index: TextMap<CslValue>,
) -> (r: Stage)
    ensures
        r@ == files_read(*s, texts(keys@), at as nat, json_map(index@)),
{
    if at < s.files().len() {
        Stage::Files(at, index)
    } else {
        Stage::Done(s.retrieve_chunk(&index, keys))
    }
}

/// What the next request is for, once the first DOIs have these resolutions.
fn after_dois(s: &DoiSource, keys: &Vec<String>, got: Vec<Resolution>) -> (r: Stage)
    ensures
        r@ == dois_read(texts(keys@), resolution_views(got@)),
{
    let ghost all = texts(keys@);
    let ghost start = resolution_views(got@);
    let mut out = got;
    while out.len() < keys.len()
        invariant
            all == texts(keys@),
            start == resolution_views(got@),
            dois_read(all, resolution_views(out@)) == dois_read(all, start),
        decreases keys@.len() - out@.len(),
    {
        let n: usize = out.len();
        assert(all[n as int] == keys@[n as int]@);
        match s.request(keys[n].as_str()) {
            Ok(_) => {
                return Stage::Dois(out);
            },
            Err(refused) => {
                let ghost before = out@;
                out.push(refused);
                assert(resolution_views(out@) =~= resolution_views(before).push(
                    refused_doi(all[n as int]),
                ));
            },
        }
    }
    Stage::Done(out)
}

impl Inquiry {
    /// Begins to ask a source that is bound to the prefix for keys.
    pub fn begin(source: &BuiltIn, prefix: &str, keys: &Vec<String>) -> (r: Self)
        ensures
            r@.prefix == prefix@,
            r@.keys == texts(keys@),
            opens(*source, texts(keys@), r@.stage),
    {
        let stage = match source {
            BuiltIn::Arxiv(s) => match s.override_file() {
                Some(_) => Stage::Table,
                None => match s.overrides(None) {
                    Ok(dois) => Stage::Feed(dois),
                    Err(message) => Stage::Done(fail_all(keys, message.as_str())),
                },
            },
            BuiltIn::Doi(s) => {
                let none: Vec<Resolution> = Vec::new();
                assert(resolution_views(none@) =~= Seq::empty());
                after_dois(s, keys, none)
            },
            BuiltIn::Bib(s) => after_files(s, keys, 0, s.index()),
            BuiltIn::Manual(s) => {
                let got = s.retrieve_chunk(keys);
                proof {
                    let views = resolution_views(got@);
                    assert forall|i: int| 0 <= i < keys@.len() implies is_manual(
                        #[trigger] views[i],
                        s.format(),
                        texts(keys@)[i],
                    ) by {
                        assert(is_manual(got@[i]@, s.format(), keys@[i]@));
                    }
                }
                Stage::Done(got)
            },
        };
        let copy = copy_range(keys, 0, keys.len());
        assert(texts(copy@) =~= texts(keys@));
        Inquiry { prefix: prefix.to_owned(), keys: copy, stage }
    }

    /// The next request to the source, if there is one.
    pub fn request(&self, source: &BuiltIn) -> (r: Option<Request>)
        ensures
            names(*source, self@, r),
    {
        match (source, &self.stage) {
            (BuiltIn::Bib(s), Stage::Files(at, _)) => {
                let files = s.files();
                if *at < files.len() {
                    assert(texts(files@)[*at as int] == files@[*at as int]@);
                    Some(Request::get(files[*at].as_str()))
                } else {
                    None
                }
            },
            (BuiltIn::Arxiv(s), Stage::Table) => match s.override_file() {
                Some(url) => Some(Request::get(url.as_str())),
                None => None,
            },
            (BuiltIn::Arxiv(s), Stage::Feed(_)) => Some(s.request(&self.keys)),
            (BuiltIn::Doi(s), Stage::Dois(got)) => {
                let n: usize = got.len();
                if n < self.keys.len() {
                    assert(texts(self.keys@)[n as int] == self.keys@[n as int]@);
                    match s.request(self.keys[n].as_str()) {
                        Ok(req) => Some(req),
                        Err(_) => None,
                    }
                } else {
                    None
                }
            },
            _ => None,
        }
    }

    /// Takes the reply to the request that was named.
    pub fn reply(self, source: &BuiltIn, reply: Result<Response, FetchError>) -> (r: Self)
        ensures
            r@.prefix == self@.prefix,
            r@.keys == self@.keys,
            leads(*source, self@, reply, r@.stage),
    {
        let prefix = self.prefix;
        let keys = self.keys;
        let stage = match (source, self.stage) {
            (BuiltIn::Bib(s), Stage::Files(at, index)) => {
                let files = s.files();
                if at < files.len() {
                    let mut index = index;
                    assert(texts(files@)[at as int] == files@[at as int]@);
                    match s.load_file(&mut index, files[at].as_str(), reply) {
                        Ok(_) => after_files(s, &keys, at + 1, index),
                        Err(e) => Stage::Done(s.fail(&keys, &e)),
                    }
                } else {
                    Stage::Files(at, index)
                }
            },
            (BuiltIn::Arxiv(s), Stage::Table) => match s.overrides(Some(reply)) {
                Ok(dois) => Stage::Feed(dois),
                Err(message) => Stage::Done(fail_all(&keys, message.as_str())),
            },
            (BuiltIn::Arxiv(s), Stage::Feed(dois)) => Stage::Done(
                s.retrieve_chunk(&dois, &keys, reply),
            ),
            (BuiltIn::Doi(s), Stage::Dois(got)) => {
                let n: usize = got.len();
                if n < keys.len() {
                    let mut got = got;
                    let ghost before = got@;
                    assert(texts(keys@)[n as int] == keys@[n as int]@);
                    let res = s.resolve(prefix.as_str(), keys[n].as_str(), reply);
                    let ghost v = res@;
                    got.push(res);
                    assert(resolution_views(got@) =~= resolution_views(before).push(v));
                    after_dois(s, &keys, got)
                } else {
                    Stage::Dois(got)
                }
            },
            (_, other) => other,
        };
        Inquiry { prefix, keys, stage }
    }

    /// The resolutions, where no request is left; none where one is.
    pub fn resolutions(self) -> (r: Vec<Resolution>)
        ensures
            match self@.stage {
                StageView::Done(got) => resolution_views(r@) == got,
                _ => r@.len() == 0,
            },
    {
        match self.stage {
            Stage::Done(got) => got,
            _ => Vec::new(),
        }
    }
}

/// Where replies to the requests for the files of a bibliography lead, one after another.
pub open spec fn files_replied(
    s: BibliographyFileSource<FormatParser>,
    keys: Seq<Seq<char>>,
    replies: Seq<Result<Response, FetchError>>,
) -> StageView
    decreases replies.len(),
{
    if replies.len() == 0 {
        files_read(s, keys, 0, s.given())
    } else {
        file_replied(s, keys, files_replied(s, keys, replies.drop_last()), replies.last())
    }
}

/// A bibliography is read file by file: as long as each of its files can be loaded the
/// next one is asked for, and after the last one each key has the entry that the files,
/// laid over each other in order, give it. The first file that cannot be loaded fails all
/// keys, whatever comes after it.
pub proof fn law_a_bibliography_is_read_file_by_file(
    s: BibliographyFileSource<FormatParser>,
    keys: Seq<Seq<char>>,
    replies: Seq<Result<Response, FetchError>>,
    files: Seq<Map<Seq<char>, Json>>,
)
    requires
        replies.len() <= s.locations().len(),
        files.len() <= replies.len(),
        forall|i: int|
            0 <= i < files.len() ==> loaded(s.parser(), s.locations()[i], #[trigger] replies[i])
                == Ok::<Map<Seq<char>, Json>, ErrorView>(files[i]),
        files.len() < replies.len() ==> loaded(
            s.parser(),
            s.locations()[files.len() as int],
            replies[files.len() as int],
        ) is Err,
    ensures
        files.len() == replies.len() ==> files_replied(s, keys, replies) == files_read(
            s,
            keys,
            files.len(),
            laid_over(s.given(), files),
        ),
        files.len() < replies.len() ==> files_replied(s, keys, replies) == StageView::Done(
            all_failed(
                keys,
                error_text(
                    loaded(
                        s.parser(),
                        s.locations()[files.len() as int],
                        replies[files.len() as int],
                    )->Err_0,
                ),
            ),
        ),
    decreases replies.len(),
{
    if replies.len() > 0 {
        let front = replies.drop_last();
        let n = replies.len() - 1;
        let fewer = if files.len() == replies.len() {
            files.drop_last()
        } else {
            files
        };
        assert forall|i: int| 0 <= i < fewer.len() implies loaded(
            s.parser(),
            s.locations()[i],
            #[trigger] front[i],
        ) == Ok::<Map<Seq<char>, Json>, ErrorView>(fewer[i]) by {
            assert(front[i] == replies[i]);
        }
        if files.len() < n {
            assert(front[files.len() as int] == replies[files.len() as int]);
        }
        law_a_bibliography_is_read_file_by_file(s, keys, front, fewer);
        if files.len() == replies.len() {
            assert(replies[n] == replies.last());
        }
    }
}

} // verus!
