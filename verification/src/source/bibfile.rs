//! The `bib` source: keys in bibliography files.
//!
//! A file is a list of items, each with an `id`, or an object that maps ids to items.
//! How bytes become such a value is up to a [`BibParser`]. Entries can also be given
//! directly; files are laid over them, and later files over earlier ones. A key is an
//! opaque label: it is trimmed, and its case counts.

use crate::csl::{fields, group_csl, json_map, json_seq, CslValue, Json};
use crate::driver::texts;
use crate::env::duration_nanos;
use crate::error::{error_text, joined, Error, ErrorView};
use crate::fetch::{FetchError, Response};
use crate::index::TextMap;
use crate::json::{json_parsed, parsed_meaning, read_json, read_view};
use crate::sorted::map_of;
use crate::source::{
    law_trimming_is_stable, resolution_views, trimmed_form, OutcomeView, Resolution,
    ResolutionView, Source,
};
use crate::text::{decimal, decimal_text, trimmed};
use core::time::Duration;
use vstd::prelude::*;
use vstd::string::*;

verus! {

/// Turns the bytes of a bibliography file into a value.
pub trait BibParser {
    /// What bytes are parsed into, or why they cannot be parsed.
    open spec fn parsed(&self, bytes: Seq<u8>) -> Result<Json, Seq<char>> {
        parsed_meaning(json_parsed(bytes))
    }

    /// Parses the bytes of a file.
    fn parse(&self, bytes: &[u8]) -> (r: Result<CslValue, String>)
        ensures
            read_view(r) == self.parsed(bytes@),
    ;
}

/// Parses JSON.
pub struct JsonParser;

impl BibParser for JsonParser {
    fn parse(&self, bytes: &[u8]) -> (r: Result<CslValue, String>) {
        read_json(bytes)
    }
}

/// Serves the entries of bibliography files.
pub struct BibliographyFileSource<P: BibParser> {
    files: Vec<String>,
    preloaded: TextMap<CslValue>,
    parser: P,
    ttl: Duration,
}

/// The `id` of an item, if it has one that is a text.
pub open spec fn own_id(item: Json) -> Option<Seq<char>> {
    if fields(item).contains_key("id"@) && fields(item)["id"@] is Text {
        Some(fields(item)["id"@]->Text_0)
    } else {
        None
    }
}

/// A list of items by their ids; the last item with an id counts, and one without an
/// id does not.
pub open spec fn listed(items: Seq<Json>) -> Map<Seq<char>, Json>
    decreases items.len(),
{
    if items.len() == 0 {
        Map::empty()
    } else {
        let front = listed(items.drop_last());
        match own_id(items.last()) {
            Some(id) => front.insert(id, items.last()),
            None => front,
        }
    }
}

/// The entries of a bibliography: of a list, or of an object.
pub open spec fn entries_of(j: Json) -> Option<Map<Seq<char>, Json>> {
    match j {
        Json::Array(items) => Some(listed(items)),
        Json::Object(m) => Some(m),
        _ => None,
    }
}

/// The entries of a file, given the reply to its request.
pub open spec fn loaded<P: BibParser>(
    parser: P,
    url: Seq<char>,
    reply: Result<Response, FetchError>,
) -> Result<Map<Seq<char>, Json>, ErrorView> {
    match reply {
        Err(e) => Err(ErrorView::Fetch(e@)),
        Ok(resp) => if !(200 <= resp.status < 300) {
            Err(
                ErrorView::Source(
                    "bibliography file `"@ + url + "` returned status "@ + decimal(
                        resp.status as nat,
                    ),
                ),
            )
        } else {
            match parser.parsed(resp.body@) {
                Err(m) => Err(ErrorView::Parse(m)),
                Ok(j) => match entries_of(j) {
                    Some(m) => Ok(m),
                    None => Err(
                        ErrorView::Parse(
                            "bibliography file `"@ + url + "` is neither an array nor an object"@,
                        ),
                    ),
                },
            }
        },
    }
}

/// What an index says of a key.
pub open spec fn bib_outcome(index: Map<Seq<char>, Json>, key: Seq<char>) -> OutcomeView {
    if index.contains_key(key) {
        OutcomeView::Concrete { csl: index[key], ttl: None }
    } else {
        OutcomeView::Missing(
            ErrorView::NotFound("key `"@ + key + "` not found in bibliography"@),
        )
    }
}

/// Keys with what an index says of them.
pub open spec fn bib_resolutions(index: Map<Seq<char>, Json>, keys: Seq<Seq<char>>) -> Seq<
    ResolutionView,
> {
    keys.map_values(|k: Seq<char>| ResolutionView { key: k, outcome: bib_outcome(index, k) })
}

/// Keys that all fail for one reason.
pub open spec fn all_failed(keys: Seq<Seq<char>>, message: Seq<char>) -> Seq<ResolutionView> {
    keys.map_values(
        |k: Seq<char>|
            ResolutionView { key: k, outcome: OutcomeView::Failed(ErrorView::Source(message)) },
    )
}

/// Fails all keys for one reason.
pub fn fail_all(keys: &Vec<String>, message: &str) -> (r: Vec<Resolution>)
    ensures
        resolution_views(r@) == all_failed(texts(keys@), message@),
{
    let ghost all = all_failed(texts(keys@), message@);
    let mut out: Vec<Resolution> = Vec::new();
    let mut i: usize = 0;
    assert(resolution_views(out@) =~= all.take(0));
    while i < keys.len()
        invariant
            i <= keys@.len(),
            all == all_failed(texts(keys@), message@),
            resolution_views(out@) == all.take(i as int),
        decreases keys@.len() - i,
    {
        let ghost before = out@;
        let res = Resolution::failed(keys[i].as_str(), Error::Source(message.to_owned()));
        out.push(res);
        assert(resolution_views(out@) =~= resolution_views(before).push(res@));
        i += 1;
        assert(all.take(i as int) =~= all.take(i - 1).push(all[i - 1]));
    }
    assert(all.take(i as int) =~= all);
    out
}

/// Puts the items of a list into an index.
fn index_items(index: &mut TextMap<CslValue>, items: &Vec<CslValue>)
    ensures
        json_map(final(index)@) == json_map(old(index)@).union_prefer_right(
            listed(json_seq(items@)),
        ),
{
    broadcast use group_csl;

    let ghost start = json_map(index@);
    let ghost all = json_seq(items@);
    let mut i: usize = 0;
    proof {
        assert(all.take(0) =~= Seq::empty());
        assert(start.union_prefer_right(listed(all.take(0))) =~= start);
    }
    while i < items.len()
        invariant
            i <= items@.len(),
            all == json_seq(items@),
            json_map(index@) == start.union_prefer_right(listed(all.take(i as int))),
        decreases items@.len() - i,
    {
        let item = &items[i];
        let ghost now = index@;
        proof {
            assert(all.take(i + 1).drop_last() =~= all.take(i as int));
            assert(all.take(i + 1).last() == item@);
        }
        if let Some(m) = item.as_object() {
            if let Some(v) = m.get("id") {
                if let Some(id) = v.as_str() {
                    let copy = item.clone();
                    proof {
                        crate::csl::lemma_json_map_insert(now, id@, copy);
                    }
                    index.insert(id.clone(), copy);
                }
            }
        }
        assert(json_map(index@) =~= start.union_prefer_right(listed(all.take(i + 1))));
        i += 1;
    }
    assert(all.take(i as int) =~= all);
}

impl BibliographyFileSource<JsonParser> {
    /// A source over files in JSON.
    pub fn new(files: Vec<String>) -> (r: Self)
        ensures
            r.locations() == texts(files@),
            r.given() == Map::<Seq<char>, Json>::empty(),
            duration_nanos(r.lifetime()) == 60 * 1_000_000_000,
    {
        let r = BibliographyFileSource {
            files,
            preloaded: TextMap::new(),
            parser: JsonParser,
            ttl: Duration::from_secs(60),
        };
        assert(r.given() =~= Map::<Seq<char>, Json>::empty());
        r
    }

    /// A source over entries that are given by their ids; the last one with an id
    /// counts.
    pub fn from_entries(entries: Vec<(String, CslValue)>) -> (r: Self)
        ensures
            r.locations().len() == 0,
            r.given() == json_map(map_of(crate::sorted::viewed(entries@))),
            duration_nanos(r.lifetime()) == 60 * 1_000_000_000,
    {
        let ghost all = crate::sorted::viewed(entries@);
        let mut preloaded: TextMap<CslValue> = TextMap::new();
        let mut i: usize = 0;
        assert(all.take(0) =~= Seq::empty());
        while i < entries.len()
            invariant
                i <= entries@.len(),
                all == crate::sorted::viewed(entries@),
                json_map(preloaded@) == json_map(map_of(all.take(i as int))),
            decreases entries@.len() - i,
        {
            let copy = entries[i].1.clone();
            proof {
                assert(all.take(i + 1).drop_last() =~= all.take(i as int));
                assert(all.take(i + 1).last() == all[i as int]);
                crate::csl::lemma_json_map_insert(preloaded@, all[i as int].0, copy);
                crate::csl::lemma_json_map_insert(
                    map_of(all.take(i as int)),
                    all[i as int].0,
                    all[i as int].1,
                );
            }
            preloaded.insert(entries[i].0.clone(), copy);
            i += 1;
        }
        assert(all.take(i as int) =~= all);
        BibliographyFileSource {
            files: Vec::new(),
            preloaded,
            parser: JsonParser,
            ttl: Duration::from_secs(60),
        }
    }
}

impl<P: BibParser> BibliographyFileSource<P> {
    /// The files to load, in order.
    pub closed spec fn locations(&self) -> Seq<Seq<char>> {
        texts(self.files@)
    }

    /// The entries that were given directly.
    pub closed spec fn given(&self) -> Map<Seq<char>, Json> {
        json_map(self.preloaded@)
    }

    pub closed spec fn parser(&self) -> P {
        self.parser
    }

    /// The lifetime of entries.
    pub closed spec fn lifetime(&self) -> Duration {
        self.ttl
    }

    /// The prefix that the source is bound to by convention.
    pub fn prefix(&self) -> (r: &'static str)
        ensures
            r@ == "bib"@,
    {
        "bib"
    }

    /// The source with another parser.
    pub fn with_parser<Q: BibParser>(self, parser: Q) -> (r: BibliographyFileSource<Q>)
        ensures
            r.parser() == parser,
            r.locations() == self.locations(),
            r.given() == self.given(),
            r.lifetime() == self.lifetime(),
    {
        BibliographyFileSource {
            files: self.files,
            preloaded: self.preloaded,
            parser,
            ttl: self.ttl,
        }
    }

    /// The source with another lifetime of its entries.
    pub fn with_ttl(self, ttl: Duration) -> (r: Self)
        ensures
            r.lifetime() == ttl,
            r.parser() == self.parser(),
            r.locations() == self.locations(),
            r.given() == self.given(),
    {
        BibliographyFileSource {
            files: self.files,
            preloaded: self.preloaded,
            parser: self.parser,
            ttl,
        }
    }

    /// The files to load, in order.
    pub fn files(&self) -> (r: &Vec<String>)
        ensures
            texts(r@) == self.locations(),
    {
        &self.files
    }

    /// The index that files are laid over.
    pub fn index(&self) -> (r: TextMap<CslValue>)
        ensures
            json_map(r@) == self.given(),
    {
        let ghost p = self.preloaded.pairs();
        let n: usize = self.preloaded.len();
        let mut out: TextMap<CslValue> = TextMap::new();
        let mut i: usize = 0;
        assert(p.take(0) =~= Seq::empty());
        while i < n
            invariant
                i <= n == p.len(),
                p == self.preloaded.pairs(),
                json_map(out@) == json_map(map_of(p.take(i as int))),
            decreases n - i,
        {
            let copy = self.preloaded.value_at(i).clone();
            proof {
                assert(p.take(i + 1).drop_last() =~= p.take(i as int));
                assert(p.take(i + 1).last() == p[i as int]);
                crate::csl::lemma_json_map_insert(out@, p[i as int].0, copy);
                crate::csl::lemma_json_map_insert(
                    map_of(p.take(i as int)),
                    p[i as int].0,
                    p[i as int].1,
                );
            }
            out.insert(self.preloaded.key_at(i).clone(), copy);
            i += 1;
        }
        assert(p.take(i as int) =~= p);
        out
    }

    /// Lays the entries of a file over an index, given the reply to its request.
    pub fn load_file(
        &self,
        index: &mut TextMap<CslValue>,
        url: &str,
        reply: Result<Response, FetchError>,
    ) -> (r: Result<(), Error>)
        ensures
            match r {
                Ok(_) => loaded(self.parser(), url@, reply) matches Ok(m) && json_map(
                    final(index)@,
                ) == json_map(old(index)@).union_prefer_right(m),
                Err(e) => loaded(self.parser(), url@, reply) == Err::<
                    Map<Seq<char>, Json>,
                    ErrorView,
                >(e@) && *final(index) == *old(index),
            },
    {
        broadcast use group_csl;

        let resp = match reply {
            Ok(resp) => resp,
            Err(e) => {
                return Err(Error::Fetch(e));
            },
        };
        if !resp.is_success() {
            let n = decimal_text(resp.status as u64);
            let m = joined("bibliography file `", url, "` returned status ").concat(n.as_str());
            return Err(Error::Source(m));
        }
        let value = match self.parser.parse(resp.body.as_slice()) {
            Ok(v) => v,
            Err(m) => {
                return Err(Error::Parse(m));
            },
        };
        match &value {
            CslValue::Array(items) => {
                index_items(index, items);
                Ok(())
            },
            CslValue::Object(m) => {
                let ghost start = json_map(index@);
                let ghost p = m.pairs();
                let n: usize = m.len();
                let mut i: usize = 0;
                proof {
                    assert(p.take(0) =~= Seq::empty());
                    assert(start.union_prefer_right(json_map(map_of(p.take(0)))) =~= start);
                }
                while i < n
                    invariant
                        i <= n == p.len(),
                        p == m.pairs(),
                        json_map(index@) == start.union_prefer_right(
                            json_map(map_of(p.take(i as int))),
                        ),
                    decreases n - i,
                {
                    let copy = m.value_at(i).clone();
                    proof {
                        assert(p.take(i + 1).drop_last() =~= p.take(i as int));
                        assert(p.take(i + 1).last() == p[i as int]);
                        crate::csl::lemma_json_map_insert(index@, p[i as int].0, copy);
                        crate::csl::lemma_json_map_insert(
                            map_of(p.take(i as int)),
                            p[i as int].0,
                            p[i as int].1,
                        );
                    }
                    index.insert(m.key_at(i).clone(), copy);
                    assert(json_map(index@) =~= start.union_prefer_right(
                        json_map(map_of(p.take(i + 1))),
                    ));
                    i += 1;
                }
                assert(p.take(i as int) =~= p);
                Ok(())
            },
            _ => {
                let m = joined(
                    "bibliography file `",
                    url,
                    "` is neither an array nor an object",
                );
                Err(Error::Parse(m))
            },
        }
    }

    /// What becomes of keys where a file cannot be loaded: all fail.
    pub fn fail(&self, keys: &Vec<String>, error: &Error) -> (r: Vec<Resolution>)
        ensures
            resolution_views(r@) == all_failed(texts(keys@), error_text(error@)),
    {
        let m = error.message();
        fail_all(keys, m.as_str())
    }

    /// What an index says of keys.
    pub fn retrieve_chunk(&self, index: &TextMap<CslValue>, keys: &Vec<String>) -> (r: Vec<
        Resolution,
    >)
        ensures
            resolution_views(r@) == bib_resolutions(json_map(index@), texts(keys@)),
    {
        let ghost all = bib_resolutions(json_map(index@), texts(keys@));
        let mut out: Vec<Resolution> = Vec::new();
        let mut i: usize = 0;
        assert(resolution_views(out@) =~= all.take(0));
        while i < keys.len()
            invariant
                i <= keys@.len(),
                all == bib_resolutions(json_map(index@), texts(keys@)),
                resolution_views(out@) == all.take(i as int),
            decreases keys@.len() - i,
        {
            let ghost before = out@;
            let key = keys[i].as_str();
            let res = match index.get(key) {
                Some(item) => Resolution::concrete(key, item.clone()),
                None => {
                    let m = joined("key `", key, "` not found in bibliography");
                    Resolution::missing(key, Error::NotFound(m))
                },
            };
            out.push(res);
            assert(resolution_views(out@) =~= resolution_views(before).push(res@));
            i += 1;
            assert(all.take(i as int) =~= all.take(i - 1).push(all[i - 1]));
        }
        assert(all.take(i as int) =~= all);
        out
    }
}

impl<P: BibParser> Source for BibliographyFileSource<P> {
    open spec fn key_form(&self, key: Seq<char>) -> Seq<char> {
        trimmed_form(key)
    }

    fn normalize_key(&self, key: &str) -> (r: String) {
        proof {
            law_trimming_is_stable(key@);
        }
        trimmed(key)
    }

    fn chunk_size(&self) -> (r: usize)
        ensures
            r == usize::MAX,
    {
        usize::MAX
    }

    fn min_interval(&self) -> (r: Duration)
        ensures
            duration_nanos(r) == 0,
    {
        Duration::from_millis(0)
    }

    fn default_ttl(&self) -> (r: Duration)
        ensures
            r == self.lifetime(),
    {
        self.ttl
    }
}

/// An index that files were laid over, one after another, as
/// [`BibliographyFileSource::load_file`] does.
pub open spec fn laid_over(
    start: Map<Seq<char>, Json>,
    files: Seq<Map<Seq<char>, Json>>,
) -> Map<Seq<char>, Json>
    decreases files.len(),
{
    if files.len() == 0 {
        start
    } else {
        laid_over(start, files.drop_last()).union_prefer_right(files.last())
    }
}

/// Later files win: a key has the entry of the last file that has it, and the entry that
/// was given directly where no file has it.
pub proof fn law_later_files_win(
    start: Map<Seq<char>, Json>,
    files: Seq<Map<Seq<char>, Json>>,
    key: Seq<char>,
)
    ensures
        forall|i: int|
            0 <= i < files.len() && (#[trigger] files[i]).contains_key(key) && (forall|j: int|
                i < j < files.len() ==> !(#[trigger] files[j]).contains_key(key)) ==> laid_over(
                start,
                files,
            ).contains_key(key) && laid_over(start, files)[key] == files[i][key],
        (forall|i: int| 0 <= i < files.len() ==> !(#[trigger] files[i]).contains_key(key)) ==> {
            &&& laid_over(start, files).contains_key(key) == start.contains_key(key)
            &&& start.contains_key(key) ==> laid_over(start, files)[key] == start[key]
        },
    decreases files.len(),
{
    if files.len() > 0 {
        let front = files.drop_last();
        let n = files.len() - 1;
        law_later_files_win(start, front, key);
        if !files[n].contains_key(key) {
            assert forall|i: int|
                0 <= i < files.len() && (#[trigger] files[i]).contains_key(key) && (forall|j: int|
                    i < j < files.len() ==> !(#[trigger] files[j]).contains_key(
                        key,
                    )) implies laid_over(start, files).contains_key(key) && laid_over(start, files)[key]
                == files[i][key] by {
                assert(front[i] == files[i]);
                assert forall|j: int| i < j < front.len() implies !(
                #[trigger] front[j]).contains_key(key) by {
                    assert(files[j] == front[j]);
                }
            }
            if forall|i: int| 0 <= i < files.len() ==> !(#[trigger] files[i]).contains_key(key) {
                assert forall|i: int| 0 <= i < front.len() implies !(
                #[trigger] front[i]).contains_key(key) by {
                    assert(files[i] == front[i]);
                }
            }
        } else {
            assert forall|i: int|
                0 <= i < files.len() && (#[trigger] files[i]).contains_key(key) && (forall|j: int|
                    i < j < files.len() ==> !(#[trigger] files[j]).contains_key(
                        key,
                    )) implies laid_over(start, files)[key] == files[i][key] by {
                if i < n {
                    assert(files[n].contains_key(key));
                }
            }
        }
    }
}

} // verus!
