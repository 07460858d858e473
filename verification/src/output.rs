//! What is written in the end: the lines for failures, and the items.

use crate::cli::{prefix_of, SourceKind};
use crate::csl::{fields, group_csl, CslValue, Json};
use crate::driver::texts;
use crate::error::{error_text, joined};
use crate::filecache::FileCacheStore;
use crate::index::TextMap;
use crate::input::cite_views;
use crate::json::{json_pretty, json_written, write_json};
use crate::manager::{CitationManager, CiteFailure, FailureView};
use crate::retrieval::failure_views;
use crate::source::Source;
use crate::store::RecordView;
use crate::text::{decimal, decimal_text, same};
use vstd::prelude::*;
use vstd::string::*;

verus! {

/// The line for a failure. Where a chain led to it, the citation that was requested is
/// named.
pub open spec fn failure_line(f: FailureView) -> Seq<char> {
    let line = f.prefix + ":"@ + f.key + ": "@ + f.message;
    match f.origin {
        Some((prefix, key)) => if prefix == f.prefix && key == f.key {
            line
        } else {
            line + " (needed by "@ + prefix + ":"@ + key + ")"@
        },
        None => line,
    }
}

/// The line for a failure.
pub fn failure_text(f: &CiteFailure) -> (r: String)
    ensures
        r@ == failure_line(f@),
{
    let line = joined(f.prefix.as_str(), ":", f.key.as_str()).concat(": ").concat(
        f.message.as_str(),
    );
    match &f.origin {
        Some((prefix, key)) => {
            if same(prefix.as_str(), f.prefix.as_str()) && same(key.as_str(), f.key.as_str()) {
                line
            } else {
                line.concat(" (needed by ").concat(prefix.as_str()).concat(":").concat(
                    key.as_str(),
                ).concat(")")
            }
        },
        None => line,
    }
}

/// What is read back: the items to write, how many citations have none, and the lines
/// for those of them that no failure was reported of.
pub struct ReadBack {
    pub items: Vec<CslValue>,
    pub unresolved: usize,
    pub lines: Vec<String>,
}

/// What is read back, by its meaning.
pub struct ReadBackView {
    pub items: Seq<Json>,
    /// The ids of the items.
    pub ids: Seq<Seq<char>>,
    pub unresolved: nat,
    pub lines: Seq<Seq<char>>,
}

/// The id of an item; empty where it has none.
pub open spec fn item_id(item: Json) -> Seq<char> {
    if fields(item).contains_key("id"@) && fields(item)["id"@] is Text {
        fields(item)["id"@]->Text_0
    } else {
        Seq::empty()
    }
}

/// Whether a failure was reported of a citation.
pub open spec fn is_reported(
    failures: Seq<FailureView>,
    prefix: Seq<char>,
    key: Seq<char>,
) -> bool {
    exists|i: int|
        0 <= i < failures.len() && (#[trigger] failures[i]).prefix == prefix && failures[i].key
            == key
}

impl<S: Source> CitationManager<S> {
    /// What is read back of citations: the items in order, those with one id once, and a
    /// line for each citation without an item of which no failure was reported.
    pub open spec fn read_back_of(
        self,
        cache: Map<Seq<char>, RecordView>,
        cites: Seq<(Seq<char>, Seq<char>)>,
        failures: Seq<FailureView>,
    ) -> ReadBackView
        decreases cites.len(),
    {
        if cites.len() == 0 {
            ReadBackView {
                items: Seq::empty(),
                ids: Seq::empty(),
                unresolved: 0,
                lines: Seq::empty(),
            }
        } else {
            let front = self.read_back_of(cache, cites.drop_last(), failures);
            let (prefix, key) = cites.last();
            match self.read(cache, prefix, key) {
                Ok(item) => {
                    let id = item_id(item);
                    if id.len() == 0 || !front.ids.contains(id) {
                        ReadBackView {
                            items: front.items.push(item),
                            ids: front.ids.push(id),
                            ..front
                        }
                    } else {
                        front
                    }
                },
                Err(e) => ReadBackView {
                    unresolved: front.unresolved + 1,
                    lines: if is_reported(failures, prefix, key) {
                        front.lines
                    } else {
                        front.lines.push(prefix + ":"@ + key + ": "@ + error_text(e))
                    },
                    ..front
                },
            }
        }
    }

    /// Reads citations back from the store.
    pub fn read_back(
        &self,
        store: &FileCacheStore,
        cites: &[(String, String)],
        failures: &Vec<CiteFailure>,
    ) -> (r: ReadBack)
        ensures
            ({
                let b = self.read_back_of(
                    store.cached(),
                    cite_views(cites@),
                    failure_views(failures@),
                );
                &&& crate::csl::json_seq(r.items@) == b.items
                &&& r.unresolved == b.unresolved
                &&& texts(r.lines@) == b.lines
            }),
    {
        let ghost all = cite_views(cites@);
        let ghost known = failure_views(failures@);
        let ghost cache = store.cached();
        let mut items: Vec<CslValue> = Vec::new();
        let mut ids: Vec<String> = Vec::new();
        let mut seen: TextMap<bool> = TextMap::new();
        let mut lines: Vec<String> = Vec::new();
        let mut unresolved: usize = 0;
        let mut i: usize = 0;
        proof {
            assert(all.take(0) =~= Seq::empty());
            assert(crate::csl::json_seq(items@) =~= Seq::empty());
            assert(texts(ids@) =~= Seq::empty());
            assert(texts(lines@) =~= Seq::empty());
        }
        while i < cites.len()
            invariant
                i <= cites@.len(),
                unresolved <= i,
                all == cite_views(cites@),
                known == failure_views(failures@),
                cache == store.cached(),
                crate::csl::json_seq(items@) == self.read_back_of(
                    cache,
                    all.take(i as int),
                    known,
                ).items,
                texts(ids@) == self.read_back_of(cache, all.take(i as int), known).ids,
                texts(lines@) == self.read_back_of(cache, all.take(i as int), known).lines,
                unresolved == self.read_back_of(cache, all.take(i as int), known).unresolved,
                forall|x: Seq<char>| #[trigger] seen@.contains_key(x) == texts(ids@).contains(x),
            decreases cites@.len() - i,
        {
            let ghost was_items = items@;
            let ghost was_ids = texts(ids@);
            let ghost was_lines = texts(lines@);
            let ghost was_seen = seen@;
            proof {
                assert(all.take(i + 1).drop_last() =~= all.take(i as int));
                assert(all.take(i + 1).last() == (cites@[i as int].0@, cites@[i as int].1@));
            }
            let prefix = cites[i].0.as_str();
            let key = cites[i].1.as_str();
            match self.get(store, prefix, key) {
                Ok(item) => {
                    let id = id_text(&item);
                    if id.as_str().is_empty() || !seen.contains_key(id.as_str()) {
                        seen.insert(id.clone(), true);
                        ids.push(id);
                        items.push(item);
                        proof {
                            assert(crate::csl::json_seq(items@) =~= crate::csl::json_seq(
                                was_items,
                            ).push(item@));
                            assert(texts(ids@) =~= was_ids.push(id@));
                            assert forall|x: Seq<char>| #[trigger]
                                seen@.contains_key(x) == texts(ids@).contains(x) by {
                                assert(was_seen.contains_key(x) == was_ids.contains(x));
                                if was_ids.contains(x) {
                                    let k = choose|k: int|
                                        0 <= k < was_ids.len() && was_ids[k] == x;
                                    assert(texts(ids@)[k] == x);
                                }
                                assert(texts(ids@)[was_ids.len() as int] == id@);
                                if texts(ids@).contains(x) && x != id@ {
                                    let k = choose|k: int|
                                        0 <= k < texts(ids@).len() && texts(ids@)[k] == x;
                                    assert(was_ids[k] == x);
                                }
                            }
                        }
                    }
                },
                Err(e) => {
                    unresolved += 1;
                    if !reported(failures, prefix, key) {
                        let m = joined(prefix, ":", key).concat(": ").concat(
                            e.message().as_str(),
                        );
                        lines.push(m);
                        assert(texts(lines@) =~= was_lines.push(m@));
                    }
                },
            }
            i += 1;
        }
        assert(all.take(i as int) =~= all);
        ReadBack { items, unresolved, lines }
    }
}

/// The id of an item.
fn id_text(item: &CslValue) -> (r: String)
    ensures
        r@ == item_id(item@),
{
    broadcast use group_csl;

    if let Some(m) = item.as_object() {
        if let Some(v) = m.get("id") {
            if let Some(s) = v.as_str() {
                return s.clone();
            }
        }
    }
    let r = String::new();
    assert(r@ =~= Seq::empty());
    r
}

/// Whether a failure was reported of a citation.
fn reported(failures: &Vec<CiteFailure>, prefix: &str, key: &str) -> (r: bool)
    ensures
        r == is_reported(failure_views(failures@), prefix@, key@),
{
    let ghost all = failure_views(failures@);
    let mut i: usize = 0;
    while i < failures.len()
        invariant
            i <= failures@.len(),
            all == failure_views(failures@),
            forall|k: int|
                0 <= k < i ==> (#[trigger] all[k]).prefix != prefix@ || all[k].key != key@,
        decreases failures@.len() - i,
    {
        assert(all[i as int] == failures@[i as int]@);
        if same(failures[i].prefix.as_str(), prefix) && same(failures[i].key.as_str(), key) {
            return true;
        }
        i += 1;
    }
    false
}

/// The items as a JSON array with a line feed behind it.
pub fn output_text(items: Vec<CslValue>, compact: bool) -> (r: String)
    ensures
        ({
            let tree = CslValue::Array(items).tree();
            r@ == (if compact {
                json_written(tree)
            } else {
                json_pretty(tree)
            }) + seq!['\n']
        }),
{
    let list = CslValue::Array(items);
    let mut text = write_json(&list, compact);
    let ghost was = text@;
    text.push('\n');
    assert(text@ =~= was + seq!['\n']);
    text
}

/// A line that the program writes for people: its name, and a message.
pub open spec fn program_line(message: Seq<char>) -> Seq<char> {
    "autocitefetch: "@ + message
}

/// A line that the program writes for people.
pub fn message_line(message: &str) -> (r: String)
    ensures
        r@ == program_line(message@),
{
    "autocitefetch: ".to_owned().concat(message)
}

/// The line that says why a run could not be done.
pub fn error_line(message: &str) -> (r: String)
    ensures
        r@ == program_line("error: "@ + message@),
{
    let text = "error: ".to_owned().concat(message);
    message_line(text.as_str())
}

/// The prefixes of sources, with a comma between them.
pub open spec fn prefix_list(sources: Seq<SourceKind>) -> Seq<char>
    decreases sources.len(),
{
    if sources.len() == 0 {
        Seq::empty()
    } else if sources.len() == 1 {
        prefix_of(sources[0])
    } else {
        prefix_list(sources.drop_last()) + ", "@ + prefix_of(sources.last())
    }
}

/// The line that announces a retrieval.
pub fn opening_text(cites: usize, sources: &Vec<SourceKind>) -> (r: String)
    ensures
        r@ == "resolving "@ + decimal(cites as nat) + " citation(s) via "@ + (if sources@.len()
            == 0 {
            "no sources"@
        } else {
            prefix_list(sources@)
        }),
{
    let n = decimal_text(cites as u64);
    let line = joined("resolving ", n.as_str(), " citation(s) via ");
    if sources.len() == 0 {
        return line.concat("no sources");
    }
    let mut list = sources[0].prefix().to_owned();
    let mut i: usize = 1;
    assert(sources@.take(1) =~= seq![sources@[0]]);
    while i < sources.len()
        invariant
            1 <= i <= sources@.len(),
            list@ == prefix_list(sources@.take(i as int)),
        decreases sources@.len() - i,
    {
        list = list.concat(", ").concat(sources[i].prefix());
        i += 1;
        assert(sources@.take(i as int).drop_last() =~= sources@.take(i - 1));
    }
    assert(sources@.take(i as int) =~= sources@);
    line.concat(list.as_str())
}

/// The line that says what was written.
pub fn closing_text(items: usize, unresolved: usize) -> (r: String)
    ensures
        r@ == "wrote "@ + decimal(items as nat) + " item(s), "@ + decimal(unresolved as nat)
            + " unresolved"@,
{
    let n = decimal_text(items as u64);
    let m = decimal_text(unresolved as u64);
    joined("wrote ", n.as_str(), " item(s), ").concat(m.as_str()).concat(" unresolved")
}

/// The last line of a run that left citations unresolved.
pub fn incomplete_text(unresolved: usize) -> (r: String)
    ensures
        r@ == decimal(unresolved as nat) + " citation(s) could not be resolved (see above)"@,
{
    decimal_text(unresolved as u64).concat(" citation(s) could not be resolved (see above)")
}

/// Every citation resolved.
pub const EXIT_OK: u8 = 0;

/// Some citation did not resolve; the ones that did are written all the same.
pub const EXIT_INCOMPLETE: u8 = 1;

/// Nothing useful could be done: bad arguments, unreadable input, a dead cache.
pub const EXIT_FATAL: u8 = 2;

/// The exit status of a run that left so many citations unresolved, or could not be done.
pub fn exit_status(outcome: &Result<usize, String>) -> (r: u8)
    ensures
        r == EXIT_OK <==> *outcome == Ok::<usize, String>(0),
        r == EXIT_INCOMPLETE <==> (*outcome matches Ok(n) && n > 0),
        r == EXIT_FATAL <==> *outcome is Err,
        r == EXIT_OK || r == EXIT_INCOMPLETE || r == EXIT_FATAL,
{
    match outcome {
        Ok(n) => if *n == 0 {
            EXIT_OK
        } else {
            EXIT_INCOMPLETE
        },
        Err(_) => EXIT_FATAL,
    }
}

/// An item with an id is written once, however often and in whatever spellings its
/// citation was asked for.
pub proof fn law_an_item_is_written_once<S: Source>(
    manager: CitationManager<S>,
    cache: Map<Seq<char>, RecordView>,
    cites: Seq<(Seq<char>, Seq<char>)>,
    failures: Seq<FailureView>,
    i: int,
    j: int,
)
    requires
        0 <= i < j < manager.read_back_of(cache, cites, failures).ids.len(),
        manager.read_back_of(cache, cites, failures).ids[i].len() > 0,
    ensures
        manager.read_back_of(cache, cites, failures).ids[i] != manager.read_back_of(
            cache,
            cites,
            failures,
        ).ids[j],
    decreases cites.len(),
{
    if cites.len() > 0 {
        let front = manager.read_back_of(cache, cites.drop_last(), failures);
        let all = manager.read_back_of(cache, cites, failures);
        if j < front.ids.len() {
            law_an_item_is_written_once(manager, cache, cites.drop_last(), failures, i, j);
        } else {
            assert(all.ids[i] == front.ids[i]);
            assert(front.ids.contains(front.ids[i]));
        }
    }
}

/// Every citation comes to an item or counts as unresolved.
pub proof fn law_what_is_unresolved_is_counted<S: Source>(
    manager: CitationManager<S>,
    cache: Map<Seq<char>, RecordView>,
    cites: Seq<(Seq<char>, Seq<char>)>,
    failures: Seq<FailureView>,
)
    ensures
        ({
            let b = manager.read_back_of(cache, cites, failures);
            &&& b.items.len() == b.ids.len()
            &&& b.unresolved == 0 <==> forall|i: int|
                0 <= i < cites.len() ==> manager.read(
                    cache,
                    (#[trigger] cites[i]).0,
                    cites[i].1,
                ) is Ok
        }),
    decreases cites.len(),
{
    if cites.len() > 0 {
        let front = cites.drop_last();
        law_what_is_unresolved_is_counted(manager, cache, front, failures);
        let b = manager.read_back_of(cache, cites, failures);
        let n = cites.len() - 1;
        if b.unresolved == 0 {
            assert forall|i: int| 0 <= i < cites.len() implies manager.read(
                cache,
                (#[trigger] cites[i]).0,
                cites[i].1,
            ) is Ok by {
                if i < n {
                    assert(front[i] == cites[i]);
                }
            }
        } else if forall|i: int|
            0 <= i < cites.len() ==> manager.read(
                cache,
                (#[trigger] cites[i]).0,
                cites[i].1,
            ) is Ok {
            assert forall|i: int| 0 <= i < front.len() implies manager.read(
                cache,
                (#[trigger] front[i]).0,
                front[i].1,
            ) is Ok by {
                assert(front[i] == cites[i]);
            }
            assert(manager.read(cache, cites[n].0, cites[n].1) is Ok);
        }
    }
}

} // verus!
