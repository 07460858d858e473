//! A cache kept in one file that can be committed, with an append log for each
//! writer.
//!
//! Three kinds of file lie side by side, named after a `base`: `{base}.jsonl`, the
//! main file, a header line and then one entry per line, sorted by id;
//! `{base}.{writer}.log`, the log of a writer, which appends entries and
//! tombstones to it without a lock; and `{base}.lock`, the lock that a compaction
//! holds.
//!
//! Reading the directory replays what was written, the last write winning: the
//! main file, then each log in the order of their names, each in the order of its
//! lines. A compaction writes the result to the main file and deletes no file but
//! this writer's own log, and that only if it was read: a log of another writer may
//! be appended to at any moment.
//!
//! A host may name the logs and the lock after another base than the main file, such
//! as `._{base}`, so that one rule tells the file to commit from the others. It may
//! also have each writer hold a lock beside its log for as long as it lives,
//! `{log}.lock`: a log that was read, whose lock is there and held by nobody, is that
//! of a writer that crashed, and may be deleted too.
//!
//! A log may end in a torn line, so what cannot be read in a log is skipped. The
//! main file is only ever replaced as a whole, so what cannot be read in it is an
//! error: to skip a line would be to delete it with the next compaction.
//!
//! A record without a fresh window (`stale_after == expires`, as a lifetime of zero
//! gives) is ephemeral: it is kept in memory and never written to a file.

use crate::driver::texts;
use crate::error::joined;
use crate::json::{json_written, plain, reads_as, splits, DEPTH_LIMIT};
use crate::known::{json_of, read_known, Shape};
use crate::lines::{
    byte_lines, lemma_encode_concat, lemma_encode_without_feed, lemma_lines_of_encoding,
    lemma_split_append, lemma_split_some, split,
};
use crate::record::{
    change_is_fine, change_of, entry_is_fine, entry_of, entry_text, entry_tree, fine_change,
    fine_entry, fine_header, header_is_fine, header_of, header_text, header_tree, is_line,
    lemma_entry_is_fine, lemma_entry_reads_back, lemma_header_is_fine, lemma_header_reads_back,
    lemma_tombstone_is_fine, lemma_tombstone_reads_back, read_entry, read_header, read_log_line,
    tombstone_text, tombstone_tree, Change, LogLine, SCHEMA_VERSION,
};
use crate::sorted::{lemma_map_of_at, lemma_map_of_dom, lemma_one_order, map_of, ordered, SortedMap};
use crate::store::{CacheRecord, RecordView, StoreError};
use crate::text::{
    found_at, chars_of, decimal, decimal_text, lemma_trim_end, lemma_trim_start, same, trim,
    trimmed,
};
use vstd::prelude::*;
use vstd::string::*;
use vstd::utf8::{
    decode_utf8, encode_utf8, encode_utf8_decode_utf8, encode_utf8_valid_utf8, valid_utf8,
};

verus! {

/// A filesystem operation failed.
#[derive(Debug, PartialEq)]
pub struct FsError(pub String);

impl FsError {
    /// The message of the error.
    pub fn message(&self) -> (r: String)
        ensures
            r@ == self.0@,
    {
        self.0.clone()
    }
}

/// The same failure, as one of the store.
pub fn fs_store(e: FsError) -> (r: StoreError)
    ensures
        r.0 == e.0,
{
    StoreError(e.0)
}

/// What a map of records holds.
pub open spec fn record_map(m: Map<Seq<char>, CacheRecord>) -> Map<Seq<char>, RecordView> {
    m.map_values(|r: CacheRecord| r@)
}

/// What a line of the main file is.
pub enum MainLine {
    NotText,
    Blank,
    Header(int),
    Entry(Seq<char>, RecordView),
    Other,
}

/// The text of a line without the white space around it.
pub open spec fn line_text(raw: Seq<u8>) -> Seq<char> {
    trim(decode_utf8(raw))
}

/// The version that a header line names. One that repeats the version is no header.
pub open spec fn header_line(text: Seq<char>) -> Option<int> {
    match json_of(text, Shape::Header) {
        Some(j) => if header_is_fine(text, j) {
            header_of(j)
        } else {
            None
        },
        None => None,
    }
}

/// The id and the record that an entry line holds. One that repeats any of its parts is no
/// entry.
pub open spec fn entry_held(text: Seq<char>) -> Option<(Seq<char>, RecordView)> {
    match json_of(text, Shape::Entry) {
        Some(j) => if entry_is_fine(text, j) {
            entry_of(j)
        } else {
            None
        },
        None => None,
    }
}

/// What a line of the main file is.
pub open spec fn main_line(raw: Seq<u8>) -> MainLine {
    if !valid_utf8(raw) {
        MainLine::NotText
    } else if line_text(raw).len() == 0 {
        MainLine::Blank
    } else {
        match (header_line(line_text(raw)), entry_held(line_text(raw))) {
            (Some(version), _) => MainLine::Header(version),
            (None, Some((id, rec))) => MainLine::Entry(id, rec),
            (None, None) => MainLine::Other,
        }
    }
}

/// The message that refuses a line that is no text.
pub open spec fn not_text_message(path: Seq<char>, line: nat) -> Seq<char> {
    path + ": line "@ + decimal(line) + " is not valid UTF-8"@
}

/// The message that refuses a file of another format version.
pub open spec fn version_message(path: Seq<char>, line: nat, version: nat) -> Seq<char> {
    path + ": line "@ + decimal(line) + ": cache schema version "@ + decimal(version)
        + " is not supported by this build (which writes version "@ + decimal(
        SCHEMA_VERSION as nat,
    ) + "); refusing to read the file rather than overwrite it"@
}

/// The message that refuses a line of another shape.
pub open spec fn other_message(path: Seq<char>, line: nat) -> Seq<char> {
    path + ": line "@ + decimal(line)
        + " is neither a header nor an entry; refusing to load the file rather than silently drop the line on the next compaction"@
}

/// What reading the lines of a main file on top of `start` gives: a map and the
/// number of entry lines, or the message that refuses the file.
pub open spec fn read_main(
    lines: Seq<Seq<u8>>,
    path: Seq<char>,
    start: Map<Seq<char>, RecordView>,
) -> Result<(Map<Seq<char>, RecordView>, nat), Seq<char>>
    decreases lines.len(),
{
    if lines.len() == 0 {
        Ok((start, 0))
    } else {
        match read_main(lines.drop_last(), path, start) {
            Err(m) => Err(m),
            Ok((map, n)) => match main_line(lines.last()) {
                MainLine::NotText => Err(not_text_message(path, lines.len())),
                MainLine::Blank => Ok((map, n)),
                MainLine::Header(v) => if v == SCHEMA_VERSION {
                    Ok((map, n))
                } else {
                    Err(version_message(path, lines.len(), v as nat))
                },
                MainLine::Entry(id, rec) => Ok((map.insert(id, rec), n + 1)),
                MainLine::Other => Err(other_message(path, lines.len())),
            },
        }
    }
}

/// What a log line does. One that repeats any of its parts does nothing.
pub open spec fn log_line(raw: Seq<u8>) -> Change {
    if !valid_utf8(raw) || line_text(raw).len() == 0 {
        Change::Nothing
    } else {
        match json_of(line_text(raw), Shape::Change) {
            Some(j) => if change_is_fine(line_text(raw), j) {
                change_of(j)
            } else {
                Change::Nothing
            },
            None => Change::Nothing,
        }
    }
}

/// The cache after a change.
pub open spec fn changed(map: Map<Seq<char>, RecordView>, change: Change) -> Map<
    Seq<char>,
    RecordView,
> {
    match change {
        Change::Nothing => map,
        Change::Put(id, rec) => map.insert(id, rec),
        Change::Remove(id) => map.remove(id),
    }
}

/// The cache after all changes of a log, in their order.
pub open spec fn replay(lines: Seq<Seq<u8>>, start: Map<Seq<char>, RecordView>) -> Map<
    Seq<char>,
    RecordView,
>
    decreases lines.len(),
{
    if lines.len() == 0 {
        start
    } else {
        changed(replay(lines.drop_last(), start), log_line(lines.last()))
    }
}

/// Whether a log removes anything.
pub open spec fn has_tombstone(lines: Seq<Seq<u8>>) -> bool {
    exists|i: int| 0 <= i < lines.len() && log_line(#[trigger] lines[i]) is Remove
}

/// A line of the main file.
enum ReadLine {
    NotText,
    Blank,
    Header(u32),
    Entry(String, CacheRecord),
    Other,
}

impl View for ReadLine {
    type V = MainLine;

    closed spec fn view(&self) -> MainLine {
        match self {
            ReadLine::NotText => MainLine::NotText,
            ReadLine::Blank => MainLine::Blank,
            ReadLine::Header(v) => MainLine::Header(*v as int),
            ReadLine::Entry(id, rec) => MainLine::Entry(id@, rec@),
            ReadLine::Other => MainLine::Other,
        }
    }
}

/// Reads a line of the main file.
fn read_main_line(raw: &Vec<u8>) -> (r: ReadLine)
    ensures
        r@ == main_line(raw@),
{
    let text = match core::str::from_utf8(raw.as_slice()) {
        Ok(s) => trimmed(s),
        Err(_) => {
            return ReadLine::NotText;
        },
    };
    if text.as_str().is_empty() {
        return ReadLine::Blank;
    }
    if let Some(value) = read_known(text.as_str(), Shape::Header) {
        if fine_header(text.as_str(), &value) {
            if let Some(version) = read_header(&value) {
                return ReadLine::Header(version);
            }
        }
    }
    if let Some(value) = read_known(text.as_str(), Shape::Entry) {
        if fine_entry(text.as_str(), &value) {
            if let Some((id, rec)) = read_entry(&value) {
                return ReadLine::Entry(id, rec);
            }
        }
    }
    ReadLine::Other
}

/// `path: line n` and what follows.
fn line_message(path: &str, line: usize, rest: &str) -> (r: String)
    ensures
        r@ == path@ + ": line "@ + decimal(line as nat) + rest@,
{
    let n = decimal_text(line as u64);
    joined(path, ": line ", n.as_str()).concat(rest)
}

/// Storing a record stores its meaning.
proof fn lemma_record_insert(m: Map<Seq<char>, CacheRecord>, k: Seq<char>, rec: CacheRecord)
    ensures
        record_map(m.insert(k, rec)) == record_map(m).insert(k, rec@),
{
    assert(record_map(m.insert(k, rec)) =~= record_map(m).insert(k, rec@));
}

/// Dropping a record drops its meaning.
proof fn lemma_record_remove(m: Map<Seq<char>, CacheRecord>, k: Seq<char>)
    ensures
        record_map(m.remove(k)) == record_map(m).remove(k),
{
    assert(record_map(m.remove(k)) =~= record_map(m).remove(k));
}

/// Reads a main file into `map` and says how many entry lines it had.
///
/// Every line that is not blank must be an entry or the header of this build's
/// version; anything else is an error. The header may stand anywhere or be absent.
pub fn parse_main_into(bytes: &[u8], path: &str, map: &mut SortedMap<CacheRecord>) -> (r: Result<
    usize,
    FsError,
>)
    ensures
        ({
            let read = read_main(split(bytes@, 10u8), path@, record_map(old(map)@));
            match r {
                Ok(n) => read == Ok::<(Map<Seq<char>, RecordView>, nat), Seq<char>>(
                    (record_map(final(map)@), n as nat),
                ),
                Err(e) => read == Err::<(Map<Seq<char>, RecordView>, nat), Seq<char>>(e.0@),
            }
        }),
{
    let lines = byte_lines(bytes);
    let ghost all = split(bytes@, 10u8);
    let ghost start = record_map(map@);
    let ghost view = |v: Vec<u8>| v@;
    let mut entries: usize = 0;
    let mut i: usize = 0;
    assert(lines@.map_values(view) =~= all);
    assert(all.take(0) =~= Seq::empty());
    while i < lines.len()
        invariant
            i <= lines@.len(),
            entries <= i,
            view == (|v: Vec<u8>| v@),
            lines@.map_values(view) == all,
            read_main(all.take(i as int), path@, start) == Ok::<
                (Map<Seq<char>, RecordView>, nat),
                Seq<char>,
            >((record_map(map@), entries as nat)),
            all == split(bytes@, 10u8),
            start == record_map(old(map)@),
        decreases lines@.len() - i,
    {
        let line = read_main_line(&lines[i]);
        proof {
            assert(all[i as int] == lines@[i as int]@);
            assert(all.take(i + 1).drop_last() =~= all.take(i as int));
            assert(all.take(i + 1).last() == all[i as int]);
            if read_main(all.take(i + 1), path@, start) is Err {
                lemma_error_stays(all, i + 1, path@, start);
            }
        }
        match line {
            ReadLine::NotText => {
                return Err(FsError(line_message(path, i + 1, " is not valid UTF-8")));
            },
            ReadLine::Blank => {},
            ReadLine::Header(version) => {
                if version != SCHEMA_VERSION {
                    let v = decimal_text(version as u64);
                    let ours = decimal_text(SCHEMA_VERSION as u64);
                    let m = line_message(path, i + 1, ": cache schema version ").concat(
                        v.as_str(),
                    ).concat(" is not supported by this build (which writes version ").concat(
                        ours.as_str(),
                    ).concat("); refusing to read the file rather than overwrite it");
                    return Err(FsError(m));
                }
            },
            ReadLine::Entry(id, rec) => {
                proof {
                    lemma_record_insert(map@, id@, rec);
                }
                map.insert(id, rec);
                entries += 1;
            },
            ReadLine::Other => {
                return Err(
                    FsError(
                        line_message(
                            path,
                            i + 1,
                            " is neither a header nor an entry; refusing to load the file rather than silently drop the line on the next compaction",
                        ),
                    ),
                );
            },
        }
        i += 1;
    }
    assert(all.take(i as int) =~= all);
    Ok(entries)
}

/// What refuses the first lines refuses them all.
proof fn lemma_error_stays(
    lines: Seq<Seq<u8>>,
    n: int,
    path: Seq<char>,
    start: Map<Seq<char>, RecordView>,
)
    requires
        0 <= n <= lines.len(),
        read_main(lines.take(n), path, start) is Err,
    ensures
        read_main(lines, path, start) == read_main(lines.take(n), path, start),
    decreases lines.len(),
{
    if n < lines.len() {
        assert(lines.drop_last().take(n) =~= lines.take(n));
        lemma_error_stays(lines.drop_last(), n, path, start);
    } else {
        assert(lines.take(n) =~= lines);
    }
}

/// Reads a log line.
fn read_raw_log_line(raw: &Vec<u8>) -> (r: LogLine)
    ensures
        r@ == log_line(raw@),
{
    let text = match core::str::from_utf8(raw.as_slice()) {
        Ok(s) => trimmed(s),
        Err(_) => {
            return LogLine::Nothing;
        },
    };
    if text.as_str().is_empty() {
        return LogLine::Nothing;
    }
    match read_known(text.as_str(), Shape::Change) {
        Some(v) => if fine_change(text.as_str(), &v) {
            read_log_line(&v)
        } else {
            LogLine::Nothing
        },
        None => LogLine::Nothing,
    }
}

/// Replays a log on `map`, in the order of its lines, and says whether it held a
/// tombstone. What cannot be read is skipped.
pub fn fold_sidecar_into(bytes: &[u8], map: &mut SortedMap<CacheRecord>) -> (r: bool)
    ensures
        record_map(final(map)@) == replay(split(bytes@, 10u8), record_map(old(map)@)),
        r == has_tombstone(split(bytes@, 10u8)),
{
    let lines = byte_lines(bytes);
    let ghost all = split(bytes@, 10u8);
    let ghost start = record_map(map@);
    let ghost view = |v: Vec<u8>| v@;
    let mut saw: bool = false;
    let mut i: usize = 0;
    assert(lines@.map_values(view) =~= all);
    assert(all.take(0) =~= Seq::empty());
    while i < lines.len()
        invariant
            i <= lines@.len(),
            view == (|v: Vec<u8>| v@),
            lines@.map_values(view) == all,
            record_map(map@) == replay(all.take(i as int), start),
            saw == (exists|k: int| 0 <= k < i && log_line(#[trigger] all[k]) is Remove),
        decreases lines@.len() - i,
    {
        let line = read_raw_log_line(&lines[i]);
        proof {
            assert(all[i as int] == lines@[i as int]@);
            assert(all.take(i + 1).drop_last() =~= all.take(i as int));
            assert(all.take(i + 1).last() == all[i as int]);
        }
        match line {
            LogLine::Nothing => {},
            LogLine::Put(id, rec) => {
                proof {
                    lemma_record_insert(map@, id@, rec);
                }
                map.insert(id, rec);
            },
            LogLine::Remove(id) => {
                proof {
                    lemma_record_remove(map@, id@);
                }
                map.remove(id.as_str());
                saw = true;
            },
        }
        i += 1;
    }
    assert(all.take(i as int) =~= all);
    saw
}

/// The texts of entry lines, each with its line feed.
pub open spec fn entries_text(pairs: Seq<(Seq<char>, CacheRecord)>) -> Seq<char>
    decreases pairs.len(),
{
    if pairs.len() == 0 {
        Seq::empty()
    } else {
        entries_text(pairs.drop_last()) + json_written(
            entry_tree(pairs.last().0, pairs.last().1),
        ) + seq!['\n']
    }
}

/// The text of a main file: the header line, then one line per entry.
pub open spec fn main_text(pairs: Seq<(Seq<char>, CacheRecord)>) -> Seq<char> {
    json_written(header_tree()) + seq!['\n'] + entries_text(pairs)
}

/// Whether every entry reads back from its own text as it is.
pub open spec fn all_plain(pairs: Seq<(Seq<char>, CacheRecord)>) -> bool {
    forall|i: int|
        0 <= i < pairs.len() ==> plain(
            entry_tree((#[trigger] pairs[i]).0, pairs[i].1),
            DEPTH_LIMIT as nat,
        )
}

/// The lines of a main file.
spec fn main_lines(pairs: Seq<(Seq<char>, CacheRecord)>, n: nat) -> Seq<Seq<char>>
    decreases n,
{
    if n == 0 {
        seq![json_written(header_tree())]
    } else {
        main_lines(pairs, (n - 1) as nat).push(
            json_written(entry_tree(pairs[n - 1].0, pairs[n - 1].1)),
        )
    }
}

/// A line in braces is read as it stands.
proof fn lemma_line(line: Seq<char>)
    requires
        is_line(line),
    ensures
        valid_utf8(encode_utf8(line)),
        line_text(encode_utf8(line)) == line,
{
    encode_utf8_valid_utf8(line);
    encode_utf8_decode_utf8(line);
    lemma_trim_start(line, 0);
    assert(line.skip(0) =~= line);
    lemma_trim_end(line, line.len() as int);
    assert(line.take(line.len() as int) =~= line);
}

/// What an entry line does where it is read.
proof fn lemma_entry_line(id: Seq<char>, rec: CacheRecord, line: Seq<char>)
    requires
        is_line(line),
        splits(line, entry_tree(id, rec)),
        reads_as(line, entry_tree(id, rec)),
    ensures
        main_line(encode_utf8(line)) == MainLine::Entry(id, rec@),
        log_line(encode_utf8(line)) == Change::Put(id, rec@),
{
    lemma_line(line);
    lemma_entry_reads_back(id, rec);
    lemma_entry_is_fine(line, id, rec);
}

/// What the header line is where it is read.
proof fn lemma_header_line(line: Seq<char>)
    requires
        is_line(line),
        splits(line, header_tree()),
        reads_as(line, header_tree()),
    ensures
        main_line(encode_utf8(line)) == MainLine::Header(SCHEMA_VERSION as int),
{
    lemma_line(line);
    lemma_header_reads_back();
    lemma_header_is_fine(line);
}

/// The lines of a main file are read as what they were written from.
proof fn lemma_main_reads_back(
    pairs: Seq<(Seq<char>, CacheRecord)>,
    n: nat,
    path: Seq<char>,
    raw: Seq<Seq<u8>>,
)
    requires
        n <= pairs.len(),
        raw == main_lines(pairs, n).map_values(|l: Seq<char>| encode_utf8(l)),
        is_line(json_written(header_tree())),
        splits(json_written(header_tree()), header_tree()),
        reads_as(json_written(header_tree()), header_tree()),
        forall|i: int|
            0 <= i < n ==> is_line(
                #[trigger] json_written(entry_tree(pairs[i].0, pairs[i].1)),
            ) && splits(
                json_written(entry_tree(pairs[i].0, pairs[i].1)),
                entry_tree(pairs[i].0, pairs[i].1),
            ) && reads_as(
                json_written(entry_tree(pairs[i].0, pairs[i].1)),
                entry_tree(pairs[i].0, pairs[i].1),
            ),
    ensures
        read_main(raw, path, Map::empty()) == Ok::<(Map<Seq<char>, RecordView>, nat), Seq<char>>(
            (record_map(map_of(pairs.take(n as int))), n),
        ),
    decreases n,
{
    let enc = |l: Seq<char>| encode_utf8(l);
    if n == 0 {
        assert(raw.len() == 1);
        assert(raw.drop_last() =~= Seq::empty());
        assert(read_main(raw.drop_last(), path, Map::empty()) == Ok::<
            (Map<Seq<char>, RecordView>, nat),
            Seq<char>,
        >((Map::empty(), 0)));
        assert(raw.last() == encode_utf8(json_written(header_tree())));
        lemma_header_line(json_written(header_tree()));
        assert(pairs.take(0) =~= Seq::empty());
        assert(record_map(map_of(pairs.take(0))) =~= Map::empty());
    } else {
        let m = (n - 1) as nat;
        let line = json_written(entry_tree(pairs[n - 1].0, pairs[n - 1].1));
        assert(raw.last() == encode_utf8(line));
        assert(raw.drop_last() =~= main_lines(pairs, m).map_values(enc));
        assert(raw.drop_last() =~= main_lines(pairs, m).map_values(
            |l: Seq<char>| encode_utf8(l),
        ));
        lemma_main_reads_back(pairs, m, path, raw.drop_last());
        lemma_entry_line(pairs[n - 1].0, pairs[n - 1].1, line);
        assert(pairs.take(n as int).drop_last() =~= pairs.take(n - 1));
        lemma_record_insert(map_of(pairs.take(n - 1)), pairs[n - 1].0, pairs[n - 1].1);
    }
}

/// One cache has one main file: two maps with the same entries, whatever came first, are
/// written alike.
pub proof fn law_one_text_per_cache(
    a: Seq<(Seq<char>, CacheRecord)>,
    b: Seq<(Seq<char>, CacheRecord)>,
)
    requires
        ordered(a),
        ordered(b),
        map_of(a) == map_of(b),
    ensures
        main_text(a) == main_text(b),
{
    lemma_one_order(a, b);
}

/// The empty line is blank.
proof fn lemma_blank()
    ensures
        main_line(encode_utf8(Seq::empty())) == MainLine::Blank,
        log_line(encode_utf8(Seq::empty())) == Change::Nothing,
{
    encode_utf8_valid_utf8(Seq::empty());
    encode_utf8_decode_utf8(Seq::empty());
}

/// The text of the main file that holds `map`: the header line, then one line per
/// entry, sorted by id. Reading it back gives the same entries.
pub fn serialize_main(map: &SortedMap<CacheRecord>) -> (r: String)
    ensures
        r@ == main_text(map.pairs()),
        ordered(map.pairs()),
        all_plain(map.pairs()) ==> forall|path: Seq<char>| #[trigger]
            read_main(split(encode_utf8(r@), 10u8), path, Map::empty()) == Ok::<
                (Map<Seq<char>, RecordView>, nat),
                Seq<char>,
            >((record_map(map@), map.pairs().len())),
{
    let ghost p = map.pairs();
    let mut buf = header_text();
    let ghost header = buf@;
    buf.push('\n');
    proof {
        assert(split(Seq::<char>::empty(), '\n') =~= seq![Seq::empty()]);
        lemma_split_append(Seq::empty(), header, '\n');
        assert(Seq::<char>::empty() + header + seq!['\n'] =~= buf@);
        assert(split(buf@, '\n') =~= seq![header, Seq::empty()]);
        assert(p.take(0) =~= Seq::empty());
        assert(buf@ =~= header + seq!['\n'] + entries_text(p.take(0)));
        assert(main_lines(p, 0) =~= seq![header]);
        assert(split(buf@, '\n') =~= main_lines(p, 0).push(Seq::empty()));
    }
    let n: usize = map.len();
    let mut i: usize = 0;
    while i < n
        invariant
            i <= n == p.len(),
            p == map.pairs(),
            header == json_written(header_tree()),
            buf@ == header + seq!['\n'] + entries_text(p.take(i as int)),
            split(buf@, '\n') == main_lines(p, i as nat).push(Seq::empty()),
            forall|k: int|
                0 <= k < i ==> is_line(#[trigger] json_written(entry_tree(p[k].0, p[k].1)))
                    && splits(
                    json_written(entry_tree(p[k].0, p[k].1)),
                    entry_tree(p[k].0, p[k].1),
                ) && (plain(entry_tree(p[k].0, p[k].1), DEPTH_LIMIT as nat) ==> reads_as(
                    json_written(entry_tree(p[k].0, p[k].1)),
                    entry_tree(p[k].0, p[k].1),
                )),
        decreases n - i,
    {
        let line = entry_text(map.key_at(i).as_str(), map.value_at(i));
        let ghost before = buf@;
        buf.append(line.as_str());
        buf.push('\n');
        proof {
            assert(line@ == json_written(entry_tree(p[i as int].0, p[i as int].1)));
            assert(buf@ =~= before + line@ + seq!['\n']);
            let q = p.take(i + 1);
            assert(q.drop_last() =~= p.take(i as int));
            assert(q.last() == p[i as int]);
            assert(buf@ =~= header + seq!['\n'] + entries_text(q));
            lemma_split_append(before, line@, '\n');
            assert(main_lines(p, i as nat).push(Seq::empty()).drop_last() =~= main_lines(
                p,
                i as nat,
            ));
            assert(split(buf@, '\n') =~= main_lines(p, (i + 1) as nat).push(Seq::empty()));
        }
        i += 1;
    }
    assert(p.take(n as int) =~= p);
    proof {
        if all_plain(p) {
            assert forall|path: Seq<char>| #[trigger]
                read_main(split(encode_utf8(buf@), 10u8), path, Map::empty()) == Ok::<
                    (Map<Seq<char>, RecordView>, nat),
                    Seq<char>,
                >((record_map(map@), p.len())) by {
                let enc = |l: Seq<char>| encode_utf8(l);
                let raw = main_lines(p, n as nat).map_values(|l: Seq<char>| encode_utf8(l));
                lemma_lines_of_encoding(buf@);
                let whole = split(encode_utf8(buf@), 10u8);
                assert(whole =~= raw.push(encode_utf8(Seq::empty())));
                lemma_main_reads_back(p, n as nat, path, raw);
                assert(whole.drop_last() =~= raw);
                lemma_blank();
            }
        }
    }
    buf
}

/// Whether a log ends at the end of a line (or is empty).
pub open spec fn ends_line(log: Seq<u8>) -> bool {
    split(log, 10u8).last() == Seq::<u8>::empty()
}

/// What appending a line to a log adds to its replay.
proof fn lemma_append(
    log: Seq<u8>,
    line: Seq<char>,
    text: Seq<char>,
    start: Map<Seq<char>, RecordView>,
)
    requires
        ends_line(log),
        is_line(line),
        text == line + seq!['\n'],
    ensures
        replay(split(log + encode_utf8(text), 10u8), start) == changed(
            replay(split(log, 10u8), start),
            log_line(encode_utf8(line)),
        ),
        ends_line(log + encode_utf8(text)),
{
    let bytes = encode_utf8(line);
    lemma_encode_without_feed(line);
    lemma_encode_concat(line, seq!['\n']);
    lemma_encode_feed();
    lemma_split_some(log, 10u8);
    lemma_split_append(log, bytes, 10u8);
    assert(log + encode_utf8(text) =~= log + bytes + seq![10u8]);
    let old_lines = split(log, 10u8);
    let front = old_lines.drop_last();
    let new_lines = split(log + encode_utf8(text), 10u8);
    assert(new_lines =~= front.push(bytes).push(Seq::empty()));
    assert(new_lines.drop_last() =~= front.push(bytes));
    assert(front.push(bytes).drop_last() =~= front);
    assert(encode_utf8(Seq::empty()) =~= Seq::<u8>::empty());
    lemma_blank();
    assert(replay(old_lines, start) == replay(front, start));
    assert(replay(front.push(bytes), start) == changed(replay(front, start), log_line(bytes)));
}

/// The encoding of a line feed.
proof fn lemma_encode_feed()
    ensures
        encode_utf8(seq!['\n']) == seq![10u8],
{
    lemma_lines_of_encoding(seq!['\n']);
    vstd::utf8::is_ascii_chars_encode_utf8(seq!['\n']);
    assert(encode_utf8(seq!['\n']) =~= seq![10u8]);
}

/// Whether appending the text to a log adds the change to the log's replay.
pub open spec fn adds(text: Seq<char>, change: Change) -> bool {
    forall|log: Seq<u8>, start: Map<Seq<char>, RecordView>|
        ends_line(log) ==> #[trigger] replay(split(log + encode_utf8(text), 10u8), start)
            == changed(replay(split(log, 10u8), start), change)
}

/// An entry line with its line feed, ready to be appended to a log. Where it is
/// appended to a log, the log's replay ends with putting the record.
pub fn entry_line(id: &str, rec: &CacheRecord) -> (r: String)
    ensures
        r@ == json_written(entry_tree(id@, *rec)) + seq!['\n'],
        plain(entry_tree(id@, *rec), DEPTH_LIMIT as nat) ==> adds(
            r@,
            Change::Put(id@, rec@),
        ),
        forall|log: Seq<u8>| ends_line(log) ==> #[trigger] ends_line(log + encode_utf8(r@)),
{
    let text = entry_text(id, rec);
    let ghost line = text@;
    let mut out = text;
    out.push('\n');
    proof {
        assert(out@ =~= line + seq!['\n']);
        assert forall|log: Seq<u8>| ends_line(log) implies #[trigger] ends_line(
            log + encode_utf8(out@),
        ) by {
            lemma_append(log, line, out@, Map::empty());
        }
        if plain(entry_tree(id@, *rec), DEPTH_LIMIT as nat) {
            lemma_entry_line(id@, *rec, line);
            assert forall|log: Seq<u8>, start: Map<Seq<char>, RecordView>|
                ends_line(log) implies #[trigger] replay(
                split(log + encode_utf8(out@), 10u8),
                start,
            ) == replay(split(log, 10u8), start).insert(id@, rec@) by {
                lemma_append(log, line, out@, start);
            }
        }
    }
    out
}

/// A tombstone line with its line feed, ready to be appended to a log. Where it is
/// appended to a log, the log's replay ends with removing the id.
pub fn tombstone_line(id: &str) -> (r: String)
    ensures
        r@ == json_written(tombstone_tree(id@)) + seq!['\n'],
        adds(r@, Change::Remove(id@)),
        forall|log: Seq<u8>| ends_line(log) ==> #[trigger] ends_line(log + encode_utf8(r@)),
{
    let text = tombstone_text(id);
    let ghost line = text@;
    let mut out = text;
    out.push('\n');
    proof {
        assert(out@ =~= line + seq!['\n']);
        lemma_line(line);
        lemma_tombstone_reads_back(id@);
        lemma_tombstone_is_fine(line, id@);
        assert forall|log: Seq<u8>| ends_line(log) implies #[trigger] ends_line(
            log + encode_utf8(out@),
        ) by {
            lemma_append(log, line, out@, Map::empty());
        }
        assert forall|log: Seq<u8>, start: Map<Seq<char>, RecordView>|
            ends_line(log) implies #[trigger] replay(split(log + encode_utf8(out@), 10u8), start)
            == replay(split(log, 10u8), start).remove(id@) by {
            lemma_append(log, line, out@, start);
        }
    }
    out
}

/// The name of the log of a writer.
pub open spec fn log_name(base: Seq<char>, writer: Seq<char>) -> Seq<char> {
    base + "."@ + writer + ".log"@
}

/// Whether a file name is that of a log: there is a writer whose log it is.
pub open spec fn names_log(name: Seq<char>, base: Seq<char>) -> bool {
    exists|writer: Seq<char>| writer.len() > 0 && name == #[trigger] log_name(base, writer)
}

/// Whether `name` is a log of this family of files, `{base}.{writer}.log` with a
/// writer that is not empty.
pub fn is_sidecar(name: &str, base: &str) -> (r: bool)
    ensures
        r == names_log(name@, base@),
{
    let n = chars_of(name);
    let b = chars_of(base);
    let tail = chars_of(".log");
    proof {
        reveal_strlit(".log");
        reveal_strlit(".");
        assert("."@ =~= seq!['.']);
        if names_log(name@, base@) {
            let w = choose|w: Seq<char>| w.len() > 0 && name@ == #[trigger] log_name(base@, w);
            assert(name@.len() == base@.len() + 1 + w.len() + 4);
            assert(name@.subrange(0, base@.len() as int) =~= base@);
            assert(name@[base@.len() as int] == '.');
            assert(name@.subrange(name@.len() - 4, name@.len() as int) =~= ".log"@);
        }
    }
    if n.len() < 6 || b.len() > n.len() - 6 {
        return false;
    }
    if !found_at(&n, 0, &b) || n[b.len()] != '.' || !found_at(&n, n.len() - 4, &tail) {
        return false;
    }
    proof {
        let w = name@.subrange(base@.len() as int + 1, name@.len() - 4);
        assert(name@ =~= log_name(base@, w));
        assert(names_log(name@, base@));
    }
    true
}

/// The logs among the file names, in the order in which they are replayed.
pub fn sidecars(names: &Vec<String>, base: &str) -> (r: Vec<String>)
    ensures
        forall|i: int, j: int|
            0 <= i < j < r@.len() ==> crate::sorted::before(
                (#[trigger] r@[i])@,
                (#[trigger] r@[j])@,
            ),
        forall|i: int|
            0 <= i < r@.len() ==> names_log((#[trigger] r@[i])@, base@) && exists|k: int|
                0 <= k < names@.len() && (#[trigger] names@[k])@ == r@[i]@,
        forall|k: int|
            0 <= k < names@.len() && names_log((#[trigger] names@[k])@, base@) ==> exists|i: int|
                0 <= i < r@.len() && (#[trigger] r@[i])@ == names@[k]@,
{
    let mut found: SortedMap<()> = SortedMap::new();
    let mut k: usize = 0;
    while k < names.len()
        invariant
            k <= names@.len(),
            forall|x: Seq<char>| #[trigger]
                found@.contains_key(x) ==> names_log(x, base@) && exists|a: int|
                    0 <= a < names@.len() && (#[trigger] names@[a])@ == x,
            forall|a: int|
                0 <= a < k && names_log((#[trigger] names@[a])@, base@) ==> found@.contains_key(
                    names@[a]@,
                ),
        decreases names@.len() - k,
    {
        if is_sidecar(names[k].as_str(), base) {
            found.insert(names[k].clone(), ());
        }
        k += 1;
    }
    let ghost p = found.pairs();
    let n: usize = found.len();
    let mut out: Vec<String> = Vec::new();
    let mut i: usize = 0;
    while i < n
        invariant
            i <= n == p.len(),
            p == found.pairs(),
            out@.len() == i,
            forall|a: int| 0 <= a < i ==> (#[trigger] out@[a])@ == p[a].0,
        decreases n - i,
    {
        out.push(found.key_at(i).clone());
        i += 1;
    }
    proof {
        assert forall|a: int| 0 <= a < out@.len() implies names_log((#[trigger] out@[a])@, base@)
            && exists|k: int| 0 <= k < names@.len() && (#[trigger] names@[k])@ == out@[a]@ by {
            lemma_map_of_at(p, a);
            assert(found@.contains_key(out@[a]@));
        }
        assert forall|k: int|
            0 <= k < names@.len() && names_log((#[trigger] names@[k])@, base@) implies exists|
            i: int,
        |
            0 <= i < out@.len() && (#[trigger] out@[i])@ == names@[k]@ by {
            lemma_map_of_dom(p, names@[k]@);
            let a = choose|a: int| 0 <= a < p.len() && (#[trigger] p[a]).0 == names@[k]@;
            assert(out@[a]@ == names@[k]@);
        }
        assert forall|a: int, b: int| 0 <= a < b < out@.len() implies crate::sorted::before(
            (#[trigger] out@[a])@,
            (#[trigger] out@[b])@,
        ) by {
            assert(crate::sorted::before(p[a].0, p[b].0));
        }
    }
    out
}

/// One view of the whole cache directory.
pub struct Merged {
    /// The entries: the main file, then each log, the last write winning.
    pub map: SortedMap<CacheRecord>,
    /// Names of the logs that were read.
    pub folded: Vec<String>,
    /// How many entry lines the main file had.
    pub main_entries: usize,
    /// Whether any log held a tombstone.
    pub saw_tombstone: bool,
}

/// The bytes of a file that may be absent.
pub open spec fn opt_bytes(b: Option<Vec<u8>>) -> Seq<u8> {
    match b {
        Some(v) => v@,
        None => Seq::empty(),
    }
}

impl Merged {
    /// Reads the main file, which may be absent.
    pub fn of_main(main: &Option<Vec<u8>>, path: &str) -> (r: Result<Merged, FsError>)
        ensures
            ({
                let read = read_main(split(opt_bytes(*main), 10u8), path@, Map::empty());
                match r {
                    Ok(m) => {
                        &&& read == Ok::<(Map<Seq<char>, RecordView>, nat), Seq<char>>(
                            (record_map(m.map@), m.main_entries as nat),
                        )
                        &&& m.folded@.len() == 0
                        &&& !m.saw_tombstone
                    },
                    Err(e) => read == Err::<(Map<Seq<char>, RecordView>, nat), Seq<char>>(e.0@),
                }
            }),
    {
        let mut map: SortedMap<CacheRecord> = SortedMap::new();
        assert(record_map(map@) =~= Map::empty());
        let main_entries: usize = match main {
            Some(bytes) => match parse_main_into(bytes.as_slice(), path, &mut map) {
                Ok(n) => n,
                Err(e) => {
                    return Err(e);
                },
            },
            None => {
                proof {
                    let lines = split(Seq::<u8>::empty(), 10u8);
                    assert(lines.drop_last() =~= Seq::empty());
                    assert(encode_utf8(Seq::empty()) =~= Seq::<u8>::empty());
                    lemma_blank();
                    assert(read_main(lines.drop_last(), path@, Map::empty()) == Ok::<
                        (Map<Seq<char>, RecordView>, nat),
                        Seq<char>,
                    >((Map::empty(), 0)));
                }
                0
            },
        };
        Ok(Merged { map, folded: Vec::new(), main_entries, saw_tombstone: false })
    }

    /// Replays the log `name` on what was read so far. A log that vanished in the
    /// meantime is empty.
    pub fn fold(&mut self, name: String, content: &Option<Vec<u8>>)
        ensures
            record_map(final(self).map@) == replay(
                split(opt_bytes(*content), 10u8),
                record_map(old(self).map@),
            ),
            final(self).folded@ == old(self).folded@.push(name),
            final(self).main_entries == old(self).main_entries,
            final(self).saw_tombstone == (old(self).saw_tombstone || has_tombstone(
                split(opt_bytes(*content), 10u8),
            )),
    {
        match content {
            Some(bytes) => {
                if fold_sidecar_into(bytes.as_slice(), &mut self.map) {
                    self.saw_tombstone = true;
                }
            },
            None => {
                proof {
                    let lines = split(Seq::<u8>::empty(), 10u8);
                    assert(lines =~= seq![Seq::empty()]);
                    assert(lines.drop_last() =~= Seq::empty());
                    assert(encode_utf8(Seq::empty()) =~= Seq::<u8>::empty());
                    lemma_blank();
                    assert(replay(lines.drop_last(), record_map(self.map@)) == record_map(
                        self.map@,
                    ));
                }
            },
        }
        self.folded.push(name);
    }
}

/// A log as a host hands it over: its name, and what reading it gave.
pub type ReadLog = (String, Result<Option<Vec<u8>>, FsError>);

/// What the logs make of the entries. One that could not be read changes nothing.
pub open spec fn replay_logs(
    logs: Seq<ReadLog>,
    start: Map<Seq<char>, RecordView>,
) -> Map<Seq<char>, RecordView>
    decreases logs.len(),
{
    if logs.len() == 0 {
        start
    } else {
        let before = replay_logs(logs.drop_last(), start);
        match logs.last().1 {
            Ok(content) => replay(split(opt_bytes(content), 10u8), before),
            Err(_) => before,
        }
    }
}

/// The names of the logs that could be read.
pub open spec fn read_names(logs: Seq<ReadLog>) -> Seq<Seq<char>>
    decreases logs.len(),
{
    if logs.len() == 0 {
        Seq::empty()
    } else {
        let before = read_names(logs.drop_last());
        if logs.last().1 is Ok {
            before.push(logs.last().0@)
        } else {
            before
        }
    }
}

/// Whether one of the logs that could be read holds a tombstone.
pub open spec fn logs_bury(logs: Seq<ReadLog>) -> bool
    decreases logs.len(),
{
    logs.len() > 0 && (logs_bury(logs.drop_last()) || match logs.last().1 {
        Ok(content) => has_tombstone(split(opt_bytes(content), 10u8)),
        Err(_) => false,
    })
}

/// What a directory holds: the main file and then the logs, in the order given. A
/// main file that cannot be read is an error; a log that cannot be read is passed
/// over, and does not count as read.
pub fn load_merged(
    main: Result<Option<Vec<u8>>, FsError>,
    path: &str,
    logs: Vec<ReadLog>,
) -> (r: Result<Merged, FsError>)
    ensures
        match main {
            Err(e) => r matches Err(f) && f.0@ == e.0@,
            Ok(bytes) => match read_main(split(opt_bytes(bytes), 10u8), path@, Map::empty()) {
                Err(m) => r matches Err(f) && f.0@ == m,
                Ok((map, n)) => {
                    &&& r is Ok
                    &&& record_map(r->Ok_0.map@) == replay_logs(logs@, map)
                    &&& texts(r->Ok_0.folded@) == read_names(logs@)
                    &&& r->Ok_0.main_entries == n
                    &&& r->Ok_0.saw_tombstone == logs_bury(logs@)
                },
            },
        },
{
    let bytes = match main {
        Ok(bytes) => bytes,
        Err(e) => {
            return Err(e);
        },
    };
    let mut merged = match Merged::of_main(&bytes, path) {
        Ok(m) => m,
        Err(e) => {
            return Err(e);
        },
    };
    let ghost start = record_map(merged.map@);
    let ghost entries = merged.main_entries;
    let mut i: usize = 0;
    proof {
        assert(logs@.take(0) =~= Seq::empty());
        assert(texts(merged.folded@) =~= Seq::empty());
    }
    while i < logs.len()
        invariant
            i <= logs@.len(),
            merged.main_entries == entries,
            record_map(merged.map@) == replay_logs(logs@.take(i as int), start),
            texts(merged.folded@) == read_names(logs@.take(i as int)),
            merged.saw_tombstone == logs_bury(logs@.take(i as int)),
        decreases logs@.len() - i,
    {
        proof {
            assert(logs@.take(i + 1).drop_last() =~= logs@.take(i as int));
            assert(logs@.take(i + 1).last() == logs@[i as int]);
        }
        let ghost before = merged.folded@;
        match &logs[i].1 {
            Ok(content) => {
                let name = logs[i].0.clone();
                let ghost n = name@;
                merged.fold(name, content);
                assert(texts(merged.folded@) =~= texts(before).push(n));
            },
            Err(_) => {},
        }
        i += 1;
    }
    assert(logs@.take(logs@.len() as int) =~= logs@);
    Ok(merged)
}

/// Whether a record has no fresh window, so that it is never written to a file.
pub open spec fn ephemeral(rec: RecordView) -> bool {
    rec.stale_after == rec.expires
}

/// The entries that are never written to a file.
pub open spec fn ephemerals(m: Map<Seq<char>, RecordView>) -> Map<Seq<char>, RecordView> {
    Map::new(|k: Seq<char>| m.contains_key(k) && ephemeral(m[k]), |k: Seq<char>| m[k])
}

/// Whether the record is never written to a file.
fn is_ephemeral(rec: &CacheRecord) -> (r: bool)
    ensures
        r == ephemeral(rec@),
{
    rec.stale_after.0 == rec.expires.0
}

/// The ids of the ephemeral records.
fn ephemeral_ids(map: &SortedMap<CacheRecord>) -> (r: SortedMap<bool>)
    ensures
        forall|k: Seq<char>| #[trigger]
            r@.contains_key(k) == (map@.contains_key(k) && ephemeral(map@[k]@)),
{
    let ghost p = map.pairs();
    let n: usize = map.len();
    let mut out: SortedMap<bool> = SortedMap::new();
    let mut i: usize = 0;
    assert(p.take(0) =~= Seq::empty());
    while i < n
        invariant
            i <= n == p.len(),
            p == map.pairs(),
            ordered(p),
            forall|k: Seq<char>| #[trigger]
                out@.contains_key(k) == (map_of(p.take(i as int)).contains_key(k) && ephemeral(
                    map_of(p.take(i as int))[k]@,
                )),
        decreases n - i,
    {
        proof {
            let q = p.take(i + 1);
            let before = p.take(i as int);
            assert(q.drop_last() =~= before);
            lemma_map_of_dom(before, p[i as int].0);
            if map_of(before).contains_key(p[i as int].0) {
                let a = choose|a: int|
                    0 <= a < before.len() && (#[trigger] before[a]).0 == p[i as int].0;
                assert(crate::sorted::before(p[a].0, p[i as int].0));
                crate::sorted::lemma_before_irreflexive(p[i as int].0);
            }
        }
        if is_ephemeral(map.value_at(i)) {
            out.insert(map.key_at(i).clone(), true);
        }
        i += 1;
    }
    assert(p.take(n as int) =~= p);
    out
}

/// The path of the main file.
pub open spec fn main_path_of(dir: Seq<char>, base: Seq<char>) -> Seq<char> {
    dir + "/"@ + base + ".jsonl"@
}

/// The path of the main file.
pub fn main_path(dir: &str, base: &str) -> (r: String)
    ensures
        r@ == main_path_of(dir@, base@),
{
    joined(dir, "/", base).concat(".jsonl")
}

/// The path of a file in a directory.
pub fn path_in(dir: &str, name: &str) -> (r: String)
    ensures
        r@ == dir@ + "/"@ + name@,
{
    joined(dir, "/", name)
}

/// The name of the lock that a living writer holds beside its log.
pub fn liveness_lock(log: &str) -> (r: String)
    ensures
        r@ == log@ + ".lock"@,
{
    log.to_owned().concat(".lock")
}

/// The logs among `folded`, other than `own`, whose lock is among `names`.
pub open spec fn reapable(
    folded: Seq<Seq<char>>,
    own: Seq<char>,
    names: Seq<Seq<char>>,
) -> Seq<Seq<char>>
    decreases folded.len(),
{
    if folded.len() == 0 {
        Seq::empty()
    } else {
        let rest = reapable(folded.drop_last(), own, names);
        if folded.last() != own && names.contains(folded.last() + ".lock"@) {
            rest.push(folded.last())
        } else {
            rest
        }
    }
}

/// Whether the name is in the list.
fn listed_name(names: &Vec<String>, name: &str) -> (r: bool)
    ensures
        r == texts(names@).contains(name@),
{
    let mut i: usize = 0;
    while i < names.len()
        invariant
            i <= names@.len(),
            forall|k: int| 0 <= k < i ==> (#[trigger] names@[k])@ != name@,
        decreases names@.len() - i,
    {
        if same(names[i].as_str(), name) {
            proof {
                assert(texts(names@)[i as int] == name@);
            }
            return true;
        }
        i += 1;
    }
    proof {
        if texts(names@).contains(name@) {
            let k = choose|k: int| 0 <= k < texts(names@).len() && texts(names@)[k] == name@;
            assert(names@[k]@ == name@);
        }
    }
    false
}

/// A cache kept in one main file and a log per writer. It holds the entries in
/// memory and says what to write where; the host does the reading and writing.
pub struct FileCacheStore {
    writer_id: String,
    main: String,
    sidecar_name: String,
    sidecar: String,
    lockfile: String,
    mem: SortedMap<CacheRecord>,
    /// Ids of ephemeral entries of which the files hold a record nonetheless.
    covered: SortedMap<bool>,
}

impl FileCacheStore {
    /// The entries in memory.
    pub closed spec fn cached(self) -> Map<Seq<char>, RecordView> {
        record_map(self.mem@)
    }

    /// The ids that the files hold a record of, as far as this store knows: those of all
    /// entries but the ephemeral ones, and those of records that an ephemeral one covers.
    pub closed spec fn filed(self) -> Set<Seq<char>> {
        Set::new(
            |id: Seq<char>|
                self.cached().contains_key(id) && (!ephemeral(self.cached()[id])
                    || self.covered@.contains_key(id)),
        )
    }

    /// The writer whose log the store appends to.
    pub closed spec fn writer(self) -> Seq<char> {
        self.writer_id@
    }

    /// The path of the main file.
    pub closed spec fn main_at(self) -> Seq<char> {
        self.main@
    }

    /// The name of this writer's log.
    pub closed spec fn own_log(self) -> Seq<char> {
        self.sidecar_name@
    }

    /// The path of this writer's log.
    pub closed spec fn own_log_at(self) -> Seq<char> {
        self.sidecar@
    }

    /// The path of the lock.
    pub closed spec fn lock_at(self) -> Seq<char> {
        self.lockfile@
    }

    /// Whether the two stores write to the same files.
    pub open spec fn same_files(self, other: Self) -> bool {
        &&& self.writer() == other.writer()
        &&& self.main_at() == other.main_at()
        &&& self.own_log() == other.own_log()
        &&& self.own_log_at() == other.own_log_at()
        &&& self.lock_at() == other.lock_at()
    }

    /// The files hold records of entries only.
    pub proof fn lemma_filed_is_cached(self)
        ensures
            forall|id: Seq<char>| #[trigger]
                self.filed().contains(id) ==> self.cached().contains_key(id),
    {
    }

    /// A store over the files named after `base` in `dir`, with the entries that
    /// were read from them.
    pub fn open(dir: &str, base: &str, writer_id: &str, merged: Merged) -> (r: Self)
        ensures
            r.cached() == record_map(merged.map@),
            r.filed() == record_map(merged.map@).dom(),
            r.writer() == writer_id@,
            r.main_at() == main_path_of(dir@, base@),
            r.own_log() == log_name(base@, writer_id@),
            r.own_log_at() == dir@ + "/"@ + log_name(base@, writer_id@),
            r.lock_at() == dir@ + "/"@ + base@ + ".lock"@,
    {
        FileCacheStore::open_beside(dir, base, base, writer_id, merged)
    }

    /// A store whose main file is named after `base`, and whose log and lock are
    /// named after `side`.
    pub fn open_beside(
        dir: &str,
        base: &str,
        side: &str,
        writer_id: &str,
        merged: Merged,
    ) -> (r: Self)
        ensures
            r.cached() == record_map(merged.map@),
            r.filed() == record_map(merged.map@).dom(),
            r.writer() == writer_id@,
            r.main_at() == main_path_of(dir@, base@),
            r.own_log() == log_name(side@, writer_id@),
            r.own_log_at() == dir@ + "/"@ + log_name(side@, writer_id@),
            r.lock_at() == dir@ + "/"@ + side@ + ".lock"@,
    {
        let name = joined(side, ".", writer_id).concat(".log");
        let sidecar = path_in(dir, name.as_str());
        let covered = ephemeral_ids(&merged.map);
        let r = FileCacheStore {
            writer_id: writer_id.to_owned(),
            main: main_path(dir, base),
            sidecar_name: name,
            sidecar,
            lockfile: joined(dir, "/", side).concat(".lock"),
            mem: merged.map,
            covered,
        };
        assert(r.filed() =~= record_map(merged.map@).dom());
        r
    }

    /// Whether the files hold a record with the id.
    fn is_filed(&self, id: &str) -> (r: bool)
        ensures
            r == self.filed().contains(id@),
    {
        match self.mem.get(id) {
            Some(rec) => !is_ephemeral(rec) || self.covered.get(id).is_some(),
            None => false,
        }
    }

    /// The path of the main file.
    pub fn main_file(&self) -> (r: &str)
        ensures
            r@ == self.main_at(),
    {
        self.main.as_str()
    }

    /// The path of this writer's log.
    pub fn log_file(&self) -> (r: &str)
        ensures
            r@ == self.own_log_at(),
    {
        self.sidecar.as_str()
    }

    /// The path of the lock that a compaction holds.
    pub fn lock_file(&self) -> (r: &str)
        ensures
            r@ == self.lock_at(),
    {
        self.lockfile.as_str()
    }

    /// The record with the id.
    pub fn get(&self, id: &str) -> (r: Option<CacheRecord>)
        ensures
            match r {
                Some(rec) => self.cached().contains_key(id@) && self.cached()[id@] == rec@,
                None => !self.cached().contains_key(id@),
            },
    {
        match self.mem.get(id) {
            Some(rec) => Some(rec.clone()),
            None => None,
        }
    }

    /// Stores the record and says what to append to this writer's log: nothing
    /// where the record is ephemeral.
    pub fn put(&mut self, id: &str, record: CacheRecord) -> (r: Option<String>)
        ensures
            final(self).cached() == old(self).cached().insert(id@, record@),
            final(self).filed() == (if ephemeral(record@) {
                old(self).filed()
            } else {
                old(self).filed().insert(id@)
            }),
            final(self).same_files(*old(self)),
            match r {
                Some(line) => !ephemeral(record@) && line@ == json_written(
                    entry_tree(id@, record),
                ) + seq!['\n'],
                None => ephemeral(record@),
            },
            r matches Some(line) ==> plain(entry_tree(id@, record), DEPTH_LIMIT as nat) ==> adds(
                line@,
                Change::Put(id@, record@),
            ),
    {
        let line = if is_ephemeral(&record) { None } else { Some(entry_line(id, &record)) };
        if line.is_none() && self.is_filed(id) {
            self.covered.insert(id.to_owned(), true);
        } else {
            self.covered.remove(id);
        }
        proof {
            lemma_record_insert(self.mem@, id@, record);
        }
        self.mem.insert(id.to_owned(), record);
        proof {
            let now = if ephemeral(record@) {
                old(self).filed()
            } else {
                old(self).filed().insert(id@)
            };
            assert(self.filed() =~= now);
        }
        line
    }

    /// Drops the record with the id and says what to append to this writer's log:
    /// nothing where the record is ephemeral and the files hold none with the id.
    pub fn remove(&mut self, id: &str) -> (r: Option<String>)
        ensures
            final(self).cached() == old(self).cached().remove(id@),
            final(self).filed() == old(self).filed().remove(id@),
            final(self).same_files(*old(self)),
            ({
                let silent = old(self).cached().contains_key(id@) && !old(self).filed().contains(
                    id@,
                );
                match r {
                    Some(line) => !silent && line@ == json_written(tombstone_tree(id@))
                        + seq!['\n'],
                    None => silent,
                }
            }),
            r matches Some(line) ==> adds(line@, Change::Remove(id@)),
    {
        let silent = self.mem.get(id).is_some() && !self.is_filed(id);
        let line = if silent { None } else { Some(tombstone_line(id)) };
        proof {
            lemma_record_remove(self.mem@, id@);
        }
        self.mem.remove(id);
        self.covered.remove(id);
        assert(self.filed() =~= old(self).filed().remove(id@));
        line
    }

    /// All entries, in the order of their ids.
    pub fn entries(&self) -> (r: Vec<(String, CacheRecord)>)
        ensures
            forall|i: int, j: int|
                0 <= i < j < r@.len() ==> crate::sorted::before(
                    (#[trigger] r@[i]).0@,
                    (#[trigger] r@[j]).0@,
                ),
            forall|i: int|
                0 <= i < r@.len() ==> self.cached().contains_key((#[trigger] r@[i]).0@)
                    && self.cached()[r@[i].0@] == r@[i].1@,
            forall|k: Seq<char>| #[trigger]
                self.cached().contains_key(k) ==> exists|i: int|
                    0 <= i < r@.len() && (#[trigger] r@[i]).0@ == k,
    {
        let ghost p = self.mem.pairs();
        let n: usize = self.mem.len();
        let mut out: Vec<(String, CacheRecord)> = Vec::new();
        let mut i: usize = 0;
        while i < n
            invariant
                i <= n == p.len(),
                p == self.mem.pairs(),
                out@.len() == i,
                forall|a: int|
                    0 <= a < i ==> (#[trigger] out@[a]).0@ == p[a].0 && out@[a].1@ == p[a].1@,
            decreases n - i,
        {
            out.push((self.mem.key_at(i).clone(), self.mem.value_at(i).clone()));
            i += 1;
        }
        proof {
            assert forall|a: int, b: int| 0 <= a < b < out@.len() implies crate::sorted::before(
                (#[trigger] out@[a]).0@,
                (#[trigger] out@[b]).0@,
            ) by {
                assert(crate::sorted::before(p[a].0, p[b].0));
            }
            assert forall|a: int| 0 <= a < out@.len() implies self.cached().contains_key(
                (#[trigger] out@[a]).0@,
            ) && self.cached()[out@[a].0@] == out@[a].1@ by {
                lemma_map_of_at(p, a);
            }
            assert forall|k: Seq<char>| #[trigger] self.cached().contains_key(k) implies exists|
                i: int,
            |
                0 <= i < out@.len() && (#[trigger] out@[i]).0@ == k by {
                lemma_map_of_dom(p, k);
                let a = choose|a: int| 0 <= a < p.len() && (#[trigger] p[a]).0 == k;
                assert(out@[a].0@ == k);
            }
        }
        out
    }

    /// The text that a compaction of what was read writes to the main file. It
    /// refuses to make a cache empty that no tombstone empties.
    pub(crate) fn compact(&self, merged: &Merged) -> (r: Result<String, StoreError>)
        ensures
            ({
                let refused = merged.map.pairs().len() == 0 && merged.main_entries > 0
                    && !merged.saw_tombstone;
                match r {
                    Ok(text) => !refused && text@ == main_text(merged.map.pairs()),
                    Err(e) => refused && e.0@ == self.main_at() + ": refusing to compact "@
                        + decimal(merged.main_entries as nat)
                        + " committed entries down to nothing (writer "@ + self.writer() + ")"@,
                }
            }),
            r matches Ok(text) ==> all_plain(merged.map.pairs()) ==> forall|
                path: Seq<char>,
            | #[trigger]
                read_main(split(encode_utf8(text@), 10u8), path, Map::empty()) == Ok::<
                    (Map<Seq<char>, RecordView>, nat),
                    Seq<char>,
                >((record_map(merged.map@), merged.map.pairs().len())),
    {
        if merged.map.len() == 0 && merged.main_entries > 0 && !merged.saw_tombstone {
            let n = decimal_text(merged.main_entries as u64);
            let m = joined(self.main.as_str(), ": refusing to compact ", n.as_str()).concat(
                " committed entries down to nothing (writer ",
            ).concat(self.writer_id.as_str()).concat(")");
            return Err(StoreError(m));
        }
        Ok(serialize_main(&merged.map))
    }

    /// Whether a compaction of what was read may delete this writer's log: only
    /// where the log was read.
    pub(crate) fn reaps_own_log(&self, merged: &Merged) -> (r: bool)
        ensures
            r == exists|i: int|
                0 <= i < merged.folded@.len() && (#[trigger] merged.folded@[i])@
                    == self.own_log(),
    {
        let mut i: usize = 0;
        while i < merged.folded.len()
            invariant
                i <= merged.folded@.len(),
                forall|k: int|
                    0 <= k < i ==> (#[trigger] merged.folded@[k])@ != self.own_log(),
            decreases merged.folded@.len() - i,
        {
            if same(merged.folded[i].as_str(), self.sidecar_name.as_str()) {
                return true;
            }
            i += 1;
        }
        false
    }

    /// The logs of other writers that a compaction of what was read may delete once
    /// it holds their locks: those that were read, and whose lock is among the files
    /// `names` of the directory.
    pub(crate) fn peers_to_reap(&self, merged: &Merged, names: &Vec<String>) -> (r: Vec<String>)
        ensures
            texts(r@) == reapable(texts(merged.folded@), self.own_log(), texts(names@)),
    {
        let mut out: Vec<String> = Vec::new();
        let mut i: usize = 0;
        proof {
            assert(texts(merged.folded@).take(0) =~= Seq::empty());
            assert(texts(out@) =~= Seq::empty());
        }
        while i < merged.folded.len()
            invariant
                i <= merged.folded@.len(),
                texts(out@) == reapable(
                    texts(merged.folded@).take(i as int),
                    self.own_log(),
                    texts(names@),
                ),
            decreases merged.folded@.len() - i,
        {
            let name = &merged.folded[i];
            let ghost before = out@;
            proof {
                let q = texts(merged.folded@).take(i + 1);
                assert(q.drop_last() =~= texts(merged.folded@).take(i as int));
                assert(q.last() == name@);
            }
            if !same(name.as_str(), self.sidecar_name.as_str()) {
                let lock = liveness_lock(name.as_str());
                if listed_name(names, lock.as_str()) {
                    out.push(name.clone());
                    assert(texts(out@) =~= texts(before).push(name@));
                }
            }
            i += 1;
        }
        proof {
            let all = texts(merged.folded@);
            assert(all.take(merged.folded@.len() as int) =~= all);
        }
        out
    }

    /// Takes over what a compaction has read and written. Ephemeral entries, which
    /// no file holds, stay.
    pub(crate) fn adopt(&mut self, merged: Merged)
        ensures
            final(self).cached() == record_map(merged.map@).union_prefer_right(
                ephemerals(old(self).cached()),
            ),
            final(self).filed() == record_map(merged.map@).dom(),
            final(self).same_files(*old(self)),
    {
        let mut map = merged.map;
        let mut covered = ephemeral_ids(&map);
        let ghost base = record_map(map@);
        let ghost p = self.mem.pairs();
        let n: usize = self.mem.len();
        let mut i: usize = 0;
        proof {
            assert(p.take(0) =~= Seq::empty());
            assert(ephemerals(record_map(map_of(p.take(0)))) =~= Map::empty());
            assert(base.union_prefer_right(Map::empty()) =~= base);
        }
        while i < n
            invariant
                i <= n == p.len(),
                p == self.mem.pairs(),
                ordered(p),
                record_map(map@) == base.union_prefer_right(
                    ephemerals(record_map(map_of(p.take(i as int)))),
                ),
                forall|x: Seq<char>| #[trigger]
                    covered@.contains_key(x) == (base.contains_key(x) && (ephemeral(base[x])
                        || ephemerals(record_map(map_of(p.take(i as int)))).contains_key(x))),
            decreases n - i,
        {
            let rec = self.mem.value_at(i);
            let ghost k = p[i as int].0;
            let ghost earlier = record_map(map_of(p.take(i as int)));
            proof {
                let q = p.take(i + 1);
                assert(q.drop_last() =~= p.take(i as int));
                lemma_record_insert(map_of(p.take(i as int)), k, *rec);
                lemma_map_of_dom(p.take(i as int), k);
                if earlier.contains_key(k) {
                    let a = choose|a: int|
                        0 <= a < p.take(i as int).len() && (#[trigger] p.take(i as int)[a]).0 == k;
                    assert(crate::sorted::before(p[a].0, p[i as int].0));
                    crate::sorted::lemma_before_irreflexive(k);
                }
                assert(record_map(map_of(q)) == earlier.insert(k, rec@));
            }
            if is_ephemeral(rec) {
                let copy = rec.clone();
                assert(map@.contains_key(k) == base.contains_key(k)) by {
                    assert(record_map(map@).contains_key(k) == base.contains_key(k));
                }
                if map.get(self.mem.key_at(i).as_str()).is_some() {
                    covered.insert(self.mem.key_at(i).clone(), true);
                }
                proof {
                    lemma_record_insert(map@, k, copy);
                }
                map.insert(self.mem.key_at(i).clone(), copy);
                assert(record_map(map@) =~= base.union_prefer_right(
                    ephemerals(earlier.insert(k, rec@)),
                ));
                assert(ephemerals(earlier.insert(k, rec@)) =~= ephemerals(earlier).insert(k, rec@));
            } else {
                assert(ephemerals(earlier.insert(k, rec@)) =~= ephemerals(earlier));
            }
            i += 1;
        }
        assert(p.take(n as int) =~= p);
        self.mem = map;
        self.covered = covered;
        assert(self.filed() =~= base.dom());
    }
}

/// Whether a line changes the entry with the id.
pub open spec fn touches(line: Seq<u8>, id: Seq<char>) -> bool {
    match log_line(line) {
        Change::Nothing => false,
        Change::Put(k, _) => k == id,
        Change::Remove(k) => k == id,
    }
}

/// Whether two maps agree on a key.
pub open spec fn agree(
    a: Map<Seq<char>, RecordView>,
    b: Map<Seq<char>, RecordView>,
    id: Seq<char>,
) -> bool {
    &&& a.contains_key(id) == b.contains_key(id)
    &&& a.contains_key(id) ==> a[id] == b[id]
}

/// Replaying one log and then another is replaying them in a row.
pub proof fn law_replay_in_a_row(
    a: Seq<Seq<u8>>,
    b: Seq<Seq<u8>>,
    start: Map<Seq<char>, RecordView>,
)
    ensures
        replay(a + b, start) == replay(b, replay(a, start)),
    decreases b.len(),
{
    if b.len() == 0 {
        assert(a + b =~= a);
    } else {
        assert((a + b).drop_last() =~= a + b.drop_last());
        law_replay_in_a_row(a, b.drop_last(), start);
    }
}

/// The last line that touches an id decides what becomes of it, whatever lines
/// come before it, whatever lines that touch other ids come after it, and whatever
/// the main file says.
pub proof fn law_last_write_wins(
    lines: Seq<Seq<u8>>,
    start: Map<Seq<char>, RecordView>,
    i: int,
    id: Seq<char>,
)
    requires
        0 <= i < lines.len(),
        touches(lines[i], id),
        forall|j: int| i < j < lines.len() ==> !touches(#[trigger] lines[j], id),
    ensures
        match log_line(lines[i]) {
            Change::Put(_, rec) => replay(lines, start).contains_key(id) && replay(
                lines,
                start,
            )[id] == rec,
            _ => !replay(lines, start).contains_key(id),
        },
    decreases lines.len(),
{
    let front = lines.drop_last();
    if i < lines.len() - 1 {
        assert(!touches(lines[lines.len() - 1], id));
        assert forall|j: int| i < j < front.len() implies !touches(#[trigger] front[j], id) by {
            assert(front[j] == lines[j]);
        }
        assert(front[i] == lines[i]);
        law_last_write_wins(front, start, i, id);
    }
}

/// A log leaves alone the ids that none of its lines touches.
pub proof fn law_untouched_stays(
    lines: Seq<Seq<u8>>,
    start: Map<Seq<char>, RecordView>,
    id: Seq<char>,
)
    requires
        forall|j: int| 0 <= j < lines.len() ==> !touches(#[trigger] lines[j], id),
    ensures
        agree(replay(lines, start), start, id),
    decreases lines.len(),
{
    if lines.len() > 0 {
        let front = lines.drop_last();
        assert forall|j: int| 0 <= j < front.len() implies !touches(#[trigger] front[j], id) by {
            assert(front[j] == lines[j]);
        }
        assert(!touches(lines[lines.len() - 1], id));
        law_untouched_stays(front, start, id);
    }
}

/// On an id that the log touches, the replay does not depend on what was there.
pub proof fn lemma_touched_is_settled(
    lines: Seq<Seq<u8>>,
    a: Map<Seq<char>, RecordView>,
    b: Map<Seq<char>, RecordView>,
    id: Seq<char>,
)
    requires
        exists|j: int| 0 <= j < lines.len() && touches(#[trigger] lines[j], id),
    ensures
        agree(replay(lines, a), replay(lines, b), id),
    decreases lines.len(),
{
    let front = lines.drop_last();
    if !touches(lines.last(), id) {
        let j = choose|j: int| 0 <= j < lines.len() && touches(#[trigger] lines[j], id);
        assert(j < front.len());
        assert(touches(front[j], id));
        lemma_touched_is_settled(front, a, b, id);
    }
}

/// Replaying a log again changes nothing: the logs of other writers may be read by
/// any number of compactions.
pub proof fn law_replay_is_idempotent(lines: Seq<Seq<u8>>, start: Map<Seq<char>, RecordView>)
    ensures
        replay(lines, replay(lines, start)) == replay(lines, start),
{
    let once = replay(lines, start);
    let twice = replay(lines, once);
    assert forall|id: Seq<char>|
        #![trigger once.dom().contains(id)]
        #![trigger twice.dom().contains(id)]
        once.dom().contains(id) == twice.dom().contains(id) && (once.dom().contains(id)
            ==> once[id] == twice[id]) by {
        if exists|j: int| 0 <= j < lines.len() && touches(#[trigger] lines[j], id) {
            lemma_touched_is_settled(lines, once, start, id);
        } else {
            law_untouched_stays(lines, once, id);
        }
    }
    assert(twice =~= once);
}

/// Every writer's log is found again by its name.
pub proof fn law_own_log_is_found(base: Seq<char>, writer: Seq<char>)
    requires
        writer.len() > 0,
    ensures
        names_log(log_name(base, writer), base),
{
}

/// The main file and the lock are never taken for logs.
pub proof fn law_main_and_lock_are_no_logs(base: Seq<char>)
    ensures
        !names_log(base + ".jsonl"@, base),
        !names_log(base + ".lock"@, base),
{
    reveal_strlit(".jsonl");
    reveal_strlit(".lock");
    reveal_strlit(".log");
    reveal_strlit(".");
    if names_log(base + ".jsonl"@, base) {
        let w = choose|w: Seq<char>|
            w.len() > 0 && base + ".jsonl"@ == #[trigger] log_name(base, w);
        let a = base + ".jsonl"@;
        assert(a[a.len() - 4] == 's');
        assert(log_name(base, w)[log_name(base, w).len() - 4] == '.');
    }
    if names_log(base + ".lock"@, base) {
        let w = choose|w: Seq<char>| w.len() > 0 && base + ".lock"@ == #[trigger] log_name(base, w);
        let a = base + ".lock"@;
        assert(a.len() == base.len() + 5);
        assert(log_name(base, w).len() == base.len() + 1 + w.len() + 4);
    }
}

/// No log is deleted but one that was read, is not this writer's own, and has a lock
/// beside it by which its writer can be told to be dead.
pub proof fn law_only_logs_that_were_read_are_reaped(
    folded: Seq<Seq<char>>,
    own: Seq<char>,
    names: Seq<Seq<char>>,
    log: Seq<char>,
)
    ensures
        reapable(folded, own, names).contains(log) <==> folded.contains(log) && log != own
            && names.contains(log + ".lock"@),
    decreases folded.len(),
{
    if folded.len() > 0 {
        let front = folded.drop_last();
        let rest = reapable(front, own, names);
        let all = reapable(folded, own, names);
        law_only_logs_that_were_read_are_reaped(front, own, names, log);
        assert(folded =~= front.push(folded.last()));
        if front.contains(log) {
            let k = choose|k: int| 0 <= k < front.len() && front[k] == log;
            assert(folded[k] == log);
        }
        if rest.contains(log) {
            let k = choose|k: int| 0 <= k < rest.len() && rest[k] == log;
            assert(all[k] == log);
        }
        if log == folded.last() {
            assert(folded[folded.len() - 1] == log);
            if log != own && names.contains(log + ".lock"@) {
                assert(all[all.len() - 1] == log);
            }
        }
    }
}

/// A main file with entries and logs without tombstones leave entries, so that a
/// compaction of what was read is never refused.
pub proof fn law_entries_do_not_vanish(
    main: Seq<Seq<u8>>,
    path: Seq<char>,
    logs: Seq<Seq<u8>>,
    map: Map<Seq<char>, RecordView>,
    n: nat,
)
    requires
        read_main(main, path, Map::empty()) == Ok::<(Map<Seq<char>, RecordView>, nat), Seq<char>>(
            (map, n),
        ),
        n > 0,
        !has_tombstone(logs),
    ensures
        exists|id: Seq<char>| #[trigger] replay(logs, map).contains_key(id),
{
    lemma_counted_is_there(main, path, map, n);
    let id = choose|id: Seq<char>| #[trigger] map.contains_key(id);
    lemma_kept(logs, map, id);
}

proof fn lemma_counted_is_there(
    main: Seq<Seq<u8>>,
    path: Seq<char>,
    map: Map<Seq<char>, RecordView>,
    n: nat,
)
    requires
        read_main(main, path, Map::empty()) == Ok::<(Map<Seq<char>, RecordView>, nat), Seq<char>>(
            (map, n),
        ),
        n > 0,
    ensures
        exists|id: Seq<char>| #[trigger] map.contains_key(id),
    decreases main.len(),
{
    if main.len() > 0 {
        let (before, k) = read_main(main.drop_last(), path, Map::empty())->Ok_0;
        match main_line(main.last()) {
            MainLine::Entry(id, rec) => {
                assert(map.contains_key(id));
            },
            _ => {
                lemma_counted_is_there(main.drop_last(), path, before, k);
            },
        }
    }
}

proof fn lemma_kept(logs: Seq<Seq<u8>>, map: Map<Seq<char>, RecordView>, id: Seq<char>)
    requires
        map.contains_key(id),
        !has_tombstone(logs),
    ensures
        replay(logs, map).contains_key(id),
    decreases logs.len(),
{
    if logs.len() > 0 {
        let front = logs.drop_last();
        assert(!(log_line(logs[logs.len() - 1]) is Remove));
        assert(!has_tombstone(front)) by {
            if has_tombstone(front) {
                let i = choose|i: int| 0 <= i < front.len() && log_line(#[trigger] front[i]) is Remove;
                assert(log_line(logs[i]) is Remove);
            }
        }
        lemma_kept(front, map, id);
    }
}

} // verus!
