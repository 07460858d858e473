//! Folding the logs into the main file, in an order in which nothing is lost.
//!
//! The host takes the lock of the cache ([`FileCacheStore::lock_file`]), reads the main
//! file and the logs, and hands over what it read. What it gets is a [`Compaction`], which
//! holds the text that it writes over the main file. Only when that text is in place does
//! it get a [`Compacted`], and only that says which logs are spent.

use crate::driver::texts;
use crate::filecache::{
    agree, all_plain, ephemerals, fs_store, law_untouched_stays, lemma_touched_is_settled, main_text,
    opt_bytes, read_main, reapable, record_map, replay_logs, touches, FileCacheStore, FsError, Merged,
    ReadLog,
};
use crate::lines::split;
use crate::store::{RecordView, StoreError};
use crate::text::decimal;
use vstd::prelude::*;
use vstd::string::*;
use vstd::utf8::encode_utf8;

verus! {

/// What was read, and the text that is to replace the main file.
pub struct Compaction {
    merged: Merged,
    text: String,
}

/// What was read, and is in the main file now.
pub struct Compacted {
    merged: Merged,
}

/// Whether what was read is empty although the main file has entries, and no tombstone
/// says why.
pub open spec fn vanished(m: Merged) -> bool {
    m.map.pairs().len() == 0 && m.main_entries > 0 && !m.saw_tombstone
}

/// The message of a compaction that is refused.
pub open spec fn refusal(store: FileCacheStore, m: Merged) -> Seq<char> {
    store.main_at() + ": refusing to compact "@ + decimal(m.main_entries as nat)
        + " committed entries down to nothing (writer "@ + store.writer() + ")"@
}

/// Whether the text of a main file reads as the entries, wherever the file is.
pub open spec fn holds(text: Seq<char>, entries: Map<Seq<char>, RecordView>, n: nat) -> bool {
    forall|path: Seq<char>| #[trigger]
        read_main(split(encode_utf8(text), 10u8), path, Map::empty()) == Ok::<
            (Map<Seq<char>, RecordView>, nat),
            Seq<char>,
        >((entries, n))
}

impl Compaction {
    /// What was read.
    pub closed spec fn read(self) -> Merged {
        self.merged
    }

    /// The text that is to replace the main file.
    pub closed spec fn content(self) -> Seq<char> {
        self.text@
    }

    /// The text that is to replace the main file.
    pub fn text(&self) -> (r: &str)
        ensures
            r@ == self.content(),
    {
        self.text.as_str()
    }

    /// What follows from the outcome of the replacement. Where it failed the main file and
    /// the logs are as they were, and nothing may be deleted.
    pub fn replaced(self, outcome: Result<(), FsError>) -> (r: Result<Compacted, StoreError>)
        ensures
            match outcome {
                Ok(_) => r matches Ok(c) && c.read() == self.read(),
                Err(e) => r matches Err(f) && f.0@ == e.0@,
            },
    {
        match outcome {
            Ok(_) => Ok(Compacted { merged: self.merged }),
            Err(e) => Err(fs_store(e)),
        }
    }
}

impl Compacted {
    /// What was read, and is in the main file now.
    pub closed spec fn read(self) -> Merged {
        self.merged
    }

    /// Whether this writer's log may be deleted: only where it was read.
    pub fn own_log_is_spent(&self, store: &FileCacheStore) -> (r: bool)
        ensures
            r == texts(self.read().folded@).contains(store.own_log()),
    {
        let r = store.reaps_own_log(&self.merged);
        proof {
            let names = texts(self.merged.folded@);
            if r {
                let i = choose|i: int|
                    0 <= i < self.merged.folded@.len() && (#[trigger] self.merged.folded@[i])@
                        == store.own_log();
                assert(names[i] == store.own_log());
            } else if names.contains(store.own_log()) {
                let i = choose|i: int| 0 <= i < names.len() && names[i] == store.own_log();
                assert(self.merged.folded@[i]@ == store.own_log());
            }
        }
        r
    }

    /// The logs of other writers that may be deleted by who holds the locks beside them:
    /// those that were read, and whose lock is among the files `names` of the directory.
    pub fn peers_to_reap(&self, store: &FileCacheStore, names: &Vec<String>) -> (r: Vec<String>)
        ensures
            texts(r@) == reapable(texts(self.read().folded@), store.own_log(), texts(names@)),
    {
        store.peers_to_reap(&self.merged, names)
    }
}

impl FileCacheStore {
    /// Begins a compaction with what was read while the lock was held. It is refused where
    /// the directory cannot be read, and where it would make a cache empty that no
    /// tombstone empties.
    pub fn begin_compaction(&self, loaded: Result<Merged, FsError>) -> (r: Result<
        Compaction,
        StoreError,
    >)
        ensures
            match loaded {
                Err(e) => r matches Err(f) && f.0@ == e.0@,
                Ok(m) => if vanished(m) {
                    r matches Err(f) && f.0@ == refusal(*self, m)
                } else {
                    &&& r is Ok
                    &&& r->Ok_0.read() == m
                    &&& r->Ok_0.content() == main_text(m.map.pairs())
                    &&& all_plain(m.map.pairs()) ==> holds(
                        r->Ok_0.content(),
                        record_map(m.map@),
                        m.map.pairs().len(),
                    )
                },
            },
    {
        match loaded {
            Ok(merged) => match self.compact(&merged) {
                Ok(text) => Ok(Compaction { merged, text }),
                Err(e) => Err(e),
            },
            Err(e) => Err(fs_store(e)),
        }
    }

    /// Ends a compaction: the store holds what the main file holds now. Ephemeral entries,
    /// which no file holds, stay.
    pub fn end_compaction(&mut self, done: Compacted)
        ensures
            final(self).cached() == record_map(done.read().map@).union_prefer_right(
                ephemerals(old(self).cached()),
            ),
            final(self).filed() == record_map(done.read().map@).dom(),
            final(self).same_files(*old(self)),
    {
        self.adopt(done.merged);
    }
}

/// Whether a log that could be read has a line that changes the entry with the id.
pub open spec fn log_touches(log: ReadLog, id: Seq<char>) -> bool {
    match log.1 {
        Ok(content) => exists|j: int|
            0 <= j < split(opt_bytes(content), 10u8).len() && touches(
                #[trigger] split(opt_bytes(content), 10u8)[j],
                id,
            ),
        Err(_) => false,
    }
}

/// The logs that are left: those that are not marked as deleted.
pub open spec fn left(logs: Seq<ReadLog>, deleted: Seq<bool>) -> Seq<ReadLog>
    recommends
        logs.len() == deleted.len(),
    decreases logs.len(),
{
    if logs.len() == 0 {
        Seq::empty()
    } else {
        let before = left(logs.drop_last(), deleted.drop_last());
        if deleted.last() {
            before
        } else {
            before.push(logs.last())
        }
    }
}

/// A log leaves alone the ids that it does not touch.
proof fn lemma_log_passes_by(log: ReadLog, m: Map<Seq<char>, RecordView>, id: Seq<char>)
    requires
        !log_touches(log, id),
    ensures
        agree(replay_logs(seq![log], m), m, id),
{
    assert(seq![log].drop_last() =~= Seq::empty());
    assert(replay_logs(seq![log].drop_last(), m) == m);
    match log.1 {
        Ok(content) => {
            law_untouched_stays(split(opt_bytes(content), 10u8), m, id);
        },
        Err(_) => {},
    }
}

/// One more log.
proof fn lemma_one_more(logs: Seq<ReadLog>, log: ReadLog, m: Map<Seq<char>, RecordView>)
    ensures
        replay_logs(logs.push(log), m) == replay_logs(seq![log], replay_logs(logs, m)),
{
    let n = replay_logs(logs, m);
    assert(logs.push(log).drop_last() =~= logs);
    assert(seq![log].drop_last() =~= Seq::empty());
    assert(replay_logs(seq![log].drop_last(), n) == n);
}

/// A compaction keeps what it read, whichever of the logs are deleted afterwards. The new
/// main file and the logs that are left read as the old main file and all logs did, on
/// every id that no log that is left touches, and on every id of which the last log to
/// touch it is left. (On an id that two writers wrote at once, an earlier log that is left
/// decides where the later one is deleted.)
pub proof fn law_a_compaction_keeps_what_it_read(
    logs: Seq<ReadLog>,
    deleted: Seq<bool>,
    main: Map<Seq<char>, RecordView>,
    id: Seq<char>,
)
    requires
        logs.len() == deleted.len(),
        (forall|i: int| 0 <= i < logs.len() && log_touches(#[trigger] logs[i], id) ==> deleted[i])
            || (exists|i: int|
            {
                &&& 0 <= i < logs.len()
                &&& log_touches(#[trigger] logs[i], id)
                &&& !deleted[i]
                &&& forall|j: int| i < j < logs.len() ==> !log_touches(#[trigger] logs[j], id)
            }),
    ensures
        agree(
            replay_logs(left(logs, deleted), replay_logs(logs, main)),
            replay_logs(logs, main),
            id,
        ),
{
    let all = replay_logs(logs, main);
    if forall|i: int| 0 <= i < logs.len() && log_touches(#[trigger] logs[i], id) ==> deleted[i] {
        lemma_left_passes_by(logs, deleted, all, id);
    } else {
        lemma_left_settles(logs, deleted, main, all, id);
    }
}

/// Where every log that touches an id is deleted, those that are left do not.
proof fn lemma_left_passes_by(
    logs: Seq<ReadLog>,
    deleted: Seq<bool>,
    now: Map<Seq<char>, RecordView>,
    id: Seq<char>,
)
    requires
        logs.len() == deleted.len(),
        forall|i: int| 0 <= i < logs.len() && log_touches(#[trigger] logs[i], id) ==> deleted[i],
    ensures
        agree(replay_logs(left(logs, deleted), now), now, id),
    decreases logs.len(),
{
    if logs.len() > 0 {
        let front = logs.drop_last();
        let marks = deleted.drop_last();
        assert forall|i: int| 0 <= i < front.len() && log_touches(
            #[trigger] front[i],
            id,
        ) implies marks[i] by {
            assert(front[i] == logs[i]);
        }
        lemma_left_passes_by(front, marks, now, id);
        if !deleted.last() {
            assert(!log_touches(logs[logs.len() - 1], id));
            lemma_one_more(left(front, marks), logs.last(), now);
            lemma_log_passes_by(logs.last(), replay_logs(left(front, marks), now), id);
        }
    }
}

/// Where the last log that touches an id is left, it decides on the id again, whatever it
/// finds.
proof fn lemma_left_settles(
    logs: Seq<ReadLog>,
    deleted: Seq<bool>,
    main: Map<Seq<char>, RecordView>,
    now: Map<Seq<char>, RecordView>,
    id: Seq<char>,
)
    requires
        logs.len() == deleted.len(),
        exists|i: int|
            {
                &&& 0 <= i < logs.len()
                &&& log_touches(#[trigger] logs[i], id)
                &&& !deleted[i]
                &&& forall|j: int| i < j < logs.len() ==> !log_touches(#[trigger] logs[j], id)
            },
    ensures
        agree(replay_logs(left(logs, deleted), now), replay_logs(logs, main), id),
    decreases logs.len(),
{
    let i = choose|i: int|
        {
            &&& 0 <= i < logs.len()
            &&& log_touches(#[trigger] logs[i], id)
            &&& !deleted[i]
            &&& forall|j: int| i < j < logs.len() ==> !log_touches(#[trigger] logs[j], id)
        };
    let n = logs.len() - 1;
    let front = logs.drop_last();
    let marks = deleted.drop_last();
    let a = replay_logs(left(front, marks), now);
    let b = replay_logs(front, main);
    assert(logs =~= front.push(logs[n]));
    lemma_one_more(front, logs[n], main);
    lemma_one_more(left(front, marks), logs[n], now);
    if i == n {
        let lines = split(opt_bytes(logs[n].1->Ok_0), 10u8);
        lemma_touched_is_settled(lines, a, b, id);
        assert(seq![logs[n]].drop_last() =~= Seq::empty());
        assert(replay_logs(seq![logs[n]].drop_last(), a) == a);
        assert(replay_logs(seq![logs[n]].drop_last(), b) == b);
    } else {
        assert(front[i] == logs[i]);
        assert forall|j: int| i < j < front.len() implies !log_touches(#[trigger] front[j], id) by {
            assert(front[j] == logs[j]);
        }
        lemma_left_settles(front, marks, main, now, id);
        assert(!log_touches(logs[n], id));
        lemma_log_passes_by(logs[n], a, id);
        lemma_log_passes_by(logs[n], b, id);
    }
}

} // verus!
