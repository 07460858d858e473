//! What the cache file and the logs beside it say, line by line.

use crate::compaction::log_touches;
use crate::csl::{signed_decimal, meaning, Json, Tree};
use crate::filecache::{
    agree, ephemerals, has_tombstone, log_line, logs_bury, main_line, opt_bytes, read_main,
    read_names, replay, replay_logs, touches, MainLine, ReadLog,
};
use crate::lines::split;
use crate::record::{
    change_of, entry_of, entry_tree, header_of, header_tree, lemma_entry_reads_back,
    lemma_header_reads_back, lemma_tombstone_reads_back, record_of, tombstone_tree, Change,
};
use crate::store::{CacheRecord, Payload, PayloadView, RecordView};
use crate::text::parse_signed;
use vstd::prelude::*;
use vstd::string::*;
use vstd::utf8::valid_utf8;

verus! {

/// Whether a line can stand in a main file: it is blank, a header of the version that is
/// written, or an entry.
pub open spec fn can_stand(line: Seq<u8>) -> bool {
    match main_line(line) {
        MainLine::Blank => true,
        MainLine::Header(v) => v == 1,
        MainLine::Entry(_, _) => true,
        _ => false,
    }
}

/// Whether a line is an entry with this id.
pub open spec fn is_entry_of(line: Seq<u8>, id: Seq<char>) -> bool {
    main_line(line) matches MainLine::Entry(k, _) && k == id
}

/// Every line of a main file counts: the file is read if and only if each of its lines can
/// stand there; then an id has the record of its last entry, an id without an entry keeps
/// what it had, and as many entries are counted as there are.
pub proof fn law_every_line_of_a_main_file_counts(
    lines: Seq<Seq<u8>>,
    path: Seq<char>,
    start: Map<Seq<char>, RecordView>,
)
    ensures
        read_main(lines, path, start) is Ok <==> forall|i: int|
            0 <= i < lines.len() ==> can_stand(#[trigger] lines[i]),
        read_main(lines, path, start) matches Ok((map, n)) ==> {
            &&& n == lines.filter(|l: Seq<u8>| main_line(l) is Entry).len()
            &&& forall|i: int, id: Seq<char>|
                0 <= i < lines.len() && #[trigger] is_entry_of(lines[i], id) && (forall|j: int|
                    i < j < lines.len() ==> !is_entry_of(#[trigger] lines[j], id))
                    ==> map.contains_key(id) && main_line(lines[i]) == MainLine::Entry(id, map[id])
            &&& forall|id: Seq<char>|
                (forall|j: int| 0 <= j < lines.len() ==> !is_entry_of(#[trigger] lines[j], id))
                    ==> #[trigger] agree(map, start, id)
        },
    decreases lines.len(),
{
    reveal(Seq::filter);
    if lines.len() > 0 {
        let front = lines.drop_last();
        let k = lines.len() - 1;
        law_every_line_of_a_main_file_counts(front, path, start);
        if read_main(front, path, start) is Ok {
            if can_stand(lines[k]) {
                assert forall|i: int| 0 <= i < lines.len() implies can_stand(
                    #[trigger] lines[i],
                ) by {
                    if i < k {
                        assert(front[i] == lines[i]);
                    }
                }
            }
        } else {
            let i = choose|i: int| 0 <= i < front.len() && !can_stand(#[trigger] front[i]);
            assert(lines[i] == front[i]);
        }
        if let Ok((map, n)) = read_main(lines, path, start) {
            let (before, m) = read_main(front, path, start)->Ok_0;
            assert forall|i: int, id: Seq<char>|
                0 <= i < lines.len() && #[trigger] is_entry_of(lines[i], id) && (forall|j: int|
                    i < j < lines.len() ==> !is_entry_of(
                        #[trigger] lines[j],
                        id,
                    )) implies map.contains_key(id) && main_line(lines[i]) == MainLine::Entry(
                id,
                map[id],
            ) by {
                if i < k {
                    assert(!is_entry_of(lines[k], id));
                    assert(front[i] == lines[i]);
                    assert(is_entry_of(front[i], id));
                    assert forall|j: int| i < j < front.len() implies !is_entry_of(
                        #[trigger] front[j],
                        id,
                    ) by {
                        assert(lines[j] == front[j]);
                    }
                }
            }
            assert forall|id: Seq<char>|
                (forall|j: int|
                    0 <= j < lines.len() ==> !is_entry_of(
                        #[trigger] lines[j],
                        id,
                    )) implies #[trigger] agree(map, start, id) by {
                assert(!is_entry_of(lines[k], id));
                assert forall|j: int| 0 <= j < front.len() implies !is_entry_of(
                    #[trigger] front[j],
                    id,
                ) by {
                    assert(lines[j] == front[j]);
                }
                assert(agree(before, start, id));
            }
        }
    }
}

/// A record is written with all its parts, under their names: the payload, the two times, and
/// the id that it is kept under.
pub proof fn law_a_record_is_written_with_its_parts(id: Seq<char>, rec: CacheRecord)
    ensures
        ({
            &&& entry_tree(id, rec) matches Tree::Object(e)
            &&& e.len() == 2
            &&& e[0] == ("id"@, Tree::Text(id))
            &&& e[1].0 == "rec"@
            &&& e[1].1 matches Tree::Object(r)
            &&& r.len() == 3
            &&& r[0].0 == "payload"@
            &&& r[1] == ("stale_after"@, Tree::Number(signed_decimal(rec.stale_after.0 as int)))
            &&& r[2] == ("expires"@, Tree::Number(signed_decimal(rec.expires.0 as int)))
            &&& r[0].1 matches Tree::Object(p)
            &&& p.len() == 1
            &&& match rec.payload {
                Payload::Concrete(csl) => p[0] == ("concrete"@, csl.tree()),
                Payload::Chained { prefix, key, set_properties } => {
                    &&& p[0].0 == "chained"@
                    &&& p[0].1 == Tree::Object(
                        seq![
                            ("prefix"@, Tree::Text(prefix@)),
                            ("key"@, Tree::Text(key@)),
                            ("set_properties"@, set_properties.tree()),
                        ],
                    )
                },
            }
        }),
        tombstone_tree(id) == Tree::Object(
            seq![("id"@, Tree::Text(id)), ("del"@, Tree::Bool(true))],
        ),
        header_tree() == Tree::Object(seq![("schema"@, Tree::Number(signed_decimal(1)))]),
{
}

/// What is written is read as what it is: an entry as the same record, which a log puts in
/// place, a tombstone as the removal of its id, and a header as its version.
pub proof fn law_what_is_written_is_read(id: Seq<char>, rec: CacheRecord)
    ensures
        entry_of(meaning(entry_tree(id, rec))) == Some((id, rec@)),
        change_of(meaning(entry_tree(id, rec))) == Change::Put(id, rec@),
        change_of(meaning(tombstone_tree(id))) == Change::Remove(id),
        header_of(meaning(header_tree())) == Some(1int),
{
    lemma_entry_reads_back(id, rec);
    lemma_tombstone_reads_back(id);
    lemma_header_reads_back();
}

/// What an object is as a record: it has a payload of one kind and the two times, and is
/// that record; or it lacks any of them and is none.
pub proof fn law_an_object_is_a_record_if_it_has_the_parts(m: Map<Seq<char>, Json>)
    ensures
        ({
            let times = m.contains_key("stale_after"@) && m.contains_key("expires"@)
                && m["stale_after"@] is Number && m["expires"@] is Number && parse_signed(
                m["stale_after"@]->Number_0,
            ) is Some && parse_signed(m["expires"@]->Number_0) is Some;
            &&& record_of(Json::Object(m)) is Some ==> times && m.contains_key("payload"@)
            &&& record_of(Json::Object(m)) matches Some(r) ==> {
                &&& parse_signed(m["stale_after"@]->Number_0) == Some(r.stale_after)
                &&& parse_signed(m["expires"@]->Number_0) == Some(r.expires)
            }
            &&& forall|csl: Json|
                times && m.contains_key("payload"@) && m["payload"@] == Json::Object(
                    #[trigger] Map::empty().insert("concrete"@, csl),
                ) ==> (record_of(Json::Object(m)) matches Some(r) && r.payload
                    == PayloadView::Concrete(csl))
        }),
{
    assert forall|csl: Json|
        m.contains_key("payload"@) && m["payload"@] == Json::Object(
            #[trigger] Map::empty().insert("concrete"@, csl),
        ) implies crate::record::payload_of(m["payload"@]) == Some(
        PayloadView::Concrete(csl),
    ) by {
        let p = Map::<Seq<char>, Json>::empty().insert("concrete"@, csl);
        assert(crate::sorted::only_key(p, "concrete"@));
    }
}

/// Of the logs, the last that touches an id decides on it, in the order in which they are
/// given; logs that could not be read do nothing; and an id that no log touches is as it was.
pub proof fn law_the_last_log_decides(
    logs: Seq<ReadLog>,
    start: Map<Seq<char>, RecordView>,
    i: int,
    id: Seq<char>,
)
    requires
        0 <= i <= logs.len(),
        forall|j: int| i <= j < logs.len() ==> !log_touches(#[trigger] logs[j], id),
    ensures
        agree(replay_logs(logs, start), replay_logs(logs.take(i), start), id),
        i == 0 ==> agree(replay_logs(logs, start), start, id),
        i > 0 ==> (logs[i - 1].1 matches Ok(content) ==> agree(
            replay_logs(logs, start),
            replay(split(opt_bytes(content), 10u8), replay_logs(logs.take(i - 1), start)),
            id,
        )),
    decreases logs.len(),
{
    if i == logs.len() {
        assert(logs.take(i) =~= logs);
        if i > 0 {
            assert(logs.drop_last() =~= logs.take(i - 1));
        }
    } else {
        let front = logs.drop_last();
        let n = logs.len() - 1;
        assert forall|j: int| i <= j < front.len() implies !log_touches(#[trigger] front[j], id) by {
            assert(logs[j] == front[j]);
        }
        law_the_last_log_decides(front, start, i, id);
        assert(front.take(i) =~= logs.take(i));
        if i > 0 {
            assert(front.take(i - 1) =~= logs.take(i - 1));
            assert(front[i - 1] == logs[i - 1]);
        }
        assert(!log_touches(logs[n], id));
        if let Ok(content) = logs[n].1 {
            let lines = split(opt_bytes(content), 10u8);
            assert forall|j: int| 0 <= j < lines.len() implies !touches(
                #[trigger] lines[j],
                id,
            ) by {}
            crate::filecache::law_untouched_stays(lines, replay_logs(front, start), id);
        }
    }
}

/// The logs that count as read are those that could be read, in order; and something was
/// removed if and only if a line of one of them removes it.
pub proof fn law_logs_that_could_be_read_count(logs: Seq<ReadLog>, name: Seq<char>)
    ensures
        read_names(logs).contains(name) <==> exists|i: int|
            0 <= i < logs.len() && (#[trigger] logs[i]).1 is Ok && logs[i].0@ == name,
        logs_bury(logs) <==> exists|i: int|
            0 <= i < logs.len() && ((#[trigger] logs[i]).1 matches Ok(content) && has_tombstone(
                split(opt_bytes(content), 10u8),
            )),
    decreases logs.len(),
{
    if logs.len() > 0 {
        let front = logs.drop_last();
        let n = logs.len() - 1;
        law_logs_that_could_be_read_count(front, name);
        let f = read_names(front);
        let all = read_names(logs);
        if all.contains(name) {
            let k = choose|k: int| 0 <= k < all.len() && all[k] == name;
            if k < f.len() {
                assert(f[k] == name);
                let i = choose|i: int|
                    0 <= i < front.len() && (#[trigger] front[i]).1 is Ok && front[i].0@ == name;
                assert(logs[i] == front[i]);
            } else {
                assert(logs[n].1 is Ok);
            }
        }
        if exists|i: int|
            0 <= i < logs.len() && (#[trigger] logs[i]).1 is Ok && logs[i].0@ == name {
            let i = choose|i: int|
                0 <= i < logs.len() && (#[trigger] logs[i]).1 is Ok && logs[i].0@ == name;
            if i < n {
                assert(front[i] == logs[i]);
                let k = choose|k: int| 0 <= k < f.len() && f[k] == name;
                assert(all[k] == name);
            } else {
                assert(all[f.len() as int] == name);
            }
        }
        if logs_bury(front) {
            let i = choose|i: int|
                0 <= i < front.len() && ((#[trigger] front[i]).1 matches Ok(content)
                    && has_tombstone(split(opt_bytes(content), 10u8)));
            assert(logs[i] == front[i]);
        }
        if exists|i: int|
            0 <= i < logs.len() && ((#[trigger] logs[i]).1 matches Ok(content) && has_tombstone(
                split(opt_bytes(content), 10u8),
            )) {
            let i = choose|i: int|
                0 <= i < logs.len() && ((#[trigger] logs[i]).1 matches Ok(content)
                    && has_tombstone(split(opt_bytes(content), 10u8)));
            if i < n {
                assert(front[i] == logs[i]);
            }
        }
    }
}

/// The records that are kept in memory only are those whose two expiries fall together.
pub proof fn law_what_has_no_fresh_window_is_not_written(
    m: Map<Seq<char>, RecordView>,
    id: Seq<char>,
)
    ensures
        ephemerals(m).contains_key(id) <==> m.contains_key(id) && m[id].stale_after
            == m[id].expires,
        ephemerals(m).contains_key(id) ==> ephemerals(m)[id] == m[id],
{
}

/// A line that is no text does nothing in a log, and cannot stand in a main file.
pub proof fn law_what_is_no_text_is_no_line(line: Seq<u8>)
    requires
        !valid_utf8(line),
    ensures
        log_line(line) is Nothing,
        !can_stand(line),
{
}

} // verus!
