//! The JSON form of cache records and of the lines that cache files are made of.
//!
//! A line of the main file is `{"id":...,"rec":...}` or the header `{"schema":1}`;
//! a line of a log is such an entry or a tombstone, `{"id":...,"del":true}`.

use crate::csl::{
    fields, group_csl, json_map, json_seq, lemma_leaf, lemma_meaning_1, lemma_meaning_2, lemma_meaning_3,
    lemma_signed_decimal, meaning, number_as_i64, number_of, signed_decimal, CslValue, Json, Tree,
};
use crate::driver::texts;
use crate::env::Timestamp;
use crate::json::{
    distinct, json_written, member_trees, object_value, plain, reads_as, splits, to_value,
    value_text, value_tree, DEPTH_LIMIT,
};
use crate::members::{is_named, members, members_of, text_pairs, values, values_of};
use crate::sorted::{lemma_map_of_at, lemma_only_key, only_key};
use crate::store::{CacheRecord, Payload, PayloadView, RecordView};
use crate::text::{parse_signed, same};
use vstd::prelude::*;
use vstd::string::*;

verus! {

/// The version of the main file's format. It stands in the header and is checked
/// on reading, so that a file of another build is refused, not overwritten.
pub const SCHEMA_VERSION: u32 = 1;

/// The integer that a JSON number is, if it is one that fits in `i64`.
pub open spec fn integer(j: Json) -> Option<int> {
    match j {
        Json::Number(t) => parse_signed(t),
        _ => None,
    }
}

/// A part of a value that is put together of parts: the member of an object, or the item of an array that has the
/// parts in order.
pub open spec fn part_of(j: Json, place: int, name: Seq<char>) -> Option<Json> {
    match j {
        Json::Array(a) => if place < a.len() {
            Some(a[place])
        } else {
            None
        },
        _ => if fields(j).contains_key(name) {
            Some(fields(j)[name])
        } else {
            None
        },
    }
}

/// Whether an array has no more than so many items.
pub open spec fn at_most(j: Json, n: nat) -> bool {
    j matches Json::Array(a) ==> a.len() <= n
}

/// The pointer that a JSON value describes: a prefix, a key, and properties, which may be
/// absent.
pub open spec fn pointer_of(j: Json) -> Option<PayloadView> {
    match (part_of(j, 0, "prefix"@), part_of(j, 1, "key"@)) {
        (Some(Json::Text(prefix)), Some(Json::Text(key))) => if at_most(j, 3) {
            Some(
                PayloadView::Chained {
                    prefix,
                    key,
                    set_properties: match part_of(j, 2, "set_properties"@) {
                        Some(p) => p,
                        None => Json::Null,
                    },
                },
            )
        } else {
            None
        },
        _ => None,
    }
}

/// The payload that a JSON value describes: an object with the one member
/// `concrete` or `chained`.
pub open spec fn payload_of(j: Json) -> Option<PayloadView> {
    let m = fields(j);
    if only_key(m, "concrete"@) {
        Some(PayloadView::Concrete(m["concrete"@]))
    } else if only_key(m, "chained"@) {
        pointer_of(m["chained"@])
    } else {
        None
    }
}

/// The record that a JSON value describes: a payload and the two times.
pub open spec fn record_of(j: Json) -> Option<RecordView> {
    match (
        part_of(j, 0, "payload"@),
        part_of(j, 1, "stale_after"@),
        part_of(j, 2, "expires"@),
    ) {
        (Some(p), Some(s), Some(e)) => match (payload_of(p), integer(s), integer(e)) {
            (Some(payload), Some(stale_after), Some(expires)) => if at_most(j, 3) {
                Some(RecordView { payload, stale_after, expires })
            } else {
                None
            },
            _ => None,
        },
        _ => None,
    }
}

/// Whether no member of the name is repeated.
pub open spec fn once(members: Seq<(Seq<char>, Seq<char>)>, name: Seq<char>) -> bool {
    values_of(members, name).len() <= 1
}

/// Whether the text of a pointer repeats none of its parts.
pub open spec fn pointer_is_fine(text: Seq<char>, j: Json) -> bool {
    let members = members_of(text);
    j is Object ==> once(members, "prefix"@) && once(members, "key"@) && once(
        members,
        "set_properties"@,
    )
}

/// Whether the text of a payload holds one member, and repeats nothing in it.
pub open spec fn payload_is_fine(text: Seq<char>, j: Json) -> bool {
    let members = members_of(text);
    &&& members.len() == 1
    &&& fields(j).contains_key("chained"@) ==> pointer_is_fine(
        members[0].1,
        fields(j)["chained"@],
    )
}

/// Whether the text of a record repeats none of its parts.
pub open spec fn record_is_fine(text: Seq<char>, j: Json) -> bool {
    let members = members_of(text);
    match j {
        Json::Object(m) => {
            &&& once(members, "stale_after"@)
            &&& once(members, "expires"@)
            &&& once(members, "payload"@)
            &&& m.contains_key("payload"@) ==> values_of(members, "payload"@).len() == 1
                && payload_is_fine(values_of(members, "payload"@)[0], m["payload"@])
        },
        Json::Array(a) => a.len() > 0 ==> members.len() > 0 && payload_is_fine(
            members[0].0,
            a[0],
        ),
        _ => true,
    }
}

/// The text of the record of a line.
pub open spec fn record_text(text: Seq<char>, j: Json) -> Option<Seq<char>> {
    let members = members_of(text);
    if j is Array {
        if members.len() > 1 {
            Some(members[1].0)
        } else {
            None
        }
    } else if values_of(members, "rec"@).len() == 1 {
        Some(values_of(members, "rec"@)[0])
    } else {
        None
    }
}

/// Whether the text of a line repeats none of the parts of an entry.
pub open spec fn entry_is_fine(text: Seq<char>, j: Json) -> bool {
    let members = members_of(text);
    &&& j is Array || (once(members, "id"@) && once(members, "rec"@))
    &&& part_of(j, 1, "rec"@) matches Some(rec) ==> record_text(text, j) matches Some(t)
        && record_is_fine(t, rec)
}

/// Whether the text of a line repeats none of the parts of an entry or of a tombstone.
pub open spec fn change_is_fine(text: Seq<char>, j: Json) -> bool {
    entry_is_fine(text, j) && (j is Array || once(members_of(text), "del"@))
}

/// Whether the text of a line does not repeat the version.
pub open spec fn header_is_fine(text: Seq<char>, j: Json) -> bool {
    j is Array || once(members_of(text), "schema"@)
}

/// The schema version that a header names.
pub open spec fn header_of(j: Json) -> Option<int> {
    match part_of(j, 0, "schema"@) {
        Some(part) => match integer(part) {
            Some(v) => if at_most(j, 1) && 0 <= v <= u32::MAX {
                Some(v)
            } else {
                None
            },
            None => None,
        },
        None => None,
    }
}

/// The id and the record that an entry line holds.
pub open spec fn entry_of(j: Json) -> Option<(Seq<char>, RecordView)> {
    match (part_of(j, 0, "id"@), part_of(j, 1, "rec"@)) {
        (Some(Json::Text(id)), Some(part)) => match record_of(part) {
            Some(rec) => if at_most(j, 2) {
                Some((id, rec))
            } else {
                None
            },
            None => None,
        },
        _ => None,
    }
}

/// What a line of a log does to the cache.
pub enum Change {
    Nothing,
    Put(Seq<char>, RecordView),
    Remove(Seq<char>),
}

/// What a log line does: a line with `del` removes, one with a record puts. A line
/// of another shape does nothing.
pub open spec fn change_of(j: Json) -> Change {
    let rec = part_of(j, 1, "rec"@);
    let del = part_of(j, 2, "del"@);
    let has_rec = rec is Some && !(rec->Some_0 is Null);
    match part_of(j, 0, "id"@) {
        Some(Json::Text(id)) => if !at_most(j, 3) || (del is Some && !(del->Some_0 is Bool)) || (
        has_rec && record_of(rec->Some_0) is None) {
            Change::Nothing
        } else if del == Some(Json::Bool(true)) {
            Change::Remove(id)
        } else if has_rec {
            Change::Put(id, record_of(rec->Some_0)->Some_0)
        } else {
            Change::Nothing
        },
        _ => Change::Nothing,
    }
}

/// A part of a value.
fn get_part<'a>(v: &'a CslValue, place: usize, name: &str) -> (r: Option<&'a CslValue>)
    ensures
        match r {
            Some(x) => part_of(v@, place as int, name@) == Some(x@),
            None => part_of(v@, place as int, name@) is None,
        },
{
    broadcast use group_csl;

    match v {
        CslValue::Array(a) => {
            if place < a.len() {
                assert(json_seq(a@)[place as int] == a@[place as int]@);
                Some(&a[place])
            } else {
                None
            }
        },
        CslValue::Object(m) => m.get(name),
        _ => None,
    }
}

/// Whether an array has no more than so many items.
fn is_at_most(v: &CslValue, n: usize) -> (r: bool)
    ensures
        r == at_most(v@, n as nat),
{
    broadcast use group_csl;

    match v {
        CslValue::Array(a) => a.len() <= n,
        _ => true,
    }
}

/// Reads a payload.
fn read_payload(v: &CslValue) -> (r: Option<Payload>)
    ensures
        match r {
            Some(p) => payload_of(v@) == Some(p@),
            None => payload_of(v@) is None,
        },
{
    broadcast use group_csl;

    let m = match v.as_object() {
        Some(m) => m,
        None => {
            return None;
        },
    };
    let n: usize = m.len();
    proof {
        lemma_only_key(m.pairs(), "concrete"@);
        lemma_only_key(m.pairs(), "chained"@);
        lemma_same_keys(m@, "concrete"@);
        lemma_same_keys(m@, "chained"@);
    }
    if n != 1 {
        return None;
    }
    proof {
        lemma_map_of_at(m.pairs(), 0);
    }
    let name = m.key_at(0);
    let inner = m.value_at(0);
    if same(name.as_str(), "concrete") {
        return Some(Payload::Concrete(inner.clone()));
    }
    if !same(name.as_str(), "chained") {
        return None;
    }
    read_pointer(inner)
}

/// Reads a pointer.
fn read_pointer(v: &CslValue) -> (r: Option<Payload>)
    ensures
        match r {
            Some(p) => pointer_of(v@) == Some(p@),
            None => pointer_of(v@) is None,
        },
{
    broadcast use group_csl;

    let (prefix, key) = match (get_part(v, 0, "prefix"), get_part(v, 1, "key")) {
        (Some(prefix), Some(key)) => (prefix, key),
        _ => {
            return None;
        },
    };
    let (prefix, key) = match (prefix.as_str(), key.as_str()) {
        (Some(prefix), Some(key)) => (prefix, key),
        _ => {
            return None;
        },
    };
    if !is_at_most(v, 3) {
        return None;
    }
    let set_properties = match get_part(v, 2, "set_properties") {
        Some(p) => p.clone(),
        None => CslValue::Null,
    };
    Some(Payload::Chained { prefix: prefix.clone(), key: key.clone(), set_properties })
}

/// A map and its meaning have the same keys.
proof fn lemma_same_keys(m: Map<Seq<char>, CslValue>, k: Seq<char>)
    ensures
        only_key(m, k) == only_key(json_map(m), k),
{
    let j = json_map(m);
    if only_key(m, k) {
        assert forall|x: Seq<char>| #[trigger] j.contains_key(x) implies x == k by {
            assert(m.contains_key(x));
        }
    }
    if only_key(j, k) {
        assert forall|x: Seq<char>| #[trigger] m.contains_key(x) implies x == k by {
            assert(j.contains_key(x));
        }
    }
}

/// An integer.
fn as_integer(v: &CslValue) -> (r: Option<i64>)
    ensures
        match r {
            Some(i) => integer(v@) == Some(i as int),
            None => integer(v@) is None,
        },
{
    broadcast use group_csl;

    match v {
        CslValue::Number(n) => number_as_i64(n),
        _ => None,
    }
}

/// Reads a record.
pub fn read_record(v: &CslValue) -> (r: Option<CacheRecord>)
    ensures
        match r {
            Some(rec) => record_of(v@) == Some(rec@),
            None => record_of(v@) is None,
        },
{
    broadcast use group_csl;

    let (p, s, e) = match (
        get_part(v, 0, "payload"),
        get_part(v, 1, "stale_after"),
        get_part(v, 2, "expires"),
    ) {
        (Some(p), Some(s), Some(e)) => (p, s, e),
        _ => {
            return None;
        },
    };
    match (read_payload(p), as_integer(s), as_integer(e)) {
        (Some(payload), Some(stale_after), Some(expires)) => if is_at_most(v, 3) {
            Some(
                CacheRecord {
                    payload,
                    stale_after: Timestamp(stale_after),
                    expires: Timestamp(expires),
                },
            )
        } else {
            None
        },
        _ => None,
    }
}

/// Whether no member of the name is repeated.
fn is_once(members: &Vec<(String, String)>, name: &str) -> (r: bool)
    ensures
        r == once(text_pairs(members@), name@),
{
    values(members, name).len() <= 1
}

/// Whether the text of a pointer repeats none of its parts.
fn fine_pointer(text: &str, v: &CslValue) -> (r: bool)
    ensures
        r == pointer_is_fine(text@, v@),
{
    broadcast use group_csl;

    match v {
        CslValue::Object(_) => {
            let parts = members(text);
            is_once(&parts, "prefix") && is_once(&parts, "key") && is_once(
                &parts,
                "set_properties",
            )
        },
        _ => true,
    }
}

/// Whether the text of a payload holds one member, and repeats nothing in it.
fn fine_payload(text: &str, v: &CslValue) -> (r: bool)
    ensures
        r == payload_is_fine(text@, v@),
{
    broadcast use group_csl;

    let parts = members(text);
    if parts.len() != 1 {
        return false;
    }
    assert(members_of(text@)[0] == (parts@[0].0@, parts@[0].1@));
    match v {
        CslValue::Object(m) => match m.get("chained") {
            Some(c) => fine_pointer(parts[0].1.as_str(), c),
            None => true,
        },
        _ => true,
    }
}

/// Whether the text of a record repeats none of its parts.
fn fine_record(text: &str, v: &CslValue) -> (r: bool)
    ensures
        r == record_is_fine(text@, v@),
{
    broadcast use group_csl;

    let parts = members(text);
    match v {
        CslValue::Object(m) => {
            let found = values(&parts, "payload");
            if !is_once(&parts, "stale_after") || !is_once(&parts, "expires") || found.len() > 1 {
                return false;
            }
            match m.get("payload") {
                Some(p) => {
                    if found.len() != 1 {
                        return false;
                    }
                    assert(texts(found@)[0] == found@[0]@);
                    fine_payload(found[0].as_str(), p)
                },
                None => true,
            }
        },
        CslValue::Array(a) => {
            if a.len() == 0 {
                return true;
            }
            assert(json_seq(a@)[0] == a@[0]@);
            if parts.len() == 0 {
                return false;
            }
            assert(members_of(text@)[0] == (parts@[0].0@, parts@[0].1@));
            fine_payload(parts[0].0.as_str(), &a[0])
        },
        _ => true,
    }
}

/// Whether a value is an array.
fn is_array(v: &CslValue) -> (r: bool)
    ensures
        r == (v@ is Array),
{
    broadcast use group_csl;

    match v {
        CslValue::Array(_) => true,
        _ => false,
    }
}

/// Whether the text of a line repeats none of the parts of an entry.
pub fn fine_entry(text: &str, v: &CslValue) -> (r: bool)
    ensures
        r == entry_is_fine(text@, v@),
{
    let parts = members(text);
    let rec = get_part(v, 1, "rec");
    if is_array(v) {
        return match rec {
            Some(rec) => {
                if parts.len() < 2 {
                    return false;
                }
                assert(members_of(text@)[1] == (parts@[1].0@, parts@[1].1@));
                fine_record(parts[1].0.as_str(), rec)
            },
            None => true,
        };
    }
    let found = values(&parts, "rec");
    if !is_once(&parts, "id") || found.len() > 1 {
        return false;
    }
    match rec {
        Some(rec) => {
            if found.len() != 1 {
                return false;
            }
            assert(texts(found@)[0] == found@[0]@);
            fine_record(found[0].as_str(), rec)
        },
        None => true,
    }
}

/// Whether the text of a line repeats none of the parts of an entry or of a tombstone.
pub fn fine_change(text: &str, v: &CslValue) -> (r: bool)
    ensures
        r == change_is_fine(text@, v@),
{
    fine_entry(text, v) && (is_array(v) || is_once(&members(text), "del"))
}

/// Whether the text of a line does not repeat the version.
pub fn fine_header(text: &str, v: &CslValue) -> (r: bool)
    ensures
        r == header_is_fine(text@, v@),
{
    is_array(v) || is_once(&members(text), "schema")
}

/// Reads a header.
pub fn read_header(v: &CslValue) -> (r: Option<u32>)
    ensures
        match r {
            Some(n) => header_of(v@) == Some(n as int),
            None => header_of(v@) is None,
        },
{
    let part = match get_part(v, 0, "schema") {
        Some(part) => part,
        None => {
            return None;
        },
    };
    match as_integer(part) {
        Some(n) => if is_at_most(v, 1) && 0 <= n && n <= u32::MAX as i64 {
            Some(n as u32)
        } else {
            None
        },
        None => None,
    }
}

/// Reads an entry.
pub fn read_entry(v: &CslValue) -> (r: Option<(String, CacheRecord)>)
    ensures
        match r {
            Some(e) => entry_of(v@) == Some((e.0@, e.1@)),
            None => entry_of(v@) is None,
        },
{
    broadcast use group_csl;

    let (id, part) = match (get_part(v, 0, "id"), get_part(v, 1, "rec")) {
        (Some(id), Some(part)) => (id, part),
        _ => {
            return None;
        },
    };
    match (id.as_str(), read_record(part)) {
        (Some(id), Some(rec)) => if is_at_most(v, 2) {
            Some((id.clone(), rec))
        } else {
            None
        },
        _ => None,
    }
}

/// A change to the cache.
pub enum LogLine {
    Nothing,
    Put(String, CacheRecord),
    Remove(String),
}

impl View for LogLine {
    type V = Change;

    open spec fn view(&self) -> Change {
        match self {
            LogLine::Nothing => Change::Nothing,
            LogLine::Put(id, rec) => Change::Put(id@, rec@),
            LogLine::Remove(id) => Change::Remove(id@),
        }
    }
}

/// Reads a log line.
pub fn read_log_line(v: &CslValue) -> (r: LogLine)
    ensures
        r@ == change_of(v@),
{
    broadcast use group_csl;

    let id = match get_part(v, 0, "id") {
        Some(id) => match id.as_str() {
            Some(id) => id.clone(),
            None => {
                return LogLine::Nothing;
            },
        },
        None => {
            return LogLine::Nothing;
        },
    };
    if !is_at_most(v, 3) {
        return LogLine::Nothing;
    }
    let del = match get_part(v, 2, "del") {
        Some(d) => match d {
            CslValue::Bool(b) => *b,
            _ => {
                return LogLine::Nothing;
            },
        },
        None => false,
    };
    let rec = match get_part(v, 1, "rec") {
        Some(x) => match x {
            CslValue::Null => None,
            _ => match read_record(x) {
                Some(rec) => Some(rec),
                None => {
                    return LogLine::Nothing;
                },
            },
        },
        None => None,
    };
    if del {
        return LogLine::Remove(id);
    }
    match rec {
        Some(rec) => LogLine::Put(id, rec),
        None => LogLine::Nothing,
    }
}

/// The JSON form of a payload.
pub open spec fn payload_tree(p: Payload) -> Tree {
    match p {
        Payload::Concrete(csl) => Tree::Object(seq![("concrete"@, csl.tree())]),
        Payload::Chained { prefix, key, set_properties } => Tree::Object(
            seq![
                (
                    "chained"@,
                    Tree::Object(
                        seq![
                            ("prefix"@, Tree::Text(prefix@)),
                            ("key"@, Tree::Text(key@)),
                            ("set_properties"@, set_properties.tree()),
                        ],
                    ),
                ),
            ],
        ),
    }
}

/// The JSON form of a record.
pub open spec fn record_tree(rec: CacheRecord) -> Tree {
    Tree::Object(
        seq![
            ("payload"@, payload_tree(rec.payload)),
            ("stale_after"@, Tree::Number(signed_decimal(rec.stale_after.0 as int))),
            ("expires"@, Tree::Number(signed_decimal(rec.expires.0 as int))),
        ],
    )
}

/// The JSON form of an entry line.
pub open spec fn entry_tree(id: Seq<char>, rec: CacheRecord) -> Tree {
    Tree::Object(seq![("id"@, Tree::Text(id)), ("rec"@, record_tree(rec))])
}

/// The JSON form of a tombstone line.
pub open spec fn tombstone_tree(id: Seq<char>) -> Tree {
    Tree::Object(seq![("id"@, Tree::Text(id)), ("del"@, Tree::Bool(true))])
}

/// The JSON form of the header line.
pub open spec fn header_tree() -> Tree {
    Tree::Object(seq![("schema"@, Tree::Number(signed_decimal(SCHEMA_VERSION as int)))])
}

/// The names that occur in lines differ from each other.
proof fn lemma_names()
    ensures
        "id"@ != "rec"@,
        "id"@ != "del"@,
        "rec"@ != "del"@,
        "payload"@ != "stale_after"@,
        "payload"@ != "expires"@,
        "stale_after"@ != "expires"@,
        "prefix"@ != "key"@,
        "prefix"@ != "set_properties"@,
        "key"@ != "set_properties"@,
        "concrete"@ != "chained"@,
{
    reveal_strlit("id");
    reveal_strlit("rec");
    reveal_strlit("del");
    reveal_strlit("payload");
    reveal_strlit("stale_after");
    reveal_strlit("expires");
    reveal_strlit("prefix");
    reveal_strlit("key");
    reveal_strlit("set_properties");
    reveal_strlit("concrete");
    reveal_strlit("chained");
    assert("id"@.len() == 2 && "rec"@.len() == 3 && "del"@.len() == 3);
    assert("prefix"@.len() == 6 && "key"@.len() == 3 && "set_properties"@.len() == 14);
    assert("concrete"@.len() == 8 && "chained"@.len() == 7);
    assert("payload"@.len() == 7 && "stale_after"@.len() == 11 && "expires"@.len() == 7);
    assert("rec"@[0] == 'r' && "del"@[0] == 'd');
    assert("payload"@[0] == 'p' && "expires"@[0] == 'e');
}

/// A record is read back from its JSON form.
pub proof fn lemma_record_reads_back(rec: CacheRecord)
    ensures
        record_of(meaning(record_tree(rec))) == Some(rec@),
{
    lemma_names();
    lemma_signed_decimal(rec.stale_after.0 as int);
    lemma_signed_decimal(rec.expires.0 as int);
    let p = payload_tree(rec.payload);
    let a = Tree::Number(signed_decimal(rec.stale_after.0 as int));
    let b = Tree::Number(signed_decimal(rec.expires.0 as int));
    lemma_meaning_3("payload"@, p, "stale_after"@, a, "expires"@, b);
    match rec.payload {
        Payload::Concrete(csl) => {
            lemma_meaning_1("concrete"@, csl.tree());
            let m = fields(meaning(p));
            assert(only_key(m, "concrete"@));
        },
        Payload::Chained { prefix, key, set_properties } => {
            let x = Tree::Text(prefix@);
            let y = Tree::Text(key@);
            let z = set_properties.tree();
            lemma_meaning_3("prefix"@, x, "key"@, y, "set_properties"@, z);
            let inner = Tree::Object(
                seq![("prefix"@, x), ("key"@, y), ("set_properties"@, z)],
            );
            lemma_meaning_1("chained"@, inner);
            let m = fields(meaning(p));
            assert(only_key(m, "chained"@));
            assert(!m.contains_key("concrete"@));
        },
    }
}

/// An entry is read back from its JSON form, from the main file and from a log.
pub proof fn lemma_entry_reads_back(id: Seq<char>, rec: CacheRecord)
    ensures
        entry_of(meaning(entry_tree(id, rec))) == Some((id, rec@)),
        change_of(meaning(entry_tree(id, rec))) == Change::Put(id, rec@),
        header_of(meaning(entry_tree(id, rec))) is None,
{
    lemma_names();
    lemma_record_reads_back(rec);
    lemma_meaning_2("id"@, Tree::Text(id), "rec"@, record_tree(rec));
    reveal_strlit("schema");
    reveal_strlit("id");
    reveal_strlit("rec");
    assert("schema"@.len() == 6);
}

/// A tombstone is read back from its JSON form.
pub proof fn lemma_tombstone_reads_back(id: Seq<char>)
    ensures
        change_of(meaning(tombstone_tree(id))) == Change::Remove(id),
{
    lemma_names();
    lemma_meaning_2("id"@, Tree::Text(id), "del"@, Tree::Bool(true));
}

/// The header is read back from its JSON form.
pub proof fn lemma_header_reads_back()
    ensures
        header_of(meaning(header_tree())) == Some(SCHEMA_VERSION as int),
        plain(header_tree(), DEPTH_LIMIT as nat),
{
    lemma_signed_decimal(SCHEMA_VERSION as int);
    lemma_meaning_1("schema"@, Tree::Number(signed_decimal(SCHEMA_VERSION as int)));
    assert(signed_decimal((SCHEMA_VERSION as i64) as int) == signed_decimal(
        SCHEMA_VERSION as int,
    ));
    reveal_with_fuel(plain, 2);
}

/// The values of a name, where the written names are distinct ones.
proof fn lemma_values(
    written: Seq<(Seq<char>, Seq<char>)>,
    members: Seq<(Seq<char>, Tree)>,
    name: Seq<char>,
)
    requires
        written.len() == members.len(),
        distinct(members),
        forall|i: int|
            0 <= i < members.len() ==> reads_as(
                written[i].0,
                Tree::Text((#[trigger] members[i]).0),
            ),
    ensures
        forall|i: int|
            0 <= i < members.len() && (#[trigger] members[i]).0 == name ==> values_of(written, name)
                == seq![written[i].1],
        (forall|i: int| 0 <= i < members.len() ==> (#[trigger] members[i]).0 != name)
            ==> values_of(written, name).len() == 0,
    decreases written.len(),
{
    if written.len() > 0 {
        let n = written.len() - 1;
        let w = written.drop_last();
        let m = members.drop_last();
        assert(distinct(m)) by {
            assert forall|i: int, j: int| 0 <= i < j < m.len() implies (#[trigger] m[i]).0 != (
            #[trigger] m[j]).0 by {
                assert(members[i].0 != members[j].0);
            }
        }
        assert forall|i: int| 0 <= i < m.len() implies reads_as(
            w[i].0,
            Tree::Text((#[trigger] m[i]).0),
        ) by {
            assert(reads_as(written[i].0, Tree::Text(members[i].0)));
        }
        lemma_values(w, m, name);
        assert(reads_as(written[n].0, Tree::Text(members[n].0)));
        assert(is_named(written[n].0, name) == (members[n].0 == name));
        if members[n].0 == name {
            assert forall|i: int| 0 <= i < m.len() implies (#[trigger] m[i]).0 != name by {
                assert(members[i].0 != members[n].0);
            }
            assert(values_of(w, name) =~= Seq::empty());
            assert(values_of(written, name) =~= seq![written[n].1]);
        }
        assert forall|i: int|
            0 <= i < members.len() && (#[trigger] members[i]).0 == name implies values_of(
            written,
            name,
        ) == seq![written[i].1] by {
            if i < n {
                assert(members[i].0 != members[n].0);
                assert(m[i].0 == name);
                assert(values_of(w, name) == seq![w[i].1]);
            }
        }
        if forall|i: int| 0 <= i < members.len() ==> (#[trigger] members[i]).0 != name {
            assert forall|i: int| 0 <= i < m.len() implies (#[trigger] m[i]).0 != name by {
                assert(members[i].0 != name);
            }
            assert(members[n].0 != name);
        }
    }
}

/// No name stands twice in the text of an object with distinct members.
proof fn lemma_once(text: Seq<char>, members: Seq<(Seq<char>, Tree)>, name: Seq<char>)
    requires
        splits(text, Tree::Object(members)),
        distinct(members),
    ensures
        once(members_of(text), name),
        forall|i: int|
            0 <= i < members.len() && (#[trigger] members[i]).0 == name ==> values_of(
                members_of(text),
                name,
            ) == seq![json_written(members[i].1)] && splits(
                json_written(members[i].1),
                members[i].1,
            ),
{
    lemma_values(members_of(text), members, name);
    if exists|i: int| 0 <= i < members.len() && (#[trigger] members[i]).0 == name {
        let i = choose|i: int| 0 <= i < members.len() && (#[trigger] members[i]).0 == name;
        assert(values_of(members_of(text), name) == seq![members_of(text)[i].1]);
    }
}

proof fn lemma_payload_is_fine(text: Seq<char>, p: Payload)
    requires
        splits(text, payload_tree(p)),
    ensures
        payload_is_fine(text, meaning(payload_tree(p))),
{
    lemma_names();
    let members = payload_tree(p)->Object_0;
    assert(members.len() == 1);
    match p {
        Payload::Concrete(csl) => {
            lemma_meaning_1("concrete"@, csl.tree());
        },
        Payload::Chained { prefix, key, set_properties } => {
            let parts = seq![
                ("prefix"@, Tree::Text(prefix@)),
                ("key"@, Tree::Text(key@)),
                ("set_properties"@, set_properties.tree()),
            ];
            let inner = Tree::Object(parts);
            assert(members[0] == ("chained"@, inner));
            lemma_meaning_1("chained"@, inner);
            assert(splits(json_written(inner), inner));
            assert(distinct(parts));
            lemma_once(json_written(inner), parts, "prefix"@);
            lemma_once(json_written(inner), parts, "key"@);
            lemma_once(json_written(inner), parts, "set_properties"@);
        },
    }
}

proof fn lemma_record_is_fine(text: Seq<char>, rec: CacheRecord)
    requires
        splits(text, record_tree(rec)),
    ensures
        record_is_fine(text, meaning(record_tree(rec))),
{
    lemma_names();
    let parts = record_tree(rec)->Object_0;
    let p = payload_tree(rec.payload);
    assert(parts[0] == ("payload"@, p));
    assert(distinct(parts));
    lemma_once(text, parts, "payload"@);
    lemma_once(text, parts, "stale_after"@);
    lemma_once(text, parts, "expires"@);
    lemma_meaning_3("payload"@, p, "stale_after"@, parts[1].1, "expires"@, parts[2].1);
    lemma_payload_is_fine(json_written(p), rec.payload);
}

/// The text of an entry repeats nothing.
pub proof fn lemma_entry_is_fine(text: Seq<char>, id: Seq<char>, rec: CacheRecord)
    requires
        splits(text, entry_tree(id, rec)),
    ensures
        entry_is_fine(text, meaning(entry_tree(id, rec))),
        change_is_fine(text, meaning(entry_tree(id, rec))),
{
    lemma_names();
    let parts = entry_tree(id, rec)->Object_0;
    assert(parts[1] == ("rec"@, record_tree(rec)));
    assert(distinct(parts));
    lemma_once(text, parts, "id"@);
    lemma_once(text, parts, "rec"@);
    lemma_once(text, parts, "del"@);
    lemma_meaning_2("id"@, Tree::Text(id), "rec"@, record_tree(rec));
    lemma_record_is_fine(json_written(record_tree(rec)), rec);
}

/// The text of a tombstone repeats nothing.
pub proof fn lemma_tombstone_is_fine(text: Seq<char>, id: Seq<char>)
    requires
        splits(text, tombstone_tree(id)),
    ensures
        change_is_fine(text, meaning(tombstone_tree(id))),
{
    lemma_names();
    let parts = tombstone_tree(id)->Object_0;
    assert(distinct(parts));
    lemma_once(text, parts, "id"@);
    lemma_once(text, parts, "rec"@);
    lemma_once(text, parts, "del"@);
    lemma_meaning_2("id"@, Tree::Text(id), "del"@, Tree::Bool(true));
}

/// The text of a header repeats nothing.
pub proof fn lemma_header_is_fine(text: Seq<char>)
    requires
        splits(text, header_tree()),
    ensures
        header_is_fine(text, meaning(header_tree())),
{
    let parts = header_tree()->Object_0;
    assert(distinct(parts));
    lemma_once(text, parts, "schema"@);
}

/// The value of a text.
fn text_value(s: &str) -> (r: serde_json::Value)
    ensures
        value_tree(r) == Tree::Text(s@),
{
    broadcast use lemma_leaf;

    let v = CslValue::String(s.to_owned());
    to_value(&v)
}

/// The value of an integer.
fn integer_value(i: i64) -> (r: serde_json::Value)
    ensures
        value_tree(r) == Tree::Number(signed_decimal(i as int)),
{
    broadcast use lemma_leaf;

    let v = CslValue::Number(number_of(i));
    to_value(&v)
}

fn payload_value(p: &Payload) -> (r: serde_json::Value)
    ensures
        value_tree(r) == payload_tree(*p),
{
    proof {
        lemma_names();
    }
    match p {
        Payload::Concrete(csl) => {
            let mut v: Vec<(String, serde_json::Value)> = Vec::new();
            v.push(("concrete".to_owned(), to_value(csl)));
            assert(member_trees(v@) =~= payload_tree(*p)->Object_0);
            object_value(v)
        },
        Payload::Chained { prefix, key, set_properties } => {
            let mut c: Vec<(String, serde_json::Value)> = Vec::new();
            c.push(("prefix".to_owned(), text_value(prefix.as_str())));
            c.push(("key".to_owned(), text_value(key.as_str())));
            c.push(("set_properties".to_owned(), to_value(set_properties)));
            assert(member_trees(c@) =~= payload_tree(*p)->Object_0[0].1->Object_0);
            let mut v: Vec<(String, serde_json::Value)> = Vec::new();
            v.push(("chained".to_owned(), object_value(c)));
            assert(member_trees(v@) =~= payload_tree(*p)->Object_0);
            object_value(v)
        },
    }
}

fn record_value(rec: &CacheRecord) -> (r: serde_json::Value)
    ensures
        value_tree(r) == record_tree(*rec),
{
    proof {
        lemma_names();
    }
    let mut v: Vec<(String, serde_json::Value)> = Vec::new();
    v.push(("payload".to_owned(), payload_value(&rec.payload)));
    v.push(("stale_after".to_owned(), integer_value(rec.stale_after.0)));
    v.push(("expires".to_owned(), integer_value(rec.expires.0)));
    assert(member_trees(v@) =~= record_tree(*rec)->Object_0);
    object_value(v)
}

/// The text of an entry line, without a line feed.
pub fn entry_text(id: &str, rec: &CacheRecord) -> (r: String)
    ensures
        r@ == json_written(entry_tree(id@, *rec)),
        is_line(r@),
        splits(r@, entry_tree(id@, *rec)),
        plain(entry_tree(id@, *rec), DEPTH_LIMIT as nat) ==> reads_as(r@, entry_tree(id@, *rec)),
{
    proof {
        lemma_names();
    }
    let mut v: Vec<(String, serde_json::Value)> = Vec::new();
    v.push(("id".to_owned(), text_value(id)));
    v.push(("rec".to_owned(), record_value(rec)));
    assert(member_trees(v@) =~= entry_tree(id@, *rec)->Object_0);
    let whole = object_value(v);
    value_text(&whole)
}

/// The text of a tombstone line, without a line feed.
pub fn tombstone_text(id: &str) -> (r: String)
    ensures
        r@ == json_written(tombstone_tree(id@)),
        is_line(r@),
        splits(r@, tombstone_tree(id@)),
        reads_as(r@, tombstone_tree(id@)),
{
    broadcast use lemma_leaf;

    proof {
        lemma_names();
        reveal_with_fuel(plain, 2);
    }
    let mut v: Vec<(String, serde_json::Value)> = Vec::new();
    v.push(("id".to_owned(), text_value(id)));
    v.push(("del".to_owned(), to_value(&CslValue::Bool(true))));
    assert(member_trees(v@) =~= tombstone_tree(id@)->Object_0);
    let whole = object_value(v);
    value_text(&whole)
}

/// The text of the header line, without a line feed.
pub fn header_text() -> (r: String)
    ensures
        r@ == json_written(header_tree()),
        is_line(r@),
        splits(r@, header_tree()),
        reads_as(r@, header_tree()),
{
    proof {
        lemma_header_reads_back();
    }
    let mut v: Vec<(String, serde_json::Value)> = Vec::new();
    v.push(("schema".to_owned(), integer_value(SCHEMA_VERSION as i64)));
    assert(member_trees(v@) =~= header_tree()->Object_0);
    let whole = object_value(v);
    value_text(&whole)
}

/// Whether the text can stand on a line of its own: it begins and ends with a
/// brace and holds no line feed.
pub open spec fn is_line(s: Seq<char>) -> bool {
    &&& forall|i: int| 0 <= i < s.len() ==> #[trigger] s[i] != '\n'
    &&& s.len() >= 2
    &&& s[0] == '{'
    &&& s.last() == '}'
}

} // verus!
