//! Reading and writing JSON, and reading YAML, through `serde_json` and
//! `serde_yaml_ng`.

use crate::csl::{
    group_csl, json_map, json_seq, lemma_tree, meaning, meaning_of_members, number_copy, number_text,
    signed_decimal, CslValue, Json, Tree,
};
use crate::members::members_of;
use crate::sorted::{before, lemma_before_irreflexive, viewed, SortedMap};
use vstd::prelude::*;
use vstd::string::*;
use vstd::utf8::encode_utf8;

verus! {

/// `serde_json::Value`, a JSON value as the parser hands it over.
#[verifier::external_type_specification]
#[verifier::external_body]
pub struct ExValue(serde_json::Value);

/// What a `serde_json::Value` holds, its members in the order in which it keeps them.
pub uninterp spec fn value_tree(v: serde_json::Value) -> Tree;

/// What `serde_json::from_slice` makes of a byte string: a value, or a message
/// that says why it is no JSON.
pub uninterp spec fn json_parsed(bytes: Seq<u8>) -> Result<Tree, Seq<char>>;

/// What `serde_yaml_ng::from_slice` makes of a byte string: a value, or a message
/// that says why it is no YAML.
pub uninterp spec fn yaml_parsed(bytes: Seq<u8>) -> Result<Tree, Seq<char>>;

/// Whether `serde_json` takes a text for JSON, where it makes no value of it.
pub uninterp spec fn json_valid(text: Seq<char>) -> bool;

/// The text in which `serde_json::Value` displays itself, on one line.
pub uninterp spec fn json_written(t: Tree) -> Seq<char>;

/// The text in which `serde_json::Value` displays itself over several lines.
pub uninterp spec fn json_pretty(t: Tree) -> Seq<char>;

/// Whether the value reads back from its own text as it is: its numbers are integers
/// that fit in `i64` or in `u64`, or others whose own text reads back as they are, no
/// object has a member twice, and it is nested at most `depth` deep. (A number with a
/// fraction or an exponent may be read back as a neighbour.)
pub open spec fn plain(t: Tree, depth: nat) -> bool
    decreases depth,
{
    match t {
        Tree::Number(s) => {
            ||| exists|i: int| i64::MIN <= i <= u64::MAX && s == #[trigger] signed_decimal(i)
            ||| reads_as(s, t)
        },
        Tree::Array(items) => depth > 0 && forall|i: int|
            0 <= i < items.len() ==> plain(#[trigger] items[i], (depth - 1) as nat),
        Tree::Object(members) => {
            &&& depth > 0
            &&& forall|i: int|
                0 <= i < members.len() ==> plain((#[trigger] members[i]).1, (depth - 1) as nat)
            &&& distinct(members)
        },
        _ => true,
    }
}

/// How deep `serde_json` lets arrays and objects be nested in what it reads.
pub const DEPTH_LIMIT: u64 = 127;

/// Whether no two members share a name.
pub open spec fn distinct<T>(members: Seq<(Seq<char>, T)>) -> bool {
    forall|i: int, j: int|
        0 <= i < j < members.len() ==> (#[trigger] members[i]).0 != (#[trigger] members[j]).0
}

/// The members of an object, taken by view.
pub open spec fn member_trees(members: Seq<(String, serde_json::Value)>) -> Seq<
    (Seq<char>, Tree),
> {
    members.map_values(|m: (String, serde_json::Value)| (m.0@, value_tree(m.1)))
}

/// What a parser gave, taken by view.
pub open spec fn parsed_view(r: Result<serde_json::Value, String>) -> Result<Tree, Seq<char>> {
    match r {
        Ok(v) => Ok(value_tree(v)),
        Err(m) => Err(m@),
    }
}

/// Whether the JSON text denotes the value.
pub open spec fn reads_as(text: Seq<char>, t: Tree) -> bool {
    json_parsed(encode_utf8(text)) matches Ok(v) && v == t
}

/// Whether the text of an object consists of its members, each with its name and the text
/// of its value, and so do the texts of the objects among these values.
pub open spec fn splits(text: Seq<char>, t: Tree) -> bool
    decreases t,
{
    match t {
        Tree::Object(members) => {
            &&& members_of(text).len() == members.len()
            &&& forall|i: int|
                0 <= i < members.len() ==> {
                    let m = #[trigger] members[i];
                    &&& reads_as(members_of(text)[i].0, Tree::Text(m.0))
                    &&& members_of(text)[i].1 == json_written(m.1)
                    &&& splits(json_written(m.1), m.1)
                }
        },
        _ => true,
    }
}

/// `serde_json::from_str` with `serde::de::IgnoredAny`: whether the text is JSON. No value is
/// made of it, so numbers may be of any size and brackets nested to any depth.
#[verifier::external_body]
pub(crate) fn is_json(text: &str) -> (r: bool)
    ensures
        r == json_valid(text@),
{
    serde_json::from_str::<serde::de::IgnoredAny>(text).is_ok()
}

/// `serde_json::from_slice`: the value that the bytes denote, or the message of
/// the error.
#[verifier::external_body]
fn parse_value(bytes: &[u8]) -> (r: Result<serde_json::Value, String>)
    ensures
        parsed_view(r) == json_parsed(bytes@),
{
    serde_json::from_slice::<serde_json::Value>(bytes).map_err(|e| e.to_string())
}

/// `serde_yaml_ng::from_slice`: the value that the bytes denote, or the message
/// of the error.
#[verifier::external_body]
fn parse_yaml_value(bytes: &[u8]) -> (r: Result<serde_json::Value, String>)
    ensures
        parsed_view(r) == yaml_parsed(bytes@),
{
    serde_yaml_ng::from_slice::<serde_json::Value>(bytes).map_err(|e| e.to_string())
}

/// The display of a `serde_json::Value` (`ToString`): one line of text. An object stands in
/// braces, between which each member has its name, as a text that reads back, and the
/// display of its value. `serde_json::from_slice` reads the whole back as the value where
/// the value is plain.
#[verifier::external_body]
pub(crate) fn value_text(v: &serde_json::Value) -> (r: String)
    ensures
        r@ == json_written(value_tree(*v)),
        forall|i: int| 0 <= i < r@.len() ==> #[trigger] r@[i] != '\n',
        value_tree(*v) is Object ==> r@.len() >= 2 && r@[0] == '{' && r@.last() == '}',
        splits(r@, value_tree(*v)),
        plain(value_tree(*v), DEPTH_LIMIT as nat) ==> reads_as(r@, value_tree(*v)),
{
    v.to_string()
}

/// The display of a `serde_json::Value` with `{:#}`, over several lines.
#[verifier::external_body]
fn value_pretty(v: &serde_json::Value) -> (r: String)
    ensures
        r@ == json_pretty(value_tree(*v)),
{
    format!("{:#}", v)
}

/// A `serde_json::Value` by its variant.
pub enum Parts {
    Null,
    Bool(bool),
    Number(serde_json::Number),
    Text(String),
    Array(Vec<serde_json::Value>),
    Object(Vec<(String, serde_json::Value)>),
}

/// The items of an array, taken by view.
pub open spec fn item_trees(items: Seq<serde_json::Value>) -> Seq<Tree> {
    items.map_values(|v: serde_json::Value| value_tree(v))
}

/// What the parts of a value make up.
pub open spec fn parts_tree(p: Parts) -> Tree {
    match p {
        Parts::Null => Tree::Null,
        Parts::Bool(b) => Tree::Bool(b),
        Parts::Number(n) => Tree::Number(number_text(n)),
        Parts::Text(s) => Tree::Text(s@),
        Parts::Array(items) => Tree::Array(item_trees(items@)),
        Parts::Object(members) => Tree::Object(member_trees(members@)),
    }
}

/// The variant of a `serde_json::Value`, the members of an object in the order in
/// which its `serde_json::Map` keeps them.
#[verifier::external_body]
fn parts_of(v: serde_json::Value) -> (r: Parts)
    ensures
        parts_tree(r) == value_tree(v),
{
    match v {
        serde_json::Value::Null => Parts::Null,
        serde_json::Value::Bool(b) => Parts::Bool(b),
        serde_json::Value::Number(n) => Parts::Number(n),
        serde_json::Value::String(s) => Parts::Text(s),
        serde_json::Value::Array(a) => Parts::Array(a),
        serde_json::Value::Object(m) => Parts::Object(m.into_iter().collect()),
    }
}

/// The `serde_json::Value` of a variant. The `serde_json::Map` of an object keeps the
/// members in the order in which they come.
#[verifier::external_body]
fn value_of(p: Parts) -> (r: serde_json::Value)
    requires
        p matches Parts::Object(members) ==> distinct(member_trees(members@)),
    ensures
        value_tree(r) == parts_tree(p),
{
    match p {
        Parts::Null => serde_json::Value::Null,
        Parts::Bool(b) => serde_json::Value::Bool(b),
        Parts::Number(n) => serde_json::Value::Number(n),
        Parts::Text(s) => serde_json::Value::String(s),
        Parts::Array(a) => serde_json::Value::Array(a),
        Parts::Object(m) => serde_json::Value::Object(m.into_iter().collect()),
    }
}

/// What a value of the parser means.
fn from_value(v: serde_json::Value) -> (r: CslValue)
    ensures
        r@ == meaning(value_tree(v)),
    decreases value_tree(v),
{
    broadcast use group_csl;

    let ghost t = value_tree(v);
    match parts_of(v) {
        Parts::Null => CslValue::Null,
        Parts::Bool(b) => CslValue::Bool(b),
        Parts::Number(n) => CslValue::Number(n),
        Parts::Text(s) => CslValue::String(s),
        Parts::Array(items) => {
            let ghost trees = item_trees(items@);
            let mut out: Vec<CslValue> = Vec::new();
            for x in it: items.into_iter()
                invariant
                    t == value_tree(v),
                    t == Tree::Array(trees),
                    trees == item_trees(it.seq()),
                    out@.len() == it.index(),
                    forall|i: int|
                        0 <= i < out@.len() ==> (#[trigger] out@[i])@ == meaning(trees[i]),
            {
                proof {
                    let i = it.index() as int;
                    assert(trees[i] == value_tree(x));
                    assert(decreases_to!(t => t->Array_0));
                    assert(decreases_to!(trees => trees[i]));
                }
                out.push(from_value(x));
            }
            assert(json_seq(out@) =~= meaning(t)->Array_0);
            CslValue::Array(out)
        },
        Parts::Object(members) => {
            let ghost trees = member_trees(members@);
            let mut out: SortedMap<CslValue> = SortedMap::new();
            assert(trees.take(0) =~= Seq::empty());
            for m in it: members.into_iter()
                invariant
                    t == value_tree(v),
                    t == Tree::Object(trees),
                    trees == member_trees(it.seq()),
                    json_map(out@) == meaning_of_members(trees.take(it.index() as int)),
            {
                let (k, x) = m;
                proof {
                    let i = it.index() as int;
                    assert(trees[i] == (k@, value_tree(x)));
                    assert(decreases_to!(t => t->Object_0));
                    assert(decreases_to!(trees => trees[i]));
                    assert(decreases_to!(trees[i] => trees[i].1));
                    assert(trees.take(i + 1).drop_last() =~= trees.take(i));
                }
                out.insert(k, from_value(x));
            }
            assert(trees.take(trees.len() as int) =~= trees);
            CslValue::Object(out)
        },
    }
}

/// A value as the writer takes it.
pub(crate) fn to_value(v: &CslValue) -> (r: serde_json::Value)
    ensures
        value_tree(r) == v.tree(),
    decreases v,
{
    proof {
        lemma_tree(*v);
    }
    match v {
        CslValue::Null => value_of(Parts::Null),
        CslValue::Bool(b) => value_of(Parts::Bool(*b)),
        CslValue::Number(n) => value_of(Parts::Number(number_copy(n))),
        CslValue::String(s) => value_of(Parts::Text(s.clone())),
        CslValue::Array(a) => {
            let mut out: Vec<serde_json::Value> = Vec::new();
            let n: usize = a.len();
            let mut i: usize = 0;
            while i < n
                invariant
                    i <= n == a@.len(),
                    *v == CslValue::Array(*a),
                    out@.len() == i,
                    forall|j: int| 0 <= j < i ==> value_tree(#[trigger] out@[j]) == a@[j].tree(),
                decreases n - i,
            {
                proof {
                    assert(decreases_to!(v => v->Array_0));
                    assert(decreases_to!(v->Array_0 => v->Array_0@[i as int]));
                }
                out.push(to_value(&a[i]));
                i += 1;
            }
            assert(item_trees(out@) =~= v.tree()->Array_0);
            value_of(Parts::Array(out))
        },
        CslValue::Object(m) => {
            let mut out: Vec<(String, serde_json::Value)> = Vec::new();
            let n: usize = m.len();
            let mut i: usize = 0;
            proof {
                m.lemma_pairs();
            }
            while i < n
                invariant
                    i <= n == m.items@.len(),
                    *v == CslValue::Object(*m),
                    m.pairs() == viewed(m.items@),
                    out@.len() == i,
                    forall|j: int|
                        0 <= j < i ==> (#[trigger] out@[j]).0@ == m.pairs()[j].0 && value_tree(
                            out@[j].1,
                        ) == m.pairs()[j].1.tree(),
                decreases n - i,
            {
                proof {
                    assert(decreases_to!(v => v->Object_0));
                    assert(decreases_to!(v->Object_0 => v->Object_0.items));
                    assert(decreases_to!(v->Object_0.items => v->Object_0.items@[i as int]));
                    assert(decreases_to!(m.items@[i as int] => m.items@[i as int].1));
                }
                out.push((m.items[i].0.clone(), to_value(&m.items[i].1)));
                i += 1;
            }
            proof {
                assert(member_trees(out@) =~= v.tree()->Object_0);
                assert forall|a: int, b: int| 0 <= a < b < out@.len() implies (
                #[trigger] member_trees(out@)[a]).0 != (#[trigger] member_trees(out@)[b]).0 by {
                    assert(before(m.pairs()[a].0, m.pairs()[b].0));
                    lemma_before_irreflexive(m.pairs()[a].0);
                }
            }
            value_of(Parts::Object(out))
        },
    }
}

/// An object with these members, in this order.
pub(crate) fn object_value(members: Vec<(String, serde_json::Value)>) -> (r: serde_json::Value)
    requires
        distinct(member_trees(members@)),
    ensures
        value_tree(r) == Tree::Object(member_trees(members@)),
{
    value_of(Parts::Object(members))
}

/// What a parser's answer means.
pub open spec fn parsed_meaning(r: Result<Tree, Seq<char>>) -> Result<Json, Seq<char>> {
    match r {
        Ok(t) => Ok(meaning(t)),
        Err(m) => Err(m),
    }
}

/// What reading a value gave, taken by view.
pub open spec fn read_view(r: Result<CslValue, String>) -> Result<Json, Seq<char>> {
    match r {
        Ok(v) => Ok(v@),
        Err(m) => Err(m@),
    }
}

/// Reads JSON.
pub fn read_json(bytes: &[u8]) -> (r: Result<CslValue, String>)
    ensures
        read_view(r) == parsed_meaning(json_parsed(bytes@)),
{
    match parse_value(bytes) {
        Ok(v) => Ok(from_value(v)),
        Err(m) => Err(m),
    }
}

/// Reads YAML.
pub fn read_yaml(bytes: &[u8]) -> (r: Result<CslValue, String>)
    ensures
        read_view(r) == parsed_meaning(yaml_parsed(bytes@)),
{
    match parse_yaml_value(bytes) {
        Ok(v) => Ok(from_value(v)),
        Err(m) => Err(m),
    }
}

/// Writes JSON on one line, or over several lines.
pub fn write_json(v: &CslValue, compact: bool) -> (r: String)
    ensures
        r@ == (if compact {
            json_written(v.tree())
        } else {
            json_pretty(v.tree())
        }),
{
    let value = to_value(v);
    if compact {
        value_text(&value)
    } else {
        value_pretty(&value)
    }
}

} // verus!
