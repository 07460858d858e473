//! CSL-JSON items and small helpers on them.
//!
//! A CSL-JSON item is a JSON value, normally an object. It is kept untyped, so
//! that what doi.org or a bibliography file holds is preserved, and so that
//! sources can attach fields of their own (`arxivid`, ...).

use crate::sorted::{lemma_map_of_dom, map_of, ordered, viewed, SortedMap};
use crate::text::{decimal, is_digit, lemma_decimal, parse_signed};
use vstd::prelude::*;
use vstd::string::*;

verus! {

/// `serde_json::Number`, a JSON number as the parser holds it.
#[verifier::external_type_specification]
#[verifier::external_body]
pub struct ExNumber(serde_json::Number);

/// The text in which `serde_json::Number` displays itself.
pub uninterp spec fn number_text(n: serde_json::Number) -> Seq<char>;

/// `i` in decimal notation, with a minus sign in front of a negative number.
pub open spec fn signed_decimal(i: int) -> Seq<char> {
    if i < 0 {
        seq!['-'] + decimal((-i) as nat)
    } else {
        decimal(i as nat)
    }
}

/// An integer that fits is read back from its decimal notation.
pub proof fn lemma_signed_decimal(i: int)
    requires
        i64::MIN <= i <= i64::MAX,
    ensures
        parse_signed(signed_decimal(i)) == Some(i),
{
    let n = if i < 0 { (-i) as nat } else { i as nat };
    lemma_decimal(n);
    let s = signed_decimal(i);
    if i < 0 {
        assert(s.skip(1) =~= decimal(n));
    } else {
        assert(is_digit(s[0]));
    }
}

/// `Number::from` on an `i64`: the number displays as that integer.
#[verifier::external_body]
pub(crate) fn number_of(i: i64) -> (r: serde_json::Number)
    ensures
        number_text(r) == signed_decimal(i as int),
{
    serde_json::Number::from(i)
}

/// `Number::as_i64`: the integer that the number displays as, if it displays as
/// one that fits in `i64`. A number with a fraction or an exponent displays so.
#[verifier::external_body]
pub(crate) fn number_as_i64(n: &serde_json::Number) -> (r: Option<i64>)
    ensures
        r == (match parse_signed(number_text(*n)) {
            Some(i) => Some(i as i64),
            None => None,
        }),
{
    n.as_i64()
}

/// `Number::clone`: the copy displays alike.
#[verifier::external_body]
pub(crate) fn number_copy(n: &serde_json::Number) -> (r: serde_json::Number)
    ensures
        number_text(r) == number_text(*n),
{
    n.clone()
}

/// A JSON value with the members of each object in the order in which they stand.
pub enum Tree {
    Null,
    Bool(bool),
    Number(Seq<char>),
    Text(Seq<char>),
    Array(Seq<Tree>),
    Object(Seq<(Seq<char>, Tree)>),
}

/// What a JSON value means: the members of an object have no order.
pub enum Json {
    Null,
    Bool(bool),
    Number(Seq<char>),
    Text(Seq<char>),
    Array(Seq<Json>),
    Object(Map<Seq<char>, Json>),
}

/// What a tree means; of two members with one name the later counts.
pub open spec fn meaning(t: Tree) -> Json
    decreases t,
{
    match t {
        Tree::Null => Json::Null,
        Tree::Bool(b) => Json::Bool(b),
        Tree::Number(n) => Json::Number(n),
        Tree::Text(s) => Json::Text(s),
        Tree::Array(items) => Json::Array(
            Seq::new(
                items.len(),
                |i: int|
                    if 0 <= i < items.len() {
                        meaning(items[i])
                    } else {
                        Json::Null
                    },
            ),
        ),
        Tree::Object(members) => Json::Object(meaning_of_members(members)),
    }
}

/// What the members of an object mean.
pub open spec fn meaning_of_members(members: Seq<(Seq<char>, Tree)>) -> Map<Seq<char>, Json>
    decreases members,
{
    if members.len() == 0 {
        Map::empty()
    } else {
        meaning_of_members(members.drop_last()).insert(
            members.last().0,
            meaning(members.last().1),
        )
    }
}

/// What an object of one member means.
pub proof fn lemma_meaning_1(k: Seq<char>, t: Tree)
    ensures
        meaning(Tree::Object(seq![(k, t)])) == Json::Object(
            Map::empty().insert(k, meaning(t)),
        ),
{
    reveal_with_fuel(meaning, 2);
    reveal_with_fuel(meaning_of_members, 2);
    let s = seq![(k, t)];
    assert(s.drop_last() =~= Seq::empty());
    assert(meaning_of_members(s.drop_last()) =~= Map::empty());
}

/// What an object of two members means.
pub proof fn lemma_meaning_2(k1: Seq<char>, t1: Tree, k2: Seq<char>, t2: Tree)
    ensures
        meaning(Tree::Object(seq![(k1, t1), (k2, t2)])) == Json::Object(
            Map::empty().insert(k1, meaning(t1)).insert(k2, meaning(t2)),
        ),
{
    reveal_with_fuel(meaning, 2);
    reveal_with_fuel(meaning_of_members, 2);
    let s = seq![(k1, t1), (k2, t2)];
    assert(s.drop_last() =~= seq![(k1, t1)]);
    lemma_meaning_1(k1, t1);
}

/// What an object of three members means.
pub proof fn lemma_meaning_3(
    k1: Seq<char>,
    t1: Tree,
    k2: Seq<char>,
    t2: Tree,
    k3: Seq<char>,
    t3: Tree,
)
    ensures
        meaning(Tree::Object(seq![(k1, t1), (k2, t2), (k3, t3)])) == Json::Object(
            Map::empty().insert(k1, meaning(t1)).insert(k2, meaning(t2)).insert(k3, meaning(t3)),
        ),
{
    reveal_with_fuel(meaning, 2);
    reveal_with_fuel(meaning_of_members, 2);
    let s = seq![(k1, t1), (k2, t2), (k3, t3)];
    assert(s.drop_last() =~= seq![(k1, t1), (k2, t2)]);
    lemma_meaning_2(k1, t1, k2, t2);
}

/// A bibliographic item in CSL-JSON form (normally an object).
#[derive(Debug, PartialEq)]
pub enum CslValue {
    Null,
    Bool(bool),
    Number(serde_json::Number),
    String(String),
    Array(Vec<CslValue>),
    Object(SortedMap<CslValue>),
}

impl CslValue {
    /// The value as a tree, each object in the order of its member names.
    pub closed spec fn tree(self) -> Tree
        decreases self,
    {
        match self {
            CslValue::Null => Tree::Null,
            CslValue::Bool(b) => Tree::Bool(b),
            CslValue::Number(n) => Tree::Number(number_text(n)),
            CslValue::String(s) => Tree::Text(s@),
            CslValue::Array(a) => Tree::Array(
                Seq::new(
                    a@.len(),
                    |i: int|
                        if 0 <= i < a@.len() {
                            a@[i].tree()
                        } else {
                            Tree::Null
                        },
                ),
            ),
            CslValue::Object(m) => Tree::Object(
                Seq::new(
                    m.items@.len(),
                    |i: int|
                        if 0 <= i < m.items@.len() {
                            (m.items@[i].0@, m.items@[i].1.tree())
                        } else {
                            (Seq::empty(), Tree::Null)
                        },
                ),
            ),
        }
    }
}

/// The tree of a value by the trees of its parts.
pub proof fn lemma_tree(v: CslValue)
    ensures
        v.tree() == (match v {
            CslValue::Null => Tree::Null,
            CslValue::Bool(b) => Tree::Bool(b),
            CslValue::Number(n) => Tree::Number(number_text(n)),
            CslValue::String(s) => Tree::Text(s@),
            CslValue::Array(a) => Tree::Array(a@.map_values(|x: CslValue| x.tree())),
            CslValue::Object(m) => Tree::Object(
                m.pairs().map_values(|p: (Seq<char>, CslValue)| (p.0, p.1.tree())),
            ),
        }),
{
    match v {
        CslValue::Array(a) => {
            assert(v.tree()->Array_0 =~= a@.map_values(|x: CslValue| x.tree()));
        },
        CslValue::Object(m) => {
            m.lemma_pairs();
            assert(v.tree()->Object_0 =~= m.pairs().map_values(
                |p: (Seq<char>, CslValue)| (p.0, p.1.tree()),
            ));
        },
        _ => {},
    }
}

/// The tree of a value that is neither an array nor an object.
pub broadcast proof fn lemma_leaf(v: CslValue)
    ensures
        match v {
            CslValue::Null => #[trigger] v.tree() == Tree::Null,
            CslValue::Bool(b) => v.tree() == Tree::Bool(b),
            CslValue::Number(n) => v.tree() == Tree::Number(number_text(n)),
            CslValue::String(s) => v.tree() == Tree::Text(s@),
            _ => true,
        },
{
}

impl View for CslValue {
    type V = Json;

    open spec fn view(&self) -> Json {
        meaning(self.tree())
    }
}

/// The members of an object, their values taken by meaning.
pub open spec fn json_map(m: Map<Seq<char>, CslValue>) -> Map<Seq<char>, Json> {
    m.map_values(|v: CslValue| v@)
}

/// The items of an array, taken by meaning.
pub open spec fn json_seq(s: Seq<CslValue>) -> Seq<Json> {
    s.map_values(|v: CslValue| v@)
}

/// The members of a JSON object; of any other value, none.
pub open spec fn fields(j: Json) -> Map<Seq<char>, Json> {
    match j {
        Json::Object(m) => m,
        _ => Map::empty(),
    }
}

/// The meaning of an array and of an object by the meaning of their parts.
pub broadcast proof fn lemma_view(v: CslValue)
    ensures
        #[trigger] v@ == (match v {
            CslValue::Null => Json::Null,
            CslValue::Bool(b) => Json::Bool(b),
            CslValue::Number(n) => Json::Number(number_text(n)),
            CslValue::String(s) => Json::Text(s@),
            CslValue::Array(a) => Json::Array(json_seq(a@)),
            CslValue::Object(m) => Json::Object(json_map(m@)),
        }),
{
    match v {
        CslValue::Array(a) => {
            let items = v.tree()->Array_0;
            assert(v.tree() == Tree::Array(items));
            assert(v@->Array_0 =~= json_seq(a@));
        },
        CslValue::Object(m) => {
            lemma_members(m.items@, v.tree()->Object_0);
            m.lemma_pairs();
        },
        _ => {},
    }
}

proof fn lemma_members(items: Seq<(String, CslValue)>, trees: Seq<(Seq<char>, Tree)>)
    requires
        items.len() == trees.len(),
        forall|i: int|
            0 <= i < items.len() ==> (#[trigger] trees[i]) == (items[i].0@, items[i].1.tree()),
    ensures
        meaning_of_members(trees) == json_map(map_of(viewed(items))),
    decreases items.len(),
{
    let left = meaning_of_members(trees);
    let right = json_map(map_of(viewed(items)));
    if items.len() > 0 {
        lemma_members(items.drop_last(), trees.drop_last());
        assert(viewed(items).drop_last() =~= viewed(items.drop_last()));
        assert(trees.last() == (items.last().0@, items.last().1.tree()));
        assert(left =~= right);
    } else {
        assert(left =~= right);
    }
}

/// Storing a member in an object stores its meaning.
pub broadcast proof fn lemma_json_map_insert(m: Map<Seq<char>, CslValue>, k: Seq<char>, v: CslValue)
    ensures
        #[trigger] json_map(m.insert(k, v)) == json_map(m).insert(k, v@),
{
    assert(json_map(m.insert(k, v)) =~= json_map(m).insert(k, v@));
}

/// Dropping a member of an object drops its meaning.
pub broadcast proof fn lemma_json_map_remove(m: Map<Seq<char>, CslValue>, k: Seq<char>)
    ensures
        #[trigger] json_map(m.remove(k)) == json_map(m).remove(k),
{
    assert(json_map(m.remove(k)) =~= json_map(m).remove(k));
}

/// An object without members means the empty map.
pub broadcast proof fn lemma_json_map_empty()
    ensures
        #[trigger] json_map(Map::empty()) == Map::<Seq<char>, Json>::empty(),
{
    assert(json_map(Map::empty()) =~= Map::<Seq<char>, Json>::empty());
}

pub broadcast group group_csl {
    lemma_view,
    lemma_json_map_insert,
    lemma_json_map_remove,
    lemma_json_map_empty,
}

impl CslValue {
    /// The text of a string value.
    pub fn as_str(&self) -> (r: Option<&String>)
        ensures
            match r {
                Some(s) => self@ == Json::Text(s@),
                None => !(self@ is Text),
            },
    {
        broadcast use group_csl;

        match self {
            CslValue::String(s) => Some(s),
            _ => None,
        }
    }

    /// The members of an object value.
    pub fn as_object(&self) -> (r: Option<&SortedMap<CslValue>>)
        ensures
            match r {
                Some(m) => self@ == Json::Object(json_map(m@)) && *self == CslValue::Object(*m),
                None => !(self@ is Object),
            },
    {
        broadcast use group_csl;

        match self {
            CslValue::Object(m) => Some(m),
            _ => None,
        }
    }
}

impl Clone for CslValue {
    fn clone(&self) -> (r: Self)
        ensures
            r@ == self@,
            r.tree() == self.tree(),
        decreases self,
    {
        match self {
            CslValue::Null => CslValue::Null,
            CslValue::Bool(b) => CslValue::Bool(*b),
            CslValue::Number(n) => CslValue::Number(number_copy(n)),
            CslValue::String(s) => CslValue::String(s.clone()),
            CslValue::Array(a) => {
                let r = CslValue::Array(copy_items(a));
                assert(r.tree()->Array_0 =~= self.tree()->Array_0);
                r
            },
            CslValue::Object(m) => CslValue::Object(m.copy_members()),
        }
    }
}

/// A copy of the items.
fn copy_items(a: &Vec<CslValue>) -> (r: Vec<CslValue>)
    ensures
        r@.len() == a@.len(),
        forall|k: int| 0 <= k < a@.len() ==> (#[trigger] r@[k]).tree() == a@[k].tree(),
    decreases a,
{
    let mut out: Vec<CslValue> = Vec::new();
    let mut i: usize = 0;
    while i < a.len()
        invariant
            i <= a@.len(),
            out@.len() == i,
            forall|k: int| 0 <= k < i ==> (#[trigger] out@[k]).tree() == a@[k].tree(),
        decreases a@.len() - i,
    {
        let x = a[i].clone();
        out.push(x);
        i += 1;
    }
    out
}

impl SortedMap<CslValue> {
    /// A copy of the members.
    fn copy_members(&self) -> (r: Self)
        ensures
            CslValue::Object(r).tree() == CslValue::Object(*self).tree(),
        decreases self,
    {
        proof {
            use_type_invariant(self);
        }
        let mut out: Vec<(String, CslValue)> = Vec::new();
        let mut i: usize = 0;
        while i < self.items.len()
            invariant
                i <= self.items@.len(),
                out@.len() == i,
                forall|k: int|
                    0 <= k < i ==> (#[trigger] out@[k]).0@ == self.items@[k].0@ && out@[k].1.tree()
                        == self.items@[k].1.tree(),
            decreases self.items@.len() - i,
        {
            let x = self.items[i].1.clone();
            out.push((self.items[i].0.clone(), x));
            i += 1;
        }
        assert forall|a: int, b: int|
            0 <= a < b < viewed(out@).len() implies crate::sorted::before(
            (#[trigger] viewed(out@)[a]).0,
            (#[trigger] viewed(out@)[b]).0,
        ) by {
            assert(viewed(self.items@)[a].0 == out@[a].0@);
            assert(viewed(self.items@)[b].0 == out@[b].0@);
        }
        let r = SortedMap { items: out };
        assert(CslValue::Object(r).tree()->Object_0 =~= CslValue::Object(*self).tree()->Object_0);
        r
    }
}

/// The canonical citation id, `prefix:key`.
pub open spec fn id_of(prefix: Seq<char>, key: Seq<char>) -> Seq<char> {
    prefix + seq![':'] + key
}

/// Builds the canonical citation id, `prefix:key`.
pub fn cite_id(prefix: &str, key: &str) -> (r: String)
    ensures
        r@ == id_of(prefix@, key@),
{
    let mut s = prefix.to_owned();
    s.push(':');
    s.append(key);
    assert(s@ =~= id_of(prefix@, key@));
    s
}

/// Sets the `id` of a CSL object and says whether it could be set. A value that
/// is no object stays as it is.
pub fn set_id(item: &mut CslValue, id: &str) -> (r: bool)
    ensures
        r == (old(item)@ is Object),
        r ==> final(item)@ == Json::Object(
            fields(old(item)@).insert("id"@, Json::Text(id@)),
        ),
        !r ==> *final(item) == *old(item),
{
    broadcast use group_csl;

    match item {
        CslValue::Object(m) => {
            m.insert("id".to_owned(), CslValue::String(id.to_owned()));
            true
        },
        _ => false,
    }
}

/// The first of the named members that is a string.
pub open spec fn first_text(members: Map<Seq<char>, Json>, names: Seq<&str>) -> Option<Seq<char>>
    decreases names.len(),
{
    if names.len() == 0 {
        None
    } else if members.contains_key(names[0]@) && members[names[0]@] is Text {
        Some(members[names[0]@]->Text_0)
    } else {
        first_text(members, names.skip(1))
    }
}

/// Reads a string member, trying several names in order.
pub fn get_str<'a>(item: &'a CslValue, keys: &[&str]) -> (r: Option<&'a String>)
    ensures
        match r {
            Some(s) => first_text(fields(item@), keys@) == Some(s@),
            None => first_text(fields(item@), keys@) is None,
        },
{
    broadcast use group_csl;

    let m = match item.as_object() {
        Some(m) => m,
        None => {
            proof {
                lemma_no_text(keys@);
            }
            return None;
        },
    };
    let mut i: usize = 0;
    assert(keys@.skip(0) =~= keys@);
    while i < keys.len()
        invariant
            i <= keys@.len(),
            fields(item@) == json_map(m@),
            first_text(fields(item@), keys@) == first_text(fields(item@), keys@.skip(i as int)),
        decreases keys@.len() - i,
    {
        assert(keys@.skip(i as int)[0] == keys@[i as int]);
        assert(keys@.skip(i as int).skip(1) =~= keys@.skip(i + 1));
        if let Some(v) = m.get(keys[i]) {
            if let Some(s) = v.as_str() {
                return Some(s);
            }
        }
        i += 1;
    }
    None
}

proof fn lemma_no_text(names: Seq<&str>)
    ensures
        first_text(Map::empty(), names) is None,
    decreases names.len(),
{
    if names.len() > 0 {
        lemma_no_text(names.skip(1));
    }
}

/// Merges the members of `overrides` into `target`; where both have a member,
/// that of `target` stays. Nothing happens unless both are objects.
pub fn merge_defaults(target: &mut CslValue, overrides: &CslValue)
    ensures
        final(target)@ == (if old(target)@ is Object && overrides@ is Object {
            Json::Object(fields(overrides@).union_prefer_right(fields(old(target)@)))
        } else {
            old(target)@
        }),
{
    broadcast use group_csl;

    let src = match overrides.as_object() {
        Some(m) => m,
        None => {
            return;
        },
    };
    match target {
        CslValue::Object(dst) => {
            let ghost before = json_map(dst@);
            let ghost p = src.pairs();
            let n: usize = src.len();
            let mut i: usize = 0;
            proof {
                assert(p.take(0) =~= Seq::empty());
                assert(json_map(map_of(p.take(0))).union_prefer_right(before) =~= before);
            }
            while i < n
                invariant
                    i <= n == p.len(),
                    p == src.pairs(),
                    ordered(p),
                    json_map(dst@) == json_map(map_of(p.take(i as int))).union_prefer_right(before),
                decreases n - i,
            {
                let k = src.key_at(i);
                let v = src.value_at(i);
                proof {
                    lemma_take_map(p, i as int);
                }
                let ghost earlier = json_map(map_of(p.take(i as int)));
                let ghost now = json_map(dst@);
                assert(now.contains_key(k@) == dst@.contains_key(k@));
                if !dst.contains_key(k.as_str()) {
                    let copy = v.clone();
                    proof {
                        lemma_json_map_insert(dst@, k@, copy);
                    }
                    dst.insert(k.clone(), copy);
                    assert(json_map(dst@) == now.insert(k@, v@));
                }
                proof {
                    lemma_json_map_insert(map_of(p.take(i as int)), p[i as int].0, p[i as int].1);
                    assert(json_map(dst@) =~= earlier.insert(k@, v@).union_prefer_right(before));
                }
                i += 1;
            }
            assert(p.take(i as int) =~= p);
        },
        _ => {},
    }
}

/// Taking one pair more is inserting it, and its key is new.
proof fn lemma_take_map<T>(p: Seq<(Seq<char>, T)>, i: int)
    requires
        0 <= i < p.len(),
        ordered(p),
    ensures
        map_of(p.take(i + 1)) == map_of(p.take(i)).insert(p[i].0, p[i].1),
        !map_of(p.take(i)).contains_key(p[i].0),
{
    assert(p.take(i + 1).drop_last() =~= p.take(i));
    lemma_map_of_dom(p.take(i), p[i].0);
    if map_of(p.take(i)).contains_key(p[i].0) {
        let a = choose|a: int| 0 <= a < p.take(i).len() && (#[trigger] p.take(i)[a]).0 == p[i].0;
        assert(crate::sorted::before(p[a].0, p[i].0));
        crate::sorted::lemma_before_irreflexive(p[i].0);
    }
}

/// Merges the members of `overrides` into `target`; where both have a member,
/// that of `overrides` is taken. Nothing happens unless both are objects.
pub fn merge_over(target: &mut CslValue, overrides: &CslValue)
    ensures
        final(target)@ == (if old(target)@ is Object && overrides@ is Object {
            Json::Object(fields(old(target)@).union_prefer_right(fields(overrides@)))
        } else {
            old(target)@
        }),
{
    broadcast use group_csl;

    let src = match overrides.as_object() {
        Some(m) => m,
        None => {
            return;
        },
    };
    match target {
        CslValue::Object(dst) => {
            let ghost before = json_map(dst@);
            let ghost p = src.pairs();
            let n: usize = src.len();
            let mut i: usize = 0;
            proof {
                assert(p.take(0) =~= Seq::empty());
                assert(before.union_prefer_right(json_map(map_of(p.take(0)))) =~= before);
            }
            while i < n
                invariant
                    i <= n == p.len(),
                    p == src.pairs(),
                    ordered(p),
                    json_map(dst@) == before.union_prefer_right(json_map(map_of(p.take(i as int)))),
                decreases n - i,
            {
                let k = src.key_at(i);
                let v = src.value_at(i);
                let ghost earlier = json_map(map_of(p.take(i as int)));
                let ghost now = json_map(dst@);
                let copy = v.clone();
                proof {
                    lemma_json_map_insert(dst@, k@, copy);
                }
                dst.insert(k.clone(), copy);
                assert(json_map(dst@) == now.insert(k@, v@));
                proof {
                    lemma_take_map(p, i as int);
                    lemma_json_map_insert(map_of(p.take(i as int)), p[i as int].0, p[i as int].1);
                    assert(json_map(dst@) =~= before.union_prefer_right(earlier.insert(k@, v@)));
                }
                i += 1;
            }
            assert(p.take(i as int) =~= p);
        },
        _ => {},
    }
}

} // verus!
