//! Maps from text keys to values that remember the order of insertion, over the
//! hash map of the `hashbrown` crate.

use crate::sorted::{lemma_map_of_dom, map_of, viewed};
use vstd::prelude::*;
use vstd::string::*;

verus! {

/// A `hashbrown::HashMap` from texts to positions. (Its own type cannot be named
/// in full here: `hashbrown` keeps the bound on its allocator parameter private.)
#[verifier::external_body]
pub struct TextIndex {
    map: hashbrown::HashMap<String, usize>,
}

/// What a `TextIndex` holds.
pub uninterp spec fn index_map(index: TextIndex) -> Map<Seq<char>, usize>;

impl TextIndex {
    /// `HashMap::new`: the map without entries.
    #[verifier::external_body]
    pub(crate) fn new() -> (r: Self)
        ensures
            forall|k: Seq<char>| !(#[trigger] index_map(r).contains_key(k)),
    {
        TextIndex { map: hashbrown::HashMap::new() }
    }

    /// `HashMap::insert`: the key maps to the position from now on.
    #[verifier::external_body]
    pub(crate) fn insert(&mut self, key: String, at: usize)
        ensures
            index_map(*final(self)) == index_map(*old(self)).insert(key@, at),
    {
        self.map.insert(key, at);
    }

    /// `HashMap::get`: the position that the key maps to.
    #[verifier::external_body]
    pub(crate) fn get(&self, key: &str) -> (r: Option<usize>)
        ensures
            r == (if index_map(*self).contains_key(key@) {
                Some(index_map(*self)[key@])
            } else {
                None
            }),
    {
        self.map.get(key).copied()
    }
}

/// A map from texts to values that remembers in which order its keys came.
pub struct TextMap<T> {
    index: TextIndex,
    items: Vec<(String, T)>,
}

/// Whether the index says for each key where its item stands, and nothing else.
spec fn indexes<T>(index: Map<Seq<char>, usize>, items: Seq<(Seq<char>, T)>) -> bool {
    &&& forall|k: Seq<char>| #[trigger]
        index.contains_key(k) ==> index[k] < items.len() && items[index[k] as int].0 == k
    &&& forall|i: int|
        0 <= i < items.len() ==> index.contains_key((#[trigger] items[i]).0)
            && index[items[i].0] == i
}

impl<T> View for TextMap<T> {
    type V = Map<Seq<char>, T>;

    open spec fn view(&self) -> Map<Seq<char>, T> {
        map_of(self.pairs())
    }
}

proof fn lemma_indexed<T>(index: Map<Seq<char>, usize>, items: Seq<(Seq<char>, T)>, k: Seq<char>)
    requires
        indexes(index, items),
    ensures
        map_of(items).contains_key(k) == index.contains_key(k),
        index.contains_key(k) ==> map_of(items)[k] == items[index[k] as int].1,
{
    lemma_map_of_dom(items, k);
    if index.contains_key(k) {
        assert(items[index[k] as int].0 == k);
        lemma_last(items, k, index[k] as int);
    }
}

/// Where each key has its own place, there are as many keys as pairs.
proof fn lemma_indexed_len<T>(index: Map<Seq<char>, usize>, items: Seq<(Seq<char>, T)>)
    requires
        indexes(index, items),
    ensures
        map_of(items).dom().finite(),
        map_of(items).len() == items.len(),
{
    let keys = Seq::new(items.len(), |i: int| items[i].0);
    assert(keys.no_duplicates()) by {
        assert forall|i: int, j: int| 0 <= i < keys.len() && 0 <= j < keys.len() && i != j implies
            keys[i] != keys[j] by {
            assert(index[items[i].0] == i);
            assert(index[items[j].0] == j);
        }
    }
    keys.unique_seq_to_set();
    assert forall|k: Seq<char>| keys.to_set().contains(k) == map_of(items).dom().contains(k) by {
        lemma_map_of_dom(items, k);
        if keys.contains(k) {
            let i = choose|i: int| 0 <= i < keys.len() && keys[i] == k;
            assert(items[i].0 == k);
        }
        if map_of(items).contains_key(k) {
            let i = choose|i: int| 0 <= i < items.len() && (#[trigger] items[i]).0 == k;
            assert(keys[i] == k);
        }
    }
    assert(keys.to_set() =~= map_of(items).dom());
}

/// The value of a key is that of the last pair with it.
proof fn lemma_last<T>(items: Seq<(Seq<char>, T)>, k: Seq<char>, i: int)
    requires
        0 <= i < items.len(),
        items[i].0 == k,
        forall|j: int| i < j < items.len() ==> (#[trigger] items[j]).0 != k,
    ensures
        map_of(items).contains_key(k),
        map_of(items)[k] == items[i].1,
    decreases items.len(),
{
    if i < items.len() - 1 {
        assert(items[items.len() - 1].0 != k);
        let t = items.drop_last();
        assert forall|j: int| i < j < t.len() implies (#[trigger] t[j]).0 != k by {
            assert(t[j] == items[j]);
        }
        lemma_last(t, k, i);
    }
}

/// Replacing the value of a key, or adding a key at the end, is inserting it.
proof fn lemma_inserted<T>(
    index: Map<Seq<char>, usize>,
    items: Seq<(Seq<char>, T)>,
    k: Seq<char>,
    v: T,
    now: Seq<(Seq<char>, T)>,
    now_index: Map<Seq<char>, usize>,
)
    requires
        indexes(index, items),
        indexes(now_index, now),
        index.contains_key(k) ==> now == items.update(index[k] as int, (k, v)) && now_index == index,
        !index.contains_key(k) ==> now == items.push((k, v)) && now_index == index.insert(
            k,
            items.len() as usize,
        ),
        items.len() <= usize::MAX,
    ensures
        map_of(now) == map_of(items).insert(k, v),
{
    let m = map_of(items).insert(k, v);
    assert forall|x: Seq<char>|
        #![trigger map_of(now).dom().contains(x)]
        #![trigger m.dom().contains(x)]
        map_of(now).dom().contains(x) == m.dom().contains(x) && (map_of(now).dom().contains(x)
            ==> map_of(now)[x] == m[x]) by {
        lemma_indexed(index, items, x);
        lemma_indexed(now_index, now, x);
    }
    assert(map_of(now) =~= m);
}

impl<T> TextMap<T> {
    #[verifier::type_invariant]
    spec fn well_formed(self) -> bool {
        indexes(index_map(self.index), viewed(self.items@))
    }

    /// The pairs of the map, in the order in which their keys came.
    pub closed spec fn pairs(self) -> Seq<(Seq<char>, T)> {
        viewed(self.items@)
    }

    /// The map without entries.
    pub fn new() -> (r: Self)
        ensures
            r@ == Map::<Seq<char>, T>::empty(),
            r.pairs() == Seq::<(Seq<char>, T)>::empty(),
    {
        let r = TextMap { index: TextIndex::new(), items: Vec::new() };
        assert(r.pairs() =~= Seq::<(Seq<char>, T)>::empty());
        r
    }

    /// How many entries the map has.
    pub fn len(&self) -> (r: usize)
        ensures
            r == self.pairs().len(),
            self@.dom().finite(),
            r == self@.len(),
    {
        proof {
            use_type_invariant(self);
            lemma_indexed_len(index_map(self.index), self.pairs());
        }
        self.items.len()
    }

    /// The key of the entry that came at `i`.
    pub fn key_at(&self, i: usize) -> (r: &String)
        requires
            i < self.pairs().len(),
        ensures
            r@ == self.pairs()[i as int].0,
    {
        &self.items[i].0
    }

    /// The value of the entry that came at `i`.
    pub fn value_at(&self, i: usize) -> (r: &T)
        requires
            i < self.pairs().len(),
        ensures
            *r == self.pairs()[i as int].1,
    {
        &self.items[i].1
    }

    /// The value stored under `key`.
    pub fn get(&self, key: &str) -> (r: Option<&T>)
        ensures
            r == (if self@.contains_key(key@) {
                Some(&self@[key@])
            } else {
                None
            }),
    {
        proof {
            use_type_invariant(self);
            lemma_indexed(index_map(self.index), self.pairs(), key@);
        }
        match self.index.get(key) {
            Some(i) => Some(&self.items[i].1),
            None => None,
        }
    }

    /// Whether there is a value under `key`.
    pub fn contains_key(&self, key: &str) -> (r: bool)
        ensures
            r == self@.contains_key(key@),
    {
        self.get(key).is_some()
    }

    /// Stores `value` under `key`, in place of what was there.
    pub fn insert(&mut self, key: String, value: T)
        ensures
            final(self)@ == old(self)@.insert(key@, value),
            !old(self)@.contains_key(key@) ==> final(self).pairs() == old(self).pairs().push(
                (key@, value),
            ),
            old(self)@.contains_key(key@) ==> final(self).pairs() == replaced(
                old(self).pairs(),
                key@,
                value,
            ),
    {
        proof {
            use_type_invariant(&*self);
            lemma_indexed(index_map(self.index), self.pairs(), key@);
        }
        let ghost p = self.pairs();
        let ghost before = index_map(self.index);
        let ghost k = key@;
        let mut whole: TextMap<T> = TextMap::new();
        std::mem::swap(&mut whole, self);
        let TextMap { mut index, mut items } = whole;
        let at: usize = items.len();
        match index.get(key.as_str()) {
            Some(i) => {
                items.set(i, (key, value));
                proof {
                    assert(viewed(items@) =~= p.update(i as int, (k, value)));
                    assert(viewed(items@) =~= replaced(p, k, value));
                    assert(indexes(index_map(index), viewed(items@)));
                    lemma_inserted(before, p, k, value, viewed(items@), index_map(index));
                }
            },
            None => {
                items.push((key.clone(), value));
                index.insert(key, at);
                proof {
                    assert(viewed(items@) =~= p.push((k, value)));
                    assert(indexes(index_map(index), viewed(items@)));
                    lemma_inserted(before, p, k, value, viewed(items@), index_map(index));
                }
            },
        }
        *self = TextMap { index, items };
    }
}

impl<T> Default for TextMap<T> {
    fn default() -> (r: Self)
        ensures
            r@ == Map::<Seq<char>, T>::empty(),
            r.pairs() == Seq::<(Seq<char>, T)>::empty(),
    {
        TextMap::new()
    }
}

/// The pairs with the value of those with the key `k` replaced.
pub open spec fn replaced<T>(pairs: Seq<(Seq<char>, T)>, k: Seq<char>, value: T) -> Seq<
    (Seq<char>, T),
> {
    pairs.map_values(
        |p: (Seq<char>, T)|
            if p.0 == k {
                (k, value)
            } else {
                p
            },
    )
}

} // verus!
