//! A map from text keys to values that keeps its keys in order.

use vstd::prelude::*;
use vstd::std_specs::iter::IteratorSpec;
use vstd::string::*;

verus! {

/// Whether `a` stands before `b` in the order of their characters.
pub open spec fn before(a: Seq<char>, b: Seq<char>) -> bool
    decreases a.len(),
{
    if b.len() == 0 {
        false
    } else if a.len() == 0 {
        true
    } else if a[0] != b[0] {
        a[0] < b[0]
    } else {
        before(a.skip(1), b.skip(1))
    }
}

/// How one text stands to another.
#[derive(Clone, Copy, Debug, PartialEq, Eq, Structural)]
pub enum Standing {
    Before,
    Same,
    After,
}

/// No text stands before itself.
pub proof fn lemma_before_irreflexive(a: Seq<char>)
    ensures
        !before(a, a),
    decreases a.len(),
{
    if a.len() > 0 {
        lemma_before_irreflexive(a.skip(1));
    }
}

/// `before` is transitive.
pub proof fn lemma_before_transitive(a: Seq<char>, b: Seq<char>, c: Seq<char>)
    requires
        before(a, b),
        before(b, c),
    ensures
        before(a, c),
    decreases a.len(),
{
    if a.len() > 0 && b.len() > 0 && c.len() > 0 && a[0] == b[0] && b[0] == c[0] {
        lemma_before_transitive(a.skip(1), b.skip(1), c.skip(1));
    }
}

/// How `a` stands to `b`.
pub fn standing(a: &str, b: &str) -> (r: Standing)
    ensures
        r == Standing::Before <==> before(a@, b@),
        r == Standing::Same <==> a@ == b@,
        r == Standing::After <==> before(b@, a@),
{
    let mut left = a.chars();
    let mut right = b.chars();
    let ghost mut n: int = 0;
    proof {
        lemma_before_irreflexive(a@);
        assert(a@.skip(0) =~= a@);
        assert(b@.skip(0) =~= b@);
        if before(a@, b@) && before(b@, a@) {
            lemma_before_transitive(a@, b@, a@);
        }
        if a@ == b@ {
            lemma_before_irreflexive(b@);
        }
    }
    loop
        invariant
            0 <= n <= a@.len(),
            n <= b@.len(),
            left.remaining() == a@.skip(n),
            right.remaining() == b@.skip(n),
            left.decrease() is Some,
            a@.take(n) == b@.take(n),
            before(a@, b@) == before(a@.skip(n), b@.skip(n)),
            before(b@, a@) == before(b@.skip(n), a@.skip(n)),
            !(before(a@, b@) && before(b@, a@)),
            a@ == b@ ==> !before(a@, b@) && !before(b@, a@),
        decreases a@.len() - n,
    {
        let x = left.next();
        let y = right.next();
        match x {
            None => {
                match y {
                    None => {
                        assert(a@.take(n) =~= a@);
                        assert(b@.take(n) =~= b@);
                        return Standing::Same;
                    },
                    Some(_) => {
                        return Standing::Before;
                    },
                }
            },
            Some(c) => {
                match y {
                    None => {
                        return Standing::After;
                    },
                    Some(d) => {
                        if c < d {
                            return Standing::Before;
                        }
                        if d < c {
                            return Standing::After;
                        }
                        proof {
                            assert(a@.skip(n).skip(1) =~= a@.skip(n + 1));
                            assert(b@.skip(n).skip(1) =~= b@.skip(n + 1));
                            assert(a@.skip(n).drop_first() =~= a@.skip(n + 1));
                            assert(b@.skip(n).drop_first() =~= b@.skip(n + 1));
                            assert(a@.take(n + 1) =~= a@.take(n).push(c));
                            assert(b@.take(n + 1) =~= b@.take(n).push(d));
                            n = n + 1;
                        }
                    },
                }
            },
        }
    }
}

/// Whether the pairs stand in the order of their keys, no key twice.
pub open spec fn ordered<T>(s: Seq<(Seq<char>, T)>) -> bool {
    forall|i: int, j: int| 0 <= i < j < s.len() ==> before((#[trigger] s[i]).0, (#[trigger] s[j]).0)
}

/// The map that a sequence of pairs describes; of two pairs with one key the later counts.
pub open spec fn map_of<T>(s: Seq<(Seq<char>, T)>) -> Map<Seq<char>, T>
    decreases s.len(),
{
    if s.len() == 0 {
        Map::empty()
    } else {
        map_of(s.drop_last()).insert(s.last().0, s.last().1)
    }
}

/// The domain of `map_of` is the set of the keys.
pub proof fn lemma_map_of_dom<T>(s: Seq<(Seq<char>, T)>, k: Seq<char>)
    ensures
        map_of(s).contains_key(k) <==> exists|i: int| 0 <= i < s.len() && (#[trigger] s[i]).0 == k,
    decreases s.len(),
{
    if s.len() > 0 {
        let t = s.drop_last();
        lemma_map_of_dom(t, k);
        if map_of(t).contains_key(k) {
            let i = choose|i: int| 0 <= i < t.len() && (#[trigger] t[i]).0 == k;
            assert(s[i].0 == k);
        }
        if s.last().0 == k {
            assert(s[s.len() - 1].0 == k);
        }
        if exists|i: int| 0 <= i < s.len() && (#[trigger] s[i]).0 == k {
            let i = choose|i: int| 0 <= i < s.len() && (#[trigger] s[i]).0 == k;
            if i < t.len() {
                assert(t[i].0 == k);
            }
        }
    }
}

/// Where no key occurs twice, each pair is in the map.
pub proof fn lemma_map_of_at<T>(s: Seq<(Seq<char>, T)>, i: int)
    requires
        ordered(s),
        0 <= i < s.len(),
    ensures
        map_of(s).contains_key(s[i].0),
        map_of(s)[s[i].0] == s[i].1,
    decreases s.len(),
{
    let t = s.drop_last();
    assert(ordered(t)) by {
        assert forall|a: int, b: int| 0 <= a < b < t.len() implies before(
            (#[trigger] t[a]).0,
            (#[trigger] t[b]).0,
        ) by {
            assert(before(s[a].0, s[b].0));
        }
    }
    if i < t.len() {
        lemma_map_of_at(t, i);
        assert(t[i] == s[i]);
        lemma_before_irreflexive(s[i].0);
        assert(before(s[i].0, s[s.len() - 1].0));
    }
}

/// What a map has lost with its last pair.
proof fn lemma_map_of_drop_last<T>(s: Seq<(Seq<char>, T)>)
    requires
        ordered(s),
        s.len() > 0,
    ensures
        ordered(s.drop_last()),
        map_of(s.drop_last()) == map_of(s).remove(s.last().0),
{
    let t = s.drop_last();
    assert forall|a: int, b: int| 0 <= a < b < t.len() implies before(
        (#[trigger] t[a]).0,
        (#[trigger] t[b]).0,
    ) by {
        assert(before(s[a].0, s[b].0));
    }
    lemma_map_of_dom(t, s.last().0);
    if map_of(t).contains_key(s.last().0) {
        let i = choose|i: int| 0 <= i < t.len() && (#[trigger] t[i]).0 == s.last().0;
        assert(before(s[i].0, s[s.len() - 1].0));
        lemma_before_irreflexive(s[i].0);
    }
    assert(map_of(t) =~= map_of(s).remove(s.last().0));
}

/// A map has its pairs in one order only.
pub proof fn lemma_one_order<T>(s: Seq<(Seq<char>, T)>, t: Seq<(Seq<char>, T)>)
    requires
        ordered(s),
        ordered(t),
        map_of(s) == map_of(t),
    ensures
        s == t,
    decreases s.len(),
{
    if s.len() == 0 {
        if t.len() > 0 {
            lemma_map_of_at(t, 0);
        }
        assert(s =~= t);
    } else {
        let a = s.last().0;
        lemma_map_of_at(s, s.len() - 1);
        lemma_map_of_dom(t, a);
        let j = choose|j: int| 0 <= j < t.len() && (#[trigger] t[j]).0 == a;
        let b = t.last().0;
        lemma_map_of_at(t, t.len() - 1);
        lemma_map_of_dom(s, b);
        let i = choose|i: int| 0 <= i < s.len() && (#[trigger] s[i]).0 == b;
        if a != b {
            assert(before(t[j].0, t[t.len() - 1].0));
            assert(before(s[i].0, s[s.len() - 1].0));
            lemma_before_transitive(a, b, a);
            lemma_before_irreflexive(a);
        }
        lemma_map_of_drop_last(s);
        lemma_map_of_drop_last(t);
        lemma_one_order(s.drop_last(), t.drop_last());
        assert(s =~= s.drop_last().push(s.last()));
        assert(t =~= t.drop_last().push(t.last()));
    }
}

/// Whether `k` is the one key of the map.
pub open spec fn only_key<T>(m: Map<Seq<char>, T>, k: Seq<char>) -> bool {
    m.contains_key(k) && forall|x: Seq<char>| #[trigger] m.contains_key(x) ==> x == k
}

/// A map has one key exactly where it has one pair.
pub proof fn lemma_only_key<T>(s: Seq<(Seq<char>, T)>, k: Seq<char>)
    requires
        ordered(s),
    ensures
        only_key(map_of(s), k) == (s.len() == 1 && s[0].0 == k),
{
    lemma_map_of_dom(s, k);
    if only_key(map_of(s), k) {
        if s.len() > 1 {
            lemma_map_of_at(s, 0);
            lemma_map_of_at(s, 1);
            lemma_before_irreflexive(k);
            assert(before(s[0].0, s[1].0));
        }
    }
    if s.len() == 1 && s[0].0 == k {
        assert forall|x: Seq<char>| #[trigger] map_of(s).contains_key(x) implies x == k by {
            lemma_map_of_dom(s, x);
        }
        lemma_map_of_at(s, 0);
    }
}

/// A map with its keys in order.
#[derive(Debug, PartialEq)]
pub struct SortedMap<T> {
    pub(crate) items: Vec<(String, T)>,
}

/// The pairs of a vector, their keys taken by view.
pub open spec fn viewed<T>(s: Seq<(String, T)>) -> Seq<(Seq<char>, T)> {
    s.map_values(|p: (String, T)| (p.0@, p.1))
}

impl<T> View for SortedMap<T> {
    type V = Map<Seq<char>, T>;

    open spec fn view(&self) -> Map<Seq<char>, T> {
        map_of(self.pairs())
    }
}

impl<T> SortedMap<T> {
    #[verifier::type_invariant]
    pub(crate) open spec fn well_formed(self) -> bool {
        ordered(viewed(self.items@))
    }

    /// The pairs of the map, in the order of their keys.
    pub closed spec fn pairs(self) -> Seq<(Seq<char>, T)> {
        viewed(self.items@)
    }

    pub(crate) proof fn lemma_pairs(self)
        ensures
            self.pairs() == viewed(self.items@),
    {
    }

    /// The map without entries.
    pub fn new() -> (r: Self)
        ensures
            r@ == Map::<Seq<char>, T>::empty(),
            r.pairs() == Seq::<(Seq<char>, T)>::empty(),
    {
        let r = SortedMap { items: Vec::new() };
        assert(r.pairs() =~= Seq::<(Seq<char>, T)>::empty());
        r
    }

    /// How many entries the map has.
    pub fn len(&self) -> (r: usize)
        ensures
            r == self.pairs().len(),
            ordered(self.pairs()),
    {
        proof {
            use_type_invariant(self);
        }
        self.items.len()
    }

    /// The key of the entry at `i`.
    pub fn key_at(&self, i: usize) -> (r: &String)
        requires
            i < self.pairs().len(),
        ensures
            r@ == self.pairs()[i as int].0,
    {
        &self.items[i].0
    }

    /// The value of the entry at `i`.
    pub fn value_at(&self, i: usize) -> (r: &T)
        requires
            i < self.pairs().len(),
        ensures
            *r == self.pairs()[i as int].1,
    {
        &self.items[i].1
    }

    /// Where `key` stands, or where it would have to be put.
    fn locate(&self, key: &str) -> (r: (usize, bool))
        ensures
            r.0 <= self.pairs().len(),
            r.1 ==> r.0 < self.pairs().len() && self.pairs()[r.0 as int].0 == key@,
            r.1 == self@.contains_key(key@),
            forall|k: int| 0 <= k < r.0 ==> before((#[trigger] self.pairs()[k]).0, key@),
            forall|k: int|
                r.0 <= k < self.pairs().len() && !(r.1 && k == r.0) ==> before(
                    key@,
                    (#[trigger] self.pairs()[k]).0,
                ),
    {
        proof {
            use_type_invariant(self);
            lemma_map_of_dom(self.pairs(), key@);
        }
        let ghost p = self.pairs();
        let mut low: usize = 0;
        let mut high: usize = self.items.len();
        while low < high
            invariant
                low <= high <= p.len(),
                p == self.pairs(),
                p.len() == self.items@.len(),
                ordered(p),
                self@ == map_of(p),
                forall|k: int| 0 <= k < low ==> before((#[trigger] p[k]).0, key@),
                forall|k: int| high <= k < p.len() ==> before(key@, (#[trigger] p[k]).0),
            decreases high - low,
        {
            let mid: usize = low + (high - low) / 2;
            let stand = standing(self.items[mid].0.as_str(), key);
            assert(p[mid as int].0 == self.items@[mid as int].0@);
            match stand {
                Standing::Before => {
                    proof {
                        assert forall|k: int| 0 <= k < mid + 1 implies before(
                            (#[trigger] p[k]).0,
                            key@,
                        ) by {
                            if k < mid {
                                lemma_before_transitive(p[k].0, p[mid as int].0, key@);
                            }
                        }
                    }
                    low = mid + 1;
                },
                Standing::Same => {
                    proof {
                        assert(p[mid as int].0 == key@);
                        lemma_map_of_dom(p, key@);
                    }
                    return (mid, true);
                },
                Standing::After => {
                    proof {
                        assert forall|k: int| mid <= k < p.len() implies before(
                            key@,
                            (#[trigger] p[k]).0,
                        ) by {
                            if k > mid {
                                lemma_before_transitive(key@, p[mid as int].0, p[k].0);
                            }
                        }
                    }
                    high = mid;
                },
            }
        }
        proof {
            lemma_map_of_dom(p, key@);
            if map_of(p).contains_key(key@) {
                let i = choose|i: int| 0 <= i < p.len() && (#[trigger] p[i]).0 == key@;
                lemma_before_irreflexive(key@);
            }
        }
        (low, false)
    }

    /// The value stored under `key`.
    pub fn get(&self, key: &str) -> (r: Option<&T>)
        ensures
            r == (if self@.contains_key(key@) {
                Some(&self@[key@])
            } else {
                None
            }),
    {
        let (i, found) = self.locate(key);
        if found {
            proof {
                use_type_invariant(self);
                lemma_map_of_at(self.pairs(), i as int);
            }
            Some(&self.items[i].1)
        } else {
            None
        }
    }

    /// Whether there is a value under `key`.
    pub fn contains_key(&self, key: &str) -> (r: bool)
        ensures
            r == self@.contains_key(key@),
    {
        self.locate(key).1
    }

    /// Stores `value` under `key`, in place of what was there.
    pub fn insert(&mut self, key: String, value: T)
        ensures
            final(self)@ == old(self)@.insert(key@, value),
    {
        let (i, found) = self.locate(key.as_str());
        let ghost p = self.pairs();
        proof {
            use_type_invariant(&*self);
        }
        let mut items: Vec<(String, T)> = Vec::new();
        std::mem::swap(&mut items, &mut self.items);
        let ghost k = key@;
        if found {
            items.set(i, (key, value));
        } else {
            items.insert(i, (key, value));
        }
        let ghost q = viewed(items@);
        proof {
            if found {
                assert(q =~= p.update(i as int, (k, value)));
                assert(ordered(q));
            } else {
                assert(q =~= p.insert(i as int, (k, value)));
                assert forall|a: int, b: int| 0 <= a < b < q.len() implies before(
                    (#[trigger] q[a]).0,
                    (#[trigger] q[b]).0,
                ) by {
                    if a < i && b > i {
                        assert(before(p[a].0, p[b - 1].0));
                    }
                }
            }
            lemma_insert(p, q, i as int, found, k, value);
        }
        self.items = items;
    }

    /// Drops what is stored under `key`.
    pub fn remove(&mut self, key: &str)
        ensures
            final(self)@ == old(self)@.remove(key@),
    {
        let (i, found) = self.locate(key);
        let ghost p = self.pairs();
        proof {
            use_type_invariant(&*self);
        }
        if !found {
            assert(self@.remove(key@) =~= self@);
            return;
        }
        let mut items: Vec<(String, T)> = Vec::new();
        std::mem::swap(&mut items, &mut self.items);
        let _gone = items.remove(i);
        let ghost q = viewed(items@);
        proof {
            assert(q =~= p.remove(i as int));
            assert forall|a: int, b: int| 0 <= a < b < q.len() implies before(
                (#[trigger] q[a]).0,
                (#[trigger] q[b]).0,
            ) by {
                let a1 = if a < i { a } else { a + 1 };
                let b1 = if b < i { b } else { b + 1 };
                assert(q[a] == p[a1] && q[b] == p[b1]);
                assert(before(p[a1].0, p[b1].0));
            }
            lemma_remove(p, q, i as int);
        }
        self.items = items;
    }
}

/// Putting a pair in its place is inserting it in the map.
proof fn lemma_insert<T>(
    p: Seq<(Seq<char>, T)>,
    q: Seq<(Seq<char>, T)>,
    i: int,
    found: bool,
    k: Seq<char>,
    value: T,
)
    requires
        ordered(p),
        ordered(q),
        0 <= i <= p.len(),
        found ==> i < p.len() && p[i].0 == k && q == p.update(i, (k, value)),
        !found ==> q == p.insert(i, (k, value)),
    ensures
        map_of(q) == map_of(p).insert(k, value),
{
    let m = map_of(p).insert(k, value);
    assert(q[i] == (k, value));
    lemma_map_of_at(q, i);
    assert forall|x: Seq<char>|
        #![trigger map_of(q).dom().contains(x)]
        #![trigger m.dom().contains(x)]
        map_of(q).dom().contains(x) == m.dom().contains(x) && (map_of(q).dom().contains(x)
            ==> map_of(q)[x] == m[x]) by {
        lemma_map_of_dom(p, x);
        lemma_map_of_dom(q, x);
        if x != k {
            if map_of(p).contains_key(x) {
                let a = choose|a: int| 0 <= a < p.len() && (#[trigger] p[a]).0 == x;
                let b = if found || a < i { a } else { a + 1 };
                assert(q[b] == p[a]);
                lemma_map_of_at(p, a);
                lemma_map_of_at(q, b);
            }
            if map_of(q).contains_key(x) {
                let b = choose|b: int| 0 <= b < q.len() && (#[trigger] q[b]).0 == x;
                let a = if found || b < i { b } else { b - 1 };
                assert(b != i);
                assert(q[b] == p[a]);
            }
        }
    }
    assert(map_of(q) =~= m);
}

/// Taking a pair out is removing its key from the map.
proof fn lemma_remove<T>(p: Seq<(Seq<char>, T)>, q: Seq<(Seq<char>, T)>, i: int)
    requires
        ordered(p),
        ordered(q),
        0 <= i < p.len(),
        q == p.remove(i),
    ensures
        map_of(q) == map_of(p).remove(p[i].0),
{
    let k = p[i].0;
    let m = map_of(p).remove(k);
    assert forall|x: Seq<char>|
        #![trigger map_of(q).dom().contains(x)]
        #![trigger m.dom().contains(x)]
        map_of(q).dom().contains(x) == m.dom().contains(x) && (map_of(q).dom().contains(x)
            ==> map_of(q)[x] == m[x]) by {
        lemma_map_of_dom(p, x);
        lemma_map_of_dom(q, x);
        if map_of(p).contains_key(x) && x != k {
            let a = choose|a: int| 0 <= a < p.len() && (#[trigger] p[a]).0 == x;
            let b = if a < i { a } else { a - 1 };
            assert(q[b] == p[a]);
            lemma_map_of_at(p, a);
            lemma_map_of_at(q, b);
        }
        if map_of(q).contains_key(x) {
            let b = choose|b: int| 0 <= b < q.len() && (#[trigger] q[b]).0 == x;
            let a = if b < i { b } else { b + 1 };
            assert(q[b] == p[a]);
            lemma_before_irreflexive(k);
            assert(a < i ==> before(p[a].0, p[i].0));
            assert(a > i ==> before(p[i].0, p[a].0));
        }
    }
    assert(map_of(q) =~= m);
}

} // verus!
