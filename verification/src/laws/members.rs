//! What the members of a line are, and which of them make it a record.

use crate::csl::{meaning, Json};
use crate::filecache::{entry_held, header_line};
use crate::json::{json_parsed, json_valid};
use crate::known::{json_of, known_part, known_parts, known_text, Shape};
use crate::laws::naming::is_text;
use crate::members::{cut_of, cut_on, is_named, members_of, uncut, values_of, CutView};
use crate::record::{
    change_is_fine, change_of, entry_is_fine, entry_of, header_is_fine, header_of, payload_of,
    pointer_is_fine, record_is_fine, record_of, Change,
};
use crate::store::PayloadView;
use vstd::prelude::*;
use vstd::string::*;
use vstd::utf8::encode_utf8;

verus! {

/// Whether a character means nothing but itself outside quotes.
pub open spec fn is_plain_char(c: char) -> bool {
    c != '"' && c != '{' && c != '}' && c != '[' && c != ']' && c != ',' && c != ':' && c != ' ' && c
        != '\t' && c != '\n' && c != '\r'
}

/// Whether a text is a word of such characters.
pub open spec fn is_word(s: Seq<char>) -> bool {
    s.len() > 0 && forall|i: int| 0 <= i < s.len() ==> is_plain_char(#[trigger] s[i])
}

/// Whether a text stands in quotes, with neither quotes nor backslashes inside.
pub open spec fn is_quoted(s: Seq<char>) -> bool {
    &&& s.len() >= 2
    &&& s[0] == '"'
    &&& s[s.len() - 1] == '"'
    &&& forall|i: int| 0 < i < s.len() - 1 ==> #[trigger] s[i] != '"' && s[i] != '\\'
}

/// Whether a text is a word or stands in quotes.
pub open spec fn is_token(s: Seq<char>) -> bool {
    is_word(s) || is_quoted(s)
}

/// A cut after more characters.
spec fn cut_further(v: CutView, s: Seq<char>) -> CutView
    decreases s.len(),
{
    if s.len() == 0 {
        v
    } else {
        cut_on(cut_further(v, s.drop_last()), s.last())
    }
}

proof fn lemma_cut_further(a: Seq<char>, b: Seq<char>)
    ensures
        cut_of(a + b) == cut_further(cut_of(a), b),
    decreases b.len(),
{
    if b.len() == 0 {
        assert(a + b =~= a);
    } else {
        lemma_cut_further(a, b.drop_last());
        assert((a + b).drop_last() =~= a + b.drop_last());
        assert((a + b).last() == b.last());
    }
}

proof fn lemma_further_concat(v: CutView, a: Seq<char>, b: Seq<char>)
    ensures
        cut_further(v, a + b) == cut_further(cut_further(v, a), b),
    decreases b.len(),
{
    if b.len() == 0 {
        assert(a + b =~= a);
    } else {
        lemma_further_concat(v, a, b.drop_last());
        assert((a + b).drop_last() =~= a + b.drop_last());
        assert((a + b).last() == b.last());
    }
}

proof fn lemma_further_one(v: CutView, c: char)
    ensures
        cut_further(v, seq![c]) == cut_on(v, c),
{
    assert(seq![c].drop_last() =~= Seq::empty());
    assert(cut_further(v, seq![c].drop_last()) == v);
}

/// A cut that has kept a text.
spec fn having(v: CutView, s: Seq<char>) -> CutView {
    if v.in_value {
        CutView { value: v.value + s, ..v }
    } else {
        CutView { name: v.name + s, ..v }
    }
}

proof fn lemma_word(v: CutView, s: Seq<char>)
    requires
        v.depth > 0,
        !v.quoted,
        !v.escaped,
        forall|i: int| 0 <= i < s.len() ==> is_plain_char(#[trigger] s[i]),
    ensures
        cut_further(v, s) == having(v, s),
    decreases s.len(),
{
    if s.len() == 0 {
        assert(v.value + s =~= v.value);
        assert(v.name + s =~= v.name);
    } else {
        let front = s.drop_last();
        assert forall|i: int| 0 <= i < front.len() implies is_plain_char(#[trigger] front[i]) by {
            assert(front[i] == s[i]);
        }
        lemma_word(v, front);
        assert(is_plain_char(s[s.len() - 1]));
        assert(v.value + s =~= (v.value + front).push(s.last()));
        assert(v.name + s =~= (v.name + front).push(s.last()));
    }
}

proof fn lemma_inside_quotes(v: CutView, s: Seq<char>)
    requires
        v.depth > 0,
        v.quoted,
        !v.escaped,
        forall|i: int| 0 <= i < s.len() ==> #[trigger] s[i] != '"' && s[i] != '\\',
    ensures
        cut_further(v, s) == having(v, s),
    decreases s.len(),
{
    if s.len() == 0 {
        assert(v.value + s =~= v.value);
        assert(v.name + s =~= v.name);
    } else {
        let front = s.drop_last();
        assert forall|i: int| 0 <= i < front.len() implies #[trigger] front[i] != '"' && front[i]
            != '\\' by {
            assert(front[i] == s[i]);
        }
        lemma_inside_quotes(v, front);
        assert(s[s.len() - 1] != '"' && s[s.len() - 1] != '\\');
        assert(v.value + s =~= (v.value + front).push(s.last()));
        assert(v.name + s =~= (v.name + front).push(s.last()));
    }
}

proof fn lemma_token(v: CutView, s: Seq<char>)
    requires
        v.depth > 0,
        !v.quoted,
        !v.escaped,
        is_token(s),
    ensures
        cut_further(v, s) == having(v, s),
{
    if is_word(s) {
        lemma_word(v, s);
    } else {
        let inner = s.subrange(1, s.len() - 1);
        assert(s =~= seq!['"'] + inner + seq!['"']);
        let open = cut_on(v, '"');
        lemma_further_one(v, '"');
        assert forall|i: int| 0 <= i < inner.len() implies #[trigger] inner[i] != '"' && inner[i]
            != '\\' by {
            assert(inner[i] == s[i + 1]);
        }
        lemma_inside_quotes(open, inner);
        lemma_further_concat(v, seq!['"'], inner);
        let then = cut_further(v, seq!['"'] + inner);
        lemma_further_concat(v, seq!['"'] + inner, seq!['"']);
        lemma_further_one(then, '"');
        assert(having(v, s) == cut_on(then, '"')) by {
            assert(v.value + s =~= v.value.push('"') + inner.push('"'));
            assert((v.value.push('"') + inner).push('"') =~= v.value + s);
            assert((v.name.push('"') + inner).push('"') =~= v.name + s);
        }
    }
}

proof fn lemma_member(v: CutView, a: Seq<char>, b: Seq<char>)
    requires
        v.depth == 1,
        !v.quoted,
        !v.escaped,
        !v.in_value,
        v.name.len() == 0,
        v.value.len() == 0,
        is_token(a),
        is_token(b),
    ensures
        cut_further(v, a + seq![':'] + b) == (CutView { name: a, value: b, in_value: true, ..v }),
{
    lemma_token(v, a);
    let w = cut_further(v, a);
    assert(v.name + a =~= a);
    lemma_further_concat(v, a, seq![':']);
    lemma_further_one(w, ':');
    let x = cut_on(w, ':');
    lemma_further_concat(v, a + seq![':'], b);
    lemma_token(x, b);
    assert(v.value + b =~= b);
}

proof fn lemma_start(c: char)
    requires
        c == '{' || c == '[',
    ensures
        ({
            let v = cut_of(seq![c]);
            &&& v.depth == 1 && !v.quoted && !v.escaped && !v.in_value
            &&& v.name.len() == 0 && v.value.len() == 0 && v.members.len() == 0
        }),
{
    assert(seq![c].drop_last() =~= Seq::empty());
    assert(cut_of(seq![c].drop_last()) == uncut());
}

/// Members as they are written in an object, with commas in between.
pub open spec fn members_text(members: Seq<(Seq<char>, Seq<char>)>) -> Seq<char>
    decreases members.len(),
{
    if members.len() == 0 {
        Seq::empty()
    } else {
        let own = members.last().0 + seq![':'] + members.last().1;
        if members.len() == 1 {
            own
        } else {
            members_text(members.drop_last()) + seq![','] + own
        }
    }
}

/// Items as they are written in a list, with commas in between.
pub open spec fn items_text(items: Seq<Seq<char>>) -> Seq<char>
    decreases items.len(),
{
    if items.len() == 0 {
        Seq::empty()
    } else if items.len() == 1 {
        items.last()
    } else {
        items_text(items.drop_last()) + seq![','] + items.last()
    }
}

/// An object has the members that are written in it, however many, in order, and each with its
/// name and its value as they are written.
pub proof fn law_members_are_as_written(members: Seq<(Seq<char>, Seq<char>)>)
    requires
        forall|i: int|
            0 <= i < members.len() ==> is_token((#[trigger] members[i]).0) && is_token(
                members[i].1,
            ),
    ensures
        members_of(seq!['{'] + members_text(members) + seq!['}']) == members,
{
    let s = seq!['{'] + members_text(members);
    lemma_start('{');
    lemma_cut_further(s, seq!['}']);
    lemma_further_one(cut_of(s), '}');
    if members.len() == 0 {
        assert(s =~= seq!['{']);
        assert(members_of(s + seq!['}']) =~= members);
    } else {
        lemma_members_cut(members);
        assert(members.drop_last().push(members.last()) =~= members);
    }
}

proof fn lemma_members_cut(members: Seq<(Seq<char>, Seq<char>)>)
    requires
        members.len() > 0,
        forall|i: int|
            0 <= i < members.len() ==> is_token((#[trigger] members[i]).0) && is_token(
                members[i].1,
            ),
    ensures
        ({
            let v = cut_of(seq!['{'] + members_text(members));
            &&& v.depth == 1 && !v.quoted && !v.escaped && v.in_value
            &&& v.name == members.last().0 && v.value == members.last().1
            &&& v.members == members.drop_last()
        }),
    decreases members.len(),
{
    let (a, b) = members.last();
    assert(is_token(members[members.len() - 1].0));
    let own = a + seq![':'] + b;
    if members.len() == 1 {
        lemma_start('{');
        lemma_member(cut_of(seq!['{']), a, b);
        lemma_cut_further(seq!['{'], own);
        assert(cut_of(seq!['{']).members =~= members.drop_last());
    } else {
        let front = members.drop_last();
        assert forall|i: int| 0 <= i < front.len() implies is_token((#[trigger] front[i]).0)
            && is_token(front[i].1) by {
            assert(front[i] == members[i]);
        }
        lemma_members_cut(front);
        let s = seq!['{'] + members_text(front);
        lemma_cut_further(s, seq![',']);
        lemma_further_one(cut_of(s), ',');
        let w = cut_of(s + seq![',']);
        assert(w.members =~= front) by {
            assert(front.drop_last().push(front.last()) =~= front);
        }
        lemma_member(w, a, b);
        lemma_cut_further(s + seq![','], own);
        assert(s + seq![','] + own =~= seq!['{'] + members_text(members));
    }
}

/// A list has the items that are written in it, however many, in order.
pub proof fn law_items_are_as_written(items: Seq<Seq<char>>)
    requires
        forall|i: int| 0 <= i < items.len() ==> is_token(#[trigger] items[i]),
    ensures
        members_of(seq!['['] + items_text(items) + seq![']']) == items.map_values(
            |t: Seq<char>| (t, Seq::<char>::empty()),
        ),
{
    let s = seq!['['] + items_text(items);
    let all = items.map_values(|t: Seq<char>| (t, Seq::<char>::empty()));
    lemma_start('[');
    lemma_cut_further(s, seq![']']);
    lemma_further_one(cut_of(s), ']');
    if items.len() == 0 {
        assert(s =~= seq!['[']);
        assert(members_of(s + seq![']']) =~= all);
    } else {
        lemma_items_cut(items);
        assert(is_token(items[items.len() - 1]));
        assert(members_of(s + seq![']']) =~= all);
    }
}

proof fn lemma_items_cut(items: Seq<Seq<char>>)
    requires
        items.len() > 0,
        forall|i: int| 0 <= i < items.len() ==> is_token(#[trigger] items[i]),
    ensures
        ({
            let v = cut_of(seq!['['] + items_text(items));
            &&& v.depth == 1 && !v.quoted && !v.escaped && !v.in_value
            &&& v.name == items.last() && v.value == Seq::<char>::empty()
            &&& v.members == items.drop_last().map_values(
                |t: Seq<char>| (t, Seq::<char>::empty()),
            )
        }),
    decreases items.len(),
{
    let a = items.last();
    assert(is_token(items[items.len() - 1]));
    let f = |t: Seq<char>| (t, Seq::<char>::empty());
    if items.len() == 1 {
        lemma_start('[');
        let v = cut_of(seq!['[']);
        lemma_token(v, a);
        lemma_cut_further(seq!['['], a);
        assert(v.name + a =~= a);
        assert(v.value =~= Seq::empty());
        assert(v.members =~= items.drop_last().map_values(f));
    } else {
        let front = items.drop_last();
        assert forall|i: int| 0 <= i < front.len() implies is_token(#[trigger] front[i]) by {
            assert(front[i] == items[i]);
        }
        lemma_items_cut(front);
        assert(is_token(front[front.len() - 1]));
        let s = seq!['['] + items_text(front);
        lemma_cut_further(s, seq![',']);
        lemma_further_one(cut_of(s), ',');
        let w = cut_of(s + seq![',']);
        assert(w.members =~= front.map_values(f));
        lemma_token(w, a);
        lemma_cut_further(s + seq![','], a);
        assert(w.name + a =~= a);
        assert(s + seq![','] + a =~= seq!['['] + items_text(items));
    }
}

/// What is written inside a value is no member of its own: objects and lists are kept whole.
pub proof fn law_values_are_kept_whole(
    a: Seq<char>,
    b: Seq<char>,
    c: Seq<char>,
    d: Seq<char>,
)
    requires
        is_token(a),
        is_token(b),
        is_token(c),
        is_token(d),
    ensures
        ({
            let object = seq!['{'] + b + seq![':'] + c + seq![','] + d + seq!['}'];
            let list = seq!['['] + b + seq![':'] + c + seq![','] + d + seq![']'];
            &&& members_of(seq!['{'] + a + seq![':'] + object + seq!['}']) == seq![(a, object)]
            &&& members_of(seq!['{'] + a + seq![':'] + list + seq!['}']) == seq![(a, list)]
        }),
{
    lemma_kept_whole('{', '}', a, b, c, d);
    lemma_kept_whole('[', ']', a, b, c, d);
}

proof fn lemma_kept_whole(
    open: char,
    close: char,
    a: Seq<char>,
    b: Seq<char>,
    c: Seq<char>,
    d: Seq<char>,
)
    requires
        (open == '{' && close == '}') || (open == '[' && close == ']'),
        is_token(a),
        is_token(b),
        is_token(c),
        is_token(d),
    ensures
        ({
            let inner = seq![open] + b + seq![':'] + c + seq![','] + d + seq![close];
            members_of(seq!['{'] + a + seq![':'] + inner + seq!['}']) == seq![(a, inner)]
        }),
{
    let inner = seq![open] + b + seq![':'] + c + seq![','] + d + seq![close];
    let v = cut_of(seq!['{']);
    lemma_start('{');
    lemma_token(v, a);
    lemma_cut_further(seq!['{'], a);
    let w = cut_of(seq!['{'] + a);
    assert(w.name =~= a);
    lemma_cut_further(seq!['{'] + a, seq![':']);
    lemma_further_one(w, ':');
    let x = cut_of(seq!['{'] + a + seq![':']);
    assert(x.in_value && x.value.len() == 0 && x.depth == 1);
    // Inside the value.
    let s1 = seq![open];
    let x1 = cut_further(x, s1);
    lemma_further_one(x, open);
    assert(x1.depth == 2 && x1.value =~= s1);
    let s2 = s1 + b;
    let x2 = cut_further(x, s2);
    lemma_further_concat(x, s1, b);
    lemma_token(x1, b);
    assert(x2.value =~= s2);
    let s3 = s2 + seq![':'];
    let x3 = cut_further(x, s3);
    lemma_further_concat(x, s2, seq![':']);
    lemma_further_one(x2, ':');
    assert(x3.value =~= s3);
    let s4 = s3 + c;
    let x4 = cut_further(x, s4);
    lemma_further_concat(x, s3, c);
    lemma_token(x3, c);
    assert(x4.value =~= s4);
    let s5 = s4 + seq![','];
    let x5 = cut_further(x, s5);
    lemma_further_concat(x, s4, seq![',']);
    lemma_further_one(x4, ',');
    assert(x5.value =~= s5);
    let s6 = s5 + d;
    let x6 = cut_further(x, s6);
    lemma_further_concat(x, s5, d);
    lemma_token(x5, d);
    assert(x6.value =~= s6);
    let x7 = cut_further(x, inner);
    lemma_further_concat(x, s6, seq![close]);
    lemma_further_one(x6, close);
    assert(x7.value =~= inner);
    assert(x7.depth == 1);
    lemma_cut_further(seq!['{'] + a + seq![':'], inner);
    lemma_cut_further(seq!['{'] + a + seq![':'] + inner, seq!['}']);
    lemma_further_one(x7, '}');
    assert(members_of(seq!['{'] + a + seq![':'] + inner + seq!['}']) =~= seq![(a, inner)]);
}

/// A character behind a backslash does not end what stands in quotes.
pub proof fn law_what_is_escaped_ends_nothing(
    a: Seq<char>,
    x: Seq<char>,
    c: char,
    y: Seq<char>,
)
    requires
        is_token(a),
        forall|i: int| 0 <= i < x.len() ==> #[trigger] x[i] != '"' && x[i] != '\\',
        forall|i: int| 0 <= i < y.len() ==> #[trigger] y[i] != '"' && y[i] != '\\',
    ensures
        ({
            let value = seq!['"'] + x + seq!['\\'] + seq![c] + y + seq!['"'];
            members_of(seq!['{'] + a + seq![':'] + value + seq!['}']) == seq![(a, value)]
        }),
{
    let value = seq!['"'] + x + seq!['\\'] + seq![c] + y + seq!['"'];
    let v = cut_of(seq!['{']);
    lemma_start('{');
    lemma_token(v, a);
    lemma_cut_further(seq!['{'], a);
    let w = cut_of(seq!['{'] + a);
    assert(w.name =~= a);
    lemma_cut_further(seq!['{'] + a, seq![':']);
    lemma_further_one(w, ':');
    let q = cut_of(seq!['{'] + a + seq![':']);
    let s1 = seq!['"'];
    let q1 = cut_further(q, s1);
    lemma_further_one(q, '"');
    assert(q1.value =~= s1);
    let s2 = s1 + x;
    let q2 = cut_further(q, s2);
    lemma_further_concat(q, s1, x);
    lemma_inside_quotes(q1, x);
    assert(q2.value =~= s2);
    let s3 = s2 + seq!['\\'];
    let q3 = cut_further(q, s3);
    lemma_further_concat(q, s2, seq!['\\']);
    lemma_further_one(q2, '\\');
    assert(q3.value =~= s3);
    let s4 = s3 + seq![c];
    let q4 = cut_further(q, s4);
    lemma_further_concat(q, s3, seq![c]);
    lemma_further_one(q3, c);
    assert(q4.value =~= s4);
    let s5 = s4 + y;
    let q5 = cut_further(q, s5);
    lemma_further_concat(q, s4, y);
    lemma_inside_quotes(q4, y);
    assert(q5.value =~= s5);
    let q6 = cut_further(q, value);
    lemma_further_concat(q, s5, seq!['"']);
    lemma_further_one(q5, '"');
    assert(q6.value =~= value);
    lemma_cut_further(seq!['{'] + a + seq![':'], value);
    lemma_cut_further(seq!['{'] + a + seq![':'] + value, seq!['}']);
    lemma_further_one(q6, '}');
    assert(members_of(seq!['{'] + a + seq![':'] + value + seq!['}']) =~= seq![(a, value)]);
}

/// A list holds the parts of what an object holds by name, in order, and nothing more.
pub proof fn law_a_list_holds_the_parts_in_order(a: Json, b: Json, c: Json, more: Seq<Json>)
    ensures
        record_of(Json::Array(seq![a, b, c])) == record_of(
            Json::Object(
                Map::empty().insert("payload"@, a).insert("stale_after"@, b).insert("expires"@, c),
            ),
        ),
        entry_of(Json::Array(seq![a, b])) == entry_of(
            Json::Object(Map::empty().insert("id"@, a).insert("rec"@, b)),
        ),
        change_of(Json::Array(seq![a, b, c])) == change_of(
            Json::Object(Map::empty().insert("id"@, a).insert("rec"@, b).insert("del"@, c)),
        ),
        header_of(Json::Array(seq![a])) == header_of(
            Json::Object(Map::empty().insert("schema"@, a)),
        ),
        payload_of(
            Json::Object(Map::empty().insert("chained"@, Json::Array(seq![a, b, c]))),
        ) == payload_of(
            Json::Object(
                Map::empty().insert(
                    "chained"@,
                    Json::Object(
                        Map::empty().insert("prefix"@, a).insert("key"@, b).insert(
                            "set_properties"@,
                            c,
                        ),
                    ),
                ),
            ),
        ),
        more.len() > 3 || more.len() < 2 ==> payload_of(
            Json::Object(Map::empty().insert("chained"@, Json::Array(more))),
        ) is None,
        more.len() != 3 ==> record_of(Json::Array(more)) is None,
        more.len() != 2 ==> entry_of(Json::Array(more)) is None,
        more.len() > 3 ==> change_of(Json::Array(more)) is Nothing,
        more.len() != 1 ==> header_of(Json::Array(more)) is None,
{
    lemma_names();
}

proof fn lemma_names()
    ensures
        "payload"@ != "stale_after"@,
        "payload"@ != "expires"@,
        "stale_after"@ != "expires"@,
        "id"@ != "rec"@,
        "id"@ != "del"@,
        "rec"@ != "del"@,
        "prefix"@ != "key"@,
        "prefix"@ != "set_properties"@,
        "key"@ != "set_properties"@,
        "concrete"@ != "chained"@,
{
    reveal_strlit("concrete");
    reveal_strlit("chained");
    assert("concrete"@.len() == 8 && "chained"@.len() == 7);
    reveal_strlit("payload");
    reveal_strlit("stale_after");
    reveal_strlit("expires");
    reveal_strlit("id");
    reveal_strlit("rec");
    reveal_strlit("del");
    reveal_strlit("prefix");
    reveal_strlit("key");
    reveal_strlit("set_properties");
    assert("payload"@[0] == 'p' && "stale_after"@[0] == 's' && "expires"@[0] == 'e');
    assert("id"@[0] == 'i' && "rec"@[0] == 'r' && "del"@[0] == 'd');
    assert("prefix"@[0] == 'p' && "key"@[0] == 'k' && "set_properties"@[0] == 's');
}

/// A payload is one thing: an item, or a pointer with a prefix and a key, which are texts, and
/// with properties, which may be left out. What holds more, or anything else, is none.
pub proof fn law_a_payload_is_one_thing(m: Map<Seq<char>, Json>, p: Map<Seq<char>, Json>, j: Json)
    ensures
        payload_of(Json::Object(Map::empty().insert("concrete"@, j))) == Some(
            PayloadView::Concrete(j),
        ),
        payload_of(Json::Object(Map::empty().insert("chained"@, Json::Object(p)))) == (if is_text(
            p,
            "prefix"@,
        ) && is_text(p, "key"@) {
            Some(
                PayloadView::Chained {
                    prefix: p["prefix"@]->Text_0,
                    key: p["key"@]->Text_0,
                    set_properties: if p.contains_key("set_properties"@) {
                        p["set_properties"@]
                    } else {
                        Json::Null
                    },
                },
            )
        } else {
            None
        }),
        payload_of(Json::Object(m)) is Some ==> {
            ||| m.dom() =~= set!["concrete"@]
            ||| m.dom() =~= set!["chained"@]
        },
        !(j is Object) ==> payload_of(j) is None,
{
    lemma_names();
}

/// A tombstone buries whatever record stands beside it; a line with neither a tombstone nor
/// a record changes nothing, nor does one with a record that is none.
pub proof fn law_a_tombstone_buries(m: Map<Seq<char>, Json>, id: Seq<char>)
    requires
        m.contains_key("id"@),
        m["id"@] == Json::Text(id),
    ensures
        ({
            let change = change_of(Json::Object(m));
            let rec = if m.contains_key("rec"@) {
                m["rec"@]
            } else {
                Json::Null
            };
            let del = if m.contains_key("del"@) {
                m["del"@]
            } else {
                Json::Bool(false)
            };
            &&& !(rec is Null) && record_of(rec) is None ==> change is Nothing
            &&& !(del is Bool) ==> change is Nothing
            &&& rec is Null || record_of(rec) is Some ==> (del == Json::Bool(true) ==> change
                == Change::Remove(id))
            &&& del == Json::Bool(false) && !(rec is Null) ==> (record_of(rec) matches Some(r)
                ==> change == Change::Put(id, r))
            &&& del == Json::Bool(false) && rec is Null ==> change is Nothing
        }),
        forall|other: Map<Seq<char>, Json>|
            !other.contains_key("id"@) || !(other["id"@] is Text) ==> #[trigger] change_of(
                Json::Object(other),
            ) is Nothing,
{
}

/// A part that is given twice spoils a line.
pub proof fn law_a_part_given_twice_spoils_a_line(text: Seq<char>, m: Map<Seq<char>, Json>)
    ensures
        ({
            let j = Json::Object(m);
            let members = members_of(text);
            &&& values_of(members, "id"@).len() > 1 ==> !entry_is_fine(text, j)
            &&& values_of(members, "rec"@).len() > 1 ==> !entry_is_fine(text, j)
            &&& !entry_is_fine(text, j) ==> !change_is_fine(text, j)
            &&& values_of(members, "del"@).len() > 1 ==> !change_is_fine(text, j)
            &&& entry_is_fine(text, j) && values_of(members, "del"@).len() <= 1 ==> change_is_fine(
                text,
                j,
            )
            &&& header_is_fine(text, j) <==> values_of(members, "schema"@).len() <= 1
            &&& values_of(members, "payload"@).len() > 1 || values_of(
                members,
                "stale_after"@,
            ).len() > 1 || values_of(members, "expires"@).len() > 1 ==> !record_is_fine(text, j)
            &&& pointer_is_fine(text, j) <==> values_of(members, "prefix"@).len() <= 1 && values_of(
                members,
                "key"@,
            ).len() <= 1 && values_of(members, "set_properties"@).len() <= 1
        }),
{
}

/// The values of a name are those of the members with it, in order.
pub proof fn law_values_are_found_by_name(
    members: Seq<(Seq<char>, Seq<char>)>,
    name: Seq<char>,
    m: (Seq<char>, Seq<char>),
)
    ensures
        values_of(Seq::empty(), name).len() == 0,
        json_parsed(encode_utf8(m.0)) matches Ok(t) && meaning(t) == Json::Text(name) ==> values_of(
            members.push(m),
            name,
        ) == values_of(members, name).push(m.1),
        !(json_parsed(encode_utf8(m.0)) matches Ok(t) && meaning(t) == Json::Text(name))
            ==> values_of(members.push(m), name) == values_of(members, name),
{
    assert(members.push(m).drop_last() =~= members);
}

/// A line that parses is what it parses to; one that does not, but is valid JSON, is what is
/// known of it, and any other is nothing.
pub proof fn law_a_line_is_what_it_parses_to(text: Seq<char>, shape: Shape)
    ensures
        json_parsed(encode_utf8(text)) matches Ok(t) ==> json_of(text, shape) == Some(meaning(t)),
        json_parsed(encode_utf8(text)) is Err && !json_valid(text) ==> json_of(text, shape) is None,
        json_parsed(encode_utf8(text)) is Err && json_valid(text) ==> (match json_parsed(
            encode_utf8(known_text(text, shape)),
        ) {
            Ok(t) => json_of(text, shape) == Some(meaning(t)),
            Err(_) => json_of(text, shape) is None,
        }),
        json_of(text, Shape::Header) is None ==> header_line(text) is None,
        json_of(text, Shape::Entry) is None ==> entry_held(text) is None,
{
}

/// What is known of an object is each of its members, in order, by its name.
pub proof fn law_what_is_known_is_put_in_a_row(
    members: Seq<(Seq<char>, Seq<char>)>,
    n: nat,
    listed: bool,
    shape: Shape,
)
    requires
        n < members.len(),
    ensures
        known_parts(members, 0, listed, shape) == ""@,
        n == 0 ==> known_parts(members, 1, listed, shape) == known_part(
            members[0],
            0,
            listed,
            shape,
        ),
        n > 0 ==> known_parts(members, n + 1, listed, shape) == known_parts(
            members,
            n,
            listed,
            shape,
        ) + ","@ + known_part(members[n as int], n as int, listed, shape),
        !listed ==> (members[n as int].0 + ":"@).is_prefix_of(
            known_part(members[n as int], n as int, listed, shape),
        ),
{
    reveal_strlit("");
    assert(known_parts(members, 0, listed, shape) =~= ""@);
    assert(Seq::<char>::empty() + ""@ + known_part(members[0], 0, listed, shape) =~= known_part(
        members[0],
        0,
        listed,
        shape,
    ));
    reveal_with_fuel(known_parts, 2);
}

/// Whether a name is one of these.
pub open spec fn is_one_of(written: Seq<char>, names: Seq<Seq<char>>) -> bool {
    exists|i: int| 0 <= i < names.len() && is_named(written, #[trigger] names[i])
}

/// What is known of a member is its value if it is a part of the line, and otherwise nothing.
/// What is in the record, in its payload and in a pointer is known likewise.
pub proof fn law_parts_are_known_by_name(m: (Seq<char>, Seq<char>), place: int)
    ensures
        is_named(m.0, "schema"@) ==> known_part(m, place, false, Shape::Header) == m.0 + ":"@ + m.1,
        is_named(m.0, "id"@) && !is_named(m.0, "rec"@) ==> known_part(m, place, false, Shape::Entry)
            == m.0 + ":"@ + m.1,
        (is_named(m.0, "id"@) || is_named(m.0, "del"@)) && !is_named(m.0, "rec"@) ==> known_part(
            m,
            place,
            false,
            Shape::Change,
        ) == m.0 + ":"@ + m.1,
        is_named(m.0, "rec"@) ==> {
            &&& known_part(m, place, false, Shape::Entry) == m.0 + ":"@ + known_text(
                m.1,
                Shape::Record,
            )
            &&& known_part(m, place, false, Shape::Change) == m.0 + ":"@ + known_text(
                m.1,
                Shape::Record,
            )
        },
        is_named(m.0, "payload"@) ==> known_part(m, place, false, Shape::Record) == m.0 + ":"@
            + known_text(m.1, Shape::Payload),
        (is_named(m.0, "stale_after"@) || is_named(m.0, "expires"@)) && !is_named(
            m.0,
            "payload"@,
        ) ==> known_part(m, place, false, Shape::Record) == m.0 + ":"@ + m.1,
        is_named(m.0, "chained"@) ==> known_part(m, place, false, Shape::Payload) == m.0 + ":"@
            + known_text(m.1, Shape::Pointer),
        !is_named(m.0, "chained"@) ==> known_part(m, place, false, Shape::Payload) == m.0 + ":"@
            + m.1,
        is_named(m.0, "prefix"@) || is_named(m.0, "key"@) || is_named(m.0, "set_properties"@)
            ==> known_part(m, place, false, Shape::Pointer) == m.0 + ":"@ + m.1,
        !is_one_of(m.0, seq!["schema"@]) ==> known_part(m, place, false, Shape::Header) == m.0
            + ":"@ + "null"@,
        !is_one_of(m.0, seq!["id"@, "rec"@]) ==> known_part(m, place, false, Shape::Entry) == m.0
            + ":"@ + "null"@,
        !is_one_of(m.0, seq!["id"@, "rec"@, "del"@]) ==> known_part(m, place, false, Shape::Change)
            == m.0 + ":"@ + "null"@,
        !is_one_of(m.0, seq!["payload"@, "stale_after"@, "expires"@]) ==> known_part(
            m,
            place,
            false,
            Shape::Record,
        ) == m.0 + ":"@ + "null"@,
        !is_one_of(m.0, seq!["prefix"@, "key"@, "set_properties"@]) ==> known_part(
            m,
            place,
            false,
            Shape::Pointer,
        ) == m.0 + ":"@ + "null"@,
{
    let a = seq!["schema"@];
    let b = seq!["id"@, "rec"@];
    let c = seq!["id"@, "rec"@, "del"@];
    let d = seq!["payload"@, "stale_after"@, "expires"@];
    let e = seq!["prefix"@, "key"@, "set_properties"@];
    assert(a[0] == "schema"@);
    assert(b[0] == "id"@ && b[0int + 1] == "rec"@);
    assert(c[0] == "id"@ && c[0int + 1] == "rec"@ && c[0int + 2] == "del"@);
    assert(d[0] == "payload"@ && d[0int + 1] == "stale_after"@ && d[0int + 2] == "expires"@);
    assert(e[0] == "prefix"@ && e[0int + 1] == "key"@ && e[0int + 2] == "set_properties"@);
}

/// In a list the parts are known by their places.
pub proof fn law_parts_are_known_by_place(m: (Seq<char>, Seq<char>), place: int)
    ensures
        known_part(m, place, true, Shape::Entry) == (if place == 1 {
            known_text(m.0, Shape::Record)
        } else {
            m.0
        }),
        known_part(m, place, true, Shape::Change) == (if place == 1 {
            known_text(m.0, Shape::Record)
        } else {
            m.0
        }),
        known_part(m, place, true, Shape::Record) == (if place == 0 {
            known_text(m.0, Shape::Payload)
        } else {
            m.0
        }),
        known_part(m, place, true, Shape::Header) == m.0,
        known_part(m, place, true, Shape::Payload) == m.0,
        known_part(m, place, true, Shape::Pointer) == m.0,
{
}

} // verus!
