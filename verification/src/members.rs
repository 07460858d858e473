//! Cutting the text of a JSON object or array into its members, as they are written.
//!
//! A value that was read no longer tells whether a member was repeated; its text does.

use crate::csl::{group_csl, Json};
use crate::driver::texts;
use crate::json::{json_parsed, parsed_meaning, read_json};
use crate::text::{chars_of, same};
use vstd::prelude::*;
use vstd::string::*;
use vstd::utf8::encode_utf8;

verus! {

/// How far a text is cut.
struct Cut {
    /// How many brackets are open.
    depth: usize,
    /// Whether a string is open, and whether its next character is escaped.
    quoted: bool,
    escaped: bool,
    /// The member that has begun, and whether its value has.
    name: String,
    value: String,
    in_value: bool,
    /// The members that are complete.
    members: Vec<(String, String)>,
}

/// How far a text is cut, by its meaning.
pub struct CutView {
    pub depth: nat,
    pub quoted: bool,
    pub escaped: bool,
    pub name: Seq<char>,
    pub value: Seq<char>,
    pub in_value: bool,
    pub members: Seq<(Seq<char>, Seq<char>)>,
}

/// The pairs of texts, taken by view.
pub open spec fn text_pairs(s: Seq<(String, String)>) -> Seq<(Seq<char>, Seq<char>)> {
    s.map_values(|p: (String, String)| (p.0@, p.1@))
}

impl View for Cut {
    type V = CutView;

    closed spec fn view(&self) -> CutView {
        CutView {
            depth: self.depth as nat,
            quoted: self.quoted,
            escaped: self.escaped,
            name: self.name@,
            value: self.value@,
            in_value: self.in_value,
            members: text_pairs(self.members@),
        }
    }
}

/// Nothing is cut yet.
pub open spec fn uncut() -> CutView {
    CutView {
        depth: 0,
        quoted: false,
        escaped: false,
        name: Seq::empty(),
        value: Seq::empty(),
        in_value: false,
        members: Seq::empty(),
    }
}

/// A character goes to the member that has begun, if any bracket is open.
pub open spec fn kept(v: CutView, c: char) -> CutView {
    if v.depth == 0 {
        v
    } else if v.in_value {
        CutView { value: v.value.push(c), ..v }
    } else {
        CutView { name: v.name.push(c), ..v }
    }
}

/// The member that has begun, if one has, is complete.
pub open spec fn completed(v: CutView) -> CutView {
    CutView {
        name: Seq::empty(),
        value: Seq::empty(),
        in_value: false,
        members: if v.in_value || v.name.len() > 0 {
            v.members.push((v.name, v.value))
        } else {
            v.members
        },
        ..v
    }
}

/// How far a text is cut after one more character. White space between the parts of JSON
/// is left out.
pub open spec fn cut_on(v: CutView, c: char) -> CutView {
    if v.quoted {
        if v.escaped {
            CutView { escaped: false, ..kept(v, c) }
        } else if c == '\\' {
            CutView { escaped: true, ..kept(v, c) }
        } else if c == '"' {
            CutView { quoted: false, ..kept(v, c) }
        } else {
            kept(v, c)
        }
    } else if c == '"' {
        CutView { quoted: true, ..kept(v, c) }
    } else if c == '{' || c == '[' {
        CutView { depth: v.depth + 1, ..kept(v, c) }
    } else if c == '}' || c == ']' {
        if v.depth == 0 {
            v
        } else if v.depth == 1 {
            CutView { depth: 0, ..completed(v) }
        } else {
            CutView { depth: (v.depth - 1) as nat, ..kept(v, c) }
        }
    } else if c == ',' && v.depth == 1 {
        completed(v)
    } else if c == ':' && v.depth == 1 && !v.in_value {
        CutView { in_value: true, ..v }
    } else if c == ' ' || c == '\t' || c == '\n' || c == '\r' {
        v
    } else {
        kept(v, c)
    }
}

/// How far a text is cut at its end.
pub open spec fn cut_of(text: Seq<char>) -> CutView
    decreases text.len(),
{
    if text.len() == 0 {
        uncut()
    } else {
        cut_on(cut_of(text.drop_last()), text.last())
    }
}

/// The members of the JSON object that a text denotes, as they are written: names and
/// values. The items of an array stand as names without values.
pub open spec fn members_of(text: Seq<char>) -> Seq<(Seq<char>, Seq<char>)> {
    cut_of(text).members
}

impl Cut {
    fn new() -> (r: Self)
        ensures
            r@ == uncut(),
    {
        let r = Cut {
            depth: 0,
            quoted: false,
            escaped: false,
            name: String::new(),
            value: String::new(),
            in_value: false,
            members: Vec::new(),
        };
        assert(r@.name =~= Seq::empty());
        assert(r@.value =~= Seq::empty());
        assert(r@.members =~= Seq::empty());
        r
    }

    fn keep(&mut self, c: char)
        ensures
            final(self)@ == kept(old(self)@, c),
    {
        if self.depth > 0 {
            if self.in_value {
                self.value.push(c);
            } else {
                self.name.push(c);
            }
        }
    }

    fn complete(&mut self)
        ensures
            final(self)@ == completed(old(self)@),
    {
        let ghost v = self@;
        let ghost before = self.members@;
        if self.in_value || !self.name.as_str().is_empty() {
            let name = self.name.clone();
            let value = self.value.clone();
            self.members.push((name, value));
            assert(text_pairs(self.members@) =~= text_pairs(before).push((v.name, v.value)));
        }
        self.name = String::new();
        self.value = String::new();
        self.in_value = false;
        assert(self@.name =~= Seq::empty());
        assert(self@.value =~= Seq::empty());
    }

    fn go_on(&mut self, c: char)
        requires
            old(self)@.depth < usize::MAX,
        ensures
            final(self)@ == cut_on(old(self)@, c),
    {
        if self.quoted {
            self.keep(c);
            if self.escaped {
                self.escaped = false;
            } else if c == '\\' {
                self.escaped = true;
            } else if c == '"' {
                self.quoted = false;
            }
        } else if c == '"' {
            self.keep(c);
            self.quoted = true;
        } else if c == '{' || c == '[' {
            self.keep(c);
            self.depth = self.depth + 1;
        } else if c == '}' || c == ']' {
            if self.depth == 1 {
                self.complete();
                self.depth = 0;
            } else if self.depth > 1 {
                self.keep(c);
                self.depth = self.depth - 1;
            }
        } else if c == ',' && self.depth == 1 {
            self.complete();
        } else if c == ':' && self.depth == 1 && !self.in_value {
            self.in_value = true;
        } else if c == ' ' || c == '\t' || c == '\n' || c == '\r' {
        } else {
            self.keep(c);
        }
    }
}

/// No more brackets are open than characters were seen.
proof fn lemma_depth(text: Seq<char>)
    ensures
        cut_of(text).depth <= text.len(),
    decreases text.len(),
{
    if text.len() > 0 {
        lemma_depth(text.drop_last());
    }
}

/// Cuts the text of a JSON object or array into its members.
pub fn members(text: &str) -> (r: Vec<(String, String)>)
    ensures
        text_pairs(r@) == members_of(text@),
{
    let chars = chars_of(text);
    let mut cut = Cut::new();
    let mut i: usize = 0;
    assert(text@.take(0) =~= Seq::empty());
    while i < chars.len()
        invariant
            i <= chars@.len(),
            chars@ == text@,
            cut@ == cut_of(text@.take(i as int)),
        decreases chars@.len() - i,
    {
        proof {
            lemma_depth(text@.take(i as int));
            assert(text@.take(i + 1).drop_last() =~= text@.take(i as int));
        }
        cut.go_on(chars[i]);
        i += 1;
    }
    assert(text@.take(i as int) =~= text@);
    cut.members
}

/// Whether a written name is the name.
pub open spec fn is_named(written: Seq<char>, name: Seq<char>) -> bool {
    parsed_meaning(json_parsed(encode_utf8(written))) matches Ok(j) && j == Json::Text(name)
}

/// The values of the members with the name, as they are written.
pub open spec fn values_of(
    members: Seq<(Seq<char>, Seq<char>)>,
    name: Seq<char>,
) -> Seq<Seq<char>>
    decreases members.len(),
{
    if members.len() == 0 {
        Seq::empty()
    } else {
        let front = values_of(members.drop_last(), name);
        if is_named(members.last().0, name) {
            front.push(members.last().1)
        } else {
            front
        }
    }
}

/// Whether a written name is the name.
pub fn names(written: &str, name: &str) -> (r: bool)
    ensures
        r == is_named(written@, name@),
{
    broadcast use group_csl;

    match read_json(written.as_bytes()) {
        Ok(v) => match v.as_str() {
            Some(s) => same(s.as_str(), name),
            None => false,
        },
        Err(_) => false,
    }
}

/// The values of the members with the name.
pub fn values(members: &Vec<(String, String)>, name: &str) -> (r: Vec<String>)
    ensures
        texts(r@) == values_of(text_pairs(members@), name@),
{
    let ghost all = text_pairs(members@);
    let mut out: Vec<String> = Vec::new();
    let mut i: usize = 0;
    proof {
        assert(all.take(0) =~= Seq::empty());
        assert(texts(out@) =~= Seq::empty());
    }
    while i < members.len()
        invariant
            i <= members@.len(),
            all == text_pairs(members@),
            texts(out@) == values_of(all.take(i as int), name@),
        decreases members@.len() - i,
    {
        let ghost before = out@;
        proof {
            assert(all.take(i + 1).drop_last() =~= all.take(i as int));
            assert(all.take(i + 1).last() == (members@[i as int].0@, members@[i as int].1@));
        }
        if names(members[i].0.as_str(), name) {
            out.push(members[i].1.clone());
            assert(texts(out@) =~= texts(before).push(members@[i as int].1@));
        }
        i += 1;
    }
    assert(all.take(i as int) =~= all);
    out
}

} // verus!
