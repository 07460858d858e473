//! Reading a line of which only some parts are known. What the others hold does not matter
//! as long as it is JSON: a number may be too large and brackets may be nested too deep to
//! be read.

use crate::csl::{meaning, CslValue, Json};
use crate::error::joined;
use crate::json::{is_json, json_parsed, json_valid, read_json};
use crate::members::{is_named, members, members_of, names, text_pairs};
use crate::text::chars_of;
use vstd::prelude::*;
use vstd::string::*;
use vstd::utf8::encode_utf8;

verus! {

/// What a text is read as.
#[derive(Clone, Copy)]
pub enum Shape {
    Header,
    Entry,
    Change,
    Record,
    Payload,
    Pointer,
}

/// How deep a shape may hold others.
pub open spec fn rank(shape: Shape) -> nat {
    match shape {
        Shape::Header => 0,
        Shape::Entry => 3,
        Shape::Change => 3,
        Shape::Record => 2,
        Shape::Payload => 1,
        Shape::Pointer => 0,
    }
}

/// Whether a member is a part of the shape that is read as it stands.
pub open spec fn is_plain_part(shape: Shape, written: Seq<char>) -> bool {
    match shape {
        Shape::Header => is_named(written, "schema"@),
        Shape::Entry => is_named(written, "id"@),
        Shape::Change => is_named(written, "id"@) || is_named(written, "del"@),
        Shape::Record => is_named(written, "stale_after"@) || is_named(written, "expires"@),
        // Any other member is refused, whatever it holds.
        Shape::Payload => true,
        Shape::Pointer => is_named(written, "prefix"@) || is_named(written, "key"@) || is_named(
            written,
            "set_properties"@,
        ),
    }
}

/// The shape of a member, if it has parts itself.
pub open spec fn part_shape(shape: Shape, written: Seq<char>) -> Option<Shape> {
    match shape {
        Shape::Entry | Shape::Change => if is_named(written, "rec"@) {
            Some(Shape::Record)
        } else {
            None
        },
        Shape::Record => if is_named(written, "payload"@) {
            Some(Shape::Payload)
        } else {
            None
        },
        Shape::Payload => if is_named(written, "chained"@) {
            Some(Shape::Pointer)
        } else {
            None
        },
        _ => None,
    }
}

/// The shape of an item of an array that has the parts in order, if it has parts itself.
pub open spec fn item_shape(shape: Shape, place: int) -> Option<Shape> {
    match shape {
        Shape::Entry | Shape::Change => if place == 1 {
            Some(Shape::Record)
        } else {
            None
        },
        Shape::Record => if place == 0 {
            Some(Shape::Payload)
        } else {
            None
        },
        _ => None,
    }
}

/// A member, or an item of an array, with `null` for what is no known part of the shape.
pub open spec fn known_part(
    m: (Seq<char>, Seq<char>),
    place: int,
    listed: bool,
    shape: Shape,
) -> Seq<char>
    decreases rank(shape), 0nat,
{
    if listed {
        match item_shape(shape, place) {
            Some(inner) => known_text(m.0, inner),
            None => m.0,
        }
    } else {
        m.0 + ":"@ + (match part_shape(shape, m.0) {
            Some(inner) => known_text(m.1, inner),
            None => if is_plain_part(shape, m.0) {
                m.1
            } else {
                "null"@
            },
        })
    }
}

/// The first members, or items of an array, with `null` for what is no known part of the
/// shape and with commas between them.
pub open spec fn known_parts(
    members: Seq<(Seq<char>, Seq<char>)>,
    n: nat,
    listed: bool,
    shape: Shape,
) -> Seq<char>
    decreases rank(shape), n + 1,
{
    if n == 0 {
        Seq::empty()
    } else {
        known_parts(members, (n - 1) as nat, listed, shape) + (if n == 1 {
            ""@
        } else {
            ","@
        }) + known_part(members[n - 1], n - 1, listed, shape)
    }
}

/// A text with `null` for what is no known part of the shape.
pub open spec fn known_text(text: Seq<char>, shape: Shape) -> Seq<char>
    decreases rank(shape), members_of(text).len() + 2,
{
    let members = members_of(text);
    if text.len() > 0 && text[0] == '{' {
        "{"@ + known_parts(members, members.len(), false, shape) + "}"@
    } else if text.len() > 0 && text[0] == '[' {
        "["@ + known_parts(members, members.len(), true, shape) + "]"@
    } else {
        text
    }
}

/// What a text is as JSON, where the unknown parts of the shape do not matter.
pub open spec fn json_of(text: Seq<char>, shape: Shape) -> Option<Json> {
    match json_parsed(encode_utf8(text)) {
        Ok(t) => Some(meaning(t)),
        Err(_) => if json_valid(text) {
            match json_parsed(encode_utf8(known_text(text, shape))) {
                Ok(t) => Some(meaning(t)),
                Err(_) => None,
            }
        } else {
            None
        },
    }
}

/// Whether a member is a part of the shape that is read as it stands.
fn plain_part(shape: Shape, written: &str) -> (r: bool)
    ensures
        r == is_plain_part(shape, written@),
{
    match shape {
        Shape::Header => names(written, "schema"),
        Shape::Entry => names(written, "id"),
        Shape::Change => names(written, "id") || names(written, "del"),
        Shape::Record => names(written, "stale_after") || names(written, "expires"),
        Shape::Payload => true,
        Shape::Pointer => names(written, "prefix") || names(written, "key") || names(
            written,
            "set_properties",
        ),
    }
}

/// The shape of a member, if it has parts itself.
fn shape_of_part(shape: Shape, written: &str) -> (r: Option<Shape>)
    ensures
        r == part_shape(shape, written@),
{
    match shape {
        Shape::Entry | Shape::Change => if names(written, "rec") {
            Some(Shape::Record)
        } else {
            None
        },
        Shape::Record => if names(written, "payload") {
            Some(Shape::Payload)
        } else {
            None
        },
        Shape::Payload => if names(written, "chained") {
            Some(Shape::Pointer)
        } else {
            None
        },
        _ => None,
    }
}

/// The shape of an item, if it has parts itself.
fn shape_of_item(shape: Shape, place: usize) -> (r: Option<Shape>)
    ensures
        r == item_shape(shape, place as int),
{
    match shape {
        Shape::Entry | Shape::Change => if place == 1 {
            Some(Shape::Record)
        } else {
            None
        },
        Shape::Record => if place == 0 {
            Some(Shape::Payload)
        } else {
            None
        },
        _ => None,
    }
}

/// A member, or an item of an array, without what is no known part of the shape.
fn keep_part(m: &(String, String), place: usize, listed: bool, shape: Shape) -> (r: String)
    ensures
        r@ == known_part((m.0@, m.1@), place as int, listed, shape),
    decreases rank(shape), 0nat,
{
    if listed {
        return match shape_of_item(shape, place) {
            Some(inner) => keep_known(m.0.as_str(), inner),
            None => m.0.clone(),
        };
    }
    let value = match shape_of_part(shape, m.0.as_str()) {
        Some(inner) => keep_known(m.1.as_str(), inner),
        None => if plain_part(shape, m.0.as_str()) {
            m.1.clone()
        } else {
            "null".to_owned()
        },
    };
    joined(m.0.as_str(), ":", value.as_str())
}

/// A text without what is no known part of the shape.
fn keep_known(text: &str, shape: Shape) -> (r: String)
    ensures
        r@ == known_text(text@, shape),
    decreases rank(shape), 1nat,
{
    let chars = chars_of(text);
    if chars.len() == 0 || (chars[0] != '{' && chars[0] != '[') {
        return text.to_owned();
    }
    let listed = chars[0] == '[';
    let parts = members(text);
    let ghost all = members_of(text@);
    let mut out = String::new();
    let mut i: usize = 0;
    assert(out@ =~= Seq::empty());
    while i < parts.len()
        invariant
            i <= parts@.len(),
            all == text_pairs(parts@),
            out@ == known_parts(all, i as nat, listed, shape),
        decreases parts@.len() - i,
    {
        assert(all[i as int] == (parts@[i as int].0@, parts@[i as int].1@));
        let part = keep_part(&parts[i], i, listed, shape);
        let sep = if i == 0 {
            ""
        } else {
            ","
        };
        out = joined(out.as_str(), sep, part.as_str());
        i += 1;
    }
    if listed {
        joined("[", out.as_str(), "]")
    } else {
        joined("{", out.as_str(), "}")
    }
}

/// Reads a text as JSON, where the unknown parts of the shape do not matter.
pub fn read_known(text: &str, shape: Shape) -> (r: Option<CslValue>)
    ensures
        match r {
            Some(v) => json_of(text@, shape) == Some(v@),
            None => json_of(text@, shape) is None,
        },
{
    if let Ok(v) = read_json(text.as_bytes()) {
        return Some(v);
    }
    if !is_json(text) {
        return None;
    }
    match read_json(keep_known(text, shape).as_str().as_bytes()) {
        Ok(v) => Some(v),
        Err(_) => None,
    }
}

} // verus!
