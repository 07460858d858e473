//! JSON and YAML for bibliographies and for the file of overriding DOIs.

use crate::csl::{group_csl, json_map, CslValue, Json};
use crate::error::joined;
use crate::json::{json_parsed, parsed_meaning, read_json, read_view, read_yaml, yaml_parsed};
use crate::sorted::{before, lemma_map_of_at, lemma_map_of_dom, map_of, ordered};
use crate::source::arxiv::{as_override, as_overrides, first_fault, is_override};
use crate::source::atom::opt_view;
use crate::source::bibfile::BibParser;
use vstd::prelude::*;
use vstd::string::*;

verus! {

/// How to parse a file.
#[derive(Clone, Copy, PartialEq, Eq, Debug, Structural)]
pub enum Format {
    /// JSON, or else YAML. Not everything that is JSON is YAML.
    Auto,
    Json,
    Yaml,
}

/// What bytes are as JSON.
pub open spec fn as_json(bytes: Seq<u8>) -> Result<Json, Seq<char>> {
    match parsed_meaning(json_parsed(bytes)) {
        Ok(j) => Ok(j),
        Err(e) => Err("invalid JSON: "@ + e),
    }
}

/// What bytes are as YAML.
pub open spec fn as_yaml(bytes: Seq<u8>) -> Result<Json, Seq<char>> {
    match parsed_meaning(yaml_parsed(bytes)) {
        Ok(j) => Ok(j),
        Err(e) => Err("invalid YAML: "@ + e),
    }
}

/// What bytes are in a format. Where either format will do and neither does, both
/// complaints are given.
pub open spec fn in_format(format: Format, bytes: Seq<u8>) -> Result<Json, Seq<char>> {
    match format {
        Format::Json => as_json(bytes),
        Format::Yaml => as_yaml(bytes),
        Format::Auto => match as_json(bytes) {
            Ok(j) => Ok(j),
            Err(a) => match as_yaml(bytes) {
                Ok(j) => Ok(j),
                Err(b) => Err("not parseable as JSON or YAML — "@ + a + "; "@ + b),
            },
        },
    }
}

/// Parses JSON.
pub fn parse_json(bytes: &[u8]) -> (r: Result<CslValue, String>)
    ensures
        read_view(r) == in_format(Format::Json, bytes@),
{
    match read_json(bytes) {
        Ok(v) => Ok(v),
        Err(e) => Err("invalid JSON: ".to_owned().concat(e.as_str())),
    }
}

/// Parses YAML.
pub fn parse_yaml(bytes: &[u8]) -> (r: Result<CslValue, String>)
    ensures
        read_view(r) == in_format(Format::Yaml, bytes@),
{
    match read_yaml(bytes) {
        Ok(v) => Ok(v),
        Err(e) => Err("invalid YAML: ".to_owned().concat(e.as_str())),
    }
}

/// Parses JSON, or else YAML.
pub fn parse_auto(bytes: &[u8]) -> (r: Result<CslValue, String>)
    ensures
        read_view(r) == in_format(Format::Auto, bytes@),
{
    match parse_json(bytes) {
        Ok(v) => Ok(v),
        Err(a) => match parse_yaml(bytes) {
            Ok(v) => Ok(v),
            Err(b) => Err(
                joined("not parseable as JSON or YAML — ", a.as_str(), "; ").concat(b.as_str()),
            ),
        },
    }
}

/// Parses files in a format.
pub struct FormatParser {
    pub format: Format,
}

/// The parser for a format.
pub fn parser_for(format: Format) -> (r: FormatParser)
    ensures
        r.format == format,
{
    FormatParser { format }
}

impl BibParser for FormatParser {
    open spec fn parsed(&self, bytes: Seq<u8>) -> Result<Json, Seq<char>> {
        in_format(self.format, bytes)
    }

    fn parse(&self, bytes: &[u8]) -> (r: Result<CslValue, String>) {
        match self.format {
            Format::Auto => parse_auto(bytes),
            Format::Json => parse_json(bytes),
            Format::Yaml => parse_yaml(bytes),
        }
    }
}

/// What kind of value a value is, for people.
pub open spec fn kind_of(j: Json) -> Seq<char> {
    match j {
        Json::Null => "null"@,
        Json::Bool(_) => "a boolean"@,
        Json::Number(_) => "a number"@,
        Json::Text(_) => "a string"@,
        Json::Array(_) => "an array"@,
        Json::Object(_) => "an object"@,
    }
}

/// What kind of value a value is, for people.
fn kind_name(v: &CslValue) -> (r: &'static str)
    ensures
        r@ == kind_of(v@),
{
    broadcast use group_csl;

    proof {
        crate::csl::lemma_view(*v);
    }
    match v {
        CslValue::Null => "null",
        CslValue::Bool(_) => "a boolean",
        CslValue::Number(_) => "a number",
        CslValue::String(_) => "a string",
        CslValue::Array(_) => "an array",
        CslValue::Object(_) => "an object",
    }
}

/// DOIs by arXiv ids, in order.
pub open spec fn override_pairs(s: Seq<(String, Option<String>)>) -> Seq<
    (Seq<char>, Option<Seq<char>>),
> {
    s.map_values(|p: (String, Option<String>)| (p.0@, opt_view(p.1)))
}

/// The complaint about an override that is neither a text nor null.
pub open spec fn override_fault(name: Seq<char>, id: Seq<char>, value: Json) -> Seq<char> {
    name + ": override for `"@ + id + "` must be a DOI string or null, not "@ + kind_of(value)
}

/// Whether a text complains about the first override, in order, that is neither a text
/// nor null.
pub open spec fn complains(m: Map<Seq<char>, Json>, name: Seq<char>, text: Seq<char>) -> bool {
    exists|id: Seq<char>| #[trigger]
        first_fault(m, id) && text == override_fault(name, id, m[id])
}

/// Whether these are the overriding DOIs that the bytes of the named file hold, or the
/// complaint about it.
pub open spec fn overrides_read(
    name: Seq<char>,
    bytes: Seq<u8>,
    r: Result<Vec<(String, Option<String>)>, String>,
) -> bool {
    match in_format(Format::Auto, bytes) {
        Err(e) => r matches Err(m) && m@ == name + ": "@ + e,
        Ok(j) => match j {
            Json::Object(m) => match r {
                Ok(v) => {
                    &&& ordered(override_pairs(v@))
                    &&& map_of(override_pairs(v@)) == as_overrides(m)
                    &&& forall|k: Seq<char>| #[trigger] m.contains_key(k) ==> is_override(m[k])
                },
                Err(text) => complains(m, name, text@),
            },
            _ => r matches Err(m) && m@ == name
                + ": expected a mapping of arXiv id to DOI (or to null)"@,
        },
    }
}

/// Reads the overriding DOIs of arXiv ids from the bytes of a file: an object whose
/// values are DOIs, or null to suppress the DOI. The name is that of the file.
pub fn load_doi_overrides(name: &str, bytes: &[u8]) -> (r: Result<
    Vec<(String, Option<String>)>,
    String,
>)
    ensures
        overrides_read(name@, bytes@, r),
{
    broadcast use group_csl;

    let value = match parse_auto(bytes) {
        Ok(v) => v,
        Err(e) => {
            return Err(joined(name, ": ", e.as_str()));
        },
    };
    let m = match value.as_object() {
        Some(m) => m,
        None => {
            return Err(
                name.to_owned().concat(": expected a mapping of arXiv id to DOI (or to null)"),
            );
        },
    };
    let ghost members = json_map(m@);
    let ghost p = m.pairs();
    let n: usize = m.len();
    let mut out: Vec<(String, Option<String>)> = Vec::new();
    let mut i: usize = 0;
    assert(p.take(0) =~= Seq::empty());
    assert(override_pairs(out@) =~= Seq::empty());
    assert(map_of(override_pairs(out@)) =~= as_overrides(json_map(map_of(p.take(0)))));
    while i < n
        invariant
            i <= n == p.len(),
            p == m.pairs(),
            ordered(p),
            members == json_map(m@),
            m@ == map_of(p),
            in_format(Format::Auto, bytes@) == Ok::<Json, Seq<char>>(Json::Object(members)),
            out@.len() == i,
            forall|k: int| 0 <= k < i ==> (#[trigger] out@[k]).0@ == p[k].0,
            forall|k: int| 0 <= k < i ==> is_override((#[trigger] p[k]).1@),
            map_of(override_pairs(out@)) == as_overrides(json_map(map_of(p.take(i as int)))),
        decreases n - i,
    {
        let k = m.key_at(i);
        let v = m.value_at(i);
        proof {
            crate::csl::lemma_view(*v);
        }
        let doi = match v {
            CslValue::String(s) => Some(s.clone()),
            CslValue::Null => None,
            _ => {
                proof {
                    let id = p[i as int].0;
                    lemma_map_of_at(p, i as int);
                    assert(members[id] == v@);
                    assert(!is_override(v@));
                    assert forall|x: Seq<char>| #[trigger]
                        members.contains_key(x) && !is_override(members[x]) && x
                            != id implies before(id, x) by {
                        lemma_map_of_dom(p, x);
                        let a = choose|a: int| 0 <= a < p.len() && (#[trigger] p[a]).0 == x;
                        lemma_map_of_at(p, a);
                        assert(members[x] == p[a].1@);
                        if a < i {
                            assert(is_override(p[a].1@));
                        }
                        assert(before(p[i as int].0, p[a].0));
                    }
                    assert(first_fault(members, id));
                }
                let text = joined(name, ": override for `", k.as_str()).concat(
                    "` must be a DOI string or null, not ",
                ).concat(kind_name(v));
                assert(text@ == override_fault(name@, k@, members[k@]));
                assert(complains(members, name@, text@));
                return Err(text);
            },
        };
        let ghost was = out@;
        out.push((k.clone(), doi));
        proof {
            let a = map_of(p.take(i as int));
            assert(p.take(i + 1).drop_last() =~= p.take(i as int));
            assert(p.take(i + 1).last() == p[i as int]);
            crate::csl::lemma_json_map_insert(a, p[i as int].0, p[i as int].1);
            assert(override_pairs(out@).drop_last() =~= override_pairs(was));
            assert(override_pairs(out@).last() == (k@, opt_view(doi)));
            assert(opt_view(doi) == as_override(v@));
            assert(as_overrides(json_map(map_of(p.take(i + 1)))) =~= as_overrides(
                json_map(a),
            ).insert(k@, as_override(v@)));
        }
        i += 1;
    }
    proof {
        assert(p.take(i as int) =~= p);
        assert forall|x: Seq<char>| #[trigger] members.contains_key(x) implies is_override(
            members[x],
        ) by {
            lemma_map_of_dom(p, x);
            let a = choose|a: int| 0 <= a < p.len() && (#[trigger] p[a]).0 == x;
            lemma_map_of_at(p, a);
        }
        let q = override_pairs(out@);
        assert forall|a: int, b: int| 0 <= a < b < q.len() implies before(
            (#[trigger] q[a]).0,
            (#[trigger] q[b]).0,
        ) by {
            assert(before(p[a].0, p[b].0));
        }
    }
    Ok(out)
}

} // verus!
