//! How things are named: paths, characters and members by their names, sources by what was
//! asked for, and what happens by its event.

use crate::cli::{prefix_of, Cli, SourceKind};
use crate::compaction::vanished;
use crate::csl::{first_text, Json};
use crate::driver::texts;
use crate::env::duration_nanos;
use crate::fetch::first_header;
use crate::filecache::{adds, ends_line, log_name, main_path_of, names_log, replay, Merged};
use crate::index::replaced;
use crate::laws::sources::law_the_last_doi_given_counts;
use crate::laws::texts::law_numbers_are_read_back;
use crate::lines::split;
use crate::output::prefix_list;
use crate::reading::{logs_difference, logs_removals};
use crate::record::Change;
use crate::report::{Event, Wait};
use crate::session::{announces, Action};
use crate::setup::{is_built, BuiltIn};
use crate::sorted::before;
use crate::source::atom::{dereferenced, hex_number, hex_of, referred, semicolon};
use crate::store::RecordView;
use crate::text::{decimal, lower};
use crate::urls::{decoded, encoded, encoded_byte, hex_value, path_of, raw_path};
use vstd::prelude::*;
use vstd::string::*;
use vstd::utf8::encode_utf8;

verus! {

/// A bare path names itself; a `file:` URL names what stands behind its host, or behind
/// `file:` where it has none.
pub proof fn law_a_path_stands_behind_the_host(
    s: Seq<char>,
    host: Seq<char>,
    path: Seq<char>,
)
    ensures
        s.len() < 5 || s.take(5) != "file:"@ ==> path_of(s) == s,
        !host.contains('/') ==> raw_path("file://"@ + host + "/"@ + path) == "/"@ + path,
        path.len() < 2 || path[0] != '/' || path[1] != '/' ==> raw_path("file:"@ + path) == path,
{
    reveal_strlit("file:");
    reveal_strlit("file://");
    reveal_strlit("/");
    if !host.contains('/') {
        let url = "file://"@ + host + "/"@ + path;
        assert(url.take(7) =~= "file://"@);
        let rest = url.skip(7);
        assert(rest =~= host + "/"@ + path);
        assert(rest[host.len() as int] == '/');
        assert(rest.contains('/'));
        rest.index_of_first_ensures('/');
        let at = rest.index_of_first('/')->Some_0;
        assert forall|k: int| 0 <= k < host.len() implies rest[k] != '/' by {
            assert(rest[k] == host[k]);
            if host[k] == '/' {
                assert(host.contains('/'));
            }
        }
        assert(at == host.len());
        assert(rest.skip(at) =~= "/"@ + path);
    }
    if path.len() < 2 || path[0] != '/' || path[1] != '/' {
        let url = "file:"@ + path;
        assert(url.skip(5) =~= path);
        if url.len() >= 7 && url.take(7) == "file://"@ {
            assert(url.take(7)[5] == "file://"@[5]);
            assert(url.take(7)[6] == "file://"@[6]);
            assert(url[5] == path[0] && url[6] == path[1]);
        }
    }
}

/// What is encoded for a URL holds only letters, digits, `-._~`, percent signs, and slashes
/// where they are kept; and what is no more than that, without a percent sign, stays as it is.
pub proof fn law_only_harmless_bytes_stand_in_a_url(bytes: Seq<u8>, slash: bool)
    ensures
        forall|i: int|
            0 <= i < encoded(bytes, slash).len() ==> is_harmless(
                #[trigger] encoded(bytes, slash)[i],
                slash,
            ) || encoded(bytes, slash)[i] == 0x25,
        (forall|i: int| 0 <= i < bytes.len() ==> is_harmless(#[trigger] bytes[i], slash))
            ==> encoded(bytes, slash) == bytes,
    decreases bytes.len(),
{
    if bytes.len() > 0 {
        let front = bytes.drop_last();
        law_only_harmless_bytes_stand_in_a_url(front, slash);
        let f = encoded(front, slash);
        let e = encoded(bytes, slash);
        assert forall|i: int| 0 <= i < e.len() implies is_harmless(#[trigger] e[i], slash) || e[i]
            == 0x25 by {
            if i < f.len() {
                assert(e[i] == f[i]);
            }
        }
        if forall|i: int| 0 <= i < bytes.len() ==> is_harmless(#[trigger] bytes[i], slash) {
            assert forall|i: int| 0 <= i < front.len() implies is_harmless(
                #[trigger] front[i],
                slash,
            ) by {
                assert(front[i] == bytes[i]);
            }
            assert(is_harmless(bytes[bytes.len() - 1], slash));
            assert(e =~= bytes);
        }
    }
}

/// Bytes are encoded one after another, and one that does not stand for itself becomes a
/// percent sign and two digits, capitals among them, that give it.
pub proof fn law_escapes_give_their_bytes(b: u8, a: Seq<u8>, slash: bool)
    ensures
        encoded(a.push(b), slash) == encoded(a, slash) + encoded(seq![b], slash),
        !is_harmless(b, slash) ==> {
            let e = encoded(seq![b], slash);
            &&& e.len() == 3
            &&& e[0] == 0x25
            &&& hex_value(e[0int + 1]) is Some && hex_value(e[0int + 2]) is Some
            &&& 16 * hex_value(e[0int + 1])->Some_0 + hex_value(e[0int + 2])->Some_0 == b
            &&& e[0int + 1] <= 0x46 && e[0int + 2] <= 0x46
        },
{
    assert(a.push(b).drop_last() =~= a);
    assert(seq![b].drop_last() =~= Seq::empty());
    assert(encoded(seq![b].drop_last(), slash) =~= Seq::empty());
    assert(encoded(seq![b], slash) =~= encoded_byte(b, slash));
}

/// An escape in a URL is replaced by the byte that its two digits give, and any other byte,
/// a percent sign without two digits behind it too, stays.
pub proof fn law_escapes_are_replaced(b: u8, h: u8, l: u8, rest: Seq<u8>)
    ensures
        hex_value(h) is Some && hex_value(l) is Some ==> decoded(seq![0x25u8, h, l] + rest) == seq![
            (16 * hex_value(h)->Some_0 + hex_value(l)->Some_0) as u8,
        ] + decoded(rest),
        hex_value(h) is None || hex_value(l) is None ==> decoded(seq![0x25u8, h, l] + rest) == seq![
            0x25u8,
        ] + decoded(seq![h, l] + rest),
        b != 0x25 || rest.len() < 2 ==> decoded(seq![b] + rest) == seq![b] + decoded(rest),
{
    let s = seq![0x25u8, h, l] + rest;
    assert(s.skip(3) =~= rest);
    assert(s.skip(1) =~= seq![h, l] + rest);
    assert((seq![b] + rest).skip(1) =~= rest);
}

/// Texts are ordered by their first difference: the one with the lesser character stands
/// first, and one that ends there before one that goes on.
pub proof fn law_the_first_difference_decides(p: Seq<char>, a: Seq<char>, b: Seq<char>)
    ensures
        before(p + a, p + b) == before(a, b),
        a.len() > 0 && b.len() > 0 && a[0] < b[0] ==> before(a, b) && !before(b, a),
        a.len() == 0 && b.len() > 0 ==> before(a, b) && !before(b, a),
    decreases p.len(),
{
    if p.len() == 0 {
        assert(p + a =~= a);
        assert(p + b =~= b);
    } else {
        law_the_first_difference_decides(p.skip(1), a, b);
        assert((p + a).skip(1) =~= p.skip(1) + a);
        assert((p + b).skip(1) =~= p.skip(1) + b);
    }
}

/// Whether a byte is a letter, a digit, one of `-._~`, or a slash where those are kept.
pub open spec fn is_harmless(b: u8, slash: bool) -> bool {
    let c = b as char;
    ||| 'a' <= c <= 'z'
    ||| 'A' <= c <= 'Z'
    ||| '0' <= c <= '9'
    ||| c == '-' || c == '.' || c == '_' || c == '~'
    ||| (slash && c == '/')
}

/// A reference in a text is replaced by the character that it names, wherever it stands
/// first, and what names none stays as it is written.
pub proof fn law_references_are_replaced(name: Seq<char>, rest: Seq<char>)
    requires
        !name.contains(';'),
    ensures
        referred(name) matches Some(c) ==> dereferenced(seq!['&'] + name + seq![';'] + rest) == seq![
            c,
        ] + dereferenced(rest),
        referred(name) is None ==> dereferenced(seq!['&'] + name + seq![';'] + rest) == seq!['&']
            + dereferenced(name + seq![';'] + rest),
        forall|c: char| c != '&' ==> #[trigger] dereferenced(seq![c] + rest) == seq![c]
            + dereferenced(rest),
{
    let s = seq!['&'] + name + seq![';'] + rest;
    assert forall|k: int| 1 <= k < name.len() + 1 implies #[trigger] s[k] != ';' by {
        assert(s[k] == name[k - 1]);
        if name[k - 1] == ';' {
            assert(name.contains(';'));
        }
    }
    lemma_semicolon_at(s, 1, name.len() as int + 1);
    assert(s.subrange(1, name.len() as int + 1) =~= name);
    assert(s.skip(name.len() as int + 2) =~= rest);
    assert(s.skip(1) =~= name + seq![';'] + rest);
    assert forall|c: char| c != '&' implies #[trigger] dereferenced(seq![c] + rest) == seq![c]
        + dereferenced(rest) by {
        assert((seq![c] + rest).skip(1) =~= rest);
    }
}

proof fn lemma_semicolon_at(s: Seq<char>, i: int, at: int)
    requires
        0 <= i <= at < s.len(),
        forall|k: int| i <= k < at ==> #[trigger] s[k] != ';',
        s[at] == ';',
    ensures
        semicolon(s, i) == at,
    decreases at - i,
{
    if i < at {
        lemma_semicolon_at(s, i + 1, at);
    }
}

/// The five names that every text may use stand for their characters, a decimal number for
/// the character with that code, and a hexadecimal one likewise.
pub proof fn law_references_name_characters(c: char, s: Seq<char>)
    ensures
        referred("amp"@) == Some('&'),
        referred("lt"@) == Some('<'),
        referred("gt"@) == Some('>'),
        referred("quot"@) == Some('"'),
        referred("apos"@) == Some('\''),
        referred(seq!['#'] + decimal(c as nat)) == Some(c),
        hex_number(s) == Some(c as nat) && s.len() > 0 ==> referred(seq!['#', 'x'] + s) == Some(c),
        referred(s) is Some ==> s == "amp"@ || s == "lt"@ || s == "gt"@ || s == "quot"@ || s
            == "apos"@ || s[0] == '#',
{
    reveal_strlit("amp");
    reveal_strlit("lt");
    reveal_strlit("gt");
    reveal_strlit("quot");
    reveal_strlit("apos");
    assert("amp"@[0] == 'a' && "lt"@[0] == 'l' && "gt"@[0] == 'g' && "quot"@[0] == 'q'
        && "apos"@[0] == 'a');
    assert("amp"@.len() == 3 && "apos"@.len() == 4);
    let n = c as nat;
    let d = decimal(n);
    law_numbers_are_read_back(n, s, 0);
    let t = seq!['#'] + d;
    assert(t.skip(1) =~= d);
    assert(t[0] == '#');
    crate::text::lemma_decimal(n);
    assert(d.len() > 0);
    assert(t[1] == d[0]);
    let h = seq!['#', 'x'] + s;
    assert(h.skip(2) =~= s);
    assert(h[0] == '#' && h[1] == 'x');
}

/// Hexadecimal digits count sixteen times as much one place further to the left, in small
/// letters and in capitals.
pub proof fn law_hexadecimal_digits_have_their_places(s: Seq<char>, c: char)
    ensures
        hex_number(Seq::empty()) == Some(0nat),
        '0' <= c <= '9' ==> hex_of(c) == Some(c as int - '0' as int),
        'a' <= c <= 'f' ==> hex_of(c) == Some(10 + (c as int - 'a' as int)),
        'A' <= c <= 'F' ==> hex_of(c) == Some(10 + (c as int - 'A' as int)),
        hex_of(c) is Some ==> '0' <= c <= '9' || 'a' <= c <= 'f' || 'A' <= c <= 'F',
        hex_number(s) is Some && hex_of(c) is Some ==> hex_number(s.push(c)) == Some(
            (16 * hex_number(s)->Some_0 + hex_of(c)->Some_0) as nat,
        ),
        hex_number(s) is None || hex_of(c) is None ==> hex_number(s.push(c)) is None,
{
    assert(s.push(c).drop_last() =~= s);
}

/// Of headers with a name, in whatever case, the first one counts.
pub proof fn law_the_first_header_counts(
    pairs: Seq<(Seq<char>, String)>,
    name: Seq<char>,
    i: int,
)
    ensures
        0 <= i < pairs.len() && lower(pairs[i].0) == lower(name) && (forall|j: int|
            0 <= j < i ==> lower((#[trigger] pairs[j]).0) != lower(name)) ==> first_header(
            pairs,
            name,
        ) == Some(pairs[i].1@),
        (forall|j: int| 0 <= j < pairs.len() ==> lower((#[trigger] pairs[j]).0) != lower(name))
            ==> first_header(pairs, name) is None,
    decreases pairs.len(),
{
    if pairs.len() > 0 {
        let rest = pairs.skip(1);
        law_the_first_header_counts(rest, name, i - 1);
        if 0 < i < pairs.len() {
            assert(rest[i - 1] == pairs[i]);
            if forall|j: int| 0 <= j < i ==> lower((#[trigger] pairs[j]).0) != lower(name) {
                assert(lower(pairs[0].0) != lower(name));
                assert forall|j: int| 0 <= j < i - 1 implies lower((#[trigger] rest[j]).0) != lower(
                    name,
                ) by {
                    assert(rest[j] == pairs[j + 1]);
                }
            }
        }
        if forall|j: int| 0 <= j < pairs.len() ==> lower((#[trigger] pairs[j]).0) != lower(name) {
            assert(lower(pairs[0].0) != lower(name));
            assert forall|j: int| 0 <= j < rest.len() implies lower((#[trigger] rest[j]).0) != lower(
                name,
            ) by {
                assert(rest[j] == pairs[j + 1]);
            }
        }
    }
}

/// Whether a member is a text.
pub open spec fn is_text(members: Map<Seq<char>, Json>, name: Seq<char>) -> bool {
    members.contains_key(name) && members[name] is Text
}

/// Of several names the first one counts whose member is a text.
pub proof fn law_the_first_text_counts(members: Map<Seq<char>, Json>, names: Seq<&str>, i: int)
    ensures
        0 <= i < names.len() && is_text(members, names[i]@) && (forall|j: int|
            0 <= j < i ==> !is_text(members, (#[trigger] names[j])@)) ==> first_text(
            members,
            names,
        ) == Some(members[names[i]@]->Text_0),
        (forall|j: int| 0 <= j < names.len() ==> !is_text(members, (#[trigger] names[j])@))
            ==> first_text(members, names) is None,
    decreases names.len(),
{
    if names.len() > 0 {
        let rest = names.skip(1);
        law_the_first_text_counts(members, rest, i - 1);
        if 0 < i < names.len() {
            assert(rest[i - 1] == names[i]);
            if forall|j: int| 0 <= j < i ==> !is_text(members, (#[trigger] names[j])@) {
                assert(!is_text(members, names[0]@));
                assert forall|j: int| 0 <= j < i - 1 implies !is_text(
                    members,
                    (#[trigger] rest[j])@,
                ) by {
                    assert(rest[j] == names[j + 1]);
                }
            }
        }
        if forall|j: int| 0 <= j < names.len() ==> !is_text(members, (#[trigger] names[j])@) {
            assert(!is_text(members, names[0]@));
            assert forall|j: int| 0 <= j < rest.len() implies !is_text(
                members,
                (#[trigger] rest[j])@,
            ) by {
                assert(rest[j] == names[j + 1]);
            }
        }
    }
}

/// A source is built as the command line has it: papers are chained to the DOI source unless
/// that is turned off, with the last DOI that is given for each; a bibliography has the files,
/// in order, and is read anew after a minute; and manual citations have the format that is
/// asked for.
pub proof fn law_a_source_is_built_as_asked(
    kind: SourceKind,
    cli: Cli,
    overrides: Seq<(String, Option<String>)>,
    source: BuiltIn,
    i: int,
)
    requires
        is_built(kind, cli, overrides, source),
    ensures
        match kind {
            SourceKind::Arxiv => {
                &&& source matches BuiltIn::Arxiv(s)
                &&& cli.no_arxiv_chaining ==> s.target() is None
                &&& !cli.no_arxiv_chaining ==> s.target() == Some(prefix_of(SourceKind::Doi))
                &&& s.file() is None
                &&& 0 <= i < overrides.len() && (forall|j: int|
                    i < j < overrides.len() ==> (#[trigger] overrides[j]).0@ != overrides[i].0@)
                    ==> s.inline().contains_key(overrides[i].0@) && (match overrides[i].1 {
                    Some(doi) => s.inline()[overrides[i].0@] == Some(doi@),
                    None => s.inline()[overrides[i].0@] is None,
                })
                &&& forall|id: Seq<char>|
                    (forall|j: int| 0 <= j < overrides.len() ==> (#[trigger] overrides[j]).0@ != id)
                        ==> !#[trigger] s.inline().contains_key(id)
            },
            SourceKind::Doi => source is Doi,
            SourceKind::Bib => {
                &&& source matches BuiltIn::Bib(s)
                &&& s.locations().len() == cli.bib@.len()
                &&& 0 <= i < cli.bib@.len() ==> s.locations()[i] == cli.bib@[i]@
                &&& s.given().dom() =~= Set::<Seq<char>>::empty()
                &&& s.parser().format == cli.bib_format
                &&& duration_nanos(s.lifetime()) == 60_000_000_000
            },
            SourceKind::Manual => {
                &&& source matches BuiltIn::Manual(s)
                &&& cli.manual_format matches Some(f) ==> s.format() == f@
                &&& cli.manual_format is None ==> s.format() == "flm"@
            },
        },
{
    if kind is Arxiv {
        if 0 <= i < overrides.len() {
            law_the_last_doi_given_counts(
                Map::empty(),
                overrides,
                i,
                overrides[i].0@,
            );
        }
        assert forall|id: Seq<char>|
            (forall|j: int| 0 <= j < overrides.len() ==> (#[trigger] overrides[j]).0@ != id) implies
            !#[trigger] source->Arxiv_0.inline().contains_key(id) by {
            law_the_last_doi_given_counts(Map::empty(), overrides, i, id);
        }
    }
}

/// Every action but asking and settling is announced, with the numbers and names that it
/// comes with.
pub proof fn law_actions_are_announced(ev: Option<Event<'_>>, action: Action)
    requires
        announces(ev, action),
    ensures
        ev is None <==> action is Ask || action is Settled,
        action matches Action::Planned { pass, cached, to_fetch } ==> (ev matches Some(
            Event::PassStarted { pass: p, cached: c, to_fetch: f },
        ) && p == pass && c == cached && f == to_fetch),
        action matches Action::Began { prefix, total, chunks } ==> (ev matches Some(
            Event::SourceStarted { prefix: p, keys: k, chunks: c },
        ) && p@ == prefix@ && k == total && c == chunks),
        action matches Action::Wait { prefix, length } ==> (ev matches Some(
            Event::WaitStarted { what: Wait::RateLimit { prefix: p }, expected: Some(d) },
        ) && p@ == prefix@ && d == length),
        action matches Action::Ended { prefix, done } ==> (ev matches Some(
            Event::SourceFinished { prefix: p, done: d },
        ) && p@ == prefix@ && d == done),
        action matches Action::Closed { pass, discovered } ==> (ev matches Some(
            Event::PassFinished { pass: p, discovered: d },
        ) && p == pass && d == discovered),
        action matches Action::Finished { considered, failed } ==> (ev matches Some(
            Event::RetrieveFinished { considered: c, failed: f },
        ) && c == considered && f == failed),
{
}

/// What is pruned from the files is logged: of each id that is dropped and that the files
/// hold there is one line, and where the lines are put behind a log, its replay is without
/// the id; of no other id is there a line.
pub proof fn law_what_is_dropped_is_logged(
    lines: Seq<String>,
    before: Map<Seq<char>, RecordView>,
    filed: Set<Seq<char>>,
    after: Map<Seq<char>, RecordView>,
    log: Seq<u8>,
    start: Map<Seq<char>, RecordView>,
)
    requires
        logs_difference(lines, before, filed, after),
        ends_line(log),
    ensures
        forall|id: Seq<char>|
            filed.contains(id) && before.contains_key(id) && !(#[trigger] after.contains_key(id))
                ==> exists|i: int|
                0 <= i < lines.len() && !replay(
                    split(log + encode_utf8((#[trigger] lines[i])@), 10u8),
                    start,
                ).contains_key(id),
        forall|i: int, id: Seq<char>|
            0 <= i < lines.len() && !(filed.contains(id) && before.contains_key(id)
                && !after.contains_key(id)) ==> (#[trigger] replay(
                split(log + encode_utf8(#[trigger] lines[i]@), 10u8),
                start,
            ).contains_key(id)) == replay(split(log, 10u8), start).contains_key(id),
{
    let ids = choose|ids: Seq<Seq<char>>|
        {
            &&& #[trigger] logs_removals(lines, ids)
            &&& ids.no_duplicates()
            &&& forall|id: Seq<char>| #[trigger]
                ids.contains(id) == (before.contains_key(id) && !after.contains_key(id)
                    && filed.contains(id))
        };
    assert forall|id: Seq<char>|
        filed.contains(id) && before.contains_key(id) && !(#[trigger] after.contains_key(
            id,
        )) implies exists|i: int|
        0 <= i < lines.len() && !replay(
            split(log + encode_utf8((#[trigger] lines[i])@), 10u8),
            start,
        ).contains_key(id) by {
        assert(ids.contains(id));
        let i = choose|i: int| 0 <= i < ids.len() && ids[i] == id;
        assert(adds(lines[i]@, Change::Remove(id)));
        assert(!replay(split(log + encode_utf8(lines[i]@), 10u8), start).contains_key(id));
    }
    assert forall|i: int, id: Seq<char>|
        0 <= i < lines.len() && !(filed.contains(id) && before.contains_key(id)
            && !after.contains_key(id)) implies (#[trigger] replay(
        split(log + encode_utf8(#[trigger] lines[i]@), 10u8),
        start,
    ).contains_key(id)) == replay(split(log, 10u8), start).contains_key(id) by {
        assert(ids.contains(ids[i]));
        assert(!ids.contains(id));
        assert(adds(lines[i]@, Change::Remove(ids[i])));
    }
}

/// A compaction is refused only where entries would be lost and nothing says why.
pub proof fn law_a_compaction_is_refused_to_save_entries(m: Merged)
    ensures
        m.map.pairs().len() > 0 ==> !vanished(m),
        m.saw_tombstone ==> !vanished(m),
        m.main_entries == 0 ==> !vanished(m),
        m.map.pairs().len() == 0 && !m.saw_tombstone && m.main_entries > 0 ==> vanished(m),
{
}

/// Prefixes are listed one behind another, with commas in between.
pub proof fn law_prefixes_are_listed(sources: Seq<SourceKind>, kind: SourceKind)
    ensures
        prefix_list(Seq::empty()) == ""@,
        prefix_list(seq![kind]) == prefix_of(kind),
        sources.len() > 0 ==> prefix_list(sources.push(kind)) == prefix_list(sources) + ", "@
            + prefix_of(kind),
{
    reveal_strlit("");
    assert(sources.push(kind).drop_last() =~= sources);
    assert(prefix_list(Seq::empty()) =~= ""@);
}

/// A value that is replaced stays in its place, and the others stay as they are.
pub proof fn law_a_value_is_replaced_in_place<T>(
    pairs: Seq<(Seq<char>, T)>,
    k: Seq<char>,
    value: T,
)
    ensures
        replaced(pairs, k, value).len() == pairs.len(),
        forall|i: int|
            0 <= i < pairs.len() ==> {
                let (name, now) = #[trigger] replaced(pairs, k, value)[i];
                &&& name == pairs[i].0
                &&& now == (if name == k {
                    value
                } else {
                    pairs[i].1
                })
            },
{
}

/// The files of a cache are named after it.
pub proof fn law_files_are_named_after_their_cache(
    dir: Seq<char>,
    base: Seq<char>,
    writer: Seq<char>,
)
    ensures
        main_path_of(dir, base) == dir + "/"@ + base + ".jsonl"@,
        log_name(base, writer) == base + "."@ + writer + ".log"@,
{
}

/// A file is a log of a cache if its name is that of the cache, a writer, which has a name, and
/// the ending of a log.
pub proof fn law_logs_are_known_by_their_names(name: Seq<char>, base: Seq<char>)
    ensures
        names_log(name, base) <==> {
            let n = name.len();
            let b = base.len();
            &&& n > b + 5
            &&& name.take(b as int) == base
            &&& name[b as int] == '.'
            &&& name.skip(n - 4) == ".log"@
        },
{
    reveal_strlit(".");
    reveal_strlit(".log");
    let n = name.len();
    let b = base.len();
    if names_log(name, base) {
        let w = choose|w: Seq<char>| w.len() > 0 && name == #[trigger] log_name(base, w);
        assert(name.take(b as int) =~= base);
        assert(name.skip(n - 4) =~= ".log"@);
    }
    if n > b + 5 && name.take(b as int) == base && name[b as int] == '.' && name.skip(n - 4)
        == ".log"@ {
        let w = name.subrange(b as int + 1, n - 4);
        assert(log_name(base, w) =~= name) by {
            let t = log_name(base, w);
            assert forall|i: int| 0 <= i < n implies t[i] == name[i] by {
                if i < b {
                    assert(name.take(b as int)[i] == base[i]);
                } else if i >= n - 4 {
                    assert(name.skip(n - 4)[i - (n - 4)] == ".log"@[i - (n - 4)]);
                }
            }
        }
        assert(w.len() > 0);
    }
}

} // verus!
