//! From the command line and lists of citations to the citations to resolve.

use crate::cli::Cli;
use crate::csl::{cite_id, id_of};
use crate::driver::texts;
use crate::error::joined;
use crate::index::TextMap;
use crate::lines::split;
use crate::reading::{law_ids_split_again, split_at_colon, split_id};
use crate::text::{chars_of, decimal, decimal_text, pieces, same, trim, trimmed};
use vstd::prelude::*;
use vstd::string::*;

verus! {

/// A citation or a complaint, by its meaning.
pub open spec fn cite_view(r: Result<(String, String), String>) -> Result<
    (Seq<char>, Seq<char>),
    Seq<char>,
> {
    match r {
        Ok((p, k)) => Ok((p@, k@)),
        Err(e) => Err(e@),
    }
}

/// Citations by their views.
pub open spec fn cite_views(s: Seq<(String, String)>) -> Seq<(Seq<char>, Seq<char>)> {
    s.map_values(|c: (String, String)| (c.0@, c.1@))
}

/// The citation that a text like `prefix:key` names: it is split at its first colon,
/// and only the prefix is trimmed, since a key may be text in which everything counts.
pub open spec fn cite_of(spec: Seq<char>) -> Result<(Seq<char>, Seq<char>), Seq<char>> {
    match split_id(spec) {
        None => Err("`"@ + spec + "`: expected `prefix:key`"@),
        Some((prefix, key)) => if trim(prefix).len() == 0 {
            Err("`"@ + spec + "`: empty citation prefix"@)
        } else if key.len() == 0 {
            Err("`"@ + spec + "`: empty citation key"@)
        } else {
            Ok((trim(prefix), key))
        },
    }
}

/// Reads a citation.
pub fn parse_cite(spec: &str) -> (r: Result<(String, String), String>)
    ensures
        cite_view(r) == cite_of(spec@),
{
    let (prefix, key) = match split_at_colon(spec) {
        Some(p) => p,
        None => {
            return Err(joined("`", spec, "`: expected `prefix:key`"));
        },
    };
    let prefix = trimmed(prefix.as_str());
    if prefix.as_str().is_empty() {
        return Err(joined("`", spec, "`: empty citation prefix"));
    }
    if key.as_str().is_empty() {
        return Err(joined("`", spec, "`: empty citation key"));
    }
    Ok((prefix, key))
}

/// Whether a line of a list is passed over: it is blank or a comment.
pub open spec fn is_passed_over(line: Seq<char>) -> bool {
    line.len() == 0 || line[0] == '#'
}

/// The citations that the lines of a list name, or the complaint about the first line
/// that names none.
pub open spec fn listed(lines: Seq<Seq<char>>, origin: Seq<char>) -> Result<
    Seq<(Seq<char>, Seq<char>)>,
    Seq<char>,
>
    decreases lines.len(),
{
    if lines.len() == 0 {
        Ok(Seq::empty())
    } else {
        match listed(lines.drop_last(), origin) {
            Err(e) => Err(e),
            Ok(front) => {
                let line = trim(lines.last());
                if is_passed_over(line) {
                    Ok(front)
                } else {
                    match cite_of(line) {
                        Ok(c) => Ok(front.push(c)),
                        Err(e) => Err(origin + ":"@ + decimal(lines.len()) + ": "@ + e),
                    }
                }
            },
        }
    }
}

/// The citations that a list names, or the complaint about it.
pub open spec fn list_cites(text: Seq<char>, origin: Seq<char>) -> Result<
    Seq<(Seq<char>, Seq<char>)>,
    Seq<char>,
> {
    listed(split(text, '\n'), origin)
}

proof fn lemma_listed_fails(lines: Seq<Seq<char>>, origin: Seq<char>, n: int)
    requires
        0 <= n <= lines.len(),
        listed(lines.take(n), origin) is Err,
    ensures
        listed(lines, origin) == listed(lines.take(n), origin),
    decreases lines.len(),
{
    if n < lines.len() {
        assert(lines.drop_last().take(n) =~= lines.take(n));
        lemma_listed_fails(lines.drop_last(), origin, n);
    } else {
        assert(lines.take(n) =~= lines);
    }
}

/// Whether the line behind the first `n` is the first that is complained about.
pub open spec fn fails_behind(lines: Seq<Seq<char>>, origin: Seq<char>, n: int) -> bool {
    &&& 0 <= n < lines.len()
    &&& listed(lines.take(n), origin) is Ok
    &&& listed(lines.take(n + 1), origin) is Err
}

/// Whether the citations before the first line that is complained about are appended.
pub open spec fn appends_front(
    lines: Seq<Seq<char>>,
    origin: Seq<char>,
    before: Seq<(Seq<char>, Seq<char>)>,
    after: Seq<(Seq<char>, Seq<char>)>,
) -> bool {
    exists|n: int| #[trigger]
        fails_behind(lines, origin, n) && after == before + listed(lines.take(n), origin)->Ok_0
}

/// Appends the citations that a list names. Blank lines and lines that begin with `#`
/// are passed over, and white space around a line does not count. A line that names no
/// citation is complained about by its number; the citations before it are appended.
pub fn append_list(out: &mut Vec<(String, String)>, text: &str, origin: &str) -> (r: Result<
    (),
    String,
>)
    ensures
        match r {
            Ok(_) => list_cites(text@, origin@) matches Ok(c) && cite_views(final(out)@)
                == cite_views(old(out)@) + c,
            Err(e) => {
                &&& list_cites(text@, origin@) == Err::<Seq<(Seq<char>, Seq<char>)>, Seq<char>>(e@)
                &&& appends_front(
                    split(text@, '\n'),
                    origin@,
                    cite_views(old(out)@),
                    cite_views(final(out)@),
                )
            },
        },
{
    let v = chars_of(text);
    let lines = pieces(&v, v.len(), '\n');
    let ghost all = lines@.map_values(|t: String| t@);
    assert(v@.take(v@.len() as int) =~= v@);
    let ghost start = cite_views(out@);
    let mut i: usize = 0;
    proof {
        assert(all.take(0) =~= Seq::empty());
        assert(cite_views(out@) =~= start + Seq::<(Seq<char>, Seq<char>)>::empty());
    }
    while i < lines.len()
        invariant
            i <= lines@.len(),
            all == lines@.map_values(|t: String| t@),
            all == split(text@, '\n'),
            start == cite_views(old(out)@),
            listed(all.take(i as int), origin@) matches Ok(c) && cite_views(out@) == start + c,
        decreases lines@.len() - i,
    {
        let ghost front = listed(all.take(i as int), origin@)->Ok_0;
        proof {
            assert(all.take(i + 1).drop_last() =~= all.take(i as int));
            assert(all.take(i + 1).last() == lines@[i as int]@);
        }
        let line = trimmed(lines[i].as_str());
        let chars = chars_of(line.as_str());
        if chars.len() > 0 && chars[0] != '#' {
            match parse_cite(line.as_str()) {
                Ok(c) => {
                    let ghost was = out@;
                    out.push(c);
                    proof {
                        assert(cite_views(out@) =~= cite_views(was).push((c.0@, c.1@)));
                        assert(cite_views(out@) =~= start + front.push((c.0@, c.1@)));
                    }
                },
                Err(e) => {
                    let n = decimal_text(i as u64 + 1);
                    let m = joined(origin, ":", n.as_str()).concat(": ").concat(e.as_str());
                    proof {
                        lemma_listed_fails(all, origin@, i + 1);
                        assert(fails_behind(all, origin@, i as int));
                        assert(appends_front(all, origin@, start, cite_views(out@)));
                    }
                    return Err(m);
                },
            }
        }
        i += 1;
    }
    assert(all.take(i as int) =~= all);
    Ok(())
}

/// A list without what comes again in it.
pub open spec fn distinct_of<T>(s: Seq<T>) -> Seq<T>
    decreases s.len(),
{
    if s.len() == 0 {
        Seq::empty()
    } else {
        let front = distinct_of(s.drop_last());
        if front.contains(s.last()) {
            front
        } else {
            front.push(s.last())
        }
    }
}

/// What comes again is left out, and nothing else is.
pub proof fn law_distinct<T>(s: Seq<T>)
    ensures
        distinct_of(s).no_duplicates(),
        forall|x: T| #[trigger] distinct_of(s).contains(x) == s.contains(x),
    decreases s.len(),
{
    if s.len() > 0 {
        let front = s.drop_last();
        let f = distinct_of(front);
        let d = distinct_of(s);
        law_distinct(front);
        assert forall|x: T| #[trigger] d.contains(x) == s.contains(x) by {
            assert(f.contains(x) == front.contains(x));
            if front.contains(x) {
                let i = choose|i: int| 0 <= i < front.len() && front[i] == x;
                assert(s[i] == x);
            }
            if f.contains(x) {
                let i = choose|i: int| 0 <= i < f.len() && f[i] == x;
                assert(d[i] == x);
            }
            if s.contains(x) && !front.contains(x) {
                let i = choose|i: int| 0 <= i < s.len() && s[i] == x;
                if i < front.len() {
                    assert(front[i] == x);
                }
                assert(x == s.last());
                assert(d.last() == x);
                assert(d[d.len() - 1] == x);
            }
            if d.contains(x) && !f.contains(x) {
                assert(x == s.last());
                assert(s[s.len() - 1] == x);
            }
        }
    } else {
        assert forall|x: T| #[trigger] distinct_of(s).contains(x) == s.contains(x) by {}
    }
}

/// A citation whose prefix has no colon.
pub open spec fn colon_free(c: (Seq<char>, Seq<char>)) -> bool {
    !c.0.contains(':')
}

proof fn lemma_ids_apart(a: (Seq<char>, Seq<char>), b: (Seq<char>, Seq<char>))
    requires
        colon_free(a),
        colon_free(b),
        id_of(a.0, a.1) == id_of(b.0, b.1),
    ensures
        a == b,
{
    law_ids_split_again(a.0, a.1);
    law_ids_split_again(b.0, b.1);
}

/// Leaves out the citations that come again.
fn without_repeats(cites: Vec<(String, String)>) -> (r: Vec<(String, String)>)
    requires
        forall|i: int| 0 <= i < cites@.len() ==> colon_free(#[trigger] cite_views(cites@)[i]),
    ensures
        cite_views(r@) == distinct_of(cite_views(cites@)),
{
    let ghost all = cite_views(cites@);
    let mut out: Vec<(String, String)> = Vec::new();
    let mut seen: TextMap<bool> = TextMap::new();
    let mut i: usize = 0;
    proof {
        assert(all.take(0) =~= Seq::empty());
        assert(cite_views(out@) =~= Seq::empty());
    }
    while i < cites.len()
        invariant
            i <= cites@.len(),
            all == cite_views(cites@),
            forall|k: int| 0 <= k < all.len() ==> colon_free(#[trigger] all[k]),
            cite_views(out@) == distinct_of(all.take(i as int)),
            forall|k: int| 0 <= k < out@.len() ==> colon_free(#[trigger] cite_views(out@)[k]),
            forall|id: Seq<char>| #[trigger]
                seen@.contains_key(id) ==> exists|k: int|
                    0 <= k < out@.len() && id_of(
                        (#[trigger] cite_views(out@)[k]).0,
                        cite_views(out@)[k].1,
                    ) == id,
            forall|k: int|
                0 <= k < out@.len() ==> seen@.contains_key(
                    id_of((#[trigger] cite_views(out@)[k]).0, cite_views(out@)[k].1),
                ),
        decreases cites@.len() - i,
    {
        let ghost was = cite_views(out@);
        let ghost known = seen@;
        let ghost c = all[i as int];
        proof {
            assert(all.take(i + 1).drop_last() =~= all.take(i as int));
            assert(all.take(i + 1).last() == c);
            assert(colon_free(c));
        }
        let id = cite_id(cites[i].0.as_str(), cites[i].1.as_str());
        proof {
            if known.contains_key(id@) {
                let k = choose|k: int|
                    0 <= k < out@.len() && id_of((#[trigger] was[k]).0, was[k].1) == id@;
                lemma_ids_apart(was[k], c);
                assert(was.contains(c));
            }
            if was.contains(c) {
                let k = choose|k: int| 0 <= k < was.len() && was[k] == c;
                assert(known.contains_key(id_of(was[k].0, was[k].1)));
            }
        }
        if !seen.contains_key(id.as_str()) {
            out.push((cites[i].0.clone(), cites[i].1.clone()));
            seen.insert(id, true);
            proof {
                let now = cite_views(out@);
                assert(now =~= was.push(c));
                assert forall|k: int| 0 <= k < out@.len() implies colon_free(
                    #[trigger] now[k],
                ) by {
                    if k < was.len() {
                        assert(now[k] == was[k]);
                    }
                }
                assert forall|x: Seq<char>| #[trigger] seen@.contains_key(x) implies exists|
                    k: int,
                |
                    0 <= k < out@.len() && id_of((#[trigger] now[k]).0, now[k].1) == x by {
                    if known.contains_key(x) {
                        let k = choose|k: int|
                            0 <= k < was.len() && id_of((#[trigger] was[k]).0, was[k].1) == x;
                        assert(now[k] == was[k]);
                    } else {
                        assert(now[was.len() as int] == c);
                    }
                }
                assert forall|k: int| 0 <= k < out@.len() implies seen@.contains_key(
                    id_of((#[trigger] now[k]).0, now[k].1),
                ) by {
                    if k < was.len() {
                        assert(now[k] == was[k]);
                    }
                }
            }
        }
        i += 1;
    }
    assert(all.take(i as int) =~= all);
    out
}

/// The names of the lists that the citations are read from: the files, or standard
/// input where there is neither a file nor a citation on the command line.
pub open spec fn list_names(cli: Cli) -> Seq<Seq<char>> {
    if cli.input@.len() == 0 && cli.cite@.len() == 0 {
        seq!["<stdin>"@]
    } else {
        texts(cli.input@)
    }
}

/// The citations that lists name, one list after another, or the complaint about the
/// first list that there is one about.
pub open spec fn lists_cites(names: Seq<Seq<char>>, lists: Seq<Seq<char>>) -> Result<
    Seq<(Seq<char>, Seq<char>)>,
    Seq<char>,
>
    decreases names.len(),
{
    if names.len() == 0 {
        Ok(Seq::empty())
    } else {
        match lists_cites(names.drop_last(), lists.drop_last()) {
            Err(e) => Err(e),
            Ok(front) => match list_cites(lists.last(), names.last()) {
                Err(e) => Err(e),
                Ok(c) => Ok(front + c),
            },
        }
    }
}

/// The citations that are given on the command line, or the complaint about the first
/// that there is one about.
pub open spec fn given_cites(specs: Seq<Seq<char>>) -> Result<
    Seq<(Seq<char>, Seq<char>)>,
    Seq<char>,
>
    decreases specs.len(),
{
    if specs.len() == 0 {
        Ok(Seq::empty())
    } else {
        match given_cites(specs.drop_last()) {
            Err(e) => Err(e),
            Ok(front) => match cite_of(specs.last()) {
                Err(e) => Err("--cite "@ + e),
                Ok(c) => Ok(front.push(c)),
            },
        }
    }
}

/// The citations to resolve: those of the lists and then those of the command line,
/// each once, or the first complaint.
pub open spec fn collected(cli: Cli, lists: Seq<Seq<char>>) -> Result<
    Seq<(Seq<char>, Seq<char>)>,
    Seq<char>,
> {
    match lists_cites(list_names(cli), lists) {
        Err(e) => Err(e),
        Ok(a) => match given_cites(texts(cli.cite@)) {
            Err(e) => Err(e),
            Ok(b) => Ok(distinct_of(a + b)),
        },
    }
}

/// Citations or a complaint, by their meaning.
pub open spec fn cites_view(r: Result<Vec<(String, String)>, String>) -> Result<
    Seq<(Seq<char>, Seq<char>)>,
    Seq<char>,
> {
    match r {
        Ok(v) => Ok(cite_views(v@)),
        Err(e) => Err(e@),
    }
}

/// The names of the lists to read.
pub fn lists_to_read(cli: &Cli) -> (r: Vec<String>)
    ensures
        texts(r@) == list_names(*cli),
{
    let mut out: Vec<String> = Vec::new();
    if cli.input.len() == 0 && cli.cite.len() == 0 {
        out.push("<stdin>".to_owned());
        assert(texts(out@) =~= seq!["<stdin>"@]);
        return out;
    }
    let mut i: usize = 0;
    assert(texts(out@) =~= texts(cli.input@).take(0));
    while i < cli.input.len()
        invariant
            i <= cli.input@.len(),
            texts(out@) == texts(cli.input@).take(i as int),
        decreases cli.input@.len() - i,
    {
        let ghost was = texts(out@);
        out.push(cli.input[i].clone());
        i += 1;
        assert(texts(out@) =~= was.push(cli.input@[i - 1]@));
        assert(texts(cli.input@).take(i as int) =~= was.push(cli.input@[i - 1]@));
    }
    assert(texts(cli.input@).take(i as int) =~= texts(cli.input@));
    out
}

proof fn lemma_cite_colon_free(spec: Seq<char>)
    ensures
        cite_of(spec) matches Ok(c) ==> colon_free(c),
{
    if let Ok(c) = cite_of(spec) {
        let p = split_id(spec)->Some_0.0;
        spec.index_of_first_ensures(':');
        let at = spec.index_of_first(':')->Some_0;
        assert(p == spec.take(at));
        assert(!p.contains(':')) by {
            if p.contains(':') {
                let i = choose|i: int| 0 <= i < p.len() && p[i] == ':';
                assert(spec[i] == ':');
            }
        }
        lemma_trim_within(p, ':');
    }
}

/// What is not in a text is not in it once it is trimmed.
proof fn lemma_trim_within(s: Seq<char>, c: char)
    requires
        !s.contains(c),
    ensures
        !trim(s).contains(c),
{
    lemma_start_within(s, c);
    lemma_end_within(crate::text::trim_start(s), c);
}

proof fn lemma_start_within(s: Seq<char>, c: char)
    requires
        !s.contains(c),
    ensures
        !crate::text::trim_start(s).contains(c),
    decreases s.len(),
{
    if s.len() > 0 && crate::text::is_white(s[0]) {
        assert(!s.skip(1).contains(c)) by {
            if s.skip(1).contains(c) {
                let i = choose|i: int| 0 <= i < s.skip(1).len() && s.skip(1)[i] == c;
                assert(s[i + 1] == c);
            }
        }
        lemma_start_within(s.skip(1), c);
    }
}

proof fn lemma_end_within(s: Seq<char>, c: char)
    requires
        !s.contains(c),
    ensures
        !crate::text::trim_end(s).contains(c),
    decreases s.len(),
{
    if s.len() > 0 && crate::text::is_white(s.last()) {
        assert(!s.drop_last().contains(c)) by {
            if s.drop_last().contains(c) {
                let i = choose|i: int| 0 <= i < s.drop_last().len() && s.drop_last()[i] == c;
                assert(s[i] == c);
            }
        }
        lemma_end_within(s.drop_last(), c);
    }
}

/// Whether no citation has a colon in its prefix.
pub open spec fn all_colon_free(s: Seq<(Seq<char>, Seq<char>)>) -> bool {
    forall|i: int| 0 <= i < s.len() ==> colon_free(#[trigger] s[i])
}

proof fn lemma_listed_colon_free(lines: Seq<Seq<char>>, origin: Seq<char>)
    ensures
        listed(lines, origin) matches Ok(c) ==> all_colon_free(c),
    decreases lines.len(),
{
    if lines.len() > 0 {
        lemma_listed_colon_free(lines.drop_last(), origin);
        lemma_cite_colon_free(trim(lines.last()));
    }
}

proof fn lemma_lists_fail(names: Seq<Seq<char>>, lists: Seq<Seq<char>>, n: int)
    requires
        0 <= n <= names.len() == lists.len(),
        lists_cites(names.take(n), lists.take(n)) is Err,
    ensures
        lists_cites(names, lists) == lists_cites(names.take(n), lists.take(n)),
    decreases names.len(),
{
    if n < names.len() {
        assert(names.drop_last().take(n) =~= names.take(n));
        assert(lists.drop_last().take(n) =~= lists.take(n));
        lemma_lists_fail(names.drop_last(), lists.drop_last(), n);
    } else {
        assert(names.take(n) =~= names);
        assert(lists.take(n) =~= lists);
    }
}

proof fn lemma_given_fail(specs: Seq<Seq<char>>, n: int)
    requires
        0 <= n <= specs.len(),
        given_cites(specs.take(n)) is Err,
    ensures
        given_cites(specs) == given_cites(specs.take(n)),
    decreases specs.len(),
{
    if n < specs.len() {
        assert(specs.drop_last().take(n) =~= specs.take(n));
        lemma_given_fail(specs.drop_last(), n);
    } else {
        assert(specs.take(n) =~= specs);
    }
}

/// The citations to resolve, in order and each once. The lists are the texts that
/// [`lists_to_read`] names, in that order.
pub fn collect(cli: &Cli, lists: &Vec<String>) -> (r: Result<Vec<(String, String)>, String>)
    requires
        lists@.len() == list_names(*cli).len(),
    ensures
        cites_view(r) == collected(*cli, texts(lists@)),
{
    let names = lists_to_read(cli);
    let ghost origins = texts(names@);
    let ghost bodies = texts(lists@);
    let mut cites: Vec<(String, String)> = Vec::new();
    let mut i: usize = 0;
    proof {
        assert(origins.take(0) =~= Seq::empty());
        assert(cite_views(cites@) =~= Seq::empty());
    }
    while i < names.len()
        invariant
            i <= names@.len() == lists@.len(),
            origins == texts(names@),
            bodies == texts(lists@),
            origins == list_names(*cli),
            lists_cites(origins.take(i as int), bodies.take(i as int)) matches Ok(c)
                && cite_views(cites@) == c,
            all_colon_free(cite_views(cites@)),
        decreases names@.len() - i,
    {
        let ghost was = cite_views(cites@);
        proof {
            assert(origins.take(i + 1).drop_last() =~= origins.take(i as int));
            assert(bodies.take(i + 1).drop_last() =~= bodies.take(i as int));
            assert(origins.take(i + 1).last() == names@[i as int]@);
            assert(bodies.take(i + 1).last() == lists@[i as int]@);
            lemma_listed_colon_free(split(lists@[i as int]@, '\n'), names@[i as int]@);
        }
        match append_list(&mut cites, lists[i].as_str(), names[i].as_str()) {
            Ok(_) => {
                proof {
                    let now = cite_views(cites@);
                    let c = list_cites(lists@[i as int]@, names@[i as int]@)->Ok_0;
                    assert forall|k: int| 0 <= k < now.len() implies colon_free(
                        #[trigger] now[k],
                    ) by {
                        if k < was.len() {
                            assert(now[k] == was[k]);
                        } else {
                            assert(now[k] == c[k - was.len()]);
                        }
                    }
                }
            },
            Err(e) => {
                proof {
                    lemma_lists_fail(origins, bodies, i + 1);
                }
                return Err(e);
            },
        }
        i += 1;
    }
    proof {
        assert(origins.take(i as int) =~= origins);
        assert(bodies.take(i as int) =~= bodies);
    }
    let ghost first = cite_views(cites@);
    let ghost specs = texts(cli.cite@);
    let mut j: usize = 0;
    proof {
        assert(specs.take(0) =~= Seq::empty());
        assert(first =~= first + Seq::<(Seq<char>, Seq<char>)>::empty());
    }
    while j < cli.cite.len()
        invariant
            j <= cli.cite@.len(),
            specs == texts(cli.cite@),
            lists_cites(list_names(*cli), texts(lists@)) == Ok::<
                Seq<(Seq<char>, Seq<char>)>,
                Seq<char>,
            >(first),
            given_cites(specs.take(j as int)) matches Ok(c) && cite_views(cites@) == first + c,
            all_colon_free(cite_views(cites@)),
        decreases cli.cite@.len() - j,
    {
        let ghost was = cite_views(cites@);
        let ghost front = given_cites(specs.take(j as int))->Ok_0;
        proof {
            assert(specs.take(j + 1).drop_last() =~= specs.take(j as int));
            assert(specs.take(j + 1).last() == cli.cite@[j as int]@);
            lemma_cite_colon_free(cli.cite@[j as int]@);
        }
        match parse_cite(cli.cite[j].as_str()) {
            Ok(c) => {
                cites.push(c);
                proof {
                    let now = cite_views(cites@);
                    assert(now =~= was.push((c.0@, c.1@)));
                    assert(now =~= first + front.push((c.0@, c.1@)));
                    assert forall|k: int| 0 <= k < now.len() implies colon_free(
                        #[trigger] now[k],
                    ) by {
                        if k < was.len() {
                            assert(now[k] == was[k]);
                        }
                    }
                }
            },
            Err(e) => {
                proof {
                    lemma_given_fail(specs, j + 1);
                }
                return Err("--cite ".to_owned().concat(e.as_str()));
            },
        }
        j += 1;
    }
    assert(specs.take(j as int) =~= specs);
    Ok(without_repeats(cites))
}

/// The prefixes of citations, each once.
pub open spec fn prefixes_of(cites: Seq<(Seq<char>, Seq<char>)>) -> Seq<Seq<char>> {
    distinct_of(cites.map_values(|c: (Seq<char>, Seq<char>)| c.0))
}

/// The prefixes of citations, each once, in order.
pub fn prefixes(cites: &[(String, String)]) -> (r: Vec<&str>)
    ensures
        r@.map_values(|p: &str| p@) == prefixes_of(cite_views(cites@)),
{
    let ghost all = cite_views(cites@).map_values(|c: (Seq<char>, Seq<char>)| c.0);
    let mut out: Vec<&str> = Vec::new();
    let mut i: usize = 0;
    proof {
        assert(all.take(0) =~= Seq::empty());
        assert(out@.map_values(|p: &str| p@) =~= Seq::empty());
    }
    while i < cites.len()
        invariant
            i <= cites@.len(),
            all == cite_views(cites@).map_values(|c: (Seq<char>, Seq<char>)| c.0),
            out@.map_values(|p: &str| p@) == distinct_of(all.take(i as int)),
        decreases cites@.len() - i,
    {
        let ghost was = out@.map_values(|p: &str| p@);
        let prefix = cites[i].0.as_str();
        proof {
            assert(all.take(i + 1).drop_last() =~= all.take(i as int));
            assert(all.take(i + 1).last() == prefix@);
        }
        let mut known = false;
        let mut j: usize = 0;
        while j < out.len() && !known
            invariant
                j <= out@.len(),
                was == out@.map_values(|p: &str| p@),
                known ==> was.contains(prefix@),
                !known ==> forall|k: int| 0 <= k < j ==> #[trigger] was[k] != prefix@,
            decreases out@.len() - j + (if known { 0int } else { 1int }),
        {
            if same(out[j], prefix) {
                assert(was[j as int] == prefix@);
                known = true;
            } else {
                j += 1;
            }
        }
        if !known {
            out.push(prefix);
            assert(out@.map_values(|p: &str| p@) =~= was.push(prefix@));
            assert(!was.contains(prefix@));
        }
        i += 1;
    }
    assert(all.take(i as int) =~= all);
    out
}

} // verus!
