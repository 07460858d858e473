//! Which citations are collected, and what of them is written.

use crate::cli::Cli;
use crate::csl::Json;
use crate::driver::texts;
use crate::error::error_text;
use crate::input::{
    cite_of, collected, distinct_of, given_cites, law_distinct, list_cites, list_names, listed,
    lists_cites, prefixes_of,
};
use crate::lines::split;
use crate::manager::{CitationManager, FailureView};
use crate::output::{failure_line, item_id, law_an_item_is_written_once};
use crate::reading::law_ids_split_again;
use crate::source::Source;
use crate::store::RecordView;
use crate::text::trim;
use vstd::prelude::*;
use vstd::string::*;

verus! {

/// A text names a citation by the prefix before its first colon, trimmed, and by everything
/// behind that colon. Without a colon, a prefix or a key it names none.
pub proof fn law_a_citation_is_a_prefix_and_a_key(prefix: Seq<char>, key: Seq<char>)
    requires
        !prefix.contains(':'),
    ensures
        trim(prefix).len() > 0 && key.len() > 0 ==> cite_of(prefix + seq![':'] + key) == Ok::<
            (Seq<char>, Seq<char>),
            Seq<char>,
        >((trim(prefix), key)),
        trim(prefix).len() == 0 || key.len() == 0 ==> cite_of(prefix + seq![':'] + key) is Err,
        cite_of(prefix) is Err,
{
    law_ids_split_again(prefix, key);
}

/// Whether a line of a list names the citation: it is no comment, and what is left of it once
/// it is trimmed does.
pub open spec fn line_names(line: Seq<char>, c: (Seq<char>, Seq<char>)) -> bool {
    let t = trim(line);
    t.len() > 0 && t[0] != '#' && cite_of(t) == Ok::<(Seq<char>, Seq<char>), Seq<char>>(c)
}

/// Whether a line can stand in a list: it is blank, a comment, or names a citation.
pub open spec fn line_is_fine(line: Seq<char>) -> bool {
    let t = trim(line);
    t.len() == 0 || t[0] == '#' || cite_of(t) is Ok
}

/// Whether some line of a list names the citation.
pub open spec fn list_names_it(text: Seq<char>, c: (Seq<char>, Seq<char>)) -> bool {
    exists|j: int|
        0 <= j < split(text, '\n').len() && line_names(#[trigger] split(text, '\n')[j], c)
}

/// Whether some line of some list names the citation.
pub open spec fn some_list_names(lists: Seq<Seq<char>>, c: (Seq<char>, Seq<char>)) -> bool {
    exists|i: int| 0 <= i < lists.len() && list_names_it(#[trigger] lists[i], c)
}

/// Whether some option names the citation.
pub open spec fn some_option_names(specs: Seq<Seq<char>>, c: (Seq<char>, Seq<char>)) -> bool {
    exists|i: int|
        0 <= i < specs.len() && cite_of(#[trigger] specs[i]) == Ok::<
            (Seq<char>, Seq<char>),
            Seq<char>,
        >(c)
}

/// Whether every line of a list can stand there.
pub open spec fn list_is_fine(text: Seq<char>) -> bool {
    forall|j: int|
        0 <= j < split(text, '\n').len() ==> line_is_fine(#[trigger] split(text, '\n')[j])
}

/// What is collected: a citation is among those to resolve if and only if some line of some
/// list or some option names it, none is there twice, and there is a complaint if and only
/// if some line or option names nothing.
pub proof fn law_what_is_named_is_collected(cli: Cli, lists: Seq<Seq<char>>)
    requires
        lists.len() == list_names(cli).len(),
    ensures
        collected(cli, lists) is Ok <==> {
            &&& forall|i: int| 0 <= i < lists.len() ==> list_is_fine(#[trigger] lists[i])
            &&& forall|i: int|
                0 <= i < cli.cite@.len() ==> cite_of(#[trigger] texts(cli.cite@)[i]) is Ok
        },
        collected(cli, lists) matches Ok(all) ==> {
            &&& all.no_duplicates()
            &&& forall|c: (Seq<char>, Seq<char>)| #[trigger]
                all.contains(c) <==> some_list_names(lists, c) || some_option_names(
                    texts(cli.cite@),
                    c,
                )
        },
{
    let names = list_names(cli);
    let specs = texts(cli.cite@);
    lemma_lists(names, lists);
    lemma_given(specs);
    if let Ok(all) = collected(cli, lists) {
        let a = lists_cites(names, lists)->Ok_0;
        let b = given_cites(specs)->Ok_0;
        law_distinct(a + b);
        assert forall|c: (Seq<char>, Seq<char>)| #[trigger] all.contains(c) <==> some_list_names(
            lists,
            c,
        ) || some_option_names(specs, c) by {
            assert((a + b).contains(c) == (a.contains(c) || b.contains(c))) by {
                if a.contains(c) {
                    let k = choose|k: int| 0 <= k < a.len() && a[k] == c;
                    assert((a + b)[k] == c);
                }
                if b.contains(c) {
                    let k = choose|k: int| 0 <= k < b.len() && b[k] == c;
                    assert((a + b)[a.len() + k] == c);
                }
                if (a + b).contains(c) {
                    let k = choose|k: int| 0 <= k < (a + b).len() && (a + b)[k] == c;
                    if k < a.len() {
                        assert(a[k] == c);
                    } else {
                        assert(b[k - a.len()] == c);
                    }
                }
            }
            assert(a.contains(c) == some_list_names(lists, c));
            assert(b.contains(c) == some_option_names(specs, c));
        }
    }
}

proof fn lemma_listed(lines: Seq<Seq<char>>, origin: Seq<char>)
    ensures
        listed(lines, origin) is Ok <==> forall|j: int|
            0 <= j < lines.len() ==> line_is_fine(#[trigger] lines[j]),
        listed(lines, origin) matches Ok(all) ==> forall|c: (Seq<char>, Seq<char>)| #[trigger]
            all.contains(c) <==> exists|j: int|
                0 <= j < lines.len() && line_names(#[trigger] lines[j], c),
    decreases lines.len(),
{
    if lines.len() > 0 {
        let front = lines.drop_last();
        let n = lines.len() - 1;
        lemma_listed(front, origin);
        if listed(front, origin) is Ok {
            if line_is_fine(lines[n]) {
                assert forall|j: int| 0 <= j < lines.len() implies line_is_fine(
                    #[trigger] lines[j],
                ) by {
                    if j < n {
                        assert(front[j] == lines[j]);
                    }
                }
            }
        } else {
            let j = choose|j: int| 0 <= j < front.len() && !line_is_fine(#[trigger] front[j]);
            assert(lines[j] == front[j]);
        }
        if let Ok(all) = listed(lines, origin) {
            let f = listed(front, origin)->Ok_0;
            assert forall|c: (Seq<char>, Seq<char>)| #[trigger] all.contains(c) <==> exists|j: int|
                0 <= j < lines.len() && line_names(#[trigger] lines[j], c) by {
                if all.contains(c) {
                    let k = choose|k: int| 0 <= k < all.len() && all[k] == c;
                    if k < f.len() {
                        assert(f.contains(f[k]));
                        let j = choose|j: int|
                            0 <= j < front.len() && line_names(#[trigger] front[j], c);
                        assert(lines[j] == front[j]);
                    } else {
                        assert(line_names(lines[n], c));
                    }
                }
                if exists|j: int| 0 <= j < lines.len() && line_names(#[trigger] lines[j], c) {
                    let j = choose|j: int|
                        0 <= j < lines.len() && line_names(#[trigger] lines[j], c);
                    if j < n {
                        assert(front[j] == lines[j]);
                        assert(f.contains(c));
                        let k = choose|k: int| 0 <= k < f.len() && f[k] == c;
                        assert(all[k] == c);
                    } else {
                        assert(all[f.len() as int] == c);
                    }
                }
            }
        }
    } else {
        assert forall|c: (Seq<char>, Seq<char>)| #[trigger]
            listed(lines, origin)->Ok_0.contains(c) implies false by {}
    }
}

proof fn lemma_lists(names: Seq<Seq<char>>, lists: Seq<Seq<char>>)
    requires
        names.len() == lists.len(),
    ensures
        lists_cites(names, lists) is Ok <==> forall|i: int|
            0 <= i < lists.len() ==> list_is_fine(#[trigger] lists[i]),
        lists_cites(names, lists) matches Ok(all) ==> forall|c: (Seq<char>, Seq<char>)| #[trigger]
            all.contains(c) <==> some_list_names(lists, c),
    decreases names.len(),
{
    if names.len() > 0 {
        let fn_ = names.drop_last();
        let fl = lists.drop_last();
        let n = lists.len() - 1;
        lemma_lists(fn_, fl);
        lemma_listed(split(lists[n], '\n'), names.last());
        if lists_cites(fn_, fl) is Ok {
            if list_is_fine(lists[n]) {
                assert forall|i: int| 0 <= i < lists.len() implies list_is_fine(
                    #[trigger] lists[i],
                ) by {
                    if i < n {
                        assert(fl[i] == lists[i]);
                    }
                }
            }
        } else {
            let i = choose|i: int| 0 <= i < fl.len() && !list_is_fine(#[trigger] fl[i]);
            assert(lists[i] == fl[i]);
        }
        if let Ok(all) = lists_cites(names, lists) {
            let f = lists_cites(fn_, fl)->Ok_0;
            let g = list_cites(lists[n], names.last())->Ok_0;
            assert forall|c: (Seq<char>, Seq<char>)| #[trigger]
                all.contains(c) <==> some_list_names(lists, c) by {
                assert(g.contains(c) == list_names_it(lists[n], c));
                assert(f.contains(c) == some_list_names(fl, c));
                if all.contains(c) {
                    let k = choose|k: int| 0 <= k < all.len() && all[k] == c;
                    if k < f.len() {
                        assert(f[k] == c);
                        let i = choose|i: int|
                            0 <= i < fl.len() && list_names_it(#[trigger] fl[i], c);
                        assert(lists[i] == fl[i]);
                    } else {
                        assert(g[k - f.len()] == c);
                        assert(list_names_it(lists[n], c));
                    }
                }
                if some_list_names(lists, c) {
                    let i = choose|i: int|
                        0 <= i < lists.len() && list_names_it(#[trigger] lists[i], c);
                    if i < n {
                        assert(fl[i] == lists[i]);
                        let k = choose|k: int| 0 <= k < f.len() && f[k] == c;
                        assert(all[k] == c);
                    } else {
                        let k = choose|k: int| 0 <= k < g.len() && g[k] == c;
                        assert(all[f.len() + k] == c);
                    }
                }
            }
        }
    } else {
        assert forall|c: (Seq<char>, Seq<char>)| #[trigger]
            lists_cites(names, lists)->Ok_0.contains(c) implies false by {}
    }
}

proof fn lemma_given(specs: Seq<Seq<char>>)
    ensures
        given_cites(specs) is Ok <==> forall|i: int|
            0 <= i < specs.len() ==> cite_of(#[trigger] specs[i]) is Ok,
        given_cites(specs) matches Ok(all) ==> {
            &&& all.len() == specs.len()
            &&& forall|i: int|
                0 <= i < specs.len() ==> cite_of(#[trigger] specs[i]) == Ok::<
                    (Seq<char>, Seq<char>),
                    Seq<char>,
                >(all[i])
            &&& forall|c: (Seq<char>, Seq<char>)| #[trigger]
                all.contains(c) <==> some_option_names(specs, c)
        },
    decreases specs.len(),
{
    if specs.len() > 0 {
        let front = specs.drop_last();
        let n = specs.len() - 1;
        lemma_given(front);
        if given_cites(front) is Ok {
            if cite_of(specs[n]) is Ok {
                assert forall|i: int| 0 <= i < specs.len() implies cite_of(
                    #[trigger] specs[i],
                ) is Ok by {
                    if i < n {
                        assert(front[i] == specs[i]);
                    }
                }
            }
        } else {
            let i = choose|i: int| 0 <= i < front.len() && !(cite_of(#[trigger] front[i]) is Ok);
            assert(specs[i] == front[i]);
        }
        if let Ok(all) = given_cites(specs) {
            let f = given_cites(front)->Ok_0;
            assert forall|i: int| 0 <= i < specs.len() implies cite_of(#[trigger] specs[i]) == Ok::<
                (Seq<char>, Seq<char>),
                Seq<char>,
            >(all[i]) by {
                if i < n {
                    assert(front[i] == specs[i]);
                }
            }
        }
    }
    if let Ok(all) = given_cites(specs) {
        assert forall|c: (Seq<char>, Seq<char>)| #[trigger]
            all.contains(c) <==> some_option_names(specs, c) by {
            if all.contains(c) {
                let k = choose|k: int| 0 <= k < all.len() && all[k] == c;
                assert(cite_of(specs[k]) == Ok::<(Seq<char>, Seq<char>), Seq<char>>(all[k]));
            }
            if some_option_names(specs, c) {
                let k = choose|k: int|
                    0 <= k < specs.len() && cite_of(#[trigger] specs[k]) == Ok::<
                        (Seq<char>, Seq<char>),
                        Seq<char>,
                    >(c);
                assert(all[k] == c);
            }
        }
    }
}

/// What is collected stands in the order in which it is named: first what the lists name, one
/// list after another and each line after the one before it, and then what the options name.
/// Taking more lists, lines or options into account only adds at the end.
pub proof fn law_citations_keep_their_order(
    lines: Seq<Seq<char>>,
    n: int,
    origin: Seq<char>,
    a: Seq<(Seq<char>, Seq<char>)>,
    b: Seq<(Seq<char>, Seq<char>)>,
)
    requires
        0 <= n <= lines.len(),
    ensures
        listed(lines, origin) is Ok ==> listed(lines.take(n), origin) is Ok && listed(
            lines.take(n),
            origin,
        )->Ok_0.is_prefix_of(listed(lines, origin)->Ok_0),
        distinct_of(a).is_prefix_of(distinct_of(a + b)),
    decreases lines.len() + b.len(),
{
    lemma_distinct_prefix(a, b);
    if n == lines.len() {
        assert(lines.take(n) =~= lines);
    } else {
        let front = lines.drop_last();
        law_citations_keep_their_order(front, n, origin, a, b);
        assert(front.take(n) =~= lines.take(n));
        if listed(lines, origin) is Ok {
            let x = listed(lines.take(n), origin)->Ok_0;
            let y = listed(front, origin)->Ok_0;
            let z = listed(lines, origin)->Ok_0;
            assert(y.is_prefix_of(z));
            assert(x =~= z.take(x.len() as int)) by {
                assert(x == y.take(x.len() as int));
            }
        }
    }
}

proof fn lemma_distinct_prefix<T>(a: Seq<T>, b: Seq<T>)
    ensures
        distinct_of(a).is_prefix_of(distinct_of(a + b)),
    decreases b.len(),
{
    if b.len() == 0 {
        assert(a + b =~= a);
    } else {
        let f = b.drop_last();
        lemma_distinct_prefix(a, f);
        assert((a + b).drop_last() =~= a + f);
        let x = distinct_of(a);
        let y = distinct_of(a + f);
        let z = distinct_of(a + b);
        assert(y.is_prefix_of(z));
        assert(x =~= z.take(x.len() as int)) by {
            assert(x == y.take(x.len() as int));
        }
    }
}

/// The options come behind the lists: what the lists name is collected first.
pub proof fn law_options_come_behind_lists(cli: Cli, lists: Seq<Seq<char>>)
    ensures
        collected(cli, lists) matches Ok(all) ==> {
            &&& lists_cites(list_names(cli), lists) matches Ok(a)
            &&& distinct_of(a).is_prefix_of(all)
        },
{
    if let Ok(all) = collected(cli, lists) {
        let a = lists_cites(list_names(cli), lists)->Ok_0;
        let b = given_cites(texts(cli.cite@))->Ok_0;
        lemma_distinct_prefix(a, b);
    }
}

/// The lists that are read are the files, each of them and in order; standard input is read
/// only where there is neither a file nor an option.
pub proof fn law_every_file_is_a_list(cli: Cli)
    ensures
        cli.input@.len() > 0 || cli.cite@.len() > 0 ==> list_names(cli).len() == cli.input@.len()
            && forall|i: int|
            0 <= i < cli.input@.len() ==> #[trigger] list_names(cli)[i] == cli.input@[i]@,
        cli.input@.len() == 0 && cli.cite@.len() == 0 ==> list_names(cli) == seq!["<stdin>"@],
{
}

/// The prefixes of citations are those of all of them, each once.
pub proof fn law_every_prefix_is_named(cites: Seq<(Seq<char>, Seq<char>)>, p: Seq<char>)
    ensures
        prefixes_of(cites).no_duplicates(),
        prefixes_of(cites).contains(p) <==> exists|i: int|
            0 <= i < cites.len() && (#[trigger] cites[i]).0 == p,
{
    let all = cites.map_values(|c: (Seq<char>, Seq<char>)| c.0);
    law_distinct(all);
    assert(prefixes_of(cites).contains(p) == all.contains(p));
    if all.contains(p) {
        let i = choose|i: int| 0 <= i < all.len() && all[i] == p;
        assert(cites[i].0 == p);
    }
    if exists|i: int| 0 <= i < cites.len() && (#[trigger] cites[i]).0 == p {
        let i = choose|i: int| 0 <= i < cites.len() && (#[trigger] cites[i]).0 == p;
        assert(all[i] == p);
    }
}

/// Whether an item has an id, and it is this one.
pub open spec fn item_has_id(item: Json, id: Seq<char>) -> bool {
    item matches Json::Object(m) && m.contains_key("id"@) && m["id"@] == Json::Text(id)
        && id.len() > 0
}

/// Every citation that reads as an item has it among the items that are written, whatever
/// the others come to: that very item, unless an earlier citation has one with the same id,
/// in which case that one is there.
pub proof fn law_what_reads_is_written<S: Source>(
    manager: CitationManager<S>,
    cache: Map<Seq<char>, RecordView>,
    cites: Seq<(Seq<char>, Seq<char>)>,
    failures: Seq<FailureView>,
    i: int,
    item: Json,
)
    requires
        0 <= i < cites.len(),
        manager.read(cache, cites[i].0, cites[i].1) matches Ok(x) && x == item,
    ensures
        ({
            let b = manager.read_back_of(cache, cites, failures);
            ||| b.items.contains(item)
            ||| exists|j: int, id: Seq<char>|
                0 <= j < i && item_has_id(item, id) && (manager.read(
                    cache,
                    (#[trigger] cites[j]).0,
                    cites[j].1,
                ) matches Ok(x) && item_has_id(x, id) && #[trigger] b.ids.contains(id)
                    && b.items.contains(x))
        }),
    decreases cites.len(),
{
    let front = cites.drop_last();
    let n = cites.len() - 1;
    let f = manager.read_back_of(cache, front, failures);
    let b = manager.read_back_of(cache, cites, failures);
    lemma_written_grow(manager, cache, cites, failures, n);
    assert(cites.take(n) =~= front);
    if i < n {
        assert(front[i] == cites[i]);
        law_what_reads_is_written(manager, cache, front, failures, i, item);
        if f.items.contains(item) {
            let k = choose|k: int| 0 <= k < f.items.len() && f.items[k] == item;
            assert(b.items[k] == item);
        } else {
            let (j, id) = choose|j: int, id: Seq<char>|
                0 <= j < i && item_has_id(item, id) && (manager.read(
                    cache,
                    (#[trigger] front[j]).0,
                    front[j].1,
                ) matches Ok(x) && item_has_id(x, id) && #[trigger] f.ids.contains(id)
                    && f.items.contains(x));
            let x = manager.read(cache, front[j].0, front[j].1)->Ok_0;
            let k = choose|k: int| 0 <= k < f.items.len() && f.items[k] == x;
            assert(b.items[k] == x);
            let q = choose|q: int| 0 <= q < f.ids.len() && f.ids[q] == id;
            assert(b.ids[q] == id);
            assert(cites[j] == front[j]);
            assert(b.ids.contains(id));
        }
    } else {
        let id = item_id(item);
        if id.len() == 0 || !f.ids.contains(id) {
            assert(b.items[f.items.len() as int] == item);
        } else {
            lemma_id_has_cite(manager, cache, front, failures, id);
            let j = choose|j: int|
                0 <= j < front.len() && (manager.read(
                    cache,
                    (#[trigger] front[j]).0,
                    front[j].1,
                ) matches Ok(x) && item_has_id(x, id) && f.items.contains(x));
            assert(cites[j] == front[j]);
            assert(item_has_id(item, id));
            assert(b.ids.contains(id));
        }
    }
}

proof fn lemma_id_has_cite<S: Source>(
    manager: CitationManager<S>,
    cache: Map<Seq<char>, RecordView>,
    cites: Seq<(Seq<char>, Seq<char>)>,
    failures: Seq<FailureView>,
    id: Seq<char>,
)
    requires
        manager.read_back_of(cache, cites, failures).ids.contains(id),
        id.len() > 0,
    ensures
        exists|j: int|
            0 <= j < cites.len() && (manager.read(
                cache,
                (#[trigger] cites[j]).0,
                cites[j].1,
            ) matches Ok(x) && item_has_id(x, id) && manager.read_back_of(
                cache,
                cites,
                failures,
            ).items.contains(x)),
    decreases cites.len(),
{
    if cites.len() > 0 {
        let front = cites.drop_last();
        let n = cites.len() - 1;
        let f = manager.read_back_of(cache, front, failures);
        let b = manager.read_back_of(cache, cites, failures);
        if f.ids.contains(id) {
            lemma_id_has_cite(manager, cache, front, failures, id);
            let j = choose|j: int|
                0 <= j < front.len() && (manager.read(
                    cache,
                    (#[trigger] front[j]).0,
                    front[j].1,
                ) matches Ok(x) && item_has_id(x, id) && f.items.contains(x));
            let x = manager.read(cache, front[j].0, front[j].1)->Ok_0;
            let k = choose|k: int| 0 <= k < f.items.len() && f.items[k] == x;
            assert(b.items[k] == x);
            assert(cites[j] == front[j]);
        } else {
            let k = choose|k: int| 0 <= k < b.ids.len() && b.ids[k] == id;
            if k < f.ids.len() {
                assert(f.ids[k] == id);
            }
            let x = manager.read(cache, cites[n].0, cites[n].1)->Ok_0;
            assert(b.items[f.items.len() as int] == x);
            assert(item_has_id(x, id));
        }
    }
}

/// Items are written in the order of their citations: more citations only add at the end.
pub proof fn law_items_keep_their_order<S: Source>(
    manager: CitationManager<S>,
    cache: Map<Seq<char>, RecordView>,
    cites: Seq<(Seq<char>, Seq<char>)>,
    failures: Seq<FailureView>,
    n: int,
)
    requires
        0 <= n <= cites.len(),
    ensures
        manager.read_back_of(cache, cites.take(n), failures).items.is_prefix_of(
            manager.read_back_of(cache, cites, failures).items,
        ),
        manager.read_back_of(cache, cites.take(n), failures).lines.is_prefix_of(
            manager.read_back_of(cache, cites, failures).lines,
        ),
{
    lemma_written_grow(manager, cache, cites, failures, n);
}

proof fn lemma_written_grow<S: Source>(
    manager: CitationManager<S>,
    cache: Map<Seq<char>, RecordView>,
    cites: Seq<(Seq<char>, Seq<char>)>,
    failures: Seq<FailureView>,
    n: int,
)
    requires
        0 <= n <= cites.len(),
    ensures
        manager.read_back_of(cache, cites.take(n), failures).items.is_prefix_of(
            manager.read_back_of(cache, cites, failures).items,
        ),
        manager.read_back_of(cache, cites.take(n), failures).ids.is_prefix_of(
            manager.read_back_of(cache, cites, failures).ids,
        ),
        manager.read_back_of(cache, cites.take(n), failures).lines.is_prefix_of(
            manager.read_back_of(cache, cites, failures).lines,
        ),
    decreases cites.len(),
{
    if n == cites.len() {
        assert(cites.take(n) =~= cites);
    } else {
        let front = cites.drop_last();
        lemma_written_grow(manager, cache, front, failures, n);
        assert(front.take(n) =~= cites.take(n));
        let x = manager.read_back_of(cache, cites.take(n), failures);
        let f = manager.read_back_of(cache, front, failures);
        let b = manager.read_back_of(cache, cites, failures);
        assert(x.items =~= b.items.take(x.items.len() as int)) by {
            assert(x.items == f.items.take(x.items.len() as int));
        }
        assert(x.ids =~= b.ids.take(x.ids.len() as int)) by {
            assert(x.ids == f.ids.take(x.ids.len() as int));
        }
        assert(x.lines =~= b.lines.take(x.lines.len() as int)) by {
            assert(x.lines == f.lines.take(x.lines.len() as int));
        }
    }
}

/// Whether a citation was reported.
pub open spec fn was_reported(failures: Seq<FailureView>, c: (Seq<char>, Seq<char>)) -> bool {
    exists|k: int|
        0 <= k < failures.len() && (#[trigger] failures[k]).prefix == c.0 && failures[k].key == c.1
}

/// Nothing is made up and nothing is left out: every item that is written is what some
/// citation reads as, as many citations are unresolved as read as an error, and those of
/// them that were not reported have a line each, and no other citation has one.
pub proof fn law_what_does_not_read_is_counted<S: Source>(
    manager: CitationManager<S>,
    cache: Map<Seq<char>, RecordView>,
    cites: Seq<(Seq<char>, Seq<char>)>,
    failures: Seq<FailureView>,
)
    ensures
        ({
            let b = manager.read_back_of(cache, cites, failures);
            let bad = cites.filter(
                |c: (Seq<char>, Seq<char>)| manager.read(cache, c.0, c.1) is Err,
            );
            let told = cites.filter(
                |c: (Seq<char>, Seq<char>)|
                    manager.read(cache, c.0, c.1) is Err && !was_reported(failures, c),
            );
            &&& b.unresolved == bad.len()
            &&& b.lines.len() == told.len()
            &&& forall|k: int|
                0 <= k < told.len() ==> #[trigger] b.lines[k] == told[k].0 + ":"@ + told[k].1
                    + ": "@ + error_text(manager.read(cache, told[k].0, told[k].1)->Err_0)
            &&& forall|k: int|
                0 <= k < b.items.len() ==> exists|i: int|
                    0 <= i < cites.len() && manager.read(
                        cache,
                        (#[trigger] cites[i]).0,
                        cites[i].1,
                    ) == Ok::<Json, crate::error::ErrorView>(#[trigger] b.items[k])
        }),
    decreases cites.len(),
{
    reveal(Seq::filter);
    if cites.len() > 0 {
        let front = cites.drop_last();
        let n = cites.len() - 1;
        law_what_does_not_read_is_counted(manager, cache, front, failures);
        let f = manager.read_back_of(cache, front, failures);
        let b = manager.read_back_of(cache, cites, failures);
        assert forall|k: int| 0 <= k < b.items.len() implies exists|i: int|
            0 <= i < cites.len() && manager.read(
                cache,
                (#[trigger] cites[i]).0,
                cites[i].1,
            ) == Ok::<Json, crate::error::ErrorView>(#[trigger] b.items[k]) by {
            if k < f.items.len() {
                assert(b.items[k] == f.items[k]);
                let i = choose|i: int|
                    0 <= i < front.len() && manager.read(
                        cache,
                        (#[trigger] front[i]).0,
                        front[i].1,
                    ) == Ok::<Json, crate::error::ErrorView>(f.items[k]);
                assert(cites[i] == front[i]);
            } else {
                assert(cites[n] == cites.last());
            }
        }
    }
}

/// The line for a failure names its citation and says its message, and the citation that it
/// was needed by where that is another one.
pub proof fn law_a_failure_is_told_with_its_reason(f: FailureView)
    ensures
        (f.prefix + ":"@ + f.key + ": "@ + f.message).is_prefix_of(failure_line(f)),
        f.origin is None ==> failure_line(f) == f.prefix + ":"@ + f.key + ": "@ + f.message,
        f.origin matches Some(o) ==> (o != (f.prefix, f.key) ==> failure_line(f) == f.prefix
            + ":"@ + f.key + ": "@ + f.message + " (needed by "@ + o.0 + ":"@ + o.1 + ")"@),
{
    let line = f.prefix + ":"@ + f.key + ": "@ + f.message;
    assert(line =~= failure_line(f).take(line.len() as int));
}

/// No two items that are written have the same id.
pub proof fn law_written_items_have_ids_of_their_own<S: Source>(
    manager: CitationManager<S>,
    cache: Map<Seq<char>, RecordView>,
    cites: Seq<(Seq<char>, Seq<char>)>,
    failures: Seq<FailureView>,
    i: int,
    j: int,
    id: Seq<char>,
)
    requires
        0 <= i < j < manager.read_back_of(cache, cites, failures).items.len(),
        item_has_id(manager.read_back_of(cache, cites, failures).items[i], id),
    ensures
        !item_has_id(manager.read_back_of(cache, cites, failures).items[j], id),
{
    lemma_ids_are_those_of_items(manager, cache, cites, failures, i);
    lemma_ids_are_those_of_items(manager, cache, cites, failures, j);
    law_an_item_is_written_once(manager, cache, cites, failures, i, j);
}

proof fn lemma_ids_are_those_of_items<S: Source>(
    manager: CitationManager<S>,
    cache: Map<Seq<char>, RecordView>,
    cites: Seq<(Seq<char>, Seq<char>)>,
    failures: Seq<FailureView>,
    i: int,
)
    ensures
        ({
            let b = manager.read_back_of(cache, cites, failures);
            &&& b.ids.len() == b.items.len()
            &&& 0 <= i < b.items.len() ==> b.ids[i] == item_id(b.items[i])
        }),
    decreases cites.len(),
{
    if cites.len() > 0 {
        lemma_ids_are_those_of_items(manager, cache, cites.drop_last(), failures, i);
    }
}

/// Citations stand in the order of the lists that name them, and those that are given directly
/// in the order of the options: more lists and options only add behind them.
pub proof fn law_lists_and_options_keep_their_order(
    names: Seq<Seq<char>>,
    lists: Seq<Seq<char>>,
    specs: Seq<Seq<char>>,
    n: int,
)
    requires
        names.len() == lists.len(),
    ensures
        0 <= n <= lists.len() && lists_cites(names, lists) is Ok ==> lists_cites(
            names.take(n),
            lists.take(n),
        ) is Ok && lists_cites(names.take(n), lists.take(n))->Ok_0.is_prefix_of(
            lists_cites(names, lists)->Ok_0,
        ),
        0 <= n <= specs.len() && given_cites(specs) is Ok ==> given_cites(specs.take(n)) is Ok
            && given_cites(specs.take(n))->Ok_0.is_prefix_of(given_cites(specs)->Ok_0),
    decreases lists.len() + specs.len(),
{
    if 0 <= n <= lists.len() {
        if n == lists.len() {
            assert(names.take(n) =~= names);
            assert(lists.take(n) =~= lists);
        } else {
            let front = lists.drop_last();
            let known = names.drop_last();
            assert(front.take(n) =~= lists.take(n));
            assert(known.take(n) =~= names.take(n));
            law_lists_and_options_keep_their_order(known, front, Seq::empty(), n);
        }
    }
    if 0 <= n <= specs.len() {
        if n == specs.len() {
            assert(specs.take(n) =~= specs);
        } else {
            let front = specs.drop_last();
            assert(front.take(n) =~= specs.take(n));
            law_lists_and_options_keep_their_order(Seq::empty(), Seq::empty(), front, n);
        }
    }
}

} // verus!
