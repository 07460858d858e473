//! What people are told: where a complaint is about, and what happens, in numbers and names.

use crate::error::{error_text, Error, ErrorView};
use crate::fetch::{fetch_error_text, FetchError, FetchErrorView};
use crate::filecache::read_main;
use crate::formats::{in_format, Format};
use crate::input::{cite_of, given_cites, listed};
use crate::json::{json_parsed, parsed_meaning, yaml_parsed};
use crate::laws::cachefile::can_stand;
use crate::laws::citing::line_is_fine;
use crate::manager::{valid_prefix, ItemView};
use crate::output::failure_line;
use crate::progress::line_for;
use crate::report::{Event, Resolved, Wait};
use crate::store::RecordView;
use crate::text::{decimal, trim};
use core::time::Duration;
use vstd::prelude::*;
use vstd::string::*;

verus! {

/// A complaint about a list names the list and the first line that names nothing, counted
/// from one, whatever stands behind it.
pub proof fn law_a_complaint_names_its_line(lines: Seq<Seq<char>>, origin: Seq<char>, i: int)
    requires
        0 <= i < lines.len(),
        forall|j: int| 0 <= j < i ==> line_is_fine(#[trigger] lines[j]),
        !line_is_fine(lines[i]),
    ensures
        listed(lines, origin) == Err::<Seq<(Seq<char>, Seq<char>)>, Seq<char>>(
            origin + ":"@ + decimal((i + 1) as nat) + ": "@ + cite_of(trim(lines[i]))->Err_0,
        ),
    decreases lines.len(),
{
    let front = lines.drop_last();
    if i < lines.len() - 1 {
        assert forall|j: int| 0 <= j < i implies line_is_fine(#[trigger] front[j]) by {
            assert(front[j] == lines[j]);
        }
        assert(front[i] == lines[i]);
        law_a_complaint_names_its_line(front, origin, i);
    } else {
        assert forall|j: int| 0 <= j < front.len() implies line_is_fine(#[trigger] front[j]) by {
            assert(front[j] == lines[j]);
        }
        lemma_fine_lines(front, origin);
    }
}

proof fn lemma_fine_lines(lines: Seq<Seq<char>>, origin: Seq<char>)
    requires
        forall|j: int| 0 <= j < lines.len() ==> line_is_fine(#[trigger] lines[j]),
    ensures
        listed(lines, origin) is Ok,
    decreases lines.len(),
{
    if lines.len() > 0 {
        let front = lines.drop_last();
        assert forall|j: int| 0 <= j < front.len() implies line_is_fine(#[trigger] front[j]) by {
            assert(front[j] == lines[j]);
        }
        lemma_fine_lines(front, origin);
        assert(line_is_fine(lines[lines.len() - 1]));
    }
}

/// A complaint about options names the first one that names nothing.
pub proof fn law_a_complaint_names_its_option(specs: Seq<Seq<char>>, i: int)
    requires
        0 <= i < specs.len(),
        forall|j: int| 0 <= j < i ==> cite_of(#[trigger] specs[j]) is Ok,
        cite_of(specs[i]) is Err,
    ensures
        given_cites(specs) == Err::<Seq<(Seq<char>, Seq<char>)>, Seq<char>>(
            "--cite "@ + cite_of(specs[i])->Err_0,
        ),
    decreases specs.len(),
{
    let front = specs.drop_last();
    if i < specs.len() - 1 {
        assert forall|j: int| 0 <= j < i implies cite_of(#[trigger] front[j]) is Ok by {
            assert(front[j] == specs[j]);
        }
        assert(front[i] == specs[i]);
        law_a_complaint_names_its_option(front, i);
    } else {
        assert forall|j: int| 0 <= j < front.len() implies cite_of(#[trigger] front[j]) is Ok by {
            assert(front[j] == specs[j]);
        }
        lemma_fine_options(front);
    }
}

proof fn lemma_fine_options(specs: Seq<Seq<char>>)
    requires
        forall|j: int| 0 <= j < specs.len() ==> cite_of(#[trigger] specs[j]) is Ok,
    ensures
        given_cites(specs) is Ok,
    decreases specs.len(),
{
    if specs.len() > 0 {
        let front = specs.drop_last();
        assert forall|j: int| 0 <= j < front.len() implies cite_of(#[trigger] front[j]) is Ok by {
            assert(front[j] == specs[j]);
        }
        lemma_fine_options(front);
        assert(cite_of(specs[specs.len() - 1]) is Ok);
    }
}

/// Every complaint about what should name a citation quotes it.
pub proof fn law_a_complaint_quotes(s: Seq<char>)
    ensures
        cite_of(s) matches Err(m) ==> ("`"@ + s + "`: "@).is_prefix_of(m),
{
    reveal_strlit("`: expected `prefix:key`");
    reveal_strlit("`: empty citation prefix");
    reveal_strlit("`: empty citation key");
    reveal_strlit("`: ");
    reveal_strlit("`");
}

/// A complaint about a main file names the file and the first line that cannot stand there,
/// counted from one.
pub proof fn law_a_complaint_names_its_place(
    lines: Seq<Seq<u8>>,
    path: Seq<char>,
    start: Map<Seq<char>, RecordView>,
    i: int,
)
    requires
        0 <= i < lines.len(),
        forall|j: int| 0 <= j < i ==> can_stand(#[trigger] lines[j]),
        !can_stand(lines[i]),
    ensures
        read_main(lines, path, start) matches Err(m) && (path + ": line "@ + decimal(
            (i + 1) as nat,
        )).is_prefix_of(m),
    decreases lines.len(),
{
    let front = lines.drop_last();
    if i < lines.len() - 1 {
        assert forall|j: int| 0 <= j < i implies can_stand(#[trigger] front[j]) by {
            assert(front[j] == lines[j]);
        }
        assert(front[i] == lines[i]);
        law_a_complaint_names_its_place(front, path, start, i);
    } else {
        assert forall|j: int| 0 <= j < front.len() implies can_stand(#[trigger] front[j]) by {
            assert(front[j] == lines[j]);
        }
        crate::laws::cachefile::law_every_line_of_a_main_file_counts(front, path, start);
    }
}

/// A file that cannot be read is complained about with what the parsers say.
pub proof fn law_a_complaint_says_why(bytes: Seq<u8>)
    requires
        parsed_meaning(json_parsed(bytes)) is Err,
        parsed_meaning(yaml_parsed(bytes)) is Err,
    ensures
        ({
            let json = "invalid JSON: "@ + parsed_meaning(json_parsed(bytes))->Err_0;
            let yaml = "invalid YAML: "@ + parsed_meaning(yaml_parsed(bytes))->Err_0;
            &&& in_format(Format::Json, bytes)->Err_0 == json
            &&& in_format(Format::Yaml, bytes)->Err_0 == yaml
            &&& in_format(Format::Auto, bytes)->Err_0 == "not parseable as JSON or YAML — "@ + json
                + "; "@ + yaml
        }),
{
}

/// A failure says of which citation and why, and what needed it if that is another one.
pub proof fn law_a_failure_says_what_needed_it(item: ItemView, error: ErrorView)
    ensures
        ({
            let line = failure_line(item.failure(error));
            let own = item.prefix + ":"@ + item.key + ": "@ + error_text(error);
            match item.origin {
                Some((p, k)) if p != item.prefix || k != item.key => line == own + " (needed by "@
                    + p + ":"@ + k + ")"@,
                _ => line == own,
            }
        }),
{
}

/// An error says what it is about.
pub proof fn law_errors_say_what_they_are_about(m: Seq<char>, status: u16)
    ensures
        error_text(ErrorView::UnknownPrefix(m)) == "no source registered for prefix `"@ + m + "`"@,
        error_text(ErrorView::NotFound(m)) == "citation `"@ + m + "` not found"@,
        error_text(ErrorView::Chain(m)) == "citation chain error: "@ + m,
        error_text(ErrorView::Store(m)) == "cache store error: "@ + m,
        error_text(ErrorView::Parse(m)) == "parse error: "@ + m,
        error_text(ErrorView::Source(m)) == "source error: "@ + m,
        error_text(ErrorView::InvalidPrefix(m)) == "invalid source prefix `"@ + m
            + "`: must be non-empty and contain no ':'"@,
        error_text(ErrorView::InvalidId(m)) == "malformed citation id `"@ + m
            + "`: expected `prefix:key`"@,
        error_text(ErrorView::Fetch(FetchErrorView::Transport(m))) == "fetch error: "@
            + ("transport: "@ + m),
        error_text(ErrorView::Fetch(FetchErrorView::Status(status))) == "fetch error: "@
            + ("http status "@ + decimal(status as nat)),
        error_text(ErrorView::Fetch(FetchErrorView::Other(m))) == "fetch error: "@ + m,
{
}

/// A prefix is one that ids can be split at again.
pub proof fn law_a_prefix_ends_at_the_first_colon(p: Seq<char>, i: int)
    ensures
        0 <= i < p.len() && p[i] == ':' ==> !valid_prefix(p),
        p.len() == 0 ==> !valid_prefix(p),
        p.len() > 0 && (forall|j: int| 0 <= j < p.len() ==> #[trigger] p[j] != ':') ==> valid_prefix(
            p,
        ),
{
}

/// Whether a line is told, behind the name of the program.
pub open spec fn is_told(level: u8, ev: Event<'_>, length: Seq<char>, text: Seq<char>) -> bool {
    line_for(level, ev, length) == Some("autocitefetch: "@ + text)
}

/// What is told of passes and sources: which one, and how much of it.
pub proof fn law_passes_are_told_in_numbers(
    level: u8,
    length: Seq<char>,
    prefix: &str,
    a: usize,
    b: usize,
    c: usize,
)
    requires
        level > 0,
    ensures
        is_told(
            level,
            Event::PassStarted { pass: a, cached: b, to_fetch: c },
            length,
            "pass "@ + decimal(a as nat) + ": "@ + decimal(b as nat) + " cached, "@ + decimal(
                c as nat,
            ) + " to fetch"@,
        ),
        b > 0 ==> is_told(
            level,
            Event::PassFinished { pass: a, discovered: b },
            length,
            "pass "@ + decimal(a as nat) + ": queued "@ + decimal(b as nat)
                + " chained citation(s)"@,
        ),
        is_told(
            level,
            Event::SourceStarted { prefix, keys: a, chunks: b },
            length,
            prefix@ + ": fetching "@ + decimal(a as nat) + " key(s) in "@ + decimal(b as nat)
                + " request(s)"@,
        ),
        is_told(
            level,
            Event::SourceProgress { prefix, done: a, total: b },
            length,
            prefix@ + ": "@ + decimal(a as nat) + "/"@ + decimal(b as nat),
        ),
        is_told(
            level,
            Event::SourceFinished { prefix, done: a },
            length,
            prefix@ + ": "@ + decimal(a as nat) + " key(s) done"@,
        ),
        is_told(
            level,
            Event::RetrieveFinished { considered: a, failed: b },
            length,
            "retrieval done: "@ + decimal(a as nat) + " citation(s) considered, "@ + decimal(
                b as nat,
            ) + " failed"@,
        ),
{
}

/// What is told of citations: what they were resolved into, or why an old copy stands in.
pub proof fn law_citations_are_told_by_name(
    level: u8,
    length: Seq<char>,
    prefix: &str,
    key: &str,
    p: &str,
    k: &str,
    err: &Error,
)
    ensures
        level >= 2 ==> is_told(
            level,
            Event::CiteResolved { prefix, key, how: Resolved::Concrete },
            length,
            prefix@ + ":"@ + key@ + ": resolved"@,
        ),
        level >= 2 ==> is_told(
            level,
            Event::CiteResolved { prefix, key, how: Resolved::Chained { prefix: p, key: k } },
            length,
            prefix@ + ":"@ + key@ + " -> "@ + p@ + ":"@ + k@,
        ),
        level >= 1 ==> is_told(
            level,
            Event::CiteFailed { prefix, key, err, grace_served: true },
            length,
            prefix@ + ":"@ + key@ + ": "@ + error_text(err@) + " — serving the cached copy"@,
        ),
{
}

/// What is told of requests and waits: for what, for how long, and which attempt it is,
/// counted from one.
pub proof fn law_requests_are_told_by_attempt(
    level: u8,
    length: Seq<char>,
    prefix: &str,
    url: &str,
    attempt: u32,
    status: u16,
    e: &FetchError,
    expected: Option<Duration>,
)
    requires
        level >= 2,
    ensures
        is_told(level, Event::RequestStarted { url, attempt: 0 }, length, "GET "@ + url@),
        attempt > 0 ==> is_told(
            level,
            Event::RequestStarted { url, attempt },
            length,
            "GET "@ + url@ + " (attempt "@ + decimal((attempt + 1) as nat) + ")"@,
        ),
        is_told(
            level,
            Event::RequestFinished { url, result: Ok(status) },
            length,
            decimal(status as nat) + " <- "@ + url@,
        ),
        is_told(
            level,
            Event::RequestFinished { url, result: Err(e) },
            length,
            "failed <- "@ + url@ + ": "@ + fetch_error_text(e@),
        ),
        is_told(
            level,
            Event::WaitStarted { what: Wait::RateLimit { prefix }, expected },
            length,
            prefix@ + ": waiting "@ + length + " (rate limit)"@,
        ),
        is_told(
            level,
            Event::WaitStarted { what: Wait::Backoff { url, attempt }, expected },
            length,
            "retrying "@ + url@ + " in "@ + length + " (attempt "@ + decimal((attempt + 2) as nat)
                + ")"@,
        ),
        is_told(
            level,
            Event::WaitStarted { what: Wait::CacheFlush, expected },
            length,
            "compacting the cache"@,
        ),
        is_told(
            level,
            Event::WaitFinished { what: Wait::RateLimit { prefix } },
            length,
            prefix@ + ": ...done waiting"@,
        ),
        is_told(
            level,
            Event::WaitFinished { what: Wait::Backoff { url, attempt } },
            length,
            "...retrying "@ + url@ + " now"@,
        ),
        is_told(
            level,
            Event::WaitFinished { what: Wait::CacheFlush },
            length,
            "...cache compacted"@,
        ),
{
}

} // verus!
