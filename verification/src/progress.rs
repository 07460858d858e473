//! Progress for people: a line for an event, at one of two levels of detail.
//!
//! Failures that a retrieval reports are not among the lines: they are printed with the
//! report. A failure in spite of which a record is served is, since nothing else says
//! so. Waits for a source are mentioned where they are long enough to look like a hang.

use crate::env::duration_nanos;
use crate::error::{error_text, joined};
use crate::fetch::fetch_error_text;
use crate::output::{message_line, program_line};
use crate::report::{Event, Resolved, Wait};
use crate::text::{decimal, decimal_text};
use crate::urls::begins;
use core::time::Duration;
use vstd::prelude::*;
use vstd::string::*;

verus! {

/// Tells people of progress.
pub struct StderrReporter {
    level: u8,
}

/// The length of a wait in nanoseconds; none where it is not known.
pub open spec fn wait_nanos(d: Option<Duration>) -> nat {
    match d {
        Some(d) => duration_nanos(d),
        None => 0,
    }
}

/// Whether a wait for a source is long enough to look like a hang.
pub open spec fn is_long(d: Option<Duration>) -> bool {
    wait_nanos(d) >= 2_000_000_000
}

/// The line for the beginning of a wait, whose length is given as a text.
pub open spec fn wait_line(
    detailed: bool,
    what: Wait<'_>,
    expected: Option<Duration>,
    length: Seq<char>,
) -> Option<Seq<char>> {
    match what {
        Wait::RateLimit { prefix } => if detailed || is_long(expected) {
            Some(prefix@ + ": waiting "@ + length + " (rate limit)"@)
        } else {
            None
        },
        Wait::Backoff { url, attempt } => Some(
            "retrying "@ + url@ + " in "@ + length + " (attempt "@ + decimal(
                (attempt + 2) as nat,
            ) + ")"@,
        ),
        Wait::CacheFlush => Some("compacting the cache"@),
    }
}

/// The line for the end of a wait.
pub open spec fn waited_line(what: Wait<'_>) -> Seq<char> {
    match what {
        Wait::RateLimit { prefix } => prefix@ + ": ...done waiting"@,
        Wait::Backoff { url, .. } => "...retrying "@ + url@ + " now"@,
        Wait::CacheFlush => "...cache compacted"@,
    }
}

/// What is told of an event, if anything is at this level. The length of a wait is given
/// as a text.
pub open spec fn told_of(level: u8, ev: Event<'_>, length: Seq<char>) -> Option<Seq<char>> {
    let detailed = level >= 2;
    if level == 0 {
        None
    } else {
        match ev {
            Event::RetrieveStarted { .. } => None,
            Event::PassStarted { pass, cached, to_fetch } => Some(
                "pass "@ + decimal(pass as nat) + ": "@ + decimal(cached as nat) + " cached, "@
                    + decimal(to_fetch as nat) + " to fetch"@,
            ),
            Event::PassFinished { pass, discovered } => if discovered > 0 {
                Some(
                    "pass "@ + decimal(pass as nat) + ": queued "@ + decimal(discovered as nat)
                        + " chained citation(s)"@,
                )
            } else {
                None
            },
            Event::SourceStarted { prefix, keys, chunks } => Some(
                prefix@ + ": fetching "@ + decimal(keys as nat) + " key(s) in "@ + decimal(
                    chunks as nat,
                ) + " request(s)"@,
            ),
            Event::SourceProgress { prefix, done, total } => Some(
                prefix@ + ": "@ + decimal(done as nat) + "/"@ + decimal(total as nat),
            ),
            Event::SourceFinished { prefix, done } => Some(
                prefix@ + ": "@ + decimal(done as nat) + " key(s) done"@,
            ),
            Event::CiteResolved { prefix, key, how } => if !detailed {
                None
            } else {
                match how {
                    Resolved::Concrete => Some(prefix@ + ":"@ + key@ + ": resolved"@),
                    Resolved::Chained { prefix: p, key: k } => Some(
                        prefix@ + ":"@ + key@ + " -> "@ + p@ + ":"@ + k@,
                    ),
                }
            },
            Event::CiteFailed { prefix, key, err, grace_served } => if grace_served {
                Some(
                    prefix@ + ":"@ + key@ + ": "@ + error_text(err@)
                        + " — serving the cached copy"@,
                )
            } else {
                None
            },
            Event::WaitStarted { what, expected } => wait_line(detailed, what, expected, length),
            Event::WaitFinished { what } => if detailed {
                Some(waited_line(what))
            } else {
                None
            },
            Event::RequestStarted { url, attempt } => if !detailed {
                None
            } else if attempt == 0 {
                Some("GET "@ + url@)
            } else {
                Some("GET "@ + url@ + " (attempt "@ + decimal((attempt + 1) as nat) + ")"@)
            },
            Event::RequestFinished { url, result } => if !detailed {
                None
            } else {
                match result {
                    Ok(status) => Some(decimal(status as nat) + " <- "@ + url@),
                    Err(e) => Some("failed <- "@ + url@ + ": "@ + fetch_error_text(e@)),
                }
            },
            Event::RetrieveFinished { considered, failed } => Some(
                "retrieval done: "@ + decimal(considered as nat) + " citation(s) considered, "@
                    + decimal(failed as nat) + " failed"@,
            ),
        }
    }
}

/// The line for an event, if there is one at this level: the name of the program, and
/// what is told.
pub open spec fn line_for(level: u8, ev: Event<'_>, length: Seq<char>) -> Option<Seq<char>> {
    match told_of(level, ev, length) {
        Some(text) => Some(program_line(text)),
        None => None,
    }
}

/// A line that may be absent, by its meaning.
pub open spec fn line_view(s: Option<String>) -> Option<Seq<char>> {
    match s {
        Some(t) => Some(t@),
        None => None,
    }
}

/// A number in decimal notation.
fn number(n: usize) -> (r: String)
    ensures
        r@ == decimal(n as nat),
{
    decimal_text(n as u64)
}

/// The line for the beginning of a wait.
fn waiting(detailed: bool, what: &Wait<'_>, expected: &Option<Duration>, length: &str) -> (r: Option<
    String,
>)
    ensures
        line_view(r) == wait_line(detailed, *what, *expected, length@),
{
    match what {
        Wait::RateLimit { prefix } => {
            let long = match expected {
                Some(d) => d.as_nanos() >= 2_000_000_000,
                None => false,
            };
            if detailed || long {
                Some(joined(prefix, ": waiting ", length).concat(" (rate limit)"))
            } else {
                None
            }
        },
        Wait::Backoff { url, attempt } => {
            let n = decimal_text(*attempt as u64 + 2);
            Some(
                joined("retrying ", url, " in ").concat(length).concat(" (attempt ").concat(
                    n.as_str(),
                ).concat(")"),
            )
        },
        Wait::CacheFlush => Some("compacting the cache".to_owned()),
    }
}

/// The line for the end of a wait.
fn waited(what: &Wait<'_>) -> (r: String)
    ensures
        r@ == waited_line(*what),
{
    match what {
        Wait::RateLimit { prefix } => {
            let p: &str = prefix;
            p.to_owned().concat(": ...done waiting")
        },
        Wait::Backoff { url, .. } => joined("...retrying ", url, " now"),
        Wait::CacheFlush => "...cache compacted".to_owned(),
    }
}

impl StderrReporter {
    /// How much is told: nothing, milestones, or everything.
    pub closed spec fn detail(self) -> u8 {
        self.level
    }

    /// A reporter for a level of detail.
    pub fn new(level: u8) -> (r: Self)
        ensures
            r.detail() == level,
    {
        StderrReporter { level }
    }

    /// The line for an event, if there is one. The length of a wait is given as a text.
    pub fn line(&self, ev: &Event<'_>, length: &str) -> (r: Option<String>)
        ensures
            line_view(r) == line_for(self.detail(), *ev, length@),
    {
        match self.told(ev, length) {
            Some(text) => Some(message_line(text.as_str())),
            None => None,
        }
    }

    /// What is told of an event, if anything is.
    fn told(&self, ev: &Event<'_>, length: &str) -> (r: Option<String>)
        ensures
            line_view(r) == told_of(self.detail(), *ev, length@),
    {
        if self.level == 0 {
            return None;
        }
        let detailed = self.level >= 2;
        match ev {
            Event::RetrieveStarted { .. } => None,
            Event::PassStarted { pass, cached, to_fetch } => Some(
                joined("pass ", number(*pass).as_str(), ": ").concat(
                    number(*cached).as_str(),
                ).concat(" cached, ").concat(number(*to_fetch).as_str()).concat(" to fetch"),
            ),
            Event::PassFinished { pass, discovered } => {
                if *discovered > 0 {
                    Some(
                        joined("pass ", number(*pass).as_str(), ": queued ").concat(
                            number(*discovered).as_str(),
                        ).concat(" chained citation(s)"),
                    )
                } else {
                    None
                }
            },
            Event::SourceStarted { prefix, keys, chunks } => Some(
                joined(prefix, ": fetching ", number(*keys).as_str()).concat(" key(s) in ").concat(
                    number(*chunks).as_str(),
                ).concat(" request(s)"),
            ),
            Event::SourceProgress { prefix, done, total } => Some(
                joined(prefix, ": ", number(*done).as_str()).concat("/").concat(
                    number(*total).as_str(),
                ),
            ),
            Event::SourceFinished { prefix, done } => Some(
                joined(prefix, ": ", number(*done).as_str()).concat(" key(s) done"),
            ),
            Event::CiteResolved { prefix, key, how } => {
                if !detailed {
                    return None;
                }
                match how {
                    Resolved::Concrete => Some(joined(prefix, ":", key).concat(": resolved")),
                    Resolved::Chained { prefix: p, key: k } => Some(
                        joined(prefix, ":", key).concat(" -> ").concat(p).concat(":").concat(k),
                    ),
                }
            },
            Event::CiteFailed { prefix, key, err, grace_served } => {
                if *grace_served {
                    Some(
                        joined(prefix, ":", key).concat(": ").concat(
                            err.message().as_str(),
                        ).concat(" — serving the cached copy"),
                    )
                } else {
                    None
                }
            },
            Event::WaitStarted { what, expected } => waiting(detailed, what, expected, length),
            Event::WaitFinished { what } => {
                if detailed {
                    Some(waited(what))
                } else {
                    None
                }
            },
            Event::RequestStarted { url, attempt } => {
                if !detailed {
                    None
                } else if *attempt == 0 {
                    Some("GET ".to_owned().concat(url))
                } else {
                    let n = decimal_text(*attempt as u64 + 1);
                    Some(joined("GET ", url, " (attempt ").concat(n.as_str()).concat(")"))
                }
            },
            Event::RequestFinished { url, result } => {
                if !detailed {
                    return None;
                }
                match result {
                    Ok(status) => Some(
                        decimal_text(*status as u64).concat(" <- ").concat(url),
                    ),
                    Err(e) => Some(
                        joined("failed <- ", url, ": ").concat(e.message().as_str()),
                    ),
                }
            },
            Event::RetrieveFinished { considered, failed } => Some(
                joined(
                    "retrieval done: ",
                    number(*considered).as_str(),
                    " citation(s) considered, ",
                ).concat(number(*failed).as_str()).concat(" failed"),
            ),
        }
    }
}

/// Without a level nothing is told; each level tells what the one below it tells, in the
/// same words; and beyond the second there is no more to tell.
pub proof fn law_levels_add(level: u8, ev: Event<'_>, length: Seq<char>)
    ensures
        line_for(0, ev, length) is None,
        line_for(1, ev, length) is Some ==> line_for(2, ev, length) == line_for(1, ev, length),
        level >= 2 ==> line_for(level, ev, length) == line_for(2, ev, length),
{
}

/// Of a failure people are told exactly where a record is served in spite of it.
pub proof fn law_failures_are_told_where_a_copy_is_served(
    level: u8,
    ev: Event<'_>,
    length: Seq<char>,
)
    requires
        ev is CiteFailed,
    ensures
        line_for(level, ev, length) is Some <==> level >= 1 && ev->grace_served,
{
}

/// Every line begins with the name of the program.
pub proof fn law_lines_name_the_program(level: u8, ev: Event<'_>, length: Seq<char>)
    ensures
        line_for(level, ev, length) matches Some(line) ==> begins(line, "autocitefetch: "@),
{
    if let Some(text) = told_of(level, ev, length) {
        let name = "autocitefetch: "@;
        assert((name + text).take(name.len() as int) =~= name);
    }
}

} // verus!
