//! When and how long to wait before a fetch is tried again.
//!
//! Retryable failures of transport and retryable HTTP statuses are tried again
//! after a wait that doubles from one try to the next, plus a jitter that a hash
//! of the URL and the attempt seeds. Everything else passes through.

use crate::env::{duration_millis, duration_nanos};
use crate::fetch::{
    header_value, is_retryable_status, retryable, retryable_status, FetchError, Response,
};
use crate::hash::{fnv, fnv1a, fnv1a_continue, le_bytes, low_bytes, FNV_OFFSET};
use crate::text::{parse_unsigned, trim, trimmed, unsigned};
use core::time::Duration;
use vstd::prelude::*;
use vstd::string::*;
use vstd::utf8::encode_utf8;

verus! {

/// How often and after which waits a fetch is tried again.
#[derive(Clone, Copy, Debug)]
pub struct RetryPolicy {
    /// How many tries may follow the first.
    pub max_retries: u32,
    /// The wait before the first further try; it doubles from there.
    pub base: Duration,
    /// Upper bound on any single wait.
    pub cap: Duration,
    /// Whether a numeric `Retry-After` header is taken for the wait, within
    /// `base` and `cap`.
    pub honor_retry_after: bool,
}

impl Default for RetryPolicy {
    fn default() -> (r: Self)
        ensures
            r.max_retries == 5,
            duration_millis(r.base) == 500,
            duration_millis(r.cap) == 30_000,
            r.honor_retry_after,
    {
        RetryPolicy {
            max_retries: 5,
            base: Duration::from_millis(500),
            cap: Duration::from_secs(30),
            honor_retry_after: true,
        }
    }
}

/// Two to the power of `n`.
pub open spec fn power_of_two(n: nat) -> nat
    decreases n,
{
    if n == 0 {
        1
    } else {
        2 * power_of_two((n - 1) as nat)
    }
}

/// By how much the base wait is multiplied after the given attempt.
pub open spec fn factor(attempt: nat) -> nat {
    if attempt < 32 {
        power_of_two(attempt)
    } else {
        u32::MAX as nat
    }
}

pub open spec fn lesser(a: nat, b: nat) -> nat {
    if a < b {
        a
    } else {
        b
    }
}

pub open spec fn greater(a: nat, b: nat) -> nat {
    if a < b {
        b
    } else {
        a
    }
}

/// The wait after the given attempt, in milliseconds, before any jitter.
pub open spec fn nominal_millis(policy: RetryPolicy, attempt: nat) -> nat {
    lesser(
        lesser(duration_nanos(policy.base) * factor(attempt), duration_nanos(policy.cap)) / 1_000_000,
        u64::MAX as nat,
    )
}

/// The longest wait that the policy allows, in milliseconds.
pub open spec fn cap_millis(policy: RetryPolicy) -> nat {
    lesser(duration_millis(policy.cap), u64::MAX as nat)
}

/// The hash that seeds the jitter of a wait.
pub open spec fn seed_of(url: Seq<char>, attempt: u32) -> u64 {
    fnv(fnv(FNV_OFFSET, encode_utf8(url)), le_bytes(attempt as nat, 4))
}

/// The wait after the given attempt, in milliseconds: the nominal one plus up to a
/// quarter of it, the whole moved down where it would exceed the cap.
pub open spec fn jittered_millis(policy: RetryPolicy, url: Seq<char>, attempt: u32) -> nat {
    let nominal = nominal_millis(policy, attempt as nat);
    let quarter = nominal / 4;
    let start = lesser(nominal, (cap_millis(policy) - quarter) as nat);
    start + seed_of(url, attempt) as nat % (quarter + 1)
}

/// The wait after the given attempt, in nanoseconds. `retry_after` is what the
/// server asked for.
pub open spec fn wait_nanos(
    policy: RetryPolicy,
    url: Seq<char>,
    attempt: u32,
    retry_after: Option<nat>,
) -> nat {
    if policy.honor_retry_after && retry_after is Some {
        lesser(
            greater(retry_after->Some_0, duration_nanos(policy.base)),
            duration_nanos(policy.cap),
        )
    } else {
        jittered_millis(policy, url, attempt) * 1_000_000
    }
}

/// What the server asks for in its `Retry-After` header, in nanoseconds. Only a
/// number of seconds counts.
pub open spec fn asked_nanos(resp: Response) -> Option<nat> {
    match header_value(resp.headers, "retry-after"@) {
        Some(v) => match parse_unsigned(trim(v), u64::MAX as nat) {
            Some(secs) => Some((secs * 1_000_000_000) as nat),
            None => None,
        },
        None => None,
    }
}

/// The length of a duration that may be absent.
pub open spec fn opt_nanos(d: Option<Duration>) -> Option<nat> {
    match d {
        Some(d) => Some(duration_nanos(d)),
        None => None,
    }
}

/// Reads the number of seconds in a `Retry-After` header.
pub fn parse_retry_after(resp: &Response) -> (r: Option<Duration>)
    ensures
        opt_nanos(r) == asked_nanos(*resp),
{
    match resp.header("retry-after") {
        Some(v) => {
            let t = trimmed(v);
            match unsigned(t.as_str(), u64::MAX) {
                Some(secs) => Some(Duration::from_secs(secs)),
                None => None,
            }
        },
        None => None,
    }
}

/// The hash of the URL and the attempt.
fn seed(url: &str, attempt: u32) -> (r: u64)
    ensures
        r == seed_of(url@, attempt),
{
    let h: u64 = fnv1a(url.as_bytes());
    let tail = low_bytes(attempt as u64, 4);
    fnv1a_continue(h, tail.as_slice())
}

proof fn lemma_power(n: nat)
    requires
        n < 32,
    ensures
        1 <= power_of_two(n) <= 0x8000_0000,
        n <= 30 ==> power_of_two(n) <= 0x4000_0000,
{
    reveal_with_fuel(power_of_two, 33);
}

fn factor_of(attempt: u32) -> (r: u32)
    ensures
        r == factor(attempt as nat),
{
    if attempt >= 32 {
        return u32::MAX;
    }
    let mut f: u32 = 1;
    let mut k: u32 = 0;
    while k < attempt
        invariant
            k <= attempt < 32,
            f == power_of_two(k as nat),
        decreases attempt - k,
    {
        proof {
            lemma_power(k as nat);
            lemma_power((k + 1) as nat);
        }
        f = f * 2;
        k += 1;
    }
    f
}

fn millis_of(nanos: u128) -> (r: u64)
    ensures
        r == lesser((nanos / 1_000_000) as nat, u64::MAX as nat),
{
    let ms: u128 = nanos / 1_000_000;
    if ms < u64::MAX as u128 {
        ms as u64
    } else {
        u64::MAX
    }
}

impl RetryPolicy {
    /// The wait before the try that follows `attempt` (counted from zero).
    pub fn backoff(&self, url: &str, attempt: u32, retry_after: Option<Duration>) -> (r: Duration)
        ensures
            duration_nanos(r) == wait_nanos(*self, url@, attempt, opt_nanos(retry_after)),
    {
        let base: u128 = self.base.as_nanos();
        let cap: u128 = self.cap.as_nanos();
        if self.honor_retry_after {
            if let Some(asked) = retry_after {
                let n: u128 = asked.as_nanos();
                let at_least = if n < base { self.base } else { asked };
                let m: u128 = if n < base { base } else { n };
                return if m < cap { at_least } else { self.cap };
            }
        }
        let f: u32 = factor_of(attempt);
        let grown: u128 = match base.checked_mul(f as u128) {
            Some(n) => if n < cap { n } else { cap },
            None => cap,
        };
        let nominal: u64 = millis_of(grown);
        let limit: u64 = millis_of(cap);
        proof {
            assert(grown as nat == lesser(
                duration_nanos(self.base) * factor(attempt as nat),
                duration_nanos(self.cap),
            ));
            assert(grown / 1_000_000 <= cap / 1_000_000);
        }
        let quarter: u64 = nominal / 4;
        let start: u64 = if nominal < limit - quarter { nominal } else { limit - quarter };
        let span: u64 = quarter + 1;
        let jitter: u64 = seed(url, attempt) % span;
        Duration::from_millis(start + jitter)
    }

    /// Whether to try again after this response, and after which wait.
    pub fn after_response(&self, url: &str, attempt: u32, resp: &Response) -> (r: Option<Duration>)
        ensures
            opt_nanos(r) == (if attempt < self.max_retries && retryable_status(resp.status) {
                Some(wait_nanos(*self, url@, attempt, asked_nanos(*resp)))
            } else {
                None
            }),
    {
        if attempt < self.max_retries && is_retryable_status(resp.status) {
            let asked = if self.honor_retry_after { parse_retry_after(resp) } else { None };
            Some(self.backoff(url, attempt, asked))
        } else {
            None
        }
    }

    /// Whether to try again after this failure, and after which wait.
    pub fn after_error(&self, url: &str, attempt: u32, error: &FetchError) -> (r: Option<Duration>)
        ensures
            opt_nanos(r) == (if attempt < self.max_retries && retryable(error@) {
                Some(wait_nanos(*self, url@, attempt, None))
            } else {
                None
            }),
    {
        if attempt < self.max_retries && error.is_retryable() {
            Some(self.backoff(url, attempt, None))
        } else {
            None
        }
    }
}

/// The wait that follows the reply to a try, if another try follows.
pub open spec fn wait_after(
    policy: RetryPolicy,
    url: Seq<char>,
    attempt: u32,
    reply: Result<Response, FetchError>,
) -> Option<nat> {
    let again = attempt < policy.max_retries && match reply {
        Ok(resp) => retryable_status(resp.status),
        Err(e) => retryable(e@),
    };
    if again {
        Some(
            wait_nanos(
                policy,
                url,
                attempt,
                match reply {
                    Ok(resp) => asked_nanos(resp),
                    Err(_) => None,
                },
            ),
        )
    } else {
        None
    }
}

/// A request that is tried until it is answered or given up.
pub struct Attempts {
    attempt: u32,
}

impl Attempts {
    /// How many tries came before the present one.
    pub closed spec fn count(self) -> u32 {
        self.attempt
    }

    /// Before the first try.
    pub fn new() -> (r: Self)
        ensures
            r.count() == 0,
    {
        Attempts { attempt: 0 }
    }

    /// How many tries came before the present one.
    pub fn attempt(&self) -> (r: u32)
        ensures
            r == self.count(),
    {
        self.attempt
    }

    /// After which wait the request is tried again, given the reply to the present try.
    /// Nothing, if the reply is what the request comes to.
    pub fn after(
        &mut self,
        policy: &RetryPolicy,
        url: &str,
        reply: &Result<Response, FetchError>,
    ) -> (r: Option<Duration>)
        ensures
            opt_nanos(r) == wait_after(*policy, url@, old(self).count(), *reply),
            r is Some ==> final(self).count() == old(self).count() + 1 && final(self).count()
                <= policy.max_retries,
            r is None ==> final(self).count() == old(self).count(),
    {
        let wait = match reply {
            Ok(resp) => policy.after_response(url, self.attempt, resp),
            Err(e) => policy.after_error(url, self.attempt, e),
        };
        if wait.is_some() {
            self.attempt = self.attempt + 1;
        }
        wait
    }
}

/// No wait is longer than the cap; where the policy has a server's wish honored,
/// the wait is no shorter than the base either, if the cap allows.
pub proof fn law_wait_is_bounded(
    policy: RetryPolicy,
    url: Seq<char>,
    attempt: u32,
    retry_after: Option<nat>,
)
    ensures
        wait_nanos(policy, url, attempt, retry_after) <= duration_nanos(policy.cap),
        policy.honor_retry_after && retry_after is Some && duration_nanos(policy.base)
            <= duration_nanos(policy.cap) ==> duration_nanos(policy.base) <= wait_nanos(
            policy,
            url,
            attempt,
            retry_after,
        ),
{
    let nominal = nominal_millis(policy, attempt as nat);
    assert(nominal <= cap_millis(policy));
}

/// A wait that was not asked for differs from the nominal one by at most a quarter
/// of it: upwards, and downwards only as far as the cap makes room for the jitter.
pub proof fn law_jitter_survives_the_cap(policy: RetryPolicy, url: Seq<char>, attempt: u32)
    ensures
        ({
            let nominal = nominal_millis(policy, attempt as nat);
            let wait = jittered_millis(policy, url, attempt);
            &&& nominal - nominal / 4 <= wait <= nominal + nominal / 4
            &&& nominal + nominal / 4 <= cap_millis(policy) ==> nominal <= wait
        }),
{
    let nominal = nominal_millis(policy, attempt as nat);
    assert(nominal <= cap_millis(policy));
}

} // verus!
