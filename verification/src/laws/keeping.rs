//! How long records are kept, how retries wait, and what the draws are made of.

use crate::cache::{
    at_most_100, expiries, freshness, hard_millis, id_hash, law_jitter_is_bounded, percent, refetch,
    within_grace, Freshness, TtlPolicy,
};
use crate::env::{clamp, duration_millis, duration_nanos, later, reading};
use crate::fetch::{first_header, header_value, FetchError, Response};
use crate::hash::{fnv, le_bytes};
use crate::index::TextMap;
use crate::retry::{
    asked_nanos, nominal_millis, power_of_two, wait_after, wait_nanos, RetryPolicy,
};
use crate::text::{lower, parse_unsigned, trim};
use core::time::Duration;
use vstd::prelude::*;
use vstd::string::*;
use vstd::utf8::encode_utf8;

verus! {

/// Where a lifetime ends within its jitter is drawn from the entry's id: by its hash, out of
/// all milliseconds in question.
pub proof fn law_the_jitter_is_drawn_from_the_id(
    policy: TtlPolicy,
    now: int,
    ttl: Duration,
    id: Seq<char>,
)
    requires
        i64::MIN <= now,
        0 < 2 * duration_millis(ttl) <= i64::MAX,
        now + 2 * duration_millis(ttl) <= i64::MAX,
        policy.jitter_percent <= 100,
    ensures
        ({
            let d = duration_millis(ttl) as int;
            let span = d * policy.jitter_percent / 100;
            expiries(policy, now, ttl, id).1 == now + d - span + fnv(
                0xcbf2_9ce4_8422_2325,
                encode_utf8(id),
            ) as int % (2 * span + 1)
        }),
{
    let d = duration_millis(ttl) as int;
    let j = policy.jitter_percent as int;
    assert(0 <= d * j / 100 <= d) by (nonlinear_arith)
        requires
            0 < d,
            0 <= j <= 100,
    ;
    let span = d * j / 100;
    let h = fnv(0xcbf2_9ce4_8422_2325, encode_utf8(id)) as int;
    assert(0 <= h % (2 * span + 1) <= 2 * span) by (nonlinear_arith)
        requires
            0 <= span,
            0 <= h,
    ;
    law_jitter_is_bounded(d, j, h);
    assert(h == id_hash(id) as int);
    assert(duration_nanos(ttl) != 0);
    assert(clamp(d) == d);
    assert(percent(d, at_most_100(j)) == span);
    let hard = hard_millis(d, j, h);
    assert(hard == d - span + h % (2 * span + 1));
    assert(later(now, hard as nat) == now + hard);
}

/// A hash takes one byte after another: it is mixed in by exclusive or, and the result is
/// multiplied, modulo 2^64.
pub proof fn law_a_hash_takes_byte_after_byte(h: u64, s: Seq<u8>, b: u8)
    ensures
        fnv(h, Seq::empty()) == h,
        fnv(h, s.push(b)) as int == ((fnv(h, s) ^ (b as u64)) as int * 0x0000_0100_0000_01b3)
            % 0x1_0000_0000_0000_0000,
{
    assert(s.push(b).drop_last() =~= s);
}

/// A number is made of its bytes, the lowest first.
pub proof fn law_bytes_have_their_places(x: nat, n: nat)
    requires
        n > 0,
    ensures
        le_bytes(x, n).len() == n,
        le_bytes(x, n)[0] == x % 256,
        le_bytes(x, n).skip(1) == le_bytes(x / 256, (n - 1) as nat),
    decreases n,
{
    if n > 1 {
        law_bytes_have_their_places(x / 256, (n - 1) as nat);
    }
    assert(le_bytes(x, n).skip(1) =~= le_bytes(x / 256, (n - 1) as nat));
}

/// A stale record is fetched again if its draw, out of 2^64, falls below the part of its
/// stale window that is over; the draw depends on the id and the time alone.
pub proof fn law_a_stale_record_is_drawn(stale_after: int, expires: int, now: int, id: Seq<char>)
    requires
        stale_after <= now < expires,
        expires - stale_after <= i64::MAX,
        i64::MIN <= now <= i64::MAX,
    ensures
        refetch(stale_after, expires, now, id) <==> fnv(
            fnv(0xcbf2_9ce4_8422_2325, encode_utf8(id)),
            le_bytes(
                (if now >= 0 {
                    now
                } else {
                    now + 0x1_0000_0000_0000_0000
                }) as nat,
                8,
            ),
        ) as int * (expires - stale_after) < (now - stale_after) * 0x1_0000_0000_0000_0000,
        freshness(stale_after, expires, now) == Freshness::Stale,
{
}

/// A record is tolerated for its grace, counted from its hard expiry.
pub proof fn law_grace_is_counted_from_the_hard_expiry(expires: int, grace: Duration, now: int)
    requires
        i64::MIN <= expires,
        duration_millis(grace) <= i64::MAX,
        expires + duration_millis(grace) <= i64::MAX,
    ensures
        within_grace(expires, grace, now) <==> now < expires + duration_millis(grace),
{
}

/// Times do not run out of range: a later time is later by as much as is asked for, or the
/// latest there is.
pub proof fn law_later_is_later(t: int, millis: nat, n: int)
    requires
        i64::MIN <= t <= i64::MAX,
    ensures
        t <= later(t, millis) <= i64::MAX,
        millis <= i64::MAX && t + millis <= i64::MAX ==> later(t, millis) == t + millis,
        i64::MIN <= clamp(n) <= i64::MAX,
        i64::MIN <= n <= i64::MAX ==> clamp(n) == n,
        n > i64::MAX ==> clamp(n) == i64::MAX,
        n < i64::MIN ==> clamp(n) == i64::MIN,
        t + millis > i64::MAX ==> later(t, millis) == i64::MAX || millis > i64::MAX,
{
}

/// Whether a status is one of an overload or an outage.
pub open spec fn is_passing(status: u16) -> bool {
    status == 429 || status == 500 || status == 502 || status == 503 || status == 504
}

/// A request is tried again after a reply of an overload or an outage, and after a failure
/// of transport, as often as the policy allows, and after nothing else.
pub proof fn law_what_may_pass_is_tried_again(
    policy: RetryPolicy,
    url: Seq<char>,
    attempt: u32,
    reply: Result<Response, FetchError>,
)
    ensures
        wait_after(policy, url, attempt, reply) is Some <==> attempt < policy.max_retries
            && match reply {
            Ok(resp) => is_passing(resp.status),
            Err(FetchError::Transport(_)) => true,
            Err(FetchError::Status(s)) => is_passing(s),
            Err(FetchError::Other(_)) => false,
        },
        wait_after(policy, url, attempt, reply) matches Some(n) ==> n == wait_nanos(
            policy,
            url,
            attempt,
            match reply {
                Ok(resp) => asked_nanos(resp),
                Err(_) => None,
            },
        ),
{
}

/// The wait doubles with each try, from the base up to the cap, and has up to a quarter of
/// it on top, drawn from the URL and the try.
pub proof fn law_waits_double(policy: RetryPolicy, url: Seq<char>, attempt: u32, millis: nat)
    requires
        attempt < 32,
        duration_nanos(policy.base) * power_of_two(attempt as nat) == millis * 1_000_000,
        5 * millis * 1_000_000 <= 4 * duration_nanos(policy.cap),
        millis + millis / 4 <= u64::MAX,
    ensures
        power_of_two(0) == 1,
        power_of_two((attempt + 1) as nat) == 2 * power_of_two(attempt as nat),
        wait_nanos(policy, url, attempt, None) == (millis + fnv(
            fnv(0xcbf2_9ce4_8422_2325, encode_utf8(url)),
            le_bytes(attempt as nat, 4),
        ) as nat % (millis / 4 + 1)) * 1_000_000,
{
    let n = nominal_millis(policy, attempt as nat);
    assert(n == millis);
}

/// What a server asks for is waited for, exactly, where it lies between the base and the
/// cap and the policy honors it; a shorter wish is waited for as long as the base, and a
/// longer one as long as the cap.
pub proof fn law_a_wish_is_honored(policy: RetryPolicy, url: Seq<char>, attempt: u32, asked: nat)
    requires
        duration_nanos(policy.base) <= duration_nanos(policy.cap),
    ensures
        policy.honor_retry_after ==> wait_nanos(policy, url, attempt, Some(asked)) == (if asked
            < duration_nanos(policy.base) {
            duration_nanos(policy.base)
        } else if asked > duration_nanos(policy.cap) {
            duration_nanos(policy.cap)
        } else {
            asked
        }),
        !policy.honor_retry_after ==> wait_nanos(policy, url, attempt, Some(asked)) == wait_nanos(
            policy,
            url,
            attempt,
            None,
        ),
{
}

/// The wish of a server is the number of seconds in its `Retry-After` header.
pub proof fn law_a_wish_is_a_number_of_seconds(resp: Response)
    ensures
        match header_value(resp.headers, "retry-after"@) {
            Some(v) => match parse_unsigned(trim(v), u64::MAX as nat) {
                Some(n) => asked_nanos(resp) == Some((n * 1_000_000_000) as nat),
                None => asked_nanos(resp) is None,
            },
            None => asked_nanos(resp) is None,
        },
{
}

/// A header is found whatever the case of its name: there is a value for it if and only if
/// there is a header whose name differs from it in case at most, and then it is the value of
/// such a one.
pub proof fn law_the_case_of_a_header_does_not_count(headers: TextMap<String>, name: Seq<char>)
    ensures
        headers@.contains_key(lower(name)) ==> header_value(headers, name) == Some(
            headers@[lower(name)]@,
        ),
        !headers@.contains_key(lower(name)) ==> match header_value(headers, name) {
            Some(v) => exists|i: int|
                0 <= i < headers.pairs().len() && lower((#[trigger] headers.pairs()[i]).0) == lower(
                    name,
                ) && headers.pairs()[i].1@ == v,
            None => forall|i: int|
                0 <= i < headers.pairs().len() ==> lower((#[trigger] headers.pairs()[i]).0)
                    != lower(name),
        },
{
    lemma_first_header(headers.pairs(), name);
}

proof fn lemma_first_header(pairs: Seq<(Seq<char>, String)>, name: Seq<char>)
    ensures
        match first_header(pairs, name) {
            Some(v) => exists|i: int|
                0 <= i < pairs.len() && lower((#[trigger] pairs[i]).0) == lower(name)
                    && pairs[i].1@ == v,
            None => forall|i: int|
                0 <= i < pairs.len() ==> lower((#[trigger] pairs[i]).0) != lower(name),
        },
    decreases pairs.len(),
{
    if pairs.len() > 0 {
        let rest = pairs.skip(1);
        lemma_first_header(rest, name);
        if lower(pairs[0].0) != lower(name) {
            match first_header(rest, name) {
                Some(v) => {
                    let i = choose|i: int|
                        0 <= i < rest.len() && lower((#[trigger] rest[i]).0) == lower(name)
                            && rest[i].1@ == v;
                    assert(pairs[i + 1] == rest[i]);
                },
                None => {
                    assert forall|i: int| 0 <= i < pairs.len() implies lower(
                        (#[trigger] pairs[i]).0,
                    ) != lower(name) by {
                        if i > 0 {
                            assert(rest[i - 1] == pairs[i]);
                        }
                    }
                },
            }
        }
    }
}

/// Percentages end at a hundred.
pub proof fn law_percentages_end_at_a_hundred(
    policy: TtlPolicy,
    full: TtlPolicy,
    now: int,
    ttl: Duration,
    id: Seq<char>,
)
    requires
        policy.jitter_percent == full.jitter_percent || (policy.jitter_percent > 100
            && full.jitter_percent == 100),
        policy.stale_percent == full.stale_percent || (policy.stale_percent > 100
            && full.stale_percent == 100),
    ensures
        expiries(policy, now, ttl, id) == expiries(full, now, ttl, id),
{
}

/// What has no lifetime at all expires at once.
pub proof fn law_without_a_lifetime_it_expires_at_once(
    policy: TtlPolicy,
    now: int,
    ttl: Duration,
    id: Seq<char>,
)
    requires
        duration_nanos(ttl) == 0,
    ensures
        expiries(policy, now, ttl, id) == (now, now),
{
}

/// Once doubling has reached the cap, the wait is drawn from the last quarter before the cap,
/// whatever the attempt.
pub proof fn law_waits_end_at_the_cap(policy: RetryPolicy, url: Seq<char>, attempt: u32, cap: nat)
    requires
        attempt < 32,
        duration_nanos(policy.base) * power_of_two(attempt as nat) >= duration_nanos(policy.cap),
        duration_nanos(policy.cap) == cap * 1_000_000,
        cap <= u64::MAX,
    ensures
        wait_nanos(policy, url, attempt, None) == (cap - cap / 4 + fnv(
            fnv(0xcbf2_9ce4_8422_2325, encode_utf8(url)),
            le_bytes(attempt as nat, 4),
        ) as nat % (cap / 4 + 1)) * 1_000_000,
{
    assert(nominal_millis(policy, attempt as nat) == cap);
}

/// A clock shows the milliseconds since the epoch, and none before it.
pub proof fn law_a_clock_counts_from_the_epoch(d: Duration)
    ensures
        reading(None) == 0,
        duration_millis(d) <= i64::MAX ==> reading(Some(d)) == duration_nanos(d) / 1_000_000,
{
}

} // verus!
