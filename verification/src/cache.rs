//! Cache lifetimes: soft and hard expiry, deterministic jitter, and the decision
//! what to fetch again.
//!
//! In the stale window between soft and hard expiry an entry is fetched again by
//! a draw, more likely the closer it is to hard expiry. The draw is a hash of the
//! id and the time, so that it is the same within a pass and another one later.

use crate::env::{
    add_clamped, clamp, duration_millis, duration_nanos, later, millis_i64, sub_clamped, Timestamp,
};
use crate::hash::{fnv, fnv1a, fnv1a_continue, le_bytes, low_bytes, FNV_OFFSET};
use crate::store::{CacheRecord, Payload};
use core::time::Duration;
use vstd::prelude::*;
use vstd::string::*;
use vstd::utf8::encode_utf8;

verus! {

/// How a cached entry stands relative to now.
#[derive(Clone, Copy, Debug, PartialEq, Eq, Structural)]
pub enum Freshness {
    /// Before the soft expiry: used as it is.
    Fresh,
    /// Past soft but before hard expiry: usable, fetched again by a draw.
    Stale,
    /// Past hard expiry: fetched again.
    Expired,
}

/// How lifetimes become expiries.
#[derive(Clone, Copy, Debug)]
pub struct TtlPolicy {
    /// Soft expiry as a percentage of the jittered lifetime, at most 100.
    pub stale_percent: u32,
    /// How far the lifetime is jittered, as a percentage of it, at most 100.
    pub jitter_percent: u32,
    /// How long past hard expiry an entry is still tolerated when its source
    /// cannot be reached.
    pub grace: Duration,
}

impl Default for TtlPolicy {
    fn default() -> (r: Self)
        ensures
            r.stale_percent == 80,
            r.jitter_percent == 15,
            duration_millis(r.grace) == 14 * 24 * 60 * 60 * 1000,
    {
        TtlPolicy {
            stale_percent: 80,
            jitter_percent: 15,
            grace: Duration::from_secs(14 * 24 * 60 * 60),
        }
    }
}

/// `percent` percent of `value`, between 0 and the largest `i64`.
pub open spec fn percent(value: int, percent: int) -> int {
    if value <= 0 {
        0
    } else if value * percent / 100 > i64::MAX {
        i64::MAX as int
    } else {
        value * percent / 100
    }
}

/// The smaller of `p` and 100.
pub open spec fn at_most_100(p: int) -> int {
    if p > 100 {
        100
    } else {
        p
    }
}

/// How far the lifetime `ttl` is moved for an entry whose id has the given hash.
pub open spec fn jitter(ttl: int, jitter_percent: int, hash: int) -> int {
    let span = percent(ttl, at_most_100(jitter_percent));
    hash % (2 * span + 1) - span
}

/// The jittered lifetime in milliseconds.
pub open spec fn hard_millis(ttl: int, jitter_percent: int, hash: int) -> int {
    let n = clamp(ttl + jitter(ttl, jitter_percent, hash));
    if n < 0 {
        0
    } else {
        n
    }
}

/// The hash that seeds the jitter of an entry.
pub open spec fn id_hash(id: Seq<char>) -> u64 {
    fnv(FNV_OFFSET, encode_utf8(id))
}

/// The two expiries of an entry that is stored at `now` with the lifetime `ttl`:
/// both are now where the lifetime is zero.
pub open spec fn expiries(policy: TtlPolicy, now: int, ttl: Duration, id: Seq<char>) -> (int, int) {
    if duration_nanos(ttl) == 0 {
        (now, now)
    } else {
        let hard = hard_millis(
            clamp(duration_millis(ttl) as int),
            policy.jitter_percent as int,
            id_hash(id) as int,
        );
        let soft = percent(hard, at_most_100(policy.stale_percent as int));
        (later(now, soft as nat), later(now, hard as nat))
    }
}

/// How an entry with these expiries stands at `now`: each tier begins at its
/// expiry.
pub open spec fn freshness(stale_after: int, expires: int, now: int) -> Freshness {
    if now < stale_after {
        Freshness::Fresh
    } else if now < expires {
        Freshness::Stale
    } else {
        Freshness::Expired
    }
}

/// The milliseconds of a point in time as an unsigned 64-bit number, negative
/// ones in two's complement.
pub open spec fn unsigned_millis(now: int) -> nat {
    if now < 0 {
        (now + 0x1_0000_0000_0000_0000) as nat
    } else {
        now as nat
    }
}

/// The draw for an entry at a point in time, out of 2^64 equally good ones.
pub open spec fn draw(id: Seq<char>, now: int) -> u64 {
    fnv(id_hash(id), le_bytes(unsigned_millis(now), 8))
}

/// Whether the draw `d` out of 2^64 falls below the fraction `num / den`.
pub open spec fn drawn(d: int, num: int, den: int) -> bool {
    d * den < num * 0x1_0000_0000_0000_0000
}

/// Whether an entry is to be fetched again.
pub open spec fn refetch(stale_after: int, expires: int, now: int, id: Seq<char>) -> bool {
    match freshness(stale_after, expires, now) {
        Freshness::Fresh => false,
        Freshness::Expired => true,
        Freshness::Stale => drawn(
            draw(id, now) as int,
            clamp(now - stale_after),
            clamp(expires - stale_after),
        ),
    }
}

/// Whether an entry that expires at `expires` is tolerated at `now`.
pub open spec fn within_grace(expires: int, grace: Duration, now: int) -> bool {
    now < later(expires, duration_millis(grace))
}

/// `value * percent / 100`, between 0 and the largest `i64`.
fn percent_of(value: i64, percent_: u32) -> (r: i64)
    ensures
        r == percent(value as int, percent_ as int),
        r >= 0,
{
    if value <= 0 {
        return 0;
    }
    assert(0 <= value * percent_ <= 0x7fff_ffff_ffff_ffff * 0xffff_ffff) by (nonlinear_arith)
        requires
            0 <= value <= 0x7fff_ffff_ffff_ffff,
            0 <= percent_ <= 0xffff_ffff,
    ;
    let scaled: i128 = (value as i128 * percent_ as i128) / 100;
    if scaled > i64::MAX as i128 {
        i64::MAX
    } else {
        scaled as i64
    }
}

/// A part of at most 100 percent is no larger than the whole.
proof fn lemma_percent(value: int, p: int)
    requires
        0 <= value <= i64::MAX,
        0 <= p <= 100,
    ensures
        0 <= percent(value, p) <= value,
        percent(value, p) == value * p / 100,
{
    assert(0 <= value * p <= value * 100) by (nonlinear_arith)
        requires
            0 <= value,
            0 <= p <= 100,
    ;
}

/// The draw for the entry `id` at `now`.
fn draw_hash(id: &str, now: Timestamp) -> (r: u64)
    ensures
        r == draw(id@, now.0 as int),
{
    let h: u64 = fnv1a(id.as_bytes());
    let ms: u64 = if now.0 < 0 {
        (now.0 as i128 + 0x1_0000_0000_0000_0000) as u64
    } else {
        now.0 as u64
    };
    let tail = low_bytes(ms, 8);
    fnv1a_continue(h, tail.as_slice())
}

impl TtlPolicy {
    /// A record whose expiries follow from `now`, the lifetime `ttl` and the
    /// entry's id, which seeds the jitter.
    pub fn make_record(&self, payload: Payload, now: Timestamp, ttl: Duration, id: &str) -> (r:
        CacheRecord)
        ensures
            r.payload == payload,
            (r.stale_after.0 as int, r.expires.0 as int) == expiries(*self, now.0 as int, ttl, id@),
    {
        if ttl.as_nanos() == 0 {
            return CacheRecord { payload, stale_after: now, expires: now };
        }
        let ttl_ms: i64 = millis_i64(ttl);
        let jitter_percent: u32 = if self.jitter_percent > 100 { 100 } else { self.jitter_percent };
        let span: i64 = percent_of(ttl_ms, jitter_percent);
        let h: u64 = fnv1a(id.as_bytes());
        let magnitude: u64 = h % (2 * (span as u64) + 1);
        let jitter_ms: i64 = (magnitude as i128 - span as i128) as i64;
        let moved: i64 = add_clamped(ttl_ms, jitter_ms);
        let hard_ms: i64 = if moved < 0 { 0 } else { moved };
        let stale_percent: u32 = if self.stale_percent > 100 { 100 } else { self.stale_percent };
        let soft_ms: i64 = percent_of(hard_ms, stale_percent);
        CacheRecord {
            payload,
            stale_after: now.saturating_add(Duration::from_millis(soft_ms as u64)),
            expires: now.saturating_add(Duration::from_millis(hard_ms as u64)),
        }
    }

    /// How a record stands at `now`.
    pub fn classify(&self, record: &CacheRecord, now: Timestamp) -> (r: Freshness)
        ensures
            r == freshness(record@.stale_after, record@.expires, now.0 as int),
    {
        if now.0 < record.stale_after.0 {
            Freshness::Fresh
        } else if now.0 < record.expires.0 {
            Freshness::Stale
        } else {
            Freshness::Expired
        }
    }

    /// Whether to fetch the record again at `now`.
    pub fn should_refetch(&self, record: &CacheRecord, now: Timestamp, id: &str) -> (r: bool)
        ensures
            r == refetch(record@.stale_after, record@.expires, now.0 as int, id@),
    {
        match self.classify(record, now) {
            Freshness::Fresh => false,
            Freshness::Expired => true,
            Freshness::Stale => {
                let num: i64 = sub_clamped(now.0, record.stale_after.0);
                let den: i64 = sub_clamped(record.expires.0, record.stale_after.0);
                let d: u64 = draw_hash(id, now);
                assert(0 <= d * den <= 0xffff_ffff_ffff_ffff * 0x7fff_ffff_ffff_ffff)
                    by (nonlinear_arith)
                    requires
                        0 <= d <= 0xffff_ffff_ffff_ffff,
                        0 <= den <= 0x7fff_ffff_ffff_ffff,
                ;
                (d as u128) * (den as u128) < (num as u128) * 0x1_0000_0000_0000_0000u128
            },
        }
    }

    /// Whether the record is still tolerated when its source cannot be reached.
    /// This governs what is reported and what is pruned, not what is served.
    pub fn usable_within_grace(&self, record: &CacheRecord, now: Timestamp) -> (r: bool)
        ensures
            r == within_grace(record@.expires, self.grace, now.0 as int),
    {
        now.0 < record.expires.saturating_add(self.grace).0
    }
}

/// An entry is never born expired unless its lifetime is zero or jittered away,
/// and its soft expiry comes no later than its hard one.
pub proof fn law_expiries_are_ordered(policy: TtlPolicy, now: int, ttl: Duration, id: Seq<char>)
    requires
        i64::MIN <= now <= i64::MAX,
    ensures
        now <= expiries(policy, now, ttl, id).0 <= expiries(policy, now, ttl, id).1,
{
    if duration_nanos(ttl) != 0 {
        let t = clamp(duration_millis(ttl) as int);
        let hard = hard_millis(t, policy.jitter_percent as int, id_hash(id) as int);
        lemma_percent(hard, at_most_100(policy.stale_percent as int));
    }
}

/// An entry without a lifetime is expired from the start and at every later time.
pub proof fn law_zero_lifetime_is_expired(
    policy: TtlPolicy,
    now: int,
    when: int,
    ttl: Duration,
    id: Seq<char>,
)
    requires
        duration_nanos(ttl) == 0,
        now <= when,
    ensures
        ({
            let (stale_after, expires) = expiries(policy, now, ttl, id);
            stale_after == expires && freshness(stale_after, expires, when) == Freshness::Expired
        }),
{
}

/// The jittered lifetime differs from the nominal one by at most the jitter
/// percentage of it.
pub proof fn law_jitter_is_bounded(ttl: int, jitter_percent: int, hash: int)
    requires
        0 <= ttl <= i64::MAX,
        0 <= jitter_percent,
    ensures
        ttl - ttl * at_most_100(jitter_percent) / 100 <= hard_millis(ttl, jitter_percent, hash)
            <= ttl + ttl * at_most_100(jitter_percent) / 100,
{
    lemma_percent(ttl, at_most_100(jitter_percent));
}

/// As time goes on an entry only gets staler.
pub proof fn law_freshness_only_fades(stale_after: int, expires: int, now: int, when: int)
    requires
        stale_after <= expires,
        now <= when,
    ensures
        freshness(stale_after, expires, now) == Freshness::Expired ==> freshness(
            stale_after,
            expires,
            when,
        ) == Freshness::Expired,
        freshness(stale_after, expires, now) == Freshness::Stale ==> freshness(
            stale_after,
            expires,
            when,
        ) != Freshness::Fresh,
{
}

/// Fresh entries are never fetched again, expired ones always, and at the moment
/// in which it becomes stale no entry is.
pub proof fn law_refetch_ends(stale_after: int, expires: int, now: int, id: Seq<char>)
    ensures
        now < stale_after ==> !refetch(stale_after, expires, now, id),
        now >= stale_after && now >= expires ==> refetch(stale_after, expires, now, id),
        now == stale_after && now < expires ==> !refetch(stale_after, expires, now, id),
{
    if now == stale_after && now < expires {
        let d = draw(id, now) as int;
        let den = clamp(expires - stale_after);
        assert(d * den >= 0) by (nonlinear_arith)
            requires
                d >= 0,
                den >= 0,
        ;
    }
}

/// A draw that falls below a fraction falls below every larger one: the closer an
/// entry is to its hard expiry, the more draws have it fetched again.
pub proof fn law_more_draws_later(d: int, num: int, later_num: int, den: int)
    requires
        drawn(d, num, den),
        num <= later_num,
    ensures
        drawn(d, later_num, den),
{
}

/// Past its grace an entry is expired, so what is pruned was due anyway.
pub proof fn law_past_grace_is_expired(stale_after: int, expires: int, grace: Duration, now: int)
    requires
        stale_after <= expires,
        i64::MIN <= expires <= i64::MAX,
        !within_grace(expires, grace, now),
    ensures
        freshness(stale_after, expires, now) == Freshness::Expired,
{
}

} // verus!
