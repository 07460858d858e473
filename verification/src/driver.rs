//! Driving one source over its keys: chunks, and the pauses between them.
//!
//! A source's keys are split into chunks, and each request to a source starts at
//! least its minimal interval after the one before it *started*, in this pass or
//! in an earlier one.

use crate::env::{clamp, duration_nanos, sub_clamped, Timestamp};
use core::time::Duration;
use vstd::prelude::*;
use vstd::string::*;

verus! {

/// Texts by their views.
pub open spec fn texts(s: Seq<String>) -> Seq<Seq<char>> {
    s.map_values(|t: String| t@)
}

/// Lists of texts by their views.
pub open spec fn text_lists(s: Seq<Vec<String>>) -> Seq<Seq<Seq<char>>> {
    s.map_values(|v: Vec<String>| texts(v@))
}

/// `s` cut into pieces of `n`, the last of which may be shorter.
pub open spec fn chunks<T>(s: Seq<T>, n: nat) -> Seq<Seq<T>>
    decreases s.len(),
{
    if s.len() == 0 || n == 0 {
        Seq::empty()
    } else if s.len() <= n {
        seq![s]
    } else {
        seq![s.take(n as int)] + chunks(s.skip(n as int), n)
    }
}

/// How many keys a chunk has at most: at least one, whatever the source says.
pub open spec fn chunk_limit(size: usize) -> nat {
    if size == 0 {
        1
    } else {
        size as nat
    }
}

/// The keys `from..to`.
pub(crate) fn copy_range(keys: &Vec<String>, from: usize, to: usize) -> (r: Vec<String>)
    requires
        from <= to <= keys@.len(),
    ensures
        texts(r@) == texts(keys@).subrange(from as int, to as int),
{
    let mut out: Vec<String> = Vec::new();
    let mut i: usize = from;
    while i < to
        invariant
            from <= i <= to <= keys@.len(),
            texts(out@) == texts(keys@).subrange(from as int, i as int),
        decreases to - i,
    {
        let ghost before = texts(out@);
        out.push(keys[i].clone());
        assert(texts(out@) =~= before.push(texts(keys@)[i as int]));
        i += 1;
        assert(texts(out@) =~= texts(keys@).subrange(from as int, i as int));
    }
    assert(texts(out@) =~= texts(keys@).subrange(from as int, to as int));
    out
}

/// The keys in the chunks in which they are sent to a source.
pub fn chunked(keys: &Vec<String>, chunk_size: usize) -> (r: Vec<Vec<String>>)
    ensures
        text_lists(r@) == chunks(texts(keys@), chunk_limit(chunk_size)),
{
    let size: usize = if chunk_size == 0 { 1 } else { chunk_size };
    let n: usize = keys.len();
    let ghost all = texts(keys@);
    let mut out: Vec<Vec<String>> = Vec::new();
    let mut start: usize = 0;
    proof {
        assert(all.skip(0) =~= all);
        assert(text_lists(out@) + chunks(all, size as nat) =~= chunks(all, size as nat));
    }
    while start < n
        invariant
            start <= n == keys@.len(),
            size > 0,
            all == texts(keys@),
            text_lists(out@) + chunks(all.skip(start as int), size as nat) == chunks(
                all,
                size as nat,
            ),
        decreases n - start,
    {
        let end: usize = if n - start <= size { n } else { start + size };
        let piece = copy_range(keys, start, end);
        let ghost before = text_lists(out@);
        let ghost rest = all.skip(start as int);
        out.push(piece);
        proof {
            assert(text_lists(out@) =~= before.push(texts(piece@)));
            if rest.len() <= size {
                assert(texts(piece@) =~= rest);
                assert(all.skip(end as int) =~= Seq::empty());
            } else {
                assert(texts(piece@) =~= rest.take(size as int));
                assert(rest.skip(size as int) =~= all.skip(end as int));
            }
            assert(text_lists(out@) + chunks(all.skip(end as int), size as nat) =~= before
                + chunks(rest, size as nat));
        }
        start = end;
    }
    assert(all.skip(n as int) =~= Seq::empty());
    assert(text_lists(out@) + Seq::<Seq<Seq<char>>>::empty() =~= text_lists(out@));
    out
}

/// How long a request has to wait at `now`, in nanoseconds, where the one before it
/// started at `last`, and requests start at least `interval` nanoseconds apart. Points in
/// time are in milliseconds.
pub open spec fn pause_nanos(last: Option<int>, now: int, interval: nat) -> nat {
    match last {
        Some(t) => {
            let elapsed = clamp(now - t) * 1_000_000;
            if elapsed <= 0 {
                interval
            } else if elapsed < interval {
                (interval - elapsed) as nat
            } else {
                0
            }
        },
        None => 0,
    }
}

/// A point in time that may be absent, in milliseconds.
pub open spec fn opt_millis(t: Option<Timestamp>) -> Option<int> {
    match t {
        Some(t) => Some(t.0 as int),
        None => None,
    }
}

/// How long the next request has to wait, if it has to wait at all.
pub fn pacing_wait(last: Option<Timestamp>, now: Timestamp, interval: Duration) -> (r: Option<
    Duration,
>)
    ensures
        ({
            let pause = pause_nanos(opt_millis(last), now.0 as int, duration_nanos(interval));
            match r {
                Some(d) => pause > 0 && duration_nanos(d) == pause,
                None => pause == 0,
            }
        }),
{
    match last {
        Some(t) => {
            let elapsed: i64 = sub_clamped(now.0, t.0);
            let pause = if elapsed <= 0 {
                interval
            } else {
                interval.saturating_sub(Duration::from_millis(elapsed as u64))
            };
            if pause.as_nanos() > 0 {
                Some(pause)
            } else {
                None
            }
        },
        None => None,
    }
}

/// The pieces put together again.
pub open spec fn joined_chunks<T>(pieces: Seq<Seq<T>>) -> Seq<T>
    decreases pieces.len(),
{
    if pieces.len() == 0 {
        Seq::empty()
    } else {
        pieces[0] + joined_chunks(pieces.skip(1))
    }
}

/// Chunks lose no key, repeat none and keep the order; none is empty and none is
/// too long.
pub proof fn law_chunks_partition<T>(s: Seq<T>, n: nat)
    requires
        n > 0,
    ensures
        joined_chunks(chunks(s, n)) == s,
        forall|i: int|
            0 <= i < chunks(s, n).len() ==> 0 < (#[trigger] chunks(s, n)[i]).len() <= n,
    decreases s.len(),
{
    let c = chunks(s, n);
    if s.len() > n {
        let rest = s.skip(n as int);
        law_chunks_partition(rest, n);
        assert(c.skip(1) =~= chunks(rest, n));
        assert(s =~= s.take(n as int) + rest);
        assert forall|i: int| 0 <= i < c.len() implies 0 < (#[trigger] c[i]).len() <= n by {
            if i > 0 {
                assert(c[i] == chunks(rest, n)[i - 1]);
            }
        }
    } else if s.len() > 0 {
        assert(c.skip(1) =~= Seq::empty());
        assert(joined_chunks(c.skip(1)) =~= Seq::empty());
        assert(joined_chunks(c) =~= s);
    } else {
        assert(joined_chunks(c) =~= s);
    }
}

/// A request that waits as long as it has to starts at least the interval after
/// the one before it, unless the clock runs out of range.
pub proof fn law_pauses_keep_the_interval(last: int, now: int, interval: nat)
    requires
        i64::MIN <= last <= now <= i64::MAX,
        now - last <= i64::MAX,
    ensures
        now * 1_000_000 + pause_nanos(Some(last), now, interval) >= last * 1_000_000 + interval,
{
}

} // verus!
