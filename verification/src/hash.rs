//! The FNV-1a hash, which seeds every jitter and draw of this crate.

use vstd::prelude::*;

verus! {

pub const FNV_OFFSET: u64 = 0xcbf2_9ce4_8422_2325;

pub const FNV_PRIME: u64 = 0x0000_0100_0000_01b3;

/// The FNV-1a hash of `bytes`, continued from `hash`.
pub open spec fn fnv(hash: u64, bytes: Seq<u8>) -> u64
    decreases bytes.len(),
{
    if bytes.len() == 0 {
        hash
    } else {
        (fnv(hash, bytes.drop_last()) ^ (bytes.last() as u64)).wrapping_mul(FNV_PRIME)
    }
}

/// One more FNV-1a round over `bytes`, continuing from a running `hash`.
pub fn fnv1a_continue(hash: u64, bytes: &[u8]) -> (r: u64)
    ensures
        r == fnv(hash, bytes@),
{
    let mut h: u64 = hash;
    let mut i: usize = 0;
    while i < bytes.len()
        invariant
            i <= bytes@.len(),
            h == fnv(hash, bytes@.take(i as int)),
        decreases bytes@.len() - i,
    {
        h = (h ^ (bytes[i] as u64)).wrapping_mul(FNV_PRIME);
        i += 1;
        assert(bytes@.take(i as int).drop_last() =~= bytes@.take(i - 1));
    }
    assert(bytes@.take(i as int) =~= bytes@);
    h
}

/// The 64-bit FNV-1a hash.
pub fn fnv1a(bytes: &[u8]) -> (r: u64)
    ensures
        r == fnv(FNV_OFFSET, bytes@),
{
    fnv1a_continue(FNV_OFFSET, bytes)
}

/// The `n` lowest bytes of `x`, the lowest first.
pub open spec fn le_bytes(x: nat, n: nat) -> Seq<u8>
    decreases n,
{
    if n == 0 {
        Seq::empty()
    } else {
        seq![(x % 256) as u8] + le_bytes(x / 256, (n - 1) as nat)
    }
}

/// The `n` lowest bytes of `x`, the lowest first.
pub fn low_bytes(x: u64, n: u64) -> (r: Vec<u8>)
    ensures
        r@ == le_bytes(x as nat, n as nat),
{
    let mut out: Vec<u8> = Vec::new();
    let mut rest: u64 = x;
    let mut k: u64 = n;
    while k > 0
        invariant
            k <= n,
            out@ + le_bytes(rest as nat, k as nat) == le_bytes(x as nat, n as nat),
        decreases k,
    {
        let b: u8 = (rest % 256) as u8;
        let ghost before = out@;
        out.push(b);
        proof {
            assert(before + le_bytes(rest as nat, k as nat) =~= out@ + le_bytes(
                rest as nat / 256,
                (k - 1) as nat,
            ));
        }
        rest = rest / 256;
        k -= 1;
    }
    assert(out@ + le_bytes(rest as nat, 0) =~= out@);
    out
}

} // verus!
