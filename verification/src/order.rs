//! Order keys and rank statistics.
//!
//! Numbers are compared through integers that order as they do. The bit
//! pattern of a single-precision number is such a key for numbers that are
//! not negative; [`signed_key`] makes one of any bit pattern.

use vstd::prelude::*;

verus! {

/// Order key of infinity among numbers that are not negative; the keys above
/// it stand for no number.
pub const INF_KEY: u32 = 0x7F80_0000;

/// The sign bit of a single-precision number.
pub const SIGN_BIT: u32 = 0x8000_0000;

/// The key of a bit pattern: negative numbers come first, the greatest
/// magnitude foremost, and the others follow in order.
pub open spec fn signed_key_of(bits: u32) -> u32 {
    if bits >= SIGN_BIT {
        (u32::MAX - bits) as u32
    } else {
        (bits + SIGN_BIT) as u32
    }
}

/// How many keys are `v` or less.
pub open spec fn count_le(keys: Seq<u32>, v: int) -> nat
    decreases keys.len(),
{
    if keys.len() == 0 {
        0
    } else {
        count_le(keys.drop_last(), v) + if keys.last() <= v {
            1nat
        } else {
            0nat
        }
    }
}

/// The element at index `k` in sorted order is `m`: no more than `k` are
/// less, and more than `k` are no greater.
pub open spec fn is_nth(keys: Seq<u32>, k: int, m: u32) -> bool {
    count_le(keys, m - 1) <= k < count_le(keys, m as int)
}

/// The key of a bit pattern.
pub fn signed_key(bits: u32) -> (key: u32)
    ensures
        key == signed_key_of(bits),
{
    if bits >= SIGN_BIT {
        u32::MAX - bits
    } else {
        bits + SIGN_BIT
    }
}

/// The bit pattern of a key.
pub fn signed_bits(key: u32) -> (bits: u32)
    ensures
        signed_key_of(bits) == key,
{
    if key >= SIGN_BIT {
        key - SIGN_BIT
    } else {
        u32::MAX - key
    }
}

/// A bit pattern can be had back from its key, and keys order as the numbers
/// do: those with the sign bit before the others, and against the order of
/// their bit patterns.
pub proof fn lemma_signed_keys(a: u32, b: u32)
    ensures
        signed_key_of(a) == signed_key_of(b) ==> a == b,
        signed_key_of(a) < signed_key_of(b) <==> {
            ||| a >= SIGN_BIT && b < SIGN_BIT
            ||| a < SIGN_BIT && b < SIGN_BIT && a < b
            ||| a >= SIGN_BIT && b >= SIGN_BIT && a > b
        },
{
}

proof fn lemma_count_le_monotone(keys: Seq<u32>, a: int, b: int)
    requires
        a <= b,
    ensures
        count_le(keys, a) <= count_le(keys, b),
    decreases keys.len(),
{
    if keys.len() > 0 {
        lemma_count_le_monotone(keys.drop_last(), a, b);
    }
}

proof fn lemma_count_le_ends(keys: Seq<u32>)
    ensures
        count_le(keys, -1) == 0,
        count_le(keys, u32::MAX as int) == keys.len(),
    decreases keys.len(),
{
    if keys.len() > 0 {
        lemma_count_le_ends(keys.drop_last());
    }
}

/// There is one element at each index of the sorted order.
pub proof fn lemma_nth_is_unique(keys: Seq<u32>, k: int, a: u32, b: u32)
    requires
        is_nth(keys, k, a),
        is_nth(keys, k, b),
    ensures
        a == b,
{
    if a < b {
        lemma_count_le_monotone(keys, a as int, b - 1);
    } else if b < a {
        lemma_count_le_monotone(keys, b as int, a - 1);
    }
}

/// An element of the sorted order is one of the keys.
pub proof fn lemma_nth_is_a_key(keys: Seq<u32>, k: int, m: u32)
    requires
        is_nth(keys, k, m),
    ensures
        keys.contains(m),
{
    if !keys.contains(m) {
        lemma_count_le_gap(keys, m);
    }
}

proof fn lemma_count_le_gap(keys: Seq<u32>, m: u32)
    requires
        !keys.contains(m),
    ensures
        count_le(keys, m as int) == count_le(keys, m - 1),
    decreases keys.len(),
{
    if keys.len() > 0 {
        assert(!keys.drop_last().contains(m)) by {
            if keys.drop_last().contains(m) {
                let j = keys.drop_last().index_of(m);
                assert(keys[j] == m);
            }
        }
        assert(keys[keys.len() - 1] != m);
        lemma_count_le_gap(keys.drop_last(), m);
    }
}

/// How many keys are `v` or less.
fn tally_le(keys: &[u32], v: u32) -> (n: usize)
    ensures
        n == count_le(keys@, v as int),
{
    let mut n: usize = 0;
    let mut i: usize = 0;
    while i < keys.len()
        invariant
            n <= i <= keys@.len(),
            n == count_le(keys@.take(i as int), v as int),
        decreases keys@.len() - i,
    {
        assert(keys@.take(i + 1).drop_last() == keys@.take(i as int));
        if keys[i] <= v {
            n += 1;
        }
        i += 1;
    }
    assert(keys@.take(keys@.len() as int) == keys@);
    n
}

/// The element at index `k` in sorted order.
pub fn nth_key(keys: &[u32], k: usize) -> (m: u32)
    requires
        k < keys@.len(),
    ensures
        is_nth(keys@, k as int, m),
{
    let mut lo: u32 = 0;
    let mut hi: u32 = u32::MAX;
    proof {
        lemma_count_le_ends(keys@);
    }
    while lo < hi
        invariant
            lo <= hi,
            count_le(keys@, lo - 1) <= k,
            k < count_le(keys@, hi as int),
        decreases hi - lo,
    {
        let mid: u32 = lo + (hi - lo) / 2;
        if tally_le(keys, mid) > k {
            hi = mid;
        } else {
            lo = mid + 1;
        }
    }
    lo
}

} // verus!
