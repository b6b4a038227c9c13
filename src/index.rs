use vstd::prelude::*;

verus! {

/// The largest power of two not above `n` (zero for zero).
pub open spec fn hp2(n: nat) -> nat
    decreases n,
{
    if n <= 1 {
        n
    } else {
        2 * hp2(n / 2)
    }
}

/// Where the leaves `[lo, lo + len)` split: the left part holds `split(len)`
/// leaves, the largest power of two below `len`.
pub open spec fn split(len: nat) -> nat {
    hp2((len - 1) as nat)
}

/// `m` is a power of two.
pub open spec fn is_pow2(m: nat) -> bool {
    m >= 1 && hp2(m) == m
}

/// `2^e`.
pub open spec fn pow2(e: nat) -> nat
    decreases e,
{
    if e == 0 {
        1
    } else {
        2 * pow2((e - 1) as nat)
    }
}

/// The number of trailing one bits of `k`: the height of arena node `k` in the
/// in-order layout, where node `k` sits between leaves `k` and `k + 1`.
pub open spec fn level(k: nat) -> nat
    decreases k,
{
    if k % 2 == 1 {
        1 + level(k / 2)
    } else {
        0
    }
}

pub proof fn lemma_hp2_bounds(n: nat)
    requires
        n >= 1,
    ensures
        1 <= hp2(n) <= n,
        n < 2 * hp2(n),
        is_pow2(hp2(n)),
    decreases n,
{
    if n > 1 {
        lemma_hp2_bounds(n / 2);
        lemma_hp2_of_double(hp2(n / 2));
    }
}

/// Doubling a power of two gives a power of two.
pub proof fn lemma_hp2_of_double(m: nat)
    requires
        is_pow2(m),
    ensures
        hp2(2 * m) == 2 * m,
{
    assert((2 * m) / 2 == m);
}

/// Below a length that is no power of two, the split point does not move when
/// one more leaf is added.
pub proof fn lemma_hp2_step(n: nat)
    requires
        n >= 2,
        hp2(n) != n,
    ensures
        hp2((n - 1) as nat) == hp2(n),
    decreases n,
{
    if n % 2 == 1 {
        assert(((n - 1) as nat) / 2 == n / 2);
    } else {
        let h = n / 2;
        assert(h * 2 == n);
        if h <= 2 {
            assert(hp2(1) == 1);
            assert(hp2(2) == 2 * hp2(1));
            assert(hp2(n) == 2 * hp2(h));
        } else {
            if hp2(h) == h {
                assert(hp2(n) == 2 * hp2(h));
            }
            lemma_hp2_step(h);
            assert(((n - 1) as nat) / 2 == (h - 1) as nat);
        }
    }
}

/// The split point of a range is a power of two strictly inside it.
pub proof fn lemma_split_bounds(len: nat)
    requires
        len >= 2,
    ensures
        1 <= split(len) < len,
        len <= 2 * split(len),
        is_pow2(split(len)),
{
    lemma_hp2_bounds((len - 1) as nat);
}

/// Adding a leaf to a range whose length is no power of two keeps its split.
pub proof fn lemma_split_step(len: nat)
    requires
        len >= 2,
        !is_pow2(len),
    ensures
        split(len + 1) == split(len),
{
    lemma_hp2_step(len);
}

/// Adding a leaf to a range whose length is a power of two splits the new
/// range after the old one.
pub proof fn lemma_split_pow2(len: nat)
    requires
        is_pow2(len),
    ensures
        split(len + 1) == len,
{
}

/// The largest power of two not above `number`, zero for zero.
pub fn highest_power_of_2(number: usize) -> (r: usize)
    ensures
        r == hp2(number as nat),
    decreases number,
{
    if number <= 1 {
        number
    } else {
        let half = highest_power_of_2(number / 2);
        proof {
            lemma_hp2_bounds((number / 2) as nat);
        }
        2 * half
    }
}

/// A node's height is at most its index.
pub proof fn lemma_level_le(k: nat)
    ensures
        level(k) <= k,
        pow2(level(k)) <= k + 1,
    decreases k,
{
    if k % 2 == 1 {
        lemma_level_le(k / 2);
    }
}

pub proof fn lemma_pow2_monotonic(a: nat, b: nat)
    requires
        a <= b,
    ensures
        1 <= pow2(a) <= pow2(b),
    decreases b,
{
    if b > 0 {
        if a < b {
            lemma_pow2_monotonic(a, (b - 1) as nat);
        } else {
            lemma_pow2_monotonic((b - 1) as nat, (b - 1) as nat);
        }
    }
}

/// The height of arena node `value`: the number of trailing one bits.
pub fn node_level(value: usize) -> (r: usize)
    ensures
        r == level(value as nat),
{
    proof {
        lemma_level_le(value as nat);
    }
    let mut v: usize = value;
    let mut count: usize = 0;
    while v % 2 == 1
        invariant
            count + level(v as nat) == level(value as nat),
            level(value as nat) <= value,
        decreases v,
    {
        v = v / 2;
        count = count + 1;
    }
    count
}

/// `2^e`, where it fits.
pub fn power_of_two(e: usize) -> (r: usize)
    requires
        pow2(e as nat) <= usize::MAX,
    ensures
        r == pow2(e as nat),
{
    let mut p: usize = 1;
    let mut i: usize = 0;
    while i < e
        invariant
            i <= e,
            p == pow2(i as nat),
            pow2(e as nat) <= usize::MAX,
        decreases e - i,
    {
        proof {
            lemma_pow2_monotonic((i + 1) as nat, e as nat);
        }
        p = p * 2;
        i = i + 1;
    }
    p
}

} // verus!
