use vstd::prelude::*;
use vstd::arithmetic::power2::pow2;

verus! {

/// The number of bits that it takes to write `n`: 0 for 0.
pub open spec fn bit_length(n: nat) -> nat
    decreases n,
{
    if n == 0 {
        0
    } else {
        1 + bit_length(n / 2)
    }
}

/// The number of bits that it takes to write `n`.
pub fn bits_of(n: u64) -> (r: u32)
    ensures
        r == bit_length(n as nat),
        r <= 64,
{
    let mut rest = n;
    let mut r: u32 = 0;
    proof {
        vstd::arithmetic::power2::lemma2_to64_rest();
        lemma_bit_length_bound(n as nat, 64);
    }
    while rest > 0
        invariant
            r + bit_length(rest as nat) == bit_length(n as nat),
            bit_length(n as nat) <= 64,
        decreases rest,
    {
        rest = rest / 2;
        r = r + 1;
    }
    r
}

/// A number below `2^k` takes at most `k` bits.
pub proof fn lemma_bit_length_bound(n: nat, k: nat)
    requires
        n < pow2(k),
    ensures
        bit_length(n) <= k,
    decreases n,
{
    if n > 0 {
        if k == 0 {
            vstd::arithmetic::power2::lemma2_to64();
        } else {
            vstd::arithmetic::power2::lemma_pow2_unfold(k);
            lemma_bit_length_bound(n / 2, (k - 1) as nat);
        }
    }
}

/// A number of `k` bits, `k` at least 1, lies from `2^(k-1)` up to `2^k`, the latter
/// left out.
pub proof fn lemma_bit_length_range(n: nat)
    requires
        n > 0,
    ensures
        pow2((bit_length(n) - 1) as nat) <= n < pow2(bit_length(n)),
    decreases n,
{
    vstd::arithmetic::power2::lemma2_to64();
    if n == 1 {
        assert(bit_length(1) == 1) by {
            assert(bit_length(0) == 0);
            assert(1nat / 2 == 0);
        }
    } else {
        lemma_bit_length_range(n / 2);
        vstd::arithmetic::power2::lemma_pow2_unfold(bit_length(n));
        vstd::arithmetic::power2::lemma_pow2_unfold((bit_length(n) - 1) as nat);
    }
}

/// The least `k` with `m <= 2^k`: the binary logarithm of `m`, rounded up.
pub open spec fn ceil_log2(m: nat) -> nat {
    if m == 0 {
        0
    } else {
        bit_length((m - 1) as nat)
    }
}

/// `ceil_log2(m)` is the least exponent whose power of two reaches `m`.
pub proof fn lemma_ceil_log2(m: nat, k: nat)
    requires
        m >= 1,
    ensures
        m <= pow2(ceil_log2(m)),
        pow2(k) <= m ==> k <= ceil_log2(m),
        m <= pow2(k) ==> ceil_log2(m) <= k,
{
    vstd::arithmetic::power2::lemma2_to64();
    let c = ceil_log2(m);
    if m == 1 {
        assert(bit_length(0) == 0);
        if k > 0 {
            vstd::arithmetic::power2::lemma_pow2_strictly_increases(0, k);
        }
    } else {
        lemma_bit_length_range((m - 1) as nat);
        if pow2(k) <= m && k > c {
            vstd::arithmetic::power2::lemma_pow2_strictly_increases(c, k);
        }
        if m <= pow2(k) && c > k {
            if k < c - 1 {
                vstd::arithmetic::power2::lemma_pow2_strictly_increases(k, (c - 1) as nat);
            }
        }
    }
}

} // verus!
