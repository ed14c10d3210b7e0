//! Integer helpers for the exploration term of the tree search: a binary
//! logarithm and an integer square root, exact per their specifications.
use vstd::prelude::*;

verus! {

/// floor(log2(n)) for n >= 1.
pub open spec fn log2_floor(n: int) -> int
    recommends
        n >= 1,
    decreases n,
{
    if n < 2 {
        0
    } else {
        1 + log2_floor(n / 2)
    }
}

pub fn log2_floor_u64(n: u64) -> (r: u64)
    requires
        n >= 1,
    ensures
        r == log2_floor(n as int),
        r <= 63,
{
    let mut m = n;
    let mut r: u64 = 0;
    proof {
        vstd::arithmetic::power2::lemma2_to64();
        vstd::arithmetic::power2::lemma2_to64_rest();
        assert(pow2(0nat) == 1);
        assert(m * pow2(0nat) <= n) by (nonlinear_arith)
            requires
                m == n,
                pow2(0nat) == 1,
        ;
    }
    while m >= 2
        invariant
            m >= 1,
            log2_floor(n as int) == r + log2_floor(m as int),
            r <= 63,
            m * pow2(r as nat) <= n,
        decreases m,
    {
        proof {
            vstd::arithmetic::power2::lemma2_to64();
            vstd::arithmetic::power2::lemma2_to64_rest();
            assert(pow2((r + 1) as nat) <= n) by (nonlinear_arith)
                requires
                    m >= 2,
                    m * pow2(r as nat) <= n,
                    pow2((r + 1) as nat) == 2 * pow2(r as nat),
            ;
            assert(r < 63) by {
                if r >= 63 {
                    assert(pow2((r + 1) as nat) >= pow2(64)) by {
                        if r + 1 > 64 {
                            vstd::arithmetic::power2::lemma_pow2_strictly_increases(
                                64,
                                (r + 1) as nat,
                            );
                        }
                    }
                }
            }
            assert((m / 2) * pow2((r + 1) as nat) <= n) by (nonlinear_arith)
                requires
                    m >= 2,
                    m * pow2(r as nat) <= n,
                    pow2((r + 1) as nat) == 2 * pow2(r as nat),
            ;
        }
        m = m / 2;
        r = r + 1;
    }
    r
}

/// 2^e, from the arithmetic library.
pub open spec fn pow2(e: nat) -> nat {
    vstd::arithmetic::power2::pow2(e)
}

/// `r` is the integer square root of `x`.
pub open spec fn is_isqrt(x: int, r: int) -> bool {
    r >= 0 && r * r <= x < (r + 1) * (r + 1)
}

/// The integer square root, as a spec-level value.
pub open spec fn sqrt_floor(x: int) -> int {
    choose|r: int| is_isqrt(x, r)
}

pub proof fn lemma_sqrt_floor_exists(x: int)
    requires
        x >= 0,
    ensures
        is_isqrt(x, sqrt_floor(x)),
    decreases x,
{
    if x == 0 {
        assert(is_isqrt(0, 0));
    } else {
        lemma_sqrt_floor_exists(x - 1);
        let r = sqrt_floor(x - 1);
        if (r + 1) * (r + 1) <= x {
            assert(x <= (r + 1) * (r + 1));
            assert((r + 1) * (r + 1) < (r + 2) * (r + 2)) by (nonlinear_arith)
                requires
                    r >= 0,
            ;
            assert(is_isqrt(x, r + 1));
        } else {
            assert(is_isqrt(x, r));
        }
    }
}

pub proof fn lemma_isqrt_unique(x: int, r1: int, r2: int)
    requires
        is_isqrt(x, r1),
        is_isqrt(x, r2),
    ensures
        r1 == r2,
{
    assert(r1 == r2) by (nonlinear_arith)
        requires
            r1 >= 0 && r1 * r1 <= x < (r1 + 1) * (r1 + 1),
            r2 >= 0 && r2 * r2 <= x < (r2 + 1) * (r2 + 1),
    ;
}

pub fn isqrt(x: u64) -> (r: u64)
    requires
        x < 0x4000_0000_0000_0000,
    ensures
        r as int == sqrt_floor(x as int),
        is_isqrt(x as int, r as int),
{
    let mut lo: u64 = 0;
    let mut hi: u64 = 0x8000_0000;
    proof {
        assert(0x8000_0000u64 as int * 0x8000_0000u64 as int == 0x4000_0000_0000_0000) by (nonlinear_arith);
    }
    while lo + 1 < hi
        invariant
            lo < hi <= 0x8000_0000,
            lo * lo <= x,
            x < hi * hi,
        decreases hi - lo,
    {
        let mid = lo + (hi - lo) / 2;
        proof {
            assert(mid * mid <= 0x4000_0000_0000_0000) by (nonlinear_arith)
                requires
                    mid <= 0x8000_0000,
            ;
        }
        if mid * mid <= x {
            lo = mid;
        } else {
            hi = mid;
        }
    }
    proof {
        assert(is_isqrt(x as int, lo as int));
        lemma_sqrt_floor_exists(x as int);
        lemma_isqrt_unique(x as int, lo as int, sqrt_floor(x as int));
    }
    lo
}

} // verus!
