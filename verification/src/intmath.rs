//! Integer square roots and ceiling division, with exact contracts.
//! The scoring engine uses these in place of floating-point `sqrt` and
//! real division so that every quantity it maintains is a mathematical
//! integer.

use vstd::prelude::*;
use vstd::arithmetic::div_mod::lemma_fundamental_div_mod;
use vstd::arithmetic::div_mod::lemma_fundamental_div_mod_converse;

verus! {

/// Floor of the real square root of `n` (0 for negative `n`).
pub open spec fn sqrt_floor(n: int) -> int
    decreases n,
{
    if n <= 0 {
        0
    } else {
        let r = sqrt_floor(n - 1);
        if (r + 1) * (r + 1) <= n {
            r + 1
        } else {
            r
        }
    }
}

/// `sqrt_floor(n)` is the unique `r >= 0` with `r * r <= n < (r + 1) * (r + 1)`.
pub proof fn lemma_sqrt_floor(n: int)
    requires
        n >= 0,
    ensures
        sqrt_floor(n) >= 0,
        sqrt_floor(n) * sqrt_floor(n) <= n,
        n < (sqrt_floor(n) + 1) * (sqrt_floor(n) + 1),
    decreases n,
{
    if n > 0 {
        lemma_sqrt_floor(n - 1);
        let r = sqrt_floor(n - 1);
        if (r + 1) * (r + 1) <= n {
            assert(n - 1 < (r + 1) * (r + 1));
            assert(n < (r + 2) * (r + 2)) by (nonlinear_arith)
                requires n - 1 < (r + 1) * (r + 1) && r >= 0;
        }
    }
}

/// Any `r` in the square-root window equals `sqrt_floor(n)`.
pub proof fn lemma_sqrt_floor_unique(n: int, r: int)
    requires
        n >= 0,
        r >= 0,
        r * r <= n,
        n < (r + 1) * (r + 1),
    ensures
        r == sqrt_floor(n),
{
    lemma_sqrt_floor(n);
    let s = sqrt_floor(n);
    if r < s {
        assert((r + 1) * (r + 1) <= s * s) by (nonlinear_arith)
            requires 0 <= r && r < s;
        assert(false);
    }
    if s < r {
        assert((s + 1) * (s + 1) <= r * r) by (nonlinear_arith)
            requires 0 <= s && s < r;
        assert(false);
    }
}

/// Binary-search integer square root.
pub fn isqrt(x: u64) -> (r: u64)
    ensures
        r == sqrt_floor(x as int),
        r * r <= x,
{
    let mut lo: u64 = 0;
    let mut hi: u64 = 0xFFFF_FFFF;
    if x < hi {
        hi = x;
    }
    proof {
        assert(x < (hi + 1) * (hi + 1)) by (nonlinear_arith)
            requires hi == 0xFFFF_FFFFu64 && x <= u64::MAX || hi == x;
    }
    while lo < hi
        invariant
            lo <= hi <= 0xFFFF_FFFF,
            lo * lo <= x,
            x < (hi + 1) * (hi + 1),
        decreases hi - lo,
    {
        let mid: u64 = lo + (hi - lo + 1) / 2;
        proof {
            assert((mid as int) * (mid as int) <= 0xFFFF_FFFFi64 * 0xFFFF_FFFFi64)
                by (nonlinear_arith)
                requires 0 <= mid as int <= 0xFFFF_FFFFi64;
        }
        let sq: u128 = (mid as u128) * (mid as u128);
        if sq <= x as u128 {
            lo = mid;
        } else {
            hi = mid - 1;
        }
    }
    proof {
        lemma_sqrt_floor_unique(x as int, lo as int);
    }
    lo
}

/// `2^n`, as a mathematical integer.
pub open spec fn pow2(n: int) -> int
    decreases n,
{
    if n <= 0 {
        1
    } else {
        2 * pow2(n - 1)
    }
}

/// `pow2` is monotone.
pub proof fn lemma_pow2_monotone(a: int, b: int)
    requires
        a <= b,
    ensures
        pow2(a) <= pow2(b),
    decreases b,
{
    if a < b && b > 0 {
        lemma_pow2_monotone(a, b - 1);
        lemma_pow2_pos(b - 1);
    }
}

/// `pow2` is positive.
pub proof fn lemma_pow2_pos(n: int)
    ensures
        pow2(n) >= 1,
    decreases n,
{
    if n > 0 {
        lemma_pow2_pos(n - 1);
    }
}

/// `2^n` stays at `65536` up to `n == 16`.
pub proof fn lemma_pow2_le_16(n: int)
    requires
        0 <= n <= 16,
    ensures
        1 <= pow2(n) <= 65536,
{
    lemma_pow2_pos(n);
    lemma_pow2_monotone(n, 16);
    assert(pow2(1) == 2 * pow2(0));
    assert(pow2(2) == 2 * pow2(1));
    assert(pow2(3) == 2 * pow2(2));
    assert(pow2(4) == 2 * pow2(3));
    assert(pow2(5) == 2 * pow2(4));
    assert(pow2(6) == 2 * pow2(5));
    assert(pow2(7) == 2 * pow2(6));
    assert(pow2(8) == 2 * pow2(7));
    assert(pow2(9) == 2 * pow2(8));
    assert(pow2(10) == 2 * pow2(9));
    assert(pow2(11) == 2 * pow2(10));
    assert(pow2(12) == 2 * pow2(11));
    assert(pow2(13) == 2 * pow2(12));
    assert(pow2(14) == 2 * pow2(13));
    assert(pow2(15) == 2 * pow2(14));
    assert(pow2(16) == 2 * pow2(15));
}

/// Ceiling of the rational `a / b` for positive `b`, as an integer.
pub open spec fn ceil_of(a: int, b: int) -> int {
    (a + b - 1) / b
}

/// `ceil_of` really is the least integer at or above `a / b`.
pub proof fn lemma_ceil_of(a: int, b: int)
    requires
        b > 0,
    ensures
        ceil_of(a, b) * b >= a,
        (ceil_of(a, b) - 1) * b < a,
{
    lemma_fundamental_div_mod(a + b - 1, b);
    let q = (a + b - 1) / b;
    let r = (a + b - 1) % b;
    assert(a + b - 1 == b * q + r);
    assert(q * b == b * q) by (nonlinear_arith);
    assert((q - 1) * b == b * q - b) by (nonlinear_arith);
}

/// The magnitude of a ceiling quotient never exceeds the numerator's.
pub proof fn lemma_ceil_of_bound(a: int, b: int)
    requires
        b > 0,
    ensures
        a >= 0 ==> 0 <= ceil_of(a, b) <= a,
        a <= 0 ==> a <= ceil_of(a, b) <= 0,
{
    lemma_ceil_of(a, b);
    let c = ceil_of(a, b);
    if a >= 0 {
        if c < 0 {
            assert(c * b <= c) by (nonlinear_arith)
                requires c < 0 && b > 0;
            assert(false);
        }
        if c > a {
            assert((c - 1) * b >= c - 1) by (nonlinear_arith)
                requires c - 1 >= 0 && b > 0;
            assert(false);
        }
    } else {
        if c > 0 {
            assert((c - 1) * b >= 0) by (nonlinear_arith)
                requires c - 1 >= 0 && b > 0;
            assert(false);
        }
        if c < a {
            assert(c * b < a * b) by (nonlinear_arith)
                requires c < a && b > 0;
            assert(a * b <= a) by (nonlinear_arith)
                requires a <= 0 && b > 0;
            assert(false);
        }
    }
}

/// Exact ceiling division on machine integers.
pub fn ceil_div(a: i64, b: i64) -> (r: i64)
    requires
        0 < b <= 0x2000_0000_0000_0000,
        -0x2000_0000_0000_0000 <= a <= 0x2000_0000_0000_0000,
    ensures
        r == ceil_of(a as int, b as int),
{
    if a >= 0 {
        let q: u64 = ((a as u64) + (b as u64 - 1)) / (b as u64);
        proof {
            assert(q == (a + b - 1) / (b as int));
        }
        q as i64
    } else {
        let m: u64 = (-a) as u64;
        let q: u64 = m / (b as u64);
        proof {
            lemma_fundamental_div_mod(m as int, b as int);
            let s = (m as int) % (b as int);
            assert(m == b * (m as int / b as int) + s);
            // a + b - 1 == b * (-(m / b)) + (b - 1 - s), with the remainder in range
            assert(b * (-((m as int) / (b as int))) == -(b * ((m as int) / (b as int))))
                by (nonlinear_arith);
            lemma_fundamental_div_mod_converse(
                a + b - 1,
                b as int,
                -((m as int) / (b as int)),
                b - 1 - s,
            );
        }
        -(q as i64)
    }
}

} // verus!
