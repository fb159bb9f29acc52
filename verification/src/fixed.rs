//! Verified fixed-point integer arithmetic for the UCT score.
//!
//! Quantities are stored scaled by [`SCALE`]. The natural logarithm is
//! approximated by counting doublings (the binary logarithm) and
//! interpolating linearly between consecutive powers of two, all in
//! integers; the square root is the exact integer square root.

use vstd::arithmetic::div_mod::lemma_multiply_divide_lt;
use vstd::prelude::*;

verus! {

/// The fixed-point scale: a real value `v` is stored as `v * SCALE`,
/// rounded down.
pub const SCALE: u64 = 65536;

/// The natural logarithm of 2 in fixed point: the floor of
/// `SCALE * 0.69314718...`.
pub const LN2_SCALED: u64 = 45426;

/// `2^k`.
pub open spec fn pow2(k: nat) -> nat
    decreases k,
{
    if k == 0 {
        1
    } else {
        2 * pow2((k - 1) as nat)
    }
}

/// The floor of the binary logarithm; 0 for 0.
pub open spec fn log2_floor(n: nat) -> nat
    decreases n,
{
    if n < 2 {
        0
    } else {
        1 + log2_floor(n / 2)
    }
}

/// The floor of the square root.
pub open spec fn sqrt_floor(x: nat) -> nat
    decreases x,
{
    if x == 0 {
        0
    } else {
        let r = sqrt_floor((x - 1) as nat);
        if (r + 1) * (r + 1) <= x {
            r + 1
        } else {
            r
        }
    }
}

/// The fixed-point approximation of `SCALE * ln n` for `n >= 1`: with `k`
/// the binary logarithm's floor, `ln n` is taken as `ln 2` times `k` plus
/// the linear interpolation between `2^k` and `2^(k+1)`.
pub open spec fn ln_scaled_spec(n: nat) -> int {
    let k = log2_floor(n);
    LN2_SCALED * k + (n - pow2(k)) * LN2_SCALED / (pow2(k) as int)
}

/// Powers of two are positive.
pub proof fn lemma_pow2_pos(k: nat)
    ensures
        pow2(k) >= 1,
    decreases k,
{
    if k > 0 {
        lemma_pow2_pos((k - 1) as nat);
    }
}

/// Powers of two are monotone in the exponent.
pub proof fn lemma_pow2_monotone(a: nat, b: nat)
    requires
        a <= b,
    ensures
        pow2(a) <= pow2(b),
    decreases b,
{
    if a < b {
        lemma_pow2_monotone(a, (b - 1) as nat);
        lemma_pow2_pos((b - 1) as nat);
    }
}

/// `2^64` written out, so that a `u64` is always below `pow2(64)`.
pub proof fn lemma_pow2_64()
    ensures
        pow2(64) == 0x10000000000000000,
{
    reveal_with_fuel(pow2, 65);
}

/// The binary logarithm's floor is the unique `k` with
/// `2^k <= n < 2^(k+1)`.
pub proof fn lemma_log2_unique(n: nat, k: nat)
    requires
        pow2(k) <= n < pow2(k + 1),
    ensures
        log2_floor(n) == k,
    decreases k,
{
    if k == 0 {
        assert(n == 1);
    } else {
        lemma_pow2_pos((k - 1) as nat);
        assert(pow2(k) == 2 * pow2((k - 1) as nat));
        assert(pow2(k + 1) == 2 * pow2(k));
        assert(n >= 2);
        assert(pow2((k - 1) as nat) <= n / 2 < pow2(k));
        lemma_log2_unique(n / 2, (k - 1) as nat);
    }
}

/// The defined square-root floor is indeed a floor of the square root.
pub proof fn lemma_sqrt_floor_bounds(x: nat)
    ensures
        sqrt_floor(x) * sqrt_floor(x) <= x,
        (sqrt_floor(x) + 1) * (sqrt_floor(x) + 1) > x,
    decreases x,
{
    if x > 0 {
        reveal_with_fuel(sqrt_floor, 2);
        lemma_sqrt_floor_bounds((x - 1) as nat);
        let r = sqrt_floor((x - 1) as nat);
        assert(r * r <= x - 1);
        assert((r + 1) * (r + 1) > x - 1);
        if (r + 1) * (r + 1) <= x {
            assert(sqrt_floor(x) == r + 1);
            assert((r + 1) * (r + 1) == x);
            assert((r + 2) * (r + 2) > x) by (nonlinear_arith)
                requires
                    (r + 1) * (r + 1) == x,
            ;
            assert(sqrt_floor(x) + 1 == r + 2);
        } else {
            assert(sqrt_floor(x) == r);
            assert(r * r <= x);
        }
    } else {
        assert(sqrt_floor(x) == 0);
        assert(1nat * 1nat > 0) by (nonlinear_arith);
        assert((sqrt_floor(x) + 1) * (sqrt_floor(x) + 1) == 1nat * 1nat);
    }
}

/// Any `r` with `r^2 <= x < (r+1)^2` is the square root's floor.
pub proof fn lemma_sqrt_unique(x: nat, r: nat)
    requires
        r * r <= x,
        (r + 1) * (r + 1) > x,
    ensures
        sqrt_floor(x) == r,
{
    let s = sqrt_floor(x);
    lemma_sqrt_floor_bounds(x);
    if r < s {
        assert((r + 1) * (r + 1) <= s * s) by (nonlinear_arith)
            requires
                r + 1 <= s,
        ;
    }
    if s < r {
        assert((s + 1) * (s + 1) <= r * r) by (nonlinear_arith)
            requires
                s + 1 <= r,
        ;
    }
}

/// The square root's floor never exceeds its argument.
pub proof fn lemma_sqrt_le(x: nat)
    ensures
        sqrt_floor(x) <= x,
{
    lemma_sqrt_floor_bounds(x);
    let s = sqrt_floor(x);
    if s > x {
        assert(s * s >= s * 1) by (nonlinear_arith)
            requires
                s >= 1,
        ;
    }
}

/// The exact integer square root, by binary search.
pub fn isqrt(x: u64) -> (r: u64)
    ensures
        r as nat == sqrt_floor(x as nat),
{
    if x == 0 {
        return 0;
    }
    let mut lo: u64 = 0;
    let mut hi: u64 = 4294967296;
    proof {
        assert((4294967296int) * 4294967296 == 0x10000000000000000);
    }
    while hi - lo > 1
        invariant
            lo < hi <= 4294967296,
            (lo as int) * (lo as int) <= x as int,
            (x as int) < (hi as int) * (hi as int),
        decreases hi - lo,
    {
        let mid = lo + (hi - lo) / 2;
        proof {
            assert((mid as int) * (mid as int) <= 4294967296int * 4294967296int)
                by (nonlinear_arith)
                requires
                    0 <= (mid as int) <= 4294967296int,
            ;
        }
        if (mid as u128) * (mid as u128) <= x as u128 {
            lo = mid;
        } else {
            hi = mid;
        }
    }
    proof {
        assert(hi == lo + 1);
        lemma_sqrt_unique(x as nat, lo as nat);
    }
    lo
}

/// The fixed-point natural logarithm: computes `ln_scaled_spec` exactly.
/// The result is at most `64 * LN2_SCALED`, the scaled logarithm of the
/// largest `u64`.
pub fn ln_scaled(n: u64) -> (r: u64)
    requires
        n >= 1,
    ensures
        r as int == ln_scaled_spec(n as nat),
        r <= 64 * LN2_SCALED,
{
    let mut k: u64 = 0;
    let mut p: u64 = 1;
    while p <= n / 2
        invariant
            n >= 1,
            k <= 63,
            1 <= p <= n,
            p as nat == pow2(k as nat),
        decreases n - p,
    {
        proof {
            lemma_pow2_64();
            if k + 1 >= 64 {
                lemma_pow2_monotone(64, (k + 1) as nat);
            }
            assert(2 * p <= n);
            assert(pow2((k + 1) as nat) == 2 * pow2(k as nat));
        }
        p = p * 2;
        k = k + 1;
    }
    proof {
        assert(n < 2 * p);
        assert(pow2((k + 1) as nat) == 2 * pow2(k as nat));
        lemma_log2_unique(n as nat, k as nat);
    }
    let diff = n - p;
    proof {
        assert((diff as int) * (LN2_SCALED as int) < (p as int) * (LN2_SCALED as int))
            by (nonlinear_arith)
            requires
                0 <= (diff as int) < (p as int),
        ;
        assert((diff as int) * (LN2_SCALED as int) < 0x10000000000000000 * 0x10000int)
            by (nonlinear_arith)
            requires
                0 <= (diff as int) < 0x10000000000000000 && 0 <= (LN2_SCALED as int) < 0x10000int,
        ;
        lemma_multiply_divide_lt((diff as int) * (LN2_SCALED as int), p as int, LN2_SCALED as int);
        assert(((diff as int) * (LN2_SCALED as int)) / (p as int) < LN2_SCALED);
    }
    let frac = (((diff as u128) * (LN2_SCALED as u128)) / (p as u128)) as u64;
    proof {
        assert(frac < LN2_SCALED);
        assert(k * LN2_SCALED <= 63 * 45426int);
    }
    k * LN2_SCALED + frac
}

} // verus!
