//! Integer square roots: the rounding step of both the pan and the volume formula.

use vstd::prelude::*;

verus! {

/// Whether `s` is the square root of `n` rounded down: the one natural number
/// with `s * s <= n < (s + 1) * (s + 1)`.
pub open spec fn is_floor_sqrt(n: int, s: int) -> bool {
    0 <= s && s * s <= n && n < (s + 1) * (s + 1)
}

/// The square root of `n` rounded down; zero for a negative `n`.
pub open spec fn floor_sqrt(n: int) -> int
    decreases n,
{
    if n <= 0 {
        0
    } else {
        let s = floor_sqrt(n - 1);
        if (s + 1) * (s + 1) <= n {
            s + 1
        } else {
            s
        }
    }
}

/// `floor_sqrt` meets its characterisation on every natural number.
pub proof fn lemma_floor_sqrt_is_root(n: int)
    requires
        0 <= n,
    ensures
        is_floor_sqrt(n, floor_sqrt(n)),
    decreases n,
{
    if n > 0 {
        lemma_floor_sqrt_is_root(n - 1);
        let s = floor_sqrt(n - 1);
        assert((s + 2) * (s + 2) > (s + 1) * (s + 1) + 1) by (nonlinear_arith)
            requires
                0 <= s,
        ;
    }
}

/// At most one number is the rounded-down square root of `n`.
pub proof fn lemma_floor_sqrt_unique(n: int, s: int, t: int)
    requires
        is_floor_sqrt(n, s),
        is_floor_sqrt(n, t),
    ensures
        s == t,
{
    if s < t {
        assert((s + 1) * (s + 1) <= t * t) by (nonlinear_arith)
            requires
                0 <= s,
                s + 1 <= t,
        ;
    } else if t < s {
        assert((t + 1) * (t + 1) <= s * s) by (nonlinear_arith)
            requires
                0 <= t,
                t + 1 <= s,
        ;
    }
}

/// A number that meets the characterisation is `floor_sqrt(n)`.
pub proof fn lemma_floor_sqrt_from_bounds(n: int, s: int)
    requires
        is_floor_sqrt(n, s),
    ensures
        floor_sqrt(n) == s,
{
    assert(0 <= n) by (nonlinear_arith)
        requires
            s * s <= n,
    ;
    lemma_floor_sqrt_is_root(n);
    lemma_floor_sqrt_unique(n, s, floor_sqrt(n));
}

/// The rounded-down square root never decreases when its argument grows.
pub proof fn lemma_floor_sqrt_monotonic(a: int, b: int)
    requires
        a <= b,
    ensures
        floor_sqrt(a) <= floor_sqrt(b),
{
    if a <= 0 {
        if b > 0 {
            lemma_floor_sqrt_is_root(b);
        }
    } else {
        lemma_floor_sqrt_is_root(a);
        lemma_floor_sqrt_is_root(b);
        let s = floor_sqrt(a);
        let t = floor_sqrt(b);
        if t < s {
            assert((t + 1) * (t + 1) <= s * s) by (nonlinear_arith)
                requires
                    0 <= t,
                    t + 1 <= s,
            ;
        }
    }
}

/// The root of a perfect square is its base.
pub proof fn lemma_floor_sqrt_of_square(s: int)
    requires
        0 <= s,
    ensures
        floor_sqrt(s * s) == s,
{
    assert(s * s < (s + 1) * (s + 1)) by (nonlinear_arith)
        requires
            0 <= s,
    ;
    lemma_floor_sqrt_from_bounds(s * s, s);
}

/// The square root of `n`, rounded down.
pub fn isqrt(n: u64) -> (s: u64)
    ensures
        s == floor_sqrt(n as int),
        is_floor_sqrt(n as int, s as int),
{
    let mut low: u64 = 0;
    let mut high: u64 = 0x1_0000_0000;
    while high - low > 1
        invariant
            low < high <= 0x1_0000_0000,
            low * low <= n,
            n < high * high,
        decreases high - low,
    {
        let mid: u64 = low + (high - low) / 2;
        assert(mid * mid <= 0xffff_ffff * 0xffff_ffff) by (nonlinear_arith)
            requires
                0 <= mid <= 0xffff_ffff,
        ;
        if mid * mid <= n {
            low = mid;
        } else {
            high = mid;
        }
    }
    proof {
        lemma_floor_sqrt_from_bounds(n as int, low as int);
    }
    low
}

} // verus!
