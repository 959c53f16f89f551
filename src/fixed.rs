use vstd::prelude::*;

verus! {

/// Fixed-point one: a direction of unit length has components whose squares
/// sum to about `ONE * ONE`, and a colour channel of full intensity is `ONE`.
pub const ONE: i64 = 4096;

/// Largest magnitude of a coordinate or a radius that the geometry accepts.
pub const COORD_MAX: i64 = 1048576;

/// `s` is the floor of the square root of `n`.
pub open spec fn is_sqrt_floor(n: int, s: int) -> bool {
    0 <= s && s * s <= n && n < (s + 1) * (s + 1)
}

/// The floor of the square root of a non-negative integer.
pub open spec fn sqrt_floor(n: int) -> int {
    choose|s: int| is_sqrt_floor(n, s)
}

/// Division rounded toward zero, as a cast of a real quotient to an integer.
pub open spec fn div_toward_zero(n: int, d: int) -> int {
    if n >= 0 {
        n / d
    } else {
        -((-n) / d)
    }
}

/// `x` held within `[min, max]`.
pub open spec fn clamp_spec(min: int, max: int, x: int) -> int {
    if x > max {
        max
    } else if x < min {
        min
    } else {
        x
    }
}

/// There is one floor square root of each non-negative integer.
pub proof fn lemma_sqrt_floor_unique(n: int, s: int)
    requires
        is_sqrt_floor(n, s),
    ensures
        sqrt_floor(n) == s,
{
    let t = sqrt_floor(n);
    assert(is_sqrt_floor(n, t));
    if t < s {
        assert((t + 1) * (t + 1) <= s * s) by (nonlinear_arith)
            requires
                0 <= t,
                t + 1 <= s,
        ;
    } else if s < t {
        assert((s + 1) * (s + 1) <= t * t) by (nonlinear_arith)
            requires
                0 <= s,
                s + 1 <= t,
        ;
    }
}

/// A square's floor square root is its root.
pub proof fn lemma_sqrt_floor_of_square(s: int)
    requires
        0 <= s,
    ensures
        sqrt_floor(s * s) == s,
{
    assert(s * s < (s + 1) * (s + 1)) by (nonlinear_arith)
        requires
            0 <= s,
    ;
    lemma_sqrt_floor_unique(s * s, s);
}

/// A number whose square is at most `n` is at most the floor square root of `n`.
pub proof fn lemma_le_sqrt_floor(n: int, a: int)
    requires
        0 <= a,
        a * a <= n,
        0 <= n,
    ensures
        a <= sqrt_floor(n),
        is_sqrt_floor(n, sqrt_floor(n)),
{
    let s = sqrt_floor(n);
    lemma_sqrt_floor_exists(n);
    assert(is_sqrt_floor(n, s));
    if a > s {
        assert((s + 1) * (s + 1) <= a * a) by (nonlinear_arith)
            requires
                0 <= s,
                s + 1 <= a,
        ;
    }
}

/// Every non-negative integer has a floor square root.
pub proof fn lemma_sqrt_floor_exists(n: int)
    requires
        0 <= n,
    ensures
        exists|s: int| is_sqrt_floor(n, s),
    decreases n,
{
    if n == 0 {
        assert(is_sqrt_floor(0, 0));
    } else {
        let m = n - 1;
        lemma_sqrt_floor_exists(m);
        let s = choose|s: int| is_sqrt_floor(m, s);
        if (s + 1) * (s + 1) <= n {
            assert(n < (s + 2) * (s + 2)) by (nonlinear_arith)
                requires
                    n - 1 < (s + 1) * (s + 1),
                    0 <= s,
            ;
            assert(is_sqrt_floor(n, s + 1));
        } else {
            assert(is_sqrt_floor(n, s));
        }
    }
}

/// The floor of the square root of `n`, by bisection.
pub fn sqrt_floor_u128(n: u128) -> (r: u128)
    requires
        n < 0x1000_0000_0000_0000_0000_0000_0000_0000,
    ensures
        r as int == sqrt_floor(n as int),
        is_sqrt_floor(n as int, r as int),
        r < 0x4000_0000_0000_0000,
{
    let mut lo: u128 = 0;
    let mut hi: u128 = 0x4000_0000_0000_0000;
    assert(n < hi * hi) by (nonlinear_arith)
        requires
            n < 0x1000_0000_0000_0000_0000_0000_0000_0000,
            hi == 0x4000_0000_0000_0000,
    ;
    while hi - lo > 1
        invariant
            lo < hi <= 0x4000_0000_0000_0000,
            lo * lo <= n,
            n < hi * hi,
        decreases hi - lo,
    {
        let mid: u128 = lo + (hi - lo) / 2;
        assert(mid * mid <= 0x4000_0000_0000_0000 * 0x4000_0000_0000_0000) by (nonlinear_arith)
            requires
                mid < 0x4000_0000_0000_0000,
        ;
        if mid * mid <= n {
            lo = mid;
        } else {
            hi = mid;
        }
    }
    proof {
        lemma_sqrt_floor_unique(n as int, lo as int);
    }
    lo
}

/// `n / d` rounded toward zero.
pub fn div_toward_zero_i128(n: i128, d: i128) -> (r: i128)
    requires
        d > 0,
        n > i128::MIN,
    ensures
        r as int == div_toward_zero(n as int, d as int),
{
    if n >= 0 {
        n / d
    } else {
        let m: i128 = -n;
        -(m / d)
    }
}

/// `x` held within `[min, max]`.
pub fn clampf32(min: i64, max: i64, x: i64) -> (r: i64)
    ensures
        r == clamp_spec(min as int, max as int, x as int),
{
    if x > max {
        max
    } else if x < min {
        min
    } else {
        x
    }
}

/// `x` held within the unit range `[0, ONE]`.
pub fn saturatef32(x: i64) -> (r: i64)
    ensures
        r == clamp_spec(0, ONE as int, x as int),
        0 <= r <= ONE,
{
    clampf32(0, ONE, x)
}

} // verus!
