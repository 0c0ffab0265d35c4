//! Whole-number arithmetic shared by the geometry: saturation to the
//! coordinate range, division that rounds toward zero, and the square root
//! rounded up.

use vstd::prelude::*;

verus! {

/// The coordinate `v` saturates to: `v` itself where it fits in an `i32`,
/// else the nearer end of the range.
pub open spec fn sat(v: int) -> i32 {
    if v < i32::MIN {
        i32::MIN
    } else if v > i32::MAX {
        i32::MAX
    } else {
        v as i32
    }
}

/// The quotient of `p` by a positive `q`, rounded toward zero.
pub open spec fn trunc_div(p: int, q: int) -> int {
    if p >= 0 {
        p / q
    } else {
        -((-p) / q)
    }
}

/// `r` is the least natural number whose square reaches `n`.
pub open spec fn is_ceil_sqrt(n: int, r: int) -> bool {
    &&& r >= 0
    &&& r * r >= n
    &&& (r == 0 || (r - 1) * (r - 1) < n)
}

/// The square root of `n`, rounded up; 0 for `n <= 0`.
pub open spec fn ceil_sqrt(n: int) -> int {
    choose|r: int| is_ceil_sqrt(n, r)
}

/// Some natural number at or above `r` is the rounded-up root of `n`,
/// provided no smaller one is.
proof fn lemma_ceil_sqrt_search(n: int, r: int)
    requires
        r >= 0,
        r == 0 || (r - 1) * (r - 1) < n,
    ensures
        exists|s: int| is_ceil_sqrt(n, s),
    decreases (if n > r * r { n - r * r } else { 0 }),
{
    if r * r >= n {
        assert(is_ceil_sqrt(n, r));
    } else {
        assert((r + 1) * (r + 1) > r * r) by (nonlinear_arith)
            requires
                r >= 0,
        ;
        lemma_ceil_sqrt_search(n, r + 1);
    }
}

/// Two numbers that both are the rounded-up root of `n` are equal.
pub proof fn lemma_ceil_sqrt_unique(n: int, r: int, s: int)
    requires
        is_ceil_sqrt(n, r),
        is_ceil_sqrt(n, s),
    ensures
        r == s,
{
    if r < s {
        assert(r * r <= (s - 1) * (s - 1)) by (nonlinear_arith)
            requires
                0 <= r <= s - 1,
        ;
    } else if s < r {
        assert(s * s <= (r - 1) * (r - 1)) by (nonlinear_arith)
            requires
                0 <= s <= r - 1,
        ;
    }
}

/// `ceil_sqrt(n)` is the least natural number whose square reaches `n`.
pub proof fn lemma_ceil_sqrt(n: int)
    ensures
        is_ceil_sqrt(n, ceil_sqrt(n)),
{
    lemma_ceil_sqrt_search(n, 0);
}

/// Saturates a wide value to the coordinate range.
pub fn saturate(v: i128) -> (r: i32)
    ensures
        r == sat(v as int),
{
    if v < -2147483648i128 {
        i32::MIN
    } else if v > 2147483647i128 {
        i32::MAX
    } else {
        v as i32
    }
}

/// Divides by a positive number, rounding toward zero.
pub fn div_toward_zero(p: i128, q: i128) -> (r: i128)
    requires
        q > 0,
        p > i128::MIN,
    ensures
        r == trunc_div(p as int, q as int),
        p >= 0 ==> 0 <= r <= p,
        p <= 0 ==> p <= r <= 0,
{
    if p >= 0 {
        let r: i128 = p / q;
        proof {
            vstd::arithmetic::div_mod::lemma_div_pos_is_pos(p as int, q as int);
            vstd::arithmetic::div_mod::lemma_div_is_ordered_by_denominator(p as int, 1, q as int);
        }
        r
    } else {
        let m: i128 = -p;
        proof {
            vstd::arithmetic::div_mod::lemma_div_pos_is_pos(m as int, q as int);
            vstd::arithmetic::div_mod::lemma_div_is_ordered_by_denominator(m as int, 1, q as int);
        }
        let r: i128 = m / q;
        -r
    }
}

/// Rounding a quotient toward zero does not lengthen it: with
/// `q = trunc_div(c * s, len)`, the square of `q * len` is at most that of
/// `c * s`.
pub proof fn lemma_trunc_div_square(c: int, s: int, len: int)
    requires
        len > 0,
    ensures
        (trunc_div(c * s, len) * trunc_div(c * s, len)) * (len * len) <= (c * c) * (s * s),
{
    let p: int = c * s;
    let m: int = if p >= 0 { p } else { -p };
    let q: int = m / len;
    vstd::arithmetic::div_mod::lemma_fundamental_div_mod(m, len);
    vstd::arithmetic::div_mod::lemma_div_pos_is_pos(m, len);
    vstd::arithmetic::div_mod::lemma_mod_bound(m, len);
    assert(0 <= len * q <= m);
    let t: int = trunc_div(p, len);
    assert(t == q || t == -q);
    assert(t * t == q * q) by (nonlinear_arith)
        requires
            t == q || t == -q,
    ;
    assert((q * q) * (len * len) <= m * m) by (nonlinear_arith)
        requires
            0 <= len * q <= m,
    ;
    assert(m * m == (c * c) * (s * s)) by (nonlinear_arith)
        requires
            m == c * s || m == -(c * s),
    ;
}

/// The square of `v`.
pub fn square(v: i64) -> (r: i128)
    ensures
        r == v * v,
        r >= 0,
        -4_294_967_296 <= v <= 4_294_967_296 ==> r <= 18_446_744_073_709_551_616,
{
    let w: i128 = v as i128;
    assert(0 <= w * w <= 85_070_591_730_234_615_865_843_651_857_942_052_864) by (nonlinear_arith)
        requires
            -9_223_372_036_854_775_808 <= w <= 9_223_372_036_854_775_808,
    ;
    assert(-4_294_967_296 <= w <= 4_294_967_296 ==> w * w <= 18_446_744_073_709_551_616)
        by (nonlinear_arith);
    w * w
}

/// `sat` never lengthens: the square of what it returns is at most the
/// square of what it was given.
pub proof fn lemma_sat_shrinks(v: int)
    ensures
        sat(v) * sat(v) <= v * v,
{
    let w: int = sat(v) as int;
    if v < i32::MIN {
        assert(w * w <= v * v) by (nonlinear_arith)
            requires
                v <= w <= 0,
        ;
    } else if v > i32::MAX {
        assert(w * w <= v * v) by (nonlinear_arith)
            requires
                0 <= w <= v,
        ;
    }
}

/// The square root of `n`, rounded up, found by bisection.
pub fn sqrt_up(n: u128) -> (r: u128)
    ensures
        r == ceil_sqrt(n as int),
        r <= 18_446_744_073_709_551_616,
{
    if n == 0 {
        proof {
            lemma_ceil_sqrt(0);
            lemma_ceil_sqrt_unique(0, 0, ceil_sqrt(0));
        }
        return 0;
    }
    let mut lo: u128 = 0;
    let mut hi: u128 = 18_446_744_073_709_551_616;
    assert(hi * hi >= n) by (nonlinear_arith)
        requires
            hi == 18_446_744_073_709_551_616,
            n <= 340_282_366_920_938_463_463_374_607_431_768_211_455,
    ;
    while hi - lo > 1
        invariant
            0 < n,
            lo < hi <= 18_446_744_073_709_551_616,
            lo * lo < n,
            hi * hi >= n,
        decreases hi - lo,
    {
        let mid: u128 = lo + (hi - lo) / 2;
        assert(mid * mid <= 340_282_366_920_938_463_426_481_119_284_349_108_225)
            by (nonlinear_arith)
            requires
                0 <= mid <= 18_446_744_073_709_551_615,
        ;
        if mid * mid >= n {
            hi = mid;
        } else {
            lo = mid;
        }
    }
    proof {
        assert(is_ceil_sqrt(n as int, hi as int));
        lemma_ceil_sqrt(n as int);
        lemma_ceil_sqrt_unique(n as int, hi as int, ceil_sqrt(n as int));
    }
    hi
}

} // verus!
