//! Points and displacements of the lattice.

use vstd::prelude::*;
use crate::arith::{ceil_sqrt, div_toward_zero, lemma_ceil_sqrt, lemma_trunc_div_square, sqrt_up, square, trunc_div};

verus! {

/// A point of the lattice, or the displacement between two of them.
#[derive(Clone, Copy, Debug, PartialEq, Eq, Structural)]
pub struct Vec2 {
    pub x: i32,
    pub y: i32,
}

/// The farthest apart two coordinates can lie, and so the longest component
/// `stretched` takes: 2^32.
pub const SPAN: i64 = 4_294_967_296;

impl Vec2 {
    /// The displacement of no length.
    pub open spec fn zero() -> Vec2 {
        Vec2 { x: 0, y: 0 }
    }

    /// The square of the distance from the origin.
    pub open spec fn norm_sq(self) -> int {
        self.x * self.x + self.y * self.y
    }

    /// The square of the distance to `other`.
    pub open spec fn dist_sq(self, other: Vec2) -> int {
        (self.x - other.x) * (self.x - other.x) + (self.y - other.y) * (self.y - other.y)
    }

    pub fn new(x: i32, y: i32) -> (v: Vec2)
        ensures
            v == (Vec2 { x, y }),
    {
        Vec2 { x, y }
    }
}

/// What a displacement is multiplied by before its length is taken, so
/// that the rounding of the length costs less than one unit: 2^31.
pub const SCALE: i64 = 2_147_483_648;

/// The displacement `(dx, dy)` brought to length `s` without turning it, each
/// component rounded toward zero; `(0, 0)` stays `(0, 0)`. The length it is
/// divided by is its own, taken `SCALE` times as large and rounded up, so the
/// outcome is never longer than `s`, and shorter by a few units at most. A
/// negative `s` turns it round.
pub open spec fn stretch(dx: int, dy: int, s: int) -> (int, int) {
    if dx == 0 && dy == 0 {
        (0, 0)
    } else {
        let len = ceil_sqrt((dx * dx + dy * dy) * (SCALE * SCALE));
        (trunc_div(dx * s * SCALE, len), trunc_div(dy * s * SCALE, len))
    }
}

/// The length that `stretch` divides by is positive and at least `SCALE`,
/// and its square reaches the scaled square of the displacement, which the
/// square of the number before it does not.
pub proof fn lemma_stretch_len(dx: int, dy: int)
    requires
        dx != 0 || dy != 0,
    ensures
        ({
            let m = (dx * dx + dy * dy) * (SCALE * SCALE);
            let len = ceil_sqrt(m);
            &&& len >= SCALE
            &&& len * len >= m
            &&& (len - 1) * (len - 1) < m
            &&& m == (dx * SCALE) * (dx * SCALE) + (dy * SCALE) * (dy * SCALE)
        }),
{
    let k: int = SCALE as int;
    let n: int = dx * dx + dy * dy;
    let m: int = n * (k * k);
    let len: int = ceil_sqrt(m);
    lemma_ceil_sqrt(m);
    assert(n >= 1) by (nonlinear_arith)
        requires
            n == dx * dx + dy * dy,
            dx != 0 || dy != 0,
    ;
    assert(m >= k * k) by (nonlinear_arith)
        requires
            m == n * (k * k),
            n >= 1,
    ;
    assert(len >= k) by (nonlinear_arith)
        requires
            len * len >= m,
            m >= k * k,
            len >= 0,
            k > 0,
    ;
    assert(m == (dx * k) * (dx * k) + (dy * k) * (dy * k)) by (nonlinear_arith)
        requires
            m == (dx * dx + dy * dy) * (k * k),
    ;
}

/// `stretch` to a length `s >= 0` gives nothing longer than `s`.
pub proof fn lemma_stretch_within(dx: int, dy: int, s: int)
    requires
        s >= 0,
    ensures
        stretch(dx, dy, s).0 * stretch(dx, dy, s).0 + stretch(dx, dy, s).1 * stretch(dx, dy, s).1
            <= s * s,
{
    if dx == 0 && dy == 0 {
        assert(0 <= s * s) by (nonlinear_arith);
    } else {
        let k: int = SCALE as int;
        let len: int = ceil_sqrt((dx * dx + dy * dy) * (SCALE * SCALE));
        lemma_stretch_len(dx, dy);
        let cx: int = dx * k;
        let cy: int = dy * k;
        assert(dx * s * k == cx * s && dy * s * k == cy * s) by (nonlinear_arith)
            requires
                cx == dx * k,
                cy == dy * k,
        ;
        let a: int = trunc_div(cx * s, len);
        let b: int = trunc_div(cy * s, len);
        lemma_trunc_div_square(cx, s, len);
        lemma_trunc_div_square(cy, s, len);
        assert(a * a + b * b <= s * s) by (nonlinear_arith)
            requires
                (a * a) * (len * len) <= (cx * cx) * (s * s),
                (b * b) * (len * len) <= (cy * cy) * (s * s),
                cx * cx + cy * cy <= len * len,
                len > 0,
        ;
    }
}

/// Computes `stretch` for components of at most 33 bits, which is what the
/// coordinates and radii of the lattice give.
pub(crate) fn stretched(dx: i64, dy: i64, s: i64) -> (r: (i128, i128))
    requires
        -SPAN <= dx <= SPAN,
        -SPAN <= dy <= SPAN,
        -SPAN <= s <= SPAN,
    ensures
        r.0 == stretch(dx as int, dy as int, s as int).0,
        r.1 == stretch(dx as int, dy as int, s as int).1,
        -39_614_081_257_132_168_796_771_975_168 <= r.0 <= 39_614_081_257_132_168_796_771_975_168,
        -39_614_081_257_132_168_796_771_975_168 <= r.1 <= 39_614_081_257_132_168_796_771_975_168,
{
    if dx == 0 && dy == 0 {
        return (0, 0);
    }
    let n: i128 = square(dx) + square(dy);
    let kk: i128 = square(SCALE);
    let k: i128 = SCALE as i128;
    let wx: i128 = dx as i128;
    let wy: i128 = dy as i128;
    let ws: i128 = s as i128;
    assert(kk == 4_611_686_018_427_387_904) by (nonlinear_arith)
        requires
            kk == 2_147_483_648 * 2_147_483_648,
    ;
    let un: u128 = n as u128;
    let ukk: u128 = kk as u128;
    assert(0 <= un * ukk <= 170_141_183_460_469_231_731_687_303_715_884_105_728)
        by (nonlinear_arith)
        requires
            0 <= un <= 36_893_488_147_419_103_232,
            ukk == 4_611_686_018_427_387_904,
    ;
    assert(-18_446_744_073_709_551_616 <= wx * ws <= 18_446_744_073_709_551_616
        && -18_446_744_073_709_551_616 <= wy * ws <= 18_446_744_073_709_551_616)
        by (nonlinear_arith)
        requires
            -4_294_967_296 <= wx <= 4_294_967_296,
            -4_294_967_296 <= wy <= 4_294_967_296,
            -4_294_967_296 <= ws <= 4_294_967_296,
    ;
    let px: i128 = wx * ws;
    let py: i128 = wy * ws;
    assert(-39_614_081_257_132_168_796_771_975_168 <= px * k
        <= 39_614_081_257_132_168_796_771_975_168 && -39_614_081_257_132_168_796_771_975_168
        <= py * k <= 39_614_081_257_132_168_796_771_975_168) by (nonlinear_arith)
        requires
            -18_446_744_073_709_551_616 <= px <= 18_446_744_073_709_551_616,
            -18_446_744_073_709_551_616 <= py <= 18_446_744_073_709_551_616,
            k == 2_147_483_648,
    ;
    let len: u128 = sqrt_up(un * ukk);
    proof {
        lemma_stretch_len(dx as int, dy as int);
    }
    let wl: i128 = len as i128;
    (div_toward_zero(px * k, wl), div_toward_zero(py * k, wl))
}

} // verus!
