//! What holds of the simulation as a whole, proved from the definitions of
//! the other modules.

use vstd::prelude::*;
use vstd::math::abs;
use crate::arith::{ceil_sqrt, lemma_ceil_sqrt, lemma_sat_shrinks, trunc_div};
use crate::object::{Config, Object};
use crate::scheduler::{due, lemma_next_offset, lemma_whole_period, offset, whole_period};
use crate::vector::{lemma_stretch_len, lemma_stretch_within, stretch, Vec2, SCALE};
use crate::world::{lemma_run_keeps, lemma_step_upto_keeps, run, step_one, step_upto, stepped};

verus! {

/// The wall contains: in an arena that has room for the disk, the disk lies
/// wholly inside once the wall has corrected it. The centre's distance from
/// the origin plus the radius is then at most the arena's radius, with
/// nothing to spare for rounding.
pub proof fn law_wall_contains(o: Object, bound: i32)
    requires
        bound >= o.radius,
    ensures
        !o.bounded(bound).out_of_bounds(bound),
        o.bounded(bound).position.norm_sq() <= (bound - o.radius) * (bound - o.radius),
{
    if o.out_of_bounds(bound) {
        let d = crate::vector::stretch(
            o.position.x as int,
            o.position.y as int,
            bound - o.radius,
        );
        lemma_stretch_within(o.position.x as int, o.position.y as int, bound - o.radius);
        lemma_sat_shrinks(d.0);
        lemma_sat_shrinks(d.1);
    }
}

/// Whether the correction of the pair keeps both centres on the lattice:
/// whether none of the four coordinates it asks for is cut to the range.
pub open spec fn pair_fits(a: Object, b: Object) -> bool {
    let mx = trunc_div(a.position.x + b.position.x, 2);
    let my = trunc_div(a.position.y + b.position.y, 2);
    let dx = a.position.x - b.position.x;
    let dy = a.position.y - b.position.y;
    let sa = stretch(dx, dy, a.radius as int);
    let sb = stretch(-dx, -dy, b.radius as int);
    &&& i32::MIN <= mx + sa.0 <= i32::MAX
    &&& i32::MIN <= my + sa.1 <= i32::MAX
    &&& i32::MIN <= mx + sb.0 <= i32::MAX
    &&& i32::MIN <= my + sb.1 <= i32::MAX
}

/// One axis of a correction. Along it the centres lay `c` apart, and they
/// end `w` apart, where the radii are `ra` and `rb` and `len` is the
/// rounded-up distance of the centres. Then `w * len` is at most
/// `|c| * (ra + rb)`, and `(w + 2) * len` is at least that.
proof fn lemma_push_component(c: int, ra: int, rb: int, len: int)
    requires
        ra >= 0,
        rb >= 0,
        len > 0,
    ensures
        ({
            let w = abs(trunc_div(c * ra, len) - trunc_div((-c) * rb, len));
            &&& (w * w) * (len * len) <= (c * c) * ((ra + rb) * (ra + rb))
            &&& ((w + 2) * (w + 2)) * (len * len) >= (c * c) * ((ra + rb) * (ra + rb))
        }),
{
    let x: int = abs(c) as int;
    let pa: int = x * ra;
    let pb: int = x * rb;
    assert(pa >= 0 && pb >= 0) by (nonlinear_arith)
        requires
            pa == x * ra,
            pb == x * rb,
            x >= 0,
            ra >= 0,
            rb >= 0,
    ;
    let q1: int = pa / len;
    let q2: int = pb / len;
    vstd::arithmetic::div_mod::lemma_fundamental_div_mod(pa, len);
    vstd::arithmetic::div_mod::lemma_fundamental_div_mod(pb, len);
    vstd::arithmetic::div_mod::lemma_mod_bound(pa, len);
    vstd::arithmetic::div_mod::lemma_mod_bound(pb, len);
    vstd::arithmetic::div_mod::lemma_div_pos_is_pos(pa, len);
    vstd::arithmetic::div_mod::lemma_div_pos_is_pos(pb, len);
    assert(pa == 0 ==> q1 == 0) by (nonlinear_arith)
        requires
            pa == len * q1 + pa % len,
            0 <= pa % len,
            q1 >= 0,
            len > 0,
    ;
    assert(pb == 0 ==> q2 == 0) by (nonlinear_arith)
        requires
            pb == len * q2 + pb % len,
            0 <= pb % len,
            q2 >= 0,
            len > 0,
    ;
    assert(c * ra == (if c >= 0 { pa } else { -pa }) && (-c) * rb == (if c >= 0 { -pb } else { pb }))
        by (nonlinear_arith)
        requires
            pa == x * ra,
            pb == x * rb,
            x == (if c >= 0 { c } else { -c }),
    ;
    let fa: int = trunc_div(c * ra, len);
    let fb: int = trunc_div((-c) * rb, len);
    assert(fa == (if c >= 0 { q1 } else { -q1 }));
    assert(fb == (if c >= 0 { -q2 } else { q2 }));
    let w: int = abs(fa - fb) as int;
    assert(w == q1 + q2);
    let t: int = x * (ra + rb);
    assert(t == pa + pb && w * len == len * q1 + len * q2) by (nonlinear_arith)
        requires
            t == x * (ra + rb),
            pa == x * ra,
            pb == x * rb,
            w == q1 + q2,
    ;
    assert(0 <= w * len <= t);
    assert(t < (w + 2) * len) by (nonlinear_arith)
        requires
            t == pa + pb,
            pa == len * q1 + pa % len,
            pb == len * q2 + pb % len,
            pa % len < len,
            pb % len < len,
            w == q1 + q2,
    ;
    assert((w * w) * (len * len) <= t * t) by (nonlinear_arith)
        requires
            0 <= w * len <= t,
    ;
    assert(((w + 2) * (w + 2)) * (len * len) >= t * t) by (nonlinear_arith)
        requires
            0 <= t < (w + 2) * len,
    ;
    assert(t * t == (c * c) * ((ra + rb) * (ra + rb))) by (nonlinear_arith)
        requires
            t == x * (ra + rb),
            x == c || x == -c,
    ;
}

/// Two lengths `p` and `q` along the axes whose square sum, times the
/// square of `len`, reaches the square of `(len - 1) * s`, with `s` at most
/// `len`: one more along each axis gives a distance of at least `s`.
proof fn lemma_one_more_reaches(p: int, q: int, s: int, len: int)
    requires
        p >= 0,
        q >= 0,
        s >= 0,
        len >= 1,
        s <= len,
        (p * p + q * q) * (len * len) >= ((len - 1) * (len - 1)) * (s * s),
    ensures
        (p + 1) * (p + 1) + (q + 1) * (q + 1) >= s * s,
{
    let big: int = p * p + q * q;
    let m: int = p + q;
    if (p + 1) * (p + 1) + (q + 1) * (q + 1) < s * s {
        assert((p + 1) * (p + 1) + (q + 1) * (q + 1) == big + 2 * m + 2 && m * m >= big)
            by (nonlinear_arith)
            requires
                big == p * p + q * q,
                m == p + q,
                p >= 0,
                q >= 0,
        ;
        assert(s >= 1) by (nonlinear_arith)
            requires
                s >= 0,
                s * s > 0,
        ;
        assert((s - 1) * (s - 1) > big) by (nonlinear_arith)
            requires
                s * s > big + 2 * m + 2,
                m * m >= big,
                m >= 0,
                s >= 1,
        ;
        assert(((s - 1) * (s - 1)) * (len * len) <= ((len - 1) * (len - 1)) * (s * s))
            by (nonlinear_arith)
            requires
                1 <= s <= len,
        ;
        assert(big * (len * len) < ((s - 1) * (s - 1)) * (len * len)) by (nonlinear_arith)
            requires
                (s - 1) * (s - 1) > big,
                len >= 1,
        ;
    }
}

/// Pairs are pushed apart: two overlapping particles whose centres differ
/// end, after the correction of the pair, as far apart as their radii add up
/// to, but for rounding. With `u` and `v` the distances of the centres along
/// the two axes afterwards and `s` the sum of the radii: the new distance is
/// at most `s`, and two centres that lie 3 farther apart along each axis
/// would be at least `s` apart. Two centres at one point are left there, and
/// a centre that the correction would put off the lattice is cut to it: the
/// law speaks of neither, nor of radii that add up to more than `SCALE`.
pub proof fn law_pair_apart(a: Object, b: Object)
    requires
        a.radius > 0,
        b.radius > 0,
        a.radius + b.radius <= SCALE,
        a.overlaps(b),
        a.position != b.position,
        pair_fits(a, b),
    ensures
        ({
            let r = a.resolved(b);
            let u = abs(r.0.position.x - r.1.position.x);
            let v = abs(r.0.position.y - r.1.position.y);
            let s = a.radius + b.radius;
            &&& u * u + v * v <= s * s
            &&& (u + 3) * (u + 3) + (v + 3) * (v + 3) >= s * s
        }),
{
    let dx: int = a.position.x - b.position.x;
    let dy: int = a.position.y - b.position.y;
    let k: int = SCALE as int;
    let ra: int = a.radius as int;
    let rb: int = b.radius as int;
    let s: int = ra + rb;
    let m: int = (dx * dx + dy * dy) * (SCALE * SCALE);
    let len: int = ceil_sqrt(m);
    lemma_stretch_len(dx, dy);
    assert(((-dx) * (-dx) + (-dy) * (-dy)) * (SCALE * SCALE) == m) by (nonlinear_arith)
        requires
            m == (dx * dx + dy * dy) * (SCALE * SCALE),
    ;
    let cx: int = dx * k;
    let cy: int = dy * k;
    assert(dx * ra * k == cx * ra && (-dx) * rb * k == (-cx) * rb && dy * ra * k == cy * ra && (
    -dy) * rb * k == (-cy) * rb) by (nonlinear_arith)
        requires
            cx == dx * k,
            cy == dy * k,
    ;
    lemma_push_component(cx, ra, rb, len);
    lemma_push_component(cy, ra, rb, len);
    let r = a.resolved(b);
    let u: int = abs(r.0.position.x - r.1.position.x) as int;
    let v: int = abs(r.0.position.y - r.1.position.y) as int;
    assert(u == abs(trunc_div(cx * ra, len) - trunc_div((-cx) * rb, len)));
    assert(v == abs(trunc_div(cy * ra, len) - trunc_div((-cy) * rb, len)));
    let l2: int = len * len;
    let s2: int = s * s;
    let u2: int = u * u;
    let v2: int = v * v;
    let ux: int = (u + 2) * (u + 2);
    let vx: int = (v + 2) * (v + 2);
    let x2: int = cx * cx;
    let y2: int = cy * cy;
    let below: int = (len - 1) * (len - 1);
    assert(u2 + v2 <= s2) by (nonlinear_arith)
        requires
            u2 * l2 <= x2 * s2,
            v2 * l2 <= y2 * s2,
            x2 + y2 <= l2,
            l2 > 0,
            s2 >= 0,
    ;
    assert(s2 >= 0) by (nonlinear_arith)
        requires
            s2 == s * s,
    ;
    assert((ux + vx) * l2 >= below * s2) by (nonlinear_arith)
        requires
            ux * l2 >= x2 * s2,
            vx * l2 >= y2 * s2,
            below < x2 + y2,
            s2 >= 0,
    ;
    lemma_one_more_reaches(u + 2, v + 2, s, len);
}

/// The scheduler is exact: where a period is a whole number `p` of clock
/// units, a clock that has moved on by `k` periods and a rest `r` shorter
/// than a period makes exactly `k` ticks due, and they stand for `k * p`
/// units.
pub proof fn law_schedule_exact(last_update: u64, rate: u32, second: u32, k: nat, r: nat)
    requires
        0 < rate <= second,
        second % rate == 0,
        r < second / rate,
        last_update + k * (second / rate) + r <= u64::MAX,
    ensures
        ({
            let now = (last_update + k * (second / rate) + r) as u64;
            &&& !due(last_update, rate, second, now, k as int)
            &&& forall|j: int| 0 <= j < k ==> #[trigger] due(last_update, rate, second, now, j)
            &&& offset(k as int, rate, second) == k * (second / rate)
        }),
{
    let p: int = second as int / rate as int;
    let now = (last_update + k * p + r) as u64;
    vstd::arithmetic::div_mod::lemma_fundamental_div_mod(second as int, rate as int);
    assert(k * p >= 0) by (nonlinear_arith)
        requires
            k >= 0,
            p >= 0,
    ;
    lemma_whole_offset(rate, second, k as int);
    vstd::arithmetic::div_mod::lemma_fundamental_div_mod_converse(
        second + rate - 1,
        rate as int,
        p,
        rate - 1,
    );
    assert(whole_period(rate, second) == p);
    assert forall|j: int| 0 <= j < k implies #[trigger] due(last_update, rate, second, now, j) by {
        lemma_whole_offset(rate, second, j);
        assert(k * p - j * p >= p) by (nonlinear_arith)
            requires
                0 <= j < k,
                p >= 0,
        ;
    }
}

/// Where a period is a whole number of clock units, `j` ticks stand for `j`
/// times that number, with nothing to round.
proof fn lemma_whole_offset(rate: u32, second: u32, j: int)
    requires
        0 < rate,
        second % rate == 0,
        j >= 0,
    ensures
        offset(j, rate, second) == j * (second / rate),
{
    let p: int = second as int / rate as int;
    vstd::arithmetic::div_mod::lemma_fundamental_div_mod(second as int, rate as int);
    assert(2 * j * second + rate == (j * p) * (2 * rate) + rate) by (nonlinear_arith)
        requires
            second == rate * p,
    ;
    vstd::arithmetic::div_mod::lemma_fundamental_div_mod_converse(
        2 * j * second + rate,
        2 * rate,
        j * p,
        rate as int,
    );
}

/// No drift: whenever a reading of a clock that has not gone back has run
/// every tick that was due, the time run up to is at most the reading and
/// less than one period short of it.
pub proof fn law_no_drift(last_update: u64, rate: u32, second: u32, now: u64, k: nat)
    requires
        0 < rate <= second,
        last_update <= now,
        !due(last_update, rate, second, now, k as int),
        forall|j: int| 0 <= j < k ==> #[trigger] due(last_update, rate, second, now, j),
    ensures
        last_update + offset(k as int, rate, second) <= now,
        (now - (last_update + offset(k as int, rate, second))) * rate < second,
{
    if k == 0 {
        lemma_next_offset(rate, second, 0, whole_period(rate, second));
    } else {
        assert(due(last_update, rate, second, now, k - 1));
        lemma_next_offset(
            rate,
            second,
            k - 1,
            now - (last_update + offset(k - 1, rate, second)),
        );
    }
    lemma_whole_period(rate, second, now - (last_update + offset(k as int, rate, second)));
}

/// A particle at rest stays: where nothing pulls, no neighbour is there,
/// the old position is the position, nothing has been added to the
/// acceleration, and the disk lies inside the arena, a tick changes nothing.
pub proof fn law_rest_is_fixed(o: Object, cfg: Config)
    requires
        o.acceleration == Vec2::zero(),
        cfg.gravity == Vec2::zero(),
        o.old_position == o.position,
        match cfg.bound {
            Some(b) => !o.out_of_bounds(b),
            None => true,
        },
    ensures
        o.integrated(cfg, Seq::empty()) == (o, Seq::<Object>::empty()),
        stepped(seq![o], cfg) == seq![o],
{
    let s = seq![o];
    assert(s.remove(0) =~= Seq::<Object>::empty());
    assert(0 * (cfg.dt * cfg.dt) == 0) by (nonlinear_arith);
    assert(o.accelerated(cfg.gravity) == o);
    assert(o.integrated(cfg, Seq::empty()).0 == o);
    assert(step_upto(s, 0, cfg) == s);
    assert(step_one(s, 0, cfg) =~= s);
    assert(step_upto(s, 1, cfg) == step_one(step_upto(s, 0, cfg), 0, cfg));
}

/// A tick keeps the collection: as many particles as before, each with the
/// radius it had, and each with its acceleration cleared for the next tick.
pub proof fn law_tick_keeps(s: Seq<Object>, cfg: Config)
    ensures
        stepped(s, cfg).len() == s.len(),
        forall|i: int| 0 <= i < s.len() ==> (#[trigger] stepped(s, cfg)[i]).radius == s[i].radius,
        forall|i: int|
            0 <= i < s.len() ==> (#[trigger] stepped(s, cfg)[i]).acceleration == Vec2::zero(),
{
    lemma_step_upto_keeps(s, s.len() as int, cfg);
}

/// Ticks keep the collection: after `n >= 1` ticks there are as many
/// particles as before, each with the radius and the colour it had, and each
/// with its acceleration cleared.
pub proof fn law_run_keeps(s: Seq<Object>, n: int, cfg: Config)
    requires
        n >= 1,
    ensures
        run(s, n, cfg).len() == s.len(),
        forall|i: int|
            0 <= i < s.len() ==> (#[trigger] run(s, n, cfg)[i]).radius == s[i].radius && run(
                s,
                n,
                cfg,
            )[i].rgba == s[i].rgba && run(s, n, cfg)[i].acceleration == Vec2::zero(),
{
    lemma_run_keeps(s, n, cfg);
}

/// Ticks add up: `n` ticks after `m` ticks leave what `m + n` ticks at once
/// leave, so what holds of a run of ticks holds of them however the clock's
/// readings have shared them out.
pub proof fn law_run_adds(s: Seq<Object>, m: int, n: int, cfg: Config)
    requires
        m >= 0,
        n >= 0,
    ensures
        run(run(s, m, cfg), n, cfg) == run(s, m + n, cfg),
    decreases n,
{
    if n > 0 {
        law_run_adds(s, m, n - 1, cfg);
    }
}

/// The sum of the whole numbers from 1 to `n`.
pub open spec fn triangle(n: int) -> int
    decreases n,
{
    if n <= 0 {
        0
    } else {
        triangle(n - 1) + n
    }
}

/// Twice the sum of the numbers from 1 to `n` is `n * (n + 1)`.
pub proof fn lemma_triangle(n: int)
    requires
        n >= 0,
    ensures
        2 * triangle(n) == n * (n + 1),
    decreases n,
{
    if n > 0 {
        lemma_triangle(n - 1);
        assert((n - 1) * (n - 1 + 1) + 2 * n == n * (n + 1)) by (nonlinear_arith);
    } else {
        assert(n * (n + 1) == 0) by (nonlinear_arith)
            requires
                n == 0,
        ;
    }
}

/// One coordinate of a particle that has fallen for `n` ticks from rest at
/// `p` under the pull `g`.
pub open spec fn fallen_to(p: i32, g: i32, dt: u32, n: int) -> int {
    p + g * (dt * dt) * triangle(n)
}

/// A particle that has fallen for `n` ticks from rest as `o`.
pub open spec fn fallen(o: Object, cfg: Config, n: int) -> Object {
    Object {
        position: Vec2 {
            x: fallen_to(o.position.x, cfg.gravity.x, cfg.dt, n) as i32,
            y: fallen_to(o.position.y, cfg.gravity.y, cfg.dt, n) as i32,
        },
        old_position: Vec2 {
            x: fallen_to(o.position.x, cfg.gravity.x, cfg.dt, n - 1) as i32,
            y: fallen_to(o.position.y, cfg.gravity.y, cfg.dt, n - 1) as i32,
        },
        acceleration: Vec2::zero(),
        radius: o.radius,
        rgba: o.rgba,
    }
}

/// Whether one coordinate of the fall stays a coordinate for `n` ticks.
pub open spec fn fall_fits(p: i32, g: i32, dt: u32, n: int) -> bool {
    forall|m: int| 0 <= m <= n ==> i32::MIN <= #[trigger] fallen_to(p, g, dt, m) <= i32::MAX
}

/// Free fall: a single particle that starts at rest in open space has moved,
/// after `n` ticks of length `dt` under the pull `g`, by
/// `g * dt * dt * n * (n + 1) / 2` along each axis, as long as that stays a
/// coordinate. This is `g * (n * dt) * (n * dt) / 2`, the way of a body in
/// free fall, and `g * dt * dt * n / 2` more, which is what the steps add.
pub proof fn law_free_fall(o: Object, cfg: Config, n: int)
    requires
        n >= 0,
        o.old_position == o.position,
        o.acceleration == Vec2::zero(),
        cfg.bound is None,
        fall_fits(o.position.x, cfg.gravity.x, cfg.dt, n),
        fall_fits(o.position.y, cfg.gravity.y, cfg.dt, n),
    ensures
        run(seq![o], n, cfg) == seq![fallen(o, cfg, n)],
        2 * (fallen(o, cfg, n).position.x - o.position.x) == cfg.gravity.x * (cfg.dt * cfg.dt) * (n
            * (n + 1)),
        2 * (fallen(o, cfg, n).position.y - o.position.y) == cfg.gravity.y * (cfg.dt * cfg.dt) * (n
            * (n + 1)),
    decreases n,
{
    let cx: int = cfg.gravity.x * (cfg.dt * cfg.dt);
    let cy: int = cfg.gravity.y * (cfg.dt * cfg.dt);
    lemma_triangle(n);
    assert(2 * (cx * triangle(n)) == cx * (n * (n + 1))) by (nonlinear_arith)
        requires
            2 * triangle(n) == n * (n + 1),
    ;
    assert(2 * (cy * triangle(n)) == cy * (n * (n + 1))) by (nonlinear_arith)
        requires
            2 * triangle(n) == n * (n + 1),
    ;
    assert(fallen_to(o.position.x, cfg.gravity.x, cfg.dt, n) == o.position.x + cx * triangle(n));
    assert(fallen_to(o.position.y, cfg.gravity.y, cfg.dt, n) == o.position.y + cy * triangle(n));
    assert(i32::MIN <= fallen_to(o.position.x, cfg.gravity.x, cfg.dt, n) <= i32::MAX);
    assert(i32::MIN <= fallen_to(o.position.y, cfg.gravity.y, cfg.dt, n) <= i32::MAX);
    if n == 0 {
        assert(cx * triangle(0) == 0 && cx * triangle(-1) == 0) by (nonlinear_arith)
            requires
                triangle(0) == 0,
                triangle(-1) == 0,
        ;
        assert(cy * triangle(0) == 0 && cy * triangle(-1) == 0) by (nonlinear_arith)
            requires
                triangle(0) == 0,
                triangle(-1) == 0,
        ;
        assert(fallen(o, cfg, 0) == o);
    } else {
        law_free_fall(o, cfg, n - 1);
        let f = fallen(o, cfg, n - 1);
        let s = seq![f];
        assert(i32::MIN <= fallen_to(o.position.x, cfg.gravity.x, cfg.dt, n - 1) <= i32::MAX);
        assert(i32::MIN <= fallen_to(o.position.y, cfg.gravity.y, cfg.dt, n - 1) <= i32::MAX);
        if n >= 2 {
            assert(i32::MIN <= fallen_to(o.position.x, cfg.gravity.x, cfg.dt, n - 2) <= i32::MAX);
            assert(i32::MIN <= fallen_to(o.position.y, cfg.gravity.y, cfg.dt, n - 2) <= i32::MAX);
        } else {
            assert(cx * triangle(-1) == 0 && cy * triangle(-1) == 0) by (nonlinear_arith)
                requires
                    triangle(-1) == 0,
            ;
        }
        assert(triangle(n - 1) - triangle(n - 2) == n - 1);
        lemma_fall_step(cx, triangle(n - 1), triangle(n - 2), n);
        lemma_fall_step(cy, triangle(n - 1), triangle(n - 2), n);
        assert(s.remove(0) =~= Seq::<Object>::empty());
        assert(f.integrated(cfg, Seq::empty()).0 == fallen(o, cfg, n));
        assert(step_upto(s, 0, cfg) == s);
        assert(step_one(s, 0, cfg) =~= seq![fallen(o, cfg, n)]);
        assert(step_upto(s, 1, cfg) == step_one(step_upto(s, 0, cfg), 0, cfg));
    }
}

/// With `t1 - t2 == n - 1`, a step from `c * t1`, as long as the way from
/// `c * t2` to it and `c` more, ends at `c * (t1 + n)`.
proof fn lemma_fall_step(c: int, t1: int, t2: int, n: int)
    requires
        t1 - t2 == n - 1,
    ensures
        c * t1 + (c * t1 - c * t2) + c == c * (t1 + n),
{
    assert(c * t1 + (c * t1 - c * t2) + c == c * (t1 + n)) by (nonlinear_arith)
        requires
            t1 - t2 == n - 1,
    ;
}

} // verus!
