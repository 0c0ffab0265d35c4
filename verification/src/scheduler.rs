//! The fixed-step scheduler: it turns clock readings that come at any
//! distance into ticks of one fixed length. The length is held as a ratio,
//! `second / rate` units of the clock, and need not be a whole number.

use vstd::prelude::*;
use crate::object::{Config, Object};
use crate::world::{lemma_run_keeps, run, step, turned};

verus! {

/// The particles and the clock of their simulation.
pub struct Model {
    /// The particles, in the order in which they take their turns.
    pub objects: Vec<Object>,
    /// The time up to which the simulation has been run. It is only ever
    /// set to the time it had when a reading began plus a whole number of
    /// periods, rounded; never to a clock reading.
    pub last_update: u64,
    /// Ticks in a second; not 0, and at most `second`.
    pub rate: u32,
    /// Units of the clock in a second.
    pub second: u32,
    /// What a tick needs besides the particles.
    pub config: Config,
}

/// The time that `k` ticks stand for, `k * second / rate`, rounded to whole
/// units of the clock, a half upward.
pub open spec fn offset(k: int, rate: u32, second: u32) -> int {
    (2 * k * second + rate) / (2 * rate)
}

/// The least whole number of clock units that is no shorter than a period:
/// `second / rate`, rounded up.
pub open spec fn whole_period(rate: u32, second: u32) -> int {
    (second + rate - 1) / (rate as int)
}

/// Whether one more tick is due at the reading `now`, when the reading
/// began at `initial` and has run `k` ticks: whether at least a period lies
/// between the time run up to and `now`. A clock that reads earlier than the
/// time run up to makes none due.
pub open spec fn due(initial: u64, rate: u32, second: u32, now: u64, k: int) -> bool {
    now - (initial + offset(k, rate, second)) >= whole_period(rate, second)
}

/// A whole number of clock units reaches `whole_period` exactly when it
/// reaches the period itself.
pub proof fn lemma_whole_period(rate: u32, second: u32, d: int)
    requires
        0 < rate <= second,
    ensures
        whole_period(rate, second) >= 1,
        d >= whole_period(rate, second) <==> d * rate >= second,
{
    let r: int = rate as int;
    let x: int = second + rate - 1;
    let w: int = x / r;
    vstd::arithmetic::div_mod::lemma_fundamental_div_mod(x, r);
    vstd::arithmetic::div_mod::lemma_mod_bound(x, r);
    assert(w >= 1) by (nonlinear_arith)
        requires
            x == r * w + x % r,
            x % r < r,
            x >= 2 * r - 1,
            r > 0,
    ;
    if d >= w {
        assert(d * r >= second) by (nonlinear_arith)
            requires
                d >= w,
                x == r * w + x % r,
                x % r <= r - 1,
                x == second + r - 1,
                r > 0,
        ;
    } else {
        assert(d * r < second) by (nonlinear_arith)
            requires
                d <= w - 1,
                x == r * w + x % r,
                x % r >= 0,
                x == second + r - 1,
                r > 0,
        ;
    }
}

/// From one tick to the next the rounded time moves on by at least one
/// unit, and by no more than any whole number of units that reaches a
/// period.
pub proof fn lemma_next_offset(rate: u32, second: u32, k: int, d: int)
    requires
        0 < rate <= second,
        k >= 0,
        d >= whole_period(rate, second),
    ensures
        offset(0, rate, second) == 0,
        offset(k, rate, second) >= 0,
        offset(k, rate, second) + 1 <= offset(k + 1, rate, second),
        offset(k + 1, rate, second) <= offset(k, rate, second) + d,
{
    let r2: int = 2 * rate;
    let x1: int = 2 * k * second + rate;
    let x2: int = 2 * (k + 1) * second + rate;
    let q1: int = x1 / r2;
    let q2: int = x2 / r2;
    lemma_whole_period(rate, second, d);
    vstd::arithmetic::div_mod::lemma_fundamental_div_mod(x1, r2);
    vstd::arithmetic::div_mod::lemma_mod_bound(x1, r2);
    vstd::arithmetic::div_mod::lemma_fundamental_div_mod(x2, r2);
    vstd::arithmetic::div_mod::lemma_mod_bound(x2, r2);
    vstd::arithmetic::div_mod::lemma_fundamental_div_mod_converse(rate as int, r2, 0, rate as int);
    assert(2 * 0 * second + rate == rate) by (nonlinear_arith);
    assert(x2 == x1 + 2 * second && x1 >= 0) by (nonlinear_arith)
        requires
            x1 == 2 * k * second + rate,
            x2 == 2 * (k + 1) * second + rate,
            k >= 0,
            second >= 0,
            rate >= 0,
    ;
    assert(q1 >= 0) by (nonlinear_arith)
        requires
            x1 == r2 * q1 + x1 % r2,
            x1 % r2 < r2,
            x1 >= 0,
            r2 > 0,
    ;
    assert(q2 >= q1 + 1) by (nonlinear_arith)
        requires
            x1 == r2 * q1 + x1 % r2,
            x2 == r2 * q2 + x2 % r2,
            0 <= x1 % r2,
            x2 % r2 < r2,
            x2 >= x1 + r2,
            r2 > 0,
    ;
    assert(q2 <= q1 + d) by (nonlinear_arith)
        requires
            x1 == r2 * q1 + x1 % r2,
            x2 == r2 * q2 + x2 % r2,
            x1 % r2 < r2,
            0 <= x2 % r2,
            x2 == x1 + 2 * second,
            d * rate >= second,
            r2 == 2 * rate,
            r2 > 0,
    ;
}

impl Model {
    /// A simulation of `objects` that has been run up to `now`, and runs
    /// `rate` ticks in every `second` units of the clock.
    pub fn new(objects: Vec<Object>, now: u64, rate: u32, second: u32, config: Config) -> (m:
        Model)
        ensures
            m.objects == objects,
            m.last_update == now,
            m.rate == rate,
            m.second == second,
            m.config == config,
    {
        Model { objects, last_update: now, rate, second, config }
    }

    /// Runs the ticks that are due at the clock reading `now`, and returns
    /// their number: it runs one tick after another for as long as one is
    /// due. The time run up to becomes the time it was plus what the ticks
    /// stand for, rounded, and ends at most at `now` and less than one
    /// period short of it. A clock that reads earlier than the time run up
    /// to changes nothing.
    pub fn update(&mut self, now: u64) -> (ticks: u64)
        requires
            0 < old(self).rate <= old(self).second,
        ensures
            !due(old(self).last_update, old(self).rate, old(self).second, now, ticks as int),
            forall|j: int|
                0 <= j < ticks ==> #[trigger] due(
                    old(self).last_update,
                    old(self).rate,
                    old(self).second,
                    now,
                    j,
                ),
            final(self).last_update == old(self).last_update + offset(
                ticks as int,
                old(self).rate,
                old(self).second,
            ),
            final(self).objects@ == run(old(self).objects@, ticks as int, old(self).config),
            turned(
                old(self).objects@,
                final(self).objects@,
                if ticks >= 1 { old(self).objects@.len() as int } else { 0 },
            ),
            final(self).rate == old(self).rate,
            final(self).second == old(self).second,
            final(self).config == old(self).config,
            now >= old(self).last_update ==> final(self).last_update <= now,
            now >= old(self).last_update ==> (now - final(self).last_update) * old(self).rate
                < old(self).second,
    {
        let initial: u64 = self.last_update;
        let rate: u32 = self.rate;
        let second: u32 = self.second;
        let cfg: Config = self.config;
        let need: u64 = (second as u64 + rate as u64 - 1) / (rate as u64);
        let mut ticks: u64 = 0;
        proof {
            lemma_next_offset(rate, second, 0, whole_period(rate, second));
        }
        while now >= self.last_update && now - self.last_update >= need
            invariant
                0 < rate <= second,
                rate == old(self).rate,
                second == old(self).second,
                initial == old(self).last_update,
                need == whole_period(rate, second),
                need >= 1,
                self.rate == rate,
                self.second == second,
                self.config == old(self).config,
                cfg == self.config,
                self.last_update == initial + offset(ticks as int, rate, second),
                ticks <= offset(ticks as int, rate, second),
                now >= initial ==> self.last_update <= now,
                forall|j: int| 0 <= j < ticks ==> #[trigger] due(initial, rate, second, now, j),
                self.objects@ == run(old(self).objects@, ticks as int, cfg),
            decreases now - self.last_update,
        {
            proof {
                lemma_next_offset(rate, second, ticks as int, now - self.last_update);
                assert(due(initial, rate, second, now, ticks as int));
            }
            ticks = ticks + 1;
            let t2: u128 = 2 * (ticks as u128);
            let s: u128 = second as u128;
            assert(t2 * s <= 36_893_488_147_419_103_232 * 4_294_967_296) by (nonlinear_arith)
                requires
                    0 <= t2 <= 36_893_488_147_419_103_232,
                    0 <= s <= 4_294_967_296,
            ;
            let off: u128 = (t2 * s + rate as u128) / (2 * (rate as u128));
            self.last_update = initial + off as u64;
            step(&mut self.objects, &cfg);
        }
        proof {
            lemma_run_keeps(old(self).objects@, ticks as int, cfg);
            lemma_whole_period(rate, second, now - self.last_update);
        }
        ticks
    }
}

} // verus!
