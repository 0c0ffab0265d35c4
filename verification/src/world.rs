//! A tick of the whole collection. The particles take their turns in the
//! order in which the collection holds them, and each turn starts from what
//! the turns before it left, so the order is part of the outcome.

use vstd::prelude::*;
use crate::object::{Config, Object};
use crate::vector::Vec2;

verus! {

/// The collection after the turn of particle `i`: the particle is taken out,
/// advanced by one tick among the others, and put back in its place.
pub open spec fn step_one(s: Seq<Object>, i: int, cfg: Config) -> Seq<Object> {
    let r = s[i].integrated(cfg, s.remove(i));
    r.1.insert(i, r.0)
}

/// The collection after the turns of its first `k` particles.
pub open spec fn step_upto(s: Seq<Object>, k: int, cfg: Config) -> Seq<Object>
    decreases k,
{
    if k <= 0 {
        s
    } else {
        step_one(step_upto(s, k - 1, cfg), k - 1, cfg)
    }
}

/// The collection after one tick.
pub open spec fn stepped(s: Seq<Object>, cfg: Config) -> Seq<Object> {
    step_upto(s, s.len() as int, cfg)
}

/// The collection after `n` ticks.
pub open spec fn run(s: Seq<Object>, n: int, cfg: Config) -> Seq<Object>
    decreases n,
{
    if n <= 0 {
        s
    } else {
        stepped(run(s, n - 1, cfg), cfg)
    }
}

/// Whether `t` has the particles of `s` by number, radius and colour, the
/// first `k` of them with a cleared acceleration.
pub open spec fn turned(s: Seq<Object>, t: Seq<Object>, k: int) -> bool {
    &&& t.len() == s.len()
    &&& forall|i: int|
        0 <= i < s.len() ==> (#[trigger] t[i]).radius == s[i].radius && t[i].rgba == s[i].rgba
    &&& forall|i: int| 0 <= i < k && i < s.len() ==> (#[trigger] t[i]).acceleration == Vec2::zero()
}

/// A particle's turn leaves the number of particles and their radii as they
/// were, clears the particle's acceleration and leaves the others' alone.
pub proof fn lemma_step_one_keeps(s: Seq<Object>, i: int, cfg: Config)
    requires
        0 <= i < s.len(),
    ensures
        step_one(s, i, cfg).len() == s.len(),
        step_one(s, i, cfg)[i].acceleration == Vec2::zero(),
        forall|j: int|
            0 <= j < s.len() ==> (#[trigger] step_one(s, i, cfg)[j]).radius == s[j].radius
                && step_one(s, i, cfg)[j].rgba == s[j].rgba,
        forall|j: int|
            0 <= j < s.len() && j != i ==> (#[trigger] step_one(s, i, cfg)[j]).acceleration
                == s[j].acceleration,
{
    let rest = s.remove(i);
    s[i].lemma_integrated_keeps(cfg, rest);
    let r = s[i].integrated(cfg, rest);
    let t = step_one(s, i, cfg);
    assert forall|j: int| 0 <= j < s.len() && j != i implies (#[trigger] t[j]).radius
        == s[j].radius && t[j].rgba == s[j].rgba && t[j].acceleration == s[j].acceleration by {
        if j < i {
            assert(rest[j].moved_to(r.1[j]));
        } else {
            assert(rest[j - 1].moved_to(r.1[j - 1]));
        }
    }
}

/// The turns of the first `k` particles leave the number of particles and
/// their radii as they were, and those `k` with a cleared acceleration.
pub proof fn lemma_step_upto_keeps(s: Seq<Object>, k: int, cfg: Config)
    requires
        k <= s.len(),
    ensures
        turned(s, step_upto(s, k, cfg), k),
    decreases k,
{
    if k > 0 {
        lemma_step_upto_keeps(s, k - 1, cfg);
        lemma_step_one_keeps(step_upto(s, k - 1, cfg), k - 1, cfg);
    }
}

/// Ticks keep the collection: after `n` of them there are as many
/// particles as before, each with the radius and the colour it had, and
/// after one tick or more each has a cleared acceleration.
pub proof fn lemma_run_keeps(s: Seq<Object>, n: int, cfg: Config)
    ensures
        turned(s, run(s, n, cfg), if n >= 1 { s.len() as int } else { 0 }),
    decreases n,
{
    if n > 0 {
        lemma_run_keeps(s, n - 1, cfg);
        lemma_step_upto_keeps(run(s, n - 1, cfg), s.len() as int, cfg);
    }
}

/// Advances every particle by one tick, in the collection's order.
pub fn step(objects: &mut Vec<Object>, cfg: &Config)
    ensures
        final(objects)@ == stepped(old(objects)@, *cfg),
        final(objects)@.len() == old(objects)@.len(),
{
    let n: usize = objects.len();
    let mut i: usize = 0;
    while i < n
        invariant
            i <= n,
            n == old(objects)@.len(),
            objects@.len() == n,
            objects@ == step_upto(old(objects)@, i as int, *cfg),
        decreases n - i,
    {
        let mut current: Object = objects.remove(i);
        current.integrate(cfg, objects);
        objects.insert(i, current);
        i += 1;
    }
}

} // verus!
