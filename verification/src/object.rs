//! One particle, and what a tick does to it: gravity, the arena's wall, the
//! neighbours it overlaps, and the step along its own path.

use vstd::prelude::*;
use crate::arith::{div_toward_zero, lemma_sat_shrinks, sat, saturate, square, trunc_div};
use crate::vector::{lemma_stretch_within, stretch, stretched, Vec2};

verus! {

/// The radius a new particle has.
pub const RADIUS: i32 = 20;

/// A colour: red, green, blue and opacity, each from 0 to 255.
#[derive(Clone, Copy, Debug, PartialEq, Eq, Structural)]
pub struct Rgba {
    pub r: u8,
    pub g: u8,
    pub b: u8,
    pub a: u8,
}

/// A rigid circle. Its velocity is not stored: it is the way from
/// `old_position` to `position`.
#[derive(Clone, Copy, Debug, PartialEq, Eq, Structural)]
pub struct Object {
    /// Where the centre is.
    pub position: Vec2,
    /// Where the centre was when the latest tick began.
    pub old_position: Vec2,
    /// What has been added up for this tick; a tick ends by clearing it.
    pub acceleration: Vec2,
    /// The circle's radius, positive in every particle of a simulation.
    pub radius: i32,
    /// The colour it is shown in; the simulation carries it along.
    pub rgba: Rgba,
}

/// What a tick needs besides the particles.
#[derive(Clone, Copy, Debug)]
pub struct Config {
    /// Added to every particle's acceleration at each tick.
    pub gravity: Vec2,
    /// The radius of the arena round the origin; `None` for open space.
    pub bound: Option<i32>,
    /// The length of a tick.
    pub dt: u32,
}

/// One coordinate after the step along the path: as far on from `p` as `p`
/// lies from `prev`, and `a * dt * dt` beyond that.
pub open spec fn verlet(p: i32, prev: i32, a: i32, dt: u32) -> i32 {
    sat(p + (p - prev) + a * (dt * dt))
}

/// Computes `verlet`.
pub fn verlet_step(p: i32, prev: i32, a: i32, dt: u32) -> (r: i32)
    ensures
        r == verlet(p, prev, a, dt),
{
    let d2: i128 = square(dt as i64);
    let wa: i128 = a as i128;
    assert(-39_614_081_257_132_168_796_771_975_168 <= wa * d2
        <= 39_614_081_257_132_168_796_771_975_168) by (nonlinear_arith)
        requires
            -2_147_483_648 <= wa <= 2_147_483_648,
            0 <= d2 <= 18_446_744_073_709_551_616,
    ;
    saturate(p as i128 + (p as i128 - prev as i128) + wa * d2)
}

impl Object {
    /// The particle with `force` added to its acceleration.
    pub open spec fn accelerated(self, force: Vec2) -> Object {
        Object {
            position: self.position,
            old_position: self.old_position,
            acceleration: Vec2 {
                x: sat(self.acceleration.x + force.x),
                y: sat(self.acceleration.y + force.y),
            },
            radius: self.radius,
            rgba: self.rgba,
        }
    }

    /// Whether the disk reaches beyond an arena of radius `bound`: whether
    /// the centre's distance from the origin, plus the radius, exceeds it.
    pub open spec fn out_of_bounds(self, bound: i32) -> bool {
        bound - self.radius < 0 || self.position.norm_sq() > (bound - self.radius) * (bound
            - self.radius)
    }

    /// The particle as the arena's wall leaves it: where the disk reaches
    /// beyond the wall, the centre is put on its own ray from the origin, at
    /// the distance `bound - radius`. A centre on the origin stays there.
    pub open spec fn bounded(self, bound: i32) -> Object {
        if self.out_of_bounds(bound) {
            let d = stretch(self.position.x as int, self.position.y as int, bound - self.radius);
            Object {
                position: Vec2 { x: sat(d.0), y: sat(d.1) },
                old_position: self.old_position,
                acceleration: self.acceleration,
                radius: self.radius,
                rgba: self.rgba,
            }
        } else {
            self
        }
    }

    /// Whether the two disks touch or overlap: whether the distance of the
    /// centres is at most the sum of the radii.
    pub open spec fn overlaps(self, other: Object) -> bool {
        self.radius + other.radius >= 0 && self.position.dist_sq(other.position) <= (self.radius
            + other.radius) * (self.radius + other.radius)
    }

    /// The two particles after one correction of the pair. Where they
    /// overlap, each centre is put at its own radius from the midpoint of
    /// the two, on the line through them and on its own side; two centres at
    /// one point both stay there. Otherwise nothing moves.
    pub open spec fn resolved(self, other: Object) -> (Object, Object) {
        if self.overlaps(other) {
            let mx = trunc_div(self.position.x + other.position.x, 2);
            let my = trunc_div(self.position.y + other.position.y, 2);
            let dx = self.position.x - other.position.x;
            let dy = self.position.y - other.position.y;
            let a = stretch(dx, dy, self.radius as int);
            let b = stretch(-dx, -dy, other.radius as int);
            (
                Object {
                    position: Vec2 { x: sat(mx + a.0), y: sat(my + a.1) },
                    old_position: self.old_position,
                    acceleration: self.acceleration,
                    radius: self.radius,
                    rgba: self.rgba,
                },
                Object {
                    position: Vec2 { x: sat(mx + b.0), y: sat(my + b.1) },
                    old_position: other.old_position,
                    acceleration: other.acceleration,
                    radius: other.radius,
                    rgba: other.rgba,
                },
            )
        } else {
            (self, other)
        }
    }

    /// The particle and its neighbours after the pair of it and each of the
    /// first `k` neighbours has been corrected, in their order: each
    /// correction starts from what the ones before it left.
    pub open spec fn collided(self, others: Seq<Object>, k: int) -> (Object, Seq<Object>)
        decreases k,
    {
        if k <= 0 {
            (self, others)
        } else {
            let before = self.collided(others, k - 1);
            let pair = before.0.resolved(before.1[k - 1]);
            (pair.0, before.1.update(k - 1, pair.1))
        }
    }

    /// The particle and its neighbours after the particle's tick: the
    /// position it had becomes the old one; gravity is added; the wall and
    /// then each neighbour in turn correct the position; the position moves
    /// on by the way from the old position before the tick to the corrected
    /// one, and by the acceleration times the square of `dt`; the
    /// acceleration is cleared.
    pub open spec fn integrated(self, cfg: Config, others: Seq<Object>) -> (Object, Seq<Object>) {
        let started = Object {
            position: self.position,
            old_position: self.position,
            acceleration: self.acceleration,
            radius: self.radius,
            rgba: self.rgba,
        }.accelerated(cfg.gravity);
        let walled = match cfg.bound {
            Some(b) => started.bounded(b),
            None => started,
        };
        let pushed = walled.collided(others, others.len() as int);
        let o = pushed.0;
        (
            Object {
                position: Vec2 {
                    x: verlet(o.position.x, self.old_position.x, o.acceleration.x, cfg.dt),
                    y: verlet(o.position.y, self.old_position.y, o.acceleration.y, cfg.dt),
                },
                old_position: o.old_position,
                acceleration: Vec2::zero(),
                radius: o.radius,
                rgba: o.rgba,
            },
            pushed.1,
        )
    }

    /// Whether `other` is this particle but for where its centre is.
    pub open spec fn moved_to(self, other: Object) -> bool {
        &&& other.old_position == self.old_position
        &&& other.acceleration == self.acceleration
        &&& other.radius == self.radius
        &&& other.rgba == self.rgba
    }

    /// `collided` moves centres and changes nothing else, of the particle or
    /// of a neighbour.
    pub proof fn lemma_collided_moves(self, others: Seq<Object>, k: int)
        requires
            k <= others.len(),
        ensures
            self.moved_to(self.collided(others, k).0),
            self.collided(others, k).1.len() == others.len(),
            forall|j: int|
                0 <= j < others.len() ==> (#[trigger] others[j]).moved_to(
                    self.collided(others, k).1[j],
                ),
        decreases k,
    {
        if k > 0 {
            self.lemma_collided_moves(others, k - 1);
        }
    }

    /// What a tick keeps: the particle's radius, and of each neighbour all
    /// but where its centre is. The particle's old position becomes the
    /// position it had, and its acceleration is cleared.
    pub proof fn lemma_integrated_keeps(self, cfg: Config, others: Seq<Object>)
        ensures
            self.integrated(cfg, others).0.radius == self.radius,
            self.integrated(cfg, others).0.rgba == self.rgba,
            self.integrated(cfg, others).0.old_position == self.position,
            self.integrated(cfg, others).0.acceleration == Vec2::zero(),
            self.integrated(cfg, others).1.len() == others.len(),
            forall|j: int|
                0 <= j < others.len() ==> (#[trigger] others[j]).moved_to(
                    self.integrated(cfg, others).1[j],
                ),
    {
        let started = Object {
            position: self.position,
            old_position: self.position,
            acceleration: self.acceleration,
            radius: self.radius,
            rgba: self.rgba,
        }.accelerated(cfg.gravity);
        let walled = match cfg.bound {
            Some(b) => started.bounded(b),
            None => started,
        };
        walled.lemma_collided_moves(others, others.len() as int);
    }

    /// The particle that `with_radius` makes.
    pub open spec fn at_rest(x: i32, y: i32, radius: i32) -> Object {
        Object {
            position: Vec2 { x, y },
            old_position: Vec2 { x, y },
            acceleration: Vec2::zero(),
            radius,
            rgba: Rgba { r: 255, g: 255, b: 255, a: 255 },
        }
    }

    /// A white particle at rest at `(x, y)`, of radius `RADIUS`.
    pub fn new(x: i32, y: i32) -> (o: Object)
        ensures
            o == Object::at_rest(x, y, RADIUS),
    {
        Object::with_radius(x, y, RADIUS)
    }

    /// A white particle at rest at `(x, y)`, of the radius given.
    pub fn with_radius(x: i32, y: i32, radius: i32) -> (o: Object)
        ensures
            o == Object::at_rest(x, y, radius),
    {
        Object {
            position: Vec2 { x, y },
            old_position: Vec2 { x, y },
            acceleration: Vec2 { x: 0, y: 0 },
            radius,
            rgba: Rgba { r: 255, g: 255, b: 255, a: 255 },
        }
    }

    /// Adds `force` to the acceleration.
    pub fn accelerate(&mut self, force: Vec2)
        ensures
            *final(self) == old(self).accelerated(force),
    {
        let x: i32 = saturate(self.acceleration.x as i128 + force.x as i128);
        let y: i32 = saturate(self.acceleration.y as i128 + force.y as i128);
        self.acceleration = Vec2 { x, y };
    }

    /// Adds the pull of `gravity` to the acceleration.
    pub fn apply_gravity(&mut self, gravity: Vec2)
        ensures
            *final(self) == old(self).accelerated(gravity),
    {
        self.accelerate(gravity);
    }

    /// Brings the disk back inside the arena of radius `bound`. Where the
    /// arena has room for the disk at all, the disk lies inside it
    /// afterwards.
    pub fn apply_bounds(&mut self, bound: i32)
        ensures
            *final(self) == old(self).bounded(bound),
            bound >= old(self).radius ==> !final(self).out_of_bounds(bound),
    {
        let s: i64 = bound as i64 - self.radius as i64;
        let d2: i128 = square(self.position.x as i64) + square(self.position.y as i64);
        if s < 0 || d2 > square(s) {
            let d: (i128, i128) = stretched(self.position.x as i64, self.position.y as i64, s);
            proof {
                if s >= 0 {
                    lemma_stretch_within(self.position.x as int, self.position.y as int, s as int);
                    lemma_sat_shrinks(d.0 as int);
                    lemma_sat_shrinks(d.1 as int);
                }
            }
            self.position = Vec2 { x: saturate(d.0), y: saturate(d.1) };
        }
    }

    /// Corrects the pair of this particle and `other` once.
    pub fn resolve(&mut self, other: &mut Object)
        ensures
            (*final(self), *final(other)) == old(self).resolved(*old(other)),
    {
        let dx: i64 = self.position.x as i64 - other.position.x as i64;
        let dy: i64 = self.position.y as i64 - other.position.y as i64;
        let sum: i64 = self.radius as i64 + other.radius as i64;
        let d2: i128 = square(dx) + square(dy);
        if sum >= 0 && d2 <= square(sum) {
            let mx: i128 = div_toward_zero(self.position.x as i128 + other.position.x as i128, 2);
            let my: i128 = div_toward_zero(self.position.y as i128 + other.position.y as i128, 2);
            let a: (i128, i128) = stretched(dx, dy, self.radius as i64);
            let b: (i128, i128) = stretched(-dx, -dy, other.radius as i64);
            self.position = Vec2 { x: saturate(mx + a.0), y: saturate(my + a.1) };
            other.position = Vec2 { x: saturate(mx + b.0), y: saturate(my + b.1) };
        }
    }

    /// Corrects the pair of this particle and each of `others` once, in
    /// their order.
    pub fn apply_collisions(&mut self, others: &mut Vec<Object>)
        ensures
            (*final(self), final(others)@) == old(self).collided(
                old(others)@,
                old(others)@.len() as int,
            ),
            final(others)@.len() == old(others)@.len(),
            old(self).moved_to(*final(self)),
    {
        proof {
            old(self).lemma_collided_moves(old(others)@, old(others)@.len() as int);
        }
        let n: usize = others.len();
        let mut j: usize = 0;
        while j < n
            invariant
                j <= n,
                n == old(others)@.len(),
                others@.len() == n,
                (*self, others@) == old(self).collided(old(others)@, j as int),
            decreases n - j,
        {
            let mut other: Object = others[j];
            self.resolve(&mut other);
            others[j] = other;
            j += 1;
        }
    }

    /// Advances the particle by one tick among its neighbours `others`.
    /// Afterwards its old position is the position it had before, and its
    /// acceleration is cleared.
    pub fn integrate(&mut self, cfg: &Config, others: &mut Vec<Object>)
        ensures
            (*final(self), final(others)@) == old(self).integrated(*cfg, old(others)@),
            final(others)@.len() == old(others)@.len(),
            final(self).old_position == old(self).position,
            final(self).acceleration == Vec2::zero(),
            final(self).radius == old(self).radius,
            final(self).rgba == old(self).rgba,
    {
        proof {
            old(self).lemma_integrated_keeps(*cfg, old(others)@);
        }
        let temp: Vec2 = self.old_position;
        self.old_position = self.position;
        self.apply_gravity(cfg.gravity);
        match cfg.bound {
            Some(b) => {
                self.apply_bounds(b);
            },
            None => {},
        }
        self.apply_collisions(others);
        let x: i32 = verlet_step(self.position.x, temp.x, self.acceleration.x, cfg.dt);
        let y: i32 = verlet_step(self.position.y, temp.y, self.acceleration.y, cfg.dt);
        self.position = Vec2 { x, y };
        self.acceleration = Vec2 { x: 0, y: 0 };
    }
}

} // verus!
