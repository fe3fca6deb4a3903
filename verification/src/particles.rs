//! The particles of the fire trail.
//!
//! - Particles move in screen pixels, and y grows downward: an upward velocity has a negative y.
//! - A particle has an age and a lifetime; its normalized age is their quotient.
//! - The color runs through yellow, orange and red, and then fades to transparent.
use vstd::prelude::*;

use crate::arithmetic::{Arithmetic, Model, Operation};
use crate::binary32::{Binary32, ONE, ZERO};
use crate::renderer::Instance;

verus! {

/// The pattern of 0.05: the longest step in seconds, so that pauses make no jumps.
pub const LONGEST_STEP: u32 = 0x3d4c_cccd;

/// The pattern of 1.8: the share of its velocity that a particle loses per second.
pub const DRAG: u32 = 0x3fe6_6666;

/// The pattern of -220: the upward acceleration in pixels per second squared.
pub const LIFT: u32 = 0xc35c_0000;

/// The pattern of 900: the particles spawned per second by default.
pub const DEFAULT_SPAWN_RATE: u32 = 0x4461_0000;

/// The most particles alive at once by default.
pub const DEFAULT_MAX_PARTICLES: usize = 8000;

/// The pattern of -3: the least jitter around the emitter.
pub const JITTER_MIN: u32 = 0xc040_0000;

/// The pattern of 3: the most jitter around the emitter.
pub const JITTER_MAX: u32 = 0x4040_0000;

/// The pattern of -55: the least sideways velocity of a new particle.
pub const DRIFT_MIN: u32 = 0xc25c_0000;

/// The pattern of 55: the most sideways velocity of a new particle.
pub const DRIFT_MAX: u32 = 0x425c_0000;

/// The pattern of -260: the fastest upward velocity of a new particle.
pub const RISE_MIN: u32 = 0xc382_0000;

/// The pattern of -110: the slowest upward velocity of a new particle.
pub const RISE_MAX: u32 = 0xc2dc_0000;

/// The pattern of 0.35: the shortest lifetime in seconds.
pub const LIFETIME_MIN: u32 = 0x3eb3_3333;

/// The pattern of 0.85: the longest lifetime in seconds.
pub const LIFETIME_MAX: u32 = 0x3f59_999a;

/// The pattern of 6: the smallest size in pixels.
pub const SIZE_MIN: u32 = 0x40c0_0000;

/// The pattern of 14: the largest size in pixels.
pub const SIZE_MAX: u32 = 0x4160_0000;

/// The pattern of 0.30: the normalized age at which the color reaches orange.
pub const ORANGE_AGE: u32 = 0x3e99_999a;

/// The pattern of 0.40: how long the color takes from orange to red.
pub const ORANGE_SPAN: u32 = 0x3ecc_cccd;

/// The pattern of 0.70: the normalized age at which the color reaches red.
pub const RED_AGE: u32 = 0x3f33_3333;

/// The pattern of 0.30: how long the fading takes.
pub const FADE_SPAN: u32 = 0x3e99_999a;

/// A position or a velocity.
#[derive(Clone, Copy, Debug)]
pub struct Point {
    pub x: Binary32,
    pub y: Binary32,
}

/// Red, green, blue and opacity.
#[derive(Clone, Copy, Debug)]
pub struct Color {
    pub r: Binary32,
    pub g: Binary32,
    pub b: Binary32,
    pub a: Binary32,
}

impl Color {
    /// The color has the values of `other`.
    pub open spec fn same_as(self, other: Color) -> bool {
        &&& self.r.has(other.r.scaled())
        &&& self.g.has(other.g.scaled())
        &&& self.b.has(other.b.scaled())
        &&& self.a.has(other.a.scaled())
    }

    /// Every channel is a number between none and the opacity, which is full at most.
    pub open spec fn premultiplied(self) -> bool {
        &&& self.r.is_finite() && 0 <= self.r.scaled() <= self.a.scaled()
        &&& self.g.is_finite() && 0 <= self.g.scaled() <= self.a.scaled()
        &&& self.b.is_finite() && 0 <= self.b.scaled() <= self.a.scaled()
        &&& self.a.is_finite() && self.a.scaled() <= Binary32::unit()
    }

    /// The color shows nothing.
    pub open spec fn invisible(self) -> bool {
        self.r.has(0) && self.g.has(0) && self.b.has(0) && self.a.has(0)
    }
}

/// One glowing particle.
#[derive(Clone, Copy, Debug)]
pub struct Particle {
    pub pos: Point,
    pub vel: Point,
    pub age: Binary32,
    pub lifetime: Binary32,
    pub size: Binary32,
}

/// What is left to chance in a new particle.
#[derive(Clone, Copy, Debug, PartialEq, Eq, Structural)]
pub enum Quantity {
    /// How far to the right of the emitter.
    JitterX,
    /// How far below the emitter.
    JitterY,
    /// The sideways velocity.
    Drift,
    /// The vertical velocity.
    Rise,
    /// The lifetime in seconds.
    Lifetime,
    /// The size in pixels.
    Size,
}

impl Quantity {
    /// The smallest value of the quantity.
    #[verifier::allow_in_spec]
    pub fn least(self) -> (r: Binary32)
        returns
            (match self {
                Quantity::JitterX => Binary32 { bits: JITTER_MIN },
                Quantity::JitterY => Binary32 { bits: JITTER_MIN },
                Quantity::Drift => Binary32 { bits: DRIFT_MIN },
                Quantity::Rise => Binary32 { bits: RISE_MIN },
                Quantity::Lifetime => Binary32 { bits: LIFETIME_MIN },
                Quantity::Size => Binary32 { bits: SIZE_MIN },
            }),
    {
        match self {
            Quantity::JitterX => Binary32 { bits: JITTER_MIN },
            Quantity::JitterY => Binary32 { bits: JITTER_MIN },
            Quantity::Drift => Binary32 { bits: DRIFT_MIN },
            Quantity::Rise => Binary32 { bits: RISE_MIN },
            Quantity::Lifetime => Binary32 { bits: LIFETIME_MIN },
            Quantity::Size => Binary32 { bits: SIZE_MIN },
        }
    }

    /// The largest value of the quantity.
    #[verifier::allow_in_spec]
    pub fn most(self) -> (r: Binary32)
        returns
            (match self {
                Quantity::JitterX => Binary32 { bits: JITTER_MAX },
                Quantity::JitterY => Binary32 { bits: JITTER_MAX },
                Quantity::Drift => Binary32 { bits: DRIFT_MAX },
                Quantity::Rise => Binary32 { bits: RISE_MAX },
                Quantity::Lifetime => Binary32 { bits: LIFETIME_MAX },
                Quantity::Size => Binary32 { bits: SIZE_MAX },
            }),
    {
        match self {
            Quantity::JitterX => Binary32 { bits: JITTER_MAX },
            Quantity::JitterY => Binary32 { bits: JITTER_MAX },
            Quantity::Drift => Binary32 { bits: DRIFT_MAX },
            Quantity::Rise => Binary32 { bits: RISE_MAX },
            Quantity::Lifetime => Binary32 { bits: LIFETIME_MAX },
            Quantity::Size => Binary32 { bits: SIZE_MAX },
        }
    }

    /// `x` is one of the values of the quantity.
    pub open spec fn allows(self, x: Binary32) -> bool {
        self.least().at_most(x) && x.at_most(self.most())
    }
}

/// The values drawn for one new particle.
#[derive(Clone, Copy, Debug)]
pub struct Draw {
    /// From the emitter to the particle.
    pub jitter: Point,
    pub vel: Point,
    pub lifetime: Binary32,
    pub size: Binary32,
}

impl Draw {
    /// Every value is one that its quantity allows.
    pub open spec fn allowed(self) -> bool {
        &&& Quantity::JitterX.allows(self.jitter.x)
        &&& Quantity::JitterY.allows(self.jitter.y)
        &&& Quantity::Drift.allows(self.vel.x)
        &&& Quantity::Rise.allows(self.vel.y)
        &&& Quantity::Lifetime.allows(self.lifetime)
        &&& Quantity::Size.allows(self.size)
    }
}

/// A source of random numbers. `draw(i, q)` is asked once for the quantity `q` of the new particle
/// `i` of a call.
pub struct Randomness<R> {
    pub draw: R,
}

impl<R: Fn(usize, Quantity) -> Binary32> Randomness<R> {
    /// Every quantity of every particle can be drawn.
    pub open spec fn total(&self) -> bool {
        forall|i: usize, q: Quantity| #[trigger] call_requires(self.draw, (i, q))
    }

    /// `x` is a possible outcome for the quantity `q` of particle `i`.
    pub open spec fn yields(&self, i: usize, q: Quantity, x: Binary32) -> bool {
        call_ensures(self.draw, (i, q), x)
    }

    /// Every outcome is one that its quantity allows.
    pub open spec fn ranged(&self) -> bool {
        forall|i: usize, q: Quantity, x: Binary32| #[trigger] self.yields(i, q, x) ==> q.allows(x)
    }

    /// The values in `d` are outcomes for particle `i`, each for its own quantity.
    pub open spec fn drew(&self, i: usize, d: Draw) -> bool {
        &&& self.yields(i, Quantity::JitterX, d.jitter.x)
        &&& self.yields(i, Quantity::JitterY, d.jitter.y)
        &&& self.yields(i, Quantity::Drift, d.vel.x)
        &&& self.yields(i, Quantity::Rise, d.vel.y)
        &&& self.yields(i, Quantity::Lifetime, d.lifetime)
        &&& self.yields(i, Quantity::Size, d.size)
    }

    /// Each of `draws` was drawn for the particle of its own number.
    pub open spec fn drew_all(&self, draws: Seq<Draw>) -> bool {
        &&& draws.len() <= usize::MAX
        &&& forall|i: int|
            0 <= i < draws.len() ==> self.drew(i as usize, #[trigger] draws[i])
    }

    /// Draws the values for particle `i`.
    pub fn take(&self, i: usize) -> (d: Draw)
        requires
            self.total(),
        ensures
            self.drew(i, d),
    {
        let jitter = Point {
            x: (self.draw)(i, Quantity::JitterX),
            y: (self.draw)(i, Quantity::JitterY),
        };
        let vel = Point { x: (self.draw)(i, Quantity::Drift), y: (self.draw)(i, Quantity::Rise) };
        let lifetime = (self.draw)(i, Quantity::Lifetime);
        let size = (self.draw)(i, Quantity::Size);
        Draw { jitter, vel, lifetime, size }
    }

    /// Draws the values for `count` particles.
    pub fn take_all(&self, count: usize) -> (draws: Vec<Draw>)
        requires
            self.total(),
        ensures
            draws@.len() == count,
            self.drew_all(draws@),
    {
        let mut draws: Vec<Draw> = Vec::new();
        let mut i: usize = 0;
        while i < count
            invariant
                self.total(),
                i <= count,
                draws@.len() == i,
                self.drew_all(draws@),
            decreases count - i,
        {
            let d = self.take(i);
            draws.push(d);
            i = i + 1;
        }
        draws
    }
}

/// The part of the gradient that a normalized age falls into.
#[derive(Clone, Copy, Debug, PartialEq, Eq, Structural)]
pub enum Stage {
    /// From yellow to orange.
    Bright,
    /// From orange to red.
    Dim,
    /// Red, and fading.
    Fading,
}

/// Yellow: 1, 0.95, 0.2.
#[verifier::allow_in_spec]
pub fn yellow() -> (c: Color)
    returns
        (Color {
            r: Binary32 { bits: ONE },
            g: Binary32 { bits: 0x3f73_3333 },
            b: Binary32 { bits: 0x3e4c_cccd },
            a: Binary32 { bits: ONE },
        }),
{
    Color {
        r: Binary32 { bits: ONE },
        g: Binary32 { bits: 0x3f73_3333 },
        b: Binary32 { bits: 0x3e4c_cccd },
        a: Binary32 { bits: ONE },
    }
}

/// Orange: 1, 0.45, 0.05.
#[verifier::allow_in_spec]
pub fn orange() -> (c: Color)
    returns
        (Color {
            r: Binary32 { bits: ONE },
            g: Binary32 { bits: 0x3ee6_6666 },
            b: Binary32 { bits: 0x3d4c_cccd },
            a: Binary32 { bits: ONE },
        }),
{
    Color {
        r: Binary32 { bits: ONE },
        g: Binary32 { bits: 0x3ee6_6666 },
        b: Binary32 { bits: 0x3d4c_cccd },
        a: Binary32 { bits: ONE },
    }
}

/// Red: 0.9, 0.1, 0.02.
#[verifier::allow_in_spec]
pub fn red() -> (c: Color)
    returns
        (Color {
            r: Binary32 { bits: 0x3f66_6666 },
            g: Binary32 { bits: 0x3dcc_cccd },
            b: Binary32 { bits: 0x3ca3_d70a },
            a: Binary32 { bits: ONE },
        }),
{
    Color {
        r: Binary32 { bits: 0x3f66_6666 },
        g: Binary32 { bits: 0x3dcc_cccd },
        b: Binary32 { bits: 0x3ca3_d70a },
        a: Binary32 { bits: ONE },
    }
}

impl Stage {
    /// The stage of a normalized age.
    pub open spec fn at(t: Binary32) -> Stage {
        if t.less(Binary32::from_bits(ORANGE_AGE)) {
            Stage::Bright
        } else if t.less(Binary32::from_bits(RED_AGE)) {
            Stage::Dim
        } else {
            Stage::Fading
        }
    }

    /// The place of the stage in the gradient.
    pub open spec fn place(self) -> int {
        match self {
            Stage::Bright => 0,
            Stage::Dim => 1,
            Stage::Fading => 2,
        }
    }

    /// Finds the stage of a normalized age.
    pub fn of(t: Binary32) -> (stage: Stage)
        ensures
            stage == Stage::at(t),
    {
        if t.lt(Binary32::from_bits(ORANGE_AGE)) {
            Stage::Bright
        } else if t.lt(Binary32::from_bits(RED_AGE)) {
            Stage::Dim
        } else {
            Stage::Fading
        }
    }
}

impl Model {
    /// The value `k` of the way from `a` to `b`.
    pub open spec fn mix(self, a: Binary32, b: Binary32, k: Binary32) -> Binary32 {
        self.add(a, self.mul(self.sub(b, a), k))
    }

    /// The color `k` of the way from `a` to `b`.
    pub open spec fn mix_color(self, a: Color, b: Color, k: Binary32) -> Color {
        Color {
            r: self.mix(a.r, b.r, k),
            g: self.mix(a.g, b.g, k),
            b: self.mix(a.b, b.b, k),
            a: self.mix(a.a, b.a, k),
        }
    }

    /// The color at a normalized age, before its opacity is multiplied in.
    pub open spec fn hue(self, t: Binary32) -> Color {
        match Stage::at(t) {
            Stage::Bright => self.mix_color(
                yellow(),
                orange(),
                self.div(t, Binary32::from_bits(ORANGE_AGE)),
            ),
            Stage::Dim => self.mix_color(
                orange(),
                red(),
                self.div(
                    self.sub(t, Binary32::from_bits(ORANGE_AGE)),
                    Binary32::from_bits(ORANGE_SPAN),
                ),
            ),
            Stage::Fading => red(),
        }
    }

    /// The opacity at a normalized age.
    pub open spec fn opacity(self, t: Binary32) -> Binary32 {
        match Stage::at(t) {
            Stage::Fading => self.sub(
                Binary32::from_bits(ONE),
                self.div(
                    self.sub(t, Binary32::from_bits(RED_AGE)),
                    Binary32::from_bits(FADE_SPAN),
                ),
            ).clamped(Binary32::from_bits(ZERO), Binary32::from_bits(ONE)),
            _ => Binary32::from_bits(ONE),
        }
    }
}

impl<F: Fn(Operation) -> Binary32> Arithmetic<F> {
    /// The value `k` of the way from `a` to `b`.
    fn mix(&self, a: Binary32, b: Binary32, k: Binary32) -> (r: Binary32)
        requires
            self.total(),
        ensures
            forall|m: Model| #[trigger] self.modelled_by(m) ==> r == m.mix(a, b, k),
    {
        self.add(a, self.mul(self.sub(b, a), k))
    }

    /// The color `k` of the way from `a` to `b`.
    fn mix_color(&self, a: Color, b: Color, k: Binary32) -> (r: Color)
        requires
            self.total(),
        ensures
            forall|m: Model| #[trigger] self.modelled_by(m) ==> r == m.mix_color(a, b, k),
    {
        Color {
            r: self.mix(a.r, b.r, k),
            g: self.mix(a.g, b.g, k),
            b: self.mix(a.b, b.b, k),
            a: self.mix(a.a, b.a, k),
        }
    }
}

impl Particle {
    /// The age has reached the lifetime.
    pub open spec fn dead(self) -> bool {
        self.lifetime.at_most(self.age)
    }

    /// The age as a share of the lifetime, between 0 and 1.
    pub open spec fn ripeness(self, m: Model) -> Binary32 {
        if self.lifetime.at_most(Binary32::from_bits(ZERO)) {
            Binary32::from_bits(ONE)
        } else {
            m.div(self.age, self.lifetime).clamped(
                Binary32::from_bits(ZERO),
                Binary32::from_bits(ONE),
            )
        }
    }

    /// The color with its opacity multiplied in.
    pub open spec fn glow(self, m: Model) -> Color {
        let t = self.ripeness(m);
        Color {
            r: m.mul(m.hue(t).r, m.opacity(t)),
            g: m.mul(m.hue(t).g, m.opacity(t)),
            b: m.mul(m.hue(t).b, m.opacity(t)),
            a: m.opacity(t),
        }
    }

    /// The velocity after `dt` seconds of lift and drag.
    pub open spec fn velocity_after(self, m: Model, dt: Binary32) -> Point {
        let keep = m.sub(
            Binary32::from_bits(ONE),
            m.mul(Binary32::from_bits(DRAG), dt),
        ).clamped(Binary32::from_bits(ZERO), Binary32::from_bits(ONE));
        Point {
            x: m.mul(m.add(self.vel.x, m.mul(Binary32::from_bits(ZERO), dt)), keep),
            y: m.mul(m.add(self.vel.y, m.mul(Binary32::from_bits(LIFT), dt)), keep),
        }
    }

    /// The particle `dt` seconds later.
    pub open spec fn moved(self, m: Model, dt: Binary32) -> Particle {
        let vel = self.velocity_after(m, dt);
        Particle {
            pos: Point {
                x: m.add(self.pos.x, m.mul(vel.x, dt)),
                y: m.add(self.pos.y, m.mul(vel.y, dt)),
            },
            vel,
            age: m.add(self.age, dt),
            lifetime: self.lifetime,
            size: self.size,
        }
    }

    /// The new particle at `pos` with the values of `d`.
    pub open spec fn of_draw(m: Model, pos: Point, d: Draw) -> Particle {
        Particle {
            pos: Point { x: m.add(pos.x, d.jitter.x), y: m.add(pos.y, d.jitter.y) },
            vel: d.vel,
            age: Binary32::from_bits(ZERO),
            lifetime: d.lifetime,
            size: d.size,
        }
    }

    /// `i` is the disc that shows the particle.
    pub open spec fn drawn_as(self, m: Model, i: Instance) -> bool {
        &&& i.pos@ == seq![self.pos.x, self.pos.y]
        &&& i.size == self.size
        &&& i.color@ == seq![self.glow(m).r, self.glow(m).g, self.glow(m).b, self.glow(m).a]
    }

    /// Whether the age has reached the lifetime.
    pub fn is_dead(&self) -> (r: bool)
        ensures
            r == self.dead(),
            r == (!self.age.is_nan() && !self.lifetime.is_nan() && self.lifetime.scaled()
                <= self.age.scaled()),
    {
        self.lifetime.le(self.age)
    }

    /// The age as a share of the lifetime, between 0 and 1.
    pub fn normalized_age<F: Fn(Operation) -> Binary32>(&self, ops: &Arithmetic<F>) -> (t: Binary32)
        requires
            ops.total(),
        ensures
            forall|m: Model| #[trigger] ops.modelled_by(m) ==> t == self.ripeness(m),
    {
        let zero = Binary32::from_bits(ZERO);
        let one = Binary32::from_bits(ONE);
        if self.lifetime.le(zero) {
            one
        } else {
            ops.div(self.age, self.lifetime).clamp(zero, one)
        }
    }

    /// The color with its opacity multiplied in, ready to be blended.
    pub fn color_premul<F: Fn(Operation) -> Binary32>(&self, ops: &Arithmetic<F>) -> (c: Color)
        requires
            ops.total(),
        ensures
            forall|m: Model| #[trigger] ops.modelled_by(m) ==> c == self.glow(m),
    {
        let zero = Binary32::from_bits(ZERO);
        let one = Binary32::from_bits(ONE);
        let t = self.normalized_age(ops);
        let (rgb, alpha) = match Stage::of(t) {
            Stage::Bright => {
                let k = ops.div(t, Binary32::from_bits(ORANGE_AGE));
                (ops.mix_color(yellow(), orange(), k), one)
            },
            Stage::Dim => {
                let k = ops.div(
                    ops.sub(t, Binary32::from_bits(ORANGE_AGE)),
                    Binary32::from_bits(ORANGE_SPAN),
                );
                (ops.mix_color(orange(), red(), k), one)
            },
            Stage::Fading => {
                let k = ops.div(
                    ops.sub(t, Binary32::from_bits(RED_AGE)),
                    Binary32::from_bits(FADE_SPAN),
                );
                (red(), ops.sub(one, k).clamp(zero, one))
            },
        };
        Color {
            r: ops.mul(rgb.r, alpha),
            g: ops.mul(rgb.g, alpha),
            b: ops.mul(rgb.b, alpha),
            a: alpha,
        }
    }

    /// Moves the particle on by `dt` seconds.
    fn advance<F: Fn(Operation) -> Binary32>(
        &self,
        dt: Binary32,
        ops: &Arithmetic<F>,
    ) -> (p: Particle)
        requires
            ops.total(),
        ensures
            forall|m: Model| #[trigger] ops.modelled_by(m) ==> p == self.moved(m, dt),
    {
        let zero = Binary32::from_bits(ZERO);
        let one = Binary32::from_bits(ONE);
        let age = ops.add(self.age, dt);
        let pushed_x = ops.add(self.vel.x, ops.mul(zero, dt));
        let pushed_y = ops.add(self.vel.y, ops.mul(Binary32::from_bits(LIFT), dt));
        let keep = ops.sub(one, ops.mul(Binary32::from_bits(DRAG), dt)).clamp(zero, one);
        let vel = Point { x: ops.mul(pushed_x, keep), y: ops.mul(pushed_y, keep) };
        let pos = Point {
            x: ops.add(self.pos.x, ops.mul(vel.x, dt)),
            y: ops.add(self.pos.y, ops.mul(vel.y, dt)),
        };
        Particle { pos, vel, age, lifetime: self.lifetime, size: self.size }
    }

    /// Makes a new particle at `pos` with the values of `d`.
    pub fn from_draw<F: Fn(Operation) -> Binary32>(
        pos: Point,
        d: Draw,
        ops: &Arithmetic<F>,
    ) -> (p: Particle)
        requires
            ops.total(),
        ensures
            forall|m: Model| #[trigger] ops.modelled_by(m) ==> p == Particle::of_draw(m, pos, d),
    {
        Particle {
            pos: Point { x: ops.add(pos.x, d.jitter.x), y: ops.add(pos.y, d.jitter.y) },
            vel: d.vel,
            age: Binary32::from_bits(ZERO),
            lifetime: d.lifetime,
            size: d.size,
        }
    }
}

/// The particles that are not dead, in their order.
pub open spec fn survivors(s: Seq<Particle>) -> Seq<Particle> {
    s.filter(|p: Particle| !p.dead())
}

/// Every particle `dt` seconds later.
pub open spec fn all_moved(s: Seq<Particle>, m: Model, dt: Binary32) -> Seq<Particle> {
    Seq::new(s.len(), |i: int| s[i].moved(m, dt))
}

/// How many of `count` new particles find a place beside `len` others.
pub open spec fn quota(len: nat, max: nat, count: nat) -> nat {
    if len >= max {
        0
    } else if count <= max - len {
        count
    } else {
        (max - len) as nat
    }
}

/// The step for `dt` seconds: not negative, and not longer than the longest.
pub open spec fn bounded_step(dt: Binary32) -> Binary32 {
    dt.clamped(Binary32::from_bits(ZERO), Binary32::from_bits(LONGEST_STEP))
}

/// The step for `dt` seconds.
fn bound_step(dt: Binary32) -> (step: Binary32)
    ensures
        step == bounded_step(dt),
{
    dt.clamp(Binary32::from_bits(ZERO), Binary32::from_bits(LONGEST_STEP))
}

/// The particles of the trail.
pub struct ParticleSystem {
    /// The living particles, oldest first.
    pub particles: Vec<Particle>,
    /// The share of a particle that is still owed.
    pub spawn_accumulator: Binary32,
    /// The most particles alive at once.
    pub max_particles: usize,
    /// Particles per second.
    pub spawn_rate: Binary32,
}

impl ParticleSystem {
    /// The living particles, oldest first.
    pub open spec fn list(&self) -> Seq<Particle> {
        self.particles@
    }

    /// The share of a particle that is still owed.
    pub open spec fn owed(&self) -> Binary32 {
        self.spawn_accumulator
    }

    /// What is owed after `dt` seconds.
    pub open spec fn accrued(&self, m: Model, dt: Binary32) -> Binary32 {
        m.add(self.owed(), m.mul(self.spawn_rate, dt))
    }

    /// The whole particles among what is owed after `dt` seconds.
    pub open spec fn due(&self, m: Model, dt: Binary32) -> usize {
        if self.accrued(m, dt).floor_nat() <= usize::MAX {
            self.accrued(m, dt).floor_nat() as usize
        } else {
            usize::MAX
        }
    }

    /// How many new particles a step of `dt` seconds calls for.
    pub open spec fn called_for(&self, m: Model, dt: Binary32) -> nat {
        quota(self.list().len(), self.max_particles as nat, self.due(m, dt) as nat)
    }

    /// The particles that a step of `dt` seconds makes at `pos`: one for each of `draws`, as far as
    /// they are called for.
    pub open spec fn made(
        &self,
        m: Model,
        dt: Binary32,
        pos: Point,
        draws: Seq<Draw>,
    ) -> Seq<Particle> {
        let n = if draws.len() < self.called_for(m, dt) {
            draws.len()
        } else {
            self.called_for(m, dt)
        };
        Seq::new(n, |i: int| Particle::of_draw(m, pos, draws[i]))
    }

    /// `after` is this system a step of `dt` seconds later, with new particles out of `draws` at
    /// `pos`.
    pub open spec fn stepped(
        &self,
        m: Model,
        dt: Binary32,
        pos: Point,
        draws: Seq<Draw>,
        after: ParticleSystem,
    ) -> bool {
        &&& after.list() == survivors(all_moved(self.list() + self.made(m, dt, pos, draws), m, dt))
        &&& after.owed() == m.sub(self.accrued(m, dt), m.unsigned(self.due(m, dt) as u64))
        &&& after.max_particles == self.max_particles
        &&& after.spawn_rate == self.spawn_rate
    }

    /// A system just made.
    pub open spec fn fresh(&self) -> bool {
        &&& self.list() == Seq::<Particle>::empty()
        &&& self.owed() == Binary32::from_bits(ZERO)
        &&& self.max_particles == DEFAULT_MAX_PARTICLES
        &&& self.spawn_rate == Binary32::from_bits(DEFAULT_SPAWN_RATE)
    }

    /// A system without particles, at the default rate.
    pub fn new() -> (s: Self)
        ensures
            s.fresh(),
    {
        ParticleSystem {
            particles: Vec::with_capacity(4096),
            spawn_accumulator: Binary32::from_bits(ZERO),
            max_particles: DEFAULT_MAX_PARTICLES,
            spawn_rate: Binary32::from_bits(DEFAULT_SPAWN_RATE),
        }
    }

    /// The living particles, oldest first.
    pub fn particles(&self) -> (r: &[Particle])
        ensures
            r@ == self.list(),
    {
        self.particles.as_slice()
    }

    /// The particles as discs to paint.
    pub fn instances<F: Fn(Operation) -> Binary32>(&self, ops: &Arithmetic<F>) -> (r: Vec<Instance>)
        requires
            ops.total(),
        ensures
            r@.len() == self.list().len(),
            forall|m: Model, i: int|
                ops.modelled_by(m) && 0 <= i < r@.len() ==> (#[trigger] self.list()[i].drawn_as(
                    m,
                    r@[i],
                )),
    {
        let mut r: Vec<Instance> = Vec::with_capacity(self.particles.len());
        let mut i: usize = 0;
        while i < self.particles.len()
            invariant
                ops.total(),
                i <= self.list().len(),
                r@.len() == i,
                forall|m: Model, j: int|
                    ops.modelled_by(m) && 0 <= j < i ==> (#[trigger] self.list()[j].drawn_as(
                        m,
                        r@[j],
                    )),
            decreases self.list().len() - i,
        {
            let p = self.particles[i];
            let drawn = Instance::new([p.pos.x, p.pos.y], p.size, p.color_premul(ops));
            r.push(drawn);
            i = i + 1;
        }
        r
    }

    /// What is owed after `dt` seconds, and the whole particles among it.
    fn accrue<F: Fn(Operation) -> Binary32>(
        &self,
        dt: Binary32,
        ops: &Arithmetic<F>,
    ) -> (r: (Binary32, usize))
        requires
            ops.total(),
        ensures
            forall|m: Model| #[trigger]
                ops.modelled_by(m) ==> r.0 == self.accrued(m, dt) && r.1 == self.due(m, dt),
    {
        let accrued = ops.add(self.spawn_accumulator, ops.mul(self.spawn_rate, dt));
        (accrued, accrued.floor_to(usize::MAX as u64) as usize)
    }

    /// How many new particles a step of `dt` seconds will make if they can be drawn.
    pub fn count_called_for<F: Fn(Operation) -> Binary32>(
        &self,
        dt: Binary32,
        ops: &Arithmetic<F>,
    ) -> (n: usize)
        requires
            ops.total(),
        ensures
            forall|m: Model| #[trigger]
                ops.modelled_by(m) ==> n == self.called_for(m, bounded_step(dt)),
    {
        let (_, due) = self.accrue(bound_step(dt), ops);
        self.count_with_room(due)
    }

    /// How many of `count` new particles find a place.
    fn count_with_room(&self, count: usize) -> (n: usize)
        ensures
            n == quota(self.list().len(), self.max_particles as nat, count as nat),
    {
        let len = self.particles.len();
        if len >= self.max_particles {
            0
        } else if count <= self.max_particles - len {
            count
        } else {
            self.max_particles - len
        }
    }

    /// Spawns what `dt` seconds call for at `emitter_pos`, moves every particle and drops the dead.
    pub fn update_and_spawn<F: Fn(Operation) -> Binary32, R: Fn(usize, Quantity) -> Binary32>(
        &mut self,
        dt: Binary32,
        emitter_pos: Point,
        ops: &Arithmetic<F>,
        random: &Randomness<R>,
    )
        requires
            ops.total(),
            random.total(),
        ensures
            final(self).max_particles == old(self).max_particles,
            final(self).spawn_rate == old(self).spawn_rate,
            exists|draws: Seq<Draw>| #[trigger]
                random.drew_all(draws) && forall|m: Model| #[trigger]
                    ops.modelled_by(m) ==> draws.len() == old(self).called_for(m, bounded_step(dt))
                        && old(self).stepped(m, bounded_step(dt), emitter_pos, draws, *final(self)),
            forall|i: int|
                0 <= i < final(self).list().len() ==> !(#[trigger] final(self).list()[i]).dead(),
            final(self).list().len() <= old(self).list().len() || final(self).list().len()
                <= old(self).max_particles,
    {
        let draws = random.take_all(self.count_called_for(dt, ops));
        self.update_and_spawn_drawn(dt, emitter_pos, draws.as_slice(), ops);
        assert(random.drew_all(draws@));
    }

    /// Spawns what `dt` seconds call for at `emitter_pos`, as far as `draws` reaches, moves every
    /// particle and drops the dead.
    pub fn update_and_spawn_drawn<F: Fn(Operation) -> Binary32>(
        &mut self,
        dt: Binary32,
        emitter_pos: Point,
        draws: &[Draw],
        ops: &Arithmetic<F>,
    )
        requires
            ops.total(),
        ensures
            final(self).max_particles == old(self).max_particles,
            final(self).spawn_rate == old(self).spawn_rate,
            forall|m: Model| #[trigger]
                ops.modelled_by(m) ==> old(self).stepped(
                    m,
                    bounded_step(dt),
                    emitter_pos,
                    draws@,
                    *final(self),
                ),
            forall|i: int|
                0 <= i < final(self).list().len() ==> !(#[trigger] final(self).list()[i]).dead(),
            final(self).list().len() <= old(self).list().len() || final(self).list().len()
                <= old(self).max_particles,
    {
        let step = bound_step(dt);
        let (accrued, due) = self.accrue(step, ops);
        self.spawn_accumulator = ops.sub(accrued, ops.unsigned(due as u64));
        self.add_drawn(emitter_pos, draws, due, ops);
        let ghost before = old(self).list();
        let ghost all = self.particles@;
        let ghost made = all.skip(before.len() as int);
        assert(all == before + made);
        self.advance_all(step, ops);
        let ghost moved = self.particles@;
        self.drop_dead();
        proof {
            assert forall|m: Model| #[trigger] ops.modelled_by(m) implies old(self).stepped(
                m,
                step,
                emitter_pos,
                draws@,
                *self,
            ) by {
                assert(made =~= old(self).made(m, step, emitter_pos, draws@)) by {
                    assert forall|i: int| 0 <= i < made.len() implies made[i]
                        == Particle::of_draw(m, emitter_pos, draws@[i]) by {
                        assert(made[i] == all[before.len() + i]);
                    }
                }
                assert(moved =~= all_moved(all, m, step));
            }
        }
    }

    /// Adds `count` new particles at `pos`, as far as there is room.
    pub fn spawn<F: Fn(Operation) -> Binary32, R: Fn(usize, Quantity) -> Binary32>(
        &mut self,
        pos: Point,
        count: usize,
        ops: &Arithmetic<F>,
        random: &Randomness<R>,
    )
        requires
            ops.total(),
            random.total(),
        ensures
            final(self).max_particles == old(self).max_particles,
            final(self).spawn_rate == old(self).spawn_rate,
            final(self).owed() == old(self).owed(),
            final(self).list().len() == old(self).list().len() + quota(
                old(self).list().len(),
                old(self).max_particles as nat,
                count as nat,
            ),
            final(self).list().take(old(self).list().len() as int) == old(self).list(),
            exists|draws: Seq<Draw>| #[trigger]
                random.drew_all(draws) && draws.len() == final(self).list().len()
                    - old(self).list().len() && forall|m: Model, i: int|
                    #![trigger ops.modelled_by(m), draws[i]]
                    ops.modelled_by(m) && 0 <= i < draws.len() ==> final(self).list()[
                    old(self).list().len() + i] == Particle::of_draw(m, pos, draws[i]),
    {
        let draws = random.take_all(self.count_with_room(count));
        self.spawn_drawn(pos, draws.as_slice(), ops);
        assert(random.drew_all(draws@));
        proof {
            let len = old(self).list().len();
            assert forall|m: Model, i: int|
                #![trigger ops.modelled_by(m), draws@[i]]
                ops.modelled_by(m) && 0 <= i < draws@.len() implies self.list()[len + i]
                == Particle::of_draw(m, pos, draws@[i]) by {
                let p = self.list()[len + i];
            }
        }
    }

    /// Adds a new particle at `pos` for each of `draws`, as far as there is room.
    pub fn spawn_drawn<F: Fn(Operation) -> Binary32>(
        &mut self,
        pos: Point,
        draws: &[Draw],
        ops: &Arithmetic<F>,
    )
        requires
            ops.total(),
        ensures
            final(self).max_particles == old(self).max_particles,
            final(self).spawn_rate == old(self).spawn_rate,
            final(self).owed() == old(self).owed(),
            final(self).list().len() == old(self).list().len() + quota(
                old(self).list().len(),
                old(self).max_particles as nat,
                draws@.len(),
            ),
            final(self).list().take(old(self).list().len() as int) == old(self).list(),
            forall|m: Model, i: int|
                #![trigger ops.modelled_by(m), final(self).list()[i]]
                ops.modelled_by(m) && old(self).list().len() <= i < final(self).list().len()
                    ==> final(self).list()[i] == Particle::of_draw(
                    m,
                    pos,
                    draws@[i - old(self).list().len()],
                ),
    {
        self.add_drawn(pos, draws, draws.len(), ops);
    }

    /// Adds a new particle at `pos` for each of the first `count` of `draws`, as far as there is
    /// room.
    fn add_drawn<F: Fn(Operation) -> Binary32>(
        &mut self,
        pos: Point,
        draws: &[Draw],
        count: usize,
        ops: &Arithmetic<F>,
    )
        requires
            ops.total(),
        ensures
            final(self).max_particles == old(self).max_particles,
            final(self).spawn_rate == old(self).spawn_rate,
            final(self).owed() == old(self).owed(),
            final(self).list().len() == old(self).list().len() + quota(
                old(self).list().len(),
                old(self).max_particles as nat,
                vstd::math::min(count as int, draws@.len() as int) as nat,
            ),
            final(self).list().take(old(self).list().len() as int) == old(self).list(),
            forall|m: Model, i: int|
                #![trigger ops.modelled_by(m), final(self).list()[i]]
                ops.modelled_by(m) && old(self).list().len() <= i < final(self).list().len()
                    ==> final(self).list()[i] == Particle::of_draw(
                    m,
                    pos,
                    draws@[i - old(self).list().len()],
                ),
    {
        let mut n: usize = 0;
        while n < count && n < draws.len() && self.particles.len() < self.max_particles
            invariant
                ops.total(),
                n <= count,
                n <= draws@.len(),
                self.max_particles == old(self).max_particles,
                self.spawn_rate == old(self).spawn_rate,
                self.owed() == old(self).owed(),
                self.list().len() == old(self).list().len() + n,
                n > 0 ==> self.list().len() <= self.max_particles,
                self.list().take(old(self).list().len() as int) == old(self).list(),
                forall|m: Model, i: int|
                    #![trigger ops.modelled_by(m), self.list()[i]]
                    ops.modelled_by(m) && old(self).list().len() <= i < self.list().len()
                        ==> self.list()[i] == Particle::of_draw(
                        m,
                        pos,
                        draws@[i - old(self).list().len()],
                    ),
            decreases count - n,
        {
            let p = Particle::from_draw(pos, draws[n], ops);
            let ghost prior = self.particles@;
            self.particles.push(p);
            proof {
                assert(self.particles@.take(old(self).list().len() as int) =~= prior.take(
                    old(self).list().len() as int,
                ));
                assert forall|m: Model, i: int|
                    #![trigger ops.modelled_by(m), self.list()[i]]
                    ops.modelled_by(m) && old(self).list().len() <= i < self.list().len()
                    implies self.list()[i] == Particle::of_draw(
                    m,
                    pos,
                    draws@[i - old(self).list().len()],
                ) by {
                    if i < prior.len() {
                        assert(self.list()[i] == prior[i]);
                    }
                }
            }
            n = n + 1;
        }
    }

    /// Moves every particle on by `dt` seconds.
    fn advance_all<F: Fn(Operation) -> Binary32>(&mut self, dt: Binary32, ops: &Arithmetic<F>)
        requires
            ops.total(),
        ensures
            final(self).max_particles == old(self).max_particles,
            final(self).spawn_rate == old(self).spawn_rate,
            final(self).owed() == old(self).owed(),
            final(self).list().len() == old(self).list().len(),
            forall|m: Model, i: int|
                ops.modelled_by(m) && 0 <= i < old(self).list().len() ==> final(self).list()[i]
                    == #[trigger] old(self).list()[i].moved(m, dt),
    {
        let mut i: usize = 0;
        while i < self.particles.len()
            invariant
                ops.total(),
                self.max_particles == old(self).max_particles,
                self.spawn_rate == old(self).spawn_rate,
                self.owed() == old(self).owed(),
                i <= self.list().len() == old(self).list().len(),
                forall|m: Model, j: int|
                    ops.modelled_by(m) && 0 <= j < i ==> self.list()[j]
                        == #[trigger] old(self).list()[j].moved(m, dt),
                forall|j: int| i <= j < self.list().len() ==> self.list()[j] == old(self).list()[j],
            decreases self.list().len() - i,
        {
            let p = self.particles[i].advance(dt, ops);
            self.particles.set(i, p);
            i = i + 1;
        }
    }

    /// Drops the dead particles and keeps the order of the others.
    fn drop_dead(&mut self)
        ensures
            final(self).max_particles == old(self).max_particles,
            final(self).spawn_rate == old(self).spawn_rate,
            final(self).owed() == old(self).owed(),
            final(self).list() == survivors(old(self).list()),
            final(self).list().len() <= old(self).list().len(),
            forall|i: int|
                0 <= i < final(self).list().len() ==> !(#[trigger] final(self).list()[i]).dead(),
    {
        let mut kept: usize = 0;
        let mut i: usize = 0;
        let ghost all = self.particles@;
        assert(all.take(0) =~= Seq::empty());
        proof {
            reveal(Seq::filter);
        }
        while i < self.particles.len()
            invariant
                self.max_particles == old(self).max_particles,
                self.spawn_rate == old(self).spawn_rate,
                self.owed() == old(self).owed(),
                all == old(self).list(),
                kept <= i <= self.list().len() == all.len(),
                self.list().take(kept as int) == survivors(all.take(i as int)),
                forall|j: int| i <= j < self.list().len() ==> self.list()[j] == all[j],
                forall|j: int| 0 <= j < kept ==> !(#[trigger] self.list()[j]).dead(),
            decreases self.list().len() - i,
        {
            proof {
                reveal(Seq::filter);
                assert(all.take(i + 1).drop_last() =~= all.take(i as int));
            }
            let p = self.particles[i];
            let ghost prior = self.particles@;
            if !p.is_dead() {
                self.particles.set(kept, p);
                assert(self.particles@.take(kept + 1) =~= prior.take(kept as int).push(p));
                kept = kept + 1;
            }
            i = i + 1;
        }
        assert(all.take(all.len() as int) =~= all);
        self.particles.truncate(kept);
        assert(self.particles@ =~= survivors(all));
    }
}

/// A new particle rises, is alive, and has the drawn lifetime, size and sideways velocity within
/// their bounds, if the draws keep to their quantities.
pub proof fn law_new_particles_rise(m: Model, pos: Point, d: Draw)
    requires
        d.allowed(),
    ensures
        ({
            let p = Particle::of_draw(m, pos, d);
            &&& p.vel.y.less(Binary32::from_bits(ZERO))
            &&& !p.dead()
            &&& Quantity::Lifetime.allows(p.lifetime)
            &&& Quantity::Size.allows(p.size)
            &&& Quantity::Drift.allows(p.vel.x)
        }),
{
    crate::binary32::law_patterns_order_numbers(
        Binary32::from_bits(RISE_MAX),
        Binary32::from_bits(ZERO),
    );
    crate::binary32::law_patterns_order_numbers(
        Binary32::from_bits(ZERO),
        Binary32::from_bits(LIFETIME_MIN),
    );
}

/// Randomness that keeps its ranges draws allowed values only.
pub proof fn law_ranged_draws_are_allowed<R: Fn(usize, Quantity) -> Binary32>(
    random: &Randomness<R>,
    i: usize,
    d: Draw,
)
    requires
        random.ranged(),
        random.drew(i, d),
    ensures
        d.allowed(),
{
}

/// A longer list holds what the shorter one held, and the new particle.
proof fn lemma_push_contains(s: Seq<Particle>, last: Particle, p: Particle)
    ensures
        s.push(last).contains(p) <==> s.contains(p) || p == last,
{
    let t = s.push(last);
    if s.contains(p) {
        let i = choose|i: int| 0 <= i < s.len() && s[i] == p;
        assert(t[i] == p);
    }
    assert(t[s.len() as int] == last);
}

/// The survivors are exactly the particles that are not dead.
pub proof fn law_only_the_dead_go(s: Seq<Particle>, p: Particle)
    ensures
        survivors(s).contains(p) <==> s.contains(p) && !p.dead(),
    decreases s.len(),
{
    reveal(Seq::filter);
    if s.len() > 0 {
        law_only_the_dead_go(s.drop_last(), p);
        assert(s =~= s.drop_last().push(s.last()));
        lemma_push_contains(s.drop_last(), s.last(), p);
        lemma_push_contains(survivors(s.drop_last()), s.last(), p);
    }
}

/// Survivors keep their order, so older particles stay before newer ones.
pub proof fn law_survivors_keep_their_order(older: Seq<Particle>, newer: Seq<Particle>)
    ensures
        survivors(older + newer) == survivors(older) + survivors(newer),
{
    Seq::filter_distributes_over_add(older, newer, |p: Particle| !p.dead());
}

/// There is room for every particle that is due as long as the limit is not reached, and the
/// limit is never passed.
pub proof fn law_limit_is_kept(len: nat, max: nat, count: nat)
    ensures
        quota(len, max, count) <= count,
        len <= max ==> len + quota(len, max, count) <= max,
        len + count <= max ==> quota(len, max, count) == count,
        len <= max && len + count > max ==> len + quota(len, max, count) == max,
        len >= max ==> quota(len, max, count) == 0,
{
}

/// A particle is dead exactly when its age is not below its lifetime, as numbers.
pub proof fn law_death(p: Particle)
    ensures
        p.dead() <==> !p.age.is_nan() && !p.lifetime.is_nan() && p.lifetime.scaled()
            <= p.age.scaled(),
{
}

/// Of one particle there survives that particle, or none if it is dead; and of none, none.
pub proof fn law_one_survives(p: Particle)
    ensures
        survivors(seq![p]) == (if !p.age.is_nan() && !p.lifetime.is_nan() && p.lifetime.scaled()
            <= p.age.scaled() {
            Seq::<Particle>::empty()
        } else {
            seq![p]
        }),
        survivors(Seq::empty()) == Seq::<Particle>::empty(),
{
    reveal(Seq::filter);
    let s = seq![p];
    assert(s.drop_last() =~= Seq::empty());
    assert(s.last() == p);
    assert(survivors(Seq::empty()) =~= Seq::<Particle>::empty());
    assert(survivors(s) =~= if p.dead() {
        Seq::<Particle>::empty()
    } else {
        seq![p]
    });
}

/// A new particle is as it was drawn: on each axis at the number nearest to the emitter plus its
/// jitter, of age 0, and with the velocity, the lifetime and the size that were drawn.
pub proof fn law_new_particles_are_as_drawn(m: Model, pos: Point, d: Draw)
    requires
        m.rounds_to_nearest(),
        pos.x.is_finite(),
        pos.y.is_finite(),
        d.jitter.x.is_finite(),
        d.jitter.y.is_finite(),
    ensures
        ({
            let p = Particle::of_draw(m, pos, d);
            &&& crate::arithmetic::rounds(p.pos.x, pos.x.scaled() + d.jitter.x.scaled(), 1)
            &&& crate::arithmetic::rounds(p.pos.y, pos.y.scaled() + d.jitter.y.scaled(), 1)
            &&& p.vel == d.vel
            &&& p.age.bits == 0
            &&& p.lifetime == d.lifetime
            &&& p.size == d.size
        }),
{
    m.add_rounds(pos.x, d.jitter.x);
    m.add_rounds(pos.y, d.jitter.y);
}

/// `all` are the particles of a step before the dead are dropped: first the old ones in their order,
/// then one for each draw, each moved once.
pub open spec fn moved_once(
    s: ParticleSystem,
    m: Model,
    step: Binary32,
    pos: Point,
    draws: Seq<Draw>,
    all: Seq<Particle>,
) -> bool {
    let len = s.list().len() as int;
    &&& forall|j: int| 0 <= j < len ==> (#[trigger] all[j]) == s.list()[j].moved(m, step)
    &&& forall|j: int|
        len <= j < all.len() ==> (#[trigger] all[j]) == Particle::of_draw(
            m,
            pos,
            draws[j - len],
        ).moved(m, step)
}

/// A step makes as many particles as are due, as there are draws for and as there is room for, moves
/// every particle once, the new ones too, and drops the dead.
pub proof fn law_step_accounts(
    s: ParticleSystem,
    m: Model,
    step: Binary32,
    pos: Point,
    draws: Seq<Draw>,
    after: ParticleSystem,
)
    requires
        s.stepped(m, step, pos, draws, after),
    ensures
        exists|all: Seq<Particle>| #[trigger]
            moved_once(s, m, step, pos, draws, all) && all.len() - s.list().len()
                == vstd::math::min(
                draws.len() as int,
                vstd::math::min(
                    s.due(m, step) as int,
                    vstd::math::max(s.max_particles - s.list().len(), 0),
                ),
            ) && after.list() == survivors(all),
        after.owed() == m.sub(s.accrued(m, step), m.unsigned(s.due(m, step) as u64)),
        after.max_particles == s.max_particles,
        after.spawn_rate == s.spawn_rate,
{
    let made = s.made(m, step, pos, draws);
    let all = all_moved(s.list() + made, m, step);
    assert(moved_once(s, m, step, pos, draws, all));
}

/// What shows a particle is a disc at its place, of its size and in its color.
pub proof fn law_discs_show_particles(p: Particle, m: Model, i: Instance)
    requires
        p.drawn_as(m, i),
    ensures
        i.pos[0] == p.pos.x,
        i.pos[1] == p.pos.y,
        i.size == p.size,
        i.color[0] == p.glow(m).r,
        i.color[1] == p.glow(m).g,
        i.color[2] == p.glow(m).b,
        i.color[3] == p.glow(m).a,
{
    assert(i.pos@[0] == p.pos.x && i.pos@[1] == p.pos.y);
    assert(i.color@[0] == p.glow(m).r && i.color@[1] == p.glow(m).g);
    assert(i.color@[2] == p.glow(m).b && i.color@[3] == p.glow(m).a);
}

/// A new trail is empty, owes nothing, spawns 900 particles per second and holds up to 8000.
pub proof fn law_new_trails(s: ParticleSystem)
    requires
        s.fresh(),
    ensures
        s.list().len() == 0,
        s.owed().scaled() == 0 && s.owed().is_finite(),
        s.max_particles == 8000,
        s.spawn_rate.is_finite(),
        s.spawn_rate.scaled() == 900 * Binary32::unit(),
{
    vstd::arithmetic::power2::lemma2_to64();
    vstd::arithmetic::power2::lemma_pow2_adds(14, 135);
    let p = vstd::arithmetic::power2::pow2(135) as int;
    let rate = Binary32::from_bits(DEFAULT_SPAWN_RATE);
    assert(rate.exponent() == 136 && rate.fraction() == 0x61_0000);
    assert(0xe1_0000 * p == 900 * (16384 * p)) by (nonlinear_arith);
}

} // verus!
