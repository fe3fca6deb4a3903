//! What holds of moving particles, with rounding to nearest.
//!
//! Whatever the steps, a particle of the trail is alive, rises, and stays within its bounds; a step
//! without time changes nothing; and the share of a particle that stays owed is less than one.
use vstd::prelude::*;

use crate::arithmetic::Model;
use crate::binary32::{Binary32, ONE, ZERO};
use crate::particles::{
    Draw, Particle, ParticleSystem, Point, Quantity, DEFAULT_SPAWN_RATE, DRAG, DRIFT_MAX,
    DRIFT_MIN, JITTER_MAX, JITTER_MIN, LIFETIME_MAX, LIFETIME_MIN, LIFT, LONGEST_STEP, RISE_MAX,
    RISE_MIN, SIZE_MAX, SIZE_MIN,
};

verus! {

/// The pattern of -2^20: no particle rises faster.
const FASTEST: u32 = 0xc980_0000;

/// The pattern of the largest number below -2^20.
const FASTER: u32 = 0xc980_0001;

/// The pattern of the largest number below 1.
const BELOW_ONE: u32 = 0x3f7f_ffff;

/// The distance between the numbers just below the longest step.
spec fn grain() -> int {
    vstd::arithmetic::power2::pow2(121) as int
}

/// One, in units of 2^-149.
spec fn one() -> int {
    Binary32::unit() as int
}

impl Point {
    /// Both have the same values.
    pub open spec fn same_values(self, other: Point) -> bool {
        self.x.same_value(other.x) && self.y.same_value(other.y)
    }
}

impl Particle {
    /// The particle is alive, rises, and its lifetime, size and sideways velocity are within their
    /// bounds.
    pub open spec fn thrives(self) -> bool {
        &&& self.age.is_finite()
        &&& 0 <= self.age.scaled() < self.lifetime.scaled()
        &&& Quantity::Lifetime.allows(self.lifetime)
        &&& Quantity::Size.allows(self.size)
        &&& Quantity::Drift.allows(self.vel.x)
        &&& self.vel.y.is_finite()
        &&& -(0x10_0000 * Binary32::unit()) <= self.vel.y.scaled() <= -(Binary32::unit() as int)
    }

    /// Both have the same values.
    pub open spec fn same_values(self, other: Particle) -> bool {
        &&& self.pos.same_values(other.pos)
        &&& self.vel.same_values(other.vel)
        &&& self.age.same_value(other.age)
        &&& self.lifetime == other.lifetime
        &&& self.size == other.size
    }
}

impl ParticleSystem {
    /// There are no more particles than the limit allows, every one of them thrives, they come at
    /// the default rate, and less than one is owed.
    pub open spec fn thrives(&self) -> bool {
        &&& self.list().len() <= self.max_particles
        &&& forall|i: int| 0 <= i < self.list().len() ==> (#[trigger] self.list()[i]).thrives()
        &&& self.spawn_rate == Binary32::from_bits(DEFAULT_SPAWN_RATE)
        &&& self.owed().is_finite()
        &&& 0 <= self.owed().scaled() < Binary32::unit()
    }
}

/// All draws keep to their quantities.
pub open spec fn all_allowed(draws: Seq<Draw>) -> bool {
    forall|i: int| 0 <= i < draws.len() ==> (#[trigger] draws[i]).allowed()
}

/// The numbers of the motion, in grains and in units.
proof fn lemma_constants()
    ensures
        grain() > 0,
        one() == 0x1000_0000 * grain(),
        Binary32::from_bits(ZERO).has(0),
        Binary32::from_bits(ONE).has(one()),
        Binary32::from_bits(LONGEST_STEP).has(0xcc_cccd * grain()),
        Binary32::from_bits(DRAG).has(0x1ccc_ccc0 * grain()),
        Binary32::from_bits(LIFT).has(-(220 * one())),
        Binary32::from_bits(DEFAULT_SPAWN_RATE).has(900 * one()),
        Binary32::representable(0),
        Binary32::representable(one()),
        Binary32::representable(-one()),
        Binary32::representable(0x800_0000 * grain()),
        Binary32::representable(-(16 * one())),
        Binary32::representable(64 * one()),
        Binary32::representable(128 * one()),
{
    let g = grain();
    vstd::arithmetic::power2::lemma_pow2_pos(121);
    vstd::arithmetic::power2::lemma2_to64();
    vstd::arithmetic::power2::lemma_pow2_adds(28, 121);
    vstd::arithmetic::power2::lemma_pow2_adds(27, 121);
    vstd::arithmetic::power2::lemma_pow2_adds(5, 121);
    vstd::arithmetic::power2::lemma_pow2_adds(12, 121);
    vstd::arithmetic::power2::lemma_pow2_adds(14, 121);
    crate::binary32::lemma_one();
    let step = Binary32::from_bits(LONGEST_STEP);
    assert(step.exponent() == 122 && step.fraction() == 0x4c_cccd);
    let drag = Binary32::from_bits(DRAG);
    assert(drag.exponent() == 127 && drag.fraction() == 0x66_6666);
    assert(0xe6_6666 * (32 * g) == 0x1ccc_ccc0 * g) by (nonlinear_arith);
    let lift = Binary32::from_bits(LIFT);
    assert(lift.exponent() == 134 && lift.fraction() == 0x5c_0000);
    assert(0xdc_0000 * (4096 * g) == 220 * (0x1000_0000 * g)) by (nonlinear_arith);
    let rate = Binary32::from_bits(DEFAULT_SPAWN_RATE);
    assert(rate.exponent() == 136 && rate.fraction() == 0x61_0000);
    assert(0xe1_0000 * (16384 * g) == 900 * (0x1000_0000 * g)) by (nonlinear_arith);
    assert(Binary32::from_bits(ZERO).has(0));
    assert(Binary32::from_bits(ONE).has(one()));
    crate::binary32::lemma_representable_opposite(one());
    crate::binary32::lemma_representable(1, 148);
    assert(1 * (0x800_0000 * g) == 0x800_0000 * g);
    crate::binary32::lemma_representable(16, 149);
    crate::binary32::lemma_representable_opposite(16 * one());
    crate::binary32::lemma_representable(64, 149);
    crate::binary32::lemma_representable(128, 149);
}

/// The bounds of what is drawn, in grains and in units.
proof fn lemma_bounds()
    ensures
        Binary32::from_bits(DRIFT_MIN).has(-(55 * one())),
        Binary32::from_bits(DRIFT_MAX).has(55 * one()),
        Binary32::from_bits(RISE_MIN).has(-(260 * one())),
        Binary32::from_bits(RISE_MAX).has(-(110 * one())),
        Binary32::from_bits(LIFETIME_MIN).is_finite(),
        Binary32::from_bits(LIFETIME_MIN).scaled() > 0,
        Binary32::from_bits(LIFETIME_MAX).has(0xd99_99a0 * grain()),
        Binary32::from_bits(SIZE_MIN).is_finite(),
        Binary32::from_bits(SIZE_MIN).scaled() > 0,
        Binary32::from_bits(SIZE_MAX).is_finite(),
        Binary32::from_bits(JITTER_MIN).has(-(3 * one())),
        Binary32::from_bits(JITTER_MAX).has(3 * one()),
{
    let g = grain();
    vstd::arithmetic::power2::lemma_pow2_pos(121);
    vstd::arithmetic::power2::lemma2_to64();
    vstd::arithmetic::power2::lemma_pow2_adds(28, 121);
    vstd::arithmetic::power2::lemma_pow2_adds(4, 121);
    vstd::arithmetic::power2::lemma_pow2_adds(6, 121);
    vstd::arithmetic::power2::lemma_pow2_adds(10, 121);
    vstd::arithmetic::power2::lemma_pow2_adds(11, 121);
    vstd::arithmetic::power2::lemma_pow2_adds(13, 121);
    let drift = Binary32::from_bits(DRIFT_MAX);
    assert(drift.exponent() == 132 && drift.fraction() == 0x5c_0000);
    let left = Binary32::from_bits(DRIFT_MIN);
    assert(left.exponent() == 132 && left.fraction() == 0x5c_0000);
    assert(0xdc_0000 * (1024 * g) == 55 * (0x1000_0000 * g)) by (nonlinear_arith);
    let slow = Binary32::from_bits(RISE_MAX);
    assert(slow.exponent() == 133 && slow.fraction() == 0x5c_0000);
    assert(0xdc_0000 * (2048 * g) == 110 * (0x1000_0000 * g)) by (nonlinear_arith);
    let fast = Binary32::from_bits(RISE_MIN);
    assert(fast.exponent() == 135 && fast.fraction() == 0x2_0000);
    assert(0x82_0000 * (8192 * g) == 260 * (0x1000_0000 * g)) by (nonlinear_arith);
    let long = Binary32::from_bits(LIFETIME_MAX);
    assert(long.exponent() == 126 && long.fraction() == 0x59_999a);
    assert(0xd9_999a * (16 * g) == 0xd99_99a0 * g) by (nonlinear_arith);
    let near = Binary32::from_bits(JITTER_MAX);
    assert(near.exponent() == 128 && near.fraction() == 0x40_0000);
    let back = Binary32::from_bits(JITTER_MIN);
    assert(back.exponent() == 128 && back.fraction() == 0x40_0000);
    assert(0xc0_0000 * (64 * g) == 3 * (0x1000_0000 * g)) by (nonlinear_arith);
    let zero = Binary32::from_bits(ZERO);
    assert(zero.scaled() == 0);
    crate::binary32::law_patterns_order_numbers(zero, Binary32::from_bits(LIFETIME_MIN));
    crate::binary32::law_patterns_order_numbers(zero, Binary32::from_bits(SIZE_MIN));
}

/// A step for a number of seconds is between none and the longest; none for none or less.
proof fn lemma_step(dt: Binary32)
    requires
        !dt.is_nan(),
    ensures
        crate::particles::bounded_step(dt).is_finite(),
        0 <= crate::particles::bounded_step(dt).scaled() <= 0xcc_cccd * grain(),
        dt.scaled() <= 0 ==> crate::particles::bounded_step(dt).scaled() == 0,
{
    lemma_constants();
    let step = crate::particles::bounded_step(dt);
    crate::binary32::lemma_finite_range(step);
    crate::binary32::lemma_finite_range(Binary32::from_bits(LONGEST_STEP));
}

/// The share of its velocity that a particle keeps.
spec fn kept(m: Model, dt: Binary32) -> Binary32 {
    m.sub(Binary32::from_bits(ONE), m.mul(Binary32::from_bits(DRAG), dt)).clamped(
        Binary32::from_bits(ZERO),
        Binary32::from_bits(ONE),
    )
}

/// What a step takes from a velocity is little, and nothing if the step is none.
proof fn lemma_kept(m: Model, dt: Binary32)
    requires
        m.rounds_to_nearest(),
        dt.is_finite(),
        0 <= dt.scaled() <= 0xcc_cccd * grain(),
    ensures
        m.mul(Binary32::from_bits(DRAG), dt).is_finite(),
        0 <= m.mul(Binary32::from_bits(DRAG), dt).scaled() <= 0x800_0000 * grain(),
        kept(m, dt) == m.sub(Binary32::from_bits(ONE), m.mul(Binary32::from_bits(DRAG), dt)),
        kept(m, dt).is_finite(),
        0x800_0000 * grain() <= kept(m, dt).scaled() <= one(),
        dt.scaled() == 0 ==> kept(m, dt).scaled() == one(),
{
    lemma_constants();
    let g = grain();
    let drag = Binary32::from_bits(DRAG);
    let q = m.mul(drag, dt);
    let x = dt.scaled();
    assert(0 * one() <= (0x1ccc_ccc0 * g) * x && (0x1ccc_ccc0 * g) * x <= (0x800_0000 * g) * (
    0x1000_0000 * g)) by (nonlinear_arith)
        requires
            0 <= x <= 0xcc_cccd * g,
            g > 0,
    ;
    m.mul_between(drag, dt, 0, 0x800_0000 * g);
    m.sub_between(Binary32::from_bits(ONE), q, 0x800_0000 * g, one());
    if x == 0 {
        m.mul_zero(drag, dt);
        m.sub_between(Binary32::from_bits(ONE), q, one(), one());
    }
}

/// A step that is not the shortest takes a share of at least 2^-13.
proof fn lemma_kept_long(m: Model, dt: Binary32)
    requires
        m.rounds_to_nearest(),
        dt.is_finite(),
        vstd::arithmetic::power2::pow2(136) <= dt.scaled() <= 0xcc_cccd * grain(),
    ensures
        kept(m, dt).scaled() <= one() - vstd::arithmetic::power2::pow2(136),
{
    lemma_constants();
    lemma_kept(m, dt);
    let g = grain();
    let e = vstd::arithmetic::power2::pow2(136) as int;
    let u = one();
    vstd::arithmetic::power2::lemma2_to64();
    vstd::arithmetic::power2::lemma_pow2_pos(136);
    vstd::arithmetic::power2::lemma_pow2_adds(13, 136);
    crate::binary32::lemma_representable(1, 136);
    assert(1 * e == e);
    crate::binary32::lemma_representable(0x1fff, 136);
    assert(0x1fff * e == u - e);
    let drag = Binary32::from_bits(DRAG);
    let q = m.mul(drag, dt);
    let x = dt.scaled();
    assert(e * u <= (0x1ccc_ccc0 * g) * x && (0x1ccc_ccc0 * g) * x <= (0x800_0000 * g) * u)
        by (nonlinear_arith)
        requires
            0 <= e <= x <= 0xcc_cccd * g,
            u == 0x1000_0000 * g,
            g > 0,
    ;
    m.mul_between(drag, dt, e, 0x800_0000 * g);
    m.sub_between(Binary32::from_bits(ONE), q, 0x800_0000 * g, u - e);
}

/// The shortest steps take nothing.
proof fn lemma_kept_short(m: Model, dt: Binary32)
    requires
        m.rounds_to_nearest(),
        dt.is_finite(),
        0 <= dt.scaled() < vstd::arithmetic::power2::pow2(123),
    ensures
        kept(m, dt).scaled() == one(),
{
    lemma_constants();
    let g = grain();
    let u = one();
    vstd::arithmetic::power2::lemma2_to64();
    vstd::arithmetic::power2::lemma_pow2_adds(2, 121);
    vstd::arithmetic::power2::lemma_pow2_adds(4, 121);
    vstd::arithmetic::power2::lemma_pow2_unfold(121);
    lemma_kept(m, dt);
    let h = vstd::arithmetic::power2::pow2(120) as int;
    crate::binary32::lemma_representable(15, 120);
    let drag = Binary32::from_bits(DRAG);
    let q = m.mul(drag, dt);
    let x = dt.scaled();
    assert(0 * u <= (0x1ccc_ccc0 * g) * x && (0x1ccc_ccc0 * g) * x <= (15 * h) * u)
        by (nonlinear_arith)
        requires
            0 <= x <= 4 * g,
            g == 2 * h,
            h >= 0,
            u == 0x1000_0000 * g,
    ;
    m.mul_between(drag, dt, 0, 15 * h);
    let r = m.sub(Binary32::from_bits(ONE), q);
    assert(crate::arithmetic::rounds(r, u - q.scaled(), 1)) by {
        reveal(Model::rounds_differences);
    }
    if r.scaled() < u {
        let below = Binary32::from_bits(BELOW_ONE);
        assert(below.exponent() == 126 && below.fraction() == 0x7f_ffff);
        assert(0xff_ffff * (16 * g) == u - 16 * g) by (nonlinear_arith)
            requires
                u == 0x1000_0000 * g,
        ;
        crate::binary32::law_patterns_order_numbers(r, Binary32::from_bits(ONE));
        crate::binary32::law_patterns_order_numbers(r, below);
        crate::binary32::lemma_finite_range(Binary32::from_bits(ONE));
        assert(Binary32::from_bits(ONE).is_finite());
        assert(Binary32::largest() * 1 == Binary32::largest());
        assert(u - q.scaled() <= Binary32::largest() * 1);
        assert(r.scaled() * 1 - (u - q.scaled()) < 0);
    }
}

/// The velocity with the lift added, before the drag.
spec fn lifted(m: Model, p: Particle, dt: Binary32) -> Binary32 {
    m.add(p.vel.y, m.mul(Binary32::from_bits(LIFT), dt))
}

/// The lift of a step only speeds a particle up, by 16 at most.
proof fn lemma_lifted(m: Model, p: Particle, dt: Binary32)
    requires
        m.rounds_to_nearest(),
        p.thrives(),
        dt.is_finite(),
        0 <= dt.scaled() <= 0xcc_cccd * grain(),
    ensures
        m.mul(Binary32::from_bits(LIFT), dt).is_finite(),
        -(16 * one()) <= m.mul(Binary32::from_bits(LIFT), dt).scaled() <= 0,
        lifted(m, p, dt).is_finite(),
        -(0x10_0010 * one()) <= lifted(m, p, dt).scaled() <= p.vel.y.scaled(),
{
    lemma_constants();
    let g = grain();
    let u = one();
    let lift = Binary32::from_bits(LIFT);
    let x = dt.scaled();
    assert(-(16 * u) * u <= -(220 * u) * x && -(220 * u) * x <= 0) by (nonlinear_arith)
        requires
            0 <= x <= 0xcc_cccd * g,
            u == 0x1000_0000 * g,
            g > 0,
    ;
    m.mul_between(lift, dt, -(16 * u), 0);
    crate::binary32::lemma_representable(0x10_0010, 149);
    crate::binary32::lemma_representable_opposite(0x10_0010 * u);
    crate::binary32::lemma_finite_range(p.vel.y);
    m.add_between(p.vel.y, m.mul(lift, dt), -(0x10_0010 * u), p.vel.y.scaled());
}

/// A number faster than the fastest is so by at least 2^-3.
proof fn lemma_faster_is_far(s: Binary32)
    requires
        s.is_finite(),
    ensures
        Binary32::from_bits(FASTEST).has(-(0x10_0000 * one())),
        s.scaled() < -(0x10_0000 * one()) ==> s.scaled() <= -(0x10_0000 * one()) - 1024
            * vstd::arithmetic::power2::pow2(136),
{
    let e = vstd::arithmetic::power2::pow2(136) as int;
    vstd::arithmetic::power2::lemma2_to64();
    vstd::arithmetic::power2::lemma_pow2_adds(13, 136);
    vstd::arithmetic::power2::lemma_pow2_adds(10, 136);
    let fastest = Binary32::from_bits(FASTEST);
    let faster = Binary32::from_bits(FASTER);
    assert(fastest.exponent() == 147 && fastest.fraction() == 0);
    assert(faster.exponent() == 147 && faster.fraction() == 1);
    assert(0x80_0000 * (1024 * e) == 0x10_0000 * (0x2000 * e)) by (nonlinear_arith);
    assert(0x80_0001 * (1024 * e) == 0x10_0000 * (0x2000 * e) + 1024 * e) by (nonlinear_arith);
    assert(fastest.has(-(0x10_0000 * one())));
    crate::binary32::law_patterns_order_numbers(s, fastest);
    crate::binary32::law_patterns_order_numbers(s, faster);
}

/// What is about as fast as the fastest is far from the largest number.
proof fn lemma_in_range(x: int)
    requires
        -(0x10_0010 * one()) <= x <= 0,
    ensures
        -(Binary32::largest() * 1) <= x <= Binary32::largest() * 1,
{
    crate::binary32::lemma_representable(0x10_0010, 149);
    let c = choose|c: Binary32| #[trigger] c.has(0x10_0010 * one());
    crate::binary32::lemma_finite_range(c);
    assert(Binary32::largest() * 1 == Binary32::largest());
}

/// The shortest steps do not lift a particle above the fastest velocity.
proof fn lemma_lifted_short(m: Model, p: Particle, dt: Binary32)
    requires
        m.rounds_to_nearest(),
        p.thrives(),
        dt.is_finite(),
        0 <= dt.scaled() <= 0xcc_cccd * grain(),
        dt.scaled() < vstd::arithmetic::power2::pow2(136),
    ensures
        -(0x10_0000 * one()) <= lifted(m, p, dt).scaled(),
{
    lemma_constants();
    lemma_lifted(m, p, dt);
    let u = one();
    let b = 0x10_0000 * u;
    let e = vstd::arithmetic::power2::pow2(136) as int;
    vstd::arithmetic::power2::lemma2_to64();
    vstd::arithmetic::power2::lemma_pow2_pos(136);
    vstd::arithmetic::power2::lemma_pow2_adds(13, 136);
    vstd::arithmetic::power2::lemma_pow2_adds(8, 136);
    vstd::arithmetic::power2::lemma_pow2_adds(10, 136);
    let lift = Binary32::from_bits(LIFT);
    let push = m.mul(lift, dt);
    let x = dt.scaled();
    crate::binary32::lemma_representable(1, 144);
    assert(1 * (256 * e) == 256 * e);
    crate::binary32::lemma_representable_opposite(256 * e);
    assert(-(256 * e) * u <= -(220 * u) * x && -(220 * u) * x <= 0) by (nonlinear_arith)
        requires
            0 <= x <= e,
            u >= 0,
    ;
    m.mul_between(lift, dt, -(256 * e), 0);
    let exact = p.vel.y.scaled() + push.scaled();
    let s = lifted(m, p, dt);
    assert(crate::arithmetic::rounds(s, exact, 1)) by {
        reveal(Model::rounds_sums);
    }
    if s.scaled() < -b {
        lemma_faster_is_far(s);
        let fastest = Binary32::from_bits(FASTEST);
        if exact >= -b {
            assert(Binary32::representable(-b));
            crate::arithmetic::lemma_not_below(s, exact, 1, -b);
        } else {
            lemma_in_range(exact);
            assert(fastest.is_finite());
            assert(s.scaled() * 1 == s.scaled());
            assert(fastest.scaled() * 1 == -b);
        }
    }
}

/// A moved particle does not rise faster than the fastest.
proof fn lemma_not_too_fast(m: Model, p: Particle, dt: Binary32)
    requires
        m.rounds_to_nearest(),
        p.thrives(),
        dt.is_finite(),
        0 <= dt.scaled() <= 0xcc_cccd * grain(),
    ensures
        lifted(m, p, dt).scaled() * kept(m, dt).scaled() >= -(0x10_0000 * one()) * one(),
{
    lemma_constants();
    lemma_lifted(m, p, dt);
    lemma_kept(m, dt);
    let u = one();
    let s = lifted(m, p, dt).scaled();
    let k = kept(m, dt).scaled();
    let e = vstd::arithmetic::power2::pow2(136) as int;
    if dt.scaled() < e {
        lemma_lifted_short(m, p, dt);
        assert(s * k >= -(0x10_0000 * u) * u) by (nonlinear_arith)
            requires
                -(0x10_0000 * u) <= s <= 0,
                0 <= k <= u,
        ;
    } else {
        lemma_kept_long(m, dt);
        vstd::arithmetic::power2::lemma2_to64();
        vstd::arithmetic::power2::lemma_pow2_pos(136);
        vstd::arithmetic::power2::lemma_pow2_adds(13, 136);
        assert(s * k >= -(0x10_0000 * u) * u) by (nonlinear_arith)
            requires
                -(0x10_0010 * u) <= s <= 0,
                0 <= k <= u - e,
                u == 0x2000 * e,
                e > 0,
        {
            assert(s * k >= -(0x10_0010 * u) * (u - e)) by (nonlinear_arith)
                requires
                    -(0x10_0010 * u) <= s <= 0,
                    0 <= k <= u - e,
            ;
            assert((0x10_0010 * u) * (u - e) <= (0x10_0000 * u) * u) by (nonlinear_arith)
                requires
                    u == 0x2000 * e,
                    e > 0,
            ;
        }
    }
}

/// The power of two that a step reaches.
proof fn lemma_reached_power(dt: Binary32) -> (e: nat)
    requires
        dt.is_finite(),
        vstd::arithmetic::power2::pow2(123) <= dt.scaled() <= 0xcc_cccd * grain(),
    ensures
        123 <= e <= 144,
        vstd::arithmetic::power2::pow2(e) <= dt.scaled() < 2 * vstd::arithmetic::power2::pow2(e),
{
    lemma_constants();
    vstd::arithmetic::power2::lemma2_to64();
    vstd::arithmetic::power2::lemma_pow2_pos(123);
    let small = Binary32 { bits: 0x3280_0000 };
    assert(small.exponent() == 101 && small.fraction() == 0);
    vstd::arithmetic::power2::lemma_pow2_adds(23, 100);
    assert(small.scaled() == vstd::arithmetic::power2::pow2(123));
    crate::binary32::law_patterns_order_numbers(small, dt);
    crate::binary32::law_patterns_order_numbers(dt, Binary32::from_bits(LONGEST_STEP));
    let x = dt.exponent();
    assert(101 <= x <= 122);
    let p = vstd::arithmetic::power2::pow2((x - 1) as nat) as int;
    vstd::arithmetic::power2::lemma_pow2_pos((x - 1) as nat);
    vstd::arithmetic::power2::lemma_pow2_adds(23, (x - 1) as nat);
    let f = dt.fraction() as int;
    assert(dt.scaled() == (0x80_0000 + f) * p);
    assert(0x80_0000 * p <= (0x80_0000 + f) * p && (0x80_0000 + f) * p < 2 * (0x80_0000 * p))
        by (nonlinear_arith)
        requires
            0 <= f < 0x80_0000,
            p > 0,
    ;
    (x + 22) as nat
}

/// A slow particle gains more from the lift than it loses by the drag.
proof fn lemma_slow_gains(m: Model, p: Particle, dt: Binary32)
    requires
        m.rounds_to_nearest(),
        p.thrives(),
        dt.is_finite(),
        vstd::arithmetic::power2::pow2(123) <= dt.scaled() <= 0xcc_cccd * grain(),
    ensures
        lifted(m, p, dt).scaled() * kept(m, dt).scaled() <= -(one() * one()),
{
    lemma_constants();
    lemma_lifted(m, p, dt);
    lemma_kept(m, dt);
    let e = lemma_reached_power(dt);
    let u = one();
    let g = grain();
    let x = dt.scaled();
    let a = vstd::arithmetic::power2::pow2(e) as int;
    vstd::arithmetic::power2::lemma2_to64();
    vstd::arithmetic::power2::lemma_pow2_pos(e);
    vstd::arithmetic::power2::lemma_pow2_adds(2, e);
    vstd::arithmetic::power2::lemma_pow2_adds(5, e);
    // what is kept
    let c = vstd::arithmetic::power2::pow2((147 - e) as nat) as int;
    vstd::arithmetic::power2::lemma_pow2_pos((147 - e) as nat);
    vstd::arithmetic::power2::lemma_pow2_adds((147 - e) as nat, e + 2);
    if e > 123 {
        vstd::arithmetic::power2::lemma_pow2_strictly_increases((147 - e) as nat, 24);
    }
    assert(c * (4 * a) == u);
    crate::binary32::lemma_representable((c - 1) as nat, e + 2);
    assert((c - 1) * (4 * a) == u - 4 * a) by (nonlinear_arith)
        requires
            c * (4 * a) == u,
    ;
    crate::binary32::lemma_representable(1, e + 2);
    assert(1 * (4 * a) == 4 * a);
    let drag = Binary32::from_bits(DRAG);
    let q = m.mul(drag, dt);
    assert(0 * u <= (0x1ccc_ccc0 * g) * x && (0x1ccc_ccc0 * g) * x <= (4 * a) * u)
        by (nonlinear_arith)
        requires
            0 <= x <= 2 * a,
            u == 0x1000_0000 * g,
            g > 0,
    ;
    m.mul_between(drag, dt, 0, 4 * a);
    m.sub_between(Binary32::from_bits(ONE), q, u - 4 * a, u);
    // what is lifted
    let d = vstd::arithmetic::power2::pow2((144 - e) as nat) as int;
    vstd::arithmetic::power2::lemma_pow2_pos((144 - e) as nat);
    vstd::arithmetic::power2::lemma_pow2_adds((144 - e) as nat, e + 5);
    if e > 123 {
        vstd::arithmetic::power2::lemma_pow2_strictly_increases((144 - e) as nat, 21);
    }
    assert(d * (32 * a) == u);
    crate::binary32::lemma_representable((d + 1) as nat, e + 5);
    assert((d + 1) * (32 * a) == u + 32 * a) by (nonlinear_arith)
        requires
            d * (32 * a) == u,
    ;
    crate::binary32::lemma_representable_opposite(u + 32 * a);
    crate::binary32::lemma_representable(1, e + 5);
    assert(1 * (32 * a) == 32 * a);
    crate::binary32::lemma_representable_opposite(32 * a);
    let lift = Binary32::from_bits(LIFT);
    let push = m.mul(lift, dt);
    assert(-(16 * u) * u <= -(220 * u) * x && -(220 * u) * x <= -(32 * a) * u) by (nonlinear_arith)
        requires
            a <= x <= 0xcc_cccd * g,
            a >= 0,
            u == 0x1000_0000 * g,
            g > 0,
    ;
    m.mul_between(lift, dt, -(16 * u), -(32 * a));
    crate::binary32::lemma_representable(0x10_0010, 149);
    crate::binary32::lemma_representable_opposite(0x10_0010 * u);
    m.add_between(p.vel.y, push, -(0x10_0010 * u), -(u + 32 * a));
    // together
    assert(32 * a <= u) by (nonlinear_arith)
        requires
            d * (32 * a) == u,
            d >= 1,
            a >= 0,
    ;
    let s = lifted(m, p, dt).scaled();
    let k = kept(m, dt).scaled();
    assert(s * k <= -((u + 32 * a) * (u - 4 * a))) by (nonlinear_arith)
        requires
            s <= -(u + 32 * a),
            k >= u - 4 * a,
            u - 4 * a >= 0,
            u + 32 * a >= 0,
    ;
    assert((u + 32 * a) * (u - 4 * a) >= u * u) by (nonlinear_arith)
        requires
            0 <= 32 * a <= u,
    ;
}

/// A moved particle still rises.
proof fn lemma_still_rises(m: Model, p: Particle, dt: Binary32)
    requires
        m.rounds_to_nearest(),
        p.thrives(),
        dt.is_finite(),
        0 <= dt.scaled() <= 0xcc_cccd * grain(),
    ensures
        lifted(m, p, dt).scaled() * kept(m, dt).scaled() <= -(one() * one()),
{
    lemma_constants();
    lemma_lifted(m, p, dt);
    let u = one();
    let s = lifted(m, p, dt).scaled();
    let k = kept(m, dt).scaled();
    if dt.scaled() < vstd::arithmetic::power2::pow2(123) {
        lemma_kept_short(m, dt);
        assert(s * k <= -(u * u)) by (nonlinear_arith)
            requires
                s <= -u,
                k == u,
                u >= 0,
        ;
    } else {
        lemma_slow_gains(m, p, dt);
    }
}

/// A thriving particle that a step moves stays within its bounds, and thrives unless it dies.
pub proof fn law_moving_keeps_bounds(p: Particle, m: Model, dt: Binary32)
    requires
        m.rounds_to_nearest(),
        p.thrives(),
        !dt.is_nan(),
    ensures
        ({
            let q = p.moved(m, crate::particles::bounded_step(dt));
            q.dead() || q.thrives()
        }),
{
    let step = crate::particles::bounded_step(dt);
    let q = p.moved(m, step);
    lemma_step(dt);
    lemma_constants();
    lemma_bounds();
    lemma_kept(m, step);
    lemma_lifted(m, p, step);
    lemma_not_too_fast(m, p, step);
    lemma_still_rises(m, p, step);
    let u = one();
    let k = kept(m, step);
    crate::binary32::lemma_representable(0x10_0000, 149);
    crate::binary32::lemma_representable_opposite(0x10_0000 * u);
    assert(-u * u == -(u * u)) by (nonlinear_arith);
    m.mul_between(lifted(m, p, step), k, -(0x10_0000 * u), -u);
    let still = m.mul(Binary32::from_bits(ZERO), step);
    m.mul_zero(Binary32::from_bits(ZERO), step);
    m.add_zero(p.vel.x, still);
    let s = m.add(p.vel.x, still);
    crate::binary32::lemma_finite_range(p.vel.x);
    crate::binary32::lemma_finite_range(s);
    crate::binary32::lemma_finite_range(Binary32::from_bits(DRIFT_MAX));
    let x = s.scaled();
    let y = k.scaled();
    assert(-(55 * u) * u <= x * y && x * y <= (55 * u) * u) by (nonlinear_arith)
        requires
            -(55 * u) <= x <= 55 * u,
            0 <= y <= u,
    ;
    m.mul_between(s, k, -(55 * u), 55 * u);
    m.add_between(p.age, step, 0, u);
    crate::binary32::lemma_finite_range(p.lifetime);
    assert(q.vel.y == m.mul(lifted(m, p, step), k));
    assert(q.vel.x == m.mul(s, k));
}

/// A new particle thrives, if the draws keep to their quantities.
pub proof fn law_new_particles_thrive(m: Model, pos: Point, d: Draw)
    requires
        d.allowed(),
    ensures
        Particle::of_draw(m, pos, d).thrives(),
{
    lemma_constants();
    lemma_bounds();
    crate::binary32::lemma_finite_range(d.vel.y);
    crate::binary32::lemma_finite_range(Binary32::from_bits(RISE_MAX));
    crate::binary32::lemma_finite_range(Binary32::from_bits(RISE_MIN));
}

/// A new particle lies near the emitter: between the places 3 pixels before and after it on each
/// axis, and not more than 3 pixels from it where these places are numbers.
pub proof fn law_new_particles_are_near(m: Model, pos: Point, d: Draw)
    requires
        m.rounds_to_nearest(),
        d.allowed(),
        pos.x.is_finite(),
        pos.y.is_finite(),
    ensures
        near(m, pos.x, Particle::of_draw(m, pos, d).pos.x),
        near(m, pos.y, Particle::of_draw(m, pos, d).pos.y),
{
    lemma_near(m, pos.x, d.jitter.x);
    lemma_near(m, pos.y, d.jitter.y);
}

/// The place `x` lies between the places 3 before and 3 after `centre`.
pub open spec fn near(m: Model, centre: Binary32, x: Binary32) -> bool {
    &&& m.add(centre, Binary32::from_bits(JITTER_MIN)).at_most(x)
    &&& x.at_most(m.add(centre, Binary32::from_bits(JITTER_MAX)))
    &&& Binary32::representable(centre.scaled() - 3 * Binary32::unit())
        && Binary32::representable(centre.scaled() + 3 * Binary32::unit()) ==> x.is_finite()
        && centre.scaled() - 3 * Binary32::unit() <= x.scaled() <= centre.scaled() + 3
        * Binary32::unit()
}

/// What is drawn for the jitter leads to a near place.
proof fn lemma_near(m: Model, centre: Binary32, jitter: Binary32)
    requires
        m.rounds_to_nearest(),
        centre.is_finite(),
        Quantity::JitterX.allows(jitter),
    ensures
        near(m, centre, m.add(centre, jitter)),
{
    lemma_bounds();
    let u = one();
    let least = Binary32::from_bits(JITTER_MIN);
    let most = Binary32::from_bits(JITTER_MAX);
    crate::binary32::lemma_finite_range(jitter);
    crate::binary32::lemma_finite_range(least);
    crate::binary32::lemma_finite_range(most);
    m.add_in_order(centre, least, centre, jitter);
    m.add_in_order(centre, jitter, centre, most);
    assert(!m.add(centre, least).is_nan() && !m.add(centre, jitter).is_nan() && !m.add(
        centre,
        most,
    ).is_nan()) by {
        reveal(Model::rounds_sums);
    }
    if Binary32::representable(centre.scaled() - 3 * u) && Binary32::representable(
        centre.scaled() + 3 * u,
    ) {
        m.add_between(centre, jitter, centre.scaled() - 3 * u, centre.scaled() + 3 * u);
    }
}

/// No particle is lost or won between frames: the particles that are due and what stays owed add up
/// to what had accrued, and less than one particle stays owed.
pub proof fn law_owed_adds_up(s: ParticleSystem, m: Model, dt: Binary32)
    requires
        m.rounds_to_nearest(),
        s.accrued(m, dt).is_finite(),
        s.accrued(m, dt).scaled() >= 0,
        s.accrued(m, dt).floor_nat() <= usize::MAX,
    ensures
        ({
            let owed = m.sub(s.accrued(m, dt), m.unsigned(s.due(m, dt) as u64));
            &&& owed.is_finite()
            &&& s.due(m, dt) * Binary32::unit() + owed.scaled() == s.accrued(m, dt).scaled()
            &&& 0 <= owed.scaled() < Binary32::unit()
        }),
{
    let accrued = s.accrued(m, dt);
    let n = s.due(m, dt) as u64;
    let u = one();
    vstd::arithmetic::power2::lemma_pow2_pos(149);
    crate::binary32::lemma_representable(0, 0);
    if accrued.is_negative() {
        assert(accrued.scaled() == 0);
        assert(n == 0);
    } else {
        crate::binary32::law_parts_are_numbers(accrued);
        assert(n == accrued.floor_nat());
    }
    m.unsigned_between(n, n * u, n * u);
    m.sub_between(
        accrued,
        m.unsigned(n),
        accrued.scaled() - n * u,
        accrued.scaled() - n * u,
    );
}

/// A step at the default rate leaves less than one particle owed.
proof fn lemma_owed(s: ParticleSystem, m: Model, step: Binary32)
    requires
        m.rounds_to_nearest(),
        s.thrives(),
        step.is_finite(),
        0 <= step.scaled() <= 0xcc_cccd * grain(),
    ensures
        m.sub(s.accrued(m, step), m.unsigned(s.due(m, step) as u64)).is_finite(),
        0 <= m.sub(s.accrued(m, step), m.unsigned(s.due(m, step) as u64)).scaled() < one(),
{
    lemma_constants();
    let u = one();
    let g = grain();
    let rate = Binary32::from_bits(DEFAULT_SPAWN_RATE);
    let x = step.scaled();
    assert(0 * u <= (900 * u) * x && (900 * u) * x <= (64 * u) * u) by (nonlinear_arith)
        requires
            0 <= x <= 0xcc_cccd * g,
            u == 0x1000_0000 * g,
            g > 0,
    ;
    m.mul_between(rate, step, 0, 64 * u);
    m.add_between(s.owed(), m.mul(rate, step), 0, 128 * u);
    let accrued = s.accrued(m, step);
    if !accrued.is_negative() {
        crate::binary32::law_rounding_brackets(accrued);
        let n = accrued.floor_nat();
        assert(n <= 128) by (nonlinear_arith)
            requires
                n * u <= 128 * u,
                u > 0,
        ;
    }
    law_owed_adds_up(s, m, step);
}

/// No more survive than there are.
proof fn lemma_no_more_survive(s: Seq<Particle>)
    ensures
        crate::particles::survivors(s).len() <= s.len(),
    decreases s.len(),
{
    reveal(Seq::filter);
    if s.len() > 0 {
        lemma_no_more_survive(s.drop_last());
    }
}

/// A step of a thriving trail leads to a thriving trail.
pub proof fn law_steps_keep_thriving(
    s: ParticleSystem,
    m: Model,
    dt: Binary32,
    pos: Point,
    draws: Seq<Draw>,
    after: ParticleSystem,
)
    requires
        m.rounds_to_nearest(),
        s.thrives(),
        !dt.is_nan(),
        all_allowed(draws),
        s.stepped(m, crate::particles::bounded_step(dt), pos, draws, after),
    ensures
        after.thrives(),
{
    let step = crate::particles::bounded_step(dt);
    lemma_step(dt);
    lemma_owed(s, m, step);
    let made = s.made(m, step, pos, draws);
    let all = s.list() + made;
    let moved = crate::particles::all_moved(all, m, step);
    lemma_no_more_survive(moved);
    assert forall|i: int| 0 <= i < after.list().len() implies (
    #[trigger] after.list()[i]).thrives() by {
        let p = after.list()[i];
        assert(after.list().contains(p));
        crate::particles::law_only_the_dead_go(moved, p);
        let j = choose|j: int| 0 <= j < moved.len() && moved[j] == p;
        if j < s.list().len() {
            assert(all[j] == s.list()[j]);
        } else {
            let k = j - s.list().len();
            assert(all[j] == made[k]);
            assert(draws[k].allowed());
            law_new_particles_thrive(m, pos, draws[k]);
        }
        law_moving_keeps_bounds(all[j], m, dt);
    }
}

/// `history[i + 1]` is `history[i]` one step later: `dts[i]` seconds, with the emitter at
/// `places[i]` and the values `draws[i]` drawn.
pub open spec fn continues(
    m: Model,
    history: Seq<ParticleSystem>,
    dts: Seq<Binary32>,
    places: Seq<Point>,
    draws: Seq<Seq<Draw>>,
    i: int,
) -> bool {
    &&& !dts[i].is_nan()
    &&& all_allowed(draws[i])
    &&& history[i].stepped(
        m,
        crate::particles::bounded_step(dts[i]),
        places[i],
        draws[i],
        history[i + 1],
    )
}

/// Every trail that starts out new thrives, whatever the steps that follow: it has no more particles
/// than the limit allows, they are alive, rise, and have lifetimes, sizes and sideways velocities
/// within their bounds, and less than one particle is owed.
pub proof fn law_every_trail_thrives(
    m: Model,
    history: Seq<ParticleSystem>,
    dts: Seq<Binary32>,
    places: Seq<Point>,
    draws: Seq<Seq<Draw>>,
    n: int,
)
    requires
        m.rounds_to_nearest(),
        0 <= n < history.len(),
        history[0].fresh(),
        forall|i: int|
            0 <= i < history.len() - 1 ==> #[trigger] continues(
                m,
                history,
                dts,
                places,
                draws,
                i,
            ),
    ensures
        history[n].thrives(),
    decreases n,
{
    if n == 0 {
        vstd::arithmetic::power2::lemma_pow2_pos(149);
    } else {
        law_every_trail_thrives(m, history, dts, places, draws, n - 1);
        assert(continues(m, history, dts, places, draws, n - 1));
        law_steps_keep_thriving(
            history[n - 1],
            m,
            dts[n - 1],
            places[n - 1],
            draws[n - 1],
            history[n],
        );
    }
}

/// A step without time leaves a particle as it is.
proof fn lemma_unmoved(p: Particle, m: Model, step: Binary32)
    requires
        m.rounds_to_nearest(),
        p.thrives(),
        step.has(0),
    ensures
        p.moved(m, step).same_values(p),
        !p.moved(m, step).dead(),
{
    lemma_constants();
    lemma_bounds();
    lemma_kept(m, step);
    let u = one();
    let k = kept(m, step);
    m.mul_zero(Binary32::from_bits(ZERO), step);
    m.mul_zero(Binary32::from_bits(LIFT), step);
    let s = m.add(p.vel.x, m.mul(Binary32::from_bits(ZERO), step));
    let t = lifted(m, p, step);
    m.add_zero(p.vel.x, m.mul(Binary32::from_bits(ZERO), step));
    m.add_zero(p.vel.y, m.mul(Binary32::from_bits(LIFT), step));
    crate::binary32::lemma_finite_range(p.vel.x);
    crate::binary32::lemma_finite_range(Binary32::from_bits(DRIFT_MAX));
    crate::binary32::lemma_finite_range(Binary32::from_bits(DRIFT_MIN));
    crate::binary32::lemma_finite_range(p.vel.y);
    crate::binary32::lemma_finite_range(s);
    crate::binary32::lemma_finite_range(t);
    m.mul_between(s, k, s.scaled(), s.scaled());
    m.mul_between(t, k, t.scaled(), t.scaled());
    let q = p.moved(m, step);
    assert(q.vel.x == m.mul(s, k));
    assert(q.vel.y == m.mul(t, k));
    m.mul_zero(q.vel.x, step);
    m.mul_zero(q.vel.y, step);
    m.add_zero(p.pos.x, m.mul(q.vel.x, step));
    m.add_zero(p.pos.y, m.mul(q.vel.y, step));
    m.add_zero(p.age, step);
}

/// Where nobody is dead, everybody survives.
proof fn lemma_all_survive(s: Seq<Particle>)
    requires
        forall|i: int| 0 <= i < s.len() ==> !(#[trigger] s[i]).dead(),
    ensures
        crate::particles::survivors(s) == s,
    decreases s.len(),
{
    reveal(Seq::filter);
    if s.len() > 0 {
        let rest = s.drop_last();
        assert forall|i: int| 0 <= i < rest.len() implies !(#[trigger] rest[i]).dead() by {
            assert(rest[i] == s[i]);
        }
        lemma_all_survive(rest);
        assert(!s[s.len() - 1].dead());
        assert(s =~= rest.push(s.last()));
    }
}

/// No time, no change: a step of no or negative seconds leaves the values of every particle of a
/// thriving trail as they are, and makes and drops none.
pub proof fn law_no_time_no_change(
    s: ParticleSystem,
    m: Model,
    dt: Binary32,
    pos: Point,
    draws: Seq<Draw>,
    after: ParticleSystem,
)
    requires
        m.rounds_to_nearest(),
        s.thrives(),
        dt.at_most(Binary32::from_bits(ZERO)),
        s.stepped(m, crate::particles::bounded_step(dt), pos, draws, after),
    ensures
        after.list().len() == s.list().len(),
        forall|i: int|
            0 <= i < s.list().len() ==> (#[trigger] after.list()[i]).same_values(s.list()[i]),
        after.owed().same_value(s.owed()),
{
    lemma_constants();
    lemma_step(dt);
    let step = crate::particles::bounded_step(dt);
    let rate = Binary32::from_bits(DEFAULT_SPAWN_RATE);
    m.mul_zero(rate, step);
    m.add_zero(s.owed(), m.mul(rate, step));
    let accrued = s.accrued(m, step);
    if !accrued.is_negative() {
        crate::binary32::law_rounding_brackets(accrued);
        let n = accrued.floor_nat();
        assert(n == 0) by (nonlinear_arith)
            requires
                n * one() < one(),
                n >= 0,
        ;
    }
    crate::binary32::lemma_finite_range(accrued);
    crate::binary32::lemma_finite_range(s.owed());
    law_owed_adds_up(s, m, step);
    assert(s.due(m, step) == 0);
    assert(s.made(m, step, pos, draws).len() == 0);
    assert(s.list() + s.made(m, step, pos, draws) =~= s.list());
    let moved = crate::particles::all_moved(s.list(), m, step);
    assert forall|i: int| 0 <= i < moved.len() implies !(#[trigger] moved[i]).dead()
        && moved[i].same_values(s.list()[i]) by {
        lemma_unmoved(s.list()[i], m, step);
    }
    lemma_all_survive(moved);
}

/// A number of seconds as the length of a step, in units of 2^-149: none if it is not positive, and
/// 0.05 at most.
pub open spec fn seconds(dt: Binary32) -> int {
    let most = 0xcc_cccd * vstd::arithmetic::power2::pow2(121);
    if dt.scaled() <= 0 {
        0
    } else if dt.scaled() >= most {
        most as int
    } else {
        dt.scaled()
    }
}

/// A step takes the time that passed, but no negative time and no more than 0.05 seconds.
pub proof fn law_steps_are_bounded(dt: Binary32)
    requires
        !dt.is_nan(),
    ensures
        crate::particles::bounded_step(dt).has(seconds(dt)),
{
    lemma_step(dt);
    lemma_constants();
}

/// A place moves by a velocity: the new place is the number nearest to the old place plus the number
/// nearest to the velocity times the seconds.
pub open spec fn moves(place: Binary32, velocity: Binary32, time: int, after: Binary32) -> bool {
    exists|way: Binary32|
        #![trigger way.is_finite()]
        way.is_finite() && crate::arithmetic::rounds(
            way,
            velocity.scaled() * time,
            Binary32::unit() as int,
        ) && crate::arithmetic::rounds(after, place.scaled() + way.scaled(), 1)
}

/// What a place moves by has the sign of the velocity, and is the velocity times the seconds up to
/// 2^-20 of the reach.
proof fn lemma_moves(m: Model, place: Binary32, v: Binary32, step: Binary32, reach: int)
    requires
        m.rounds_to_nearest(),
        1 <= reach <= 0x100_0000_0000,
        place.is_finite(),
        v.is_finite(),
        step.is_finite(),
        0 <= step.scaled() <= 0xcc_cccd * grain(),
        vstd::math::abs(place.scaled()) <= reach * one(),
        vstd::math::abs(v.scaled()) <= 34 * (reach * one()),
    ensures
        ({
            let after = m.add(place, m.mul(v, step));
            &&& moves(place, v, step.scaled(), after)
            &&& v.scaled() <= 0 ==> after.scaled() <= place.scaled()
            &&& v.scaled() >= 0 ==> after.scaled() >= place.scaled()
            &&& crate::arithmetic::close(
                after,
                place.scaled() * one() + v.scaled() * step.scaled(),
                one(),
                reach * (256 * grain()),
            )
        }),
{
    let g = grain();
    let u = one();
    assert(g > 0 && u == 0x1000_0000 * g && Binary32::representable(0)) by {
        lemma_constants();
    }
    let x = v.scaled();
    let t = step.scaled();
    let way = m.mul(v, step);
    let after = m.add(place, way);
    let ru = reach * u;
    let rg = reach * g;
    assert(ru == 0x1000_0000 * rg && rg >= g) by (nonlinear_arith)
        requires
            ru == reach * u,
            rg == reach * g,
            u == 0x1000_0000 * g,
            reach >= 1,
            g > 0,
    ;
    assert(reach * (256 * g) == 256 * rg) by (nonlinear_arith)
        requires
            rg == reach * g,
    ;
    assert(-(2 * (ru * u)) <= x * t <= 2 * (ru * u)) by (nonlinear_arith)
        requires
            -(34 * ru) <= x <= 34 * ru,
            0 <= 17 * t <= u,
            ru >= 0,
    ;
    assert(0x80_0000 * (64 * rg) * u == 2 * (ru * u)) by (nonlinear_arith)
        requires
            ru == 0x1000_0000 * rg,
    ;
    assert(64 * rg <= 0x1_0000_0000_0000 * u && 128 * rg <= 0x1_0000_0000_0000 * u)
        by (nonlinear_arith)
        requires
            rg == reach * g,
            reach <= 0x100_0000_0000,
            u == 0x1000_0000 * g,
            g > 0,
    ;
    assert(rg >= 1) by {
        vstd::arithmetic::power2::lemma_pow2_pos(121);
    }
    m.mul_close(v, step, 64 * rg);
    m.mul_rounds(v, step);
    m.add_rounds(place, way);
    let w = way.scaled();
    assert(-(3 * ru) <= w <= 3 * ru) by (nonlinear_arith)
        requires
            -(64 * rg * u) <= w * u - x * t <= 64 * rg * u,
            -(2 * (ru * u)) <= x * t <= 2 * (ru * u),
            ru == 0x1000_0000 * rg,
            rg >= 0,
            u > 0,
    ;
    m.add_close(place, way, 128 * rg);
    // the sign
    vstd::arithmetic::power2::lemma_pow2_pos(149);
    if x <= 0 {
        assert(x * t <= 0 * u) by (nonlinear_arith)
            requires
                x <= 0,
                t >= 0,
        ;
        crate::arithmetic::lemma_not_above(way, x * t, u, 0);
        crate::binary32::lemma_finite_range(place);
        crate::arithmetic::lemma_not_above(after, place.scaled() + w, 1, place.scaled());
    }
    if x >= 0 {
        assert(x * t >= 0 * u) by (nonlinear_arith)
            requires
                x >= 0,
                t >= 0,
        ;
        crate::arithmetic::lemma_not_below(way, x * t, u, 0);
        crate::binary32::lemma_finite_range(place);
        crate::arithmetic::lemma_not_below(after, place.scaled() + w, 1, place.scaled());
    }
    // both roundings together
    let a = after.scaled();
    let p = place.scaled();
    assert(-(256 * rg * u) <= a * u - (p * u + x * t) <= 256 * rg * u) by (nonlinear_arith)
        requires
            -(64 * rg * u) <= w * u - x * t <= 64 * rg * u,
            -(128 * rg) <= a - (p + w) <= 128 * rg,
            rg >= 0,
            u > 0,
    ;
}

/// How close what is kept of a velocity is to 1 - 1.8 times the seconds.
proof fn lemma_kept_close(m: Model, step: Binary32)
    requires
        m.rounds_to_nearest(),
        step.is_finite(),
        0 <= step.scaled() <= 0xcc_cccd * grain(),
    ensures
        -(330 * grain()) <= 5 * kept(m, step).scaled() - (5 * one() - 9 * step.scaled()) <= 330
            * grain(),
{
    let g = grain();
    let u = one();
    let t = step.scaled();
    let drag = Binary32::from_bits(DRAG);
    let first = Binary32::from_bits(ONE);
    assert(g > 0 && u == 0x1000_0000 * g && drag.has(0x1ccc_ccc0 * g) && first.has(u)) by {
        lemma_constants();
    }
    lemma_kept(m, step);
    assert(0 <= (0x1ccc_ccc0 * g) * t <= u * u) by (nonlinear_arith)
        requires
            0 <= t <= 0xcc_cccd * g,
            u == 0x1000_0000 * g,
            g > 0,
    ;
    assert(0x80_0000 * (32 * g) * u == u * u) by (nonlinear_arith)
        requires
            u == 0x1000_0000 * g,
    ;
    m.mul_close(drag, step, 32 * g);
    let q = m.mul(drag, step).scaled();
    m.sub_close(first, m.mul(drag, step), 32 * g);
    let k = kept(m, step).scaled();
    // 0x1ccc_ccc0 of 0x1000_0000 is 1.8 less 12.8 of 0x1000_0000
    assert(-(33 * g) <= q - 9 * t / 5 && 5 * q - 9 * t >= -(165 * g) && 5 * q - 9 * t <= 165 * g)
        by (nonlinear_arith)
        requires
            -((32 * g) * u) <= q * u - (0x1ccc_ccc0 * g) * t <= (32 * g) * u,
            u == 0x1000_0000 * g,
            0 <= t <= 0xcc_cccd * g,
            g > 0,
    {
        assert((q * 0x1000_0000 - 0x1ccc_ccc0 * t) * g == q * u - (0x1ccc_ccc0 * g) * t)
            by (nonlinear_arith)
            requires
                u == 0x1000_0000 * g,
        ;
        assert((32 * g) * u == (32 * g * 0x1000_0000) * g) by (nonlinear_arith)
            requires
                u == 0x1000_0000 * g,
        ;
        assert(q * 0x1000_0000 - 0x1ccc_ccc0 * t <= 32 * g * 0x1000_0000) by (nonlinear_arith)
            requires
                (q * 0x1000_0000 - 0x1ccc_ccc0 * t) * g <= (32 * g * 0x1000_0000) * g,
                g > 0,
        ;
        assert(q * 0x1000_0000 - 0x1ccc_ccc0 * t >= -(32 * g * 0x1000_0000)) by (nonlinear_arith)
            requires
                (q * 0x1000_0000 - 0x1ccc_ccc0 * t) * g >= -((32 * g * 0x1000_0000) * g),
                g > 0,
        ;
    }
}

/// How close a lifted and then slowed velocity is to its exact value, with `s` for the lifted and
/// `w` for the exact lifted velocity.
proof fn lemma_slowed(y: int, s: int, w: int, k: int, t: int, u: int, g: int, rg: int)
    requires
        g > 0,
        u == 0x1000_0000 * g,
        rg >= g,
        0 <= k <= u,
        0 <= t <= 0xcc_cccd * g,
        -(2048 * rg * u) <= y * u - s * k <= 2048 * rg * u,
        -(1536 * rg) <= s - w <= 1536 * rg,
        -(34 * (0x1000_0000 * rg)) <= s <= 34 * (0x1000_0000 * rg),
        -(330 * g) <= 5 * k - (5 * u - 9 * t) <= 330 * g,
    ensures
        -(8192 * rg * (5 * u)) <= y * (5 * u) - w * (5 * u - 9 * t) <= 8192 * rg * (5 * u),
{
    let e = 5 * k - (5 * u - 9 * t);
    let f = s - w;
    let v = 5 * u - 9 * t;
    assert(5 * (s * k) == s * e + f * v + w * v) by (nonlinear_arith)
        requires
            e == 5 * k - v,
            f == s - w,
    ;
    assert(-(11220 * rg * u) <= s * e <= 11220 * rg * u) by (nonlinear_arith)
        requires
            -(34 * (0x1000_0000 * rg)) <= s <= 34 * (0x1000_0000 * rg),
            -(330 * g) <= e <= 330 * g,
            u == 0x1000_0000 * g,
            rg >= 0,
            g > 0,
    ;
    assert(-(7680 * rg * u) <= f * v <= 7680 * rg * u) by (nonlinear_arith)
        requires
            -(1536 * rg) <= f <= 1536 * rg,
            0 <= v <= 5 * u,
            rg >= 0,
    ;
    assert(y * (5 * u) == 5 * (y * u)) by (nonlinear_arith);
    assert(8192 * rg * (5 * u) == 40960 * (rg * u)) by (nonlinear_arith);
    assert(2048 * rg * u == 2048 * (rg * u)) by (nonlinear_arith);
    assert(11220 * rg * u == 11220 * (rg * u)) by (nonlinear_arith);
    assert(7680 * rg * u == 7680 * (rg * u)) by (nonlinear_arith);
    assert(rg * u >= 0) by (nonlinear_arith)
        requires
            rg >= 0,
            u >= 0,
    ;
}

/// How close a velocity after a step is, with `pushed` for the velocity after the push and `w` for
/// its exact value.
proof fn lemma_velocity_close(m: Model, pushed: Binary32, w: int, step: Binary32, reach: int)
    requires
        m.rounds_to_nearest(),
        1 <= reach <= 0x100_0000_0000,
        pushed.is_finite(),
        step.is_finite(),
        0 <= step.scaled() <= 0xcc_cccd * grain(),
        vstd::math::abs(pushed.scaled()) <= 34 * (reach * one()),
        vstd::math::abs(pushed.scaled() - w) <= 1536 * (reach * grain()),
    ensures
        crate::arithmetic::close(
            m.mul(pushed, kept(m, step)),
            w * (5 * one() - 9 * step.scaled()),
            5 * one(),
            8192 * (reach * grain()),
        ),
{
    let g = grain();
    let u = one();
    let rg = reach * g;
    let ru = reach * u;
    assert(g > 0 && u == 0x1000_0000 * g) by {
        lemma_constants();
    }
    assert(ru == 0x1000_0000 * rg && rg >= g) by (nonlinear_arith)
        requires
            ru == reach * u,
            rg == reach * g,
            u == 0x1000_0000 * g,
            reach >= 1,
            g > 0,
    ;
    lemma_kept(m, step);
    lemma_kept_close(m, step);
    let k = kept(m, step);
    let s = pushed.scaled();
    let y = m.mul(pushed, k);
    assert(-(34 * (ru * u)) <= s * k.scaled() <= 34 * (ru * u)) by (nonlinear_arith)
        requires
            -(34 * ru) <= s <= 34 * ru,
            0 <= k.scaled() <= u,
            ru >= 0,
    ;
    assert(0x80_0000 * (2048 * rg) * u == 64 * (ru * u)) by (nonlinear_arith)
        requires
            ru == 0x1000_0000 * rg,
    ;
    assert(ru * u >= 0) by (nonlinear_arith)
        requires
            ru >= 0,
            u >= 0,
    ;
    assert(2048 * rg <= 0x1_0000_0000_0000 * u) by (nonlinear_arith)
        requires
            rg == reach * g,
            reach <= 0x100_0000_0000,
            u == 0x1000_0000 * g,
            g > 0,
    ;
    m.mul_close(pushed, k, 2048 * rg);
    assert((2048 * rg) * u == 2048 * rg * u);
    lemma_slowed(y.scaled(), s, w, k.scaled(), step.scaled(), u, g, rg);
    assert((8192 * rg) * (5 * u) == 8192 * rg * (5 * u));
}

/// A step moves a particle by lift and drag. With `time` for the seconds of the step:
/// - the velocity is slowed by the share 1.8 `time`, after 220 `time` was added upward;
/// - the place moves by the new velocity times `time`, never against it;
/// - the age grows by `time`, and lifetime and size stay.
///
/// `reach` pixels bound the place, and 16 times as many per second the velocity; velocities are
/// exact up to 2^-15, and places up to 2^-20, of it.
pub proof fn law_motion(p: Particle, m: Model, dt: Binary32, reach: int)
    requires
        m.rounds_to_nearest(),
        !dt.is_nan(),
        1 <= reach <= 0x100_0000_0000,
        p.pos.x.is_finite(),
        p.pos.y.is_finite(),
        p.vel.x.is_finite(),
        p.vel.y.is_finite(),
        p.age.is_finite(),
        vstd::math::abs(p.pos.x.scaled()) <= reach * Binary32::unit(),
        vstd::math::abs(p.pos.y.scaled()) <= reach * Binary32::unit(),
        vstd::math::abs(p.vel.x.scaled()) <= 16 * (reach * Binary32::unit()),
        vstd::math::abs(p.vel.y.scaled()) <= 16 * (reach * Binary32::unit()),
    ensures
        ({
            let q = p.moved(m, crate::particles::bounded_step(dt));
            let time = seconds(dt);
            let one = Binary32::unit() as int;
            &&& crate::arithmetic::close(
                q.vel.x,
                p.vel.x.scaled() * (5 * one - 9 * time),
                5 * one,
                reach * vstd::arithmetic::power2::pow2(134),
            )
            &&& crate::arithmetic::close(
                q.vel.y,
                (p.vel.y.scaled() - 220 * time) * (5 * one - 9 * time),
                5 * one,
                reach * vstd::arithmetic::power2::pow2(134),
            )
            &&& moves(p.pos.x, q.vel.x, time, q.pos.x)
            &&& moves(p.pos.y, q.vel.y, time, q.pos.y)
            &&& crate::arithmetic::close(
                q.pos.x,
                p.pos.x.scaled() * one + q.vel.x.scaled() * time,
                one,
                reach * vstd::arithmetic::power2::pow2(129),
            )
            &&& crate::arithmetic::close(
                q.pos.y,
                p.pos.y.scaled() * one + q.vel.y.scaled() * time,
                one,
                reach * vstd::arithmetic::power2::pow2(129),
            )
            &&& q.vel.x.scaled() <= 0 ==> q.pos.x.scaled() <= p.pos.x.scaled()
            &&& q.vel.x.scaled() >= 0 ==> q.pos.x.scaled() >= p.pos.x.scaled()
            &&& q.vel.y.scaled() <= 0 ==> q.pos.y.scaled() <= p.pos.y.scaled()
            &&& q.vel.y.scaled() >= 0 ==> q.pos.y.scaled() >= p.pos.y.scaled()
            &&& crate::arithmetic::rounds(q.age, p.age.scaled() + time, 1)
            &&& q.lifetime == p.lifetime
            &&& q.size == p.size
        }),
{
    let step = crate::particles::bounded_step(dt);
    let g = grain();
    lemma_step(dt);
    law_steps_are_bounded(dt);
    assert(vstd::arithmetic::power2::pow2(134) == 8192 * g && vstd::arithmetic::power2::pow2(129)
        == 256 * g) by {
        vstd::arithmetic::power2::lemma2_to64();
        vstd::arithmetic::power2::lemma_pow2_adds(13, 121);
        vstd::arithmetic::power2::lemma_pow2_adds(8, 121);
    }
    assert(reach * (8192 * g) == 8192 * (reach * g)) by (nonlinear_arith);
    lemma_sideways(p, m, step, reach);
    lemma_upward(p, m, step, reach);
    let vel = p.velocity_after(m, step);
    lemma_moves(m, p.pos.x, vel.x, step, reach);
    lemma_moves(m, p.pos.y, vel.y, step, reach);
    m.add_rounds(p.age, step);
}

/// The sideways velocity after a step.
proof fn lemma_sideways(p: Particle, m: Model, step: Binary32, reach: int)
    requires
        m.rounds_to_nearest(),
        1 <= reach <= 0x100_0000_0000,
        step.is_finite(),
        0 <= step.scaled() <= 0xcc_cccd * grain(),
        p.vel.x.is_finite(),
        vstd::math::abs(p.vel.x.scaled()) <= 16 * (reach * one()),
    ensures
        ({
            let x = p.velocity_after(m, step).x;
            &&& vstd::math::abs(x.scaled()) <= 18 * (reach * one())
            &&& crate::arithmetic::close(
                x,
                p.vel.x.scaled() * (5 * one() - 9 * step.scaled()),
                5 * one(),
                8192 * (reach * grain()),
            )
        }),
{
    let u = one();
    let g = grain();
    let ru = reach * u;
    assert(u > 0 && g > 0 && Binary32::from_bits(ZERO).has(0)) by {
        lemma_constants();
    }
    assert(ru >= 0 && reach * g >= 0) by (nonlinear_arith)
        requires
            ru == reach * u,
            reach >= 1,
            u > 0,
            g > 0,
    ;
    let still = m.mul(Binary32::from_bits(ZERO), step);
    m.mul_zero(Binary32::from_bits(ZERO), step);
    m.add_zero(p.vel.x, still);
    let s = m.add(p.vel.x, still);
    crate::binary32::lemma_finite_range(p.vel.x);
    crate::binary32::lemma_finite_range(s);
    lemma_velocity_close(m, s, p.vel.x.scaled(), step, reach);
    lemma_kept(m, step);
    lemma_slower(m, s, kept(m, step), 18 * reach);
    assert((18 * reach) * u == 18 * ru) by (nonlinear_arith)
        requires
            ru == reach * u,
    ;
    assert(p.velocity_after(m, step).x == m.mul(s, kept(m, step)));
}

/// The upward velocity after a step.
proof fn lemma_upward(p: Particle, m: Model, step: Binary32, reach: int)
    requires
        m.rounds_to_nearest(),
        1 <= reach <= 0x100_0000_0000,
        step.is_finite(),
        0 <= step.scaled() <= 0xcc_cccd * grain(),
        p.vel.y.is_finite(),
        vstd::math::abs(p.vel.y.scaled()) <= 16 * (reach * one()),
    ensures
        ({
            let y = p.velocity_after(m, step).y;
            &&& vstd::math::abs(y.scaled()) <= 34 * (reach * one())
            &&& crate::arithmetic::close(
                y,
                (p.vel.y.scaled() - 220 * step.scaled()) * (5 * one() - 9 * step.scaled()),
                5 * one(),
                8192 * (reach * grain()),
            )
        }),
{
    let g = grain();
    let u = one();
    let t = step.scaled();
    let rg = reach * g;
    let ru = reach * u;
    assert(g > 0 && u == 0x1000_0000 * g && Binary32::from_bits(LIFT).has(-(220 * u))) by {
        lemma_constants();
    }
    assert(ru == 0x1000_0000 * rg && rg >= g && ru >= u) by (nonlinear_arith)
        requires
            ru == reach * u,
            rg == reach * g,
            u == 0x1000_0000 * g,
            reach >= 1,
            g > 0,
    ;
    let lift = Binary32::from_bits(LIFT);
    let push = m.mul(lift, step);
    assert(-(16 * (u * u)) <= -(220 * u) * t <= 0) by (nonlinear_arith)
        requires
            0 <= t <= 0xcc_cccd * g,
            u == 0x1000_0000 * g,
            g > 0,
    ;
    assert(0x80_0000 * (512 * g) * u == 16 * (u * u)) by (nonlinear_arith)
        requires
            u == 0x1000_0000 * g,
    ;
    m.mul_close(lift, step, 512 * g);
    let w = push.scaled();
    assert(-(512 * g) <= w + 220 * t <= 512 * g) by (nonlinear_arith)
        requires
            -((512 * g) * u) <= w * u - -(220 * u) * t <= (512 * g) * u,
            u > 0,
    {
        assert((w + 220 * t) * u == w * u - -(220 * u) * t) by (nonlinear_arith);
        assert(w + 220 * t <= 512 * g) by (nonlinear_arith)
            requires
                (w + 220 * t) * u <= (512 * g) * u,
                u > 0,
        ;
        assert(w + 220 * t >= -(512 * g)) by (nonlinear_arith)
            requires
                (w + 220 * t) * u >= -((512 * g) * u),
                u > 0,
        ;
    }
    let y = m.add(p.vel.y, push);
    assert(1024 * rg <= 0x1_0000_0000_0000 * u) by (nonlinear_arith)
        requires
            rg == reach * g,
            reach <= 0x100_0000_0000,
            u == 0x1000_0000 * g,
            g > 0,
    ;
    m.add_close(p.vel.y, push, 1024 * rg);
    lemma_velocity_close(m, y, p.vel.y.scaled() - 220 * t, step, reach);
    lemma_kept(m, step);
    lemma_slower(m, y, kept(m, step), 34 * reach);
    assert((34 * reach) * u == 34 * ru) by (nonlinear_arith)
        requires
            ru == reach * u,
    ;
    assert(p.velocity_after(m, step).y == m.mul(y, kept(m, step)));
}

/// A velocity that is slowed stays within `bound` pixels per second.
proof fn lemma_slower(m: Model, v: Binary32, k: Binary32, bound: int)
    requires
        m.rounds_to_nearest(),
        v.is_finite(),
        k.is_finite(),
        0 <= k.scaled() <= one(),
    ensures
        m.mul(v, k).is_finite(),
        vstd::math::abs(v.scaled()) <= bound * one() ==> vstd::math::abs(m.mul(v, k).scaled())
            <= bound * one(),
{
    crate::binary32::lemma_finite_range(v);
    lemma_constants();
    let x = v.scaled();
    let y = k.scaled();
    let u = one();
    if x >= 0 {
        assert(0 * u <= x * y && x * y <= x * u) by (nonlinear_arith)
            requires
                x >= 0,
                0 <= y <= u,
        ;
        m.mul_between(v, k, 0, x);
    } else {
        assert(x * u <= x * y && x * y <= 0 * u) by (nonlinear_arith)
            requires
                x <= 0,
                0 <= y <= u,
        ;
        m.mul_between(v, k, x, 0);
    }
}

/// Flames rise: a step never moves a thriving particle down, wherever it is.
pub proof fn law_particles_never_sink(p: Particle, m: Model, dt: Binary32)
    requires
        m.rounds_to_nearest(),
        p.thrives(),
        !dt.is_nan(),
        p.pos.y.is_finite(),
    ensures
        ({
            let q = p.moved(m, crate::particles::bounded_step(dt));
            &&& q.vel.y.scaled() < 0
            &&& q.pos.y.scaled() <= p.pos.y.scaled()
        }),
{
    let step = crate::particles::bounded_step(dt);
    let q = p.moved(m, step);
    lemma_step(dt);
    lemma_constants();
    lemma_kept(m, step);
    lemma_lifted(m, p, step);
    lemma_not_too_fast(m, p, step);
    lemma_still_rises(m, p, step);
    let u = one();
    let k = kept(m, step);
    crate::binary32::lemma_representable(0x10_0000, 149);
    crate::binary32::lemma_representable_opposite(0x10_0000 * u);
    assert(-u * u == -(u * u)) by (nonlinear_arith);
    m.mul_between(lifted(m, p, step), k, -(0x10_0000 * u), -u);
    assert(q.vel.y == m.mul(lifted(m, p, step), k));
    let x = q.vel.y.scaled();
    let t = step.scaled();
    let way = m.mul(q.vel.y, step);
    assert(-(0x10_0000 * u) * u <= x * t && x * t <= 0 * u) by (nonlinear_arith)
        requires
            -(0x10_0000 * u) <= x <= 0,
            0 <= t <= u,
    ;
    m.mul_between(q.vel.y, step, -(0x10_0000 * u), 0);
    m.add_rounds(p.pos.y, way);
    crate::binary32::lemma_finite_range(p.pos.y);
    crate::arithmetic::lemma_not_above(
        q.pos.y,
        p.pos.y.scaled() + way.scaled(),
        1,
        p.pos.y.scaled(),
    );
}

/// Particles come at the rate, whatever the frame rate. With `time` for the seconds of a step and
/// `n` as a bound of the particles per second and of those owed:
/// - what has accrued is the number nearest to what was owed plus the number nearest to the rate
///   times `time`;
/// - the particles due and the share that stays owed are what was owed and the rate times `time`, up
///   to 2^-21 of `n`, and the share is less than one.
pub proof fn law_rate_is_kept(s: ParticleSystem, m: Model, dt: Binary32, n: int)
    requires
        m.rounds_to_nearest(),
        !dt.is_nan(),
        1 <= n <= 0x1000_0000,
        s.spawn_rate.is_finite(),
        0 <= s.spawn_rate.scaled() <= n * Binary32::unit(),
        s.owed().is_finite(),
        0 <= s.owed().scaled() <= n * Binary32::unit(),
    ensures
        ({
            let step = crate::particles::bounded_step(dt);
            let time = seconds(dt);
            let one = Binary32::unit() as int;
            let accrued = s.accrued(m, step);
            let due = s.due(m, step) as int;
            let owed = m.sub(accrued, m.unsigned(s.due(m, step) as u64)).scaled();
            &&& moves(s.owed(), s.spawn_rate, time, accrued)
            &&& 0 <= owed < one
            &&& vstd::math::abs(
                (due * one + owed - s.owed().scaled()) * one - s.spawn_rate.scaled() * time,
            ) <= n * vstd::arithmetic::power2::pow2(128) * one
        }),
{
    let step = crate::particles::bounded_step(dt);
    let g = grain();
    let u = one();
    let t = step.scaled();
    lemma_step(dt);
    law_steps_are_bounded(dt);
    assert(g > 0 && u == 0x1000_0000 * g && Binary32::representable(0)) by {
        lemma_constants();
    }
    assert(vstd::arithmetic::power2::pow2(128) == 128 * g) by {
        vstd::arithmetic::power2::lemma2_to64();
        vstd::arithmetic::power2::lemma_pow2_adds(7, 121);
    }
    let ng = n * g;
    let nu = n * u;
    assert(nu == 0x1000_0000 * ng && ng >= g && nu >= u) by (nonlinear_arith)
        requires
            nu == n * u,
            ng == n * g,
            u == 0x1000_0000 * g,
            n >= 1,
            g > 0,
    ;
    assert(n * (128 * g) == 128 * ng) by (nonlinear_arith)
        requires
            ng == n * g,
    ;
    let rate = s.spawn_rate;
    let x = rate.scaled();
    assert(0 <= x * t <= nu * u) by (nonlinear_arith)
        requires
            0 <= x <= nu,
            0 <= t <= u,
    ;
    assert(0x80_0000 * (32 * ng) * u == nu * u) by (nonlinear_arith)
        requires
            nu == 0x1000_0000 * ng,
    ;
    assert(32 * ng <= 0x1_0000_0000_0000 * u && 64 * ng <= 0x1_0000_0000_0000 * u)
        by (nonlinear_arith)
        requires
            ng == n * g,
            n <= 0x1000_0000,
            u == 0x1000_0000 * g,
            g > 0,
    ;
    assert(ng >= 1) by {
        vstd::arithmetic::power2::lemma_pow2_pos(121);
    }
    m.mul_close(rate, step, 32 * ng);
    m.mul_rounds(rate, step);
    let grown = m.mul(rate, step);
    crate::arithmetic::lemma_not_below(grown, x * t, u, 0);
    let w = grown.scaled();
    assert(16 * (x * t) <= nu * u) by (nonlinear_arith)
        requires
            0 <= x <= nu,
            0 <= 16 * t <= u,
    ;
    assert(w <= nu) by (nonlinear_arith)
        requires
            w * u - x * t <= 32 * ng * u,
            16 * (x * t) <= nu * u,
            nu == 0x1000_0000 * ng,
            ng >= 0,
            u > 0,
    ;
    m.add_rounds(s.owed(), grown);
    m.add_close(s.owed(), grown, 64 * ng);
    let accrued = s.accrued(m, step);
    crate::arithmetic::lemma_not_below(accrued, s.owed().scaled() + w, 1, 0);
    assert(moves(s.owed(), rate, t, accrued)) by {
        assert(grown.is_finite());
    }
    // what is due fits
    if !accrued.is_negative() {
        crate::binary32::law_rounding_brackets(accrued);
        let f = accrued.floor_nat();
        assert(f <= 3 * n) by (nonlinear_arith)
            requires
                f * u <= 3 * (n * u),
                u > 0,
        ;
    }
    law_owed_adds_up(s, m, step);
    let due = s.due(m, step) as int;
    let owed = m.sub(accrued, m.unsigned(s.due(m, step) as u64)).scaled();
    let o = s.owed().scaled();
    let a = accrued.scaled();
    assert(due * u + owed == a);
    assert(-(128 * ng * u) <= (a - o) * u - x * t <= 128 * ng * u) by (nonlinear_arith)
        requires
            -(32 * ng * u) <= w * u - x * t <= 32 * ng * u,
            -(64 * ng) <= a - (o + w) <= 64 * ng,
            ng >= 0,
            u > 0,
    ;
}

/// What is drawn lies within 3 pixels of the emitter on each axis, drifts by up to 55 and rises by
/// 110 to 260 pixels per second, lives for 0.35 to 0.85 seconds, and is 6 to 14 pixels in size; of
/// the lifetimes, the bounds are the numbers nearest to these.
pub proof fn law_draws_in_numbers(d: Draw)
    requires
        d.allowed(),
    ensures
        ({
            let one = Binary32::unit() as int;
            let fine = vstd::arithmetic::power2::pow2(124);
            &&& vstd::math::abs(d.jitter.x.scaled()) <= 3 * one
            &&& vstd::math::abs(d.jitter.y.scaled()) <= 3 * one
            &&& vstd::math::abs(d.vel.x.scaled()) <= 55 * one
            &&& -(260 * one) <= d.vel.y.scaled() <= -(110 * one)
            &&& 0xb3_3333 * fine <= d.lifetime.scaled() <= 0xd9_999a * (2 * fine)
            &&& 6 * one <= d.size.scaled() <= 14 * one
        }),
{
    lemma_bounds();
    lemma_more_bounds();
}

/// The bounds of lifetimes and sizes.
proof fn lemma_more_bounds()
    ensures
        Binary32::from_bits(LIFETIME_MIN).scaled() == 0xb3_3333 * vstd::arithmetic::power2::pow2(
            124,
        ),
        Binary32::from_bits(LIFETIME_MAX).scaled() == 0xd9_999a * (2
            * vstd::arithmetic::power2::pow2(124)),
        Binary32::from_bits(SIZE_MIN).scaled() == 6 * one(),
        Binary32::from_bits(SIZE_MAX).scaled() == 14 * one(),
{
    vstd::arithmetic::power2::lemma2_to64();
    let short = Binary32::from_bits(LIFETIME_MIN);
    assert(short.exponent() == 125 && short.fraction() == 0x33_3333);
    let long = Binary32::from_bits(LIFETIME_MAX);
    assert(long.exponent() == 126 && long.fraction() == 0x59_999a);
    vstd::arithmetic::power2::lemma_pow2_unfold(125);
    let small = Binary32::from_bits(SIZE_MIN);
    assert(small.exponent() == 129 && small.fraction() == 0x40_0000);
    let large = Binary32::from_bits(SIZE_MAX);
    assert(large.exponent() == 130 && large.fraction() == 0x60_0000);
    vstd::arithmetic::power2::lemma_pow2_adds(21, 128);
    vstd::arithmetic::power2::lemma_pow2_unfold(129);
    let p = vstd::arithmetic::power2::pow2(128) as int;
    assert(0xc0_0000 * p == 6 * (0x20_0000 * p)) by (nonlinear_arith);
    assert(0xe0_0000 * (2 * p) == 14 * (0x20_0000 * p)) by (nonlinear_arith);
}

/// A thriving particle is younger than its lifetime of 0.35 to 0.85 seconds, 6 to 14 pixels in size,
/// drifts by up to 55 pixels per second and rises by at least one.
pub proof fn law_thriving_in_numbers(p: Particle)
    requires
        p.thrives(),
    ensures
        ({
            let one = Binary32::unit() as int;
            let fine = vstd::arithmetic::power2::pow2(124);
            &&& 0 <= p.age.scaled() < p.lifetime.scaled()
            &&& 0xb3_3333 * fine <= p.lifetime.scaled() <= 0xd9_999a * (2 * fine)
            &&& 6 * one <= p.size.scaled() <= 14 * one
            &&& vstd::math::abs(p.vel.x.scaled()) <= 55 * one
            &&& p.vel.y.scaled() <= -one
            &&& !p.age.is_nan() && !p.lifetime.is_nan() && !p.size.is_nan() && !p.vel.x.is_nan()
                && !p.vel.y.is_nan()
        }),
{
    lemma_bounds();
    lemma_more_bounds();
}

/// A thriving trail has no more particles than the limit allows, thriving ones all, and owes less
/// than one.
pub proof fn law_thriving_trails_in_numbers(s: ParticleSystem, i: int)
    requires
        s.thrives(),
        0 <= i < s.list().len(),
    ensures
        s.list().len() <= s.max_particles,
        s.list()[i].thrives(),
        0 <= s.owed().scaled() < Binary32::unit(),
        s.spawn_rate.scaled() == 900 * Binary32::unit(),
{
    lemma_constants();
}

/// Wherever a particle is, a step slows it by the share 1.8 of the seconds after it added 220 times
/// the seconds upward. `speed` times 16 pixels per second bound its velocity, which is exact up to
/// 2^-15 of `speed`.
pub proof fn law_velocities(p: Particle, m: Model, dt: Binary32, speed: int)
    requires
        m.rounds_to_nearest(),
        !dt.is_nan(),
        1 <= speed <= 0x100_0000_0000,
        p.vel.x.is_finite(),
        p.vel.y.is_finite(),
        vstd::math::abs(p.vel.x.scaled()) <= 16 * (speed * Binary32::unit()),
        vstd::math::abs(p.vel.y.scaled()) <= 16 * (speed * Binary32::unit()),
    ensures
        ({
            let q = p.moved(m, crate::particles::bounded_step(dt));
            let time = seconds(dt);
            let one = Binary32::unit() as int;
            &&& crate::arithmetic::close(
                q.vel.x,
                p.vel.x.scaled() * (5 * one - 9 * time),
                5 * one,
                speed * vstd::arithmetic::power2::pow2(134),
            )
            &&& crate::arithmetic::close(
                q.vel.y,
                (p.vel.y.scaled() - 220 * time) * (5 * one - 9 * time),
                5 * one,
                speed * vstd::arithmetic::power2::pow2(134),
            )
        }),
{
    let step = crate::particles::bounded_step(dt);
    let g = grain();
    lemma_step(dt);
    law_steps_are_bounded(dt);
    assert(vstd::arithmetic::power2::pow2(134) == 8192 * g) by {
        vstd::arithmetic::power2::lemma2_to64();
        vstd::arithmetic::power2::lemma_pow2_adds(13, 121);
    }
    assert(speed * (8192 * g) == 8192 * (speed * g)) by (nonlinear_arith);
    lemma_sideways(p, m, step, speed);
    lemma_upward(p, m, step, speed);
}

/// As long as less than one particle has accrued, none is due, and all of it stays owed.
pub proof fn law_less_than_one_is_not_due(s: ParticleSystem, m: Model, step: Binary32)
    requires
        m.rounds_to_nearest(),
        s.accrued(m, step).is_finite(),
        s.accrued(m, step).scaled() < Binary32::unit(),
    ensures
        s.due(m, step) == 0,
        m.sub(s.accrued(m, step), m.unsigned(s.due(m, step) as u64)).has(
            s.accrued(m, step).scaled(),
        ),
{
    let accrued = s.accrued(m, step);
    vstd::arithmetic::power2::lemma_pow2_pos(149);
    if !accrued.is_negative() {
        crate::binary32::law_rounding_brackets(accrued);
        let n = accrued.floor_nat();
        assert(n == 0) by (nonlinear_arith)
            requires
                n * one() < one(),
                n >= 0,
        ;
    }
    crate::binary32::lemma_representable(0, 0);
    assert(0 * one() == 0);
    m.unsigned_between(0, 0, 0);
    crate::binary32::lemma_finite_range(accrued);
    m.sub_between(accrued, m.unsigned(0), accrued.scaled(), accrued.scaled());
}

} // verus!
