//! What holds of the painted frames, with rounding to nearest.
//!
//! The window shows a frame by its opacity, so no channel of a pixel may be stronger than that.
use vstd::prelude::*;

use crate::arithmetic::Model;
use crate::binary32::{Binary32, ONE, ZERO};
use crate::particles::Particle;
use crate::renderer::{
    Instance, Pixel, Renderer, FULL, HALF, INNER_EDGE, OUTER_EDGE, THREE, TWO,
};

verus! {

/// The distance between the numbers just below the inner edge.
spec fn grain() -> int {
    vstd::arithmetic::power2::pow2(122) as int
}

/// One, in units of 2^-149.
spec fn one() -> int {
    Binary32::unit() as int
}

/// The numbers of the blending, in grains and in units.
proof fn lemma_constants()
    ensures
        grain() > 0,
        Binary32::unit() == 0x800_0000 * grain(),
        Binary32::from_bits(ZERO).has(0),
        Binary32::from_bits(ONE).has(one()),
        Binary32::from_bits(HALF).has(0x400_0000 * grain()),
        Binary32::from_bits(TWO).has(2 * one()),
        Binary32::from_bits(THREE).has(3 * one()),
        Binary32::from_bits(FULL).has(255 * one()),
        Binary32::from_bits(INNER_EDGE).has(0xcc_cccd * grain()),
        Binary32::from_bits(OUTER_EDGE).has(0x466_6668 * grain()),
        Binary32::representable(0),
        Binary32::representable(one()),
        Binary32::representable(-one()),
        Binary32::representable(-(0x200_0000 * grain())),
        Binary32::representable(2 * one()),
        Binary32::representable(3 * one()),
        Binary32::representable(4 * one()),
        Binary32::representable(255 * one()),
{
    let g = grain();
    vstd::arithmetic::power2::lemma_pow2_pos(122);
    vstd::arithmetic::power2::lemma2_to64();
    vstd::arithmetic::power2::lemma_pow2_adds(27, 122);
    vstd::arithmetic::power2::lemma_pow2_adds(3, 122);
    vstd::arithmetic::power2::lemma_pow2_adds(5, 122);
    vstd::arithmetic::power2::lemma_pow2_adds(11, 122);
    crate::binary32::lemma_one();
    let half = Binary32::from_bits(HALF);
    let two = Binary32::from_bits(TWO);
    let three = Binary32::from_bits(THREE);
    let full = Binary32::from_bits(FULL);
    let inner = Binary32::from_bits(INNER_EDGE);
    let outer = Binary32::from_bits(OUTER_EDGE);
    assert(half.exponent() == 126 && half.fraction() == 0);
    assert(0x80_0000 * (8 * g) == 0x400_0000 * g) by (nonlinear_arith);
    assert(two.exponent() == 128 && two.fraction() == 0);
    assert(0x80_0000 * (32 * g) == 2 * (0x800_0000 * g)) by (nonlinear_arith);
    assert(three.exponent() == 128 && three.fraction() == 0x40_0000);
    assert(0xc0_0000 * (32 * g) == 3 * (0x800_0000 * g)) by (nonlinear_arith);
    assert(full.exponent() == 134 && full.fraction() == 0x7f_0000);
    assert(0xff_0000 * (2048 * g) == 255 * (0x800_0000 * g)) by (nonlinear_arith);
    assert(inner.exponent() == 123 && inner.fraction() == 0x4c_cccd);
    assert(outer.exponent() == 126 && outer.fraction() == 0xc_cccd);
    assert(0x8c_cccd * (8 * g) == 0x466_6668 * g) by (nonlinear_arith);
    assert(Binary32::from_bits(ZERO).has(0));
    assert(Binary32::from_bits(ONE).has(one()));
    assert(two.has(2 * one()));
    assert(three.has(3 * one()));
    assert(full.has(255 * one()));
    crate::binary32::lemma_representable_opposite(Binary32::unit() as int);
    crate::binary32::lemma_representable(4, 149);
    vstd::arithmetic::power2::lemma_pow2_adds(25, 122);
    crate::binary32::lemma_representable(1, 147);
    assert(1 * (0x200_0000 * g) == 0x200_0000 * g);
    crate::binary32::lemma_representable_opposite(0x200_0000 * g);
}

/// The distance along an axis from a disc's centre to a pixel is a number.
proof fn lemma_offset_is_number(m: Model, place: int, centre: Binary32)
    requires
        m.rounds_to_nearest(),
        0 <= place < 0x1_0000_0000,
        centre.is_finite(),
    ensures
        !m.offset(place, centre).is_nan(),
{
    lemma_constants();
    let one = Binary32::unit() as int;
    vstd::arithmetic::power2::lemma2_to64();
    vstd::arithmetic::power2::lemma_pow2_adds(32, 149);
    vstd::arithmetic::power2::lemma_pow2_pos(181);
    crate::binary32::lemma_representable(1, 181);
    crate::binary32::lemma_representable(2, 181);
    let top = vstd::arithmetic::power2::pow2(181) as int;
    assert(1 * top == top);
    assert(0 <= place * one <= 0x1_0000_0000 * one) by (nonlinear_arith)
        requires
            0 <= place < 0x1_0000_0000,
            one >= 0,
    ;
    m.unsigned_between(place as u64, 0, top);
    let u = m.unsigned(place as u64);
    m.add_between(u, Binary32::from_bits(HALF), 0, 2 * top);
    reveal(Model::rounds_differences);
}

/// The distance from a disc's centre to a pixel is a number.
pub(crate) proof fn lemma_distance_is_number(m: Model, i: Instance, x: int, y: int)
    requires
        m.rounds_to_nearest(),
        i.drawable(),
        0 <= x < 0x1_0000_0000,
        0 <= y < 0x1_0000_0000,
    ensures
        !m.distance(i, x, y).is_nan(),
{
    lemma_offset_is_number(m, x, i.pos[0]);
    lemma_offset_is_number(m, y, i.pos[1]);
    let dx = m.offset(x, i.pos[0]);
    let dy = m.offset(y, i.pos[1]);
    m.square_is_number(dx);
    m.square_is_number(dy);
    m.sum_is_number(m.mul(dx, dx), m.mul(dy, dy));
    let sum = m.add(m.mul(dx, dx), m.mul(dy, dy));
    assert(!m.sqrt(sum).is_nan() && m.sqrt(sum).scaled() >= 0) by {
        reveal(Model::rounds_roots);
    }
    m.quotient_is_number(m.sqrt(sum), i.size);
}

/// The strength of a disc is a number and not negative.
pub(crate) proof fn lemma_falloff(m: Model, d: Binary32)
    requires
        m.rounds_to_nearest(),
        !d.is_nan(),
    ensures
        m.falloff(d).is_finite(),
        0 <= m.falloff(d).scaled() <= 3 * Binary32::unit(),
{
    lemma_constants();
    let g = grain();
    let one = Binary32::unit() as int;
    let outer = Binary32::from_bits(OUTER_EDGE);
    let inner = Binary32::from_bits(INNER_EDGE);
    let two = Binary32::from_bits(TWO);
    let three = Binary32::from_bits(THREE);
    if inner.less(d) && d.less(outer) {
        crate::binary32::lemma_finite_range(d);
        crate::binary32::lemma_finite_range(outer);
        let num = m.sub(d, outer);
        let den = m.sub(inner, outer);
        m.sub_between(d, outer, -one, 0);
        m.sub_between(inner, outer, -one, -(0x200_0000 * g));
        m.sub_in_order(inner, outer, d, outer);
        let t = m.div(num, den);
        let u = num.scaled();
        let v = den.scaled();
        assert(0 * v >= u * one && u * one >= one * v) by (nonlinear_arith)
            requires
                v <= u <= 0,
                one >= 0,
        ;
        m.div_between_negative(num, den, 0, one);
        let w = t.scaled();
        assert(0 * one <= w * w && w * w <= one * one) by (nonlinear_arith)
            requires
                0 <= w <= one,
        ;
        let t2 = m.mul(t, t);
        m.mul_between(t, t, 0, one);
        assert(0 * one <= (2 * one) * w && (2 * one) * w <= (2 * one) * one) by (nonlinear_arith)
            requires
                0 <= w <= one,
        ;
        let double = m.mul(two, t);
        m.mul_between(two, t, 0, 2 * one);
        let s = m.sub(three, double);
        m.sub_between(three, double, 0, 3 * one);
        let a = t2.scaled();
        let b = s.scaled();
        assert(0 * one <= a * b && a * b <= (3 * one) * one) by (nonlinear_arith)
            requires
                0 <= a <= one,
                0 <= b <= 3 * one,
        ;
        m.mul_between(t2, s, 0, 3 * one);
    }
}

/// A channel of a pixel as a strength.
proof fn lemma_below(m: Model, under: u8)
    requires
        m.rounds_to_nearest(),
    ensures
        m.unsigned(under as u64).is_finite(),
        m.div(m.unsigned(under as u64), Binary32::from_bits(FULL)).is_finite(),
        0 <= m.div(m.unsigned(under as u64), Binary32::from_bits(FULL)).scaled()
            <= Binary32::unit(),
{
    lemma_constants();
    let one = Binary32::unit() as int;
    let full = Binary32::from_bits(FULL);
    assert(0 <= under * one <= 255 * one) by (nonlinear_arith)
        requires
            0 <= under <= 255,
            one >= 0,
    ;
    m.unsigned_between(under as u64, 0, 255 * one);
    let u = m.unsigned(under as u64);
    let x = u.scaled();
    assert(0 * (255 * one) <= x * one && x * one <= one * (255 * one)) by (nonlinear_arith)
        requires
            0 <= x <= 255 * one,
            one >= 0,
    ;
    m.div_between(u, full, 0, one);
}

/// Stronger light on a stronger channel makes no weaker channel.
proof fn lemma_lit_in_order(m: Model, c: Binary32, d: Binary32, u: u8, v: u8)
    requires
        m.rounds_to_nearest(),
        c.is_finite(),
        d.is_finite(),
        0 <= c.scaled() <= d.scaled() <= 3 * Binary32::unit(),
        u <= v,
    ensures
        m.lit(c, u) <= m.lit(d, v),
{
    lemma_constants();
    let one = Binary32::unit() as int;
    let zero = Binary32::from_bits(ZERO);
    let full = Binary32::from_bits(FULL);
    lemma_below(m, u);
    lemma_below(m, v);
    m.unsigned_in_order(u as u64, v as u64);
    let x = m.unsigned(u as u64);
    let y = m.unsigned(v as u64);
    let p = x.scaled();
    let q = y.scaled();
    assert(p * (255 * one) <= q * (255 * one)) by (nonlinear_arith)
        requires
            p <= q,
            one >= 0,
    ;
    m.div_in_order(x, full, y, full);
    let s = m.add(c, m.div(x, full));
    let t = m.add(d, m.div(y, full));
    m.add_between(c, m.div(x, full), 0, 4 * one);
    m.add_between(d, m.div(y, full), 0, 4 * one);
    m.add_in_order(c, m.div(x, full), d, m.div(y, full));
    let k = s.clamped(zero, Binary32::from_bits(ONE));
    let l = t.clamped(zero, Binary32::from_bits(ONE));
    let a = k.scaled();
    let b = l.scaled();
    assert(a * (255 * one) <= b * (255 * one)) by (nonlinear_arith)
        requires
            a <= b,
            one >= 0,
    ;
    m.mul_in_order(k, full, l, full);
    assert(0 * one <= a * (255 * one) && a * (255 * one) <= (255 * one) * one) by (nonlinear_arith)
        requires
            0 <= a <= one,
    ;
    m.mul_between(k, full, 0, 255 * one);
    assert(0 * one <= b * (255 * one) && b * (255 * one) <= (255 * one) * one) by (nonlinear_arith)
        requires
            0 <= b <= one,
    ;
    m.mul_between(l, full, 0, 255 * one);
    crate::binary32::lemma_floor_in_order(m.mul(k, full), m.mul(l, full));
}

/// The light of a disc has no channel stronger than its opacity.
pub(crate) proof fn lemma_light(m: Model, c: Binary32, a: Binary32, soft: Binary32)
    requires
        m.rounds_to_nearest(),
        c.is_finite(),
        a.is_finite(),
        soft.is_finite(),
        0 <= c.scaled() <= a.scaled() <= Binary32::unit(),
        0 <= soft.scaled() <= 3 * Binary32::unit(),
    ensures
        m.mul(c, soft).is_finite(),
        m.mul(a, soft).is_finite(),
        0 <= m.mul(c, soft).scaled() <= m.mul(a, soft).scaled() <= 3 * Binary32::unit(),
{
    lemma_constants();
    let one = Binary32::unit() as int;
    let x = c.scaled();
    let y = a.scaled();
    let s = soft.scaled();
    assert(0 * one <= x * s && x * s <= y * s && y * s <= (3 * one) * one) by (nonlinear_arith)
        requires
            0 <= x <= y <= one,
            0 <= s <= 3 * one,
    ;
    m.mul_between(c, soft, 0, 3 * one);
    m.mul_between(a, soft, 0, 3 * one);
    m.mul_in_order(c, soft, a, soft);
}

/// A disc that can be painted leaves a pixel that can be shown.
proof fn lemma_shaded(m: Model, i: Instance, x: int, y: int, under: Pixel)
    requires
        m.rounds_to_nearest(),
        i.paintable(),
        under.premultiplied(),
        0 <= x < 0x1_0000_0000,
        0 <= y < 0x1_0000_0000,
    ensures
        m.shaded(i, x, y, under).premultiplied(),
{
    lemma_distance_is_number(m, i, x, y);
    let soft = m.falloff(m.distance(i, x, y));
    lemma_falloff(m, m.distance(i, x, y));
    let a = m.mul(i.color[3], soft);
    lemma_light(m, i.color[0], i.color[3], soft);
    lemma_light(m, i.color[1], i.color[3], soft);
    lemma_light(m, i.color[2], i.color[3], soft);
    lemma_lit_in_order(m, m.mul(i.color[0], soft), a, under.r, under.a);
    lemma_lit_in_order(m, m.mul(i.color[1], soft), a, under.g, under.a);
    lemma_lit_in_order(m, m.mul(i.color[2], soft), a, under.b, under.a);
}

/// Painting keeps the opacity multiplied in: discs with colors that can be blended give pixels of
/// which no channel is stronger than the opacity.
pub proof fn law_painted_is_premultiplied(
    m: Model,
    instances: Seq<Instance>,
    width: u32,
    height: u32,
    x: int,
    y: int,
)
    requires
        m.rounds_to_nearest(),
        forall|n: int| 0 <= n < instances.len() ==> (#[trigger] instances[n]).paintable(),
    ensures
        m.painted(instances, width, height, x, y).premultiplied(),
    decreases instances.len(),
{
    if instances.len() > 0 {
        let rest = instances.drop_last();
        assert forall|n: int| 0 <= n < rest.len() implies (#[trigger] rest[n]).paintable() by {
            assert(rest[n] == instances[n]);
        }
        law_painted_is_premultiplied(m, rest, width, height, x, y);
        if m.footprint(instances.last(), width, height).contains(x, y) {
            lemma_shaded(m, instances.last(), x, y, m.painted(rest, width, height, x, y));
        }
    }
}

/// A frame that shows discs with colors that can be blended has no pixel with a channel stronger
/// than its opacity.
pub proof fn law_frames_are_premultiplied(
    r: Renderer,
    m: Model,
    instances: Seq<Instance>,
    x: int,
    y: int,
)
    requires
        m.rounds_to_nearest(),
        r.shows(m, instances),
        forall|n: int| 0 <= n < instances.len() ==> (#[trigger] instances[n]).paintable(),
        0 <= x < r.columns(),
        0 <= y < r.rows(),
    ensures
        r.pixel(x, y).premultiplied(),
{
    law_painted_is_premultiplied(m, instances, r.columns(), r.rows(), x, y);
}

/// Particles with a place and a size become discs that can be painted, whatever their age.
pub proof fn law_particles_are_paintable(p: Particle, m: Model, i: Instance)
    requires
        m.rounds_to_nearest(),
        p.drawn_as(m, i),
        p.pos.x.is_finite(),
        p.pos.y.is_finite(),
        p.age.is_finite(),
        p.lifetime.is_finite(),
        p.size.is_finite(),
        p.size.scaled() > 0,
    ensures
        i.paintable(),
{
    crate::gradient::law_colors_are_premultiplied(p, m);
    assert(i.pos@[0] == p.pos.x && i.pos@[1] == p.pos.y);
    assert(i.color@[0] == p.glow(m).r && i.color@[1] == p.glow(m).g);
    assert(i.color@[2] == p.glow(m).b && i.color@[3] == p.glow(m).a);
}

/// A number below `k` grains of 2^j is at least one of them below, where these are the numbers
/// around it.
proof fn lemma_next_below(s: Binary32, k: int, j: nat)
    requires
        s.is_finite(),
        0x80_0000 < k < 0x100_0000,
        j <= 253,
        s.scaled() < k * vstd::arithmetic::power2::pow2(j),
    ensures
        s.scaled() <= (k - 1) * vstd::arithmetic::power2::pow2(j),
{
    let c = Binary32 { bits: ((j + 1) * 0x80_0000 + (k - 0x80_0000)) as u32 };
    let d = Binary32 { bits: ((j + 1) * 0x80_0000 + (k - 1 - 0x80_0000)) as u32 };
    assert(c.exponent() == j + 1 && c.fraction() == k - 0x80_0000);
    assert(d.exponent() == j + 1 && d.fraction() == k - 1 - 0x80_0000);
    crate::binary32::law_patterns_order_numbers(s, c);
    crate::binary32::law_patterns_order_numbers(s, d);
}

/// A channel `u` as a strength, in grains `w` of 2^-31 of the power of two that `u` reaches: with
/// `n` for `u` in grains, 255 times the strength is at most 127 grains off.
proof fn lemma_strength(m: Model, u: u8, n: int, w: int, j: nat)
    requires
        m.rounds_to_nearest(),
        w == vstd::arithmetic::power2::pow2(j),
        j <= 253,
        w > 0,
        u * one() == n * w,
        0x8000_0000 <= n <= 0xfe00_0000,
    ensures
        ({
            let q = m.div(m.unsigned(u as u64), Binary32::from_bits(FULL));
            &&& q.is_finite()
            &&& 0 <= q.scaled() <= one()
            &&& (n - 127) * w <= 255 * q.scaled() <= (n + 127) * w
            &&& n == 0x8000_0000 ==> 255 * q.scaled() >= n * w
        }),
{
    lemma_constants();
    lemma_below(m, u);
    let o = one();
    let full = Binary32::from_bits(FULL);
    crate::binary32::lemma_representable(u as nat, 149);
    m.unsigned_between(u as u64, u * o, u * o);
    let x = m.unsigned(u as u64);
    let q = m.div(x, full);
    let y = q.scaled();
    let k = n / 255;
    let rem = n % 255;
    assert(n == 255 * k + rem && 0 <= rem < 255);
    assert(crate::arithmetic::rounds(q, (n * w) * o, 255 * o)) by {
        reveal(Model::rounds_quotients);
    }
    crate::binary32::lemma_finite_range(Binary32::from_bits(ONE));
    let top = Binary32::largest() as int;
    assert(0 <= u * o <= 255 * o) by (nonlinear_arith)
        requires
            0 <= u <= 255,
            o >= 0,
    ;
    assert(0 <= (n * w) * o <= top * (255 * o)) by (nonlinear_arith)
        requires
            0 <= n * w <= 255 * o,
            0 <= o <= top,
    ;
    let lower = if rem <= 127 {
        k
    } else {
        k + 1
    };
    crate::binary32::lemma_representable(lower as nat, j);
    let c = choose|c: Binary32| #[trigger] c.has(lower * w);
    assert(c.is_finite());
    let a = 255 * y - n * w;
    let b = 255 * (lower * w) - n * w;
    assert(y * (255 * o) - (n * w) * o == o * a) by (nonlinear_arith)
        requires
            a == 255 * y - n * w,
    ;
    assert((lower * w) * (255 * o) - (n * w) * o == o * b) by (nonlinear_arith)
        requires
            b == 255 * (lower * w) - n * w,
    ;
    assert(-(127 * w) <= b <= 127 * w) by (nonlinear_arith)
        requires
            b == 255 * (lower * w) - n * w,
            -127 <= 255 * lower - n <= 127,
            w > 0,
    ;
    assert(-(o * (127 * w)) <= o * b <= o * (127 * w)) by (nonlinear_arith)
        requires
            -(127 * w) <= b <= 127 * w,
            o >= 0,
    ;
    assert(-(127 * w) <= a <= 127 * w) by (nonlinear_arith)
        requires
            -(o * (127 * w)) <= o * a <= o * (127 * w),
            o > 0,
    ;
    assert((n - 127) * w == n * w - 127 * w) by (nonlinear_arith);
    assert((n + 127) * w == n * w + 127 * w) by (nonlinear_arith);
    if n == 0x8000_0000 {
        if y < 0x80_8081 * w {
            lemma_next_below(q, 0x80_8081, j);
        }
    }
}

/// A channel that is taken as a strength and back is not weaker than before.
proof fn lemma_restored(m: Model, u: u8, n: int, w: int, j: nat)
    requires
        m.rounds_to_nearest(),
        w == vstd::arithmetic::power2::pow2(j),
        j <= 245,
        w > 0,
        u * one() == n * w,
        0x8000_0000 <= n <= 0xfe00_0000,
        n % 256 == 0,
    ensures
        ({
            let q = m.div(m.unsigned(u as u64), Binary32::from_bits(FULL));
            let p = m.mul(q, Binary32::from_bits(FULL));
            p.scaled() >= u * one()
        }),
{
    lemma_constants();
    lemma_strength(m, u, n, w, j);
    let o = one();
    let full = Binary32::from_bits(FULL);
    let q = m.div(m.unsigned(u as u64), full);
    let p = m.mul(q, full);
    let y = q.scaled();
    let z = p.scaled();
    assert(crate::arithmetic::rounds(p, y * (255 * o), o)) by {
        reveal(Model::rounds_products);
    }
    assert(y * (255 * o) == (255 * y) * o) by (nonlinear_arith);
    crate::binary32::lemma_representable(u as nat, 149);
    let c = choose|c: Binary32| #[trigger] c.has(u * o);
    if n == 0x8000_0000 || 255 * y >= n * w {
        assert((255 * y) * o >= (u * o) * o) by (nonlinear_arith)
            requires
                255 * y >= u * o,
                o >= 0,
        ;
        crate::arithmetic::lemma_not_below(p, y * (255 * o), o, u * o);
    } else if z < n * w {
        let k = n / 256;
        assert(n == 256 * k);
        vstd::arithmetic::power2::lemma2_to64();
        vstd::arithmetic::power2::lemma_pow2_adds(8, j);
        assert(k * (256 * w) == n * w) by (nonlinear_arith)
            requires
                n == 256 * k,
        ;
        assert((k - 1) * (256 * w) == n * w - 256 * w) by (nonlinear_arith)
            requires
                n == 256 * k,
        ;
        assert(0 * o <= y * (255 * o) && y * (255 * o) <= (255 * o) * o) by (nonlinear_arith)
            requires
                0 <= y <= o,
        ;
        m.mul_between(q, full, 0, 255 * o);
        lemma_next_below(p, k, j + 8);
        crate::binary32::lemma_finite_range(full);
        let top = Binary32::largest() as int;
        assert((255 * o) * o <= top * o) by (nonlinear_arith)
            requires
                255 * o <= top,
                o >= 0,
        ;
        assert(c.is_finite());
        assert((n - 127) * w == n * w - 127 * w) by (nonlinear_arith);
        assert(z * o - (255 * y) * o <= -(129 * w) * o) by (nonlinear_arith)
            requires
                z - 255 * y <= -(129 * w),
                o >= 0,
        ;
        assert((n * w) * o - (255 * y) * o <= (127 * w) * o) by (nonlinear_arith)
            requires
                n * w - 255 * y <= 127 * w,
                o >= 0,
        ;
        assert((n * w) * o - (255 * y) * o >= 0) by (nonlinear_arith)
            requires
                n * w - 255 * y >= 0,
                o >= 0,
        ;
        assert((127 * w) * o < (129 * w) * o) by (nonlinear_arith)
            requires
                w > 0,
                o > 0,
        ;
        assert(-(129 * w) * o == -((129 * w) * o)) by (nonlinear_arith);
    }
}

/// A channel that is taken as a strength and back is not weaker than before, whatever it was.
proof fn lemma_not_weakened(m: Model, u: u8)
    requires
        m.rounds_to_nearest(),
    ensures
        ({
            let q = m.div(m.unsigned(u as u64), Binary32::from_bits(FULL));
            m.mul(q, Binary32::from_bits(FULL)).scaled() >= u * one()
        }),
{
    lemma_constants();
    lemma_below(m, u);
    let o = one();
    let full = Binary32::from_bits(FULL);
    let q = m.div(m.unsigned(u as u64), full);
    if u == 0 {
        let y = q.scaled();
        assert(0 * o <= y * (255 * o) && y * (255 * o) <= (255 * o) * o) by (nonlinear_arith)
            requires
                0 <= y <= o,
        ;
        m.mul_between(q, full, 0, 255 * o);
    } else if u == 255 {
        m.unsigned_between(255, 255 * o, 255 * o);
        assert((255 * o) * o == o * (255 * o)) by (nonlinear_arith);
        m.div_between(m.unsigned(255), full, o, o);
        m.mul_between(q, full, 255 * o, 255 * o);
    } else {
        let e: nat = if u >= 128 {
            7
        } else if u >= 64 {
            6
        } else if u >= 32 {
            5
        } else if u >= 16 {
            4
        } else if u >= 8 {
            3
        } else if u >= 4 {
            2
        } else if u >= 2 {
            1
        } else {
            0
        };
        vstd::arithmetic::power2::lemma2_to64();
        let h = vstd::arithmetic::power2::pow2((31 - e) as nat) as int;
        let w = vstd::arithmetic::power2::pow2(118 + e) as int;
        vstd::arithmetic::power2::lemma_pow2_pos(118 + e);
        vstd::arithmetic::power2::lemma_pow2_adds((31 - e) as nat, 118 + e);
        assert(u * (h * w) == (u * h) * w) by (nonlinear_arith);
        assert(h == 0x100_0000 || h == 0x200_0000 || h == 0x400_0000 || h == 0x800_0000 || h
            == 0x1000_0000 || h == 0x2000_0000 || h == 0x4000_0000 || h == 0x8000_0000);
        let n = u * h;
        assert(0x8000_0000 <= n <= 0xfe00_0000 && n % 256 == 0);
        lemma_restored(m, u, n, w, 118 + e);
    }
}

/// Light added to a channel does not weaken it.
proof fn lemma_lit_not_weaker(m: Model, c: Binary32, u: u8)
    requires
        m.rounds_to_nearest(),
        c.is_finite(),
        0 <= c.scaled() <= 3 * Binary32::unit(),
    ensures
        m.lit(c, u) >= u,
{
    lemma_constants();
    lemma_below(m, u);
    lemma_not_weakened(m, u);
    let o = one();
    let full = Binary32::from_bits(FULL);
    let q = m.div(m.unsigned(u as u64), full);
    crate::binary32::lemma_finite_range(q);
    let s = m.add(c, q);
    m.add_between(c, q, q.scaled(), 4 * o);
    let k = s.clamped(Binary32::from_bits(ZERO), Binary32::from_bits(ONE));
    let x = q.scaled();
    let y = k.scaled();
    assert(x * (255 * o) <= y * (255 * o)) by (nonlinear_arith)
        requires
            x <= y,
            o >= 0,
    ;
    m.mul_in_order(q, full, k, full);
    assert(0 * o <= y * (255 * o) && y * (255 * o) <= (255 * o) * o) by (nonlinear_arith)
        requires
            0 <= y <= o,
    ;
    m.mul_between(k, full, 0, 255 * o);
    let level = m.mul(k, full);
    if u > 0 {
        assert(u * o > 0) by (nonlinear_arith)
            requires
                u > 0,
                o > 0,
        ;
        crate::binary32::law_rounding_brackets(level);
        let f = level.floor_nat();
        assert(f >= u) by (nonlinear_arith)
            requires
                u * o < (f + 1) * o,
                o > 0,
        ;
    }
}

/// Blending is additive: a disc takes no light from any pixel.
pub proof fn law_discs_only_add_light(
    m: Model,
    i: Instance,
    x: int,
    y: int,
    under: Pixel,
)
    requires
        m.rounds_to_nearest(),
        i.drawable(),
        0 <= x < 0x1_0000_0000,
        0 <= y < 0x1_0000_0000,
    ensures
        m.shaded(i, x, y, under).r >= under.r,
        m.shaded(i, x, y, under).g >= under.g,
        m.shaded(i, x, y, under).b >= under.b,
        m.shaded(i, x, y, under).a >= under.a,
{
    lemma_distance_is_number(m, i, x, y);
    let soft = m.falloff(m.distance(i, x, y));
    lemma_falloff(m, m.distance(i, x, y));
    lemma_light(m, i.color[0], i.color[0], soft);
    lemma_light(m, i.color[1], i.color[1], soft);
    lemma_light(m, i.color[2], i.color[2], soft);
    lemma_light(m, i.color[3], i.color[3], soft);
    lemma_lit_not_weaker(m, m.mul(i.color[0], soft), under.r);
    lemma_lit_not_weaker(m, m.mul(i.color[1], soft), under.g);
    lemma_lit_not_weaker(m, m.mul(i.color[2], soft), under.b);
    lemma_lit_not_weaker(m, m.mul(i.color[3], soft), under.a);
}

/// One disc more makes no pixel of a frame darker or more transparent.
pub proof fn law_more_discs_more_light(
    m: Model,
    instances: Seq<Instance>,
    i: Instance,
    width: u32,
    height: u32,
    x: int,
    y: int,
)
    requires
        m.rounds_to_nearest(),
        i.drawable(),
    ensures
        ({
            let before = m.painted(instances, width, height, x, y);
            let after = m.painted(instances.push(i), width, height, x, y);
            after.r >= before.r && after.g >= before.g && after.b >= before.b && after.a >= before.a
        }),
{
    let more = instances.push(i);
    assert(more.drop_last() =~= instances);
    assert(more.last() == i);
    if m.footprint(i, width, height).contains(x, y) {
        law_discs_only_add_light(m, i, x, y, m.painted(instances, width, height, x, y));
    }
}

/// How close a channel of a pixel is as a strength.
proof fn lemma_below_close(m: Model, u: u8)
    requires
        m.rounds_to_nearest(),
    ensures
        ({
            let q = m.div(m.unsigned(u as u64), Binary32::from_bits(FULL)).scaled();
            -(4080 * grain()) <= 255 * q - u * one() <= 4080 * grain()
        }),
        u == 0 ==> m.div(m.unsigned(u as u64), Binary32::from_bits(FULL)).scaled() == 0,
{
    let g = grain();
    let o = one();
    let full = Binary32::from_bits(FULL);
    assert(g > 0 && o == 0x800_0000 * g && full.has(255 * o)) by {
        lemma_constants();
    }
    lemma_below(m, u);
    assert(0 <= u * o <= 255 * o) by (nonlinear_arith)
        requires
            0 <= u <= 255,
            o >= 0,
    ;
    crate::binary32::lemma_representable(u as nat, 149);
    m.unsigned_between(u as u64, u * o, u * o);
    let x = m.unsigned(u as u64);
    let q = m.div(x, full);
    let y = x.scaled();
    assert(0 <= y * o <= o * (255 * o)) by (nonlinear_arith)
        requires
            0 <= y <= 255 * o,
            o >= 0,
    ;
    assert(0x80_0000 * (16 * g) * (255 * o) == o * (255 * o)) by (nonlinear_arith)
        requires
            o == 0x800_0000 * g,
    ;
    m.div_close(x, full, 16 * g);
    let z = 255 * q.scaled() - y;
    assert(z * o == q.scaled() * (255 * o) - y * o) by (nonlinear_arith)
        requires
            z == 255 * q.scaled() - y,
    ;
    assert((16 * g) * (255 * o) == (4080 * g) * o) by (nonlinear_arith);
    assert(z <= 4080 * g) by (nonlinear_arith)
        requires
            z * o <= (4080 * g) * o,
            o > 0,
    ;
    assert(z >= -(4080 * g)) by (nonlinear_arith)
        requires
            z * o >= -((4080 * g) * o),
            o > 0,
    ;
    if u == 0 {
        assert(0 * o == 0);
        m.div_of_zero(x, full);
    }
}

/// `level` is what a channel `under` becomes by light of strength `c`, both in units of 2^-149: 255
/// times the strength is added, up to 255, and the sum is rounded down, exactly so up to 2^-11.
pub open spec fn lightens(c: int, under: u8, level: u8) -> bool {
    let unit = Binary32::unit() as int;
    let sum = vstd::math::min(255 * c + under * unit, 255 * unit);
    &&& 0x800 * (level * unit - sum) <= unit
    &&& 0x800 * (sum - (level + 1) * unit) <= unit
    &&& under == 0 ==> 255 * c >= 255 * unit || 255 * c < (level + 1) * unit
}

/// Light adds up: a channel `under` with light of strength `c` becomes `under` plus 255 `c`, up to
/// 255, rounded down.
pub proof fn law_light_adds_up(m: Model, c: Binary32, under: u8)
    requires
        m.rounds_to_nearest(),
        c.is_finite(),
        0 <= c.scaled() <= 3 * Binary32::unit(),
    ensures
        lightens(c.scaled(), under, m.lit(c, under)),
{
    let g = grain();
    let o = one();
    let zero = Binary32::from_bits(ZERO);
    let first = Binary32::from_bits(ONE);
    let full = Binary32::from_bits(FULL);
    assert(g > 0 && o == 0x800_0000 * g && full.has(255 * o) && zero.has(0) && first.has(o)
        && Binary32::representable(0) && Binary32::representable(255 * o)
        && Binary32::representable(4 * o)) by {
        lemma_constants();
    }
    lemma_below(m, under);
    lemma_below_close(m, under);
    let q = m.div(m.unsigned(under as u64), full);
    let s = m.add(c, q);
    m.add_between(c, q, 0, 4 * o);
    m.add_close(c, q, 128 * g);
    let k = s.clamped(zero, first);
    let x = k.scaled();
    assert(0 * o <= x * (255 * o) && x * (255 * o) <= (255 * o) * o) by (nonlinear_arith)
        requires
            0 <= x <= o,
    ;
    let level = m.mul(k, full);
    m.mul_between(k, full, 0, 255 * o);
    assert(0x80_0000 * (4096 * g) * o == 256 * (o * o)) by (nonlinear_arith)
        requires
            o == 0x800_0000 * g,
    ;
    assert((255 * o) * o <= 256 * (o * o)) by (nonlinear_arith);
    m.mul_close(k, full, 4096 * g);
    let p = level.scaled();
    assert(x * (255 * o) == (255 * x) * o) by (nonlinear_arith);
    assert(p - 255 * x <= 4096 * g) by (nonlinear_arith)
        requires
            p * o - (255 * x) * o <= (4096 * g) * o,
            o > 0,
    ;
    assert(p - 255 * x >= -(4096 * g)) by (nonlinear_arith)
        requires
            p * o - (255 * x) * o >= -((4096 * g) * o),
            o > 0,
    ;
    let sum = vstd::math::min(255 * c.scaled() + under * o, 255 * o);
    assert(-(36720 * g) <= 255 * x - sum <= 36720 * g);
    let f = level.floor_nat();
    if level.is_negative() {
        assert(p == 0 && f == 0);
    } else {
        crate::binary32::law_rounding_brackets(level);
        assert(f <= 255) by (nonlinear_arith)
            requires
                f * o <= 255 * o,
                o > 0,
        ;
        assert((f + 1) * o == f * o + o) by (nonlinear_arith);
    }
    assert(m.lit(c, under) == f);
    assert((f + 1) * o == f * o + o) by (nonlinear_arith);
    assert(f * o <= p < f * o + o);
    if under == 0 && c.scaled() < o {
        // nothing is lost on a blank channel
        crate::binary32::lemma_finite_range(c);
        assert(under * o == 0) by (nonlinear_arith)
            requires
                under == 0,
        ;
        m.add_between(c, q, c.scaled(), c.scaled());
        assert(x == c.scaled());
        if 255 * c.scaled() >= (f + 1) * o {
            crate::binary32::lemma_representable((f + 1) as nat, 149);
            m.mul_rounds(k, full);
            assert(x * (255 * o) >= ((f + 1) * o) * o) by (nonlinear_arith)
                requires
                    255 * x >= (f + 1) * o,
                    o >= 0,
            ;
            crate::arithmetic::lemma_not_below(level, x * (255 * o), o, (f + 1) * o);
        }
    }
}

/// `soft` is the strength of a disc at the distance `d`, in sizes of the disc: full up to 0.10, none
/// from 0.55 on, and between them the smooth step `t` `t` (3 - 2 `t`) for the share `t` of the way
/// from 0.55 to 0.10, exactly so up to 2^-19, with `t` exact up to 2^-20.
pub open spec fn softens(d: Binary32, soft: Binary32) -> bool {
    let unit = Binary32::unit() as int;
    let inner = 0xcc_cccd * vstd::arithmetic::power2::pow2(122);
    let outer = 0x8c_cccd * vstd::arithmetic::power2::pow2(125);
    if d.scaled() >= outer {
        soft.has(0)
    } else if d.scaled() <= inner {
        soft.has(unit)
    } else {
        exists|t: Binary32|
            #![trigger t.is_finite()]
            t.is_finite() && 0 <= t.scaled() <= unit && 0x10_0000 * vstd::math::abs(
                9 * t.scaled() - (11 * unit - 20 * d.scaled()),
            ) <= 9 * unit && soft.is_finite() && 0x8_0000 * vstd::math::abs(
                soft.scaled() * unit * unit - t.scaled() * t.scaled() * (3 * unit - 2
                    * t.scaled()),
            ) <= unit * unit * unit
    }
}

/// The way from the outer edge to the inner one.
proof fn lemma_way_in(m: Model, d: Binary32)
    requires
        m.rounds_to_nearest(),
        d.is_finite(),
        0xcc_cccd * grain() < d.scaled() < 0x466_6668 * grain(),
    ensures
        ({
            let t = m.div(
                m.sub(d, Binary32::from_bits(OUTER_EDGE)),
                m.sub(Binary32::from_bits(INNER_EDGE), Binary32::from_bits(OUTER_EDGE)),
            );
            &&& t.is_finite()
            &&& 0 <= t.scaled() <= one()
            &&& -(1152 * grain()) <= 9 * t.scaled() - (11 * one() - 20 * d.scaled()) <= 1152
                * grain()
        }),
{
    let g = grain();
    let o = one();
    let inner = Binary32::from_bits(INNER_EDGE);
    let outer = Binary32::from_bits(OUTER_EDGE);
    assert(g > 0 && o == 0x800_0000 * g && inner.has(0xcc_cccd * g) && outer.has(0x466_6668 * g)
        && Binary32::representable(0) && Binary32::representable(o) && Binary32::representable(-o)
        && Binary32::representable(-(0x200_0000 * g))) by {
        lemma_constants();
    }
    let num = m.sub(d, outer);
    let den = m.sub(inner, outer);
    m.sub_between(d, outer, -o, 0);
    m.sub_between(inner, outer, -o, -(0x200_0000 * g));
    m.sub_in_order(inner, outer, d, outer);
    m.sub_close(d, outer, 16 * g);
    m.sub_close(inner, outer, 16 * g);
    let t = m.div(num, den);
    let u = num.scaled();
    let v = den.scaled();
    assert(0 * v >= u * o && u * o >= o * v) by (nonlinear_arith)
        requires
            v <= u <= 0,
            o >= 0,
    ;
    m.div_between_negative(num, den, 0, o);
    assert(0x80_0000 * (16 * g) * -v == -(o * v)) by (nonlinear_arith)
        requires
            o == 0x800_0000 * g,
    ;
    m.div_close_negative(num, den, 16 * g);
    let w = t.scaled();
    let x = d.scaled();
    // (0.55 - d) of 0.45, in grains
    let e = -v - 0x399_999b * g;
    assert(-(16 * g) <= e <= 16 * g);
    let f = -u - (0x466_6668 * g - x);
    assert(-(16 * g) <= f <= 16 * g);
    assert(w * -v == w * (0x399_999b * g) + w * e) by (nonlinear_arith)
        requires
            e == -v - 0x399_999b * g,
    ;
    assert(-(u * o) == (0x466_6668 * g - x) * o + f * o) by (nonlinear_arith)
        requires
            f == -u - (0x466_6668 * g - x),
    ;
    assert(-((16 * g) * o) <= w * e <= (16 * g) * o) by (nonlinear_arith)
        requires
            -(16 * g) <= e <= 16 * g,
            0 <= w <= o,
            g > 0,
    ;
    assert(-((16 * g) * o) <= f * o <= (16 * g) * o) by (nonlinear_arith)
        requires
            -(16 * g) <= f <= 16 * g,
            o >= 0,
    ;
    assert((16 * g) * -v <= (16 * g) * o) by (nonlinear_arith)
        requires
            -v <= o,
            g > 0,
    ;
    let z = 0x399_999b * w - 0x800_0000 * (0x466_6668 * g - x);
    assert(z * g == w * (0x399_999b * g) - (0x466_6668 * g - x) * o) by (nonlinear_arith)
        requires
            o == 0x800_0000 * g,
            z == 0x399_999b * w - 0x800_0000 * (0x466_6668 * g - x),
    ;
    assert((48 * 0x800_0000 * g) * g == 3 * ((16 * g) * o)) by (nonlinear_arith)
        requires
            o == 0x800_0000 * g,
    ;
    assert(z <= 48 * 0x800_0000 * g) by (nonlinear_arith)
        requires
            z * g <= (48 * 0x800_0000 * g) * g,
            g > 0,
    ;
    assert(z >= -(48 * 0x800_0000 * g)) by (nonlinear_arith)
        requires
            z * g >= -((48 * 0x800_0000 * g) * g),
            g > 0,
    ;
    assert(-(1152 * g) <= 9 * w - (11 * o - 20 * x) <= 1152 * g) by (nonlinear_arith)
        requires
            z == 0x399_999b * w - 0x800_0000 * (0x466_6668 * g - x),
            -(48 * 0x800_0000 * g) <= z <= 48 * 0x800_0000 * g,
            o == 0x800_0000 * g,
            0 <= w <= o,
            0 <= x <= 0x466_6668 * g,
            g > 0,
    ;
}

/// The smooth step of a share.
proof fn lemma_smooth(m: Model, t: Binary32)
    requires
        m.rounds_to_nearest(),
        t.is_finite(),
        0 <= t.scaled() <= one(),
    ensures
        ({
            let soft = m.mul(
                m.mul(t, t),
                m.sub(Binary32::from_bits(THREE), m.mul(Binary32::from_bits(TWO), t)),
            );
            let w = t.scaled();
            &&& soft.is_finite()
            &&& -(256 * grain() * (one() * one())) <= soft.scaled() * one() * one() - w * w * (3
                * one() - 2 * w) <= 256 * grain() * (one() * one())
        }),
{
    let g = grain();
    let o = one();
    let two = Binary32::from_bits(TWO);
    let three = Binary32::from_bits(THREE);
    assert(g > 0 && o == 0x800_0000 * g && two.has(2 * o) && three.has(3 * o)
        && Binary32::representable(0) && Binary32::representable(o) && Binary32::representable(
        2 * o,
    ) && Binary32::representable(3 * o)) by {
        lemma_constants();
    }
    let w = t.scaled();
    let oo = o * o;
    assert(0 * o <= w * w && w * w <= oo) by (nonlinear_arith)
        requires
            0 <= w <= o,
            oo == o * o,
    ;
    assert(0x80_0000 * (16 * g) * o == oo) by (nonlinear_arith)
        requires
            o == 0x800_0000 * g,
            oo == o * o,
    ;
    assert(0x80_0000 * (64 * g) * o == 4 * oo) by (nonlinear_arith)
        requires
            o == 0x800_0000 * g,
            oo == o * o,
    ;
    let t2 = m.mul(t, t);
    m.mul_between(t, t, 0, o);
    m.mul_close(t, t, 16 * g);
    assert(0 * o <= (2 * o) * w && (2 * o) * w <= (2 * o) * o) by (nonlinear_arith)
        requires
            0 <= w <= o,
    ;
    crate::binary32::lemma_finite_range(t);
    let double = m.mul(two, t);
    m.mul_between(two, t, 0, 2 * o);
    assert((2 * o) * o == 2 * oo) by (nonlinear_arith)
        requires
            oo == o * o,
    ;
    m.mul_close(two, t, 64 * g);
    assert((2 * o) * w == (2 * w) * o) by (nonlinear_arith);
    let v = double.scaled();
    assert(v - 2 * w <= 64 * g) by (nonlinear_arith)
        requires
            v * o - (2 * w) * o <= (64 * g) * o,
            o > 0,
    ;
    assert(v - 2 * w >= -(64 * g)) by (nonlinear_arith)
        requires
            v * o - (2 * w) * o >= -((64 * g) * o),
            o > 0,
    ;
    let s = m.sub(three, double);
    m.sub_between(three, double, 0, 3 * o);
    m.sub_close(three, double, 64 * g);
    let a = t2.scaled();
    let b = s.scaled();
    assert(0 * o <= a * b && a * b <= (3 * o) * o) by (nonlinear_arith)
        requires
            0 <= a <= o,
            0 <= b <= 3 * o,
    ;
    assert((3 * o) * o == 3 * oo) by (nonlinear_arith)
        requires
            oo == o * o,
    ;
    m.mul_close(t2, s, 64 * g);
    let c = m.mul(t2, s).scaled();
    // a * o is w * w, and b is 3 o - 2 w
    let e = a * o - w * w;
    let f = b - (3 * o - 2 * w);
    assert(-(16 * g * o) <= e <= 16 * g * o);
    assert(-(128 * g) <= f <= 128 * g);
    let q = c * o - a * b;
    assert(-(64 * g * o) <= q <= 64 * g * o);
    assert(c * o * o - w * w * (3 * o - 2 * w) == q * o + a * o * f + e * (3 * o - 2 * w))
        by (nonlinear_arith)
        requires
            q == c * o - a * b,
            e == a * o - w * w,
            f == b - (3 * o - 2 * w),
    ;
    assert(-(64 * (g * oo)) <= q * o <= 64 * (g * oo)) by (nonlinear_arith)
        requires
            -(64 * g * o) <= q <= 64 * g * o,
            oo == o * o,
            o >= 0,
    ;
    assert(-(128 * (g * oo)) <= a * o * f <= 128 * (g * oo)) by (nonlinear_arith)
        requires
            -(128 * g) <= f <= 128 * g,
            0 <= a <= o,
            oo == o * o,
            g > 0,
    {
        assert(0 <= a * o <= oo) by (nonlinear_arith)
            requires
                0 <= a <= o,
                oo == o * o,
        ;
        let y = a * o;
        assert(y * f <= 128 * (g * oo)) by (nonlinear_arith)
            requires
                0 <= y <= oo,
                -(128 * g) <= f <= 128 * g,
                g > 0,
        ;
        assert(y * f >= -(128 * (g * oo))) by (nonlinear_arith)
            requires
                0 <= y <= oo,
                -(128 * g) <= f <= 128 * g,
                g > 0,
        ;
    }
    assert(-(48 * (g * oo)) <= e * (3 * o - 2 * w) <= 48 * (g * oo)) by (nonlinear_arith)
        requires
            -(16 * g * o) <= e <= 16 * g * o,
            0 <= w <= o,
            oo == o * o,
            g > 0,
    {
        let y = 3 * o - 2 * w;
        assert(0 <= y <= 3 * o);
        let go = g * o;
        assert(e * y <= 48 * (go * o)) by (nonlinear_arith)
            requires
                -(16 * go) <= e <= 16 * go,
                0 <= y <= 3 * o,
                go >= 0,
        ;
        assert(e * y >= -(48 * (go * o))) by (nonlinear_arith)
            requires
                -(16 * go) <= e <= 16 * go,
                0 <= y <= 3 * o,
                go >= 0,
        ;
        assert(go * o == g * oo) by (nonlinear_arith)
            requires
                go == g * o,
                oo == o * o,
        ;
    }
    assert(256 * g * oo == 256 * (g * oo)) by (nonlinear_arith);
    assert(g * oo >= 0) by (nonlinear_arith)
        requires
            g > 0,
            oo == o * o,
    ;
}

/// The strength of a disc falls off smoothly with the distance.
pub proof fn law_strength_by_distance(m: Model, d: Binary32)
    requires
        m.rounds_to_nearest(),
        !d.is_nan(),
    ensures
        softens(d, m.falloff(d)),
{
    let g = grain();
    let o = one();
    let inner = Binary32::from_bits(INNER_EDGE);
    let outer = Binary32::from_bits(OUTER_EDGE);
    assert(g > 0 && o == 0x800_0000 * g && inner.has(0xcc_cccd * g) && outer.has(0x466_6668 * g)
        && Binary32::from_bits(ZERO).has(0) && Binary32::from_bits(ONE).has(o)) by {
        lemma_constants();
    }
    assert(0x8c_cccd * vstd::arithmetic::power2::pow2(125) == 0x466_6668 * g) by {
        vstd::arithmetic::power2::lemma2_to64();
        vstd::arithmetic::power2::lemma_pow2_adds(3, 122);
    }
    if inner.less(d) && d.less(outer) {
        crate::binary32::lemma_finite_range(d);
        crate::binary32::lemma_finite_range(outer);
        let t = m.div(m.sub(d, outer), m.sub(inner, outer));
        lemma_way_in(m, d);
        lemma_smooth(m, t);
        let soft = m.falloff(d);
        let oo = o * o;
        assert(0x8_0000 * (256 * g * oo) == o * o * o) by (nonlinear_arith)
            requires
                o == 0x800_0000 * g,
                oo == o * o,
        ;
        assert(t.is_finite());
    }
}

} // verus!
