//! What holds of the gradient that a particle runs through, with rounding to nearest.
//!
//! A particle ages from 0 to 1, is opaque up to 0.70, and then fades. Its color, with the opacity
//! multiplied in, is always one that can be blended.
use vstd::prelude::*;

use crate::arithmetic::Model;
use crate::binary32::{Binary32, ONE, ZERO};
use crate::particles::{
    orange, red, yellow, Particle, Stage, FADE_SPAN, ORANGE_AGE, ORANGE_SPAN, RED_AGE,
};

verus! {

/// The pattern of the largest number below 1.
const BELOW_ONE: u32 = 0x3f7f_ffff;

/// The pattern of the smallest number above 0.70.
const ABOVE_RED: u32 = 0x3f33_3334;

/// A quarter of the distance between the numbers just below 1.
spec fn grain() -> int {
    vstd::arithmetic::power2::pow2(124) as int
}

/// The ages at which the gradient turns, in grains.
proof fn lemma_ages()
    ensures
        grain() > 0,
        Binary32::unit() == 0x200_0000 * grain(),
        Binary32::from_bits(ZERO).has(0),
        Binary32::from_bits(ONE).has(0x200_0000 * grain()),
        Binary32::from_bits(ORANGE_AGE).has(0x99_999a * grain()),
        Binary32::from_bits(ORANGE_SPAN).has(0xcc_cccd * grain()),
        Binary32::from_bits(RED_AGE).has(0x166_6666 * grain()),
        Binary32::from_bits(ABOVE_RED).has(0x166_6668 * grain()),
        Binary32::from_bits(FADE_SPAN).has(0x99_999a * grain()),
        Binary32::from_bits(BELOW_ONE).has(0x1ff_fffe * grain()),
        Binary32::representable(0),
        Binary32::representable(2 * grain()),
        Binary32::representable(0x99_9998 * grain()),
        Binary32::representable(0x99_999a * grain()),
        Binary32::representable(0xcc_cccd * grain()),
        Binary32::representable(0x1ff_fffe * grain()),
        Binary32::representable(0x200_0000 * grain()),
{
    vstd::arithmetic::power2::lemma_pow2_pos(124);
    vstd::arithmetic::power2::lemma_pow2_unfold(126);
    vstd::arithmetic::power2::lemma_pow2_unfold(125);
    crate::binary32::lemma_one();
    let g = grain();
    let zero = Binary32::from_bits(ZERO);
    let one = Binary32::from_bits(ONE);
    let below = Binary32::from_bits(BELOW_ONE);
    assert(0x80_0000 * (2 * (2 * g)) == 0x200_0000 * g) by (nonlinear_arith);
    assert(0xff_ffff * (2 * g) == 0x1ff_fffe * g) by (nonlinear_arith);
    assert(0xb3_3333 * (2 * g) == 0x166_6666 * g) by (nonlinear_arith);
    assert(0xb3_3334 * (2 * g) == 0x166_6668 * g) by (nonlinear_arith);
    assert(zero.has(0));
    assert(one.exponent() == 127 && one.fraction() == 0);
    assert(one.has(0x200_0000 * grain()));
    let span = Binary32::from_bits(ORANGE_SPAN);
    assert(span.exponent() == 125 && span.fraction() == 0x4c_cccd);
    assert(span.has(0xcc_cccd * grain()));
    let age = Binary32::from_bits(ORANGE_AGE);
    assert(age.exponent() == 125 && age.fraction() == 0x19_999a);
    assert(age.has(0x99_999a * grain()));
    let turn = Binary32::from_bits(RED_AGE);
    assert(turn.exponent() == 126 && turn.fraction() == 0x33_3333);
    let after = Binary32::from_bits(ABOVE_RED);
    assert(after.exponent() == 126 && after.fraction() == 0x33_3334);
    assert(below.exponent() == 126 && below.fraction() == 0x7f_ffff);
    assert(below.has(0x1ff_fffe * grain()));
    crate::binary32::lemma_representable(2, 124);
    crate::binary32::lemma_representable(0x99_9998, 124);
}

/// The opacity is full up to 0.70 and not after it, and none at 1 and not before it.
proof fn lemma_opacity(m: Model, t: Binary32)
    requires
        m.rounds_to_nearest(),
        t.is_finite(),
        0 <= t.scaled() <= Binary32::unit(),
    ensures
        m.opacity(t).is_finite(),
        0 <= m.opacity(t).scaled() <= Binary32::unit(),
        m.opacity(t).scaled() == Binary32::unit() <==> t.scaled() <= Binary32::from_bits(
            RED_AGE,
        ).scaled(),
        m.opacity(t).scaled() == 0 <==> t.scaled() == Binary32::unit(),
        Stage::at(t) == Stage::Fading ==> m.opacity(t) == m.sub(
            Binary32::from_bits(ONE),
            m.div(m.sub(t, Binary32::from_bits(RED_AGE)), Binary32::from_bits(FADE_SPAN)),
        ),
        Stage::at(t) == Stage::Fading ==> ({
            let d = m.sub(t, Binary32::from_bits(RED_AGE));
            let k = m.div(d, Binary32::from_bits(FADE_SPAN));
            d.is_finite() && k.is_finite()
        }),
{
    lemma_ages();
    let g = grain();
    let one = Binary32::from_bits(ONE);
    let turn = Binary32::from_bits(RED_AGE);
    let span = Binary32::from_bits(FADE_SPAN);
    if Stage::at(t) == Stage::Fading {
        let d_lo = if t.scaled() > turn.scaled() {
            2 * g
        } else {
            0
        };
        let d_hi = if t.scaled() < one.scaled() {
            0x99_9998 * g
        } else {
            0x99_999a * g
        };
        if t.scaled() > turn.scaled() {
            crate::binary32::law_patterns_order_numbers(turn, t);
            crate::binary32::law_patterns_order_numbers(Binary32::from_bits(ABOVE_RED), t);
        }
        if t.scaled() < one.scaled() {
            crate::binary32::law_patterns_order_numbers(t, one);
            crate::binary32::law_patterns_order_numbers(t, Binary32::from_bits(BELOW_ONE));
        }
        let d = m.sub(t, turn);
        m.sub_between(t, turn, d_lo, d_hi);
        let k_lo = d_lo;
        let k_hi = if t.scaled() < one.scaled() {
            0x1ff_fffe * g
        } else {
            0x200_0000 * g
        };
        let k = m.div(d, span);
        let x = d.scaled();
        assert(k_lo * (0x99_999a * g) <= x * (0x200_0000 * g)) by (nonlinear_arith)
            requires
                0 <= k_lo <= x,
                g > 0,
        ;
        assert(x * (0x200_0000 * g) <= k_hi * (0x99_999a * g)) by (nonlinear_arith)
            requires
                x <= d_hi,
                g > 0,
                (d_hi == 0x99_9998 * g && k_hi == 0x1ff_fffe * g) || (d_hi == 0x99_999a * g && k_hi
                    == 0x200_0000 * g),
        ;
        m.div_between(d, span, k_lo, k_hi);
        m.sub_between(
            one,
            k,
            if t.scaled() < one.scaled() {
                2 * g
            } else {
                0
            },
            if t.scaled() > turn.scaled() {
                0x1ff_fffe * g
            } else {
                0x200_0000 * g
            },
        );
        if t.scaled() == turn.scaled() {
            m.sub_between(t, turn, 0, 0);
            m.div_of_zero(d, span);
            m.sub_between(one, k, 0x200_0000 * g, 0x200_0000 * g);
        }
        if t.scaled() == one.scaled() {
            m.sub_between(t, turn, 0x99_999a * g, 0x99_999a * g);
            assert((0x99_999a * g) * (0x200_0000 * g) == (0x200_0000 * g) * (0x99_999a * g))
                by (nonlinear_arith);
            m.div_between(d, span, 0x200_0000 * g, 0x200_0000 * g);
            m.sub_between(one, k, 0, 0);
        }
    }
}

/// A normalized age is a number between 0 and 1, and where the age is not negative it is 1 for the
/// dead and for no other.
pub proof fn law_normalized_age(p: Particle, m: Model)
    requires
        m.rounds_to_nearest(),
        p.age.is_finite(),
        p.lifetime.is_finite(),
    ensures
        p.ripeness(m).is_finite(),
        0 <= p.ripeness(m).scaled() <= Binary32::unit(),
        p.age.scaled() >= 0 ==> (p.ripeness(m).scaled() == Binary32::unit() <==> p.dead()),
{
    lemma_ages();
    let g = grain();
    let one = Binary32::unit() as int;
    let x = p.age.scaled();
    let y = p.lifetime.scaled();
    if y > 0 {
        let d = m.div(p.age, p.lifetime);
        assert(crate::arithmetic::rounds(d, x * one, y)) by {
            reveal(Model::rounds_quotients);
        }
        if x >= y {
            assert(x * one >= one * y) by (nonlinear_arith)
                requires
                    x >= y,
                    one >= 0,
            ;
            crate::arithmetic::lemma_not_below(d, x * one, y, one);
        } else if x >= 0 {
            crate::binary32::lemma_gap(p.age, p.lifetime);
            assert(x * one <= (0x1ff_fffe * g) * y) by (nonlinear_arith)
                requires
                    x * 0x100_0000 <= y * 0xff_ffff,
                    one == 0x200_0000 * g,
                    g > 0,
            ;
            crate::arithmetic::lemma_not_above(d, x * one, y, 0x1ff_fffe * g);
        }
        crate::binary32::lemma_finite_range(d);
        crate::binary32::lemma_finite_range(Binary32::from_bits(ONE));
    }
}

/// Fading out is what ends a particle, and nothing else does: the opacity lies between 0 and 1, is
/// full up to a normalized age of 0.70 and not after it, and is none for the dead and for no other.
pub proof fn law_opacity_tells_age(p: Particle, m: Model)
    requires
        m.rounds_to_nearest(),
        p.age.is_finite(),
        p.lifetime.is_finite(),
        p.age.scaled() >= 0,
    ensures
        p.glow(m).a.is_finite(),
        0 <= p.glow(m).a.scaled() <= Binary32::unit(),
        p.glow(m).a.scaled() == Binary32::unit() <==> p.ripeness(m).at_most(
            Binary32::from_bits(RED_AGE),
        ),
        p.glow(m).a.scaled() == 0 <==> p.dead(),
{
    law_normalized_age(p, m);
    lemma_opacity(m, p.ripeness(m));
    lemma_ages();
}

/// Whatever the arithmetic and the particle, a normalized age and an opacity that are numbers lie
/// between 0 and 1, and a particle is opaque until it fades.
pub proof fn law_shares_in_range(p: Particle, m: Model)
    ensures
        p.ripeness(m).is_nan() || (Binary32::from_bits(ZERO).at_most(p.ripeness(m)) && p.ripeness(
            m,
        ).at_most(Binary32::from_bits(ONE))),
        p.glow(m).a.is_nan() || (Binary32::from_bits(ZERO).at_most(p.glow(m).a) && p.glow(
            m,
        ).a.at_most(Binary32::from_bits(ONE))),
        Stage::at(p.ripeness(m)) != Stage::Fading ==> p.glow(m).a == Binary32::from_bits(ONE),
{
    lemma_ages();
}

/// A particle runs through the gradient in one direction: growing older never leads back to an
/// earlier stage.
pub proof fn law_stages_in_order(s: Binary32, t: Binary32)
    requires
        s.at_most(t),
    ensures
        Stage::at(s).place() <= Stage::at(t).place(),
{
}

/// A particle never grows less transparent: of two particles of the same lifetime, the older one is
/// no more opaque than the younger one.
pub proof fn law_opacity_never_rises(p: Particle, q: Particle, m: Model)
    requires
        m.rounds_to_nearest(),
        p.age.is_finite(),
        q.age.is_finite(),
        p.lifetime.is_finite(),
        p.lifetime.scaled() > 0,
        q.lifetime == p.lifetime,
        0 <= p.age.scaled() <= q.age.scaled(),
    ensures
        p.ripeness(m).at_most(q.ripeness(m)),
        q.glow(m).a.at_most(p.glow(m).a),
{
    lemma_ages();
    let g = grain();
    let one = Binary32::from_bits(ONE);
    let turn = Binary32::from_bits(RED_AGE);
    let span = Binary32::from_bits(FADE_SPAN);
    let life = p.lifetime.scaled();
    let x = p.age.scaled();
    let y = q.age.scaled();
    assert(x * life <= y * life) by (nonlinear_arith)
        requires
            x <= y,
            life > 0,
    ;
    m.div_in_order(p.age, p.lifetime, q.age, q.lifetime);
    law_normalized_age(p, m);
    law_normalized_age(q, m);
    let s = p.ripeness(m);
    let t = q.ripeness(m);
    assert(crate::arithmetic::rounds(m.div(p.age, p.lifetime), x * Binary32::unit(), life)) by {
        reveal(Model::rounds_quotients);
    }
    assert(crate::arithmetic::rounds(m.div(q.age, q.lifetime), y * Binary32::unit(), life)) by {
        reveal(Model::rounds_quotients);
    }
    lemma_opacity(m, s);
    lemma_opacity(m, t);
    if Stage::at(s) == Stage::Fading {
        let c = m.sub(s, turn);
        let d = m.sub(t, turn);
        m.sub_in_order(s, turn, t, turn);
        let u = c.scaled();
        let v = d.scaled();
        assert(u * (0x99_999a * g) <= v * (0x99_999a * g)) by (nonlinear_arith)
            requires
                u <= v,
                g > 0,
        ;
        m.div_in_order(c, span, d, span);
        m.sub_in_order(one, m.div(d, span), one, m.div(c, span));
    }
}

/// On the way from `a` down to `b` a channel stays between none and `a`.
proof fn lemma_mix_between(m: Model, a: Binary32, b: Binary32, k: Binary32)
    requires
        m.rounds_to_nearest(),
        a.is_finite(),
        b.is_finite(),
        k.is_finite(),
        0 <= b.scaled() <= a.scaled(),
        0 <= k.scaled() <= Binary32::unit(),
    ensures
        m.mix(a, b, k).is_finite(),
        0 <= m.mix(a, b, k).scaled() <= a.scaled(),
        k.scaled() == 0 ==> m.mix(a, b, k).scaled() == a.scaled(),
{
    lemma_ages();
    crate::binary32::lemma_finite_range(a);
    let top = a.scaled();
    let one = Binary32::unit() as int;
    let d = m.sub(b, a);
    m.sub_between(b, a, -top, 0);
    let x = d.scaled();
    let y = k.scaled();
    assert(-top * one <= x * y <= 0) by (nonlinear_arith)
        requires
            -top <= x <= 0,
            0 <= y <= one,
    ;
    let e = m.mul(d, k);
    m.mul_between(d, k, -top, 0);
    m.add_between(a, e, 0, top);
    if y == 0 {
        assert(x * y == 0) by (nonlinear_arith)
            requires
                y == 0,
        ;
        m.mul_between(d, k, 0, 0);
        m.add_between(a, e, top, top);
    }
}

/// The colors of the gradient fall from yellow through orange to red in every channel.
proof fn lemma_colors_fall()
    ensures
        Binary32::unit() == yellow().r.scaled(),
        Binary32::unit() == orange().r.scaled(),
        0 <= red().r.scaled() <= orange().r.scaled(),
        0 <= red().g.scaled() <= orange().g.scaled() <= yellow().g.scaled() <= Binary32::unit(),
        0 <= red().b.scaled() <= orange().b.scaled() <= yellow().b.scaled() <= Binary32::unit(),
        yellow().r.is_finite() && yellow().g.is_finite() && yellow().b.is_finite(),
        orange().r.is_finite() && orange().g.is_finite() && orange().b.is_finite(),
        red().r.is_finite() && red().g.is_finite() && red().b.is_finite(),
{
    crate::binary32::lemma_one();
    crate::binary32::law_patterns_order_numbers(red().r, orange().r);
    crate::binary32::law_patterns_order_numbers(red().g, orange().g);
    crate::binary32::law_patterns_order_numbers(red().b, orange().b);
    crate::binary32::law_patterns_order_numbers(orange().g, yellow().g);
    crate::binary32::law_patterns_order_numbers(orange().b, yellow().b);
    crate::binary32::law_patterns_order_numbers(yellow().g, yellow().r);
    crate::binary32::law_patterns_order_numbers(yellow().b, yellow().r);
}

/// How far the color has come from yellow to orange.
proof fn lemma_way_to_orange(m: Model, t: Binary32)
    requires
        m.rounds_to_nearest(),
        t.is_finite(),
        0 <= t.scaled() < Binary32::from_bits(ORANGE_AGE).scaled(),
    ensures
        ({
            let k = m.div(t, Binary32::from_bits(ORANGE_AGE));
            &&& k.is_finite()
            &&& 0 <= k.scaled() <= Binary32::unit()
            &&& t.scaled() == 0 ==> k.scaled() == 0
        }),
{
    lemma_ages();
    let g = grain();
    let one = Binary32::unit() as int;
    let x = t.scaled();
    let age = Binary32::from_bits(ORANGE_AGE);
    assert(0 <= x * one <= one * (0x99_999a * g)) by (nonlinear_arith)
        requires
            0 <= x <= 0x99_999a * g,
            0 <= one,
    ;
    m.div_between(t, age, 0, one);
    if x == 0 {
        m.div_of_zero(t, age);
    }
}

/// How far the color has come from orange to red.
proof fn lemma_way_to_red(m: Model, t: Binary32)
    requires
        m.rounds_to_nearest(),
        t.is_finite(),
        Binary32::from_bits(ORANGE_AGE).scaled() <= t.scaled() < Binary32::from_bits(
            RED_AGE,
        ).scaled(),
    ensures
        ({
            let k = m.div(
                m.sub(t, Binary32::from_bits(ORANGE_AGE)),
                Binary32::from_bits(ORANGE_SPAN),
            );
            &&& k.is_finite()
            &&& 0 <= k.scaled() <= Binary32::unit()
            &&& t.scaled() == Binary32::from_bits(ORANGE_AGE).scaled() ==> k.scaled() == 0
        }),
{
    lemma_ages();
    let g = grain();
    let one = Binary32::unit() as int;
    let age = Binary32::from_bits(ORANGE_AGE);
    let span = Binary32::from_bits(ORANGE_SPAN);
    let d = m.sub(t, age);
    m.sub_between(t, age, 0, 0xcc_cccd * g);
    let y = d.scaled();
    assert(0 <= y * one <= one * (0xcc_cccd * g)) by (nonlinear_arith)
        requires
            0 <= y <= 0xcc_cccd * g,
            0 <= one,
    ;
    m.div_between(d, span, 0, one);
    if t.scaled() == age.scaled() {
        m.sub_between(t, age, 0, 0);
        m.div_of_zero(d, span);
    }
}

/// The hue is a color between none and full, and exactly the one that a turn starts with.
proof fn lemma_hue(m: Model, t: Binary32)
    requires
        m.rounds_to_nearest(),
        t.is_finite(),
        0 <= t.scaled() <= Binary32::unit(),
    ensures
        m.hue(t).r.is_finite() && 0 <= m.hue(t).r.scaled() <= Binary32::unit(),
        m.hue(t).g.is_finite() && 0 <= m.hue(t).g.scaled() <= Binary32::unit(),
        m.hue(t).b.is_finite() && 0 <= m.hue(t).b.scaled() <= Binary32::unit(),
        t.scaled() == 0 ==> m.hue(t).r.scaled() == yellow().r.scaled() && m.hue(t).g.scaled()
            == yellow().g.scaled() && m.hue(t).b.scaled() == yellow().b.scaled(),
        t.scaled() == Binary32::from_bits(ORANGE_AGE).scaled() ==> m.hue(t).r.scaled()
            == orange().r.scaled() && m.hue(t).g.scaled() == orange().g.scaled() && m.hue(
            t,
        ).b.scaled() == orange().b.scaled(),
{
    assert(0 < Binary32::from_bits(ORANGE_AGE).scaled() < Binary32::from_bits(RED_AGE).scaled())
        by {
        lemma_ages();
    }
    lemma_colors_fall();
    assert(Binary32::from_bits(ORANGE_AGE).is_finite() && Binary32::from_bits(RED_AGE).is_finite());
    if t.scaled() < Binary32::from_bits(ORANGE_AGE).scaled() {
        let k = m.div(t, Binary32::from_bits(ORANGE_AGE));
        assert(Stage::at(t) == Stage::Bright);
        assert(m.hue(t) == m.mix_color(yellow(), orange(), k));
        lemma_way_to_orange(m, t);
        lemma_mix_between(m, yellow().r, orange().r, k);
        lemma_mix_between(m, yellow().g, orange().g, k);
        lemma_mix_between(m, yellow().b, orange().b, k);
    } else if t.scaled() < Binary32::from_bits(RED_AGE).scaled() {
        let k = m.div(
            m.sub(t, Binary32::from_bits(ORANGE_AGE)),
            Binary32::from_bits(ORANGE_SPAN),
        );
        assert(Stage::at(t) == Stage::Dim);
        assert(m.hue(t) == m.mix_color(orange(), red(), k));
        lemma_way_to_red(m, t);
        lemma_mix_between(m, orange().r, red().r, k);
        lemma_mix_between(m, orange().g, red().g, k);
        lemma_mix_between(m, orange().b, red().b, k);
    } else {
        assert(m.hue(t) == red());
    }
}

/// A channel with an opacity multiplied in is not above the opacity; full opacity changes nothing,
/// and none leaves nothing.
proof fn lemma_opacity_multiplied(m: Model, c: Binary32, alpha: Binary32)
    requires
        m.rounds_to_nearest(),
        c.is_finite(),
        alpha.is_finite(),
        0 <= c.scaled() <= Binary32::unit(),
        0 <= alpha.scaled() <= Binary32::unit(),
    ensures
        m.mul(c, alpha).is_finite(),
        0 <= m.mul(c, alpha).scaled() <= alpha.scaled(),
        alpha.scaled() == Binary32::unit() ==> m.mul(c, alpha).has(c.scaled()),
{
    lemma_ages();
    crate::binary32::lemma_finite_range(alpha);
    crate::binary32::lemma_finite_range(c);
    let x = c.scaled();
    let y = alpha.scaled();
    let one = Binary32::unit() as int;
    assert(0 <= x * y <= y * one) by (nonlinear_arith)
        requires
            0 <= x <= one,
            0 <= y,
    ;
    m.mul_between(c, alpha, 0, y);
    if y == one {
        m.mul_between(c, alpha, x, x);
    }
}

/// The color of a particle can be blended: whatever its age and lifetime, every channel is a number
/// between none and the opacity, and the opacity is full at most.
pub proof fn law_colors_are_premultiplied(p: Particle, m: Model)
    requires
        m.rounds_to_nearest(),
        p.age.is_finite(),
        p.lifetime.is_finite(),
    ensures
        p.glow(m).premultiplied(),
{
    law_normalized_age(p, m);
    let t = p.ripeness(m);
    lemma_opacity(m, t);
    lemma_hue(m, t);
    lemma_opacity_multiplied(m, m.hue(t).r, m.opacity(t));
    lemma_opacity_multiplied(m, m.hue(t).g, m.opacity(t));
    lemma_opacity_multiplied(m, m.hue(t).b, m.opacity(t));
}

/// The color runs from yellow through orange and red to transparent: it is exactly that at the
/// start of a life, at the two turns and at the end.
pub proof fn law_gradient_stops(p: Particle, m: Model)
    requires
        m.rounds_to_nearest(),
    ensures
        p.ripeness(m).has(0) ==> p.glow(m).same_as(yellow()),
        p.ripeness(m).has(Binary32::from_bits(ORANGE_AGE).scaled()) ==> p.glow(m).same_as(orange()),
        p.ripeness(m).has(Binary32::from_bits(RED_AGE).scaled()) ==> p.glow(m).same_as(red()),
        p.ripeness(m).has(Binary32::from_bits(ONE).scaled()) ==> p.glow(m).invisible(),
{
    lemma_ages();
    lemma_colors_fall();
    let t = p.ripeness(m);
    if t.is_finite() && 0 <= t.scaled() <= Binary32::unit() {
        lemma_opacity(m, t);
        lemma_hue(m, t);
        lemma_opacity_multiplied(m, m.hue(t).r, m.opacity(t));
        lemma_opacity_multiplied(m, m.hue(t).g, m.opacity(t));
        lemma_opacity_multiplied(m, m.hue(t).b, m.opacity(t));
    }
}

/// The distance between the numbers just below 0.02, the weakest channel.
spec fn speck() -> int {
    vstd::arithmetic::power2::pow2(120) as int
}

/// The ages and the channels of the gradient, in specks.
proof fn lemma_specks()
    ensures
        speck() > 0,
        Binary32::unit() == 0x2000_0000 * speck(),
        Binary32::from_bits(ONE).has(0x2000_0000 * speck()),
        Binary32::from_bits(ORANGE_AGE).has(0x999_99a0 * speck()),
        Binary32::from_bits(ORANGE_SPAN).has(0xccc_ccd0 * speck()),
        Binary32::from_bits(RED_AGE).has(0x1666_6660 * speck()),
        Binary32::from_bits(FADE_SPAN).has(0x999_99a0 * speck()),
        yellow().r.has(0x2000_0000 * speck()),
        yellow().g.has(0x1e66_6660 * speck()),
        yellow().b.has(0x666_6668 * speck()),
        orange().r.has(0x2000_0000 * speck()),
        orange().g.has(0xe66_6660 * speck()),
        orange().b.has(0x199_999a * speck()),
        red().r.has(0x1ccc_ccc0 * speck()),
        red().g.has(0x333_3334 * speck()),
        red().b.has(0xa3_d70a * speck()),
{
    let h = speck();
    vstd::arithmetic::power2::lemma_pow2_pos(120);
    vstd::arithmetic::power2::lemma2_to64();
    vstd::arithmetic::power2::lemma_pow2_adds(1, 120);
    vstd::arithmetic::power2::lemma_pow2_adds(2, 120);
    vstd::arithmetic::power2::lemma_pow2_adds(3, 120);
    vstd::arithmetic::power2::lemma_pow2_adds(4, 120);
    vstd::arithmetic::power2::lemma_pow2_adds(5, 120);
    vstd::arithmetic::power2::lemma_pow2_adds(6, 120);
    vstd::arithmetic::power2::lemma_pow2_adds(29, 120);
    lemma_ages();
    assert(grain() == 16 * h);
    assert(0x99_999a * (16 * h) == 0x999_99a0 * h) by (nonlinear_arith);
    assert(0xcc_cccd * (16 * h) == 0xccc_ccd0 * h) by (nonlinear_arith);
    assert(0x166_6666 * (16 * h) == 0x1666_6660 * h) by (nonlinear_arith);
    assert(0x200_0000 * (16 * h) == 0x2000_0000 * h) by (nonlinear_arith);
    assert(yellow().g.exponent() == 126 && yellow().g.fraction() == 0x73_3333);
    assert(0xf3_3333 * (32 * h) == 0x1e66_6660 * h) by (nonlinear_arith);
    assert(yellow().b.exponent() == 124 && yellow().b.fraction() == 0x4c_cccd);
    assert(0xcc_cccd * (8 * h) == 0x666_6668 * h) by (nonlinear_arith);
    assert(orange().g.exponent() == 125 && orange().g.fraction() == 0x66_6666);
    assert(0xe6_6666 * (16 * h) == 0xe66_6660 * h) by (nonlinear_arith);
    assert(orange().b.exponent() == 122 && orange().b.fraction() == 0x4c_cccd);
    assert(0xcc_cccd * (2 * h) == 0x199_999a * h) by (nonlinear_arith);
    assert(red().r.exponent() == 126 && red().r.fraction() == 0x66_6666);
    assert(0xe6_6666 * (32 * h) == 0x1ccc_ccc0 * h) by (nonlinear_arith);
    assert(red().g.exponent() == 123 && red().g.fraction() == 0x4c_cccd);
    assert(0xcc_cccd * (4 * h) == 0x333_3334 * h) by (nonlinear_arith);
    assert(red().b.exponent() == 121 && red().b.fraction() == 0x23_d70a);
}

/// A common factor can be left out.
proof fn lemma_cancel(x: int, y: int, h: int)
    by (nonlinear_arith)
    requires
        h > 0,
        x * h <= y * h,
    ensures
        x <= y,
{
}

/// How close a mixed channel is to what lies `k` of the way from `a` to `b`, both in specks.
proof fn lemma_mix_close(m: Model, a: Binary32, b: Binary32, k: Binary32, x: int, y: int)
    requires
        m.rounds_to_nearest(),
        a.has(x * speck()),
        b.has(y * speck()),
        k.is_finite(),
        0 <= y <= x <= 0x2000_0000,
        0 <= k.scaled() <= Binary32::unit(),
    ensures
        vstd::math::abs(
            0x2000_0000 * m.mix(a, b, k).scaled() - 0x2000_0000 * x * speck() - (y - x)
                * k.scaled(),
        ) <= 192 * 0x2000_0000 * speck(),
{
    lemma_specks();
    let h = speck();
    let u = Binary32::unit() as int;
    let d = m.sub(b, a);
    let e = m.mul(d, k);
    let c = m.mix(a, b, k);
    let w = k.scaled();
    assert(0 <= y * h <= x * h && x * h <= 0x2000_0000 * h) by (nonlinear_arith)
        requires
            0 <= y <= x <= 0x2000_0000,
            h > 0,
    ;
    crate::binary32::lemma_finite_range(a);
    crate::binary32::lemma_representable(0, 0);
    m.sub_between(b, a, -a.scaled(), 0);
    m.sub_close(b, a, 64 * h);
    let v = d.scaled();
    assert(-(u * u) <= v * w <= 0 && -(x * h) * u <= v * w) by (nonlinear_arith)
        requires
            -(x * h) <= v <= 0,
            0 <= x * h <= u,
            0 <= w <= u,
    ;
    assert(0x80_0000 * (64 * h) * u == u * u) by (nonlinear_arith)
        requires
            u == 0x2000_0000 * h,
    ;
    m.mul_close(d, k, 64 * h);
    m.mul_between(d, k, -a.scaled(), 0);
    m.add_close(a, e, 64 * h);
    // the three roundings together, still times the unit
    let r = v - (y - x) * h;
    assert((y - x) * h == y * h - x * h) by (nonlinear_arith);
    assert(-(64 * h) <= r <= 64 * h);
    assert(v * w == (y - x) * h * w + r * w) by (nonlinear_arith)
        requires
            r == v - (y - x) * h,
    ;
    assert(-(64 * h) * u <= r * w <= (64 * h) * u) by (nonlinear_arith)
        requires
            -(64 * h) <= r <= 64 * h,
            0 <= w <= u,
            h > 0,
    ;
    let q = c.scaled() - x * h - e.scaled();
    assert(-(64 * h) <= q <= 64 * h);
    assert(-(64 * h) * u <= q * u <= (64 * h) * u) by (nonlinear_arith)
        requires
            -(64 * h) <= q <= 64 * h,
            u > 0,
    ;
    assert(c.scaled() * u == (x * h) * u + e.scaled() * u + q * u) by (nonlinear_arith)
        requires
            q == c.scaled() - x * h - e.scaled(),
    ;
    let z = 0x2000_0000 * c.scaled() - 0x2000_0000 * x * h - (y - x) * w;
    assert(z * h == c.scaled() * u - (x * h) * u - (y - x) * h * w) by (nonlinear_arith)
        requires
            u == 0x2000_0000 * h,
            z == 0x2000_0000 * c.scaled() - 0x2000_0000 * x * h - (y - x) * w,
    ;
    assert(192 * 0x2000_0000 * h * h == 3 * ((64 * h) * u)) by (nonlinear_arith)
        requires
            u == 0x2000_0000 * h,
    ;
    assert(-(64 * h) * u == -((64 * h) * u)) by (nonlinear_arith);
    assert(-(192 * 0x2000_0000 * h) * h == -(192 * 0x2000_0000 * h * h)) by (nonlinear_arith);
    lemma_cancel(z, 192 * 0x2000_0000 * h, h);
    lemma_cancel(-(192 * 0x2000_0000 * h), z, h);
}

/// How close a share is to what part `d` is of `n` specks.
proof fn lemma_share_close(m: Model, d: Binary32, whole: Binary32, n: int)
    requires
        m.rounds_to_nearest(),
        d.is_finite(),
        whole.has(n * speck()),
        0 < n <= 0x2000_0000,
        0 <= d.scaled() <= n * speck(),
    ensures
        m.div(d, whole).is_finite(),
        0 <= m.div(d, whole).scaled() <= Binary32::unit(),
        vstd::math::abs(n * m.div(d, whole).scaled() - 0x2000_0000 * d.scaled()) <= 64 * n
            * speck(),
{
    lemma_specks();
    lemma_ages();
    let h = speck();
    let u = Binary32::unit() as int;
    let x = d.scaled();
    assert(n * h > 0) by (nonlinear_arith)
        requires
            n > 0,
            h > 0,
    ;
    assert(0 <= x * u <= u * (n * h)) by (nonlinear_arith)
        requires
            0 <= x <= n * h,
            u >= 0,
    ;
    assert(0x80_0000 * (64 * h) * (n * h) == u * (n * h)) by (nonlinear_arith)
        requires
            u == 0x2000_0000 * h,
    ;
    m.div_between(d, whole, 0, u);
    m.div_close(d, whole, 64 * h);
    let k = m.div(d, whole).scaled();
    let z = n * k - 0x2000_0000 * x;
    assert(z * h == k * (n * h) - x * u) by (nonlinear_arith)
        requires
            u == 0x2000_0000 * h,
            z == n * k - 0x2000_0000 * x,
    ;
    assert((64 * h) * (n * h) == (64 * n * h) * h) by (nonlinear_arith);
    assert(-(64 * n * h) * h == -((64 * n * h) * h)) by (nonlinear_arith);
    lemma_cancel(z, 64 * n * h, h);
    lemma_cancel(-(64 * n * h), z, h);
}

/// How close a premultiplied channel is to the product of `x` specks and the opacity.
proof fn lemma_premultiplied_close(m: Model, c: Binary32, alpha: Binary32, x: int)
    requires
        m.rounds_to_nearest(),
        c.has(x * speck()),
        alpha.is_finite(),
        0 <= x <= 0x2000_0000,
        0 <= alpha.scaled() <= Binary32::unit(),
    ensures
        vstd::math::abs(0x2000_0000 * m.mul(c, alpha).scaled() - x * alpha.scaled()) <= 64
            * 0x2000_0000 * speck(),
{
    lemma_specks();
    let h = speck();
    let u = Binary32::unit() as int;
    let w = alpha.scaled();
    assert(0 <= x * h <= u) by (nonlinear_arith)
        requires
            0 <= x <= 0x2000_0000,
            u == 0x2000_0000 * h,
            h > 0,
    ;
    assert(0 <= (x * h) * w <= u * u) by (nonlinear_arith)
        requires
            0 <= x * h <= u,
            0 <= w <= u,
    ;
    assert(0x80_0000 * (64 * h) * u == u * u) by (nonlinear_arith)
        requires
            u == 0x2000_0000 * h,
    ;
    m.mul_close(c, alpha, 64 * h);
    let z = 0x2000_0000 * m.mul(c, alpha).scaled() - x * w;
    assert(z * h == m.mul(c, alpha).scaled() * u - (x * h) * w) by (nonlinear_arith)
        requires
            u == 0x2000_0000 * h,
            z == 0x2000_0000 * m.mul(c, alpha).scaled() - x * w,
    ;
    assert((64 * h) * u == (64 * 0x2000_0000 * h) * h) by (nonlinear_arith)
        requires
            u == 0x2000_0000 * h,
    ;
    assert(-(64 * 0x2000_0000 * h) * h == -((64 * 0x2000_0000 * h) * h)) by (nonlinear_arith);
    lemma_cancel(z, 64 * 0x2000_0000 * h, h);
    lemma_cancel(-(64 * 0x2000_0000 * h), z, h);
}

/// A color at full opacity is the hue.
proof fn lemma_opaque(m: Model, c: Binary32)
    requires
        m.rounds_to_nearest(),
        c.is_finite(),
        0 <= c.scaled() <= Binary32::unit(),
    ensures
        m.mul(c, Binary32::from_bits(ONE)).scaled() == c.scaled(),
{
    lemma_specks();
    lemma_opacity_multiplied(m, c, Binary32::from_bits(ONE));
}

/// From the roundings of a channel to its place on the way, in specks.
proof fn lemma_bright_green(h: int, u: int, t: int, k: int, c: int)
    by (nonlinear_arith)
    requires
        h > 0,
        u == 0x2000_0000 * h,
        0 <= t <= 0x999_99a0 * h,
        -(64 * 0x999_99a0 * h) <= 0x999_99a0 * k - 0x2000_0000 * t <= 64 * 0x999_99a0 * h,
        -(192 * 0x2000_0000 * h) <= 0x2000_0000 * c - 0x2000_0000 * 0x1e66_6660 * h - (0xe66_6660
            - 0x1e66_6660) * k <= 192 * 0x2000_0000 * h,
    ensures
        -(60 * u) <= 0x8_0000 * (60 * c - (57 * u - 100 * t)) <= 60 * u,
{
}

/// From the roundings of a channel to its place on the way, in specks.
proof fn lemma_bright_blue(h: int, u: int, t: int, k: int, c: int)
    by (nonlinear_arith)
    requires
        h > 0,
        u == 0x2000_0000 * h,
        0 <= t <= 0x999_99a0 * h,
        -(64 * 0x999_99a0 * h) <= 0x999_99a0 * k - 0x2000_0000 * t <= 64 * 0x999_99a0 * h,
        -(192 * 0x2000_0000 * h) <= 0x2000_0000 * c - 0x2000_0000 * 0x666_6668 * h - (0x199_999a
            - 0x666_6668) * k <= 192 * 0x2000_0000 * h,
    ensures
        -(10 * u) <= 0x8_0000 * (10 * c - (2 * u - 5 * t)) <= 10 * u,
{
}

/// From the roundings of a channel to its place on the way, in specks.
proof fn lemma_dim_red(h: int, u: int, t: int, d: int, k: int, c: int)
    by (nonlinear_arith)
    requires
        h > 0,
        u == 0x2000_0000 * h,
        0x999_99a0 * h <= t <= 0x1666_6660 * h,
        -(64 * h) <= d - (t - 0x999_99a0 * h) <= 64 * h,
        -(64 * 0xccc_ccd0 * h) <= 0xccc_ccd0 * k - 0x2000_0000 * d <= 64 * 0xccc_ccd0 * h,
        -(192 * 0x2000_0000 * h) <= 0x2000_0000 * c - 0x2000_0000 * 0x2000_0000 * h - (0x1ccc_ccc0
            - 0x2000_0000) * k <= 192 * 0x2000_0000 * h,
    ensures
        -(40 * u) <= 0x8_0000 * (40 * c - (43 * u - 10 * t)) <= 40 * u,
{
}

/// From the roundings of a channel to its place on the way, in specks.
proof fn lemma_dim_green(h: int, u: int, t: int, d: int, k: int, c: int)
    by (nonlinear_arith)
    requires
        h > 0,
        u == 0x2000_0000 * h,
        0x999_99a0 * h <= t <= 0x1666_6660 * h,
        -(64 * h) <= d - (t - 0x999_99a0 * h) <= 64 * h,
        -(64 * 0xccc_ccd0 * h) <= 0xccc_ccd0 * k - 0x2000_0000 * d <= 64 * 0xccc_ccd0 * h,
        -(192 * 0x2000_0000 * h) <= 0x2000_0000 * c - 0x2000_0000 * 0xe66_6660 * h - (0x333_3334
            - 0xe66_6660) * k <= 192 * 0x2000_0000 * h,
    ensures
        -(80 * u) <= 0x8_0000 * (80 * c - (57 * u - 70 * t)) <= 80 * u,
{
}

/// From the roundings of a channel to its place on the way, in specks.
proof fn lemma_dim_blue(h: int, u: int, t: int, d: int, k: int, c: int)
    by (nonlinear_arith)
    requires
        h > 0,
        u == 0x2000_0000 * h,
        0x999_99a0 * h <= t <= 0x1666_6660 * h,
        -(64 * h) <= d - (t - 0x999_99a0 * h) <= 64 * h,
        -(64 * 0xccc_ccd0 * h) <= 0xccc_ccd0 * k - 0x2000_0000 * d <= 64 * 0xccc_ccd0 * h,
        -(192 * 0x2000_0000 * h) <= 0x2000_0000 * c - 0x2000_0000 * 0x199_999a * h - (0xa3_d70a
            - 0x199_999a) * k <= 192 * 0x2000_0000 * h,
    ensures
        -(400 * u) <= 0x8_0000 * (400 * c - (29 * u - 30 * t)) <= 400 * u,
{
}

/// From the roundings of the opacity to its place on the way, in specks.
proof fn lemma_fading_opacity(h: int, u: int, t: int, d: int, k: int, a: int)
    by (nonlinear_arith)
    requires
        h > 0,
        u == 0x2000_0000 * h,
        0x1666_6660 * h <= t <= 0x2000_0000 * h,
        -(64 * h) <= d - (t - 0x1666_6660 * h) <= 64 * h,
        -(64 * 0x999_99a0 * h) <= 0x999_99a0 * k - 0x2000_0000 * d <= 64 * 0x999_99a0 * h,
        -(64 * h) <= a - (0x2000_0000 * h - k) <= 64 * h,
    ensures
        -(3 * u) <= 0x8_0000 * (3 * a - 10 * (u - t)) <= 3 * u,
{
}

/// From the roundings of the fading channels to their shares of the opacity, in specks.
proof fn lemma_fading_channels(h: int, u: int, a: int, r: int, g: int, b: int)
    by (nonlinear_arith)
    requires
        h > 0,
        u == 0x2000_0000 * h,
        0 <= a <= 0x2000_0000 * h,
        -(64 * 0x2000_0000 * h) <= 0x2000_0000 * r - 0x1ccc_ccc0 * a <= 64 * 0x2000_0000 * h,
        -(64 * 0x2000_0000 * h) <= 0x2000_0000 * g - 0x333_3334 * a <= 64 * 0x2000_0000 * h,
        -(64 * 0x2000_0000 * h) <= 0x2000_0000 * b - 0xa3_d70a * a <= 64 * 0x2000_0000 * h,
    ensures
        -(10 * u) <= 0x8_0000 * (10 * r - 9 * a) <= 10 * u,
        -(10 * u) <= 0x8_0000 * (10 * g - a) <= 10 * u,
        -(50 * u) <= 0x8_0000 * (50 * b - a) <= 50 * u,
{
}

/// From its birth to a normalized age of 0.30 a particle goes evenly from yellow to orange: at the
/// normalized age `t` its red is full, its green 0.95 - 0.5 t / 0.30, its blue 0.2 - 0.15 t / 0.30
/// and its opacity full, up to 2^-19.
pub proof fn law_yellow_turns_orange(p: Particle, m: Model)
    requires
        m.rounds_to_nearest(),
        p.age.is_finite(),
        p.lifetime.is_finite(),
        p.ripeness(m).scaled() < 0x99_999a * vstd::arithmetic::power2::pow2(124),
    ensures
        ({
            let one = Binary32::unit() as int;
            let t = p.ripeness(m).scaled();
            let c = p.glow(m);
            &&& c.r.scaled() == one
            &&& 0x8_0000 * vstd::math::abs(60 * c.g.scaled() - (57 * one - 100 * t)) <= 60 * one
            &&& 0x8_0000 * vstd::math::abs(10 * c.b.scaled() - (2 * one - 5 * t)) <= 10 * one
            &&& c.a.scaled() == one
        }),
{
    law_normalized_age(p, m);
    let t = p.ripeness(m);
    lemma_bright(m, t);
    lemma_hue(m, t);
    lemma_opaque(m, m.hue(t).r);
    lemma_opaque(m, m.hue(t).g);
    lemma_opaque(m, m.hue(t).b);
    assert(Stage::at(t) == Stage::Bright && Binary32::from_bits(ONE).scaled() == Binary32::unit())
        by {
        lemma_ages();
    }
}

/// The hue on the way from yellow to orange.
proof fn lemma_bright(m: Model, t: Binary32)
    requires
        m.rounds_to_nearest(),
        t.is_finite(),
        0 <= t.scaled() < 0x99_999a * vstd::arithmetic::power2::pow2(124),
    ensures
        m.hue(t).r.scaled() == Binary32::unit(),
        0x8_0000 * vstd::math::abs(
            60 * m.hue(t).g.scaled() - (57 * Binary32::unit() - 100 * t.scaled()),
        ) <= 60 * Binary32::unit(),
        0x8_0000 * vstd::math::abs(
            10 * m.hue(t).b.scaled() - (2 * Binary32::unit() - 5 * t.scaled()),
        ) <= 10 * Binary32::unit(),
{
    let h = speck();
    let u = Binary32::unit() as int;
    let x = t.scaled();
    let age = Binary32::from_bits(ORANGE_AGE);
    let k = m.div(t, age);
    assert(Stage::at(t) == Stage::Bright) by {
        lemma_ages();
    }
    assert(m.hue(t) == m.mix_color(yellow(), orange(), k));
    assert(h > 0 && u == 0x2000_0000 * h && 0 <= x <= 0x999_99a0 * h && age.has(0x999_99a0 * h))
        by {
        lemma_ages();
        lemma_specks();
    }
    lemma_share_close(m, t, age, 0x999_99a0);
    lemma_full_stays_full(m, k);
    let g = m.hue(t).g.scaled();
    let b = m.hue(t).b.scaled();
    assert(yellow().g.has(0x1e66_6660 * h) && orange().g.has(0xe66_6660 * h) && yellow().b.has(
        0x666_6668 * h,
    ) && orange().b.has(0x199_999a * h)) by {
        lemma_specks();
    }
    lemma_mix_close(m, yellow().g, orange().g, k, 0x1e66_6660, 0xe66_6660);
    lemma_bright_green(h, u, x, k.scaled(), g);
    lemma_mix_close(m, yellow().b, orange().b, k, 0x666_6668, 0x199_999a);
    lemma_bright_blue(h, u, x, k.scaled(), b);
}

/// Between two full channels every channel is full.
proof fn lemma_full_stays_full(m: Model, k: Binary32)
    requires
        m.rounds_to_nearest(),
        k.is_finite(),
    ensures
        m.mix(yellow().r, orange().r, k).scaled() == Binary32::unit(),
{
    lemma_specks();
    lemma_ages();
    let one = Binary32::unit() as int;
    m.sub_between(orange().r, yellow().r, 0, 0);
    let d = m.sub(orange().r, yellow().r);
    m.mul_zero(d, k);
    m.add_between(yellow().r, m.mul(d, k), one, one);
}

/// From a normalized age of 0.30 to one of 0.70 a particle goes evenly from orange to red: at the
/// normalized age `t` its red is 1 - 0.1 (t - 0.30) / 0.40, its green 0.45 - 0.35 (t - 0.30) / 0.40,
/// its blue 0.05 - 0.03 (t - 0.30) / 0.40 and its opacity full, up to 2^-19.
pub proof fn law_orange_turns_red(p: Particle, m: Model)
    requires
        m.rounds_to_nearest(),
        p.age.is_finite(),
        p.lifetime.is_finite(),
        0x99_999a * vstd::arithmetic::power2::pow2(124) <= p.ripeness(m).scaled() < 0x166_6666
            * vstd::arithmetic::power2::pow2(124),
    ensures
        ({
            let one = Binary32::unit() as int;
            let t = p.ripeness(m).scaled();
            let c = p.glow(m);
            &&& 0x8_0000 * vstd::math::abs(40 * c.r.scaled() - (43 * one - 10 * t)) <= 40 * one
            &&& 0x8_0000 * vstd::math::abs(80 * c.g.scaled() - (57 * one - 70 * t)) <= 80 * one
            &&& 0x8_0000 * vstd::math::abs(400 * c.b.scaled() - (29 * one - 30 * t)) <= 400 * one
            &&& c.a.scaled() == one
        }),
{
    law_normalized_age(p, m);
    let t = p.ripeness(m);
    lemma_dim(m, t);
    lemma_hue(m, t);
    lemma_opaque(m, m.hue(t).r);
    lemma_opaque(m, m.hue(t).g);
    lemma_opaque(m, m.hue(t).b);
    assert(Stage::at(t) == Stage::Dim && Binary32::from_bits(ONE).scaled() == Binary32::unit()) by {
        lemma_ages();
    }
}

/// The hue on the way from orange to red.
proof fn lemma_dim(m: Model, t: Binary32)
    requires
        m.rounds_to_nearest(),
        t.is_finite(),
        0x99_999a * vstd::arithmetic::power2::pow2(124) <= t.scaled() < 0x166_6666
            * vstd::arithmetic::power2::pow2(124),
    ensures
        0x8_0000 * vstd::math::abs(
            40 * m.hue(t).r.scaled() - (43 * Binary32::unit() - 10 * t.scaled()),
        ) <= 40 * Binary32::unit(),
        0x8_0000 * vstd::math::abs(
            80 * m.hue(t).g.scaled() - (57 * Binary32::unit() - 70 * t.scaled()),
        ) <= 80 * Binary32::unit(),
        0x8_0000 * vstd::math::abs(
            400 * m.hue(t).b.scaled() - (29 * Binary32::unit() - 30 * t.scaled()),
        ) <= 400 * Binary32::unit(),
{
    let h = speck();
    let u = Binary32::unit() as int;
    let x = t.scaled();
    let age = Binary32::from_bits(ORANGE_AGE);
    let span = Binary32::from_bits(ORANGE_SPAN);
    let d = m.sub(t, age);
    let k = m.div(d, span);
    assert(Stage::at(t) == Stage::Dim) by {
        lemma_ages();
    }
    assert(m.hue(t) == m.mix_color(orange(), red(), k));
    assert(h > 0 && u == 0x2000_0000 * h && 0x999_99a0 * h <= x <= 0x1666_6660 * h && age.has(
        0x999_99a0 * h,
    ) && span.has(0xccc_ccd0 * h)) by {
        lemma_ages();
        lemma_specks();
    }
    assert(d.is_finite() && 0 <= d.scaled() <= 0xccc_ccd0 * h) by {
        lemma_ages();
        lemma_specks();
        m.sub_between(t, age, 0, 0xcc_cccd * grain());
    }
    m.sub_close(t, age, 64 * h);
    lemma_share_close(m, d, span, 0xccc_ccd0);
    assert(orange().r.has(0x2000_0000 * h) && red().r.has(0x1ccc_ccc0 * h) && orange().g.has(
        0xe66_6660 * h,
    ) && red().g.has(0x333_3334 * h) && orange().b.has(0x199_999a * h) && red().b.has(
        0xa3_d70a * h,
    )) by {
        lemma_specks();
    }
    lemma_mix_close(m, orange().r, red().r, k, 0x2000_0000, 0x1ccc_ccc0);
    lemma_dim_red(h, u, x, d.scaled(), k.scaled(), m.hue(t).r.scaled());
    lemma_mix_close(m, orange().g, red().g, k, 0xe66_6660, 0x333_3334);
    lemma_dim_green(h, u, x, d.scaled(), k.scaled(), m.hue(t).g.scaled());
    lemma_mix_close(m, orange().b, red().b, k, 0x199_999a, 0xa3_d70a);
    lemma_dim_blue(h, u, x, d.scaled(), k.scaled(), m.hue(t).b.scaled());
}

/// From a normalized age of 0.70 on a particle is red and fades evenly: at the normalized age `t`
/// its opacity is (1 - t) / 0.30, and its channels are 0.9, 0.1 and 0.02 of that, up to 2^-19.
pub proof fn law_red_fades(p: Particle, m: Model)
    requires
        m.rounds_to_nearest(),
        p.age.is_finite(),
        p.lifetime.is_finite(),
        0x166_6666 * vstd::arithmetic::power2::pow2(124) <= p.ripeness(m).scaled(),
    ensures
        ({
            let one = Binary32::unit() as int;
            let t = p.ripeness(m).scaled();
            let c = p.glow(m);
            &&& 0x8_0000 * vstd::math::abs(3 * c.a.scaled() - 10 * (one - t)) <= 3 * one
            &&& 0x8_0000 * vstd::math::abs(10 * c.r.scaled() - 9 * c.a.scaled()) <= 10 * one
            &&& 0x8_0000 * vstd::math::abs(10 * c.g.scaled() - c.a.scaled()) <= 10 * one
            &&& 0x8_0000 * vstd::math::abs(50 * c.b.scaled() - c.a.scaled()) <= 50 * one
        }),
{
    law_normalized_age(p, m);
    let h = speck();
    let u = Binary32::unit() as int;
    let t = p.ripeness(m);
    let x = t.scaled();
    let one = Binary32::from_bits(ONE);
    let turn = Binary32::from_bits(RED_AGE);
    let span = Binary32::from_bits(FADE_SPAN);
    let d = m.sub(t, turn);
    let k = m.div(d, span);
    let alpha = m.opacity(t);
    assert(Stage::at(t) == Stage::Fading) by {
        lemma_ages();
    }
    lemma_opacity(m, t);
    assert(h > 0 && u == 0x2000_0000 * h && 0x1666_6660 * h <= x <= 0x2000_0000 * h && turn.has(
        0x1666_6660 * h,
    ) && span.has(0x999_99a0 * h) && one.has(0x2000_0000 * h)) by {
        lemma_ages();
        lemma_specks();
    }
    assert(d.is_finite() && 0 <= d.scaled() <= 0x999_99a0 * h) by {
        lemma_ages();
        lemma_specks();
        m.sub_between(t, turn, 0, 0x99_999a * grain());
    }
    m.sub_close(t, turn, 64 * h);
    lemma_share_close(m, d, span, 0x999_99a0);
    m.sub_close(one, k, 64 * h);
    lemma_fading_opacity(h, u, x, d.scaled(), k.scaled(), alpha.scaled());
    assert(red().r.has(0x1ccc_ccc0 * h) && red().g.has(0x333_3334 * h) && red().b.has(
        0xa3_d70a * h,
    )) by {
        lemma_specks();
    }
    lemma_premultiplied_close(m, red().r, alpha, 0x1ccc_ccc0);
    lemma_premultiplied_close(m, red().g, alpha, 0x333_3334);
    lemma_premultiplied_close(m, red().b, alpha, 0xa3_d70a);
    lemma_fading_channels(
        h,
        u,
        alpha.scaled(),
        m.mul(red().r, alpha).scaled(),
        m.mul(red().g, alpha).scaled(),
        m.mul(red().b, alpha).scaled(),
    );
}

/// The normalized age is the age as a share of the lifetime: none up to age 0, all from the lifetime
/// on and where there is no lifetime, and the number nearest to the quotient between.
pub proof fn law_normalized_age_is_the_share(p: Particle, m: Model)
    requires
        m.rounds_to_nearest(),
        p.age.is_finite(),
        p.lifetime.is_finite(),
    ensures
        ({
            let t = p.ripeness(m);
            let one = Binary32::unit() as int;
            let age = p.age.scaled();
            let lifetime = p.lifetime.scaled();
            if lifetime <= 0 || age >= lifetime {
                t.scaled() == one
            } else if age <= 0 {
                t.scaled() == 0
            } else {
                crate::arithmetic::rounds(t, age * one, lifetime)
            }
        }),
{
    lemma_ages();
    law_normalized_age(p, m);
    let x = p.age.scaled();
    let y = p.lifetime.scaled();
    let one = Binary32::unit() as int;
    if y > 0 {
        let d = m.div(p.age, p.lifetime);
        m.div_rounds(p.age, p.lifetime);
        if x >= y {
            assert(x * one >= one * y) by (nonlinear_arith)
                requires
                    x >= y,
                    one >= 0,
            ;
            crate::arithmetic::lemma_not_below(d, x * one, y, one);
        } else if x <= 0 {
            assert(x * one <= 0 * y) by (nonlinear_arith)
                requires
                    x <= 0,
                    one >= 0,
            ;
            crate::arithmetic::lemma_not_above(d, x * one, y, 0);
        } else {
            assert(0 * y <= x * one && x * one <= one * y) by (nonlinear_arith)
                requires
                    0 <= x <= y,
                    one >= 0,
            ;
            crate::arithmetic::lemma_kept_between(d, x * one, y, 0, one);
        }
    }
}

/// The color depends on the normalized age alone.
pub proof fn law_same_age_same_color(p: Particle, q: Particle, m: Model)
    requires
        p.ripeness(m) == q.ripeness(m),
    ensures
        p.glow(m) == q.glow(m),
{
}

} // verus!
