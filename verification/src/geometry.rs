//! Where the discs lie in the frame, with rounding to nearest and in exact numbers.
//!
//! The centre of the pixel in column `x` and row `y` is `x` + 1/2, `y` + 1/2. A disc is painted on
//! the pixels that its square reaches, by their distances from its centre.
use vstd::prelude::*;

use crate::arithmetic::Model;
use crate::binary32::{Binary32, ONE, ZERO};
use crate::renderer::{Instance, Pixel, Renderer, FAINT, HALF, TWO};

verus! {

/// One, in units of 2^-149.
spec fn one() -> int {
    Binary32::unit() as int
}

/// Twice the exact distance along an axis from `centre` to the centre of the pixel at `place`.
pub open spec fn twice_offset(place: int, centre: Binary32) -> int {
    (2 * place + 1) * Binary32::unit() - 2 * centre.scaled()
}

/// Four times the square of the exact distance from the centre of a disc to the centre of the pixel
/// at `x`, `y`.
pub open spec fn four_square(i: Instance, x: int, y: int) -> int {
    twice_offset(x, i.pos[0]) * twice_offset(x, i.pos[0]) + twice_offset(y, i.pos[1])
        * twice_offset(y, i.pos[1])
}

/// How far the pixel at `x`, `y` and the centre of a disc are from the corner, together.
pub open spec fn extent(i: Instance, x: int, y: int) -> int {
    (x + y + 2) * Binary32::unit() + vstd::math::abs(i.pos[0].scaled()) + vstd::math::abs(
        i.pos[1].scaled(),
    )
}

/// If the pixel at `x`, `y` is at most `n` units from the centre of the disc, `d` times the size is
/// at most `n`, up to 2^-18 of `n` and of the extent.
pub open spec fn not_too_far(i: Instance, x: int, y: int, d: Binary32, n: int) -> bool {
    let size = i.size.scaled();
    let capped = vstd::math::min(d.scaled(), Binary32::largest() as int);
    0 <= n && four_square(i, x, y) <= 4 * n * n ==> 0x4_0000 * (capped * size) <= (0x4_0001 * n
        + extent(i, x, y)) * Binary32::unit() + 0x4_0000 * size
}

/// If the pixel at `x`, `y` is at least `n` units from the centre of the disc, `d` times the size is
/// at least `n`, up to 2^-18 of `n` and of the extent, or `d` is beyond all numbers.
pub open spec fn not_too_near(i: Instance, x: int, y: int, d: Binary32, n: int) -> bool {
    let size = i.size.scaled();
    0 <= n && four_square(i, x, y) >= 4 * n * n ==> d.scaled() >= Binary32::largest() || 0x4_0000
        * (d.scaled() * size) >= (0x3_ffff * n - extent(i, x, y)) * Binary32::unit() - 0x4_0000
        * size
}

/// `d` is the distance from the centre of a disc to the centre of the pixel at `x`, `y`, in sizes of
/// the disc.
pub open spec fn measures(i: Instance, x: int, y: int, d: Binary32) -> bool {
    &&& d.scaled() >= 0
    &&& forall|n: int| #[trigger] not_too_far(i, x, y, d, n)
    &&& forall|n: int| #[trigger] not_too_near(i, x, y, d, n)
}

/// Half a pixel, and how far the largest number is.
proof fn lemma_scale()
    ensures
        one() == 0x1_0000_0000_0000 * vstd::arithmetic::power2::pow2(101),
        vstd::arithmetic::power2::pow2(101) >= 0x10_0000_0000_0000,
        Binary32::from_bits(HALF).is_finite(),
        2 * Binary32::from_bits(HALF).scaled() == one(),
        Binary32::from_bits(TWO).has(2 * one()),
        Binary32::from_bits(ONE).has(one()),
        Binary32::from_bits(ZERO).has(0),
        Binary32::representable(0),
        Binary32::largest() >= 0x4000_0000_0000_0000_0000_0000_0000_0000 * one(),
{
    vstd::arithmetic::power2::lemma2_to64();
    vstd::arithmetic::power2::lemma_pow2_adds(48, 101);
    vstd::arithmetic::power2::lemma_pow2_adds(16, 32);
    vstd::arithmetic::power2::lemma_pow2_adds(48, 53);
    vstd::arithmetic::power2::lemma_pow2_pos(53);
    let p = vstd::arithmetic::power2::pow2(53) as int;
    vstd::arithmetic::power2::lemma_pow2_strictly_increases(4, 53);
    assert(0x1_0000_0000_0000 * p >= 0x10_0000_0000_0000) by (nonlinear_arith)
        requires
            p >= 16,
    ;
    crate::binary32::lemma_one();
    let half = Binary32::from_bits(HALF);
    assert(half.exponent() == 126 && half.fraction() == 0);
    vstd::arithmetic::power2::lemma_pow2_adds(23, 125);
    vstd::arithmetic::power2::lemma_pow2_unfold(149);
    let two = Binary32::from_bits(TWO);
    assert(two.exponent() == 128 && two.fraction() == 0);
    vstd::arithmetic::power2::lemma_pow2_adds(23, 127);
    vstd::arithmetic::power2::lemma_pow2_unfold(150);
    assert(Binary32::from_bits(ZERO).has(0));
    assert(Binary32::from_bits(ONE).has(one()));
    // the largest number is at least 2^126
    vstd::arithmetic::power2::lemma_pow2_adds(104, 149);
    vstd::arithmetic::power2::lemma_pow2_adds(64, 40);
    vstd::arithmetic::power2::lemma_pow2_adds(8, 32);
    let q = vstd::arithmetic::power2::pow2(104) as int;
    let u = one();
    vstd::arithmetic::power2::lemma_pow2_pos(149);
    assert(q == 0x100_0000_0000_0000_0000_0000_0000);
    assert(0xff_ffff * (q * u) >= 0x4000_0000_0000_0000_0000_0000_0000_0000 * u)
        by (nonlinear_arith)
        requires
            q == 0x100_0000_0000_0000_0000_0000_0000,
            u > 0,
    ;
}

/// How close the distance along an axis is, for an extent `w` that covers the pixel and the centre.
proof fn lemma_offset_close(m: Model, place: int, centre: Binary32, w: int)
    requires
        m.rounds_to_nearest(),
        0 <= place < 0x1_0000_0000,
        centre.is_finite(),
        (place + 1) * one() + vstd::math::abs(centre.scaled()) <= w,
        w <= 0x4000_0000_0000_0000 * one(),
    ensures
        m.offset(place, centre).is_finite(),
        vstd::math::abs(2 * m.offset(place, centre).scaled() - twice_offset(place, centre)) <= 2
            * (8 * (w / 0x80_0000 + 2)),
        vstd::math::abs(m.offset(place, centre).scaled()) <= 2 * w,
{
    let u = one();
    let t = w / 0x80_0000 + 2;
    lemma_scale();
    assert(0 <= place * u && (place + 1) * u == place * u + u && (2 * place + 1) * u == 2 * (place
        * u) + u) by (nonlinear_arith)
        requires
            place >= 0,
            u >= 0,
    ;
    assert(0x80_0000 * t >= w && t >= 2 && t <= w);
    assert(8 * t <= 0x1_0000_0000_0000 * u);
    let half = Binary32::from_bits(HALF);
    let a = m.unsigned(place as u64);
    m.unsigned_close(place as u64, t);
    let b = m.add(a, half);
    m.add_close(a, half, 2 * t);
    let c = m.sub(b, centre);
    m.sub_close(b, centre, 4 * t);
}

/// Numbers that are close on both axes have close sums of squares.
proof fn lemma_squares_close(dx: int, dy: int, a: int, b: int, e: int, n: int)
    requires
        e >= 0,
        n >= 0,
        vstd::math::abs(2 * dx - a) <= 2 * e,
        vstd::math::abs(2 * dy - b) <= 2 * e,
    ensures
        a * a + b * b <= 4 * n * n ==> dx * dx + dy * dy <= (n + 2 * e) * (n + 2 * e),
        dx * dx + dy * dy < n * n ==> a * a + b * b < 4 * (n + 2 * e) * (n + 2 * e),
{
    if a * a + b * b <= 4 * n * n {
        assert(-(2 * n) <= a <= 2 * n) by (nonlinear_arith)
            requires
                a * a + b * b <= 4 * n * n,
                n >= 0,
        ;
        assert(-(2 * n) <= b <= 2 * n) by (nonlinear_arith)
            requires
                a * a + b * b <= 4 * n * n,
                n >= 0,
        ;
        let f = 2 * dx - a;
        let g = 2 * dy - b;
        assert(4 * (dx * dx) == a * a + 2 * a * f + f * f) by (nonlinear_arith)
            requires
                f == 2 * dx - a,
        ;
        assert(4 * (dy * dy) == b * b + 2 * b * g + g * g) by (nonlinear_arith)
            requires
                g == 2 * dy - b,
        ;
        assert(2 * a * f <= 8 * (n * e) && f * f <= 4 * (e * e)) by (nonlinear_arith)
            requires
                -(2 * n) <= a <= 2 * n,
                -(2 * e) <= f <= 2 * e,
                n >= 0,
                e >= 0,
        ;
        assert(2 * b * g <= 8 * (n * e) && g * g <= 4 * (e * e)) by (nonlinear_arith)
            requires
                -(2 * n) <= b <= 2 * n,
                -(2 * e) <= g <= 2 * e,
                n >= 0,
                e >= 0,
        ;
        assert((n + 2 * e) * (n + 2 * e) == n * n + 4 * (n * e) + 4 * (e * e))
            by (nonlinear_arith);
        assert(4 * n * n == 4 * (n * n)) by (nonlinear_arith);
        assert(e * e >= 0) by (nonlinear_arith);
    }
    if dx * dx + dy * dy < n * n {
        assert(-n <= dx <= n) by (nonlinear_arith)
            requires
                dx * dx + dy * dy < n * n,
                n >= 0,
        ;
        assert(-n <= dy <= n) by (nonlinear_arith)
            requires
                dx * dx + dy * dy < n * n,
                n >= 0,
        ;
        let f = a - 2 * dx;
        let g = b - 2 * dy;
        assert(a * a == 4 * (dx * dx) + 4 * dx * f + f * f) by (nonlinear_arith)
            requires
                f == a - 2 * dx,
        ;
        assert(b * b == 4 * (dy * dy) + 4 * dy * g + g * g) by (nonlinear_arith)
            requires
                g == b - 2 * dy,
        ;
        assert(4 * dx * f <= 8 * (n * e) && f * f <= 4 * (e * e)) by (nonlinear_arith)
            requires
                -n <= dx <= n,
                -(2 * e) <= f <= 2 * e,
                n >= 0,
                e >= 0,
        ;
        assert(4 * dy * g <= 8 * (n * e) && g * g <= 4 * (e * e)) by (nonlinear_arith)
            requires
                -n <= dy <= n,
                -(2 * e) <= g <= 2 * e,
                n >= 0,
                e >= 0,
        ;
        assert(4 * (n + 2 * e) * (n + 2 * e) == 4 * (n * n) + 16 * (n * e) + 16 * (e * e))
            by (nonlinear_arith);
        assert(e * e >= 0) by (nonlinear_arith);
    }
}

/// How close the rounded sum of squares is to the exact one.
proof fn lemma_sum_close(m: Model, dx: Binary32, dy: Binary32, w: int)
    requires
        m.rounds_to_nearest(),
        dx.is_finite(),
        dy.is_finite(),
        one() <= w <= 0x4000_0000_0000_0000 * one(),
        vstd::math::abs(dx.scaled()) <= 2 * w,
        vstd::math::abs(dy.scaled()) <= 2 * w,
    ensures
        ({
            let s = m.add(m.mul(dx, dx), m.mul(dy, dy));
            let exact = dx.scaled() * dx.scaled() + dy.scaled() * dy.scaled();
            &&& s.is_finite()
            &&& s.scaled() >= 0
            &&& 0x40_0000 * vstd::math::abs(s.scaled() * one() - exact) <= exact + 0x100_0000
                * one()
        }),
{
    let u = one();
    let top = Binary32::largest() as int;
    lemma_scale();
    let x = dx.scaled();
    let y = dy.scaled();
    let xx = m.mul(dx, dx);
    let yy = m.mul(dy, dy);
    let s = m.add(xx, yy);
    let big = 0x1000_0000_0000_0000_0000_0000_0000_0000 * u;
    assert(0 <= x * x <= 4 * (w * w) && 0 <= y * y <= 4 * (w * w)) by (nonlinear_arith)
        requires
            -(2 * w) <= x <= 2 * w,
            -(2 * w) <= y <= 2 * w,
    ;
    assert(4 * (w * w) <= (4 * big) * u) by (nonlinear_arith)
        requires
            0 <= w <= 0x4000_0000_0000_0000 * u,
            big == 0x1000_0000_0000_0000_0000_0000_0000_0000 * u,
            u > 0,
    ;
    assert((4 * big) * u <= top * u) by (nonlinear_arith)
        requires
            4 * big <= top,
            u > 0,
    ;
    m.mul_rounds(dx, dx);
    m.mul_rounds(dy, dy);
    crate::arithmetic::lemma_error(xx, x * x, u);
    crate::arithmetic::lemma_error(yy, y * y, u);
    crate::arithmetic::lemma_not_below(xx, x * x, u, 0);
    crate::arithmetic::lemma_not_below(yy, y * y, u, 0);
    let a = xx.scaled();
    let b = yy.scaled();
    // smaller bounds, for the sum to stay in range
    assert(a <= 5 * big) by (nonlinear_arith)
        requires
            0x100_0000 * (a * u - x * x) <= x * x + 0x100_0000 * u,
            x * x <= (4 * big) * u,
            big >= u,
            u > 0,
    ;
    assert(b <= 5 * big) by (nonlinear_arith)
        requires
            0x100_0000 * (b * u - y * y) <= y * y + 0x100_0000 * u,
            y * y <= (4 * big) * u,
            big >= u,
            u > 0,
    ;
    lemma_room(big, u, top);
    m.add_rounds(xx, yy);
    assert(top * 1 == top);
    crate::arithmetic::lemma_error(s, a + b, 1);
    crate::arithmetic::lemma_not_below(s, a + b, 1, 0);
    let c = s.scaled();
    let exact = x * x + y * y;
    assert(0x100_0000 * (c * u - (a + b) * u) <= (a + b) * u + 0x100_0000 * u && 0x100_0000 * ((a
        + b) * u - c * u) <= (a + b) * u + 0x100_0000 * u) by (nonlinear_arith)
        requires
            0x100_0000 * (c - (a + b)) <= (a + b) + 0x100_0000,
            0x100_0000 * ((a + b) - c) <= (a + b) + 0x100_0000,
            u > 0,
    ;
    assert((a + b) * u == a * u + b * u) by (nonlinear_arith);
}

/// Ten times a number of that size is in range.
proof fn lemma_room(big: int, u: int, top: int)
    requires
        big == 0x1000_0000_0000_0000_0000_0000_0000_0000 * u,
        top >= 0x4000_0000_0000_0000_0000_0000_0000_0000 * u,
        top == Binary32::largest(),
        u == one(),
    ensures
        10 * big <= top,
{
    vstd::arithmetic::power2::lemma2_to64();
    vstd::arithmetic::power2::lemma_pow2_pos(149);
    vstd::arithmetic::power2::lemma_pow2_adds(104, 149);
    vstd::arithmetic::power2::lemma_pow2_adds(64, 40);
    vstd::arithmetic::power2::lemma_pow2_adds(8, 32);
    let q = vstd::arithmetic::power2::pow2(104) as int;
    assert(q == 0x100_0000_0000_0000_0000_0000_0000);
    assert(0xff_ffff * (q * u) >= 10 * (0x1000_0000_0000_0000_0000_0000_0000_0000 * u))
        by (nonlinear_arith)
        requires
            q == 0x100_0000_0000_0000_0000_0000_0000,
            u > 0,
    ;
}

/// A root is not above a number whose square is not below.
proof fn lemma_root_not_above(m: Model, s: Binary32, bound: int)
    requires
        m.rounds_to_nearest(),
        s.is_finite(),
        s.scaled() >= 0,
        0 <= bound <= Binary32::largest(),
        s.scaled() * one() <= bound * bound,
    ensures
        m.sqrt(s).is_finite(),
        0 <= m.sqrt(s).scaled(),
        0x80_0000 * m.sqrt(s).scaled() <= 0x80_0001 * bound + 0x80_0000,
{
    let (lo, hi) = crate::arithmetic::lemma_neighbours(bound as nat);
    let c = choose|c: Binary32| #[trigger] c.has(hi);
    assert(s.scaled() * one() <= hi * hi) by (nonlinear_arith)
        requires
            s.scaled() * one() <= bound * bound,
            0 <= bound <= hi,
    ;
    reveal(Model::rounds_roots);
    assert(c.scaled() == hi);
    crate::binary32::lemma_finite_range(c);
    crate::binary32::lemma_finite_range(m.sqrt(s));
}

/// A root is not below a number whose square is not above.
proof fn lemma_root_not_below(m: Model, s: Binary32, bound: int)
    requires
        m.rounds_to_nearest(),
        s.is_finite(),
        s.scaled() >= 0,
        0 <= bound <= Binary32::largest(),
        bound * bound <= s.scaled() * one(),
    ensures
        0x80_0000 * m.sqrt(s).scaled() >= 0x7f_ffff * bound - 0x80_0000,
{
    let (lo, hi) = crate::arithmetic::lemma_neighbours(bound as nat);
    let c = choose|c: Binary32| #[trigger] c.has(lo);
    assert(lo * lo <= s.scaled() * one()) by (nonlinear_arith)
        requires
            bound * bound <= s.scaled() * one(),
            0 <= lo <= bound,
    ;
    reveal(Model::rounds_roots);
    assert(c.scaled() == lo);
}

/// A root is a number.
proof fn lemma_root_is_number(m: Model, s: Binary32)
    requires
        m.rounds_to_nearest(),
        s.is_finite(),
        s.scaled() >= 0,
        s.scaled() <= Binary32::largest(),
    ensures
        m.sqrt(s).is_finite(),
        0 <= m.sqrt(s).scaled(),
        m.sqrt(s).scaled() <= Binary32::largest(),
{
    lemma_scale();
    let top = Binary32::largest() as int;
    let u = one();
    assert(s.scaled() * u <= top * top) by (nonlinear_arith)
        requires
            0 <= s.scaled() <= top,
            0 <= u <= top,
    ;
    let (lo, hi) = crate::arithmetic::lemma_neighbours(top as nat);
    let c = choose|c: Binary32| #[trigger] c.has(lo);
    let b = choose|c: Binary32| #[trigger] c.has(hi);
    crate::binary32::lemma_finite_range(c);
    crate::binary32::lemma_finite_range(b);
    assert(lo == top && hi == top);
    reveal(Model::rounds_roots);
    assert(c.scaled() == top);
    crate::binary32::lemma_finite_range(m.sqrt(s));
}

/// What a root `r` divided by a size is, from above and from below.
proof fn lemma_in_sizes(m: Model, r: Binary32, size: Binary32)
    requires
        m.rounds_to_nearest(),
        r.is_finite(),
        r.scaled() >= 0,
        size.is_finite(),
        size.scaled() > 0,
    ensures
        ({
            let d = m.div(r, size).scaled();
            let top = Binary32::largest() as int;
            let s = size.scaled();
            &&& d >= 0
            &&& 0x100_0000 * (vstd::math::min(d, top) * s) <= 0x100_0001 * (r.scaled() * one())
                + 0x100_0000 * s
            &&& d >= top || 0x100_0000 * (d * s) >= 0xff_ffff * (r.scaled() * one()) - 0x100_0000
                * s
        }),
{
    let u = one();
    lemma_scale();
    let top = Binary32::largest() as int;
    let s = size.scaled();
    let x = r.scaled() * u;
    let d = m.div(r, size);
    assert(x >= 0) by (nonlinear_arith)
        requires
            x == r.scaled() * u,
            r.scaled() >= 0,
            u >= 0,
    ;
    m.quotient_is_number(r, size);
    m.div_rounds(r, size);
    if x <= top * s {
        assert(-(top * s) <= 0) by (nonlinear_arith)
            requires
                top >= 0,
                s > 0,
        ;
        crate::arithmetic::lemma_error(d, x, s);
        crate::binary32::lemma_finite_range(d);
    }
}

/// A distance along both axes, and what it becomes.
proof fn lemma_not_too_far(
    m: Model,
    s: Binary32,
    size: Binary32,
    exact: int,
    n: int,
    e: int,
    w: int,
)
    requires
        m.rounds_to_nearest(),
        s.is_finite(),
        s.scaled() >= 0,
        size.is_finite(),
        size.scaled() > 0,
        0x40_0000 * (s.scaled() * one() - exact) <= exact + 0x100_0000 * one(),
        one() <= w <= 0x4000_0000_0000_0000 * one(),
        e == 8 * (w / 0x80_0000 + 2),
        0 <= n,
        0 <= exact <= (n + 2 * e) * (n + 2 * e),
    ensures
        0x4_0000 * (vstd::math::min(
            m.div(m.sqrt(s), size).scaled(),
            Binary32::largest() as int,
        ) * size.scaled()) <= (0x4_0001 * n + w) * one() + 0x4_0000 * size.scaled(),
{
    let u = one();
    lemma_scale();
    let top = Binary32::largest() as int;
    let z = size.scaled();
    let k = n + 2 * e;
    let p = vstd::arithmetic::power2::pow2(101) as int;
    let bound = k + k / 0x10_0000 + p;
    crate::binary32::lemma_finite_range(s);
    lemma_root_is_number(m, s);
    let r = m.sqrt(s);
    if bound <= top {
        let j = k / 0x10_0000;
        assert(0x10_0000 * j <= k < 0x10_0000 * j + 0x10_0000);
        assert(s.scaled() * u <= bound * bound) by {
            let kk = k * k;
            assert(0x40_0000 * (s.scaled() * u) <= 0x40_0001 * kk + 0x100_0000 * u);
            assert(0x40_0000 * (bound * bound) >= 0x40_0001 * kk + 0x100_0000 * u)
                by (nonlinear_arith)
                requires
                    bound == k + j + p,
                    k < 0x10_0000 * j + 0x10_0000,
                    0 <= j,
                    0 <= k,
                    kk == k * k,
                    p >= 0x10_0000_0000_0000,
                    u == 0x1_0000_0000_0000 * p,
            {
                let a = j + p;
                assert(bound * bound == kk + 2 * (k * a) + a * a) by (nonlinear_arith)
                    requires
                        bound == k + a,
                        kk == k * k,
                ;
                assert(0x10_0000 * a >= k);
                assert(0x10_0000 * (k * a) >= kk) by (nonlinear_arith)
                    requires
                        0x10_0000 * a >= k,
                        k >= 0,
                        kk == k * k,
                ;
                assert(a * a >= 4 * u) by (nonlinear_arith)
                    requires
                        a >= p,
                        p >= 0x10_0000_0000_0000,
                        u == 0x1_0000_0000_0000 * p,
                ;
                assert(kk >= 0) by (nonlinear_arith)
                    requires
                        kk == k * k,
                ;
            }
        }
        lemma_root_not_above(m, s, bound);
    } else {
        // the bound is beyond every number
        assert(r.scaled() <= bound);
    }
    let y = r.scaled();
    assert(0x80_0000 * y <= 0x80_0001 * bound + 0x80_0000);
    assert(0x100_0001 * y * 0x4_0000 <= 0x100_0000 * (0x4_0001 * n + w)) by {
        lemma_far_numbers(n, e, w, k, bound, p, u, y);
    }
    lemma_in_sizes(m, r, size);
    let q = vstd::math::min(m.div(r, size).scaled(), top) * z;
    assert(0x100_0000 * (0x4_0000 * q) <= 0x4_0000 * (0x100_0001 * (y * u)) + 0x100_0000 * (0x4_0000
        * z));
    assert(0x4_0000 * (0x100_0001 * (y * u)) <= 0x100_0000 * ((0x4_0001 * n + w) * u))
        by (nonlinear_arith)
        requires
            0x100_0001 * y * 0x4_0000 <= 0x100_0000 * (0x4_0001 * n + w),
            u > 0,
    ;
}

/// The numbers behind a distance that is not too far.
proof fn lemma_far_numbers(n: int, e: int, w: int, k: int, bound: int, p: int, u: int, y: int)
    requires
        n >= 0,
        e == 8 * (w / 0x80_0000 + 2),
        w >= u,
        u == 0x1_0000_0000_0000 * p,
        p >= 0x10_0000_0000_0000,
        k == n + 2 * e,
        bound == k + k / 0x10_0000 + p,
        0x80_0000 * y <= 0x80_0001 * bound + 0x80_0000,
    ensures
        0x100_0001 * y * 0x4_0000 <= 0x100_0000 * (0x4_0001 * n + w),
{
    let t = w / 0x80_0000;
    let j = k / 0x10_0000;
    assert(0x80_0000 * t <= w);
    assert(0x10_0000 * j <= k);
    assert(0x100_0001 * y * 0x4_0000 <= 0x100_0000 * (0x4_0001 * n + w)) by (nonlinear_arith)
        requires
            n >= 0,
            e == 8 * (t + 2),
            0x80_0000 * t <= w,
            t >= 0,
            w >= u,
            u == 0x1_0000_0000_0000 * p,
            p >= 0x10_0000_0000_0000,
            k == n + 2 * e,
            bound == k + j + p,
            0x10_0000 * j <= k,
            0x80_0000 * y <= 0x80_0001 * bound + 0x80_0000,
    ;
}

/// A distance along both axes, and what it does not fall short of.
proof fn lemma_not_too_near(
    m: Model,
    s: Binary32,
    size: Binary32,
    exact: int,
    n: int,
    e: int,
    w: int,
)
    requires
        m.rounds_to_nearest(),
        s.is_finite(),
        s.scaled() >= 0,
        size.is_finite(),
        size.scaled() > 0,
        0x40_0000 * (exact - s.scaled() * one()) <= exact + 0x100_0000 * one(),
        one() <= w <= 0x4000_0000_0000_0000 * one(),
        e == 8 * (w / 0x80_0000 + 2),
        0x3_ffff * n > w,
        n - 2 * e >= 0,
        exact >= (n - 2 * e) * (n - 2 * e),
    ensures
        m.div(m.sqrt(s), size).scaled() >= Binary32::largest() || 0x4_0000 * (m.div(
            m.sqrt(s),
            size,
        ).scaled() * size.scaled()) >= (0x3_ffff * n - w) * one() - 0x4_0000 * size.scaled(),
{
    let u = one();
    lemma_scale();
    let top = Binary32::largest() as int;
    let z = size.scaled();
    let k = n - 2 * e;
    let p = vstd::arithmetic::power2::pow2(101) as int;
    let j = k / 0x10_0000;
    let bound = k - j - p;
    crate::binary32::lemma_finite_range(s);
    lemma_root_is_number(m, s);
    let r = m.sqrt(s);
    let su = s.scaled() * u;
    let kk = k * k;
    assert(0x10_0000 * j <= k < 0x10_0000 * j + 0x10_0000);
    assert(k >= 0x100_0000 * p && bound >= 0) by {
        lemma_near_start(n, e, w, k, p, u);
    }
    assert(bound * bound <= su) by {
        assert(0x40_0000 * su >= 0x3f_ffff * kk - 0x100_0000 * u) by {
            assert(0x40_0000 * exact - 0x40_0000 * su <= exact + 0x100_0000 * u);
            assert(exact >= kk);
        }
        assert(0x40_0000 * (bound * bound) <= 0x3f_ffff * kk - 0x100_0000 * u) by (nonlinear_arith)
            requires
                bound == k - j - p,
                bound >= 0,
                k < 0x10_0000 * j + 0x10_0000,
                j >= 0,
                kk == k * k,
                k >= 0x100_0000 * p,
                p >= 0x10_0000_0000_0000,
                u == 0x1_0000_0000_0000 * p,
        {
            let a = j + p;
            assert(0x10_0000 * a >= k + 0x10_0000 * 2);
            assert(bound * bound <= bound * k) by (nonlinear_arith)
                requires
                    0 <= bound <= k,
            ;
            assert(bound * k == kk - a * k) by (nonlinear_arith)
                requires
                    bound == k - a,
                    kk == k * k,
            ;
            assert(0x10_0000 * (a * k) >= kk) by (nonlinear_arith)
                requires
                    0x10_0000 * a >= k,
                    k >= 0,
                    kk == k * k,
            ;
            assert(kk >= 0x100_0000 * u) by (nonlinear_arith)
                requires
                    k >= 0x100_0000 * p,
                    p >= 0x10_0000_0000_0000,
                    u == 0x1_0000_0000_0000 * p,
                    kk == k * k,
            ;
        }
    }
    assert(bound <= top) by {
        assert(su <= top * top) by (nonlinear_arith)
            requires
                su == s.scaled() * u,
                0 <= s.scaled() <= top,
                0 <= u <= top,
        ;
        assert(bound <= top) by (nonlinear_arith)
            requires
                bound * bound <= su,
                su <= top * top,
                bound >= 0,
                top >= 0,
        ;
    }
    lemma_root_not_below(m, s, bound);
    let y = r.scaled();
    assert(0x4_0000 * (0xff_ffff * y) >= 0x100_0000 * (0x3_ffff * n - w)) by {
        lemma_near_numbers(n, e, w, k, bound, p, u, y);
    }
    lemma_in_sizes(m, r, size);
    let q = m.div(r, size).scaled() * z;
    assert(0x4_0000 * (0xff_ffff * (y * u)) >= 0x100_0000 * ((0x3_ffff * n - w) * u))
        by (nonlinear_arith)
        requires
            0x4_0000 * (0xff_ffff * y) >= 0x100_0000 * (0x3_ffff * n - w),
            u > 0,
    ;
}

/// How large a distance is that exceeds its tolerance.
proof fn lemma_near_start(n: int, e: int, w: int, k: int, p: int, u: int)
    requires
        e == 8 * (w / 0x80_0000 + 2),
        0x3_ffff * n > w,
        w >= u,
        u == 0x1_0000_0000_0000 * p,
        p >= 0x10_0000_0000_0000,
        k == n - 2 * e,
    ensures
        k >= 0x100_0000 * p,
        k - k / 0x10_0000 - p >= 0,
{
    let t = w / 0x80_0000;
    assert(0x80_0000 * t <= w);
    assert(k >= 0x100_0000 * p) by (nonlinear_arith)
        requires
            e == 8 * (t + 2),
            0x80_0000 * t <= w,
            t >= 0,
            0x3_ffff * n > w,
            w >= u,
            u == 0x1_0000_0000_0000 * p,
            p >= 0x10_0000_0000_0000,
            k == n - 2 * e,
    ;
}

/// The numbers behind a distance that is not too near.
proof fn lemma_near_numbers(n: int, e: int, w: int, k: int, bound: int, p: int, u: int, y: int)
    requires
        e == 8 * (w / 0x80_0000 + 2),
        0x3_ffff * n > w,
        w >= u,
        u == 0x1_0000_0000_0000 * p,
        p >= 0x10_0000_0000_0000,
        k == n - 2 * e,
        k >= 0,
        bound == k - k / 0x10_0000 - p,
        0x80_0000 * y >= 0x7f_ffff * bound - 0x80_0000,
    ensures
        0x4_0000 * (0xff_ffff * y) >= 0x100_0000 * (0x3_ffff * n - w),
{
    let t = w / 0x80_0000;
    let j = k / 0x10_0000;
    assert(0x80_0000 * t <= w);
    assert(0x10_0000 * j <= k);
    assert(0x4_0000 * (0xff_ffff * y) >= 0x100_0000 * (0x3_ffff * n - w)) by (nonlinear_arith)
        requires
            e == 8 * (t + 2),
            0x80_0000 * t <= w,
            t >= 0,
            w >= u,
            u == 0x1_0000_0000_0000 * p,
            p >= 0x10_0000_0000_0000,
            k == n - 2 * e,
            k >= 0,
            bound == k - j - p,
            0x10_0000 * j <= k,
            0x80_0000 * y >= 0x7f_ffff * bound - 0x80_0000,
    ;
}

/// The distance of a pixel from a disc is the Euclidean one, in sizes of the disc: between the
/// centre of the disc and the centre of the pixel, at every column and row, for discs up to 2^60
/// pixels away.
pub proof fn law_distance_is_euclidean(m: Model, i: Instance, x: int, y: int)
    requires
        m.rounds_to_nearest(),
        i.drawable(),
        0 <= x < 0x1_0000_0000,
        0 <= y < 0x1_0000_0000,
        vstd::math::abs(i.pos[0].scaled()) <= 0x1000_0000_0000_0000 * Binary32::unit(),
        vstd::math::abs(i.pos[1].scaled()) <= 0x1000_0000_0000_0000 * Binary32::unit(),
    ensures
        measures(i, x, y, m.distance(i, x, y)),
{
    let u = one();
    lemma_scale();
    let w = extent(i, x, y);
    let e = 8 * (w / 0x80_0000 + 2);
    let a = twice_offset(x, i.pos[0]);
    let b = twice_offset(y, i.pos[1]);
    assert((x + y + 2) * u == (x + 1) * u + (y + 1) * u) by (nonlinear_arith);
    assert(u <= (x + 1) * u <= 0x1_0000_0000 * u && u <= (y + 1) * u <= 0x1_0000_0000 * u)
        by (nonlinear_arith)
        requires
            0 <= x < 0x1_0000_0000,
            0 <= y < 0x1_0000_0000,
            u >= 0,
    ;
    assert(u <= w <= 0x4000_0000_0000_0000 * u);
    lemma_offset_close(m, x, i.pos[0], w);
    lemma_offset_close(m, y, i.pos[1], w);
    let dx = m.offset(x, i.pos[0]);
    let dy = m.offset(y, i.pos[1]);
    let s = m.add(m.mul(dx, dx), m.mul(dy, dy));
    lemma_sum_close(m, dx, dy, w);
    let exact = dx.scaled() * dx.scaled() + dy.scaled() * dy.scaled();
    assert(exact >= 0) by (nonlinear_arith)
        requires
            exact == dx.scaled() * dx.scaled() + dy.scaled() * dy.scaled(),
    ;
    let d = m.distance(i, x, y);
    assert(d == m.div(m.sqrt(s), i.size));
    crate::binary32::lemma_finite_range(s);
    lemma_root_is_number(m, s);
    lemma_in_sizes(m, m.sqrt(s), i.size);
    let z = i.size.scaled();
    assert forall|n: int| #[trigger] not_too_far(i, x, y, d, n) by {
        if 0 <= n && four_square(i, x, y) <= 4 * n * n {
            lemma_squares_close(dx.scaled(), dy.scaled(), a, b, e, n);
            lemma_not_too_far(m, s, i.size, exact, n, e, w);
        }
    }
    assert forall|n: int| #[trigger] not_too_near(i, x, y, d, n) by {
        if 0 <= n && four_square(i, x, y) >= 4 * n * n {
            if 0x3_ffff * n > w {
                let k = n - 2 * e;
                assert(k >= 0) by {
                    lemma_near_start(n, e, w, k, vstd::arithmetic::power2::pow2(101) as int, u);
                }
                lemma_squares_close(dx.scaled(), dy.scaled(), a, b, e, k);
                assert(exact >= k * k);
                lemma_not_too_near(m, s, i.size, exact, n, e, w);
            } else {
                assert((0x3_ffff * n - w) * u <= 0) by (nonlinear_arith)
                    requires
                        0x3_ffff * n - w <= 0,
                        u >= 0,
                ;
                assert(d.scaled() * z >= 0) by (nonlinear_arith)
                    requires
                        d.scaled() >= 0,
                        z > 0,
                ;
            }
        }
    }
}

/// The pixels at `place` along an axis are reached by a disc of that centre and size: they begin
/// before its end and end after its beginning, by more than 2^-20 of the slack.
pub open spec fn inside(place: int, centre: Binary32, size: Binary32) -> bool {
    let unit = Binary32::unit() as int;
    let slack = vstd::math::abs(centre.scaled()) + size.scaled() + unit;
    &&& 0x10_0000 * (2 * ((place + 1) * unit) - (2 * centre.scaled() - size.scaled())) > slack
    &&& 0x10_0000 * ((2 * centre.scaled() + size.scaled()) - 2 * (place * unit)) > slack
}

/// The pixels at `place` along an axis are not reached by a disc of that centre and size: they end
/// before its beginning or begin after its end, by at least 2^-20 of the slack.
pub open spec fn outside(place: int, centre: Binary32, size: Binary32) -> bool {
    let unit = Binary32::unit() as int;
    let slack = vstd::math::abs(centre.scaled()) + size.scaled() + unit;
    ||| 0x10_0000 * (2 * ((place + 1) * unit) - (2 * centre.scaled() - size.scaled())) <= -slack
    ||| 0x10_0000 * ((2 * centre.scaled() + size.scaled()) - 2 * (place * unit)) <= -slack
}

/// Where a disc begins and ends along an axis, for its two ends as numbers.
proof fn lemma_span(m: Model, centre: Binary32, size: Binary32, columns: u32, x: int)
    requires
        m.rounds_to_nearest(),
        0 <= x < columns <= 0x100_0000,
        m.sub(centre, m.div(size, Binary32::from_bits(TWO))).is_finite(),
        m.add(centre, m.div(size, Binary32::from_bits(TWO))).is_finite(),
    ensures
        ({
            let a = m.sub(centre, m.div(size, Binary32::from_bits(TWO))).scaled();
            let b = m.add(centre, m.div(size, Binary32::from_bits(TWO))).scaled();
            &&& m.span_start(centre, size) <= x <==> a < (x + 1) * one()
            &&& x < m.span_end(centre, size, columns) <==> b > x * one()
        }),
{
    lemma_scale();
    let u = one();
    let zero = Binary32::from_bits(ZERO);
    let a = m.sub(centre, m.div(size, Binary32::from_bits(TWO)));
    let b = m.add(centre, m.div(size, Binary32::from_bits(TWO)));
    assert((x + 1) * u == x * u + u && x * u >= 0) by (nonlinear_arith)
        requires
            x >= 0,
            u >= 0,
    ;
    let start = a.larger(zero);
    if !start.is_negative() {
        crate::binary32::law_rounding_brackets(start);
        let f = start.floor_nat();
        assert(f <= x <==> start.scaled() < (x + 1) * u) by (nonlinear_arith)
            requires
                f * u <= start.scaled(),
                start.scaled() < (f + 1) * u,
                u > 0,
        ;
    }
    let width = m.unsigned(columns as u64);
    assert(width.has(columns * u)) by {
        if columns < 0x100_0000 {
            crate::binary32::lemma_representable(columns as nat, 149);
        } else {
            crate::binary32::lemma_representable(1, 173);
            vstd::arithmetic::power2::lemma2_to64();
            vstd::arithmetic::power2::lemma_pow2_adds(24, 149);
            assert(1 * vstd::arithmetic::power2::pow2(173) == columns * u);
        }
        m.unsigned_between(columns as u64, columns * u, columns * u);
    }
    assert(x * u < columns * u) by (nonlinear_arith)
        requires
            x < columns,
            u > 0,
    ;
    let end = b.smaller(width);
    if !end.is_negative() {
        crate::binary32::law_rounding_brackets(end);
        let c = end.ceil_nat();
        assert(c <= x <==> end.scaled() <= x * u) by (nonlinear_arith)
            requires
                (c - 1) * u < end.scaled(),
                end.scaled() <= c * u,
                u > 0,
        ;
    }
}

/// How close the two ends of a disc along an axis are.
proof fn lemma_ends_close(m: Model, centre: Binary32, size: Binary32)
    requires
        m.rounds_to_nearest(),
        centre.is_finite(),
        size.is_finite(),
        size.scaled() > 0,
        vstd::math::abs(centre.scaled()) <= 0x1000_0000_0000_0000 * one(),
        size.scaled() <= 0x1000_0000_0000_0000 * one(),
    ensures
        ({
            let a = m.sub(centre, m.div(size, Binary32::from_bits(TWO)));
            let b = m.add(centre, m.div(size, Binary32::from_bits(TWO)));
            let slack = vstd::math::abs(centre.scaled()) + size.scaled() + one();
            &&& a.is_finite()
            &&& b.is_finite()
            &&& 0x10_0000 * vstd::math::abs(
                2 * a.scaled() - (2 * centre.scaled() - size.scaled()),
            ) < slack
            &&& 0x10_0000 * vstd::math::abs(
                2 * b.scaled() - (2 * centre.scaled() + size.scaled()),
            ) < slack
        }),
{
    lemma_scale();
    let u = one();
    let two = Binary32::from_bits(TWO);
    let w = vstd::math::abs(centre.scaled()) + size.scaled() + u;
    let t = w / 0x80_0000 + 2;
    assert(0x80_0000 * t >= w && 0x80_0000 * (t - 2) <= w && t >= 2 && t <= w);
    assert(4 * t <= 0x1_0000_0000_0000 * u);
    let z = size.scaled();
    assert(0 <= z * u && z * u <= 0x80_0000 * t * (2 * u)) by (nonlinear_arith)
        requires
            0 < z <= w,
            w <= 0x80_0000 * t,
            u >= 0,
    ;
    m.div_close(size, two, t);
    let r = m.div(size, two);
    let y = r.scaled();
    assert(-(2 * t) <= 2 * y - z <= 2 * t) by (nonlinear_arith)
        requires
            -(t * (2 * u)) <= y * (2 * u) - z * u <= t * (2 * u),
            u > 0,
    {
        assert((2 * y - z) * u == y * (2 * u) - z * u) by (nonlinear_arith);
        assert(t * (2 * u) == (2 * t) * u) by (nonlinear_arith);
        assert(2 * y - z <= 2 * t) by (nonlinear_arith)
            requires
                (2 * y - z) * u <= (2 * t) * u,
                u > 0,
        ;
        assert(2 * y - z >= -(2 * t)) by (nonlinear_arith)
            requires
                (2 * y - z) * u >= -((2 * t) * u),
                u > 0,
        ;
    }
    m.sub_close(centre, r, 2 * t);
    m.add_close(centre, r, 2 * t);
}

/// A disc is painted on its square: of the pixels along an axis, those that the square reaches lie
/// between its start and its end, and those that it does not reach lie outside.
pub proof fn law_discs_reach_their_squares(
    m: Model,
    centre: Binary32,
    size: Binary32,
    columns: u32,
    x: int,
)
    requires
        m.rounds_to_nearest(),
        centre.is_finite(),
        size.is_finite(),
        size.scaled() > 0,
        vstd::math::abs(centre.scaled()) <= 0x1000_0000_0000_0000 * Binary32::unit(),
        size.scaled() <= 0x1000_0000_0000_0000 * Binary32::unit(),
        0 <= x < columns <= 0x100_0000,
    ensures
        inside(x, centre, size) ==> m.span_start(centre, size) <= x < m.span_end(
            centre,
            size,
            columns,
        ),
        outside(x, centre, size) ==> !(m.span_start(centre, size) <= x < m.span_end(
            centre,
            size,
            columns,
        )),
{
    lemma_ends_close(m, centre, size);
    lemma_span(m, centre, size, columns, x);
}

/// `after` is a channel `under` on which a disc shone whose channel is `color` and whose strength is
/// `soft`: the number nearest to their product is the light that is added.
pub open spec fn shines(color: Binary32, soft: Binary32, under: u8, after: u8) -> bool {
    exists|light: Binary32|
        #![trigger light.is_finite()]
        light.is_finite() && crate::arithmetic::rounds(
            light,
            color.scaled() * soft.scaled(),
            Binary32::unit() as int,
        ) && crate::blending::lightens(light.scaled(), under, after)
}

/// `after` is the pixel `under` at `x`, `y` on which a disc was painted, with the strength `soft` at
/// the distance `d`: nothing changes up to a strength of 0.001, and above it every channel of the
/// disc shines on its own channel of the pixel.
pub open spec fn paints_at(
    i: Instance,
    x: int,
    y: int,
    d: Binary32,
    soft: Binary32,
    under: Pixel,
    after: Pixel,
) -> bool {
    &&& measures(i, x, y, d)
    &&& crate::blending::softens(d, soft)
    &&& if soft.scaled() <= 0x83_126f * vstd::arithmetic::power2::pow2(116) {
        after == under
    } else {
        &&& shines(i.color[0], soft, under.r, after.r)
        &&& shines(i.color[1], soft, under.g, after.g)
        &&& shines(i.color[2], soft, under.b, after.b)
        &&& shines(i.color[3], soft, under.a, after.a)
    }
}

/// `after` is the pixel `under` at `x`, `y` on which a disc was painted.
pub open spec fn paints(i: Instance, x: int, y: int, under: Pixel, after: Pixel) -> bool {
    exists|d: Binary32, soft: Binary32| #[trigger] paints_at(i, x, y, d, soft, under, after)
}

/// A channel of a disc shines.
proof fn lemma_shines(m: Model, color: Binary32, soft: Binary32, under: u8)
    requires
        m.rounds_to_nearest(),
        color.is_finite(),
        soft.is_finite(),
        0 <= color.scaled() <= Binary32::unit(),
        0 <= soft.scaled() <= 3 * Binary32::unit(),
    ensures
        shines(color, soft, under, m.lit(m.mul(color, soft), under)),
{
    crate::blending::lemma_light(m, color, color, soft);
    let light = m.mul(color, soft);
    m.mul_rounds(color, soft);
    crate::blending::law_light_adds_up(m, light, under);
    assert(light.is_finite());
}

/// A disc that is painted on a pixel.
proof fn lemma_paints(m: Model, i: Instance, x: int, y: int, under: Pixel)
    requires
        m.rounds_to_nearest(),
        i.drawable(),
        0 <= x < 0x1_0000_0000,
        0 <= y < 0x1_0000_0000,
        vstd::math::abs(i.pos[0].scaled()) <= 0x1000_0000_0000_0000 * Binary32::unit(),
        vstd::math::abs(i.pos[1].scaled()) <= 0x1000_0000_0000_0000 * Binary32::unit(),
    ensures
        paints(i, x, y, under, m.shaded(i, x, y, under)),
{
    let d = m.distance(i, x, y);
    let soft = m.falloff(d);
    law_distance_is_euclidean(m, i, x, y);
    crate::blending::lemma_distance_is_number(m, i, x, y);
    crate::blending::lemma_falloff(m, d);
    crate::blending::law_strength_by_distance(m, d);
    let faint = Binary32::from_bits(FAINT);
    assert(faint.exponent() == 117 && faint.fraction() == 0x3_126f);
    lemma_shines(m, i.color[0], soft, under.r);
    lemma_shines(m, i.color[1], soft, under.g);
    lemma_shines(m, i.color[2], soft, under.b);
    lemma_shines(m, i.color[3], soft, under.a);
    assert(paints_at(i, x, y, d, soft, under, m.shaded(i, x, y, under)));
}

/// What one disc more does to a pixel of a frame, in exact numbers: where its square reaches the
/// pixel, the disc is painted on it; where it does not, the pixel stays as it is; and there is
/// nothing else that can happen. A frame without discs is blank.
pub proof fn law_painting(
    m: Model,
    instances: Seq<Instance>,
    i: Instance,
    width: u32,
    height: u32,
    x: int,
    y: int,
)
    requires
        m.rounds_to_nearest(),
        i.drawable(),
        vstd::math::abs(i.pos[0].scaled()) <= 0x1000_0000_0000_0000 * Binary32::unit(),
        vstd::math::abs(i.pos[1].scaled()) <= 0x1000_0000_0000_0000 * Binary32::unit(),
        i.size.scaled() <= 0x1000_0000_0000_0000 * Binary32::unit(),
        0 <= x < width <= 0x100_0000,
        0 <= y < height <= 0x100_0000,
    ensures
        ({
            let under = m.painted(instances, width, height, x, y);
            let after = m.painted(instances.push(i), width, height, x, y);
            &&& inside(x, i.pos[0], i.size) && inside(y, i.pos[1], i.size) ==> paints(
                i,
                x,
                y,
                under,
                after,
            )
            &&& outside(x, i.pos[0], i.size) || outside(y, i.pos[1], i.size) ==> after == under
            &&& after == under || paints(i, x, y, under, after)
        }),
        m.painted(Seq::empty(), width, height, x, y) == (Pixel { b: 0, g: 0, r: 0, a: 0 }),
{
    let more = instances.push(i);
    assert(more.drop_last() =~= instances);
    assert(more.last() == i);
    law_discs_reach_their_squares(m, i.pos[0], i.size, width, x);
    law_discs_reach_their_squares(m, i.pos[1], i.size, height, y);
    lemma_paints(m, i, x, y, m.painted(instances, width, height, x, y));
}

/// The bytes of a frame are its pixels, row by row from the top and column by column from the left,
/// each as blue, green, red and opacity.
pub proof fn law_frame_layout(r: Renderer, m: Model, instances: Seq<Instance>, x: int, y: int)
    requires
        r.wf(),
        r.shows(m, instances),
        0 <= x < r.columns(),
        0 <= y < r.rows(),
    ensures
        ({
            let p = m.painted(instances, r.columns(), r.rows(), x, y);
            let at = 4 * (y * r.columns() + x);
            &&& r.bytes().len() == 4 * r.columns() * r.rows()
            &&& r.bytes()[at] == p.b
            &&& r.bytes()[at + 1] == p.g
            &&& r.bytes()[at + 2] == p.r
            &&& r.bytes()[at + 3] == p.a
        }),
{
    assert(r.pixel(x, y) == m.painted(instances, r.columns(), r.rows(), x, y));
    assert(r.columns() * r.rows() * 4 == 4 * r.columns() * r.rows()) by (nonlinear_arith);
}

/// The pixel under the centre of a disc is at no distance from it.
proof fn lemma_at_the_centre(m: Model, place: int, centre: Binary32)
    requires
        m.rounds_to_nearest(),
        0 <= place < 0x80_0000,
        centre.is_finite(),
        2 * centre.scaled() == (2 * place + 1) * one(),
    ensures
        m.offset(place, centre).has(0),
{
    lemma_scale();
    let u = one();
    let half = Binary32::from_bits(HALF);
    crate::binary32::lemma_representable(place as nat, 149);
    m.unsigned_between(place as u64, place * u, place * u);
    let a = m.unsigned(place as u64);
    assert((2 * place + 1) * u == 2 * (place * u) + u) by (nonlinear_arith);
    crate::binary32::lemma_finite_range(centre);
    m.add_between(a, half, centre.scaled(), centre.scaled());
    m.sub_between(m.add(a, half), centre, 0, 0);
}

/// The square of a disc reaches the pixel under its centre.
proof fn lemma_reaches_its_centre(
    m: Model,
    place: int,
    centre: Binary32,
    size: Binary32,
    columns: u32,
)
    requires
        m.rounds_to_nearest(),
        0 <= place < 0x80_0000,
        place < columns,
        centre.is_finite(),
        size.is_finite(),
        size.scaled() > 0,
        2 * centre.scaled() == (2 * place + 1) * one(),
    ensures
        m.span_start(centre, size) <= place < m.span_end(centre, size, columns),
{
    lemma_scale();
    let u = one();
    let two = Binary32::from_bits(TWO);
    let z = size.scaled();
    let c = centre.scaled();
    assert((2 * place + 1) * u == 2 * (place * u) + u && (place + 1) * u == place * u + u && place
        * u >= 0) by (nonlinear_arith)
        requires
            place >= 0,
            u >= 0,
    ;
    let r = m.div(size, two);
    crate::binary32::lemma_finite_range(size);
    assert(0 * (2 * u) <= z * u && z * u <= z * (2 * u)) by (nonlinear_arith)
        requires
            z > 0,
            u > 0,
    ;
    m.div_between(size, two, 0, z);
    crate::binary32::lemma_finite_range(centre);
    let a = m.sub(centre, r);
    m.sub_rounds(centre, r);
    crate::arithmetic::lemma_not_above(a, c - r.scaled(), 1, c);
    let zero = Binary32::from_bits(ZERO);
    let start = a.larger(zero);
    if !start.is_negative() {
        crate::binary32::law_rounding_brackets(start);
        let f = start.floor_nat();
        assert(f <= place) by (nonlinear_arith)
            requires
                f * u < (place + 1) * u,
                u > 0,
        ;
    }
    let b = m.add(centre, r);
    m.add_rounds(centre, r);
    crate::arithmetic::lemma_not_below(b, c + r.scaled(), 1, c);
    let width = m.unsigned(columns as u64);
    let next = (place + 1) as u64;
    crate::binary32::lemma_representable(next as nat, 149);
    m.unsigned_between(next, next * u, next * u);
    m.unsigned_in_order(next, columns as u64);
    m.unsigned_rounds(columns as u64);
    let end = b.smaller(width);
    assert(end.scaled() > place * u);
    crate::binary32::law_rounding_brackets(end);
    let k = end.ceil_nat();
    assert(k > place) by (nonlinear_arith)
        requires
            place * u < k * u,
            u > 0,
    ;
}

/// A disc whose centre is the centre of a pixel of the frame, at whatever column and row, gives that
/// pixel its full color: 255 times each channel, rounded down, exactly so up to 2^-11.
pub proof fn law_centre_shows_the_full_color(
    m: Model,
    i: Instance,
    width: u32,
    height: u32,
    x: int,
    y: int,
)
    requires
        m.rounds_to_nearest(),
        i.drawable(),
        0 <= x < width,
        0 <= y < height,
        x < 0x80_0000,
        y < 0x80_0000,
        2 * i.pos[0].scaled() == (2 * x + 1) * Binary32::unit(),
        2 * i.pos[1].scaled() == (2 * y + 1) * Binary32::unit(),
    ensures
        ({
            let p = m.painted(seq![i], width, height, x, y);
            &&& crate::blending::lightens(i.color[0].scaled(), 0, p.r)
            &&& crate::blending::lightens(i.color[1].scaled(), 0, p.g)
            &&& crate::blending::lightens(i.color[2].scaled(), 0, p.b)
            &&& crate::blending::lightens(i.color[3].scaled(), 0, p.a)
        }),
{
    lemma_scale();
    let u = one();
    lemma_at_the_centre(m, x, i.pos[0]);
    lemma_at_the_centre(m, y, i.pos[1]);
    let dx = m.offset(x, i.pos[0]);
    let dy = m.offset(y, i.pos[1]);
    m.mul_zero(dx, dx);
    m.mul_zero(dy, dy);
    m.add_between(m.mul(dx, dx), m.mul(dy, dy), 0, 0);
    let s = m.add(m.mul(dx, dx), m.mul(dy, dy));
    lemma_root_not_above_zero(m, s);
    let r = m.sqrt(s);
    m.div_of_zero(r, i.size);
    let d = m.distance(i, x, y);
    assert(d.has(0));
    crate::blending::law_strength_by_distance(m, d);
    let soft = m.falloff(d);
    assert(soft.has(u)) by {
        vstd::arithmetic::power2::lemma_pow2_pos(122);
        vstd::arithmetic::power2::lemma_pow2_pos(125);
    }
    let faint = Binary32::from_bits(FAINT);
    crate::binary32::law_patterns_order_numbers(faint, Binary32::from_bits(ONE));
    assert(!soft.at_most(faint));
    let blank = Pixel { b: 0, g: 0, r: 0, a: 0 };
    lemma_full(m, i.color[0], soft);
    lemma_full(m, i.color[1], soft);
    lemma_full(m, i.color[2], soft);
    lemma_full(m, i.color[3], soft);
    lemma_reaches_its_centre(m, x, i.pos[0], i.size, width);
    lemma_reaches_its_centre(m, y, i.pos[1], i.size, height);
    let list = seq![i];
    assert(list.drop_last() =~= Seq::empty());
    assert(list.last() == i);
    assert(m.painted(list.drop_last(), width, height, x, y) == blank);
    assert(m.footprint(i, width, height).contains(x, y));
    assert(m.painted(list, width, height, x, y) == m.blended(i.color, soft, blank));
}

/// The root of nothing is nothing.
proof fn lemma_root_not_above_zero(m: Model, s: Binary32)
    requires
        m.rounds_to_nearest(),
        s.has(0),
    ensures
        m.sqrt(s).has(0),
{
    reveal(Model::rounds_roots);
    let zero = Binary32::from_bits(ZERO);
    assert(zero.has(0));
    assert(s.scaled() * Binary32::unit() <= zero.scaled() * zero.scaled()) by (nonlinear_arith)
        requires
            s.scaled() == 0,
            zero.scaled() == 0,
    ;
    assert(m.sqrt(s).scaled() == 0);
    crate::binary32::lemma_finite_range(zero);
    crate::binary32::lemma_finite_range(m.sqrt(s));
}

/// At full strength a channel shines in full.
proof fn lemma_full(m: Model, color: Binary32, soft: Binary32)
    requires
        m.rounds_to_nearest(),
        color.is_finite(),
        0 <= color.scaled() <= Binary32::unit(),
        soft.has(one()),
    ensures
        crate::blending::lightens(color.scaled(), 0, m.lit(m.mul(color, soft), 0)),
{
    crate::binary32::lemma_finite_range(color);
    m.mul_between(color, soft, color.scaled(), color.scaled());
    vstd::arithmetic::power2::lemma_pow2_pos(149);
    crate::blending::law_light_adds_up(m, m.mul(color, soft), 0);
}

} // verus!
