//! Binary floating-point numbers, held as their 32-bit patterns.
//!
//! A pattern is read as sign, eight exponent bits and 23 fraction bits. Every finite number of
//! the format is a whole multiple of 2^-149, so a number is modelled by that multiple: order and
//! rounding to integers are then statements about integers.
use vstd::prelude::*;

verus! {

/// A floating-point number by its bit pattern.
#[derive(Clone, Copy, Debug, PartialEq, Eq, Structural)]
pub struct Binary32 {
    pub bits: u32,
}

/// The pattern of 0.
pub const ZERO: u32 = 0;

/// The pattern of what is no number.
pub const NO_NUMBER: u32 = 0x7fc0_0000;

/// The pattern of 1.
pub const ONE: u32 = 0x3f80_0000;

impl Binary32 {
    /// The number with the given pattern.
    #[inline]
    #[verifier::allow_in_spec]
    pub fn from_bits(bits: u32) -> (r: Binary32)
        returns
            (Binary32 { bits }),
    {
        Binary32 { bits }
    }

    /// The eight exponent bits.
    pub open spec fn exponent(self) -> nat {
        ((self.bits / 0x80_0000) % 256) as nat
    }

    /// The 23 fraction bits.
    pub open spec fn fraction(self) -> nat {
        (self.bits % 0x80_0000) as nat
    }

    /// The sign bit.
    pub open spec fn is_negative(self) -> bool {
        self.bits >= 0x8000_0000
    }

    /// Whether the pattern stands for no number.
    pub open spec fn is_nan(self) -> bool {
        self.exponent() == 255 && self.fraction() != 0
    }

    /// The absolute value in units of 2^-149. Infinity reads as 2^277, above every finite number.
    pub open spec fn magnitude(self) -> nat {
        if self.exponent() == 0 {
            self.fraction()
        } else {
            (0x80_0000 + self.fraction()) * vstd::arithmetic::power2::pow2(
                (self.exponent() - 1) as nat,
            )
        }
    }

    /// The value in units of 2^-149. Both zeros read as 0.
    pub open spec fn scaled(self) -> int {
        if self.is_negative() {
            -(self.magnitude() as int)
        } else {
            self.magnitude() as int
        }
    }

    /// The number, with one pattern for all that is no number.
    pub open spec fn canonical(self) -> Binary32 {
        if self.is_nan() {
            Binary32 { bits: NO_NUMBER }
        } else {
            self
        }
    }

    /// The number is infinite.
    pub open spec fn is_infinite(self) -> bool {
        self.exponent() == 255 && self.fraction() == 0
    }

    /// Both have the same value, or both are no number.
    pub open spec fn same_value(self, other: Binary32) -> bool {
        if self.is_nan() {
            other.is_nan()
        } else {
            !other.is_nan() && self.scaled() == other.scaled()
        }
    }

    /// `self < other`; nothing is below or above what is no number.
    pub open spec fn less(self, other: Binary32) -> bool {
        !self.is_nan() && !other.is_nan() && self.scaled() < other.scaled()
    }

    /// `self <= other`; nothing is below or above what is no number.
    pub open spec fn at_most(self, other: Binary32) -> bool {
        !self.is_nan() && !other.is_nan() && self.scaled() <= other.scaled()
    }

    /// The number brought into `lo..=hi`; what is no number stays as it is.
    pub open spec fn clamped(self, lo: Binary32, hi: Binary32) -> Binary32 {
        if self.less(lo) {
            lo
        } else if hi.less(self) {
            hi
        } else {
            self
        }
    }

    /// The larger of the two; `other` where `self` is no number.
    pub open spec fn larger(self, other: Binary32) -> Binary32 {
        if self.is_nan() || self.less(other) {
            other
        } else {
            self
        }
    }

    /// The smaller of the two; `other` where `self` is no number.
    pub open spec fn smaller(self, other: Binary32) -> Binary32 {
        if self.is_nan() || other.less(self) {
            other
        } else {
            self
        }
    }

    /// The number of units in one.
    pub open spec fn unit() -> nat {
        vstd::arithmetic::power2::pow2(149)
    }

    /// The number is neither infinite nor no number.
    pub open spec fn is_finite(self) -> bool {
        self.exponent() < 255
    }

    /// The number is finite and has the value `v`, in units of 2^-149.
    pub open spec fn has(self, v: int) -> bool {
        self.is_finite() && self.scaled() == v
    }

    /// Some finite number has the value `v`.
    pub open spec fn representable(v: int) -> bool {
        exists|c: Binary32| #[trigger] c.has(v)
    }

    /// The value of the largest finite number.
    pub open spec fn largest() -> nat {
        0xff_ffff * vstd::arithmetic::power2::pow2(253)
    }

    /// The largest integer not above the number; 0 for negative numbers and for no number.
    pub open spec fn floor_nat(self) -> nat {
        if self.is_nan() || self.is_negative() {
            0
        } else {
            self.magnitude() / Self::unit()
        }
    }

    /// The smallest integer not below the number; 0 for negative numbers and for no number.
    pub open spec fn ceil_nat(self) -> nat {
        if self.is_nan() || self.is_negative() {
            0
        } else {
            ((self.magnitude() + Self::unit() - 1) / Self::unit() as int) as nat
        }
    }

    /// Sign and remaining bits of the pattern as one integer.
    pub open spec fn rank_int(self) -> int {
        if self.is_negative() {
            -(self.bits - 0x8000_0000)
        } else {
            self.bits as int
        }
    }

    /// Sign and remaining bits of the pattern as one integer.
    fn rank(self) -> (r: i64)
        ensures
            r == self.rank_int(),
    {
        if self.bits >= 0x8000_0000 {
            -((self.bits - 0x8000_0000) as i64)
        } else {
            self.bits as i64
        }
    }

    /// Whether the pattern stands for no number.
    pub fn nan(self) -> (r: bool)
        ensures
            r == self.is_nan(),
    {
        (self.bits / 0x80_0000) % 256 == 255 && self.bits % 0x80_0000 != 0
    }

    /// Gives what is no number its one pattern.
    #[inline]
    pub fn settle(self) -> (r: Binary32)
        ensures
            r == self.canonical(),
    {
        if self.nan() {
            Binary32 { bits: NO_NUMBER }
        } else {
            self
        }
    }

    /// `self < other`.
    pub fn lt(self, other: Binary32) -> (r: bool)
        ensures
            r == self.less(other),
    {
        proof {
            law_patterns_order_numbers(self, other);
        }
        !self.nan() && !other.nan() && self.rank() < other.rank()
    }

    /// `self <= other`.
    pub fn le(self, other: Binary32) -> (r: bool)
        ensures
            r == self.at_most(other),
    {
        proof {
            law_patterns_order_numbers(self, other);
        }
        !self.nan() && !other.nan() && self.rank() <= other.rank()
    }

    /// Brings the number into `lo..=hi`.
    pub fn clamp(self, lo: Binary32, hi: Binary32) -> (r: Binary32)
        requires
            lo.at_most(hi),
        ensures
            r == self.clamped(lo, hi),
    {
        if self.lt(lo) {
            lo
        } else if hi.lt(self) {
            hi
        } else {
            self
        }
    }

    /// The larger of the two, ignoring what is no number.
    pub fn max(self, other: Binary32) -> (r: Binary32)
        ensures
            r == self.larger(other),
    {
        if self.nan() || self.lt(other) {
            other
        } else {
            self
        }
    }

    /// The smaller of the two, ignoring what is no number.
    pub fn min(self, other: Binary32) -> (r: Binary32)
        ensures
            r == self.smaller(other),
    {
        if self.nan() || other.lt(self) {
            other
        } else {
            self
        }
    }

    /// Rounds down to an integer, held to `0..=limit`.
    pub fn floor_to(self, limit: u64) -> (r: u64)
        ensures
            r == (if self.floor_nat() <= limit {
                self.floor_nat()
            } else {
                limit as nat
            }),
    {
        if self.nan() || self.bits >= 0x8000_0000 {
            return 0;
        }
        let e: u32 = self.bits / 0x80_0000;
        let m: u64 = 0x80_0000 + (self.bits % 0x80_0000) as u64;
        proof {
            lemma_integer_parts(self);
        }
        let whole: u64 = if e < 127 {
            0
        } else if e >= 191 {
            u64::MAX
        } else if e >= 150 {
            m << ((e - 150) as u64)
        } else {
            m >> ((150 - e) as u64)
        };
        if whole <= limit {
            whole
        } else {
            limit
        }
    }

    /// Rounds up to an integer, held to `0..=limit`.
    pub fn ceil_to(self, limit: u64) -> (r: u64)
        ensures
            r == (if self.ceil_nat() <= limit {
                self.ceil_nat()
            } else {
                limit as nat
            }),
    {
        if self.nan() || self.bits >= 0x8000_0000 {
            return 0;
        }
        let e: u32 = self.bits / 0x80_0000;
        let m: u64 = 0x80_0000 + (self.bits % 0x80_0000) as u64;
        proof {
            lemma_integer_parts(self);
        }
        let whole: u64 = if self.bits == 0 {
            0
        } else if e < 127 {
            1
        } else if e >= 191 {
            u64::MAX
        } else if e >= 150 {
            m << ((e - 150) as u64)
        } else {
            let down: u64 = m >> ((150 - e) as u64);
            if down << ((150 - e) as u64) == m {
                down
            } else {
                down + 1
            }
        };
        if whole <= limit {
            whole
        } else {
            limit
        }
    }
}

/// The magnitude grows with the pattern.
proof fn lemma_magnitude_grows(a: Binary32, b: Binary32)
    requires
        a.bits < b.bits < 0x8000_0000,
    ensures
        a.magnitude() < b.magnitude(),
{
    let (ea, fa) = (a.exponent(), a.fraction());
    let (eb, fb) = (b.exponent(), b.fraction());
    let p = vstd::arithmetic::power2::pow2((eb - 1) as nat);
    vstd::arithmetic::power2::lemma_pow2_pos((eb - 1) as nat);
    if ea == eb {
        assert(fa < fb);
        assert((0x80_0000 + fa) * p < (0x80_0000 + fb) * p) by (nonlinear_arith)
            requires
                fa < fb,
                p > 0,
        ;
    } else {
        assert(ea < eb);
        assert((0x80_0000 + fb) * p >= 0x80_0000 * p) by (nonlinear_arith)
            requires
                fb >= 0,
                p > 0,
        ;
        if ea > 0 {
            let q = vstd::arithmetic::power2::pow2((ea - 1) as nat);
            vstd::arithmetic::power2::lemma_pow2_pos((ea - 1) as nat);
            vstd::arithmetic::power2::lemma_pow2_unfold(ea);
            if ea < eb - 1 {
                vstd::arithmetic::power2::lemma_pow2_strictly_increases(ea, (eb - 1) as nat);
            }
            assert((0x80_0000 + fa) * q < 0x80_0000 * (2 * q)) by (nonlinear_arith)
                requires
                    fa < 0x80_0000,
                    q > 0,
            ;
        }
    }
}

/// Patterns, read as sign and magnitude, are ordered as the numbers that they stand for.
pub proof fn law_patterns_order_numbers(a: Binary32, b: Binary32)
    ensures
        a.rank_int() < b.rank_int() <==> a.scaled() < b.scaled(),
        a.rank_int() <= b.rank_int() <==> a.scaled() <= b.scaled(),
{
    let ma = Binary32 { bits: (a.bits % 0x8000_0000) as u32 };
    let mb = Binary32 { bits: (b.bits % 0x8000_0000) as u32 };
    let z = Binary32 { bits: 0 };
    assert(a.magnitude() == ma.magnitude() && b.magnitude() == mb.magnitude());
    assert(z.magnitude() == 0);
    if ma.bits > 0 {
        lemma_magnitude_grows(z, ma);
    }
    if mb.bits > 0 {
        lemma_magnitude_grows(z, mb);
    }
    if ma.bits < mb.bits {
        lemma_magnitude_grows(ma, mb);
    } else if mb.bits < ma.bits {
        lemma_magnitude_grows(mb, ma);
    }
}

/// Quotients of `n * d + s` rounded down and rounded up.
proof fn lemma_quotients(x: int, d: int, n: int, s: int)
    requires
        x == n * d + s,
        0 <= s < d,
    ensures
        x / d == n,
        (x + d - 1) / d == (if s == 0 {
            n
        } else {
            n + 1
        }),
{
    vstd::arithmetic::div_mod::lemma_fundamental_div_mod_converse_div(x, d, n, s);
    if s == 0 {
        vstd::arithmetic::div_mod::lemma_fundamental_div_mod_converse_div(x + d - 1, d, n, d - 1);
    } else {
        assert(x + d - 1 == (n + 1) * d + (s - 1)) by (nonlinear_arith)
            requires
                x == n * d + s,
        ;
        vstd::arithmetic::div_mod::lemma_fundamental_div_mod_converse_div(
            x + d - 1,
            d,
            n + 1,
            s - 1,
        );
    }
}

/// Shifting the significand by the exponent gives a number's integer part.
proof fn lemma_integer_parts(a: Binary32)
    requires
        a.bits < 0x8000_0000,
        !a.is_nan(),
    ensures
        ({
            let e = a.exponent();
            let m = (0x80_0000 + a.fraction()) as u64;
            &&& e < 127 ==> a.floor_nat() == 0
            &&& e < 127 ==> a.ceil_nat() == (if a.bits == 0 {
                0nat
            } else {
                1nat
            })
            &&& e >= 191 ==> a.floor_nat() > u64::MAX && a.ceil_nat() > u64::MAX
            &&& 150 <= e < 191 ==> a.floor_nat() == m << ((e - 150) as u64) && a.ceil_nat() == m
                << ((e - 150) as u64)
            &&& 127 <= e < 150 ==> {
                let down = m >> ((150 - e) as u64);
                &&& down <= m
                &&& a.floor_nat() == down
                &&& a.ceil_nat() == (if down << ((150 - e) as u64) == m {
                    down as nat
                } else {
                    down as nat + 1
                })
            }
        }),
{
    let e = a.exponent();
    let m = (0x80_0000 + a.fraction()) as u64;
    let unit = Binary32::unit();
    let mag = a.magnitude();
    vstd::arithmetic::power2::lemma2_to64();
    vstd::arithmetic::power2::lemma2_to64_rest();
    vstd::arithmetic::power2::lemma_pow2_pos(149);
    if e < 127 {
        vstd::arithmetic::power2::lemma_pow2_adds(24, 125);
        if e == 0 {
            vstd::arithmetic::power2::lemma_pow2_strictly_increases(24, 149);
        } else {
            let p = vstd::arithmetic::power2::pow2((e - 1) as nat);
            let top = vstd::arithmetic::power2::pow2(125);
            vstd::arithmetic::power2::lemma_pow2_pos((e - 1) as nat);
            if e < 126 {
                vstd::arithmetic::power2::lemma_pow2_strictly_increases((e - 1) as nat, 125);
            }
            assert(0 < m * p < 0x100_0000 * top) by (nonlinear_arith)
                requires
                    0 < m < 0x100_0000,
                    0 < p <= top,
            ;
        }
        lemma_quotients(mag as int, unit as int, 0, mag as int);
    } else {
        let p = vstd::arithmetic::power2::pow2((e - 1) as nat);
        vstd::arithmetic::power2::lemma_pow2_pos((e - 1) as nat);
        if e >= 150 {
            let k = vstd::arithmetic::power2::pow2((e - 150) as nat);
            vstd::arithmetic::power2::lemma_pow2_pos((e - 150) as nat);
            vstd::arithmetic::power2::lemma_pow2_adds((e - 150) as nat, 149);
            assert(m * (k * unit) == (m * k) * unit) by (nonlinear_arith);
            lemma_quotients(mag as int, unit as int, m * k, 0);
            if e >= 191 {
                if e > 191 {
                    vstd::arithmetic::power2::lemma_pow2_strictly_increases(41, (e - 150) as nat);
                }
                assert(m * k >= 0x80_0000 * 0x200_0000_0000) by (nonlinear_arith)
                    requires
                        m >= 0x80_0000,
                        k >= 0x200_0000_0000,
                ;
            } else {
                if e < 190 {
                    vstd::arithmetic::power2::lemma_pow2_strictly_increases((e - 150) as nat, 40);
                }
                assert(m * k <= 0xff_ffff * 0x100_0000_0000) by (nonlinear_arith)
                    requires
                        0 <= m <= 0xff_ffff,
                        0 <= k <= 0x100_0000_0000,
                ;
                vstd::bits::lemma_u64_shl_is_mul(m, (e - 150) as u64);
            }
        } else {
            let d = vstd::arithmetic::power2::pow2((150 - e) as nat);
            vstd::arithmetic::power2::lemma_pow2_pos((150 - e) as nat);
            vstd::arithmetic::power2::lemma_pow2_adds((150 - e) as nat, (e - 1) as nat);
            vstd::bits::lemma_u64_shr_is_div(m, (150 - e) as u64);
            let n = m as int / d as int;
            let r = m as int % d as int;
            vstd::arithmetic::div_mod::lemma_fundamental_div_mod(m as int, d as int);
            assert(m * p == n * (d * p) + r * p) by (nonlinear_arith)
                requires
                    m == d * n + r,
            ;
            assert(0 <= r * p < d * p) by (nonlinear_arith)
                requires
                    0 <= r < d,
                    p > 0,
            ;
            assert(r * p == 0 <==> r == 0) by (nonlinear_arith)
                requires
                    p > 0,
            ;
            lemma_quotients(mag as int, unit as int, n, r * p);
            assert(0 <= n <= m && n * d <= m) by (nonlinear_arith)
                requires
                    m == d * n + r,
                    0 <= r < d,
                    0 <= m,
            ;
            vstd::bits::lemma_u64_shl_is_mul(n as u64, (150 - e) as u64);
            assert(n * d == m <==> r == 0) by (nonlinear_arith)
                requires
                    m == d * n + r,
            ;
        }
    }
}

/// A number brought into a range lies in it, and one that lay in it already is kept.
pub proof fn law_clamped_into_range(x: Binary32, lo: Binary32, hi: Binary32)
    requires
        lo.at_most(hi),
    ensures
        !x.is_nan() ==> lo.at_most(x.clamped(lo, hi)) && x.clamped(lo, hi).at_most(hi),
        lo.at_most(x) && x.at_most(hi) ==> x.clamped(lo, hi) == x,
        x.is_nan() ==> x.clamped(lo, hi) == x,
{
}

/// Rounding brackets a number that is not negative: it is not below its floor, not above its
/// ceiling, and less than one away from either.
pub proof fn law_rounding_brackets(a: Binary32)
    requires
        !a.is_nan(),
        !a.is_negative(),
    ensures
        a.floor_nat() * Binary32::unit() <= a.magnitude() < (a.floor_nat() + 1) * Binary32::unit(),
        (a.ceil_nat() - 1) * Binary32::unit() < a.magnitude() <= a.ceil_nat() * Binary32::unit(),
{
    let d = Binary32::unit() as int;
    let x = a.magnitude() as int;
    vstd::arithmetic::power2::lemma_pow2_pos(149);
    vstd::arithmetic::div_mod::lemma_fundamental_div_mod(x, d);
    vstd::arithmetic::div_mod::lemma_fundamental_div_mod(x + d - 1, d);
    let f = x / d;
    let c = (x + d - 1) / d;
    assert(f * d <= x < (f + 1) * d) by (nonlinear_arith)
        requires
            x == d * f + x % d,
            0 <= x % d < d,
    ;
    assert((c - 1) * d < x <= c * d) by (nonlinear_arith)
        requires
            x + d - 1 == d * c + (x + d - 1) % d,
            0 <= (x + d - 1) % d < d,
    ;
    assert(c >= 0) by (nonlinear_arith)
        requires
            x <= c * d,
            x >= 0,
            d > 0,
    ;
}

/// One is 2^149 units, and less than the largest number.
pub(crate) proof fn lemma_one()
    ensures
        Binary32::from_bits(ONE).has(Binary32::unit() as int),
        0 < Binary32::unit() <= Binary32::largest(),
        Binary32::from_bits(ZERO).has(0),
{
    vstd::arithmetic::power2::lemma2_to64();
    vstd::arithmetic::power2::lemma_pow2_pos(149);
    vstd::arithmetic::power2::lemma_pow2_adds(23, 126);
    vstd::arithmetic::power2::lemma_pow2_strictly_increases(149, 253);
    assert(Binary32::from_bits(ONE).exponent() == 127);
    assert(Binary32::from_bits(ONE).fraction() == 0);
}

/// The opposite of a number's value is a number's value.
pub(crate) proof fn lemma_representable_opposite(v: int)
    requires
        Binary32::representable(v),
    ensures
        Binary32::representable(-v),
{
    let c = choose|c: Binary32| #[trigger] c.has(v);
    let d = if c.is_negative() {
        Binary32 { bits: (c.bits - 0x8000_0000) as u32 }
    } else {
        Binary32 { bits: (c.bits + 0x8000_0000) as u32 }
    };
    assert(d.exponent() == c.exponent() && d.fraction() == c.fraction());
    assert(d.has(-v));
}

/// Any 24 bits, at any place in the range, make a number.
pub(crate) proof fn lemma_representable(k: nat, j: nat)
    requires
        k < 0x100_0000,
        j <= 253,
    ensures
        Binary32::representable((k * vstd::arithmetic::power2::pow2(j)) as int),
    decreases j,
{
    let v = (k * vstd::arithmetic::power2::pow2(j)) as int;
    vstd::arithmetic::power2::lemma2_to64();
    if k >= 0x80_0000 {
        let c = Binary32 { bits: ((j + 1) * 0x80_0000 + (k - 0x80_0000)) as u32 };
        assert(c.exponent() == j + 1);
        assert(c.fraction() == k - 0x80_0000);
        assert(c.has(v));
    } else if j == 0 {
        let c = Binary32 { bits: k as u32 };
        assert(c.exponent() == 0);
        assert(k * 1 == v);
        assert(c.has(v));
    } else {
        vstd::arithmetic::power2::lemma_pow2_unfold(j);
        let p = vstd::arithmetic::power2::pow2((j - 1) as nat);
        assert(k * (2 * p) == (2 * k) * p) by (nonlinear_arith);
        lemma_representable(2 * k, (j - 1) as nat);
    }
}

/// The integer part and the fractional part of a finite number are numbers too.
pub proof fn law_parts_are_numbers(a: Binary32)
    requires
        a.is_finite(),
        !a.is_negative(),
    ensures
        Binary32::representable((a.floor_nat() * Binary32::unit()) as int),
        Binary32::representable(a.scaled() - a.floor_nat() * Binary32::unit()),
        0 <= a.scaled() - a.floor_nat() * Binary32::unit() < Binary32::unit(),
{
    let e = a.exponent();
    let m = 0x80_0000 + a.fraction();
    let unit = Binary32::unit() as int;
    let mag = a.magnitude() as int;
    law_rounding_brackets(a);
    assert((a.floor_nat() + 1) * unit == a.floor_nat() * unit + unit) by (nonlinear_arith);
    lemma_integer_parts(a);
    assert(a.has(mag));
    lemma_representable(0, 0);
    if e < 127 {
        assert(0 * unit == 0);
        assert(a.floor_nat() * unit == 0);
    } else {
        let p = vstd::arithmetic::power2::pow2((e - 1) as nat) as int;
        if e >= 150 {
            let k = vstd::arithmetic::power2::pow2((e - 150) as nat) as int;
            vstd::arithmetic::power2::lemma_pow2_pos(149);
            vstd::arithmetic::power2::lemma_pow2_adds((e - 150) as nat, 149);
            assert(m * (k * unit) == (m * k) * unit) by (nonlinear_arith);
            lemma_quotients(mag, unit, m * k, 0);
            assert(a.floor_nat() * unit == mag);
        } else {
            let d = vstd::arithmetic::power2::pow2((150 - e) as nat) as int;
            vstd::arithmetic::power2::lemma_pow2_pos((150 - e) as nat);
            vstd::arithmetic::power2::lemma_pow2_pos((e - 1) as nat);
            vstd::arithmetic::power2::lemma_pow2_adds((150 - e) as nat, (e - 1) as nat);
            let n = m as int / d;
            let r = m as int % d;
            vstd::arithmetic::div_mod::lemma_fundamental_div_mod(m as int, d);
            assert(m * p == n * (d * p) + r * p) by (nonlinear_arith)
                requires
                    m == d * n + r,
            ;
            assert(0 <= r * p < d * p) by (nonlinear_arith)
                requires
                    0 <= r < d,
                    p > 0,
            ;
            lemma_quotients(mag, unit, n, r * p);
            assert(0 <= n <= m && r <= m) by (nonlinear_arith)
                requires
                    m == d * n + r,
                    0 <= r < d,
                    0 <= m,
            ;
            lemma_representable(n as nat, 149);
            lemma_representable(r as nat, (e - 1) as nat);
            assert(a.floor_nat() == n);
        }
    }
}

/// Finite numbers are those that are numbers and not beyond the largest one.
pub(crate) proof fn lemma_finite_range(a: Binary32)
    ensures
        a.is_finite() <==> !a.is_nan() && -Binary32::largest() <= a.scaled() <= Binary32::largest(),
        a.is_finite() ==> Binary32::representable(a.scaled()) && Binary32::representable(
            -a.scaled(),
        ),
{
    let top = Binary32 { bits: 0x7f7f_ffff };
    assert(top.exponent() == 254 && top.fraction() == 0x7f_ffff);
    assert(top.scaled() == Binary32::largest());
    let b = Binary32 { bits: (a.bits % 0x8000_0000) as u32 };
    assert(b.exponent() == a.exponent() && b.fraction() == a.fraction());
    law_patterns_order_numbers(b, top);
    if a.is_finite() {
        assert(a.has(a.scaled()));
        lemma_representable_opposite(a.scaled());
    }
}

/// Two numbers of which the smaller is not negative are apart by a share of at least 2^-24.
pub(crate) proof fn lemma_gap(a: Binary32, b: Binary32)
    requires
        a.is_finite(),
        b.is_finite(),
        0 <= a.scaled() < b.scaled(),
    ensures
        a.scaled() * 0x100_0000 <= b.scaled() * 0xff_ffff,
{
    let x = a.scaled();
    let y = b.scaled();
    let e = a.exponent();
    let f = b.exponent();
    vstd::arithmetic::power2::lemma2_to64();
    if f == 0 {
        assert(b.fraction() < 0x80_0000);
        if e > 0 {
            vstd::arithmetic::power2::lemma_pow2_pos((e - 1) as nat);
            let q = vstd::arithmetic::power2::pow2((e - 1) as nat) as int;
            let m = 0x80_0000 + a.fraction();
            assert(m * q >= 0x80_0000) by (nonlinear_arith)
                requires
                    m >= 0x80_0000,
                    q >= 1,
            ;
        }
    } else {
        let p = vstd::arithmetic::power2::pow2((f - 1) as nat) as int;
        let n = 0x80_0000 + b.fraction() as int;
        vstd::arithmetic::power2::lemma_pow2_pos((f - 1) as nat);
        assert(y == n * p);
        if e == 0 {
            assert(x <= 0x7f_ffff);
            assert(n * p >= 0x80_0000) by (nonlinear_arith)
                requires
                    n >= 0x80_0000,
                    p >= 1,
            ;
        } else {
            let q = vstd::arithmetic::power2::pow2((e - 1) as nat) as int;
            let m = 0x80_0000 + a.fraction() as int;
            vstd::arithmetic::power2::lemma_pow2_pos((e - 1) as nat);
            assert(x == m * q);
            if e == f {
                assert(m < n) by (nonlinear_arith)
                    requires
                        m * p < n * p,
                        p >= 1,
                ;
                assert(m * p * 0x100_0000 <= n * p * 0xff_ffff) by (nonlinear_arith)
                    requires
                        m + 1 <= n < 0x100_0000,
                        p >= 1,
                ;
            } else if e < f {
                if e < f - 1 {
                    vstd::arithmetic::power2::lemma_pow2_strictly_increases(
                        (e - 1) as nat,
                        (f - 2) as nat,
                    );
                }
                vstd::arithmetic::power2::lemma_pow2_unfold((f - 1) as nat);
                assert(2 * q <= p);
                assert(m * q * 0x100_0000 <= n * p * 0xff_ffff) by (nonlinear_arith)
                    requires
                        2 * q <= p,
                        q >= 1,
                        0 <= m <= 0xff_ffff,
                        n >= 0x80_0000,
                ;
            } else {
                law_patterns_order_numbers(a, b);
            }
        }
    }
}

/// What is infinite is not 0, and its sign is that of its value.
pub(crate) proof fn lemma_infinite(a: Binary32)
    requires
        a.is_infinite(),
    ensures
        !a.is_nan(),
        a.is_negative() ==> a.scaled() < 0,
        !a.is_negative() ==> a.scaled() > 0,
{
    vstd::arithmetic::power2::lemma_pow2_pos(254);
    let p = vstd::arithmetic::power2::pow2(254);
    assert(a.magnitude() == 0x80_0000 * p);
}

/// A larger number has no smaller integer part.
pub(crate) proof fn lemma_floor_in_order(a: Binary32, b: Binary32)
    requires
        !a.is_nan(),
        !b.is_nan(),
        0 <= a.scaled() <= b.scaled(),
    ensures
        a.floor_nat() <= b.floor_nat(),
{
    vstd::arithmetic::power2::lemma_pow2_pos(149);
    let d = Binary32::unit() as int;
    if !a.is_negative() {
        vstd::arithmetic::div_mod::lemma_div_is_ordered(
            a.magnitude() as int,
            b.magnitude() as int,
            d,
        );
        if b.is_negative() {
            assert(a.magnitude() == 0);
            assert(0int / d == 0) by (nonlinear_arith)
                requires
                    d > 0,
            ;
        }
    }
}

/// Of two numbers, the larger is the larger and the smaller the smaller; where one of the two is no
/// number, both are the other.
pub proof fn law_larger_and_smaller(a: Binary32, b: Binary32)
    ensures
        !a.is_nan() && !b.is_nan() ==> !a.larger(b).is_nan() && a.larger(b).scaled()
            == vstd::math::max(a.scaled(), b.scaled()),
        !a.is_nan() && !b.is_nan() ==> !a.smaller(b).is_nan() && a.smaller(b).scaled()
            == vstd::math::min(a.scaled(), b.scaled()),
        a.is_nan() ==> a.larger(b) == b && a.smaller(b) == b,
        b.is_nan() && !a.is_nan() ==> a.larger(b) == a && a.smaller(b) == a,
{
}

/// A number brought into a range is the nearest one of the range.
pub proof fn law_clamped_exactly(x: Binary32, lo: Binary32, hi: Binary32)
    requires
        lo.at_most(hi),
    ensures
        !x.is_nan() ==> !x.clamped(lo, hi).is_nan() && x.clamped(lo, hi).scaled()
            == vstd::math::max(lo.scaled(), vstd::math::min(x.scaled(), hi.scaled())),
        lo.at_most(x) && x.at_most(hi) ==> x.clamped(lo, hi) == x,
        x.is_nan() ==> x.clamped(lo, hi) == x,
{
}

/// A pattern is read as sign, exponent and fraction: with an exponent `e` of 1 to 254 and a fraction
/// `f`, its value is 2^23 + `f` times 2^(`e` - 1), and with an exponent of 0 it is `f`.
pub proof fn law_values_of_patterns(negative: bool, e: nat, f: nat)
    requires
        e <= 254,
        f < 0x80_0000,
    ensures
        ({
            let sign: int = if negative {
                0x8000_0000
            } else {
                0
            };
            let a = Binary32 { bits: (sign + e * 0x80_0000 + f) as u32 };
            let size = if e == 0 {
                f
            } else {
                (0x80_0000 + f) * vstd::arithmetic::power2::pow2((e - 1) as nat)
            };
            &&& a.is_finite() && !a.is_nan()
            &&& a.scaled() == if negative {
                -(size as int)
            } else {
                size as int
            }
        }),
{
    let sign: int = if negative {
        0x8000_0000
    } else {
        0
    };
    let a = Binary32 { bits: (sign + e * 0x80_0000 + f) as u32 };
    assert(a.bits == sign + e * 0x80_0000 + f);
    assert(a.exponent() == e);
    assert(a.fraction() == f);
}

/// Numbers are in the order of their values, and what is no number is in no order.
pub proof fn law_order(a: Binary32, b: Binary32)
    ensures
        a.less(b) <==> !a.is_nan() && !b.is_nan() && a.scaled() < b.scaled(),
        a.at_most(b) <==> !a.is_nan() && !b.is_nan() && a.scaled() <= b.scaled(),
{
}

/// Negative numbers, and what is no number, are rounded to 0.
pub proof fn law_rounding_of_the_rest(a: Binary32)
    ensures
        a.is_nan() || a.is_negative() ==> a.floor_nat() == 0 && a.ceil_nat() == 0,
{
}

} // verus!
