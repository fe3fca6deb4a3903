//! Floating-point arithmetic, as an operation that the caller supplies.
//!
//! The formulas of this library are written over seven elementary operations. Which hardware or
//! software rounds them is left to the caller, who passes one function that performs them all.
//! Contracts speak of every `Model` of that function: a mathematical function that gives the
//! results that the passed one returns.
use vstd::prelude::*;

use crate::binary32::Binary32;

verus! {

/// One elementary operation with its operands.
#[derive(Clone, Copy, Debug)]
pub enum Operation {
    /// The sum of two numbers.
    Add(Binary32, Binary32),
    /// The first number less the second.
    Sub(Binary32, Binary32),
    /// The product of two numbers.
    Mul(Binary32, Binary32),
    /// The first number divided by the second.
    Div(Binary32, Binary32),
    /// The square root of a number.
    Sqrt(Binary32),
    /// The number nearest to a signed integer.
    Signed(i64),
    /// The number nearest to an unsigned integer.
    Unsigned(u64),
}

/// `r` is the number nearest to `num / den`, in units of 2^-149: no finite number is nearer. Beyond
/// the largest number, `r` is that one or infinite.
pub open spec fn rounds(r: Binary32, num: int, den: int) -> bool {
    &&& !r.is_nan()
    &&& num > Binary32::largest() * den ==> r.scaled() >= Binary32::largest()
    &&& num < -(Binary32::largest() * den) ==> r.scaled() <= -(Binary32::largest() as int)
    &&& -(Binary32::largest() * den) <= num <= Binary32::largest() * den ==> {
        &&& r.is_finite()
        &&& forall|c: Binary32| #[trigger]
            c.is_finite() ==> vstd::math::abs(r.scaled() * den - num) <= vstd::math::abs(
                c.scaled() * den - num,
            )
    }
}

/// What every operation results in. All results that are no number have one pattern.
pub struct Model {
    pub result: spec_fn(Operation) -> Binary32,
}

impl Model {
    /// What a sum results in.
    pub open spec fn add(self, a: Binary32, b: Binary32) -> Binary32 {
        (self.result)(Operation::Add(a, b))
    }

    /// What a difference results in.
    pub open spec fn sub(self, a: Binary32, b: Binary32) -> Binary32 {
        (self.result)(Operation::Sub(a, b))
    }

    /// What a product results in.
    pub open spec fn mul(self, a: Binary32, b: Binary32) -> Binary32 {
        (self.result)(Operation::Mul(a, b))
    }

    /// What a quotient results in.
    pub open spec fn div(self, a: Binary32, b: Binary32) -> Binary32 {
        (self.result)(Operation::Div(a, b))
    }

    /// What a square root results in.
    pub open spec fn sqrt(self, a: Binary32) -> Binary32 {
        (self.result)(Operation::Sqrt(a))
    }

    /// What a signed integer is converted to.
    pub open spec fn signed(self, n: i64) -> Binary32 {
        (self.result)(Operation::Signed(n))
    }

    /// What an unsigned integer is converted to.
    pub open spec fn unsigned(self, n: u64) -> Binary32 {
        (self.result)(Operation::Unsigned(n))
    }

    /// Sums are rounded to nearest; a larger sum has no smaller result. Infinity outweighs what is
    /// finite, and what is no number stays so.
    #[verifier::opaque]
    pub open spec fn rounds_sums(self) -> bool {
        &&& forall|a: Binary32, b: Binary32|
            a.is_finite() && b.is_finite() ==> rounds(
                #[trigger] self.add(a, b),
                a.scaled() + b.scaled(),
                1,
            )
        &&& forall|a: Binary32, b: Binary32, c: Binary32, d: Binary32|
            a.is_finite() && b.is_finite() && c.is_finite() && d.is_finite() && a.scaled()
                + b.scaled() <= c.scaled() + d.scaled() ==> (#[trigger] self.add(a, b)).scaled()
                <= (#[trigger] self.add(c, d)).scaled()
        &&& forall|a: Binary32, b: Binary32|
            a.is_infinite() && (b.is_finite() || b.is_infinite() && a.is_negative()
                == b.is_negative()) ==> (#[trigger] self.add(a, b)).same_value(a)
        &&& forall|a: Binary32, b: Binary32|
            a.is_finite() && b.is_infinite() ==> (#[trigger] self.add(a, b)).same_value(b)
        &&& forall|a: Binary32, b: Binary32|
            a.is_nan() || b.is_nan() ==> (#[trigger] self.add(a, b)).is_nan()
    }

    /// Differences are rounded to nearest; a larger difference has no smaller result.
    #[verifier::opaque]
    pub open spec fn rounds_differences(self) -> bool {
        &&& forall|a: Binary32, b: Binary32|
            a.is_finite() && b.is_finite() ==> rounds(
                #[trigger] self.sub(a, b),
                a.scaled() - b.scaled(),
                1,
            )
        &&& forall|a: Binary32, b: Binary32, c: Binary32, d: Binary32|
            a.is_finite() && b.is_finite() && c.is_finite() && d.is_finite() && a.scaled()
                - b.scaled() <= c.scaled() - d.scaled() ==> (#[trigger] self.sub(a, b)).scaled()
                <= (#[trigger] self.sub(c, d)).scaled()
    }

    /// Products are rounded to nearest; a larger product has no smaller result. Infinity times
    /// anything but zero is infinite.
    #[verifier::opaque]
    pub open spec fn rounds_products(self) -> bool {
        &&& forall|a: Binary32, b: Binary32|
            a.is_finite() && b.is_finite() ==> rounds(
                #[trigger] self.mul(a, b),
                a.scaled() * b.scaled(),
                Binary32::unit() as int,
            )
        &&& forall|a: Binary32, b: Binary32, c: Binary32, d: Binary32|
            a.is_finite() && b.is_finite() && c.is_finite() && d.is_finite() && a.scaled()
                * b.scaled() <= c.scaled() * d.scaled() ==> (#[trigger] self.mul(a, b)).scaled()
                <= (#[trigger] self.mul(c, d)).scaled()
        &&& forall|a: Binary32, b: Binary32|
            (a.is_infinite() || b.is_infinite()) && !a.is_nan() && !b.is_nan() && a.scaled() != 0
                && b.scaled() != 0 ==> (#[trigger] self.mul(a, b)).is_infinite() && self.mul(
                a,
                b,
            ).is_negative() == (a.is_negative() != b.is_negative())
    }

    /// Quotients are rounded to nearest; a larger quotient has no smaller result. Infinity by what
    /// is finite is infinite.
    #[verifier::opaque]
    pub open spec fn rounds_quotients(self) -> bool {
        &&& forall|a: Binary32, b: Binary32|
            a.is_finite() && b.is_finite() && b.scaled() > 0 ==> rounds(
                #[trigger] self.div(a, b),
                a.scaled() * Binary32::unit(),
                b.scaled(),
            )
        &&& forall|a: Binary32, b: Binary32|
            a.is_finite() && b.is_finite() && b.scaled() < 0 ==> rounds(
                #[trigger] self.div(a, b),
                -(a.scaled() * Binary32::unit()),
                -b.scaled(),
            )
        &&& forall|a: Binary32, b: Binary32, c: Binary32, d: Binary32|
            a.is_finite() && b.is_finite() && c.is_finite() && d.is_finite() && b.scaled() > 0
                && d.scaled() > 0 && a.scaled() * d.scaled() <= c.scaled() * b.scaled() ==> (
            #[trigger] self.div(a, b)).scaled() <= (#[trigger] self.div(c, d)).scaled()
        &&& forall|a: Binary32, b: Binary32|
            a.is_infinite() && b.is_finite() && b.scaled() != 0 ==> (#[trigger] self.div(
                a,
                b,
            )).is_infinite() && self.div(a, b).is_negative() == (a.is_negative()
                != b.is_negative())
    }

    /// Square roots of what is not negative are numbers, not negative, and on the same side of
    /// every number as the exact root; that of infinity is infinite.
    #[verifier::opaque]
    pub open spec fn rounds_roots(self) -> bool {
        &&& forall|a: Binary32|
            !a.is_nan() && a.scaled() >= 0 ==> !(#[trigger] self.sqrt(a)).is_nan() && self.sqrt(
                a,
            ).scaled() >= 0
        &&& forall|a: Binary32, c: Binary32|
            a.is_finite() && c.is_finite() && a.scaled() >= 0 && c.scaled() >= 0 ==> {
                &&& a.scaled() * Binary32::unit() <= c.scaled() * c.scaled() ==> (#[trigger] self.sqrt(
                    a,
                )).scaled() <= (#[trigger] c.scaled())
                &&& a.scaled() * Binary32::unit() >= c.scaled() * c.scaled() ==> self.sqrt(
                    a,
                ).scaled() >= c.scaled()
            }
        &&& forall|a: Binary32|
            a.is_infinite() && !a.is_negative() ==> (#[trigger] self.sqrt(a)).same_value(a)
    }

    /// Integers are rounded to nearest; a larger integer has no smaller result.
    #[verifier::opaque]
    pub open spec fn rounds_integers(self) -> bool {
        &&& forall|n: i64| rounds(#[trigger] self.signed(n), n * Binary32::unit(), 1)
        &&& forall|n: u64| rounds(#[trigger] self.unsigned(n), n * Binary32::unit(), 1)
        &&& forall|n: i64, k: i64|
            n <= k ==> (#[trigger] self.signed(n)).scaled() <= (#[trigger] self.signed(k)).scaled()
        &&& forall|n: u64, k: u64|
            n <= k ==> (#[trigger] self.unsigned(n)).scaled() <= (#[trigger] self.unsigned(
                k,
            )).scaled()
    }

    /// Every result is the number nearest to the exact one, as the format's standard has it by
    /// default.
    pub open spec fn rounds_to_nearest(self) -> bool {
        &&& self.rounds_sums()
        &&& self.rounds_differences()
        &&& self.rounds_products()
        &&& self.rounds_quotients()
        &&& self.rounds_roots()
        &&& self.rounds_integers()
    }
}

/// The elementary operations, performed by `compute`.
pub struct Arithmetic<F> {
    pub compute: F,
}

impl<F: Fn(Operation) -> Binary32> Arithmetic<F> {
    /// Every operation may be asked for.
    pub open spec fn total(&self) -> bool {
        forall|op: Operation| #[trigger] call_requires(self.compute, (op,))
    }

    /// `m` gives the results that `compute` returns, with one pattern for all that is no number.
    pub open spec fn modelled_by(&self, m: Model) -> bool {
        forall|op: Operation, r: Binary32| #[trigger]
            call_ensures(self.compute, (op,), r) ==> r.canonical() == (m.result)(op)
    }

    /// Adds two numbers.
    #[inline]
    pub fn add(&self, a: Binary32, b: Binary32) -> (r: Binary32)
        requires
            self.total(),
        ensures
            forall|m: Model| #[trigger] self.modelled_by(m) ==> r == m.add(a, b),
    {
        (self.compute)(Operation::Add(a, b)).settle()
    }

    /// Subtracts the second number from the first.
    #[inline]
    pub fn sub(&self, a: Binary32, b: Binary32) -> (r: Binary32)
        requires
            self.total(),
        ensures
            forall|m: Model| #[trigger] self.modelled_by(m) ==> r == m.sub(a, b),
    {
        (self.compute)(Operation::Sub(a, b)).settle()
    }

    /// Multiplies two numbers.
    #[inline]
    pub fn mul(&self, a: Binary32, b: Binary32) -> (r: Binary32)
        requires
            self.total(),
        ensures
            forall|m: Model| #[trigger] self.modelled_by(m) ==> r == m.mul(a, b),
    {
        (self.compute)(Operation::Mul(a, b)).settle()
    }

    /// Divides the first number by the second.
    #[inline]
    pub fn div(&self, a: Binary32, b: Binary32) -> (r: Binary32)
        requires
            self.total(),
        ensures
            forall|m: Model| #[trigger] self.modelled_by(m) ==> r == m.div(a, b),
    {
        (self.compute)(Operation::Div(a, b)).settle()
    }

    /// Takes the square root.
    #[inline]
    pub fn sqrt(&self, a: Binary32) -> (r: Binary32)
        requires
            self.total(),
        ensures
            forall|m: Model| #[trigger] self.modelled_by(m) ==> r == m.sqrt(a),
    {
        (self.compute)(Operation::Sqrt(a)).settle()
    }

    /// Converts a signed integer.
    #[inline]
    pub fn signed(&self, n: i64) -> (r: Binary32)
        requires
            self.total(),
        ensures
            forall|m: Model| #[trigger] self.modelled_by(m) ==> r == m.signed(n),
    {
        (self.compute)(Operation::Signed(n)).settle()
    }

    /// Converts an unsigned integer.
    #[inline]
    pub fn unsigned(&self, n: u64) -> (r: Binary32)
        requires
            self.total(),
        ensures
            forall|m: Model| #[trigger] self.modelled_by(m) ==> r == m.unsigned(n),
    {
        (self.compute)(Operation::Unsigned(n)).settle()
    }
}

/// What rounds to `r` and is not above a number does not round above it.
pub(crate) proof fn lemma_not_above(r: Binary32, num: int, den: int, v: int)
    requires
        rounds(r, num, den),
        den > 0,
        Binary32::representable(v),
        num <= v * den,
    ensures
        r.scaled() <= v,
{
    let c = choose|c: Binary32| #[trigger] c.has(v);
    let top = Binary32::largest() as int;
    crate::binary32::lemma_finite_range(c);
    assert(v * den <= top * den) by (nonlinear_arith)
        requires
            v <= top,
            den > 0,
    ;
    if num >= -(top * den) && r.scaled() > v {
        let s = r.scaled();
        assert(s * den >= v * den + den) by (nonlinear_arith)
            requires
                s > v,
                den > 0,
        ;
        assert(c.is_finite());
    }
}

/// What rounds to `r` and is not below a number does not round below it.
pub(crate) proof fn lemma_not_below(r: Binary32, num: int, den: int, v: int)
    requires
        rounds(r, num, den),
        den > 0,
        Binary32::representable(v),
        num >= v * den,
    ensures
        r.scaled() >= v,
{
    let c = choose|c: Binary32| #[trigger] c.has(v);
    let top = Binary32::largest() as int;
    crate::binary32::lemma_finite_range(c);
    assert(v * den >= -(top * den)) by (nonlinear_arith)
        requires
            v >= -top,
            den > 0,
    ;
    if num <= top * den && r.scaled() < v {
        let s = r.scaled();
        assert(s * den <= v * den - den) by (nonlinear_arith)
            requires
                s < v,
                den > 0,
        ;
        assert(c.is_finite());
    }
}

/// What lies between two numbers is rounded to a finite number between them.
pub(crate) proof fn lemma_kept_between(r: Binary32, num: int, den: int, lo: int, hi: int)
    requires
        rounds(r, num, den),
        den > 0,
        Binary32::representable(lo),
        Binary32::representable(hi),
        lo * den <= num <= hi * den,
    ensures
        r.is_finite(),
        lo <= r.scaled() <= hi,
{
    lemma_not_above(r, num, den, hi);
    lemma_not_below(r, num, den, lo);
    let low = choose|c: Binary32| #[trigger] c.has(lo);
    let high = choose|c: Binary32| #[trigger] c.has(hi);
    crate::binary32::lemma_finite_range(low);
    crate::binary32::lemma_finite_range(high);
    crate::binary32::lemma_finite_range(r);
}

impl Model {
    /// A sum between two numbers stays between them.
    pub(crate) proof fn add_between(self, a: Binary32, b: Binary32, lo: int, hi: int)
        requires
            self.rounds_to_nearest(),
            a.is_finite(),
            b.is_finite(),
            Binary32::representable(lo),
            Binary32::representable(hi),
            lo <= a.scaled() + b.scaled() <= hi,
        ensures
            self.add(a, b).is_finite(),
            lo <= self.add(a, b).scaled() <= hi,
    {
        reveal(Model::rounds_sums);
        lemma_kept_between(self.add(a, b), a.scaled() + b.scaled(), 1, lo, hi);
    }

    /// A difference between two numbers stays between them.
    pub(crate) proof fn sub_between(self, a: Binary32, b: Binary32, lo: int, hi: int)
        requires
            self.rounds_to_nearest(),
            a.is_finite(),
            b.is_finite(),
            Binary32::representable(lo),
            Binary32::representable(hi),
            lo <= a.scaled() - b.scaled() <= hi,
        ensures
            self.sub(a, b).is_finite(),
            lo <= self.sub(a, b).scaled() <= hi,
    {
        reveal(Model::rounds_differences);
        lemma_kept_between(self.sub(a, b), a.scaled() - b.scaled(), 1, lo, hi);
    }

    /// A product between two numbers stays between them.
    pub(crate) proof fn mul_between(self, a: Binary32, b: Binary32, lo: int, hi: int)
        requires
            self.rounds_to_nearest(),
            a.is_finite(),
            b.is_finite(),
            Binary32::representable(lo),
            Binary32::representable(hi),
            lo * Binary32::unit() <= a.scaled() * b.scaled() <= hi * Binary32::unit(),
        ensures
            self.mul(a, b).is_finite(),
            lo <= self.mul(a, b).scaled() <= hi,
    {
        reveal(Model::rounds_products);
        vstd::arithmetic::power2::lemma_pow2_pos(149);
        lemma_kept_between(self.mul(a, b), a.scaled() * b.scaled(), Binary32::unit() as int, lo, hi);
    }

    /// A quotient between two numbers stays between them.
    pub(crate) proof fn div_between(self, a: Binary32, b: Binary32, lo: int, hi: int)
        requires
            self.rounds_to_nearest(),
            a.is_finite(),
            b.is_finite(),
            Binary32::representable(lo),
            Binary32::representable(hi),
            b.scaled() > 0,
            lo * b.scaled() <= a.scaled() * Binary32::unit() <= hi * b.scaled(),
        ensures
            self.div(a, b).is_finite(),
            lo <= self.div(a, b).scaled() <= hi,
    {
        reveal(Model::rounds_quotients);
        lemma_kept_between(self.div(a, b), a.scaled() * Binary32::unit(), b.scaled(), lo, hi);
    }

    /// A quotient by a negative number between two numbers stays between them.
    pub(crate) proof fn div_between_negative(self, a: Binary32, b: Binary32, lo: int, hi: int)
        requires
            self.rounds_to_nearest(),
            a.is_finite(),
            b.is_finite(),
            Binary32::representable(lo),
            Binary32::representable(hi),
            b.scaled() < 0,
            lo * b.scaled() >= a.scaled() * Binary32::unit() >= hi * b.scaled(),
        ensures
            self.div(a, b).is_finite(),
            lo <= self.div(a, b).scaled() <= hi,
    {
        reveal(Model::rounds_quotients);
        assert(lo * -b.scaled() == -(lo * b.scaled())) by (nonlinear_arith);
        assert(hi * -b.scaled() == -(hi * b.scaled())) by (nonlinear_arith);
        lemma_kept_between(self.div(a, b), -(a.scaled() * Binary32::unit()), -b.scaled(), lo, hi);
    }

    /// An integer between two numbers stays between them.
    pub(crate) proof fn unsigned_between(self, n: u64, lo: int, hi: int)
        requires
            self.rounds_to_nearest(),
            Binary32::representable(lo),
            Binary32::representable(hi),
            lo <= n * Binary32::unit() <= hi,
        ensures
            self.unsigned(n).is_finite(),
            lo <= self.unsigned(n).scaled() <= hi,
    {
        reveal(Model::rounds_integers);
        lemma_kept_between(self.unsigned(n), n * Binary32::unit(), 1, lo, hi);
    }

    /// An integer between two numbers stays between them.
    pub(crate) proof fn signed_between(self, n: i64, lo: int, hi: int)
        requires
            self.rounds_to_nearest(),
            Binary32::representable(lo),
            Binary32::representable(hi),
            lo <= n * Binary32::unit() <= hi,
        ensures
            self.signed(n).is_finite(),
            lo <= self.signed(n).scaled() <= hi,
    {
        reveal(Model::rounds_integers);
        lemma_kept_between(self.signed(n), n * Binary32::unit(), 1, lo, hi);
    }

    /// Nothing divided by something is nothing.
    pub(crate) proof fn div_of_zero(self, a: Binary32, b: Binary32)
        requires
            self.rounds_to_nearest(),
            a.has(0),
            b.is_finite(),
            b.scaled() > 0,
        ensures
            self.div(a, b).has(0),
    {
        assert(a.scaled() * Binary32::unit() == 0) by (nonlinear_arith)
            requires
                a.scaled() == 0,
        ;
        self.div_between(a, b, 0, 0);
    }

    /// A larger sum has no smaller result.
    pub(crate) proof fn add_in_order(self, a: Binary32, b: Binary32, c: Binary32, d: Binary32)
        requires
            self.rounds_to_nearest(),
            a.is_finite(),
            b.is_finite(),
            c.is_finite(),
            d.is_finite(),
            a.scaled() + b.scaled() <= c.scaled() + d.scaled(),
        ensures
            self.add(a, b).scaled() <= self.add(c, d).scaled(),
    {
        reveal(Model::rounds_sums);
    }

    /// A larger difference has no smaller result.
    pub(crate) proof fn sub_in_order(self, a: Binary32, b: Binary32, c: Binary32, d: Binary32)
        requires
            self.rounds_to_nearest(),
            a.is_finite(),
            b.is_finite(),
            c.is_finite(),
            d.is_finite(),
            a.scaled() - b.scaled() <= c.scaled() - d.scaled(),
        ensures
            self.sub(a, b).scaled() <= self.sub(c, d).scaled(),
    {
        reveal(Model::rounds_differences);
    }

    /// A larger product has no smaller result.
    pub(crate) proof fn mul_in_order(self, a: Binary32, b: Binary32, c: Binary32, d: Binary32)
        requires
            self.rounds_to_nearest(),
            a.is_finite(),
            b.is_finite(),
            c.is_finite(),
            d.is_finite(),
            a.scaled() * b.scaled() <= c.scaled() * d.scaled(),
        ensures
            self.mul(a, b).scaled() <= self.mul(c, d).scaled(),
    {
        reveal(Model::rounds_products);
    }

    /// A larger quotient has no smaller result.
    pub(crate) proof fn div_in_order(self, a: Binary32, b: Binary32, c: Binary32, d: Binary32)
        requires
            self.rounds_to_nearest(),
            a.is_finite(),
            b.is_finite(),
            c.is_finite(),
            d.is_finite(),
            b.scaled() > 0,
            d.scaled() > 0,
            a.scaled() * d.scaled() <= c.scaled() * b.scaled(),
        ensures
            self.div(a, b).scaled() <= self.div(c, d).scaled(),
    {
        reveal(Model::rounds_quotients);
    }

    /// A larger integer has no smaller result.
    pub(crate) proof fn unsigned_in_order(self, n: u64, k: u64)
        requires
            self.rounds_to_nearest(),
            n <= k,
        ensures
            self.unsigned(n).scaled() <= self.unsigned(k).scaled(),
    {
        reveal(Model::rounds_integers);
    }

    /// The square of a number is a number and not negative.
    pub(crate) proof fn square_is_number(self, a: Binary32)
        requires
            self.rounds_to_nearest(),
            !a.is_nan(),
        ensures
            !self.mul(a, a).is_nan(),
            self.mul(a, a).scaled() >= 0,
    {
        reveal(Model::rounds_products);
        let x = a.scaled();
        vstd::arithmetic::power2::lemma_pow2_pos(149);
        crate::binary32::lemma_representable(0, 0);
        if a.is_finite() {
            assert(x * x >= 0) by (nonlinear_arith);
            lemma_not_below(self.mul(a, a), x * x, Binary32::unit() as int, 0);
        } else {
            crate::binary32::lemma_infinite(a);
        }
    }

    /// The sum of two numbers that are not negative is a number and not negative.
    pub(crate) proof fn sum_is_number(self, a: Binary32, b: Binary32)
        requires
            self.rounds_to_nearest(),
            !a.is_nan(),
            !b.is_nan(),
            a.scaled() >= 0,
            b.scaled() >= 0,
        ensures
            !self.add(a, b).is_nan(),
            self.add(a, b).scaled() >= 0,
    {
        reveal(Model::rounds_sums);
        crate::binary32::lemma_representable(0, 0);
        if a.is_finite() && b.is_finite() {
            lemma_not_below(self.add(a, b), a.scaled() + b.scaled(), 1, 0);
        }
        if a.is_infinite() {
            crate::binary32::lemma_infinite(a);
        }
        if b.is_infinite() {
            crate::binary32::lemma_infinite(b);
        }
    }

    /// A number that is not negative divided by a positive one is a number and not negative.
    pub(crate) proof fn quotient_is_number(self, a: Binary32, b: Binary32)
        requires
            self.rounds_to_nearest(),
            !a.is_nan(),
            a.scaled() >= 0,
            b.is_finite(),
            b.scaled() > 0,
        ensures
            !self.div(a, b).is_nan(),
            self.div(a, b).scaled() >= 0,
    {
        reveal(Model::rounds_quotients);
        let x = a.scaled();
        let one = Binary32::unit();
        crate::binary32::lemma_representable(0, 0);
        if a.is_finite() {
            assert(x * one >= 0) by (nonlinear_arith)
                requires
                    x >= 0,
            ;
            lemma_not_below(self.div(a, b), x * one, b.scaled(), 0);
        } else {
            crate::binary32::lemma_infinite(a);
        }
    }

    /// Nothing added changes no value, whatever it is.
    pub(crate) proof fn add_zero(self, a: Binary32, b: Binary32)
        requires
            self.rounds_to_nearest(),
            b.has(0),
        ensures
            self.add(a, b).same_value(a),
    {
        if a.is_finite() {
            crate::binary32::lemma_finite_range(a);
            self.add_between(a, b, a.scaled(), a.scaled());
        } else {
            reveal(Model::rounds_sums);
        }
    }

    /// Nothing multiplied is nothing.
    pub(crate) proof fn mul_zero(self, a: Binary32, b: Binary32)
        requires
            self.rounds_to_nearest(),
            a.is_finite(),
            b.is_finite(),
            a.scaled() == 0 || b.scaled() == 0,
        ensures
            self.mul(a, b).has(0),
    {
        let x = a.scaled();
        let y = b.scaled();
        assert(x * y == 0) by (nonlinear_arith)
            requires
                x == 0 || y == 0,
        ;
        crate::binary32::lemma_representable(0, 0);
        assert(0 * Binary32::unit() == 0) by (nonlinear_arith);
        self.mul_between(a, b, 0, 0);
    }
}

/// A natural number in the binary digits that a number holds: `k` grains of 2^e reach it, and one
/// grain more exceeds it.
proof fn lemma_grid(n: nat) -> (r: (nat, nat))
    ensures
        r.0 < 0x100_0000,
        r.0 * vstd::arithmetic::power2::pow2(r.1) <= n,
        n < (r.0 + 1) * vstd::arithmetic::power2::pow2(r.1),
        r.1 == 0 || r.0 >= 0x80_0000,
    decreases n,
{
    vstd::arithmetic::power2::lemma2_to64();
    if n < 0x100_0000 {
        assert(n * 1 == n && (n + 1) * 1 == n + 1);
        (n, 0)
    } else {
        let h = n / 2;
        let (k, e) = lemma_grid(h);
        vstd::arithmetic::power2::lemma_pow2_unfold(e + 1);
        let p = vstd::arithmetic::power2::pow2(e);
        assert(k * (2 * p) == 2 * (k * p)) by (nonlinear_arith);
        assert((k + 1) * (2 * p) == 2 * ((k + 1) * p)) by (nonlinear_arith);
        if e == 0 {
            assert(k * 1 == k && (k + 1) * 1 == k + 1);
        }
        (k, e + 1)
    }
}

/// Around a natural number within range there are two numbers, or it is one itself, and they are
/// apart by no more than its share of 2^-23.
pub(crate) proof fn lemma_neighbours(n: nat) -> (r: (int, int))
    requires
        n <= Binary32::largest(),
    ensures
        Binary32::representable(r.0),
        Binary32::representable(r.1),
        0 <= r.0 <= n,
        r.0 == n && r.1 == n || n + 1 <= r.1,
        n < Binary32::largest() ==> n + 1 <= r.1,
        r.1 - r.0 <= 1 || 0x80_0000 * (r.1 - r.0) <= n,
{
    let (k, e) = lemma_grid(n);
    let p = vstd::arithmetic::power2::pow2(e) as int;
    vstd::arithmetic::power2::lemma_pow2_pos(e);
    vstd::arithmetic::power2::lemma2_to64();
    if e > 253 {
        let q = vstd::arithmetic::power2::pow2(253) as int;
        vstd::arithmetic::power2::lemma_pow2_pos(253);
        vstd::arithmetic::power2::lemma_pow2_unfold(254);
        if e > 254 {
            vstd::arithmetic::power2::lemma_pow2_strictly_increases(254, e);
        }
        assert(k * p >= 0x80_0000 * (2 * q)) by (nonlinear_arith)
            requires
                k >= 0x80_0000,
                p >= 2 * q,
                q > 0,
        ;
        assert(0x80_0000 * (2 * q) > 0xff_ffff * q) by (nonlinear_arith)
            requires
                q > 0,
        ;
    }
    crate::binary32::lemma_representable(k, e);
    assert((k + 1) * p == k * p + p) by (nonlinear_arith);
    assert(e == 0 || 0x80_0000 * p <= k * p) by (nonlinear_arith)
        requires
            e == 0 || k >= 0x80_0000,
            p > 0,
    ;
    if k + 1 < 0x100_0000 {
        crate::binary32::lemma_representable(k + 1, e);
        (k * p, (k + 1) * p)
    } else if e < 253 {
        vstd::arithmetic::power2::lemma_pow2_unfold(e + 1);
        crate::binary32::lemma_representable(0x80_0000, e + 1);
        assert(0x80_0000 * (2 * p) == (k + 1) * p) by (nonlinear_arith)
            requires
                k + 1 == 0x100_0000,
        ;
        (k * p, (k + 1) * p)
    } else {
        (k * p, k * p)
    }
}

/// How far rounding to nearest is off: at most a share of 2^-24, or a unit.
pub(crate) proof fn lemma_error(r: Binary32, num: int, den: int)
    requires
        rounds(r, num, den),
        den > 0,
        -(Binary32::largest() * den) <= num <= Binary32::largest() * den,
    ensures
        r.is_finite(),
        0x100_0000 * vstd::math::abs(r.scaled() * den - num) <= vstd::math::abs(num) + 0x100_0000
            * den,
{
    let top = Binary32::largest() as int;
    let size = vstd::math::abs(num) as int;
    let n = size / den;
    vstd::arithmetic::div_mod::lemma_fundamental_div_mod(size, den);
    assert(n >= 0 && n <= top && n * den <= size && size < (n + 1) * den) by (nonlinear_arith)
        requires
            size == den * n + size % den,
            0 <= size % den < den,
            0 <= size <= top * den,
            den > 0,
    ;
    let (lo, hi) = lemma_neighbours(n as nat);
    crate::binary32::lemma_representable_opposite(lo);
    crate::binary32::lemma_representable_opposite(hi);
    let low = if num >= 0 {
        lo
    } else {
        -lo
    };
    let high = if num >= 0 {
        hi
    } else {
        -hi
    };
    let a = choose|c: Binary32| #[trigger] c.has(low);
    let b = choose|c: Binary32| #[trigger] c.has(high);
    assert(a.is_finite() && b.is_finite());
    let x = lo * den;
    let y = hi * den;
    assert(low * den == if num >= 0 {
        x
    } else {
        -x
    }) by (nonlinear_arith)
        requires
            x == lo * den,
            low == if num >= 0 {
                lo
            } else {
                -lo
            },
    ;
    assert(high * den == if num >= 0 {
        y
    } else {
        -y
    }) by (nonlinear_arith)
        requires
            y == hi * den,
            high == if num >= 0 {
                hi
            } else {
                -hi
            },
    ;
    assert(x <= size) by (nonlinear_arith)
        requires
            x == lo * den,
            lo <= n,
            n * den <= size,
            den > 0,
    ;
    assert((hi - lo) * den == y - x) by (nonlinear_arith)
        requires
            x == lo * den,
            y == hi * den,
    ;
    if n + 1 <= hi {
        assert(y >= size) by (nonlinear_arith)
            requires
                y == hi * den,
                n + 1 <= hi,
                size < (n + 1) * den,
                den > 0,
        ;
    } else {
        assert(size == x) by (nonlinear_arith)
            requires
                x == n * den,
                n == top,
                n * den <= size <= top * den,
        ;
    }
    if hi - lo <= 1 {
        assert(y - x <= den) by (nonlinear_arith)
            requires
                (hi - lo) * den == y - x,
                hi - lo <= 1,
                den > 0,
        ;
    } else {
        assert(0x80_0000 * (y - x) <= size) by (nonlinear_arith)
            requires
                (hi - lo) * den == y - x,
                0x80_0000 * (hi - lo) <= n,
                n * den <= size,
                den > 0,
        ;
    }
}

/// `r` is off `num / den` by no more than `tolerance`, in units of 2^-149.
pub open spec fn close(r: Binary32, num: int, den: int, tolerance: int) -> bool {
    &&& r.is_finite()
    &&& vstd::math::abs(r.scaled() * den - num) <= tolerance * den
}

/// What is not larger than 2^23 times the tolerance is rounded within the tolerance.
pub(crate) proof fn lemma_close(r: Binary32, num: int, den: int, tolerance: int)
    requires
        rounds(r, num, den),
        den > 0,
        tolerance >= 2,
        vstd::math::abs(num) <= 0x80_0000 * tolerance * den,
        tolerance <= 0x1_0000_0000_0000 * Binary32::unit(),
    ensures
        close(r, num, den, tolerance),
{
    let top = Binary32::largest() as int;
    vstd::arithmetic::power2::lemma2_to64();
    vstd::arithmetic::power2::lemma_pow2_pos(149);
    vstd::arithmetic::power2::lemma_pow2_adds(64, 149);
    vstd::arithmetic::power2::lemma_pow2_adds(40, 213);
    vstd::arithmetic::power2::lemma_pow2_pos(40);
    let q = vstd::arithmetic::power2::pow2(213) as int;
    let z = vstd::arithmetic::power2::pow2(40) as int;
    assert(q * 0x80_0000 <= 0xff_ffff * (z * q)) by (nonlinear_arith)
        requires
            z >= 1,
            q >= 1,
    ;
    assert(z * q == vstd::arithmetic::power2::pow2(253));
    assert(0x80_0000 * tolerance <= top);
    let size = vstd::math::abs(num) as int;
    assert(size <= top * den) by (nonlinear_arith)
        requires
            size <= 0x80_0000 * tolerance * den,
            0x80_0000 * tolerance <= top,
            den > 0,
    ;
    lemma_error(r, num, den);
    assert(0x80_0000 * tolerance * den == 0x80_0000 * (tolerance * den)) by (nonlinear_arith);
    assert(2 * den <= tolerance * den) by (nonlinear_arith)
        requires
            tolerance >= 2,
            den > 0,
    ;
}

impl Model {
    /// What the result of `add` is nearest to.
    pub(crate) proof fn add_rounds(self, a: Binary32, b: Binary32)
        requires
            self.rounds_to_nearest(),
            a.is_finite(),
            b.is_finite(),
        ensures
            rounds(self.add(a, b), a.scaled() + b.scaled(), 1),
    {
        reveal(Model::rounds_sums);
    }

    /// How close the result of `add` is.
    pub(crate) proof fn add_close(self, a: Binary32, b: Binary32, tolerance: int)
        requires
            self.rounds_to_nearest(),
            a.is_finite(),
            b.is_finite(),
            2 <= tolerance <= 0x1_0000_0000_0000 * Binary32::unit(),
            vstd::math::abs(a.scaled() + b.scaled()) <= 0x80_0000 * tolerance * 1,
        ensures
            close(self.add(a, b), a.scaled() + b.scaled(), 1, tolerance),
    {
        self.add_rounds(a, b);
        lemma_close(self.add(a, b), a.scaled() + b.scaled(), 1, tolerance);
    }

    /// What the result of `sub` is nearest to.
    pub(crate) proof fn sub_rounds(self, a: Binary32, b: Binary32)
        requires
            self.rounds_to_nearest(),
            a.is_finite(),
            b.is_finite(),
        ensures
            rounds(self.sub(a, b), a.scaled() - b.scaled(), 1),
    {
        reveal(Model::rounds_differences);
    }

    /// How close the result of `sub` is.
    pub(crate) proof fn sub_close(self, a: Binary32, b: Binary32, tolerance: int)
        requires
            self.rounds_to_nearest(),
            a.is_finite(),
            b.is_finite(),
            2 <= tolerance <= 0x1_0000_0000_0000 * Binary32::unit(),
            vstd::math::abs(a.scaled() - b.scaled()) <= 0x80_0000 * tolerance * 1,
        ensures
            close(self.sub(a, b), a.scaled() - b.scaled(), 1, tolerance),
    {
        self.sub_rounds(a, b);
        lemma_close(self.sub(a, b), a.scaled() - b.scaled(), 1, tolerance);
    }

    /// What the result of `mul` is nearest to.
    pub(crate) proof fn mul_rounds(self, a: Binary32, b: Binary32)
        requires
            self.rounds_to_nearest(),
            a.is_finite(),
            b.is_finite(),
        ensures
            rounds(self.mul(a, b), a.scaled() * b.scaled(), (Binary32::unit() as int)),
    {
        reveal(Model::rounds_products);
    }

    /// How close the result of `mul` is.
    pub(crate) proof fn mul_close(self, a: Binary32, b: Binary32, tolerance: int)
        requires
            self.rounds_to_nearest(),
            a.is_finite(),
            b.is_finite(),
            2 <= tolerance <= 0x1_0000_0000_0000 * Binary32::unit(),
            vstd::math::abs(a.scaled() * b.scaled()) <= 0x80_0000 * tolerance * (Binary32::unit() as int),
        ensures
            close(self.mul(a, b), a.scaled() * b.scaled(), (Binary32::unit() as int), tolerance),
    {
        vstd::arithmetic::power2::lemma_pow2_pos(149);
        self.mul_rounds(a, b);
        lemma_close(self.mul(a, b), a.scaled() * b.scaled(), (Binary32::unit() as int), tolerance);
    }

    /// What the result of `div` is nearest to.
    pub(crate) proof fn div_rounds(self, a: Binary32, b: Binary32)
        requires
            self.rounds_to_nearest(),
            a.is_finite(),
            b.is_finite(),
            b.scaled() > 0,
        ensures
            rounds(self.div(a, b), a.scaled() * Binary32::unit(), b.scaled()),
    {
        reveal(Model::rounds_quotients);
    }

    /// How close the result of `div` is.
    pub(crate) proof fn div_close(self, a: Binary32, b: Binary32, tolerance: int)
        requires
            self.rounds_to_nearest(),
            a.is_finite(),
            b.is_finite(),
            b.scaled() > 0,
            2 <= tolerance <= 0x1_0000_0000_0000 * Binary32::unit(),
            vstd::math::abs(a.scaled() * Binary32::unit()) <= 0x80_0000 * tolerance * b.scaled(),
        ensures
            close(self.div(a, b), a.scaled() * Binary32::unit(), b.scaled(), tolerance),
    {
        self.div_rounds(a, b);
        lemma_close(self.div(a, b), a.scaled() * Binary32::unit(), b.scaled(), tolerance);
    }

    /// What the result of `unsigned` is nearest to.
    pub(crate) proof fn unsigned_rounds(self, n: u64)
        requires
            self.rounds_to_nearest(),
        ensures
            rounds(self.unsigned(n), n * Binary32::unit(), 1),
    {
        reveal(Model::rounds_integers);
    }

    /// How close the result of `unsigned` is.
    pub(crate) proof fn unsigned_close(self, n: u64, tolerance: int)
        requires
            self.rounds_to_nearest(),
            2 <= tolerance <= 0x1_0000_0000_0000 * Binary32::unit(),
            vstd::math::abs(n * Binary32::unit()) <= 0x80_0000 * tolerance * 1,
        ensures
            close(self.unsigned(n), n * Binary32::unit(), 1, tolerance),
    {
        self.unsigned_rounds(n);
        lemma_close(self.unsigned(n), n * Binary32::unit(), 1, tolerance);
    }

    /// How close a quotient of two numbers that are not positive is.
    pub(crate) proof fn div_close_negative(self, a: Binary32, b: Binary32, tolerance: int)
        requires
            self.rounds_to_nearest(),
            a.is_finite(),
            b.is_finite(),
            b.scaled() < 0,
            2 <= tolerance <= 0x1_0000_0000_0000 * Binary32::unit(),
            vstd::math::abs(a.scaled() * Binary32::unit()) <= 0x80_0000 * tolerance * -b.scaled(),
        ensures
            close(self.div(a, b), -(a.scaled() * Binary32::unit()), -b.scaled(), tolerance),
    {
        reveal(Model::rounds_quotients);
        lemma_close(
            self.div(a, b),
            -(a.scaled() * Binary32::unit()),
            -b.scaled(),
            tolerance,
        );
    }
}

/// The operations are what their names say: each is the result of the operation of that name on the
/// operands in their order.
pub proof fn law_operations(m: Model, a: Binary32, b: Binary32, n: i64, k: u64)
    ensures
        m.add(a, b) == (m.result)(Operation::Add(a, b)),
        m.sub(a, b) == (m.result)(Operation::Sub(a, b)),
        m.mul(a, b) == (m.result)(Operation::Mul(a, b)),
        m.div(a, b) == (m.result)(Operation::Div(a, b)),
        m.sqrt(a) == (m.result)(Operation::Sqrt(a)),
        m.signed(n) == (m.result)(Operation::Signed(n)),
        m.unsigned(k) == (m.result)(Operation::Unsigned(k)),
{
}

/// What a model says is what the caller's function returns, but for the pattern of what is no
/// number.
pub proof fn law_models<F: Fn(Operation) -> Binary32>(
    ops: &Arithmetic<F>,
    m: Model,
    op: Operation,
    r: Binary32,
)
    requires
        ops.modelled_by(m),
        call_ensures(ops.compute, (op,), r),
    ensures
        r.is_nan() ==> (m.result)(op).is_nan(),
        !r.is_nan() ==> (m.result)(op) == r,
{
}

} // verus!
