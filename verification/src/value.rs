//! The numbers that finite encodings denote, and why the order of keys is
//! their order.
//!
//! A finite double is a whole multiple of the least positive double,
//! 2^-1074. With exponent field `e` and fraction field `f` that multiple is
//! `f` where `e` is zero (a subnormal number, or zero), and
//! `(2^52 + f) * 2^(e - 1)` otherwise, negated where the sign bit is set.

use crate::binary64::{Binary64, INFINITY_BITS};
use vstd::arithmetic::power2::{lemma2_to64, lemma_pow2_pos, lemma_pow2_strictly_increases, lemma_pow2_unfold, pow2};
use vstd::prelude::*;

verus! {

/// The number of values that the fraction field takes: 2^52.
pub const FRACTION_SPAN: u64 = 0x10_0000_0000_0000;

impl Binary64 {
    /// Neither a NaN nor an infinity.
    pub open spec fn is_finite(self) -> bool {
        self.magnitude() < INFINITY_BITS
    }

    /// The eleven bits below the sign bit.
    pub open spec fn exponent_field(self) -> int {
        self.magnitude() / (FRACTION_SPAN as int)
    }

    /// The low fifty-two bits.
    pub open spec fn fraction_field(self) -> int {
        self.magnitude() % (FRACTION_SPAN as int)
    }

    /// The significand as a whole number: the fraction field, with the
    /// implicit leading bit above it unless the exponent field is zero.
    pub open spec fn significand(self) -> int {
        if self.exponent_field() == 0 {
            self.fraction_field()
        } else {
            FRACTION_SPAN + self.fraction_field()
        }
    }

    /// The power of two by which the significand is scaled, counted from
    /// that of the subnormal numbers.
    pub open spec fn scale(self) -> nat {
        if self.exponent_field() == 0 {
            0
        } else {
            (self.exponent_field() - 1) as nat
        }
    }

    /// The absolute value that a finite encoding denotes, in units of the
    /// least positive double.
    pub open spec fn scaled_magnitude(self) -> int {
        self.significand() * pow2(self.scale())
    }

    /// The number that a finite encoding denotes, in units of the least
    /// positive double.
    pub open spec fn scaled_value(self) -> int {
        if self.sign_negative() {
            -self.scaled_magnitude()
        } else {
            self.scaled_magnitude()
        }
    }
}

/// A greater magnitude of the encoding is a greater absolute value.
pub proof fn lemma_scaled_magnitude_increases(a: Binary64, b: Binary64)
    requires
        a.magnitude() < b.magnitude(),
    ensures
        0 <= a.scaled_magnitude() < b.scaled_magnitude(),
{
    let span = FRACTION_SPAN as int;
    let (ea, fa) = (a.exponent_field(), a.fraction_field());
    let (eb, fb) = (b.exponent_field(), b.fraction_field());
    let (pa, pb) = (pow2(a.scale()) as int, pow2(b.scale()) as int);
    lemma_pow2_pos(a.scale());
    lemma_pow2_pos(b.scale());
    assert(0 <= a.significand() * pa) by (nonlinear_arith)
        requires
            0 <= a.significand(),
            0 < pa,
    ;
    if ea == eb {
        assert(a.significand() * pa < b.significand() * pa) by (nonlinear_arith)
            requires
                a.significand() < b.significand(),
                0 < pa,
        ;
    } else {
        assert(ea < eb);
        assert(span * 1 <= b.significand() * pb) by (nonlinear_arith)
            requires
                span <= b.significand(),
                1 <= pb,
                0 < span,
        ;
        if ea == 0 {
            lemma2_to64();
            assert(a.significand() * pa == a.significand()) by (nonlinear_arith)
                requires
                    pa == 1,
            ;
        } else {
            // The significand of `a` is below 2^53, so its absolute value is
            // below 2^52 * 2^ea, which the absolute value of `b` reaches.
            let next = pow2((a.scale() + 1) as nat) as int;
            lemma_pow2_unfold((a.scale() + 1) as nat);
            if a.scale() + 1 < b.scale() {
                lemma_pow2_strictly_increases((a.scale() + 1) as nat, b.scale());
            }
            assert(next <= pb);
            assert(a.significand() * pa < span * next) by (nonlinear_arith)
                requires
                    a.significand() < 2 * span,
                    next == 2 * pa,
                    0 < pa,
            ;
            assert(span * next <= b.significand() * pb) by (nonlinear_arith)
                requires
                    span <= b.significand(),
                    next <= pb,
                    0 < next,
                    0 < span,
            ;
        }
    }
}

/// Among finite encodings, the order of keys is the order of the numbers
/// denoted, and equal keys denote equal numbers.
pub proof fn lemma_key_order_is_numeric_order(a: Binary64, b: Binary64)
    requires
        a.is_finite(),
        b.is_finite(),
    ensures
        a.order_key() < b.order_key() <==> a.scaled_value() < b.scaled_value(),
        a.order_key() == b.order_key() <==> a.scaled_value() == b.scaled_value(),
{
    let zero = Binary64 { bits: 0 };
    assert(zero.scaled_magnitude() == 0) by (nonlinear_arith)
        requires
            zero.significand() == 0,
            zero.scaled_magnitude() == zero.significand() * pow2(zero.scale()),
    ;
    if a.magnitude() > 0 {
        lemma_scaled_magnitude_increases(zero, a);
    }
    if b.magnitude() > 0 {
        lemma_scaled_magnitude_increases(zero, b);
    }
    if a.magnitude() < b.magnitude() {
        lemma_scaled_magnitude_increases(a, b);
    }
    if b.magnitude() < a.magnitude() {
        lemma_scaled_magnitude_increases(b, a);
    }
}

/// The keys of the two infinities bound the keys of all numbers, and only
/// the infinities have them.
pub proof fn lemma_infinities_bound_keys(a: Binary64)
    requires
        !a.spec_is_nan(),
    ensures
        -(INFINITY_BITS as int) <= a.order_key() <= INFINITY_BITS as int,
        a.is_finite() <==> -(INFINITY_BITS as int) < a.order_key() < INFINITY_BITS as int,
{
}

} // verus!
