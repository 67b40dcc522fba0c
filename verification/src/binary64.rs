//! IEEE 754 binary64 numbers, read through their bit patterns.

use vstd::arithmetic::div_mod::{
    lemma_basic_div, lemma_div_by_multiple, lemma_div_multiples_vanish_quotient,
    lemma_fundamental_div_mod, lemma_hoist_over_denominator, lemma_mod_multiples_basic,
    lemma_multiply_divide_lt, lemma_truncate_middle,
};
use vstd::arithmetic::power2::{
    lemma2_to64, lemma_pow2_adds, lemma_pow2_pos, lemma_pow2_strictly_increases, pow2,
};
use vstd::prelude::*;

verus! {

/// The exponent field's weight: two to the power 52.
pub const FRACTION_SPAN: u64 = 0x10_0000_0000_0000;

/// The sign bit's weight: two to the power 63.
pub const SIGN_SPAN: u64 = 0x8000_0000_0000_0000;

/// The bit pattern of positive infinity; every pattern above it, the sign
/// bit left aside, is a NaN.
pub const INFINITY_BITS: u64 = 0x7ff0_0000_0000_0000;

/// The number of units in one: a finite binary64 number is a whole multiple
/// of two to the power -1074, the smallest positive number of the format.
pub open spec fn unit() -> nat {
    pow2(1074)
}

/// For a positive divisor `u`: `floor((2 * m * s + c) / (2 * u))` is
/// `floor(m / u) * s` plus `floor((2 * (m mod u) * s + c) / (2 * u))`.
pub proof fn lemma_floor_split(m: nat, s: nat, c: nat, u: nat)
    requires
        u > 0,
    ensures
        (2 * m * s + c) / (2 * u) == (m / u) * s + (2 * (m % u) * s + c) / (2 * u),
{
    let q = m / u;
    let r = m % u;
    lemma_fundamental_div_mod(m as int, u as int);
    assert(2 * m * s + c == (2 * r * s + c) + (q * s) * (2 * u)) by (nonlinear_arith)
        requires
            m == u * q + r,
    ;
    lemma_hoist_over_denominator((2 * r * s + c) as int, (q * s) as int, 2 * u);
}

/// Dividing `a * 2^t` by `2^(k + t)` is dividing `a` by `2^k`.
pub proof fn lemma_shifted_quotient(a: nat, t: nat, k: nat)
    ensures
        (a * pow2(t)) / pow2(k + t) == a / pow2(k),
{
    lemma_pow2_adds(k, t);
    lemma_pow2_pos(k);
    lemma_pow2_pos(t);
    lemma_div_multiples_vanish_quotient(pow2(t) as int, a as int, pow2(k) as int);
    assert(a * pow2(t) == pow2(t) * a) by (nonlinear_arith);
    assert(pow2(k) * pow2(t) == pow2(t) * pow2(k)) by (nonlinear_arith);
}

/// A binary64 number, held by its 64 bits: sign (1 bit), biased exponent
/// (11 bits), fraction (52 bits), from the most significant bit down.
///
/// `==` compares the bits, not the numbers: a NaN equals itself, and the two
/// zeros differ.
#[derive(Clone, Copy, Debug, PartialEq, Eq, Structural, Hash)]
pub struct Binary64 {
    pub bits: u64,
}

impl Binary64 {
    /// Whether the sign bit is set.
    pub open spec fn sign_bit(self) -> bool {
        self.bits >= SIGN_SPAN
    }

    /// The bits without the sign bit.
    pub open spec fn abs_bits(self) -> u64 {
        if self.bits >= SIGN_SPAN {
            (self.bits - SIGN_SPAN) as u64
        } else {
            self.bits
        }
    }

    /// The exponent field, from 0 to 2047.
    pub open spec fn biased_exponent(self) -> nat {
        (self.abs_bits() / FRACTION_SPAN) as nat
    }

    /// The fraction field, below two to the power 52.
    pub open spec fn fraction(self) -> nat {
        (self.abs_bits() % FRACTION_SPAN) as nat
    }

    /// Not a number: the exponent field is full and the fraction is not
    /// zero.
    pub open spec fn spec_is_nan(self) -> bool {
        self.abs_bits() > INFINITY_BITS
    }

    /// An infinity, of either sign.
    pub open spec fn spec_is_infinite(self) -> bool {
        self.abs_bits() == INFINITY_BITS
    }

    /// Neither a NaN nor an infinity.
    pub open spec fn spec_is_finite(self) -> bool {
        self.abs_bits() < INFINITY_BITS
    }

    /// The significand of a finite number: the fraction, with the implicit
    /// leading bit unless the number is subnormal.
    pub open spec fn significand(self) -> nat {
        if self.biased_exponent() == 0 {
            self.fraction()
        } else {
            FRACTION_SPAN as nat + self.fraction()
        }
    }

    /// The power of two by which the significand of a finite number is
    /// multiplied to give its magnitude in units.
    pub open spec fn scale(self) -> nat {
        if self.biased_exponent() == 0 {
            0
        } else {
            (self.biased_exponent() - 1) as nat
        }
    }

    /// The absolute value of a finite number, in units: the number is
    /// `magnitude() / unit()`, negated where the sign bit is set.
    pub open spec fn magnitude(self) -> nat {
        self.significand() * pow2(self.scale())
    }

    /// The whole part of the absolute value of a finite number: its floor.
    pub open spec fn whole(self) -> nat {
        self.magnitude() / unit()
    }

    /// One unit in the last place of the significand, in units: the distance
    /// from a finite number to the next of the same scale.
    pub open spec fn last_place(self) -> nat {
        pow2(self.scale())
    }

    /// Twice `s` times the tolerance with which a finite number is read, in
    /// units.
    ///
    /// The tolerance is half a unit in the last place: a numeral and the
    /// binary64 number nearest to it differ by no more. It is never more than
    /// half of `1 / s`, so that a number is read as at most the next multiple
    /// of `1 / s` above it.
    pub open spec fn slack(self, s: nat) -> nat {
        if self.last_place() * s <= unit() {
            self.last_place() * s
        } else {
            unit()
        }
    }

    /// The floor of `s` times the absolute value of a finite number as it is
    /// read, which is the number plus its tolerance.
    pub open spec fn read_scaled(self, s: nat) -> nat {
        (2 * self.magnitude() * s + self.slack(s)) / (2 * unit())
    }

    /// The floor of `s` times the fractional part of the absolute value of a
    /// finite number as it is read: what the number has above its whole
    /// part, plus its tolerance.
    pub open spec fn read_fraction(self, s: nat) -> nat {
        (2 * (self.magnitude() % unit()) * s + self.slack(s)) / (2 * unit())
    }

    /// A zero, of either sign.
    pub open spec fn spec_is_zero(self) -> bool {
        self.is_finite() && self.magnitude() == 0
    }

    /// A finite number below zero.
    pub open spec fn spec_is_negative(self) -> bool {
        self.is_finite() && self.sign_bit() && self.magnitude() > 0
    }

    /// A finite number above zero.
    pub open spec fn spec_is_positive(self) -> bool {
        self.is_finite() && !self.sign_bit() && self.magnitude() > 0
    }

    /// The number with the given bit pattern.
    pub fn from_bits(bits: u64) -> (r: Self)
        ensures
            r.bits == bits,
    {
        Binary64 { bits }
    }

    /// The bit pattern of the number.
    pub fn to_bits(self) -> (r: u64)
        ensures
            r == self.bits,
    {
        self.bits
    }

    /// The bits without the sign bit.
    fn magnitude_bits(self) -> (r: u64)
        ensures
            r == self.abs_bits(),
    {
        let bits: u64 = self.bits;
        assert(bits & 0x7fff_ffff_ffff_ffff == if bits >= 0x8000_0000_0000_0000 {
            (bits - 0x8000_0000_0000_0000) as u64
        } else {
            bits
        }) by (bit_vector);
        bits & 0x7fff_ffff_ffff_ffff
    }

    /// Whether the sign bit is set.
    pub fn is_sign_negative(self) -> (r: bool)
        ensures
            r == self.sign_bit(),
    {
        self.bits >= SIGN_SPAN
    }

    /// Whether the number is a NaN.
    #[verifier::when_used_as_spec(spec_is_nan)]
    pub fn is_nan(self) -> (r: bool)
        ensures
            r == self.spec_is_nan(),
    {
        self.magnitude_bits() > INFINITY_BITS
    }

    /// Whether the number is an infinity, of either sign.
    #[verifier::when_used_as_spec(spec_is_infinite)]
    pub fn is_infinite(self) -> (r: bool)
        ensures
            r == self.spec_is_infinite(),
    {
        self.magnitude_bits() == INFINITY_BITS
    }

    /// Whether the number is neither a NaN nor an infinity.
    #[verifier::when_used_as_spec(spec_is_finite)]
    pub fn is_finite(self) -> (r: bool)
        ensures
            r == self.spec_is_finite(),
    {
        self.magnitude_bits() < INFINITY_BITS
    }

    /// Whether the number is a zero, of either sign.
    #[verifier::when_used_as_spec(spec_is_zero)]
    pub fn is_zero(self) -> (r: bool)
        ensures
            r == self.spec_is_zero(),
    {
        proof {
            self.lemma_magnitude_zero();
        }
        self.magnitude_bits() == 0
    }

    /// Whether the number is finite and below zero.
    #[verifier::when_used_as_spec(spec_is_negative)]
    pub fn is_negative(self) -> (r: bool)
        ensures
            r == self.spec_is_negative(),
    {
        self.is_finite() && self.is_sign_negative() && !self.is_zero()
    }

    /// Whether the number is finite and above zero.
    #[verifier::when_used_as_spec(spec_is_positive)]
    pub fn is_positive(self) -> (r: bool)
        ensures
            r == self.spec_is_positive(),
    {
        self.is_finite() && !self.is_sign_negative() && !self.is_zero()
    }

    /// The significand and the scale, as the exponent and fraction fields
    /// give them: the magnitude of a finite number is the first times two to
    /// the power of the second.
    pub fn decode(self) -> (r: (u64, u64))
        ensures
            r.0 == self.significand(),
            r.1 == self.scale(),
            r.0 < 2 * FRACTION_SPAN,
            r.1 <= 2046,
            self.is_finite() ==> r.1 <= 2045,
            r.1 > 0 ==> r.0 >= FRACTION_SPAN,
    {
        let abs: u64 = self.magnitude_bits();
        assert(abs >> 52 == abs / 0x10_0000_0000_0000) by (bit_vector);
        assert(abs & 0xf_ffff_ffff_ffff == abs % 0x10_0000_0000_0000) by (bit_vector);
        let exponent: u64 = abs >> 52;
        let fraction: u64 = abs & 0xf_ffff_ffff_ffff;
        if exponent == 0 {
            (fraction, 0)
        } else {
            (FRACTION_SPAN + fraction, exponent - 1)
        }
    }

    /// Reading a number scaled splits into the whole part and the fractional
    /// part as read: `floor((x + tol) * s)` is `floor(x) * s` plus
    /// `floor((frac(x) + tol) * s)`, and the second term stays below `s`.
    pub proof fn lemma_read_split(self, s: nat)
        ensures
            self.read_scaled(s) == self.whole() * s + self.read_fraction(s),
            s > 0 ==> self.read_fraction(s) < s,
    {
        lemma_pow2_pos(1074);
        lemma_floor_split(self.magnitude(), s, self.slack(s), unit());
        if s > 0 {
            if self.scale() < 1074 {
                self.lemma_below_unit_scale(s);
                let p = pow2((1074 - self.scale()) as nat);
                let r = self.significand() % p;
                let c = if s <= p {
                    s
                } else {
                    p
                };
                lemma_pow2_pos((1074 - self.scale()) as nat);
                assert(2 * r * s + c < (2 * p) * s) by (nonlinear_arith)
                    requires
                        r < p,
                        c <= s,
                        s > 0,
                ;
                lemma_multiply_divide_lt((2 * r * s + c) as int, (2 * p) as int, s as int);
            } else {
                self.lemma_whole_scale(s);
            }
        }
    }

    /// A finite number whose scale is below 1074 has its lowest significand
    /// bit below one. With `p` the power of two that the scale is short of
    /// 1074: the whole part is the significand divided by `p`, and what is
    /// read of the fractional part comes from the remainder, the tolerance
    /// being half of one in `p`, capped.
    pub proof fn lemma_below_unit_scale(self, s: nat)
        requires
            self.scale() < 1074,
        ensures
            ({
                let p = pow2((1074 - self.scale()) as nat);
                let c = if s <= p {
                    s
                } else {
                    p
                };
                &&& self.whole() == self.significand() / p
                &&& self.read_fraction(s) == (2 * (self.significand() % p) * s + c) / (2 * p)
            }),
    {
        let sig = self.significand();
        let t = self.scale();
        let k = (1074 - t) as nat;
        let p = pow2(k);
        let w = pow2(t);
        let r = sig % p;
        let c = if s <= p {
            s
        } else {
            p
        };
        lemma_pow2_pos(k);
        lemma_pow2_pos(t);
        lemma_pow2_adds(k, t);
        lemma_shifted_quotient(sig, t, k);
        lemma_truncate_middle(sig as int, w as int, p as int);
        assert(sig * w == w * sig) by (nonlinear_arith);
        assert(p * w == w * p) by (nonlinear_arith);
        assert(self.magnitude() % unit() == w * r);
        assert(self.slack(s) == w * c) by (nonlinear_arith)
            requires
                self.slack(s) == if w * s <= p * w {
                    w * s
                } else {
                    p * w
                },
                c == if s <= p {
                    s
                } else {
                    p
                },
                w > 0,
        ;
        assert(2 * (w * r) * s + w * c == w * (2 * r * s + c)) by (nonlinear_arith);
        assert(2 * (p * w) == w * (2 * p)) by (nonlinear_arith);
        lemma_div_multiples_vanish_quotient(w as int, (2 * r * s + c) as int, (2 * p) as int);
    }

    /// A finite number whose scale is at least 1074 is whole, and is read as
    /// it is.
    pub proof fn lemma_whole_scale(self, s: nat)
        requires
            self.scale() >= 1074,
        ensures
            self.whole() == self.significand() * pow2((self.scale() - 1074) as nat),
            self.read_fraction(s) == 0,
    {
        let sig = self.significand();
        let j = (self.scale() - 1074) as nat;
        let w = sig * pow2(j);
        lemma_pow2_pos(1074);
        lemma_pow2_adds(j, 1074);
        assert(sig * (pow2(j) * pow2(1074)) == w * pow2(1074)) by (nonlinear_arith)
            requires
                w == sig * pow2(j),
        ;
        lemma_div_by_multiple(w as int, unit() as int);
        lemma_mod_multiples_basic(w as int, unit() as int);
        assert(2 * (self.magnitude() % unit()) * s == 0) by (nonlinear_arith)
            requires
                self.magnitude() % unit() == 0,
        ;
        lemma_basic_div(self.slack(s) as int, (2 * unit()) as int);
    }

    /// A number that is not the smaller has a scale that is not the
    /// smaller, and so a last place and a tolerance that are not.
    pub proof fn lemma_scale_monotone(self, other: Binary64, s: nat)
        requires
            self.magnitude() <= other.magnitude(),
        ensures
            self.scale() <= other.scale(),
            self.last_place() <= other.last_place(),
            self.slack(s) <= other.slack(s),
    {
        let ta = self.scale();
        let tb = other.scale();
        lemma_pow2_pos(ta);
        lemma_pow2_pos(tb);
        if ta > tb {
            lemma_pow2_adds(tb, 1);
            lemma2_to64();
            if tb + 1 < ta {
                lemma_pow2_strictly_increases(tb + 1, ta);
            }
            assert(self.significand() * pow2(ta) > other.significand() * pow2(tb))
                by (nonlinear_arith)
                requires
                    self.significand() >= 0x10_0000_0000_0000,
                    other.significand() < 0x20_0000_0000_0000,
                    pow2(ta) >= 2 * pow2(tb),
                    pow2(tb) > 0,
            ;
        }
        if ta < tb {
            lemma_pow2_strictly_increases(ta, tb);
        }
        assert(self.last_place() * s <= other.last_place() * s) by (nonlinear_arith)
            requires
                self.last_place() <= other.last_place(),
        ;
    }

    /// The magnitude is zero exactly when all bits but the sign are clear.
    pub proof fn lemma_magnitude_zero(self)
        ensures
            self.magnitude() == 0 <==> self.abs_bits() == 0,
    {
        lemma_pow2_pos(self.scale());
        let s = self.significand();
        let p = pow2(self.scale());
        assert(s * p == 0 <==> s == 0) by (nonlinear_arith)
            requires
                p > 0,
        ;
    }
}

} // verus!
