//! Exact price keys.
//!
//! A price is quantized to a whole part and a fractional part counted in
//! ticks, `SCALER` ticks to one, both rounded down. The tick is the smallest
//! difference in price that the book can tell apart.
//!
//! A price comes as a binary64 number, which stands for a decimal price only
//! up to half a unit in its last place. The price is therefore read with that
//! tolerance: where a tick boundary lies no further above the number, the
//! number is taken for the price on the boundary. A decimal price of five
//! fractional digits thus has the key of the decimal, whichever way its
//! nearest binary64 number errs, and two computations of it that end within
//! the tolerance of the boundary share the key. The tolerance is never more
//! than half a tick. It touches the fractional part alone: the whole part is
//! the floor of the number.
//!
//! Prices less than a tick apart share a key unless a tick boundary, read
//! so, lies between them.
//!
//! A price that is a NaN, an infinity or below zero has no key, and neither
//! has one whose whole part does not fit in 64 bits. A zero of either sign is
//! a price.

use crate::binary64::{unit, Binary64};
use crate::error::BookError;
use vstd::arithmetic::div_mod::{
    lemma_basic_div, lemma_div_is_ordered, lemma_div_multiples_vanish_fancy,
    lemma_fundamental_div_mod, lemma_fundamental_div_mod_converse, lemma_mod_bound,
    lemma_multiply_divide_lt, lemma_small_mod,
};
use vstd::arithmetic::power2::{
    lemma2_to64, lemma_pow2_adds, lemma_pow2_pos, lemma_pow2_strictly_increases, pow2,
};
use vstd::bits::{lemma_u128_shr_is_div, lemma_u64_pow2_no_overflow, lemma_u64_shl_is_mul};
use vstd::prelude::*;

verus! {

/// The number of ticks in one: five decimal digits of a price are kept.
pub const SCALER: u64 = 100_000;

/// The key under which a price level is filed: the whole part of the price,
/// and its fractional part in ticks, rounded down, as the price is read.
#[derive(Clone, Copy, Debug, PartialEq, Eq, Structural, Hash)]
pub struct Price {
    pub integral: u64,
    pub fractional: u64,
}

/// Powers of two grow with the exponent.
proof fn lemma_pow2_monotone(a: nat, b: nat)
    requires
        a <= b,
    ensures
        pow2(a) <= pow2(b),
{
    if a < b {
        lemma_pow2_strictly_increases(a, b);
    }
}

impl Price {
    /// The prices that have a key: the finite numbers that are not below
    /// zero and whose whole part fits in 64 bits.
    pub open spec fn admits(price: Binary64) -> bool {
        &&& price.is_finite()
        &&& !price.is_negative()
        &&& price.whole() <= u64::MAX
    }

    /// The key of a price: `floor(p)` and `floor((frac(p) + tol) * SCALER)`,
    /// where `frac(p)` is `p - floor(p)` and `tol` is the tolerance with
    /// which the price is read, half a unit in the last place of `p` and no
    /// more than half a tick.
    pub open spec fn of(price: Binary64) -> Price {
        Price {
            integral: price.whole() as u64,
            fractional: price.read_fraction(SCALER as nat) as u64,
        }
    }

    /// A key as the derivation gives it: the fractional part is less than a
    /// whole.
    pub open spec fn wf(self) -> bool {
        self.fractional < SCALER
    }

    /// The key as one number: the price in ticks.
    pub open spec fn ticks(self) -> nat {
        (self.integral * SCALER + self.fractional) as nat
    }

    /// The key of a price in ticks.
    pub open spec fn from_ticks(ticks: nat) -> Price {
        Price {
            integral: (ticks / SCALER as nat) as u64,
            fractional: (ticks % SCALER as nat) as u64,
        }
    }

    /// The key as one number: the price in ticks.
    pub fn to_ticks(self) -> (r: u128)
        ensures
            r == self.ticks(),
    {
        assert(self.integral * SCALER <= 0xffff_ffff_ffff_ffff * 100_000) by (nonlinear_arith)
            requires
                self.integral <= 0xffff_ffff_ffff_ffff,
                SCALER == 100_000,
        ;
        self.integral as u128 * SCALER as u128 + self.fractional as u128
    }

    /// The key of a price in ticks.
    pub(crate) fn at_ticks(ticks: u128) -> (r: Price)
        requires
            ticks / (SCALER as u128) <= u64::MAX,
        ensures
            r == Price::from_ticks(ticks as nat),
    {
        Price {
            integral: (ticks / SCALER as u128) as u64,
            fractional: (ticks % SCALER as u128) as u64,
        }
    }

    /// Two keys of the same number of ticks are the same key.
    pub proof fn lemma_ticks_injective(a: Price, b: Price)
        requires
            a.wf(),
            b.wf(),
            a.ticks() == b.ticks(),
        ensures
            a == b,
    {
    }

    /// A key is found again from its ticks.
    pub proof fn lemma_from_ticks(self)
        requires
            self.wf(),
        ensures
            Price::from_ticks(self.ticks()) == self,
    {
    }

    /// Every derived key has its fractional part below a whole, and the key
    /// of a price that has one is that price in ticks as it is read, rounded
    /// down: `floor((p + tol) * SCALER)`.
    pub proof fn lemma_of(price: Binary64)
        ensures
            Price::of(price).wf(),
            Price::admits(price) ==> Price::of(price).ticks() == price.read_scaled(SCALER as nat),
    {
        price.lemma_read_split(SCALER as nat);
    }

    /// The key is a function of the number alone: two prices of the same
    /// value, such as the two zeros, have the same key.
    pub proof fn lemma_key_of_value(a: Binary64, b: Binary64)
        requires
            a.magnitude() == b.magnitude(),
        ensures
            Price::of(a) == Price::of(b),
    {
        a.lemma_scale_monotone(b, SCALER as nat);
        b.lemma_scale_monotone(a, SCALER as nat);
    }

    /// Representation error does not reach the key. Let the last place of
    /// `price` be finer than a tick, and let the decimal price of `ticks`
    /// ticks lie within half a unit in that last place of `price`, as it
    /// does where `price` is the binary64 number nearest to the decimal.
    /// Then the key of `price` is the key of the decimal: it has `ticks`
    /// ticks.
    pub proof fn lemma_decimal_keeps_its_key(price: Binary64, ticks: nat)
        requires
            Price::admits(price),
            price.last_place() * SCALER < unit(),
            2 * (ticks * unit() - price.magnitude() * SCALER) <= price.last_place() * SCALER,
            2 * (price.magnitude() * SCALER - ticks * unit()) <= price.last_place() * SCALER,
        ensures
            Price::of(price).ticks() == ticks,
    {
        let s = SCALER as nat;
        let u = unit() as int;
        Price::lemma_of(price);
        let n = 2 * price.magnitude() * s + price.slack(s);
        let b = n - (2 * u) * ticks;
        assert(0 <= b < 2 * u) by (nonlinear_arith)
            requires
                b == 2 * price.magnitude() * s + price.last_place() * s - (2 * u) * ticks,
                price.last_place() * s < u,
                2 * (ticks * u - price.magnitude() * s) <= price.last_place() * s,
                2 * (price.magnitude() * s - ticks * u) <= price.last_place() * s,
        ;
        lemma_div_multiples_vanish_fancy(ticks as int, b, 2 * u);
    }

    /// The key of a price, worked out from its significand. Let the scale
    /// of a price that is not below zero be short of 1074 by `k`, and let
    /// `p` be two to the power `k`. If the significand is `whole * p + rest`
    /// with `rest` below `p`, and `fractional` is the quotient of
    /// `2 * rest * SCALER + min(SCALER, p)` by `2 * p`, then the price has
    /// the key of `whole` and `fractional`.
    pub proof fn lemma_key_by_parts(
        price: Binary64,
        p: nat,
        whole: nat,
        rest: nat,
        fractional: nat,
    )
        requires
            price.is_finite(),
            !price.sign_bit(),
            price.scale() < 1074,
            p == pow2((1074 - price.scale()) as nat),
            price.significand() == whole * p + rest,
            rest < p,
            2 * p * fractional <= 2 * rest * 100_000 + (if 100_000 <= p {
                100_000
            } else {
                p
            }) < 2 * p * (fractional + 1),
        ensures
            Price::admits(price),
            Price::of(price) == (Price { integral: whole as u64, fractional: fractional as u64 }),
    {
        let s = SCALER as nat;
        let c: nat = if s <= p {
            s
        } else {
            p
        };
        price.lemma_below_unit_scale(s);
        price.lemma_read_split(s);
        lemma_fundamental_div_mod_converse(
            price.significand() as int,
            p as int,
            whole as int,
            rest as int,
        );
        assert(2 * rest * s == 2 * rest * 100_000) by (nonlinear_arith)
            requires
                s == 100_000,
        ;
        let n = (2 * rest * s + c) as int;
        let d = (2 * p) as int;
        assert(fractional * d == 2 * p * fractional && fractional * d + d == 2 * p * (fractional
            + 1)) by (nonlinear_arith)
            requires
                d == 2 * p,
        ;
        lemma_fundamental_div_mod_converse(n, d, fractional as int, n - fractional * d);
        // The significand is below two to the power 53, and so is the
        // whole part.
        assert(whole <= price.significand()) by (nonlinear_arith)
            requires
                price.significand() == whole * p + rest,
                p >= 1,
        ;
    }

    /// Two prices share a key exactly when they are read as lying in the
    /// same tick, that is when they are read as the same number of ticks,
    /// rounded down.
    pub proof fn lemma_same_key_iff_same_tick(a: Binary64, b: Binary64)
        requires
            Price::admits(a),
            Price::admits(b),
        ensures
            Price::of(a) == Price::of(b) <==> a.read_scaled(SCALER as nat) == b.read_scaled(
                SCALER as nat,
            ),
    {
        Price::lemma_of(a);
        Price::lemma_of(b);
        if a.read_scaled(SCALER as nat) == b.read_scaled(SCALER as nat) {
            Price::lemma_ticks_injective(Price::of(a), Price::of(b));
        }
    }

    /// Quantization: a price `b` that is not below `a` and is read as lying
    /// below the next tick boundary above the tick of `a` has the key of
    /// `a`. The boundary is at `(floor((a + tol) * SCALER) + 1) / SCALER`.
    pub proof fn lemma_same_tick_same_key(a: Binary64, b: Binary64)
        requires
            Price::admits(a),
            Price::admits(b),
            a.magnitude() <= b.magnitude(),
            2 * b.magnitude() * SCALER + b.slack(SCALER as nat) < (a.read_scaled(SCALER as nat)
                + 1) * (2 * unit()),
        ensures
            Price::of(a) == Price::of(b),
    {
        let s = SCALER as nat;
        let u2 = (2 * unit()) as int;
        let na = 2 * a.magnitude() * s + a.slack(s);
        let nb = 2 * b.magnitude() * s + b.slack(s);
        lemma_pow2_pos(1074);
        a.lemma_scale_monotone(b, s);
        assert(2 * a.magnitude() * s <= 2 * b.magnitude() * s) by (nonlinear_arith)
            requires
                a.magnitude() <= b.magnitude(),
        ;
        lemma_div_is_ordered(na as int, nb as int, u2);
        assert((a.read_scaled(s) + 1) * u2 == u2 * (a.read_scaled(s) + 1)) by (nonlinear_arith);
        lemma_multiply_divide_lt(nb as int, u2, (a.read_scaled(s) + 1) as int);
        Price::lemma_same_key_iff_same_tick(a, b);
    }

    /// Two prices less than a tick apart have keys at most two ticks apart,
    /// and at most one tick apart where they have the same last place, and
    /// so the same tolerance.
    pub proof fn lemma_less_than_a_tick_apart(a: Binary64, b: Binary64)
        requires
            Price::admits(a),
            Price::admits(b),
            a.magnitude() <= b.magnitude(),
            (b.magnitude() - a.magnitude()) * SCALER < unit(),
        ensures
            Price::of(a).ticks() <= Price::of(b).ticks() <= Price::of(a).ticks() + 2,
            a.scale() == b.scale() ==> Price::of(b).ticks() <= Price::of(a).ticks() + 1,
    {
        let s = SCALER as nat;
        let u2 = (2 * unit()) as int;
        let na = (2 * a.magnitude() * s + a.slack(s)) as int;
        let nb = (2 * b.magnitude() * s + b.slack(s)) as int;
        lemma_pow2_pos(1074);
        Price::lemma_of(a);
        Price::lemma_of(b);
        a.lemma_scale_monotone(b, s);
        assert(2 * a.magnitude() * s <= 2 * b.magnitude() * s < 2 * a.magnitude() * s + u2)
            by (nonlinear_arith)
            requires
                a.magnitude() <= b.magnitude(),
                (b.magnitude() - a.magnitude()) * s < unit(),
                u2 == 2 * unit(),
        ;
        lemma_div_is_ordered(na, nb, u2);
        // What is read of `b` exceeds what is read of `a` by less than a
        // tick and the greater tolerance, which is at most half a tick.
        let q = na / u2;
        lemma_fundamental_div_mod(na, u2);
        lemma_mod_bound(na, u2);
        assert(u2 * (q + 3) == u2 * q + 3 * u2) by (nonlinear_arith);
        assert(u2 * (q + 2) == u2 * q + 2 * u2) by (nonlinear_arith);
        lemma_multiply_divide_lt(nb, u2, q + 3);
        if a.scale() == b.scale() {
            lemma_multiply_divide_lt(nb, u2, q + 2);
        }
    }

    /// Derives the key of `price`, or refuses a price that has none.
    pub fn new(price: Binary64) -> (r: Result<Price, BookError>)
        ensures
            match r {
                Ok(key) => Price::admits(price) && key == Price::of(price),
                Err(e) => !Price::admits(price) && e == BookError::InvalidPrice,
            },
    {
        if !price.is_finite() || price.is_negative() {
            return Err(BookError::InvalidPrice);
        }
        let (sig, t) = price.decode();
        if t >= 1074 {
            let j: u64 = t - 1074;
            proof {
                price.lemma_whole_scale(SCALER as nat);
                lemma2_to64();
            }
            if j > 11 {
                proof {
                    lemma_pow2_monotone(12, j as nat);
                    assert(sig * pow2(j as nat) >= 0x10_0000_0000_0000 * 0x1000)
                        by (nonlinear_arith)
                        requires
                            sig >= 0x10_0000_0000_0000,
                            pow2(j as nat) >= 0x1000,
                    ;
                }
                return Err(BookError::InvalidPrice);
            }
            proof {
                lemma_pow2_monotone(j as nat, 11);
                assert(sig * pow2(j as nat) < 0x20_0000_0000_0000 * 0x800) by (nonlinear_arith)
                    requires
                        sig < 0x20_0000_0000_0000,
                        pow2(j as nat) <= 0x800,
                ;
                lemma_u64_shl_is_mul(sig, j);
            }
            Ok(Price { integral: sig << j, fractional: 0 })
        } else {
            // The significand counts in steps of one in `2^k`: its quotient
            // by `2^k` is the whole part, and its remainder the fractional
            // part. What is read is the remainder and the tolerance, in
            // ticks: the quotient of `2 * rest * SCALER + slack` by twice
            // `2^k`, where `slack` is `SCALER` for half a step, or `2^k` for
            // half a tick where that is less.
            let k: u64 = 1074 - t;
            proof {
                price.lemma_below_unit_scale(SCALER as nat);
                lemma2_to64();
                lemma_pow2_pos(k as nat);
            }
            if k < 64 {
                proof {
                    lemma_u64_pow2_no_overflow(k as nat);
                    lemma_u64_shl_is_mul(1, k);
                }
                let step: u64 = 1u64 << k;
                let whole: u64 = sig / step;
                let rest: u64 = sig % step;
                let slack: u64 = if SCALER <= step {
                    SCALER
                } else {
                    step
                };
                assert(2 * rest * SCALER + slack <= 2 * 0xffff_ffff_ffff_ffff * 100_000 + 100_000)
                    by (nonlinear_arith)
                    requires
                        rest <= 0xffff_ffff_ffff_ffff,
                        slack <= 100_000,
                        SCALER == 100_000,
                ;
                let read: u128 = 2 * (rest as u128) * (SCALER as u128) + slack as u128;
                let fractional: u128 = read / (2 * (step as u128));
                proof {
                    price.lemma_read_split(SCALER as nat);
                }
                Ok(Price { integral: whole, fractional: fractional as u64 })
            } else {
                assert(2 * sig * SCALER + SCALER < 2 * 0x20_0000_0000_0000 * 100_000 + 100_000)
                    by (nonlinear_arith)
                    requires
                        sig < 0x20_0000_0000_0000,
                        SCALER == 100_000,
                ;
                let read: u128 = 2 * (sig as u128) * (SCALER as u128) + SCALER as u128;
                proof {
                    lemma_pow2_monotone(64, k as nat);
                    lemma_basic_div(sig as int, pow2(k as nat) as int);
                    lemma_small_mod(sig as nat, pow2(k as nat));
                    lemma_pow2_adds(k as nat, 1);
                    if k + 1 < 128 {
                        lemma_u128_shr_is_div(read, (k + 1) as u128);
                    } else {
                        lemma_pow2_adds(64, 64);
                        lemma_pow2_monotone(128, (k + 1) as nat);
                        lemma_basic_div(read as int, pow2((k + 1) as nat) as int);
                    }
                    price.lemma_read_split(SCALER as nat);
                }
                let fractional: u128 = if k + 1 < 128 {
                    read >> ((k + 1) as u128)
                } else {
                    0
                };
                Ok(Price { integral: 0, fractional: fractional as u64 })
            }
        }
    }
}

} // verus!
