//! Whole numbers next to a length: rounding, floor and ceiling.
//!
//! A whole number is a multiple of 2 to the 149th units of the smallest
//! positive value. Every value of magnitude 2 to the 23rd or more is whole.

use crate::scalar::product::UNIT_PLACES;
use crate::scalar::sum::{lemma_value_is_nearest_to_itself, nearest, round_shifted};
use crate::scalar::{power_of_two, Scalar};
use vstd::arithmetic::div_mod::{
    lemma_fundamental_div_mod, lemma_fundamental_div_mod_converse, lemma_mod_bound,
};
use vstd::arithmetic::power2::{
    lemma2_to64, lemma_pow2_adds, lemma_pow2_pos, lemma_pow2_strictly_increases, lemma_pow2_unfold,
    pow2,
};
use vstd::prelude::*;

verus! {

/// Which whole number to take for a magnitude.
#[derive(Copy, Clone, Debug, PartialEq, Eq, Structural)]
pub enum Towards {
    /// The nearest, and the larger of two that are as near.
    Nearest,
    /// The nearest that is not larger.
    Zero,
    /// The nearest that is not smaller.
    Away,
}

/// The whole number taken for a magnitude of `x` units.
pub open spec fn whole_count(x: nat, towards: Towards) -> nat {
    match towards {
        Towards::Nearest => (x + pow2(148)) / pow2(149),
        Towards::Zero => x / pow2(149),
        Towards::Away => ((x + pow2(149) - 1) / (pow2(149) as int)) as nat,
    }
}

impl Scalar {
    /// The whole number next to the value in the given direction, with
    /// the value's sign; what is not finite stays what it is.
    #[verifier::opaque]
    pub open spec fn whole(self, towards: Towards) -> Scalar {
        if !self.finite() {
            self
        } else {
            nearest(
                self.sign_negative(),
                whole_count(self.unit_count(), towards) * pow2(UNIT_PLACES as nat),
            )
        }
    }

    /// The value rounded to the nearest whole number, halves away from zero.
    pub open spec fn rounded_to_whole(self) -> Scalar {
        self.whole(Towards::Nearest)
    }

    /// The largest whole number that is not above the value.
    pub open spec fn floored(self) -> Scalar {
        self.whole(
            if self.sign_negative() {
                Towards::Away
            } else {
                Towards::Zero
            },
        )
    }

    /// The smallest whole number that is not below the value.
    pub open spec fn ceiled(self) -> Scalar {
        self.whole(
            if self.sign_negative() {
                Towards::Zero
            } else {
                Towards::Away
            },
        )
    }

    /// The whole number next to the value in the given direction.
    pub fn to_whole(self, towards: Towards) -> (out: Scalar)
        ensures
            out == self.whole(towards),
    {
        proof {
            reveal(Scalar::whole);
        }
        if !self.is_finite() {
            return self;
        }
        let (negative, m, s) = self.decode();
        let ghost x: nat = self.unit_count();
        let ghost unit = pow2(149);
        proof {
            lemma2_to64();
            lemma_pow2_pos(149);
            lemma_pow2_pos(s as nat);
            lemma_pow2_unfold(149);
            lemma_pow2_pos(148);
        }
        if s >= UNIT_PLACES {
            proof {
                // the value is whole already
                let up = (s - UNIT_PLACES) as nat;
                lemma_pow2_adds(up, 149);
                lemma_pow2_pos(up);
                let w = m as nat * pow2(up);
                assert(x == w * unit) by (nonlinear_arith)
                    requires
                        x == m * pow2(s as nat),
                        pow2(s as nat) == pow2(up) * unit,
                        w == m * pow2(up),
                ;
                lemma_fundamental_div_mod_converse(x as int, unit as int, w as int, 0);
                lemma_fundamental_div_mod_converse(
                    (x + pow2(148)) as int,
                    unit as int,
                    w as int,
                    pow2(148) as int,
                );
                lemma_fundamental_div_mod_converse(
                    x + unit - 1,
                    unit as int,
                    w as int,
                    unit - 1,
                );
                assert(whole_count(x, towards) == w);
                lemma_value_is_nearest_to_itself(self);
            }
            return self;
        }
        let n: u32 = UNIT_PLACES - s;
        let w: u32;
        if n >= 25 {
            proof {
                // the value is below a half: nothing is left but what rounding away adds
                lemma_pow2_adds(s as nat, n as nat);
                lemma_pow2_adds(s as nat, (n - 1) as nat);
                lemma_pow2_strictly_increases(24, n as nat);
                if n > 25 {
                    lemma_pow2_strictly_increases(24, (n - 1) as nat);
                }
                let ps = pow2(s as nat);
                assert(x < pow2(148)) by (nonlinear_arith)
                    requires
                        x == m * ps,
                        m < 0x100_0000,
                        pow2(148) == ps * pow2((n - 1) as nat),
                        0x100_0000 <= pow2((n - 1) as nat),
                        ps > 0,
                ;
                lemma_fundamental_div_mod_converse(x as int, unit as int, 0, x as int);
                lemma_fundamental_div_mod_converse(
                    (x + pow2(148)) as int,
                    unit as int,
                    0,
                    (x + pow2(148)) as int,
                );
                if m > 0 {
                    assert(x >= 1) by (nonlinear_arith)
                        requires
                            x == m * ps,
                            m >= 1,
                            ps >= 1,
                    ;
                    lemma_fundamental_div_mod_converse(x + unit - 1, unit as int, 1, x - 1);
                } else {
                    assert(x == 0) by (nonlinear_arith)
                        requires
                            x == m * ps,
                            m == 0,
                    ;
                    lemma_fundamental_div_mod_converse(x + unit - 1, unit as int, 0, unit - 1);
                }
            }
            w = match towards {
                Towards::Away => if m > 0 {
                    1
                } else {
                    0
                },
                _ => 0,
            };
        } else {
            proof {
                lemma_pow2_strictly_increases(n as nat, 25);
                lemma_pow2_unfold(n as nat);
                lemma_pow2_pos(n as nat);
                lemma_pow2_pos((n - 1) as nat);
                assert(pow2(25) == 0x200_0000);
            }
            let p: u32 = power_of_two(n) as u32;
            let half: u32 = power_of_two(n - 1) as u32;
            assert(p == pow2(n as nat) && half == pow2((n - 1) as nat) && p == 2 * half);
            let floor_w: u32 = m / p;
            let rem: u32 = m % p;
            w = match towards {
                Towards::Nearest => (m + half) / p,
                Towards::Zero => floor_w,
                Towards::Away => if rem != 0 {
                    floor_w + 1
                } else {
                    floor_w
                },
            };
            proof {
                // numerators and the unit share the scale of the value
                let ps = pow2(s as nat);
                lemma_pow2_adds(s as nat, n as nat);
                lemma_pow2_adds(s as nat, (n - 1) as nat);
                assert(unit == p * ps) by (nonlinear_arith)
                    requires
                        unit == ps * pow2(n as nat),
                        p == pow2(n as nat),
                ;
                assert(pow2(148) == half * ps) by (nonlinear_arith)
                    requires
                        pow2(148) == ps * pow2((n - 1) as nat),
                        half == pow2((n - 1) as nat),
                ;
                lemma_shifted_fraction(m as nat, p as nat, ps);
                lemma_shifted_fraction((m + half) as nat, p as nat, ps);
                assert(x + pow2(148) == (m + half) * ps) by (nonlinear_arith)
                    requires
                        x == m * ps,
                        pow2(148) == half * ps,
                ;
                lemma_fundamental_div_mod(m as int, p as int);
                lemma_mod_bound(m as int, p as int);
                if rem != 0 {
                    assert(x + unit - 1 == (floor_w + 1) * unit + (rem * ps - 1)) by (nonlinear_arith)
                        requires
                            x == m * ps,
                            m == p * floor_w + rem,
                            unit == p * ps,
                    ;
                    assert(0 <= rem * ps - 1 < unit) by (nonlinear_arith)
                        requires
                            1 <= rem < p,
                            ps >= 1,
                            unit == p * ps,
                    ;
                    lemma_fundamental_div_mod_converse(
                        x + unit - 1,
                        unit as int,
                        floor_w + 1,
                        rem * ps - 1,
                    );
                } else {
                    assert(x + unit - 1 == floor_w * unit + (unit - 1)) by (nonlinear_arith)
                        requires
                            x == m * ps,
                            m == p * floor_w,
                            unit == p * ps,
                    ;
                    lemma_fundamental_div_mod_converse(
                        x + unit - 1,
                        unit as int,
                        floor_w as int,
                        unit - 1,
                    );
                }
                assert(whole_count(x, towards) == w);
            }
        }
        proof {
            lemma_pow2_strictly_increases(25, 100);
            assert(pow2(25) == 0x200_0000);
        }
        round_shifted(negative, w as u128, UNIT_PLACES)
    }

    /// The value nearest to the whole number `count`.
    pub open spec fn of_count(count: nat) -> Scalar {
        nearest(false, count * pow2(UNIT_PLACES as nat))
    }

    /// The value nearest to the whole number `count`.
    pub fn from_count(count: usize) -> (out: Scalar)
        ensures
            out == Scalar::of_count(count as nat),
    {
        proof {
            lemma2_to64();
            lemma_pow2_strictly_increases(64, 100);
        }
        round_shifted(false, count as u128, UNIT_PLACES)
    }

    /// The value rounded to the nearest whole number, halves away from zero.
    pub fn round(self) -> (out: Scalar)
        ensures
            out == self.rounded_to_whole(),
    {
        self.to_whole(Towards::Nearest)
    }

    /// The largest whole number that is not above the value.
    pub fn floor(self) -> (out: Scalar)
        ensures
            out == self.floored(),
    {
        if self.is_sign_negative() {
            self.to_whole(Towards::Away)
        } else {
            self.to_whole(Towards::Zero)
        }
    }

    /// The smallest whole number that is not below the value.
    pub fn ceil(self) -> (out: Scalar)
        ensures
            out == self.ceiled(),
    {
        if self.is_sign_negative() {
            self.to_whole(Towards::Zero)
        } else {
            self.to_whole(Towards::Away)
        }
    }
}

/// The whole part of a fraction whose numerator and denominator are
/// multiplied alike is the whole part of the fraction.
proof fn lemma_shifted_fraction(n: nat, d: nat, c: nat)
    requires
        d > 0,
        c > 0,
    ensures
        (n * c) / (d * c) == n / d,
{
    lemma_fundamental_div_mod(n as int, d as int);
    lemma_mod_bound(n as int, d as int);
    let q = n / d;
    let r = n % d;
    assert(n * c == q * (d * c) + r * c) by (nonlinear_arith)
        requires
            n == d * q + r,
    ;
    assert(0 <= r * c < d * c) by (nonlinear_arith)
        requires
            0 <= r < d,
            c > 0,
    ;
    lemma_fundamental_div_mod_converse((n * c) as int, (d * c) as int, q as int, (r * c) as int);
}

} // verus!
