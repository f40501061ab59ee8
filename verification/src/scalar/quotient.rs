//! Quotients of lengths, exact to the last bit.
//!
//! The quotient of two binary32 values is the exact quotient of the
//! numbers that they stand for, rounded to the nearest value. In units of
//! the smallest positive value, the quotient of `a` units by `b` units is
//! 2 to the 149th times `a` over `b` units: a fraction, of which rounding
//! keeps the leading digits of the whole part.

use crate::scalar::product::UNIT_PLACES;
use crate::scalar::sum::EXACT_RANGE;
use crate::scalar::{
    lemma_pow2_127, lemma_pow2_le, power_of_two, Scalar, FRACTION_RANGE, INFINITY_BITS, SIGN_BIT,
};
use vstd::arithmetic::div_mod::{
    lemma_div_denominator, lemma_div_multiples_vanish_quotient, lemma_fundamental_div_mod,
    lemma_fundamental_div_mod_converse, lemma_mod_bound, lemma_truncate_middle,
};
use vstd::arithmetic::power2::{
    lemma2_to64, lemma_pow2_adds, lemma_pow2_pos, lemma_pow2_strictly_increases, lemma_pow2_unfold,
    pow2,
};
use vstd::prelude::*;

verus! {

/// The number of binary digits that the whole part of `num` over `den`
/// has too many to be a value: none where the fraction is below 2 to the
/// 24th, one more for each doubling from there.
pub open spec fn extra_bits(num: nat, den: nat) -> nat
    decreases num,
{
    if num < den * EXACT_RANGE || den == 0 {
        0
    } else {
        1 + extra_bits(num / 2, den)
    }
}

/// The bits, without the sign, of the value nearest to `num` over `den`
/// units: the whole part of the fraction as far as it has 24 digits,
/// raised by one where what is dropped is more than half a unit of the
/// last kept digit, or exactly half and the last kept digit is odd.
pub open spec fn nearest_fraction_magnitude(num: nat, den: nat) -> nat {
    let k = extra_bits(num, den);
    let d = den * pow2(k);
    let q = num / d;
    let r = num % d;
    let up: nat = if 2 * r > d || (2 * r == d && q % 2 == 1) {
        1
    } else {
        0
    };
    (k * FRACTION_RANGE + q + up) as nat
}

/// The value nearest to `num` over `den` units, with the given sign.
pub open spec fn nearest_fraction(negative: bool, num: nat, den: nat) -> Scalar {
    let m = if nearest_fraction_magnitude(num, den) >= INFINITY_BITS {
        INFINITY_BITS as nat
    } else {
        nearest_fraction_magnitude(num, den)
    };
    if negative {
        Scalar((m + SIGN_BIT) as u32)
    } else {
        Scalar(m as u32)
    }
}

/// A fraction between 2 to the (23 + k)th and 2 to the (24 + k)th has k
/// digits too many.
pub proof fn lemma_extra_bits(num: nat, den: nat, k: nat)
    requires
        den > 0,
        num < den * pow2(24 + k),
        k > 0 ==> den * pow2(23 + k) <= num,
    ensures
        extra_bits(num, den) == k,
    decreases k,
{
    lemma2_to64();
    if k == 0 {
    } else {
        lemma_pow2_le(24, 23 + k);
        lemma_pow2_unfold(23 + k);
        lemma_pow2_unfold(24 + k);
        let low = den * pow2((22 + k) as nat);
        let high = den * pow2((23 + k) as nat);
        assert(den * pow2(23 + k) == 2 * low && den * pow2(24 + k) == 2 * high)
            by (nonlinear_arith)
            requires
                pow2(23 + k) == 2 * pow2((22 + k) as nat),
                pow2(24 + k) == 2 * pow2((23 + k) as nat),
                low == den * pow2((22 + k) as nat),
                high == den * pow2((23 + k) as nat),
        ;
        assert(den * EXACT_RANGE <= den * pow2(23 + k)) by (nonlinear_arith)
            requires
                EXACT_RANGE <= pow2(23 + k),
                den > 0,
        ;
        assert(num / 2 < high);
        assert(low <= num / 2);
        lemma_extra_bits(num / 2, den, (k - 1) as nat);
    }
}

/// The whole part of a fraction whose numerator and denominator are
/// shifted alike is the whole part of the fraction, and what is left over
/// is shifted like them.
proof fn lemma_shift_cancels(n: nat, d: nat, g: nat)
    requires
        d > 0,
    ensures
        (n * pow2(g)) / (d * pow2(g)) == n / d,
        (n * pow2(g)) % (d * pow2(g)) == (n % d) * pow2(g),
{
    let p = pow2(g);
    lemma_pow2_pos(g);
    lemma_fundamental_div_mod(n as int, d as int);
    lemma_mod_bound(n as int, d as int);
    let q = n / d;
    let r = n % d;
    assert(n * p == q * (d * p) + r * p) by (nonlinear_arith)
        requires
            n == d * q + r,
    ;
    assert(0 <= r * p < d * p) by (nonlinear_arith)
        requires
            0 <= r < d,
            p > 0,
    ;
    lemma_fundamental_div_mod_converse((n * p) as int, (d * p) as int, q as int, (r * p) as int);
}

/// The leading digits of `quotient` without its `drop` low digits,
/// raised by one where the dropped digits, together with a rest below the
/// last of them, are more than half a unit of the last kept digit, or
/// exactly half and the last kept digit is odd.
pub open spec fn kept_digits(quotient: nat, rest_is_zero: bool, drop: nat) -> nat {
    let q = quotient / pow2(drop);
    let rem = quotient % pow2(drop);
    let half = pow2((drop - 1) as nat);
    if rem > half || (rem == half && (!rest_is_zero || q % 2 == 1)) {
        q + 1
    } else {
        q
    }
}

/// The value with the given bits below the sign, or infinity where those
/// are beyond the finite values, with the given sign.
pub open spec fn with_sign(negative: bool, magnitude: nat) -> Scalar {
    let m = if magnitude >= INFINITY_BITS {
        INFINITY_BITS as nat
    } else {
        magnitude
    };
    if negative {
        Scalar((m + SIGN_BIT) as u32)
    } else {
        Scalar(m as u32)
    }
}

/// The value whose digits are the leading digits of `quotient` and whose
/// exponent counts the dropped digits beyond the unit.
fn round_quotient(negative: bool, quotient: u128, rest_is_zero: bool, drop: u32, exponent: u32) -> (out:
    Scalar)
    requires
        quotient < pow2(100),
        1 <= drop <= 1000,
        exponent <= 1000,
        quotient < pow2((24 + drop) as nat),
    ensures
        out == with_sign(
            negative,
            (exponent as nat * FRACTION_RANGE + kept_digits(
                quotient as nat,
                rest_is_zero,
                drop as nat,
            )) as nat,
        ),
{
    proof {
        lemma2_to64();
        lemma_pow2_127();
        lemma_pow2_strictly_increases(100, 127);
        lemma_pow2_pos(drop as nat);
        lemma_pow2_unfold(drop as nat);
    }
    let magnitude: u64;
    if drop > 101 {
        proof {
            lemma_pow2_le(100, (drop - 1) as nat);
            lemma_fundamental_div_mod_converse(
                quotient as int,
                pow2(drop as nat) as int,
                0,
                quotient as int,
            );
        }
        magnitude = (exponent as u64) * 0x80_0000u64;
    } else {
        let p = power_of_two(drop);
        let hp = power_of_two(drop - 1);
        let q: u128 = quotient / p;
        let rem: u128 = quotient % p;
        let up: u64 = if rem > hp || (rem == hp && (!rest_is_zero || q % 2 == 1)) {
            1
        } else {
            0
        };
        proof {
            lemma_fundamental_div_mod(quotient as int, p as int);
            lemma_pow2_adds(24, drop as nat);
            assert(q < 0x100_0000) by (nonlinear_arith)
                requires
                    quotient == p * q + rem,
                    rem >= 0,
                    quotient < 0x100_0000 * p,
                    p > 0,
                    q >= 0,
            ;
        }
        let kept: u64 = q as u64;
        magnitude = (exponent as u64) * 0x80_0000u64 + kept + up;
    }
    let bits: u32 = if magnitude >= INFINITY_BITS as u64 {
        INFINITY_BITS
    } else {
        magnitude as u32
    };
    if negative {
        Scalar(bits + SIGN_BIT)
    } else {
        Scalar(bits)
    }
}

/// The digits that rounding keeps of `n` over `mb`, taken from the whole
/// part `quotient` of that fraction and the knowledge whether a rest is
/// left, are the digits that rounding keeps of the same fraction with
/// numerator and denominator shifted to stand for units.
proof fn lemma_quotient_digits(
    n: nat,
    mb: nat,
    quotient: nat,
    rest: nat,
    drop: nat,
    g: nat,
    k: nat,
    den: nat,
    num: nat,
)
    requires
        mb > 0,
        n == quotient * mb + rest,
        rest < mb,
        drop >= 1,
        quotient < pow2(24 + drop),
        k > 0 ==> pow2(23 + drop) <= quotient,
        num == n * pow2(g),
        den * pow2(k) == (mb * pow2(drop)) * pow2(g),
        den > 0,
    ensures
        nearest_fraction_magnitude(num, den) == k * FRACTION_RANGE + kept_digits(
            quotient,
            rest == 0,
            drop,
        ),
{
    lemma2_to64();
    let pd = pow2(drop);
    let pg = pow2(g);
    let half = pow2((drop - 1) as nat);
    lemma_pow2_pos(drop);
    lemma_pow2_pos(g);
    lemma_pow2_pos(k);
    lemma_pow2_unfold(drop);
    lemma_pow2_adds(24, drop);
    lemma_pow2_adds(23, drop);
    lemma_pow2_adds(24, k);
    lemma_pow2_adds(23, k);
    let d = mb * pd;
    assert(d > 0) by (nonlinear_arith)
        requires
            d == mb * pd,
            mb > 0,
            pd > 0,
    ;
    // the number of digits too many
    assert(n < mb * pow2(24 + drop)) by (nonlinear_arith)
        requires
            n == quotient * mb + rest,
            rest < mb,
            quotient < pow2(24 + drop),
            mb > 0,
    ;
    assert(num < den * pow2(24 + k)) by (nonlinear_arith)
        requires
            num == n * pg,
            n < mb * pow2(24 + drop),
            pow2(24 + drop) == 0x100_0000 * pd,
            pow2(24 + k) == 0x100_0000 * pow2(k),
            den * pow2(k) == (mb * pd) * pg,
            pg > 0,
    ;
    if k > 0 {
        assert(mb * pow2(23 + drop) <= n) by (nonlinear_arith)
            requires
                n == quotient * mb + rest,
                rest >= 0,
                pow2(23 + drop) <= quotient,
                mb > 0,
        ;
        assert(den * pow2(23 + k) <= num) by (nonlinear_arith)
            requires
                num == n * pg,
                mb * pow2(23 + drop) <= n,
                pow2(23 + drop) == 0x80_0000 * pd,
                pow2(23 + k) == 0x80_0000 * pow2(k),
                den * pow2(k) == (mb * pd) * pg,
                pg > 0,
        ;
    }
    lemma_extra_bits(num, den, k);
    // the kept digits
    lemma_shift_cancels(n, d, g);
    lemma_fundamental_div_mod_converse(n as int, mb as int, quotient as int, rest as int);
    lemma_div_denominator(n as int, mb as int, pd as int);
    let q = quotient / pd;
    let rem = quotient % pd;
    lemma_fundamental_div_mod(quotient as int, pd as int);
    lemma_mod_bound(quotient as int, pd as int);
    assert(n / d == q);
    let r = n % d;
    lemma_fundamental_div_mod(n as int, d as int);
    assert(r == rem * mb + rest) by (nonlinear_arith)
        requires
            n == d * q + r,
            d == mb * pd,
            n == quotient * mb + rest,
            quotient == pd * q + rem,
    ;
    // what is dropped against half a unit of the last kept digit
    assert(d == 2 * (half * mb)) by (nonlinear_arith)
        requires
            d == mb * pd,
            pd == 2 * half,
    ;
    assert((rem * mb + rest > half * mb) == (rem > half || (rem == half && rest > 0)) && (rem * mb
        + rest == half * mb) == (rem == half && rest == 0)) by (nonlinear_arith)
        requires
            0 <= rest < mb,
            rem >= 0,
            half >= 0,
    ;
    let rs = num % (den * pow2(k));
    assert(rs == r * pg);
    assert((2 * rs > d * pg) == (2 * r > d) && (2 * rs == d * pg) == (2 * r == d))
        by (nonlinear_arith)
        requires
            rs == r * pg,
            pg > 0,
    ;
    assert(num / (den * pow2(k)) == q);
}

impl Scalar {
    /// The quotient of the two values as binary32 arithmetic defines it.
    /// What is not a number stays so, and comes out as the canonical one;
    /// zero by zero and infinity by infinity are no numbers; anything else
    /// by zero, and infinity by anything else, is infinity; anything else
    /// by infinity is zero; finite values have the value nearest to their
    /// exact quotient. The sign is negative where exactly one operand's is.
    #[verifier::opaque]
    pub open spec fn quotient(self, other: Scalar) -> Scalar {
        let negative = self.sign_negative() != other.sign_negative();
        if self.nan() || other.nan() {
            Scalar(0x7fc0_0000)
        } else if self.infinite() {
            if other.infinite() {
                Scalar(0x7fc0_0000)
            } else {
                with_sign(negative, INFINITY_BITS as nat)
            }
        } else if other.infinite() {
            with_sign(negative, 0)
        } else if other.zero() {
            if self.zero() {
                Scalar(0x7fc0_0000)
            } else {
                with_sign(negative, INFINITY_BITS as nat)
            }
        } else {
            nearest_fraction(
                negative,
                self.unit_count() * pow2(UNIT_PLACES as nat),
                other.unit_count(),
            )
        }
    }

    /// The quotient of the two values.
    pub fn over(self, other: Scalar) -> (out: Scalar)
        ensures
            out == self.quotient(other),
    {
        proof {
            reveal(Scalar::quotient);
        }
        if self.is_nan() || other.is_nan() {
            return Scalar::not_a_number();
        }
        let negative = self.is_sign_negative() != other.is_sign_negative();
        let signed_infinity = if negative {
            Scalar::neg_infinity()
        } else {
            Scalar::infinity()
        };
        let signed_zero = if negative {
            Scalar(SIGN_BIT)
        } else {
            Scalar(0)
        };
        if self.is_infinite() {
            if other.is_infinite() {
                return Scalar::not_a_number();
            }
            return signed_infinity;
        }
        if other.is_infinite() {
            return signed_zero;
        }
        if other.is_zero() {
            if self.is_zero() {
                return Scalar::not_a_number();
            }
            return signed_infinity;
        }
        let (_, ma, sa) = self.decode();
        let (_, mb, sb) = other.decode();
        let ghost num: nat = self.unit_count() * pow2(UNIT_PLACES as nat);
        let ghost den: nat = other.unit_count();
        proof {
            lemma2_to64();
            lemma_pow2_pos(sa as nat);
            lemma_pow2_pos(sb as nat);
            assert(mb > 0);
            assert(den > 0) by (nonlinear_arith)
                requires
                    den == mb * pow2(sb as nat),
                    mb > 0,
                    pow2(sb as nat) > 0,
            ;
        }
        if ma == 0 {
            proof {
                assert(num == 0) by (nonlinear_arith)
                    requires
                        num == (ma * pow2(sa as nat)) * pow2(UNIT_PLACES as nat),
                        ma == 0,
                ;
                assert(0 < den * EXACT_RANGE) by (nonlinear_arith)
                    requires
                        den > 0,
                ;
                assert(extra_bits(0, den) == 0);
                assert(den * pow2(0) == den) by (nonlinear_arith)
                    requires
                        pow2(0) == 1,
                ;
                lemma_fundamental_div_mod_converse(0, den as int, 0, 0);
                assert(nearest_fraction_magnitude(0, den) == 0);
            }
            return signed_zero;
        }
        proof {
            lemma_pow2_adds(24, 50);
            lemma_pow2_strictly_increases(74, 100);
            lemma_pow2_strictly_increases(50, 74);
            lemma_pow2_pos(50);
            crate::scalar::lemma_product_below(ma as int, pow2(50) as int, 0x100_0000, pow2(50) as int);
            lemma_pow2_127();
            lemma_pow2_strictly_increases(100, 127);
            lemma_pow2_adds(24, 24);
            lemma_pow2_strictly_increases(48, 50);
        }
        let n: u128 = (ma as u128) * power_of_two(50);
        let divisor: u128 = mb as u128;
        let quotient: u128 = n / divisor;
        let rest: u128 = n % divisor;
        proof {
            lemma_fundamental_div_mod(n as int, divisor as int);
            lemma_mod_bound(n as int, divisor as int);
            assert(n >= pow2(50)) by (nonlinear_arith)
                requires
                    n == ma * pow2(50),
                    ma >= 1,
                    pow2(50) > 0,
            ;
            assert(quotient <= n) by (nonlinear_arith)
                requires
                    n == divisor * quotient + rest,
                    rest >= 0,
                    divisor >= 1,
                    quotient >= 0,
            ;
            assert(quotient >= 0x100_0000) by (nonlinear_arith)
                requires
                    n == divisor * quotient + rest,
                    rest < divisor,
                    divisor < 0x100_0000,
                    n >= pow2(50),
                    pow2(50) > 0x100_0000 * 0x100_0000,
                    quotient >= 0,
            ;
        }
        let mut q0: u128 = quotient;
        let mut j: u32 = 0;
        while q0 >= 0x100_0000
            invariant
                j <= 100,
                quotient < pow2(100),
                q0 * pow2(j as nat) <= quotient < (q0 + 1) * pow2(j as nat),
                q0 <= quotient,
                j > 0 ==> q0 >= 0x80_0000,
                j == 0 ==> q0 == quotient,
            decreases q0,
        {
            proof {
                lemma_pow2_unfold((j + 1) as nat);
                lemma_pow2_pos(j as nat);
                let p = pow2(j as nat) as int;
                let h = (q0 / 2) as int;
                assert(h * (2 * p) <= q0 * p && (q0 + 1) * p <= (h + 1) * (2 * p))
                    by (nonlinear_arith)
                    requires
                        2 * h <= q0,
                        q0 < 2 * h + 2,
                        p > 0,
                ;
                if j >= 100 {
                    lemma_pow2_le(100, j as nat);
                    assert(q0 * p >= p) by (nonlinear_arith)
                        requires
                            q0 >= 1,
                            p > 0,
                    ;
                }
            }
            q0 = q0 / 2;
            j = j + 1;
        }
        assert(j >= 1);
        // the quotient stands for 2 to the (sa - sb + 99)th times as many units
        let shift: i32 = sa as i32 - sb as i32 + 99;
        let drop: u32 = if shift < 0 && (-shift) as u32 > j {
            (-shift) as u32
        } else {
            j
        };
        let exponent: u32 = (drop as i32 + shift) as u32;
        proof {
            let pj = pow2(j as nat);
            lemma_pow2_pos(j as nat);
            lemma_pow2_adds(24, j as nat);
            lemma_pow2_adds(23, j as nat);
            lemma_pow2_le((24 + j) as nat, (24 + drop) as nat);
            assert(quotient < pow2((24 + j) as nat)) by (nonlinear_arith)
                requires
                    quotient < (q0 + 1) * pj,
                    q0 < 0x100_0000,
                    pow2((24 + j) as nat) == 0x100_0000 * pj,
                    pj > 0,
            ;
            if exponent > 0 {
                assert(drop == j);
                assert(pow2((23 + j) as nat) <= quotient) by (nonlinear_arith)
                    requires
                        q0 * pj <= quotient,
                        q0 >= 0x80_0000,
                        pow2((23 + j) as nat) == 0x80_0000 * pj,
                        pj > 0,
                ;
            }
            let g = (sa + 99) as nat;
            lemma_pow2_adds(50, g);
            lemma_pow2_adds(sa as nat, UNIT_PLACES as nat);
            assert(num == n * pow2(g)) by (nonlinear_arith)
                requires
                    num == (ma * pow2(sa as nat)) * pow2(UNIT_PLACES as nat),
                    n == ma * pow2(50),
                    pow2(sa as nat) * pow2(UNIT_PLACES as nat) == pow2(50) * pow2(g),
            ;
            lemma_pow2_adds(sb as nat, exponent as nat);
            lemma_pow2_adds(drop as nat, g);
            assert(den * pow2(exponent as nat) == (mb * pow2(drop as nat)) * pow2(g))
                by (nonlinear_arith)
                requires
                    den == mb * pow2(sb as nat),
                    pow2(sb as nat) * pow2(exponent as nat) == pow2(drop as nat) * pow2(g),
            ;
            assert(n == quotient * mb + rest) by (nonlinear_arith)
                requires
                    n == divisor * quotient + rest,
                    divisor == mb,
            ;
            lemma_quotient_digits(
                n as nat,
                mb as nat,
                quotient as nat,
                rest as nat,
                drop as nat,
                g,
                exponent as nat,
                den,
                num,
            );
        }
        round_quotient(negative, quotient, rest == 0, drop, exponent)
    }
}

} // verus!
