//! Products of lengths, exact to the last bit.
//!
//! The product of two binary32 values is the exact product of the numbers
//! that they stand for, rounded to the nearest value. In units of the
//! smallest positive value, 2 to the power of -149, the product of `a`
//! units and `b` units is `a * b` divided by 2 to the 149th units: a whole
//! number over a power of two, of which rounding keeps the leading digits.

use crate::scalar::sum::{dropped_bits, lemma_dropped_bits, EXACT_RANGE};
use crate::scalar::{
    lemma_pow2_127, lemma_pow2_le, power_of_two, Scalar, FRACTION_RANGE, INFINITY_BITS, SIGN_BIT,
};
use vstd::arithmetic::div_mod::lemma_fundamental_div_mod_converse;
use vstd::arithmetic::power2::{
    lemma2_to64, lemma_pow2_adds, lemma_pow2_pos, lemma_pow2_strictly_increases, lemma_pow2_unfold,
    pow2,
};
use vstd::prelude::*;

verus! {

/// The number of units' binary places: a product of two numbers of units
/// is to be divided by 2 to this power to be a number of units.
pub const UNIT_PLACES: u32 = 149;

/// The bits, without the sign, of the value nearest to `x` divided by 2
/// to the `n`th units. Rounding drops the `n` binary places below the
/// unit, and more where what is left has more than 24 digits; the kept
/// digits are raised by one where the dropped ones are more than half a
/// unit of the last kept digit, or exactly half and the last kept digit is odd.
pub open spec fn nearest_scaled_magnitude(x: nat, n: nat) -> nat {
    let kk = if dropped_bits(x) >= n {
        dropped_bits(x)
    } else {
        n
    };
    if kk == 0 {
        x
    } else {
        let q = x / pow2(kk);
        let r = x % pow2(kk);
        let half = pow2((kk - 1) as nat);
        let up: nat = if r > half || (r == half && q % 2 == 1) {
            1
        } else {
            0
        };
        ((kk - n) * FRACTION_RANGE + q + up) as nat
    }
}

/// The value nearest to `x` divided by 2 to the `n`th units, with the given sign.
pub open spec fn nearest_scaled(negative: bool, x: nat, n: nat) -> Scalar {
    let m = if nearest_scaled_magnitude(x, n) >= INFINITY_BITS {
        INFINITY_BITS as nat
    } else {
        nearest_scaled_magnitude(x, n)
    };
    if negative {
        Scalar((m + SIGN_BIT) as u32)
    } else {
        Scalar(m as u32)
    }
}

/// The number of digits that a number has too many is what its halvings
/// down to 24 digits count: for `x` between `q` times 2 to the `j`th and
/// the next multiple, with `q` of 24 digits exactly, it is `j`.
proof fn lemma_dropped_bits_of_quotient(x: nat, q: nat, j: nat)
    requires
        q * pow2(j) <= x < (q + 1) * pow2(j),
        q < EXACT_RANGE,
        j > 0 ==> q >= FRACTION_RANGE,
    ensures
        dropped_bits(x) == j,
{
    lemma2_to64();
    lemma_pow2_pos(j);
    lemma_pow2_adds(23, j);
    lemma_pow2_adds(24, j);
    let p = pow2(j);
    assert((q + 1) * p <= 0x100_0000 * p) by (nonlinear_arith)
        requires
            q < 0x100_0000,
            p > 0,
    ;
    if j > 0 {
        assert(q * p >= 0x80_0000 * p) by (nonlinear_arith)
            requires
                q >= 0x80_0000,
                p > 0,
        ;
    }
    lemma_dropped_bits(x, j);
}

/// The value nearest to `t` divided by 2 to the `n`th units.
pub(crate) fn round_divided(negative: bool, t: u128, n: u32) -> (out: Scalar)
    requires
        t < pow2(100),
        n <= 1000,
    ensures
        out == nearest_scaled(negative, t as nat, n as nat),
{
    proof {
        lemma2_to64();
        lemma_pow2_127();
        lemma_pow2_strictly_increases(100, 127);
    }
    let mut q0: u128 = t;
    let mut j: u32 = 0;
    while q0 >= 0x100_0000
        invariant
            j <= 100,
            t < pow2(100),
            q0 * pow2(j as nat) <= t < (q0 + 1) * pow2(j as nat),
            q0 <= t,
            j > 0 ==> q0 >= 0x80_0000,
        decreases q0,
    {
        proof {
            lemma_pow2_unfold((j + 1) as nat);
            lemma_pow2_pos(j as nat);
            let p = pow2(j as nat) as int;
            let h = (q0 / 2) as int;
            assert(h * (2 * p) <= q0 * p && (q0 + 1) * p <= (h + 1) * (2 * p)) by (nonlinear_arith)
                requires
                    2 * h <= q0,
                    q0 < 2 * h + 2,
                    p > 0,
            ;
            if j >= 100 {
                lemma_pow2_le(100, j as nat);
                assert(q0 * p >= p) by (nonlinear_arith)
                    requires
                        q0 >= 1,
                        p > 0,
                ;
            }
        }
        q0 = q0 / 2;
        j = j + 1;
    }
    proof {
        lemma_dropped_bits_of_quotient(t as nat, q0 as nat, j as nat);
    }
    let kk: u32 = if j >= n {
        j
    } else {
        n
    };
    let magnitude: u64;
    if kk == 0 {
        proof {
            assert(q0 == t) by (nonlinear_arith)
                requires
                    q0 * pow2(j as nat) <= t < (q0 + 1) * pow2(j as nat),
                    pow2(j as nat) == 1,
            ;
        }
        magnitude = t as u64;
    } else if kk > 101 {
        // everything is dropped, and it is less than half a unit of the last digit
        proof {
            let p = pow2(kk as nat);
            let half = pow2((kk - 1) as nat);
            lemma_pow2_le(100, (kk - 1) as nat);
            lemma_pow2_unfold(kk as nat);
            lemma_fundamental_div_mod_converse(t as int, p as int, 0, t as int);
            assert(nearest_scaled_magnitude(t as nat, n as nat) == 0);
        }
        magnitude = 0;
    } else {
        let p = power_of_two(kk);
        let hp = power_of_two(kk - 1);
        proof {
            lemma_pow2_pos(kk as nat);
            lemma_pow2_unfold(kk as nat);
        }
        let q: u128 = t / p;
        let rem: u128 = t % p;
        let up: u64 = if rem > hp || (rem == hp && q % 2 == 1) {
            1
        } else {
            0
        };
        proof {
            if kk == j {
                // what the halvings gave is the quotient
                lemma_pow2_pos(j as nat);
                assert((q0 + 1) * p == q0 * p + p) by (nonlinear_arith);
                lemma_fundamental_div_mod_converse(t as int, p as int, q0 as int, t - q0 * p);
                assert(q == q0);
            } else {
                // more is dropped than the halvings took: the quotient is smaller still
                lemma_pow2_le(j as nat, kk as nat);
                lemma_pow2_pos(j as nat);
                vstd::arithmetic::div_mod::lemma_fundamental_div_mod(t as int, p as int);
                assert(q * p <= t) by (nonlinear_arith)
                    requires
                        t == p * q + rem,
                        rem >= 0,
                ;
                assert(t < 0x100_0000 * pow2(j as nat)) by (nonlinear_arith)
                    requires
                        t < (q0 + 1) * pow2(j as nat),
                        q0 < 0x100_0000,
                        pow2(j as nat) > 0,
                ;
                assert(q < 0x100_0000) by (nonlinear_arith)
                    requires
                        q * p <= t,
                        t < 0x100_0000 * pow2(j as nat),
                        pow2(j as nat) <= p,
                        p > 0,
                        q >= 0,
                ;
            }
            assert(q < 0x100_0000);
        }
        let kept: u64 = q as u64;
        magnitude = ((kk - n) as u64) * 0x80_0000u64 + kept + up;
    }
    let bits: u32 = if magnitude >= INFINITY_BITS as u64 {
        INFINITY_BITS
    } else {
        magnitude as u32
    };
    if negative {
        Scalar(bits + SIGN_BIT)
    } else {
        Scalar(bits)
    }
}

/// A number with k digits too many lies between 2 to the (23 + k)th and
/// 2 to the (24 + k)th.
pub proof fn lemma_dropped_bits_bounds(x: nat)
    ensures
        x < pow2(24 + dropped_bits(x)),
        dropped_bits(x) > 0 ==> pow2(23 + dropped_bits(x)) <= x,
    decreases x,
{
    lemma2_to64();
    if x >= EXACT_RANGE {
        lemma_dropped_bits_bounds(x / 2);
        let k = dropped_bits(x / 2);
        lemma_pow2_unfold(24 + k + 1);
        lemma_pow2_unfold(23 + k + 1);
        if k == 0 {
            assert(pow2(24) <= x);
        }
    }
}

/// A number below 2 to the (24 + k)th has at most k digits too many.
pub proof fn lemma_dropped_bits_at_most(x: nat, k: nat)
    requires
        x < pow2(24 + k),
    ensures
        dropped_bits(x) <= k,
    decreases k,
{
    lemma2_to64();
    if x >= EXACT_RANGE {
        if k == 0 {
        } else {
            lemma_pow2_unfold(24 + k);
            lemma_dropped_bits_at_most(x / 2, (k - 1) as nat);
        }
    }
}

/// Binary places that numerator and denominator share cancel: `y` times 2
/// to the `c`th over 2 to the (`n` + `c`)th rounds as `y` over 2 to the `n`th.
pub proof fn lemma_scaling_cancels(y: nat, c: nat, n: nat)
    ensures
        nearest_scaled_magnitude(y * pow2(c), n + c) == nearest_scaled_magnitude(y, n),
{
    lemma2_to64();
    let pc = pow2(c);
    let x = y * pc;
    let db = dropped_bits(y);
    let dbx = dropped_bits(x);
    lemma_pow2_pos(c);
    lemma_dropped_bits_bounds(y);
    lemma_pow2_adds(24 + db, c);
    assert(x < pow2(24 + db + c)) by (nonlinear_arith)
        requires
            x == y * pc,
            y < pow2(24 + db),
            pow2(24 + db + c) == pow2(24 + db) * pc,
            pc > 0,
    ;
    if db > 0 {
        lemma_pow2_adds(23 + db, c);
        assert(pow2(23 + db + c) <= x) by (nonlinear_arith)
            requires
                x == y * pc,
                pow2(23 + db) <= y,
                pow2(23 + db + c) == pow2(23 + db) * pc,
                pc > 0,
        ;
        lemma_dropped_bits(x, db + c);
    } else {
        lemma_dropped_bits_at_most(x, c);
    }
    let kk = if db >= n {
        db
    } else {
        n
    };
    let kkx = if dbx >= n + c {
        dbx
    } else {
        n + c
    };
    assert(kkx == kk + c);
    if kk == 0 {
        if c == 0 {
            assert(x == y) by (nonlinear_arith)
                requires
                    x == y * pc,
                    pc == 1,
            ;
        } else {
            lemma_fundamental_div_mod_converse(x as int, pc as int, y as int, 0);
            lemma_pow2_pos((c - 1) as nat);
        }
    } else {
        let p = pow2(kk);
        let q = y / p;
        let r = y % p;
        lemma_pow2_pos(kk);
        lemma_pow2_adds(kk, c);
        lemma_pow2_adds((kk - 1) as nat, c);
        vstd::arithmetic::div_mod::lemma_fundamental_div_mod(y as int, p as int);
        vstd::arithmetic::div_mod::lemma_mod_bound(y as int, p as int);
        assert(x == q * (p * pc) + r * pc) by (nonlinear_arith)
            requires
                x == y * pc,
                y == p * q + r,
        ;
        assert(0 <= r * pc < p * pc) by (nonlinear_arith)
            requires
                0 <= r < p,
                pc > 0,
        ;
        lemma_fundamental_div_mod_converse(x as int, (p * pc) as int, q as int, (r * pc) as int);
        let half = pow2((kk - 1) as nat);
        assert((r * pc > half * pc) == (r > half) && (r * pc == half * pc) == (r == half))
            by (nonlinear_arith)
            requires
                pc > 0,
        ;
        assert(pow2((kkx - 1) as nat) == half * pc);
        assert(x / pow2(kkx) == q);
        assert(x % pow2(kkx) == r * pc);
    }
}

impl Scalar {
    /// The magnitude of a finite value in units.
    pub open spec fn unit_count(self) -> nat {
        (self.significand() * pow2(self.scale())) as nat
    }

    /// The product of the two values as binary32 arithmetic defines it.
    /// What is not a number stays so, and comes out as the canonical one;
    /// infinity times zero is no number; infinity times anything else is
    /// infinity; finite values have the value nearest to their exact
    /// product. The sign is negative where exactly one factor's is.
    #[verifier::opaque]
    pub open spec fn product(self, other: Scalar) -> Scalar {
        let negative = self.sign_negative() != other.sign_negative();
        if self.nan() || other.nan() {
            Scalar(0x7fc0_0000)
        } else if self.infinite() || other.infinite() {
            if self.zero() || other.zero() {
                Scalar(0x7fc0_0000)
            } else if negative {
                Scalar(0xff80_0000)
            } else {
                Scalar(INFINITY_BITS)
            }
        } else {
            nearest_scaled(negative, self.unit_count() * other.unit_count(), UNIT_PLACES as nat)
        }
    }

    /// The product of the two values.
    pub fn times(self, other: Scalar) -> (out: Scalar)
        ensures
            out == self.product(other),
    {
        proof {
            reveal(Scalar::product);
        }
        if self.is_nan() || other.is_nan() {
            return Scalar::not_a_number();
        }
        let negative = self.is_sign_negative() != other.is_sign_negative();
        if self.is_infinite() || other.is_infinite() {
            if self.is_zero() || other.is_zero() {
                return Scalar::not_a_number();
            }
            return if negative {
                Scalar::neg_infinity()
            } else {
                Scalar::infinity()
            };
        }
        let (_, ma, sa) = self.decode();
        let (_, mb, sb) = other.decode();
        let ghost pa = pow2(sa as nat);
        let ghost pb = pow2(sb as nat);
        proof {
            lemma2_to64();
            lemma_pow2_adds(24, 24);
            lemma_pow2_strictly_increases(48, 100);
            lemma_pow2_pos(sa as nat);
            lemma_pow2_pos(sb as nat);
            lemma_pow2_adds(sa as nat, sb as nat);
            assert(ma * mb < 0x100_0000 * 0x100_0000) by (nonlinear_arith)
                requires
                    0 <= ma < 0x100_0000,
                    0 <= mb < 0x100_0000,
            ;
            assert((ma * pa) * (mb * pb) == (ma * mb) * (pa * pb)) by (nonlinear_arith);
            assert(ma * pa >= 0 && mb * pb >= 0) by (nonlinear_arith)
                requires
                    ma >= 0,
                    mb >= 0,
                    pa > 0,
                    pb > 0,
            ;
        }
        let t: u128 = (ma as u128) * (mb as u128);
        let e: u32 = sa + sb;
        if e >= UNIT_PLACES {
            proof {
                let up = (e - UNIT_PLACES) as nat;
                lemma_pow2_adds(up, UNIT_PLACES as nat);
                let y = t as nat * pow2(up);
                assert(y * pow2(UNIT_PLACES as nat) == t * pow2(e as nat)) by (nonlinear_arith)
                    requires
                        y == t * pow2(up),
                        pow2(e as nat) == pow2(up) * pow2(UNIT_PLACES as nat),
                ;
                lemma_scaling_cancels(y, UNIT_PLACES as nat, 0);
            }
            crate::scalar::sum::round_shifted(negative, t, e - UNIT_PLACES)
        } else {
            proof {
                lemma_scaling_cancels(t as nat, e as nat, (UNIT_PLACES - e) as nat);
            }
            round_divided(negative, t, UNIT_PLACES - e)
        }
    }
}

} // verus!
