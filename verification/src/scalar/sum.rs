//! Sums of lengths, exact to the last bit.
//!
//! The sum of two binary32 values is the exact sum of the numbers that
//! they stand for, rounded to the nearest value that binary32 can hold, to
//! the one with an even last digit where two are as near. Counted in units
//! of the smallest positive value, every finite value is a whole number,
//! so the exact sum is a sum of integers, and rounding is a matter of
//! dropping low digits.

use crate::scalar::{
    lemma_pow2_127, lemma_pow2_le, power_of_two, Scalar, FRACTION_RANGE, INFINITY_BITS, SIGN_BIT,
};
use vstd::arithmetic::div_mod::lemma_fundamental_div_mod_converse;
use vstd::arithmetic::power2::{
    lemma2_to64, lemma_pow2_adds, lemma_pow2_pos, lemma_pow2_strictly_increases, lemma_pow2_unfold,
    pow2,
};
use vstd::prelude::*;

verus! {

/// The number of values with a biased exponent below two: whole numbers
/// of units below this bound are values themselves.
pub const EXACT_RANGE: u32 = 0x100_0000;

/// The number of low binary digits that `x`, a number of units, has too
/// many to be a value: none below 2 to the 24th, one more for each
/// doubling from there.
pub open spec fn dropped_bits(x: nat) -> nat
    decreases x,
{
    if x < EXACT_RANGE {
        0
    } else {
        1 + dropped_bits(x / 2)
    }
}

/// The bits, without the sign, of the value nearest to `x` units: `x`
/// itself where it has no digits too many; else its leading 24 digits,
/// plus one where the dropped digits are more than half a unit of the
/// last kept digit, or exactly half and the last kept digit is odd; with
/// the number of dropped digits for an exponent. A carry out of the 24
/// digits lands in the exponent, as it should.
pub open spec fn nearest_magnitude(x: nat) -> nat {
    let k = dropped_bits(x);
    if k == 0 {
        x
    } else {
        let q = x / pow2(k);
        let r = x % pow2(k);
        let half = pow2((k - 1) as nat);
        let up: nat = if r > half || (r == half && q % 2 == 1) {
            1
        } else {
            0
        };
        (k * FRACTION_RANGE + q + up) as nat
    }
}

/// The value nearest to `x` units with the given sign; infinity where `x`
/// is beyond the largest finite value by half a unit of its last digit or more.
pub open spec fn nearest(negative: bool, x: nat) -> Scalar {
    let m = if nearest_magnitude(x) >= INFINITY_BITS {
        INFINITY_BITS as nat
    } else {
        nearest_magnitude(x)
    };
    if negative {
        Scalar((m + SIGN_BIT) as u32)
    } else {
        Scalar(m as u32)
    }
}

/// A number between 2 to the (23 + k)th and 2 to the (24 + k)th has k
/// digits too many.
pub proof fn lemma_dropped_bits(x: nat, k: nat)
    requires
        x < pow2(24 + k),
        k > 0 ==> pow2(23 + k) <= x,
    ensures
        dropped_bits(x) == k,
    decreases k,
{
    lemma2_to64();
    if k == 0 {
    } else {
        lemma_pow2_le(24, 23 + k);
        lemma_pow2_unfold(23 + k);
        lemma_pow2_unfold(24 + k);
        assert(x / 2 < pow2((24 + k - 1) as nat));
        if k - 1 > 0 {
            assert(pow2((23 + k - 1) as nat) <= x / 2);
        }
        lemma_dropped_bits(x / 2, (k - 1) as nat);
    }
}

/// A finite value is the value nearest to the number of units that it
/// stands for: rounding changes nothing that needs no rounding.
pub proof fn lemma_value_is_nearest_to_itself(a: Scalar)
    requires
        a.finite(),
    ensures
        nearest(a.sign_negative(), a.significand() as nat * pow2(a.scale())) == a,
{
    lemma2_to64();
    let m = a.significand() as nat;
    let s = a.scale();
    let x = m * pow2(s);
    lemma_pow2_pos(s);
    if s == 0 {
        assert(x == m);
        assert(m < EXACT_RANGE);
        assert(nearest_magnitude(x) == m);
        assert(m == a.magnitude());
    } else {
        assert(FRACTION_RANGE <= m < EXACT_RANGE);
        lemma_pow2_adds(23, s);
        lemma_pow2_adds(24, s);
        assert(pow2(23 + s) <= x) by (nonlinear_arith)
            requires
                x == m * pow2(s),
                pow2(23 + s) == pow2(23) * pow2(s),
                pow2(23) == 0x80_0000,
                m >= 0x80_0000,
                pow2(s) > 0,
        ;
        assert(x < pow2(24 + s)) by (nonlinear_arith)
            requires
                x == m * pow2(s),
                pow2(24 + s) == pow2(24) * pow2(s),
                pow2(24) == 0x100_0000,
                m < 0x100_0000,
                pow2(s) > 0,
        ;
        lemma_dropped_bits(x, s);
        lemma_fundamental_div_mod_converse(x as int, pow2(s) as int, m as int, 0);
        lemma_pow2_pos((s - 1) as nat);
        assert(nearest_magnitude(x) == s * FRACTION_RANGE + m);
        assert(a.magnitude() == s * FRACTION_RANGE + m);
    }
}

/// The value nearest to `t` times 2 to the `s`th units.
pub(crate) fn round_shifted(negative: bool, t: u128, s: u32) -> (out: Scalar)
    requires
        t < pow2(100),
        s <= 1000,
    ensures
        out == nearest(negative, t as nat * pow2(s as nat)),
{
    let ghost x: nat = t as nat * pow2(s as nat);
    proof {
        lemma2_to64();
        lemma_pow2_pos(s as nat);
        lemma_pow2_127();
        lemma_pow2_strictly_increases(100, 127);
    }
    let mut q: u128 = t;
    let mut j: u32 = 0;
    while q >= 0x100_0000
        invariant
            j <= 100,
            t < pow2(100),
            q * pow2(j as nat) <= t < (q + 1) * pow2(j as nat),
            q <= t,
            j > 0 ==> q >= 0x80_0000,
            pow2(0) == 1,
        decreases q,
    {
        proof {
            lemma_pow2_unfold((j + 1) as nat);
            lemma_pow2_pos(j as nat);
            let p = pow2(j as nat) as int;
            let h = (q / 2) as int;
            assert(h * (2 * p) <= q * p && (q + 1) * p <= (h + 1) * (2 * p)) by (nonlinear_arith)
                requires
                    2 * h <= q,
                    q < 2 * h + 2,
                    p > 0,
            ;
            if j >= 100 {
                // then t >= q * 2^100 >= 2^100, which it is not
                lemma_pow2_le(100, j as nat);
                assert(q * p >= p) by (nonlinear_arith)
                    requires
                        q >= 1,
                        p > 0,
                ;
            }
        }
        q = q / 2;
        j = j + 1;
    }
    let magnitude: u64;
    if j > 0 {
        let p = power_of_two(j);
        let hp = power_of_two(j - 1);
        proof {
            lemma_pow2_pos(j as nat);
            lemma_pow2_le(j as nat, 100);
            lemma_pow2_unfold(j as nat);
            assert(q * p <= t);
            assert((q + 1) * p == q * p + p) by (nonlinear_arith);
            assert(q < 0x100_0000);
        }
        let rem: u128 = t - q * p;
        assert(rem < p);
        let up: u64 = if rem > hp || (rem == hp && q % 2 == 1) {
            1
        } else {
            0
        };
        let k: u64 = j as u64 + s as u64;
        assert(k <= 1100);
        assert(FRACTION_RANGE == 0x80_0000);
        let kept: u64 = q as u64;
        magnitude = k * 0x80_0000u64 + kept + up;
        proof {
            let kk = (j + s) as nat;
            let ps = pow2(s as nat) as int;
            lemma_pow2_adds(j as nat, s as nat);
            lemma_pow2_adds((j - 1) as nat, s as nat);
            lemma_pow2_adds(23, kk);
            lemma_pow2_adds(24, kk);
            // x = q * 2^k + rem * 2^s, with the second part below 2^k
            assert(x == q * (p * ps) + rem * ps) by (nonlinear_arith)
                requires
                    x == t * ps,
                    t == q * p + rem,
            ;
            assert(0 <= rem * ps < p * ps) by (nonlinear_arith)
                requires
                    0 <= rem < p,
                    ps > 0,
            ;
            lemma_fundamental_div_mod_converse(x as int, (p * ps) as int, q as int, rem * ps);
            assert(pow2(23 + kk) <= x) by (nonlinear_arith)
                requires
                    x == q * (p * ps) + rem * ps,
                    pow2(23 + kk) == pow2(23) * pow2(kk),
                    pow2(kk) == p * ps,
                    pow2(23) == 0x80_0000,
                    q >= 0x80_0000,
                    rem * ps >= 0,
                    p * ps > 0,
            ;
            assert(x < pow2(24 + kk)) by (nonlinear_arith)
                requires
                    x == q * (p * ps) + rem * ps,
                    pow2(24 + kk) == pow2(24) * pow2(kk),
                    pow2(kk) == p * ps,
                    pow2(24) == 0x100_0000,
                    q < 0x100_0000,
                    rem * ps < p * ps,
            ;
            lemma_dropped_bits(x, kk);
            assert(pow2((kk - 1) as nat) == hp * ps);
            assert((rem * ps > hp * ps) == (rem > hp) && (rem * ps == hp * ps) == (rem == hp))
                by (nonlinear_arith)
                requires
                    ps > 0,
            ;
            assert(nearest_magnitude(x) == magnitude);
        }
    } else {
        proof {
            assert(q == t) by (nonlinear_arith)
                requires
                    q * pow2(j as nat) <= t < (q + 1) * pow2(j as nat),
                    pow2(j as nat) == 1,
            ;
        }
        let mut e: u32 = s;
        while q < 0x80_0000 && e > 0
            invariant
                e <= s,
                q < 0x100_0000,
                q * pow2(e as nat) == x,
            decreases e,
        {
            proof {
                lemma_pow2_unfold(e as nat);
                assert((q * 2) * pow2((e - 1) as nat) == q * pow2(e as nat)) by (nonlinear_arith)
                    requires
                        pow2(e as nat) == 2 * pow2((e - 1) as nat),
                ;
            }
            q = q * 2;
            e = e - 1;
        }
        assert(FRACTION_RANGE == 0x80_0000);
        let kept: u64 = q as u64;
        magnitude = (e as u64) * 0x80_0000u64 + kept;
        proof {
            if e == 0 {
                assert(x == q) by (nonlinear_arith)
                    requires
                        q * pow2(e as nat) == x,
                        pow2(e as nat) == 1,
                ;
            } else {
                let ee = e as nat;
                lemma_pow2_pos(ee);
                lemma_pow2_adds(23, ee);
                lemma_pow2_adds(24, ee);
                assert(pow2(23 + ee) <= x) by (nonlinear_arith)
                    requires
                        x == q * pow2(ee),
                        pow2(23 + ee) == pow2(23) * pow2(ee),
                        pow2(23) == 0x80_0000,
                        q >= 0x80_0000,
                        pow2(ee) > 0,
                ;
                assert(x < pow2(24 + ee)) by (nonlinear_arith)
                    requires
                        x == q * pow2(ee),
                        pow2(24 + ee) == pow2(24) * pow2(ee),
                        pow2(24) == 0x100_0000,
                        q < 0x100_0000,
                        pow2(ee) > 0,
                ;
                lemma_dropped_bits(x, ee);
                lemma_fundamental_div_mod_converse(x as int, pow2(ee) as int, q as int, 0);
                lemma_pow2_pos((ee - 1) as nat);
            }
            assert(nearest_magnitude(x) == magnitude);
        }
    }
    let bits: u32 = if magnitude >= INFINITY_BITS as u64 {
        INFINITY_BITS
    } else {
        magnitude as u32
    };
    if negative {
        Scalar(bits + SIGN_BIT)
    } else {
        Scalar(bits)
    }
}

/// Adding to a value of 24 digits something below a quarter of a unit of
/// its last digit, or taking that away, rounds back to the value.
pub proof fn lemma_small_addend(m: nat, s: nat, u: nat, plus: bool)
    requires
        FRACTION_RANGE <= m < EXACT_RANGE,
        s >= 2,
        0 < u < pow2((s - 2) as nat),
    ensures
        m * pow2(s) > u,
        nearest_magnitude(
            if plus {
                m * pow2(s) + u
            } else {
                (m * pow2(s) - u) as nat
            },
        ) == s * FRACTION_RANGE + m,
{
    lemma2_to64();
    let p = pow2(s);
    let quarter = pow2((s - 2) as nat);
    let half = pow2((s - 1) as nat);
    lemma_pow2_unfold(s);
    lemma_pow2_unfold((s - 1) as nat);
    lemma_pow2_pos((s - 2) as nat);
    lemma_pow2_adds(23, s);
    lemma_pow2_adds(24, s);
    assert(p == 4 * quarter && half == 2 * quarter);
    assert(m * p >= 0x80_0000 * p) by (nonlinear_arith)
        requires
            m >= 0x80_0000,
            p > 0,
    ;
    assert(m * p + p <= 0x100_0000 * p) by (nonlinear_arith)
        requires
            m < 0x100_0000,
            p > 0,
    ;
    if plus {
        let x = m * p + u;
        lemma_dropped_bits(x, s);
        lemma_fundamental_div_mod_converse(x as int, p as int, m as int, u as int);
    } else if m > FRACTION_RANGE {
        let x = (m * p - u) as nat;
        assert(x == (m - 1) * p + (p - u)) by (nonlinear_arith)
            requires
                x == m * p - u,
        ;
        assert((m - 1) * p >= 0x80_0000 * p) by (nonlinear_arith)
            requires
                m - 1 >= 0x80_0000,
                p > 0,
        ;
        lemma_dropped_bits(x, s);
        lemma_fundamental_div_mod_converse(x as int, p as int, m - 1, p - u);
    } else {
        // m is a power of two: the difference lies in the range below, where digits are finer
        let k = (s - 1) as nat;
        let x = (m * p - u) as nat;
        lemma_pow2_adds(23, k);
        lemma_pow2_adds(24, k);
        lemma_pow2_pos(k);
        assert(x == 0xff_ffff * half + (half - u)) by (nonlinear_arith)
            requires
                x == m * p - u,
                m == 0x80_0000,
                p == 2 * half,
        ;
        assert(0xff_ffff * half >= 0x80_0000 * half) by (nonlinear_arith)
            requires
                half > 0,
        ;
        assert(0xff_ffff * half + half == 0x100_0000 * half) by (nonlinear_arith);
        lemma_dropped_bits(x, k);
        lemma_fundamental_div_mod_converse(x as int, half as int, 0xff_ffff, half - u);
        if k >= 1 {
            lemma_pow2_unfold(k);
        }
        assert(pow2((k - 1) as nat) == quarter);
        assert(0xff_ffffint % 2 == 1);
        assert(nearest_magnitude(x) == k * FRACTION_RANGE + 0xff_ffff + 1);
    }
}

/// `v` with a sign.
pub open spec fn signed(negative: bool, v: int) -> int {
    if negative {
        -v
    } else {
        v
    }
}

/// The value nearest to the whole number `x` of units, which may be
/// negative; a zero with the sign that the caller gives.
pub open spec fn rounded(x: int, zero_is_negative: bool) -> Scalar {
    if x == 0 {
        if zero_is_negative {
            Scalar(SIGN_BIT)
        } else {
            Scalar(0)
        }
    } else if x < 0 {
        nearest(true, (-x) as nat)
    } else {
        nearest(false, x as nat)
    }
}

/// The rounded sum of two values whose scales differ by `d`, at most 25:
/// the larger is shifted to the scale of the smaller, where the sum is exact.
fn sum_aligned(nh: bool, mh: u32, nl: bool, ml: u32, d: u32, sl: u32, zero_is_negative: bool) -> (out:
    Scalar)
    requires
        mh < EXACT_RANGE,
        ml < EXACT_RANGE,
        d <= 25,
        sl <= 253,
    ensures
        out == rounded(
            (signed(nh, mh as int * pow2(d as nat)) + signed(nl, ml as int)) * pow2(sl as nat),
            zero_is_negative,
        ),
{
    let ghost pl = pow2(sl as nat) as int;
    let ghost x: int = (signed(nh, mh as int * pow2(d as nat)) + signed(nl, ml as int)) * pl;
    proof {
        lemma2_to64();
        lemma_pow2_pos(sl as nat);
        lemma_pow2_pos(d as nat);
        lemma_pow2_le(d as nat, 25);
        lemma_pow2_strictly_increases(50, 100);
        crate::scalar::lemma_product_below(
            mh as int,
            pow2(d as nat) as int,
            0x100_0000,
            pow2(25) as int,
        );
        lemma_pow2_adds(24, 25);
        lemma_pow2_unfold(50);
        lemma_pow2_le(24, 49);
    }
    let big: u128 = (mh as u128) * power_of_two(d);
    let low: u128 = ml as u128;
    let (negative, t): (bool, u128) = if nh == nl {
        (nh, big + low)
    } else if big >= low {
        (nh, big - low)
    } else {
        (nl, low - big)
    };
    proof {
        assert(signed(nh, big as int) + signed(nl, low as int) == signed(negative, t as int));
        assert(x == signed(negative, t as int) * pl);
        assert((t == 0) == (x == 0) && (t > 0 ==> (x < 0) == negative) && signed(x < 0, x) == t
            * pl) by (nonlinear_arith)
            requires
                x == signed(negative, t as int) * pl,
                pl > 0,
                t >= 0,
        ;
    }
    if t == 0 {
        if zero_is_negative {
            Scalar(SIGN_BIT)
        } else {
            Scalar(0)
        }
    } else {
        round_shifted(negative, t, sl)
    }
}

/// A value to which one is added that is more than 25 binary places
/// finer stays what it is.
proof fn lemma_far_sum(hi: Scalar, nl: bool, ml: nat, sl: nat, zero_is_negative: bool)
    requires
        hi.finite(),
        hi.scale() >= sl + 26,
        ml < EXACT_RANGE,
    ensures
        rounded(hi.units() + signed(nl, (ml * pow2(sl)) as int), zero_is_negative) == hi,
{
    lemma2_to64();
    let mh = hi.significand() as nat;
    let sh = hi.scale();
    let ph = pow2(sh);
    let pl = pow2(sl);
    let uh = mh * ph;
    let ul = ml * pl;
    lemma_pow2_pos(sh);
    lemma_pow2_pos(sl);
    lemma_value_is_nearest_to_itself(hi);
    assert(hi.exponent_field() == sh + 1);
    assert(hi.magnitude() == sh * FRACTION_RANGE + mh);
    assert(uh >= ph) by (nonlinear_arith)
        requires
            uh == mh * ph,
            mh >= 1,
            ph > 0,
    ;
    if ml == 0 {
        assert(ul == 0) by (nonlinear_arith)
            requires
                ul == ml * pl,
                ml == 0,
        ;
    } else {
        lemma_pow2_adds(24, sl);
        lemma_pow2_le((24 + sl) as nat, (sh - 2) as nat);
        assert(0 < ul < pow2((24 + sl) as nat)) by (nonlinear_arith)
            requires
                ul == ml * pl,
                0 < ml < 0x100_0000,
                pl > 0,
                pow2((24 + sl) as nat) == 0x100_0000 * pl,
        ;
        lemma_small_addend(mh, sh, ul, hi.sign_negative() == nl);
    }
}

impl Scalar {
    /// The sum of the two values as binary32 arithmetic defines it. What is
    /// not a number stays so, and comes out as the canonical one; infinity
    /// stays, but infinities of opposite sign have no sum; finite values
    /// have the value nearest to their exact sum, where an exact sum of
    /// zero is negative only if both zeros are.
    #[verifier::opaque]
    pub open spec fn sum(self, other: Scalar) -> Scalar {
        if self.nan() || other.nan() {
            Scalar(0x7fc0_0000)
        } else if self.infinite() {
            if other.infinite() && self.sign_negative() != other.sign_negative() {
                Scalar(0x7fc0_0000)
            } else {
                self
            }
        } else if other.infinite() {
            other
        } else {
            rounded(
                self.units() + other.units(),
                self.sign_negative() && other.sign_negative(),
            )
        }
    }

    /// The difference of the two values: the sum with the negated other.
    pub open spec fn difference(self, other: Scalar) -> Scalar {
        self.sum(other.negated())
    }

    /// The sum of the two values.
    pub fn plus(self, other: Scalar) -> (out: Scalar)
        ensures
            out == self.sum(other),
    {
        proof {
            reveal(Scalar::sum);
        }
        if self.is_nan() || other.is_nan() {
            return Scalar::not_a_number();
        }
        if self.is_infinite() {
            if other.is_infinite() && self.is_sign_negative() != other.is_sign_negative() {
                return Scalar::not_a_number();
            }
            return self;
        }
        if other.is_infinite() {
            return other;
        }
        let (na, ma, sa) = self.decode();
        let (nb, mb, sb) = other.decode();
        if sa >= sb {
            Scalar::plus_ordered(self, na, ma, sa, other, nb, mb, sb, na && nb)
        } else {
            Scalar::plus_ordered(other, nb, mb, sb, self, na, ma, sa, na && nb)
        }
    }

    fn plus_ordered(
        hi: Scalar,
        nh: bool,
        mh: u32,
        sh: u32,
        lo: Scalar,
        nl: bool,
        ml: u32,
        sl: u32,
        zero_is_negative: bool,
    ) -> (out: Scalar)
        requires
            hi.finite(),
            lo.finite(),
            nh == hi.sign_negative() && mh == hi.significand() && sh == hi.scale(),
            nl == lo.sign_negative() && ml == lo.significand() && sl == lo.scale(),
            sh >= sl,
            sh <= 253,
            mh < EXACT_RANGE,
            ml < EXACT_RANGE,
        ensures
            out == rounded(hi.units() + lo.units(), zero_is_negative),
    {
        let d = sh - sl;
        if d <= 25 {
            proof {
                lemma_pow2_adds(d as nat, sl as nat);
                let pd = pow2(d as nat) as int;
                let pl = pow2(sl as nat) as int;
                assert((signed(nh, mh as int * pd) + signed(nl, ml as int)) * pl == signed(
                    nh,
                    mh as int * (pd * pl),
                ) + signed(nl, ml as int * pl)) by (nonlinear_arith);
            }
            sum_aligned(nh, mh, nl, ml, d, sl, zero_is_negative)
        } else {
            proof {
                lemma_far_sum(hi, nl, ml as nat, sl as nat, zero_is_negative);
            }
            hi
        }
    }

    /// The difference of the two values.
    pub fn minus(self, other: Scalar) -> (out: Scalar)
        ensures
            out == self.difference(other),
    {
        self.plus(other.neg())
    }
}

} // verus!
