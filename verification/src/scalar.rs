//! Lengths as the engine stores and computes them.
//!
//! Every length, ratio and coordinate is a binary32 value of IEEE 754, held
//! here by its 32 bits: one sign bit, eight exponent bits, twenty-three
//! fraction bits. Classifying, comparing and choosing between such values
//! is exact on the bits. Sums, products, quotients and roundings are
//! computed on the bits too, and give the value nearest to the exact
//! result as the standard asks; their contracts state the result in units
//! of the smallest positive value, 2 to the power of -149.

pub mod exact;
pub mod product;
pub mod quotient;
pub mod sum;
pub mod whole;

use vstd::arithmetic::power2::{
    lemma2_to64, lemma2_to64_rest, lemma_pow2_adds, lemma_pow2_pos, lemma_pow2_strictly_increases,
    lemma_pow2_unfold, pow2,
};
use vstd::prelude::*;

verus! {

/// The bit that holds the sign.
pub const SIGN_BIT: u32 = 0x8000_0000;

/// The bits of positive infinity: every magnitude above is not a number.
pub const INFINITY_BITS: u32 = 0x7f80_0000;

/// A binary32 value, by its bits.
#[derive(Clone, Copy, Debug, PartialEq, Eq, Hash, Structural)]
pub struct Scalar(pub u32);

impl Scalar {
    /// The bits without the sign.
    pub open spec fn magnitude(self) -> int {
        if self.0 >= SIGN_BIT {
            self.0 - SIGN_BIT
        } else {
            self.0 as int
        }
    }

    /// Whether the sign bit is set.
    pub open spec fn sign_negative(self) -> bool {
        self.0 >= SIGN_BIT
    }

    /// Whether this is not a number.
    pub open spec fn nan(self) -> bool {
        self.magnitude() > INFINITY_BITS
    }

    /// Whether this is positive or negative infinity.
    pub open spec fn infinite(self) -> bool {
        self.magnitude() == INFINITY_BITS
    }

    /// Whether this is neither infinite nor not a number.
    pub open spec fn finite(self) -> bool {
        self.magnitude() < INFINITY_BITS
    }

    /// Whether this is positive or negative zero.
    pub open spec fn zero(self) -> bool {
        self.magnitude() == 0
    }

    /// The place of a number on the number line, counted in representable
    /// values from zero: of two numbers the smaller has the smaller rank, and
    /// the two zeros share rank 0. Meaningless for what is not a number.
    pub open spec fn rank(self) -> int {
        if self.sign_negative() {
            -self.magnitude()
        } else {
            self.magnitude()
        }
    }

    /// The place of the value in the order of all bit patterns that puts
    /// negative values below positive ones, what is not a number beyond
    /// the infinity of its sign, and minus zero below plus zero.
    pub open spec fn total_rank(self) -> int {
        if self.sign_negative() {
            -self.magnitude() - 1
        } else {
            self.magnitude() as int
        }
    }

    /// `self < other` as IEEE 754 defines it: false if either is not a number.
    pub open spec fn less(self, other: Scalar) -> bool {
        !self.nan() && !other.nan() && self.rank() < other.rank()
    }

    /// `self <= other` as IEEE 754 defines it: false if either is not a number.
    pub open spec fn less_eq(self, other: Scalar) -> bool {
        !self.nan() && !other.nan() && self.rank() <= other.rank()
    }

    /// `self == other` as IEEE 754 defines it: the two zeros are equal, and
    /// what is not a number equals nothing.
    pub open spec fn same(self, other: Scalar) -> bool {
        !self.nan() && !other.nan() && self.rank() == other.rank()
    }

    /// The larger of the two; the other one if one is not a number; of the
    /// two zeros the positive one.
    pub open spec fn larger(self, other: Scalar) -> Scalar {
        if self.nan() {
            other
        } else if other.nan() {
            self
        } else if self.rank() < other.rank() || (self.rank() == other.rank()
            && self.sign_negative()) {
            other
        } else {
            self
        }
    }

    /// The smaller of the two; the other one if one is not a number; of the
    /// two zeros the negative one.
    pub open spec fn smaller(self, other: Scalar) -> Scalar {
        if self.nan() {
            other
        } else if other.nan() {
            self
        } else if other.rank() < self.rank() || (self.rank() == other.rank()
            && other.sign_negative()) {
            other
        } else {
            self
        }
    }

    /// The value with the opposite sign.
    pub open spec fn negated(self) -> Scalar {
        if self.0 >= SIGN_BIT {
            Scalar((self.0 - SIGN_BIT) as u32)
        } else {
            Scalar((self.0 + SIGN_BIT) as u32)
        }
    }

    /// The value with the sign cleared.
    pub open spec fn absolute(self) -> Scalar {
        Scalar(self.magnitude() as u32)
    }

    /// Positive zero.
    pub open spec fn zero_value() -> Scalar {
        Scalar(0)
    }

    /// Positive zero.
    pub fn zero_scalar() -> (z: Scalar)
        ensures
            z == Scalar::zero_value(),
    {
        Scalar(0)
    }

    /// Positive infinity.
    pub fn infinity() -> (v: Scalar)
        ensures
            v == Scalar(INFINITY_BITS),
            v.infinite(),
            !v.sign_negative(),
    {
        Scalar(INFINITY_BITS)
    }

    /// Negative infinity.
    pub fn neg_infinity() -> (v: Scalar)
        ensures
            v == Scalar(0xff80_0000),
            v.infinite(),
            v.sign_negative(),
    {
        Scalar(0xff80_0000)
    }

    /// The canonical quiet value that is not a number.
    pub fn not_a_number() -> (v: Scalar)
        ensures
            v == Scalar(0x7fc0_0000),
            v.nan(),
    {
        Scalar(0x7fc0_0000)
    }

    /// The value with the given bits.
    pub fn from_bits(bits: u32) -> (v: Scalar)
        ensures
            v.0 == bits,
    {
        Scalar(bits)
    }

    /// The bits of the value.
    pub fn to_bits(self) -> (bits: u32)
        ensures
            bits == self.0,
    {
        self.0
    }

    fn magnitude_bits(self) -> (m: u32)
        ensures
            m == self.magnitude(),
            m < SIGN_BIT,
    {
        if self.0 >= SIGN_BIT {
            self.0 - SIGN_BIT
        } else {
            self.0
        }
    }

    fn rank_value(self) -> (r: i64)
        ensures
            r == self.rank(),
    {
        let m: i64 = self.magnitude_bits() as i64;
        if self.0 >= SIGN_BIT {
            -m
        } else {
            m
        }
    }

    /// Whether this is not a number.
    pub fn is_nan(self) -> (b: bool)
        ensures
            b == self.nan(),
    {
        self.magnitude_bits() > INFINITY_BITS
    }

    /// Whether this is positive or negative infinity.
    pub fn is_infinite(self) -> (b: bool)
        ensures
            b == self.infinite(),
    {
        self.magnitude_bits() == INFINITY_BITS
    }

    /// Whether this is neither infinite nor not a number.
    pub fn is_finite(self) -> (b: bool)
        ensures
            b == self.finite(),
    {
        self.magnitude_bits() < INFINITY_BITS
    }

    /// Whether this is positive or negative zero.
    pub fn is_zero(self) -> (b: bool)
        ensures
            b == self.zero(),
    {
        self.magnitude_bits() == 0
    }

    /// Whether the sign bit is set; true of negative zero too.
    pub fn is_sign_negative(self) -> (b: bool)
        ensures
            b == self.sign_negative(),
    {
        self.0 >= SIGN_BIT
    }

    /// Whether the sign bit is clear; true of positive zero too.
    pub fn is_sign_positive(self) -> (b: bool)
        ensures
            b == !self.sign_negative(),
    {
        self.0 < SIGN_BIT
    }

    /// `self < other`.
    pub fn lt(self, other: Scalar) -> (b: bool)
        ensures
            b == self.less(other),
    {
        !self.is_nan() && !other.is_nan() && self.rank_value() < other.rank_value()
    }

    /// Whether the value comes before the other in the order of all bit patterns.
    pub fn total_lt(self, other: Scalar) -> (b: bool)
        ensures
            b == (self.total_rank() < other.total_rank()),
    {
        self.total_rank_value() < other.total_rank_value()
    }

    fn total_rank_value(self) -> (r: i64)
        ensures
            r == self.total_rank(),
    {
        let m: i64 = self.magnitude_bits() as i64;
        if self.0 >= SIGN_BIT {
            -m - 1
        } else {
            m
        }
    }

    /// `self <= other`.
    pub fn le(self, other: Scalar) -> (b: bool)
        ensures
            b == self.less_eq(other),
    {
        !self.is_nan() && !other.is_nan() && self.rank_value() <= other.rank_value()
    }

    /// `self > other`.
    pub fn gt(self, other: Scalar) -> (b: bool)
        ensures
            b == other.less(self),
    {
        other.lt(self)
    }

    /// `self >= other`.
    pub fn ge(self, other: Scalar) -> (b: bool)
        ensures
            b == other.less_eq(self),
    {
        other.le(self)
    }

    /// `self == other` as numbers: the two zeros are equal, and what is not a
    /// number equals nothing, itself included.
    pub fn num_eq(self, other: Scalar) -> (b: bool)
        ensures
            b == self.same(other),
    {
        !self.is_nan() && !other.is_nan() && self.rank_value() == other.rank_value()
    }

    /// The larger of the two; the other one if one is not a number.
    pub fn max(self, other: Scalar) -> (m: Scalar)
        ensures
            m == self.larger(other),
    {
        if self.is_nan() {
            other
        } else if other.is_nan() {
            self
        } else if self.rank_value() < other.rank_value() || (self.rank_value()
            == other.rank_value() && self.is_sign_negative()) {
            other
        } else {
            self
        }
    }

    /// The smaller of the two; the other one if one is not a number.
    pub fn min(self, other: Scalar) -> (m: Scalar)
        ensures
            m == self.smaller(other),
    {
        if self.is_nan() {
            other
        } else if other.is_nan() {
            self
        } else if other.rank_value() < self.rank_value() || (self.rank_value()
            == other.rank_value() && other.is_sign_negative()) {
            other
        } else {
            self
        }
    }

    /// The value with the opposite sign.
    pub fn neg(self) -> (n: Scalar)
        ensures
            n == self.negated(),
            n.magnitude() == self.magnitude(),
            n.sign_negative() == !self.sign_negative(),
    {
        if self.0 >= SIGN_BIT {
            Scalar(self.0 - SIGN_BIT)
        } else {
            Scalar(self.0 + SIGN_BIT)
        }
    }

    /// The value with the sign cleared.
    pub fn abs(self) -> (a: Scalar)
        ensures
            a == self.absolute(),
            a.magnitude() == self.magnitude(),
            !a.sign_negative(),
    {
        Scalar(self.magnitude_bits())
    }
}

/// Of two numbers exactly one of `a < b`, `a == b`, `b < a` holds.
pub proof fn lemma_order_is_total(a: Scalar, b: Scalar)
    requires
        !a.nan(),
        !b.nan(),
    ensures
        a.less(b) || a.same(b) || b.less(a),
        !(a.less(b) && a.same(b)),
        !(a.less(b) && b.less(a)),
        !(a.same(b) && b.less(a)),
        a.less_eq(b) <==> (a.less(b) || a.same(b)),
{
}

/// `<=` is transitive.
pub proof fn lemma_order_is_transitive(a: Scalar, b: Scalar, c: Scalar)
    requires
        a.less_eq(b),
        b.less_eq(c),
    ensures
        a.less_eq(c),
{
}

/// The larger of two numbers is one of them and is below neither; the
/// smaller is one of them and is above neither.
pub proof fn lemma_larger_smaller_bound(a: Scalar, b: Scalar)
    requires
        !a.nan(),
        !b.nan(),
    ensures
        a.larger(b) == a || a.larger(b) == b,
        a.less_eq(a.larger(b)),
        b.less_eq(a.larger(b)),
        a.smaller(b) == a || a.smaller(b) == b,
        a.smaller(b).less_eq(a),
        a.smaller(b).less_eq(b),
{
}

/// Taking the larger or the smaller of numbers does not depend on their
/// order or grouping.
pub proof fn lemma_larger_smaller_commute(a: Scalar, b: Scalar, c: Scalar)
    requires
        !a.nan(),
        !b.nan(),
        !c.nan(),
    ensures
        a.larger(b) == b.larger(a),
        a.smaller(b) == b.smaller(a),
        a.larger(b).larger(c) == a.larger(b.larger(c)),
        a.smaller(b).smaller(c) == a.smaller(b.smaller(c)),
        a.larger(a) == a,
        a.smaller(a) == a,
{
}

/// The number of fraction bits: values with a biased exponent of zero are
/// multiples of the smallest positive value by their fraction alone.
pub const FRACTION_RANGE: u32 = 0x80_0000;

impl Scalar {
    /// The biased exponent: the eight bits below the sign.
    pub open spec fn exponent_field(self) -> int {
        self.magnitude() / (FRACTION_RANGE as int)
    }

    /// The integer that the value's digits spell: the fraction bits, with
    /// a leading one unless the biased exponent is zero.
    pub open spec fn significand(self) -> int {
        if self.exponent_field() == 0 {
            self.magnitude() % (FRACTION_RANGE as int)
        } else {
            self.magnitude() % (FRACTION_RANGE as int) + FRACTION_RANGE
        }
    }

    /// The power of two by which the significand is to be multiplied to
    /// give the value in units of the smallest positive value.
    pub open spec fn scale(self) -> nat {
        if self.exponent_field() <= 1 {
            0
        } else {
            (self.exponent_field() - 1) as nat
        }
    }

    /// A finite value in units of the smallest positive value, 2 to the
    /// power of -149: every finite value is a whole number of them.
    pub open spec fn units(self) -> int {
        if self.sign_negative() {
            -(self.significand() * pow2(self.scale()))
        } else {
            self.significand() * pow2(self.scale())
        }
    }

    /// Whether the difference of the two values, computed in binary32, is
    /// in magnitude below the machine epsilon, 2 to the power of -23. The
    /// computed difference is the exact one rounded to the nearest value,
    /// to the even one in a tie, so it is below the epsilon exactly where
    /// the exact difference is below the midpoint between the epsilon and
    /// the value before it: 2^-23 - 2^-48, which is 2^126 - 2^101 units.
    /// Differences with what is not finite are not finite or not numbers.
    pub open spec fn roughly(self, other: Scalar) -> bool {
        &&& self.finite()
        &&& other.finite()
        &&& self.units() - other.units() < pow2(126) - pow2(101)
        &&& other.units() - self.units() < pow2(126) - pow2(101)
    }

    pub(crate) fn decode(self) -> (parts: (bool, u32, u32))
        requires
            self.finite(),
        ensures
            parts.0 == self.sign_negative(),
            parts.1 == self.significand(),
            parts.2 == self.scale(),
            parts.1 < 0x100_0000,
            parts.2 <= 253,
            parts.2 > 0 ==> parts.1 >= FRACTION_RANGE,
    {
        let m = self.magnitude_bits();
        let e = m / FRACTION_RANGE;
        let fraction = m % FRACTION_RANGE;
        if e == 0 {
            (self.0 >= SIGN_BIT, fraction, 0)
        } else {
            (self.0 >= SIGN_BIT, fraction + FRACTION_RANGE, e - 1)
        }
    }

    /// Whether the difference of the two values, computed in binary32, is
    /// in magnitude below the machine epsilon.
    pub fn is_roughly(self, other: Scalar) -> (near: bool)
        ensures
            near == self.roughly(other),
    {
        if !self.is_finite() || !other.is_finite() {
            return false;
        }
        let (na, ma, sa) = self.decode();
        let (nb, mb, sb) = other.decode();
        let ghost ua: int = ma as int * pow2(sa as nat);
        let ghost ub: int = mb as int * pow2(sb as nat);
        let ghost limit: int = pow2(126) - pow2(101);
        proof {
            lemma_pow2_127();
            lemma_pow2_strictly_increases(101, 126);
            lemma_pow2_pos(101);
            lemma_pow2_unfold(127);
            lemma_pow2_pos(sa as nat);
            lemma_pow2_pos(sb as nat);
            assert(ua >= 0) by (nonlinear_arith)
                requires
                    ua == ma as int * pow2(sa as nat),
                    ma >= 0,
                    pow2(sa as nat) > 0,
            ;
            assert(ub >= 0) by (nonlinear_arith)
                requires
                    ub == mb as int * pow2(sb as nat),
                    mb >= 0,
                    pow2(sb as nat) > 0,
            ;
            assert(self.units() == if na { -ua } else { ua });
            assert(other.units() == if nb { -ub } else { ub });
            assert(limit < pow2(126));
            assert(2 * pow2(126) == pow2(127));
        }
        if sa <= 103 && sb <= 103 {
            proof {
                lemma_pow2_le(sa as nat, 103);
                lemma_pow2_le(sb as nat, 103);
                lemma_pow2_adds(24, 103);
                lemma2_to64();
                lemma_product_below(ma as int, pow2(sa as nat) as int, 0x100_0000, pow2(103) as int);
                lemma_product_below(mb as int, pow2(sb as nat) as int, 0x100_0000, pow2(103) as int);
                assert(ua <= pow2(127));
                assert(ub <= pow2(127));
            }
            let pa = power_of_two(sa);
            let pb = power_of_two(sb);
            let wa: u128 = (ma as u128) * pa;
            let wb: u128 = (mb as u128) * pb;
            assert(wa == ua);
            assert(wb == ub);
            let threshold: u128 = power_of_two(126) - power_of_two(101);
            let difference: u128 = if na == nb {
                if wa >= wb {
                    wa - wb
                } else {
                    wb - wa
                }
            } else {
                wa + wb
            };
            proof {
                assert(threshold == limit);
                if na == nb {
                    assert(self.units() - other.units() == difference || other.units()
                        - self.units() == difference);
                    assert(self.units() - other.units() == -(difference as int) || other.units()
                        - self.units() == -(difference as int));
                } else {
                    assert(self.units() - other.units() == difference || other.units()
                        - self.units() == difference);
                    assert(self.units() - other.units() == -(difference as int) || other.units()
                        - self.units() == -(difference as int));
                }
                assert((difference < threshold) == self.roughly(other));
            }
            difference < threshold
        } else {
            let hi_is_a = sa >= sb;
            let (mh, sh, ml, sl) = if hi_is_a {
                (ma, sa, mb, sb)
            } else {
                (mb, sb, ma, sa)
            };
            let ghost uh: int = if hi_is_a { ua } else { ub };
            let ghost ul: int = if hi_is_a { ub } else { ua };
            proof {
                assert(uh == mh as int * pow2(sh as nat));
                assert(ul == ml as int * pow2(sl as nat));
                // The value of larger scale is at least 2^127 units.
                lemma_pow2_le(104, sh as nat);
                lemma_pow2_adds(23, 104);
                lemma2_to64();
                lemma_product_at_least(mh as int, pow2(sh as nat) as int, 0x80_0000, pow2(104) as int);
                assert(uh >= pow2(127));
            }
            if na != nb {
                proof {
                    assert(ua + ub >= pow2(127));
                    assert(self.units() - other.units() == ua + ub || other.units() - self.units()
                        == ua + ub);
                }
                return false;
            }
            if sh - sl >= 2 {
                proof {
                    // The smaller value is below a quarter of 2^24 times the larger scale.
                    lemma_pow2_le(sl as nat, (sh - 2) as nat);
                    lemma_pow2_adds(2, (sh - 2) as nat);
                    lemma_pow2_adds(22, 104);
                    lemma_pow2_pos(sl as nat);
                    lemma_pow2_pos(104);
                    lemma_far_apart(
                        mh as int,
                        ml as int,
                        pow2(sh as nat) as int,
                        pow2(sl as nat) as int,
                        pow2((sh - 2) as nat) as int,
                        pow2(104) as int,
                    );
                    assert(uh - ul >= pow2(126));
                    assert(self.units() - other.units() == uh - ul || other.units() - self.units()
                        == uh - ul);
                }
                return false;
            }
            let scaled: u64 = if sh == sl {
                mh as u64
            } else {
                2 * (mh as u64)
            };
            let low: u64 = ml as u64;
            let d: u64 = if scaled >= low {
                scaled - low
            } else {
                low - scaled
            };
            let ghost gap: int = d as int * pow2(sl as nat);
            proof {
                if sh != sl {
                    lemma_pow2_unfold(sh as nat);
                }
                lemma_pow2_pos(sl as nat);
                lemma_same_scale(
                    mh as int,
                    ml as int,
                    scaled as int,
                    d as int,
                    pow2(sh as nat) as int,
                    pow2(sl as nat) as int,
                );
                assert(uh - ul == gap || ul - uh == gap);
                assert(gap >= 0) by (nonlinear_arith)
                    requires
                        gap == d as int * pow2(sl as nat),
                        d >= 0,
                        pow2(sl as nat) > 0,
                ;
                assert(self.units() - other.units() == gap || other.units() - self.units() == gap);
                assert(self.units() - other.units() == -gap || other.units() - self.units()
                    == -gap);
                assert(self.roughly(other) == (gap < limit));
            }
            if sl >= 126 {
                proof {
                    lemma_pow2_le(126, sl as nat);
                    if d > 0 {
                        lemma_product_at_least(d as int, pow2(sl as nat) as int, 1, pow2(126) as int);
                    } else {
                        assert(gap == 0) by (nonlinear_arith)
                            requires
                                gap == d as int * pow2(sl as nat),
                                d == 0,
                        ;
                    }
                    assert((d == 0) == self.roughly(other));
                }
                d == 0
            } else {
                let q = power_of_two(126 - sl);
                proof {
                    lemma_pow2_adds((126 - sl) as nat, sl as nat);
                    lemma_pow2_le(103, sl as nat);
                    lemma_pow2_strictly_increases(101, 103);
                    lemma_pow2_pos((126 - sl) as nat);
                    lemma_cut(d as int, q as int, pow2(sl as nat) as int);
                    assert(q as int * pow2(sl as nat) == pow2(126));
                    assert(pow2(sl as nat) > pow2(101));
                    assert(((d as u128) < q) == self.roughly(other));
                }
                (d as u128) < q
            }
        }
    }
}

/// The bound below which differences count as small is positive, so that
/// every finite value is roughly equal to itself.
pub proof fn lemma_pow2_gap_is_positive()
    ensures
        pow2(126) - pow2(101) > 0,
        forall|a: Scalar| a.finite() ==> #[trigger] a.roughly(a),
{
    lemma_pow2_strictly_increases(101, 126);
}

pub(crate) proof fn lemma_pow2_127()
    ensures
        pow2(127) == 0x8000_0000_0000_0000_0000_0000_0000_0000,
{
    lemma2_to64();
    lemma2_to64_rest();
    lemma_pow2_adds(64, 63);
    assert(0x1_0000_0000_0000_0000int * 0x8000_0000_0000_0000int
        == 0x8000_0000_0000_0000_0000_0000_0000_0000int) by (nonlinear_arith);
}

pub(crate) proof fn lemma_pow2_le(a: nat, b: nat)
    requires
        a <= b,
    ensures
        pow2(a) <= pow2(b),
{
    if a < b {
        lemma_pow2_strictly_increases(a, b);
    }
}

pub(crate) proof fn lemma_product_below(m: int, p: int, m_bound: int, p_bound: int)
    requires
        0 <= m < m_bound,
        0 <= p <= p_bound,
    ensures
        0 <= m * p < m_bound * p_bound || (p_bound == 0 && m * p == 0),
        m * p <= m_bound * p_bound,
{
    assert(0 <= m * p) by (nonlinear_arith)
        requires
            0 <= m,
            0 <= p,
    ;
    assert(m * p <= m * p_bound) by (nonlinear_arith)
        requires
            0 <= m,
            p <= p_bound,
    ;
    if p_bound > 0 {
        assert(m * p_bound < m_bound * p_bound) by (nonlinear_arith)
            requires
                m < m_bound,
                p_bound > 0,
        ;
    } else {
        assert(m * p == 0) by (nonlinear_arith)
            requires
                p == 0,
        ;
        assert(m_bound * p_bound == 0) by (nonlinear_arith)
            requires
                p_bound == 0,
        ;
    }
}

proof fn lemma_product_at_least(m: int, p: int, m_bound: int, p_bound: int)
    requires
        0 <= m_bound <= m,
        0 <= p_bound <= p,
    ensures
        m * p >= m_bound * p_bound,
{
    assert(m * p >= m_bound * p) by (nonlinear_arith)
        requires
            m_bound <= m,
            0 <= p,
    ;
    assert(m_bound * p >= m_bound * p_bound) by (nonlinear_arith)
        requires
            0 <= m_bound,
            p_bound <= p,
    ;
}

proof fn lemma_far_apart(mh: int, ml: int, ph: int, pl: int, quarter: int, floor: int)
    requires
        0x80_0000 <= mh,
        0 <= ml < 0x100_0000,
        0 < pl <= quarter,
        ph == 4 * quarter,
        floor <= ph,
        floor > 0,
    ensures
        mh * ph - ml * pl >= 0x40_0000 * floor,
{
    assert(mh * ph >= 0x80_0000 * ph) by (nonlinear_arith)
        requires
            0x80_0000 <= mh,
            ph > 0,
    ;
    assert(ml * pl <= 0x100_0000 * quarter) by (nonlinear_arith)
        requires
            0 <= ml < 0x100_0000,
            0 < pl <= quarter,
    ;
    assert(0x80_0000 * ph - 0x100_0000 * quarter == 0x40_0000 * ph) by (nonlinear_arith)
        requires
            ph == 4 * quarter,
    ;
    assert(0x40_0000 * ph >= 0x40_0000 * floor) by (nonlinear_arith)
        requires
            floor <= ph,
    ;
}

proof fn lemma_same_scale(mh: int, ml: int, scaled: int, d: int, ph: int, pl: int)
    requires
        scaled == mh && ph == pl || scaled == 2 * mh && ph == 2 * pl,
        d == scaled - ml || d == ml - scaled,
        d >= 0,
    ensures
        mh * ph - ml * pl == d * pl || ml * pl - mh * ph == d * pl,
        d == scaled - ml ==> mh * ph - ml * pl == d * pl,
        d == ml - scaled ==> ml * pl - mh * ph == d * pl,
{
    assert(mh * ph == scaled * pl) by (nonlinear_arith)
        requires
            scaled == mh && ph == pl || scaled == 2 * mh && ph == 2 * pl,
    ;
    assert((scaled - ml) * pl == scaled * pl - ml * pl) by (nonlinear_arith);
    assert((ml - scaled) * pl == ml * pl - scaled * pl) by (nonlinear_arith);
}

proof fn lemma_cut(d: int, q: int, p: int)
    requires
        d >= 0,
        q > 0,
        p > 0,
    ensures
        d < q ==> d * p <= q * p - p,
        d >= q ==> d * p >= q * p,
{
    if d < q {
        assert(d * p <= (q - 1) * p) by (nonlinear_arith)
            requires
                d <= q - 1,
                p > 0,
        ;
        assert((q - 1) * p == q * p - p) by (nonlinear_arith);
    } else {
        assert(d * p >= q * p) by (nonlinear_arith)
            requires
                d >= q,
                p > 0,
        ;
    }
}

pub(crate) fn power_of_two(k: u32) -> (r: u128)
    requires
        k <= 127,
    ensures
        r == pow2(k as nat),
{
    let mut r: u128 = 1;
    let mut i: u32 = 0;
    proof {
        lemma2_to64();
    }
    while i < k
        invariant
            i <= k <= 127,
            r == pow2(i as nat),
        decreases k - i,
    {
        proof {
            lemma_pow2_unfold((i + 1) as nat);
            lemma_pow2_le((i + 1) as nat, 127);
            lemma_pow2_127();
        }
        r = r * 2;
        i += 1;
    }
    r
}

} // verus!
