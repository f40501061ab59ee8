//! Whole numbers that binary32 holds exactly: sums and differences of
//! small whole numbers are computed without rounding.

use crate::scalar::product::UNIT_PLACES;
use crate::scalar::sum::{
    dropped_bits, lemma_dropped_bits, lemma_value_is_nearest_to_itself, nearest, nearest_magnitude,
    rounded,
};
use crate::scalar::whole::{whole_count, Towards};
use crate::scalar::{Scalar, FRACTION_RANGE, INFINITY_BITS, SIGN_BIT};
use vstd::arithmetic::div_mod::lemma_fundamental_div_mod_converse;
use vstd::arithmetic::power2::{
    lemma2_to64, lemma_pow2_adds, lemma_pow2_pos, lemma_pow2_strictly_increases, lemma_pow2_unfold,
    pow2,
};
use vstd::prelude::*;

verus! {

/// Whether `v` is the whole number `n`.
pub open spec fn is_whole(v: Scalar, n: int) -> bool {
    v.finite() && v.units() == n * pow2(UNIT_PLACES as nat)
}

/// Whether `v` is a number of magnitude below 2 to the 22nd: the places
/// of which the laws on rounded edges speak. Of larger places they claim
/// nothing: whole numbers beyond 2 to the 24th no longer add and subtract
/// without rounding, and edges that met can come apart by a unit there.
pub open spec fn small(v: Scalar) -> bool {
    v.finite() && v.unit_count() < pow2(22) * pow2(UNIT_PLACES as nat)
}

/// The whole number nearest to `v`, halves away from zero.
pub open spec fn whole_part(v: Scalar) -> int {
    if v.sign_negative() {
        -(whole_count(v.unit_count(), Towards::Nearest) as int)
    } else {
        whole_count(v.unit_count(), Towards::Nearest) as int
    }
}

proof fn lemma_bit_length(n: nat) -> (len: nat)
    requires
        1 <= n < pow2(24),
    ensures
        1 <= len <= 24,
        pow2((len - 1) as nat) <= n < pow2(len),
    decreases n,
{
    lemma2_to64();
    if n == 1 {
        1
    } else {
        let half = lemma_bit_length(n / 2);
        lemma_pow2_unfold(half);
        lemma_pow2_unfold(half + 1);
        if half >= 24 {
            if half > 24 {
                lemma_pow2_strictly_increases(24, half);
            }
            assert(false);
        }
        half + 1
    }
}

/// A whole number below 2 to the 24th is a value: the value nearest to
/// it is the number itself.
pub proof fn lemma_whole_is_exact(negative: bool, n: nat)
    requires
        n < pow2(24),
    ensures
        nearest(negative, n * pow2(149)).finite(),
        nearest(negative, n * pow2(149)).unit_count() == n * pow2(149),
        nearest(negative, n * pow2(149)).sign_negative() == negative,
{
    lemma2_to64();
    let unit = pow2(149);
    lemma_pow2_pos(149);
    let x: nat = n * unit;
    if n == 0 {
        assert(x == 0);
        assert(dropped_bits(0) == 0);
        assert(nearest_magnitude(0) == 0);
        let v = nearest(negative, x);
        assert(v.magnitude() == 0);
        assert(v.unit_count() == 0) by (nonlinear_arith)
            requires
                v.significand() == 0,
                v.unit_count() == (v.significand() * pow2(v.scale())) as nat,
        ;
    } else {
        let len = lemma_bit_length(n);
        let k: nat = len + 125;
        let e: nat = (24 - len) as nat;
        lemma_pow2_adds((len - 1) as nat, 149);
        lemma_pow2_adds(len, 149);
        lemma_pow2_pos(k);
        lemma_pow2_pos(e);
        assert(pow2(23 + k) <= x) by (nonlinear_arith)
            requires
                x == n * unit,
                pow2(23 + k) == pow2((len - 1) as nat) * unit,
                pow2((len - 1) as nat) <= n,
                unit > 0,
        ;
        assert(x < pow2(24 + k)) by (nonlinear_arith)
            requires
                x == n * unit,
                pow2(24 + k) == pow2(len) * unit,
                n < pow2(len),
                unit > 0,
        ;
        lemma_dropped_bits(x, k);
        lemma_pow2_adds(e, k);
        let q: nat = n * pow2(e);
        assert(x == q * pow2(k)) by (nonlinear_arith)
            requires
                x == n * unit,
                unit == pow2(e) * pow2(k),
                q == n * pow2(e),
        ;
        lemma_fundamental_div_mod_converse(x as int, pow2(k) as int, q as int, 0);
        lemma_pow2_pos((k - 1) as nat);
        assert(nearest_magnitude(x) == k * FRACTION_RANGE + q);
        lemma_pow2_adds(23, k);
        lemma_pow2_adds(24, k);
        assert(pow2(23) <= q) by (nonlinear_arith)
            requires
                pow2(23 + k) <= x,
                x == q * pow2(k),
                pow2(23 + k) == pow2(23) * pow2(k),
                pow2(k) > 0,
        ;
        assert(q < pow2(24)) by (nonlinear_arith)
            requires
                x < pow2(24 + k),
                x == q * pow2(k),
                pow2(24 + k) == pow2(24) * pow2(k),
                pow2(k) > 0,
        ;
        let m: int = k * FRACTION_RANGE + q;
        assert(k <= 149);
        assert(m < INFINITY_BITS);
        let v = nearest(negative, x);
        assert(v.magnitude() == m);
        lemma_fundamental_div_mod_converse(
            m as int,
            FRACTION_RANGE as int,
            (k + 1) as int,
            q - FRACTION_RANGE,
        );
        assert(v.exponent_field() == k + 1);
        assert(v.significand() == q);
        assert(v.scale() == k);
        assert(v.unit_count() == x);
    }
}

/// Two numbers that stand for the same number of units are the same number.
pub proof fn lemma_units_decide(a: Scalar, b: Scalar)
    requires
        a.finite(),
        b.finite(),
        a.units() == b.units(),
    ensures
        a.same(b),
        a.unit_count() == b.unit_count(),
{
    lemma_value_is_nearest_to_itself(a);
    lemma_value_is_nearest_to_itself(b);
    lemma_pow2_pos(a.scale());
    lemma_pow2_pos(b.scale());
    let ca = a.significand() as nat * pow2(a.scale());
    let cb = b.significand() as nat * pow2(b.scale());
    assert(ca >= 0 && cb >= 0);
    assert(a.significand() * pow2(a.scale()) == ca);
    assert(b.significand() * pow2(b.scale()) == cb);
    if a.sign_negative() != b.sign_negative() {
        assert(ca == 0 && cb == 0);
        assert(dropped_bits(0) == 0);
        assert(nearest_magnitude(0) == 0);
    } else {
        assert(ca == cb);
    }
}

/// The same number stands for the same number of units.
pub proof fn lemma_units_are_the_value(a: Scalar, b: Scalar)
    requires
        a.finite(),
        a.same(b),
    ensures
        b.finite(),
        a.units() == b.units(),
{
    if a.magnitude() == 0 {
        assert(b.magnitude() == 0);
        assert(a.units() == 0) by (nonlinear_arith)
            requires
                a.significand() == 0,
                a.units() == a.significand() * pow2(a.scale()) || a.units() == -(a.significand()
                    * pow2(a.scale())),
        ;
        assert(b.units() == 0) by (nonlinear_arith)
            requires
                b.significand() == 0,
                b.units() == b.significand() * pow2(b.scale()) || b.units() == -(b.significand()
                    * pow2(b.scale())),
        ;
    } else {
        assert(a.magnitude() == b.magnitude());
        assert(a.sign_negative() == b.sign_negative());
        assert(a == b);
    }
}

/// The same number has the same whole part, whatever the sign of a zero.
pub proof fn lemma_whole_part_goes_by_value(a: Scalar, b: Scalar)
    requires
        a.same(b),
    ensures
        whole_part(a) == whole_part(b),
        a.unit_count() == b.unit_count(),
{
    lemma2_to64();
    if a.magnitude() == 0 {
        assert(b.magnitude() == 0);
        assert(a.unit_count() == 0) by (nonlinear_arith)
            requires
                a.significand() == 0,
                a.unit_count() == (a.significand() * pow2(a.scale())) as nat,
        ;
        assert(b.unit_count() == 0) by (nonlinear_arith)
            requires
                b.significand() == 0,
                b.unit_count() == (b.significand() * pow2(b.scale())) as nat,
        ;
        lemma_pow2_pos(149);
        lemma_pow2_unfold(149);
        lemma_fundamental_div_mod_converse(pow2(148) as int, pow2(149) as int, 0, pow2(148) as int);
        assert(whole_count(0, Towards::Nearest) == 0);
    } else {
        assert(a.magnitude() == b.magnitude());
        assert(a.sign_negative() == b.sign_negative());
    }
}

/// A small number rounds to a whole number of magnitude 2 to the 22nd at
/// the most, which the rounded value holds exactly.
pub proof fn lemma_round_is_whole(v: Scalar)
    requires
        small(v),
    ensures
        is_whole(v.rounded_to_whole(), whole_part(v)),
        -pow2(22) <= whole_part(v) <= pow2(22),
{
    reveal(Scalar::whole);
    lemma2_to64();
    let unit = pow2(149);
    lemma_pow2_pos(149);
    lemma_pow2_unfold(149);
    let c = v.unit_count();
    let n = whole_count(c, Towards::Nearest);
    assert(n == (c + pow2(148)) / unit);
    assert(n <= pow2(22)) by (nonlinear_arith)
        requires
            n == (c + pow2(148)) / unit,
            c < pow2(22) * unit,
            unit == 2 * pow2(148),
            unit > 0,
    ;
    lemma_whole_is_exact(v.sign_negative(), n);
    let r = v.rounded_to_whole();
    assert(r == nearest(v.sign_negative(), n * unit));
    lemma_pow2_pos(r.scale());
    assert(r.significand() * pow2(r.scale()) >= 0) by (nonlinear_arith)
        requires
            r.significand() >= 0,
            pow2(r.scale()) > 0,
    ;
    if v.sign_negative() {
        assert(r.units() == -(n * unit));
        assert(-(n * unit) == (-(n as int)) * unit) by (nonlinear_arith);
    }
}

/// The sum of two whole numbers is their exact sum, where that is below
/// 2 to the 24th in magnitude.
pub proof fn lemma_sum_of_wholes(a: Scalar, b: Scalar, na: int, nb: int)
    requires
        is_whole(a, na),
        is_whole(b, nb),
        -pow2(24) < na + nb < pow2(24),
    ensures
        is_whole(a.sum(b), na + nb),
{
    reveal(Scalar::sum);
    lemma2_to64();
    let unit = pow2(149);
    lemma_pow2_pos(149);
    let t = na + nb;
    let x = a.units() + b.units();
    assert(x == t * unit) by (nonlinear_arith)
        requires
            x == na * unit + nb * unit,
            t == na + nb,
    ;
    let out = a.sum(b);
    assert(out == rounded(x, a.sign_negative() && b.sign_negative()));
    if t == 0 {
        assert(x == 0) by (nonlinear_arith)
            requires
                x == t * unit,
                t == 0,
        ;
        assert(out.magnitude() == 0);
        assert(out.units() == 0) by (nonlinear_arith)
            requires
                out.significand() == 0,
                out.units() == out.significand() * pow2(out.scale()) || out.units() == -(
                out.significand() * pow2(out.scale())),
        ;
    } else if t > 0 {
        assert(x > 0) by (nonlinear_arith)
            requires
                x == t * unit,
                t > 0,
                unit > 0,
        ;
        lemma_whole_is_exact(false, t as nat);
        assert(x as nat == (t as nat) * unit);
        lemma_pow2_pos(out.scale());
        assert(out.significand() * pow2(out.scale()) >= 0) by (nonlinear_arith)
            requires
                out.significand() >= 0,
                pow2(out.scale()) > 0,
        ;
    } else {
        assert(x < 0) by (nonlinear_arith)
            requires
                x == t * unit,
                t < 0,
                unit > 0,
        ;
        lemma_whole_is_exact(true, (-t) as nat);
        assert((-x) as nat == ((-t) as nat) * unit) by (nonlinear_arith)
            requires
                x == t * unit,
                t < 0,
                unit > 0,
        ;
        lemma_pow2_pos(out.scale());
        assert(out.significand() * pow2(out.scale()) >= 0) by (nonlinear_arith)
            requires
                out.significand() >= 0,
                pow2(out.scale()) > 0,
        ;
    }
}

/// A whole number with the opposite sign is the opposite whole number.
pub proof fn lemma_negated_whole(a: Scalar, n: int)
    requires
        is_whole(a, n),
    ensures
        is_whole(a.negated(), -n),
{
    let unit = pow2(149);
    assert(a.negated().magnitude() == a.magnitude());
    assert(a.negated().sign_negative() != a.sign_negative());
    assert(a.negated().units() == -a.units());
    assert(-(n * unit) == (-n) * unit) by (nonlinear_arith);
}

/// Adding a number to zero gives the number.
pub proof fn lemma_zero_plus(x: Scalar)
    requires
        x.finite(),
    ensures
        Scalar::zero_value().sum(x).finite(),
        Scalar::zero_value().sum(x).same(x),
        Scalar::zero_value().sum(x).unit_count() == x.unit_count(),
{
    reveal(Scalar::sum);
    lemma2_to64();
    let zero = Scalar::zero_value();
    assert(zero.units() == 0) by (nonlinear_arith)
        requires
            zero.significand() == 0,
            zero.units() == zero.significand() * pow2(zero.scale()),
    ;
    lemma_value_is_nearest_to_itself(x);
    lemma_pow2_pos(x.scale());
    let c = x.significand() as nat * pow2(x.scale());
    assert(x.significand() * pow2(x.scale()) == c);
    let out = zero.sum(x);
    assert(out == rounded(x.units(), false));
    if x.units() == 0 {
        assert(out == Scalar(0));
        assert(c == 0);
        assert(dropped_bits(0) == 0);
        assert(nearest_magnitude(0) == 0);
        assert(x.magnitude() == 0);
        assert(out.unit_count() == 0) by (nonlinear_arith)
            requires
                out.significand() == 0,
                out.unit_count() == (out.significand() * pow2(out.scale())) as nat,
        ;
    } else {
        assert(out == x);
    }
}

/// A sum goes by the numbers that are added, whatever the sign of a zero.
pub proof fn lemma_sum_goes_by_value(a: Scalar, b: Scalar, w: Scalar)
    requires
        a.finite(),
        b.finite(),
        w.finite(),
        a.same(b),
    ensures
        a.sum(w).same(b.sum(w)),
{
    reveal(Scalar::sum);
    lemma2_to64();
    if a.magnitude() == 0 {
        assert(b.magnitude() == 0);
        assert(a.units() == 0) by (nonlinear_arith)
            requires
                a.significand() == 0,
                a.units() == a.significand() * pow2(a.scale()) || a.units() == -(a.significand()
                    * pow2(a.scale())),
        ;
        assert(b.units() == 0) by (nonlinear_arith)
            requires
                b.significand() == 0,
                b.units() == b.significand() * pow2(b.scale()) || b.units() == -(b.significand()
                    * pow2(b.scale())),
        ;
    } else {
        assert(a == b);
    }
    let x = a.units() + w.units();
    assert(a.sum(w) == rounded(x, a.sign_negative() && w.sign_negative()));
    assert(b.sum(w) == rounded(x, b.sign_negative() && w.sign_negative()));
}

/// Edges that meet still meet after rounding, wherever the boxes stand.
/// `left` is where a box starts, `w` its extent, and `next` where the
/// following box starts, all in the coordinates of the root, and the box
/// ends where the next starts. The rounded box, which starts at `left`
/// rounded and reaches as far as its rounded edges are apart, ends where
/// the next, rounded, starts. This holds of places of magnitude below 2
/// to the 22nd, whose whole parts add and subtract without rounding.
pub proof fn lemma_absolute_edges_meet(left: Scalar, w: Scalar, next: Scalar)
    requires
        small(left),
        small(next),
        w.finite(),
        left.sum(w).same(next),
    ensures
        left.rounded_to_whole().sum(
            left.sum(w).rounded_to_whole().difference(left.rounded_to_whole()),
        ).same(next.rounded_to_whole()),
{
    lemma2_to64();
    let p = whole_part(left);
    lemma_round_is_whole(left);
    let right = left.sum(w);
    assert(right.magnitude() == next.magnitude());
    lemma_whole_part_goes_by_value(right, next);
    let q = whole_part(next);
    lemma_round_is_whole(right);
    lemma_round_is_whole(next);
    let from = left.rounded_to_whole();
    let to = right.rounded_to_whole();
    lemma_negated_whole(from, p);
    lemma_sum_of_wholes(to, from.negated(), q, -p);
    let width = to.difference(from);
    lemma_sum_of_wholes(from, width, p, q - p);
    lemma_units_decide(from.sum(width), next.rounded_to_whole());
}

/// Edges that meet still meet after rounding. Of two boxes side by side
/// in a parent whose corner is at the origin, the first starts at `x` and
/// is `w` wide, and the second starts where the first ends, at `next`.
/// Rounded, the first starts at `x` rounded and is as wide as its rounded
/// edges are apart; so it ends where the second, rounded, starts. This
/// holds of numbers of magnitude below 2 to the 22nd, whose whole parts
/// add and subtract without rounding.
pub proof fn lemma_edges_meet(x: Scalar, w: Scalar, next: Scalar)
    requires
        small(x),
        small(next),
        w.finite(),
        x.sum(w).same(next),
    ensures
        ({
            let left = Scalar::zero_value().sum(x);
            x.rounded_to_whole().sum(
                left.sum(w).rounded_to_whole().difference(left.rounded_to_whole()),
            ).same(next.rounded_to_whole())
        }),
{
    lemma2_to64();
    let left = Scalar::zero_value().sum(x);
    lemma_zero_plus(x);
    lemma_whole_part_goes_by_value(left, x);
    let p = whole_part(x);
    lemma_round_is_whole(x);
    lemma_round_is_whole(left);
    let right = left.sum(w);
    lemma_sum_goes_by_value(left, x, w);
    assert(right.same(next));
    assert(right.magnitude() == next.magnitude());
    lemma_whole_part_goes_by_value(right, next);
    let q = whole_part(next);
    lemma_round_is_whole(right);
    lemma_round_is_whole(next);
    let from = left.rounded_to_whole();
    let to = right.rounded_to_whole();
    lemma_negated_whole(from, p);
    lemma_sum_of_wholes(to, from.negated(), q, -p);
    let width = to.difference(from);
    lemma_sum_of_wholes(x.rounded_to_whole(), width, p, q - p);
    lemma_units_decide(x.rounded_to_whole().sum(width), next.rounded_to_whole());
}

/// The units of a number that is not negative are its count of units.
pub proof fn lemma_units_of_what_is_not_negative(a: Scalar)
    requires
        a.finite(),
        Scalar::zero_value().less_eq(a),
    ensures
        a.units() == a.unit_count(),
        whole_part(a) == whole_count(a.unit_count(), Towards::Nearest),
{
    lemma2_to64();
    lemma_pow2_pos(a.scale());
    assert(a.significand() * pow2(a.scale()) >= 0) by (nonlinear_arith)
        requires
            a.significand() >= 0,
            pow2(a.scale()) > 0,
    ;
    if a.sign_negative() {
        assert(a.magnitude() == 0);
        assert(a.significand() * pow2(a.scale()) == 0) by (nonlinear_arith)
            requires
                a.significand() == 0,
        ;
        lemma_pow2_pos(149);
        lemma_pow2_unfold(149);
        lemma_fundamental_div_mod_converse(pow2(148) as int, pow2(149) as int, 0, pow2(148) as int);
    }
}

/// Rounding goes along with a whole origin: the whole part of a number
/// that is not negative, moved by a whole number that is not negative,
/// is its own whole part moved by that number, where the move is
/// computed without rounding.
pub proof fn lemma_whole_part_moves_with_the_origin(origin: Scalar, a: Scalar, n: int)
    requires
        is_whole(origin, n),
        n >= 0,
        a.finite(),
        Scalar::zero_value().less_eq(a),
        origin.sum(a).finite(),
        origin.sum(a).units() == origin.units() + a.units(),
    ensures
        whole_part(origin.sum(a)) == n + whole_part(a),
{
    lemma2_to64();
    let unit = pow2(149);
    let half = pow2(148);
    lemma_pow2_pos(149);
    lemma_pow2_pos(148);
    lemma_pow2_unfold(149);
    lemma_units_of_what_is_not_negative(a);
    let moved = origin.sum(a);
    let c = a.unit_count();
    assert(n * unit >= 0) by (nonlinear_arith)
        requires
            n >= 0,
            unit > 0,
    ;
    assert(moved.units() == n * unit + c);
    lemma_pow2_pos(moved.scale());
    assert(moved.significand() * pow2(moved.scale()) >= 0) by (nonlinear_arith)
        requires
            moved.significand() >= 0,
            pow2(moved.scale()) > 0,
    ;
    if moved.sign_negative() {
        assert(moved.units() == 0);
        assert(moved.significand() * pow2(moved.scale()) == 0);
    }
    assert(moved.unit_count() == n * unit + c);
    if moved.sign_negative() {
        assert(moved.unit_count() == 0);
        assert(c == 0);
        assert(n == 0) by (nonlinear_arith)
            requires
                n * unit == 0,
                unit > 0,
                n >= 0,
        ;
        lemma_fundamental_div_mod_converse(half as int, unit as int, 0, half as int);
        assert(whole_count(0, Towards::Nearest) == 0);
    } else {
        let q = (c + half) / unit;
        let r = (c + half) % unit;
        vstd::arithmetic::div_mod::lemma_fundamental_div_mod((c + half) as int, unit as int);
        vstd::arithmetic::div_mod::lemma_mod_bound((c + half) as int, unit as int);
        assert(n * unit + c + half == (n + q) * unit + r) by (nonlinear_arith)
            requires
                c + half == unit * q + r,
        ;
        lemma_fundamental_div_mod_converse(
            (n * unit + c + half) as int,
            unit as int,
            n + q,
            r as int,
        );
        assert(whole_count(moved.unit_count(), Towards::Nearest) == n + q);
    }
}

/// The sum of two numbers that are not negative is a number that is
/// not negative.
pub proof fn lemma_sum_is_not_negative(a: Scalar, b: Scalar)
    requires
        Scalar::zero_value().less_eq(a),
        Scalar::zero_value().less_eq(b),
    ensures
        Scalar::zero_value().less_eq(a.sum(b)),
{
    reveal(Scalar::sum);
    lemma2_to64();
    if a.finite() && b.finite() {
        lemma_pow2_pos(a.scale());
        lemma_pow2_pos(b.scale());
        assert(a.units() >= 0) by (nonlinear_arith)
            requires
                a.significand() >= 0,
                pow2(a.scale()) > 0,
                a.sign_negative() ==> a.significand() == 0,
                a.units() == a.significand() * pow2(a.scale()) || (a.sign_negative() && a.units()
                    == -(a.significand() * pow2(a.scale()))),
        ;
        assert(b.units() >= 0) by (nonlinear_arith)
            requires
                b.significand() >= 0,
                pow2(b.scale()) > 0,
                b.sign_negative() ==> b.significand() == 0,
                b.units() == b.significand() * pow2(b.scale()) || (b.sign_negative() && b.units()
                    == -(b.significand() * pow2(b.scale()))),
        ;
        let x = a.units() + b.units();
        assert(a.sum(b) == rounded(x, a.sign_negative() && b.sign_negative()));
    }
}

} // verus!
