//! How far the operations on binary64 numbers are from exact arithmetic.

use crate::binary64;
use crate::binary64::Binary64;
use crate::order;
use crate::rounding;
use vstd::arithmetic::mul::*;
use vstd::arithmetic::power2::*;
use vstd::prelude::*;

verus! {

/// What infinity stands for, in units: the first power of two beyond the finite numbers.
pub open spec fn beyond() -> int {
    rounding::units(rounding::INFINITE as nat) as int
}

/// The largest finite number, in units.
pub open spec fn largest() -> int {
    rounding::units((rounding::INFINITE - 1) as nat) as int
}

pub proof fn lemma_beyond()
    ensures
        beyond() == pow2(2098),
        0 < largest() < beyond(),
{
    rounding::lemma_pow2_52_53();
    rounding::lemma_units(2046, rounding::HIDDEN as nat);
    lemma_pow2_adds(52, 2046);
    assert(2046 * rounding::HIDDEN + rounding::HIDDEN == rounding::INFINITE);
    rounding::lemma_units_ordered((rounding::INFINITE - 1) as nat, rounding::INFINITE as nat);
    rounding::lemma_units_zero((rounding::INFINITE - 1) as nat);
}

/// 2^53 times a number, with the factor spelled out.
pub proof fn lemma_parts(d: int)
    ensures
        rounding::SIGNIFICANDS * d == 0x20_0000_0000_0000 * d,
{
    assert(rounding::SIGNIFICANDS * d == 0x20_0000_0000_0000 * d) by (nonlinear_arith);
}

/// A fraction within the range of finite numbers is rounded by at most one part in 2^53, or by
/// half a unit where it is small. One that is beyond them is rounded to infinity.
pub proof fn lemma_nearest_error(num: nat, den: nat)
    requires
        den > 0,
    ensures
        num <= beyond() * den ==> 2 * rounding::SIGNIFICANDS * rounding::distance(
            rounding::units(rounding::nearest(num, den)) * den as int,
            num as int,
        ) <= 2 * num + rounding::SIGNIFICANDS * den,
        num <= beyond() * den && (den == 1 || num >= rounding::SIGNIFICANDS * den)
            ==> rounding::SIGNIFICANDS * rounding::distance(
            rounding::units(rounding::nearest(num, den)) * den as int,
            num as int,
        ) <= num,
        num > beyond() * den ==> rounding::nearest(num, den) == rounding::INFINITE,
{
    let scale = rounding::excess_bits(num / den);
    let p = pow2(scale);
    let step = den * p;
    let found = rounding::half_even(num, step);
    let chosen = rounding::nearest(num, den);
    let u = rounding::units(rounding::INFINITE as nat);
    rounding::lemma_pow2_52_53();
    lemma_beyond();
    lemma_pow2_pos(scale);
    lemma_mul_strictly_positive(den as int, p as int);
    rounding::lemma_rounded_significand(num, den);
    rounding::lemma_half_even(num, step);
    if num >= u * den {
        rounding::lemma_nearest_at_least(num, den, rounding::INFINITE as nat);
        if num == u * den {
            rounding::lemma_nearest_exact(rounding::INFINITE as nat, den);
        }
    } else {
        rounding::lemma_unsaturated(num, den);
        rounding::lemma_units(scale, found);
        assert(rounding::units(chosen) * den == found * step) by (nonlinear_arith)
            requires
                rounding::units(chosen) == found * p,
                step == den * p,
        ;
        if scale == 0 {
            assert(step == den) by (nonlinear_arith)
                requires
                    step == den * p,
                    p == 1,
            ;
            if num >= rounding::SIGNIFICANDS * den {
                rounding::lemma_excess_bits(num / den);
                vstd::arithmetic::div_mod::lemma_div_is_ordered(
                    rounding::SIGNIFICANDS * den,
                    num as int,
                    den as int,
                );
                vstd::arithmetic::div_mod::lemma_div_by_multiple(
                    rounding::SIGNIFICANDS as int,
                    den as int,
                );
            }
        }
    }
}

/// A whole number of units is rounded by at most one part in 2^53, and never beyond infinity.
pub proof fn lemma_settled_error(total: int)
    requires
        total >= 0,
    ensures
        0 <= order::settled(total) <= beyond(),
        total <= beyond() ==> rounding::SIGNIFICANDS * rounding::distance(
            order::settled(total),
            total,
        ) <= total,
        total >= beyond() ==> order::settled(total) == beyond(),
        total <= largest() ==> order::settled(total) <= largest(),
{
    let found = rounding::nearest(total as nat, 1);
    lemma_nearest_error(total as nat, 1);
    assert(rounding::units(found) * 1 == rounding::units(found));
    assert(beyond() * 1 == beyond());
    if found < rounding::INFINITE {
        rounding::lemma_units_ordered(found, rounding::INFINITE as nat);
    }
    if total == beyond() {
        rounding::lemma_nearest_exact(rounding::INFINITE as nat, 1);
    }
    if total <= largest() {
        let top = (rounding::INFINITE - 1) as nat;
        assert(rounding::units(top) * 1 == rounding::units(top));
        rounding::lemma_nearest_at_most(total as nat, 1, top);
        if found < top {
            rounding::lemma_units_ordered(found, top);
        }
    }
}

/// The sum of two numbers of 0 or more is off by at most one part in 2^53, as far as it is in
/// the range of finite numbers.
pub proof fn lemma_sum_error(a: Binary64, b: Binary64)
    requires
        !a.is_nan(),
        !b.is_nan(),
        a.value() >= 0,
        b.value() >= 0,
    ensures
        !a.sum(b).is_nan(),
        0 <= a.sum(b).value() <= beyond(),
        a.value() + b.value() <= beyond() ==> rounding::SIGNIFICANDS * rounding::distance(
            a.sum(b).value(),
            a.value() + b.value(),
        ) <= a.value() + b.value(),
        a.value() + b.value() >= beyond() ==> a.sum(b).value() == beyond(),
{
    lemma_beyond();
    rounding::lemma_units_zero(a.magnitude());
    rounding::lemma_units_zero(b.magnitude());
    if a.finite() && b.finite() {
        order::lemma_sum_value(a, b);
        lemma_settled_error(a.value() + b.value());
    } else {
        order::lemma_value_bound(a);
        order::lemma_value_bound(b);
    }
}

/// The time between two finite numbers is off by at most one part in 2^53, as far as it is in the
/// range of finite numbers.
pub proof fn lemma_difference_error(later: Binary64, earlier: Binary64)
    requires
        later.finite(),
        earlier.finite(),
        earlier.value() <= later.value(),
    ensures
        !later.difference(earlier).is_nan(),
        0 <= later.difference(earlier).value() <= beyond(),
        later.value() - earlier.value() <= beyond() ==> rounding::SIGNIFICANDS
            * rounding::distance(
            later.difference(earlier).value(),
            later.value() - earlier.value(),
        ) <= later.value() - earlier.value(),
        later.value() - earlier.value() > beyond() ==> later.difference(earlier).value()
            == beyond(),
        later.value() - earlier.value() <= largest() ==> later.difference(earlier).value()
            <= largest(),
{
    order::lemma_difference_value(later, earlier);
    lemma_settled_error(later.value() - earlier.value());
}

/// What is at most the largest finite number is finite.
pub proof fn lemma_finite_within(a: Binary64)
    requires
        !a.is_nan(),
        -largest() <= a.value() <= largest(),
    ensures
        a.finite(),
{
    lemma_beyond();
}

/// The product of two finite numbers of 0 or more is off by at most one part in 2^53 and half a
/// unit, as far as it is in the range of finite numbers.
pub proof fn lemma_product_error(a: Binary64, b: Binary64)
    requires
        a.finite(),
        b.finite(),
        a.value() >= 0,
        b.value() >= 0,
    ensures
        !a.product(b).is_nan(),
        0 <= a.product(b).value() <= beyond(),
        a.value() * b.value() <= beyond() * binary64::one() ==> 2 * rounding::SIGNIFICANDS
            * rounding::distance(
            a.product(b).value() * binary64::one(),
            a.value() * b.value(),
        ) <= 2 * (a.value() * b.value()) + rounding::SIGNIFICANDS * binary64::one(),
        a.value() * b.value() > beyond() * binary64::one() ==> a.product(b).value() == beyond(),
{
    let x = rounding::units(a.magnitude());
    let y = rounding::units(b.magnitude());
    let w = binary64::one();
    let found = rounding::nearest(x * y, w);
    order::lemma_one();
    rounding::lemma_units_zero(a.magnitude());
    rounding::lemma_units_zero(b.magnitude());
    rounding::lemma_units_zero(0);
    lemma_nearest_error(x * y, w);
    order::lemma_signed(a.is_negative() != b.is_negative(), found);
    lemma_mul_nonnegative(x as int, y as int);
    if x == 0 || y == 0 {
        assert(x * y == 0) by (nonlinear_arith)
            requires
                x == 0 || y == 0,
        ;
        rounding::lemma_nearest_exact(0, w);
        lemma_mul_by_zero_is_zero(w as int);
        assert(a.value() * b.value() == 0) by (nonlinear_arith)
            requires
                a.value() == 0 || b.value() == 0,
        ;
        lemma_beyond();
        assert(beyond() * w >= 0) by (nonlinear_arith)
            requires
                beyond() >= 0,
                w >= 0,
        ;
    } else {
        order::lemma_value_bound(a.product(b));
        assert(a.value() == x && b.value() == y);
        assert(a.product(b).value() == rounding::units(found));
    }
}

/// The quotient of two finite numbers greater than 0 is off by at most one part in 2^53, and half
/// a unit where it is small, as far as it is in the range of finite numbers.
pub proof fn lemma_quotient_error(a: Binary64, b: Binary64)
    requires
        a.finite(),
        b.finite(),
        a.value() > 0,
        b.value() > 0,
    ensures
        !a.quotient(b).is_nan(),
        !a.quotient(b).is_negative(),
        0 <= a.quotient(b).value() <= beyond(),
        a.value() * binary64::one() <= beyond() * b.value() ==> 2 * rounding::SIGNIFICANDS
            * rounding::distance(
            a.quotient(b).value() * b.value(),
            a.value() * binary64::one(),
        ) <= 2 * (a.value() * binary64::one()) + rounding::SIGNIFICANDS * b.value(),
        rounding::SIGNIFICANDS * b.value() <= a.value() * binary64::one() <= beyond() * b.value()
            ==> rounding::SIGNIFICANDS * rounding::distance(
            a.quotient(b).value() * b.value(),
            a.value() * binary64::one(),
        ) <= a.value() * binary64::one(),
        a.value() * binary64::one() > beyond() * b.value() ==> a.quotient(b).value() == beyond(),
{
    let x = rounding::units(a.magnitude());
    let y = rounding::units(b.magnitude());
    let w = binary64::one();
    let found = rounding::nearest(x * w, y);
    order::lemma_one();
    rounding::lemma_units_zero(0);
    rounding::lemma_units_zero(b.magnitude());
    lemma_nearest_error(x * w, y);
    order::lemma_signed(false, found);
    order::lemma_value_bound(a.quotient(b));
}

/// The quotient of a finite number and one greater than 0, of either sign, is off by at most one
/// part in 2^53 and half a unit, as far as it is in the range of finite numbers.
pub proof fn lemma_signed_quotient_error(a: Binary64, b: Binary64)
    requires
        a.finite(),
        b.finite(),
        b.value() > 0,
        rounding::distance(a.value(), 0) * binary64::one() <= beyond() * b.value(),
    ensures
        !a.quotient(b).is_nan(),
        2 * rounding::SIGNIFICANDS * rounding::distance(
            a.quotient(b).value() * b.value(),
            a.value() * binary64::one(),
        ) <= 2 * (rounding::distance(a.value(), 0) * binary64::one()) + rounding::SIGNIFICANDS
            * b.value(),
{
    let x = rounding::units(a.magnitude());
    let y = rounding::units(b.magnitude());
    let w = binary64::one();
    let found = rounding::nearest(x * w, y);
    let q = a.quotient(b).value();
    order::lemma_one();
    rounding::lemma_units_zero(a.magnitude());
    rounding::lemma_units_zero(0);
    rounding::lemma_units_zero(b.magnitude());
    lemma_nearest_error(x * w, y);
    order::lemma_signed(a.is_negative(), found);
    assert(rounding::distance(a.value(), 0) == x);
    assert(b.value() == y);
    if a.is_negative() {
        let u = rounding::units(found) as int;
        assert(q == -u && a.value() == -x);
        assert((-u) * y == -(u * y)) by (nonlinear_arith);
        assert((-x) * w == -(x * w)) by (nonlinear_arith);
        assert(rounding::distance(q * b.value(), a.value() * w) == rounding::distance(
            u * y,
            (x * w) as int,
        ));
    }
}

/// No number is closer to the exact quotient of two finite numbers greater than 0 than their
/// quotient is.
pub proof fn lemma_quotient_is_closest(a: Binary64, b: Binary64, other: Binary64)
    requires
        a.finite(),
        b.finite(),
        a.value() > 0,
        b.value() > 0,
        !other.is_nan(),
    ensures
        rounding::distance(a.quotient(b).value() * b.value(), a.value() * binary64::one())
            <= rounding::distance(other.value() * b.value(), a.value() * binary64::one()),
{
    let x = rounding::units(a.magnitude());
    let y = rounding::units(b.magnitude());
    let w = binary64::one();
    let found = rounding::nearest(x * w, y);
    let u = rounding::units(other.magnitude());
    order::lemma_one();
    rounding::lemma_units_zero(0);
    rounding::lemma_units_zero(b.magnitude());
    order::lemma_signed(false, found);
    rounding::lemma_nearest_is_closest(x * w, y, other.magnitude());
    assert(a.quotient(b).value() == rounding::units(found));
    if other.is_negative() {
        assert((-u) * y <= 0 <= u * y) by (nonlinear_arith)
            requires
                u >= 0,
                y >= 0,
        ;
        assert((-u) * y == -(u * y)) by (nonlinear_arith);
        assert(x * w >= 0) by (nonlinear_arith)
            requires
                x >= 0,
                w >= 0,
        ;
    }
}

} // verus!
