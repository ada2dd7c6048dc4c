//! How the operations on binary64 numbers respect order.

use crate::binary64;
use crate::binary64::Binary64;
use crate::rounding;
use vstd::arithmetic::mul::*;
use vstd::arithmetic::power2::*;
use vstd::prelude::*;

verus! {

/// What an exact total of units is after rounding.
pub open spec fn settled(total: int) -> int {
    if total < 0 {
        -(rounding::units(rounding::nearest((-total) as nat, 1)) as int)
    } else {
        rounding::units(rounding::nearest(total as nat, 1)) as int
    }
}

/// A number that is put together from its sign and its magnitude.
pub proof fn lemma_signed(negative: bool, magnitude: nat)
    requires
        magnitude <= rounding::INFINITE,
    ensures
        binary64::signed(negative, magnitude).is_negative() == negative,
        binary64::signed(negative, magnitude).magnitude() == magnitude,
        !binary64::signed(negative, magnitude).is_nan(),
{
}

proof fn lemma_units_monotone(low: nat, high: nat)
    requires
        low <= high <= rounding::INFINITE,
    ensures
        rounding::units(low) <= rounding::units(high),
{
    if low < high {
        rounding::lemma_units_ordered(low, high);
    }
}

/// The sum of two finite numbers is a number: their exact sum, rounded.
pub proof fn lemma_sum_value(a: Binary64, b: Binary64)
    requires
        a.finite(),
        b.finite(),
    ensures
        !a.sum(b).is_nan(),
        a.sum(b).value() == settled(a.value() + b.value()),
{
    let total = a.value() + b.value();
    rounding::lemma_units_zero(0);
    rounding::lemma_nearest_exact(0, 1);
    if total == 0 {
        lemma_signed(a.is_negative() && b.is_negative(), 0);
    } else if total < 0 {
        lemma_signed(true, rounding::nearest((-total) as nat, 1));
    } else {
        lemma_signed(false, rounding::nearest(total as nat, 1));
    }
}

/// Rounding a total keeps order.
pub proof fn lemma_settled_ordered(low: int, high: int)
    requires
        low <= high,
    ensures
        settled(low) <= settled(high),
{
    if 0 <= low {
        rounding::lemma_nearest_ordered(low as nat, 1, high as nat, 1);
        lemma_units_monotone(
            rounding::nearest(low as nat, 1),
            rounding::nearest(high as nat, 1),
        );
    } else if high < 0 {
        rounding::lemma_nearest_ordered((-high) as nat, 1, (-low) as nat, 1);
        lemma_units_monotone(
            rounding::nearest((-high) as nat, 1),
            rounding::nearest((-low) as nat, 1),
        );
    }
}

/// Rounding leaves a total alone that is a number already.
pub proof fn lemma_settled_exact(a: Binary64)
    requires
        !a.is_nan(),
    ensures
        settled(a.value()) == a.value(),
{
    rounding::lemma_nearest_exact(a.magnitude(), 1);
    rounding::lemma_units_zero(0);
    rounding::lemma_nearest_exact(0, 1);
    let u = rounding::units(a.magnitude());
    assert(u * 1 == u);
    if a.value() == 0 {
        rounding::lemma_units_zero(a.magnitude());
    }
}

pub proof fn lemma_opposite(a: Binary64)
    requires
        !a.is_nan(),
    ensures
        a.opposite().value() == -a.value(),
        a.opposite().magnitude() == a.magnitude(),
        a.opposite().is_negative() == !a.is_negative(),
{
    lemma_signed(!a.is_negative(), a.magnitude());
}

/// The difference of two finite numbers is a number: their exact difference, rounded.
pub proof fn lemma_difference_value(a: Binary64, b: Binary64)
    requires
        a.finite(),
        b.finite(),
    ensures
        !a.difference(b).is_nan(),
        a.difference(b).value() == settled(a.value() - b.value()),
{
    lemma_opposite(b);
    lemma_sum_value(a, b.opposite());
}

/// A later end or an earlier start does not make a difference smaller.
pub proof fn lemma_difference_ordered(a: Binary64, b: Binary64, c: Binary64, d: Binary64)
    requires
        a.finite(),
        b.finite(),
        c.finite(),
        d.finite(),
        a.value() <= c.value(),
        b.value() >= d.value(),
    ensures
        a.difference(b).at_most(c.difference(d)),
{
    lemma_difference_value(a, b);
    lemma_difference_value(c, d);
    lemma_settled_ordered(a.value() - b.value(), c.value() - d.value());
}

/// No time passes between a time and itself.
pub proof fn lemma_same_difference(a: Binary64)
    requires
        !a.is_nan(),
    ensures
        a.difference(a).is_nan() || a.difference(a).value() == 0,
{
    if a.finite() {
        lemma_difference_value(a, a);
        lemma_zero();
        lemma_settled_exact(Binary64 { bits: 0 });
    } else {
        lemma_opposite(a);
    }
}

/// Every number is from minus infinity to infinity.
pub proof fn lemma_value_bound(a: Binary64)
    requires
        !a.is_nan(),
    ensures
        -rounding::units(rounding::INFINITE as nat) <= a.value() <= rounding::units(
            rounding::INFINITE as nat,
        ),
{
    lemma_units_monotone(a.magnitude(), rounding::INFINITE as nat);
}

/// Infinities lie beyond all finite numbers.
pub proof fn lemma_infinite_beyond(a: Binary64, b: Binary64)
    requires
        a.finite(),
        b.is_infinite(),
    ensures
        b.is_negative() ==> b.value() < a.value(),
        !b.is_negative() ==> a.value() < b.value(),
{
    rounding::lemma_units_zero(a.magnitude());
    rounding::lemma_units_ordered(a.magnitude(), b.magnitude());
}

/// What a difference is where one of the numbers is infinite.
proof fn lemma_infinite_difference(a: Binary64, b: Binary64)
    requires
        !a.is_nan(),
        !b.is_nan(),
        a.is_infinite() || b.is_infinite(),
    ensures
        a.is_infinite() && b.is_infinite() && a.is_negative() == b.is_negative()
            ==> a.difference(b).is_nan(),
        !(a.is_infinite() && b.is_infinite() && a.is_negative() == b.is_negative()) ==> {
            &&& a.difference(b).is_infinite()
            &&& a.difference(b).is_negative() == if a.is_infinite() {
                a.is_negative()
            } else {
                !b.is_negative()
            }
        },
{
    lemma_opposite(b);
}

/// A difference that exceeds a bound is one of numbers.
pub proof fn lemma_excess_of_numbers(bound: Binary64, a: Binary64, b: Binary64)
    requires
        bound.less(a.difference(b)),
    ensures
        !a.is_nan(),
        !b.is_nan(),
{
    if b.is_nan() {
        assert(b.opposite().magnitude() == b.magnitude());
        assert(a.difference(b) == binary64::nan());
    }
}

/// Where a difference exceeds a bound, so does that of a later end and an earlier start.
pub proof fn lemma_excess_ordered(
    bound: Binary64,
    a: Binary64,
    b: Binary64,
    c: Binary64,
    d: Binary64,
)
    requires
        bound.less(a.difference(b)),
        a.at_most(c),
        d.at_most(b),
    ensures
        bound.less(c.difference(d)),
{
    lemma_value_bound(bound);
    if a.finite() && b.finite() && c.finite() && d.finite() {
        lemma_difference_ordered(a, b, c, d);
    } else {
        if a.is_infinite() || b.is_infinite() {
            lemma_infinite_difference(a, b);
        } else {
            lemma_difference_value(a, b);
            lemma_value_bound(a.difference(b));
        }
        if a.is_infinite() && c.finite() {
            lemma_infinite_beyond(c, a);
        }
        if a.finite() && c.is_infinite() {
            lemma_infinite_beyond(a, c);
        }
        if b.is_infinite() && d.finite() {
            lemma_infinite_beyond(d, b);
        }
        if b.finite() && d.is_infinite() {
            lemma_infinite_beyond(b, d);
        }
        rounding::lemma_units_zero(rounding::INFINITE as nat);
        lemma_infinite_difference(c, d);
    }
}

/// Finite times, none before the one that it follows.
pub open spec fn is_chronological(times: Seq<Binary64>) -> bool {
    &&& forall|i: int| 0 <= i < times.len() ==> (#[trigger] times[i]).finite()
    &&& forall|i: int, j: int|
        0 <= i <= j < times.len() ==> (#[trigger] times[i]).value() <= (#[trigger] times[j]).value()
}

/// A part of times in chronological order is in chronological order.
pub proof fn lemma_chronological_part(times: Seq<Binary64>, from: int, to: int)
    requires
        is_chronological(times),
        0 <= from <= to <= times.len(),
    ensures
        is_chronological(times.subrange(from, to)),
{
    let part = times.subrange(from, to);
    assert forall|i: int| 0 <= i < part.len() implies (#[trigger] part[i]).finite() by {
        assert(part[i] == times[from + i]);
    }
    assert forall|i: int, j: int| 0 <= i <= j < part.len() implies (#[trigger] part[i]).value() <= (
    #[trigger] part[j]).value() by {
        assert(part[i] == times[from + i] && part[j] == times[from + j]);
    }
}

/// The pattern of 1 stands for 1.
pub proof fn lemma_one()
    ensures
        (Binary64 { bits: binary64::ONE }).value() == binary64::one(),
        (Binary64 { bits: binary64::ONE }).finite(),
        binary64::one() > 0,
{
    rounding::lemma_pow2_52_53();
    rounding::lemma_units(1022, rounding::HIDDEN as nat);
    lemma_pow2_adds(52, 1022);
    lemma_pow2_pos(1074);
    assert(1022 * rounding::HIDDEN + rounding::HIDDEN == binary64::ONE);
}

/// The pattern of 0 stands for 0.
pub proof fn lemma_zero()
    ensures
        (Binary64 { bits: 0 }).value() == 0,
        (Binary64 { bits: 0 }).finite(),
{
    rounding::lemma_units_zero(0);
}

/// A number from 1 to 2^53 loses exactly 1 when 1 is taken from it.
pub proof fn lemma_less_one_exact(a: Binary64)
    requires
        !a.is_nan(),
        binary64::one() <= a.value() <= rounding::SIGNIFICANDS * binary64::one(),
    ensures
        a.difference(Binary64 { bits: binary64::ONE }).value() == a.value() - binary64::one(),
        a.difference(Binary64 { bits: binary64::ONE }).finite(),
{
    let one = Binary64 { bits: binary64::ONE };
    let w = binary64::one();
    let u = rounding::units(a.magnitude());
    lemma_one();
    lemma_finite_below(a);
    lemma_difference_value(a, one);
    let rest = (u - w) as nat;
    let k = rounding::exponent(a.magnitude());
    let m = rounding::significand(a.magnitude());
    rounding::lemma_significand(a.magnitude());
    // both numbers are multiples of 2^k or of 1
    if k <= 1074 {
        let step = pow2(k);
        let n = pow2((1074 - k) as nat);
        lemma_pow2_adds((1074 - k) as nat, k);
        lemma_pow2_pos(k);
        assert(rest == (m - n) * step) by (nonlinear_arith)
            requires
                rest == m * step - n * step,
        ;
        assert(m - n >= 0) by (nonlinear_arith)
            requires
                rest == (m - n) * step,
                rest >= 0,
                step > 0,
        ;
        lemma_representable((m - n) as nat, k);
    } else {
        // only 2^53 itself has an exponent this large
        rounding::lemma_pow2_52_53();
        lemma_pow2_adds(53, 1074);
        lemma_pow2_adds(52, k);
        lemma_pow2_strictly_increases(1074, k);
        let step = pow2(k);
        if k > 1075 {
            lemma_pow2_strictly_increases(1075, k);
        }
        lemma_pow2_adds(1, 1074);
        assert(k == 1075 && m == rounding::HIDDEN) by {
            if k > 1075 {
                assert(u > rounding::SIGNIFICANDS * w) by (nonlinear_arith)
                    requires
                        u == m * step,
                        m >= rounding::HIDDEN,
                        step > 2 * w,
                        w > 0,
                        rounding::SIGNIFICANDS == 2 * rounding::HIDDEN,
                ;
            } else if m > rounding::HIDDEN {
                assert(u > rounding::SIGNIFICANDS * w) by (nonlinear_arith)
                    requires
                        u == m * step,
                        m > rounding::HIDDEN,
                        step == 2 * w,
                        w > 0,
                        rounding::SIGNIFICANDS == 2 * rounding::HIDDEN,
                ;
            }
        }
        let n = (rounding::SIGNIFICANDS - 1) as nat;
        assert(rest == n * w) by (nonlinear_arith)
            requires
                rest == rounding::HIDDEN * (2 * w) - w,
                n == rounding::SIGNIFICANDS - 1,
                rounding::SIGNIFICANDS == 2 * rounding::HIDDEN,
        ;
        lemma_representable(n, 1074);
    }
    assert(rounding::units(rounding::nearest(rest, 1)) == rest);
    lemma_finite_below(a.difference(one));
}

/// What is at most 2^53 is finite.
proof fn lemma_finite_below(a: Binary64)
    requires
        !a.is_nan(),
        0 <= a.value() <= rounding::SIGNIFICANDS * binary64::one(),
    ensures
        a.finite(),
{
    if a.is_infinite() {
        rounding::lemma_pow2_52_53();
        rounding::lemma_units(2046, rounding::HIDDEN as nat);
        lemma_pow2_adds(52, 2046);
        lemma_pow2_adds(53, 1074);
        lemma_pow2_strictly_increases(1127, 2098);
        lemma_pow2_pos(2098);
        assert(2046 * rounding::HIDDEN + rounding::HIDDEN == rounding::INFINITE);
        assert(false);
    }
}

/// A whole number of 2^k of at most 53 bits is on the grid.
proof fn lemma_representable(m: nat, k: nat)
    requires
        m < rounding::SIGNIFICANDS,
        k <= 1075,
    ensures
        rounding::units(rounding::nearest(m * pow2(k), 1)) == m * pow2(k),
    decreases k,
{
    if m >= rounding::HIDDEN || k == 0 {
        rounding::lemma_units(k, m);
        let magnitude = k * rounding::HIDDEN as nat + m;
        rounding::lemma_nearest_exact(magnitude, 1);
        assert(rounding::units(magnitude) * 1 == rounding::units(magnitude));
    } else {
        lemma_representable(2 * m, (k - 1) as nat);
        lemma_pow2_unfold(k);
        let p = pow2((k - 1) as nat);
        assert(m * (2 * p) == (2 * m) * p) by (nonlinear_arith);
    }
}

/// Whole numbers below 2^53 need no rounding.
pub proof fn lemma_whole_is_exact(m: nat)
    requires
        m < rounding::SIGNIFICANDS,
    ensures
        settled((m * binary64::one()) as int) == m * binary64::one(),
{
    lemma_representable(m, 1074);
}

/// Dividing by the same positive number keeps the order of finite numbers.
pub proof fn lemma_quotient_ordered(a: Binary64, b: Binary64, divisor: Binary64)
    requires
        a.finite(),
        b.finite(),
        a.value() <= b.value(),
        !divisor.is_nan(),
        divisor.value() > 0,
    ensures
        a.quotient(divisor).at_most(b.quotient(divisor)),
{
    let d = rounding::units(divisor.magnitude());
    let x = rounding::units(a.magnitude());
    let y = rounding::units(b.magnitude());
    rounding::lemma_units_zero(divisor.magnitude());
    rounding::lemma_units_zero(0);
    if divisor.is_infinite() {
        lemma_signed(a.is_negative(), 0);
        lemma_signed(b.is_negative(), 0);
    } else {
        let w = binary64::one();
        let p = rounding::nearest(x * w, d);
        let q = rounding::nearest(y * w, d);
        lemma_signed(a.is_negative(), p);
        lemma_signed(b.is_negative(), q);
        if x <= y {
            assert((x * w) * d <= (y * w) * d) by (nonlinear_arith)
                requires
                    x <= y,
            ;
            rounding::lemma_nearest_ordered(x * w, d, y * w, d);
            lemma_units_monotone(p, q);
        }
        if y <= x {
            assert((y * w) * d <= (x * w) * d) by (nonlinear_arith)
                requires
                    y <= x,
            ;
            rounding::lemma_nearest_ordered(y * w, d, x * w, d);
            lemma_units_monotone(q, p);
        }
        if x == 0 {
            lemma_mul_by_zero_is_zero(w as int);
            lemma_mul_by_zero_is_zero(d as int);
            rounding::lemma_nearest_exact(0, d);
        }
        if y == 0 {
            lemma_mul_by_zero_is_zero(w as int);
            lemma_mul_by_zero_is_zero(d as int);
            rounding::lemma_nearest_exact(0, d);
        }
    }
}

/// A finite number over zero is out of the range of `i64` on the number's side, or NaN for zero.
pub proof fn lemma_quotient_by_zero(a: Binary64, zero: Binary64)
    requires
        a.finite(),
        zero.magnitude() == 0,
        !zero.is_negative(),
    ensures
        a.value() < 0 ==> a.quotient(zero).floor() == i64::MIN,
        a.value() == 0 ==> a.quotient(zero).floor() == 0,
        a.value() > 0 ==> a.quotient(zero).floor() == i64::MAX,
{
    rounding::lemma_units_zero(a.magnitude());
    if a.magnitude() > 0 {
        let infinite = binary64::signed(a.is_negative(), rounding::INFINITE as nat);
        lemma_signed(a.is_negative(), rounding::INFINITE as nat);
        rounding::lemma_pow2_52_53();
        rounding::lemma_units(2046, rounding::HIDDEN as nat);
        assert(2046 * rounding::HIDDEN + rounding::HIDDEN == rounding::INFINITE);
        lemma_pow2_adds(52, 2046);
        lemma_pow2_adds(1024, 1074);
        lemma2_to64();
        lemma_pow2_strictly_increases(64, 1024);
        lemma_one();
        let w = binary64::one() as int;
        let far = pow2(1024) as int;
        assert(far * w == w * far) by (nonlinear_arith);
        assert((-far) * w == -(far * w)) by (nonlinear_arith);
        vstd::arithmetic::div_mod::lemma_div_by_multiple(far, w);
        vstd::arithmetic::div_mod::lemma_fundamental_div_mod_converse(-(far * w), w, -far, 0);
    }
}

/// The floor keeps order.
pub proof fn lemma_floor_ordered(a: Binary64, b: Binary64)
    requires
        a.at_most(b),
    ensures
        a.floor() <= b.floor(),
{
    lemma_one();
    vstd::arithmetic::div_mod::lemma_div_is_ordered(
        a.value(),
        b.value(),
        binary64::one() as int,
    );
}

} // verus!
