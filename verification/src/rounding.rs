//! Rounding of exact non-negative rationals to the binary64 grid.
//!
//! A magnitude is the bit pattern of a binary64 number without its sign bit. Every finite
//! magnitude stands for a whole number of units of 2^-1074, the least positive one, so exact
//! values are plain integers here and a rounding is a function of a fraction of integers.

use vstd::arithmetic::div_mod::*;
use vstd::arithmetic::mul::*;
use vstd::arithmetic::power2::*;
use vstd::prelude::*;

verus! {

/// 2^52: the weight of the hidden bit, and the distance of two neighbouring exponents in a bit
/// pattern.
pub const HIDDEN: u64 = 0x0010_0000_0000_0000;

/// 2^53: one more than the largest significand.
pub const SIGNIFICANDS: u64 = 0x0020_0000_0000_0000;

/// The magnitude of infinity: the largest one that is a number.
pub const INFINITE: u64 = 0x7ff0_0000_0000_0000;

/// The power of two that scales a magnitude's significand.
pub open spec fn exponent(magnitude: nat) -> nat {
    if magnitude < HIDDEN {
        0
    } else {
        (magnitude / (HIDDEN as nat) - 1) as nat
    }
}

/// A magnitude's significand, hidden bit and all.
pub open spec fn significand(magnitude: nat) -> nat {
    (magnitude - exponent(magnitude) * HIDDEN) as nat
}

/// What a magnitude stands for, in units of 2^-1074. For infinity this is 2^1024 in those
/// units, the first power of two that no finite magnitude reaches.
pub open spec fn units(magnitude: nat) -> nat {
    significand(magnitude) * pow2(exponent(magnitude))
}

/// `num / den` rounded to the nearest integer, ties to the even one.
pub open spec fn half_even(num: nat, den: nat) -> nat {
    let down = num / den;
    let rest = num % den;
    if 2 * rest < den || (2 * rest == den && down % 2 == 0) {
        down
    } else {
        down + 1
    }
}

/// How many low bits `whole` has beyond the 53 of a significand.
pub open spec fn excess_bits(whole: nat) -> nat
    decreases whole,
{
    if whole < SIGNIFICANDS {
        0
    } else {
        1 + excess_bits(whole / 2)
    }
}

/// The magnitude that `num / den` units round to: to nearest, ties to even, and to infinity
/// from half a step above the largest finite magnitude on.
pub open spec fn nearest(num: nat, den: nat) -> nat {
    let scale = excess_bits(num / den);
    let magnitude = scale * HIDDEN as nat + half_even(num, den * pow2(scale));
    if magnitude < INFINITE {
        magnitude
    } else {
        INFINITE as nat
    }
}

pub proof fn lemma_pow2_52_53()
    ensures
        pow2(52) == HIDDEN,
        pow2(53) == SIGNIFICANDS,
        pow2(0) == 1,
        pow2(1) == 2,
{
    lemma2_to64();
    lemma2_to64_rest();
}

/// `excess_bits` by the two powers of two around its argument.
pub proof fn lemma_excess_bits(whole: nat)
    ensures
        excess_bits(whole) == 0 ==> whole < SIGNIFICANDS,
        excess_bits(whole) > 0 ==> pow2(52 + excess_bits(whole)) <= whole,
        whole < pow2(53 + excess_bits(whole)),
    decreases whole,
{
    lemma_pow2_52_53();
    if whole >= SIGNIFICANDS {
        let half = whole / 2;
        let rest = excess_bits(half);
        lemma_excess_bits(half);
        lemma_pow2_unfold(53 + rest);
        lemma_pow2_unfold(54 + rest);
        assert(excess_bits(whole) == 1 + rest);
        if rest == 0 {
            assert(half >= HIDDEN);
        }
    }
}

/// The converse of `lemma_excess_bits`.
pub proof fn lemma_excess_bits_is(whole: nat, scale: nat)
    requires
        scale > 0 ==> pow2(52 + scale) <= whole,
        whole < pow2(53 + scale),
    ensures
        excess_bits(whole) == scale,
{
    lemma_excess_bits(whole);
    let found = excess_bits(whole);
    if found < scale {
        lemma_pow2_increases(53 + found, 52 + scale);
    }
    if scale < found {
        lemma_pow2_increases(53 + scale, 52 + found);
    }
}

pub proof fn lemma_pow2_increases(low: nat, high: nat)
    requires
        low <= high,
    ensures
        pow2(low) <= pow2(high),
{
    if low < high {
        lemma_pow2_strictly_increases(low, high);
    }
}

/// `half_even` is within a half of the exact quotient, and even where it is off by a half.
pub proof fn lemma_half_even(num: nat, den: nat)
    requires
        den > 0,
    ensures
        2 * (half_even(num, den) * den) <= 2 * num + den,
        2 * num <= 2 * (half_even(num, den) * den) + den,
        2 * (half_even(num, den) * den) == 2 * num + den ==> half_even(num, den) % 2 == 0,
        2 * num == 2 * (half_even(num, den) * den) + den ==> half_even(num, den) % 2 == 0,
{
    let down = num / den;
    let rest = num % den;
    lemma_fundamental_div_mod(num as int, den as int);
    lemma_mod_bound(num as int, den as int);
    assert(den * down == down * den) by (nonlinear_arith);
    assert((down + 1) * den == down * den + den) by (nonlinear_arith);
}

/// The converse of `lemma_half_even`.
pub proof fn lemma_half_even_is(num: nat, den: nat, found: nat)
    requires
        den > 0,
        2 * (found * den) <= 2 * num + den,
        2 * num <= 2 * (found * den) + den,
        2 * (found * den) == 2 * num + den ==> found % 2 == 0,
        2 * num == 2 * (found * den) + den ==> found % 2 == 0,
    ensures
        half_even(num, den) == found,
{
    lemma_half_even(num, den);
    lemma_half_even_ordered(num, den, half_even(num, den), num, den, found);
    lemma_half_even_ordered(num, den, found, num, den, half_even(num, den));
}

/// Two roundings are ordered as what was rounded.
proof fn lemma_half_even_ordered(
    num1: nat,
    den1: nat,
    found1: nat,
    num2: nat,
    den2: nat,
    found2: nat,
)
    requires
        den1 > 0,
        den2 > 0,
        num1 * den2 <= num2 * den1,
        2 * (found1 * den1) <= 2 * num1 + den1,
        2 * num1 <= 2 * (found1 * den1) + den1,
        2 * (found1 * den1) == 2 * num1 + den1 ==> found1 % 2 == 0,
        2 * num2 <= 2 * (found2 * den2) + den2,
        2 * num2 == 2 * (found2 * den2) + den2 ==> found2 % 2 == 0,
    ensures
        found1 <= found2,
{
    if found1 > found2 {
        let a = found1 * den1;
        let b = found2 * den2;
        // 2 * a * den2 <= 2 * num1 * den2 + den1 * den2, and so on
        assert(2 * (a * den2) <= 2 * (num1 * den2) + den1 * den2) by (nonlinear_arith)
            requires
                2 * a <= 2 * num1 + den1,
        ;
        assert(2 * (num2 * den1) <= 2 * (b * den1) + den1 * den2) by (nonlinear_arith)
            requires
                2 * num2 <= 2 * b + den2,
        ;
        let both = den1 * den2;
        assert(both > 0) by (nonlinear_arith)
            requires
                both == den1 * den2,
                den1 > 0,
                den2 > 0,
        ;
        assert(a * den2 == found1 * both) by (nonlinear_arith)
            requires
                a == found1 * den1,
                both == den1 * den2,
        ;
        assert(b * den1 == found2 * both) by (nonlinear_arith)
            requires
                b == found2 * den2,
                both == den1 * den2,
        ;
        assert(found1 * both >= (found2 + 1) * both) by (nonlinear_arith)
            requires
                found1 >= found2 + 1,
        ;
        assert((found2 + 1) * both == found2 * both + both) by (nonlinear_arith);
        if found1 > found2 + 1 {
            assert(found1 * both >= (found2 + 2) * both) by (nonlinear_arith)
                requires
                    found1 >= found2 + 2,
            ;
            assert((found2 + 2) * both == found2 * both + 2 * both) by (nonlinear_arith);
            assert(false);
        }
        // all of the inequalities are equalities
        assert(2 * (a * den2) == 2 * (num1 * den2) + den1 * den2);
        assert(2 * a == 2 * num1 + den1) by (nonlinear_arith)
            requires
                2 * (a * den2) == 2 * (num1 * den2) + den1 * den2,
                den2 > 0,
        ;
        assert(2 * num2 == 2 * b + den2) by (nonlinear_arith)
            requires
                2 * (num2 * den1) == 2 * (b * den1) + den1 * den2,
                den1 > 0,
        ;
    }
}

/// A significand has at most 53 bits, and all 53 where the exponent is not the least.
pub proof fn lemma_significand(magnitude: nat)
    ensures
        magnitude == exponent(magnitude) * HIDDEN + significand(magnitude),
        significand(magnitude) < SIGNIFICANDS,
        exponent(magnitude) > 0 ==> significand(magnitude) >= HIDDEN,
        magnitude < INFINITE ==> exponent(magnitude) <= 2045,
        magnitude >= INFINITE ==> exponent(magnitude) >= 2046,
        magnitude > 0 <==> significand(magnitude) > 0,
{
}

/// The significand and the exponent that make up a magnitude.
pub proof fn lemma_units(scale: nat, found: nat)
    requires
        found <= SIGNIFICANDS,
        scale > 0 ==> found >= HIDDEN,
    ensures
        units(scale * HIDDEN as nat + found) == found * pow2(scale),
{
    let magnitude = scale * HIDDEN as nat + found;
    lemma_pow2_52_53();
    if magnitude < HIDDEN {
        assert(scale == 0);
    } else if found < SIGNIFICANDS {
        if scale == 0 && found < HIDDEN {
            assert(false);
        }
        assert(magnitude / (HIDDEN as nat) == scale + 1);
    } else {
        assert(magnitude / (HIDDEN as nat) == scale + 2);
        assert(significand(magnitude) == HIDDEN);
        lemma_pow2_unfold(scale + 1);
        assert(HIDDEN * (2 * pow2(scale)) == SIGNIFICANDS * pow2(scale)) by (nonlinear_arith);
    }
}

/// Zero alone stands for zero.
pub proof fn lemma_units_zero(magnitude: nat)
    ensures
        units(magnitude) == 0 <==> magnitude == 0,
{
    let scale = exponent(magnitude);
    lemma_significand(magnitude);
    lemma_pow2_pos(scale);
    if magnitude == 0 {
        lemma_mul_by_zero_is_zero(pow2(scale) as int);
    } else {
        lemma_mul_strictly_positive(significand(magnitude) as int, pow2(scale) as int);
    }
}

/// The significand that a rounding finds has at most 53 bits, and all 53 where low bits were
/// dropped; or it is 2^53.
pub proof fn lemma_rounded_significand(num: nat, den: nat)
    requires
        den > 0,
    ensures
        half_even(num, den * pow2(excess_bits(num / den))) <= SIGNIFICANDS,
        excess_bits(num / den) > 0 ==> half_even(num, den * pow2(excess_bits(num / den)))
            >= HIDDEN,
        num < SIGNIFICANDS * (den * pow2(excess_bits(num / den))),
        excess_bits(num / den) > 0 ==> num >= HIDDEN * (den * pow2(excess_bits(num / den))),
{
    let whole = num / den;
    let scale = excess_bits(whole);
    let p = pow2(scale);
    let step = den * p;
    let found = half_even(num, step);
    lemma_pow2_52_53();
    lemma_pow2_pos(scale);
    lemma_mul_strictly_positive(den as int, p as int);
    lemma_excess_bits(whole);
    lemma_fundamental_div_mod(num as int, den as int);
    lemma_mod_bound(num as int, den as int);
    lemma_half_even(num, step);
    lemma_pow2_adds(53, scale);
    lemma_pow2_adds(52, scale);
    assert(num < SIGNIFICANDS * step) by (nonlinear_arith)
        requires
            num < den * whole + den,
            whole + 1 <= SIGNIFICANDS * p,
            step == den * p,
    ;
    assert(found <= SIGNIFICANDS) by (nonlinear_arith)
        requires
            2 * (found * step) <= 2 * num + step,
            num < SIGNIFICANDS * step,
            step > 0,
    ;
    if scale > 0 {
        assert(num >= HIDDEN * step) by (nonlinear_arith)
            requires
                num >= den * whole,
                whole >= HIDDEN * p,
                step == den * p,
        ;
        assert(found >= HIDDEN) by (nonlinear_arith)
            requires
                2 * num <= 2 * (found * step) + step,
                num >= HIDDEN * step,
                step > 0,
        ;
    }
}

/// Rounding keeps the order of what is rounded.
pub proof fn lemma_nearest_ordered(num1: nat, den1: nat, num2: nat, den2: nat)
    requires
        den1 > 0,
        den2 > 0,
        num1 * den2 <= num2 * den1,
    ensures
        nearest(num1, den1) <= nearest(num2, den2),
{
    let whole1 = num1 / den1;
    let whole2 = num2 / den2;
    let scale1 = excess_bits(whole1);
    let scale2 = excess_bits(whole2);
    lemma_fundamental_div_mod(num1 as int, den1 as int);
    lemma_fundamental_div_mod(num2 as int, den2 as int);
    lemma_mod_bound(num1 as int, den1 as int);
    lemma_mod_bound(num2 as int, den2 as int);
    assert(whole1 <= whole2) by (nonlinear_arith)
        requires
            den1 > 0,
            den2 > 0,
            num1 * den2 <= num2 * den1,
            den1 * whole1 <= num1,
            num2 < den2 * whole2 + den2,
    ;
    lemma_excess_bits(whole1);
    lemma_excess_bits(whole2);
    if scale2 < scale1 {
        lemma_pow2_increases(53 + scale2, 52 + scale1);
    }
    lemma_rounded_significand(num1, den1);
    lemma_rounded_significand(num2, den2);
    if scale1 == scale2 {
        let p = pow2(scale1);
        lemma_pow2_pos(scale1);
        lemma_mul_strictly_positive(den1 as int, p as int);
        lemma_mul_strictly_positive(den2 as int, p as int);
        lemma_half_even(num1, den1 * p);
        lemma_half_even(num2, den2 * p);
        assert(num1 * (den2 * p) <= num2 * (den1 * p)) by (nonlinear_arith)
            requires
                num1 * den2 <= num2 * den1,
        ;
        lemma_half_even_ordered(
            num1,
            den1 * p,
            half_even(num1, den1 * p),
            num2,
            den2 * p,
            half_even(num2, den2 * p),
        );
    }
}

/// Rounding leaves alone what is on the grid.
pub proof fn lemma_nearest_exact(magnitude: nat, den: nat)
    requires
        magnitude <= INFINITE,
        den > 0,
    ensures
        nearest(units(magnitude) * den, den) == magnitude,
{
    let scale = exponent(magnitude);
    let found = significand(magnitude);
    let p = pow2(scale);
    let whole = units(magnitude);
    lemma_significand(magnitude);
    lemma_pow2_52_53();
    lemma_pow2_pos(scale);
    lemma_pow2_adds(53, scale);
    lemma_pow2_adds(52, scale);
    lemma_div_multiples_vanish(whole as int, den as int);
    assert(whole * den == den * whole) by (nonlinear_arith);
    assert(whole < SIGNIFICANDS * p) by (nonlinear_arith)
        requires
            whole == found * p,
            found < SIGNIFICANDS,
            p > 0,
    ;
    if scale > 0 {
        assert(whole >= HIDDEN * p) by (nonlinear_arith)
            requires
                whole == found * p,
                found >= HIDDEN,
        ;
    }
    lemma_excess_bits_is(whole, scale);
    lemma_mul_strictly_positive(den as int, p as int);
    assert(whole * den == found * (den * p)) by (nonlinear_arith)
        requires
            whole == found * p,
    ;
    lemma_half_even_is(whole * den, den * p, found);
}

/// Larger magnitudes stand for larger numbers.
pub proof fn lemma_units_ordered(low: nat, high: nat)
    requires
        low < high,
        high <= INFINITE,
    ensures
        units(low) < units(high),
{
    lemma_nearest_exact(low, 1);
    lemma_nearest_exact(high, 1);
    if units(high) <= units(low) {
        lemma_nearest_ordered(units(high), 1, units(low), 1);
    }
}

/// What is at most a number of the grid rounds to at most that number.
pub proof fn lemma_nearest_at_most(num: nat, den: nat, magnitude: nat)
    requires
        den > 0,
        magnitude <= INFINITE,
        num <= units(magnitude) * den,
    ensures
        nearest(num, den) <= magnitude,
{
    lemma_nearest_exact(magnitude, den);
    assert(num * den <= units(magnitude) * den * den) by (nonlinear_arith)
        requires
            num <= units(magnitude) * den,
    ;
    lemma_nearest_ordered(num, den, units(magnitude) * den, den);
}

/// What is at least a number of the grid rounds to at least that number.
pub proof fn lemma_nearest_at_least(num: nat, den: nat, magnitude: nat)
    requires
        den > 0,
        magnitude <= INFINITE,
        units(magnitude) * den <= num,
    ensures
        magnitude <= nearest(num, den),
{
    lemma_nearest_exact(magnitude, den);
    assert(units(magnitude) * den * den <= num * den) by (nonlinear_arith)
        requires
            units(magnitude) * den <= num,
    ;
    lemma_nearest_ordered(units(magnitude) * den, den, num, den);
}

/// What is less than infinity is rounded to a magnitude of its own.
pub proof fn lemma_unsaturated(num: nat, den: nat)
    requires
        den > 0,
        num < units(INFINITE as nat) * den,
    ensures
        nearest(num, den) == excess_bits(num / den) * HIDDEN as nat + half_even(
            num,
            den * pow2(excess_bits(num / den)),
        ),
{
    let scale = excess_bits(num / den);
    let p = pow2(scale);
    let step = den * p;
    let u = units(INFINITE as nat);
    lemma_rounded_significand(num, den);
    if scale >= 2046 {
        lemma_pow2_52_53();
        lemma_units(2046, HIDDEN as nat);
        lemma_pow2_adds(52, 2046);
        assert(2046 * HIDDEN + HIDDEN == INFINITE);
        lemma_pow2_adds(52, scale);
        lemma_pow2_increases(2098, 52 + scale);
        assert(num >= u * den) by (nonlinear_arith)
            requires
                num >= HIDDEN * step,
                step == den * p,
                HIDDEN * p >= u,
                den > 0,
        ;
    }
}

/// The distance of two integers.
pub open spec fn distance(a: int, b: int) -> int {
    if a < b {
        b - a
    } else {
        a - b
    }
}

/// No magnitude is closer to `num / den` units than the one that it rounds to, and where another
/// is as close, the one chosen has an even significand.
pub proof fn lemma_nearest_is_closest(num: nat, den: nat, other: nat)
    requires
        den > 0,
        other <= INFINITE,
    ensures
        distance(units(nearest(num, den)) * den as int, num as int) <= distance(
            units(other) * den as int,
            num as int,
        ),
        other != nearest(num, den) && distance(
            units(nearest(num, den)) * den as int,
            num as int,
        ) == distance(units(other) * den as int, num as int) ==> nearest(num, den) % 2 == 0,
{
    if num >= units(INFINITE as nat) * den {
        lemma_nearest_at_least(num, den, INFINITE as nat);
        if other < INFINITE {
            lemma_units_ordered(other, INFINITE as nat);
            assert(units(other) * den < units(INFINITE as nat) * den) by (nonlinear_arith)
                requires
                    units(other) < units(INFINITE as nat),
                    den > 0,
            ;
        }
    } else {
        lemma_closest_in_range(num, den, other);
    }
}

proof fn lemma_closest_in_range(num: nat, den: nat, other: nat)
    requires
        den > 0,
        num < units(INFINITE as nat) * den,
        other <= INFINITE,
    ensures
        distance(units(nearest(num, den)) * den as int, num as int) <= distance(
            units(other) * den as int,
            num as int,
        ),
        other != nearest(num, den) && distance(
            units(nearest(num, den)) * den as int,
            num as int,
        ) == distance(units(other) * den as int, num as int) ==> nearest(num, den) % 2 == 0,
{
    let scale = excess_bits(num / den);
    let p = pow2(scale);
    let step = den * p;
    let found = half_even(num, step);
    let chosen = nearest(num, den);
    lemma_pow2_pos(scale);
    lemma_mul_strictly_positive(den as int, p as int);
    lemma_rounded_significand(num, den);
    lemma_half_even(num, step);
    lemma_units(scale, found);
    lemma_unsaturated(num, den);
    assert(units(chosen) * den == found * step) by (nonlinear_arith)
        requires
            units(chosen) == found * p,
            step == den * p,
    ;
    if other < chosen {
        if num < found * step {
            if scale > 0 {
                assert(found > HIDDEN) by (nonlinear_arith)
                    requires
                        num < found * step,
                        num >= HIDDEN * step,
                ;
            } else {
                assert(found > 0) by (nonlinear_arith)
                    requires
                        num < found * step,
                        num >= 0,
                ;
            }
            let below = (found - 1) as nat;
            lemma_units(scale, below);
            if other < chosen - 1 {
                lemma_units_ordered(other, (chosen - 1) as nat);
            }
            assert(units(other) * den <= found * step - step) by (nonlinear_arith)
                requires
                    units(other) <= below * p,
                    below == found - 1,
                    step == den * p,
            ;
        } else {
            lemma_units_ordered(other, chosen);
            assert(units(other) * den < units(chosen) * den) by (nonlinear_arith)
                requires
                    units(other) < units(chosen),
                    den > 0,
            ;
        }
    } else if chosen < other {
        if num > found * step {
            assert(found < SIGNIFICANDS) by (nonlinear_arith)
                requires
                    num > found * step,
                    num < SIGNIFICANDS * step,
            ;
            let above = found + 1;
            lemma_units(scale, above);
            if chosen + 1 < other {
                lemma_units_ordered(chosen + 1, other);
            }
            assert(units(other) * den >= found * step + step) by (nonlinear_arith)
                requires
                    units(other) >= above * p,
                    above == found + 1,
                    step == den * p,
            ;
        } else {
            lemma_units_ordered(chosen, other);
            assert(units(other) * den > units(chosen) * den) by (nonlinear_arith)
                requires
                    units(other) > units(chosen),
                    den > 0,
            ;
        }
    }
}

} // verus!
