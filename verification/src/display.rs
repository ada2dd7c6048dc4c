//! Writing binary64 numbers as decimal text.

use crate::big;
use crate::binary64::Binary64;
use crate::decimal;
use crate::decimal::{raise_by_ten, scale_digits};
use crate::magnitude::split;
use crate::rounding;
use crate::text;
use crate::text::to_digit_char;
use vstd::arithmetic::div_mod::*;
use vstd::arithmetic::mul::*;
use vstd::arithmetic::power2::*;
use vstd::prelude::*;
use vstd::string::*;

verus! {

/// The lowest `width` decimal digits of a number.
pub open spec fn padded(n: nat, width: nat) -> Seq<char>
    decreases width,
{
    if width == 0 {
        Seq::<char>::empty()
    } else {
        padded(n / 10, (width - 1) as nat).push(text::digit_char(n % 10))
    }
}

/// The number `n / 10^places`, with exactly `places` digits behind the point, and no point where
/// that is none.
pub open spec fn fixed(n: nat, places: nat) -> Seq<char> {
    if places == 0 {
        text::numeral(n)
    } else {
        text::numeral(n / decimal::ten(places)).push('.') + padded(n, places)
    }
}

/// What scales a whole number up for the place `power` of a decimal number: 10^power, or 1 where
/// `power` is negative.
pub open spec fn lift(power: int) -> nat {
    if power >= 0 {
        decimal::ten(power as nat)
    } else {
        1
    }
}

/// How far `digits` times 10^power is from what a magnitude stands for; the unit depends on
/// `power` alone.
pub open spec fn gap(magnitude: nat, digits: nat, power: int) -> int {
    rounding::distance(
        (digits * (lift(power) * pow2(1074))) as int,
        (rounding::units(magnitude) * lift(-power)) as int,
    )
}

/// `digits` times 10^power reads as the given magnitude, no number with its last digit at a
/// higher place does, and of those at this place none is closer. Of two as close it is the
/// larger.
pub open spec fn is_shortest(magnitude: nat, digits: nat, power: int) -> bool {
    &&& decimal::scaled(digits, power) == magnitude
    &&& forall|d: nat, p: int| p > power ==> #[trigger] decimal::scaled(d, p) != magnitude
    &&& forall|d: nat|
        #[trigger] decimal::scaled(d, power) == magnitude ==> {
            ||| gap(magnitude, digits, power) < gap(magnitude, d, power)
            ||| gap(magnitude, digits, power) == gap(magnitude, d, power) && d <= digits
        }
}

/// The digits and the place of the last one of the shortest decimal number that reads as the
/// given magnitude.
pub open spec fn shortest(magnitude: nat) -> (nat, int) {
    choose|digits: nat, power: int| is_shortest(magnitude, digits, power)
}

/// Only one number is the shortest.
pub proof fn lemma_shortest_is_unique(magnitude: nat, digits: nat, power: int)
    requires
        is_shortest(magnitude, digits, power),
    ensures
        shortest(magnitude) == (digits, power),
{
    let (d, p) = shortest(magnitude);
    assert(is_shortest(magnitude, d, p));
    assert(decimal::scaled(d, p) == magnitude);
    assert(decimal::scaled(digits, power) == magnitude);
}

/// A finite magnitude in decimal digits, as few as tell it from every other.
pub open spec fn plain(magnitude: nat) -> Seq<char> {
    if magnitude == 0 {
        text::numeral(0)
    } else {
        let (digits, power) = shortest(magnitude);
        if power >= 0 {
            text::numeral(digits * decimal::ten(power as nat))
        } else {
            fixed(digits, (-power) as nat)
        }
    }
}

/// The sign, which zero has too, in front of what follows it.
pub open spec fn with_sign(negative: bool, s: Seq<char>) -> Seq<char> {
    if negative {
        seq!['-'] + s
    } else {
        s
    }
}

/// A number in decimal digits, as few as tell it from every other.
pub open spec fn displayed(number: Binary64) -> Seq<char> {
    if number.is_nan() {
        "NaN"@
    } else if number.is_infinite() {
        with_sign(number.is_negative(), "inf"@)
    } else {
        with_sign(number.is_negative(), plain(number.magnitude()))
    }
}

/// A number with three digits behind the point: rounded to nearest, ties to even.
pub open spec fn displayed_in_thousandths(number: Binary64) -> Seq<char> {
    if number.is_nan() {
        "NaN"@
    } else if number.is_infinite() {
        with_sign(number.is_negative(), "inf"@)
    } else {
        with_sign(
            number.is_negative(),
            fixed(
                rounding::half_even(rounding::units(number.magnitude()) * 1000, pow2(1074)),
                3,
            ),
        )
    }
}

/// Puts characters in front of those that `back` holds in reverse.
proof fn lemma_reverse_push(back: Seq<char>, c: char)
    ensures
        back.push(c).reverse() == seq![c] + back.reverse(),
{
    assert(back.push(c).reverse() =~= seq![c] + back.reverse());
}

/// `n / 10^(a + 1)` in two steps.
proof fn lemma_divide_by_ten(n: nat, a: nat)
    ensures
        n / decimal::ten(a + 1) == (n / 10) / decimal::ten(a),
{
    decimal::lemma_ten_adds(a, 0);
    lemma_div_denominator(n as int, 10, decimal::ten(a) as int);
    assert(decimal::ten(a + 1) == 10 * decimal::ten(a));
}

/// A number in digits, with a point in front of the last `places` of them.
fn write_fixed(number: Vec<u32>, places: u32) -> (out: String)
    ensures
        out@ == fixed(big::natural(number@), places as nat),
{
    let ghost n = big::natural(number@);
    let mut rest = number;
    let mut back: Vec<char> = Vec::new();
    let mut left: u32 = places;
    proof {
        assert(padded(n, places as nat) =~= padded(n, places as nat) + back@.reverse());
    }
    while left > 0
        invariant
            left <= places,
            padded(n, places as nat) == padded(big::natural(rest@), left as nat)
                + back@.reverse(),
            n / decimal::ten(places as nat) == big::natural(rest@) / decimal::ten(left as nat),
        decreases left,
    {
        let ghost r = big::natural(rest@);
        let digit = big::divide(&mut rest, 10);
        proof {
            let q = big::natural(rest@);
            assert(r / 10 == q && r % 10 == digit);
            lemma_divide_by_ten(r, (left - 1) as nat);
            lemma_reverse_push(back@, text::digit_char(digit as nat));
            assert(padded(r, left as nat) + back@.reverse() =~= padded(q, (left - 1) as nat) + (seq![
                text::digit_char(digit as nat),
            ] + back@.reverse()));
        }
        back.push(to_digit_char(digit as u64));
        left = left - 1;
    }
    let ghost fraction = back@.reverse();
    let ghost whole = big::natural(rest@);
    proof {
        assert(padded(whole, 0) =~= Seq::<char>::empty());
        assert(fraction =~= padded(n, places as nat));
        lemma_div_basics(whole as int);
        lemma_div_basics(n as int);
    }
    if places > 0 {
        proof {
            lemma_reverse_push(back@, '.');
        }
        back.push('.');
    }
    let ghost tail = back@.reverse();
    proof {
        assert(text::numeral(whole) + tail =~= fixed(n, places as nat));
    }
    let mut done = false;
    while !done
        invariant
            !done ==> fixed(n, places as nat) == text::numeral(big::natural(rest@))
                + back@.reverse(),
            done ==> fixed(n, places as nat) == back@.reverse(),
        decreases
            (if done {
                0
            } else {
                big::natural(rest@) + 1
            }),
    {
        let ghost r = big::natural(rest@);
        let digit = big::divide(&mut rest, 10);
        proof {
            let q = big::natural(rest@);
            assert(r / 10 == q && r % 10 == digit);
            lemma_reverse_push(back@, text::digit_char(digit as nat));
            if q == 0 {
                assert(text::numeral(r) + back@.reverse() =~= seq![text::digit_char(digit as nat)]
                    + back@.reverse());
            } else {
                assert(text::numeral(r) + back@.reverse() =~= text::numeral(q) + (seq![
                    text::digit_char(digit as nat),
                ] + back@.reverse()));
            }
        }
        back.push(to_digit_char(digit as u64));
        done = big::is_zero(&rest);
    }
    let mut out = String::new();
    let mut i: usize = back.len();
    while i > 0
        invariant
            i <= back@.len(),
            out@ == back@.reverse().take(back@.len() - i),
        decreases i,
    {
        proof {
            let reversed = back@.reverse();
            assert(reversed.take(back@.len() - i + 1) =~= reversed.take(back@.len() - i).push(
                back@[i - 1],
            ));
        }
        out.push(back[i - 1]);
        i = i - 1;
    }
    assert(back@.reverse().take(back@.len() as int) =~= back@.reverse());
    out
}

/// A decimal number as a fraction of units.
proof fn lemma_scaled(digits: nat, power: int)
    ensures
        decimal::scaled(digits, power) == rounding::nearest(
            digits * (lift(power) * pow2(1074)),
            lift(-power),
        ),
        lift(power) > 0,
        lift(-power) > 0,
{
    let w = pow2(1074);
    if power >= 0 {
        let t = decimal::ten(power as nat);
        decimal::lemma_ten_adds(power as nat, 0);
        assert(digits * t * w == digits * (t * w)) by (nonlinear_arith);
        assert(decimal::ten(0) == 1);
    } else {
        decimal::lemma_ten_adds((-power) as nat, 0);
        assert(1 * w == w);
    }
}

/// More digits at one place are no smaller number.
proof fn lemma_scaled_ordered(low: nat, high: nat, power: int)
    requires
        low <= high,
    ensures
        decimal::scaled(low, power) <= decimal::scaled(high, power),
{
    let x = lift(power) * pow2(1074);
    let y = lift(-power);
    lemma_scaled(low, power);
    lemma_scaled(high, power);
    assert((low * x) * y <= (high * x) * y) by (nonlinear_arith)
        requires
            low <= high,
    ;
    rounding::lemma_nearest_ordered(low * x, y, high * x, y);
}

/// No number reads as another that is twice as large.
proof fn lemma_double_is_another(magnitude: nat)
    requires
        0 < magnitude < rounding::INFINITE,
    ensures
        rounding::nearest(2 * rounding::units(magnitude), 1) > magnitude,
{
    let k = rounding::exponent(magnitude);
    let m = rounding::significand(magnitude);
    let p = pow2(k);
    rounding::lemma_significand(magnitude);
    rounding::lemma_units(k, m + 1);
    let next = rounding::units(magnitude + 1);
    assert(next * 1 == next);
    assert((m + 1) * p <= 2 * (m * p)) by (nonlinear_arith)
        requires
            m >= 1,
    ;
    rounding::lemma_nearest_at_least(2 * rounding::units(magnitude), 1, magnitude + 1);
}

/// 10^n holds as many factors of 2.
proof fn lemma_ten_halves(n: nat)
    ensures
        decimal::ten(n) % pow2(n) == 0,
    decreases n,
{
    rounding::lemma_pow2_52_53();
    if n > 0 {
        let m = (n - 1) as nat;
        lemma_ten_halves(m);
        lemma_pow2_unfold(n);
        lemma_pow2_pos(m);
        lemma_pow2_pos(n);
        let p = pow2(m);
        let q = decimal::ten(m) / p;
        lemma_fundamental_div_mod(decimal::ten(m) as int, p as int);
        assert(decimal::ten(n) == (2 * p) * (5 * q)) by (nonlinear_arith)
            requires
                decimal::ten(n) == 10 * decimal::ten(m),
                decimal::ten(m) == p * q,
        ;
        lemma_mod_multiples_basic((5 * q) as int, pow2(n) as int);
        assert((5 * q) * pow2(n) == pow2(n) * (5 * q)) by (nonlinear_arith);
    }
}

/// `top / bottom` is what the magnitude stands for.
spec fn stands_for(magnitude: nat, top: nat, bottom: nat) -> bool {
    &&& bottom > 0
    &&& rounding::units(magnitude) * bottom == top * pow2(1074)
}

/// `digits` and what is `left` are where a long division of `top` by `bottom * 10^first`, taken
/// down to the place `power`, has come to.
spec fn divides(
    top: nat,
    bottom: nat,
    first: nat,
    power: int,
    digits: nat,
    left: nat,
) -> bool {
    &&& power <= first
    &&& left < bottom * decimal::ten(first)
    &&& top * decimal::ten((first - power) as nat) == digits * (bottom * decimal::ten(first))
        + left
}

/// What a long division tells of the number that is divided: where it lies between two
/// neighbours at the place, and which of them is closer.
proof fn lemma_division(
    magnitude: nat,
    top: nat,
    bottom: nat,
    first: nat,
    power: int,
    digits: nat,
    left: nat,
)
    requires
        stands_for(magnitude, top, bottom),
        divides(top, bottom, first, power, digits, left),
    ensures
        digits * (lift(power) * pow2(1074)) <= rounding::units(magnitude) * lift(-power),
        rounding::units(magnitude) * lift(-power) < (digits + 1) * (lift(power) * pow2(1074)),
        2 * left < bottom * decimal::ten(first) <==> gap(magnitude, digits, power) < gap(
            magnitude,
            digits + 1,
            power,
        ),
{
    let w = pow2(1074);
    let x = lift(power) * w;
    let u = rounding::units(magnitude);
    let v = u * lift(-power);
    let t = decimal::ten(first);
    let e = bottom * t;
    let j = (first - power) as nat;
    lemma_scaled(digits, power);
    lemma_pow2_pos(1074);
    lemma_mul_strictly_positive(lift(power) as int, w as int);
    decimal::lemma_ten_adds(first, 0);
    lemma_mul_strictly_positive(bottom as int, t as int);
    assert(decimal::ten(j) * lift(power) == t * lift(-power)) by {
        assert(decimal::ten(0) == 1);
        if power >= 0 {
            decimal::lemma_ten_adds(j, power as nat);
            assert(t * 1 == t);
        } else {
            decimal::lemma_ten_adds(first, (-power) as nat);
            assert(decimal::ten(j) * 1 == decimal::ten(j));
        }
    }
    assert(v * e == (digits * e + left) * x) by (nonlinear_arith)
        requires
            v == u * lift(-power),
            e == bottom * t,
            x == lift(power) * w,
            u * bottom == top * w,
            top * decimal::ten(j) == digits * e + left,
            decimal::ten(j) * lift(power) == t * lift(-power),
    ;
    assert((digits * e + left) * x == (digits * x) * e + left * x) by (nonlinear_arith);
    assert((digits + 1) * x == digits * x + x) by (nonlinear_arith);
    let a = digits * x;
    let below = v - a;
    assert(below * e == left * x) by (nonlinear_arith)
        requires
            v * e == a * e + left * x,
            below == v - a,
    ;
    assert(below >= 0) by (nonlinear_arith)
        requires
            below * e == left * x,
            left >= 0,
            x > 0,
            e > 0,
    ;
    assert(below < x) by (nonlinear_arith)
        requires
            below * e == left * x,
            left < e,
            x > 0,
    ;
    if 2 * left < e {
        assert(2 * below < x) by (nonlinear_arith)
            requires
                below * e == left * x,
                2 * left < e,
                x > 0,
        ;
    } else {
        assert(2 * below >= x) by (nonlinear_arith)
            requires
                below * e == left * x,
                2 * left >= e,
                e > 0,
                x > 0,
        ;
    }
}

/// If any number at a place reads as the magnitude, then so does a neighbour of the exact one.
proof fn lemma_neighbours(magnitude: nat, digits: nat, power: int, other: nat)
    requires
        magnitude < rounding::INFINITE,
        digits * (lift(power) * pow2(1074)) <= rounding::units(magnitude) * lift(-power),
        rounding::units(magnitude) * lift(-power) < (digits + 1) * (lift(power) * pow2(1074)),
        decimal::scaled(other, power) == magnitude,
    ensures
        other <= digits ==> decimal::scaled(digits, power) == magnitude && gap(
            magnitude,
            digits,
            power,
        ) <= gap(magnitude, other, power),
        other > digits ==> decimal::scaled(digits + 1, power) == magnitude && gap(
            magnitude,
            digits + 1,
            power,
        ) <= gap(magnitude, other, power),
        other < digits ==> gap(magnitude, digits, power) < gap(magnitude, other, power),
{
    let x = lift(power) * pow2(1074);
    lemma_scaled(digits, power);
    lemma_scaled(digits + 1, power);
    lemma_pow2_pos(1074);
    lemma_mul_strictly_positive(lift(power) as int, pow2(1074) as int);
    if other <= digits {
        rounding::lemma_nearest_at_most(digits * x, lift(-power), magnitude);
        lemma_scaled_ordered(other, digits, power);
        assert(other * x <= digits * x) by (nonlinear_arith)
            requires
                other <= digits,
        ;
        if other < digits {
            assert(other * x < digits * x) by (nonlinear_arith)
                requires
                    other < digits,
                    x > 0,
            ;
        }
    } else {
        rounding::lemma_nearest_at_least((digits + 1) * x, lift(-power), magnitude);
        lemma_scaled_ordered(digits + 1, other, power);
        assert((digits + 1) * x <= other * x) by (nonlinear_arith)
            requires
                digits + 1 <= other,
        ;
    }
}

/// No number at a place above the first reads as the magnitude.
proof fn lemma_above_first(magnitude: nat, top: nat, bottom: nat, first: nat, d: nat, p: int)
    requires
        0 < magnitude < rounding::INFINITE,
        stands_for(magnitude, top, bottom),
        top < bottom * decimal::ten(first),
        p > first,
    ensures
        decimal::scaled(d, p) != magnitude,
{
    let u = rounding::units(magnitude);
    let w = pow2(1074);
    assert(top * 1 == top);
    assert(0 * (bottom * decimal::ten(first)) == 0);
    assert(divides(top, bottom, first, first as int, 0, top));
    lemma_division(magnitude, top, bottom, first, first as int, 0, top);
    lemma_scaled(d, p);
    assert(decimal::ten(0) == 1);
    assert(u * 1 == u);
    assert(1 * (lift(first as int) * w) == lift(first as int) * w);
    if d == 0 {
        lemma_mul_by_zero_is_zero((lift(p) * w) as int);
        rounding::lemma_units_zero(0);
        rounding::lemma_nearest_exact(0, 1);
        assert(rounding::units(0) * 1 == 0);
    } else {
        let rise = (p - first) as nat;
        let t = decimal::ten(first);
        decimal::lemma_ten_adds(first, rise);
        decimal::lemma_ten_adds((rise - 1) as nat, 0);
        let num = d * (lift(p) * w);
        assert(num >= 2 * u) by (nonlinear_arith)
            requires
                num == d * ((t * decimal::ten(rise)) * w),
                d >= 1,
                decimal::ten(rise) >= 2,
                t * w > u,
        ;
        rounding::lemma_nearest_ordered(2 * u, 1, num, 1);
        lemma_double_is_another(magnitude);
    }
}

/// Far enough below the point the division comes out even, and what it spells is exact.
proof fn lemma_division_ends(
    magnitude: nat,
    top: nat,
    bottom: nat,
    first: nat,
    halvings: nat,
    digits: nat,
    left: nat,
)
    requires
        magnitude < rounding::INFINITE,
        stands_for(magnitude, top, bottom),
        bottom == pow2(halvings),
        halvings <= 1074,
        divides(top, bottom, first, -1074, digits, left),
    ensures
        decimal::scaled(digits, -1074) == magnitude,
{
    let t = decimal::ten(first);
    let e = bottom * t;
    let f = decimal::ten(1074);
    let w = pow2(1074);
    lemma_ten_halves(1074);
    lemma_pow2_pos(1074);
    lemma_pow2_adds(halvings, (1074 - halvings) as nat);
    let q = f / w;
    lemma_fundamental_div_mod(f as int, w as int);
    let s = pow2((1074 - halvings) as nat) * q;
    assert(f == bottom * s) by (nonlinear_arith)
        requires
            f == w * q,
            w == bottom * pow2((1074 - halvings) as nat),
            s == pow2((1074 - halvings) as nat) * q,
    ;
    decimal::lemma_ten_adds(first, 1074);
    let whole = top * s;
    assert(top * (t * f) == whole * e) by (nonlinear_arith)
        requires
            f == bottom * s,
            whole == top * s,
            e == bottom * t,
    ;
    assert((first - (-1074)) as nat == first + 1074);
    assert(whole * e == digits * e + left);
    assert(whole == digits && left == 0) by (nonlinear_arith)
        requires
            whole * e == digits * e + left,
            0 <= left < e,
    ;
    let u = rounding::units(magnitude);
    assert(digits * w * bottom == u * f * bottom) by (nonlinear_arith)
        requires
            digits == top * s,
            u * bottom == top * w,
            f == bottom * s,
    ;
    assert(digits * w == u * f) by (nonlinear_arith)
        requires
            digits * w * bottom == u * f * bottom,
            bottom > 0,
    ;
    lemma_scaled(digits, -1074);
    assert(1 * w == w);
    rounding::lemma_nearest_exact(magnitude, f);
}

/// True where `digits` times 10^power reads as the magnitude.
fn reads_as(magnitude: u64, digits: &Vec<u32>, power: i32, length: u32) -> (b: bool)
    requires
        big::natural(digits@) < decimal::ten(length as nat),
        -2000 <= power <= 2000,
    ensures
        b == (decimal::scaled(big::natural(digits@), power as int) == magnitude),
{
    let copy = digits.clone();
    assert(copy@ =~= digits@);
    let size: u128 = if power < 0 { (-power) as u128 } else { power as u128 };
    magnitude == scale_digits(copy, length as u128, 0, power < 0, size, Ghost(power as int))
}

/// The numerator and the denominator, a power of two, of what a magnitude stands for, and the
/// exponent of that power.
fn as_fraction(magnitude: u64) -> (parts: (Vec<u32>, Vec<u32>, Ghost<nat>))
    requires
        0 < magnitude < rounding::INFINITE,
    ensures
        stands_for(magnitude as nat, big::natural(parts.0@), big::natural(parts.1@)),
        big::natural(parts.1@) == pow2(parts.2@),
        parts.2@ <= 1074,
        0 < big::natural(parts.0@) < pow2(1024),
{
    let (m, k) = split(magnitude);
    let mut top = big::from_word(m);
    let mut bottom = big::from_word(1);
    let ghost w = pow2(1074);
    proof {
        rounding::lemma_pow2_52_53();
    }
    if k >= 1074 {
        let up: u32 = k - 1074;
        big::double(&mut top, up);
        proof {
            let p = pow2(up as nat);
            let n = m as nat * p;
            let u = rounding::units(magnitude as nat);
            lemma_pow2_adds(up as nat, 1074);
            lemma_pow2_adds(53, up as nat);
            lemma_pow2_pos(up as nat);
            rounding::lemma_pow2_increases(53 + up as nat, 1024);
            assert(u == n * w) by (nonlinear_arith)
                requires
                    u == m * pow2(k as nat),
                    pow2(k as nat) == p * w,
                    n == m * p,
            ;
            assert(u * 1 == u);
            assert(n < rounding::SIGNIFICANDS * p) by (nonlinear_arith)
                requires
                    n == m * p,
                    m < rounding::SIGNIFICANDS,
                    p > 0,
            ;
            lemma_mul_strictly_positive(m as int, p as int);
        }
        (top, bottom, Ghost(0))
    } else {
        let down: u32 = 1074 - k;
        big::double(&mut bottom, down);
        proof {
            let p = pow2(down as nat);
            let u = rounding::units(magnitude as nat);
            lemma_pow2_adds(k as nat, down as nat);
            lemma_pow2_pos(down as nat);
            rounding::lemma_pow2_increases(53, 1024);
            assert(1 * p == p);
            assert(u * p == m * w) by (nonlinear_arith)
                requires
                    u == m * pow2(k as nat),
                    w == pow2(k as nat) * p,
            ;
        }
        (top, bottom, Ghost(down as nat))
    }
}

/// One more step of a long division.
proof fn lemma_next_digit(
    top: nat,
    bottom: nat,
    first: nat,
    power: int,
    digits: nat,
    left: nat,
    digit: nat,
    rest: nat,
)
    requires
        divides(top, bottom, first, power, digits, left),
        left * 10 == digit * (bottom * decimal::ten(first)) + rest,
        rest < bottom * decimal::ten(first),
    ensures
        divides(top, bottom, first, power - 1, digits * 10 + digit, rest),
{
    let e = bottom * decimal::ten(first);
    let t = decimal::ten((first - power) as nat);
    assert(decimal::ten((first - power + 1) as nat) == 10 * t);
    assert(top * (10 * t) == (digits * 10 + digit) * e + rest) by (nonlinear_arith)
        requires
            top * t == digits * e + left,
            left * 10 == digit * e + rest,
    ;
}

/// The digits of the division down to a place.
proof fn lemma_division_bound(
    top: nat,
    bottom: nat,
    first: nat,
    power: int,
    digits: nat,
    left: nat,
)
    requires
        divides(top, bottom, first, power, digits, left),
        top < bottom * decimal::ten(first),
    ensures
        digits < decimal::ten((first - power) as nat),
{
    let e = bottom * decimal::ten(first);
    let t = decimal::ten((first - power) as nat);
    decimal::lemma_ten_adds((first - power) as nat, 0);
    assert(digits < t) by (nonlinear_arith)
        requires
            top * t == digits * e + left,
            left >= 0,
            top < e,
            t > 0,
    ;
}

/// Takes `divisor` from `left` as often as it goes, up to nine times.
fn next_digit(left: &mut Vec<u32>, divisor: &Vec<u32>) -> (digit: u32)
    requires
        old(left)@.len() == divisor@.len(),
        big::natural(divisor@) > 0,
        big::natural(old(left)@) < 10 * big::natural(divisor@),
    ensures
        final(left)@.len() == divisor@.len(),
        big::natural(final(left)@) < big::natural(divisor@),
        big::natural(old(left)@) == digit * big::natural(divisor@) + big::natural(final(left)@),
        digit < 10,
{
    let ghost before = big::natural(left@);
    let ghost e = big::natural(divisor@);
    let mut digit: u32 = 0;
    assert(0 * e == 0);
    while big::is_at_least(left, divisor)
        invariant
            left@.len() == divisor@.len(),
            e == big::natural(divisor@),
            e > 0,
            before < 10 * e,
            before == digit * e + big::natural(left@),
            digit < 10,
        decreases 10 - digit,
    {
        proof {
            let l = big::natural(left@);
            assert(digit < 9) by (nonlinear_arith)
                requires
                    before == digit * e + l,
                    l >= e,
                    before < 10 * e,
            ;
            assert((digit + 1) * e == digit * e + e) by (nonlinear_arith);
        }
        big::subtract(left, divisor);
        digit = digit + 1;
    }
    digit
}

/// The neighbour of the exact number that is the shortest, where one reads as the magnitude.
proof fn lemma_is_shortest(
    magnitude: nat,
    top: nat,
    bottom: nat,
    first: nat,
    power: int,
    digits: nat,
    left: nat,
    chosen: nat,
)
    requires
        0 < magnitude < rounding::INFINITE,
        stands_for(magnitude, top, bottom),
        divides(top, bottom, first, power, digits, left),
        forall|d: nat, p: int| p > power ==> #[trigger] decimal::scaled(d, p) != magnitude,
        ({
            let down = decimal::scaled(digits, power) == magnitude;
            let up = decimal::scaled(digits + 1, power) == magnitude;
            &&& down || up
            &&& chosen == if up && (!down || 2 * left >= bottom * decimal::ten(first)) {
                digits + 1
            } else {
                digits
            }
        }),
    ensures
        is_shortest(magnitude, chosen, power),
{
    lemma_division(magnitude, top, bottom, first, power, digits, left);
    assert forall|d: nat| #[trigger] decimal::scaled(d, power) == magnitude implies {
        ||| gap(magnitude, chosen, power) < gap(magnitude, d, power)
        ||| gap(magnitude, chosen, power) == gap(magnitude, d, power) && d <= chosen
    } by {
        lemma_neighbours(magnitude, digits, power, d);
        if d > digits + 1 {
            let x = lift(power) * pow2(1074);
            lemma_scaled(digits, power);
            lemma_pow2_pos(1074);
            lemma_mul_strictly_positive(lift(power) as int, pow2(1074) as int);
            assert((digits + 1) * x < d * x) by (nonlinear_arith)
                requires
                    digits + 1 < d,
                    x > 0,
            ;
        }
    }
}

/// The shortest decimal number that reads as the magnitude, looked for from a place down.
pub proof fn lemma_search(magnitude: nat, power: int) -> (found: (nat, int))
    requires
        0 < magnitude < rounding::INFINITE,
        rounding::units(magnitude) < pow2(1074) * decimal::ten(400),
        -1074 <= power <= 400,
        power < 400 ==> forall|d: nat, p: int|
            p > power ==> #[trigger] decimal::scaled(d, p) != magnitude,
    ensures
        is_shortest(magnitude, found.0, found.1),
    decreases power + 1074,
{
    let top = rounding::units(magnitude);
    let bottom = pow2(1074);
    let e = bottom * decimal::ten(400);
    let dividend = top * decimal::ten((400 - power) as nat);
    lemma_pow2_pos(1074);
    decimal::lemma_ten_adds(400, 0);
    lemma_mul_strictly_positive(bottom as int, decimal::ten(400) as int);
    let digits = dividend / e;
    let left = dividend % e;
    lemma_fundamental_div_mod(dividend as int, e as int);
    lemma_mod_bound(dividend as int, e as int);
    assert(e * digits == digits * e) by (nonlinear_arith);
    assert(divides(top, bottom, 400, power, digits, left));
    assert forall|d: nat, p: int| p > power implies #[trigger] decimal::scaled(d, p)
        != magnitude by {
        if power == 400 {
            lemma_above_first(magnitude, top, bottom, 400, d, p);
        }
    }
    let down = decimal::scaled(digits, power) == magnitude;
    let up = decimal::scaled(digits + 1, power) == magnitude;
    if down || up {
        let chosen = if up && (!down || 2 * left >= e) {
            digits + 1
        } else {
            digits
        };
        lemma_is_shortest(magnitude, top, bottom, 400, power, digits, left, chosen);
        (chosen, power)
    } else {
        if power == -1074 {
            lemma_division_ends(magnitude, top, bottom, 400, 1074, digits, left);
        }
        assert forall|d: nat, p: int| p > power - 1 implies #[trigger] decimal::scaled(d, p)
            != magnitude by {
            if p == power && decimal::scaled(d, p) == magnitude {
                lemma_division(magnitude, top, bottom, 400, power, digits, left);
                lemma_neighbours(magnitude, digits, power, d);
            }
        }
        lemma_search(magnitude, power - 1)
    }
}

/// The digits and the place of the last one of the shortest decimal number that reads as the
/// magnitude.
fn find_shortest(magnitude: u64) -> (parts: (Vec<u32>, i32))
    requires
        0 < magnitude < rounding::INFINITE,
    ensures
        is_shortest(magnitude as nat, big::natural(parts.0@), parts.1 as int),
        -1074 <= parts.1 <= 400,
{
    let (mut left, mut divisor, Ghost(halvings)) = as_fraction(magnitude);
    let ghost top = big::natural(left@);
    let ghost bottom = big::natural(divisor@);
    let mut first: i32 = 0;
    big::pad(&mut left, divisor.len());
    big::pad(&mut divisor, left.len());
    assert(bottom * 1 == bottom);
    while big::is_at_least(&left, &divisor)
        invariant
            left@.len() == divisor@.len(),
            top == big::natural(left@),
            top < pow2(1024),
            bottom > 0,
            0 <= first <= 400,
            big::natural(divisor@) == bottom * decimal::ten(first as nat),
            first > 0 ==> bottom * decimal::ten((first - 1) as nat) <= top,
        decreases 400 - first,
    {
        proof {
            let t = decimal::ten(first as nat);
            if first == 400 {
                decimal::lemma_ten_exceeds(400);
                rounding::lemma_pow2_increases(1024, 1200);
                assert(bottom * t >= t) by (nonlinear_arith)
                    requires
                        bottom >= 1,
                ;
            }
            assert(decimal::ten((first + 1) as nat) == 10 * t);
            assert((bottom * t) * 10 == bottom * (10 * t)) by (nonlinear_arith);
        }
        big::multiply_add(&mut divisor, 10, 0);
        big::pad(&mut left, divisor.len());
        big::pad(&mut divisor, left.len());
        first = first + 1;
    }
    let ghost e = big::natural(divisor@);
    let mut digits: Vec<u32> = Vec::new();
    let mut power: i32 = first;
    proof {
        assert(0 * e == 0);
        assert(top * 1 == top);
        assert(big::natural(Seq::<u32>::empty()) == 0);
        assert forall|d: nat, p: int| p > power implies #[trigger] decimal::scaled(d, p)
            != magnitude by {
            lemma_above_first(magnitude as nat, top, bottom, first as nat, d, p);
        }
    }
    loop
        invariant
            0 < magnitude < rounding::INFINITE,
            left@.len() == divisor@.len(),
            e == big::natural(divisor@),
            e == bottom * decimal::ten(first as nat),
            e > 0,
            top < e,
            stands_for(magnitude as nat, top, bottom),
            bottom == pow2(halvings),
            halvings <= 1074,
            0 <= first <= 400,
            -1074 <= power <= first,
            divides(
                top,
                bottom,
                first as nat,
                power as int,
                big::natural(digits@),
                big::natural(left@),
            ),
            forall|d: nat, p: int|
                p > power ==> #[trigger] decimal::scaled(d, p) != magnitude,
        decreases power + 1074,
    {
        let ghost n = big::natural(digits@);
        let ghost l = big::natural(left@);
        let length: u32 = (first - power) as u32;
        let mut above = digits.clone();
        assert(above@ =~= digits@);
        big::multiply_add(&mut above, 1, 1);
        proof {
            lemma_division_bound(top, bottom, first as nat, power as int, n, l);
            assert(n * 1 == n);
            assert(decimal::ten((length + 1) as nat) == 10 * decimal::ten(length as nat));
        }
        let down = reads_as(magnitude, &digits, power, length + 1);
        let up = reads_as(magnitude, &above, power, length + 1);
        if down || up {
            let mut twice = left.clone();
            assert(twice@ =~= left@);
            let mut bound = divisor.clone();
            assert(bound@ =~= divisor@);
            big::multiply_add(&mut twice, 2, 0);
            big::pad(&mut bound, twice.len());
            big::pad(&mut twice, bound.len());
            let over_half = big::is_at_least(&twice, &bound);
            let ghost chosen = if up && (!down || over_half) {
                n + 1
            } else {
                n
            };
            proof {
                lemma_is_shortest(
                    magnitude as nat,
                    top,
                    bottom,
                    first as nat,
                    power as int,
                    n,
                    l,
                    chosen,
                );
            }
            return if up && (!down || over_half) { (above, power) } else { (digits, power) };
        }
        proof {
            if power == -1074 {
                lemma_division_ends(magnitude as nat, top, bottom, first as nat, halvings, n, l);
            }
            assert forall|d: nat, p: int| p > power - 1 implies #[trigger] decimal::scaled(d, p)
                != magnitude by {
                if p == power && decimal::scaled(d, p) == magnitude {
                    lemma_division(magnitude as nat, top, bottom, first as nat, power as int, n, l);
                    lemma_neighbours(magnitude as nat, n, power as int, d);
                }
            }
        }
        big::multiply_add(&mut left, 10, 0);
        big::pad(&mut divisor, left.len());
        big::pad(&mut left, divisor.len());
        let digit = next_digit(&mut left, &divisor);
        proof {
            lemma_next_digit(
                top,
                bottom,
                first as nat,
                power as int,
                n,
                l,
                digit as nat,
                big::natural(left@),
            );
        }
        big::multiply_add(&mut digits, 10, digit);
        power = power - 1;
    }
}

/// The magnitude in units of 1/1000, rounded to nearest with ties to even.
fn in_thousandths(magnitude: u64) -> (n: Vec<u32>)
    requires
        magnitude < rounding::INFINITE,
    ensures
        big::natural(n@) == rounding::half_even(
            rounding::units(magnitude as nat) * 1000,
            pow2(1074),
        ),
{
    let (m, k) = split(magnitude);
    let ghost u = rounding::units(magnitude as nat);
    let ghost w = pow2(1074);
    proof {
        lemma_pow2_pos(1074);
        lemma2_to64();
        lemma2_to64_rest();
    }
    if k >= 1074 {
        let up: u32 = k - 1074;
        let mut n = big::from_word(m);
        big::double(&mut n, up);
        big::multiply_add(&mut n, 1000, 0);
        proof {
            let p = pow2(up as nat);
            let found = m as nat * p * 1000;
            lemma_pow2_adds(up as nat, 1074);
            assert(u * 1000 == found * w) by (nonlinear_arith)
                requires
                    u == m * pow2(k as nat),
                    pow2(k as nat) == p * w,
                    found == m * p * 1000,
            ;
            rounding::lemma_half_even_is(u * 1000, w, found);
        }
        n
    } else {
        let down: u32 = 1074 - k;
        let ghost p = pow2(down as nat);
        let ghost t = pow2(k as nat);
        let thousandths: u64 = m * 1000;
        proof {
            lemma_pow2_adds(down as nat, k as nat);
            lemma_pow2_pos(k as nat);
            assert(u * 1000 == thousandths * t) by (nonlinear_arith)
                requires
                    u == m * t,
                    thousandths == m * 1000,
            ;
        }
        if down >= 64 {
            proof {
                rounding::lemma_pow2_increases(64, down as nat);
                assert(2 * (u * 1000) < w) by (nonlinear_arith)
                    requires
                        u * 1000 == thousandths * t,
                        w == p * t,
                        2 * thousandths < p,
                        t > 0,
                ;
                assert(0 * w == 0);
                rounding::lemma_half_even_is(u * 1000, w, 0);
            }
            return big::from_word(0);
        }
        let q = crate::bracket::power(down);
        let floor: u128 = thousandths as u128 / q;
        let rest: u128 = thousandths as u128 % q;
        proof {
            lemma_fundamental_div_mod(thousandths as int, p as int);
            lemma_mod_bound(thousandths as int, p as int);
            assert(floor <= thousandths) by (nonlinear_arith)
                requires
                    thousandths == p * floor + rest,
                    rest >= 0,
                    p >= 1,
            ;
            crate::bracket::lemma_half_even_scales(thousandths as nat, p, t);
            rounding::lemma_pow2_increases(down as nat, 64);
        }
        let up = 2 * rest > q || (2 * rest == q && floor % 2 == 1);
        let n: u128 = if up { floor + 1 } else { floor };
        big::from_word(n as u64)
    }
}

/// A sign in front of a text, where the number is negative.
fn put_sign(negative: bool, s: &str) -> (out: String)
    ensures
        out@ == with_sign(negative, s@),
{
    if negative {
        let mut out = String::new();
        out.push('-');
        out.append(s);
        assert(out@ =~= seq!['-'] + s@);
        out
    } else {
        s.to_string()
    }
}

impl Binary64 {
    /// The number in decimal digits, as few as tell it from every other, and never with an
    /// exponent.
    pub fn to_text(self) -> (out: String)
        ensures
            out@ == displayed(self),
    {
        let magnitude = self.without_sign();
        if magnitude > rounding::INFINITE {
            return "NaN".to_string();
        }
        if magnitude == rounding::INFINITE {
            return put_sign(self.has_sign(), "inf");
        }
        if magnitude == 0 {
            let zero = write_fixed(big::from_word(0), 0);
            return put_sign(self.has_sign(), zero.as_str());
        }
        let (mut digits, power) = find_shortest(magnitude);
        proof {
            lemma_shortest_is_unique(
                magnitude as nat,
                big::natural(digits@),
                power as int,
            );
        }
        let plain = if power >= 0 {
            raise_by_ten(&mut digits, power as u128);
            write_fixed(digits, 0)
        } else {
            write_fixed(digits, (-power) as u32)
        };
        put_sign(self.has_sign(), plain.as_str())
    }
}

/// A timestamp with three digits behind the point.
pub fn ts_display(ts: Binary64) -> (out: String)
    ensures
        out@ == displayed_in_thousandths(ts),
{
    let magnitude = ts.without_sign();
    if magnitude > rounding::INFINITE {
        return "NaN".to_string();
    }
    if magnitude == rounding::INFINITE {
        return put_sign(ts.has_sign(), "inf");
    }
    let plain = write_fixed(in_thousandths(magnitude), 3);
    put_sign(ts.has_sign(), plain.as_str())
}

} // verus!
