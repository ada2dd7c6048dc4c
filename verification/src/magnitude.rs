//! Arithmetic on magnitudes: the exact result of each operation is bracketed and then rounded.

use crate::bracket;
use crate::rounding;
use vstd::arithmetic::div_mod::*;
use vstd::arithmetic::mul::*;
use vstd::arithmetic::power2::*;
use vstd::prelude::*;

verus! {

/// The significand and the exponent of a magnitude.
pub(crate) fn split(magnitude: u64) -> (parts: (u64, u32))
    requires
        magnitude <= rounding::INFINITE,
    ensures
        parts.0 == rounding::significand(magnitude as nat),
        parts.1 == rounding::exponent(magnitude as nat),
        parts.0 < rounding::SIGNIFICANDS,
        parts.1 <= 2046,
        parts.1 > 0 ==> parts.0 >= rounding::HIDDEN,
        magnitude > 0 <==> parts.0 > 0,
        magnitude < rounding::INFINITE ==> parts.1 <= 2045,
        rounding::units(magnitude as nat) == parts.0 * pow2(parts.1 as nat),
{
    proof {
        rounding::lemma_significand(magnitude as nat);
    }
    if magnitude < rounding::HIDDEN {
        (magnitude, 0)
    } else {
        let exponent: u64 = magnitude / rounding::HIDDEN - 1;
        (magnitude - exponent * rounding::HIDDEN, exponent as u32)
    }
}

/// A whole number of 2^shift, for `shift >= 0`, is bracketed by itself.
proof fn lemma_brackets_whole(num: nat, m: nat, shift: nat)
    requires
        num == m * pow2(shift),
    ensures
        bracket::brackets(num, 1, m, shift as int, false),
{
    rounding::lemma_pow2_52_53();
    let step = pow2(shift);
    lemma_pow2_pos(shift);
    assert(bracket::raise(shift as int) == step);
    assert(bracket::raise(-(shift as int)) == 1);
    assert(num * 1 == num);
    assert(1 * step == step);
    assert((m + 1) * step == m * step + step) by (nonlinear_arith);
}

/// `high + low`.
pub(crate) fn add_magnitudes(high: u64, low: u64) -> (magnitude: u64)
    requires
        low <= high < rounding::INFINITE,
    ensures
        magnitude == rounding::nearest(
            rounding::units(high as nat) + rounding::units(low as nat),
            1,
        ),
        magnitude <= rounding::INFINITE,
{
    let (m, k) = split(high);
    let (n, j) = split(low);
    let ghost num = rounding::units(high as nat) + rounding::units(low as nat);
    let d: u32 = k - j;
    if d <= 64 {
        let p = bracket::power(d);
        proof {
            lemma_pow2_adds(d as nat, j as nat);
            rounding::lemma_pow2_increases(d as nat, 64);
            lemma2_to64();
            assert(m * p <= 0x20_0000_0000_0000 * 0x1_0000_0000_0000_0000) by (nonlinear_arith)
                requires
                    m <= 0x20_0000_0000_0000,
                    p <= 0x1_0000_0000_0000_0000,
            ;
            assert(num == (m * p + n) * pow2(j as nat)) by (nonlinear_arith)
                requires
                    num == m * pow2(k as nat) + n * pow2(j as nat),
                    pow2(k as nat) == p * pow2(j as nat),
            ;
            lemma_brackets_whole(num, (m * p + n) as nat, j as nat);
        }
        let total: u128 = m as u128 * p + n as u128;
        bracket::round_bracket(total, j as i32, false, Ghost(num), Ghost(1))
    } else {
        proof {
            lemma_brackets_apart(m as nat, k as nat, n as nat, j as nat);
        }
        bracket::round_bracket(m as u128 * 256, k as i32 - 8, n > 0, Ghost(num), Ghost(1))
    }
}

/// Where two numbers are far apart, the lesser only tells whether their sum or difference is
/// exact.
proof fn lemma_brackets_apart(m: nat, k: nat, n: nat, j: nat)
    requires
        m >= rounding::HIDDEN,
        n < rounding::SIGNIFICANDS,
        k >= j + 65,
    ensures
        bracket::brackets(m * pow2(k) + n * pow2(j), 1, m * 256, k - 8, n > 0),
        m * pow2(k) >= n * pow2(j),
        n > 0 ==> bracket::brackets(
            (m * pow2(k) - n * pow2(j)) as nat,
            1,
            (m * 256 - 1) as nat,
            k - 8,
            true,
        ),
{
    rounding::lemma_pow2_52_53();
    lemma2_to64();
    let step = pow2((k - 8) as nat);
    let small = n * pow2(j);
    lemma_pow2_pos((k - 8) as nat);
    lemma_pow2_pos(j);
    lemma_pow2_adds(8, (k - 8) as nat);
    lemma_pow2_adds(53, j);
    rounding::lemma_pow2_increases(53 + j, (k - 8) as nat);
    assert(bracket::raise(k - 8) == step);
    assert(bracket::raise(-(k - 8)) == 1);
    assert(1 * step == step);
    assert(small < step) by (nonlinear_arith)
        requires
            small == n * pow2(j),
            n < rounding::SIGNIFICANDS,
            pow2(j) > 0,
            rounding::SIGNIFICANDS * pow2(j) <= step,
    ;
    if n > 0 {
        lemma_mul_strictly_positive(n as int, pow2(j) as int);
    } else {
        lemma_mul_by_zero_is_zero(pow2(j) as int);
    }
    let large = m * pow2(k);
    assert(large == (m * 256) * step) by (nonlinear_arith)
        requires
            large == m * pow2(k),
            pow2(k) == 256 * step,
    ;
    assert((m * 256 + 1) * step == (m * 256) * step + step) by (nonlinear_arith);
    assert((m * 256 - 1) * step == (m * 256) * step - step) by (nonlinear_arith);
    assert(large >= step) by (nonlinear_arith)
        requires
            large == (m * 256) * step,
            m >= 1,
    ;
    assert((large + small) * 1 == large + small);
    assert((large - small) * 1 == large - small);
}

/// `high - low`.
pub(crate) fn subtract_magnitudes(high: u64, low: u64) -> (magnitude: u64)
    requires
        low < high < rounding::INFINITE,
    ensures
        magnitude == rounding::nearest(
            (rounding::units(high as nat) - rounding::units(low as nat)) as nat,
            1,
        ),
        magnitude <= rounding::INFINITE,
{
    let (m, k) = split(high);
    let (n, j) = split(low);
    proof {
        rounding::lemma_units_ordered(low as nat, high as nat);
    }
    let ghost num = (rounding::units(high as nat) - rounding::units(low as nat)) as nat;
    let d: u32 = k - j;
    if d <= 64 {
        let p = bracket::power(d);
        proof {
            lemma_pow2_adds(d as nat, j as nat);
            rounding::lemma_pow2_increases(d as nat, 64);
            lemma_pow2_pos(j as nat);
            lemma2_to64();
            assert(m * p <= 0x20_0000_0000_0000 * 0x1_0000_0000_0000_0000) by (nonlinear_arith)
                requires
                    m <= 0x20_0000_0000_0000,
                    p <= 0x1_0000_0000_0000_0000,
            ;
            let q = pow2(j as nat);
            assert(num == (m * p - n) * q) by (nonlinear_arith)
                requires
                    num == m * pow2(k as nat) - n * q,
                    pow2(k as nat) == p * q,
            ;
            assert(m * p - n > 0) by (nonlinear_arith)
                requires
                    num == (m * p - n) * q,
                    num > 0,
                    q > 0,
            ;
            lemma_brackets_whole(num, (m * p - n) as nat, j as nat);
        }
        let rest: u128 = m as u128 * p - n as u128;
        bracket::round_bracket(rest, j as i32, false, Ghost(num), Ghost(1))
    } else {
        proof {
            lemma_brackets_apart(m as nat, k as nat, n as nat, j as nat);
            lemma_mul_by_zero_is_zero(pow2(j as nat) as int);
        }
        if n > 0 {
            bracket::round_bracket(m as u128 * 256 - 1, k as i32 - 8, true, Ghost(num), Ghost(1))
        } else {
            bracket::round_bracket(m as u128 * 256, k as i32 - 8, false, Ghost(num), Ghost(1))
        }
    }
}

/// `a * b`.
pub(crate) fn multiply_magnitudes(a: u64, b: u64) -> (magnitude: u64)
    requires
        a < rounding::INFINITE,
        b < rounding::INFINITE,
    ensures
        magnitude == rounding::nearest(
            rounding::units(a as nat) * rounding::units(b as nat),
            pow2(1074),
        ),
        magnitude <= rounding::INFINITE,
{
    let (m, k) = split(a);
    let (n, j) = split(b);
    let ghost num = rounding::units(a as nat) * rounding::units(b as nat);
    let ghost den = pow2(1074);
    let shift: i32 = (k + j) as i32 - 1074;
    proof {
        assert(m * n < 0x20_0000_0000_0000 * 0x20_0000_0000_0000) by (nonlinear_arith)
            requires
                0 <= m < 0x20_0000_0000_0000,
                0 <= n < 0x20_0000_0000_0000,
        ;
        let product = (m * n) as nat;
        let both = pow2((k + j) as nat);
        lemma_pow2_adds(k as nat, j as nat);
        assert(num == product * both) by (nonlinear_arith)
            requires
                num == (m * pow2(k as nat)) * (n * pow2(j as nat)),
                product == m * n,
                both == pow2(k as nat) * pow2(j as nat),
        ;
        lemma_pow2_pos(1074);
        rounding::lemma_pow2_52_53();
        let step = den * bracket::raise(shift as int);
        let left = num * bracket::raise(-shift);
        if shift >= 0 {
            lemma_pow2_adds(1074, shift as nat);
            assert(step == both);
            assert(num * 1 == num);
        } else {
            lemma_pow2_adds((k + j) as nat, (-shift) as nat);
            assert(den * 1 == den);
            assert(left == product * den) by (nonlinear_arith)
                requires
                    left == num * pow2((-shift) as nat),
                    num == product * both,
                    both * pow2((-shift) as nat) == den,
            ;
        }
        assert(left == product * step);
        lemma_pow2_pos((k + j) as nat);
        assert((product + 1) * step == product * step + step) by (nonlinear_arith);
    }
    bracket::round_bracket(m as u128 * n as u128, shift, false, Ghost(num), Ghost(den))
}

/// `a / b`.
pub(crate) fn divide_magnitudes(a: u64, b: u64) -> (magnitude: u64)
    requires
        a < rounding::INFINITE,
        0 < b < rounding::INFINITE,
    ensures
        magnitude == rounding::nearest(
            rounding::units(a as nat) * pow2(1074),
            rounding::units(b as nat),
        ),
        magnitude <= rounding::INFINITE,
{
    let ghost num = rounding::units(a as nat) * pow2(1074);
    let ghost den = rounding::units(b as nat);
    proof {
        rounding::lemma_units_zero(b as nat);
        rounding::lemma_units_zero(0);
    }
    if a == 0 {
        proof {
            lemma_mul_by_zero_is_zero(pow2(1074) as int);
            lemma_mul_by_zero_is_zero(den as int);
            rounding::lemma_nearest_exact(0, den);
        }
        return 0;
    }
    let (m, k) = split(a);
    let (n, j) = split(b);
    let length = bracket::bit_length(m as u128);
    proof {
        rounding::lemma_pow2_52_53();
        if length > 53 {
            rounding::lemma_pow2_increases(53, (length - 1) as nat);
        }
    }
    let lift: u32 = 120 - length;
    let p = bracket::power(lift);
    proof {
        lemma_lifted(m as nat, p as nat, length as nat);
    }
    let dividend: u128 = m as u128 * p;
    let quotient: u128 = dividend / n as u128;
    let rest: u128 = dividend % n as u128;
    let shift: i32 = k as i32 - j as i32 - lift as i32 + 1074;
    proof {
        lemma_fundamental_div_mod(dividend as int, n as int);
        lemma_mod_bound(dividend as int, n as int);
        assert(quotient >= 0x0080_0000_0000_0000) by (nonlinear_arith)
            requires
                dividend == n * quotient + rest,
                0 <= rest < n,
                n <= 0x20_0000_0000_0000,
                dividend >= 0x80_0000_0000_0000_0000_0000_0000_0000,
        ;
        assert(quotient <= dividend) by (nonlinear_arith)
            requires
                dividend == n * quotient + rest,
                0 <= rest,
                n >= 1,
        ;
        lemma_brackets_quotient(
            m as nat,
            k as nat,
            n as nat,
            j as nat,
            lift as nat,
            shift as int,
            quotient as nat,
            rest as nat,
        );
    }
    bracket::round_bracket(quotient, shift, rest > 0, Ghost(num), Ghost(den))
}

proof fn lemma_lifted(m: nat, p: nat, length: nat)
    requires
        0 < length <= 53,
        pow2((length - 1) as nat) <= m,
        m < pow2(length),
        p == pow2((120 - length) as nat),
    ensures
        0x80_0000_0000_0000_0000_0000_0000_0000 <= m * p,
        m * p < 0x100_0000_0000_0000_0000_0000_0000_0000,
{
    lemma_pow2_adds((length - 1) as nat, (120 - length) as nat);
    lemma_pow2_adds(length, (120 - length) as nat);
    lemma_pow2_pos((120 - length) as nat);
    bracket::lemma_one_shifted(119);
    bracket::lemma_one_shifted(120);
    assert(1u128 << 119u32 == 0x80_0000_0000_0000_0000_0000_0000_0000) by (bit_vector);
    assert(1u128 << 120u32 == 0x100_0000_0000_0000_0000_0000_0000_0000) by (bit_vector);
    assert(pow2((length - 1) as nat) * p <= m * p) by (nonlinear_arith)
        requires
            pow2((length - 1) as nat) <= m,
    ;
    assert(m * p < pow2(length) * p) by (nonlinear_arith)
        requires
            m < pow2(length),
            p > 0,
    ;
}

/// A quotient of lifted significands brackets the quotient of the numbers.
proof fn lemma_brackets_quotient(
    m: nat,
    k: nat,
    n: nat,
    j: nat,
    lift: nat,
    shift: int,
    quotient: nat,
    rest: nat,
)
    requires
        n > 0,
        shift == k - j - lift + 1074,
        m * pow2(lift) == n * quotient + rest,
        rest < n,
    ensures
        bracket::brackets(
            m * pow2(k) * pow2(1074),
            n * pow2(j),
            quotient,
            shift,
            rest > 0,
        ),
{
    let num = m * pow2(k) * pow2(1074);
    let den = n * pow2(j);
    let left = num * bracket::raise(-shift);
    let step = den * bracket::raise(shift);
    let dividend = m * pow2(lift);
    rounding::lemma_pow2_52_53();
    lemma_pow2_adds(k, 1074);
    lemma_pow2_pos(j);
    let t: nat = if shift >= 0 {
        pow2(j + shift as nat)
    } else {
        pow2(j)
    };
    if shift >= 0 {
        let e = j + shift as nat;
        lemma_pow2_pos(e);
        lemma_pow2_adds(j, shift as nat);
        lemma_pow2_adds(lift, e);
        assert(step == n * t) by (nonlinear_arith)
            requires
                step == (n * pow2(j)) * pow2(shift as nat),
                t == pow2(j) * pow2(shift as nat),
        ;
        assert(num * 1 == num);
        assert(left == dividend * t) by (nonlinear_arith)
            requires
                left == m * pow2(k) * pow2(1074),
                dividend == m * pow2(lift),
                pow2(k) * pow2(1074) == pow2(lift) * t,
        ;
    } else {
        let s = (-shift) as nat;
        lemma_pow2_adds(k + 1074, s);
        lemma_pow2_adds(lift, j);
        assert(den * 1 == den);
        assert(left == dividend * t) by (nonlinear_arith)
            requires
                left == m * pow2(k) * pow2(1074) * pow2(s),
                dividend == m * pow2(lift),
                pow2(k) * pow2(1074) == pow2(k + 1074),
                pow2(k + 1074) * pow2(s) == pow2(lift) * t,
        ;
    }
    lemma_mul_strictly_positive(n as int, pow2(j) as int);
    let r = rest * t;
    assert(left == quotient * step + r) by (nonlinear_arith)
        requires
            left == dividend * t,
            dividend == n * quotient + rest,
            step == n * t,
            r == rest * t,
    ;
    assert(r < step) by (nonlinear_arith)
        requires
            r == rest * t,
            step == n * t,
            rest < n,
            t > 0,
    ;
    if rest > 0 {
        lemma_mul_strictly_positive(rest as int, t as int);
    } else {
        lemma_mul_by_zero_is_zero(t as int);
    }
    assert((quotient + 1) * step == quotient * step + step) by (nonlinear_arith);
}

/// The integer part of a magnitude, as far as it is below 2^64, and whether anything is left of
/// it.
pub(crate) fn integer_part(magnitude: u64) -> (parts: (u128, bool))
    requires
        magnitude <= rounding::INFINITE,
    ensures
        ({
            let u = rounding::units(magnitude as nat);
            let whole = u / pow2(1074);
            let rest = u % pow2(1074);
            &&& whole < 0x1_0000_0000_0000_0000 ==> parts.0 == whole
            &&& whole >= 0x1_0000_0000_0000_0000 ==> parts.0 >= 0x1_0000_0000_0000_0000
            &&& parts.0 < 0x8000_0000_0000_0000_0000_0000_0000_0000
            &&& parts.1 == (rest != 0)
        }),
{
    let (m, k) = split(magnitude);
    let ghost u = rounding::units(magnitude as nat);
    let ghost w = pow2(1074);
    proof {
        lemma_pow2_pos(1074);
        lemma2_to64();
        lemma2_to64_rest();
    }
    if k >= 1074 {
        let up: u32 = k - 1074;
        proof {
            lemma_pow2_adds(up as nat, 1074);
            let p = pow2(up as nat);
            let whole = m as nat * p;
            assert(u == whole * w) by (nonlinear_arith)
                requires
                    u == m * pow2(k as nat),
                    pow2(k as nat) == p * w,
                    whole == m * p,
            ;
            lemma_div_multiples_vanish(whole as int, w as int);
            lemma_mod_multiples_basic(whole as int, w as int);
            assert(w * whole == whole * w) by (nonlinear_arith);
            if up <= 64 {
                rounding::lemma_pow2_increases(up as nat, 64);
                assert(whole <= 0x20_0000_0000_0000 * 0x1_0000_0000_0000_0000)
                    by (nonlinear_arith)
                    requires
                        whole == m * p,
                        m <= 0x20_0000_0000_0000,
                        p <= 0x1_0000_0000_0000_0000,
                ;
            } else {
                rounding::lemma_pow2_increases(64, up as nat);
                assert(whole >= 0x1_0000_0000_0000_0000) by (nonlinear_arith)
                    requires
                        whole == m * p,
                        m >= 1,
                        p >= 0x1_0000_0000_0000_0000,
                ;
            }
        }
        if up > 64 {
            return (0x1_0000_0000_0000_0000, false);
        }
        (m as u128 * bracket::power(up), false)
    } else {
        let down: u32 = 1074 - k;
        proof {
            lemma_pow2_adds(down as nat, k as nat);
            lemma_pow2_pos(k as nat);
        }
        let ghost p = pow2(down as nat);
        let ghost t = pow2(k as nat);
        if down >= 64 {
            proof {
                rounding::lemma_pow2_increases(64, down as nat);
                assert(u < w) by (nonlinear_arith)
                    requires
                        u == m * t,
                        w == p * t,
                        m < p,
                        t > 0,
                ;
                lemma_basic_div(u as int, w as int);
                lemma_small_mod(u, w);
                rounding::lemma_units_zero(magnitude as nat);
            }
            return (0, m > 0);
        }
        let q = bracket::power(down);
        let whole: u128 = m as u128 / q;
        let rest: u128 = m as u128 % q;
        proof {
            lemma_fundamental_div_mod(m as int, p as int);
            lemma_mod_bound(m as int, p as int);
            let r = rest as nat * t;
            assert(u == whole * w + r) by (nonlinear_arith)
                requires
                    u == m * t,
                    m == p * whole + rest,
                    w == p * t,
                    r == rest * t,
            ;
            assert(r < w) by (nonlinear_arith)
                requires
                    r == rest * t,
                    w == p * t,
                    rest < p,
                    t > 0,
            ;
            lemma_fundamental_div_mod_converse(u as int, w as int, whole as int, r as int);
            if rest > 0 {
                lemma_mul_strictly_positive(rest as int, t as int);
            } else {
                lemma_mul_by_zero_is_zero(t as int);
            }
            assert(whole <= m) by (nonlinear_arith)
                requires
                    m == p * whole + rest,
                    rest >= 0,
                    p >= 1,
            ;
        }
        (whole, rest > 0)
    }
}

} // verus!
