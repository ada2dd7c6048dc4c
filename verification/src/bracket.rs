//! Rounding of numbers that are known up to a bracket: the leading bits, and whether anything
//! follows them.

use crate::rounding;
use vstd::arithmetic::div_mod::*;
use vstd::arithmetic::mul::*;
use vstd::arithmetic::power2::*;
use vstd::prelude::*;

verus! {

pub proof fn lemma_one_shifted(n: u32)
    requires
        n < 128,
    ensures
        1u128 << n == pow2(n as nat),
        1u128 << n > 0,
    decreases n,
{
    if n == 0 {
        assert(1u128 << 0u32 == 1) by (bit_vector);
        rounding::lemma_pow2_52_53();
    } else {
        let m: u32 = (n - 1) as u32;
        lemma_one_shifted(m);
        lemma_pow2_unfold(n as nat);
        assert(1u128 << n == 2 * (1u128 << m)) by (bit_vector)
            requires
                0 < n < 128,
                m == n - 1,
        ;
        lemma_pow2_pos(n as nat);
    }
}

/// 2^n.
pub(crate) fn power(n: u32) -> (p: u128)
    requires
        n < 128,
    ensures
        p == pow2(n as nat),
        p > 0,
{
    proof {
        lemma_one_shifted(n);
    }
    1u128 << n
}

/// The number of bits of `m`.
pub(crate) fn bit_length(m: u128) -> (n: u32)
    ensures
        n <= 128,
        m == 0 ==> n == 0,
        m > 0 ==> n > 0 && pow2((n - 1) as nat) <= m,
        m < pow2(n as nat),
{
    let mut n: u32 = 0;
    let mut rest: u128 = m;
    proof {
        rounding::lemma_pow2_52_53();
        lemma_div_basics(m as int);
    }
    while rest > 0
        invariant
            n <= 128,
            rest == m as nat / pow2(n as nat),
            n > 0 ==> pow2((n - 1) as nat) <= m,
            n > 0 ==> m > 0,
            n == 0 ==> rest == m,
        decreases rest,
    {
        proof {
            lemma_pow2_pos(n as nat);
            lemma_fundamental_div_mod(m as int, pow2(n as nat) as int);
            lemma_mod_bound(m as int, pow2(n as nat) as int);
            let p = pow2(n as nat);
            assert(p <= m) by (nonlinear_arith)
                requires
                    rest >= 1,
                    m >= p * rest,
            ;
            if n == 128 {
                lemma_one_shifted(127);
                lemma_pow2_unfold(128);
                assert(1u128 << 127u32 == 0x8000_0000_0000_0000_0000_0000_0000_0000)
                    by (bit_vector);
            }
            lemma_pow2_unfold((n + 1) as nat);
            lemma_div_denominator(m as int, p as int, 2);
        }
        rest = rest / 2;
        n = n + 1;
    }
    proof {
        lemma_pow2_pos(n as nat);
        lemma_fundamental_div_mod(m as int, pow2(n as nat) as int);
        lemma_mod_bound(m as int, pow2(n as nat) as int);
        assert(pow2(n as nat) * (m as nat / pow2(n as nat)) == 0) by (nonlinear_arith)
            requires
                m as nat / pow2(n as nat) == 0,
        ;
    }
    n
}

/// 2^n for `n >= 0`, else 1.
pub open spec fn raise(n: int) -> nat {
    if n >= 0 {
        pow2(n as nat)
    } else {
        1
    }
}

/// `num / den` lies in `[m, m + 1)` times 2^shift: at `m` where `inexact` is false, above it
/// where `inexact` is true.
pub open spec fn brackets(num: nat, den: nat, m: nat, shift: int, inexact: bool) -> bool {
    let left = num * raise(-shift);
    let step = den * raise(shift);
    &&& den > 0
    &&& m * step <= left
    &&& left < (m + 1) * step
    &&& inexact <==> left != m * step
}

pub proof fn lemma_raise(n: int)
    ensures
        raise(n) > 0,
{
    if n >= 0 {
        lemma_pow2_pos(n as nat);
    }
}

/// How many bits a bracketed number has beyond the 53 of a significand.
proof fn lemma_bracket_excess(
    num: nat,
    den: nat,
    m: nat,
    shift: int,
    inexact: bool,
    length: nat,
    scale: nat,
)
    requires
        brackets(num, den, m, shift, inexact),
        0 < length,
        pow2((length - 1) as nat) <= m,
        m < pow2(length),
        scale == if length + shift > 53 { length + shift - 53 } else { 0 },
    ensures
        rounding::excess_bits(num / den) == scale,
{
    let up = raise(shift);
    let down = raise(-shift);
    let left = num * down;
    let step = den * up;
    let whole = num / den;
    lemma_raise(shift);
    lemma_raise(-shift);
    lemma_fundamental_div_mod(num as int, den as int);
    lemma_mod_bound(num as int, den as int);
    rounding::lemma_pow2_52_53();
    // upper: 2^length * up <= 2^(53 + scale) * down
    let top = pow2(length);
    let cap = pow2(53 + scale);
    assert(top * up <= cap * down) by {
        if shift >= 0 {
            lemma_pow2_adds(length, shift as nat);
            rounding::lemma_pow2_increases(length + shift as nat, 53 + scale);
            assert(cap * 1 == cap);
        } else {
            lemma_pow2_adds(53 + scale, (-shift) as nat);
            rounding::lemma_pow2_increases(length, 53 + scale + (-shift) as nat);
            assert(top * 1 == top);
        }
    }
    assert(left < top * step) by (nonlinear_arith)
        requires
            left < (m + 1) * step,
            m + 1 <= top,
    ;
    assert(num < cap * den) by (nonlinear_arith)
        requires
            left == num * down,
            left < top * step,
            step == den * up,
            top * up <= cap * down,
            down > 0,
    ;
    assert(whole < cap) by (nonlinear_arith)
        requires
            num < cap * den,
            num >= den * whole,
            den > 0,
    ;
    if scale > 0 {
        let low = pow2((length - 1) as nat);
        let floor = pow2(52 + scale);
        assert(low * up == floor * down) by {
            if shift >= 0 {
                lemma_pow2_adds((length - 1) as nat, shift as nat);
                assert(floor * 1 == floor);
            } else {
                lemma_pow2_adds(52 + scale, (-shift) as nat);
                assert(low * 1 == low);
            }
        }
        assert(left >= low * step) by (nonlinear_arith)
            requires
                left >= m * step,
                m >= low,
        ;
        assert(num >= floor * den) by (nonlinear_arith)
            requires
                left == num * down,
                left >= low * step,
                step == den * up,
                low * up == floor * down,
                down > 0,
        ;
        assert(whole >= floor) by (nonlinear_arith)
            requires
                num >= floor * den,
                num < den * whole + den,
                den > 0,
        ;
    }
    rounding::lemma_excess_bits_is(whole, scale);
}

/// Rounding to an integer can be read off a bracket whose lowest `drop` bits go.
proof fn lemma_round_bracket(
    num: nat,
    den: nat,
    m: nat,
    shift: int,
    inexact: bool,
    scale: nat,
    drop: nat,
    found: nat,
)
    requires
        brackets(num, den, m, shift, inexact),
        scale == shift + drop,
        drop > 0,
        ({
            let p = pow2(drop);
            let quotient = m / p;
            let rest = m % p;
            let up = 2 * rest > p || (2 * rest == p && (inexact || quotient % 2 == 1));
            found == if up { quotient + 1 } else { quotient }
        }),
    ensures
        rounding::half_even(num, den * pow2(scale)) == found,
{
    let up = raise(shift);
    let down = raise(-shift);
    let left = num * down;
    let step = den * up;
    let p = pow2(drop);
    let half = pow2((drop - 1) as nat);
    let quotient = m / p;
    let rest = m % p;
    let wide = step * p;
    lemma_raise(shift);
    lemma_raise(-shift);
    lemma_pow2_pos(drop);
    lemma_pow2_pos(scale);
    lemma_pow2_unfold(drop);
    assert(p == 2 * half);
    lemma_fundamental_div_mod(m as int, p as int);
    lemma_mod_bound(m as int, p as int);
    lemma_mul_strictly_positive(den as int, up as int);
    lemma_mul_strictly_positive(step as int, p as int);
    // the exact number is quotient * wide + rest * step + part, where part < step
    let part = left - m * step;
    assert(m * step == quotient * wide + rest * step) by (nonlinear_arith)
        requires
            m == p * quotient + rest,
            wide == step * p,
    ;
    assert((m + 1) * step == m * step + step) by (nonlinear_arith);
    assert(wide == 2 * (half * step)) by (nonlinear_arith)
        requires
            wide == step * p,
            p == 2 * half,
    ;
    assert((quotient + 1) * wide == quotient * wide + wide) by (nonlinear_arith);
    if rest < half {
        assert(rest * step + step <= half * step) by (nonlinear_arith)
            requires
                rest + 1 <= half,
        ;
    } else if rest > half {
        assert(rest * step >= half * step + step) by (nonlinear_arith)
            requires
                rest >= half + 1,
        ;
        assert(rest * step + step <= wide) by (nonlinear_arith)
            requires
                rest + 1 <= p,
                wide == step * p,
        ;
    } else {
        lemma_pow2_pos((drop - 1) as nat);
        assert(half * step >= step) by (nonlinear_arith)
            requires
                half >= 1,
        ;
        assert(rest * step == half * step);
    }
    rounding::lemma_half_even_is(left, wide, found);
    // bring back to num and den
    let target = den * pow2(scale);
    lemma_mul_strictly_positive(den as int, pow2(scale) as int);
    assert(up * p == pow2(scale) * down) by {
        rounding::lemma_pow2_52_53();
        if shift >= 0 {
            lemma_pow2_adds(shift as nat, drop);
            assert(pow2(scale) * 1 == pow2(scale));
        } else {
            lemma_pow2_adds(scale, (-shift) as nat);
            assert(1 * p == p);
        }
    }
    assert(wide == target * down) by (nonlinear_arith)
        requires
            wide == step * p,
            step == den * up,
            up * p == pow2(scale) * down,
            target == den * pow2(scale),
    ;
    lemma_half_even_scales(num, target, down);
}

/// A common factor does not change a rounding.
pub proof fn lemma_half_even_scales(num: nat, den: nat, factor: nat)
    requires
        den > 0,
        factor > 0,
    ensures
        rounding::half_even(num, den) == rounding::half_even(num * factor, den * factor),
{
    let found = rounding::half_even(num, den);
    rounding::lemma_half_even(num, den);
    lemma_mul_strictly_positive(den as int, factor as int);
    assert(found * (den * factor) == found * den * factor) by (nonlinear_arith);
    let f = found * den;
    assert(2 * (f * factor) <= 2 * (num * factor) + den * factor) by (nonlinear_arith)
        requires
            2 * f <= 2 * num + den,
    ;
    assert(2 * (num * factor) <= 2 * (f * factor) + den * factor) by (nonlinear_arith)
        requires
            2 * num <= 2 * f + den,
    ;
    if 2 * (f * factor) == 2 * (num * factor) + den * factor {
        assert(2 * f == 2 * num + den) by (nonlinear_arith)
            requires
                2 * (f * factor) == 2 * (num * factor) + den * factor,
                factor > 0,
        ;
    }
    if 2 * (num * factor) == 2 * (f * factor) + den * factor {
        assert(2 * num == 2 * f + den) by (nonlinear_arith)
            requires
                2 * (num * factor) == 2 * (f * factor) + den * factor,
                factor > 0,
        ;
    }
    rounding::lemma_half_even_is(num * factor, den * factor, found);
}

/// Where no bits go, a rounding is the exact number.
proof fn lemma_round_exact(
    num: nat,
    den: nat,
    m: nat,
    shift: int,
    scale: nat,
    lift: nat,
    found: nat,
)
    requires
        brackets(num, den, m, shift, false),
        shift == scale + lift,
        found == m * pow2(lift),
    ensures
        rounding::half_even(num, den * pow2(scale)) == found,
{
    let p = pow2(scale);
    let step = den * p;
    lemma_pow2_pos(scale);
    lemma_mul_strictly_positive(den as int, p as int);
    lemma_pow2_adds(lift, scale);
    assert(num * raise(-shift) == num) by {
        rounding::lemma_pow2_52_53();
        assert(num * 1 == num);
    }
    assert(num == found * step) by (nonlinear_arith)
        requires
            num == m * (den * pow2(shift as nat)),
            pow2(shift as nat) == pow2(lift) * p,
            found == m * pow2(lift),
            step == den * p,
    ;
    rounding::lemma_half_even_is(num, step, found);
}

/// The magnitude that a bracketed number rounds to.
pub(crate) fn round_bracket(
    m: u128,
    shift: i32,
    inexact: bool,
    Ghost(num): Ghost<nat>,
    Ghost(den): Ghost<nat>,
) -> (magnitude: u64)
    requires
        brackets(num, den, m as nat, shift as int, inexact),
        m < 0x8000_0000_0000_0000_0000_0000_0000_0000,
        -8000 < shift < 8000,
        inexact ==> m >= 0x0080_0000_0000_0000,
    ensures
        magnitude == rounding::nearest(num, den),
        magnitude <= rounding::INFINITE,
{
    if m == 0 {
        proof {
            lemma_raise(-shift);
            assert(m * (den * raise(shift as int)) == 0) by (nonlinear_arith)
                requires
                    m == 0,
            ;
            assert(num == 0) by (nonlinear_arith)
                requires
                    num * raise(-shift) == 0,
                    raise(-shift) > 0,
            ;
            rounding::lemma_nearest_exact(0, den);
            rounding::lemma_units_zero(0);
            assert(rounding::units(0) * den == 0) by (nonlinear_arith)
                requires
                    rounding::units(0) == 0,
            ;
        }
        return 0;
    }
    let length = bit_length(m);
    proof {
        assert(length <= 127) by {
            if length == 128 {
                lemma_one_shifted(127);
                assert(1u128 << 127u32 == 0x8000_0000_0000_0000_0000_0000_0000_0000)
                    by (bit_vector);
            }
        }
        rounding::lemma_pow2_52_53();
    }
    let top: i32 = length as i32 + shift;
    let scale: i32 = if top > 53 { top - 53 } else { 0 };
    let drop: i32 = scale - shift;
    proof {
        lemma_bracket_excess(
            num,
            den,
            m as nat,
            shift as int,
            inexact,
            length as nat,
            scale as nat,
        );
        rounding::lemma_rounded_significand(num, den);
    }
    if scale >= 2046 {
        return rounding::INFINITE;
    }
    let found: u64;
    if drop <= 0 {
        let lift: u32 = (-drop) as u32;
        proof {
            if inexact {
                lemma2_to64();
                lemma2_to64_rest();
                if length < 54 {
                    rounding::lemma_pow2_increases(length as nat, 53);
                }
            }
            let room: nat = (53 - length) as nat;
            lemma_pow2_adds(length as nat, room);
            rounding::lemma_pow2_increases(lift as nat, room);
            rounding::lemma_pow2_increases(room, 53);
            assert(m * pow2(lift as nat) < rounding::SIGNIFICANDS) by (nonlinear_arith)
                requires
                    m < pow2(length as nat),
                    pow2(lift as nat) <= pow2(room),
                    pow2(length as nat) * pow2(room) == rounding::SIGNIFICANDS,
                    pow2(room) > 0,
            ;
            lemma_round_exact(
                num,
                den,
                m as nat,
                shift as int,
                scale as nat,
                lift as nat,
                m as nat * pow2(lift as nat),
            );
        }
        found = (m * power(lift)) as u64;
    } else if drop >= 128 {
        proof {
            let p = pow2(drop as nat);
            lemma_one_shifted(127);
            assert(1u128 << 127u32 == 0x8000_0000_0000_0000_0000_0000_0000_0000) by (bit_vector);
            lemma_pow2_unfold(128);
            rounding::lemma_pow2_increases(128, drop as nat);
            lemma_basic_div(m as int, p as int);
            lemma_small_mod(m as nat, p);
            lemma_round_bracket(
                num,
                den,
                m as nat,
                shift as int,
                inexact,
                scale as nat,
                drop as nat,
                0,
            );
        }
        found = 0;
    } else {
        let p = power(drop as u32);
        let quotient = m / p;
        let rest = m % p;
        let half = p / 2;
        proof {
            lemma_pow2_unfold(drop as nat);
        }
        let up = rest > half || (rest == half && (inexact || quotient % 2 == 1));
        let ghost chosen: nat = if up {
            quotient as nat + 1
        } else {
            quotient as nat
        };
        proof {
            lemma_round_bracket(
                num,
                den,
                m as nat,
                shift as int,
                inexact,
                scale as nat,
                drop as nat,
                chosen,
            );
        }
        found = if up { (quotient + 1) as u64 } else { quotient as u64 };
    }
    let magnitude: u64 = scale as u64 * rounding::HIDDEN + found;
    magnitude
}

} // verus!
