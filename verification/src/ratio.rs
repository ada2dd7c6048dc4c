//! Rounding of fractions of big naturals.

use crate::big;
use crate::bracket;
use crate::rounding;
use vstd::arithmetic::mul::*;
use vstd::arithmetic::power2::*;
use vstd::prelude::*;

verus! {

/// Beyond this many doublings a fraction is out of the range of finite magnitudes.
const FAR: u32 = 5000;

/// `m + a / b`, halved `u` times and doubled `v` times, is `num / den`.
spec fn balanced(num: nat, den: nat, m: nat, a: nat, b: nat, u: nat, v: nat) -> bool {
    num * pow2(u) * b == (m * b + a) * pow2(v) * den
}

/// What is less than half a unit rounds to zero.
pub proof fn lemma_nearest_zero(num: nat, den: nat)
    requires
        2 * num < den,
    ensures
        rounding::nearest(num, den) == 0,
{
    rounding::lemma_pow2_52_53();
    vstd::arithmetic::div_mod::lemma_basic_div(num as int, den as int);
    vstd::arithmetic::div_mod::lemma_small_mod(num, den);
    assert(den * 1 == den);
}

/// What is at least 2^1024 rounds to infinity.
pub proof fn lemma_nearest_infinite(num: nat, den: nat)
    requires
        den > 0,
        pow2(2098) * den <= num,
    ensures
        rounding::nearest(num, den) == rounding::INFINITE,
{
    rounding::lemma_pow2_52_53();
    rounding::lemma_units(2046, rounding::HIDDEN as nat);
    lemma_pow2_adds(52, 2046);
    assert(rounding::units(rounding::INFINITE as nat) == pow2(2098));
    rounding::lemma_nearest_at_least(num, den, rounding::INFINITE as nat);
}

proof fn lemma_double_dividend(num: nat, den: nat, m: nat, a: nat, b: nat, u: nat, v: nat)
    requires
        balanced(num, den, m, a, b, u, v),
    ensures
        balanced(num, den, 2 * m, 2 * a, b, u + 1, v),
{
    lemma_pow2_unfold(u + 1);
    let p = pow2(u);
    let q = pow2(v);
    assert(num * (2 * p) * b == (2 * m * b + 2 * a) * q * den) by (nonlinear_arith)
        requires
            num * p * b == (m * b + a) * q * den,
    ;
}

proof fn lemma_double_divisor(num: nat, den: nat, a: nat, b: nat, u: nat, v: nat)
    requires
        balanced(num, den, 0, a, b, u, v),
    ensures
        balanced(num, den, 0, a, 2 * b, u, v + 1),
{
    lemma_pow2_unfold(v + 1);
    let p = pow2(u);
    let q = pow2(v);
    lemma_mul_by_zero_is_zero(b as int);
    lemma_mul_by_zero_is_zero(2 * b as int);
    assert(num * p * (2 * b) == a * (2 * q) * den) by (nonlinear_arith)
        requires
            num * p * b == a * q * den,
    ;
}

/// The long division of a fraction brackets it.
proof fn lemma_brackets_division(
    num: nat,
    den: nat,
    m: nat,
    a: nat,
    b: nat,
    u: nat,
    v: nat,
    shift: int,
)
    requires
        den > 0,
        a < b,
        balanced(num, den, m, a, b, u, v),
        shift == v - u + 1074,
    ensures
        bracket::brackets(num * pow2(1074), den, m, shift, a > 0),
{
    let left = num * pow2(1074) * bracket::raise(-shift);
    let step = den * bracket::raise(shift);
    let p = pow2(u);
    let q = pow2(v);
    let total = m * b + a;
    rounding::lemma_pow2_52_53();
    lemma_pow2_pos(u);
    lemma_pow2_pos(v);
    bracket::lemma_raise(shift);
    lemma_mul_strictly_positive(den as int, bracket::raise(shift) as int);
    if shift >= 0 {
        let s = pow2(shift as nat);
        let w = pow2(1074);
        lemma_pow2_adds(1074, v);
        lemma_pow2_adds(shift as nat, u);
        assert(num * w * 1 == num * w);
        assert(left * b * p == total * step * p) by (nonlinear_arith)
            requires
                left == num * w,
                step == den * s,
                num * p * b == total * q * den,
                w * q == s * p,
        ;
        assert(left * b == total * step) by (nonlinear_arith)
            requires
                left * b * p == total * step * p,
                p > 0,
        ;
    } else {
        let s = pow2((-shift) as nat);
        let w = pow2(1074);
        lemma_pow2_adds(1074, (-shift) as nat);
        lemma_pow2_adds(1074 + (-shift) as nat, v);
        assert(den * 1 == den);
        assert(left * b * q == total * step * q) by (nonlinear_arith)
            requires
                left == num * w * s,
                step == den,
                num * p * b == total * q * den,
                w * s * q == p,
        ;
        assert(left * b == total * step) by (nonlinear_arith)
            requires
                left * b * q == total * step * q,
                q > 0,
        ;
    }
    assert(left * b == (m * step) * b + a * step) by (nonlinear_arith)
        requires
            left * b == total * step,
            total == m * b + a,
    ;
    assert(m * step <= left) by (nonlinear_arith)
        requires
            left * b == (m * step) * b + a * step,
            b > 0,
    ;
    assert(left < m * step + step) by (nonlinear_arith)
        requires
            left * b == (m * step) * b + a * step,
            a < b,
            step > 0,
    ;
    assert((m + 1) * step == m * step + step) by (nonlinear_arith);
    if a > 0 {
        lemma_mul_strictly_positive(a as int, step as int);
        assert(left != m * step) by (nonlinear_arith)
            requires
                left * b == (m * step) * b + a * step,
                a * step > 0,
        ;
    } else {
        lemma_mul_by_zero_is_zero(step as int);
        assert(left == m * step) by (nonlinear_arith)
            requires
                left * b == (m * step) * b,
                b > 0,
        ;
    }
}

/// The magnitude that a positive fraction rounds to.
pub(crate) fn round_ratio(numerator: Vec<u32>, denominator: Vec<u32>) -> (magnitude: u64)
    requires
        big::natural(numerator@) > 0,
        big::natural(denominator@) > 0,
    ensures
        magnitude == rounding::nearest(
            big::natural(numerator@) * pow2(1074),
            big::natural(denominator@),
        ),
        magnitude <= rounding::INFINITE,
{
    let ghost num = big::natural(numerator@);
    let ghost den = big::natural(denominator@);
    let mut a = numerator;
    let mut b = denominator;
    let mut u: u32 = 0;
    let mut v: u32 = 0;
    big::pad(&mut a, b.len());
    big::pad(&mut b, a.len());
    proof {
        rounding::lemma_pow2_52_53();
        assert(num * 1 * den == (0 * den + num) * 1 * den) by (nonlinear_arith);
    }
    while !big::is_at_least(&a, &b)
        invariant
            a@.len() == b@.len(),
            num == big::natural(numerator@),
            den == big::natural(denominator@),
            num > 0,
            den > 0,
            big::natural(b@) == den,
            u > 0 ==> big::natural(a@) < 2 * big::natural(b@),
            big::natural(a@) == num * pow2(u as nat),
            balanced(num, den, 0, big::natural(a@), big::natural(b@), u as nat, 0),
            v == 0,
            u <= FAR,
        decreases FAR - u,
    {
        if u == FAR {
            proof {
                let p = pow2(FAR as nat);
                let w = pow2(1074);
                lemma_pow2_adds(1, 1074);
                rounding::lemma_pow2_52_53();
                rounding::lemma_pow2_increases(1075, FAR as nat);
                assert(2 * (num * w) < den) by (nonlinear_arith)
                    requires
                        num * p < den,
                        2 * w <= p,
                ;
                lemma_nearest_zero(num * w, den);
            }
            return 0;
        }
        proof {
            lemma_double_dividend(
                num,
                den,
                0,
                big::natural(a@),
                big::natural(b@),
                u as nat,
                0,
            );
            lemma_pow2_unfold((u + 1) as nat);
            assert(num * pow2(u as nat) * 2 == num * (2 * pow2(u as nat))) by (nonlinear_arith);
        }
        big::multiply_add(&mut a, 2, 0);
        big::pad(&mut b, a.len());
        u = u + 1;
    }
    proof {
        rounding::lemma_pow2_52_53();
        assert(den * 1 == den);
    }
    while big::is_at_least(&a, &b)
        invariant
            a@.len() == b@.len(),
            num == big::natural(numerator@),
            den == big::natural(denominator@),
            num > 0,
            den > 0,
            u <= FAR,
            v <= FAR,
            big::natural(a@) == num * pow2(u as nat),
            big::natural(b@) == den * pow2(v as nat),
            balanced(num, den, 0, big::natural(a@), big::natural(b@), u as nat, v as nat),
            2 * big::natural(a@) >= big::natural(b@),
            u > 0 && v == 0 ==> big::natural(a@) < 2 * big::natural(b@),
            v == 0 ==> big::natural(a@) >= big::natural(b@),
            v > 0 ==> u == 0 || big::natural(a@) < big::natural(b@),
        decreases FAR - v,
    {
        if v == FAR {
            proof {
                let p = pow2(FAR as nat);
                let w = pow2(1074);
                rounding::lemma_pow2_increases(1024, FAR as nat);
                lemma_pow2_adds(1024, 1074);
                rounding::lemma_pow2_52_53();
                assert(num * 1 == num);
                assert(pow2(2098) * den <= num * w) by (nonlinear_arith)
                    requires
                        num >= den * p,
                        p >= pow2(1024),
                        pow2(2098) == pow2(1024) * w,
                ;
                lemma_nearest_infinite(num * w, den);
            }
            return rounding::INFINITE;
        }
        proof {
            lemma_double_divisor(
                num,
                den,
                big::natural(a@),
                big::natural(b@),
                u as nat,
                v as nat,
            );
            lemma_pow2_unfold((v + 1) as nat);
            assert(den * pow2(v as nat) * 2 == den * (2 * pow2(v as nat))) by (nonlinear_arith);
        }
        big::multiply_add(&mut b, 2, 0);
        big::pad(&mut a, b.len());
        big::pad(&mut b, a.len());
        v = v + 1;
    }
    let mut m: u128 = 0;
    let mut i: u32 = 0;
    let ghost first = u;
    proof {
        rounding::lemma_pow2_52_53();
    }
    while i < 64
        invariant
            i <= 64,
            first <= FAR,
            v <= FAR,
            u == first + i,
            a@.len() == b@.len(),
            num > 0,
            den > 0,
            big::natural(a@) < big::natural(b@),
            balanced(num, den, m as nat, big::natural(a@), big::natural(b@), u as nat, v as nat),
            i == 0 ==> m == 0 && 2 * big::natural(a@) >= big::natural(b@),
            i > 0 ==> pow2((i - 1) as nat) <= m,
            m < pow2(i as nat),
        decreases 64 - i,
    {
        proof {
            lemma_double_dividend(
                num,
                den,
                m as nat,
                big::natural(a@),
                big::natural(b@),
                u as nat,
                v as nat,
            );
            lemma2_to64();
            lemma2_to64_rest();
            rounding::lemma_pow2_increases(i as nat, 64);
            lemma_pow2_unfold((i + 1) as nat);
            if i > 0 {
                lemma_pow2_unfold(i as nat);
            }
        }
        big::multiply_add(&mut a, 2, 0);
        big::pad(&mut b, a.len());
        m = m * 2;
        u = u + 1;
        if big::is_at_least(&a, &b) {
            proof {
                let x = big::natural(a@);
                let y = big::natural(b@);
                assert((m + 1) * y + (x - y) == m * y + x) by (nonlinear_arith);
            }
            big::subtract(&mut a, &b);
            m = m + 1;
        }
        i = i + 1;
    }
    let shift: i32 = v as i32 - u as i32 + 1074;
    proof {
        lemma_brackets_division(
            num,
            den,
            m as nat,
            big::natural(a@),
            big::natural(b@),
            u as nat,
            v as nat,
            shift as int,
        );
        lemma2_to64();
        lemma2_to64_rest();
    }
    let inexact = !big::is_zero(&a);
    bracket::round_bracket(m, shift, inexact, Ghost(num * pow2(1074)), Ghost(den))
}

} // verus!
