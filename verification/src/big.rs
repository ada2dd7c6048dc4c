//! Natural numbers of any size, in limbs of 32 bits with the least significant first.

use vstd::arithmetic::mul::*;
use vstd::arithmetic::power2::*;
use vstd::prelude::*;

verus! {

/// The weight of a limb.
pub open spec fn weight(index: nat) -> nat {
    pow2(32 * index)
}

/// The number that limbs spell.
pub open spec fn natural(limbs: Seq<u32>) -> nat
    decreases limbs.len(),
{
    if limbs.len() == 0 {
        0
    } else {
        natural(limbs.drop_last()) + limbs.last() as nat * weight((limbs.len() - 1) as nat)
    }
}

proof fn lemma_weight(index: nat)
    ensures
        weight(index + 1) == 0x1_0000_0000 * weight(index),
        weight(index) > 0,
        weight(0) == 1,
{
    lemma2_to64();
    lemma_pow2_adds(32, 32 * index);
    lemma_pow2_pos(32 * index);
}

/// One more limb of a prefix.
proof fn lemma_natural_step(limbs: Seq<u32>, index: int)
    requires
        0 <= index < limbs.len(),
    ensures
        natural(limbs.take(index + 1)) == natural(limbs.take(index)) + limbs[index] as nat
            * weight(index as nat),
{
    assert(limbs.take(index + 1).drop_last() =~= limbs.take(index));
}

/// A number is below the weight of the limb that follows it.
proof fn lemma_natural_bound(limbs: Seq<u32>)
    ensures
        natural(limbs) < weight(limbs.len()),
    decreases limbs.len(),
{
    lemma_weight(0);
    if limbs.len() > 0 {
        let n = (limbs.len() - 1) as nat;
        lemma_natural_bound(limbs.drop_last());
        lemma_weight(n);
        let top = limbs.last() as nat;
        assert(top * weight(n) + weight(n) <= 0x1_0000_0000 * weight(n)) by (nonlinear_arith)
            requires
                top + 1 <= 0x1_0000_0000,
        ;
    }
}

proof fn lemma_natural_push(limbs: Seq<u32>, limb: u32)
    ensures
        natural(limbs.push(limb)) == natural(limbs) + limb as nat * weight(limbs.len()),
{
    assert(limbs.push(limb).drop_last() =~= limbs);
}

/// Replaces the number by `factor` times it, plus `addend`.
pub(crate) fn multiply_add(limbs: &mut Vec<u32>, factor: u32, addend: u32)
    ensures
        natural(final(limbs)@) == natural(old(limbs)@) * factor + addend,
        final(limbs)@.len() >= old(limbs)@.len(),
{
    let ghost before = limbs@;
    let n = limbs.len();
    let mut carry: u32 = addend;
    let mut i: usize = 0;
    proof {
        lemma_weight(0);
        assert(natural(before.take(0)) == 0);
        lemma_mul_by_zero_is_zero(factor as int);
    }
    while i < n
        invariant
            i <= n,
            n == limbs.len(),
            n == before.len(),
            forall|j: int| i <= j < n ==> limbs@[j] == before[j],
            natural(limbs@.take(i as int)) + carry * weight(i as nat) == natural(
                before.take(i as int),
            ) * factor + addend,
        decreases n - i,
    {
        let limb = limbs[i];
        proof {
            assert(limb * factor <= 0xffff_ffff * 0xffff_ffff) by (nonlinear_arith)
                requires
                    0 <= limb <= 0xffff_ffff,
                    0 <= factor <= 0xffff_ffff,
            ;
        }
        let wide: u64 = limb as u64 * factor as u64 + carry as u64;
        let low: u32 = (wide % 0x1_0000_0000) as u32;
        let high: u32 = (wide / 0x1_0000_0000) as u32;
        let ghost prior = limbs@;
        limbs.set(i, low);
        proof {
            lemma_weight(i as nat);
            lemma_natural_step(before, i as int);
            lemma_natural_step(limbs@, i as int);
            assert(limbs@.take(i as int) =~= prior.take(i as int));
            let w = weight(i as nat);
            let x = natural(prior.take(i as int));
            let y = natural(before.take(i as int));
            assert(x + low * w + high * (0x1_0000_0000 * w) == (y + limb * w) * factor + addend)
                by (nonlinear_arith)
                requires
                    x + carry * w == y * factor + addend,
                    limb * factor + carry == high * 0x1_0000_0000 + low,
            ;
        }
        carry = high;
        i = i + 1;
    }
    proof {
        assert(limbs@.take(n as int) =~= limbs@);
        assert(before.take(n as int) =~= before);
        lemma_natural_push(limbs@, carry);
        lemma_mul_by_zero_is_zero(weight(n as nat) as int);
    }
    if carry > 0 {
        limbs.push(carry);
    }
}

/// Puts zero limbs on top, up to `length` limbs.
pub(crate) fn pad(limbs: &mut Vec<u32>, length: usize)
    ensures
        natural(final(limbs)@) == natural(old(limbs)@),
        final(limbs)@.len() == if old(limbs)@.len() < length {
            length as nat
        } else {
            old(limbs)@.len()
        },
{
    let ghost before = limbs@;
    while limbs.len() < length
        invariant
            natural(limbs@) == natural(before),
            before.len() <= limbs@.len(),
            limbs@.len() <= length || limbs@.len() == before.len(),
        decreases length - limbs.len(),
    {
        proof {
            lemma_natural_push(limbs@, 0);
            lemma_mul_by_zero_is_zero(weight(limbs@.len()) as int);
        }
        limbs.push(0);
    }
}

/// True where `a` is at least `b`.
pub(crate) fn is_at_least(a: &Vec<u32>, b: &Vec<u32>) -> (r: bool)
    requires
        a@.len() == b@.len(),
    ensures
        r == (natural(a@) >= natural(b@)),
{
    let mut i: usize = a.len();
    proof {
        assert(a@.take(i as int) =~= a@);
        assert(b@.take(i as int) =~= b@);
    }
    while i > 0
        invariant
            i <= a@.len(),
            a@.len() == b@.len(),
            natural(a@) - natural(a@.take(i as int)) == natural(b@) - natural(b@.take(i as int)),
        decreases i,
    {
        let x = a[i - 1];
        let y = b[i - 1];
        proof {
            let w = weight((i - 1) as nat);
            lemma_natural_step(a@, i - 1);
            lemma_natural_step(b@, i - 1);
            lemma_natural_bound(a@.take(i - 1));
            lemma_natural_bound(b@.take(i - 1));
            if x > y {
                assert(x * w >= y * w + w) by (nonlinear_arith)
                    requires
                        x >= y + 1,
                ;
            }
            if y > x {
                assert(y * w >= x * w + w) by (nonlinear_arith)
                    requires
                        y >= x + 1,
                ;
            }
        }
        if x != y {
            return x > y;
        }
        i = i - 1;
    }
    proof {
        assert(a@.take(0) =~= b@.take(0));
    }
    true
}

/// Takes `b` from `a`.
pub(crate) fn subtract(a: &mut Vec<u32>, b: &Vec<u32>)
    requires
        old(a)@.len() == b@.len(),
        natural(old(a)@) >= natural(b@),
    ensures
        final(a)@.len() == old(a)@.len(),
        natural(final(a)@) == natural(old(a)@) - natural(b@),
{
    let ghost before = a@;
    let n = a.len();
    let mut borrow: u64 = 0;
    let mut i: usize = 0;
    proof {
        lemma_weight(0);
        assert(natural(before.take(0)) == 0);
        assert(natural(b@.take(0)) == 0);
    }
    while i < n
        invariant
            i <= n,
            n == a@.len(),
            n == b@.len(),
            n == before.len(),
            borrow <= 1,
            forall|j: int| i <= j < n ==> a@[j] == before[j],
            natural(a@.take(i as int)) + natural(b@.take(i as int)) == natural(
                before.take(i as int),
            ) + borrow * weight(i as nat),
        decreases n - i,
    {
        let x = a[i] as u64;
        let y = b[i] as u64;
        let wide: u64 = 0x1_0000_0000 + x - y - borrow;
        let low: u32 = (wide % 0x1_0000_0000) as u32;
        let next: u64 = if wide < 0x1_0000_0000 { 1 } else { 0 };
        let ghost prior = a@;
        a.set(i, low);
        proof {
            lemma_weight(i as nat);
            lemma_natural_step(before, i as int);
            lemma_natural_step(b@, i as int);
            lemma_natural_step(a@, i as int);
            assert(a@.take(i as int) =~= prior.take(i as int));
            let w = weight(i as nat);
            assert(low + y + borrow == x + next * 0x1_0000_0000);
            assert(low * w + y * w + borrow * w == x * w + next * (0x1_0000_0000 * w))
                by (nonlinear_arith)
                requires
                    low + y + borrow == x + next * 0x1_0000_0000,
            ;
        }
        borrow = next;
        i = i + 1;
    }
    proof {
        assert(a@.take(n as int) =~= a@);
        assert(b@.take(n as int) =~= b@);
        assert(before.take(n as int) =~= before);
        lemma_natural_bound(a@);
        if borrow == 1 {
            assert(1 * weight(n as nat) == weight(n as nat));
            assert(false);
        }
        lemma_mul_by_zero_is_zero(weight(n as nat) as int);
    }
}

/// True where the number is zero.
pub(crate) fn is_zero(limbs: &Vec<u32>) -> (r: bool)
    ensures
        r == (natural(limbs@) == 0),
{
    let mut i: usize = 0;
    while i < limbs.len()
        invariant
            i <= limbs@.len(),
            natural(limbs@.take(i as int)) == 0,
        decreases limbs.len() - i,
    {
        proof {
            lemma_natural_step(limbs@, i as int);
            lemma_weight(i as nat);
            if limbs@[i as int] > 0 {
                lemma_mul_strictly_positive(limbs@[i as int] as int, weight(i as nat) as int);
                lemma_natural_prefix(limbs@, i + 1);
            } else {
                lemma_mul_by_zero_is_zero(weight(i as nat) as int);
            }
        }
        if limbs[i] > 0 {
            return false;
        }
        i = i + 1;
    }
    proof {
        assert(limbs@.take(i as int) =~= limbs@);
    }
    true
}

proof fn lemma_natural_prefix(limbs: Seq<u32>, index: int)
    requires
        0 <= index <= limbs.len(),
    ensures
        natural(limbs.take(index)) <= natural(limbs),
    decreases limbs.len() - index,
{
    if index < limbs.len() {
        lemma_natural_step(limbs, index);
        lemma_weight(index as nat);
        lemma_mul_nonnegative(limbs[index] as int, weight(index as nat) as int);
        lemma_natural_prefix(limbs, index + 1);
    } else {
        assert(limbs.take(index) =~= limbs);
    }
}

/// A number after one of its limbs has changed.
proof fn lemma_natural_update(limbs: Seq<u32>, index: int, limb: u32)
    requires
        0 <= index < limbs.len(),
    ensures
        natural(limbs.update(index, limb)) == natural(limbs) + (limb - limbs[index]) * weight(
            index as nat,
        ),
    decreases limbs.len(),
{
    let changed = limbs.update(index, limb);
    let n = (limbs.len() - 1) as nat;
    let w = weight(index as nat);
    assert((limb - limbs[index]) * w == limb * w - limbs[index] * w) by (nonlinear_arith);
    if index == n {
        assert(changed.drop_last() =~= limbs.drop_last());
    } else {
        lemma_natural_update(limbs.drop_last(), index, limb);
        assert(changed.drop_last() =~= limbs.drop_last().update(index, limb));
    }
}

/// Replaces the number by its quotient by `divisor`, and returns what is left.
pub(crate) fn divide(limbs: &mut Vec<u32>, divisor: u32) -> (rest: u32)
    requires
        divisor > 0,
    ensures
        natural(old(limbs)@) == natural(final(limbs)@) * divisor + rest,
        rest < divisor,
        final(limbs)@.len() == old(limbs)@.len(),
{
    let ghost before = limbs@;
    let mut rest: u32 = 0;
    let mut i: usize = limbs.len();
    proof {
        assert(before.take(i as int) =~= before);
        lemma_mul_by_zero_is_zero(divisor as int);
        lemma_mul_by_zero_is_zero(weight(i as nat) as int);
    }
    while i > 0
        invariant
            i <= limbs@.len(),
            limbs@.len() == before.len(),
            divisor > 0,
            rest < divisor,
            forall|j: int| 0 <= j < i ==> limbs@[j] == before[j],
            natural(before) - natural(before.take(i as int)) == (natural(limbs@) - natural(
                before.take(i as int),
            )) * divisor + rest * weight(i as nat),
        decreases i,
    {
        let limb = limbs[i - 1];
        let wide: u64 = rest as u64 * 0x1_0000_0000 + limb as u64;
        let quotient: u64 = wide / divisor as u64;
        let left: u64 = wide % divisor as u64;
        proof {
            vstd::arithmetic::div_mod::lemma_fundamental_div_mod(wide as int, divisor as int);
            assert(quotient < 0x1_0000_0000) by (nonlinear_arith)
                requires
                    wide == divisor * quotient + left,
                    wide < divisor * 0x1_0000_0000,
                    left >= 0,
                    divisor > 0,
            ;
            let j = i - 1;
            lemma_natural_step(before, j);
            lemma_natural_update(limbs@, j, quotient as u32);
            lemma_weight(j as nat);
            let w = weight(j as nat);
            let a = natural(limbs@);
            let t = natural(before.take(j));
            assert((a + (quotient - limb) * w - t) * divisor + left * w == (a - (t + limb * w))
                * divisor + rest * (0x1_0000_0000 * w) + limb * w) by (nonlinear_arith)
                requires
                    divisor * quotient + left == rest * 0x1_0000_0000 + limb,
            ;
        }
        limbs.set(i - 1, quotient as u32);
        rest = left as u32;
        i = i - 1;
    }
    proof {
        lemma_weight(0);
        assert(natural(before.take(0)) == 0);
        assert(rest * 1 == rest);
        assert((natural(limbs@) - 0) * divisor == natural(limbs@) * divisor);
    }
    rest
}

/// The number that a word is.
pub(crate) fn from_word(word: u64) -> (limbs: Vec<u32>)
    ensures
        natural(limbs@) == word,
{
    let mut limbs: Vec<u32> = Vec::new();
    multiply_add(&mut limbs, 1, (word / 0x1_0000_0000) as u32);
    multiply_add(&mut limbs, 0x1_0000, (word / 0x1_0000 % 0x1_0000) as u32);
    multiply_add(&mut limbs, 0x1_0000, (word % 0x1_0000) as u32);
    limbs
}

/// Multiplies by 2^n.
pub(crate) fn double(limbs: &mut Vec<u32>, n: u32)
    ensures
        natural(final(limbs)@) == natural(old(limbs)@) * pow2(n as nat),
{
    let ghost before = natural(limbs@);
    let mut i: u32 = 0;
    proof {
        lemma2_to64();
        assert(before * 1 == before);
    }
    while i < n
        invariant
            i <= n,
            natural(limbs@) == before * pow2(i as nat),
        decreases n - i,
    {
        proof {
            lemma_pow2_unfold((i + 1) as nat);
            let p = pow2(i as nat);
            assert(before * p * 2 == before * (2 * p)) by (nonlinear_arith);
        }
        multiply_add(limbs, 2, 0);
        i = i + 1;
    }
}

} // verus!
