//! IEEE 754 binary64 numbers, kept as their bit patterns and computed with integers.
//!
//! Each operation returns the exact result rounded once, to nearest with ties to even; see
//! `rounding`. Every NaN that an operation makes has the same pattern.

use crate::magnitude::{
    add_magnitudes, divide_magnitudes, integer_part, multiply_magnitudes, subtract_magnitudes,
};
use crate::rounding;
use vstd::arithmetic::div_mod::*;
use vstd::arithmetic::mul::*;
use vstd::arithmetic::power2::*;
use vstd::prelude::*;

verus! {

/// The sign bit.
pub const SIGN: u64 = 0x8000_0000_0000_0000;

/// The pattern of the NaN that operations return.
pub const NAN: u64 = 0x7ff8_0000_0000_0000;

/// The pattern of 1.
pub const ONE: u64 = 0x3ff0_0000_0000_0000;

/// A binary64 number.
#[derive(Clone, Copy)]
pub struct Binary64 {
    pub bits: u64,
}

/// The number 1 in units of 2^-1074.
pub open spec fn one() -> nat {
    pow2(1074)
}

/// The number with the given sign and magnitude.
pub open spec fn signed(negative: bool, magnitude: nat) -> Binary64 {
    Binary64 { bits: (if negative { SIGN + magnitude } else { magnitude as int }) as u64 }
}

/// Not a number.
pub open spec fn nan() -> Binary64 {
    Binary64 { bits: NAN }
}

impl Binary64 {
    pub open spec fn is_negative(self) -> bool {
        self.bits >= SIGN
    }

    /// The bit pattern without its sign.
    pub open spec fn magnitude(self) -> nat {
        (self.bits % SIGN) as nat
    }

    pub open spec fn is_nan(self) -> bool {
        self.magnitude() > rounding::INFINITE
    }

    pub open spec fn is_infinite(self) -> bool {
        self.magnitude() == rounding::INFINITE
    }

    /// Neither infinite nor NaN.
    pub open spec fn finite(self) -> bool {
        self.magnitude() < rounding::INFINITE
    }

    /// What the number is, in units of 2^-1074; infinities stand beyond all finite numbers.
    pub open spec fn value(self) -> int {
        if self.is_negative() {
            -(rounding::units(self.magnitude()) as int)
        } else {
            rounding::units(self.magnitude()) as int
        }
    }

    pub open spec fn opposite(self) -> Binary64 {
        signed(!self.is_negative(), self.magnitude())
    }

    /// `self + other`.
    pub open spec fn sum(self, other: Binary64) -> Binary64 {
        if self.is_nan() || other.is_nan() {
            nan()
        } else if self.is_infinite() && other.is_infinite() && self.is_negative()
            != other.is_negative() {
            nan()
        } else if self.is_infinite() {
            self
        } else if other.is_infinite() {
            other
        } else {
            let total = self.value() + other.value();
            if total == 0 {
                signed(self.is_negative() && other.is_negative(), 0)
            } else if total < 0 {
                signed(true, rounding::nearest((-total) as nat, 1))
            } else {
                signed(false, rounding::nearest(total as nat, 1))
            }
        }
    }

    /// `self - other`.
    pub open spec fn difference(self, other: Binary64) -> Binary64 {
        self.sum(other.opposite())
    }

    /// `self * other`.
    pub open spec fn product(self, other: Binary64) -> Binary64 {
        let negative = self.is_negative() != other.is_negative();
        if self.is_nan() || other.is_nan() {
            nan()
        } else if self.is_infinite() || other.is_infinite() {
            if self.magnitude() == 0 || other.magnitude() == 0 {
                nan()
            } else {
                signed(negative, rounding::INFINITE as nat)
            }
        } else {
            signed(
                negative,
                rounding::nearest(
                    rounding::units(self.magnitude()) * rounding::units(other.magnitude()),
                    one(),
                ),
            )
        }
    }

    /// `self / other`.
    pub open spec fn quotient(self, other: Binary64) -> Binary64 {
        let negative = self.is_negative() != other.is_negative();
        if self.is_nan() || other.is_nan() {
            nan()
        } else if self.is_infinite() {
            if other.is_infinite() {
                nan()
            } else {
                signed(negative, rounding::INFINITE as nat)
            }
        } else if other.is_infinite() {
            signed(negative, 0)
        } else if other.magnitude() == 0 {
            if self.magnitude() == 0 {
                nan()
            } else {
                signed(negative, rounding::INFINITE as nat)
            }
        } else {
            signed(
                negative,
                rounding::nearest(
                    rounding::units(self.magnitude()) * one(),
                    rounding::units(other.magnitude()),
                ),
            )
        }
    }

    /// `self < other`: false where either is NaN.
    pub open spec fn less(self, other: Binary64) -> bool {
        !self.is_nan() && !other.is_nan() && self.value() < other.value()
    }

    /// `self <= other`: false where either is NaN.
    pub open spec fn at_most(self, other: Binary64) -> bool {
        !self.is_nan() && !other.is_nan() && self.value() <= other.value()
    }

    /// The lesser of the two; where one is NaN, the other.
    pub open spec fn lesser(self, other: Binary64) -> Binary64 {
        if self.is_nan() {
            other
        } else if other.is_nan() || self.value() <= other.value() {
            self
        } else {
            other
        }
    }

    /// The largest integer that is at most the number, held to the range of `i64`; 0 for NaN.
    pub open spec fn floor(self) -> i64 {
        let whole = self.value() / (one() as int);
        if self.is_nan() {
            0
        } else if whole > i64::MAX {
            i64::MAX
        } else if whole < i64::MIN {
            i64::MIN
        } else {
            whole as i64
        }
    }

    /// The largest whole number that is at most the number, held to the range of `usize`: 0 below
    /// 1. 1 for NaN.
    pub open spec fn count(self) -> usize {
        let whole = self.value() / (one() as int);
        if self.is_nan() {
            1
        } else if whole < 0 {
            0
        } else if whole > usize::MAX {
            usize::MAX
        } else {
            whole as usize
        }
    }

    /// The number with the given bit pattern.
    pub fn from_bits(bits: u64) -> (number: Binary64)
        ensures
            number.bits == bits,
    {
        Binary64 { bits }
    }

    /// The number's bit pattern.
    pub fn to_bits(self) -> (bits: u64)
        ensures
            bits == self.bits,
    {
        self.bits
    }

    /// True where the number is neither infinite nor NaN.
    pub fn is_finite(self) -> (b: bool)
        ensures
            b == self.finite(),
    {
        self.bits % SIGN < rounding::INFINITE
    }

    pub(crate) fn has_sign(self) -> (b: bool)
        ensures
            b == self.is_negative(),
    {
        self.bits >= SIGN
    }

    pub(crate) fn without_sign(self) -> (magnitude: u64)
        ensures
            magnitude == self.magnitude(),
            magnitude < SIGN,
    {
        self.bits % SIGN
    }

    pub(crate) fn assemble(negative: bool, magnitude: u64) -> (number: Binary64)
        requires
            magnitude < SIGN,
        ensures
            number == signed(negative, magnitude as nat),
            number.is_negative() == negative,
            number.magnitude() == magnitude,
    {
        Binary64 { bits: if negative { SIGN + magnitude } else { magnitude } }
    }

    /// `self + other`.
    pub fn plus(self, other: Binary64) -> (result: Binary64)
        ensures
            result == self.sum(other),
    {
        let a = self.without_sign();
        let b = other.without_sign();
        if a > rounding::INFINITE || b > rounding::INFINITE {
            return Binary64 { bits: NAN };
        }
        if a == rounding::INFINITE {
            if b == rounding::INFINITE && self.has_sign() != other.has_sign() {
                return Binary64 { bits: NAN };
            }
            return self;
        }
        if b == rounding::INFINITE {
            return other;
        }
        proof {
            rounding::lemma_units_zero(a as nat);
            rounding::lemma_units_zero(b as nat);
        }
        if self.has_sign() == other.has_sign() {
            let magnitude = if a < b {
                add_magnitudes(b, a)
            } else {
                add_magnitudes(a, b)
            };
            proof {
                if self.value() + other.value() == 0 {
                    assert(a == 0 && b == 0);
                    rounding::lemma_nearest_exact(0, 1);
                }
            }
            Self::assemble(self.has_sign(), magnitude)
        } else if a == b {
            Self::assemble(false, 0)
        } else if a < b {
            proof {
                rounding::lemma_units_ordered(a as nat, b as nat);
            }
            Self::assemble(other.has_sign(), subtract_magnitudes(b, a))
        } else {
            proof {
                rounding::lemma_units_ordered(b as nat, a as nat);
            }
            Self::assemble(self.has_sign(), subtract_magnitudes(a, b))
        }
    }

    /// `self - other`.
    pub fn minus(self, other: Binary64) -> (result: Binary64)
        ensures
            result == self.difference(other),
    {
        self.plus(Self::assemble(!other.has_sign(), other.without_sign()))
    }

    /// `self * other`.
    pub fn times(self, other: Binary64) -> (result: Binary64)
        ensures
            result == self.product(other),
    {
        let a = self.without_sign();
        let b = other.without_sign();
        let negative = self.has_sign() != other.has_sign();
        if a > rounding::INFINITE || b > rounding::INFINITE {
            return Binary64 { bits: NAN };
        }
        if a == rounding::INFINITE || b == rounding::INFINITE {
            if a == 0 || b == 0 {
                return Binary64 { bits: NAN };
            }
            return Self::assemble(negative, rounding::INFINITE);
        }
        Self::assemble(negative, multiply_magnitudes(a, b))
    }

    /// `self / other`.
    pub fn over(self, other: Binary64) -> (result: Binary64)
        ensures
            result == self.quotient(other),
    {
        let a = self.without_sign();
        let b = other.without_sign();
        let negative = self.has_sign() != other.has_sign();
        if a > rounding::INFINITE || b > rounding::INFINITE {
            return Binary64 { bits: NAN };
        }
        if a == rounding::INFINITE {
            if b == rounding::INFINITE {
                return Binary64 { bits: NAN };
            }
            return Self::assemble(negative, rounding::INFINITE);
        }
        if b == rounding::INFINITE {
            return Self::assemble(negative, 0);
        }
        if b == 0 {
            if a == 0 {
                return Binary64 { bits: NAN };
            }
            return Self::assemble(negative, rounding::INFINITE);
        }
        Self::assemble(negative, divide_magnitudes(a, b))
    }

    /// An integer that orders as the number does.
    fn rank(self) -> (rank: i64)
        ensures
            rank == if self.is_negative() {
                -self.magnitude()
            } else {
                self.magnitude() as int
            },
    {
        let magnitude = self.without_sign() as i64;
        if self.has_sign() {
            -magnitude
        } else {
            magnitude
        }
    }

    /// `self < other`.
    pub fn is_less(self, other: Binary64) -> (b: bool)
        ensures
            b == self.less(other),
    {
        if self.without_sign() > rounding::INFINITE || other.without_sign() > rounding::INFINITE {
            return false;
        }
        proof {
            lemma_rank(self, other);
            lemma_rank(other, self);
        }
        self.rank() < other.rank()
    }

    /// `self <= other`.
    pub fn is_at_most(self, other: Binary64) -> (b: bool)
        ensures
            b == self.at_most(other),
    {
        if self.without_sign() > rounding::INFINITE || other.without_sign() > rounding::INFINITE {
            return false;
        }
        proof {
            lemma_rank(self, other);
            lemma_rank(other, self);
        }
        self.rank() <= other.rank()
    }

    /// The lesser of the two; where one is NaN, the other.
    pub fn min(self, other: Binary64) -> (result: Binary64)
        ensures
            result == self.lesser(other),
    {
        if self.without_sign() > rounding::INFINITE {
            other
        } else if other.without_sign() > rounding::INFINITE || self.is_at_most(other) {
            self
        } else {
            other
        }
    }

    /// The largest integer that is at most the number, held to the range of `i64`; 0 for NaN.
    pub fn to_floor(self) -> (whole: i64)
        ensures
            whole == self.floor(),
    {
        let magnitude = self.without_sign();
        if magnitude > rounding::INFINITE {
            return 0;
        }
        let (whole, rest) = integer_part(magnitude);
        let ghost u = rounding::units(magnitude as nat) as int;
        proof {
            lemma_pow2_pos(1074);
            lemma_fundamental_div_mod(u, one() as int);
            lemma_mod_bound(u, one() as int);
        }
        let limit: u128 = 0x8000_0000_0000_0000;
        if self.has_sign() {
            proof {
                lemma_negative_floor(u as nat, one());
            }
            if whole >= limit {
                return i64::MIN;
            }
            if rest {
                (-(whole as i128) - 1) as i64
            } else {
                (-(whole as i128)) as i64
            }
        } else {
            if whole >= limit {
                return i64::MAX;
            }
            whole as i64
        }
    }

    /// The largest whole number that is at most the number, held to the range of `usize`: 0 below
    /// 1. 1 for NaN.
    pub fn to_count(self) -> (whole: usize)
        ensures
            whole == self.count(),
    {
        let magnitude = self.without_sign();
        if magnitude > rounding::INFINITE {
            return 1;
        }
        let ghost u = rounding::units(magnitude as nat);
        proof {
            lemma_pow2_pos(1074);
        }
        if self.has_sign() {
            proof {
                lemma_negative_floor(u, one());
                lemma_div_pos_is_pos(u as int, one() as int);
            }
            return 0;
        }
        let (whole, _) = integer_part(magnitude);
        if whole > usize::MAX as u128 {
            usize::MAX
        } else {
            whole as usize
        }
    }
}

proof fn lemma_rank(a: Binary64, b: Binary64)
    requires
        !a.is_nan(),
        !b.is_nan(),
    ensures
        ({
            let x = if a.is_negative() { -a.magnitude() } else { a.magnitude() as int };
            let y = if b.is_negative() { -b.magnitude() } else { b.magnitude() as int };
            &&& x < y ==> a.value() < b.value()
            &&& x == y ==> a.value() == b.value()
        }),
{
    let m = a.magnitude();
    let n = b.magnitude();
    rounding::lemma_units_zero(m);
    rounding::lemma_units_zero(n);
    if m < n {
        rounding::lemma_units_ordered(m, n);
    }
    if n < m {
        rounding::lemma_units_ordered(n, m);
    }
}

proof fn lemma_negative_floor(u: nat, w: nat)
    requires
        w > 0,
    ensures
        (-(u as int)) / (w as int) == if u % w == 0 {
            -(u / w)
        } else {
            -(u / w) - 1
        },
{
    let x = u as int;
    let d = w as int;
    lemma_fundamental_div_mod(x, d);
    lemma_mod_bound(x, d);
    let q = x / d;
    let r = x % d;
    if r == 0 {
        assert(d * q == q * d) by (nonlinear_arith);
        assert((-q) * d == -(q * d)) by (nonlinear_arith);
        lemma_fundamental_div_mod_converse(-x, d, -q, 0);
    } else {
        assert((-q - 1) * d + (d - r) == -(d * q + r)) by (nonlinear_arith);
        lemma_fundamental_div_mod_converse(-x, d, -q - 1, d - r);
    }
}

} // verus!
