//! Reading binary64 numbers from decimal text.

use crate::big;
use crate::binary64;
use crate::binary64::Binary64;
use crate::ratio;
use crate::rounding;
use crate::text::characters;
use vstd::arithmetic::mul::*;
use vstd::arithmetic::power2::*;
use vstd::prelude::*;

verus! {

pub open spec fn is_digit(c: char) -> bool {
    '0' <= c <= '9'
}

/// What a digit counts.
pub open spec fn digit(c: char) -> nat {
    (c as int - '0' as int) as nat
}

/// 10^n.
pub open spec fn ten(n: nat) -> nat
    decreases n,
{
    if n == 0 {
        1
    } else {
        10 * ten((n - 1) as nat)
    }
}

/// Where the run of digits that starts at `from` ends.
pub open spec fn digits_end(s: Seq<char>, from: int) -> int
    decreases s.len() - from,
{
    if 0 <= from < s.len() && is_digit(s[from]) {
        digits_end(s, from + 1)
    } else {
        from
    }
}

/// The number that the digits `from..to` spell.
pub open spec fn spelled(s: Seq<char>, from: int, to: int) -> nat
    decreases to - from,
{
    if to <= from {
        0
    } else {
        10 * spelled(s, from, to - 1) + digit(s[to - 1])
    }
}

/// The magnitude nearest to `digits` times 10^power.
pub open spec fn scaled(digits: nat, power: int) -> nat {
    if power >= 0 {
        rounding::nearest(digits * ten(power as nat) * pow2(1074), 1)
    } else {
        rounding::nearest(digits * pow2(1074), ten((-power) as nat))
    }
}

/// The exponent that is written from `at` to the end: nothing, which is 0, or an `e`, a sign if
/// any, and digits.
pub open spec fn exponent_from(s: Seq<char>, at: int) -> Option<int> {
    if at == s.len() {
        Some(0int)
    } else if s[at] != 'e' && s[at] != 'E' {
        None
    } else {
        let signed = at + 1 < s.len() && (s[at + 1] == '+' || s[at + 1] == '-');
        let from = if signed { at + 2 } else { at + 1 };
        let to = digits_end(s, from);
        if to == from || to != s.len() {
            None
        } else if signed && s[at + 1] == '-' {
            Some(-(spelled(s, from, to) as int))
        } else {
            Some(spelled(s, from, to) as int)
        }
    }
}

/// The magnitude of the decimal number that is written from `start` to the end: digits with a
/// point among, before or behind them if any, and an exponent if any.
pub open spec fn decimal_from(s: Seq<char>, start: int) -> Option<nat> {
    let whole = digits_end(s, start);
    let pointed = whole < s.len() && s[whole] == '.';
    let from = if pointed { whole + 1 } else { whole };
    let to = if pointed { digits_end(s, from) } else { whole };
    let places = (to - from) as nat;
    if whole == start && places == 0 {
        None
    } else {
        match exponent_from(s, to) {
            None => None,
            Some(exponent) => Some(
                scaled(
                    spelled(s, start, whole) * ten(places) + spelled(s, from, to),
                    exponent - places,
                ),
            ),
        }
    }
}

/// True where `s` from `start` on is `word`, in letters of either case. `word` is in lower case.
pub open spec fn is_word(s: Seq<char>, start: int, word: Seq<char>) -> bool {
    &&& s.len() - start == word.len()
    &&& forall|i: int|
        0 <= i < word.len() ==> s[start + i] == #[trigger] word[i] || s[start + i] as int + 32
            == word[i] as int
}

/// The number that a text stands for: a sign if any, then `inf`, `infinity`, `nan` or a decimal
/// number, which is rounded once.
pub open spec fn reading(s: Seq<char>) -> Option<Binary64> {
    let negative = s.len() > 0 && s[0] == '-';
    let start = if s.len() > 0 && (s[0] == '-' || s[0] == '+') { 1int } else { 0int };
    if is_word(s, start, "inf"@) || is_word(s, start, "infinity"@) {
        Some(binary64::signed(negative, rounding::INFINITE as nat))
    } else if is_word(s, start, "nan"@) {
        Some(binary64::nan())
    } else {
        match decimal_from(s, start) {
            None => None,
            Some(magnitude) => Some(binary64::signed(negative, magnitude)),
        }
    }
}

/// Digits spell a number below the next power of ten.
proof fn lemma_spelled_bound(s: Seq<char>, from: int, to: int)
    requires
        0 <= from <= to <= s.len(),
        forall|i: int| from <= i < to ==> is_digit(#[trigger] s[i]),
    ensures
        spelled(s, from, to) < ten((to - from) as nat),
    decreases to - from,
{
    if from < to {
        lemma_spelled_bound(s, from, to - 1);
        assert(is_digit(s[to - 1]));
    }
}

pub proof fn lemma_ten_adds(a: nat, b: nat)
    ensures
        ten(a + b) == ten(a) * ten(b),
        ten(a) > 0,
    decreases a,
{
    if a == 0 {
        assert(1 * ten(b) == ten(b));
    } else {
        lemma_ten_adds((a - 1) as nat, b);
        let t = ten((a - 1) as nat);
        assert(10 * (t * ten(b)) == (10 * t) * ten(b)) by (nonlinear_arith);
        assert(ten(a + b) == 10 * ten((a - 1 + b) as nat));
    }
}

/// 8^n <= 10^n.
pub proof fn lemma_ten_exceeds(n: nat)
    ensures
        pow2(3 * n) <= ten(n),
    decreases n,
{
    rounding::lemma_pow2_52_53();
    if n > 0 {
        lemma_ten_exceeds((n - 1) as nat);
        lemma2_to64();
        lemma_pow2_adds(3, 3 * (n - 1) as nat);
        assert(3 + 3 * (n - 1) as nat == 3 * n);
    }
}

/// Powers of ten from here on are out of the range of finite magnitudes.
const FAR: i128 = 400;

/// Exponents are counted up to here.
pub const MOST: u128 = 0x10_0000_0000_0000_0000_0000_0000;

proof fn lemma_scaled_large(digits: nat, power: int)
    requires
        digits > 0,
        power >= FAR,
    ensures
        scaled(digits, power) == rounding::INFINITE,
{
    let t = ten(power as nat);
    let w = pow2(1074);
    lemma_ten_exceeds(power as nat);
    rounding::lemma_pow2_increases(1024, 3 * power as nat);
    lemma_pow2_adds(1024, 1074);
    let num = digits * t * w;
    assert(num >= pow2(1024) * w) by (nonlinear_arith)
        requires
            num == digits * t * w,
            digits >= 1,
            t >= pow2(1024),
    ;
    assert(pow2(2098) * 1 == pow2(2098));
    ratio::lemma_nearest_infinite(num, 1);
}

proof fn lemma_scaled_small(digits: nat, length: nat, power: int)
    requires
        digits < ten(length),
        -power >= length + FAR,
    ensures
        scaled(digits, power) == 0,
{
    let places = (-power) as nat;
    let rest = (places - length) as nat;
    let w = pow2(1074);
    lemma_ten_adds(length, rest);
    lemma_ten_exceeds(rest);
    rounding::lemma_pow2_increases(1075, 3 * rest);
    rounding::lemma_pow2_52_53();
    lemma_pow2_adds(1, 1074);
    lemma_pow2_pos(1074);
    let t = ten(length);
    assert(2 * (digits * w) < t * ten(rest)) by (nonlinear_arith)
        requires
            digits < t,
            2 * w <= ten(rest),
            w > 0,
    ;
    ratio::lemma_nearest_zero(digits * w, ten(places));
}

fn find_digits_end(s: &Vec<char>, from: usize) -> (to: usize)
    requires
        from <= s@.len(),
    ensures
        to == digits_end(s@, from as int),
        from <= to <= s@.len(),
        forall|i: int| from <= i < to ==> is_digit(#[trigger] s@[i]),
{
    let mut to: usize = from;
    while to < s.len() && '0' <= s[to] && s[to] <= '9'
        invariant
            from <= to <= s@.len(),
            digits_end(s@, to as int) == digits_end(s@, from as int),
            forall|i: int| from <= i < to ==> is_digit(#[trigger] s@[i]),
        decreases s.len() - to,
    {
        to = to + 1;
    }
    to
}

/// Puts the digits `from..to` behind those that `limbs` holds.
fn append_digits(limbs: &mut Vec<u32>, s: &Vec<char>, from: usize, to: usize)
    requires
        from <= to <= s@.len(),
        forall|i: int| from <= i < to ==> is_digit(#[trigger] s@[i]),
    ensures
        big::natural(final(limbs)@) == big::natural(old(limbs)@) * ten((to - from) as nat)
            + spelled(s@, from as int, to as int),
{
    let ghost before = big::natural(limbs@);
    assert(before * 1 == before);
    for i in from..to
        invariant
            from <= to <= s@.len(),
            forall|j: int| from <= j < to ==> is_digit(#[trigger] s@[j]),
            big::natural(limbs@) == before * ten((i - from) as nat) + spelled(
                s@,
                from as int,
                i as int,
            ),
    {
        proof {
            assert(is_digit(s@[i as int]));
            let t = ten((i - from) as nat);
            assert((before * t) * 10 == before * (10 * t)) by (nonlinear_arith);
            assert(ten((i + 1 - from) as nat) == 10 * t);
        }
        big::multiply_add(limbs, 10, s[i] as u32 - '0' as u32);
    }
}

/// The digits `from..to` as a number, as far as it is below `MOST`.
fn count_digits(s: &Vec<char>, from: usize, to: usize) -> (n: u128)
    requires
        from <= to <= s@.len(),
        forall|i: int| from <= i < to ==> is_digit(#[trigger] s@[i]),
    ensures
        n == if spelled(s@, from as int, to as int) < MOST {
            spelled(s@, from as int, to as int)
        } else {
            MOST as nat
        },
{
    let mut n: u128 = 0;
    for i in from..to
        invariant
            from <= to <= s@.len(),
            forall|j: int| from <= j < to ==> is_digit(#[trigger] s@[j]),
            n == if spelled(s@, from as int, i as int) < MOST {
                spelled(s@, from as int, i as int)
            } else {
                MOST as nat
            },
    {
        proof {
            assert(is_digit(s@[i as int]));
        }
        let next: u128 = n * 10 + (s[i] as u32 - '0' as u32) as u128;
        n = if next < MOST { next } else { MOST };
    }
    n
}

/// Multiplies by 10^n.
pub(crate) fn raise_by_ten(limbs: &mut Vec<u32>, n: u128)
    ensures
        big::natural(final(limbs)@) == big::natural(old(limbs)@) * ten(n as nat),
{
    let ghost before = big::natural(limbs@);
    assert(before * 1 == before);
    let mut i: u128 = 0;
    while i < n
        invariant
            i <= n,
            big::natural(limbs@) == before * ten(i as nat),
        decreases n - i,
    {
        proof {
            let t = ten(i as nat);
            assert((before * t) * 10 == before * (10 * t)) by (nonlinear_arith);
            assert(ten((i + 1) as nat) == 10 * t);
        }
        big::multiply_add(limbs, 10, 0);
        i = i + 1;
    }
}

proof fn lemma_natural_single(limb: u32)
    ensures
        big::natural(seq![limb]) == limb,
{
    rounding::lemma_pow2_52_53();
    assert(seq![limb].drop_last() =~= Seq::<u32>::empty());
    assert(limb * 1 == limb);
    assert(big::natural(Seq::<u32>::empty()) == 0);
}

/// The sign and the size, as far as it is below `MOST`, of the exponent that is written from `at`
/// to the end.
fn read_exponent(s: &Vec<char>, at: usize) -> (parts: Option<(bool, u128)>)
    requires
        at <= s@.len(),
    ensures
        match parts {
            None => exponent_from(s@, at as int) is None,
            Some((negative, size)) => {
                &&& exponent_from(s@, at as int) is Some
                &&& holds_exponent(negative, size, exponent_from(s@, at as int)->Some_0)
            },
        },
{
    if at == s.len() {
        return Some((false, 0));
    }
    if s[at] != 'e' && s[at] != 'E' {
        return None;
    }
    let mut negative = false;
    let mut first: usize = at + 1;
    if first < s.len() && (s[first] == '+' || s[first] == '-') {
        negative = s[first] == '-';
        first = first + 1;
    }
    let last = find_digits_end(s, first);
    if last == first || last != s.len() {
        return None;
    }
    Some((negative, count_digits(s, first, last)))
}

/// `negative` and `size` are the sign and the size of `exponent`, as far as it is below `MOST`.
pub open spec fn holds_exponent(negative: bool, size: u128, exponent: int) -> bool {
    let exact = if negative { -exponent } else { exponent };
    &&& exact >= 0
    &&& size == if exact < MOST { exact } else { MOST as int }
}

/// The magnitude nearest to `digits` times 10^(exponent - places).
pub(crate) fn scale_digits(
    digits: Vec<u32>,
    length: u128,
    places: u128,
    negative: bool,
    size: u128,
    Ghost(exponent): Ghost<int>,
) -> (magnitude: u64)
    requires
        big::natural(digits@) < ten(length as nat),
        places <= length < 0x2_0000_0000_0000_0000,
        holds_exponent(negative, size, exponent),
    ensures
        magnitude == scaled(big::natural(digits@), exponent - places),
        magnitude <= rounding::INFINITE,
{
    let ghost n = big::natural(digits@);
    let ghost power = exponent - places;
    if big::is_zero(&digits) {
        proof {
            lemma_mul_by_zero_is_zero(pow2(1074) as int);
            if power >= 0 {
                lemma_mul_by_zero_is_zero(ten(power as nat) as int);
                ratio::lemma_nearest_zero(0, 1);
            } else {
                lemma_ten_adds((-power) as nat, 0);
                ratio::lemma_nearest_zero(0, ten((-power) as nat));
            }
        }
        return 0;
    }
    let tens: i128 = if negative {
        -(size as i128) - places as i128
    } else {
        size as i128 - places as i128
    };
    if tens >= FAR {
        proof {
            lemma_scaled_large(n, power);
        }
        return rounding::INFINITE;
    }
    if -tens >= length as i128 + FAR {
        proof {
            lemma_scaled_small(n, length as nat, power);
        }
        return 0;
    }
    assert(tens == power);
    let mut one: Vec<u32> = Vec::new();
    one.push(1);
    proof {
        lemma_natural_single(1);
        assert(one@ =~= seq![1u32]);
    }
    if tens >= 0 {
        let mut raised = digits;
        raise_by_ten(&mut raised, tens as u128);
        proof {
            lemma_ten_adds(tens as nat, 0);
            lemma_mul_strictly_positive(n as int, ten(tens as nat) as int);
        }
        ratio::round_ratio(raised, one)
    } else {
        let mut raised = one;
        raise_by_ten(&mut raised, (-tens) as u128);
        proof {
            lemma_ten_adds((-tens) as nat, 0);
            assert(1 * ten((-tens) as nat) == ten((-tens) as nat));
        }
        ratio::round_ratio(digits, raised)
    }
}

/// The digits before and behind a point spell a number below the next power of ten.
proof fn lemma_places_bound(s: Seq<char>, start: int, whole: int, from: int, to: int)
    requires
        0 <= start <= whole <= s.len(),
        0 <= from <= to <= s.len(),
        forall|i: int| start <= i < whole ==> is_digit(#[trigger] s[i]),
        forall|i: int| from <= i < to ==> is_digit(#[trigger] s[i]),
    ensures
        spelled(s, start, whole) * ten((to - from) as nat) + spelled(s, from, to) < ten(
            (whole - start + to - from) as nat,
        ),
{
    lemma_spelled_bound(s, start, whole);
    lemma_spelled_bound(s, from, to);
    lemma_ten_adds((whole - start) as nat, (to - from) as nat);
    let x = spelled(s, start, whole);
    let y = spelled(s, from, to);
    let t = ten((to - from) as nat);
    assert(x * t + y < ten((whole - start) as nat) * t) by (nonlinear_arith)
        requires
            x + 1 <= ten((whole - start) as nat),
            y < t,
    ;
}

/// The magnitude of the decimal number that is written from `start` to the end.
fn read_decimal(s: &Vec<char>, start: usize) -> (magnitude: Option<u64>)
    requires
        start <= s@.len(),
    ensures
        match magnitude {
            None => decimal_from(s@, start as int) is None,
            Some(m) => decimal_from(s@, start as int) == Some(m as nat) && m
                <= rounding::INFINITE,
        },
{
    let whole = find_digits_end(s, start);
    let mut from: usize = whole;
    let mut to: usize = whole;
    if whole < s.len() && s[whole] == '.' {
        from = whole + 1;
        to = find_digits_end(s, from);
    }
    if whole == start && to == from {
        return None;
    }
    match read_exponent(s, to) {
        None => None,
        Some((negative, size)) => {
            let ghost exponent = exponent_from(s@, to as int)->Some_0;
            let places: u128 = (to - from) as u128;
            let length: u128 = (whole - start) as u128 + places;
            let mut digits: Vec<u32> = Vec::new();
            append_digits(&mut digits, s, start, whole);
            append_digits(&mut digits, s, from, to);
            proof {
                assert(big::natural(Seq::<u32>::empty()) == 0);
                lemma_mul_by_zero_is_zero(ten((whole - start) as nat) as int);
                lemma_places_bound(s@, start as int, whole as int, from as int, to as int);
            }
            Some(scale_digits(digits, length, places, negative, size, Ghost(exponent)))
        },
    }
}

/// True where `c` is the lower case letter `letter` in either case.
fn matches_letter(c: char, letter: char) -> (b: bool)
    requires
        'a' <= letter <= 'z',
    ensures
        b == (c == letter || c as int + 32 == letter as int),
{
    c == letter || c as u32 == letter as u32 - 32
}

/// True where `s` from `start` on is `word`, in letters of either case.
fn matches_word(s: &Vec<char>, start: usize, word: &str) -> (b: bool)
    requires
        start <= s@.len(),
        forall|i: int| 0 <= i < word@.len() ==> 'a' <= #[trigger] word@[i] <= 'z',
    ensures
        b == is_word(s@, start as int, word@),
{
    let letters = characters(word);
    let n = s.len();
    if n - start != letters.len() {
        return false;
    }
    let mut i: usize = 0;
    while i < letters.len()
        invariant
            i <= letters@.len(),
            start <= n,
            n == s@.len(),
            s@.len() - start == letters@.len(),
            letters@ == word@,
            forall|j: int| 0 <= j < word@.len() ==> 'a' <= #[trigger] word@[j] <= 'z',
            forall|j: int|
                0 <= j < i ==> s@[start + j] == #[trigger] word@[j] || s@[start + j] as int + 32
                    == word@[j] as int,
        decreases letters.len() - i,
    {
        assert('a' <= word@[i as int] <= 'z');
        if !matches_letter(s[start + i], letters[i]) {
            return false;
        }
        i = i + 1;
    }
    true
}

impl Binary64 {
    /// The number that `text` stands for, or `None` where it stands for none.
    pub fn parse(text: &str) -> (number: Option<Binary64>)
        ensures
            number == reading(text@),
    {
        let s = characters(text);
        let mut start: usize = 0;
        let mut negative = false;
        if s.len() > 0 && (s[0] == '-' || s[0] == '+') {
            negative = s[0] == '-';
            start = 1;
        }
        proof {
            reveal_strlit("inf");
            reveal_strlit("infinity");
            reveal_strlit("nan");
        }
        if matches_word(&s, start, "inf") || matches_word(&s, start, "infinity") {
            return Some(Self::assemble(negative, rounding::INFINITE));
        }
        if matches_word(&s, start, "nan") {
            return Some(Binary64 { bits: binary64::NAN });
        }
        match read_decimal(&s, start) {
            None => None,
            Some(magnitude) => Some(Self::assemble(negative, magnitude)),
        }
    }
}

} // verus!
