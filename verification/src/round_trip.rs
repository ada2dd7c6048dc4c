//! What is written reads back.

use crate::binary64;
use crate::binary64::Binary64;
use crate::decimal;
use crate::display;
use crate::rounding;
use crate::text;
use vstd::arithmetic::div_mod::*;
use vstd::arithmetic::mul::*;
use vstd::arithmetic::power2::*;
use vstd::prelude::*;

verus! {

/// What digits spell does not depend on what is around them.
pub proof fn lemma_spelled_within(s: Seq<char>, from: int, to: int, part: Seq<char>)
    requires
        0 <= from <= to <= s.len(),
        part == s.subrange(from, to),
    ensures
        decimal::spelled(s, from, to) == decimal::spelled(part, 0, part.len() as int),
    decreases to - from,
{
    if from < to {
        let shorter = s.subrange(from, to - 1);
        lemma_spelled_within(s, from, to - 1, shorter);
        assert(part.subrange(0, to - from - 1) =~= shorter);
        lemma_spelled_within(part, 0, to - from - 1, shorter);
        assert(part[to - from - 1] == s[to - 1]);
    }
}

proof fn lemma_spelled_push(s: Seq<char>, c: char)
    ensures
        decimal::spelled(s.push(c), 0, (s.len() + 1) as int) == 10 * decimal::spelled(
            s,
            0,
            s.len() as int,
        ) + decimal::digit(c),
{
    let longer = s.push(c);
    assert(longer.subrange(0, s.len() as int) =~= s);
    lemma_spelled_within(longer, 0, s.len() as int, s);
}

pub open spec fn all_digits(s: Seq<char>) -> bool {
    forall|i: int| 0 <= i < s.len() ==> decimal::is_digit(#[trigger] s[i])
}

/// A numeral is made of digits and spells its number.
pub proof fn lemma_numeral_spells(n: nat)
    ensures
        text::numeral(n).len() > 0,
        all_digits(text::numeral(n)),
        decimal::spelled(text::numeral(n), 0, text::numeral(n).len() as int) == n,
    decreases n,
{
    let last = text::digit_char(n % 10);
    assert(decimal::is_digit(last) && decimal::digit(last) == n % 10);
    if n < 10 {
        let none = Seq::<char>::empty();
        lemma_spelled_push(none, last);
        assert(none.push(last) =~= text::numeral(n));
        assert(decimal::spelled(none, 0, 0) == 0);
    } else {
        lemma_numeral_spells(n / 10);
        lemma_spelled_push(text::numeral(n / 10), last);
    }
}

/// Padded digits spell what they are the lowest digits of.
pub proof fn lemma_padded_spells(n: nat, width: nat)
    ensures
        display::padded(n, width).len() == width,
        all_digits(display::padded(n, width)),
        decimal::spelled(display::padded(n, width), 0, width as int) == n % decimal::ten(width),
    decreases width,
{
    if width == 0 {
        assert(n % 1 == 0);
    } else {
        let w = (width - 1) as nat;
        let last = text::digit_char(n % 10);
        assert(decimal::is_digit(last) && decimal::digit(last) == n % 10);
        lemma_padded_spells(n / 10, w);
        lemma_spelled_push(display::padded(n / 10, w), last);
        // n % (10 * 10^w) == 10 * ((n / 10) % 10^w) + n % 10
        decimal::lemma_ten_adds(w, 0);
        let t = decimal::ten(w);
        let q = (n / 10) / t;
        let r = (n / 10) % t;
        lemma_fundamental_div_mod((n / 10) as int, t as int);
        lemma_mod_bound((n / 10) as int, t as int);
        assert(n == q * (10 * t) + (10 * r + n % 10)) by (nonlinear_arith)
            requires
                n / 10 == t * q + r,
                n == 10 * (n / 10) + n % 10,
        ;
        lemma_fundamental_div_mod_converse(
            n as int,
            (10 * t) as int,
            q as int,
            (10 * r + n % 10) as int,
        );
    }
}

/// A run of digits ends where something else follows, or with the text.
pub proof fn lemma_digits_end(s: Seq<char>, from: int, to: int)
    requires
        0 <= from <= to <= s.len(),
        forall|i: int| from <= i < to ==> decimal::is_digit(#[trigger] s[i]),
        to == s.len() || !decimal::is_digit(s[to]),
    ensures
        decimal::digits_end(s, from) == to,
    decreases to - from,
{
    if from < to {
        lemma_digits_end(s, from + 1, to);
    }
}

/// A decimal number without an exponent reads as its digits scaled by its places.
proof fn lemma_fixed_reads(prefix: Seq<char>, n: nat, places: nat)
    ensures
        decimal::decimal_from(prefix + display::fixed(n, places), prefix.len() as int) == Some(
            decimal::scaled(n, -(places as int)),
        ),
        display::fixed(n, places).len() > 0,
        decimal::is_digit(display::fixed(n, places)[0]),
{
    let body = display::fixed(n, places);
    let s = prefix + body;
    let start = prefix.len() as int;
    if places == 0 {
        let whole = text::numeral(n);
        lemma_numeral_spells(n);
        let end = s.len() as int;
        assert(s.subrange(start, end) =~= whole);
        assert forall|i: int| start <= i < end implies decimal::is_digit(#[trigger] s[i]) by {
            assert(s[i] == whole[i - start]);
        }
        lemma_digits_end(s, start, end);
        lemma_spelled_within(s, start, end, whole);
        assert(decimal::spelled(s, end, end) == 0);
        assert(decimal::ten(0) == 1);
        assert(n * 1 == n);
    } else {
        let t = decimal::ten(places);
        let whole = text::numeral(n / t);
        let part = display::padded(n, places);
        lemma_numeral_spells(n / t);
        lemma_padded_spells(n, places);
        let point = start + whole.len();
        let end = s.len() as int;
        assert(s.subrange(start, point) =~= whole);
        assert(s[point] == '.');
        assert(s.subrange(point + 1, end) =~= part);
        assert forall|i: int| start <= i < point implies decimal::is_digit(#[trigger] s[i]) by {
            assert(s[i] == whole[i - start]);
        }
        assert forall|i: int| point + 1 <= i < end implies decimal::is_digit(
            #[trigger] s[i],
        ) by {
            assert(s[i] == part[i - point - 1]);
        }
        lemma_digits_end(s, start, point);
        lemma_digits_end(s, point + 1, end);
        lemma_spelled_within(s, start, point, whole);
        lemma_spelled_within(s, point + 1, end, part);
        decimal::lemma_ten_adds(places, 0);
        lemma_fundamental_div_mod(n as int, t as int);
        assert((n / t) * t == t * (n / t)) by (nonlinear_arith);
        assert(body[0] == whole[0]);
    }
}

/// A text that starts with a digit is none of the words.
proof fn lemma_digit_starts_no_word(s: Seq<char>, start: int)
    requires
        0 <= start < s.len(),
        decimal::is_digit(s[start]),
    ensures
        !decimal::is_word(s, start, "inf"@),
        !decimal::is_word(s, start, "infinity"@),
        !decimal::is_word(s, start, "nan"@),
{
    reveal_strlit("inf");
    reveal_strlit("infinity");
    reveal_strlit("nan");
    assert("inf"@[0] == 'i');
    assert("infinity"@[0] == 'i');
    assert("nan"@[0] == 'n');
    assert(s[start + 0] == s[start]);
}

/// A decimal number with a sign, and no exponent, reads as its digits scaled by its places.
proof fn lemma_signed_fixed_reads(negative: bool, n: nat, places: nat)
    ensures
        decimal::reading(display::with_sign(negative, display::fixed(n, places))) == Some(
            binary64::signed(negative, decimal::scaled(n, -(places as int))),
        ),
{
    let body = display::fixed(n, places);
    let s = display::with_sign(negative, body);
    if negative {
        lemma_fixed_reads(seq!['-'], n, places);
        assert(s[1] == body[0]);
        lemma_digit_starts_no_word(s, 1);
    } else {
        lemma_fixed_reads(Seq::<char>::empty(), n, places);
        assert(Seq::<char>::empty() + body =~= s);
        lemma_digit_starts_no_word(s, 0);
    }
}

/// Every finite magnitude but zero has a shortest decimal number.
pub proof fn lemma_shortest_exists(magnitude: nat)
    requires
        0 < magnitude < rounding::INFINITE,
    ensures
        display::is_shortest(
            magnitude,
            display::shortest(magnitude).0,
            display::shortest(magnitude).1,
        ),
{
    let u = rounding::units(magnitude);
    let w = pow2(1074);
    let t = decimal::ten(400);
    rounding::lemma_pow2_52_53();
    lemma_pow2_pos(1074);
    rounding::lemma_units_ordered(magnitude, rounding::INFINITE as nat);
    rounding::lemma_units(2046, rounding::HIDDEN as nat);
    assert(2046 * rounding::HIDDEN + rounding::HIDDEN == rounding::INFINITE);
    lemma_pow2_adds(52, 2046);
    lemma_pow2_adds(1024, 1074);
    decimal::lemma_ten_exceeds(400);
    rounding::lemma_pow2_increases(1024, 1200);
    assert(u < w * t) by (nonlinear_arith)
        requires
            u < pow2(1024) * w,
            pow2(1024) <= t,
    ;
    let (digits, power) = display::lemma_search(magnitude, 400);
    display::lemma_shortest_is_unique(magnitude, digits, power);
}

/// What is written of a finite number reads as that very number, zero's sign and all.
pub proof fn lemma_displayed_reads_back(number: Binary64)
    requires
        number.finite(),
    ensures
        decimal::reading(display::displayed(number)) == Some(number),
{
    let negative = number.is_negative();
    let magnitude = number.magnitude();
    assert(binary64::signed(negative, magnitude) == number);
    if magnitude == 0 {
        lemma_signed_fixed_reads(negative, 0, 0);
        assert(0 * decimal::ten(0) == 0);
        lemma_mul_by_zero_is_zero(pow2(1074) as int);
        rounding::lemma_units_zero(0);
        rounding::lemma_nearest_exact(0, 1);
        assert(rounding::units(0) * 1 == 0);
    } else {
        let (digits, power) = display::shortest(magnitude);
        lemma_shortest_exists(magnitude);
        if power >= 0 {
            let n = digits * decimal::ten(power as nat);
            lemma_signed_fixed_reads(negative, n, 0);
            assert(decimal::ten(0) == 1);
            assert(n * 1 == n) by (nonlinear_arith);
            assert(decimal::scaled(n, 0) == decimal::scaled(digits, power));
        } else {
            lemma_signed_fixed_reads(negative, digits, (-power) as nat);
        }
    }
}

/// Numbers that are written alike are the same number.
pub proof fn lemma_displayed_is_injective(a: Binary64, b: Binary64)
    requires
        a.finite(),
        b.finite(),
        display::displayed(a) == display::displayed(b),
    ensures
        a == b,
{
    lemma_displayed_reads_back(a);
    lemma_displayed_reads_back(b);
}

/// A finite number with three digits behind the point is off by at most half a thousandth, and
/// between two that are as near it has the even last digit: the sign, digits, a point and three
/// digits.
pub proof fn lemma_thousandths_are_nearest(number: Binary64)
    requires
        number.finite(),
    ensures
        ({
            let s = display::displayed_in_thousandths(number);
            let start = if number.is_negative() { 1int } else { 0int };
            let point = decimal::digits_end(s, start);
            let n = s.len() as int;
            let shown = decimal::spelled(s, start, point) * 1000 + decimal::spelled(
                s,
                point + 1,
                n,
            );
            let off = 2 * rounding::distance(
                (shown * binary64::one()) as int,
                1000 * rounding::distance(number.value(), 0),
            );
            &&& number.is_negative() ==> s[0] == '-'
            &&& start < point
            &&& s[point] == '.'
            &&& n == point + 4
            &&& decimal::digits_end(s, point + 1) == n
            &&& off <= binary64::one()
            &&& off == binary64::one() ==> shown % 2 == 0
        }),
{
    let w = binary64::one();
    let u = rounding::units(number.magnitude());
    let m = rounding::half_even(u * 1000, w);
    let s = display::displayed_in_thousandths(number);
    let start = if number.is_negative() { 1int } else { 0int };
    let whole = text::numeral(m / 1000);
    let part = display::padded(m, 3);
    let point = start + whole.len();
    lemma_pow2_pos(1074);
    rounding::lemma_half_even(u * 1000, w);
    assert(decimal::ten(3) == 1000) by {
        reveal_with_fuel(decimal::ten, 4);
    }
    lemma_numeral_spells(m / 1000);
    lemma_padded_spells(m, 3);
    assert(s =~= (if number.is_negative() {
        seq!['-']
    } else {
        Seq::<char>::empty()
    }) + whole.push('.') + part);
    assert forall|i: int| start <= i < point implies decimal::is_digit(#[trigger] s[i]) by {
        assert(s[i] == whole[i - start]);
    }
    assert(s[point] == '.');
    assert forall|i: int| point + 1 <= i < s.len() implies decimal::is_digit(#[trigger] s[i]) by {
        assert(s[i] == part[i - point - 1]);
    }
    lemma_digits_end(s, start, point);
    lemma_digits_end(s, point + 1, s.len() as int);
    assert(s.subrange(start, point) =~= whole);
    assert(s.subrange(point + 1, s.len() as int) =~= part);
    lemma_spelled_within(s, start, point, whole);
    lemma_spelled_within(s, point + 1, s.len() as int, part);
    assert((m / 1000) * 1000 + m % 1000 == m);
    assert(rounding::distance(number.value(), 0) == u);
}

/// A decimal number reads as the number nearest to it: no other is nearer to `digits` times
/// 10^power.
pub proof fn lemma_scaled_is_nearest(digits: nat, power: int, other: Binary64)
    requires
        !other.is_nan(),
    ensures
        ({
            let found = rounding::units(decimal::scaled(digits, power)) as int;
            let w = binary64::one();
            let near = rounding::distance(other.value(), 0);
            if power >= 0 {
                rounding::distance(found, (digits * decimal::ten(power as nat) * w) as int)
                    <= rounding::distance(
                    near,
                    (digits * decimal::ten(power as nat) * w) as int,
                )
            } else {
                rounding::distance(found * decimal::ten((-power) as nat), (digits * w) as int)
                    <= rounding::distance(
                    near * decimal::ten((-power) as nat),
                    (digits * w) as int,
                )
            }
        }),
{
    let u = rounding::units(other.magnitude()) as int;
    assert(rounding::distance(other.value(), 0) == u);
    if power >= 0 {
        let num = digits * decimal::ten(power as nat) * pow2(1074);
        rounding::lemma_nearest_is_closest(num, 1, other.magnitude());
    } else {
        decimal::lemma_ten_adds((-power) as nat, 0);
        rounding::lemma_nearest_is_closest(
            digits * pow2(1074),
            decimal::ten((-power) as nat),
            other.magnitude(),
        );
    }
}

/// A sign in front of a number, if any.
pub open spec fn is_sign(s: Seq<char>) -> bool {
    s.len() == 0 || s == seq!['+'] || s == seq!['-']
}

/// An exponent behind a number, if any: a letter, a sign if any, and digits.
pub open spec fn exponent_text(letter: char, sign: Seq<char>, digits: Seq<char>) -> Seq<char> {
    seq![letter] + sign + digits
}

/// What a number with a sign, digits before and behind a point, and no exponent reads as: what
/// its digits say.
pub proof fn lemma_pointed_number_reads(sign: Seq<char>, whole: Seq<char>, part: Seq<char>)
    requires
        is_sign(sign),
        all_digits(whole),
        all_digits(part),
        whole.len() + part.len() > 0,
    ensures
        decimal::reading(sign + whole + seq!['.'] + part) == Some(
            binary64::signed(
                sign == seq!['-'],
                decimal::scaled(
                    decimal::spelled(whole, 0, whole.len() as int) * decimal::ten(part.len())
                        + decimal::spelled(part, 0, part.len() as int),
                    -(part.len() as int),
                ),
            ),
        ),
{
    let s = sign + whole + seq!['.'] + part;
    let none = Seq::<char>::empty();
    assert(s =~= sign + whole + seq!['.'] + part + none);
    lemma_mantissa_reads(sign, whole, part, none);
}

/// The digits of a number are read up to what follows them.
proof fn lemma_mantissa_reads(
    sign: Seq<char>,
    whole: Seq<char>,
    part: Seq<char>,
    tail: Seq<char>,
)
    requires
        is_sign(sign),
        all_digits(whole),
        all_digits(part),
        whole.len() + part.len() > 0,
        tail.len() > 0 ==> !decimal::is_digit(tail[0]),
    ensures
        ({
            let s = sign + whole + seq!['.'] + part + tail;
            let at = (sign.len() + whole.len() + 1 + part.len()) as int;
            decimal::reading(s) == match decimal::exponent_from(s, at) {
                None => None::<Binary64>,
                Some(exponent) => Some(
                    binary64::signed(
                        sign == seq!['-'],
                        decimal::scaled(
                            decimal::spelled(whole, 0, whole.len() as int) * decimal::ten(
                                part.len(),
                            ) + decimal::spelled(part, 0, part.len() as int),
                            exponent - part.len(),
                        ),
                    ),
                ),
            }
        }),
{
    let s = sign + whole + seq!['.'] + part + tail;
    let a = sign.len() as int;
    let b = a + whole.len();
    let c = b + 1 + part.len();
    assert forall|i: int| a <= i < b implies decimal::is_digit(#[trigger] s[i]) by {
        assert(s[i] == whole[i - a]);
    }
    assert forall|i: int| b + 1 <= i < c implies decimal::is_digit(#[trigger] s[i]) by {
        assert(s[i] == part[i - b - 1]);
    }
    assert(s[b] == '.');
    if tail.len() > 0 {
        assert(s[c] == tail[0]);
    }
    lemma_digits_end(s, a, b);
    lemma_digits_end(s, b + 1, c);
    assert(s.subrange(a, b) =~= whole);
    assert(s.subrange(b + 1, c) =~= part);
    lemma_spelled_within(s, a, b, whole);
    lemma_spelled_within(s, b + 1, c, part);
    if sign.len() > 0 {
        assert(s[0] == sign[0]);
    } else {
        assert(s[0] == '.' || decimal::is_digit(s[0]));
    }
    reveal_strlit("inf");
    reveal_strlit("infinity");
    reveal_strlit("nan");
    assert("inf"@[0] == 'i');
    assert("infinity"@[0] == 'i');
    assert("nan"@[0] == 'n');
    assert(s[a] == '.' || decimal::is_digit(s[a]));
}

/// An exponent moves the point: a number with an exponent reads as its digits say, times ten to
/// the power of the exponent.
pub proof fn lemma_exponent_moves_the_point(
    sign: Seq<char>,
    whole: Seq<char>,
    part: Seq<char>,
    letter: char,
    turn: Seq<char>,
    digits: Seq<char>,
)
    requires
        is_sign(sign),
        all_digits(whole),
        all_digits(part),
        whole.len() + part.len() > 0,
        letter == 'e' || letter == 'E',
        is_sign(turn),
        all_digits(digits),
        digits.len() > 0,
    ensures
        decimal::reading(
            sign + whole + seq!['.'] + part + exponent_text(letter, turn, digits),
        ) == Some(
            binary64::signed(
                sign == seq!['-'],
                decimal::scaled(
                    decimal::spelled(whole, 0, whole.len() as int) * decimal::ten(part.len())
                        + decimal::spelled(part, 0, part.len() as int),
                    (if turn == seq!['-'] {
                        -(decimal::spelled(digits, 0, digits.len() as int) as int)
                    } else {
                        decimal::spelled(digits, 0, digits.len() as int) as int
                    }) - part.len(),
                ),
            ),
        ),
{
    let tail = exponent_text(letter, turn, digits);
    let s = sign + whole + seq!['.'] + part + tail;
    let at = (sign.len() + whole.len() + 1 + part.len()) as int;
    let from = at + 1 + turn.len();
    let n = s.len() as int;
    assert(tail[0] == letter);
    lemma_mantissa_reads(sign, whole, part, tail);
    assert(s[at] == letter);
    assert forall|i: int| from <= i < n implies decimal::is_digit(#[trigger] s[i]) by {
        assert(s[i] == digits[i - from]);
    }
    lemma_digits_end(s, from, n);
    assert(s.subrange(from, n) =~= digits);
    lemma_spelled_within(s, from, n, digits);
    if turn.len() > 0 {
        assert(s[at + 1] == turn[0]);
    } else {
        assert(decimal::is_digit(s[at + 1]));
    }
}

/// A number is written with something, and with nothing but digits, signs, points and letters:
/// no text with another character in it is one, white space and underscores among them.
pub proof fn lemma_only_numbers_are_read(s: Seq<char>, i: int)
    requires
        decimal::reading(s) is Some,
        0 <= i < s.len(),
    ensures
        ({
            let c = s[i];
            ||| decimal::is_digit(c)
            ||| c == '+' || c == '-' || c == '.'
            ||| 'a' <= c <= 'z'
            ||| 'A' <= c <= 'Z'
        }),
{
    let start = if s[0] == '-' || s[0] == '+' { 1int } else { 0int };
    reveal_strlit("inf");
    reveal_strlit("infinity");
    reveal_strlit("nan");
    if i >= start {
        if decimal::is_word(s, start, "inf"@) {
            lemma_letters(s, start, "inf"@, i);
        } else if decimal::is_word(s, start, "infinity"@) {
            lemma_letters(s, start, "infinity"@, i);
        } else if decimal::is_word(s, start, "nan"@) {
            lemma_letters(s, start, "nan"@, i);
        } else {
            let whole = decimal::digits_end(s, start);
            let pointed = whole < s.len() && s[whole] == '.';
            let from = if pointed { whole + 1 } else { whole };
            let to = if pointed { decimal::digits_end(s, from) } else { whole };
            lemma_digits_until(s, start);
            lemma_digits_until(s, from);
            let signed = to + 1 < s.len() && (s[to + 1] == '+' || s[to + 1] == '-');
            let first = if signed { to + 2 } else { to + 1 };
            if to < s.len() {
                lemma_digits_until(s, first);
            }
        }
    }
}

proof fn lemma_letters(s: Seq<char>, start: int, word: Seq<char>, i: int)
    requires
        decimal::is_word(s, start, word),
        0 <= start <= i < s.len(),
        forall|k: int| 0 <= k < word.len() ==> 'a' <= #[trigger] word[k] <= 'z',
    ensures
        'a' <= s[i] <= 'z' || 'A' <= s[i] <= 'Z',
{
    assert(s[start + (i - start)] == word[i - start] || s[start + (i - start)] as int + 32
        == word[i - start] as int);
}

/// Up to its end, a run of digits is digits.
proof fn lemma_digits_until(s: Seq<char>, from: int)
    requires
        0 <= from <= s.len(),
    ensures
        from <= decimal::digits_end(s, from) <= s.len(),
        forall|i: int|
            from <= i < decimal::digits_end(s, from) ==> decimal::is_digit(#[trigger] s[i]),
    decreases s.len() - from,
{
    if from < s.len() && decimal::is_digit(s[from]) {
        lemma_digits_until(s, from + 1);
    }
}

/// Nothing at all is no number, and neither is a sign, a point or an exponent without digits.
pub proof fn lemma_numbers_have_digits(s: Seq<char>)
    requires
        forall|i: int| 0 <= i < s.len() ==> !decimal::is_digit(#[trigger] s[i]) && s[i] != 'n' && s[i]
            != 'N',
    ensures
        decimal::reading(s) is None,
{
    let start = if s.len() > 0 && (s[0] == '-' || s[0] == '+') { 1int } else { 0int };
    reveal_strlit("inf");
    reveal_strlit("infinity");
    reveal_strlit("nan");
    assert("inf"@[1] == 'n');
    assert("infinity"@[1] == 'n');
    assert("nan"@[0] == 'n');
    if decimal::is_word(s, start, "inf"@) {
        assert(s[start + 1] == 'n' || s[start + 1] == 'N');
    }
    if decimal::is_word(s, start, "infinity"@) {
        assert(s[start + 1] == 'n' || s[start + 1] == 'N');
    }
    if decimal::is_word(s, start, "nan"@) {
        assert(s[start + 0] == 'n' || s[start + 0] == 'N');
    }
    lemma_digits_until(s, start);
}

/// A point with no digits behind it may be left out.
pub proof fn lemma_point_may_be_left_out(sign: Seq<char>, whole: Seq<char>, tail: Seq<char>)
    requires
        is_sign(sign),
        all_digits(whole),
        whole.len() > 0,
        tail.len() > 0 ==> tail[0] == 'e' || tail[0] == 'E',
    ensures
        decimal::reading(sign + whole + tail) == decimal::reading(
            sign + whole + seq!['.'] + tail,
        ),
{
    let s = sign + whole + tail;
    let t = sign + whole + seq!['.'] + tail;
    let none = Seq::<char>::empty();
    let a = sign.len() as int;
    let b = a + whole.len();
    assert(t =~= sign + whole + seq!['.'] + none + tail);
    lemma_mantissa_reads(sign, whole, none, tail);
    assert forall|i: int| a <= i < b implies decimal::is_digit(#[trigger] s[i]) by {
        assert(s[i] == whole[i - a]);
    }
    if tail.len() > 0 {
        assert(s[b] == tail[0]);
    }
    lemma_digits_end(s, a, b);
    assert(s.subrange(a, b) =~= whole);
    lemma_spelled_within(s, a, b, whole);
    if sign.len() > 0 {
        assert(s[0] == sign[0]);
    } else {
        assert(decimal::is_digit(s[0]));
    }
    assert(decimal::is_digit(s[a]));
    lemma_digit_starts_no_word(s, a);
    // the exponent is the same, one place further on
    assert(t.skip(b + 1) =~= s.skip(b));
    lemma_exponent_elsewhere(s, b, t, b + 1);
    assert(decimal::spelled(none, 0, 0) == 0);
    assert(decimal::ten(0) == 1);
    let n = decimal::spelled(whole, 0, whole.len() as int);
    assert(n * 1 == n) by (nonlinear_arith);
    assert(decimal::spelled(s, b, b) == 0);
}

/// An exponent reads the same wherever it stands.
proof fn lemma_exponent_elsewhere(s: Seq<char>, at: int, t: Seq<char>, other: int)
    requires
        0 <= at <= s.len(),
        0 <= other <= t.len(),
        s.skip(at) == t.skip(other),
    ensures
        decimal::exponent_from(s, at) == decimal::exponent_from(t, other),
{
    let tail = s.skip(at);
    assert(s.len() - at == tail.len() && t.len() - other == tail.len());
    assert forall|i: int| 0 <= i < tail.len() implies s[at + i] == #[trigger] tail[i] && t[other + i]
        == tail[i] by {
        assert(t.skip(other)[i] == t[other + i]);
    }
    if tail.len() > 0 {
        assert(s[at] == tail[0] && t[other] == tail[0]);
        if tail.len() > 1 {
            assert(s[at + 1] == tail[1] && t[other + 1] == tail[1]);
        }
        let signed = tail.len() > 1 && (tail[1] == '+' || tail[1] == '-');
        let skip = if signed { 2int } else { 1int };
        lemma_digits_elsewhere(s, at, t, other, skip);
        let end = decimal::digits_end(s, at + skip);
        lemma_digits_until(s, at + skip);
        if at + skip <= end {
            let part = s.subrange(at + skip, end);
            assert(t.subrange(other + skip, end - at + other) =~= part) by {
                assert forall|k: int| 0 <= k < part.len() implies #[trigger] part[k] == t[other + skip
                    + k] by {
                    assert(tail[skip + k] == s[at + (skip + k)]);
                    assert(tail[skip + k] == t[other + (skip + k)]);
                }
            }
            lemma_spelled_within(s, at + skip, end, part);
            lemma_spelled_within(t, other + skip, end - at + other, part);
        }
    }
}

proof fn lemma_digits_elsewhere(s: Seq<char>, at: int, t: Seq<char>, other: int, skip: int)
    requires
        0 <= at <= s.len(),
        0 <= other <= t.len(),
        s.skip(at) == t.skip(other),
        0 <= skip <= s.len() - at,
    ensures
        decimal::digits_end(s, at + skip) - at == decimal::digits_end(t, other + skip) - other,
    decreases s.len() - at - skip,
{
    assert(s.skip(at).len() == s.len() - at && t.skip(other).len() == t.len() - other);
    if skip < s.len() - at {
        assert(s.skip(at)[skip] == s[at + skip]);
        assert(t.skip(other)[skip] == t[other + skip]);
        if decimal::is_digit(s[at + skip]) {
            lemma_digits_elsewhere(s, at, t, other, skip + 1);
        }
    }
}

/// The parts of a decimal number as it is written.
pub struct Written {
    pub sign: Seq<char>,
    pub whole: Seq<char>,
    pub point: Seq<char>,
    pub part: Seq<char>,
    pub tail: Seq<char>,
}

impl Written {
    /// The parts one behind the other.
    pub open spec fn all(self) -> Seq<char> {
        self.sign + self.whole + self.point + self.part + self.tail
    }

    /// A sign if any, digits with a point among, before or behind them if any, and an exponent if
    /// any.
    pub open spec fn is_number(self) -> bool {
        &&& is_sign(self.sign)
        &&& all_digits(self.whole)
        &&& self.point == seq!['.'] || self.point.len() == 0 && self.part.len() == 0
        &&& all_digits(self.part)
        &&& self.whole.len() + self.part.len() > 0
        &&& self.tail.len() == 0 || is_exponent(self.tail)
    }
}

/// A letter, a sign if any, and digits.
pub open spec fn is_exponent(s: Seq<char>) -> bool {
    &&& s.len() > 0
    &&& s[0] == 'e' || s[0] == 'E'
    &&& {
        let from = if s.len() > 1 && (s[1] == '+' || s[1] == '-') { 2int } else { 1int };
        from < s.len() && all_digits(s.skip(from))
    }
}

/// Nothing is read as a number but what is written as one: a sign if any, and `inf`, `infinity`
/// or `nan` in letters of either case, or a decimal number, whose parts are returned.
pub proof fn lemma_what_is_read(s: Seq<char>) -> (written: Written)
    requires
        decimal::reading(s) is Some,
    ensures
        ({
            let start = if s.len() > 0 && (s[0] == '-' || s[0] == '+') { 1int } else { 0int };
            ||| decimal::is_word(s, start, "inf"@)
            ||| decimal::is_word(s, start, "infinity"@)
            ||| decimal::is_word(s, start, "nan"@)
            ||| written.is_number() && written.all() == s
        }),
{
    let start = if s.len() > 0 && (s[0] == '-' || s[0] == '+') { 1int } else { 0int };
    let whole = decimal::digits_end(s, start);
    let pointed = whole < s.len() && s[whole] == '.';
    let from = if pointed { whole + 1 } else { whole };
    let to = if pointed { decimal::digits_end(s, from) } else { whole };
    let n = s.len() as int;
    lemma_digits_until(s, start);
    lemma_digits_until(s, from);
    let written = Written {
        sign: s.take(start),
        whole: s.subrange(start, whole),
        point: s.subrange(whole, from),
        part: s.subrange(from, to),
        tail: s.skip(to),
    };
    if !decimal::is_word(s, start, "inf"@) && !decimal::is_word(s, start, "infinity"@)
        && !decimal::is_word(s, start, "nan"@) {
        assert(written.all() =~= s);
        if start == 1 {
            assert(written.sign =~= seq![s[0]]);
        }
        if pointed {
            assert(written.point =~= seq!['.']);
        }
        assert forall|i: int| 0 <= i < written.whole.len() implies decimal::is_digit(
            #[trigger] written.whole[i],
        ) by {
            assert(written.whole[i] == s[start + i]);
        }
        assert forall|i: int| 0 <= i < written.part.len() implies decimal::is_digit(
            #[trigger] written.part[i],
        ) by {
            assert(written.part[i] == s[from + i]);
        }
        if to < n {
            let signed = to + 1 < n && (s[to + 1] == '+' || s[to + 1] == '-');
            let first = if signed { to + 2 } else { to + 1 };
            let skip = first - to;
            lemma_digits_until(s, first);
            let tail = written.tail;
            assert(tail[0] == s[to]);
            if to + 1 < n {
                assert(tail[1] == s[to + 1]);
            }
            let digits = tail.skip(skip);
            assert forall|i: int| 0 <= i < digits.len() implies decimal::is_digit(
                #[trigger] digits[i],
            ) by {
                assert(digits[i] == s[first + i]);
            }
        }
    }
    written
}

/// `inf` and `infinity`, in letters of either case, are read as infinity with the sign in front,
/// and `nan` as no number.
pub proof fn lemma_words_are_read(s: Seq<char>)
    ensures
        ({
            let start = if s.len() > 0 && (s[0] == '-' || s[0] == '+') { 1int } else { 0int };
            &&& decimal::is_word(s, start, "inf"@) || decimal::is_word(s, start, "infinity"@)
                ==> (decimal::reading(s) matches Some(number) && number.is_infinite()
                && number.is_negative() == (s[0] == '-'))
            &&& decimal::is_word(s, start, "nan"@) ==> (decimal::reading(s) matches Some(number)
                && number.is_nan())
        }),
{
    reveal_strlit("inf");
    reveal_strlit("infinity");
    reveal_strlit("nan");
    let start = if s.len() > 0 && (s[0] == '-' || s[0] == '+') { 1int } else { 0int };
    assert("inf"@[0] == 'i');
    assert("infinity"@[0] == 'i');
    assert("nan"@[0] == 'n');
    if decimal::is_word(s, start, "nan"@) {
        assert(s[start + 0] == 'n' || s[start + 0] == 'N');
    }
}

} // verus!
