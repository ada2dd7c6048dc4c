//! Text as sequences of characters.

use vstd::prelude::*;
use vstd::string::*;

verus! {

/// `String::push` puts one character behind the text.
pub assume_specification[ String::push ](string: &mut String, ch: char)
    ensures
        final(string)@ == old(string)@.push(ch),
;

/// The characters of `text`.
pub(crate) fn characters(text: &str) -> (chars: Vec<char>)
    ensures
        chars@ == text@,
{
    let mut chars: Vec<char> = Vec::new();
    for c in it: text.chars()
        invariant
            it.seq() == text@,
            chars@ == text@.take(it.index()),
    {
        chars.push(c);
    }
    chars
}

/// The characters `from..to`, as a text of their own.
pub(crate) fn excerpt(chars: &Vec<char>, from: usize, to: usize) -> (text: String)
    requires
        from <= to <= chars@.len(),
    ensures
        text@ == chars@.subrange(from as int, to as int),
{
    let mut text = String::new();
    for i in from..to
        invariant
            from <= to <= chars@.len(),
            text@ == chars@.subrange(from as int, i as int),
    {
        text.push(chars[i]);
    }
    text
}

/// One text behind another.
pub(crate) fn joined(before: &str, after: &str) -> (whole: String)
    ensures
        whole@ == before@ + after@,
{
    let mut whole = before.to_string();
    whole.append(after);
    whole
}

/// True where both texts have the same characters.
pub(crate) fn same_text(a: &str, b: &str) -> (same: bool)
    ensures
        same == (a@ == b@),
{
    let x = characters(a);
    let y = characters(b);
    if x.len() != y.len() {
        return false;
    }
    let mut i: usize = 0;
    while i < x.len()
        invariant
            i <= x@.len(),
            x@.len() == y@.len(),
            x@ == a@,
            y@ == b@,
            forall|j: int| 0 <= j < i ==> x@[j] == y@[j],
        decreases x.len() - i,
    {
        if x[i] != y[i] {
            return false;
        }
        i = i + 1;
    }
    assert(x@ =~= y@);
    true
}

/// The characters with Unicode's property White_Space.
pub open spec fn is_white_space(c: char) -> bool {
    let code = c as int;
    ||| 0x09 <= code <= 0x0d
    ||| code == 0x20
    ||| code == 0x85
    ||| code == 0xa0
    ||| code == 0x1680
    ||| 0x2000 <= code <= 0x200a
    ||| 0x2028 <= code <= 0x2029
    ||| code == 0x202f
    ||| code == 0x205f
    ||| code == 0x3000
}

/// True for the characters with Unicode's property White_Space.
pub fn white_space(c: char) -> (b: bool)
    ensures
        b == is_white_space(c),
{
    let code = c as u32;
    (0x09 <= code && code <= 0x0d) || code == 0x20 || code == 0x85 || code == 0xa0 || code
        == 0x1680 || (0x2000 <= code && code <= 0x200a) || (0x2028 <= code && code <= 0x2029)
        || code == 0x202f || code == 0x205f || code == 0x3000
}

/// Where the first word at or behind `from` starts: at the first character that is no white
/// space.
pub open spec fn word_start(s: Seq<char>, from: int) -> int
    decreases s.len() - from,
{
    if 0 <= from < s.len() && is_white_space(s[from]) {
        word_start(s, from + 1)
    } else {
        from
    }
}

/// Where the word that starts at `from` ends: at the next white space, or with the text.
pub open spec fn word_end(s: Seq<char>, from: int) -> int
    decreases s.len() - from,
{
    if 0 <= from < s.len() && !is_white_space(s[from]) {
        word_end(s, from + 1)
    } else {
        from
    }
}

/// Where the text up to `to` ends, without the white space behind it.
pub open spec fn text_end(s: Seq<char>, to: int) -> int
    decreases to,
{
    if 0 < to <= s.len() && is_white_space(s[to - 1]) {
        text_end(s, to - 1)
    } else {
        to
    }
}

/// The text without the white space around it.
pub open spec fn trimmed(s: Seq<char>) -> Seq<char> {
    let from = word_start(s, 0);
    if from == s.len() {
        Seq::<char>::empty()
    } else {
        s.subrange(from, text_end(s, s.len() as int))
    }
}

pub(crate) fn find_word_start(s: &Vec<char>, from: usize) -> (at: usize)
    requires
        from <= s@.len(),
    ensures
        at == word_start(s@, from as int),
        from <= at <= s@.len(),
        forall|i: int| from <= i < at ==> is_white_space(#[trigger] s@[i]),
        at < s@.len() ==> !is_white_space(s@[at as int]),
{
    let mut at: usize = from;
    while at < s.len() && white_space(s[at])
        invariant
            from <= at <= s@.len(),
            word_start(s@, at as int) == word_start(s@, from as int),
            forall|i: int| from <= i < at ==> is_white_space(#[trigger] s@[i]),
        decreases s.len() - at,
    {
        at = at + 1;
    }
    at
}

pub(crate) fn find_word_end(s: &Vec<char>, from: usize) -> (at: usize)
    requires
        from <= s@.len(),
    ensures
        at == word_end(s@, from as int),
        from <= at <= s@.len(),
{
    let mut at: usize = from;
    while at < s.len() && !white_space(s[at])
        invariant
            from <= at <= s@.len(),
            word_end(s@, at as int) == word_end(s@, from as int),
        decreases s.len() - at,
    {
        at = at + 1;
    }
    at
}

/// The text without the white space around it.
pub(crate) fn trim(text: &str) -> (t: String)
    ensures
        t@ == trimmed(text@),
{
    let s = characters(text);
    let from = find_word_start(&s, 0);
    if from == s.len() {
        return String::new();
    }
    let mut to: usize = s.len();
    while white_space(s[to - 1])
        invariant
            from < to <= s@.len(),
            !is_white_space(s@[from as int]),
            text_end(s@, to as int) == text_end(s@, s@.len() as int),
        decreases to,
    {
        to = to - 1;
    }
    excerpt(&s, from, to)
}

/// The decimal digit for a number below 10.
pub open spec fn digit_char(n: nat) -> char {
    ('0' as nat + n) as char
}

pub(crate) fn to_digit_char(n: u64) -> (c: char)
    requires
        n < 10,
    ensures
        c == digit_char(n as nat),
{
    match n {
        0 => '0',
        1 => '1',
        2 => '2',
        3 => '3',
        4 => '4',
        5 => '5',
        6 => '6',
        7 => '7',
        8 => '8',
        _ => '9',
    }
}

/// A number in decimal digits.
pub open spec fn numeral(n: nat) -> Seq<char>
    decreases n,
{
    if n < 10 {
        seq![digit_char(n)]
    } else {
        numeral(n / 10).push(digit_char(n % 10))
    }
}

/// A number in decimal digits.
pub(crate) fn to_numeral(n: u64) -> (text: String)
    ensures
        text@ == numeral(n as nat),
    decreases n,
{
    if n < 10 {
        let mut text = String::new();
        text.push(to_digit_char(n));
        assert(text@ =~= numeral(n as nat));
        text
    } else {
        let mut text = to_numeral(n / 10);
        text.push(to_digit_char(n % 10));
        text
    }
}

/// White space and nothing else.
pub open spec fn is_blank(s: Seq<char>) -> bool {
    forall|i: int| 0 <= i < s.len() ==> is_white_space(#[trigger] s[i])
}

proof fn lemma_word_start(s: Seq<char>, from: int)
    requires
        0 <= from <= s.len(),
    ensures
        from <= word_start(s, from) <= s.len(),
        forall|i: int| from <= i < word_start(s, from) ==> is_white_space(#[trigger] s[i]),
        word_start(s, from) < s.len() ==> !is_white_space(s[word_start(s, from)]),
    decreases s.len() - from,
{
    if from < s.len() && is_white_space(s[from]) {
        lemma_word_start(s, from + 1);
    }
}

proof fn lemma_text_end(s: Seq<char>, to: int)
    requires
        0 <= to <= s.len(),
    ensures
        0 <= text_end(s, to) <= to,
        forall|i: int| text_end(s, to) <= i < to ==> is_white_space(#[trigger] s[i]),
        text_end(s, to) > 0 ==> !is_white_space(s[text_end(s, to) - 1]),
    decreases to,
{
    if 0 < to && is_white_space(s[to - 1]) {
        lemma_text_end(s, to - 1);
    }
}

/// Trimming takes the white space at both ends away, all of it and nothing else: what is left has
/// none at its ends, and is empty only where there was nothing else. What it took from both ends
/// is returned.
pub proof fn lemma_trimmed(s: Seq<char>) -> (ends: (Seq<char>, Seq<char>))
    ensures
        s == ends.0 + trimmed(s) + ends.1,
        is_blank(ends.0),
        is_blank(ends.1),
        trimmed(s).len() > 0 ==> !is_white_space(trimmed(s)[0]) && !is_white_space(
            trimmed(s).last(),
        ),
        trimmed(s).len() == 0 <==> is_blank(s),
{
    let from = word_start(s, 0);
    let n = s.len() as int;
    let to = text_end(s, n);
    lemma_word_start(s, 0);
    lemma_text_end(s, n);
    if from == n {
        assert(s =~= s + trimmed(s) + Seq::<char>::empty());
        (s, Seq::<char>::empty())
    } else {
        let (front, behind) = (s.take(from), s.skip(to));
        assert(from < to);
        assert(s =~= front + trimmed(s) + behind);
        assert forall|i: int| 0 <= i < behind.len() implies is_white_space(
            #[trigger] behind[i],
        ) by {
            assert(behind[i] == s[to + i]);
        }
        assert(!is_white_space(s[from]));
        (front, behind)
    }
}

/// The white space, character by character.
pub proof fn lemma_white_space_characters(c: char)
    ensures
        is_white_space(c) <==> {
            ||| c == '\t' || c == '\n' || c == '\x0b' || c == '\x0c' || c == '\r' || c == ' '
            ||| c == '\u{85}' || c == '\u{a0}' || c == '\u{1680}'
            ||| c == '\u{2000}' || c == '\u{2001}' || c == '\u{2002}' || c == '\u{2003}'
            ||| c == '\u{2004}' || c == '\u{2005}' || c == '\u{2006}' || c == '\u{2007}'
            ||| c == '\u{2008}' || c == '\u{2009}' || c == '\u{200a}'
            ||| c == '\u{2028}' || c == '\u{2029}' || c == '\u{202f}' || c == '\u{205f}'
            ||| c == '\u{3000}'
        },
{
}

} // verus!
