//! Text inside JSON strings.

use crate::text::characters;
use vstd::prelude::*;
use vstd::string::*;

verus! {

/// The hexadecimal digit for a number below 16.
pub open spec fn hex_char(n: int) -> char {
    if n < 10 {
        ('0' as int + n) as char
    } else {
        ('a' as int + n - 10) as char
    }
}

/// A character as it is written inside a JSON string.
pub open spec fn escaped_char(c: char) -> Seq<char> {
    if c == '"' {
        seq!['\\', '"']
    } else if c == '\\' {
        seq!['\\', '\\']
    } else if c == '\n' {
        seq!['\\', 'n']
    } else if c == '\r' {
        seq!['\\', 'r']
    } else if c == '\t' {
        seq!['\\', 't']
    } else if (c as int) < 0x20 {
        seq!['\\', 'u', '0', '0', hex_char(c as int / 16), hex_char(c as int % 16)]
    } else {
        seq![c]
    }
}

/// A text as it is written inside a JSON string.
pub open spec fn escaped(s: Seq<char>) -> Seq<char>
    decreases s.len(),
{
    if s.len() == 0 {
        Seq::<char>::empty()
    } else {
        escaped(s.drop_last()) + escaped_char(s.last())
    }
}

fn to_hex_char(n: u32) -> (c: char)
    requires
        n < 16,
    ensures
        c == hex_char(n as int),
{
    match n {
        0 => '0',
        1 => '1',
        2 => '2',
        3 => '3',
        4 => '4',
        5 => '5',
        6 => '6',
        7 => '7',
        8 => '8',
        9 => '9',
        10 => 'a',
        11 => 'b',
        12 => 'c',
        13 => 'd',
        14 => 'e',
        _ => 'f',
    }
}

fn push_escaped(out: &mut String, c: char)
    ensures
        final(out)@ == old(out)@ + escaped_char(c),
{
    let ghost before = out@;
    if c == '"' {
        out.push('\\');
        out.push('"');
    } else if c == '\\' {
        out.push('\\');
        out.push('\\');
    } else if c == '\n' {
        out.push('\\');
        out.push('n');
    } else if c == '\r' {
        out.push('\\');
        out.push('r');
    } else if c == '\t' {
        out.push('\\');
        out.push('t');
    } else if (c as u32) < 0x20 {
        let code = c as u32;
        out.push('\\');
        out.push('u');
        out.push('0');
        out.push('0');
        out.push(to_hex_char(code / 16));
        out.push(to_hex_char(code % 16));
    } else {
        out.push(c);
    }
    assert(out@ =~= before + escaped_char(c));
}

/// Escapes a text for use inside a JSON string: quotes, backslashes and control characters.
pub fn json_escape(s: &str) -> (out: String)
    ensures
        out@ == escaped(s@),
{
    let chars = characters(s);
    let mut out = String::new();
    for i in 0..chars.len()
        invariant
            chars@ == s@,
            out@ == escaped(chars@.take(i as int)),
    {
        push_escaped(&mut out, chars[i]);
        assert(chars@.take(i + 1).drop_last() =~= chars@.take(i as int));
    }
    assert(chars@.take(chars@.len() as int) =~= chars@);
    out
}

/// The number that a hexadecimal digit stands for.
pub open spec fn hex_value(c: char) -> Option<int> {
    if '0' <= c <= '9' {
        Some(c as int - '0' as int)
    } else if 'a' <= c <= 'f' {
        Some(c as int - 'a' as int + 10)
    } else if 'A' <= c <= 'F' {
        Some(c as int - 'A' as int + 10)
    } else {
        None
    }
}

/// The character that a JSON string holds at its start, and how many characters it is written
/// with; `None` where a JSON string cannot start so. Escaped surrogates are left out.
pub open spec fn unescaped_char(t: Seq<char>) -> Option<(char, int)> {
    if t.len() == 0 || t[0] == '"' || (t[0] as int) < 0x20 {
        None
    } else if t[0] != '\\' {
        Some((t[0], 1int))
    } else if t.len() < 2 {
        None
    } else if t[1] == '"' || t[1] == '\\' || t[1] == '/' {
        Some((t[1], 2int))
    } else if t[1] == 'b' {
        Some(('\x08', 2int))
    } else if t[1] == 'f' {
        Some(('\x0c', 2int))
    } else if t[1] == 'n' {
        Some(('\n', 2int))
    } else if t[1] == 'r' {
        Some(('\r', 2int))
    } else if t[1] == 't' {
        Some(('\t', 2int))
    } else if t[1] == 'u' && t.len() >= 6 {
        match (hex_value(t[2]), hex_value(t[3]), hex_value(t[4]), hex_value(t[5])) {
            (Some(a), Some(b), Some(c), Some(d)) => {
                let code = 4096 * a + 256 * b + 16 * c + d;
                if 0xd800 <= code <= 0xdfff {
                    None
                } else {
                    Some((code as char, 6int))
                }
            },
            _ => None,
        }
    } else {
        None
    }
}

/// The text that the inside of a JSON string stands for; `None` where it is not valid, as with a
/// bare quote or a control character.
pub open spec fn unescaped(t: Seq<char>) -> Option<Seq<char>>
    decreases t.len(),
{
    if t.len() == 0 {
        Some(Seq::<char>::empty())
    } else {
        match unescaped_char(t) {
            None => None,
            Some((c, width)) => match unescaped(t.skip(width)) {
                None => None,
                Some(rest) => Some(seq![c] + rest),
            },
        }
    }
}

proof fn lemma_unescape_char(c: char, rest: Seq<char>)
    ensures
        unescaped_char(escaped_char(c) + rest) == Some((c, escaped_char(c).len() as int)),
        escaped_char(c).len() > 0,
        (escaped_char(c) + rest).skip(escaped_char(c).len() as int) == rest,
{
    let t = escaped_char(c) + rest;
    assert(t.skip(escaped_char(c).len() as int) =~= rest);
}

/// The first character of an escaped text.
proof fn lemma_escaped_first(s: Seq<char>)
    requires
        s.len() > 0,
    ensures
        escaped(s) == escaped_char(s[0]) + escaped(s.skip(1)),
    decreases s.len(),
{
    if s.len() == 1 {
        assert(s.drop_last() =~= Seq::<char>::empty());
        assert(s.skip(1) =~= Seq::<char>::empty());
        assert(escaped(s.drop_last()) =~= Seq::<char>::empty());
        assert(escaped(s.skip(1)) =~= Seq::<char>::empty());
        assert(escaped(s) =~= escaped_char(s[0]) + escaped(s.skip(1)));
    } else {
        lemma_escaped_first(s.drop_last());
        assert(s.drop_last().skip(1) =~= s.skip(1).drop_last());
        assert(escaped(s) =~= escaped_char(s[0]) + escaped(s.skip(1)));
    }
}

/// Whatever a text holds, its escaped form is valid inside a JSON string, and a reader gets the
/// very text back.
pub proof fn lemma_escaped_reads_back(s: Seq<char>)
    ensures
        unescaped(escaped(s)) == Some(s),
    decreases s.len(),
{
    if s.len() == 0 {
        assert(s =~= Seq::<char>::empty());
    } else {
        let rest = s.skip(1);
        lemma_escaped_first(s);
        lemma_escaped_reads_back(rest);
        lemma_unescape_char(s[0], escaped(rest));
        assert(seq![s[0]] + rest =~= s);
    }
}

/// Texts that differ stay different when they are escaped.
pub proof fn lemma_escaped_injective(s: Seq<char>, t: Seq<char>)
    requires
        escaped(s) == escaped(t),
    ensures
        s == t,
{
    lemma_escaped_reads_back(s);
    lemma_escaped_reads_back(t);
}

/// A character that a JSON string can hold as it is.
pub open spec fn is_bare(c: char) -> bool {
    c != '"' && c != '\\' && c as int >= 0x20
}

/// Only what must be escaped is: a text that a JSON string can hold as it is stays as it is.
pub proof fn lemma_bare_text_is_unchanged(s: Seq<char>)
    requires
        forall|i: int| 0 <= i < s.len() ==> is_bare(#[trigger] s[i]),
    ensures
        escaped(s) == s,
    decreases s.len(),
{
    if s.len() == 0 {
        assert(s =~= Seq::<char>::empty());
    } else {
        let rest = s.drop_last();
        assert forall|i: int| 0 <= i < rest.len() implies is_bare(#[trigger] rest[i]) by {
            assert(rest[i] == s[i]);
        }
        lemma_bare_text_is_unchanged(rest);
        assert(is_bare(s[s.len() - 1]));
        assert(rest + seq![s.last()] =~= s);
    }
}

/// Each character is escaped by itself: two texts one behind the other are escaped as they are
/// apart.
pub proof fn lemma_escaped_in_parts(s: Seq<char>, t: Seq<char>)
    ensures
        escaped(s + t) == escaped(s) + escaped(t),
    decreases t.len(),
{
    if t.len() == 0 {
        assert(s + t =~= s);
        assert(escaped(s) =~= escaped(s) + escaped(t));
    } else {
        lemma_escaped_in_parts(s, t.drop_last());
        assert((s + t).drop_last() =~= s + t.drop_last());
        assert(escaped(s + t) =~= escaped(s) + escaped(t));
    }
}

} // verus!
