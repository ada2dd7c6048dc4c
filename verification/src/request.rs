//! Lines of the log.

use crate::binary64::Binary64;
use crate::decimal;
use crate::text;
use crate::text::{characters, excerpt, find_word_end, find_word_start};
use vstd::prelude::*;
use vstd::string::*;

verus! {

/// The key of requests that name none.
pub const DEFAULT_KEY: &'static str = "_default";

/// The timestamp and the key of a line: its first two words. The timestamp must be a finite
/// number, and a line with no second word has the default key. What follows is left alone.
pub open spec fn request_on(s: Seq<char>) -> Option<(Binary64, Seq<char>)> {
    let from = text::word_start(s, 0);
    let to = text::word_end(s, from);
    let key_from = text::word_start(s, to);
    let key_to = text::word_end(s, key_from);
    if from == s.len() {
        None
    } else {
        match decimal::reading(s.subrange(from, to)) {
            None => None,
            Some(timestamp) => if !timestamp.finite() {
                None
            } else if key_from == s.len() {
                Some((timestamp, DEFAULT_KEY@))
            } else {
                Some((timestamp, s.subrange(key_from, key_to)))
            },
        }
    }
}

/// The timestamp and the key of a line, or `None` where it is malformed.
pub fn parse_line(line: &str) -> (request: Option<(Binary64, String)>)
    ensures
        match request {
            None => request_on(line@) is None,
            Some((timestamp, key)) => request_on(line@) == Some((timestamp, key@)),
        },
{
    let s = characters(line);
    let from = find_word_start(&s, 0);
    if from == s.len() {
        return None;
    }
    let to = find_word_end(&s, from);
    let word = excerpt(&s, from, to);
    let timestamp = match Binary64::parse(word.as_str()) {
        None => return None,
        Some(timestamp) => timestamp,
    };
    if !timestamp.is_finite() {
        return None;
    }
    let key_from = find_word_start(&s, to);
    if key_from == s.len() {
        return Some((timestamp, DEFAULT_KEY.to_string()));
    }
    let key_to = find_word_end(&s, key_from);
    Some((timestamp, excerpt(&s, key_from, key_to)))
}

/// A word: something, and no white space in it.
pub open spec fn is_word(s: Seq<char>) -> bool {
    &&& s.len() > 0
    &&& forall|i: int| 0 <= i < s.len() ==> !text::is_white_space(#[trigger] s[i])
}

/// A run of characters that are no white space ends where the next white space is.
proof fn lemma_word_end(s: Seq<char>, from: int, to: int)
    requires
        0 <= from <= to <= s.len(),
        forall|i: int| from <= i < to ==> !text::is_white_space(#[trigger] s[i]),
        to == s.len() || text::is_white_space(s[to]),
    ensures
        text::word_end(s, from) == to,
    decreases to - from,
{
    if from < to {
        lemma_word_end(s, from + 1, to);
    }
}

/// A run of characters that are no white space, up to where it ends.
proof fn lemma_word_end_bounds(s: Seq<char>, from: int)
    requires
        0 <= from <= s.len(),
    ensures
        from <= text::word_end(s, from) <= s.len(),
        forall|i: int|
            from <= i < text::word_end(s, from) ==> !text::is_white_space(#[trigger] s[i]),
    decreases s.len() - from,
{
    if from < s.len() && !text::is_white_space(s[from]) {
        lemma_word_end_bounds(s, from + 1);
    }
}

proof fn lemma_word_start_bounds(s: Seq<char>, from: int)
    requires
        0 <= from <= s.len(),
    ensures
        from <= text::word_start(s, from) <= s.len(),
        text::word_start(s, from) < s.len() ==> !text::is_white_space(
            s[text::word_start(s, from)],
        ),
    decreases s.len() - from,
{
    if from < s.len() && text::is_white_space(s[from]) {
        lemma_word_start_bounds(s, from + 1);
    }
}

/// A request has a finite timestamp, and a key that is a word.
pub proof fn lemma_request_is_finite_and_named(s: Seq<char>)
    requires
        request_on(s) is Some,
    ensures
        (request_on(s)->Some_0).0.finite(),
        is_word((request_on(s)->Some_0).1),
{
    let from = text::word_start(s, 0);
    let to = text::word_end(s, from);
    let key_from = text::word_start(s, to);
    let key_to = text::word_end(s, key_from);
    reveal_strlit("_default");
    lemma_word_start_bounds(s, 0);
    lemma_word_end_bounds(s, from);
    lemma_word_start_bounds(s, to);
    lemma_word_end_bounds(s, key_from);
    if key_from < s.len() {
        lemma_word_end_bounds(s, key_from + 1);
        let key = s.subrange(key_from, key_to);
        assert forall|i: int| 0 <= i < key.len() implies !text::is_white_space(
            #[trigger] key[i],
        ) by {
            assert(key[i] == s[key_from + i]);
        }
    }
}

/// A line of one word is a request of the default key.
pub proof fn lemma_one_word_has_default_key(word: Seq<char>)
    requires
        is_word(word),
    ensures
        request_on(word) == match decimal::reading(word) {
            None => None::<(Binary64, Seq<char>)>,
            Some(timestamp) => if timestamp.finite() {
                Some((timestamp, DEFAULT_KEY@))
            } else {
                None
            },
        },
{
    let n = word.len() as int;
    assert(!text::is_white_space(word[0]));
    assert(text::word_start(word, 0) == 0);
    lemma_word_end(word, 0, n);
    assert(text::word_start(word, n) == n);
    assert(word.subrange(0, n) =~= word);
}

/// A line of two words with a space between them is a request of the second word, at the time
/// that the first word is.
pub proof fn lemma_two_words_are_timestamp_and_key(word: Seq<char>, key: Seq<char>)
    requires
        is_word(word),
        is_word(key),
    ensures
        request_on(word.push(' ') + key) == match decimal::reading(word) {
            None => None::<(Binary64, Seq<char>)>,
            Some(timestamp) => if timestamp.finite() {
                Some((timestamp, key))
            } else {
                None
            },
        },
{
    let s = word.push(' ') + key;
    let n = word.len() as int;
    let m = s.len() as int;
    assert forall|i: int| 0 <= i < n implies !text::is_white_space(#[trigger] s[i]) by {
        assert(s[i] == word[i]);
    }
    assert forall|i: int| n + 1 <= i < m implies !text::is_white_space(#[trigger] s[i]) by {
        assert(s[i] == key[i - n - 1]);
    }
    assert(s[n] == ' ');
    assert(!text::is_white_space(s[0]));
    assert(text::word_start(s, 0) == 0);
    lemma_word_end(s, 0, n);
    assert(!text::is_white_space(s[n + 1]));
    assert(text::word_start(s, n + 1) == n + 1);
    assert(text::word_start(s, n) == n + 1);
    lemma_word_end(s, n + 1, m);
    assert(s.subrange(0, n) =~= word);
    assert(s.subrange(n + 1, m) =~= key);
}

/// A request that names the default key is the same as one that names none.
pub proof fn lemma_default_key_is_shared(word: Seq<char>)
    requires
        is_word(word),
    ensures
        request_on(word.push(' ') + DEFAULT_KEY@) == request_on(word),
{
    reveal_strlit("_default");
    lemma_one_word_has_default_key(word);
    lemma_two_words_are_timestamp_and_key(word, DEFAULT_KEY@);
}

/// White space in front of a word is skipped.
proof fn lemma_skip_gap(s: Seq<char>, from: int, to: int)
    requires
        0 <= from <= to <= s.len(),
        forall|i: int| from <= i < to ==> text::is_white_space(#[trigger] s[i]),
        to == s.len() || !text::is_white_space(s[to]),
    ensures
        text::word_start(s, from) == to,
    decreases to - from,
{
    if from < to {
        lemma_skip_gap(s, from + 1, to);
    }
}

/// However much white space, and of whatever kind, is around them, the first word of a line is
/// the time of its request and the second one the key; what is behind them does not matter.
pub proof fn lemma_first_two_words_count(
    gap: Seq<char>,
    word: Seq<char>,
    between: Seq<char>,
    key: Seq<char>,
    rest: Seq<char>,
)
    requires
        text::is_blank(gap),
        is_word(word),
        between.len() > 0,
        text::is_blank(between),
        is_word(key),
        rest.len() > 0 ==> text::is_white_space(rest[0]),
    ensures
        request_on(gap + word + between + key + rest) == match decimal::reading(word) {
            None => None::<(Binary64, Seq<char>)>,
            Some(timestamp) => if timestamp.finite() {
                Some((timestamp, key))
            } else {
                None
            },
        },
{
    let s = gap + word + between + key + rest;
    let a = gap.len() as int;
    let b = a + word.len();
    let c = b + between.len();
    let d = c + key.len();
    assert forall|i: int| 0 <= i < a implies text::is_white_space(#[trigger] s[i]) by {
        assert(s[i] == gap[i]);
    }
    assert forall|i: int| a <= i < b implies !text::is_white_space(#[trigger] s[i]) by {
        assert(s[i] == word[i - a]);
    }
    assert forall|i: int| b <= i < c implies text::is_white_space(#[trigger] s[i]) by {
        assert(s[i] == between[i - b]);
    }
    assert forall|i: int| c <= i < d implies !text::is_white_space(#[trigger] s[i]) by {
        assert(s[i] == key[i - c]);
    }
    if rest.len() > 0 {
        assert(s[d] == rest[0]);
    }
    assert(!text::is_white_space(s[a]));
    assert(text::is_white_space(s[b]));
    assert(!text::is_white_space(s[c]));
    lemma_skip_gap(s, 0, a);
    lemma_word_end(s, a, b);
    lemma_skip_gap(s, b, c);
    lemma_word_end(s, c, d);
    assert(s.subrange(a, b) =~= word);
    assert(s.subrange(c, d) =~= key);
}

/// A line with one word on it is a request of the default key, whatever white space is around the
/// word; and a line of white space is none.
pub proof fn lemma_lone_word_has_default_key(gap: Seq<char>, word: Seq<char>, behind: Seq<char>)
    requires
        text::is_blank(gap),
        is_word(word),
        text::is_blank(behind),
    ensures
        request_on(gap + word + behind) == match decimal::reading(word) {
            None => None::<(Binary64, Seq<char>)>,
            Some(timestamp) => if timestamp.finite() {
                Some((timestamp, "_default"@))
            } else {
                None
            },
        },
        request_on(gap) is None,
{
    let s = gap + word + behind;
    let a = gap.len() as int;
    let b = a + word.len();
    let n = s.len() as int;
    assert forall|i: int| 0 <= i < a implies text::is_white_space(#[trigger] s[i]) by {
        assert(s[i] == gap[i]);
    }
    assert forall|i: int| a <= i < b implies !text::is_white_space(#[trigger] s[i]) by {
        assert(s[i] == word[i - a]);
    }
    assert forall|i: int| b <= i < n implies text::is_white_space(#[trigger] s[i]) by {
        assert(s[i] == behind[i - b]);
    }
    assert(!text::is_white_space(s[a]));
    lemma_skip_gap(s, 0, a);
    lemma_word_end(s, a, b);
    lemma_skip_gap(s, b, n);
    assert(s.subrange(a, b) =~= word);
    lemma_skip_gap(gap, 0, a);
}

} // verus!
