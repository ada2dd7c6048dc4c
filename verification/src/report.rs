//! What is printed.

use crate::binary64::Binary64;
use crate::decimal;
use crate::display;
use crate::display::ts_display;
use crate::json;
use crate::json::json_escape;
use crate::options::{Config, Format, Settings};
use crate::round_trip;
use crate::simulation;
use crate::simulation::{Event, Outcome, Replay, Stats, Tally};
use crate::text;
use crate::text::{joined, to_numeral};
use vstd::prelude::*;
use vstd::string::*;

verus! {

/// The line for a request in plain text.
pub open spec fn text_line(allowed: bool, timestamp: Binary64, key: Seq<char>) -> Seq<char> {
    (if allowed {
        "ALLOW "@
    } else {
        "DENY "@
    }) + display::displayed_in_thousandths(timestamp) + " "@ + key
}

/// The line for a request in JSON: an object with the verdict, the timestamp and the key.
pub open spec fn json_line(allowed: bool, timestamp: Binary64, key: Seq<char>) -> Seq<char> {
    (if allowed {
        "{\"verdict\":\"allow\",\"timestamp\":"@
    } else {
        "{\"verdict\":\"deny\",\"timestamp\":"@
    }) + display::displayed(timestamp) + ",\"key\":\""@ + json::escaped(key) + "\"}"@
}

/// What is printed for a line of the log: a line for each request, unless only the summary is
/// wanted.
pub open spec fn printed(settings: Settings, event: Event) -> Option<Seq<char>> {
    match event {
        Event::Decided { allowed, timestamp, key } => if settings.quiet {
            None
        } else {
            match settings.format {
                Format::Text => Some(text_line(allowed, timestamp, key)),
                Format::Json => Some(json_line(allowed, timestamp, key)),
            }
        },
        _ => None,
    }
}

/// What is complained of a line of the log: that it is malformed.
pub open spec fn complained(event: Event) -> Option<Seq<char>> {
    match event {
        Event::Malformed { line } => Some("ratelimit-sim: skipping malformed line: "@ + line),
        _ => None,
    }
}

/// The summary of a replay.
pub open spec fn summed_up(tally: Tally, keys: nat) -> Seq<char> {
    "total="@ + text::numeral(tally.total) + " allowed="@ + text::numeral(tally.allowed)
        + " denied="@ + text::numeral(tally.denied) + " malformed="@ + text::numeral(
        tally.malformed,
    ) + " keys="@ + text::numeral(keys)
}

/// The line to print on standard output, if any.
pub fn verdict_line(config: &Config, outcome: &Outcome) -> (line: Option<String>)
    ensures
        match line {
            Some(line) => printed(config@, outcome@) == Some(line@),
            None => printed(config@, outcome@) is None,
        },
{
    if config.quiet {
        return None;
    }
    match outcome {
        Outcome::Decided { allowed, timestamp, key } => match config.format {
            Format::Text => {
                let verdict = if *allowed { "ALLOW " } else { "DENY " };
                let mut line = joined(verdict, ts_display(*timestamp).as_str());
                line.append(" ");
                line.append(key.as_str());
                Some(line)
            },
            Format::Json => {
                let verdict = if *allowed {
                    "{\"verdict\":\"allow\",\"timestamp\":"
                } else {
                    "{\"verdict\":\"deny\",\"timestamp\":"
                };
                let mut line = joined(verdict, timestamp.to_text().as_str());
                line.append(",\"key\":\"");
                line.append(json_escape(key.as_str()).as_str());
                line.append("\"}");
                Some(line)
            },
        },
        _ => None,
    }
}

/// The line to print on standard error, if any.
pub fn complaint(outcome: &Outcome) -> (line: Option<String>)
    ensures
        match line {
            Some(line) => complained(outcome@) == Some(line@),
            None => complained(outcome@) is None,
        },
{
    match outcome {
        Outcome::Malformed { line } => Some(
            joined("ratelimit-sim: skipping malformed line: ", line.as_str()),
        ),
        _ => None,
    }
}

/// The summary of a replay in which `keys` keys came up.
pub fn summary(stats: &Stats, keys: usize) -> (line: String)
    ensures
        line@ == summed_up(stats@, keys as nat),
{
    let mut line = joined("total=", to_numeral(stats.total).as_str());
    line.append(" allowed=");
    line.append(to_numeral(stats.allowed).as_str());
    line.append(" denied=");
    line.append(to_numeral(stats.denied).as_str());
    line.append(" malformed=");
    line.append(to_numeral(stats.malformed).as_str());
    line.append(" keys=");
    line.append(to_numeral(keys as u64).as_str());
    line
}

/// A JSON number without an exponent: a minus sign if any, a whole part with no needless zero in
/// front, and a point with digits behind it if any.
pub open spec fn is_json_number(s: Seq<char>) -> bool {
    let start = if s.len() > 0 && s[0] == '-' { 1int } else { 0int };
    let whole = decimal::digits_end(s, start);
    &&& start < whole
    &&& s[start] == '0' ==> whole == start + 1
    &&& {
        ||| whole == s.len()
        ||| {
            &&& whole + 1 < s.len()
            &&& s[whole] == '.'
            &&& decimal::digits_end(s, whole + 1) == s.len()
        }
    }
}

/// A numeral has no needless zero in front.
proof fn lemma_numeral_starts(n: nat)
    ensures
        n > 0 ==> text::numeral(n)[0] != '0',
        n == 0 ==> text::numeral(n).len() == 1,
    decreases n,
{
    if n >= 10 {
        lemma_numeral_starts(n / 10);
        round_trip::lemma_numeral_spells(n / 10);
    }
}

proof fn lemma_fixed_is_json_number(negative: bool, n: nat, places: nat)
    ensures
        is_json_number(display::with_sign(negative, display::fixed(n, places))),
{
    let s = display::with_sign(negative, display::fixed(n, places));
    let start = if negative { 1int } else { 0int };
    let t = decimal::ten(places);
    let head = if places == 0 { n } else { n / t };
    let whole = text::numeral(head);
    round_trip::lemma_numeral_spells(head);
    lemma_numeral_starts(head);
    let point = start + whole.len();
    assert forall|i: int| start <= i < point implies decimal::is_digit(#[trigger] s[i]) by {
        assert(s[i] == whole[i - start]);
    }
    assert(s[start] == whole[0]);
    if places == 0 {
        round_trip::lemma_digits_end(s, start, point);
    } else {
        let part = display::padded(n, places);
        round_trip::lemma_padded_spells(n, places);
        assert(s[point] == '.');
        round_trip::lemma_digits_end(s, start, point);
        assert forall|i: int| point + 1 <= i < s.len() implies decimal::is_digit(
            #[trigger] s[i],
        ) by {
            assert(s[i] == part[i - point - 1]);
        }
        round_trip::lemma_digits_end(s, point + 1, s.len() as int);
    }
}

/// What a finite number is written as is a JSON number.
pub proof fn lemma_displayed_is_json_number(number: Binary64)
    requires
        number.finite(),
    ensures
        is_json_number(display::displayed(number)),
{
    let negative = number.is_negative();
    let magnitude = number.magnitude();
    if magnitude == 0 {
        lemma_fixed_is_json_number(negative, 0, 0);
    } else {
        let (digits, power) = display::shortest(magnitude);
        if power >= 0 {
            lemma_fixed_is_json_number(negative, digits * decimal::ten(power as nat), 0);
        } else {
            lemma_fixed_is_json_number(negative, digits, (-power) as nat);
        }
    }
}

/// A line in JSON is an object whatever is in the key: its timestamp is a JSON number that reads
/// as the very timestamp, and its key is the inside of a JSON string that reads as the very key.
pub proof fn lemma_json_line_reads_back(allowed: bool, timestamp: Binary64, key: Seq<char>)
    requires
        timestamp.finite(),
    ensures
        is_json_number(display::displayed(timestamp)),
        decimal::reading(display::displayed(timestamp)) == Some(timestamp),
        json::unescaped(json::escaped(key)) == Some(key),
        json_line(allowed, timestamp, key) == "{\"verdict\":\""@ + (if allowed {
            "allow"@
        } else {
            "deny"@
        }) + "\",\"timestamp\":"@ + display::displayed(timestamp) + ",\"key\":\""@
            + json::escaped(key) + "\"}"@,
{
    lemma_displayed_is_json_number(timestamp);
    round_trip::lemma_displayed_reads_back(timestamp);
    json::lemma_escaped_reads_back(key);
    reveal_strlit("{\"verdict\":\"allow\",\"timestamp\":");
    reveal_strlit("{\"verdict\":\"deny\",\"timestamp\":");
    reveal_strlit("{\"verdict\":\"");
    reveal_strlit("allow");
    reveal_strlit("deny");
    reveal_strlit("\",\"timestamp\":");
    assert("{\"verdict\":\"allow\",\"timestamp\":"@ =~= "{\"verdict\":\""@ + "allow"@
        + "\",\"timestamp\":"@);
    assert("{\"verdict\":\"deny\",\"timestamp\":"@ =~= "{\"verdict\":\""@ + "deny"@
        + "\",\"timestamp\":"@);
}

/// A line more, if there is one.
pub open spec fn with_line(lines: Seq<Seq<char>>, line: Option<Seq<char>>) -> Seq<Seq<char>> {
    match line {
        Some(line) => lines.push(line),
        None => lines,
    }
}

/// All that is printed for `lines` of a log, from where the replay stands.
pub open spec fn printed_over(
    replay: Replay,
    settings: Settings,
    lines: Seq<Seq<char>>,
) -> Seq<Seq<char>>
    decreases lines.len(),
{
    if lines.len() == 0 {
        Seq::<Seq<char>>::empty()
    } else {
        let before = lines.drop_last();
        let event = replay.run(settings, before).event(settings, lines.last());
        with_line(printed_over(replay, settings, before), printed(settings, event))
    }
}

/// All that is complained of `lines` of a log, from where the replay stands.
pub open spec fn complained_over(
    replay: Replay,
    settings: Settings,
    lines: Seq<Seq<char>>,
) -> Seq<Seq<char>>
    decreases lines.len(),
{
    if lines.len() == 0 {
        Seq::<Seq<char>>::empty()
    } else {
        let before = lines.drop_last();
        let event = replay.run(settings, before).event(settings, lines.last());
        with_line(complained_over(replay, settings, before), complained(event))
    }
}

/// Files are printed as one log: what is printed for one after the other is what is printed for
/// all of their lines, and so is what is complained of.
pub proof fn lemma_files_are_printed_as_one_log(
    replay: Replay,
    settings: Settings,
    lines: Seq<Seq<char>>,
    more: Seq<Seq<char>>,
)
    ensures
        printed_over(replay, settings, lines + more) == printed_over(replay, settings, lines)
            + printed_over(replay.run(settings, lines), settings, more),
        complained_over(replay, settings, lines + more) == complained_over(replay, settings, lines)
            + complained_over(replay.run(settings, lines), settings, more),
    decreases more.len(),
{
    let after = replay.run(settings, lines);
    if more.len() == 0 {
        assert(lines + more =~= lines);
    } else {
        let earlier = more.drop_last();
        lemma_files_are_printed_as_one_log(replay, settings, lines, earlier);
        simulation::lemma_files_are_one_log(replay, settings, lines, earlier);
        assert((lines + more).drop_last() =~= lines + earlier);
        let event = after.run(settings, earlier).event(settings, more.last());
        assert(with_line(
            printed_over(replay, settings, lines) + printed_over(after, settings, earlier),
            printed(settings, event),
        ) =~= printed_over(replay, settings, lines) + printed_over(after, settings, more));
        assert(with_line(
            complained_over(replay, settings, lines) + complained_over(after, settings, earlier),
            complained(event),
        ) =~= complained_over(replay, settings, lines) + complained_over(after, settings, more));
    }
}

/// With `--quiet` no line is printed for any request.
pub proof fn lemma_quiet_prints_nothing(settings: Settings, event: Event)
    requires
        settings.quiet,
    ensures
        printed(settings, event) is None,
{
}

/// Whether at `at` there is a label and behind it, up to `end`, a count in decimal digits, with
/// no digit behind them and no needless zero in front.
pub open spec fn has_count(s: Seq<char>, at: int, label: Seq<char>, count: nat, end: int) -> bool {
    let from = at + label.len();
    &&& 0 <= at && from < end <= s.len()
    &&& s.subrange(at, from) == label
    &&& decimal::digits_end(s, from) == end
    &&& decimal::spelled(s, from, end) == count
    &&& s[from] == '0' ==> end == from + 1
}

proof fn lemma_has_count(front: Seq<char>, label: Seq<char>, count: nat, rest: Seq<char>)
    requires
        rest.len() > 0 ==> !decimal::is_digit(rest[0]),
    ensures
        has_count(
            front + label + text::numeral(count) + rest,
            front.len() as int,
            label,
            count,
            (front + label + text::numeral(count)).len() as int,
        ),
{
    let digits = text::numeral(count);
    let s = front + label + digits + rest;
    let at = front.len() as int;
    let from = at + label.len();
    let end = from + digits.len();
    round_trip::lemma_numeral_spells(count);
    lemma_numeral_starts(count);
    assert(s.subrange(at, from) =~= label);
    assert(s.subrange(from, end) =~= digits);
    assert forall|i: int| from <= i < end implies decimal::is_digit(#[trigger] s[i]) by {
        assert(s[i] == digits[i - from]);
    }
    if rest.len() > 0 {
        assert(s[end] == rest[0]);
    }
    round_trip::lemma_digits_end(s, from, end);
    round_trip::lemma_spelled_within(s, from, end, digits);
    assert(s[from] == digits[0]);
}

/// The summary reads back: the digits behind each label spell the count of that name, and there
/// is nothing else in it. The ends of the first four counts are returned.
pub proof fn lemma_summary_reads_back(tally: Tally, keys: nat) -> (ends: (int, int, int, int))
    ensures
        has_count(summed_up(tally, keys), 0, "total="@, tally.total, ends.0),
        has_count(summed_up(tally, keys), ends.0, " allowed="@, tally.allowed, ends.1),
        has_count(summed_up(tally, keys), ends.1, " denied="@, tally.denied, ends.2),
        has_count(summed_up(tally, keys), ends.2, " malformed="@, tally.malformed, ends.3),
        has_count(
            summed_up(tally, keys),
            ends.3,
            " keys="@,
            keys,
            summed_up(tally, keys).len() as int,
        ),
{
    let s = summed_up(tally, keys);
    let none = Seq::<char>::empty();
    let (a, b, c, d, e) = (
        text::numeral(tally.total),
        text::numeral(tally.allowed),
        text::numeral(tally.denied),
        text::numeral(tally.malformed),
        text::numeral(keys),
    );
    reveal_strlit("total=");
    reveal_strlit(" allowed=");
    reveal_strlit(" denied=");
    reveal_strlit(" malformed=");
    reveal_strlit(" keys=");
    let one = "total="@ + a;
    let two = one + " allowed="@ + b;
    let three = two + " denied="@ + c;
    let four = three + " malformed="@ + d;
    let r4 = " keys="@ + e;
    let r3 = " malformed="@ + d + r4;
    let r2 = " denied="@ + c + r3;
    let r1 = " allowed="@ + b + r2;
    assert(s =~= none + "total="@ + a + r1);
    assert(s =~= one + " allowed="@ + b + r2);
    assert(s =~= two + " denied="@ + c + r3);
    assert(s =~= three + " malformed="@ + d + r4);
    assert(s =~= four + " keys="@ + e + none);
    assert(none + "total="@ + a =~= one);
    assert(r1[0] == ' ' && r2[0] == ' ' && r3[0] == ' ' && r4[0] == ' ');
    lemma_has_count(none, "total="@, tally.total, r1);
    lemma_has_count(one, " allowed="@, tally.allowed, r2);
    lemma_has_count(two, " denied="@, tally.denied, r3);
    lemma_has_count(three, " malformed="@, tally.malformed, r4);
    lemma_has_count(four, " keys="@, keys, none);
    assert(four + " keys="@ + e =~= s);
    (one.len() as int, two.len() as int, three.len() as int, four.len() as int)
}

/// Summaries are the same only where all five counts are.
pub proof fn lemma_summaries_tell_counts_apart(
    tally: Tally,
    keys: nat,
    other: Tally,
    other_keys: nat,
)
    requires
        summed_up(tally, keys) == summed_up(other, other_keys),
    ensures
        tally.total == other.total,
        tally.allowed == other.allowed,
        tally.denied == other.denied,
        tally.malformed == other.malformed,
        keys == other_keys,
{
    let a = lemma_summary_reads_back(tally, keys);
    let b = lemma_summary_reads_back(other, other_keys);
}

/// A line in plain text is the verdict, the timestamp and the key, with a space between them.
pub proof fn lemma_text_line_is_three_words(allowed: bool, timestamp: Binary64, key: Seq<char>)
    ensures
        text_line(allowed, timestamp, key) == (if allowed {
            "ALLOW"@
        } else {
            "DENY"@
        }).push(' ') + display::displayed_in_thousandths(timestamp).push(' ') + key,
{
    reveal_strlit("ALLOW ");
    reveal_strlit("ALLOW");
    reveal_strlit("DENY ");
    reveal_strlit("DENY");
    reveal_strlit(" ");
    assert("ALLOW "@ =~= "ALLOW"@.push(' '));
    assert("DENY "@ =~= "DENY"@.push(' '));
    let shown = display::displayed_in_thousandths(timestamp);
    assert(shown.push(' ') =~= shown + " "@);
    assert(text_line(allowed, timestamp, key) =~= (if allowed {
        "ALLOW"@
    } else {
        "DENY"@
    }).push(' ') + shown.push(' ') + key);
}

/// Unless only the summary is wanted, one line is printed for each request, in the format that is
/// asked for, and starts with its verdict. Nothing is printed for other lines, and only malformed
/// ones are complained of.
pub proof fn lemma_every_request_is_printed(settings: Settings, event: Event)
    requires
        !settings.quiet,
    ensures
        printed(settings, event) is Some <==> event is Decided,
        event is Decided && settings.format is Text ==> printed(settings, event) == Some(
            text_line(event->allowed, event->timestamp, event->key),
        ) && (printed(settings, event)->Some_0)[0] == if event->allowed {
            'A'
        } else {
            'D'
        },
        event is Decided && settings.format is Json ==> printed(settings, event) == Some(
            json_line(event->allowed, event->timestamp, event->key),
        ) && (printed(settings, event)->Some_0)[0] == '{' && (printed(settings, event)->Some_0)[12]
            == if event->allowed {
            'a'
        } else {
            'd'
        },
        complained(event) is Some <==> event is Malformed,
        event matches Event::Malformed { line } ==> complained(event) == Some(
            "ratelimit-sim: skipping malformed line: "@ + line,
        ),
{
    reveal_strlit("ALLOW ");
    reveal_strlit("DENY ");
    reveal_strlit("{\"verdict\":\"allow\",\"timestamp\":");
    reveal_strlit("{\"verdict\":\"deny\",\"timestamp\":");
}

} // verus!
