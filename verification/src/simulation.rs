//! Replaying a log of requests.

use crate::binary64;
use crate::binary64::Binary64;
use crate::buckets;
use crate::buckets::Buckets;
use crate::fixed_window;
use crate::fixed_window::WindowCounts;
use crate::limiter;
use crate::limiter::LimiterState;
use crate::options::{Config, Settings};
use crate::request;
use crate::request::parse_line;
use crate::sliding_window;
use crate::sliding_window::WindowLog;
use crate::text;
use crate::text::trim;
use crate::token_bucket;
use crate::token_bucket::TokenBucket;
use vstd::prelude::*;
use vstd::string::*;

verus! {

/// How many lines were requests, allowed and denied ones, and how many were malformed.
#[derive(Clone, Copy)]
pub struct Stats {
    pub total: u64,
    pub allowed: u64,
    pub denied: u64,
    pub malformed: u64,
}

/// What `Stats` count.
pub struct Tally {
    pub total: nat,
    pub allowed: nat,
    pub denied: nat,
    pub malformed: nat,
}

impl View for Stats {
    type V = Tally;

    open spec fn view(&self) -> Tally {
        Tally {
            total: self.total as nat,
            allowed: self.allowed as nat,
            denied: self.denied as nat,
            malformed: self.malformed as nat,
        }
    }
}

/// Nothing counted yet.
pub open spec fn nothing() -> Tally {
    Tally { total: 0, allowed: 0, denied: 0, malformed: 0 }
}

impl Tally {
    /// Every request was either allowed or denied.
    pub open spec fn adds_up(self) -> bool {
        self.total == self.allowed + self.denied
    }
}

impl Default for Stats {
    /// Nothing counted yet.
    fn default() -> (stats: Stats)
        ensures
            stats@ == nothing(),
    {
        Stats { total: 0, allowed: 0, denied: 0, malformed: 0 }
    }
}

/// What became of a line.
pub enum Outcome {
    /// There was nothing on it.
    Blank,
    /// It was no request. What was on it, without the white space around it.
    Malformed { line: String },
    /// It was a request.
    Decided { allowed: bool, timestamp: Binary64, key: String },
}

/// What an `Outcome` holds.
#[verifier::ext_equal]
pub enum Event {
    Blank,
    Malformed { line: Seq<char> },
    Decided { allowed: bool, timestamp: Binary64, key: Seq<char> },
}

impl View for Outcome {
    type V = Event;

    open spec fn view(&self) -> Event {
        match self {
            Outcome::Blank => Event::Blank,
            Outcome::Malformed { line } => Event::Malformed { line: line@ },
            Outcome::Decided { allowed, timestamp, key } => Event::Decided {
                allowed: *allowed,
                timestamp: *timestamp,
                key: key@,
            },
        }
    }
}

/// Where a replay stands.
#[verifier::ext_equal]
pub struct Replay {
    pub buckets: Map<Seq<char>, LimiterState>,
    pub tally: Tally,
}

/// A replay before the first line.
pub open spec fn beginning() -> Replay {
    Replay { buckets: Map::<Seq<char>, LimiterState>::empty(), tally: nothing() }
}

/// The request on a line, if any.
pub open spec fn request_of(line: Seq<char>) -> Option<(Binary64, Seq<char>)> {
    if text::trimmed(line).len() == 0 {
        None
    } else {
        request::request_on(text::trimmed(line))
    }
}

impl Replay {
    /// The limiter that decides the next request of `key`.
    pub open spec fn limiter(self, settings: Settings, key: Seq<char>) -> LimiterState {
        buckets::limiter_for(
            self.buckets,
            key,
            settings.algorithm,
            settings.rate,
            settings.burst,
        )
    }

    /// What becomes of the next line.
    pub open spec fn event(self, settings: Settings, line: Seq<char>) -> Event {
        let content = text::trimmed(line);
        if content.len() == 0 {
            Event::Blank
        } else {
            match request::request_on(content) {
                None => Event::Malformed { line: content },
                Some((timestamp, key)) => Event::Decided {
                    allowed: self.limiter(settings, key).allows(timestamp),
                    timestamp,
                    key,
                },
            }
        }
    }

    /// Where the replay stands after the next line.
    pub open spec fn after(self, settings: Settings, line: Seq<char>) -> Replay {
        match self.event(settings, line) {
            Event::Blank => self,
            Event::Malformed { line: _ } => Replay {
                buckets: self.buckets,
                tally: Tally { malformed: self.tally.malformed + 1, ..self.tally },
            },
            Event::Decided { allowed, timestamp, key } => Replay {
                buckets: self.buckets.insert(
                    key,
                    self.limiter(settings, key).after(timestamp),
                ),
                tally: if allowed {
                    Tally {
                        total: self.tally.total + 1,
                        allowed: self.tally.allowed + 1,
                        ..self.tally
                    }
                } else {
                    Tally {
                        total: self.tally.total + 1,
                        denied: self.tally.denied + 1,
                        ..self.tally
                    }
                },
            },
        }
    }

    /// Where the replay stands after `lines`.
    pub open spec fn run(self, settings: Settings, lines: Seq<Seq<char>>) -> Replay
        decreases lines.len(),
    {
        if lines.len() == 0 {
            self
        } else {
            self.run(settings, lines.drop_last()).after(settings, lines.last())
        }
    }
}

impl Stats {
    /// Whether the counters that a line adds to can take one more.
    pub open spec fn has_room(self, event: Event) -> bool {
        match event {
            Event::Blank => true,
            Event::Malformed { line: _ } => self.malformed < u64::MAX,
            Event::Decided { allowed, timestamp: _, key: _ } => {
                &&& self.total < u64::MAX
                &&& allowed ==> self.allowed < u64::MAX
                &&& !allowed ==> self.denied < u64::MAX
            },
        }
    }
}

/// Replays the next line of a log.
pub fn process(
    line: &str,
    config: &Config,
    buckets: &mut Buckets,
    stats: &mut Stats,
) -> (outcome: Outcome)
    requires
        old(buckets).well_formed(),
        old(stats).has_room((Replay { buckets: old(buckets)@, tally: old(stats)@ }).event(
            config@,
            line@,
        )),
    ensures
        final(buckets).well_formed(),
        outcome@ == (Replay { buckets: old(buckets)@, tally: old(stats)@ }).event(config@, line@),
        (Replay { buckets: final(buckets)@, tally: final(stats)@ }) == (Replay {
            buckets: old(buckets)@,
            tally: old(stats)@,
        }).after(config@, line@),
{
    let content = trim(line);
    if content.as_str().is_empty() {
        return Outcome::Blank;
    }
    match parse_line(content.as_str()) {
        None => {
            stats.malformed = stats.malformed + 1;
            Outcome::Malformed { line: content }
        },
        Some((timestamp, key)) => {
            let allowed = buckets.allow(
                key.as_str(),
                config.algorithm,
                config.rate,
                config.burst,
                timestamp,
            );
            stats.total = stats.total + 1;
            if allowed {
                stats.allowed = stats.allowed + 1;
            } else {
                stats.denied = stats.denied + 1;
            }
            Outcome::Decided { allowed, timestamp, key }
        },
    }
}

/// The timestamps of the requests of `key` on `lines`.
pub open spec fn times_of(lines: Seq<Seq<char>>, key: Seq<char>) -> Seq<Binary64>
    decreases lines.len(),
{
    if lines.len() == 0 {
        Seq::<Binary64>::empty()
    } else {
        let before = times_of(lines.drop_last(), key);
        match request_of(lines.last()) {
            Some((timestamp, k)) => if k == key {
                before.push(timestamp)
            } else {
                before
            },
            None => before,
        }
    }
}

/// How many of `lines` are requests.
pub open spec fn requests_on(lines: Seq<Seq<char>>) -> nat
    decreases lines.len(),
{
    if lines.len() == 0 {
        0
    } else {
        requests_on(lines.drop_last()) + if request_of(lines.last()) is Some {
            1nat
        } else {
            0nat
        }
    }
}

/// How many of `lines` are blank.
pub open spec fn blanks_on(lines: Seq<Seq<char>>) -> nat
    decreases lines.len(),
{
    if lines.len() == 0 {
        0
    } else {
        blanks_on(lines.drop_last()) + if text::trimmed(lines.last()).len() == 0 {
            1nat
        } else {
            0nat
        }
    }
}

/// Keys do not touch one another: whatever else is in the log, a key's limiter is where the
/// key's own requests alone have brought it, and only keys that have made a request have one.
pub proof fn lemma_keys_are_independent(
    settings: Settings,
    lines: Seq<Seq<char>>,
    key: Seq<char>,
)
    ensures
        beginning().run(settings, lines).limiter(settings, key) == LimiterState::fresh(
            settings.algorithm,
            settings.rate,
            settings.burst,
        ).run(times_of(lines, key)),
        beginning().run(settings, lines).buckets.contains_key(key) <==> times_of(lines, key).len()
            > 0,
    decreases lines.len(),
{
    if lines.len() > 0 {
        let earlier = lines.drop_last();
        lemma_keys_are_independent(settings, earlier, key);
        if let Some((timestamp, k)) = request_of(lines.last()) {
            if k == key {
                let times = times_of(lines, key);
                assert(times.drop_last() =~= times_of(earlier, key));
            }
        }
    }
}

/// A verdict depends on the key's own earlier requests and on nothing else in the log.
pub proof fn lemma_verdict_depends_on_key_alone(
    settings: Settings,
    lines: Seq<Seq<char>>,
    others: Seq<Seq<char>>,
    line: Seq<char>,
)
    requires
        request_of(line) is Some,
        times_of(lines, (request_of(line)->Some_0).1) == times_of(
            others,
            (request_of(line)->Some_0).1,
        ),
    ensures
        beginning().run(settings, lines).event(settings, line) == beginning().run(
            settings,
            others,
        ).event(settings, line),
{
    let key = (request_of(line)->Some_0).1;
    lemma_keys_are_independent(settings, lines, key);
    lemma_keys_are_independent(settings, others, key);
}

/// With sliding windows, in whatever order the requests come, a request is allowed exactly where
/// the key's allowed requests leave room for it in the window that ends with it, and in every
/// later one that would hold it.
pub proof fn lemma_sliding_window_counts_exactly(
    settings: Settings,
    lines: Seq<Seq<char>>,
    line: Seq<char>,
    timestamp: Binary64,
    key: Seq<char>,
)
    requires
        settings.algorithm is SlidingWindow,
        request_of(line) == Some((timestamp, key)),
    ensures
        ({
            let log = WindowLog::empty(settings.rate, settings.burst);
            let granted = log.granted(times_of(lines, key));
            beginning().run(settings, lines).event(settings, line) == (Event::Decided {
                allowed: sliding_window::has_room(log.window, log.limit, timestamp, granted),
                timestamp,
                key,
            })
        }),
{
    let log = WindowLog::empty(settings.rate, settings.burst);
    let times = times_of(lines, key);
    lemma_keys_are_independent(settings, lines, key);
    limiter::lemma_run_of_log(log, times);
    sliding_window::lemma_denied_only_when_window_is_full(log, times, timestamp);
}

/// With sliding windows, a request that is not earlier than any of the key's before it is allowed
/// exactly where fewer than `limit` of the key's allowed requests are in the window that ends
/// with it.
pub proof fn lemma_sliding_window_counts_in_order(
    settings: Settings,
    lines: Seq<Seq<char>>,
    line: Seq<char>,
    timestamp: Binary64,
    key: Seq<char>,
)
    requires
        settings.algorithm is SlidingWindow,
        request_of(line) == Some((timestamp, key)),
        forall|i: int|
            0 <= i < times_of(lines, key).len() ==> (#[trigger] times_of(lines, key)[i]).at_most(
                timestamp,
            ),
    ensures
        ({
            let log = WindowLog::empty(settings.rate, settings.burst);
            let granted = log.granted(times_of(lines, key));
            beginning().run(settings, lines).event(settings, line) == (Event::Decided {
                allowed: sliding_window::in_trailing_window(log.window, timestamp, granted)
                    < log.limit,
                timestamp,
                key,
            })
        }),
{
    let log = WindowLog::empty(settings.rate, settings.burst);
    let times = times_of(lines, key);
    lemma_keys_are_independent(settings, lines, key);
    limiter::lemma_run_of_log(log, times);
    sliding_window::lemma_counts_exactly_in_order(log, times, timestamp);
}

/// With fixed windows, in whatever order the requests come, a request is allowed exactly where
/// fewer than `limit` of the key's requests have been allowed in its window.
pub proof fn lemma_fixed_window_counts_exactly(
    settings: Settings,
    lines: Seq<Seq<char>>,
    line: Seq<char>,
    timestamp: Binary64,
    key: Seq<char>,
)
    requires
        settings.algorithm is FixedWindow,
        request_of(line) == Some((timestamp, key)),
    ensures
        ({
            let counter = WindowCounts::idle(settings.rate, settings.burst);
            let granted = counter.granted_in(times_of(lines, key), counter.index(timestamp));
            beginning().run(settings, lines).event(settings, line) == (Event::Decided {
                allowed: granted < counter.limit,
                timestamp,
                key,
            })
        }),
{
    let counter = WindowCounts::idle(settings.rate, settings.burst);
    let times = times_of(lines, key);
    lemma_keys_are_independent(settings, lines, key);
    limiter::lemma_run_of_counter(counter, times);
    fixed_window::lemma_denied_only_when_slice_is_full(counter, times, timestamp);
}

/// With token buckets, whatever is in the log and in whatever order, every key's tokens are a
/// number from 0 to the burst.
pub proof fn lemma_tokens_stay_within_burst(
    settings: Settings,
    lines: Seq<Seq<char>>,
    key: Seq<char>,
)
    requires
        settings.algorithm is TokenBucket,
        settings.rate.is_nan() || settings.rate.value() >= 0,
        !settings.burst.is_nan(),
        settings.burst.value() >= 0,
    ensures
        beginning().run(settings, lines).limiter(settings, key) matches LimiterState::TokenBucket(b)
            && b.within_capacity() && b.capacity == settings.burst,
{
    let bucket = TokenBucket::full(settings.burst, settings.rate);
    lemma_keys_are_independent(settings, lines, key);
    token_bucket::lemma_full_is_within_capacity(settings.burst, settings.rate);
    limiter::lemma_run_of_bucket(bucket, times_of(lines, key));
    token_bucket::lemma_run_stays_within_capacity(bucket, times_of(lines, key));
}

/// With token buckets, in whatever order the requests come, a request is allowed exactly where at
/// least one token is there after the key's bucket has been refilled.
pub proof fn lemma_token_bucket_counts_tokens(
    settings: Settings,
    lines: Seq<Seq<char>>,
    line: Seq<char>,
    timestamp: Binary64,
    key: Seq<char>,
)
    requires
        settings.algorithm is TokenBucket,
        settings.rate.is_nan() || settings.rate.value() >= 0,
        !settings.burst.is_nan(),
        settings.burst.value() >= 0,
        request_of(line) == Some((timestamp, key)),
    ensures
        ({
            let bucket = TokenBucket::full(settings.burst, settings.rate).run(times_of(lines, key));
            beginning().run(settings, lines).event(settings, line) == (Event::Decided {
                allowed: bucket.refilled(timestamp).value() >= binary64::one(),
                timestamp,
                key,
            })
        }),
{
    let bucket = TokenBucket::full(settings.burst, settings.rate);
    let times = times_of(lines, key);
    lemma_keys_are_independent(settings, lines, key);
    limiter::lemma_run_of_bucket(bucket, times);
    token_bucket::lemma_denied_only_below_one_token(bucket, times, timestamp);
}

/// A request that is decided has a finite timestamp, and a key with no white space in it.
pub proof fn lemma_decided_requests(replay: Replay, settings: Settings, line: Seq<char>)
    requires
        replay.event(settings, line) is Decided,
    ensures
        replay.event(settings, line)->timestamp.finite(),
        request::is_word(replay.event(settings, line)->key),
{
    request::lemma_request_is_finite_and_named(text::trimmed(line));
}

/// Every line is counted once: as a request, as malformed, or not at all where it is blank; and
/// every request is either allowed or denied.
pub proof fn lemma_every_line_is_counted_once(settings: Settings, lines: Seq<Seq<char>>)
    ensures
        beginning().run(settings, lines).tally.adds_up(),
        beginning().run(settings, lines).tally.total == requests_on(lines),
        beginning().run(settings, lines).tally.total + beginning().run(
            settings,
            lines,
        ).tally.malformed + blanks_on(lines) == lines.len(),
    decreases lines.len(),
{
    if lines.len() > 0 {
        lemma_every_line_is_counted_once(settings, lines.drop_last());
    }
}

/// The keys of the requests on `lines`.
pub open spec fn keys_on(lines: Seq<Seq<char>>) -> Set<Seq<char>>
    decreases lines.len(),
{
    if lines.len() == 0 {
        Set::<Seq<char>>::empty()
    } else {
        let before = keys_on(lines.drop_last());
        match request_of(lines.last()) {
            Some((_, key)) => before.insert(key),
            None => before,
        }
    }
}

/// The keys that the summary counts are the different keys that requests in the log have, each
/// counted once.
pub proof fn lemma_summary_counts_keys(settings: Settings, lines: Seq<Seq<char>>)
    ensures
        keys_on(lines).finite(),
        forall|key: Seq<char>|
            #[trigger] keys_on(lines).contains(key) <==> times_of(lines, key).len() > 0,
        beginning().run(settings, lines).buckets.dom() == keys_on(lines),
        beginning().run(settings, lines).buckets.len() == keys_on(lines).len(),
    decreases lines.len(),
{
    if lines.len() > 0 {
        lemma_summary_counts_keys(settings, lines.drop_last());
    }
    assert(beginning().run(settings, lines).buckets.dom() =~= keys_on(lines));
}

/// Every key that comes up has had a request allowed, its first, if the burst is 1 or more: there
/// are no more keys than allowed requests.
pub proof fn lemma_no_more_keys_than_allowed(settings: Settings, lines: Seq<Seq<char>>)
    requires
        (Binary64 { bits: binary64::ONE }).at_most(settings.burst),
    ensures
        keys_on(lines).len() <= beginning().run(settings, lines).tally.allowed,
    decreases lines.len(),
{
    if lines.len() > 0 {
        let earlier = lines.drop_last();
        lemma_no_more_keys_than_allowed(settings, earlier);
        lemma_summary_counts_keys(settings, earlier);
        if let Some((timestamp, key)) = request_of(lines.last()) {
            if !keys_on(earlier).contains(key) {
                limiter::lemma_first_request_is_allowed(
                    settings.algorithm,
                    settings.rate,
                    settings.burst,
                    timestamp,
                );
            } else {
                assert(keys_on(lines) =~= keys_on(earlier));
            }
        }
    }
}

/// Files are replayed as one log: the limiters and the counts carry over from one to the next.
pub proof fn lemma_files_are_one_log(
    replay: Replay,
    settings: Settings,
    lines: Seq<Seq<char>>,
    more: Seq<Seq<char>>,
)
    ensures
        replay.run(settings, lines + more) == replay.run(settings, lines).run(settings, more),
    decreases more.len(),
{
    if more.len() == 0 {
        assert(lines + more =~= lines);
    } else {
        lemma_files_are_one_log(replay, settings, lines, more.drop_last());
        assert((lines + more).drop_last() =~= lines + more.drop_last());
    }
}

/// Blank and malformed lines touch no limiter.
pub proof fn lemma_only_requests_touch_limiters(
    replay: Replay,
    settings: Settings,
    line: Seq<char>,
)
    requires
        request_of(line) is None,
    ensures
        replay.after(settings, line).buckets == replay.buckets,
{
}

/// Printing options do not change what is decided or counted.
pub proof fn lemma_printing_changes_nothing(
    replay: Replay,
    settings: Settings,
    other: Settings,
    lines: Seq<Seq<char>>,
)
    requires
        settings.rate == other.rate,
        settings.burst == other.burst,
        settings.algorithm == other.algorithm,
    ensures
        replay.run(settings, lines) == replay.run(other, lines),
    decreases lines.len(),
{
    if lines.len() > 0 {
        lemma_printing_changes_nothing(replay, settings, other, lines.drop_last());
    }
}

/// What becomes of a line: a blank one is white space and nothing else; one that is no request is
/// malformed, and reported without the white space around it; and a request is decided at its own
/// time and for its own key.
pub proof fn lemma_lines_by_kind(replay: Replay, settings: Settings, line: Seq<char>)
    ensures
        replay.event(settings, line) is Blank <==> text::is_blank(line),
        replay.event(settings, line) is Malformed <==> !text::is_blank(line) && request_of(
            line,
        ) is None,
        replay.event(settings, line) is Malformed ==> replay.event(settings, line)->line
            == text::trimmed(line),
        replay.event(settings, line) is Decided <==> request_of(line) is Some,
        replay.event(settings, line) is Decided ==> request_of(line) == Some(
            (
                replay.event(settings, line)->timestamp,
                replay.event(settings, line)->key,
            ),
        ),
{
    let ends = text::lemma_trimmed(line);
}

/// How many requests on `lines` have the verdict `allowed`.
pub open spec fn verdicts_on(settings: Settings, lines: Seq<Seq<char>>, allowed: bool) -> nat
    decreases lines.len(),
{
    if lines.len() == 0 {
        0
    } else {
        let event = beginning().run(settings, lines.drop_last()).event(settings, lines.last());
        verdicts_on(settings, lines.drop_last(), allowed) + if event is Decided && event->allowed
            == allowed {
            1nat
        } else {
            0nat
        }
    }
}

/// The counts of allowed and denied requests are those of the verdicts that were given, and the
/// count of malformed lines that of lines that are neither blank nor requests.
pub proof fn lemma_tally_counts_verdicts(settings: Settings, lines: Seq<Seq<char>>)
    ensures
        beginning().run(settings, lines).tally.allowed == verdicts_on(settings, lines, true),
        beginning().run(settings, lines).tally.denied == verdicts_on(settings, lines, false),
        beginning().run(settings, lines).tally.malformed == lines.len() - requests_on(lines)
            - blanks_on(lines),
    decreases lines.len(),
{
    lemma_every_line_is_counted_once(settings, lines);
    if lines.len() > 0 {
        lemma_tally_counts_verdicts(settings, lines.drop_last());
    }
}

} // verus!
