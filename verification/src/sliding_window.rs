//! The sliding window log.

use crate::accuracy;
use crate::binary64;
use crate::binary64::Binary64;
use crate::order;
use crate::rounding;
use crate::window;
use crate::window::window_params;
use vstd::prelude::*;

verus! {

/// A sliding window log: it keeps every allowed request's timestamp, earliest first, and counts
/// how many fall within the trailing window. Requests may come in any order: one that comes late
/// must leave room in the windows that end after it, too. Exact, but memory grows with the number
/// of allowed requests.
pub struct SlidingWindowLog {
    pub window: Binary64,
    pub limit: usize,
    pub timestamps: Vec<Binary64>,
}

/// What a sliding window log holds.
#[verifier::ext_equal]
pub struct WindowLog {
    pub window: Binary64,
    pub limit: usize,
    pub timestamps: Seq<Binary64>,
}

/// Whether a request at the time `then` has fallen out of the window by the time `end`.
pub open spec fn is_expired(window: Binary64, end: Binary64, then: Binary64) -> bool {
    window.less(end.difference(then))
}

/// Whether a request at the time `then` is in the window that ends at `end`: it is not later, and
/// has not fallen out of it.
pub open spec fn is_in_window(window: Binary64, end: Binary64, then: Binary64) -> bool {
    then.at_most(end) && !is_expired(window, end, then)
}

/// How many of the requests at `times` are in the window that ends at `end`.
pub open spec fn in_trailing_window(window: Binary64, end: Binary64, times: Seq<Binary64>) -> nat
    decreases times.len(),
{
    if times.len() == 0 {
        0
    } else {
        in_trailing_window(window, end, times.drop_last()) + if is_in_window(
            window,
            end,
            times.last(),
        ) {
            1nat
        } else {
            0nat
        }
    }
}

/// Whether, after requests at `times`, there is room for one at the time `now`: fewer than the
/// limit are in the window that ends with it, and in each window that ends with a later one of
/// them and would hold the new one too.
pub open spec fn has_room(
    window: Binary64,
    limit: usize,
    now: Binary64,
    times: Seq<Binary64>,
) -> bool {
    &&& in_trailing_window(window, now, times) < limit
    &&& forall|i: int|
        0 <= i < times.len() && is_in_window(window, #[trigger] times[i], now)
            ==> in_trailing_window(window, times[i], times) < limit
}

/// Earlier times come first, and what is no time comes last.
pub open spec fn in_order(a: Binary64, b: Binary64) -> bool {
    b.is_nan() || a.at_most(b)
}

pub open spec fn is_sorted(times: Seq<Binary64>) -> bool {
    forall|i: int, j: int|
        0 <= i < j < times.len() ==> in_order(#[trigger] times[i], #[trigger] times[j])
}

/// Where `now` goes among sorted times: behind all that it does not come before.
pub open spec fn place(times: Seq<Binary64>, now: Binary64) -> int
    decreases times.len(),
{
    if times.len() == 0 || in_order(times.last(), now) {
        times.len() as int
    } else {
        place(times.drop_last(), now)
    }
}

impl WindowLog {
    /// Whether a request at the time `now` is allowed: the requests allowed so far leave room for
    /// it in every trailing window.
    pub open spec fn allows(self, now: Binary64) -> bool {
        has_room(self.window, self.limit, now, self.timestamps)
    }

    /// The log after a request at the time `now`.
    pub open spec fn after(self, now: Binary64) -> WindowLog {
        WindowLog {
            window: self.window,
            limit: self.limit,
            timestamps: if self.allows(now) {
                self.timestamps.insert(place(self.timestamps, now), now)
            } else {
                self.timestamps
            },
        }
    }

    /// A log of no requests.
    pub open spec fn empty(rate: Binary64, burst: Binary64) -> WindowLog {
        WindowLog {
            window: burst.quotient(rate),
            limit: burst.count(),
            timestamps: Seq::<Binary64>::empty(),
        }
    }

    /// The log after requests at `times`, in turn.
    pub open spec fn run(self, times: Seq<Binary64>) -> WindowLog
        decreases times.len(),
    {
        if times.len() == 0 {
            self
        } else {
            self.run(times.drop_last()).after(times.last())
        }
    }

    /// The timestamps of those requests at `times` that are allowed, in turn.
    pub open spec fn granted(self, times: Seq<Binary64>) -> Seq<Binary64>
        decreases times.len(),
    {
        if times.len() == 0 {
            Seq::<Binary64>::empty()
        } else {
            let before = self.granted(times.drop_last());
            if self.run(times.drop_last()).allows(times.last()) {
                before.push(times.last())
            } else {
                before
            }
        }
    }
}

impl View for SlidingWindowLog {
    type V = WindowLog;

    open spec fn view(&self) -> WindowLog {
        WindowLog { window: self.window, limit: self.limit, timestamps: self.timestamps@ }
    }
}

/// Where the first `low` of `times` have fallen out of a window and the first `high` are not
/// later than its end, those between are in it.
proof fn lemma_in_window_between(
    window: Binary64,
    end: Binary64,
    times: Seq<Binary64>,
    low: int,
    high: int,
)
    requires
        0 <= low <= times.len(),
        0 <= high <= times.len(),
        forall|i: int|
            0 <= i < times.len() ==> (is_expired(window, end, #[trigger] times[i]) <==> i < low),
        forall|i: int| 0 <= i < times.len() ==> ((#[trigger] times[i]).at_most(end) <==> i < high),
    ensures
        in_trailing_window(window, end, times) == if low < high {
            high - low
        } else {
            0
        },
    decreases times.len(),
{
    if times.len() > 0 {
        let rest = times.drop_last();
        let n = rest.len() as int;
        let l = if low < n {
            low
        } else {
            n
        };
        let h = if high < n {
            high
        } else {
            n
        };
        assert(times.last() == times[n]);
        assert forall|i: int| 0 <= i < rest.len() implies (is_expired(
            window,
            end,
            #[trigger] rest[i],
        ) <==> i < l) && (rest[i].at_most(end) <==> i < h) by {
            assert(rest[i] == times[i]);
        }
        lemma_in_window_between(window, end, rest, l, h);
    }
}

/// What comes before an expired request is expired.
proof fn lemma_expired_first(window: Binary64, now: Binary64, earlier: Binary64, then: Binary64)
    requires
        in_order(earlier, then),
        is_expired(window, now, then),
    ensures
        is_expired(window, now, earlier),
{
    order::lemma_excess_of_numbers(window, now, then);
    order::lemma_excess_ordered(window, now, then, now, earlier);
}

/// Sorted times stay sorted when one is put in its place.
proof fn lemma_place(times: Seq<Binary64>, now: Binary64)
    requires
        is_sorted(times),
    ensures
        0 <= place(times, now) <= times.len(),
        is_sorted(times.insert(place(times, now), now)),
        forall|i: int| 0 <= i < place(times, now) ==> in_order(#[trigger] times[i], now),
        forall|i: int| place(times, now) <= i < times.len() ==> !in_order(#[trigger] times[i], now),
    decreases times.len(),
{
    if times.len() > 0 && !in_order(times.last(), now) {
        lemma_place(times.drop_last(), now);
        assert forall|i: int| 0 <= i < place(times, now) implies in_order(
            #[trigger] times[i],
            now,
        ) by {
            assert(times.drop_last()[i] == times[i]);
        }
        assert forall|i: int| place(times, now) <= i < times.len() implies !in_order(
            #[trigger] times[i],
            now,
        ) by {
            if i < times.len() - 1 {
                assert(times.drop_last()[i] == times[i]);
            }
        }
    } else if times.len() > 0 {
        assert forall|i: int| 0 <= i < times.len() implies in_order(#[trigger] times[i], now) by {
            if i < times.len() - 1 {
                assert(in_order(times[i], times[times.len() - 1]));
            }
        }
    }
    let at = place(times, now);
    let longer = times.insert(at, now);
    assert forall|i: int, j: int| 0 <= i < j < longer.len() implies in_order(
        #[trigger] longer[i],
        #[trigger] longer[j],
    ) by {
        if i < at && j > at {
            assert(in_order(times[i], times[j - 1]));
        } else if i > at {
            assert(in_order(times[i - 1], times[j - 1]));
        } else if j < at {
            assert(in_order(times[i], times[j]));
        } else if i == at {
            assert(!in_order(times[j - 1], now));
        } else {
            assert(in_order(times[i], now));
        }
    }
}

fn comes_in_order(a: Binary64, b: Binary64) -> (ordered: bool)
    ensures
        ordered == in_order(a, b),
{
    b.without_sign() > rounding::INFINITE || a.is_at_most(b)
}

impl SlidingWindowLog {
    /// The timestamps are sorted.
    pub open spec fn well_formed(self) -> bool {
        is_sorted(self.timestamps@)
    }

    /// A log of no requests.
    pub fn new(rate: Binary64, burst: Binary64) -> (log: SlidingWindowLog)
        ensures
            log.well_formed(),
            log@ == WindowLog::empty(rate, burst),
    {
        let (window, limit) = window_params(rate, burst);
        SlidingWindowLog { window, limit, timestamps: Vec::new() }
    }

    /// How many of the timestamps have fallen out of the window by the time `end`. They are the
    /// first ones.
    fn expired(&self, end: Binary64) -> (n: usize)
        requires
            self.well_formed(),
        ensures
            n <= self.timestamps@.len(),
            forall|i: int|
                0 <= i < self.timestamps@.len() ==> (is_expired(
                    self.window,
                    end,
                    #[trigger] self.timestamps@[i],
                ) <==> i < n),
    {
        let mut low: usize = 0;
        let mut high: usize = self.timestamps.len();
        while low < high
            invariant
                self.well_formed(),
                low <= high <= self.timestamps@.len(),
                forall|i: int|
                    0 <= i < low ==> is_expired(self.window, end, #[trigger] self.timestamps@[i]),
                forall|i: int|
                    high <= i < self.timestamps@.len() ==> !is_expired(
                        self.window,
                        end,
                        #[trigger] self.timestamps@[i],
                    ),
            decreases high - low,
        {
            let middle: usize = low + (high - low) / 2;
            if self.window.is_less(end.minus(self.timestamps[middle])) {
                proof {
                    let then = self.timestamps@[middle as int];
                    assert forall|i: int| 0 <= i <= middle implies is_expired(
                        self.window,
                        end,
                        #[trigger] self.timestamps@[i],
                    ) by {
                        if i < middle {
                            lemma_expired_first(self.window, end, self.timestamps@[i], then);
                        }
                    }
                }
                low = middle + 1;
            } else {
                proof {
                    let then = self.timestamps@[middle as int];
                    assert forall|i: int| middle <= i < self.timestamps@.len() implies !is_expired(
                        self.window,
                        end,
                        #[trigger] self.timestamps@[i],
                    ) by {
                        if i > middle && is_expired(self.window, end, self.timestamps@[i]) {
                            lemma_expired_first(self.window, end, then, self.timestamps@[i]);
                        }
                    }
                }
                high = middle;
            }
        }
        low
    }

    /// Where `now` goes among the timestamps.
    fn place_of(&self, now: Binary64) -> (at: usize)
        requires
            self.well_formed(),
        ensures
            at == place(self.timestamps@, now),
    {
        let mut low: usize = 0;
        let mut high: usize = self.timestamps.len();
        proof {
            lemma_place(self.timestamps@, now);
        }
        while low < high
            invariant
                low <= place(self.timestamps@, now) <= high <= self.timestamps@.len(),
                forall|i: int|
                    0 <= i < place(self.timestamps@, now) ==> in_order(
                        #[trigger] self.timestamps@[i],
                        now,
                    ),
                forall|i: int|
                    place(self.timestamps@, now) <= i < self.timestamps@.len() ==> !in_order(
                        #[trigger] self.timestamps@[i],
                        now,
                    ),
            decreases high - low,
        {
            let middle: usize = low + (high - low) / 2;
            if comes_in_order(self.timestamps[middle], now) {
                low = middle + 1;
            } else {
                high = middle;
            }
        }
        low
    }

    /// How many of the requests allowed so far are in the window that ends at `end`.
    fn held(&self, end: Binary64) -> (n: usize)
        requires
            self.well_formed(),
        ensures
            n == in_trailing_window(self.window, end, self.timestamps@),
    {
        let low = self.expired(end);
        let high: usize = if end.without_sign() > rounding::INFINITE {
            0
        } else {
            self.place_of(end)
        };
        proof {
            lemma_place(self.timestamps@, end);
            lemma_in_window_between(
                self.window,
                end,
                self.timestamps@,
                low as int,
                high as int,
            );
        }
        if low < high {
            high - low
        } else {
            0
        }
    }

    /// Whether there is room for a request at the time `now`, which goes to the place `at`.
    fn has_room(&self, now: Binary64, at: usize) -> (room: bool)
        requires
            self.well_formed(),
            at == place(self.timestamps@, now),
        ensures
            room == has_room(self.window, self.limit, now, self.timestamps@),
    {
        if self.held(now) >= self.limit {
            return false;
        }
        let mut i: usize = at;
        proof {
            lemma_place(self.timestamps@, now);
            assert forall|k: int|
                0 <= k < at && is_in_window(
                    self.window,
                    #[trigger] self.timestamps@[k],
                    now,
                ) implies in_trailing_window(self.window, self.timestamps@[k], self.timestamps@)
                < self.limit by {
                lemma_same_end(self.window, self.timestamps@[k], now, self.timestamps@);
            }
        }
        while i < self.timestamps.len() && !self.window.is_less(self.timestamps[i].minus(now))
            invariant
                self.well_formed(),
                at <= i <= self.timestamps@.len(),
                in_trailing_window(self.window, now, self.timestamps@) < self.limit,
                forall|k: int|
                    0 <= k < i && is_in_window(self.window, #[trigger] self.timestamps@[k], now)
                        ==> in_trailing_window(self.window, self.timestamps@[k], self.timestamps@)
                        < self.limit,
            decreases self.timestamps@.len() - i,
        {
            let end = self.timestamps[i];
            if now.is_at_most(end) && self.held(end) >= self.limit {
                return false;
            }
            i = i + 1;
        }
        proof {
            assert forall|k: int| i <= k < self.timestamps@.len() implies !is_in_window(
                self.window,
                #[trigger] self.timestamps@[k],
                now,
            ) by {
                let (end, later) = (self.timestamps@[i as int], self.timestamps@[k]);
                if k > i && now.at_most(later) {
                    assert(in_order(end, later));
                    order::lemma_excess_ordered(self.window, end, now, later, now);
                }
            }
        }
        true
    }

    /// Decides a request at the time `now`, and notes it where it is allowed.
    pub fn allow(&mut self, now: Binary64) -> (allowed: bool)
        requires
            old(self).well_formed(),
        ensures
            final(self).well_formed(),
            allowed == old(self)@.allows(now),
            final(self)@ == old(self)@.after(now),
    {
        let at = self.place_of(now);
        if self.has_room(now, at) {
            proof {
                lemma_place(self.timestamps@, now);
            }
            self.timestamps.insert(at, now);
            true
        } else {
            false
        }
    }
}

/// Two ends at the same time end the same window.
proof fn lemma_same_end(window: Binary64, a: Binary64, b: Binary64, times: Seq<Binary64>)
    requires
        a.at_most(b),
        b.at_most(a),
    ensures
        in_trailing_window(window, a, times) == in_trailing_window(window, b, times),
    decreases times.len(),
{
    if times.len() > 0 {
        let then = times.last();
        lemma_same_end(window, a, b, times.drop_last());
        if is_expired(window, a, then) && !then.is_nan() {
            order::lemma_excess_ordered(window, a, then, b, then);
        }
        if is_expired(window, b, then) && !then.is_nan() {
            order::lemma_excess_ordered(window, b, then, a, then);
        }
    }
}

/// One request more counts where it is in the window, wherever it stands among the others.
proof fn lemma_insert(
    window: Binary64,
    end: Binary64,
    times: Seq<Binary64>,
    at: int,
    then: Binary64,
)
    requires
        0 <= at <= times.len(),
    ensures
        in_trailing_window(window, end, times.insert(at, then)) == in_trailing_window(
            window,
            end,
            times,
        ) + if is_in_window(window, end, then) {
            1nat
        } else {
            0nat
        },
    decreases times.len(),
{
    let longer = times.insert(at, then);
    if at == times.len() {
        assert(longer.drop_last() =~= times);
    } else {
        assert(longer.drop_last() =~= times.drop_last().insert(at, then));
        lemma_insert(window, end, times.drop_last(), at, then);
    }
}

/// Where no request so far is later than `now`, there is room for one exactly where fewer than
/// the limit are in the window that ends with it.
pub proof fn lemma_room_at_the_end(
    window: Binary64,
    limit: usize,
    now: Binary64,
    times: Seq<Binary64>,
)
    requires
        forall|i: int| 0 <= i < times.len() ==> (#[trigger] times[i]).at_most(now),
    ensures
        has_room(window, limit, now, times) <==> in_trailing_window(window, now, times) < limit,
{
    assert forall|i: int|
        0 <= i < times.len() && is_in_window(
            window,
            #[trigger] times[i],
            now,
        ) implies in_trailing_window(window, times[i], times) == in_trailing_window(
        window,
        now,
        times,
    ) by {
        lemma_same_end(window, times[i], now, times);
    }
}

/// An allowed request is itself counted from then on, at its own time, in any window that is not
/// of negative length.
pub proof fn lemma_counted_at_once(log: WindowLog, now: Binary64)
    requires
        !now.is_nan(),
        !log.window.is_negative(),
        is_sorted(log.timestamps),
    ensures
        is_sorted(log.after(now).timestamps),
        in_trailing_window(log.window, now, log.after(now).timestamps) == in_trailing_window(
            log.window,
            now,
            log.timestamps,
        ) + if log.allows(now) {
            1nat
        } else {
            0nat
        },
{
    order::lemma_same_difference(now);
    lemma_place(log.timestamps, now);
    lemma_insert(log.window, now, log.timestamps, place(log.timestamps, now), now);
}

/// After a request the log holds what it held, and at most the request's own time more.
pub proof fn lemma_only_now_is_added(log: WindowLog, now: Binary64)
    requires
        is_sorted(log.timestamps),
    ensures
        forall|i: int|
            0 <= i < log.after(now).timestamps.len() ==> (#[trigger] log.after(now).timestamps[i])
                == now || log.timestamps.contains(log.after(now).timestamps[i]),
{
    let at = place(log.timestamps, now);
    let after = log.after(now).timestamps;
    lemma_place(log.timestamps, now);
    assert forall|i: int| 0 <= i < after.len() implies (#[trigger] after[i]) == now
        || log.timestamps.contains(after[i]) by {
        assert(after.contains(after[i]));
        lemma_insert_contains(log.timestamps, at, now, after[i]);
    }
}

/// A log holds every request that it has ever allowed, and no other.
proof fn lemma_run_holds_granted(start: WindowLog, times: Seq<Binary64>)
    requires
        start.timestamps.len() == 0,
    ensures
        start.run(times).window == start.window,
        start.run(times).limit == start.limit,
        is_sorted(start.run(times).timestamps),
        forall|end: Binary64|
            #![trigger in_trailing_window(start.window, end, start.run(times).timestamps)]
            #![trigger in_trailing_window(start.window, end, start.granted(times))]
            in_trailing_window(start.window, end, start.run(times).timestamps)
                == in_trailing_window(start.window, end, start.granted(times)),
        forall|then: Binary64|
            #![trigger start.run(times).timestamps.contains(then)]
            #![trigger start.granted(times).contains(then)]
            start.run(times).timestamps.contains(then) <==> start.granted(times).contains(then),
    decreases times.len(),
{
    if times.len() > 0 {
        let earlier = times.drop_last();
        let before = start.run(earlier);
        let held = before.timestamps;
        let granted = start.granted(earlier);
        let now = times.last();
        let at = place(held, now);
        lemma_run_holds_granted(start, earlier);
        lemma_place(held, now);
        if before.allows(now) {
            let longer = held.insert(at, now);
            assert forall|end: Binary64|
                in_trailing_window(start.window, end, longer) == in_trailing_window(
                    start.window,
                    end,
                    granted.push(now),
                ) by {
                lemma_insert(start.window, end, held, at, now);
                assert(granted.push(now).drop_last() =~= granted);
            }
            assert forall|then: Binary64| longer.contains(then) <==> granted.push(now).contains(
                then,
            ) by {
                lemma_insert_contains(held, at, now, then);
                assert(granted.push(now) =~= granted.insert(granted.len() as int, now));
                lemma_insert_contains(granted, granted.len() as int, now, then);
            }
        }
    } else {
        assert(start.timestamps =~= start.granted(times));
    }
}

proof fn lemma_insert_contains(times: Seq<Binary64>, at: int, now: Binary64, then: Binary64)
    requires
        0 <= at <= times.len(),
    ensures
        times.insert(at, now).contains(then) <==> then == now || times.contains(then),
{
    let longer = times.insert(at, now);
    if longer.contains(then) {
        let k = longer.index_of(then);
        if k < at {
            assert(times[k] == then);
        } else if k > at {
            assert(times[k - 1] == then);
        }
    }
    assert(longer[at] == now);
    if times.contains(then) {
        let k = times.index_of(then);
        if k < at {
            assert(longer[k] == then);
        } else {
            assert(longer[k + 1] == then);
        }
    }
}

/// A request is denied exactly where the requests allowed before it leave no room for it, in the
/// window that ends with it or in a later one that would hold it: all that were ever allowed are
/// counted, in whatever order they came, and only in the windows that they are in.
pub proof fn lemma_denied_only_when_window_is_full(
    start: WindowLog,
    times: Seq<Binary64>,
    now: Binary64,
)
    requires
        start.timestamps.len() == 0,
    ensures
        start.run(times).allows(now) <==> has_room(
            start.window,
            start.limit,
            now,
            start.granted(times),
        ),
{
    let held = start.run(times).timestamps;
    let granted = start.granted(times);
    lemma_run_holds_granted(start, times);
    if has_room(start.window, start.limit, now, granted) {
        assert forall|i: int|
            0 <= i < held.len() && is_in_window(
                start.window,
                #[trigger] held[i],
                now,
            ) implies in_trailing_window(start.window, held[i], held) < start.limit by {
            assert(held.contains(held[i]));
            let k = granted.index_of(held[i]);
            assert(granted[k] == held[i]);
        }
    }
    if has_room(start.window, start.limit, now, held) {
        assert forall|i: int|
            0 <= i < granted.len() && is_in_window(
                start.window,
                #[trigger] granted[i],
                now,
            ) implies in_trailing_window(start.window, granted[i], granted) < start.limit by {
            assert(granted.contains(granted[i]));
            let k = held.index_of(granted[i]);
            assert(held[k] == granted[i]);
        }
    }
}

/// A request that is not earlier than any before it is allowed exactly where fewer than `limit`
/// of the allowed ones are in the window that ends with it.
pub proof fn lemma_counts_exactly_in_order(start: WindowLog, times: Seq<Binary64>, now: Binary64)
    requires
        start.timestamps.len() == 0,
        forall|i: int| 0 <= i < times.len() ==> (#[trigger] times[i]).at_most(now),
    ensures
        start.run(times).allows(now) <==> in_trailing_window(
            start.window,
            now,
            start.granted(times),
        ) < start.limit,
{
    lemma_granted_are_not_later(start, times, now);
    lemma_denied_only_when_window_is_full(start, times, now);
    lemma_room_at_the_end(start.window, start.limit, now, start.granted(times));
}

proof fn lemma_granted_are_not_later(start: WindowLog, times: Seq<Binary64>, now: Binary64)
    requires
        forall|i: int| 0 <= i < times.len() ==> (#[trigger] times[i]).at_most(now),
    ensures
        forall|i: int|
            0 <= i < start.granted(times).len() ==> (#[trigger] start.granted(times)[i]).at_most(
                now,
            ),
    decreases times.len(),
{
    if times.len() > 0 {
        let earlier = times.drop_last();
        assert forall|i: int| 0 <= i < earlier.len() implies (#[trigger] earlier[i]).at_most(
            now,
        ) by {
            assert(earlier[i] == times[i]);
        }
        lemma_granted_are_not_later(start, earlier, now);
        assert(times[times.len() - 1].at_most(now));
        let before = start.granted(earlier);
        assert forall|i: int| 0 <= i < start.granted(times).len() implies (
        #[trigger] start.granted(times)[i]).at_most(now) by {
            if i < before.len() {
                assert(start.granted(times)[i] == before[i]);
            }
        }
    }
}

/// The place of a latest one of those `times` that are in a window; -1 where none is.
proof fn lemma_latest(window: Binary64, end: Binary64, times: Seq<Binary64>) -> (latest: int)
    ensures
        -1 <= latest < times.len(),
        latest >= 0 ==> is_in_window(window, end, times[latest]),
        forall|i: int|
            0 <= i < times.len() && is_in_window(window, end, #[trigger] times[i]) ==> latest >= 0
                && times[i].at_most(times[latest]),
    decreases times.len(),
{
    if times.len() == 0 {
        -1
    } else {
        let rest = times.drop_last();
        let n = rest.len() as int;
        let latest = lemma_latest(window, end, rest);
        assert forall|i: int|
            0 <= i < n && is_in_window(window, end, #[trigger] times[i]) implies latest >= 0
            && times[i].at_most(times[latest]) by {
            assert(rest[i] == times[i]);
        }
        if is_in_window(window, end, times[n]) && (latest < 0 || times[latest].at_most(times[n])) {
            n
        } else {
            latest
        }
    }
}

/// A window holds no more than an earlier one, if no request in it is later than that one's end.
proof fn lemma_held_by_earlier(
    window: Binary64,
    end: Binary64,
    earlier: Binary64,
    times: Seq<Binary64>,
)
    requires
        earlier.at_most(end),
        forall|i: int|
            0 <= i < times.len() && is_in_window(window, end, #[trigger] times[i])
                ==> times[i].at_most(earlier),
    ensures
        in_trailing_window(window, end, times) <= in_trailing_window(window, earlier, times),
    decreases times.len(),
{
    if times.len() > 0 {
        let rest = times.drop_last();
        let then = times.last();
        assert forall|i: int|
            0 <= i < rest.len() && is_in_window(
                window,
                end,
                #[trigger] rest[i],
            ) implies rest[i].at_most(earlier) by {
            assert(rest[i] == times[i]);
        }
        lemma_held_by_earlier(window, end, earlier, rest);
        if is_in_window(window, end, times[times.len() - 1]) && is_expired(window, earlier, then) {
            order::lemma_excess_ordered(window, earlier, then, end, then);
        }
    }
}

/// Where there is room for a request, every window that would hold it has room.
proof fn lemma_room_in_every_window(
    window: Binary64,
    limit: usize,
    now: Binary64,
    end: Binary64,
    times: Seq<Binary64>,
)
    requires
        has_room(window, limit, now, times),
        is_in_window(window, end, now),
    ensures
        in_trailing_window(window, end, times) < limit,
{
    let k = lemma_latest(window, end, times);
    if k < 0 || times[k].at_most(now) {
        lemma_held_by_earlier(window, end, now, times);
    } else {
        let latest = times[k];
        if is_expired(window, latest, now) {
            order::lemma_excess_ordered(window, latest, now, end, now);
        }
        lemma_held_by_earlier(window, end, latest, times);
    }
}

/// At most `limit` requests are allowed in any trailing window: whatever requests come, in
/// whatever order, and wherever a window ends, no more than `limit` of all the requests that were
/// ever allowed are in it.
pub proof fn lemma_window_never_exceeds_limit(
    start: WindowLog,
    times: Seq<Binary64>,
    end: Binary64,
)
    requires
        start.timestamps.len() == 0,
    ensures
        in_trailing_window(start.window, end, start.granted(times)) <= start.limit,
    decreases times.len(),
{
    if times.len() > 0 {
        let earlier = times.drop_last();
        let now = times.last();
        lemma_window_never_exceeds_limit(start, earlier, end);
        if start.run(earlier).allows(now) {
            let granted = start.granted(earlier);
            assert(granted.push(now).drop_last() =~= granted);
            if is_in_window(start.window, end, now) {
                lemma_denied_only_when_window_is_full(start, earlier, now);
                lemma_room_in_every_window(start.window, start.limit, now, end, granted);
            }
        }
    }
}

/// A request is denied only where it would overfill a trailing window: it is allowed exactly
/// where no window would hold more than `limit` with it. The window is not of negative length.
pub proof fn lemma_denied_only_where_a_window_would_overfill(
    start: WindowLog,
    times: Seq<Binary64>,
    now: Binary64,
)
    requires
        start.timestamps.len() == 0,
        !start.window.is_negative(),
        !now.is_nan(),
    ensures
        start.run(times).allows(now) <==> forall|end: Binary64|
            #[trigger] in_trailing_window(start.window, end, start.granted(times).push(now))
                <= start.limit,
{
    let granted = start.granted(times);
    let more = granted.push(now);
    assert(more.drop_last() =~= granted);
    lemma_denied_only_when_window_is_full(start, times, now);
    if start.run(times).allows(now) {
        assert forall|end: Binary64|
            #[trigger] in_trailing_window(start.window, end, more) <= start.limit by {
            lemma_window_never_exceeds_limit(start, times, end);
            if is_in_window(start.window, end, now) {
                lemma_room_in_every_window(start.window, start.limit, now, end, granted);
            }
        }
    } else {
        order::lemma_same_difference(now);
        if in_trailing_window(start.window, now, granted) >= start.limit {
            assert(in_trailing_window(start.window, now, more) > start.limit);
        } else {
            let i = choose|i: int|
                0 <= i < granted.len() && is_in_window(start.window, #[trigger] granted[i], now)
                    && in_trailing_window(start.window, granted[i], granted) >= start.limit;
            assert(in_trailing_window(start.window, granted[i], more) > start.limit);
        }
    }
}

/// How many of `times` are in the last `burst / rate` seconds before `end` whatever rounding
/// does.
pub open spec fn surely_in_window(
    rate: Binary64,
    burst: Binary64,
    end: Binary64,
    times: Seq<Binary64>,
) -> nat
    decreases times.len(),
{
    if times.len() == 0 {
        0
    } else {
        let stretch = end.value() - times.last().value();
        surely_in_window(rate, burst, end, times.drop_last()) + if stretch >= 0
            && window::is_clearly_within(rate, burst, stretch) {
            1nat
        } else {
            0nat
        }
    }
}

/// How many of `times` can be in the last `burst / rate` seconds before `end`, for all that
/// rounding does.
pub open spec fn possibly_in_window(
    rate: Binary64,
    burst: Binary64,
    end: Binary64,
    times: Seq<Binary64>,
) -> nat
    decreases times.len(),
{
    if times.len() == 0 {
        0
    } else {
        let stretch = end.value() - times.last().value();
        possibly_in_window(rate, burst, end, times.drop_last()) + if stretch >= 0
            && !window::is_clearly_beyond(rate, burst, stretch) {
            1nat
        } else {
            0nat
        }
    }
}

/// The window of a new log is `burst / rate` seconds long, as nearly as a number can be, and it
/// has room for as many requests as are not more than the burst.
pub proof fn lemma_window_of_new_log(rate: Binary64, burst: Binary64)
    requires
        window::makes_window(rate, burst),
    ensures
        window::is_length(WindowLog::empty(rate, burst).window, rate, burst),
        WindowLog::empty(rate, burst).limit * binary64::one() <= burst.value(),
        WindowLog::empty(rate, burst).limit < usize::MAX ==> burst.value() < (WindowLog::empty(
            rate,
            burst,
        ).limit + 1) * binary64::one(),
{
    window::lemma_quotient_is_length(rate, burst);
    window::lemma_limit_is_at_most_the_burst(burst);
}

/// What a new log counts in its window is what is there by `burst / rate`, but for rounding.
proof fn lemma_counted_by_rate_and_burst(
    rate: Binary64,
    burst: Binary64,
    end: Binary64,
    times: Seq<Binary64>,
)
    requires
        window::makes_window(rate, burst),
        end.finite(),
        forall|i: int| 0 <= i < times.len() ==> (#[trigger] times[i]).finite(),
    ensures
        surely_in_window(rate, burst, end, times) <= in_trailing_window(
            WindowLog::empty(rate, burst).window,
            end,
            times,
        ),
        (forall|i: int|
            0 <= i < times.len() ==> end.value() - (#[trigger] times[i]).value()
                <= accuracy::largest()) ==> in_trailing_window(
            WindowLog::empty(rate, burst).window,
            end,
            times,
        ) <= possibly_in_window(rate, burst, end, times),
    decreases times.len(),
{
    if times.len() > 0 {
        let rest = times.drop_last();
        let then = times.last();
        assert(then == times[times.len() - 1]);
        assert forall|i: int| 0 <= i < rest.len() implies (#[trigger] rest[i]).finite() by {
            assert(rest[i] == times[i]);
        }
        if forall|i: int|
            0 <= i < times.len() ==> end.value() - (#[trigger] times[i]).value()
                <= accuracy::largest() {
            assert forall|i: int| 0 <= i < rest.len() implies end.value() - (
            #[trigger] rest[i]).value() <= accuracy::largest() by {
                assert(rest[i] == times[i]);
            }
        }
        lemma_counted_by_rate_and_burst(rate, burst, end, rest);
        if then.value() <= end.value() {
            window::lemma_stretch_against_window(
                rate,
                burst,
                WindowLog::empty(rate, burst).window,
                end,
                then,
            );
        }
    }
}

/// Only requests that were made are allowed.
proof fn lemma_granted_were_made(start: WindowLog, times: Seq<Binary64>)
    ensures
        start.granted(times).len() <= times.len(),
        forall|i: int|
            0 <= i < start.granted(times).len() ==> times.contains(
                #[trigger] start.granted(times)[i],
            ),
    decreases times.len(),
{
    if times.len() > 0 {
        let earlier = times.drop_last();
        let before = start.granted(earlier);
        let now = times.last();
        lemma_granted_were_made(start, earlier);
        assert forall|i: int| 0 <= i < start.granted(times).len() implies times.contains(
            #[trigger] start.granted(times)[i],
        ) by {
            if i < before.len() {
                assert(start.granted(times)[i] == before[i]);
                let k = earlier.index_of(before[i]);
                assert(times[k] == before[i]);
            } else {
                assert(times[times.len() - 1] == now);
            }
        }
    }
}

/// At most `burst` requests are allowed in any trailing `burst / rate` seconds, whatever requests
/// come and in whatever order.
pub proof fn lemma_at_most_burst_per_window(
    rate: Binary64,
    burst: Binary64,
    times: Seq<Binary64>,
    end: Binary64,
)
    requires
        window::makes_window(rate, burst),
        forall|i: int| 0 <= i < times.len() ==> (#[trigger] times[i]).finite(),
        end.finite(),
    ensures
        surely_in_window(rate, burst, end, WindowLog::empty(rate, burst).granted(times))
            * binary64::one() <= burst.value(),
{
    let start = WindowLog::empty(rate, burst);
    let granted = start.granted(times);
    let n = surely_in_window(rate, burst, end, granted);
    let w = binary64::one() as int;
    lemma_granted_were_made(start, times);
    assert forall|i: int| 0 <= i < granted.len() implies (#[trigger] granted[i]).finite() by {
        let k = times.index_of(granted[i]);
        assert(times[k] == granted[i]);
    }
    lemma_counted_by_rate_and_burst(rate, burst, end, granted);
    lemma_window_never_exceeds_limit(start, times, end);
    lemma_window_of_new_log(rate, burst);
    order::lemma_one();
    assert(n * w <= start.limit * w) by (nonlinear_arith)
        requires
            n <= start.limit,
            w > 0,
    ;
}

/// A request that is not earlier than any before it is denied where `burst` requests were allowed
/// in the last `burst / rate` seconds, and allowed where fewer were, but for rounding.
pub proof fn lemma_verdict_by_rate_and_burst(
    rate: Binary64,
    burst: Binary64,
    times: Seq<Binary64>,
    now: Binary64,
)
    requires
        window::makes_window(rate, burst),
        forall|i: int|
            0 <= i < times.len() ==> (#[trigger] times[i]).finite() && 0 <= now.value()
                - times[i].value() <= accuracy::largest(),
        now.finite(),
        times.len() < usize::MAX,
    ensures
        ({
            let log = WindowLog::empty(rate, burst);
            let granted = log.granted(times);
            &&& burst.value() < (surely_in_window(rate, burst, now, granted) + 1) * binary64::one()
                ==> !log.run(times).allows(now)
            &&& (possibly_in_window(rate, burst, now, granted) + 1) * binary64::one()
                <= burst.value() ==> log.run(times).allows(now)
        }),
{
    let log = WindowLog::empty(rate, burst);
    let granted = log.granted(times);
    let w = binary64::one() as int;
    let limit = log.limit as int;
    let least = surely_in_window(rate, burst, now, granted) as int;
    let most = possibly_in_window(rate, burst, now, granted) as int;
    lemma_granted_were_made(log, times);
    assert forall|i: int| 0 <= i < granted.len() implies (#[trigger] granted[i]).finite() && 0
        <= now.value() - granted[i].value() <= accuracy::largest() by {
        let k = times.index_of(granted[i]);
        assert(times[k] == granted[i]);
    }
    assert forall|i: int| 0 <= i < times.len() implies (#[trigger] times[i]).at_most(now) by {
    }
    lemma_counted_by_rate_and_burst(rate, burst, now, granted);
    lemma_counts_exactly_in_order(log, times, now);
    lemma_window_of_new_log(rate, burst);
    lemma_possibly_bounded(rate, burst, now, granted);
    order::lemma_one();
    if burst.value() < (least + 1) * w {
        assert(limit <= least) by (nonlinear_arith)
            requires
                limit * w < (least + 1) * w,
                w > 0,
        ;
    }
    if (most + 1) * w <= burst.value() && limit < usize::MAX {
        assert(most < limit) by (nonlinear_arith)
            requires
                (most + 1) * w < (limit + 1) * w,
                w > 0,
        ;
    }
}

proof fn lemma_possibly_bounded(
    rate: Binary64,
    burst: Binary64,
    end: Binary64,
    times: Seq<Binary64>,
)
    ensures
        possibly_in_window(rate, burst, end, times) <= times.len(),
    decreases times.len(),
{
    if times.len() > 0 {
        lemma_possibly_bounded(rate, burst, end, times.drop_last());
    }
}

/// In whatever order requests come, one is denied only where, with it, more than `burst` would be
/// allowed in some trailing `burst / rate` seconds, but for rounding.
pub proof fn lemma_denied_only_over_burst_per_window(
    rate: Binary64,
    burst: Binary64,
    times: Seq<Binary64>,
    now: Binary64,
)
    requires
        window::makes_window(rate, burst),
        forall|i: int|
            0 <= i < times.len() ==> (#[trigger] times[i]).finite() && -accuracy::largest() <= 2
                * times[i].value() <= accuracy::largest(),
        now.finite(),
        -accuracy::largest() <= 2 * now.value() <= accuracy::largest(),
        times.len() < usize::MAX,
        !WindowLog::empty(rate, burst).run(times).allows(now),
    ensures
        exists|end: Binary64|
            end.finite() && #[trigger] possibly_in_window(
                rate,
                burst,
                end,
                WindowLog::empty(rate, burst).granted(times).push(now),
            ) * binary64::one() > burst.value(),
{
    let log = WindowLog::empty(rate, burst);
    let granted = log.granted(times);
    let more = granted.push(now);
    let w = binary64::one() as int;
    let limit = log.limit as int;
    assert(more.drop_last() =~= granted);
    lemma_granted_were_made(log, times);
    assert forall|i: int| 0 <= i < more.len() implies (#[trigger] more[i]).finite()
        && -accuracy::largest() <= 2 * more[i].value() <= accuracy::largest() by {
        if i < granted.len() {
            let k = times.index_of(granted[i]);
            assert(times[k] == granted[i]);
            assert(more[i] == granted[i]);
        }
    }
    window::lemma_window_is_not_negative(rate, burst);
    order::lemma_same_difference(now);
    order::lemma_one();
    lemma_denied_only_when_window_is_full(log, times, now);
    let end = if in_trailing_window(log.window, now, granted) >= log.limit {
        now
    } else {
        let i = choose|i: int|
            0 <= i < granted.len() && is_in_window(log.window, #[trigger] granted[i], now)
                && in_trailing_window(log.window, granted[i], granted) >= log.limit;
        assert(more[i] == granted[i]);
        granted[i]
    };
    assert(end.finite() && -accuracy::largest() <= 2 * end.value() <= accuracy::largest()) by {
        assert(more[granted.len() as int] == now);
    }
    assert(in_trailing_window(log.window, end, more) > log.limit);
    lemma_counted_by_rate_and_burst(rate, burst, end, more);
    lemma_possibly_bounded(rate, burst, end, more);
    lemma_window_of_new_log(rate, burst);
    let most = possibly_in_window(rate, burst, end, more) as int;
    assert(burst.value() < most * w) by {
        if limit < usize::MAX {
            assert((limit + 1) * w <= most * w) by (nonlinear_arith)
                requires
                    limit + 1 <= most,
                    w > 0,
            ;
        }
    }
}

/// As many requests as the burst has room for are allowed at once.
proof fn lemma_all_at_once(log: WindowLog, now: Binary64, n: nat)
    requires
        log.timestamps.len() == 0,
        !log.window.is_negative(),
        !now.is_nan(),
        n <= log.limit,
    ensures
        log.granted(Seq::new(n, |i: int| now)) == Seq::new(n, |i: int| now),
        in_trailing_window(log.window, now, Seq::new(n, |i: int| now)) == n,
        n < log.limit ==> log.run(Seq::new(n, |i: int| now)).allows(now),
    decreases n,
{
    let times = Seq::new(n, |i: int| now);
    order::lemma_same_difference(now);
    if n > 0 {
        let earlier = Seq::new((n - 1) as nat, |i: int| now);
        lemma_all_at_once(log, now, (n - 1) as nat);
        assert(times.drop_last() =~= earlier);
        assert(times.last() == now);
        assert(earlier.push(now) =~= times);
    }
    if n == 0 {
        assert(log.granted(times) =~= times);
    }
    lemma_counts_exactly_in_order(log, times, now);
}

/// Once the burst is used up, the next request is denied until `burst / rate` seconds have passed
/// and allowed after that, but for rounding: with as many requests at the time `now` as are not
/// more than the burst, all of which are allowed.
pub proof fn lemma_burst_returns_after_burst_over_rate(
    rate: Binary64,
    burst: Binary64,
    n: nat,
    now: Binary64,
    later: Binary64,
)
    requires
        window::makes_window(rate, burst),
        0 < n < usize::MAX,
        n * binary64::one() <= burst.value() < (n + 1) * binary64::one(),
        now.finite(),
        later.finite(),
        0 <= later.value() - now.value() <= accuracy::largest(),
    ensures
        ({
            let times = Seq::new(n, |i: int| now);
            let log = WindowLog::empty(rate, burst);
            let stretch = later.value() - now.value();
            &&& log.granted(times) == times
            &&& window::is_clearly_within(rate, burst, stretch) ==> !log.run(times).allows(later)
            &&& window::is_clearly_beyond(rate, burst, stretch) ==> log.run(times).allows(later)
        }),
{
    let times = Seq::new(n, |i: int| now);
    let log = WindowLog::empty(rate, burst);
    let stretch = later.value() - now.value();
    let w = binary64::one() as int;
    let limit = log.limit as int;
    order::lemma_one();
    lemma_window_of_new_log(rate, burst);
    window::lemma_window_is_not_negative(rate, burst);
    assert(n == limit) by {
        assert(limit < n + 1) by (nonlinear_arith)
            requires
                limit * w < (n + 1) * w,
                w > 0,
        ;
        assert(n < limit + 1) by (nonlinear_arith)
            requires
                n * w < (limit + 1) * w,
                w > 0,
        ;
    }
    lemma_all_at_once(log, now, n);
    lemma_counts_exactly_in_order(log, times, later);
    window::lemma_stretch_against_window(rate, burst, log.window, later, now);
    lemma_same_count(log.window, later, now, n);
}

proof fn lemma_same_count(window: Binary64, end: Binary64, then: Binary64, n: nat)
    ensures
        in_trailing_window(window, end, Seq::new(n, |i: int| then)) == if is_in_window(
            window,
            end,
            then,
        ) {
            n
        } else {
            0
        },
    decreases n,
{
    if n > 0 {
        let times = Seq::new(n, |i: int| then);
        let earlier = Seq::new((n - 1) as nat, |i: int| then);
        lemma_same_count(window, end, then, (n - 1) as nat);
        assert(times.drop_last() =~= earlier);
    }
}

/// Where neither `burst / rate` nor the time between two requests is rounded, one has fallen out
/// of the window exactly where more than `burst / rate` seconds have passed: not at that very
/// moment, but right after it.
pub proof fn lemma_window_includes_its_edge(
    rate: Binary64,
    burst: Binary64,
    later: Binary64,
    earlier: Binary64,
)
    requires
        window::makes_window(rate, burst),
        WindowLog::empty(rate, burst).window.value() * rate.value() == burst.value()
            * binary64::one(),
        later.finite(),
        earlier.finite(),
        earlier.value() <= later.value(),
        later.difference(earlier).value() == later.value() - earlier.value(),
    ensures
        is_expired(WindowLog::empty(rate, burst).window, later, earlier) <==> burst.value()
            * binary64::one() < (later.value() - earlier.value()) * rate.value(),
{
    let l = WindowLog::empty(rate, burst).window.value();
    let stretch = later.value() - earlier.value();
    let r = rate.value();
    accuracy::lemma_difference_error(later, earlier);
    accuracy::lemma_quotient_error(burst, rate);
    assert(l < stretch ==> l * r < stretch * r) by (nonlinear_arith)
        requires
            r > 0,
    ;
    assert(l >= stretch ==> l * r >= stretch * r) by (nonlinear_arith)
        requires
            r > 0,
    ;
}

/// With a rate without bound, a request is out of the window as soon as any time has passed; with
/// a burst without bound, none ever is.
pub proof fn lemma_window_without_bound(
    rate: Binary64,
    burst: Binary64,
    later: Binary64,
    earlier: Binary64,
)
    requires
        !rate.is_nan(),
        !burst.is_nan(),
        rate.value() > 0,
        burst.value() > 0,
        later.finite(),
        earlier.finite(),
        earlier.value() <= later.value(),
    ensures
        rate.is_infinite() && burst.finite() ==> (is_expired(
            WindowLog::empty(rate, burst).window,
            later,
            earlier,
        ) <==> earlier.value() < later.value()),
        rate.finite() && burst.is_infinite() ==> !is_expired(
            WindowLog::empty(rate, burst).window,
            later,
            earlier,
        ),
{
    window::lemma_boundless_windows(rate, burst);
    accuracy::lemma_beyond();
    accuracy::lemma_difference_error(later, earlier);
    order::lemma_difference_value(later, earlier);
    accuracy::lemma_settled_error(later.value() - earlier.value());
}

} // verus!
