//! A limiter of any of the three kinds.

use crate::binary64;
use crate::binary64::Binary64;
use crate::fixed_window::{FixedWindowCounter, WindowCounts};
use crate::options::Algorithm;
use crate::order;
use crate::rounding;
use crate::sliding_window;
use crate::sliding_window::{SlidingWindowLog, WindowLog};
use crate::token_bucket;
use crate::token_bucket::TokenBucket;
use crate::window;
use vstd::prelude::*;

verus! {

/// A limiter of any kind.
pub enum Limiter {
    TokenBucket(TokenBucket),
    SlidingWindow(SlidingWindowLog),
    FixedWindow(FixedWindowCounter),
}

/// What a limiter holds.
#[verifier::ext_equal]
pub enum LimiterState {
    TokenBucket(TokenBucket),
    SlidingWindow(WindowLog),
    FixedWindow(WindowCounts),
}

impl LimiterState {
    /// A limiter before any request.
    pub open spec fn fresh(algorithm: Algorithm, rate: Binary64, burst: Binary64) -> LimiterState {
        match algorithm {
            Algorithm::TokenBucket => LimiterState::TokenBucket(TokenBucket::full(burst, rate)),
            Algorithm::SlidingWindow => LimiterState::SlidingWindow(WindowLog::empty(rate, burst)),
            Algorithm::FixedWindow => LimiterState::FixedWindow(WindowCounts::idle(rate, burst)),
        }
    }

    /// Whether a request at the time `now` is allowed.
    pub open spec fn allows(self, now: Binary64) -> bool {
        match self {
            LimiterState::TokenBucket(l) => l.allows(now),
            LimiterState::SlidingWindow(l) => l.allows(now),
            LimiterState::FixedWindow(l) => l.allows(now),
        }
    }

    /// The limiter after a request at the time `now`.
    pub open spec fn after(self, now: Binary64) -> LimiterState {
        match self {
            LimiterState::TokenBucket(l) => LimiterState::TokenBucket(l.after(now)),
            LimiterState::SlidingWindow(l) => LimiterState::SlidingWindow(l.after(now)),
            LimiterState::FixedWindow(l) => LimiterState::FixedWindow(l.after(now)),
        }
    }

    /// The limiter after requests at `times`, in turn.
    pub open spec fn run(self, times: Seq<Binary64>) -> LimiterState
        decreases times.len(),
    {
        if times.len() == 0 {
            self
        } else {
            self.run(times.drop_last()).after(times.last())
        }
    }
}

impl View for Limiter {
    type V = LimiterState;

    open spec fn view(&self) -> LimiterState {
        match self {
            Limiter::TokenBucket(l) => LimiterState::TokenBucket(*l),
            Limiter::SlidingWindow(l) => LimiterState::SlidingWindow(l@),
            Limiter::FixedWindow(l) => LimiterState::FixedWindow(l@),
        }
    }
}

impl Limiter {
    /// A sliding window log is sorted.
    pub open spec fn well_formed(self) -> bool {
        match self {
            Limiter::TokenBucket(_) => true,
            Limiter::SlidingWindow(l) => l.well_formed(),
            Limiter::FixedWindow(_) => true,
        }
    }

    /// A limiter before any request.
    pub fn new(algorithm: Algorithm, rate: Binary64, burst: Binary64) -> (limiter: Limiter)
        ensures
            limiter.well_formed(),
            limiter@ == LimiterState::fresh(algorithm, rate, burst),
            limiter matches Limiter::FixedWindow(l) ==> l.count == 0,
    {
        match algorithm {
            Algorithm::TokenBucket => Limiter::TokenBucket(TokenBucket::new(burst, rate)),
            Algorithm::SlidingWindow => Limiter::SlidingWindow(SlidingWindowLog::new(rate, burst)),
            Algorithm::FixedWindow => Limiter::FixedWindow(FixedWindowCounter::new(rate, burst)),
        }
    }

    /// Decides a request at the time `now`.
    pub fn allow(&mut self, now: Binary64) -> (allowed: bool)
        requires
            old(self).well_formed(),
        ensures
            final(self).well_formed(),
            allowed == old(self)@.allows(now),
            final(self)@ == old(self)@.after(now),
    {
        match self {
            Limiter::TokenBucket(l) => l.allow(now),
            Limiter::SlidingWindow(l) => l.allow(now),
            Limiter::FixedWindow(l) => l.allow(now),
        }
    }
}

impl LimiterState {
    /// How many of `n` requests at the time `now` are allowed.
    pub open spec fn admitted(self, now: Binary64, n: nat) -> nat
        decreases n,
    {
        if n == 0 {
            0
        } else {
            let rest = self.after(now).admitted(now, (n - 1) as nat);
            if self.allows(now) {
                rest + 1
            } else {
                rest
            }
        }
    }
}

/// The lesser of two numbers.
pub open spec fn at_most_both(a: int, b: int) -> int {
    if a < b {
        a
    } else {
        b
    }
}

proof fn lemma_bucket_admits(bucket: TokenBucket, now: Binary64, n: nat)
    ensures
        LimiterState::TokenBucket(bucket).admitted(now, n) == bucket.admitted(now, n),
    decreases n,
{
    if n > 0 {
        lemma_bucket_admits(bucket.after(now), now, (n - 1) as nat);
    }
}

proof fn lemma_log_admits(log: WindowLog, now: Binary64, n: nat)
    requires
        !now.is_nan(),
        !log.window.is_negative() || log.limit == 0,
        sliding_window::in_trailing_window(log.window, now, log.timestamps) <= log.limit,
        sliding_window::is_sorted(log.timestamps),
        forall|i: int|
            0 <= i < log.timestamps.len() ==> (#[trigger] log.timestamps[i]).at_most(now),
    ensures
        LimiterState::SlidingWindow(log).admitted(now, n) == at_most_both(
            n as int,
            log.limit - sliding_window::in_trailing_window(log.window, now, log.timestamps),
        ),
    decreases n,
{
    if n > 0 {
        sliding_window::lemma_room_at_the_end(log.window, log.limit, now, log.timestamps);
        if log.limit > 0 {
            sliding_window::lemma_counted_at_once(log, now);
            sliding_window::lemma_only_now_is_added(log, now);
        }
        lemma_log_admits(log.after(now), now, (n - 1) as nat);
    }
}

proof fn lemma_counter_admits(counts: WindowCounts, now: Binary64, n: nat)
    requires
        counts.counted(counts.index(now)) <= counts.limit,
    ensures
        LimiterState::FixedWindow(counts).admitted(now, n) == at_most_both(
            n as int,
            counts.limit - counts.counted(counts.index(now)),
        ),
    decreases n,
{
    if n > 0 {
        lemma_counter_admits(counts.after(now), now, (n - 1) as nat);
    }
}

/// A sliding window log runs as a limiter as it does by itself.
pub proof fn lemma_run_of_log(log: WindowLog, times: Seq<Binary64>)
    ensures
        LimiterState::SlidingWindow(log).run(times) == LimiterState::SlidingWindow(
            log.run(times),
        ),
    decreases times.len(),
{
    if times.len() > 0 {
        lemma_run_of_log(log, times.drop_last());
    }
}

/// A fixed window counter runs as a limiter as it does by itself.
pub proof fn lemma_run_of_counter(counter: WindowCounts, times: Seq<Binary64>)
    ensures
        LimiterState::FixedWindow(counter).run(times) == LimiterState::FixedWindow(
            counter.run(times),
        ),
    decreases times.len(),
{
    if times.len() > 0 {
        lemma_run_of_counter(counter, times.drop_last());
    }
}

/// A token bucket runs as a limiter as it does by itself.
pub proof fn lemma_run_of_bucket(bucket: TokenBucket, times: Seq<Binary64>)
    ensures
        LimiterState::TokenBucket(bucket).run(times) == LimiterState::TokenBucket(
            bucket.run(times),
        ),
    decreases times.len(),
{
    if times.len() > 0 {
        lemma_run_of_bucket(bucket, times.drop_last());
    }
}

/// The largest whole number that is not more than a number; 0 where that is negative.
pub open spec fn whole_part(number: Binary64) -> int {
    if number.value() < 0 {
        0
    } else {
        number.value() / binary64::one() as int
    }
}

/// Every algorithm means the same by a burst: of requests that all come at once, a limiter that
/// has seen none yet allows exactly as many as are not more than the burst, and denies the rest.
/// Of a burst over 2^53, or over the largest `usize`, that is said of up to so many requests:
/// from more tokens than 2^53, taking 1 need not leave less, and no limit is above a `usize`.
pub proof fn lemma_burst_means_the_same_to_all(
    algorithm: Algorithm,
    rate: Binary64,
    burst: Binary64,
    now: Binary64,
    n: nat,
)
    requires
        rate.is_nan() || rate.value() > 0,
        !burst.is_nan(),
        !now.is_nan(),
        burst.value() <= rounding::SIGNIFICANDS * binary64::one() || n <= rounding::SIGNIFICANDS,
        whole_part(burst) <= usize::MAX || n <= usize::MAX,
    ensures
        LimiterState::fresh(algorithm, rate, burst).admitted(now, n) == at_most_both(
            n as int,
            whole_part(burst),
        ),
{
    match algorithm {
        Algorithm::TokenBucket => {
            let bucket = TokenBucket::full(burst, rate);
            lemma_bucket_admits(bucket, now, n);
            token_bucket::lemma_admits_whole_tokens(bucket, now, n);
        },
        Algorithm::SlidingWindow => {
            lemma_count_is_whole(burst);
            if burst.value() > 0 {
                window::lemma_window_is_not_negative(rate, burst);
            }
            lemma_log_admits(WindowLog::empty(rate, burst), now, n);
        },
        Algorithm::FixedWindow => {
            lemma_count_is_whole(burst);
            lemma_counter_admits(WindowCounts::idle(rate, burst), now, n);
        },
    }
}

/// The count of a burst is the whole part of it, as far as it fits.
proof fn lemma_count_is_whole(burst: Binary64)
    requires
        !burst.is_nan(),
    ensures
        forall|rate: Binary64| burst.count() == at_most_both(
            usize::MAX as int,
            (#[trigger] TokenBucket::full(burst, rate)).whole_tokens(),
        ),
        burst.value() <= 0 ==> burst.count() == 0,
{
    let w = binary64::one() as int;
    order::lemma_one();
    if burst.value() < 0 {
        vstd::arithmetic::div_mod::lemma_fundamental_div_mod(burst.value(), w);
        vstd::arithmetic::div_mod::lemma_mod_bound(burst.value(), w);
        let q = burst.value() / w;
        assert(q < 0) by (nonlinear_arith)
            requires
                w * q <= burst.value() < 0,
                w > 0,
        ;
    } else {
        vstd::arithmetic::div_mod::lemma_div_pos_is_pos(burst.value(), w);
        vstd::arithmetic::div_mod::lemma_basic_div(0, w);
    }
}

/// A limiter starts with room: the first request is allowed, whatever its timestamp, if the
/// burst is 1 or more.
pub proof fn lemma_first_request_is_allowed(
    algorithm: Algorithm,
    rate: Binary64,
    burst: Binary64,
    now: Binary64,
)
    requires
        (Binary64 { bits: binary64::ONE }).at_most(burst),
    ensures
        LimiterState::fresh(algorithm, rate, burst).allows(now),
{
    order::lemma_one();
    window::lemma_limit_is_at_most_the_burst(burst);
    assert(1 * binary64::one() == binary64::one());
}

} // verus!
