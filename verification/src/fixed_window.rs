//! The fixed window counter.

use crate::accuracy;
use crate::binary64;
use crate::binary64::Binary64;
use crate::order;
use crate::rounding;
use crate::window;
use crate::window::window_params;
use std::collections::HashMap;
use vstd::arithmetic::mul::*;
use vstd::prelude::*;

verus! {

broadcast use vstd::std_specs::hash::group_hash_axioms;

/// A fixed window counter: time is sliced into windows of one length, aligned to the epoch, and
/// each window has its own independent count, which a return to it finds again. It allows up to
/// twice the limit across the boundary of two windows. `count` is that of the current window;
/// `others` has those of the windows that were current before.
pub struct FixedWindowCounter {
    pub window: Binary64,
    pub limit: usize,
    pub current_index: Option<i64>,
    pub count: usize,
    pub others: HashMap<i64, usize>,
}

/// What a fixed window counter holds: the count of every window that has had a request.
#[verifier::ext_equal]
pub struct WindowCounts {
    pub window: Binary64,
    pub limit: usize,
    pub current_index: Option<i64>,
    pub counts: Map<i64, usize>,
}

impl View for FixedWindowCounter {
    type V = WindowCounts;

    open spec fn view(&self) -> WindowCounts {
        WindowCounts {
            window: self.window,
            limit: self.limit,
            current_index: self.current_index,
            counts: match self.current_index {
                None => self.others@,
                Some(index) => self.others@.insert(index, self.count),
            },
        }
    }
}

impl WindowCounts {
    /// The window that the time `now` is in, counted from the epoch.
    pub open spec fn index(self, now: Binary64) -> i64 {
        now.quotient(self.window).floor()
    }

    /// How many requests in a window have been allowed.
    pub open spec fn counted(self, index: i64) -> usize {
        if self.counts.contains_key(index) {
            self.counts[index]
        } else {
            0
        }
    }

    /// Whether a request at the time `now` is allowed.
    pub open spec fn allows(self, now: Binary64) -> bool {
        self.counted(self.index(now)) < self.limit
    }

    /// The counts after a request at the time `now`.
    pub open spec fn after(self, now: Binary64) -> WindowCounts {
        let index = self.index(now);
        let counted = self.counted(index);
        WindowCounts {
            window: self.window,
            limit: self.limit,
            current_index: Some(index),
            counts: self.counts.insert(
                index,
                if self.allows(now) {
                    (counted + 1) as usize
                } else {
                    counted
                },
            ),
        }
    }

    /// The counts before any request.
    pub open spec fn idle(rate: Binary64, burst: Binary64) -> WindowCounts {
        WindowCounts {
            window: burst.quotient(rate),
            limit: burst.count(),
            current_index: None,
            counts: Map::<i64, usize>::empty(),
        }
    }

    /// The counts after requests at `times`, in turn.
    pub open spec fn run(self, times: Seq<Binary64>) -> WindowCounts
        decreases times.len(),
    {
        if times.len() == 0 {
            self
        } else {
            self.run(times.drop_last()).after(times.last())
        }
    }

    /// How many of the requests at `times` are allowed in the window `index`.
    pub open spec fn granted_in(self, times: Seq<Binary64>, index: i64) -> nat
        decreases times.len(),
    {
        if times.len() == 0 {
            0
        } else {
            let before = self.granted_in(times.drop_last(), index);
            if self.index(times.last()) == index && self.run(times.drop_last()).allows(
                times.last(),
            ) {
                before + 1
            } else {
                before
            }
        }
    }
}

impl FixedWindowCounter {
    /// A counter before any request.
    pub fn new(rate: Binary64, burst: Binary64) -> (counter: FixedWindowCounter)
        ensures
            counter@ == WindowCounts::idle(rate, burst),
            counter.count == 0,
    {
        let (window, limit) = window_params(rate, burst);
        FixedWindowCounter { window, limit, current_index: None, count: 0, others: HashMap::new() }
    }

    /// Decides a request at the time `now`, and counts it where it is allowed.
    pub fn allow(&mut self, now: Binary64) -> (allowed: bool)
        ensures
            allowed == old(self)@.allows(now),
            final(self)@ == old(self)@.after(now),
            final(self).count == final(self)@.counted(old(self)@.index(now)),
    {
        let index = now.over(self.window).to_floor();
        let same = match self.current_index {
            None => false,
            Some(current) => current == index,
        };
        if !same {
            if let Some(current) = self.current_index {
                self.others.insert(current, self.count);
            }
            self.count = match self.others.get(&index) {
                None => 0,
                Some(count) => *count,
            };
            self.current_index = Some(index);
        }
        let allowed = self.count < self.limit;
        if allowed {
            self.count = self.count + 1;
        }
        assert(self@.counts =~= old(self)@.after(now).counts);
        allowed
    }
}

/// Later times are in later windows.
pub proof fn lemma_index_ordered(counts: WindowCounts, earlier: Binary64, later: Binary64)
    requires
        earlier.finite(),
        later.finite(),
        earlier.value() <= later.value(),
        !counts.window.is_negative(),
    ensures
        counts.index(earlier) <= counts.index(later),
{
    let window = counts.window;
    rounding::lemma_units_zero(window.magnitude());
    if window.magnitude() == 0 {
        order::lemma_quotient_by_zero(earlier, window);
        order::lemma_quotient_by_zero(later, window);
    } else if !window.is_nan() {
        order::lemma_quotient_ordered(earlier, later, window);
        order::lemma_floor_ordered(earlier.quotient(window), later.quotient(window));
    }
}

/// Each window's count is how many requests were allowed in it, in whatever order they came.
pub proof fn lemma_counts_are_independent(
    start: WindowCounts,
    times: Seq<Binary64>,
    index: i64,
)
    requires
        start.counts == Map::<i64, usize>::empty(),
    ensures
        start.run(times).window == start.window,
        start.run(times).limit == start.limit,
        start.run(times).counted(index) == start.granted_in(times, index),
    decreases times.len(),
{
    if times.len() > 0 {
        lemma_counts_are_independent(start, times.drop_last(), index);
    }
}

/// A request is denied only where its window has had `limit` requests allowed already.
pub proof fn lemma_denied_only_when_slice_is_full(
    start: WindowCounts,
    times: Seq<Binary64>,
    now: Binary64,
)
    requires
        start.counts == Map::<i64, usize>::empty(),
    ensures
        start.run(times).allows(now) <==> start.granted_in(times, start.index(now)) < start.limit,
{
    lemma_counts_are_independent(start, times, start.index(now));
}

/// No window has more than `limit` requests allowed in it, whatever requests come and in whatever
/// order.
pub proof fn lemma_no_window_exceeds_limit(
    start: WindowCounts,
    times: Seq<Binary64>,
    index: i64,
)
    requires
        start.counts == Map::<i64, usize>::empty(),
    ensures
        start.granted_in(times, index) <= start.limit,
    decreases times.len(),
{
    if times.len() > 0 {
        lemma_no_window_exceeds_limit(start, times.drop_last(), index);
        lemma_denied_only_when_slice_is_full(start, times.drop_last(), times.last());
    }
}

/// Across the boundary of two windows at most twice the limit is allowed.
pub proof fn lemma_boundary_allows_twice_the_limit(
    start: WindowCounts,
    times: Seq<Binary64>,
    index: i64,
)
    requires
        start.counts == Map::<i64, usize>::empty(),
        index < i64::MAX,
    ensures
        start.granted_in(times, index) + start.granted_in(times, (index + 1) as i64) <= 2
            * start.limit,
{
    lemma_no_window_exceeds_limit(start, times, index);
    lemma_no_window_exceeds_limit(start, times, (index + 1) as i64);
}

/// The first request in a window is allowed: its count starts at 0, whatever the other windows
/// have counted.
pub proof fn lemma_new_window_starts_again(counts: WindowCounts, now: Binary64)
    requires
        !counts.counts.contains_key(counts.index(now)),
        counts.limit > 0,
    ensures
        counts.allows(now),
        counts.after(now).counted(counts.index(now)) == 1,
{
}

/// A request touches the count of its own window and no other.
pub proof fn lemma_other_windows_are_untouched(counts: WindowCounts, now: Binary64, index: i64)
    requires
        index != counts.index(now),
    ensures
        counts.after(now).counted(index) == counts.counted(index),
{
}

/// The window of a new counter is `burst / rate` seconds long, as nearly as a number can be, and
/// each has room for as many requests as are not more than the burst.
pub proof fn lemma_window_of_new_counter(rate: Binary64, burst: Binary64)
    requires
        window::makes_window(rate, burst),
    ensures
        window::is_length(WindowCounts::idle(rate, burst).window, rate, burst),
        WindowCounts::idle(rate, burst).limit * binary64::one() <= burst.value(),
        WindowCounts::idle(rate, burst).limit < usize::MAX ==> burst.value() < (WindowCounts::idle(
            rate,
            burst,
        ).limit + 1) * binary64::one(),
{
    window::lemma_quotient_is_length(rate, burst);
    window::lemma_limit_is_at_most_the_burst(burst);
}

/// Whether a time is in the `i`th slice of `burst / rate` seconds from the epoch on, whatever
/// rounding does: from `i * burst / rate` up to `(i + 1) * burst / rate`, but for four parts in
/// 2^53 of the time and one of the slice.
pub open spec fn is_clearly_in_slice(
    rate: Binary64,
    burst: Binary64,
    i: int,
    time: Binary64,
) -> bool {
    let at = time.value() * rate.value();
    let slice = burst.value() * binary64::one();
    let blur = 4 * rounding::distance(at, 0);
    &&& rounding::SIGNIFICANDS * (i * slice) + blur <= rounding::SIGNIFICANDS * at
    &&& rounding::SIGNIFICANDS * at + blur + slice <= rounding::SIGNIFICANDS * ((i + 1) * slice)
}

/// Whether `burst / rate` seconds are in the range where numbers have all of their 53 digits.
pub open spec fn has_regular_length(rate: Binary64, burst: Binary64) -> bool {
    rounding::SIGNIFICANDS * rate.value() <= burst.value() * binary64::one()
        <= accuracy::largest() * rate.value()
}

/// The arithmetic of slices: `at` is the time, `slice` the exact length of a slice, `length` the
/// length as rounded, all of them in the same measure.
proof fn lemma_slice_bounds(i: int, at: int, slice: int, length: int, first: int, next: int)
    requires
        slice > 0,
        rounding::SIGNIFICANDS * rounding::distance(length, slice) <= slice,
        first == i * length,
        next == (i + 1) * length,
        rounding::SIGNIFICANDS * (i * slice) + 4 * rounding::distance(at, 0)
            <= rounding::SIGNIFICANDS * at,
        rounding::SIGNIFICANDS * at + 4 * rounding::distance(at, 0) + slice
            <= rounding::SIGNIFICANDS * ((i + 1) * slice),
    ensures
        rounding::SIGNIFICANDS * first + rounding::distance(at, 0) <= rounding::SIGNIFICANDS * at,
        2 * (rounding::SIGNIFICANDS * at) + 2 * rounding::distance(at, 0) + slice <= 2 * (
        rounding::SIGNIFICANDS * next),
{
    let n = rounding::SIGNIFICANDS as int;
    let low = i * slice;
    let high = (i + 1) * slice;
    accuracy::lemma_parts(rounding::distance(length, slice));
    accuracy::lemma_parts(low);
    accuracy::lemma_parts(high);
    accuracy::lemma_parts(at);
    accuracy::lemma_parts(first);
    accuracy::lemma_parts(next);
    lemma_scaled_gap(i, slice, length);
    lemma_scaled_gap(i + 1, slice, length);
    if i >= 0 {
        assert(low >= 0) by (nonlinear_arith)
            requires
                low == i * slice,
                i >= 0,
                slice > 0,
        ;
    } else {
        assert(low < 0 && high <= 0) by (nonlinear_arith)
            requires
                low == i * slice,
                high == (i + 1) * slice,
                i < 0,
                slice > 0,
        ;
    }
    assert(high == low + slice) by (nonlinear_arith)
        requires
            low == i * slice,
            high == (i + 1) * slice,
    ;
}

proof fn lemma_scaled_gap(i: int, slice: int, length: int)
    requires
        slice > 0,
        0x20_0000_0000_0000 * rounding::distance(length, slice) <= slice,
    ensures
        0x20_0000_0000_0000 * rounding::distance(i * length, i * slice) <= rounding::distance(
            i * slice,
            0,
        ),
{
    let d = length - slice;
    assert(i * length - i * slice == i * d) by (nonlinear_arith)
        requires
            d == length - slice,
    ;
    if i >= 0 {
        assert(0x20_0000_0000_0000 * (i * d) <= i * slice) by (nonlinear_arith)
            requires
                0x20_0000_0000_0000 * d <= slice,
                i >= 0,
        ;
        assert(0x20_0000_0000_0000 * (-(i * d)) <= i * slice) by (nonlinear_arith)
            requires
                0x20_0000_0000_0000 * (-d) <= slice,
                i >= 0,
        ;
    } else {
        assert(0x20_0000_0000_0000 * (-(i * d)) <= -(i * slice)) by (nonlinear_arith)
            requires
                0x20_0000_0000_0000 * d <= slice,
                i < 0,
        ;
        assert(0x20_0000_0000_0000 * (i * d) <= -(i * slice)) by (nonlinear_arith)
            requires
                0x20_0000_0000_0000 * (-d) <= slice,
                i < 0,
        ;
    }
}

/// The window that a time is in, counted from the epoch, is the slice of `burst / rate` seconds
/// that it is in, but for rounding.
pub proof fn lemma_index_is_slice(rate: Binary64, burst: Binary64, i: i64, time: Binary64)
    requires
        window::makes_window(rate, burst),
        has_regular_length(rate, burst),
        time.finite(),
        is_clearly_in_slice(rate, burst, i as int, time),
    ensures
        WindowCounts::idle(rate, burst).index(time) == i,
{
    let length = WindowCounts::idle(rate, burst).window;
    let w = binary64::one() as int;
    let n = rounding::SIGNIFICANDS as int;
    let r = rate.value();
    let l = length.value();
    let t = time.value();
    let slice = burst.value() * w;
    let at = t * r;
    let q = time.quotient(length).value();
    order::lemma_one();
    lemma_regular_length(rate, burst);
    lemma_slice_bounds(i as int, at, slice, l * r, i * (l * r), (i + 1) * (l * r));
    let size = rounding::distance(t, 0);
    assert(rounding::distance(at, 0) == size * r) by {
        assert(at == t * r);
        assert((-t) * r == -(t * r)) by (nonlinear_arith);
        assert(t >= 0 ==> t * r >= 0) by (nonlinear_arith)
            requires
                r > 0,
        ;
        assert(t <= 0 ==> t * r <= 0) by (nonlinear_arith)
            requires
                r > 0,
        ;
    }
    lemma_time_in_range(rate, burst, i, time);
    accuracy::lemma_signed_quotient_error(time, length);
    // the same bounds, with the rate divided out
    let (first, next) = (i * l, (i + 1) * l);
    assert(n * first + size <= n * t) by (nonlinear_arith)
        requires
            n * (i * (l * r)) + size * r <= n * (t * r),
            first == i * l,
            r > 0,
    ;
    assert(2 * (n * t) + 2 * size + l / 2 <= 2 * (n * next)) by {
        assert(2 * slice >= l * r) by {
            accuracy::lemma_parts(rounding::distance(l * r, slice));
        }
        let half = l / 2;
        assert(half * r <= slice) by (nonlinear_arith)
            requires
                2 * slice >= l * r,
                half == l / 2,
                r > 0,
        ;
        assert(2 * (n * t) + 2 * size + half <= 2 * (n * next)) by (nonlinear_arith)
            requires
                2 * (n * (t * r)) + 2 * (size * r) + slice <= 2 * (n * ((i + 1) * (l * r))),
                half * r <= slice,
                next == (i + 1) * l,
                r > 0,
        ;
    }
    lemma_quotient_between(n, w, l, t, size, q, i as int);
    lemma_floor_is(q, w, i as int);
}

/// A quotient that is nearly `t / l` lies between two whole numbers if `t / l` clearly does.
proof fn lemma_quotient_between(n: int, w: int, l: int, t: int, size: int, q: int, i: int)
    requires
        n == rounding::SIGNIFICANDS,
        w == binary64::one(),
        l >= n,
        size >= 0,
        2 * n * rounding::distance(q * l, t * w) <= 2 * (size * w) + n * l,
        n * (i * l) + size <= n * t,
        2 * (n * t) + 2 * size + l / 2 <= 2 * (n * ((i + 1) * l)),
    ensures
        i * w <= q < (i + 1) * w,
{
    let d = rounding::distance(q * l, t * w);
    order::lemma_one();
    rounding::lemma_pow2_52_53();
    rounding::lemma_pow2_increases(60, 1074);
    vstd::arithmetic::power2::lemma2_to64();
    vstd::arithmetic::power2::lemma2_to64_rest();
    assert(w >= 8 * n);
    assert(2 * (n * d) <= 2 * (size * w) + n * l) by (nonlinear_arith)
        requires
            2 * n * d <= 2 * (size * w) + n * l,
    ;
    let first = (i * w) * l;
    let next = ((i + 1) * w) * l;
    assert(n * first + size * w <= n * (t * w)) by (nonlinear_arith)
        requires
            n * (i * l) + size <= n * t,
            first == (i * w) * l,
            w > 0,
    ;
    let half = l / 2;
    assert(2 * (n * (t * w)) + 2 * (size * w) + half * w <= 2 * (n * next)) by (nonlinear_arith)
        requires
            2 * (n * t) + 2 * size + half <= 2 * (n * ((i + 1) * l)),
            next == ((i + 1) * w) * l,
            w > 0,
    ;
    assert(half * w > n * l) by (nonlinear_arith)
        requires
            w >= 8 * n,
            2 * half >= l - 1,
            l >= n,
            n > 1,
    ;
    let ql = q * l;
    assert(2 * (n * ql) >= 2 * (n * (t * w)) - 2 * (n * d)) by (nonlinear_arith)
        requires
            ql >= t * w - d,
            n > 0,
    ;
    assert(2 * (n * ql) <= 2 * (n * (t * w)) + 2 * (n * d)) by (nonlinear_arith)
        requires
            ql <= t * w + d,
            n > 0,
    ;
    assert(2 * (n * ql) >= 2 * (n * first) - n * l);
    assert(2 * (n * ql) < 2 * (n * next));
    assert(q > i * w - 1) by (nonlinear_arith)
        requires
            2 * (n * ql) >= 2 * (n * first) - n * l,
            ql == q * l,
            first == (i * w) * l,
            n > 0,
            l > 0,
    ;
    assert(q < (i + 1) * w) by (nonlinear_arith)
        requires
            2 * (n * ql) < 2 * (n * next),
            ql == q * l,
            next == ((i + 1) * w) * l,
            n > 0,
            l > 0,
    ;
}

proof fn lemma_floor_is(q: int, w: int, i: int)
    requires
        w > 0,
        i * w <= q < (i + 1) * w,
    ensures
        q / w == i,
{
    let rest = q - i * w;
    assert(rest < w) by (nonlinear_arith)
        requires
            q < (i + 1) * w,
            rest == q - i * w,
    ;
    vstd::arithmetic::div_mod::lemma_fundamental_div_mod_converse(q, w, i, rest);
}

/// The length of a slice, where numbers have all of their digits.
proof fn lemma_regular_length(rate: Binary64, burst: Binary64)
    requires
        window::makes_window(rate, burst),
        has_regular_length(rate, burst),
    ensures
        ({
            let length = WindowCounts::idle(rate, burst).window;
            let slice = burst.value() * binary64::one();
            &&& length.finite()
            &&& length.value() >= rounding::SIGNIFICANDS
            &&& slice > 0
            &&& rounding::SIGNIFICANDS * rounding::distance(
                length.value() * rate.value(),
                slice,
            ) <= slice
        }),
{
    let length = WindowCounts::idle(rate, burst).window;
    let w = binary64::one();
    let x = rounding::units(burst.magnitude());
    let r = rounding::units(rate.magnitude());
    let top = (rounding::INFINITE - 1) as nat;
    order::lemma_one();
    accuracy::lemma_beyond();
    rounding::lemma_units_zero(rate.magnitude());
    rounding::lemma_units_zero(0);
    lemma_mul_strictly_positive(x as int, w as int);
    assert(accuracy::largest() * r <= accuracy::beyond() * r) by (nonlinear_arith)
        requires
            accuracy::largest() <= accuracy::beyond(),
            r >= 0,
    ;
    accuracy::lemma_quotient_error(burst, rate);
    rounding::lemma_nearest_at_most(x * w, r, top);
    order::lemma_signed(false, rounding::nearest(x * w, r));
    // 2^53 units is a number of the grid
    rounding::lemma_units(0, rounding::SIGNIFICANDS as nat);
    rounding::lemma_pow2_52_53();
    let least = rounding::SIGNIFICANDS as nat;
    assert(rounding::units(least) == rounding::SIGNIFICANDS) by {
        assert(0 * rounding::HIDDEN as nat + rounding::SIGNIFICANDS as nat == least);
        assert(rounding::SIGNIFICANDS * 1 == rounding::SIGNIFICANDS);
    }
    rounding::lemma_nearest_at_least(x * w, r, least);
    if least < length.magnitude() {
        rounding::lemma_units_ordered(least, length.magnitude());
    }
}

/// A time in a slice that an `i64` can count is no more than 2^64 slices from the epoch.
proof fn lemma_time_in_range(rate: Binary64, burst: Binary64, i: i64, time: Binary64)
    requires
        window::makes_window(rate, burst),
        has_regular_length(rate, burst),
        time.finite(),
        is_clearly_in_slice(rate, burst, i as int, time),
    ensures
        rounding::distance(time.value(), 0) * binary64::one() <= accuracy::beyond()
            * WindowCounts::idle(rate, burst).window.value(),
{
    let w = binary64::one() as int;
    let n = rounding::SIGNIFICANDS as int;
    let r = rate.value();
    let l = WindowCounts::idle(rate, burst).window.value();
    let t = time.value();
    let slice = burst.value() * w;
    let at = t * r;
    let far = 0x1_0000_0000_0000_0000int;
    lemma_regular_length(rate, burst);
    order::lemma_one();
    accuracy::lemma_beyond();
    accuracy::lemma_parts(at);
    accuracy::lemma_parts(i * slice);
    accuracy::lemma_parts((i + 1) * slice);
    accuracy::lemma_parts(rounding::distance(l * r, slice));
    let half = 0x8000_0000_0000_0000int;
    assert(-(half * slice) <= i * slice && (i + 1) * slice <= half * slice) by (nonlinear_arith)
        requires
            -half <= i < half,
            slice > 0,
    ;
    assert(-(half * slice) <= at <= half * slice);
    assert(slice <= 2 * (l * r));
    assert(-(far * (l * r)) <= at <= far * (l * r)) by (nonlinear_arith)
        requires
            -(half * slice) <= at <= half * slice,
            slice <= 2 * (l * r),
            far == 2 * half,
            half > 0,
    ;
    assert(-(far * l) <= t <= far * l) by (nonlinear_arith)
        requires
            -(far * (l * r)) <= t * r <= far * (l * r),
            r > 0,
    ;
    vstd::arithmetic::power2::lemma2_to64();
    vstd::arithmetic::power2::lemma_pow2_adds(64, 1074);
    rounding::lemma_pow2_increases(1138, 2098);
    let size = rounding::distance(t, 0);
    assert(size * w <= accuracy::beyond() * l) by (nonlinear_arith)
        requires
            size <= far * l,
            far * w <= accuracy::beyond(),
            w > 0,
            l > 0,
    ;
}

/// How many of `slices` are the slice `i`.
pub open spec fn requests_in_slice(slices: Seq<i64>, i: i64) -> nat
    decreases slices.len(),
{
    if slices.len() == 0 {
        0
    } else {
        requests_in_slice(slices.drop_last(), i) + if slices.last() == i {
            1nat
        } else {
            0nat
        }
    }
}

/// Each slice of `burst / rate` seconds from the epoch on allows its first `burst` requests and
/// denies the rest, whatever comes in other slices and in whatever order: of requests at `times`,
/// each in the slice of `slices`, one more in the slice `i` is allowed exactly where fewer than
/// the burst came in that slice.
pub proof fn lemma_each_slice_allows_the_burst(
    rate: Binary64,
    burst: Binary64,
    times: Seq<Binary64>,
    slices: Seq<i64>,
    now: Binary64,
    i: i64,
)
    requires
        window::makes_window(rate, burst),
        has_regular_length(rate, burst),
        times.len() == slices.len(),
        times.len() < usize::MAX,
        forall|k: int|
            0 <= k < times.len() ==> (#[trigger] times[k]).finite() && is_clearly_in_slice(
                rate,
                burst,
                slices[k] as int,
                times[k],
            ),
        now.finite(),
        is_clearly_in_slice(rate, burst, i as int, now),
    ensures
        WindowCounts::idle(rate, burst).run(times).allows(now) <==> (requests_in_slice(slices, i)
            + 1) * binary64::one() <= burst.value(),
{
    let start = WindowCounts::idle(rate, burst);
    let w = binary64::one() as int;
    let limit = start.limit as int;
    let n = requests_in_slice(slices, i) as int;
    order::lemma_one();
    lemma_window_of_new_counter(rate, burst);
    lemma_index_is_slice(rate, burst, i, now);
    lemma_granted_in_slice(rate, burst, times, slices, i);
    lemma_denied_only_when_slice_is_full(start, times, now);
    if (n + 1) * w <= burst.value() {
        if limit < usize::MAX {
            assert(n < limit) by (nonlinear_arith)
                requires
                    (n + 1) * w < (limit + 1) * w,
                    w > 0,
            ;
        }
    } else {
        assert(limit < n + 1) by (nonlinear_arith)
            requires
                limit * w < (n + 1) * w,
                w > 0,
        ;
    }
}

proof fn lemma_granted_in_slice(
    rate: Binary64,
    burst: Binary64,
    times: Seq<Binary64>,
    slices: Seq<i64>,
    i: i64,
)
    requires
        window::makes_window(rate, burst),
        has_regular_length(rate, burst),
        times.len() == slices.len(),
        forall|k: int|
            0 <= k < times.len() ==> (#[trigger] times[k]).finite() && is_clearly_in_slice(
                rate,
                burst,
                slices[k] as int,
                times[k],
            ),
    ensures
        ({
            let start = WindowCounts::idle(rate, burst);
            let n = requests_in_slice(slices, i);
            &&& n <= times.len()
            &&& start.granted_in(times, i) == if n < start.limit {
                n
            } else {
                start.limit as nat
            }
        }),
    decreases times.len(),
{
    if times.len() > 0 {
        let earlier = times.drop_last();
        let before = slices.drop_last();
        let now = times.last();
        assert(now == times[times.len() - 1]);
        assert forall|k: int| 0 <= k < earlier.len() implies (#[trigger] earlier[k]).finite()
            && is_clearly_in_slice(rate, burst, before[k] as int, earlier[k]) by {
            assert(earlier[k] == times[k] && before[k] == slices[k]);
        }
        lemma_granted_in_slice(rate, burst, earlier, before, i);
        lemma_index_is_slice(rate, burst, slices.last(), now);
        lemma_denied_only_when_slice_is_full(WindowCounts::idle(rate, burst), earlier, now);
    }
}

/// Where neither `burst / rate` nor a time over it is rounded, the time is in the slice that
/// starts with its first moment: from `i * burst / rate` on, and before `(i + 1) * burst / rate`.
pub proof fn lemma_slice_starts_with_its_first_moment(
    rate: Binary64,
    burst: Binary64,
    i: i64,
    time: Binary64,
)
    requires
        window::makes_window(rate, burst),
        time.finite(),
        ({
            let length = WindowCounts::idle(rate, burst).window;
            &&& length.finite()
            &&& length.value() * rate.value() == burst.value() * binary64::one()
            &&& !time.quotient(length).is_nan()
            &&& time.quotient(length).value() * length.value() == time.value() * binary64::one()
        }),
        i * (burst.value() * binary64::one()) <= time.value() * rate.value() < (i + 1) * (
        burst.value() * binary64::one()),
    ensures
        WindowCounts::idle(rate, burst).index(time) == i,
{
    let length = WindowCounts::idle(rate, burst).window;
    let w = binary64::one() as int;
    let r = rate.value();
    let l = length.value();
    let t = time.value();
    let q = time.quotient(length).value();
    let slice = burst.value() * w;
    order::lemma_one();
    assert(l > 0) by (nonlinear_arith)
        requires
            l * r == burst.value() * w,
            burst.value() > 0,
            w > 0,
            r > 0,
    ;
    assert(i * l <= t) by (nonlinear_arith)
        requires
            i * slice <= t * r,
            slice == l * r,
            r > 0,
    ;
    assert(t < (i + 1) * l) by (nonlinear_arith)
        requires
            t * r < (i + 1) * slice,
            slice == l * r,
            r > 0,
    ;
    assert(i * w <= q) by (nonlinear_arith)
        requires
            i * l <= t,
            q * l == t * w,
            l > 0,
            w > 0,
    ;
    assert(q < (i + 1) * w) by (nonlinear_arith)
        requires
            t < (i + 1) * l,
            q * l == t * w,
            l > 0,
            w > 0,
    ;
    lemma_floor_is(q, w, i as int);
}

/// With a burst without bound there is one window for all times; with a rate without bound there
/// is one for all times before the epoch, one for the epoch and one for all after it.
pub proof fn lemma_windows_without_bound(rate: Binary64, burst: Binary64, time: Binary64)
    requires
        !rate.is_nan(),
        !burst.is_nan(),
        rate.value() > 0,
        burst.value() > 0,
        time.finite(),
    ensures
        rate.finite() && burst.is_infinite() ==> WindowCounts::idle(rate, burst).index(time) == 0,
        rate.is_infinite() && burst.finite() ==> WindowCounts::idle(rate, burst).index(time) == if
            time.value() < 0 {
            i64::MIN
        } else if time.value() == 0 {
            0i64
        } else {
            i64::MAX
        },
{
    let length = WindowCounts::idle(rate, burst).window;
    order::lemma_one();
    window::lemma_boundless_windows(rate, burst);
    window::lemma_window_is_not_negative(rate, burst);
    rounding::lemma_units_zero(0);
    rounding::lemma_units_zero(length.magnitude());
    if rate.is_infinite() && burst.finite() {
        order::lemma_quotient_by_zero(time, length);
    }
    if rate.finite() && burst.is_infinite() {
        order::lemma_signed(time.is_negative(), 0);
        vstd::arithmetic::div_mod::lemma_basic_div(0, binary64::one() as int);
    }
}

} // verus!
