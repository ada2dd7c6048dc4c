//! The token bucket.

use crate::accuracy;
use crate::binary64;
use crate::binary64::Binary64;
use crate::order;
use crate::rounding;
use vstd::arithmetic::div_mod::*;
use vstd::arithmetic::mul::*;
use vstd::prelude::*;

verus! {

/// A token bucket: tokens refill continuously at `rate` per second, up to `capacity`. Each
/// allowed request costs one token. `last` is `None` until the first request, so that the bucket
/// starts full whatever the first timestamp is.
#[derive(Clone, Copy)]
pub struct TokenBucket {
    pub capacity: Binary64,
    pub rate: Binary64,
    pub tokens: Binary64,
    pub last: Option<Binary64>,
}

impl TokenBucket {
    /// The tokens at the time `now`, before a request at that time is decided.
    pub open spec fn refilled(self, now: Binary64) -> Binary64 {
        match self.last {
            None => self.tokens,
            Some(last) => {
                let elapsed = now.difference(last);
                if (Binary64 { bits: 0 }).less(elapsed) {
                    self.tokens.sum(elapsed.product(self.rate)).lesser(self.capacity)
                } else {
                    self.tokens
                }
            },
        }
    }

    /// Whether a request at the time `now` is allowed.
    pub open spec fn allows(self, now: Binary64) -> bool {
        (Binary64 { bits: binary64::ONE }).at_most(self.refilled(now))
    }

    /// The bucket after a request at the time `now`.
    pub open spec fn after(self, now: Binary64) -> TokenBucket {
        TokenBucket {
            capacity: self.capacity,
            rate: self.rate,
            tokens: if self.allows(now) {
                self.refilled(now).difference(Binary64 { bits: binary64::ONE })
            } else {
                self.refilled(now)
            },
            last: Some(now),
        }
    }

    /// A full bucket.
    pub open spec fn full(capacity: Binary64, rate: Binary64) -> TokenBucket {
        TokenBucket { capacity, rate, tokens: capacity, last: None }
    }

    /// A full bucket.
    pub fn new(capacity: Binary64, rate: Binary64) -> (bucket: TokenBucket)
        ensures
            bucket == Self::full(capacity, rate),
    {
        TokenBucket { capacity, rate, tokens: capacity, last: None }
    }

    /// Decides a request at the time `now`, and charges for it where it is allowed.
    pub fn allow(&mut self, now: Binary64) -> (allowed: bool)
        ensures
            allowed == old(self).allows(now),
            *final(self) == old(self).after(now),
    {
        if let Some(last) = self.last {
            let elapsed = now.minus(last);
            if Binary64::from_bits(0).is_less(elapsed) {
                self.tokens = self.tokens.plus(elapsed.times(self.rate)).min(self.capacity);
            }
        }
        self.last = Some(now);
        let one = Binary64::from_bits(binary64::ONE);
        if one.is_at_most(self.tokens) {
            self.tokens = self.tokens.minus(one);
            true
        } else {
            false
        }
    }

    /// The tokens are a number from 0 to the capacity.
    pub open spec fn within_capacity(self) -> bool {
        &&& !self.tokens.is_nan()
        &&& !self.capacity.is_nan()
        &&& 0 <= self.tokens.value() <= self.capacity.value()
    }

    /// The bucket after requests at `times`, in turn.
    pub open spec fn run(self, times: Seq<Binary64>) -> TokenBucket
        decreases times.len(),
    {
        if times.len() == 0 {
            self
        } else {
            self.run(times.drop_last()).after(times.last())
        }
    }

    /// How many of the requests at `times` are allowed.
    pub open spec fn granted(self, times: Seq<Binary64>) -> nat
        decreases times.len(),
    {
        if times.len() == 0 {
            0
        } else {
            self.granted(times.drop_last()) + if self.run(times.drop_last()).allows(times.last()) {
                1nat
            } else {
                0nat
            }
        }
    }

    /// The tokens that there would be at a later time `now` if nothing were ever rounded, in
    /// squared units.
    pub open spec fn exact_refill(self, last: Binary64, now: Binary64) -> int {
        let w = binary64::one() as int;
        let total = self.tokens.value() * w + self.rate.value() * (now.value() - last.value());
        if total < self.capacity.value() * w {
            total
        } else {
            self.capacity.value() * w
        }
    }

    /// Whether nothing is rounded in a request at the time `now`: the refill gives what exact
    /// arithmetic gives, and an allowed request costs exactly one token.
    pub open spec fn is_exact(self, now: Binary64) -> bool {
        &&& self.last matches Some(last) ==> (last.value() < now.value() ==> self.refilled(
            now,
        ).value() * binary64::one() == self.exact_refill(last, now))
        &&& self.allows(now) ==> self.after(now).tokens.value() == self.refilled(now).value()
            - binary64::one()
    }

    /// Whether nothing is rounded in the requests at `times`.
    pub open spec fn is_exact_over(self, times: Seq<Binary64>) -> bool
        decreases times.len(),
    {
        times.len() == 0 || {
            &&& self.is_exact_over(times.drop_last())
            &&& self.run(times.drop_last()).is_exact(times.last())
        }
    }

    /// The whole tokens in the bucket.
    pub open spec fn whole_tokens(self) -> int {
        if self.tokens.value() < 0 {
            0
        } else {
            self.tokens.value() / binary64::one() as int
        }
    }

    /// How many of `n` requests at the time `now` are allowed.
    pub open spec fn admitted(self, now: Binary64, n: nat) -> nat
        decreases n,
    {
        if n == 0 {
            0
        } else {
            let rest = self.after(now).admitted(now, (n - 1) as nat);
            if self.allows(now) {
                rest + 1
            } else {
                rest
            }
        }
    }
}

/// A bucket that is filled to a capacity of 0 or more is within it.
pub proof fn lemma_full_is_within_capacity(capacity: Binary64, rate: Binary64)
    requires
        !capacity.is_nan(),
        0 <= capacity.value(),
    ensures
        TokenBucket::full(capacity, rate).within_capacity(),
{
}

/// A refill stops at the capacity.
pub proof fn lemma_refill_stays_within_capacity(bucket: TokenBucket, now: Binary64)
    requires
        bucket.within_capacity(),
        bucket.rate.is_nan() || bucket.rate.value() >= 0,
    ensures
        !bucket.refilled(now).is_nan(),
        0 <= bucket.refilled(now).value() <= bucket.capacity.value(),
{
    order::lemma_zero();
    if let Some(last) = bucket.last {
        let elapsed = now.difference(last);
        if (Binary64 { bits: 0 }).less(elapsed) {
            let gain = elapsed.product(bucket.rate);
            lemma_gain(elapsed, bucket.rate);
            lemma_total(bucket.tokens, gain);
        }
    }
}

/// Whatever requests come, and whatever their timestamps, the tokens never exceed the capacity
/// and never go below 0. The rate is not negative.
pub proof fn lemma_stays_within_capacity(bucket: TokenBucket, now: Binary64)
    requires
        bucket.within_capacity(),
        bucket.rate.is_nan() || bucket.rate.value() >= 0,
    ensures
        bucket.after(now).within_capacity(),
{
    let one = Binary64 { bits: binary64::ONE };
    let refilled = bucket.refilled(now);
    order::lemma_one();
    order::lemma_zero();
    lemma_refill_stays_within_capacity(bucket, now);
    if bucket.allows(now) {
        if refilled.finite() {
            order::lemma_difference_value(refilled, one);
            order::lemma_settled_ordered(0, refilled.value() - one.value());
            order::lemma_settled_ordered(refilled.value() - one.value(), refilled.value());
            order::lemma_settled_exact(refilled);
            order::lemma_settled_exact(Binary64 { bits: 0 });
        } else {
            order::lemma_opposite(one);
        }
    }
}

/// A bucket within its capacity stays so through any requests.
pub proof fn lemma_run_stays_within_capacity(bucket: TokenBucket, times: Seq<Binary64>)
    requires
        bucket.within_capacity(),
        bucket.rate.is_nan() || bucket.rate.value() >= 0,
    ensures
        bucket.run(times).within_capacity(),
        bucket.run(times).rate == bucket.rate,
        bucket.run(times).capacity == bucket.capacity,
        times.len() > 0 ==> bucket.run(times).last == Some(times.last()),
    decreases times.len(),
{
    if times.len() > 0 {
        lemma_run_stays_within_capacity(bucket, times.drop_last());
        lemma_stays_within_capacity(bucket.run(times.drop_last()), times.last());
    }
}

/// Time that has passed never costs tokens.
proof fn lemma_gain(elapsed: Binary64, rate: Binary64)
    requires
        !elapsed.is_nan(),
        elapsed.value() > 0,
        rate.is_nan() || rate.value() >= 0,
    ensures
        elapsed.product(rate).is_nan() || elapsed.product(rate).value() >= 0,
{
    let gain = elapsed.product(rate);
    rounding::lemma_units_zero(rate.magnitude());
    rounding::lemma_units_zero(0);
    let exact = rounding::units(elapsed.magnitude()) * rounding::units(rate.magnitude());
    if !gain.is_nan() && rate.is_negative() {
        // the rate is a negative zero
        assert(rate.magnitude() == 0);
        lemma_mul_by_zero_is_zero(rounding::units(elapsed.magnitude()) as int);
        order::lemma_one();
        rounding::lemma_nearest_exact(0, binary64::one());
        lemma_mul_by_zero_is_zero(binary64::one() as int);
        order::lemma_signed(true, 0);
    } else if !gain.is_nan() {
        if elapsed.is_infinite() || rate.is_infinite() {
            order::lemma_signed(false, rounding::INFINITE as nat);
        } else {
            order::lemma_signed(false, rounding::nearest(exact, binary64::one()));
        }
    }
}

proof fn lemma_total(tokens: Binary64, gain: Binary64)
    requires
        !tokens.is_nan(),
        tokens.value() >= 0,
        gain.is_nan() || gain.value() >= 0,
    ensures
        tokens.sum(gain).is_nan() || tokens.sum(gain).value() >= 0,
{
    if tokens.finite() && gain.finite() {
        order::lemma_sum_value(tokens, gain);
        order::lemma_zero();
        order::lemma_settled_ordered(0, tokens.value() + gain.value());
        order::lemma_settled_exact(Binary64 { bits: 0 });
    }
}

/// Time never costs tokens: a refill leaves at least as many as there were.
pub proof fn lemma_refill_never_costs(bucket: TokenBucket, now: Binary64)
    requires
        bucket.within_capacity(),
        bucket.rate.is_nan() || bucket.rate.value() >= 0,
    ensures
        bucket.tokens.at_most(bucket.refilled(now)),
{
    order::lemma_zero();
    if let Some(last) = bucket.last {
        let elapsed = now.difference(last);
        if (Binary64 { bits: 0 }).less(elapsed) {
            let gain = elapsed.product(bucket.rate);
            lemma_gain(elapsed, bucket.rate);
            if bucket.tokens.finite() && gain.finite() {
                order::lemma_sum_value(bucket.tokens, gain);
                order::lemma_settled_ordered(
                    bucket.tokens.value(),
                    bucket.tokens.value() + gain.value(),
                );
                order::lemma_settled_exact(bucket.tokens);
            } else if bucket.tokens.finite() && gain.is_infinite() {
                rounding::lemma_units_zero(gain.magnitude());
                order::lemma_infinite_beyond(bucket.tokens, gain);
            }
        }
    }
}

/// Once a whole token's worth of time has passed, a request is allowed, if the bucket can hold a
/// token at all.
pub proof fn lemma_waiting_earns_a_token(bucket: TokenBucket, now: Binary64)
    requires
        bucket.within_capacity(),
        bucket.last is Some,
        (Binary64 { bits: 0 }).less(now.difference(bucket.last->Some_0)),
        (Binary64 { bits: binary64::ONE }).at_most(
            now.difference(bucket.last->Some_0).product(bucket.rate),
        ),
        (Binary64 { bits: binary64::ONE }).at_most(bucket.capacity),
    ensures
        bucket.allows(now),
{
    let gain = now.difference(bucket.last->Some_0).product(bucket.rate);
    order::lemma_one();
    if bucket.tokens.finite() && gain.finite() {
        order::lemma_sum_value(bucket.tokens, gain);
        order::lemma_settled_ordered(gain.value(), bucket.tokens.value() + gain.value());
        order::lemma_settled_exact(gain);
    } else {
        rounding::lemma_units_zero(bucket.tokens.magnitude());
        if bucket.tokens.is_infinite() {
            order::lemma_infinite_beyond(Binary64 { bits: binary64::ONE }, bucket.tokens);
        }
    }
}

/// A request that is no later than the one before it gains no tokens.
pub proof fn lemma_no_refill_without_time(bucket: TokenBucket, now: Binary64)
    requires
        bucket.last is Some,
        now.at_most(bucket.last->Some_0),
    ensures
        bucket.refilled(now) == bucket.tokens,
{
    let last = bucket.last->Some_0;
    order::lemma_zero();
    order::lemma_opposite(last);
    if now.finite() && last.finite() {
        order::lemma_difference_value(now, last);
        order::lemma_settled_ordered(now.value() - last.value(), 0);
        order::lemma_settled_exact(Binary64 { bits: 0 });
    } else {
        if last.finite() {
            order::lemma_infinite_beyond(last, now);
        } else if now.finite() {
            order::lemma_infinite_beyond(now, last);
        }
    }
}

/// A bucket that holds less than one token allows nothing while no time passes.
proof fn lemma_admits_nothing(bucket: TokenBucket, now: Binary64, n: nat)
    requires
        bucket.last is Some ==> now.at_most(bucket.last->Some_0),
        !now.is_nan(),
        !bucket.tokens.is_nan(),
        bucket.tokens.value() < binary64::one(),
    ensures
        bucket.admitted(now, n) == 0,
    decreases n,
{
    order::lemma_one();
    if n > 0 {
        if bucket.last is Some {
            lemma_no_refill_without_time(bucket, now);
        }
        lemma_admits_nothing(bucket.after(now), now, (n - 1) as nat);
    }
}

/// While no time passes, a bucket of `n` tokens or more allows `n` requests, for `n` up to 2^53.
proof fn lemma_admits_all(bucket: TokenBucket, now: Binary64, n: nat)
    requires
        bucket.last is Some ==> now.at_most(bucket.last->Some_0),
        !now.is_nan(),
        !bucket.tokens.is_nan(),
        n * binary64::one() <= bucket.tokens.value(),
        n <= rounding::SIGNIFICANDS,
    ensures
        bucket.admitted(now, n) == n,
    decreases n,
{
    let one = Binary64 { bits: binary64::ONE };
    let w = binary64::one() as int;
    let t = bucket.tokens.value();
    order::lemma_one();
    if n > 0 {
        let next = bucket.after(now);
        let rest = (n - 1) as nat;
        if bucket.last is Some {
            lemma_no_refill_without_time(bucket, now);
        }
        assert(rest * w + w == n * w) by (nonlinear_arith)
            requires
                rest == n - 1,
        ;
        assert(rest * w >= 0) by (nonlinear_arith)
            requires
                rest >= 0,
                w > 0,
        ;
        if bucket.tokens.finite() {
            order::lemma_difference_value(bucket.tokens, one);
            order::lemma_settled_ordered(rest * w, t - w);
            order::lemma_whole_is_exact(rest);
        } else {
            order::lemma_opposite(one);
        }
        lemma_admits_all(next, now, rest);
    }
}

/// With no time passing, a bucket allows exactly as many requests as it holds whole tokens, one
/// token each, and denies the rest. The bucket holds up to 2^53 tokens, or there are no more
/// requests than that: from more tokens than 2^53, taking 1 need not leave less.
pub proof fn lemma_admits_whole_tokens(bucket: TokenBucket, now: Binary64, n: nat)
    requires
        bucket.last is Some ==> now.at_most(bucket.last->Some_0),
        !now.is_nan(),
        !bucket.tokens.is_nan(),
        bucket.tokens.value() <= rounding::SIGNIFICANDS * binary64::one() || n
            <= rounding::SIGNIFICANDS,
    ensures
        bucket.admitted(now, n) == if n <= bucket.whole_tokens() {
            n as int
        } else {
            bucket.whole_tokens()
        },
{
    let w = binary64::one() as int;
    let t = bucket.tokens.value();
    order::lemma_one();
    if t < 0 {
        lemma_admits_nothing(bucket, now, n);
    } else if t <= rounding::SIGNIFICANDS * w {
        lemma_admits_few(bucket, now, n);
    } else {
        assert(n * w <= t) by (nonlinear_arith)
            requires
                n <= rounding::SIGNIFICANDS,
                rounding::SIGNIFICANDS * w < t,
                w > 0,
        ;
        lemma_admits_all(bucket, now, n);
        lemma_div_is_ordered(n * w, t, w);
        lemma_div_by_multiple(n as int, w);
    }
}

proof fn lemma_admits_few(bucket: TokenBucket, now: Binary64, n: nat)
    requires
        bucket.last is Some ==> now.at_most(bucket.last->Some_0),
        !now.is_nan(),
        !bucket.tokens.is_nan(),
        0 <= bucket.tokens.value() <= rounding::SIGNIFICANDS * binary64::one(),
    ensures
        bucket.admitted(now, n) == if n <= bucket.tokens.value() / binary64::one() as int {
            n as int
        } else {
            bucket.tokens.value() / binary64::one() as int
        },
    decreases n,
{
    let w = binary64::one() as int;
    let t = bucket.tokens.value();
    order::lemma_one();
    lemma_div_pos_is_pos(t, w);
    if n > 0 {
        let next = bucket.after(now);
        if bucket.last is Some {
            lemma_no_refill_without_time(bucket, now);
        }
        assert(bucket.refilled(now) == bucket.tokens);
        if bucket.allows(now) {
            order::lemma_less_one_exact(bucket.tokens);
            lemma_div_minus_one(t, w);
            lemma_admits_few(next, now, (n - 1) as nat);
        } else {
            lemma_basic_div(t, w);
            lemma_admits_few(next, now, (n - 1) as nat);
        }
    }
}

/// A request is allowed exactly where at least one token is there after the refill: it is denied
/// only where fewer than one is left.
pub proof fn lemma_denied_only_below_one_token(
    bucket: TokenBucket,
    times: Seq<Binary64>,
    now: Binary64,
)
    requires
        bucket.within_capacity(),
        bucket.rate.is_nan() || bucket.rate.value() >= 0,
    ensures
        bucket.run(times).allows(now) <==> bucket.run(times).refilled(now).value()
            >= binary64::one(),
{
    order::lemma_one();
    lemma_run_stays_within_capacity(bucket, times);
    lemma_refill_stays_within_capacity(bucket.run(times), now);
}

/// An exact request costs a token if it is allowed, and brings no more than was earned.
proof fn lemma_exact_step(bucket: TokenBucket, now: Binary64)
    requires
        bucket.within_capacity(),
        !bucket.rate.is_nan(),
        bucket.rate.value() >= 0,
        bucket.is_exact(now),
    ensures
        bucket.refilled(now).value() == bucket.after(now).tokens.value() + if bucket.allows(now) {
            binary64::one() as int
        } else {
            0
        },
        bucket.last matches Some(last) ==> (last.at_most(now) ==> bucket.refilled(now).value()
            * binary64::one() <= bucket.tokens.value() * binary64::one() + bucket.rate.value() * (
        now.value() - last.value())),
{
    if let Some(last) = bucket.last {
        if last.at_most(now) && now.value() <= last.value() {
            lemma_no_refill_without_time(bucket, now);
            assert(bucket.rate.value() * (now.value() - last.value()) == 0) by (nonlinear_arith)
                requires
                    now.value() == last.value(),
            ;
        }
    }
}

/// What was allowed and what is left never exceed the capacity and what was earned.
proof fn lemma_allowance(bucket: TokenBucket, times: Seq<Binary64>)
    requires
        bucket.within_capacity(),
        !bucket.rate.is_nan(),
        bucket.rate.value() >= 0,
        times.len() > 0,
        order::is_chronological(times),
        bucket.is_exact_over(times),
    ensures
        (bucket.granted(times) * binary64::one() + bucket.run(times).tokens.value())
            * binary64::one() <= bucket.capacity.value() * binary64::one() + bucket.rate.value() * (
        times.last().value() - times[0].value()),
    decreases times.len(),
{
    let w = binary64::one() as int;
    let rate = bucket.rate.value();
    let capacity = bucket.capacity.value();
    let earlier = times.drop_last();
    let before = bucket.run(earlier);
    let now = times.last();
    let refill = before.refilled(now).value();
    let g = bucket.granted(earlier) as int;
    let n = bucket.granted(times) as int;
    let left = bucket.run(times).tokens.value();
    let first = times[0].value();
    order::lemma_one();
    lemma_run_stays_within_capacity(bucket, earlier);
    lemma_refill_stays_within_capacity(before, now);
    if earlier.len() > 0 {
        assert(before.last == Some(times[times.len() - 2]));
    }
    lemma_exact_step(before, now);
    assert(n * w + left == g * w + refill) by {
        assert((g + 1) * w == g * w + w) by (nonlinear_arith);
    }
    if earlier.len() == 0 {
        assert((n * w + left) * w <= capacity * w + rate * (now.value() - first))
            by (nonlinear_arith)
            requires
                n * w + left == g * w + refill,
                g == 0,
                refill <= capacity,
                now.value() == first,
                w > 0,
        ;
    } else {
        let last = earlier.last();
        let tokens = before.tokens.value();
        assert(earlier[0] == times[0]);
        lemma_allowance(bucket, earlier);
        assert((n * w + left) * w == (g * w + tokens) * w + refill * w - tokens * w)
            by (nonlinear_arith)
            requires
                n * w + left == g * w + refill,
        ;
        assert(rate * (now.value() - last.value()) + rate * (last.value() - first) == rate * (
        now.value() - first)) by (nonlinear_arith);
    }
}

/// A bucket keeps to its rate: of requests in chronological order, with nothing rounded, it
/// allows at most its capacity and what `rate` earns from the first of them to the last. Whatever
/// came before them does not matter.
pub proof fn lemma_never_exceeds_rate(bucket: TokenBucket, times: Seq<Binary64>)
    requires
        bucket.within_capacity(),
        !bucket.rate.is_nan(),
        bucket.rate.value() >= 0,
        times.len() > 0,
        order::is_chronological(times),
        bucket.is_exact_over(times),
    ensures
        bucket.granted(times) * binary64::one() * binary64::one() <= bucket.capacity.value()
            * binary64::one() + bucket.rate.value() * (times.last().value() - times[0].value()),
{
    let w = binary64::one() as int;
    let n = bucket.granted(times) as int;
    let left = bucket.run(times).tokens.value();
    order::lemma_one();
    lemma_allowance(bucket, times);
    lemma_run_stays_within_capacity(bucket, times);
    assert(n * w * w <= (n * w + left) * w) by (nonlinear_arith)
        requires
            left >= 0,
            w > 0,
    ;
}

/// Requests one after the other are the same in one run or in two.
proof fn lemma_run_in_two(bucket: TokenBucket, times: Seq<Binary64>, more: Seq<Binary64>)
    ensures
        bucket.run(times + more) == bucket.run(times).run(more),
        bucket.is_exact_over(times + more) <==> bucket.is_exact_over(times) && bucket.run(
            times,
        ).is_exact_over(more),
    decreases more.len(),
{
    if more.len() == 0 {
        assert(times + more =~= times);
    } else {
        lemma_run_in_two(bucket, times, more.drop_last());
        assert((times + more).drop_last() =~= times + more.drop_last());
    }
}

/// Of any requests in chronological order, with nothing rounded, those from the `i`th to the
/// `j`th are allowed at most as often as the capacity and what `rate` earns between the two say.
#[verifier::spinoff_prover]
#[verifier::rlimit(40)]
pub proof fn lemma_any_stretch_keeps_to_rate(
    capacity: Binary64,
    rate: Binary64,
    times: Seq<Binary64>,
    i: int,
    j: int,
)
    requires
        !capacity.is_nan(),
        capacity.value() >= 0,
        !rate.is_nan(),
        rate.value() >= 0,
        order::is_chronological(times),
        TokenBucket::full(capacity, rate).is_exact_over(times),
        0 <= i <= j < times.len(),
    ensures
        TokenBucket::full(capacity, rate).run(times.take(i)).granted(times.subrange(i, j + 1))
            * binary64::one() * binary64::one() <= capacity.value() * binary64::one()
            + rate.value() * (times[j].value() - times[i].value()),
{
    let start = TokenBucket::full(capacity, rate);
    let before = times.take(i);
    let stretch = times.subrange(i, j + 1);
    let rest = times.skip(j + 1);
    assert((before + stretch) + rest =~= times);
    lemma_run_in_two(start, before + stretch, rest);
    lemma_run_in_two(start, before, stretch);
    lemma_run_stays_within_capacity(start, before);
    order::lemma_chronological_part(times, i, j + 1);
    lemma_never_exceeds_rate(start.run(before), stretch);
}

/// Where no operation of a request rounds, the request is exact: not the time that has passed,
/// not what it earns, not the total, and not the token less.
pub proof fn lemma_exact_operations(bucket: TokenBucket, now: Binary64)
    requires
        bucket.within_capacity(),
        now.finite(),
        bucket.last matches Some(last) ==> last.finite() && (last.value() < now.value() ==> {
            let elapsed = now.difference(last);
            let gain = elapsed.product(bucket.rate);
            let total = bucket.tokens.sum(gain);
            &&& elapsed.value() == now.value() - last.value()
            &&& !gain.is_nan()
            &&& gain.value() * binary64::one() == elapsed.value() * bucket.rate.value()
            &&& !total.is_nan()
            &&& total.value() == bucket.tokens.value() + gain.value()
        }),
        bucket.allows(now) ==> bucket.refilled(now).difference(
            Binary64 { bits: binary64::ONE },
        ).value() == bucket.refilled(now).value() - binary64::one(),
    ensures
        bucket.is_exact(now),
{
    let w = binary64::one() as int;
    order::lemma_one();
    order::lemma_zero();
    if let Some(last) = bucket.last {
        if last.value() < now.value() {
            let elapsed = now.difference(last);
            let gain = elapsed.product(bucket.rate);
            let total = bucket.tokens.sum(gain);
            let t = bucket.tokens.value();
            let capacity = bucket.capacity.value();
            order::lemma_difference_value(now, last);
            assert(bucket.refilled(now) == total.lesser(bucket.capacity));
            assert(total.value() * w == t * w + bucket.rate.value() * (now.value()
                - last.value())) by (nonlinear_arith)
                requires
                    total.value() == t + gain.value(),
                    gain.value() * w == elapsed.value() * bucket.rate.value(),
                    elapsed.value() == now.value() - last.value(),
            ;
            lemma_scaled_order(total.value(), capacity, w);
        }
    }
}

proof fn lemma_scaled_order(a: int, b: int, w: int)
    requires
        w > 0,
    ensures
        a < b <==> a * w < b * w,
        a == b ==> a * w == b * w,
{
    assert(a < b ==> a * w < b * w) by (nonlinear_arith)
        requires
            w > 0,
    ;
    assert(a >= b ==> a * w >= b * w) by (nonlinear_arith)
        requires
            w > 0,
    ;
}

/// The arithmetic of a refill: `earned` is what the elapsed time earns exactly, `paid` the same
/// from the elapsed time as rounded, `gain` what that rounds to, and `total` the rounded total.
proof fn lemma_refill_error(
    tokens: int,
    earned: int,
    paid: int,
    gain: int,
    total: int,
    half: int,
)
    requires
        tokens >= 0,
        earned >= 0,
        half >= 0,
        rounding::SIGNIFICANDS * rounding::distance(paid, earned) <= earned,
        rounding::SIGNIFICANDS * rounding::distance(gain, paid) <= paid + rounding::SIGNIFICANDS
            * half,
        rounding::SIGNIFICANDS * rounding::distance(total, tokens + gain) <= tokens + gain,
    ensures
        rounding::SIGNIFICANDS * rounding::distance(total, tokens + earned) <= 4 * (tokens + earned)
            + 2 * (rounding::SIGNIFICANDS * half),
{
    accuracy::lemma_parts(rounding::distance(paid, earned));
    accuracy::lemma_parts(rounding::distance(gain, paid));
    accuracy::lemma_parts(rounding::distance(total, tokens + gain));
    accuracy::lemma_parts(rounding::distance(total, tokens + earned));
    accuracy::lemma_parts(half);
}

/// A refill is what the time earns: the tokens at the time `now`, before a request at that time
/// is decided, are the tokens that there were and `rate` for each second since, or the capacity
/// where that is less. They are off by at most four parts in 2^53 and a unit.
pub proof fn lemma_refill_is_what_time_earns(bucket: TokenBucket, last: Binary64, now: Binary64)
    requires
        bucket.within_capacity(),
        bucket.rate.finite(),
        bucket.rate.value() >= 0,
        bucket.last == Some(last),
        last.finite(),
        now.finite(),
        last.value() < now.value(),
        now.value() - last.value() <= accuracy::largest(),
    ensures
        ({
            let w = binary64::one();
            let total = bucket.tokens.value() * w + bucket.rate.value() * (now.value()
                - last.value());
            let most = bucket.capacity.value() * w;
            let exact = if total < most {
                total
            } else {
                most
            };
            rounding::SIGNIFICANDS * rounding::distance(bucket.refilled(now).value() * w, exact)
                <= 4 * exact + rounding::SIGNIFICANDS * w
        }),
{
    let w = binary64::one() as int;
    let n = rounding::SIGNIFICANDS as int;
    let stretch = now.value() - last.value();
    let elapsed = now.difference(last);
    let rate = bucket.rate;
    let gain = elapsed.product(rate);
    let sum = bucket.tokens.sum(gain);
    let t = bucket.tokens.value();
    let e = elapsed.value();
    let r = rate.value();
    let g = gain.value();
    let s = sum.value();
    let cap = bucket.capacity.value();
    order::lemma_one();
    order::lemma_zero();
    accuracy::lemma_beyond();
    accuracy::lemma_difference_error(now, last);
    accuracy::lemma_finite_within(elapsed);
    assert(e > 0);
    accuracy::lemma_product_error(elapsed, rate);
    accuracy::lemma_sum_error(bucket.tokens, gain);
    order::lemma_value_bound(bucket.capacity);
    assert(bucket.refilled(now) == sum.lesser(bucket.capacity));
    let refill = bucket.refilled(now).value();
    let tokens = t * w;
    let most = cap * w;
    let earned = r * stretch;
    let paid = e * r;
    let top = accuracy::beyond() * w;
    lemma_scaled_order(s, cap, w);
    lemma_scaled_order(t, cap, w);
    lemma_mul_nonnegative(t, w);
    lemma_mul_nonnegative(r, stretch);
    lemma_mul_nonnegative(e, r);
    lemma_mul_nonnegative(g, w);
    assert(n * rounding::distance(paid, earned) <= earned) by {
        assert(n * (e * r - r * stretch) <= r * stretch) by (nonlinear_arith)
            requires
                n * (e - stretch) <= stretch,
                r >= 0,
        ;
        assert(n * (r * stretch - e * r) <= r * stretch) by (nonlinear_arith)
            requires
                n * (stretch - e) <= stretch,
                r >= 0,
        ;
    }
    if paid > top || t + g > accuracy::beyond() || bucket.tokens.is_infinite() {
        // the total is infinite, and the bucket is full
        assert(s == accuracy::beyond());
        assert(refill == cap);
        if tokens + earned < most {
            if paid > top {
                lemma_scaled_order(cap, accuracy::beyond(), w);
                assert(most <= top);
            } else if bucket.tokens.is_infinite() {
                assert(t == accuracy::beyond());
            } else {
                assert(most <= tokens + g * w) by (nonlinear_arith)
                    requires
                        most == cap * w,
                        tokens == t * w,
                        cap <= t + g,
                        w > 0,
                ;
            }
        }
    } else {
        assert(n * rounding::distance(s * w, tokens + g * w) <= tokens + g * w) by {
            assert(n * (s * w - (t * w + g * w)) <= t * w + g * w) by (nonlinear_arith)
                requires
                    n * (s - (t + g)) <= t + g,
                    w >= 0,
            ;
            assert(n * (t * w + g * w - s * w) <= t * w + g * w) by (nonlinear_arith)
                requires
                    n * (t + g - s) <= t + g,
                    w >= 0,
            ;
        }
        let half = w / 2;
        lemma_half_one();
        accuracy::lemma_parts(rounding::distance(g * w, paid));
        accuracy::lemma_parts(half);
        accuracy::lemma_parts(w);
        lemma_refill_error(tokens, earned, paid, g * w, s * w, half);
        accuracy::lemma_parts(rounding::distance(s * w, tokens + earned));
    }
}

/// After a request the next refill counts from that request's time, whatever came before it: the
/// time between two requests earns `rate` tokens per second, up to the capacity.
pub proof fn lemma_time_between_requests_earns(
    bucket: TokenBucket,
    now: Binary64,
    later: Binary64,
)
    requires
        bucket.within_capacity(),
        bucket.rate.finite(),
        bucket.rate.value() >= 0,
        now.finite(),
        later.finite(),
        now.value() < later.value(),
        later.value() - now.value() <= accuracy::largest(),
    ensures
        ({
            let w = binary64::one();
            let total = bucket.after(now).tokens.value() * w + bucket.rate.value() * (later.value()
                - now.value());
            let most = bucket.capacity.value() * w;
            let exact = if total < most {
                total
            } else {
                most
            };
            rounding::SIGNIFICANDS * rounding::distance(
                bucket.after(now).refilled(later).value() * w,
                exact,
            ) <= 4 * exact + rounding::SIGNIFICANDS * w
        }),
{
    lemma_stays_within_capacity(bucket, now);
    lemma_refill_is_what_time_earns(bucket.after(now), now, later);
}

/// A bucket starts with `capacity` tokens and keeps its capacity and its rate: after any requests,
/// the time since the last of them earns `rate` tokens per second, up to the capacity.
pub proof fn lemma_new_bucket_earns(
    capacity: Binary64,
    rate: Binary64,
    times: Seq<Binary64>,
    later: Binary64,
)
    requires
        !capacity.is_nan(),
        capacity.value() >= 0,
        rate.finite(),
        rate.value() >= 0,
        times.len() > 0,
        times.last().finite(),
        later.finite(),
        times.last().value() < later.value(),
        later.value() - times.last().value() <= accuracy::largest(),
    ensures
        TokenBucket::full(capacity, rate).refilled(times[0]).value() == capacity.value(),
        ({
            let w = binary64::one();
            let bucket = TokenBucket::full(capacity, rate).run(times);
            let total = bucket.tokens.value() * w + rate.value() * (later.value()
                - times.last().value());
            let most = capacity.value() * w;
            let exact = if total < most {
                total
            } else {
                most
            };
            rounding::SIGNIFICANDS * rounding::distance(bucket.refilled(later).value() * w, exact)
                <= 4 * exact + rounding::SIGNIFICANDS * w
        }),
{
    let bucket = TokenBucket::full(capacity, rate);
    lemma_run_stays_within_capacity(bucket, times);
    lemma_refill_is_what_time_earns(bucket.run(times), times.last(), later);
}

/// Where the rate is infinite, or more time has passed than a number can hold, any time that
/// passes fills the bucket.
pub proof fn lemma_boundless_gain_fills(bucket: TokenBucket, last: Binary64, now: Binary64)
    requires
        bucket.within_capacity(),
        !bucket.rate.is_nan(),
        bucket.rate.value() > 0,
        bucket.last == Some(last),
        last.finite(),
        now.finite(),
        last.value() < now.value(),
        bucket.rate.is_infinite() || now.value() - last.value() >= accuracy::beyond(),
    ensures
        bucket.refilled(now).value() == bucket.capacity.value(),
{
    let elapsed = now.difference(last);
    let gain = elapsed.product(bucket.rate);
    order::lemma_zero();
    accuracy::lemma_beyond();
    accuracy::lemma_difference_error(now, last);
    rounding::lemma_units_zero(elapsed.magnitude());
    rounding::lemma_units_zero(bucket.rate.magnitude());
    if elapsed.finite() {
        order::lemma_difference_value(now, last);
        accuracy::lemma_settled_error(now.value() - last.value());
        rounding::lemma_units_ordered(elapsed.magnitude(), rounding::INFINITE as nat);
    }
    order::lemma_signed(false, rounding::INFINITE as nat);
    assert(gain.is_infinite() && !gain.is_negative());
    accuracy::lemma_sum_error(bucket.tokens, gain);
    order::lemma_value_bound(bucket.capacity);
}

/// A rate that is no number fills the bucket as soon as any time passes, and a capacity that is
/// none never allows anything.
pub proof fn lemma_no_numbers(bucket: TokenBucket, now: Binary64)
    ensures
        bucket.rate.is_nan() && bucket.within_capacity() && (bucket.last matches Some(last)
            && last.finite() && now.finite() && last.value() < now.value()) ==> bucket.refilled(
            now,
        ).value() == bucket.capacity.value(),
        bucket.capacity.is_nan() && bucket.tokens.is_nan() ==> !bucket.allows(now) && bucket.after(
            now,
        ).tokens.is_nan(),
{
    order::lemma_zero();
    if let Some(last) = bucket.last {
        if last.finite() && now.finite() && last.value() < now.value() {
            accuracy::lemma_beyond();
            accuracy::lemma_difference_error(now, last);
            order::lemma_difference_value(now, last);
            accuracy::lemma_settled_error(now.value() - last.value());
        }
    }
}

/// An allowed request costs one token, to one part in 2^53, and a denied one nothing.
pub proof fn lemma_request_costs_a_token(bucket: TokenBucket, now: Binary64)
    requires
        bucket.within_capacity(),
        bucket.rate.is_nan() || bucket.rate.value() >= 0,
    ensures
        bucket.allows(now) ==> rounding::SIGNIFICANDS * rounding::distance(
            bucket.after(now).tokens.value(),
            bucket.refilled(now).value() - binary64::one(),
        ) <= bucket.refilled(now).value(),
        !bucket.allows(now) ==> bucket.after(now).tokens.value() == bucket.refilled(now).value(),
{
    let one = Binary64 { bits: binary64::ONE };
    let refilled = bucket.refilled(now);
    let w = binary64::one() as int;
    order::lemma_one();
    accuracy::lemma_beyond();
    lemma_refill_stays_within_capacity(bucket, now);
    if bucket.allows(now) {
        if refilled.finite() {
            order::lemma_difference_value(refilled, one);
            accuracy::lemma_settled_error(refilled.value() - w);
            order::lemma_value_bound(refilled);
        } else {
            order::lemma_opposite(one);
            rounding::lemma_pow2_52_53();
            vstd::arithmetic::power2::lemma_pow2_adds(53, 1074);
            rounding::lemma_pow2_increases(1127, 2098);
            rounding::lemma_units_zero(refilled.magnitude());
        }
    }
}

/// What a request leaves, and the token that it costs, are no more than what was there and what
/// was earned, but for what rounding adds.
proof fn lemma_rounded_step(bucket: TokenBucket, now: Binary64)
    requires
        bucket.within_capacity(),
        bucket.rate.finite(),
        bucket.rate.value() >= 0,
        now.finite(),
    ensures
        ({
            let w = binary64::one() as int;
            let n = rounding::SIGNIFICANDS as int;
            let most = bucket.capacity.value() * w;
            let left = bucket.after(now).tokens.value() + if bucket.allows(now) {
                w
            } else {
                0
            };
            &&& n * (left * w) <= n * most + most
            &&& bucket.last matches Some(last) ==> (last.finite() && 0 <= now.value()
                - last.value() <= accuracy::largest() ==> n * (left * w) <= n * (
            bucket.tokens.value() * w) + n * (bucket.rate.value() * (now.value() - last.value()))
                + 5 * most + n * w)
        }),
{
    let w = binary64::one() as int;
    let n = rounding::SIGNIFICANDS as int;
    let cap = bucket.capacity.value();
    let most = cap * w;
    let refill = bucket.refilled(now).value();
    let left = bucket.after(now).tokens.value() + if bucket.allows(now) {
        w
    } else {
        0
    };
    order::lemma_one();
    lemma_refill_stays_within_capacity(bucket, now);
    lemma_request_costs_a_token(bucket, now);
    assert(n * (left - refill) <= refill) by {
        accuracy::lemma_parts(left - refill);
        accuracy::lemma_parts(
            rounding::distance(bucket.after(now).tokens.value(), refill - w),
        );
    }
    assert(n * (left * w) <= n * (refill * w) + most) by (nonlinear_arith)
        requires
            n * (left - refill) <= refill,
            refill <= cap,
            most == cap * w,
            w > 0,
    ;
    assert(n * (refill * w) <= n * most) by (nonlinear_arith)
        requires
            refill <= cap,
            most == cap * w,
            w > 0,
            n > 0,
    ;
    if let Some(last) = bucket.last {
        let stretch = now.value() - last.value();
        if last.finite() && 0 <= stretch <= accuracy::largest() {
            let tokens = bucket.tokens.value() * w;
            let earned = bucket.rate.value() * stretch;
            accuracy::lemma_parts(refill * w);
            accuracy::lemma_parts(tokens);
            accuracy::lemma_parts(earned);
            accuracy::lemma_parts(w);
            lemma_mul_nonnegative(cap, w);
            if stretch == 0 {
                lemma_no_refill_without_time(bucket, now);
                assert(earned == 0) by (nonlinear_arith)
                    requires
                        stretch == 0,
                        earned == bucket.rate.value() * stretch,
                ;
            } else {
                lemma_refill_is_what_time_earns(bucket, last, now);
                let exact = if tokens + earned < most {
                    tokens + earned
                } else {
                    most
                };
                accuracy::lemma_parts(rounding::distance(refill * w, exact));
            }
        }
    }
}

/// Tokens for `count` requests and `left` more are no more than the capacity and what `rate`
/// earns over `stretch`, but for what rounding adds in each of `requests`.
#[verifier::opaque]
spec fn keeps_to_rate(
    capacity: int,
    rate: int,
    count: int,
    left: int,
    stretch: int,
    requests: int,
) -> bool {
    rounding::SIGNIFICANDS * ((count * binary64::one() + left) * binary64::one())
        <= rounding::SIGNIFICANDS * (capacity * binary64::one() + rate * stretch) + requests * (5 * (
    capacity * binary64::one()) + rounding::SIGNIFICANDS * binary64::one())
}

/// What was allowed and what is left never exceed the capacity and what was earned, but for what
/// rounding adds in each request.
proof fn lemma_rounded_allowance(bucket: TokenBucket, times: Seq<Binary64>)
    requires
        bucket.within_capacity(),
        bucket.rate.finite(),
        bucket.rate.value() >= 0,
        times.len() > 0,
        order::is_chronological(times),
        times.last().value() - times[0].value() <= accuracy::largest(),
    ensures
        keeps_to_rate(
            bucket.capacity.value(),
            bucket.rate.value(),
            bucket.granted(times) as int,
            bucket.run(times).tokens.value(),
            times.last().value() - times[0].value(),
            times.len() as int,
        ),
    decreases times.len(),
{
    let earlier = times.drop_last();
    let before = bucket.run(earlier);
    let now = times.last();
    let first = times[0];
    let g = bucket.granted(earlier);
    let left = bucket.run(times).tokens.value();
    assert(now == times[times.len() - 1]);
    lemma_run_stays_within_capacity(bucket, earlier);
    lemma_rounded_step(before, now);
    if earlier.len() == 0 {
        lemma_first_allowance(
            bucket.capacity.value(),
            bucket.rate.value(),
            before.allows(now),
            left,
        );
    } else {
        let last = earlier.last();
        assert(last == times[times.len() - 2]);
        assert(earlier[0] == times[0]);
        order::lemma_chronological_part(times, 0, times.len() - 1);
        assert(times.subrange(0, times.len() - 1) =~= earlier);
        lemma_rounded_allowance(bucket, earlier);
        lemma_next_allowance(
            bucket.capacity.value(),
            bucket.rate.value(),
            g as int,
            before.tokens.value(),
            before.allows(now),
            left,
            last.value() - first.value(),
            now.value() - last.value(),
            earlier.len() as int,
        );
    }
}

proof fn lemma_first_allowance(capacity: int, rate: int, allowed: bool, left: int)
    requires
        capacity >= 0,
        ({
            let w = binary64::one() as int;
            let n = rounding::SIGNIFICANDS as int;
            let most = capacity * w;
            n * ((left + if allowed {
                w
            } else {
                0
            }) * w) <= n * most + most
        }),
    ensures
        keeps_to_rate(
            capacity,
            rate,
            if allowed {
                1
            } else {
                0
            },
            left,
            0,
            1,
        ),
{
    reveal(keeps_to_rate);
    let w = binary64::one() as int;
    let n = rounding::SIGNIFICANDS as int;
    order::lemma_one();
    lemma_mul_nonnegative(capacity, w);
    lemma_mul_nonnegative(n, w);
    assert(rate * 0 == 0) by (nonlinear_arith);
    assert(1 * w == w && 0 * w == 0) by (nonlinear_arith);
    let slack = 5 * (capacity * w) + n * w;
    assert(1 * slack == slack) by (nonlinear_arith);
}

proof fn lemma_next_allowance(
    capacity: int,
    rate: int,
    count: int,
    tokens: int,
    allowed: bool,
    left: int,
    past: int,
    stretch: int,
    requests: int,
)
    requires
        keeps_to_rate(capacity, rate, count, tokens, past, requests),
        ({
            let w = binary64::one() as int;
            let n = rounding::SIGNIFICANDS as int;
            n * ((left + if allowed {
                w
            } else {
                0
            }) * w) <= n * (tokens * w) + n * (rate * stretch) + 5 * (capacity * w) + n * w
        }),
    ensures
        keeps_to_rate(
            capacity,
            rate,
            count + if allowed {
                1int
            } else {
                0
            },
            left,
            past + stretch,
            requests + 1,
        ),
{
    reveal(keeps_to_rate);
    let w = binary64::one() as int;
    let n = rounding::SIGNIFICANDS as int;
    let most = capacity * w;
    let slack = 5 * most + n * w;
    let cost = if allowed {
        w
    } else {
        0
    };
    let more = if allowed {
        count + 1
    } else {
        count
    };
    let rest = left + cost;
    assert(more * w + left == count * w + rest) by {
        assert((count + 1) * w == count * w + w) by (nonlinear_arith);
    }
    assert(n * ((count * w + rest) * w) == n * ((count * w + tokens) * w) - n * (tokens * w) + n * (
    rest * w)) by (nonlinear_arith);
    assert(n * (most + rate * (past + stretch)) == n * (most + rate * past) + n * (rate * stretch))
        by (nonlinear_arith);
    assert(requests * slack + slack == (requests + 1) * slack) by (nonlinear_arith);
}

/// A bucket keeps to its rate, though its arithmetic rounds: of requests in chronological order
/// it allows at most its capacity and what `rate` earns from the first of them to the last, and
/// for each of them no more than five parts in 2^53 of the capacity and a unit. Whatever came
/// before them does not matter.
pub proof fn lemma_never_exceeds_rate_but_for_rounding(bucket: TokenBucket, times: Seq<Binary64>)
    requires
        bucket.within_capacity(),
        bucket.rate.finite(),
        bucket.rate.value() >= 0,
        times.len() > 0,
        order::is_chronological(times),
        times.last().value() - times[0].value() <= accuracy::largest(),
    ensures
        rounding::SIGNIFICANDS * (bucket.granted(times) * binary64::one() * binary64::one())
            <= rounding::SIGNIFICANDS * (bucket.capacity.value() * binary64::one()
            + bucket.rate.value() * (times.last().value() - times[0].value())) + times.len() * (5
            * (bucket.capacity.value() * binary64::one()) + rounding::SIGNIFICANDS
            * binary64::one()),
{
    let w = binary64::one() as int;
    let n = rounding::SIGNIFICANDS as int;
    let h = bucket.granted(times) as int;
    let left = bucket.run(times).tokens.value();
    order::lemma_one();
    reveal(keeps_to_rate);
    lemma_rounded_allowance(bucket, times);
    lemma_run_stays_within_capacity(bucket, times);
    assert(n * (h * w * w) <= n * ((h * w + left) * w)) by (nonlinear_arith)
        requires
            left >= 0,
            w > 0,
            n > 0,
    ;
}

/// Of any requests in chronological order to a new bucket, those from the `i`th to the `j`th are
/// allowed at most as often as the capacity and what `rate` earns between the two say, but for
/// what rounding adds in each of them.
#[verifier::spinoff_prover]
pub proof fn lemma_any_stretch_keeps_to_rate_but_for_rounding(
    capacity: Binary64,
    rate: Binary64,
    times: Seq<Binary64>,
    i: int,
    j: int,
)
    requires
        !capacity.is_nan(),
        capacity.value() >= 0,
        rate.finite(),
        rate.value() >= 0,
        order::is_chronological(times),
        0 <= i <= j < times.len(),
        times[j].value() - times[i].value() <= accuracy::largest(),
    ensures
        rounding::SIGNIFICANDS * (TokenBucket::full(capacity, rate).run(times.take(i)).granted(
            times.subrange(i, j + 1),
        ) * binary64::one() * binary64::one()) <= rounding::SIGNIFICANDS * (capacity.value()
            * binary64::one() + rate.value() * (times[j].value() - times[i].value())) + (j - i + 1)
            * (5 * (capacity.value() * binary64::one()) + rounding::SIGNIFICANDS
            * binary64::one()),
{
    let start = TokenBucket::full(capacity, rate);
    let before = times.take(i);
    let stretch = times.subrange(i, j + 1);
    lemma_run_stays_within_capacity(start, before);
    order::lemma_chronological_part(times, i, j + 1);
    lemma_never_exceeds_rate_but_for_rounding(start.run(before), stretch);
}

proof fn lemma_half_one()
    ensures
        2 * (binary64::one() / 2) == binary64::one(),
{
    vstd::arithmetic::power2::lemma_pow2_unfold(1074);
}

} // verus!
