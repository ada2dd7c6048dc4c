//! The window that a rate and a burst stand for.

use crate::accuracy;
use crate::binary64;
use crate::binary64::Binary64;
use crate::order;
use crate::rounding;
use vstd::arithmetic::div_mod::*;
use vstd::prelude::*;

verus! {

/// A rate and a burst that make a window: finite, and greater than 0.
pub open spec fn makes_window(rate: Binary64, burst: Binary64) -> bool {
    rate.finite() && burst.finite() && rate.value() > 0 && burst.value() > 0
}

/// Whether `length` is `burst / rate` seconds, as nearly as a number can be.
pub open spec fn is_length(length: Binary64, rate: Binary64, burst: Binary64) -> bool {
    &&& !length.is_nan()
    &&& forall|other: Binary64|
        !other.is_nan() ==> rounding::distance(
            length.value() * rate.value(),
            burst.value() * binary64::one(),
        ) <= rounding::distance(
            #[trigger] other.value() * rate.value(),
            burst.value() * binary64::one(),
        )
}

/// The window's length in seconds and the most requests in it, so that every algorithm answers
/// the same question: at most `burst` requests per `burst / rate` seconds. A burst that is no
/// whole number has room for as many requests as are not more than it.
pub fn window_params(rate: Binary64, burst: Binary64) -> (params: (Binary64, usize))
    ensures
        params.0 == burst.quotient(rate),
        params.1 == burst.count(),
        makes_window(rate, burst) ==> is_length(params.0, rate, burst),
        makes_window(rate, burst) ==> params.1 * binary64::one() <= burst.value(),
        makes_window(rate, burst) && params.1 < usize::MAX ==> burst.value() < (params.1 + 1)
            * binary64::one(),
{
    proof {
        if makes_window(rate, burst) {
            lemma_quotient_is_length(rate, burst);
            lemma_limit_is_at_most_the_burst(burst);
        }
    }
    (burst.over(rate), burst.to_count())
}

/// The length of a window is `burst / rate` seconds, as nearly as a number can be.
pub proof fn lemma_quotient_is_length(rate: Binary64, burst: Binary64)
    requires
        makes_window(rate, burst),
    ensures
        is_length(burst.quotient(rate), rate, burst),
{
    accuracy::lemma_quotient_error(burst, rate);
    assert forall|other: Binary64| !other.is_nan() implies rounding::distance(
        burst.quotient(rate).value() * rate.value(),
        burst.value() * binary64::one(),
    ) <= rounding::distance(
        #[trigger] other.value() * rate.value(),
        burst.value() * binary64::one(),
    ) by {
        accuracy::lemma_quotient_is_closest(burst, rate, other);
    }
}

/// Whether a stretch of time is shorter than `burst / rate` seconds by more than rounding can
/// hide: by four parts in 2^53 and a unit.
pub open spec fn is_clearly_within(rate: Binary64, burst: Binary64, stretch: int) -> bool {
    (rounding::SIGNIFICANDS + 4) * ((stretch + 1) * rate.value()) <= rounding::SIGNIFICANDS * (
    burst.value() * binary64::one())
}

/// Whether a stretch of time is longer than `burst / rate` seconds by more than rounding can
/// hide: by four parts in 2^53 and a unit.
pub open spec fn is_clearly_beyond(rate: Binary64, burst: Binary64, stretch: int) -> bool {
    (rounding::SIGNIFICANDS + 4) * (burst.value() * binary64::one() + rate.value())
        < rounding::SIGNIFICANDS * (stretch * rate.value())
}

/// A stretch of time is compared with the length of a window as it is with `burst / rate`, but
/// for rounding.
pub proof fn lemma_stretch_against_window(
    rate: Binary64,
    burst: Binary64,
    window: Binary64,
    later: Binary64,
    earlier: Binary64,
)
    requires
        makes_window(rate, burst),
        window == burst.quotient(rate),
        later.finite(),
        earlier.finite(),
        earlier.value() <= later.value(),
    ensures
        is_clearly_within(rate, burst, later.value() - earlier.value()) ==> later.difference(
            earlier,
        ).at_most(window),
        is_clearly_beyond(rate, burst, later.value() - earlier.value()) && later.value()
            - earlier.value() <= accuracy::largest() ==> window.less(later.difference(earlier)),
{
    let n = rounding::SIGNIFICANDS as int;
    let w = binary64::one() as int;
    let r = rate.value();
    let b = burst.value() * w;
    let stretch = later.value() - earlier.value();
    let e = later.difference(earlier).value();
    let l = window.value();
    let top = accuracy::beyond();
    accuracy::lemma_beyond();
    accuracy::lemma_difference_error(later, earlier);
    accuracy::lemma_quotient_error(burst, rate);
    accuracy::lemma_parts(stretch * r);
    accuracy::lemma_parts(e * r);
    accuracy::lemma_parts(l * r);
    accuracy::lemma_parts(b);
    accuracy::lemma_parts(r);
    accuracy::lemma_parts(rounding::distance(l * r, b));
    assert((n + 4) * ((stretch + 1) * r) == n * (stretch * r) + n * r + 4 * (stretch * r) + 4 * r)
        by (nonlinear_arith);
    assert((n + 4) * (b + r) == n * b + 4 * b + n * r + 4 * r) by (nonlinear_arith);
    assert(stretch * r >= 0) by (nonlinear_arith)
        requires
            stretch >= 0,
            r > 0,
    ;
    // what the rounded stretch is worth at the rate
    if stretch <= top {
        assert(n * (e * r) <= n * (stretch * r) + stretch * r) by (nonlinear_arith)
            requires
                n * (e - stretch) <= stretch,
                r > 0,
        ;
        assert(n * (stretch * r) <= n * (e * r) + stretch * r) by (nonlinear_arith)
            requires
                n * (stretch - e) <= stretch,
                r > 0,
        ;
    } else {
        assert(e * r <= stretch * r) by (nonlinear_arith)
            requires
                e <= stretch,
                r > 0,
        ;
    }
    if b > top * r {
        if is_clearly_beyond(rate, burst, stretch) && stretch <= accuracy::largest() {
            assert(stretch * r <= top * r) by (nonlinear_arith)
                requires
                    stretch <= top,
                    r > 0,
            ;
        }
    } else {
        if is_clearly_within(rate, burst, stretch) {
            assert(e * r <= l * r);
            assert(e <= l) by (nonlinear_arith)
                requires
                    e * r <= l * r,
                    r > 0,
            ;
        }
        if is_clearly_beyond(rate, burst, stretch) && stretch <= accuracy::largest() {
            assert(l * r < e * r);
            assert(l < e) by (nonlinear_arith)
                requires
                    l * r < e * r,
                    r > 0,
            ;
        }
    }
}

/// The limit of a window is never more than the burst, and one request more would be; but no
/// limit is above the largest `usize`.
pub proof fn lemma_limit_is_at_most_the_burst(burst: Binary64)
    requires
        !burst.is_nan(),
        burst.value() >= 0,
    ensures
        burst.count() * binary64::one() <= burst.value(),
        burst.count() < usize::MAX ==> burst.value() < (burst.count() + 1) * binary64::one(),
{
    let w = binary64::one() as int;
    let u = burst.value();
    order::lemma_one();
    lemma_fundamental_div_mod(u, w);
    lemma_mod_bound(u, w);
    lemma_div_pos_is_pos(u, w);
    let whole = u / w;
    let limit = burst.count() as int;
    assert(limit * w <= u) by (nonlinear_arith)
        requires
            u >= w * whole,
            limit <= whole,
            w > 0,
    ;
    if limit < usize::MAX {
        assert(u < (limit + 1) * w) by (nonlinear_arith)
            requires
                u < w * whole + w,
                limit == whole,
        ;
    }
}

/// A rate and a burst that are greater than 0, or NaN, make no window of negative length.
pub proof fn lemma_window_is_not_negative(rate: Binary64, burst: Binary64)
    requires
        rate.is_nan() || rate.value() > 0,
        burst.is_nan() || burst.value() > 0,
    ensures
        !burst.quotient(rate).is_negative(),
{
    let magnitude = rounding::nearest(
        rounding::units(burst.magnitude()) * binary64::one(),
        rounding::units(rate.magnitude()),
    );
    order::lemma_signed(false, 0);
    order::lemma_signed(false, magnitude);
    order::lemma_signed(false, rounding::INFINITE as nat);
}

/// A rate without bound makes a window of no length, and a burst without bound one that no time
/// is beyond.
pub proof fn lemma_boundless_windows(rate: Binary64, burst: Binary64)
    requires
        !rate.is_nan(),
        !burst.is_nan(),
        rate.value() > 0,
        burst.value() > 0,
    ensures
        rate.is_infinite() && burst.finite() ==> !burst.quotient(rate).is_nan()
            && burst.quotient(rate).value() == 0,
        rate.finite() && burst.is_infinite() ==> burst.quotient(rate).is_infinite()
            && !burst.quotient(rate).is_negative(),
{
    rounding::lemma_units_zero(0);
    order::lemma_signed(false, 0);
    order::lemma_signed(false, rounding::INFINITE as nat);
}

} // verus!
