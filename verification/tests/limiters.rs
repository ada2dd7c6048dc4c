use ratelimit_sim::binary64::Binary64;
use ratelimit_sim::fixed_window::FixedWindowCounter;
use ratelimit_sim::limiter::Limiter;
use ratelimit_sim::options::Algorithm;
use ratelimit_sim::sliding_window::SlidingWindowLog;
use ratelimit_sim::token_bucket::TokenBucket;
use ratelimit_sim::window::window_params;

fn num(x: f64) -> Binary64 {
    Binary64::from_bits(x.to_bits())
}

fn val(x: Binary64) -> f64 {
    f64::from_bits(x.to_bits())
}

#[test]
fn starts_full() {
    let mut b = TokenBucket::new(num(5.0), num(1.0));
    assert_eq!(val(b.tokens), 5.0);
    assert!(b.allow(num(0.0)));
    assert_eq!(val(b.tokens), 4.0);
}

#[test]
fn denies_once_drained() {
    let mut b = TokenBucket::new(num(1.0), num(1.0));
    assert!(b.allow(num(0.0)));
    // No time has passed, so there's nothing to refill with.
    assert!(!b.allow(num(0.0)));
}

#[test]
fn refills_at_configured_rate() {
    let mut b = TokenBucket::new(num(2.0), num(1.0));
    assert!(b.allow(num(0.0)));
    assert!(b.allow(num(0.0)));
    assert!(!b.allow(num(0.0)));

    // One second later, one token's worth of refill should be available.
    assert!(b.allow(num(1.0)));
    assert!(!b.allow(num(1.0)));
}

#[test]
fn refill_caps_at_capacity() {
    let mut b = TokenBucket::new(num(2.0), num(1.0));
    assert!(b.allow(num(0.0)));
    // A huge gap should still only refill up to capacity, not beyond it.
    assert!(b.allow(num(1000.0)));
    assert_eq!(val(b.tokens), 1.0);
    assert!(b.allow(num(1000.0)));
    assert!(!b.allow(num(1000.0)));
}

#[test]
fn out_of_order_timestamps_do_not_refill() {
    let mut b = TokenBucket::new(num(1.0), num(10.0));
    assert!(b.allow(num(10.0)));
    // A timestamp earlier than the last one seen must not grant tokens
    // for negative elapsed time.
    assert!(!b.allow(num(5.0)));
}

#[test]
fn fractional_tokens_accumulate_across_requests() {
    let mut b = TokenBucket::new(num(1.0), num(0.5));
    assert!(b.allow(num(0.0)));
    assert!(!b.allow(num(1.0)));
    // Two more seconds brings us to exactly one full token.
    assert!(b.allow(num(3.0)));
}

#[test]
fn sliding_window_denies_once_limit_hit_in_window() {
    // rate=1, burst=2 -> window of 2s, limit of 2 requests.
    let mut w = SlidingWindowLog::new(num(1.0), num(2.0));
    assert!(w.allow(num(0.0)));
    assert!(w.allow(num(1.0)));
    assert!(!w.allow(num(1.5)));
}

#[test]
fn sliding_window_expires_old_requests() {
    let mut w = SlidingWindowLog::new(num(1.0), num(2.0));
    assert!(w.allow(num(0.0)));
    assert!(w.allow(num(1.0)));
    // 2.1s later the request at t=0 has fallen out of the 2s window.
    assert!(w.allow(num(2.1)));
}

#[test]
fn fixed_window_resets_at_window_boundary() {
    // rate=1, burst=2 -> window of 2s, limit of 2 requests.
    let mut f = FixedWindowCounter::new(num(1.0), num(2.0));
    assert!(f.allow(num(0.0)));
    assert!(f.allow(num(1.0)));
    assert!(!f.allow(num(1.5)));
    // t=2.0 starts a new window (index 1), so the count resets.
    assert!(f.allow(num(2.0)));
}

#[test]
fn window_params_of_whole_and_odd_bursts() {
    let (window, limit) = window_params(num(2.0), num(5.0));
    assert_eq!(val(window), 2.5);
    assert_eq!(limit, 5);
    assert_eq!(window_params(num(1.0), num(2.5)).1, 2);
    assert_eq!(window_params(num(1.0), num(2.4)).1, 2);
    assert_eq!(window_params(num(1.0), num(2.999)).1, 2);
    assert_eq!(window_params(num(1.0), num(1.0)).1, 1);
    assert_eq!(window_params(num(1.0), num(0.1)).1, 0);
    assert_eq!(window_params(num(1.0), num(f64::NAN)).1, 1);
    assert_eq!(window_params(num(1.0), num(1e300)).1, usize::MAX);
}

#[test]
fn drained_bucket_of_ten_admits_exactly_ten() {
    let mut b = TokenBucket::new(num(10.75), num(3.0));
    let mut admitted = 0;
    for _ in 0..25 {
        if b.allow(num(7.0)) {
            admitted += 1;
        }
    }
    assert_eq!(admitted, 10);
    assert_eq!(val(b.tokens), 0.75);
}

#[test]
fn tokens_stay_within_capacity_whatever_the_order() {
    let mut b = TokenBucket::new(num(3.0), num(0.7));
    let times = [5.0, 1.0, 9.0, 9.0, 8.5, 100.0, 2.0, 3.1, 3.2, 3.3];
    for t in times {
        b.allow(num(t));
        assert!(val(b.tokens) >= 0.0 && val(b.tokens) <= 3.0);
    }
}

#[test]
fn token_bucket_computes_as_the_machine_does() {
    let (capacity, rate) = (4.3_f64, 1.7_f64);
    let mut b = TokenBucket::new(num(capacity), num(rate));
    let mut tokens = capacity;
    let mut last: Option<f64> = None;
    let mut t = 1690000000.25_f64;
    for i in 0..500 {
        t += 0.1 * ((i * 7 % 13) as f64) - 0.3;
        if let Some(l) = last {
            let elapsed = t - l;
            if elapsed > 0.0 {
                tokens = (tokens + elapsed * rate).min(capacity);
            }
        }
        last = Some(t);
        let expected = tokens >= 1.0;
        if expected {
            tokens -= 1.0;
        }
        assert_eq!(b.allow(num(t)), expected);
        assert_eq!(b.tokens.to_bits(), tokens.to_bits());
    }
}

#[test]
fn sliding_window_never_exceeds_its_limit() {
    let mut w = SlidingWindowLog::new(num(2.0), num(3.0));
    let mut granted: Vec<f64> = Vec::new();
    for i in 0..200 {
        let t = 0.17 * (i as f64);
        if w.allow(num(t)) {
            granted.push(t);
        }
        assert!(held(&granted, 1.5, t) <= 3);
    }
    assert!(granted.len() > 50);
}

#[test]
fn sliding_window_keeps_a_request_at_its_very_edge() {
    let mut w = SlidingWindowLog::new(num(1.0), num(1.0));
    assert!(w.allow(num(0.0)));
    assert!(!w.allow(num(1.0)));
    assert!(w.allow(num(1.0000001)));
}

#[test]
fn fixed_window_lets_twice_the_limit_across_a_boundary() {
    let mut f = FixedWindowCounter::new(num(1.0), num(2.0));
    assert!(f.allow(num(1.8)));
    assert!(f.allow(num(1.9)));
    assert!(!f.allow(num(1.95)));
    assert!(f.allow(num(2.0)));
    assert!(f.allow(num(2.1)));
    assert!(!f.allow(num(2.2)));
}

#[test]
fn fixed_window_before_the_epoch() {
    let mut f = FixedWindowCounter::new(num(1.0), num(1.0));
    assert!(f.allow(num(-0.5)));
    assert_eq!(f.current_index, Some(-1));
    assert!(f.allow(num(0.5)));
    assert_eq!(f.current_index, Some(0));
}

#[test]
fn every_algorithm_makes_its_limiter() {
    let mut t = Limiter::new(Algorithm::TokenBucket, num(1.0), num(2.0));
    let mut s = Limiter::new(Algorithm::SlidingWindow, num(1.0), num(2.0));
    let mut f = Limiter::new(Algorithm::FixedWindow, num(1.0), num(2.0));
    assert!(matches!(t, Limiter::TokenBucket(_)));
    assert!(matches!(s, Limiter::SlidingWindow(_)));
    assert!(matches!(f, Limiter::FixedWindow(_)));
    if let Limiter::FixedWindow(l) = &f {
        assert_eq!((val(l.window), l.limit, l.current_index, l.count), (2.0, 2, None, 0));
    }
    let times = [0.0, 1.5, 1.9, 2.0, 2.1];
    let verdicts = |l: &mut Limiter| -> Vec<bool> { times.iter().map(|t| l.allow(num(*t))).collect() };
    assert_eq!(verdicts(&mut t), [true, true, true, false, false]);
    assert_eq!(verdicts(&mut s), [true, true, false, false, true]);
    assert_eq!(verdicts(&mut f), [true, true, false, true, true]);
}

#[test]
fn a_burst_at_once_gets_as_many_through_every_algorithm() {
    for algorithm in [Algorithm::TokenBucket, Algorithm::SlidingWindow, Algorithm::FixedWindow] {
        let mut l = Limiter::new(algorithm, num(0.7), num(5.0));
        let admitted = (0..12).filter(|_| l.allow(num(1690000000.5))).count();
        assert_eq!(admitted, 5);
    }
}

#[test]
fn first_request_is_allowed_by_every_algorithm() {
    for algorithm in [Algorithm::TokenBucket, Algorithm::SlidingWindow, Algorithm::FixedWindow] {
        let mut l = Limiter::new(algorithm, num(0.001), num(1.0));
        assert!(l.allow(num(-5.0)));
        assert!(!l.allow(num(-5.0)));
    }
    // a bucket that cannot hold one whole token never allows anything
    let mut l = Limiter::new(Algorithm::TokenBucket, num(10.0), num(0.5));
    assert!(!l.allow(num(0.0)));
    assert!(!l.allow(num(1000.0)));
}

#[test]
fn sliding_window_counts_exactly() {
    let mut w = SlidingWindowLog::new(num(2.0), num(3.0));
    let mut granted: Vec<f64> = Vec::new();
    let mut t = 0.0_f64;
    for i in 0..300 {
        t += ((i * 5 % 7) as f64) * 0.11;
        let before = held(&granted, 1.5, t);
        let allowed = w.allow(num(t));
        assert_eq!(allowed, before < 3);
        if allowed {
            granted.push(t);
        }
    }
}

#[test]
fn fixed_count_is_bounded_in_any_order() {
    let mut f = FixedWindowCounter::new(num(1.0), num(4.0));
    for i in 0..300_u32 {
        f.allow(num(((i * 37 % 101) as f64) - 50.0));
        assert!(f.count <= 4);
    }
}

#[test]
fn sliding_window_remembers_when_time_goes_back() {
    // rate=1, burst=2 -> window of 2s, limit of 2 requests.
    let mut w = SlidingWindowLog::new(num(1.0), num(2.0));
    assert!(w.allow(num(0.0)));
    assert!(w.allow(num(1.0)));
    assert!(w.allow(num(10.0)));
    // the requests at 0 and 1 are in the two seconds before 1.5
    assert!(!w.allow(num(1.5)));
    assert!(!w.allow(num(1.0)));
    assert!(w.allow(num(11.0)));
    assert!(!w.allow(num(11.5)));
}

#[test]
fn sliding_window_counts_no_request_outside_the_window() {
    // rate=1, burst=2 -> window of 2s, limit of 2 requests.
    let mut w = SlidingWindowLog::new(num(1.0), num(2.0));
    assert!(w.allow(num(0.0)));
    assert!(w.allow(num(5.0)));
    // only the request at 0 is in the two seconds before 1.5
    assert!(w.allow(num(1.5)));
    assert!(!w.allow(num(1.5)));

    let mut w = SlidingWindowLog::new(num(1.0), num(2.0));
    assert!(w.allow(num(10.0)));
    assert!(w.allow(num(11.0)));
    // nothing is in the two seconds before 1.5
    assert!(w.allow(num(1.5)));
    assert!(w.allow(num(1.0)));
    assert!(!w.allow(num(0.5)));
}

#[test]
fn sliding_window_leaves_no_later_window_overfilled() {
    let mut w = SlidingWindowLog::new(num(1.0), num(2.0));
    assert!(w.allow(num(1.0)));
    assert!(w.allow(num(2.0)));
    // nothing is before 0.5, but the two seconds before 2 would hold three requests
    assert!(!w.allow(num(0.5)));
    assert!(!w.allow(num(0.0)));
    // the window before 2 reaches back to 0, no further
    assert!(w.allow(num(-0.125)));
}

/// How many of `granted` are in the trailing window of `window` seconds that ends at `end`.
fn held(granted: &[f64], window: f64, end: f64) -> usize {
    granted.iter().filter(|g| **g <= end && !(end - **g > window)).count()
}

#[test]
fn sliding_window_counts_exactly_in_any_order() {
    let mut w = SlidingWindowLog::new(num(2.0), num(3.0));
    let mut granted: Vec<f64> = Vec::new();
    let mut denied = 0;
    for i in 0..400_u32 {
        let t = ((i * 73 % 257) as f64) * 0.19 - 9.0;
        let allowed = w.allow(num(t));
        // allowed exactly where no trailing window would hold more than the limit
        granted.push(t);
        assert_eq!(allowed, granted.iter().all(|end| held(&granted, 1.5, *end) <= 3));
        if !allowed {
            granted.pop();
            denied += 1;
        }
    }
    assert!(granted.len() > 50 && denied > 50);
    let kept: Vec<f64> = w.timestamps.iter().map(|t| val(*t)).collect();
    granted.sort_by(|a, b| a.total_cmp(b));
    assert_eq!(kept, granted);
}

#[test]
fn fixed_window_remembers_when_time_goes_back() {
    // rate=1, burst=2 -> window of 2s, limit of 2 requests.
    let mut f = FixedWindowCounter::new(num(1.0), num(2.0));
    assert!(f.allow(num(0.0)));
    assert!(f.allow(num(1.0)));
    assert!(f.allow(num(2.0)));
    // the first window is full still, and the second has room for one more
    assert!(!f.allow(num(1.5)));
    assert_eq!((f.current_index, f.count), (Some(0), 2));
    assert!(f.allow(num(3.5)));
    assert_eq!((f.current_index, f.count), (Some(1), 2));
    assert!(!f.allow(num(3.9)));
}

#[test]
fn fixed_windows_count_independently_in_any_order() {
    let mut f = FixedWindowCounter::new(num(1.0), num(3.0));
    let mut granted: Vec<f64> = Vec::new();
    for i in 0..400_u32 {
        let t = ((i * 73 % 257) as f64) * 0.19 - 9.0;
        let index = (t / 3.0).floor();
        let held = granted.iter().filter(|g| (**g / 3.0).floor() == index).count();
        let allowed = f.allow(num(t));
        assert_eq!(allowed, held < 3);
        if allowed {
            granted.push(t);
        }
    }
    assert!(granted.len() > 30);
}

#[test]
fn fractional_burst_means_the_same_to_every_algorithm() {
    for algorithm in [Algorithm::TokenBucket, Algorithm::SlidingWindow, Algorithm::FixedWindow] {
        let mut l = Limiter::new(algorithm, num(1.0), num(1.5));
        assert!(l.allow(num(0.0)));
        assert!(!l.allow(num(0.0)));
    }
    for algorithm in [Algorithm::TokenBucket, Algorithm::SlidingWindow, Algorithm::FixedWindow] {
        for (burst, most) in [(0.25, 0), (0.999, 0), (1.0, 1), (2.5, 2), (3.75, 3), (1e300, 20)] {
            let mut l = Limiter::new(algorithm, num(0.7), num(burst));
            let admitted = (0..20).filter(|_| l.allow(num(1690000000.5))).count();
            assert_eq!(admitted, most);
        }
    }
}

#[test]
fn token_bucket_keeps_to_its_rate_over_any_stretch() {
    // quarters and eighths are never rounded
    let (capacity, rate) = (3.25_f64, 1.5_f64);
    let mut b = TokenBucket::new(num(capacity), num(rate));
    let mut t = 0.0_f64;
    let mut calls: Vec<(f64, bool)> = Vec::new();
    for i in 0..120_u32 {
        t += ((i * 5 % 9) as f64) * 0.125;
        calls.push((t, b.allow(num(t))));
    }
    for i in 0..calls.len() {
        for j in i..calls.len() {
            let allowed = calls[i..=j].iter().filter(|c| c.1).count();
            assert!(allowed as f64 <= capacity + rate * (calls[j].0 - calls[i].0));
        }
    }
    assert!(calls.iter().any(|c| !c.1));
}

#[test]
fn token_bucket_denies_only_below_one_token() {
    let mut b = TokenBucket::new(num(2.0), num(0.5));
    assert!(b.allow(num(0.0)));
    assert!(b.allow(num(0.0)));
    assert!(!b.allow(num(1.75)));
    assert_eq!(val(b.tokens), 0.875);
    assert!(b.allow(num(2.0)));
    assert_eq!(val(b.tokens), 0.0);
}

#[test]
fn waiting_a_token_long_earns_one() {
    let mut b = TokenBucket::new(num(1.0), num(4.0));
    assert!(b.allow(num(100.0)));
    assert!(!b.allow(num(100.125)));
    assert!(b.allow(num(100.375)));
}
