use ratelimit_sim::buckets::Buckets;
use ratelimit_sim::json::json_escape;
use ratelimit_sim::options::{parse_args, Config};
use ratelimit_sim::report::{complaint, summary, verdict_line};
use ratelimit_sim::request::parse_line;
use ratelimit_sim::simulation::{process, Stats};

fn config(line: &str) -> Config {
    let args: Vec<String> = line.split(' ').map(|w| w.to_string()).collect();
    match parse_args(&args) {
        Ok(config) => config,
        Err(message) => panic!("{}", message),
    }
}

/// What is printed, what is complained of, and the summary.
fn replay(options: &str, lines: &[&str]) -> (Vec<String>, Vec<String>, String) {
    let config = config(options);
    let mut buckets = Buckets::new();
    let mut stats = Stats::default();
    let mut printed = Vec::new();
    let mut complaints = Vec::new();
    for line in lines {
        let outcome = process(line, &config, &mut buckets, &mut stats);
        printed.extend(verdict_line(&config, &outcome));
        complaints.extend(complaint(&outcome));
    }
    (printed, complaints, summary(&stats, buckets.len()))
}

const PER_KEY: [&str; 4] = [
    "1690000000.0 10.0.0.1",
    "1690000000.2 10.0.0.1",
    "1690000000.4 10.0.0.1",
    "1690000000.6 10.0.0.2",
];

#[test]
fn parse_line_rejects_non_finite_timestamps() {
    assert!(parse_line("inf").is_none());
    assert!(parse_line("nan").is_none());
    assert!(parse_line("-infinity 10.0.0.1").is_none());
}

#[test]
fn json_escape_handles_quotes_and_control_chars() {
    assert_eq!(json_escape("plain"), "plain");
    assert_eq!(json_escape("a\"b"), "a\\\"b");
    assert_eq!(json_escape("a\\b"), "a\\\\b");
    assert_eq!(json_escape("a\nb"), "a\\nb");
    assert_eq!(json_escape("a\u{1}b"), "a\\u0001b");
}

#[test]
fn json_escape_of_every_control_char() {
    assert_eq!(json_escape("\r\t"), "\\r\\t");
    for code in 0..0x20_u8 {
        let c = code as char;
        if c != '\n' && c != '\r' && c != '\t' {
            assert_eq!(json_escape(&c.to_string()), format!("\\u{:04x}", code));
        }
    }
    assert_eq!(json_escape("\u{7f}\u{e9}\u{1f600}/"), "\u{7f}\u{e9}\u{1f600}/");
    assert_eq!(json_escape(""), "");
}

#[test]
fn parse_line_takes_the_first_two_words() {
    let (ts, key) = parse_line("  12.5\t alice  bob ").unwrap();
    assert_eq!(ts.to_bits(), 12.5_f64.to_bits());
    assert_eq!(key, "alice");
    let (ts, key) = parse_line("-3e2").unwrap();
    assert_eq!(ts.to_bits(), (-300.0_f64).to_bits());
    assert_eq!(key, "_default");
    assert_eq!(parse_line("1\u{2003}k\u{a0}").unwrap().1, "k");
    assert!(parse_line("").is_none());
    assert!(parse_line(" \t").is_none());
    assert!(parse_line("alice 1").is_none());
    assert!(parse_line("1e999 k").is_none());
}

#[test]
fn per_key_limiting() {
    let (printed, complaints, summary) = replay("--rate 2 --burst 2 requests.log", &PER_KEY);
    assert_eq!(
        printed,
        [
            "ALLOW 1690000000.000 10.0.0.1",
            "ALLOW 1690000000.200 10.0.0.1",
            "DENY 1690000000.400 10.0.0.1",
            "ALLOW 1690000000.600 10.0.0.2",
        ]
    );
    assert!(complaints.is_empty());
    assert_eq!(summary, "total=4 allowed=3 denied=1 malformed=0 keys=2");
}

#[test]
fn quiet_prints_only_the_summary() {
    let (printed, _, summary) = replay("--rate 2 --burst 2 --quiet", &PER_KEY);
    assert!(printed.is_empty());
    assert_eq!(summary, "total=4 allowed=3 denied=1 malformed=0 keys=2");
}

#[test]
fn json_lines() {
    let (printed, _, _) = replay(
        "--rate 1 --burst 1 --format json",
        &["1690000000.25 a\"b", "1690000000.25 a\"b", "7"],
    );
    assert_eq!(
        printed,
        [
            "{\"verdict\":\"allow\",\"timestamp\":1690000000.25,\"key\":\"a\\\"b\"}",
            "{\"verdict\":\"deny\",\"timestamp\":1690000000.25,\"key\":\"a\\\"b\"}",
            "{\"verdict\":\"allow\",\"timestamp\":7,\"key\":\"_default\"}",
        ]
    );
}

#[test]
fn blank_and_malformed_lines() {
    let (printed, complaints, summary) = replay(
        "--rate 1 --burst 1",
        &["", "  \t ", " what is this ", "nan k", "5 k", "\u{3000}"],
    );
    assert_eq!(printed, ["ALLOW 5.000 k"]);
    assert_eq!(
        complaints,
        [
            "ratelimit-sim: skipping malformed line: what is this",
            "ratelimit-sim: skipping malformed line: nan k",
        ]
    );
    assert_eq!(summary, "total=1 allowed=1 denied=0 malformed=2 keys=1");
}

#[test]
fn lines_with_no_key_share_a_bucket() {
    let (printed, _, summary) = replay("--rate 1 --burst 1", &["1", "1 _default", "1 other"]);
    assert_eq!(printed, ["ALLOW 1.000 _default", "DENY 1.000 _default", "ALLOW 1.000 other"]);
    assert_eq!(summary, "total=3 allowed=2 denied=1 malformed=0 keys=2");
}

#[test]
fn keys_do_not_touch_one_another() {
    let lines: Vec<String> = (0..60).map(|i| format!("{} k{}", i as f64 * 0.3, i % 3)).collect();
    let all: Vec<&str> = lines.iter().map(|l| l.as_str()).collect();
    let alone: Vec<&str> = all.iter().copied().filter(|l| l.ends_with("k1")).collect();
    for algorithm in ["token-bucket", "sliding-window", "fixed-window"] {
        let options = format!("--rate 1 --burst 2 --algorithm {}", algorithm);
        let mixed: Vec<String> =
            replay(&options, &all).0.into_iter().filter(|l| l.ends_with("k1")).collect();
        assert_eq!(mixed, replay(&options, &alone).0);
    }
}

#[test]
fn printing_options_change_no_count() {
    let lines: Vec<String> = (0..40).map(|i| format!("{} k{}", i as f64 * 0.2, i % 2)).collect();
    let all: Vec<&str> = lines.iter().map(|l| l.as_str()).collect();
    let text = replay("--rate 1 --burst 3", &all).2;
    assert_eq!(text, replay("--rate 1 --burst 3 --format json", &all).2);
    assert_eq!(text, replay("--rate 1 --burst 3 --quiet", &all).2);
}

#[test]
fn sliding_windows_over_a_log() {
    let (printed, _, summary) = replay(
        "--rate 1 --burst 2 --algorithm sliding-window",
        &["0 a", "1 a", "1.5 a", "2.1 a", "2.2 a"],
    );
    assert_eq!(
        printed,
        ["ALLOW 0.000 a", "ALLOW 1.000 a", "DENY 1.500 a", "ALLOW 2.100 a", "DENY 2.200 a"]
    );
    assert_eq!(summary, "total=5 allowed=3 denied=2 malformed=0 keys=1");
}

#[test]
fn files_are_replayed_as_one_log() {
    let lines: Vec<String> = (0..50)
        .map(|i| {
            if i % 11 == 10 {
                format!("bad line {}", i)
            } else {
                format!("{} k{}", ((i * 7 % 31) as f64) * 0.4, i % 3)
            }
        })
        .collect();
    let all: Vec<&str> = lines.iter().map(|l| l.as_str()).collect();
    for algorithm in ["token-bucket", "sliding-window", "fixed-window"] {
        let options = format!("--rate 1 --burst 2 --algorithm {}", algorithm);
        let whole = replay(&options, &all);
        let config = config(&options);
        let mut buckets = Buckets::new();
        let mut stats = Stats::default();
        let mut printed = Vec::new();
        let mut complaints = Vec::new();
        for file in [&all[..20], &all[20..20], &all[20..]] {
            for line in file {
                let outcome = process(line, &config, &mut buckets, &mut stats);
                printed.extend(verdict_line(&config, &outcome));
                complaints.extend(complaint(&outcome));
            }
        }
        assert_eq!((printed, complaints, summary(&stats, buckets.len())), whole);
    }
}

#[test]
fn summary_counts_each_key_once() {
    let (_, _, summary) = replay(
        "--rate 1 --burst 1 --algorithm fixed-window",
        &["1 a", "1 b", "1 a", "1", "x c", "2 _default", "2 b"],
    );
    assert_eq!(summary, "total=6 allowed=5 denied=1 malformed=1 keys=3");
    // a key whose requests are all denied is counted too
    let (_, _, summary) = replay("--rate 1 --burst 0.5", &["1 a", "2 b", "3 a"]);
    assert_eq!(summary, "total=3 allowed=0 denied=3 malformed=0 keys=2");
}

#[test]
fn windows_over_a_log_out_of_order() {
    let lines = ["0 a", "1 a", "10 a", "1.5 a", "2.5 a"];
    let (printed, _, _) = replay("--rate 1 --burst 2 --algorithm sliding-window", &lines);
    assert_eq!(
        printed,
        ["ALLOW 0.000 a", "ALLOW 1.000 a", "ALLOW 10.000 a", "DENY 1.500 a", "ALLOW 2.500 a"]
    );
    let (printed, _, _) = replay("--rate 1 --burst 2 --algorithm fixed-window", &lines);
    assert_eq!(
        printed,
        ["ALLOW 0.000 a", "ALLOW 1.000 a", "ALLOW 10.000 a", "DENY 1.500 a", "ALLOW 2.500 a"]
    );
}

#[test]
fn backlog_behind_a_live_log_is_not_held_against_it() {
    let (printed, _, summary) = replay(
        "--rate 1 --burst 2 --algorithm sliding-window",
        &["100 a", "101 a", "101.5 a", "10 a", "11 a", "11.5 a", "20 a"],
    );
    assert_eq!(
        printed,
        [
            "ALLOW 100.000 a",
            "ALLOW 101.000 a",
            "DENY 101.500 a",
            "ALLOW 10.000 a",
            "ALLOW 11.000 a",
            "DENY 11.500 a",
            "ALLOW 20.000 a",
        ]
    );
    assert_eq!(summary, "total=7 allowed=5 denied=2 malformed=0 keys=1");
}

#[test]
fn a_line_needs_only_the_counters_that_it_adds_to() {
    let config = config("--rate 1 --burst 1");
    let mut buckets = Buckets::new();
    let full = u64::MAX;
    let mut stats = Stats { total: full, allowed: full, denied: full, malformed: 3 };
    process("  ", &config, &mut buckets, &mut stats);
    process("what", &config, &mut buckets, &mut stats);
    assert_eq!((stats.total, stats.allowed, stats.denied, stats.malformed), (full, full, full, 4));
    let mut stats = Stats { total: 5, allowed: 5, denied: full, malformed: full };
    process("1 a", &config, &mut buckets, &mut stats);
    assert_eq!((stats.total, stats.allowed, stats.denied, stats.malformed), (6, 6, full, full));
}
