use ratelimit_sim::options::{parse_args, usage, Algorithm, Config, Format, Input};

fn words(line: &str) -> Vec<String> {
    line.split(' ').filter(|w| !w.is_empty()).map(|w| w.to_string()).collect()
}

fn accept(line: &str) -> Config {
    match parse_args(&words(line)) {
        Ok(config) => config,
        Err(message) => panic!("{}", message),
    }
}

fn refuse(line: &str) -> String {
    match parse_args(&words(line)) {
        Ok(_) => panic!("accepted: {}", line),
        Err(message) => message,
    }
}

#[test]
fn algorithm_parse_rejects_unknown_values() {
    assert!(Algorithm::parse("token-bucket").is_some());
    assert!(Algorithm::parse("sliding-window").is_some());
    assert!(Algorithm::parse("fixed-window").is_some());
    assert!(Algorithm::parse("leaky-bucket").is_none());
}

#[test]
fn format_parse_rejects_unknown_values() {
    assert!(Format::parse("text").is_some());
    assert!(Format::parse("json").is_some());
    assert!(Format::parse("yaml").is_none());
}

#[test]
fn names_stand_for_their_own_variants() {
    assert!(matches!(Algorithm::parse("token-bucket"), Some(Algorithm::TokenBucket)));
    assert!(matches!(Algorithm::parse("sliding-window"), Some(Algorithm::SlidingWindow)));
    assert!(matches!(Algorithm::parse("fixed-window"), Some(Algorithm::FixedWindow)));
    assert!(matches!(Format::parse("text"), Some(Format::Text)));
    assert!(matches!(Format::parse("json"), Some(Format::Json)));
    assert!(Algorithm::parse("").is_none());
    assert!(Algorithm::parse("Token-Bucket").is_none());
    assert!(Format::parse("json ").is_none());
}

#[test]
fn full_command_line() {
    let config = accept(
        "a.log --rate 5 --burst 10.5 - --algorithm sliding-window --format json --quiet b.log",
    );
    assert_eq!(config.rate.to_bits(), 5.0_f64.to_bits());
    assert_eq!(config.burst.to_bits(), 10.5_f64.to_bits());
    assert!(matches!(config.algorithm, Algorithm::SlidingWindow));
    assert!(matches!(config.format, Format::Json));
    assert!(config.quiet);
    assert_eq!(config.files, ["a.log", "-", "b.log"]);
    let inputs = config.inputs();
    assert_eq!(inputs.len(), 3);
    assert!(matches!(&inputs[0], Input::File { name } if name == "a.log"));
    assert!(matches!(&inputs[1], Input::Stdin));
    assert!(matches!(&inputs[2], Input::File { name } if name == "b.log"));
}

#[test]
fn defaults_of_the_command_line() {
    let config = accept("--rate 1 --burst 2 --rate 3");
    assert_eq!(config.rate.to_bits(), 3.0_f64.to_bits());
    assert!(matches!(config.algorithm, Algorithm::TokenBucket));
    assert!(matches!(config.format, Format::Text));
    assert!(!config.quiet);
    assert!(config.files.is_empty());
    let inputs = config.inputs();
    assert_eq!(inputs.len(), 1);
    assert!(matches!(&inputs[0], Input::Stdin));
}

#[test]
fn nan_and_infinite_rates_are_accepted() {
    assert!(f64::from_bits(accept("--rate nan --burst inf").rate.to_bits()).is_nan());
}

#[test]
fn refusals_of_the_command_line() {
    assert_eq!(refuse("--rate"), "--rate needs a value");
    assert_eq!(refuse("--rate 1 --burst"), "--burst needs a value");
    assert_eq!(refuse("--algorithm"), "--algorithm needs a value");
    assert_eq!(refuse("--format"), "--format needs a value");
    assert_eq!(refuse("--rate x"), "bad --rate value: x");
    assert_eq!(refuse("--burst 1x"), "bad --burst value: 1x");
    assert_eq!(
        refuse("--algorithm leaky-bucket"),
        "bad --algorithm value: leaky-bucket (expected token-bucket, sliding-window, or fixed-window)"
    );
    assert_eq!(refuse("--format yaml"), "bad --format value: yaml (expected text or json)");
    assert_eq!(refuse("--burst 1"), format!("--rate is required\n\n{}", usage()));
    assert_eq!(refuse("--rate 1"), format!("--burst is required\n\n{}", usage()));
    assert_eq!(refuse(""), format!("--rate is required\n\n{}", usage()));
    assert_eq!(refuse("--rate 0 --burst 1"), "--rate must be greater than 0");
    assert_eq!(refuse("--rate -2 --burst 0"), "--rate must be greater than 0");
    assert_eq!(refuse("--rate 1 --burst -0"), "--burst must be greater than 0");
    assert_eq!(refuse("--rate 1 --burst 1 -h"), usage());
    assert_eq!(refuse("--help --rate"), usage());
}

#[test]
fn usage_text() {
    let expected = [
        "usage: ratelimit-sim --rate N --burst N [FILE...]",
        "",
        "Reads whitespace-separated \"timestamp [key]\" lines, one request per",
        "line, and simulates a token-bucket rate limiter against them.",
        "",
        "With no FILE arguments, or when a FILE is \"-\", reads from stdin.",
        "",
        "options:",
        "  --rate N        tokens (requests) added per second",
        "  --burst N       bucket capacity (max requests in a burst)",
        "  --algorithm A   token-bucket (default), sliding-window, or fixed-window",
        "  --format F      text (default) or json for per-line output",
        "  --quiet         suppress per-line output, print only the summary",
        "",
    ];
    assert_eq!(usage(), expected.join("\n"));
}
