//! The command line.

use crate::binary64::Binary64;
use crate::decimal;
use crate::order;
use crate::text::{joined, same_text};
use crate::window;
use vstd::prelude::*;
use vstd::string::*;

verus! {

/// The algorithm that decides the requests.
#[derive(Clone, Copy)]
pub enum Algorithm {
    TokenBucket,
    SlidingWindow,
    FixedWindow,
}

/// The algorithm of a name.
pub open spec fn algorithm_named(s: Seq<char>) -> Option<Algorithm> {
    if s == "token-bucket"@ {
        Some(Algorithm::TokenBucket)
    } else if s == "sliding-window"@ {
        Some(Algorithm::SlidingWindow)
    } else if s == "fixed-window"@ {
        Some(Algorithm::FixedWindow)
    } else {
        None
    }
}

impl Algorithm {
    /// The algorithm of a name, or `None` where there is none of that name.
    pub fn parse(s: &str) -> (algorithm: Option<Algorithm>)
        ensures
            algorithm == algorithm_named(s@),
    {
        if same_text(s, "token-bucket") {
            Some(Algorithm::TokenBucket)
        } else if same_text(s, "sliding-window") {
            Some(Algorithm::SlidingWindow)
        } else if same_text(s, "fixed-window") {
            Some(Algorithm::FixedWindow)
        } else {
            None
        }
    }
}

/// The form of the line that is printed for each request.
#[derive(Clone, Copy)]
pub enum Format {
    Text,
    Json,
}

/// The format of a name.
pub open spec fn format_named(s: Seq<char>) -> Option<Format> {
    if s == "text"@ {
        Some(Format::Text)
    } else if s == "json"@ {
        Some(Format::Json)
    } else {
        None
    }
}

impl Format {
    /// The format of a name, or `None` where there is none of that name.
    pub fn parse(s: &str) -> (format: Option<Format>)
        ensures
            format == format_named(s@),
    {
        if same_text(s, "text") {
            Some(Format::Text)
        } else if same_text(s, "json") {
            Some(Format::Json)
        } else {
            None
        }
    }
}

/// What the command line asks for.
pub struct Config {
    pub rate: Binary64,
    pub burst: Binary64,
    pub algorithm: Algorithm,
    pub format: Format,
    pub files: Vec<String>,
    pub quiet: bool,
}

/// What a `Config` holds.
#[verifier::ext_equal]
pub struct Settings {
    pub rate: Binary64,
    pub burst: Binary64,
    pub algorithm: Algorithm,
    pub format: Format,
    pub files: Seq<Seq<char>>,
    pub quiet: bool,
}

/// The characters of each text.
pub open spec fn texts(s: Seq<String>) -> Seq<Seq<char>> {
    s.map_values(|text: String| text@)
}

impl View for Config {
    type V = Settings;

    open spec fn view(&self) -> Settings {
        Settings {
            rate: self.rate,
            burst: self.burst,
            algorithm: self.algorithm,
            format: self.format,
            files: texts(self.files@),
            quiet: self.quiet,
        }
    }
}

/// How the command is used.
pub const USAGE: &'static str = "usage: ratelimit-sim --rate N --burst N [FILE...]\n\nReads whitespace-separated \"timestamp [key]\" lines, one request per\nline, and simulates a token-bucket rate limiter against them.\n\nWith no FILE arguments, or when a FILE is \"-\", reads from stdin.\n\noptions:\n  --rate N        tokens (requests) added per second\n  --burst N       bucket capacity (max requests in a burst)\n  --algorithm A   token-bucket (default), sliding-window, or fixed-window\n  --format F      text (default) or json for per-line output\n  --quiet         suppress per-line output, print only the summary\n";

/// How the command is used.
pub fn usage() -> (text: String)
    ensures
        text@ == USAGE@,
{
    USAGE.to_string()
}

/// What has been read of a command line.
#[verifier::ext_equal]
pub struct Draft {
    pub rate: Option<Binary64>,
    pub burst: Option<Binary64>,
    pub algorithm: Algorithm,
    pub format: Format,
    pub files: Seq<Seq<char>>,
    pub quiet: bool,
}

/// What a command line asks for before anything of it is read.
pub open spec fn defaults() -> Draft {
    Draft {
        rate: None,
        burst: None,
        algorithm: Algorithm::TokenBucket,
        format: Format::Text,
        files: Seq::<Seq<char>>::empty(),
        quiet: false,
    }
}

/// What the arguments from `i` on add to `draft`; or what is wrong with the first of them that
/// is, or the usage where it is asked for.
pub open spec fn scan(args: Seq<Seq<char>>, i: int, draft: Draft) -> Result<Draft, Seq<char>>
    decreases args.len() - i,
{
    if i < 0 || i >= args.len() {
        Ok(draft)
    } else if args[i] == "--rate"@ {
        if i + 1 >= args.len() {
            Err("--rate needs a value"@)
        } else {
            match decimal::reading(args[i + 1]) {
                None => Err("bad --rate value: "@ + args[i + 1]),
                Some(rate) => scan(args, i + 2, Draft { rate: Some(rate), ..draft }),
            }
        }
    } else if args[i] == "--burst"@ {
        if i + 1 >= args.len() {
            Err("--burst needs a value"@)
        } else {
            match decimal::reading(args[i + 1]) {
                None => Err("bad --burst value: "@ + args[i + 1]),
                Some(burst) => scan(args, i + 2, Draft { burst: Some(burst), ..draft }),
            }
        }
    } else if args[i] == "--algorithm"@ {
        if i + 1 >= args.len() {
            Err("--algorithm needs a value"@)
        } else {
            match algorithm_named(args[i + 1]) {
                None => Err(
                    "bad --algorithm value: "@ + args[i + 1]
                        + " (expected token-bucket, sliding-window, or fixed-window)"@,
                ),
                Some(algorithm) => scan(args, i + 2, Draft { algorithm, ..draft }),
            }
        }
    } else if args[i] == "--format"@ {
        if i + 1 >= args.len() {
            Err("--format needs a value"@)
        } else {
            match format_named(args[i + 1]) {
                None => Err(
                    "bad --format value: "@ + args[i + 1] + " (expected text or json)"@,
                ),
                Some(format) => scan(args, i + 2, Draft { format, ..draft }),
            }
        }
    } else if args[i] == "--quiet"@ {
        scan(args, i + 1, Draft { quiet: true, ..draft })
    } else if args[i] == "-h"@ || args[i] == "--help"@ {
        Err(USAGE@)
    } else {
        scan(args, i + 1, Draft { files: draft.files.push(args[i]), ..draft })
    }
}

/// The settings that a whole command line adds up to, or what is missing or out of range.
pub open spec fn complete(draft: Draft) -> Result<Settings, Seq<char>> {
    let zero = Binary64 { bits: 0 };
    match (draft.rate, draft.burst) {
        (None, _) => Err("--rate is required\n\n"@ + USAGE@),
        (Some(_), None) => Err("--burst is required\n\n"@ + USAGE@),
        (Some(rate), Some(burst)) => if rate.at_most(zero) {
            Err("--rate must be greater than 0"@)
        } else if burst.at_most(zero) {
            Err("--burst must be greater than 0"@)
        } else {
            Ok(
                Settings {
                    rate,
                    burst,
                    algorithm: draft.algorithm,
                    format: draft.format,
                    files: draft.files,
                    quiet: draft.quiet,
                },
            )
        },
    }
}

/// What a command line asks for, or what is wrong with it.
pub open spec fn settings(args: Seq<Seq<char>>) -> Result<Settings, Seq<char>> {
    match scan(args, 0, defaults()) {
        Err(message) => Err(message),
        Ok(draft) => complete(draft),
    }
}


/// The value of the option at `i`, or that it needs one.
fn value_at<'a>(args: &'a [String], i: usize, complaint: &str) -> (value: Result<&'a str, String>)
    requires
        i < args@.len(),
    ensures
        match value {
            Ok(text) => i + 1 < args@.len() && text@ == args@[i + 1]@,
            Err(message) => i + 1 >= args@.len() && message@ == complaint@,
        },
{
    if args.len() - i > 1 {
        Ok(args[i + 1].as_str())
    } else {
        Err(complaint.to_string())
    }
}

/// Reads a command line, without the name of the command.
pub fn parse_args(args: &[String]) -> (config: Result<Config, String>)
    ensures
        match config {
            Ok(config) => settings(texts(args@)) == Ok::<Settings, Seq<char>>(config@),
            Err(message) => settings(texts(args@)) == Err::<Settings, Seq<char>>(message@),
        },
{
    let mut rate: Option<Binary64> = None;
    let mut burst: Option<Binary64> = None;
    let mut algorithm = Algorithm::TokenBucket;
    let mut format = Format::Text;
    let mut files: Vec<String> = Vec::new();
    let mut quiet = false;
    let mut i: usize = 0;
    let ghost words = texts(args@);
    let n = args.len();
    assert(texts(files@) =~= Seq::<Seq<char>>::empty());
    while i < n
        invariant
            n == args@.len(),
            words == texts(args@),
            scan(
                words,
                i as int,
                Draft { rate, burst, algorithm, format, files: texts(files@), quiet },
            ) == scan(words, 0, defaults()),
        decreases n - i,
    {
        let arg = args[i].as_str();
        assert(arg@ == words[i as int]);
        if same_text(arg, "--rate") {
            let value = match value_at(args, i, "--rate needs a value") {
                Ok(value) => value,
                Err(message) => return Err(message),
            };
            assert(value@ == words[i + 1]);
            match Binary64::parse(value) {
                Some(number) => rate = Some(number),
                None => return Err(joined("bad --rate value: ", value)),
            }
            i = i + 2;
        } else if same_text(arg, "--burst") {
            let value = match value_at(args, i, "--burst needs a value") {
                Ok(value) => value,
                Err(message) => return Err(message),
            };
            assert(value@ == words[i + 1]);
            match Binary64::parse(value) {
                Some(number) => burst = Some(number),
                None => return Err(joined("bad --burst value: ", value)),
            }
            i = i + 2;
        } else if same_text(arg, "--algorithm") {
            let value = match value_at(args, i, "--algorithm needs a value") {
                Ok(value) => value,
                Err(message) => return Err(message),
            };
            assert(value@ == words[i + 1]);
            match Algorithm::parse(value) {
                Some(named) => algorithm = named,
                None => {
                    let mut message = joined("bad --algorithm value: ", value);
                    message.append(" (expected token-bucket, sliding-window, or fixed-window)");
                    return Err(message);
                },
            }
            i = i + 2;
        } else if same_text(arg, "--format") {
            let value = match value_at(args, i, "--format needs a value") {
                Ok(value) => value,
                Err(message) => return Err(message),
            };
            assert(value@ == words[i + 1]);
            match Format::parse(value) {
                Some(named) => format = named,
                None => {
                    let mut message = joined("bad --format value: ", value);
                    message.append(" (expected text or json)");
                    return Err(message);
                },
            }
            i = i + 2;
        } else if same_text(arg, "--quiet") {
            quiet = true;
            i = i + 1;
        } else if same_text(arg, "-h") || same_text(arg, "--help") {
            return Err(usage());
        } else {
            let ghost before = files@;
            files.push(arg.to_string());
            assert(texts(files@) =~= texts(before).push(words[i as int]));
            i = i + 1;
        }
    }
    let rate = match rate {
        Some(rate) => rate,
        None => return Err(joined("--rate is required\n\n", USAGE)),
    };
    let burst = match burst {
        Some(burst) => burst,
        None => return Err(joined("--burst is required\n\n", USAGE)),
    };
    let zero = Binary64::from_bits(0);
    if rate.is_at_most(zero) {
        return Err("--rate must be greater than 0".to_string());
    }
    if burst.is_at_most(zero) {
        return Err("--burst must be greater than 0".to_string());
    }
    Ok(Config { rate, burst, algorithm, format, files, quiet })
}

/// Where requests are read from.
pub enum Input {
    Stdin,
    File { name: String },
}

/// What an `Input` holds.
#[verifier::ext_equal]
pub enum Source {
    Stdin,
    File { name: Seq<char> },
}

impl View for Input {
    type V = Source;

    open spec fn view(&self) -> Source {
        match self {
            Input::Stdin => Source::Stdin,
            Input::File { name } => Source::File { name: name@ },
        }
    }
}

/// What a name on the command line stands for.
pub open spec fn source_named(name: Seq<char>) -> Source {
    if name == "-"@ {
        Source::Stdin
    } else {
        Source::File { name }
    }
}

/// Where requests are read from, in turn: the named files, where `-` is standard input; standard
/// input alone where none is named.
pub open spec fn sources(files: Seq<Seq<char>>) -> Seq<Source> {
    if files.len() == 0 {
        seq![Source::Stdin]
    } else {
        files.map_values(|name: Seq<char>| source_named(name))
    }
}

impl Config {
    /// Where requests are read from, in turn.
    pub fn inputs(&self) -> (inputs: Vec<Input>)
        ensures
            inputs@.map_values(|input: Input| input@) == sources(self@.files),
    {
        let mut inputs: Vec<Input> = Vec::new();
        if self.files.len() == 0 {
            inputs.push(Input::Stdin);
            assert(inputs@.map_values(|input: Input| input@) =~= sources(self@.files));
            return inputs;
        }
        for i in 0..self.files.len()
            invariant
                inputs@.len() == i,
                forall|j: int|
                    0 <= j < i ==> (#[trigger] inputs@[j])@ == source_named(self.files@[j]@),
        {
            let name = self.files[i].as_str();
            if same_text(name, "-") {
                inputs.push(Input::Stdin);
            } else {
                inputs.push(Input::File { name: name.to_string() });
            }
        }
        assert(inputs@.map_values(|input: Input| input@) =~= sources(self@.files));
        inputs
    }
}

/// No rate or burst of 0 or less is ever accepted, and so no window is of negative length.
pub proof fn lemma_accepted_settings(args: Seq<Seq<char>>)
    requires
        settings(args) is Ok,
    ensures
        ({
            let accepted = settings(args)->Ok_0;
            &&& accepted.rate.is_nan() || accepted.rate.value() > 0
            &&& accepted.burst.is_nan() || accepted.burst.value() > 0
            &&& !accepted.burst.quotient(accepted.rate).is_negative()
        }),
{
    let accepted = settings(args)->Ok_0;
    order::lemma_zero();
    window::lemma_window_is_not_negative(accepted.rate, accepted.burst);
}

/// A request for help is answered with the usage, whatever comes behind it.
pub proof fn lemma_help_first(args: Seq<Seq<char>>)
    requires
        args.len() > 0,
        args[0] == "-h"@ || args[0] == "--help"@,
    ensures
        settings(args) == Err::<Settings, Seq<char>>(USAGE@),
{
    reveal_strlit("-h");
    reveal_strlit("--help");
    reveal_strlit("--rate");
    reveal_strlit("--burst");
    reveal_strlit("--algorithm");
    reveal_strlit("--format");
    reveal_strlit("--quiet");
    assert(args[0][1] == 'h' || args[0][2] == 'h');
}

/// The name of an algorithm on the command line.
pub open spec fn name_of_algorithm(algorithm: Algorithm) -> Seq<char> {
    match algorithm {
        Algorithm::TokenBucket => "token-bucket"@,
        Algorithm::SlidingWindow => "sliding-window"@,
        Algorithm::FixedWindow => "fixed-window"@,
    }
}

/// The name of a format on the command line.
pub open spec fn name_of_format(format: Format) -> Seq<char> {
    match format {
        Format::Text => "text"@,
        Format::Json => "json"@,
    }
}

/// Every algorithm and every format has a name of its own, which stands for it and for no other;
/// and nothing else stands for one.
pub proof fn lemma_names_stand_for_themselves(algorithm: Algorithm, format: Format, s: Seq<char>)
    ensures
        algorithm_named(name_of_algorithm(algorithm)) == Some(algorithm),
        format_named(name_of_format(format)) == Some(format),
        algorithm_named(s) == Some(algorithm) ==> s == name_of_algorithm(algorithm),
        format_named(s) == Some(format) ==> s == name_of_format(format),
{
    reveal_strlit("token-bucket");
    reveal_strlit("sliding-window");
    reveal_strlit("fixed-window");
    reveal_strlit("text");
    reveal_strlit("json");
    assert("token-bucket"@[0] == 't');
    assert("fixed-window"@[0] == 'f');
    assert("sliding-window"@[0] == 's');
    assert("text"@[0] == 't');
    assert("json"@[0] == 'j');
}

/// There are as many inputs as names, each of them the file of that name, or standard input where
/// the name is `-`; with no names there is one, standard input.
pub proof fn lemma_every_named_file_is_read(files: Seq<Seq<char>>)
    ensures
        files.len() > 0 ==> sources(files).len() == files.len(),
        files.len() == 0 ==> sources(files).len() == 1 && sources(files)[0] is Stdin,
        forall|i: int|
            0 <= i < files.len() ==> {
                &&& (#[trigger] sources(files)[i] is Stdin <==> files[i] == "-"@)
                &&& files[i] != "-"@ ==> sources(files)[i] == (Source::File { name: files[i] })
            },
{
}

proof fn lemma_option_names()
    ensures
        "--rate"@ != "--burst"@,
        "--rate"@ != "--algorithm"@,
        "--rate"@ != "--format"@,
        "--rate"@ != "--quiet"@,
        "--rate"@ != "-h"@,
        "--rate"@ != "--help"@,
        "--burst"@ != "--algorithm"@,
        "--burst"@ != "--format"@,
        "--burst"@ != "--quiet"@,
        "--burst"@ != "-h"@,
        "--burst"@ != "--help"@,
        "--algorithm"@ != "--format"@,
        "--algorithm"@ != "--quiet"@,
        "--algorithm"@ != "-h"@,
        "--algorithm"@ != "--help"@,
        "--format"@ != "--quiet"@,
        "--format"@ != "-h"@,
        "--format"@ != "--help"@,
        "--quiet"@ != "-h"@,
        "--quiet"@ != "--help"@,
{
    reveal_strlit("--rate");
    reveal_strlit("--burst");
    reveal_strlit("--algorithm");
    reveal_strlit("--format");
    reveal_strlit("--quiet");
    reveal_strlit("-h");
    reveal_strlit("--help");
    assert("--rate"@[2] == 'r');
    assert("--help"@[2] == 'h');
    assert("--burst"@[2] == 'b');
    assert("--quiet"@[2] == 'q');
    assert("--algorithm"@[2] == 'a');
    assert("--format"@[2] == 'f');
    assert("-h"@[1] == 'h');
    assert("--rate"@[1] == '-' && "--burst"@[1] == '-' && "--algorithm"@[1] == '-');
    assert("--format"@[1] == '-' && "--quiet"@[1] == '-');
}

/// Arguments in front are read first.
proof fn lemma_scan_front(args: Seq<Seq<char>>, more: Seq<Seq<char>>, i: int, draft: Draft)
    requires
        0 <= i <= args.len(),
        scan(args, i, draft) is Ok,
    ensures
        scan(args + more, i, draft) == scan(
            args + more,
            args.len() as int,
            scan(args, i, draft)->Ok_0,
        ),
    decreases args.len() - i,
{
    let all = args + more;
    if i < args.len() {
        assert(all[i] == args[i]);
        lemma_option_names();
        if args[i] == "--rate"@ {
            assert(all[i + 1] == args[i + 1]);
            let rate = decimal::reading(args[i + 1])->Some_0;
            lemma_scan_front(args, more, i + 2, Draft { rate: Some(rate), ..draft });
        } else if args[i] == "--burst"@ {
            assert(all[i + 1] == args[i + 1]);
            let burst = decimal::reading(args[i + 1])->Some_0;
            lemma_scan_front(args, more, i + 2, Draft { burst: Some(burst), ..draft });
        } else if args[i] == "--algorithm"@ {
            assert(all[i + 1] == args[i + 1]);
            let algorithm = algorithm_named(args[i + 1])->Some_0;
            lemma_scan_front(args, more, i + 2, Draft { algorithm, ..draft });
        } else if args[i] == "--format"@ {
            assert(all[i + 1] == args[i + 1]);
            let format = format_named(args[i + 1])->Some_0;
            lemma_scan_front(args, more, i + 2, Draft { format, ..draft });
        } else if args[i] == "--quiet"@ {
            lemma_scan_front(args, more, i + 1, Draft { quiet: true, ..draft });
        } else {
            let files = draft.files.push(args[i]);
            lemma_scan_front(args, more, i + 1, Draft { files, ..draft });
        }
    }
}

/// Arguments behind others are read as they are by themselves.
proof fn lemma_scan_behind(args: Seq<Seq<char>>, more: Seq<Seq<char>>, i: int, draft: Draft)
    requires
        0 <= i <= more.len(),
    ensures
        scan(args + more, args.len() + i, draft) == scan(more, i, draft),
    decreases more.len() - i,
{
    let all = args + more;
    let at = args.len() + i;
    if i < more.len() {
        assert(all[at] == more[i]);
        if i + 1 < more.len() {
            assert(all[at + 1] == more[i + 1]);
            if let Some(rate) = decimal::reading(more[i + 1]) {
                lemma_scan_behind(args, more, i + 2, Draft { rate: Some(rate), ..draft });
                lemma_scan_behind(args, more, i + 2, Draft { burst: Some(rate), ..draft });
            }
            if let Some(algorithm) = algorithm_named(more[i + 1]) {
                lemma_scan_behind(args, more, i + 2, Draft { algorithm, ..draft });
            }
            if let Some(format) = format_named(more[i + 1]) {
                lemma_scan_behind(args, more, i + 2, Draft { format, ..draft });
            }
        }
        lemma_scan_behind(args, more, i + 1, Draft { quiet: true, ..draft });
        let files = draft.files.push(more[i]);
        lemma_scan_behind(args, more, i + 1, Draft { files, ..draft });
    }
}

/// Arguments are read in two goes as in one.
proof fn lemma_scan_in_two(args: Seq<Seq<char>>, more: Seq<Seq<char>>, draft: Draft)
    requires
        scan(args, 0, draft) is Ok,
    ensures
        scan(args + more, 0, draft) == scan(more, 0, scan(args, 0, draft)->Ok_0),
{
    lemma_scan_front(args, more, 0, draft);
    lemma_scan_behind(args, more, 0, scan(args, 0, draft)->Ok_0);
}

/// A word that is no option.
pub open spec fn is_plain(word: Seq<char>) -> bool {
    &&& word != "--rate"@
    &&& word != "--burst"@
    &&& word != "--algorithm"@
    &&& word != "--format"@
    &&& word != "--quiet"@
    &&& word != "-h"@
    &&& word != "--help"@
}

/// An option with its value, behind a command line that is accepted, replaces what that command
/// line says of it and nothing else: the rate.
pub proof fn lemma_last_rate_counts(args: Seq<Seq<char>>, value: Seq<char>)
    requires
        settings(args) is Ok,
    ensures
        settings(args + seq!["--rate"@, value]) == match decimal::reading(value) {
            None => Err::<Settings, Seq<char>>("bad --rate value: "@ + value),
            Some(rate) => if !rate.is_nan() && rate.value() <= 0 {
                Err("--rate must be greater than 0"@)
            } else {
                Ok(Settings { rate, ..settings(args)->Ok_0 })
            },
        },
{
    order::lemma_zero();
    lemma_scan_in_two(args, seq!["--rate"@, value], defaults());
    reveal_with_fuel(scan, 3);
}

/// An option with its value, behind a command line that is accepted, replaces what that command
/// line says of it and nothing else: the burst.
pub proof fn lemma_last_burst_counts(args: Seq<Seq<char>>, value: Seq<char>)
    requires
        settings(args) is Ok,
    ensures
        settings(args + seq!["--burst"@, value]) == match decimal::reading(value) {
            None => Err::<Settings, Seq<char>>("bad --burst value: "@ + value),
            Some(burst) => if !burst.is_nan() && burst.value() <= 0 {
                Err("--burst must be greater than 0"@)
            } else {
                Ok(Settings { burst, ..settings(args)->Ok_0 })
            },
        },
{
    order::lemma_zero();
    lemma_option_names();
    lemma_scan_in_two(args, seq!["--burst"@, value], defaults());
    reveal_with_fuel(scan, 3);
}

/// An option with its value, behind a command line that is accepted, replaces what that command
/// line says of it and nothing else: the algorithm.
pub proof fn lemma_last_algorithm_counts(args: Seq<Seq<char>>, value: Seq<char>)
    requires
        settings(args) is Ok,
    ensures
        forall|algorithm: Algorithm|
            value == #[trigger] name_of_algorithm(algorithm) ==> settings(
                args + seq!["--algorithm"@, value],
            ) == Ok::<Settings, Seq<char>>(Settings { algorithm, ..settings(args)->Ok_0 }),
        (forall|algorithm: Algorithm| value != #[trigger] name_of_algorithm(algorithm))
            ==> settings(args + seq!["--algorithm"@, value]) == Err::<Settings, Seq<char>>(
            "bad --algorithm value: "@ + value
                + " (expected token-bucket, sliding-window, or fixed-window)"@,
        ),
{
    lemma_option_names();
    lemma_scan_in_two(args, seq!["--algorithm"@, value], defaults());
    reveal_with_fuel(scan, 3);
    assert forall|algorithm: Algorithm|
        value == #[trigger] name_of_algorithm(algorithm) implies algorithm_named(value) == Some(
        algorithm,
    ) by {
        lemma_names_stand_for_themselves(algorithm, Format::Text, value);
    }
    if let Some(algorithm) = algorithm_named(value) {
        lemma_names_stand_for_themselves(algorithm, Format::Text, value);
        assert(value == name_of_algorithm(algorithm));
    }
}

/// An option with its value, behind a command line that is accepted, replaces what that command
/// line says of it and nothing else: the format.
pub proof fn lemma_last_format_counts(args: Seq<Seq<char>>, value: Seq<char>)
    requires
        settings(args) is Ok,
    ensures
        forall|format: Format|
            value == #[trigger] name_of_format(format) ==> settings(
                args + seq!["--format"@, value],
            ) == Ok::<Settings, Seq<char>>(Settings { format, ..settings(args)->Ok_0 }),
        (forall|format: Format| value != #[trigger] name_of_format(format)) ==> settings(
            args + seq!["--format"@, value],
        ) == Err::<Settings, Seq<char>>(
            "bad --format value: "@ + value + " (expected text or json)"@,
        ),
{
    lemma_option_names();
    lemma_scan_in_two(args, seq!["--format"@, value], defaults());
    reveal_with_fuel(scan, 3);
    assert forall|format: Format|
        value == #[trigger] name_of_format(format) implies format_named(value) == Some(format) by {
        lemma_names_stand_for_themselves(Algorithm::TokenBucket, format, value);
    }
    if let Some(format) = format_named(value) {
        lemma_names_stand_for_themselves(Algorithm::TokenBucket, format, value);
        assert(value == name_of_format(format));
    }
}

/// `--quiet` behind a command line that is accepted asks for the summary alone, and changes
/// nothing else; any word that is no option names one file more, the last.
pub proof fn lemma_quiet_and_files_add_up(args: Seq<Seq<char>>, word: Seq<char>)
    requires
        settings(args) is Ok,
    ensures
        settings(args + seq!["--quiet"@]) == Ok::<Settings, Seq<char>>(
            (Settings { quiet: true, ..settings(args)->Ok_0 }),
        ),
        is_plain(word) ==> settings(args + seq![word]) == Ok::<Settings, Seq<char>>(
            (Settings {
                files: (settings(args)->Ok_0).files.push(word),
                ..settings(args)->Ok_0
            }),
        ),
{
    lemma_option_names();
    lemma_scan_in_two(args, seq!["--quiet"@], defaults());
    lemma_scan_in_two(args, seq![word], defaults());
    reveal_with_fuel(scan, 2);
}

/// An option without its value, and a request for help, end a command line in which nothing is
/// wrong so far, and are answered.
pub proof fn lemma_unfinished_options_are_refused(args: Seq<Seq<char>>, more: Seq<Seq<char>>)
    requires
        scan(args, 0, defaults()) is Ok,
    ensures
        settings(args + seq!["--rate"@]) == Err::<Settings, Seq<char>>("--rate needs a value"@),
        settings(args + seq!["--burst"@]) == Err::<Settings, Seq<char>>("--burst needs a value"@),
        settings(args + seq!["--algorithm"@]) == Err::<Settings, Seq<char>>(
            "--algorithm needs a value"@,
        ),
        settings(args + seq!["--format"@]) == Err::<Settings, Seq<char>>(
            "--format needs a value"@,
        ),
        settings(args + (seq!["-h"@] + more)) == Err::<Settings, Seq<char>>(USAGE@),
        settings(args + (seq!["--help"@] + more)) == Err::<Settings, Seq<char>>(USAGE@),
{
    lemma_option_names();
    lemma_scan_in_two(args, seq!["--rate"@], defaults());
    lemma_scan_in_two(args, seq!["--burst"@], defaults());
    lemma_scan_in_two(args, seq!["--algorithm"@], defaults());
    lemma_scan_in_two(args, seq!["--format"@], defaults());
    lemma_scan_in_two(args, seq!["-h"@] + more, defaults());
    lemma_scan_in_two(args, seq!["--help"@] + more, defaults());
    assert((seq!["-h"@] + more)[0] == "-h"@);
    assert((seq!["--help"@] + more)[0] == "--help"@);
}

/// The first bad value of an option in a command line is answered, whatever comes behind it.
pub proof fn lemma_bad_values_are_refused(
    args: Seq<Seq<char>>,
    value: Seq<char>,
    more: Seq<Seq<char>>,
)
    requires
        scan(args, 0, defaults()) is Ok,
    ensures
        decimal::reading(value) is None ==> settings(args + (seq!["--rate"@, value] + more))
            == Err::<Settings, Seq<char>>("bad --rate value: "@ + value),
        decimal::reading(value) is None ==> settings(args + (seq!["--burst"@, value] + more))
            == Err::<Settings, Seq<char>>("bad --burst value: "@ + value),
        (forall|algorithm: Algorithm| value != #[trigger] name_of_algorithm(algorithm))
            ==> settings(args + (seq!["--algorithm"@, value] + more)) == Err::<
            Settings,
            Seq<char>,
        >(
            "bad --algorithm value: "@ + value
                + " (expected token-bucket, sliding-window, or fixed-window)"@,
        ),
        (forall|format: Format| value != #[trigger] name_of_format(format)) ==> settings(
            args + (seq!["--format"@, value] + more),
        ) == Err::<Settings, Seq<char>>(
            "bad --format value: "@ + value + " (expected text or json)"@,
        ),
{
    let rate = seq!["--rate"@, value] + more;
    let burst = seq!["--burst"@, value] + more;
    let algorithm = seq!["--algorithm"@, value] + more;
    let format = seq!["--format"@, value] + more;
    lemma_option_names();
    lemma_scan_in_two(args, rate, defaults());
    lemma_scan_in_two(args, burst, defaults());
    lemma_scan_in_two(args, algorithm, defaults());
    lemma_scan_in_two(args, format, defaults());
    assert(rate[0] == "--rate"@ && rate[1] == value);
    assert(burst[0] == "--burst"@ && burst[1] == value);
    assert(algorithm[0] == "--algorithm"@ && algorithm[1] == value);
    assert(format[0] == "--format"@ && format[1] == value);
    if let Some(named) = algorithm_named(value) {
        lemma_names_stand_for_themselves(named, Format::Text, value);
        assert(value == name_of_algorithm(named));
    }
    if let Some(named) = format_named(value) {
        lemma_names_stand_for_themselves(Algorithm::TokenBucket, named, value);
        assert(value == name_of_format(named));
    }
}

/// A rate of 0 or less is answered before a burst of 0 or less is.
pub proof fn lemma_rates_and_bursts_out_of_range(a: Seq<char>, b: Seq<char>)
    requires
        decimal::reading(a) is Some,
        decimal::reading(b) is Some,
    ensures
        ({
            let rate = decimal::reading(a)->Some_0;
            let burst = decimal::reading(b)->Some_0;
            let args = seq!["--rate"@, a, "--burst"@, b];
            &&& !rate.is_nan() && rate.value() <= 0 ==> settings(args) == Err::<
                Settings,
                Seq<char>,
            >("--rate must be greater than 0"@)
            &&& (rate.is_nan() || rate.value() > 0) && !burst.is_nan() && burst.value() <= 0
                ==> settings(args) == Err::<Settings, Seq<char>>("--burst must be greater than 0"@)
        }),
{
    order::lemma_zero();
    lemma_option_names();
    reveal_with_fuel(scan, 4);
}

/// A rate and a burst make a command line, in either order: with the token bucket, lines in text,
/// no files, and not quiet.
pub proof fn lemma_rate_and_burst_suffice(a: Seq<char>, b: Seq<char>)
    requires
        decimal::reading(a) is Some,
        decimal::reading(b) is Some,
        ({
            let rate = decimal::reading(a)->Some_0;
            let burst = decimal::reading(b)->Some_0;
            (rate.is_nan() || rate.value() > 0) && (burst.is_nan() || burst.value() > 0)
        }),
    ensures
        ({
            let asked = Settings {
                rate: decimal::reading(a)->Some_0,
                burst: decimal::reading(b)->Some_0,
                algorithm: Algorithm::TokenBucket,
                format: Format::Text,
                files: Seq::<Seq<char>>::empty(),
                quiet: false,
            };
            &&& settings(seq!["--rate"@, a, "--burst"@, b]) == Ok::<Settings, Seq<char>>(asked)
            &&& settings(seq!["--burst"@, b, "--rate"@, a]) == Ok::<Settings, Seq<char>>(asked)
        }),
{
    order::lemma_zero();
    lemma_option_names();
    reveal_with_fuel(scan, 4);
}

/// An option with what belongs to it, or a file: what it adds to a draft.
spec fn added(part: Seq<Seq<char>>, draft: Draft) -> Draft {
    if part[0] == "--rate"@ {
        Draft { rate: decimal::reading(part[1]), ..draft }
    } else if part[0] == "--burst"@ {
        Draft { burst: decimal::reading(part[1]), ..draft }
    } else if part[0] == "--algorithm"@ {
        Draft { algorithm: algorithm_named(part[1])->Some_0, ..draft }
    } else if part[0] == "--format"@ {
        Draft { format: format_named(part[1])->Some_0, ..draft }
    } else if part[0] == "--quiet"@ {
        Draft { quiet: true, ..draft }
    } else {
        Draft { files: draft.files.push(part[0]), ..draft }
    }
}

/// An option with a good value, or a file.
pub open spec fn is_part(part: Seq<Seq<char>>) -> bool {
    ||| part.len() == 1 && (part[0] == "--quiet"@ || is_plain(part[0]))
    ||| part.len() == 2 && (part[0] == "--rate"@ || part[0] == "--burst"@) && decimal::reading(
        part[1],
    ) is Some
    ||| part.len() == 2 && part[0] == "--algorithm"@ && algorithm_named(part[1]) is Some
    ||| part.len() == 2 && part[0] == "--format"@ && format_named(part[1]) is Some
}

proof fn lemma_part_is_read(part: Seq<Seq<char>>, more: Seq<Seq<char>>, draft: Draft)
    requires
        is_part(part),
    ensures
        scan(part + more, 0, draft) == scan(more, 0, added(part, draft)),
{
    lemma_option_names();
    reveal_with_fuel(scan, 3);
    assert(scan(part, 0, draft) == Ok::<Draft, Seq<char>>(added(part, draft)));
    lemma_scan_in_two(part, more, draft);
}

/// The order of different options, and of options and files, does not matter.
pub proof fn lemma_order_does_not_matter(
    before: Seq<Seq<char>>,
    part: Seq<Seq<char>>,
    other: Seq<Seq<char>>,
    behind: Seq<Seq<char>>,
)
    requires
        scan(before, 0, defaults()) is Ok,
        is_part(part),
        is_part(other),
        part[0] != other[0],
        !(is_plain(part[0]) && is_plain(other[0])),
    ensures
        settings(before + (part + (other + behind))) == settings(
            before + (other + (part + behind)),
        ),
{
    let draft = scan(before, 0, defaults())->Ok_0;
    lemma_scan_in_two(before, part + (other + behind), defaults());
    lemma_scan_in_two(before, other + (part + behind), defaults());
    lemma_part_is_read(part, other + behind, draft);
    lemma_part_is_read(other, behind, added(part, draft));
    lemma_part_is_read(other, part + behind, draft);
    lemma_part_is_read(part, behind, added(other, draft));
    lemma_option_names();
    assert(added(other, added(part, draft)) =~= added(part, added(other, draft)));
}

proof fn lemma_scan_without(args: Seq<Seq<char>>, i: int, draft: Draft)
    requires
        0 <= i,
        scan(args, i, draft) is Ok,
    ensures
        (forall|k: int| 0 <= k < args.len() ==> #[trigger] args[k] != "--rate"@) ==> (scan(
            args,
            i,
            draft,
        )->Ok_0).rate == draft.rate,
        (forall|k: int| 0 <= k < args.len() ==> #[trigger] args[k] != "--burst"@) ==> (scan(
            args,
            i,
            draft,
        )->Ok_0).burst == draft.burst,
    decreases args.len() - i,
{
    if i < args.len() {
        lemma_option_names();
        if args[i] == "--rate"@ {
            let rate = decimal::reading(args[i + 1])->Some_0;
            lemma_scan_without(args, i + 2, Draft { rate: Some(rate), ..draft });
        } else if args[i] == "--burst"@ {
            let burst = decimal::reading(args[i + 1])->Some_0;
            lemma_scan_without(args, i + 2, Draft { burst: Some(burst), ..draft });
        } else if args[i] == "--algorithm"@ {
            let algorithm = algorithm_named(args[i + 1])->Some_0;
            lemma_scan_without(args, i + 2, Draft { algorithm, ..draft });
        } else if args[i] == "--format"@ {
            let format = format_named(args[i + 1])->Some_0;
            lemma_scan_without(args, i + 2, Draft { format, ..draft });
        } else if args[i] == "--quiet"@ {
            lemma_scan_without(args, i + 1, Draft { quiet: true, ..draft });
        } else {
            let files = draft.files.push(args[i]);
            lemma_scan_without(args, i + 1, Draft { files, ..draft });
        }
    }
}

/// No command line is accepted without a rate and a burst; where nothing else is wrong with it,
/// the answer says which is missing, and how the command is used.
pub proof fn lemma_rate_and_burst_are_required(args: Seq<Seq<char>>)
    ensures
        (forall|k: int| 0 <= k < args.len() ==> #[trigger] args[k] != "--rate"@) ==> {
            &&& settings(args) is Err
            &&& scan(args, 0, defaults()) is Ok ==> settings(args) == Err::<Settings, Seq<char>>(
                "--rate is required\n\n"@ + USAGE@,
            )
        },
        (forall|k: int| 0 <= k < args.len() ==> #[trigger] args[k] != "--burst"@) ==> {
            &&& settings(args) is Err
            &&& scan(args, 0, defaults()) is Ok ==> {
                ||| settings(args) == Err::<Settings, Seq<char>>(
                    "--rate is required\n\n"@ + USAGE@,
                )
                ||| settings(args) == Err::<Settings, Seq<char>>(
                    "--burst is required\n\n"@ + USAGE@,
                )
            }
        },
{
    if scan(args, 0, defaults()) is Ok {
        lemma_scan_without(args, 0, defaults());
    }
}

} // verus!
