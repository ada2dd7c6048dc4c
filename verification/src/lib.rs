//! Replays a log of timestamped requests through a rate limiter and tells which of them would
//! have been allowed or throttled.
//!
//! `options` reads the command line, `simulation` replays the log line by line, and `report`
//! writes what is printed. The limiters are in `token_bucket`, `sliding_window` and
//! `fixed_window`; they compute with `binary64` numbers, whose operations are exact results
//! rounded once (`rounding`), and `accuracy` says how far from exact that is.

pub mod accuracy;
pub mod big;
pub mod binary64;
pub mod bracket;
pub mod buckets;
pub mod decimal;
pub mod display;
pub mod fixed_window;
pub mod json;
pub mod limiter;
pub mod magnitude;
pub mod options;
pub mod order;
pub mod ratio;
pub mod report;
pub mod request;
pub mod round_trip;
pub mod rounding;
pub mod simulation;
pub mod sliding_window;
pub mod text;
pub mod token_bucket;
pub mod window;
