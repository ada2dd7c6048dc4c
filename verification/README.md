# ratelimit-sim

Replays a log of timestamped requests through a rate limiter, to see how many of them a
candidate `--rate`/`--burst` pair would have rejected before it is live anywhere.

Input is plain text, one request per line: `<unix-timestamp> [key]`. Requests of one key share a
limiter; lines with no key share a default one.

```
$ ratelimit-sim --rate 2 --burst 2 requests.log
ALLOW 1690000000.000 10.0.0.1
ALLOW 1690000000.200 10.0.0.1
DENY 1690000000.400 10.0.0.1
ALLOW 1690000000.600 10.0.0.2
total=4 allowed=3 denied=1 malformed=0 keys=2
```

## Layout

- `src/` is the library, verified with Verus: the command line (`options`), lines of the log
  (`request`), the limiters (`token_bucket`, `sliding_window`, `fixed_window`, `limiter`), one of
  them per key (`buckets`), the replay (`simulation`) and what is printed (`report`, `json`).
- Timestamps, rates and tokens are IEEE 754 binary64 numbers. The library keeps them as bit
  patterns and computes with integers (`binary64` and what it rests on), so that every operation
  has an exact contract: the exact result, rounded to nearest with ties to even. Reading
  (`decimal`) and writing (`display`) of numbers are verified too, and `round_trip` proves that
  what is written reads back.
- `app/` is the command around it: arguments, files and standard streams.
- `tests/` runs the library, and holds its arithmetic against the machine's.
