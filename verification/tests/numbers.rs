use ratelimit_sim::binary64::Binary64;
use ratelimit_sim::display::ts_display;

struct Dice(u64);

impl Dice {
    fn next(&mut self) -> u64 {
        self.0 ^= self.0 << 13;
        self.0 ^= self.0 >> 7;
        self.0 ^= self.0 << 17;
        self.0
    }

    /// A bit pattern, often with an exponent near `base`'s.
    fn near(&mut self, base: u64) -> u64 {
        let r = self.next();
        match r % 4 {
            0 => self.next(),
            1 => (base & 0x7ff0_0000_0000_0000) | (self.next() & 0x800f_ffff_ffff_ffff),
            2 => base.wrapping_add(self.next() % 7).wrapping_sub(3),
            _ => {
                let shift = (self.next() % 130) << 52;
                (base.wrapping_add(shift).wrapping_sub(65 << 52) & 0x7fff_ffff_ffff_ffff)
                    ^ (self.next() & 0x8000_0000_0000_0001)
            },
        }
    }
}

const CORNERS: [u64; 22] = [
    0x0000_0000_0000_0000,
    0x8000_0000_0000_0000,
    0x0000_0000_0000_0001,
    0x8000_0000_0000_0001,
    0x0000_0000_0000_0003,
    0x000f_ffff_ffff_ffff,
    0x0010_0000_0000_0000,
    0x0010_0000_0000_0001,
    0x001f_ffff_ffff_ffff,
    0x3fe0_0000_0000_0000,
    0x3fef_ffff_ffff_ffff,
    0x3ff0_0000_0000_0000,
    0x3ff0_0000_0000_0001,
    0xbff0_0000_0000_0000,
    0x4340_0000_0000_0000,
    0x43e0_0000_0000_0000,
    0xc3e0_0000_0000_0000,
    0x7fef_ffff_ffff_ffff,
    0xffef_ffff_ffff_ffff,
    0x7ff0_0000_0000_0000,
    0xfff0_0000_0000_0000,
    0x7ff8_0000_0000_0000,
];

fn same(ours: Binary64, theirs: f64) -> bool {
    let x = f64::from_bits(ours.to_bits());
    (x.is_nan() && theirs.is_nan()) || ours.to_bits() == theirs.to_bits()
}

fn compare_pair(a: u64, b: u64) {
    let (x, y) = (f64::from_bits(a), f64::from_bits(b));
    let (p, q) = (Binary64::from_bits(a), Binary64::from_bits(b));
    assert!(same(p.plus(q), x + y), "{:e} + {:e}", x, y);
    assert!(same(p.minus(q), x - y), "{:e} - {:e}", x, y);
    assert!(same(p.times(q), x * y), "{:e} * {:e}", x, y);
    assert!(same(p.over(q), x / y), "{:e} / {:e}", x, y);
    assert_eq!(p.is_less(q), x < y);
    assert_eq!(p.is_at_most(q), x <= y);
    let least = f64::from_bits(p.min(q).to_bits());
    assert!(least == x.min(y) || (least.is_nan() && x.min(y).is_nan()));
}

fn compare_single(a: u64) {
    let x = f64::from_bits(a);
    let p = Binary64::from_bits(a);
    assert_eq!(p.is_finite(), x.is_finite());
    assert_eq!(p.to_floor(), x.floor() as i64);
    assert_eq!(p.to_count(), if x.is_nan() { 1 } else { x.floor() as usize });
    assert_eq!(p.to_text(), format!("{}", x));
    assert_eq!(ts_display(p), format!("{:.3}", x));
}

#[test]
fn corner_cases_compute_as_the_machine_does() {
    for a in CORNERS {
        for b in CORNERS {
            compare_pair(a, b);
        }
    }
}

#[test]
fn arithmetic_computes_as_the_machine_does() {
    let mut dice = Dice(0x9e37_79b9_7f4a_7c15);
    for _ in 0..20_000 {
        let a = dice.next();
        let b = dice.near(a);
        compare_pair(a, b);
    }
}

#[test]
fn corner_cases_are_written_as_the_machine_does() {
    for a in CORNERS {
        compare_single(a);
    }
}

#[test]
fn everyday_numbers_are_written_as_the_machine_does() {
    let mut dice = Dice(12345);
    for _ in 0..2_000 {
        let whole = (dice.next() % 2_000_000_000) as f64;
        let part = (dice.next() % 1_000_000) as f64 / 1e6;
        compare_single((whole + part).to_bits());
        compare_single((part / 8.0).to_bits());
        compare_single(((dice.next() % 4096) as f64 / 16.0).to_bits());
        compare_single(((dice.next() % 64) as f64 - 31.5).to_bits());
    }
}

#[test]
fn arbitrary_numbers_are_written_as_the_machine_does() {
    let mut dice = Dice(777);
    for _ in 0..120 {
        compare_single(dice.next());
    }
    for _ in 0..400 {
        let exponent = 1023 - 80 + dice.next() % 160;
        compare_single((exponent << 52) | (dice.next() & 0x000f_ffff_ffff_ffff));
    }
}

#[test]
fn numbers_between_two_shortest_ones_are_written_as_the_machine_does() {
    // n / 2^k for small n lie exactly between decimal numbers of one digit less
    for k in 20..90 {
        for n in [1_u64, 3, 5, 7, 9, 11, 13, 15, 17, 21, 27, 33, 45, 99, 1023] {
            compare_single((n as f64 / 2_f64.powi(k)).to_bits());
        }
    }
}

#[test]
fn exact_texts_of_numbers() {
    let text = |x: f64| Binary64::from_bits(x.to_bits()).to_text();
    let fixed = |x: f64| ts_display(Binary64::from_bits(x.to_bits()));
    assert_eq!(text(1690000000.0), "1690000000");
    assert_eq!(text(1690000000.2), "1690000000.2");
    assert_eq!(text(0.1), "0.1");
    assert_eq!(text(-0.0), "-0");
    assert_eq!(text(1e21), "1000000000000000000000");
    assert_eq!(text(1e-7), "0.0000001");
    assert_eq!(text(f64::NAN), "NaN");
    assert_eq!(text(f64::NEG_INFINITY), "-inf");
    assert_eq!(fixed(1690000000.2), "1690000000.200");
    assert_eq!(fixed(0.0625), "0.062");
    assert_eq!(fixed(0.1875), "0.188");
    assert_eq!(fixed(-0.0001), "-0.000");
    assert_eq!(fixed(999.9996), "1000.000");
    assert_eq!(fixed(f64::INFINITY), "inf");
}

fn compare_reading(s: &str) {
    let theirs = s.parse::<f64>().ok();
    let ours = Binary64::parse(s);
    match (ours, theirs) {
        (None, None) => (),
        (Some(p), Some(x)) => assert!(same(p, x), "{}", s),
        _ => panic!("{}", s),
    }
}

#[test]
fn odd_texts_read_as_the_machine_reads_them() {
    let texts = [
        "", " ", "+", "-", ".", "+.", "e5", ".e5", "1e", "1e+", "1e-", "1.", ".5", "-.5", "+1", "--1",
        "+-1", "1 ", " 1", "1_0", "0x10", "1.5e3", "1.5E3", "1e+3", "1e-3", "01", "00.10", "1.2.3",
        "1e5.0", "1e5e5", "inf", "INF", "+inf", "-Inf", "infinity", "-InFiNiTy", "infinit", "nan",
        "NaN", "-nan", "+NAN", "nanx", "1f", "\u{0661}", "1e400", "-1e400", "1e-400", "0e999999999",
        "0e-999999999", "1e99999999999999999999999999999999999999999999", "1e-9999999999999999999999",
        "0.000000000000000000000000000000000000000000001e45", "9007199254740993", "9007199254740992.5",
        "9007199254740993.0000000000000000000000000000000000001", "4.9e-324", "2.5e-324", "2.4e-324",
        "2.4703282292062327208e-324", "2.4703282292062328e-324", "2.2250738585072011e-308",
        "2.2250738585072012e-308", "1.7976931348623157e308", "1.7976931348623158e308",
        "1.7976931348623159e308", "179769313486231580793728971405303415079934132710037826936173778980444968292764750946649017977587207096330286416692887910946555547851940402630657488671505820681908902000708383676273854845817711531764475730270069855571366959622842914819860834936475292719074168444365510704342711559699508093042880",
        "1690000000.123456789",
    ];
    for s in texts {
        compare_reading(s);
    }
}

#[test]
fn arbitrary_texts_read_as_the_machine_reads_them() {
    let mut dice = Dice(99);
    for _ in 0..2_000 {
        let digits = dice.next();
        let power = (dice.next() % 680) as i64 - 350;
        compare_reading(&format!("{}e{}", digits, power));
        compare_reading(&format!("{}.{}", dice.next() % 100000, digits));
        compare_reading(&format!("0.{}{}e{}", digits, dice.next(), power / 20));
    }
}

#[test]
fn what_is_written_reads_back() {
    let mut dice = Dice(4242);
    for _ in 0..150 {
        let bits = dice.next();
        let number = Binary64::from_bits(bits);
        if number.is_finite() {
            let read = Binary64::parse(&number.to_text());
            assert_eq!(read.map(|x| x.to_bits()), Some(bits));
        }
    }
}
