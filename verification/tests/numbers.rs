//! Bit patterns, order and text, held against the machine's own numbers.

use powerbench::compare::SplitMix64;
use powerbench::number::{
    FIVE_QUARTERS, HALF, HOUR, HUNDRED, INFINITY, MILLION, NAN, NEGATIVE_INFINITY, NEGATIVE_ZERO,
    ONE, TEN, THOUSAND, TWO, ZERO,
};
use powerbench::order::{find_greatest, find_least, sort_doubles, sort_singles};
use powerbench::stats::{greatest, least, PERCENTILES};
use powerbench::text::{cut_line, double_quotes, join, push_left, push_right, to_decimal};
use powerbench::{Double, Error, Single};

const DOUBLES: [f64; 26] = [
    0.0,
    -0.0,
    0.5,
    0.49999999999999994,
    0.5000000000000001,
    1.0,
    1.5,
    2.5,
    -1.5,
    -0.3,
    1e-300,
    5e-324,
    99.99,
    4503599627370495.5,
    4503599627370496.0,
    4503599627370497.0,
    9007199254740993.0,
    1e18,
    1.8e19,
    1e30,
    -1e30,
    f64::MAX,
    f64::MIN,
    f64::INFINITY,
    f64::NEG_INFINITY,
    f64::NAN,
];

fn double(x: f64) -> Double {
    Double { bits: x.to_bits() }
}

fn single(x: f32) -> Single {
    Single { bits: x.to_bits() }
}

#[test]
fn named_numbers_have_their_values() {
    for (bits, value) in [
        (ZERO, 0.0f64),
        (NEGATIVE_ZERO, -0.0),
        (HALF, 0.5),
        (ONE, 1.0),
        (FIVE_QUARTERS, 1.25),
        (TWO, 2.0),
        (TEN, 10.0),
        (HUNDRED, 100.0),
        (THOUSAND, 1000.0),
        (HOUR, 3600.0),
        (MILLION, 1_000_000.0),
        (INFINITY, f64::INFINITY),
        (NEGATIVE_INFINITY, f64::NEG_INFINITY),
    ] {
        assert_eq!(bits, value.to_bits());
    }
    assert!(f64::from_bits(NAN).is_nan());
    let percentiles: Vec<f64> = PERCENTILES.iter().map(|&b| f64::from_bits(b)).collect();
    assert_eq!(percentiles, [1.0, 5.0, 50.0, 90.0, 95.0, 99.0, 99.9, 99.99]);
}

#[test]
fn whole_numbers_round_like_the_machine() {
    for x in DOUBLES {
        let d = double(x);
        assert_eq!(d.floor_count(), x.floor() as usize, "floor of {x}");
        assert_eq!(d.ceil_count(), x.ceil() as usize, "ceil of {x}");
        assert_eq!(d.round_count(), x.round() as usize, "round of {x}");
        let (floor, ceil) = (d.floor_count(), d.ceil_count());
        assert!(floor <= ceil && ceil - floor <= 1, "around {x}");
        assert!(floor <= d.round_count() && d.round_count() <= ceil, "around {x}");
        assert_eq!(d.abs().bits, x.abs().to_bits(), "abs of {x}");
        assert_eq!(d.is_nan(), x.is_nan());
        assert_eq!(d.is_finite(), x.is_finite());
        assert_eq!(d.is_zero(), x == 0.0);
        if !x.is_nan() {
            assert_eq!(d.clamp_unit().bits, x.clamp(0.0, 1.0).to_bits(), "clamp of {x}");
            assert_eq!(
                d.signed_infinity().bits,
                (f64::INFINITY * x.signum()).to_bits(),
                "sign of {x}"
            );
        }
    }
}

#[test]
fn comparisons_agree_with_the_machine() {
    for x in DOUBLES {
        for y in DOUBLES {
            assert_eq!(double(x).is_below(double(y)), x < y, "{x} < {y}");
            assert_eq!(double(x).is_equal(double(y)), x == y, "{x} == {y}");
            let (p, q) = (x as f32, y as f32);
            assert_eq!(single(p).is_below(single(q)), p < q, "{p} < {q}");
        }
        assert_eq!(single(x as f32).is_nan(), (x as f32).is_nan());
    }
    assert_eq!(Single::infinity().bits, f32::INFINITY.to_bits());
    assert_eq!(Single::negative_infinity().bits, f32::NEG_INFINITY.to_bits());
}

#[test]
fn sorting_follows_the_total_order() {
    let mut xs: Vec<f32> = DOUBLES.iter().rev().map(|&x| x as f32).collect();
    xs.push(-f32::NAN);
    xs.push(3.0);
    xs.push(3.0);
    let sorted = sort_singles(&xs.iter().map(|&x| single(x)).collect::<Vec<_>>());
    xs.sort_by(|a, b| a.total_cmp(b));
    let expected: Vec<u32> = xs.iter().map(|x| x.to_bits()).collect();
    assert_eq!(sorted.iter().map(|s| s.bits).collect::<Vec<_>>(), expected);

    let mut ys: Vec<f64> = DOUBLES.iter().rev().copied().collect();
    let sorted = sort_doubles(&ys.iter().map(|&y| double(y)).collect::<Vec<_>>());
    ys.sort_by(|a, b| a.total_cmp(b));
    let expected: Vec<u64> = ys.iter().map(|y| y.to_bits()).collect();
    assert_eq!(sorted.iter().map(|d| d.bits).collect::<Vec<_>>(), expected);
}

#[test]
fn sorting_depends_on_the_samples_not_on_their_order() {
    let a = [single(3.0), single(1.0), single(2.0), single(1.0)];
    let b = [single(1.0), single(2.0), single(1.0), single(3.0)];
    assert_eq!(sort_singles(&a), sort_singles(&b));
    assert_eq!(sort_singles(&a)[0], least(&a));
    assert_eq!(sort_singles(&a)[3], greatest(&a));
}

#[test]
fn extremes_skip_what_is_not_a_number() {
    let xs = [single(2.0), single(f32::NAN), single(-1.0), single(7.5)];
    assert_eq!(least(&xs), single(-1.0));
    assert_eq!(greatest(&xs), single(7.5));
    assert_eq!(least(&[]), Single::infinity());
    assert_eq!(greatest(&[single(f32::NAN)]), Single::negative_infinity());
    let ys = [double(2.0), double(f64::NAN), double(-1.0)];
    assert_eq!(find_least(&ys), double(-1.0));
    assert_eq!(find_greatest(&ys), double(2.0));
    assert_eq!(find_least(&[]), double(f64::INFINITY));
    assert_eq!(find_greatest(&[]), double(f64::NEG_INFINITY));
}

#[test]
fn generator_draws_the_known_sequence() {
    let mut rng = SplitMix64::new(0);
    assert_eq!(rng.next(), 0xe220_a839_7b1d_cdaf);
    assert_eq!(rng.next(), 0x6e78_9e6a_a1b9_65f4);
    assert_eq!(rng.next(), 0x06c4_5d18_8009_454f);
    let mut a = SplitMix64::new(u64::MAX);
    let mut b = SplitMix64::new(u64::MAX);
    assert_eq!(a.next(), b.next());
}

#[test]
fn decimals_and_fields() {
    for n in [0u128, 7, 10, 99, 100, 400_000, u64::MAX as u128, u128::MAX] {
        assert_eq!(to_decimal(n), n.to_string());
    }
    let mut out = String::from("|");
    push_right(&mut out, "1 µA", 6);
    out.push('|');
    push_left(&mut out, "p50", 5);
    out.push('|');
    push_right(&mut out, "too long", 3);
    assert_eq!(out, "|  1 µA|p50  |too long");
    assert_eq!(cut_line("12 µA now", 5), "12 µA");
    assert_eq!(cut_line("short", 80), "short");
}

#[test]
fn joining_and_quoting() {
    let parts = vec![String::from("a"), String::from("b"), String::from("c")];
    assert_eq!(join(&parts, " vs "), "a vs b vs c");
    assert_eq!(join(&parts[..1].to_vec(), " vs "), "a");
    assert_eq!(join(&Vec::new(), ", "), "");
    assert_eq!(double_quotes("it's 'so'"), "it''s ''so''");
}

#[test]
fn errors_say_what_happened() {
    let text = || String::from("x");
    for (error, message) in [
        (Error::Ppk2(text()), "PPK2 error: x"),
        (Error::Serial(text()), "serial port error: x"),
        (Error::Device(text()), "device error: x"),
        (Error::Io(text()), "I/O error: x"),
        (Error::InvalidFile(text()), "invalid sample file: x"),
        (Error::InvalidConfig(text()), "invalid configuration: x"),
        (Error::Cancelled, "recording cancelled"),
        (
            Error::Incomplete { got: 3, expected: 10, raw_bytes: 4096, missed: 2 },
            "measurement incomplete: got 3 of 10 samples (4096 stream bytes read, 2 raw samples missed)",
        ),
        (Error::NotEnoughData(text()), "not enough data: x"),
        (Error::Gnuplot(text()), "gnuplot failed: x"),
    ] {
        assert_eq!(error.message(), message);
    }
    let slow = Error::StreamRate { bytes_per_sec: 1234 }.message();
    assert!(slow.starts_with("PPK2 stream rate too low: 1234 B/s instead of ~400000 B/s (100 ksps)."));
}
