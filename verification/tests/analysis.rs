//! Statistics, comparisons, sample files and plots on concrete recordings.

use powerbench::compare::{
    bootstrap_diff_ci, exceeds_regression, resample_mean, welch_t_test, SplitMix64,
};
use powerbench::format::metadata_text;
use powerbench::plot::{
    envelope, envelope_data, gp_escape, gp_quote, percentile_data, plot, script, OutputPath,
    GnuplotRun, PlotConfig, Series,
};
use powerbench::stats::percentile_sorted;
use powerbench::{
    compare, Arithmetic, CompareConfig, CompareResult, Double, Error, Meta, Recording, Rendering,
    Single, Stats,
};
use statrs::distribution::{ContinuousCDF, StudentsT};

/// Arithmetic and text of the machine's own doubles.
struct Floats;

fn double(x: f64) -> Double {
    Double { bits: x.to_bits() }
}

fn single(x: f32) -> Single {
    Single { bits: x.to_bits() }
}

fn value(x: Double) -> f64 {
    f64::from_bits(x.bits)
}

fn singles(xs: &[f32]) -> Vec<Single> {
    xs.iter().map(|&x| single(x)).collect()
}

impl Arithmetic for Floats {
    fn plus(&self, a: Double, b: Double) -> Double {
        double(value(a) + value(b))
    }

    fn minus(&self, a: Double, b: Double) -> Double {
        double(value(a) - value(b))
    }

    fn times(&self, a: Double, b: Double) -> Double {
        double(value(a) * value(b))
    }

    fn over(&self, a: Double, b: Double) -> Double {
        double(value(a) / value(b))
    }

    fn root(&self, a: Double) -> Double {
        double(value(a).sqrt())
    }

    fn of_count(&self, n: u128) -> Double {
        double(n as f64)
    }

    fn widen(&self, a: Single) -> Double {
        double(f32::from_bits(a.bits) as f64)
    }

    fn narrow(&self, a: Double) -> Single {
        single(value(a) as f32)
    }

    fn to_nanos(&self, secs: Double) -> u128 {
        std::time::Duration::from_secs_f64(value(secs)).as_nanos()
    }

    fn students_t(&self, freedom: Double, x: Double) -> Double {
        let dist = StudentsT::new(0.0, 1.0, value(freedom)).expect("positive, finite freedom");
        double(dist.cdf(value(x)))
    }
}

impl Rendering for Floats {
    fn shown(&self, x: Double) -> String {
        format!("{}", value(x))
    }

    fn fixed(&self, x: Double, places: usize) -> String {
        format!("{:.1$}", value(x), places)
    }

    fn signed(&self, x: Double, places: usize) -> String {
        format!("{:+.1$}", value(x), places)
    }

    fn scientific(&self, x: Double, places: usize) -> String {
        format!("{:.1$e}", value(x), places)
    }
}

fn recording(samples: Vec<f32>, sps: u32) -> Recording {
    Recording {
        meta: Meta {
            created_unix_ms: 0,
            tool_version: "test".into(),
            label: None,
            voltage_mv: 3000,
            sps,
            settle_secs: double(0.0),
            duration_secs: double(samples.len() as f64 / sps as f64),
            mode: "source".into(),
            calibrated: true,
            missed_samples: 0,
        },
        samples_ua: singles(&samples),
    }
}

/// Deterministic pseudo-noise in [-0.5, 0.5).
fn noise(i: usize) -> f32 {
    let mut rng = SplitMix64::new(i as u64 + 42);
    (rng.next() % 1000) as f32 / 1000.0 - 0.5
}

#[test]
fn detects_real_shift() {
    // 20 blocks of 100 samples each; new is 10% higher than baseline.
    let a: Vec<f32> = (0..2000).map(|i| 100.0 + noise(i)).collect();
    let b: Vec<f32> = (0..2000).map(|i| 110.0 + noise(i + 7777)).collect();
    let res = compare(
        &Floats,
        &recording(a, 100),
        &recording(b, 100),
        &CompareConfig::default(),
    )
    .unwrap();
    assert!(res.significant, "10% shift must be significant: {res:?}");
    assert!(value(res.mean_diff) > 9.0 && value(res.mean_diff) < 11.0);
    assert!(value(res.p_value) < 0.001);
    assert!(value(res.diff_ci.0) > 0.0);
}

#[test]
fn no_false_positive_on_identical_distributions() {
    let a: Vec<f32> = (0..2000).map(|i| 100.0 + noise(i)).collect();
    let b: Vec<f32> = (0..2000).map(|i| 100.0 + noise(i + 31337)).collect();
    let res = compare(
        &Floats,
        &recording(a, 100),
        &recording(b, 100),
        &CompareConfig {
            confidence: double(0.99),
            ..Default::default()
        },
    )
    .unwrap();
    assert!(
        !res.significant,
        "same distribution flagged as significant: {res:?}"
    );
}

#[test]
fn too_short_recording_is_an_error() {
    let a: Vec<f32> = vec![1.0; 150]; // 1.5 blocks at 100 sps
    let b: Vec<f32> = vec![1.0; 500];
    let res = compare(
        &Floats,
        &recording(a, 100),
        &recording(b, 100),
        &CompareConfig::default(),
    );
    assert!(matches!(res, Err(Error::NotEnoughData(_))));
    let Err(e) = res else { unreachable!() };
    assert_eq!(
        e.message(),
        "not enough data: need at least 2 full blocks of 1 s (100 samples at 100 sps) per file, \
         got 1; record longer or use a smaller --block-secs"
    );
}

#[test]
fn bootstrap_is_deterministic() {
    let a: Vec<f32> = (0..1000).map(|i| 100.0 + noise(i)).collect();
    let b: Vec<f32> = (0..1000).map(|i| 101.0 + noise(i + 5)).collect();
    let cfg = CompareConfig::default();
    let r1 = compare(
        &Floats,
        &recording(a.clone(), 100),
        &recording(b.clone(), 100),
        &cfg,
    )
    .unwrap();
    let r2 = compare(&Floats, &recording(a, 100), &recording(b, 100), &cfg).unwrap();
    assert_eq!(r1.diff_ci, r2.diff_ci);
}

#[test]
fn defaults_of_a_comparison() {
    let config = CompareConfig::default();
    assert_eq!(value(config.block_secs), 1.0);
    assert_eq!(value(config.confidence), 0.95);
    assert_eq!(config.bootstrap_iters, 10_000);
    assert_eq!(config.seed, 0x9e3779b97f4a7c15);
}

/// The comparison of two sets of block means, in plain doubles.
fn expected_comparison(a: &[f64], b: &[f64], iters: u32, confidence: f64, seed: u64) -> [f64; 5] {
    let mean = |xs: &[f64]| xs.iter().sum::<f64>() / xs.len() as f64;
    let variance = |xs: &[f64], m: f64| {
        xs.iter().map(|x| (x - m) * (x - m)).sum::<f64>() / (xs.len() - 1) as f64
    };
    let (na, nb) = (a.len() as f64, b.len() as f64);
    let (ma, mb) = (mean(a), mean(b));
    let (va, vb) = (variance(a, ma), variance(b, mb));
    let se2 = va / na + vb / nb;
    let t = (mb - ma) / se2.sqrt();
    let dof = se2 * se2 / ((va / na) * (va / na) / (na - 1.0) + (vb / nb) * (vb / nb) / (nb - 1.0));
    let p = 2.0 * (1.0 - StudentsT::new(0.0, 1.0, dof).unwrap().cdf(t.abs()));

    let mut rng = SplitMix64::new(seed);
    let mut resample = |xs: &[f64]| {
        let mut sum = 0.0;
        for _ in 0..xs.len() {
            sum += xs[(rng.next() % xs.len() as u64) as usize];
        }
        sum / xs.len() as f64
    };
    let mut diffs = Vec::new();
    for _ in 0..iters {
        let ra = resample(a);
        let rb = resample(b);
        diffs.push(rb - ra);
    }
    diffs.sort_by(|x, y| x.total_cmp(y));
    let interp = |rank: f64| {
        let frac = rank - rank.floor();
        diffs[rank.floor() as usize] * (1.0 - frac) + diffs[rank.ceil() as usize] * frac
    };
    let alpha = 1.0 - confidence;
    let last = (diffs.len() - 1) as f64;
    let lo = interp((alpha / 2.0) * last);
    let hi = interp((1.0 - alpha / 2.0) * last);
    [t, dof, p.clamp(0.0, 1.0), lo, hi]
}

#[test]
fn comparison_matches_plain_doubles() {
    let a: Vec<f32> = (0..730).map(|i| 100.0 + 3.0 * noise(i)).collect();
    let b: Vec<f32> = (0..555).map(|i| 100.5 + 5.0 * noise(i + 99)).collect();
    let blocks = |xs: &[f32]| -> Vec<f64> {
        xs.chunks_exact(50)
            .map(|c| c.iter().map(|&s| s as f64).sum::<f64>() / 50.0)
            .collect()
    };
    let config = CompareConfig {
        block_secs: double(0.5),
        confidence: double(0.9),
        bootstrap_iters: 777,
        seed: 5,
    };
    let r = compare(
        &Floats,
        &recording(a.clone(), 100),
        &recording(b.clone(), 100),
        &config,
    )
    .unwrap();
    let expected = expected_comparison(&blocks(&a), &blocks(&b), 777, 0.9, 5);
    let found = [
        value(r.t_statistic),
        value(r.degrees_of_freedom),
        value(r.p_value),
        value(r.diff_ci.0),
        value(r.diff_ci.1),
    ];
    assert_eq!(found, expected);
    let mean = |xs: &[f32]| xs.iter().fold(0.0, |sum, &x| sum + x as f64) / xs.len() as f64;
    let (mean_a, mean_b) = (mean(&a), mean(&b));
    assert_eq!((value(r.mean_baseline), value(r.mean_new)), (mean_a, mean_b));
    assert_eq!((r.blocks_baseline, r.blocks_new), (14, 11));
    assert_eq!(value(r.mean_diff), mean_b - mean_a);
    assert_eq!(value(r.mean_diff_pct), 100.0 * (mean_b - mean_a) / mean_a);
    assert_eq!(value(r.diff_ci_pct.0), 100.0 * expected[3] / mean_a);
    assert_eq!(value(r.block_secs), 0.5);
    assert_eq!(r.percentiles.len(), 8);
    let mut sorted = a;
    sorted.sort_by(|x, y| x.total_cmp(y));
    let median = percentile_sorted(&Floats, &singles(&sorted), double(50.0));
    assert_eq!(r.percentiles[2].percentile, double(50.0));
    assert_eq!(r.percentiles[2].baseline, median);
    // Significant means both a low p-value and an interval without zero.
    let excludes_zero = expected[3] > 0.0 || expected[4] < 0.0;
    assert_eq!(r.significant, expected[2] < 1.0 - 0.9 && excludes_zero);
}

#[test]
fn means_are_those_of_whole_recordings() {
    let r = compare(
        &Floats,
        &recording(vec![1.0, 1.0, 1.0, 1.0, 6.0], 2),
        &recording(vec![1.0; 4], 2),
        &CompareConfig::default(),
    )
    .unwrap();
    assert_eq!((r.blocks_baseline, r.blocks_new), (2, 2));
    assert_eq!((value(r.mean_baseline), value(r.mean_new)), (2.0, 1.0));
    assert_eq!((value(r.mean_diff), value(r.mean_diff_pct)), (-1.0, -50.0));
    // The blocks do not hold the last sample.
    assert_eq!(value(r.p_value), 1.0);
    assert_eq!((value(r.diff_ci.0), value(r.diff_ci.1)), (0.0, 0.0));
}

#[test]
fn exchanged_recordings_give_the_opposite() {
    let a: Vec<f32> = (0..730).map(|i| 100.0 + 3.0 * noise(i)).collect();
    let b: Vec<f32> = (0..555).map(|i| 100.5 + 5.0 * noise(i + 99)).collect();
    let (rec_a, rec_b) = (recording(a, 100), recording(b, 100));
    let config = CompareConfig::default();
    let r = compare(&Floats, &rec_a, &rec_b, &config).unwrap();
    let s = compare(&Floats, &rec_b, &rec_a, &config).unwrap();
    assert_eq!((r.blocks_baseline, r.blocks_new), (s.blocks_new, s.blocks_baseline));
    assert_eq!((r.mean_baseline, r.mean_new), (s.mean_new, s.mean_baseline));
    assert_eq!(value(r.mean_diff), -value(s.mean_diff));
    assert_eq!(value(r.t_statistic), -value(s.t_statistic));
    assert_eq!((r.p_value, r.degrees_of_freedom), (s.p_value, s.degrees_of_freedom));
    for (x, y) in r.percentiles.iter().zip(&s.percentiles) {
        assert_eq!(x.percentile, y.percentile);
        assert_eq!((x.baseline, x.new), (y.new, y.baseline));
    }
}

#[test]
fn higher_confidence_encloses_lower() {
    let a: Vec<Double> = (0..9).map(|i| double(10.0 + noise(i) as f64)).collect();
    let b: Vec<Double> = (0..7).map(|i| double(11.0 + noise(i + 50) as f64)).collect();
    let interval = |confidence: f64| {
        let ci = bootstrap_diff_ci(&Floats, &a, &b, 300, double(confidence), 3);
        (value(ci.0), value(ci.1))
    };
    let mut narrow = interval(0.51);
    for confidence in [0.6, 0.75, 0.9, 0.95, 0.99, 0.9999] {
        let wide = interval(confidence);
        assert!(wide.0 <= narrow.0 && narrow.0 <= narrow.1 && narrow.1 <= wide.1);
        assert!(wide.0.is_finite() && wide.1.is_finite());
        narrow = wide;
    }
    let extremes = |xs: &[Double]| {
        let xs: Vec<f64> = xs.iter().map(|&x| value(x)).collect();
        (xs.iter().copied().fold(f64::MAX, f64::min), xs.iter().copied().fold(f64::MIN, f64::max))
    };
    let ((low_a, high_a), (low_b, high_b)) = (extremes(&a), extremes(&b));
    assert!(low_b - high_a <= narrow.0 && narrow.1 <= high_b - low_a);
    let one = bootstrap_diff_ci(&Floats, &a, &b, 1, double(0.95), 3);
    assert_eq!(one.0, one.1);
}

#[test]
fn empty_groups_resample_to_nothing() {
    let mut rng = SplitMix64::new(1);
    assert!(value(resample_mean(&Floats, &[], &mut rng)).is_nan());
    assert_eq!(rng.next(), SplitMix64::new(1).next());
    let (low, high) = bootstrap_diff_ci(&Floats, &[], &[double(1.0)], 5, double(0.95), 1);
    assert!(value(low).is_nan() && value(high).is_nan());
}

#[test]
fn bootstrap_follows_the_seed() {
    let a: Vec<Double> = (0..9).map(|i| double(10.0 + noise(i) as f64)).collect();
    let b: Vec<Double> = (0..7).map(|i| double(11.0 + noise(i + 50) as f64)).collect();
    let once = bootstrap_diff_ci(&Floats, &a, &b, 200, double(0.95), 1);
    assert_eq!(once, bootstrap_diff_ci(&Floats, &a, &b, 200, double(0.95), 1));
    assert_ne!(once, bootstrap_diff_ci(&Floats, &a, &b, 200, double(0.95), 2));
    assert!(value(once.0) <= value(once.1));
}

#[test]
fn constant_groups_have_an_exact_difference() {
    let a = [double(2.0), double(2.0)];
    let b = [double(3.0), double(3.0), double(3.0)];
    let (t, dof, p) = welch_t_test(&Floats, &a, &b);
    assert_eq!((value(t), value(dof), value(p)), (f64::INFINITY, 3.0, 0.0));
    let (t, _, p) = welch_t_test(&Floats, &b, &a);
    assert_eq!((value(t), value(p)), (f64::NEG_INFINITY, 0.0));
    let (_, _, p) = welch_t_test(&Floats, &a, &a);
    assert_eq!(value(p), 1.0);
}

#[test]
fn refused_comparisons_say_why() {
    let rec = recording(vec![1.0; 500], 100);
    let refuse = |config: CompareConfig| compare(&Floats, &rec, &rec, &config).unwrap_err().message();
    for confidence in [0.5, 1.0, 0.0, 1.5, f64::NAN] {
        let config = CompareConfig { confidence: double(confidence), ..Default::default() };
        assert_eq!(
            refuse(config),
            format!("invalid configuration: confidence must be in (0.5, 1.0), got {confidence}")
        );
    }
    for block_secs in [0.0, -0.0, -1.0] {
        let config = CompareConfig { block_secs: double(block_secs), ..Default::default() };
        assert_eq!(refuse(config), "invalid configuration: block length must be positive");
    }
    let config = CompareConfig { block_secs: double(0.001), ..Default::default() };
    assert_eq!(
        refuse(config),
        "invalid configuration: block length 0.001 s is shorter than one sample at 100 sps"
    );
    // A refused comparison needs no resamples.
    let config = CompareConfig {
        confidence: double(2.0),
        bootstrap_iters: 0,
        ..Default::default()
    };
    assert!(compare(&Floats, &rec, &rec, &config).is_err());
}

#[test]
fn regression_needs_significance_and_size() {
    let a: Vec<f32> = (0..2000).map(|i| 100.0 + noise(i)).collect();
    let b: Vec<f32> = (0..2000).map(|i| 110.0 + noise(i + 7777)).collect();
    let (rec_a, rec_b) = (recording(a, 100), recording(b, 100));
    let config = CompareConfig::default();
    let worse = compare(&Floats, &rec_a, &rec_b, &config).unwrap();
    let better = compare(&Floats, &rec_b, &rec_a, &config).unwrap();
    assert!(exceeds_regression(&worse, Some(double(0.0))));
    assert!(exceeds_regression(&worse, Some(double(9.0))));
    assert!(!exceeds_regression(&worse, Some(double(11.0))));
    assert!(!exceeds_regression(&worse, None));
    assert!(!exceeds_regression(&better, Some(double(0.0))));
    // Any other threshold is a percentage, also one below zero.
    assert!(exceeds_regression(&better, Some(double(-20.0))));
    assert!(!exceeds_regression(&better, Some(double(-5.0))));
    assert!(!exceeds_regression(&worse, Some(double(f64::NAN))));
    let quiet: CompareResult = CompareResult { significant: false, ..worse.clone() };
    assert!(!exceeds_regression(&quiet, Some(double(0.0))));
}

#[test]
fn zero_threshold_fails_any_significant_increase() {
    let at = |base: f32| -> Recording {
        recording((0..2000).map(|i| base + noise(i) - noise(i)).collect(), 100)
    };
    let config = CompareConfig::default();
    // From nothing, and from below zero, where a percentage says little.
    for (base, risen) in [(0.0, 5.0), (-10.0, -9.0), (100.0, 100.5)] {
        let r = compare(&Floats, &at(base), &at(risen), &config).unwrap();
        assert!(r.significant && value(r.mean_diff) > 0.0);
        assert!(exceeds_regression(&r, Some(double(0.0))), "{base} to {risen}");
        assert!(exceeds_regression(&r, Some(double(-0.0))), "{base} to {risen}");
        let fall = compare(&Floats, &at(risen), &at(base), &config).unwrap();
        assert!(fall.significant);
        assert!(!exceeds_regression(&fall, Some(double(0.0))), "{risen} to {base}");
    }
}

#[test]
fn percentile_interpolation() {
    let sorted = singles(&[0.0f32, 10.0, 20.0, 30.0, 40.0]);
    let at = |pct: f64| value(percentile_sorted(&Floats, &sorted, double(pct)));
    assert_eq!(at(0.0), 0.0);
    assert_eq!(at(100.0), 40.0);
    assert_eq!(at(50.0), 20.0);
    assert_eq!(at(25.0), 10.0);
    assert!((at(90.0) - 36.0).abs() < 1e-9);
}

#[test]
fn percentiles_of_few_samples() {
    assert!(value(percentile_sorted(&Floats, &[], double(50.0))).is_nan());
    let one = singles(&[7.25]);
    assert_eq!(value(percentile_sorted(&Floats, &one, double(99.0))), 7.25);
    let two = singles(&[1.0, 2.0]);
    assert_eq!(value(percentile_sorted(&Floats, &two, double(-5.0))), 1.0);
    assert_eq!(value(percentile_sorted(&Floats, &two, double(200.0))), 2.0);
}

#[test]
fn percentiles_grow_between_the_ends() {
    let mut xs: Vec<f32> = (0..57).map(|i| 40.0 * noise(i)).collect();
    xs.sort_by(|a, b| a.total_cmp(b));
    let sorted = singles(&xs);
    let at = |pct: f64| value(percentile_sorted(&Floats, &sorted, double(pct)));
    let (first, last) = (xs[0] as f64, xs[56] as f64);
    for pct in [0.0, -0.0, -3.0, f64::NEG_INFINITY] {
        assert_eq!(at(pct), first);
    }
    for pct in [100.0, 100.5, 1e9, f64::INFINITY] {
        assert_eq!(at(pct), last);
    }
    for i in 0..400 {
        let (low, high) = (at(i as f64 / 4.0), at((i + 1) as f64 / 4.0));
        assert!(first <= low && low <= high && high <= last, "at {i}");
    }
}

/// Whether `x` is at most `y` up to the rounding of two interpolations between
/// numbers no larger than `scale`.
fn at_most_nearly(x: f64, y: f64, scale: f64) -> bool {
    x - y <= 10.0 * scale / 9007199254740992.0 + 4.0 * f64::from_bits(1)
}

#[test]
fn percentiles_step_back_by_no_more_than_rounding() {
    let sorted = singles(&[1.0, 3.0]);
    let at = |bits: u64| value(percentile_sorted(&Floats, &sorted, Double { bits }));
    let bits = (100.0 * (-54f64).exp2()).to_bits();
    // At this weight the lower number keeps its whole weight, at the next it does not.
    assert_eq!(at(bits), 1.0 + (-52f64).exp2());
    assert_eq!(at(bits + 1), 1.0);
    for i in 0..200 {
        let (low, high) = (at(bits + i), at(bits + i + 1));
        assert!(at_most_nearly(1.0, low, 3.0) && at_most_nearly(low, high, 3.0));
        assert!(at_most_nearly(high, 3.0, 3.0));
    }
    let top = f32::MAX;
    let wide = singles(&[-top, top]);
    for i in 0..=100 {
        let x = value(percentile_sorted(&Floats, &wide, double(i as f64)));
        assert!(x.is_finite() && at_most_nearly(x, top as f64, top as f64));
    }
}

#[test]
fn repeated_means_are_close() {
    for (x, n) in [(0.1, 10), (1e-300, 7), (-3.3e38, 1000), (5e-324, 3), (0.3, 1)] {
        let mut rng = SplitMix64::new(5);
        let m = value(resample_mean(&Floats, &vec![double(x); n], &mut rng));
        let slack = (2 * n + 2) as f64 * x.abs() / 9007199254740992.0 + f64::from_bits(1);
        assert!((m - x).abs() <= slack, "{n} times {x}: {m}");
    }
}

#[test]
fn basic_stats() {
    let samples = singles(&[1.0f32, 2.0, 3.0, 4.0]);
    let s = Stats::from_samples(&Floats, &samples, 2, 3000);
    assert_eq!(s.count, 4);
    assert!((value(s.duration_secs) - 2.0).abs() < 1e-9);
    assert_eq!(value(s.min), 1.0);
    assert_eq!(value(s.max), 4.0);
    assert!((value(s.mean) - 2.5).abs() < 1e-9);
    // Sample std dev of 1,2,3,4 is sqrt(5/3).
    assert!((value(s.std_dev) - (5.0f64 / 3.0).sqrt()).abs() < 1e-9);
    // 2.5 µA for 2 s = 5 µA·s = 5/3600 µAh.
    assert!((value(s.charge_uah) - 5.0 / 3600.0).abs() < 1e-12);
    // 2.5 µA * 3.0 V = 7.5 µW.
    assert!((value(s.avg_power_uw) - 7.5).abs() < 1e-9);
}

#[test]
fn empty_is_nan_not_panic() {
    let s = Stats::from_samples(&Floats, &[], 1000, 3000);
    assert_eq!(s.count, 0);
    assert!(value(s.mean).is_nan());
}

#[test]
fn empty_statistics_are_complete() {
    let s = Stats::from_samples(&Floats, &[], 1000, 3000);
    assert_eq!(value(s.duration_secs), 0.0);
    assert_eq!(value(s.charge_uah), 0.0);
    assert_eq!(s.percentiles.len(), 8);
    assert!(s.percentiles.iter().all(|p| value(p.1).is_nan()));
    assert!(value(s.min).is_nan() && value(s.max).is_nan());
    assert!(value(s.std_dev).is_nan() && value(s.avg_power_uw).is_nan());
}

#[test]
fn statistics_ignore_the_order_of_samples() {
    let s = Stats::from_samples(&Floats, &singles(&[5.0, 1.0, 3.0]), 1, 1000);
    let t = Stats::compute(&Floats, &recording(vec![1.0, 3.0, 5.0], 1));
    assert_eq!(s.percentiles, t.percentiles);
    assert_eq!((s.min, s.max), (t.min, t.max));
    assert_eq!(value(s.percentiles[2].1), 3.0);
    assert_eq!(value(t.avg_power_uw), 9.0);
    let one = Stats::from_samples(&Floats, &singles(&[4.0]), 1, 1000);
    assert_eq!(value(one.std_dev), 0.0);
}

#[test]
fn rearranged_samples_agree_up_to_rounding() {
    let mut xs: Vec<f32> = (0..999).map(|i| 300.0 * noise(i) + 0.1).collect();
    xs.push(-0.0);
    xs.push(0.0);
    let n = xs.len() as f64;
    let s = Stats::from_samples(&Floats, &singles(&xs), 1000, 3300);
    let scale = value(s.min).abs().max(value(s.max).abs());
    let part = 1.0 / 9007199254740992.0;
    for turn in [1, 17, 500, 1000] {
        xs.rotate_left(turn);
        xs.reverse();
        let t = Stats::from_samples(&Floats, &singles(&xs), 1000, 3300);
        assert_eq!((t.count, t.duration_secs), (s.count, s.duration_secs));
        assert_eq!((value(t.min), value(t.max)), (value(s.min), value(s.max)));
        assert_eq!(t.percentiles, s.percentiles);
        let apart = |a: Double, b: Double| (value(a) - value(b)).abs();
        assert!(apart(t.mean, s.mean) <= (4.0 * n + 4.0) * scale * part);
        let slack = ((4.0 * n + 16.0) * scale) * part;
        assert!(apart(t.charge_uah, s.charge_uah) <= slack * value(s.duration_secs) / 3600.0);
        assert!(apart(t.avg_power_uw, s.avg_power_uw) <= slack * 3.3);
        let squares = (value(t.std_dev).powi(2) - value(s.std_dev).powi(2)).abs();
        assert!(squares <= 2.0 * (48.0 * n + 160.0) * (3.0 * scale).powi(2) * part);
    }
    // The order does show where a sum is rounded.
    let mean = |xs: &[f32]| value(Stats::from_samples(&Floats, &singles(xs), 1, 1).mean);
    let big = 18014398509481984.0;
    let (x, y) = (mean(&[big, 1.0, -big, 3.0]), mean(&[big, -big, 1.0, 3.0]));
    assert_eq!((x, y), (0.75, 1.0));
    assert!((x - y).abs() <= 20.0 * big as f64 * part);
    let zeros = |a: f32, b: f32| Stats::from_samples(&Floats, &singles(&[a, b]), 1, 1);
    assert_eq!(value(zeros(-0.0, 0.0).min), value(zeros(0.0, -0.0).min));
}

fn test_meta() -> Meta {
    Meta {
        created_unix_ms: 1_700_000_000_000,
        tool_version: "test".into(),
        label: Some("baseline".into()),
        voltage_mv: 3000,
        sps: 1000,
        settle_secs: double(5.0),
        duration_secs: double(2.0),
        mode: "source".into(),
        calibrated: true,
        missed_samples: 0,
    }
}

/// The metadata as JSON text.
fn to_json(meta: &Meta) -> Vec<u8> {
    let mut map = serde_json::Map::new();
    map.insert("created_unix_ms".into(), meta.created_unix_ms.into());
    map.insert("tool_version".into(), meta.tool_version.clone().into());
    map.insert("label".into(), meta.label.clone().into());
    map.insert("voltage_mv".into(), meta.voltage_mv.into());
    map.insert("sps".into(), meta.sps.into());
    map.insert("settle_secs".into(), value(meta.settle_secs).into());
    map.insert("duration_secs".into(), value(meta.duration_secs).into());
    map.insert("mode".into(), meta.mode.clone().into());
    map.insert("calibrated".into(), meta.calibrated.into());
    map.insert("missed_samples".into(), meta.missed_samples.into());
    serde_json::to_vec(&serde_json::Value::Object(map)).unwrap()
}

/// The metadata in JSON text.
fn from_json(text: &[u8]) -> Result<Meta, String> {
    let v: serde_json::Value = serde_json::from_slice(text).map_err(|e| e.to_string())?;
    Ok(Meta {
        created_unix_ms: v["created_unix_ms"].as_u64().unwrap(),
        tool_version: v["tool_version"].as_str().unwrap().into(),
        label: v["label"].as_str().map(|s| s.into()),
        voltage_mv: v["voltage_mv"].as_u64().unwrap() as u16,
        sps: v["sps"].as_u64().unwrap() as u32,
        settle_secs: double(v["settle_secs"].as_f64().unwrap()),
        duration_secs: double(v["duration_secs"].as_f64().unwrap()),
        mode: v["mode"].as_str().unwrap().into(),
        calibrated: v["calibrated"].as_bool().unwrap(),
        missed_samples: v["missed_samples"].as_u64().unwrap(),
    })
}

#[test]
fn roundtrip() {
    let rec = Recording {
        meta: test_meta(),
        samples_ua: singles(&[0.5, 1.25, -0.125, 1e6]),
    };
    let path = "roundtrip.pbench";
    let file = rec.save(Ok(to_json(&rec.meta))).unwrap();
    let meta = from_json(&metadata_text(&file, path).unwrap());
    let loaded = Recording::load(&file, path, meta).unwrap();
    assert_eq!(loaded.samples_ua, rec.samples_ua);
    assert_eq!(loaded.meta.voltage_mv, 3000);
    assert_eq!(loaded.meta.sps, 1000);
    assert_eq!(loaded.meta.label.as_deref(), Some("baseline"));
}

#[test]
fn rejects_bad_magic() {
    let data = b"NOTPBENCHFILE";
    let text = metadata_text(data, "bad.pbench");
    assert!(matches!(text, Err(Error::InvalidFile(_))));
    let loaded = Recording::load(data, "bad.pbench", Ok(test_meta()));
    assert!(matches!(loaded, Err(Error::InvalidFile(_))));
    let Err(e) = loaded else { unreachable!() };
    assert_eq!(
        e.message(),
        "invalid sample file: bad.pbench: bad magic, not a powerbench sample file"
    );
}

#[test]
fn file_layout_is_exact() {
    let rec = recording(vec![0.5, -1.0], 100);
    let file = rec.save(Ok(b"{}".to_vec())).unwrap();
    let mut expected = b"PBENCH1\n".to_vec();
    expected.extend_from_slice(&2u32.to_le_bytes());
    expected.extend_from_slice(b"{}");
    expected.extend_from_slice(&2u64.to_le_bytes());
    expected.extend_from_slice(&0.5f32.to_le_bytes());
    expected.extend_from_slice(&(-1.0f32).to_le_bytes());
    assert_eq!(file, expected);
    assert_eq!(value(rec.duration_secs(&Floats)), 0.02);
    let failed = rec.save(Err("no".into())).unwrap_err();
    assert_eq!(failed.message(), "invalid sample file: metadata encoding failed: no");
}

#[test]
fn damaged_files_are_rejected() {
    let rec = recording(vec![0.5, -1.0, 2.0], 100);
    let file = rec.save(Ok(to_json(&rec.meta))).unwrap();
    for n in 0..file.len() {
        let cut = Recording::load(&file[..n], "f", Ok(rec.meta.clone()));
        assert!(matches!(cut, Err(Error::Io(_))), "cut to {n} bytes");
    }
    let bad = Recording::load(&file, "f", Err("eof".into())).unwrap_err();
    assert_eq!(bad.message(), "invalid sample file: f: bad metadata: eof");
    let mut still = rec.meta.clone();
    still.sps = 0;
    let bad = Recording::load(&file, "f", Ok(still)).unwrap_err();
    assert_eq!(bad.message(), "invalid sample file: f: metadata has sps = 0");
}

#[test]
fn envelope_covers_all_samples() {
    let rec = recording((0..1000).map(|i| i as f32).collect(), 100);
    let data = envelope_data(&Floats, &rec, 10, "test");
    let lines: Vec<&str> = data.lines().filter(|l| !l.starts_with('#')).collect();
    assert_eq!(lines.len(), 10);
    // First bucket: samples 0..100.
    let first: Vec<f64> = lines[0]
        .split_whitespace()
        .map(|v| v.parse().unwrap())
        .collect();
    assert_eq!(first[1], 0.0); // min
    assert!((first[2] - 49.5).abs() < 1e-9); // mean
    assert_eq!(first[3], 99.0); // max
}

#[test]
fn buckets_partition_uneven_samples() {
    // Seven samples in three buckets: two, two and three.
    let samples = singles(&[1.0, 3.0, 2.0, 2.0, 9.0, -1.0, 4.0]);
    let rows = envelope(&Floats, &samples, 10, 3);
    let found: Vec<[f64; 4]> = rows
        .iter()
        .map(|b| [value(b.t_mid), value(b.min), value(b.mean), value(b.max)])
        .collect();
    assert_eq!(
        found,
        [[0.1, 1.0, 2.0, 3.0], [0.3, 2.0, 2.0, 2.0], [0.5, -1.0, 4.0, 9.0]]
    );
    assert!(envelope(&Floats, &[], 10, 3).is_empty());
    assert_eq!(envelope(&Floats, &samples, 10, 100).len(), 7);
    let rec = recording((0..19).map(|i| i as f32).collect(), 100);
    let data = envelope_data(&Floats, &rec, 10, "n");
    assert_eq!(data.lines().count(), 11);
    for (n, buckets) in [(19, 10), (1000, 7), (1499, 1500), (1501, 1500), (2999, 1500)] {
        let samples = singles(&(0..n).map(|i| i as f32).collect::<Vec<_>>());
        let rows = envelope(&Floats, &samples, 1, buckets);
        assert_eq!(rows.len(), buckets.min(n));
        let mut next = 0.0;
        for row in &rows {
            // The samples count up, so each bucket takes up where the last ended.
            assert_eq!(value(row.min), next);
            assert!(value(row.min) <= value(row.t_mid) && value(row.t_mid) <= value(row.max));
            next = value(row.max) + 1.0;
        }
        assert_eq!(next, n as f64);
    }
}

#[test]
fn percentile_curve_has_a_line_for_each_tenth() {
    let rec = recording(vec![30.0, 10.0, 20.0], 100);
    let data = percentile_data(&Floats, &rec, "test");
    let lines: Vec<&str> = data.lines().collect();
    assert_eq!(lines[0], "# test: current_ua percent_of_samples_below");
    assert_eq!(lines.len(), 1002);
    assert_eq!(lines[1], "10 0");
    assert_eq!(lines[501], "20 50");
    assert_eq!(lines[1001], "30 100");
}

#[test]
fn script_mentions_all_series() {
    let s = script(
        &vec!["baseline".into(), "new".into()],
        &OutputPath::new("out.png"),
        &PlotConfig::default(),
    );
    assert!(s.contains("pngcairo"));
    assert!(s.contains("out.png.0.env.dat"));
    assert!(s.contains("out.png.1.env.dat"));
    assert!(s.contains("out.png.0.cdf.dat"));
    assert!(s.contains("baseline (mean)"));
}

#[test]
fn svg_terminal_from_extension() {
    let s = script(&vec!["a".into()], &OutputPath::new("out.svg"), &PlotConfig::default());
    assert!(s.contains("set terminal svg"));
}

#[test]
fn script_is_exact() {
    let config = PlotConfig { log_scale: true, ..PlotConfig::default() };
    let names = vec![String::from("it's"), String::from("b")];
    let expected = "set terminal pngcairo size 1400,900 font ',11'\n\
        set output 'o''.png'\n\
        set multiplot layout 2,1 title 'it''s vs b'\n\
        set grid\n\
        set key left top\n\
        set xlabel 'time (s)'\n\
        set ylabel 'current (µA)'\n\
        set logscale y\n\
        plot 'o''.png.0.env.dat' using 1:2:4 with filledcurves fc rgb '#1f77b4' fs transparent solid 0.15 notitle, \\\n     \
        'o''.png.0.env.dat' using 1:3 with lines lc rgb '#1f77b4' lw 1.5 title 'it''s (mean)', \\\n     \
        'o''.png.1.env.dat' using 1:2:4 with filledcurves fc rgb '#d62728' fs transparent solid 0.15 notitle, \\\n     \
        'o''.png.1.env.dat' using 1:3 with lines lc rgb '#d62728' lw 1.5 title 'b (mean)'\n\
        set xlabel 'current (µA)'\n\
        set ylabel '% of samples below'\n\
        set yrange [0:100]\n\
        unset logscale y\n\
        set logscale x\n\
        plot 'o''.png.0.cdf.dat' using 1:2 with lines lc rgb '#1f77b4' lw 1.5 title 'it''s', \\\n     \
        'o''.png.1.cdf.dat' using 1:2 with lines lc rgb '#d62728' lw 1.5 title 'b'\n\
        unset multiplot\n";
    assert_eq!(script(&names, &OutputPath::new("o'.png"), &config), expected);
    let titled = PlotConfig { title: "T's".into(), ..PlotConfig::default() };
    let s = script(&names, &OutputPath::new("o"), &titled);
    assert!(s.contains("set multiplot layout 2,1 title 'T''s'\n"));
    assert!(!s.contains("logscale"));
    assert_eq!(gp_escape("a'b/c"), "a''b/c");
    assert_eq!(gp_quote("'"), "''");
}

#[test]
fn svg_extension_follows_paths() {
    for path in [
        "out.svg", "out.SVG", "a/b.sVg", "out.png", "svg", ".svg", "a/.svg", "..svg", "out.svg/",
        "out.svg/.", "out.svg//./", "out.svg/..", "a.svg/b", "x.svgz", "", "/", ".", "..", "./a.svg",
        "out.svg.", "µ.svg", "a.b.svg",
    ] {
        let expected = std::path::Path::new(path)
            .extension()
            .is_some_and(|e| e.eq_ignore_ascii_case("svg"));
        let output = OutputPath::new(path);
        assert_eq!(output.text, path);
        assert_eq!(output.is_svg(), expected, "{path}");
    }
    for (path, extension) in [
        ("plots/out.svg", Some("svg")),
        ("/tmp/out.svg", Some("svg")),
        ("./out.svg", Some("svg")),
        ("../a b/.hidden.SVG", Some("SVG")),
        ("dir/a.svg.png", Some("png")),
        ("dir.svg/out.", Some("")),
        ("/a.b/c/...", Some("")),
    ] {
        assert_eq!(OutputPath::new(path).extension.as_deref(), extension, "{path}");
    }
    // Whether slashes separate components or not, these are not SVG files.
    for path in ["dir.svg/out", "/dir.svg/out", "a.svg/..", "plots/out"] {
        assert!(!OutputPath::new(path).is_svg(), "{path}");
    }
    let output = OutputPath::new("a.b.Svg");
    assert_eq!(output.extension.as_deref(), Some("Svg"));
    assert_eq!(OutputPath::new("a.").extension.as_deref(), Some(""));
    assert_eq!(OutputPath::new(".svg").extension, None);
}

#[test]
fn terminal_follows_the_given_extension() {
    // On Windows the first of these is a file without an extension.
    let path = |extension: Option<&str>| OutputPath {
        text: "dir\\.svg".into(),
        extension: extension.map(String::from),
    };
    let terminal = |extension| {
        let s = script(&vec!["a".into()], &path(extension), &PlotConfig::default());
        s.lines().next().unwrap().to_string()
    };
    assert_eq!(terminal(None), "set terminal pngcairo size 1400,900 font ',11'");
    assert_eq!(terminal(Some("sVG")), "set terminal svg size 1400,900 dynamic font 'sans,11'");
    assert_eq!(terminal(Some("")), terminal(None));
    assert_eq!(terminal(Some("svgz")), terminal(None));
}

#[test]
fn plot_lays_out_its_files() {
    let a = recording(vec![1.0, 2.0, 3.0], 100);
    let b = recording(vec![4.0; 5], 100);
    let series = [
        Series { name: "a", recording: &a },
        Series { name: "b", recording: &b },
    ];
    let config = PlotConfig::default();
    let job = plot(&Floats, &series, &OutputPath::new("out.png"), &config).unwrap();
    let paths: Vec<&str> = job.data.iter().map(|f| f.path.as_str()).collect();
    assert_eq!(
        paths,
        ["out.png.0.env.dat", "out.png.0.cdf.dat", "out.png.1.env.dat", "out.png.1.cdf.dat"]
    );
    assert_eq!(job.data[0].contents, envelope_data(&Floats, &a, 1500, "a"));
    assert_eq!(job.data[3].contents, percentile_data(&Floats, &b, "b"));
    assert_eq!(job.script.path, "out.png.gp");
    let names = vec![String::from("a"), String::from("b")];
    assert_eq!(job.script.contents, script(&names, &OutputPath::new("out.png"), &config));

    let done = job.finish(GnuplotRun::Succeeded, false);
    assert!(done.result.is_ok());
    assert_eq!(done.remove.len(), 5);
    assert_eq!(done.remove[0], "out.png.0.env.dat");
    assert_eq!(done.remove[4], "out.png.gp");
    let kept = job.finish(GnuplotRun::Succeeded, true);
    assert!(kept.result.is_ok() && kept.remove.is_empty());
    let failed = job.finish(
        GnuplotRun::Failed { status: "exit status: 1".into(), stderr: "boom".into() },
        false,
    );
    assert!(failed.remove.is_empty());
    assert_eq!(
        failed.result.unwrap_err().message(),
        "gnuplot failed: gnuplot exited with exit status: 1: boom"
    );
    let missing = job.finish(GnuplotRun::NotRun { reason: "not found".into() }, false);
    assert!(missing.remove.is_empty());
    assert_eq!(
        missing.result.unwrap_err().message(),
        "gnuplot failed: could not run gnuplot (not found); is gnuplot installed and on PATH? \
         The script and data files were kept at out.png.gp"
    );
}

#[test]
fn plot_refuses_what_it_cannot_draw() {
    let a = recording(vec![1.0], 100);
    let one = Series { name: "a", recording: &a };
    let config = PlotConfig::default();
    let out = OutputPath::new("o");
    let none = plot(&Floats, &[], &out, &config).unwrap_err();
    assert_eq!(none.message(), "invalid configuration: plot takes one or two recordings");
    assert!(plot(&Floats, &[one, one, one], &out, &config).is_err());
    let coarse = PlotConfig { buckets: 1, ..PlotConfig::default() };
    let few = plot(&Floats, &[one], &out, &coarse).unwrap_err();
    assert_eq!(few.message(), "invalid configuration: need at least 2 buckets");
    assert_eq!((config.buckets, config.log_scale, config.keep_data), (1500, false, false));
    assert_eq!(config.title, "");
}
