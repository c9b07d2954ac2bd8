//! What the command line prints, held against the machine's own formatting.

use powerbench::acquire::Progress;
use powerbench::compare::PercentileDiff;
use powerbench::report::{
    compare_report, exit_code, fit_line, fmt_ua, live_line, live_summary, missed_warning,
    progress_line, regression_message, series_name, stats_report, terminal_width, Ending,
};
use powerbench::{
    Arithmetic, CompareResult, Double, Error, LiveSummary, LiveUpdate, Meta, Recording, Rendering,
    Single, Stats,
};
use statrs::distribution::{ContinuousCDF, StudentsT};

/// Arithmetic and text of the machine's own doubles.
struct Floats;

fn double(x: f64) -> Double {
    Double { bits: x.to_bits() }
}

fn single(x: f32) -> Single {
    Single { bits: x.to_bits() }
}

fn value(x: Double) -> f64 {
    f64::from_bits(x.bits)
}

fn singles(xs: &[f32]) -> Vec<Single> {
    xs.iter().map(|&x| single(x)).collect()
}

impl Arithmetic for Floats {
    fn plus(&self, a: Double, b: Double) -> Double {
        double(value(a) + value(b))
    }

    fn minus(&self, a: Double, b: Double) -> Double {
        double(value(a) - value(b))
    }

    fn times(&self, a: Double, b: Double) -> Double {
        double(value(a) * value(b))
    }

    fn over(&self, a: Double, b: Double) -> Double {
        double(value(a) / value(b))
    }

    fn root(&self, a: Double) -> Double {
        double(value(a).sqrt())
    }

    fn of_count(&self, n: u128) -> Double {
        double(n as f64)
    }

    fn widen(&self, a: Single) -> Double {
        double(f32::from_bits(a.bits) as f64)
    }

    fn narrow(&self, a: Double) -> Single {
        single(value(a) as f32)
    }

    fn to_nanos(&self, secs: Double) -> u128 {
        std::time::Duration::from_secs_f64(value(secs)).as_nanos()
    }

    fn students_t(&self, freedom: Double, x: Double) -> Double {
        let dist = StudentsT::new(0.0, 1.0, value(freedom)).expect("positive, finite freedom");
        double(dist.cdf(value(x)))
    }
}

impl Rendering for Floats {
    fn shown(&self, x: Double) -> String {
        format!("{}", value(x))
    }

    fn fixed(&self, x: Double, places: usize) -> String {
        format!("{:.1$}", value(x), places)
    }

    fn signed(&self, x: Double, places: usize) -> String {
        format!("{:+.1$}", value(x), places)
    }

    fn scientific(&self, x: Double, places: usize) -> String {
        format!("{:.1$e}", value(x), places)
    }
}

fn ua(x: f64) -> String {
    fmt_ua(&Floats, double(x))
}

#[test]
fn currents_get_a_fitting_unit() {
    for (x, text) in [
        (0.0, "0.00 µA"),
        (-0.0, "-0.00 µA"),
        (0.0482, "48.2 nA"),
        (-0.5, "-500.0 nA"),
        (0.9999, "999.9 nA"),
        (1.0, "1.00 µA"),
        (152.1, "152.10 µA"),
        (999.99, "999.99 µA"),
        (1000.0, "1.000 mA"),
        (-2100.0, "-2.100 mA"),
        (999_999.0, "999.999 mA"),
        (1_000_000.0, "1.0000 A"),
        (2_500_000.0, "2.5000 A"),
        (f64::INFINITY, "inf"),
        (f64::NEG_INFINITY, "-inf"),
        (f64::NAN, "NaN"),
    ] {
        assert_eq!(ua(x), text);
    }
}

fn update() -> LiveUpdate {
    LiveUpdate {
        elapsed_secs: double(1234.5),
        now_ua: double(152.1),
        window_secs: double(10.0),
        window_mean_ua: double(148.73),
        window_min_ua: double(0.0482),
        window_p50_ua: double(51.2),
        window_p95_ua: double(1200.0),
        window_p99_ua: double(2100.0),
        window_max_ua: double(2_500_000.0),
        total_mean_ua: double(151.02),
        total_charge_uah: double(0.5),
        missed_samples: 0,
    }
}

#[test]
fn live_line_is_compact() {
    let line = live_line(&Floats, &update());
    for label in ["now", "avg(10s)", "min", "p50", "p95", "p99", "max", "tot"] {
        assert!(line.contains(label), "missing {label} in {line}");
    }
    // Fits in a typically-sized terminal so the in-place rewrite does
    // not have to truncate.
    assert!(line.chars().count() <= 140, "line too wide: {line}");
}

#[test]
fn live_line_is_exact() {
    let u = LiveUpdate {
        elapsed_secs: double(42.3),
        window_min_ua: double(48.2),
        window_max_ua: double(2410.0),
        ..update()
    };
    assert_eq!(
        live_line(&Floats, &u),
        "   42.3s now  152.10 µA avg(10s)  148.73 µA min   48.20 µA p50   51.20 µA \
         p95   1.200 mA p99   2.100 mA max   2.410 mA tot  151.02 µA"
    );
}

#[test]
fn status_line_fits_the_terminal() {
    assert_eq!(terminal_width(0, 80), Some(80));
    assert_eq!(terminal_width(0, 0), None);
    assert_eq!(terminal_width(-1, 80), None);
    let line = live_line(&Floats, &update());
    let cut = fit_line(&line, Some(40));
    assert_eq!(cut.chars().count(), 40);
    assert_eq!(cut, line.chars().take(40).collect::<String>());
    assert_eq!(fit_line(&line, None), line);
    assert_eq!(fit_line(&line, Some(1000)), line);
}

#[test]
fn progress_is_reported_in_seconds_and_percent() {
    let settling = Progress::Settling { remaining: 4_600_000_000 };
    assert_eq!(progress_line(&Floats, settling), "settling: 5 s remaining");
    let sampling = Progress::Sampling { collected: 250, total: 1000 };
    assert_eq!(progress_line(&Floats, sampling), "sampling: 250/1000 (25%)");
}

#[test]
fn live_summary_is_exact() {
    let mut s = LiveSummary {
        duration_secs: double(12.34),
        samples: 12340,
        mean_ua: double(151.02),
        min_ua: double(0.5),
        max_ua: double(2410.0),
        charge_uah: double(0.51762),
        avg_power_uw: double(453.06),
        missed_samples: 0,
    };
    assert_eq!(
        live_summary(&Floats, &s),
        "session summary\n  duration: 12.3 s (12340 samples)\n  mean:        151.02 µA   \
         min:      500.0 nA   max:     2.410 mA\n  charge:   0.5176 µAh   avg power: 453.06 µW\n"
    );
    s.missed_samples = 7;
    assert!(live_summary(&Floats, &s).contains("(12340 samples), 7 raw samples missed\n"));
}

fn recording(samples: &[f32], label: Option<&str>) -> Recording {
    Recording {
        meta: Meta {
            created_unix_ms: 0,
            tool_version: "test".into(),
            label: label.map(|l| l.into()),
            voltage_mv: 3000,
            sps: 2,
            settle_secs: double(0.0),
            duration_secs: double(2.0),
            mode: "source".into(),
            calibrated: label.is_none(),
            missed_samples: 0,
        },
        samples_ua: singles(samples),
    }
}

#[test]
fn stats_report_is_exact() {
    let rec = recording(&[1.0, 2.0, 3.0, 4.0], None);
    let s = Stats::compute(&Floats, &rec);
    let cell = |i: usize| {
        let (p, v) = s.percentiles[i];
        format!("p{:<5} {:>12}", value(p), ua(value(v)))
    };
    let row = |r: usize| format!("  {}   {}   {}   {}\n", cell(r), cell(r + 1), cell(r + 2), cell(r + 3));
    let expected = format!(
        "f.pbench\n  capture:  4 samples at 2 sps (2.0 s), 3000 mV, mode source\n  \
         mean:     {:>12}   std:  {:>12}\n  min:      {:>12}   max:  {:>12}\n{}{}  \
         charge:   0.0014 µAh   avg power: 7.50 µW\n\n",
        "2.50 µA", "1.29 µA", "1.00 µA", "4.00 µA", row(0), row(4)
    );
    assert_eq!(stats_report(&Floats, "f.pbench", &rec, &s), expected);

    let labelled = recording(&[1.0], Some("main"));
    let s = Stats::compute(&Floats, &labelled);
    let text = stats_report(&Floats, "g", &labelled, &s);
    assert!(text.starts_with("g\n  label:    main\n  capture:  1 samples at 2 sps"));
    assert!(text.contains("mode source (UNCALIBRATED)\n"));
}

#[test]
fn short_rows_of_percentiles() {
    let rec = recording(&[1.0], None);
    let mut s = Stats::compute(&Floats, &rec);
    s.percentiles.truncate(5);
    let text = stats_report(&Floats, "g", &rec, &s);
    assert!(text.contains("\n  p95         1.00 µA\n  charge:"), "{text}");
    s.percentiles.clear();
    let text = stats_report(&Floats, "g", &rec, &s);
    assert!(text.contains("max:       1.00 µA\n  charge:"), "{text}");
}

fn result() -> CompareResult {
    CompareResult {
        mean_baseline: double(100.0),
        mean_new: double(110.0),
        mean_diff: double(10.0),
        mean_diff_pct: double(10.0),
        blocks_baseline: 20,
        blocks_new: 21,
        block_secs: double(1.0),
        t_statistic: double(12.3456),
        degrees_of_freedom: double(38.04),
        p_value: double(0.000012),
        confidence: double(0.95),
        diff_ci: (double(-9.5), double(10.5)),
        diff_ci_pct: (double(-9.5), double(10.5)),
        significant: true,
        percentiles: vec![
            PercentileDiff { percentile: double(50.0), baseline: double(100.0), new: double(110.0) },
            PercentileDiff { percentile: double(99.9), baseline: double(1200.0), new: double(900.0) },
        ],
    }
}

#[test]
fn compare_report_is_exact() {
    let row = |a: &str, b: &str, c: &str, d: &str| format!("{a:<12} {b:>14} {c:>14} {d:>14}\n");
    let expected = format!(
        "baseline: a  mean 100.00 µA (20 blocks of 1 s)\n\
         new:      b  mean 110.00 µA (21 blocks of 1 s)\n\n\
         mean difference:   10.00 µA (+10.00%)\n\
         95% CI of diff:  [-9.50 µA, 10.50 µA]  ([-9.50%, +10.50%])\n\
         Welch's t-test:    t = 12.346, dof = 38.0, p = 1.20e-5\n\n\
         => SIGNIFICANT INCREASE in mean current at 95% confidence\n\n{}{}{}",
        row("percentile", "baseline", "new", "diff"),
        row("p50", "100.00 µA", "110.00 µA", "10.00 µA"),
        row("p99.9", "1.200 mA", "900.00 µA", "-300.00 µA"),
    );
    let mut r = result();
    assert_eq!(compare_report(&Floats, "a", "b", &r), expected);
    r.mean_diff = double(-10.0);
    assert!(compare_report(&Floats, "a", "b", &r)
        .contains("\n=> SIGNIFICANT DECREASE in mean current at 95% confidence\n"));
    r.significant = false;
    assert!(compare_report(&Floats, "a", "b", &r)
        .contains("\n=> no significant change detected at 95% confidence\n"));
}

#[test]
fn regressions_and_losses_are_named() {
    assert_eq!(
        regression_message(&Floats, double(10.256), double(5.0), double(95.0)),
        "FAIL: mean current increased 10.26% (> 5%) with 95.0% confidence"
    );
    assert_eq!(missed_warning(0), None);
    assert_eq!(
        missed_warning(3).unwrap(),
        "warning: 3 raw samples were lost during capture (counter gaps in the stream); \
         treat this recording with suspicion"
    );
}

#[test]
fn exit_codes_tell_endings_apart() {
    assert_eq!(exit_code(&Ending::Completed), 0);
    assert_eq!(exit_code(&Ending::Regressed), 2);
    assert_eq!(exit_code(&Ending::Failed(&Error::Cancelled)), 130);
    assert_eq!(exit_code(&Ending::Failed(&Error::Io("x".into()))), 1);
    assert_eq!(exit_code(&Ending::Broken), 1);
}

#[test]
fn plots_are_named_by_label_or_file() {
    assert_eq!(series_name(&recording(&[], Some("main")), "f"), "main");
    assert_eq!(series_name(&recording(&[], None), "f"), "f");
}
