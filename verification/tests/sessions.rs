//! Sessions with a device that is played by the test.

use powerbench::acquire::{
    rate_of, seconds, validate_sps, validate_voltage, Action, Event, Progress, RecordPlan,
    RecordSession,
};
use powerbench::device::{
    response_complete, switch_power, Command, Effect, MeasurementMode, OpenAction, OpenEvent,
    Opening, PortRead, PortStep, Request,
};
use powerbench::live::{LivePlan, LiveSession};
use powerbench::{
    Arithmetic, Device, Double, Error, LiveConfig, LiveUpdate, RecordConfig, Rendering, Single,
};
use statrs::distribution::{ContinuousCDF, StudentsT};

/// Arithmetic and text of the machine's own doubles.
struct Floats;

fn double(x: f64) -> Double {
    Double { bits: x.to_bits() }
}

fn single(x: f32) -> Single {
    Single { bits: x.to_bits() }
}

fn value(x: Double) -> f64 {
    f64::from_bits(x.bits)
}

fn singles(xs: &[f32]) -> Vec<Single> {
    xs.iter().map(|&x| single(x)).collect()
}

impl Arithmetic for Floats {
    fn plus(&self, a: Double, b: Double) -> Double {
        double(value(a) + value(b))
    }

    fn minus(&self, a: Double, b: Double) -> Double {
        double(value(a) - value(b))
    }

    fn times(&self, a: Double, b: Double) -> Double {
        double(value(a) * value(b))
    }

    fn over(&self, a: Double, b: Double) -> Double {
        double(value(a) / value(b))
    }

    fn root(&self, a: Double) -> Double {
        double(value(a).sqrt())
    }

    fn of_count(&self, n: u128) -> Double {
        double(n as f64)
    }

    fn widen(&self, a: Single) -> Double {
        double(f32::from_bits(a.bits) as f64)
    }

    fn narrow(&self, a: Double) -> Single {
        single(value(a) as f32)
    }

    fn to_nanos(&self, secs: Double) -> u128 {
        std::time::Duration::from_secs_f64(value(secs)).as_nanos()
    }

    fn students_t(&self, freedom: Double, x: Double) -> Double {
        let dist = StudentsT::new(0.0, 1.0, value(freedom)).expect("positive, finite freedom");
        double(dist.cdf(value(x)))
    }
}

impl Rendering for Floats {
    fn shown(&self, x: Double) -> String {
        format!("{}", value(x))
    }

    fn fixed(&self, x: Double, places: usize) -> String {
        format!("{:.1$}", value(x), places)
    }

    fn signed(&self, x: Double, places: usize) -> String {
        format!("{:+.1$}", value(x), places)
    }

    fn scientific(&self, x: Double, places: usize) -> String {
        format!("{:.1$e}", value(x), places)
    }
}

const SECOND: u128 = 1_000_000_000;

fn data(bytes: usize, missed: usize, measurements: &[f32]) -> Event {
    Event::Data { bytes, missed, measurements: singles(measurements) }
}

fn steps(action: &Action) -> Vec<PortStep> {
    match action {
        Action::Perform(request) => request.steps.clone(),
        other => panic!("expected a request, got {other:?}"),
    }
}

#[test]
fn sample_rates_divide_the_raw_rate() {
    for sps in [1, 10, 100, 1000, 10_000, 50_000, 100_000] {
        assert!(validate_sps(sps).is_ok());
    }
    assert_eq!(
        validate_sps(0).unwrap_err().message(),
        "invalid configuration: sps must be in 1..=100000, got 0"
    );
    assert_eq!(
        validate_sps(100_001).unwrap_err().message(),
        "invalid configuration: sps must be in 1..=100000, got 100001"
    );
    assert_eq!(
        validate_sps(3).unwrap_err().message(),
        "invalid configuration: sps must divide 100000 evenly \
         (e.g. 10, 100, 1000, 10000, 100000), got 3"
    );
}

#[test]
fn voltages_are_bounded() {
    assert!(validate_voltage(800).is_ok() && validate_voltage(5000).is_ok());
    for mv in [0, 799, 5001, u16::MAX] {
        assert_eq!(
            validate_voltage(mv).unwrap_err().message(),
            format!("invalid configuration: voltage must be in 800..=5000 mV, got {mv}")
        );
    }
}

#[test]
fn seconds_and_rates() {
    for nanos in [0, 1, 999_999_999, SECOND, 10_500_000_000, 123_456_789_123] {
        let duration = std::time::Duration::from_nanos(nanos as u64);
        assert_eq!(value(seconds(&Floats, nanos)), duration.as_secs_f64());
    }
    assert_eq!(rate_of(800_000, 2 * SECOND), 400_000);
    assert_eq!(rate_of(800_000, 2_900_000_000), 400_000);
    assert_eq!(rate_of(1234, 999_999_999), 1234);
}

#[test]
fn default_configurations() {
    let r = RecordConfig::default();
    assert_eq!((r.voltage_mv, r.sps, r.settle, r.duration), (3000, 1000, 0, 10 * SECOND));
    assert!(r.port.is_none() && r.label.is_none() && !r.keep_power);
    assert_eq!(r.mode, MeasurementMode::Source);
    let l = LiveConfig::default();
    assert_eq!((l.voltage_mv, l.sps, l.window, l.update_interval), (3000, 1000, 10 * SECOND, SECOND / 2));
    assert!(l.port.is_none() && !l.keep_power);
    assert_eq!(l.mode, MeasurementMode::Source);
}

#[test]
fn record_plan_follows_the_configuration() {
    let config = RecordConfig { duration: 1_500_000_000, sps: 1000, ..Default::default() };
    let plan = RecordPlan::new(&Floats, &config).unwrap();
    assert_eq!((plan.total, plan.chunk, plan.limit), (1500, 100, 3_875_000_000));
    let bad = RecordConfig { sps: 3, voltage_mv: 1, ..Default::default() };
    assert!(RecordPlan::new(&Floats, &bad).unwrap_err().message().contains("sps must divide"));
    let bad = RecordConfig { voltage_mv: 1, ..Default::default() };
    assert!(RecordPlan::new(&Floats, &bad).unwrap_err().message().contains("voltage must be"));
}

/// A recording of four samples of two measurements each.
fn config() -> RecordConfig {
    RecordConfig {
        settle: SECOND,
        duration: 80_000,
        sps: 50_000,
        label: Some("run".into()),
        mode: MeasurementMode::Ampere,
        ..Default::default()
    }
}

/// A session that samples since `at`.
fn sampling(config: &RecordConfig, at: u128) -> RecordSession {
    let mut s = RecordSession::new(RecordPlan::new(&Floats, config).unwrap());
    for _ in 0..3 {
        s.step(&Floats, 0, false, Event::Done(Ok(())));
    }
    s.step(&Floats, at, false, Event::Woke);
    let (_, action) = s.step(&Floats, at, false, Event::Done(Ok(())));
    assert!(matches!(action, Action::Read));
    s
}

#[test]
fn recording_runs_from_power_on_to_power_off() {
    let config = config();
    let mut s = RecordSession::new(RecordPlan::new(&Floats, &config).unwrap());
    assert!(matches!(s.action(), Action::Open));
    let (_, a) = s.step(&Floats, 5, false, Event::Done(Ok(())));
    assert_eq!(steps(&a), [PortStep::Send(Command::RegulatorSet(3000))]);
    let (_, a) = s.step(&Floats, 6, false, Event::Done(Ok(())));
    assert_eq!(steps(&a), [PortStep::Send(Command::DeviceRunningSet(true))]);
    // Settling, from the moment power is on.
    let (p, a) = s.step(&Floats, 10, false, Event::Done(Ok(())));
    assert!(p.is_none());
    assert!(matches!(a, Action::Wait { pause: 200_000_000 }));
    let (p, a) = s.step(&Floats, 900_000_010, false, Event::Woke);
    assert!(p.is_none());
    assert!(matches!(a, Action::Wait { pause: 100_000_000 }));
    let (p, a) = s.step(&Floats, SECOND + 10, false, Event::Woke);
    assert!(p.is_none());
    assert_eq!(steps(&a), [PortStep::ClearInput, PortStep::Send(Command::AverageStart)]);
    let start = SECOND + 20;
    let (_, a) = s.step(&Floats, start, false, Event::Done(Ok(())));
    assert!(matches!(a, Action::Read));
    // Samples are averages of two, however the stream is cut.
    s.step(&Floats, start + 1, false, data(12, 1, &[1.0, 2.0, 3.0]));
    s.step(&Floats, start + 2, false, data(0, 0, &[]));
    let (p, _) = s.step(&Floats, start + SECOND, false, data(4, 2, &[5.0]));
    assert!(matches!(p, Some(Progress::Sampling { collected: 2, total: 4 })));
    let (p, a) = s.step(&Floats, start + SECOND + 5, false, data(24, 0, &[6.0, 8.0, 0.0, 1.0, 9.0]));
    assert!(p.is_none());
    assert_eq!(steps(&a), [PortStep::Send(Command::AverageStop)]);
    assert_eq!(s.release(), [Command::AverageStop, Command::DeviceRunningSet(false)]);
    let (_, a) = s.step(&Floats, 0, false, Event::Done(Ok(())));
    assert_eq!(steps(&a), [PortStep::Send(Command::DeviceRunningSet(false))]);
    let (_, a) = s.step(&Floats, 0, false, Event::Done(Ok(())));
    assert!(matches!(a, Action::Finish));
    assert!(s.release().is_empty());
    let rec = s.finish(&Floats, &config, 77, "0.1.0".into(), true).unwrap();
    assert_eq!(rec.samples_ua, singles(&[1.5, 4.0, 7.0, 0.5]));
    assert_eq!(rec.meta.missed_samples, 3);
    assert_eq!(rec.meta.created_unix_ms, 77);
    assert_eq!(rec.meta.label.as_deref(), Some("run"));
    assert_eq!((rec.meta.sps, rec.meta.voltage_mv), (50_000, 3000));
    assert_eq!((rec.meta.mode.as_str(), rec.meta.tool_version.as_str()), ("ampere", "0.1.0"));
    assert_eq!((value(rec.meta.settle_secs), value(rec.meta.duration_secs)), (1.0, 0.00008));
    assert!(rec.meta.calibrated);
}

#[test]
fn settling_is_reported_once_a_second() {
    let config = RecordConfig { settle: 10 * SECOND, ..config() };
    let mut s = RecordSession::new(RecordPlan::new(&Floats, &config).unwrap());
    for _ in 0..2 {
        s.step(&Floats, 0, false, Event::Done(Ok(())));
    }
    let mut now = 7;
    let (report, mut action) = s.step(&Floats, now, false, Event::Done(Ok(())));
    assert!(report.is_none());
    let mut left = Vec::new();
    while let Action::Wait { pause } = action {
        assert!(pause <= 200_000_000);
        now += pause;
        let (report, next) = s.step(&Floats, now, false, Event::Woke);
        match report {
            Some(Progress::Settling { remaining }) => left.push(remaining / SECOND),
            Some(other) => panic!("unexpected {other:?}"),
            None => {}
        }
        action = next;
    }
    assert_eq!(left, [9, 8, 7, 6, 5, 4, 3, 2, 1]);
    assert_eq!(now, 10 * SECOND + 7);
    assert_eq!(steps(&action), [PortStep::ClearInput, PortStep::Send(Command::AverageStart)]);
}

#[test]
fn samples_do_not_depend_on_how_the_stream_is_cut() {
    let stream: Vec<f32> = (0..8).map(|i| i as f32 * 0.7).collect();
    let record = |cut: usize| {
        let config = config();
        let mut s = sampling(&config, SECOND);
        for piece in stream.chunks(cut) {
            s.step(&Floats, SECOND, false, data(piece.len() * 4, 0, piece));
        }
        for _ in 0..2 {
            s.step(&Floats, SECOND, false, Event::Done(Ok(())));
        }
        s.finish(&Floats, &config, 0, String::new(), true).unwrap().samples_ua
    };
    for cut in 2..9 {
        assert_eq!(record(cut), record(1));
    }
}

#[test]
fn cancelled_recordings_power_down() {
    let config = config();
    let mut s = sampling(&config, SECOND);
    let (_, a) = s.step(&Floats, SECOND, true, data(4, 0, &[1.0]));
    assert_eq!(steps(&a), [PortStep::Send(Command::AverageStop)]);
    // A failure to stop does not keep power on.
    let (_, a) = s.step(&Floats, SECOND, true, Event::Done(Err(Error::Io("gone".into()))));
    assert_eq!(steps(&a), [PortStep::Send(Command::DeviceRunningSet(false))]);
    let (_, a) = s.step(&Floats, SECOND, true, Event::Done(Ok(())));
    assert!(matches!(a, Action::Finish));
    assert_eq!(s.release(), [Command::AverageStop]);
    let end = s.finish(&Floats, &config, 0, String::new(), true);
    assert!(matches!(end, Err(Error::Cancelled)));

    // While settling, nothing was started.
    let mut s = RecordSession::new(RecordPlan::new(&Floats, &config).unwrap());
    for _ in 0..3 {
        s.step(&Floats, 0, false, Event::Done(Ok(())));
    }
    let (p, a) = s.step(&Floats, 5, true, Event::Woke);
    assert!(p.is_none());
    assert_eq!(steps(&a), [PortStep::Send(Command::DeviceRunningSet(false))]);
    s.step(&Floats, 6, true, Event::Done(Ok(())));
    assert!(matches!(s.finish(&Floats, &config, 0, String::new(), true), Err(Error::Cancelled)));
}

#[test]
fn kept_power_stays_on() {
    let config = RecordConfig { keep_power: true, ..config() };
    let mut s = sampling(&config, SECOND);
    s.step(&Floats, SECOND, false, data(32, 0, &[1.0; 8]));
    let (_, a) = s.step(&Floats, SECOND, false, Event::Done(Ok(())));
    assert!(matches!(a, Action::Finish));
    assert!(s.release().is_empty());
    assert!(s.finish(&Floats, &config, 0, String::new(), true).is_ok());
}

#[test]
fn slow_and_stalled_streams_are_given_up() {
    let config = config();
    let end = |mut s: RecordSession, action: Action| {
        assert_eq!(steps(&action), [PortStep::Send(Command::AverageStop)]);
        for _ in 0..2 {
            s.step(&Floats, 0, false, Event::Done(Ok(())));
        }
        s.finish(&Floats, &config, 0, String::new(), true).unwrap_err()
    };
    // The rate is checked once, two seconds in.
    let long = RecordConfig { duration: 60 * SECOND, ..config.clone() };
    let mut s = sampling(&long, SECOND);
    let (_, a) = s.step(&Floats, 3 * SECOND, false, data(719_999, 0, &[1.0]));
    assert_eq!(end(s, a), Error::StreamRate { bytes_per_sec: 359_999 });
    let mut s = sampling(&long, SECOND);
    let (_, a) = s.step(&Floats, 3 * SECOND, false, data(720_000, 0, &[1.0]));
    assert!(matches!(a, Action::Read));
    let (_, a) = s.step(&Floats, 30 * SECOND, false, data(4, 9, &[1.0]));
    assert!(matches!(a, Action::Read));
    // A quarter more than nominal, and two seconds.
    let (_, a) = s.step(&Floats, 78 * SECOND, false, data(0, 0, &[]));
    assert!(matches!(a, Action::Read));
    let (_, a) = s.step(&Floats, 78 * SECOND + 1, false, data(0, 0, &[]));
    assert_eq!(
        end(s, a),
        Error::Incomplete { got: 1, expected: 3_000_000, raw_bytes: 720_004, missed: 9 }
    );
}

#[test]
fn failures_end_a_recording() {
    let config = config();
    let io = || Error::Io("port".into());
    let mut s = RecordSession::new(RecordPlan::new(&Floats, &config).unwrap());
    let (_, a) = s.step(&Floats, 0, false, Event::Done(Err(io())));
    assert!(matches!(a, Action::Finish));
    assert!(s.release().is_empty());
    assert_eq!(s.finish(&Floats, &config, 0, String::new(), true).unwrap_err(), io());
    // A broken read stops the stream; a failure to power down is told.
    let mut s = sampling(&config, SECOND);
    s.step(&Floats, SECOND, false, Event::ReadFailed(io()));
    s.step(&Floats, SECOND, false, Event::Done(Ok(())));
    let off = Error::Io("off".into());
    s.step(&Floats, SECOND, false, Event::Done(Err(Error::Io("off".into()))));
    assert_eq!(s.release(), [Command::DeviceRunningSet(false)]);
    assert_eq!(s.finish(&Floats, &config, 0, String::new(), true).unwrap_err(), off);
    // An event that answers nothing changes nothing.
    let mut s = sampling(&config, SECOND);
    let (p, a) = s.step(&Floats, SECOND, false, Event::Woke);
    assert!(p.is_none() && matches!(a, Action::Read));
    assert!(s.has_room(usize::MAX, 0));
    s.step(&Floats, SECOND, false, data(1, 1, &[]));
    assert!(!s.has_room(usize::MAX, 0) && !s.has_room(0, usize::MAX));
}

fn live_config() -> LiveConfig {
    LiveConfig {
        sps: 50_000,
        window: 60_000,
        update_interval: 1000,
        ..Default::default()
    }
}

/// A live session that samples since `at`.
fn monitoring(config: &LiveConfig, at: u128) -> LiveSession {
    let mut s = LiveSession::new(LivePlan::new(&Floats, config).unwrap());
    assert!(matches!(s.action(), Action::Open));
    let (_, a) = s.step(&Floats, 0, false, Event::Done(Ok(())));
    assert_eq!(steps(&a), [PortStep::Send(Command::RegulatorSet(3000))]);
    let (_, a) = s.step(&Floats, 0, false, Event::Done(Ok(())));
    assert_eq!(steps(&a), [PortStep::Send(Command::DeviceRunningSet(true))]);
    let (_, a) = s.step(&Floats, 0, false, Event::Done(Ok(())));
    assert_eq!(steps(&a), [PortStep::ClearInput, PortStep::Send(Command::AverageStart)]);
    let (_, a) = s.step(&Floats, at, false, Event::Done(Ok(())));
    assert!(matches!(a, Action::Read));
    s
}

#[test]
fn live_window_moves_with_the_stream() {
    let mut s = monitoring(&live_config(), 100);
    // Too early for an update.
    let (u, _) = s.step(&Floats, 500, false, data(12, 1, &[1.0, 3.0, 10.0]));
    assert!(u.is_none());
    let (u, _) = s.step(&Floats, 1100, false, data(12, 0, &[20.0, 4.0, 4.0]));
    let u: LiveUpdate = u.unwrap();
    assert_eq!(value(u.elapsed_secs), 0.000001);
    assert_eq!(value(u.now_ua), (2.0 + 15.0 + 4.0) / 3.0);
    assert_eq!(value(u.window_secs), 3.0 / 50_000.0);
    assert_eq!(value(u.window_mean_ua), 7.0);
    assert_eq!((value(u.window_min_ua), value(u.window_max_ua)), (2.0, 15.0));
    assert_eq!(value(u.window_p50_ua), 4.0);
    assert_eq!(value(u.total_mean_ua), 7.0);
    assert_eq!(value(u.total_charge_uah), 21.0 / 50_000.0 / 3600.0);
    assert_eq!(u.missed_samples, 1);
    // No data, no update; then the oldest sample leaves the window.
    let (u, _) = s.step(&Floats, 5000, false, data(0, 0, &[]));
    assert!(u.is_none());
    let (u, _) = s.step(&Floats, 6000, false, data(8, 0, &[7.0, 9.0]));
    let u = u.unwrap();
    assert_eq!(value(u.now_ua), 8.0);
    assert_eq!((value(u.window_min_ua), value(u.window_max_ua)), (4.0, 15.0));
    assert_eq!(value(u.window_mean_ua), 9.0);
    assert_eq!(value(u.window_p50_ua), 8.0);
    assert_eq!(value(u.window_p95_ua), 8.0 * (1.0 - 0.8999999999999999) + 15.0 * 0.8999999999999999);
    assert_eq!(value(u.total_mean_ua), 29.0 / 4.0);
    // Cancelling ends the session well.
    let (u, a) = s.step(&Floats, 6001, true, data(8, 2, &[1.0, 1.0]));
    assert!(u.is_none());
    assert_eq!(steps(&a), [PortStep::Send(Command::AverageStop)]);
    let (_, a) = s.step(&Floats, 6002, true, Event::Done(Ok(())));
    assert_eq!(steps(&a), [PortStep::Send(Command::DeviceRunningSet(false))]);
    let (_, a) = s.step(&Floats, 6003, true, Event::Done(Ok(())));
    assert!(matches!(a, Action::Finish));
    assert!(s.release().is_empty());
    let summary = s.finish(&Floats).unwrap();
    assert_eq!((summary.samples, summary.missed_samples), (5, 3));
    assert_eq!(value(summary.duration_secs), 5.0 / 50_000.0);
    assert_eq!(value(summary.mean_ua), 6.0);
    assert_eq!((value(summary.min_ua), value(summary.max_ua)), (1.0, 15.0));
    assert_eq!(value(summary.charge_uah), 30.0 / 50_000.0 / 3600.0);
    assert_eq!(value(summary.avg_power_uw), 18.0);
}

#[test]
fn live_window_does_not_depend_on_how_the_stream_is_cut() {
    let stream: Vec<f32> = (0..11).map(|i| ((i * 7) % 11) as f32 * 0.3).collect();
    let watch = |cut: usize| {
        let mut s = monitoring(&live_config(), 100);
        for piece in stream.chunks(cut) {
            s.step(&Floats, 500, false, data(piece.len() * 4, 0, piece));
        }
        let (u, _) = s.step(&Floats, 2000, false, data(0, 0, &[]));
        let u = u.unwrap();
        (u.now_ua, u.window_mean_ua, u.window_min_ua, u.window_max_ua, u.total_mean_ua)
    };
    for cut in 2..12 {
        assert_eq!(watch(cut), watch(1));
    }
}

#[test]
fn live_currents_are_in_order() {
    let config = LiveConfig { window: 1_000_000, ..live_config() };
    let mut s = monitoring(&config, 100);
    for i in 0..60u128 {
        let xs: Vec<f32> = (0..6).map(|k| ((i * 37 + k * 11) % 23) as f32 * 0.37 - 1.5).collect();
        let (u, _) = s.step(&Floats, 2000 * (i + 1), false, data(24, 0, &xs));
        let u = u.unwrap();
        let scale = value(u.window_min_ua).abs().max(value(u.window_max_ua).abs());
        let order = [u.window_min_ua, u.window_p50_ua, u.window_p95_ua, u.window_p99_ua, u.window_max_ua];
        for pair in order.windows(2) {
            assert!(value(pair[0]) - value(pair[1]) <= 10.0 * scale / 9007199254740992.0);
        }
        let slack = 2.0 * 52.0 * scale / 9007199254740992.0;
        assert!(value(u.window_min_ua) - value(u.window_mean_ua) <= slack);
        assert!(value(u.window_mean_ua) - value(u.window_max_ua) <= slack);
    }
}

#[test]
fn empty_live_session_is_all_zero() {
    let config = LiveConfig { keep_power: true, ..live_config() };
    let mut s = monitoring(&config, 0);
    s.step(&Floats, 1, true, data(0, 0, &[]));
    let (_, a) = s.step(&Floats, 2, true, Event::Done(Ok(())));
    assert!(matches!(a, Action::Finish));
    assert!(s.release().is_empty());
    let summary = s.finish(&Floats).unwrap();
    assert_eq!(summary.samples, 0);
    for x in [
        summary.duration_secs,
        summary.mean_ua,
        summary.min_ua,
        summary.max_ua,
        summary.charge_uah,
        summary.avg_power_uw,
    ] {
        assert_eq!(value(x), 0.0);
    }
}

#[test]
fn live_streams_must_keep_coming() {
    let end = |mut s: LiveSession| {
        for _ in 0..2 {
            s.step(&Floats, 0, false, Event::Done(Ok(())));
        }
        s.finish(&Floats).unwrap_err()
    };
    let mut s = monitoring(&live_config(), 0);
    s.step(&Floats, 2 * SECOND, false, data(800_000, 0, &[1.0]));
    let (_, a) = s.step(&Floats, 5 * SECOND, false, data(0, 0, &[]));
    assert!(matches!(a, Action::Read));
    let (_, a) = s.step(&Floats, 5 * SECOND + 1, false, data(0, 0, &[]));
    assert_eq!(steps(&a), [PortStep::Send(Command::AverageStop)]);
    assert_eq!(
        end(s).message(),
        "device error: measurement stream stalled: no data for 3 s"
    );
    let mut s = monitoring(&live_config(), 0);
    s.step(&Floats, 2 * SECOND, false, data(100, 0, &[1.0]));
    assert_eq!(end(s), Error::StreamRate { bytes_per_sec: 50 });
    let mut s = monitoring(&live_config(), 0);
    s.step(&Floats, 1, false, Event::ReadFailed(Error::Io("port".into())));
    assert_eq!(end(s), Error::Io("port".into()));
    let s = monitoring(&live_config(), 0);
    assert!(s.has_room(4096, 0, 1024) && s.has_room(usize::MAX, usize::MAX, usize::MAX));
}

#[test]
fn live_windows_hold_samples() {
    let short = LiveConfig { window: 4_000_000, sps: 100, ..Default::default() };
    assert_eq!(
        LivePlan::new(&Floats, &short).unwrap_err().message(),
        "invalid configuration: window of 0.004 s holds no samples at 100 sps"
    );
    let plan = LivePlan::new(&Floats, &LiveConfig::default()).unwrap();
    assert_eq!((plan.window_len, plan.chunk), (10_000, 100));
    let bad = LiveConfig { sps: 7, ..Default::default() };
    assert!(LivePlan::new(&Floats, &bad).unwrap_err().message().contains("sps must divide"));
}

fn open_steps(action: &OpenAction) -> Vec<PortStep> {
    match action {
        OpenAction::Perform(request) => request.steps.clone(),
        other => panic!("expected a request, got {other:?}"),
    }
}

#[test]
fn opening_reads_metadata_and_sets_the_mode() {
    let mut o = Opening::new(MeasurementMode::Source);
    assert_eq!(
        open_steps(&o.action()),
        [
            PortStep::Send(Command::AverageStop),
            PortStep::Pause { millis: 100 },
            PortStep::ClearAll,
        ]
    );
    let ask = [PortStep::ClearInput, PortStep::Send(Command::GetMetaData)];
    let a = o.step(0, OpenEvent::Done(Ok(())));
    assert_eq!(open_steps(&a), ask);
    // A first attempt that is late, and a second that is malformed.
    o.step(10, OpenEvent::Done(Ok(())));
    let a = o.step(10 + 3 * SECOND, OpenEvent::Arrived(b"half".to_vec()));
    assert!(matches!(a, OpenAction::Read));
    let a = o.step(11 + 3 * SECOND, OpenEvent::Quiet);
    assert_eq!(open_steps(&a), ask);
    o.step(4 * SECOND, OpenEvent::Done(Ok(())));
    let a = o.step(4 * SECOND, OpenEvent::Arrived(b"junk END\n".to_vec()));
    assert!(matches!(a, OpenAction::Parse));
    let a = o.step(4 * SECOND, OpenEvent::Parsed(Err(Error::Ppk2("bad".into()))));
    assert_eq!(open_steps(&a), ask);
    o.step(5 * SECOND, OpenEvent::Done(Ok(())));
    o.step(5 * SECOND, OpenEvent::Arrived(b"Calibrated: 1\nEN".to_vec()));
    let a = o.step(5 * SECOND, OpenEvent::Arrived(b"D\n".to_vec()));
    assert!(matches!(a, OpenAction::Parse));
    assert_eq!(o.response().as_slice(), b"Calibrated: 1\nEND\n");
    let a = o.step(5 * SECOND, OpenEvent::Parsed(Ok(())));
    assert_eq!(open_steps(&a), [PortStep::Send(Command::SetPowerMode(MeasurementMode::Source))]);
    let a = o.step(5 * SECOND, OpenEvent::Done(Ok(())));
    assert!(matches!(a, OpenAction::Finished));
    assert!(o.finish().unwrap().release().is_empty());
}

#[test]
fn opening_gives_up_after_three_attempts() {
    let mut o = Opening::new(MeasurementMode::Ampere);
    o.step(0, OpenEvent::Done(Ok(())));
    for i in 0..3u128 {
        o.step(10 * i * SECOND, OpenEvent::Done(Ok(())));
        o.step((10 * i + 4) * SECOND, OpenEvent::Quiet);
    }
    assert!(matches!(o.action(), OpenAction::Finished));
    assert_eq!(
        o.finish().unwrap_err().message(),
        "device error: timed out reading device metadata"
    );
    let mut o = Opening::new(MeasurementMode::Ampere);
    o.step(0, OpenEvent::Done(Err(Error::Io("stop".into()))));
    assert_eq!(o.finish().unwrap_err(), Error::Io("stop".into()));
    assert!(!response_complete(&b"END".to_vec()));
    assert!(response_complete(&b"END\n".to_vec()));
}

/// Carries out a request that goes well.
fn carry_out(device: &mut Device, request: Request) {
    device.completed(request.effect, Ok(())).unwrap();
}

#[test]
fn release_undoes_what_was_started() {
    let mut device = Device::new();
    assert!(device.release().is_empty());
    let on = device.set_device_power(true);
    carry_out(&mut device, on);
    let start = device.start_sampling();
    carry_out(&mut device, start);
    assert_eq!(device.release(), [Command::AverageStop, Command::DeviceRunningSet(false)]);
    // A request that failed changes nothing.
    let stop = device.stop_sampling();
    assert_eq!(stop.effect, Effect::Sampling(false));
    assert!(device.completed(stop.effect, Err(Error::Io("x".into()))).is_err());
    device.keep_power_on_drop(true);
    assert_eq!(device.release(), [Command::AverageStop]);
    let stop = device.stop_sampling();
    carry_out(&mut device, stop);
    assert!(device.release().is_empty());
}

#[test]
fn switched_power_outlasts_the_handle() {
    let mut device = Device::new();
    let plan = switch_power(&device, Some(1800));
    device.keep_power_on_drop(plan.keep_power);
    let sent: Vec<PortStep> = plan.requests.iter().flat_map(|r| r.steps.clone()).collect();
    assert_eq!(
        sent,
        [
            PortStep::Send(Command::RegulatorSet(1800)),
            PortStep::Send(Command::DeviceRunningSet(true)),
        ]
    );
    for request in plan.requests {
        carry_out(&mut device, request);
    }
    assert!(device.release().is_empty());
    let plan = switch_power(&Device::new(), None);
    assert!(!plan.keep_power);
    assert_eq!(plan.requests.len(), 1);
    assert_eq!(plan.requests[0].steps, [PortStep::Send(Command::DeviceRunningSet(false))]);
}

#[test]
fn quiet_reads_give_no_bytes() {
    assert_eq!(Device::read_stream(PortRead::Bytes(12)), Ok(12));
    assert_eq!(Device::read_stream(PortRead::TimedOut), Ok(0));
    let broken = PortRead::Failed(Error::Io("x".into()));
    assert_eq!(Device::read_stream(broken), Err(Error::Io("x".into())));
}
