//! Monitoring the current draw live, with a moving average over the most
//! recent samples.

use std::collections::VecDeque;

use vstd::prelude::*;
use vstd::string::*;

use crate::accuracy::{
    all_finite, at_most_nearly, at_most_summed, larger_size, law_mean_lies_between_ends,
    law_percentiles_grow, lemma_ascending_samples_rise, SUMMED_COUNTS,
};
use crate::acquire::{
    acceptable, action_for, averages, count_samples, heard, lemma_averages_of_prefix,
    lemma_averages_split, lemma_chunk_count_grows, lemma_chunk_of_rate, lemma_chunks_after,
    lemma_request_effects, phase_action, rate_of, reports_unacceptable, requested, sample_count,
    seconds, seconds_of, stream_rate, take_chunks, validate, Action, Event, Phase, LOWEST_RATE,
    PPK2_RAW_SPS, RATE_CHECK,
};
use crate::arithmetic::{
    add_up_singles, all_widened, counted, deterministic, product, quotient, sum, total, widened,
    Arithmetic,
};
use crate::device::{
    affected, commanded_all, elapsed, law_release_restores, release_commands, since,
    stepped_through, tracks, Command, Device, DeviceModel, Effect, Hardware, MeasurementMode,
};
use crate::error::Error;
use crate::number::{
    lemma_rank_orders_doubles, Double, Single, HOUR, INFINITY, NEGATIVE_INFINITY, NEGATIVE_ZERO,
    THOUSAND, ZERO,
};
use crate::order::{ascending, greatest_of, higher, least_of, lower, sort_singles};
use crate::rendering::{shown_text, stable, Rendering};
use crate::rounding::rounds_in_order;
use crate::stats::{highest, law_sorted_ends_are_extremes, lowest, percentile, percentile_sorted};
use crate::text::{decimal, push_decimal};

verus! {

/// Configuration for live monitoring.
#[derive(Debug, Clone)]
pub struct LiveConfig {
    /// Serial port of the PPK2. Autodetected when `None`.
    pub port: Option<String>,
    /// Source voltage in millivolt (800..=5000).
    pub voltage_mv: u16,
    /// Measurement mode. In `Source` mode the PPK2 powers the device under
    /// test; in `Ampere` mode it acts as an ammeter in series.
    pub mode: MeasurementMode,
    /// Samples per second underlying the window (1..=100_000). Each sample is
    /// the average of `100_000 / sps` raw ADC samples; the window's min/max
    /// are taken over these samples, so a higher sps resolves shorter spikes.
    pub sps: u32,
    /// Length of the moving-average window, in nanoseconds.
    pub window: u128,
    /// How often an update is given, in nanoseconds.
    pub update_interval: u128,
    /// Keep the device powered after monitoring stops.
    pub keep_power: bool,
}

impl Default for LiveConfig {
    fn default() -> (r: Self)
        ensures
            r.port is None,
            r.voltage_mv == 3000,
            r.mode == MeasurementMode::Source,
            r.sps == 1000,
            r.window == 10_000_000_000,
            r.update_interval == 500_000_000,
            !r.keep_power,
    {
        LiveConfig {
            port: None,
            voltage_mv: 3000,
            mode: MeasurementMode::Source,
            sps: 1000,
            window: 10_000_000_000,
            update_interval: 500_000_000,
            keep_power: false,
        }
    }
}

/// A periodic snapshot of a live session.
#[derive(Debug, Clone, Copy)]
pub struct LiveUpdate {
    /// Seconds since sampling started.
    pub elapsed_secs: Double,
    /// Mean current in µA over the samples since the previous update.
    pub now_ua: Double,
    /// Seconds of data currently in the window (less than the configured
    /// window length until it has filled once).
    pub window_secs: Double,
    /// Moving average in µA over the window.
    pub window_mean_ua: Double,
    /// Minimum sample in µA in the window.
    pub window_min_ua: Double,
    /// Maximum sample in µA in the window.
    pub window_max_ua: Double,
    /// Median (50th percentile) sample in µA in the window.
    pub window_p50_ua: Double,
    /// 95th percentile sample in µA in the window.
    pub window_p95_ua: Double,
    /// 99th percentile sample in µA in the window.
    pub window_p99_ua: Double,
    /// Mean current in µA since sampling started.
    pub total_mean_ua: Double,
    /// Charge in µAh consumed since sampling started.
    pub total_charge_uah: Double,
    /// Raw samples the stream's counter field reported as missed so far.
    pub missed_samples: u64,
}

/// Summary of a whole live session.
#[derive(Debug, Clone, Copy)]
pub struct LiveSummary {
    /// Seconds of data monitored.
    pub duration_secs: Double,
    /// Number of samples (at the configured sps).
    pub samples: u64,
    /// Mean current in µA over the whole session.
    pub mean_ua: Double,
    /// Minimum sample in µA over the whole session.
    pub min_ua: Double,
    /// Maximum sample in µA over the whole session.
    pub max_ua: Double,
    /// Charge in µAh consumed over the whole session.
    pub charge_uah: Double,
    /// Average power in µW over the whole session (at the source voltage).
    pub avg_power_uw: Double,
    /// Raw samples the stream's counter field reported as missed.
    pub missed_samples: u64,
}

/// What a live session is made of, once its configuration was accepted.
#[derive(Debug, Clone, Copy)]
pub struct LivePlan {
    /// Source voltage in millivolt.
    pub voltage_mv: u16,
    /// Samples a second.
    pub sps: u32,
    /// Whether power stays on at the end.
    pub keep_power: bool,
    /// Number of samples that the window holds.
    pub window_len: usize,
    /// Number of measurements that make up one sample.
    pub chunk: usize,
    /// Nanoseconds between updates.
    pub update_interval: u128,
}

/// The text that a window too short for any sample is refused with.
pub open spec fn empty_window_text<F: Arithmetic + Rendering>(f: &F, window: u128, sps: u32) -> Seq<
    char,
> {
    "window of "@ + shown_text(f, seconds_of(f, window)) + " s holds no samples at "@ + decimal(
        sps as nat,
    ) + " sps"@
}

impl LivePlan {
    /// Checks `config` and lays out the session.
    pub fn new<F: Arithmetic + Rendering>(f: &F, config: &LiveConfig) -> (r: Result<Self, Error>)
        ensures
            !acceptable(config.sps, config.voltage_mv) ==> (r matches Err(e)
                && reports_unacceptable(e, config.sps, config.voltage_mv)),
            acceptable(config.sps, config.voltage_mv) ==> match r {
                Ok(plan) => {
                    &&& plan.voltage_mv == config.voltage_mv
                    &&& plan.sps == config.sps
                    &&& plan.keep_power == config.keep_power
                    &&& plan.update_interval == config.update_interval
                    &&& plan.chunk == PPK2_RAW_SPS as int / config.sps as int
                    &&& plan.chunk * config.sps == PPK2_RAW_SPS
                    &&& plan.chunk >= 1
                    &&& plan.window_len >= 1
                    &&& deterministic(f) ==> plan.window_len == sample_count(
                        f,
                        config.window,
                        config.sps,
                    )
                },
                Err(e) => {
                    &&& deterministic(f) ==> sample_count(f, config.window, config.sps) == 0
                    &&& e matches Error::InvalidConfig(m) && (deterministic(f) && stable(f) ==> m@
                        == empty_window_text(f, config.window, config.sps))
                },
            },
    {
        match validate(config.sps, config.voltage_mv) {
            Ok(_) => {},
            Err(e) => {
                return Err(e);
            },
        }
        let window_len: usize = count_samples(f, config.window, config.sps);
        if window_len == 0 {
            let mut m = "window of ".to_owned();
            m.append(f.shown(seconds(f, config.window)).as_str());
            m.append(" s holds no samples at ");
            push_decimal(&mut m, config.sps as u128);
            m.append(" sps");
            return Err(Error::InvalidConfig(m));
        }
        let chunk: usize = (PPK2_RAW_SPS / config.sps) as usize;
        proof {
            lemma_chunk_of_rate(config.sps);
        }
        Ok(
            LivePlan {
                voltage_mv: config.voltage_mv,
                sps: config.sps,
                keep_power: config.keep_power,
                window_len,
                chunk,
                update_interval: config.update_interval,
            },
        )
    }
}

/// Why a live session failed.
#[derive(Debug)]
pub enum LiveFault {
    /// The device or the stream failed.
    Reported(Error),
    /// No data came for too long.
    Stalled,
}

/// Nanoseconds without data after which a stream counts as stalled.
pub const STALL_TIME: u128 = 3_000_000_000;

/// What is kept of the samples of a live session.
#[verifier::ext_equal]
pub struct Tally {
    /// The most recent samples.
    pub window: Seq<Single>,
    /// The sum of all samples.
    pub total_sum: Double,
    /// The lowest of all samples.
    pub total_min: Double,
    /// The highest of all samples.
    pub total_max: Double,
    /// The sum of the samples since the last update.
    pub since_sum: Double,
}

/// The tally before the first sample.
pub open spec fn empty_tally() -> Tally {
    Tally {
        window: Seq::empty(),
        total_sum: Double { bits: ZERO },
        total_min: Double { bits: INFINITY },
        total_max: Double { bits: NEGATIVE_INFINITY },
        since_sum: Double { bits: ZERO },
    }
}

/// `window` with a further sample, of which at most the last `len` are kept.
pub open spec fn slid(window: Seq<Single>, len: nat, sample: Single) -> Seq<Single> {
    if window.len() == len {
        window.drop_first().push(sample)
    } else {
        window.push(sample)
    }
}

/// `t` with a further sample.
pub open spec fn tallied_one<A: Arithmetic>(f: &A, t: Tally, len: nat, sample: Single) -> Tally {
    Tally {
        window: slid(t.window, len, sample),
        total_sum: sum(f, t.total_sum, widened(f, sample)),
        total_min: lower(t.total_min, widened(f, sample)),
        total_max: higher(t.total_max, widened(f, sample)),
        since_sum: sum(f, t.since_sum, widened(f, sample)),
    }
}

/// `t` with further samples, taken in order.
pub open spec fn tallied<A: Arithmetic>(f: &A, t: Tally, len: nat, samples: Seq<Single>) -> Tally
    decreases samples.len(),
{
    if samples.len() == 0 {
        t
    } else {
        tallied_one(f, tallied(f, t, len, samples.drop_last()), len, samples.last())
    }
}

/// A live session: decides, from what the device and the clock gave, what is to
/// be done next, and keeps what was measured.
pub struct LiveSession {
    plan: LivePlan,
    phase: Phase,
    device: Device,
    sampling_start: u128,
    last_update: u128,
    last_data: u128,
    raw_bytes: u64,
    missed: u64,
    rate_checked: bool,
    pending: Vec<Single>,
    total_count: u64,
    since_count: u64,
    window: VecDeque<Single>,
    total_sum: Double,
    total_min: Double,
    total_max: Double,
    since_sum: Double,
    failure: Option<LiveFault>,
}

/// What a [`LiveSession`] has come to.
#[verifier::ext_equal]
pub struct LiveModel {
    /// What is to be monitored.
    pub plan: LivePlan,
    /// What is waited for.
    pub phase: Phase,
    /// What the device was told.
    pub device: DeviceModel,
    /// When the stream was started, in nanoseconds.
    pub sampling_start: u128,
    /// When the last update was given.
    pub last_update: u128,
    /// When data last arrived.
    pub last_data: u128,
    /// Bytes read from the stream.
    pub raw_bytes: u64,
    /// Raw samples missed.
    pub missed: u64,
    /// Whether the stream rate was checked.
    pub rate_checked: bool,
    /// Measurements that do not make up a sample yet.
    pub pending: Seq<Single>,
    /// Number of samples.
    pub total_count: u64,
    /// Number of samples since the last update.
    pub since_count: u64,
    /// What is kept of the samples.
    pub tally: Tally,
    /// Why the session failed.
    pub failure: Option<LiveFault>,
}

impl View for LiveSession {
    type V = LiveModel;

    closed spec fn view(&self) -> LiveModel {
        LiveModel {
            plan: self.plan,
            phase: self.phase,
            device: self.device@,
            sampling_start: self.sampling_start,
            last_update: self.last_update,
            last_data: self.last_data,
            raw_bytes: self.raw_bytes,
            missed: self.missed,
            rate_checked: self.rate_checked,
            pending: self.pending@,
            total_count: self.total_count,
            since_count: self.since_count,
            tally: Tally {
                window: self.window@,
                total_sum: self.total_sum,
                total_min: self.total_min,
                total_max: self.total_max,
                since_sum: self.since_sum,
            },
            failure: self.failure,
        }
    }
}

/// A session before its first event.
pub open spec fn live_start(plan: LivePlan) -> LiveModel {
    LiveModel {
        plan,
        phase: Phase::Opening,
        device: DeviceModel { sampling: false, powered: false, keep_power_on_drop: false },
        sampling_start: 0,
        last_update: 0,
        last_data: 0,
        raw_bytes: 0,
        missed: 0,
        rate_checked: false,
        pending: Seq::empty(),
        total_count: 0,
        since_count: 0,
        tally: empty_tally(),
        failure: None,
    }
}

/// `s` ended before sampling, or while power was disabled.
pub open spec fn live_failed(s: LiveModel, e: Error) -> LiveModel {
    LiveModel { phase: Phase::Finished, failure: Some(LiveFault::Reported(e)), ..s }
}

/// `s` once sampling ended.
pub open spec fn live_stopping(s: LiveModel, failure: Option<LiveFault>) -> LiveModel {
    LiveModel { phase: Phase::Stopping, failure, ..s }
}

/// `s` while sampling: ends on request, on a stream that is too slow, or
/// without data for too long; else reads on.
pub open spec fn live_polling(s: LiveModel, now: u128, cancelled: bool) -> LiveModel {
    let time = since(now, s.sampling_start);
    let due = !s.rate_checked && time >= RATE_CHECK;
    let rate = stream_rate(s.raw_bytes, time);
    let t = LiveModel { rate_checked: s.rate_checked || due, phase: Phase::Sampling, ..s };
    if cancelled {
        live_stopping(s, None)
    } else if due && rate < LOWEST_RATE {
        live_stopping(
            t,
            Some(LiveFault::Reported(Error::StreamRate { bytes_per_sec: rate as u64 })),
        )
    } else if since(now, s.last_data) > STALL_TIME {
        live_stopping(t, Some(LiveFault::Stalled))
    } else {
        t
    }
}

/// The number of samples that new measurements complete.
pub open spec fn live_fresh_count(s: LiveModel, measurements: Seq<Single>) -> nat {
    ((s.pending + measurements).len() as int / s.plan.chunk as int) as nat
}

/// The samples that new measurements complete.
pub open spec fn live_fresh<A: Arithmetic>(f: &A, s: LiveModel, measurements: Seq<Single>) -> Seq<
    Single,
> {
    averages(
        f,
        s.pending + measurements,
        s.plan.chunk as int,
        live_fresh_count(s, measurements),
    )
}

/// `s` after data arrived at `now`, with the tally that the data leads to.
pub open spec fn live_received(
    s: LiveModel,
    now: u128,
    bytes: usize,
    missed: usize,
    measurements: Seq<Single>,
    tally: Tally,
) -> LiveModel {
    if bytes == 0 {
        s
    } else {
        let n = live_fresh_count(s, measurements);
        LiveModel {
            last_data: now,
            raw_bytes: (s.raw_bytes + bytes) as u64,
            missed: (s.missed + missed) as u64,
            pending: (s.pending + measurements).skip(n * s.plan.chunk),
            total_count: (s.total_count + n) as u64,
            since_count: (s.since_count + n) as u64,
            tally,
            ..s
        }
    }
}

/// Whether an update is due.
pub open spec fn update_due(s: LiveModel, now: u128) -> bool {
    s.since_count > 0 && since(now, s.last_update) >= s.plan.update_interval
}

/// `s` after an update at `now`.
pub open spec fn updated(s: LiveModel, now: u128) -> LiveModel {
    LiveModel {
        last_update: now,
        since_count: 0,
        tally: Tally { since_sum: Double { bits: ZERO }, ..s.tally },
        ..s
    }
}

/// What follows `s` when `event` happens at `now`, and whether an update is
/// given; `tally` is what the samples that the event completes lead to. An
/// event that does not answer the current action changes nothing.
pub open spec fn live_next(
    s: LiveModel,
    now: u128,
    cancelled: bool,
    event: Event,
    tally: Tally,
) -> (LiveModel, bool) {
    match (s.phase, event) {
        (Phase::Opening, Event::Done(Ok(_))) => (
            LiveModel {
                phase: Phase::SettingVoltage,
                device: DeviceModel { keep_power_on_drop: s.plan.keep_power, ..s.device },
                ..s
            },
            false,
        ),
        (Phase::SettingVoltage, Event::Done(Ok(_))) => (
            LiveModel { phase: Phase::PoweringOn, ..s },
            false,
        ),
        (Phase::PoweringOn, Event::Done(Ok(_))) => (
            LiveModel {
                phase: Phase::Starting,
                device: affected(s.device, Effect::Power(true)),
                ..s
            },
            false,
        ),
        (Phase::Starting, Event::Done(Ok(_))) => (
            live_polling(
                LiveModel {
                    device: affected(s.device, Effect::Sampling(true)),
                    sampling_start: now,
                    last_update: now,
                    last_data: now,
                    ..s
                },
                now,
                cancelled,
            ),
            false,
        ),
        (Phase::Opening, Event::Done(Err(e)))
        | (Phase::SettingVoltage, Event::Done(Err(e)))
        | (Phase::PoweringOn, Event::Done(Err(e)))
        | (Phase::Starting, Event::Done(Err(e)))
        | (Phase::PoweringOff, Event::Done(Err(e))) => (live_failed(s, e), false),
        (Phase::Sampling, Event::Data { bytes, missed, measurements }) => {
            let t = live_received(s, now, bytes, missed, measurements@, tally);
            if update_due(t, now) {
                (live_polling(updated(t, now), now, cancelled), true)
            } else {
                (live_polling(t, now, cancelled), false)
            }
        },
        (Phase::Sampling, Event::ReadFailed(e)) => (
            live_stopping(s, Some(LiveFault::Reported(e))),
            false,
        ),
        (Phase::Stopping, Event::Done(outcome)) => (
            LiveModel {
                phase: if s.plan.keep_power {
                    Phase::Finished
                } else {
                    Phase::PoweringOff
                },
                device: if outcome is Ok {
                    affected(s.device, Effect::Sampling(false))
                } else {
                    s.device
                },
                ..s
            },
            false,
        ),
        (Phase::PoweringOff, Event::Done(Ok(_))) => (
            LiveModel {
                phase: Phase::Finished,
                device: affected(s.device, Effect::Power(false)),
                ..s
            },
            false,
        ),
        _ => (s, false),
    }
}

/// The tally that the samples completed by `event` lead to.
pub open spec fn tally_after<A: Arithmetic>(f: &A, s: LiveModel, event: Event) -> Tally {
    match event {
        Event::Data { measurements, .. } => tallied(
            f,
            s.tally,
            s.plan.window_len as nat,
            live_fresh(f, s, measurements@),
        ),
        _ => s.tally,
    }
}

/// The update that a session gives at `now`.
pub open spec fn update_of<A: Arithmetic>(f: &A, s: LiveModel, now: u128) -> LiveUpdate {
    let sorted = ascending(s.tally.window);
    let rate = counted(f, s.plan.sps as int);
    LiveUpdate {
        elapsed_secs: seconds_of(f, since(now, s.sampling_start)),
        now_ua: quotient(f, s.tally.since_sum, counted(f, s.since_count as int)),
        window_secs: quotient(f, counted(f, s.tally.window.len() as int), rate),
        window_mean_ua: quotient(
            f,
            total(f, Double { bits: NEGATIVE_ZERO }, all_widened(f, sorted)),
            counted(f, sorted.len() as int),
        ),
        window_min_ua: widened(f, sorted[0]),
        window_max_ua: widened(f, sorted.last()),
        window_p50_ua: percentile(f, sorted, Double { bits: MEDIAN }),
        window_p95_ua: percentile(f, sorted, Double { bits: NINETY_FIFTH }),
        window_p99_ua: percentile(f, sorted, Double { bits: NINETY_NINTH }),
        total_mean_ua: quotient(f, s.tally.total_sum, counted(f, s.total_count as int)),
        total_charge_uah: quotient(f, quotient(f, s.tally.total_sum, rate), Double { bits: HOUR }),
        missed_samples: s.missed,
    }
}

/// The percentile 50 as the bit pattern of a double.
pub const MEDIAN: u64 = 0x4049_0000_0000_0000;

/// The percentile 95 as the bit pattern of a double.
pub const NINETY_FIFTH: u64 = 0x4057_c000_0000_0000;

/// The percentile 99 as the bit pattern of a double.
pub const NINETY_NINTH: u64 = 0x4058_c000_0000_0000;

/// The state and the update that follow `s` when `event` happens at `now`.
pub open spec fn live_result<A: Arithmetic>(
    f: &A,
    s: LiveModel,
    now: u128,
    cancelled: bool,
    event: Event,
) -> (LiveModel, Option<LiveUpdate>) {
    let tally = tally_after(f, s, event);
    let (t, due) = live_next(s, now, cancelled, event, tally);
    (
        t,
        match event {
            Event::Data { bytes, missed, measurements } if due => Some(
                update_of(f, live_received(s, now, bytes, missed, measurements@, tally), now),
            ),
            _ => None,
        },
    )
}

/// The summary of a session.
pub open spec fn summary_of<A: Arithmetic>(f: &A, s: LiveModel) -> LiveSummary {
    let rate = counted(f, s.plan.sps as int);
    let count = counted(f, s.total_count as int);
    let mean = quotient(f, s.tally.total_sum, count);
    let zero = Double { bits: ZERO };
    let some = s.total_count > 0;
    LiveSummary {
        duration_secs: quotient(f, count, rate),
        samples: s.total_count,
        mean_ua: if some {
            mean
        } else {
            zero
        },
        min_ua: if some {
            s.tally.total_min
        } else {
            zero
        },
        max_ua: if some {
            s.tally.total_max
        } else {
            zero
        },
        charge_uah: quotient(f, quotient(f, s.tally.total_sum, rate), Double { bits: HOUR }),
        avg_power_uw: if some {
            quotient(
                f,
                product(f, mean, counted(f, s.plan.voltage_mv as int)),
                Double { bits: THOUSAND },
            )
        } else {
            zero
        },
        missed_samples: s.missed,
    }
}

/// What holds of every live session.
pub open spec fn live_wf(s: LiveModel) -> bool {
    &&& s.plan.chunk >= 1
    &&& s.plan.window_len >= 1
    &&& s.tally.window.len() == if s.total_count <= s.plan.window_len {
        s.total_count as int
    } else {
        s.plan.window_len as int
    }
    &&& s.since_count <= s.total_count
    &&& match s.phase {
        Phase::Stopping | Phase::PoweringOff | Phase::Finished => true,
        _ => s.failure is None,
    }
    &&& s.phase != Phase::Settling
}

/// Whether the counters of a session have room for the event.
pub open spec fn live_room(s: LiveModel, event: Event) -> bool {
    event matches Event::Data { bytes, missed, measurements } ==> {
        &&& s.raw_bytes + bytes <= u64::MAX
        &&& s.missed + missed <= u64::MAX
        &&& s.total_count + live_fresh_count(s, measurements@) <= u64::MAX
    }
}

impl LiveSession {
    /// The state is one that a live session can come to.
    pub closed spec fn wf(&self) -> bool {
        live_wf(self@)
    }

    /// Starts a session; the first action is [`LiveSession::action`].
    pub fn new(plan: LivePlan) -> (r: Self)
        requires
            plan.chunk >= 1,
            plan.window_len >= 1,
        ensures
            r.wf(),
            r@ == live_start(plan),
    {
        let r = LiveSession {
            plan,
            phase: Phase::Opening,
            device: Device::new(),
            sampling_start: 0,
            last_update: 0,
            last_data: 0,
            raw_bytes: 0,
            missed: 0,
            rate_checked: false,
            pending: Vec::new(),
            total_count: 0,
            since_count: 0,
            window: VecDeque::new(),
            total_sum: Double { bits: ZERO },
            total_min: Double { bits: INFINITY },
            total_max: Double { bits: NEGATIVE_INFINITY },
            since_sum: Double { bits: ZERO },
            failure: None,
        };
        assert(r@ =~= live_start(plan));
        r
    }

    /// What is to be done next.
    pub fn action(&self) -> (r: Action)
        ensures
            phase_action(self@.phase, self@.plan.voltage_mv, 0, r),
    {
        action_for(self.phase, self.plan.voltage_mv, 0, &self.device)
    }

    /// Whether the counters have room for an event with so many bytes, missed
    /// samples and measurements.
    pub fn has_room(&self, bytes: usize, missed: usize, measurements: usize) -> (r: bool)
        requires
            self.wf(),
        ensures
            r == (self@.raw_bytes + bytes <= u64::MAX && self@.missed + missed <= u64::MAX
                && self@.total_count + (self@.pending.len() + measurements) as int
                / self@.plan.chunk as int <= u64::MAX),
    {
        let n: u128 = (self.pending.len() as u128 + measurements as u128) / self.plan.chunk as u128;
        bytes as u64 <= u64::MAX - self.raw_bytes && missed as u64 <= u64::MAX - self.missed && n <= (
        u64::MAX - self.total_count) as u128
    }

    fn fail(&mut self, e: Error)
        ensures
            final(self)@ == live_failed(old(self)@, e),
    {
        self.failure = Some(LiveFault::Reported(e));
        self.phase = Phase::Finished;
    }

    fn poll(&mut self, now: u128, cancelled: bool)
        requires
            old(self)@.failure is None,
        ensures
            final(self)@ == live_polling(old(self)@, now, cancelled),
    {
        if cancelled {
            self.phase = Phase::Stopping;
            return ;
        }
        let time: u128 = elapsed(now, self.sampling_start);
        if !self.rate_checked && time >= RATE_CHECK {
            self.rate_checked = true;
            let rate: u64 = rate_of(self.raw_bytes, time);
            if (rate as u128) < LOWEST_RATE {
                self.failure = Some(LiveFault::Reported(Error::StreamRate { bytes_per_sec: rate }));
                self.phase = Phase::Stopping;
                return ;
            }
        }
        if elapsed(now, self.last_data) > STALL_TIME {
            self.failure = Some(LiveFault::Stalled);
            self.phase = Phase::Stopping;
            return ;
        }
        self.phase = Phase::Sampling;
    }

    fn tally_one<A: Arithmetic>(&mut self, f: &A, sample: Single)
        requires
            old(self)@.plan.window_len >= 1,
            old(self)@.tally.window.len() <= old(self)@.plan.window_len,
        ensures
            final(self)@ == (LiveModel { tally: final(self)@.tally, ..old(self)@ }),
            final(self)@.tally.window == slid(
                old(self)@.tally.window,
                old(self)@.plan.window_len as nat,
                sample,
            ),
            deterministic(f) ==> final(self)@.tally == tallied_one(
                f,
                old(self)@.tally,
                old(self)@.plan.window_len as nat,
                sample,
            ),
    {
        let ghost before = self.window@;
        if self.window.len() == self.plan.window_len {
            let _ = self.window.pop_front();
            assert(self.window@ =~= before.drop_first());
        }
        self.window.push_back(sample);
        let wide = f.widen(sample);
        self.total_sum = f.plus(self.total_sum, wide);
        if wide.is_below(self.total_min) {
            self.total_min = wide;
        }
        if self.total_max.is_below(wide) {
            self.total_max = wide;
        }
        self.since_sum = f.plus(self.since_sum, wide);
    }

    fn receive<A: Arithmetic>(
        &mut self,
        f: &A,
        now: u128,
        bytes: usize,
        missed: usize,
        measurements: &Vec<Single>,
    )
        requires
            live_wf(old(self)@),
            bytes != 0,
            old(self)@.raw_bytes + bytes <= u64::MAX,
            old(self)@.missed + missed <= u64::MAX,
            old(self)@.total_count + live_fresh_count(old(self)@, measurements@) <= u64::MAX,
        ensures
            live_wf(final(self)@),
            final(self)@ == live_received(
                old(self)@,
                now,
                bytes,
                missed,
                measurements@,
                final(self)@.tally,
            ),
            deterministic(f) ==> final(self)@.tally == tallied(
                f,
                old(self)@.tally,
                old(self)@.plan.window_len as nat,
                live_fresh(f, old(self)@, measurements@),
            ),
    {
        let ghost s = self@;
        self.last_data = now;
        self.raw_bytes = self.raw_bytes + bytes as u64;
        self.missed = self.missed + missed as u64;
        let mut fresh: Vec<Single> = Vec::new();
        let n: usize = take_chunks(
            f,
            &mut fresh,
            &mut self.pending,
            measurements,
            self.plan.chunk,
            usize::MAX,
        );
        proof {
            let stream = s.pending + measurements@;
            assert(stream.len() as int / s.plan.chunk as int <= stream.len()) by (nonlinear_arith)
                requires
                    s.plan.chunk >= 1,
            ;
            assert(n == live_fresh_count(s, measurements@));
            if deterministic(f) {
                assert(fresh@ =~= live_fresh(f, s, measurements@));
            }
            assert(fresh@.take(0) =~= Seq::<Single>::empty());
        }
        let mut i: usize = 0;
        let ghost t = self@;
        while i < n
            invariant
                i <= n,
                n == fresh@.len(),
                self@ == (LiveModel { tally: self@.tally, ..t }),
                t.plan.window_len >= 1,
                t.total_count + n <= u64::MAX,
                self@.tally.window.len() == if t.total_count + i <= t.plan.window_len {
                    t.total_count + i
                } else {
                    t.plan.window_len as int
                },
                deterministic(f) ==> self@.tally == tallied(
                    f,
                    t.tally,
                    t.plan.window_len as nat,
                    fresh@.take(i as int),
                ),
            decreases n - i,
        {
            assert(fresh@.take(i + 1).drop_last() =~= fresh@.take(i as int));
            self.tally_one(f, fresh[i]);
            i += 1;
        }
        assert(fresh@.take(n as int) =~= fresh@);
        self.total_count = self.total_count + n as u64;
        self.since_count = self.since_count + n as u64;
    }

    fn snapshot<A: Arithmetic>(&self, f: &A, now: u128) -> (r: LiveUpdate)
        requires
            self@.tally.window.len() >= 1,
        ensures
            deterministic(f) ==> r == update_of(f, self@, now),
    {
        let mut window: Vec<Single> = Vec::new();
        let mut i: usize = 0;
        while i < self.window.len()
            invariant
                i <= self.window@.len(),
                window@ == self.window@.take(i as int),
            decreases self.window@.len() - i,
        {
            window.push(self.window[i]);
            i += 1;
            assert(window@ =~= self.window@.take(i as int));
        }
        assert(window@ =~= self.window@);
        let sorted = sort_singles(window.as_slice());
        let n: usize = sorted.len();
        let rate = f.of_count(self.plan.sps as u128);
        LiveUpdate {
            elapsed_secs: seconds(f, elapsed(now, self.sampling_start)),
            now_ua: f.over(self.since_sum, f.of_count(self.since_count as u128)),
            window_secs: f.over(f.of_count(n as u128), rate),
            window_mean_ua: f.over(
                add_up_singles(f, Double { bits: NEGATIVE_ZERO }, sorted.as_slice()),
                f.of_count(n as u128),
            ),
            window_min_ua: f.widen(sorted[0]),
            window_max_ua: f.widen(sorted[n - 1]),
            window_p50_ua: percentile_sorted(f, sorted.as_slice(), Double { bits: MEDIAN }),
            window_p95_ua: percentile_sorted(f, sorted.as_slice(), Double { bits: NINETY_FIFTH }),
            window_p99_ua: percentile_sorted(f, sorted.as_slice(), Double { bits: NINETY_NINTH }),
            total_mean_ua: f.over(self.total_sum, f.of_count(self.total_count as u128)),
            total_charge_uah: f.over(f.over(self.total_sum, rate), Double { bits: HOUR }),
            missed_samples: self.missed,
        }
    }

    /// Takes data that arrived at `now`, gives an update where one is due, and
    /// decides whether to read on.
    fn take_data<A: Arithmetic>(
        &mut self,
        f: &A,
        now: u128,
        cancelled: bool,
        bytes: usize,
        missed: usize,
        measurements: &Vec<Single>,
    ) -> (r: Option<LiveUpdate>)
        requires
            live_wf(old(self)@),
            old(self)@.phase == Phase::Sampling,
            old(self)@.raw_bytes + bytes <= u64::MAX,
            old(self)@.missed + missed <= u64::MAX,
            old(self)@.total_count + live_fresh_count(old(self)@, measurements@) <= u64::MAX,
        ensures
            live_wf(final(self)@),
            ({
                let s = old(self)@;
                let heard = live_received(
                    s,
                    now,
                    bytes,
                    missed,
                    measurements@,
                    final(self)@.tally,
                );
                &&& r is Some == update_due(heard, now)
                &&& final(self)@ == live_polling(
                    if update_due(heard, now) {
                        updated(heard, now)
                    } else {
                        heard
                    },
                    now,
                    cancelled,
                )
            }),
            deterministic(f) ==> ({
                let s = old(self)@;
                let heard = live_received(
                    s,
                    now,
                    bytes,
                    missed,
                    measurements@,
                    tallied(f, s.tally, s.plan.window_len as nat, live_fresh(f, s, measurements@)),
                );
                &&& r == if update_due(heard, now) {
                    Some(update_of(f, heard, now))
                } else {
                    None
                }
                &&& final(self)@ == live_polling(
                    if update_due(heard, now) {
                        updated(heard, now)
                    } else {
                        heard
                    },
                    now,
                    cancelled,
                )
            }),
    {
        if bytes != 0 {
            self.receive(f, now, bytes, missed, measurements);
        }
        let mut update: Option<LiveUpdate> = None;
        if self.since_count > 0 && elapsed(now, self.last_update) >= self.plan.update_interval {
            update = Some(self.snapshot(f, now));
            self.last_update = now;
            self.since_count = 0;
            self.since_sum = Double { bits: ZERO };
        }
        self.poll(now, cancelled);
        update
    }

    /// Takes an event that happened at `now`, in nanoseconds, and whether the
    /// session was cancelled by then. Gives an update where one is due, and what
    /// is to be done next. An event that does not answer the current action
    /// changes nothing.
    #[verifier::spinoff_prover]
    #[verifier::rlimit(30)]
    pub fn step<A: Arithmetic>(
        &mut self,
        f: &A,
        now: u128,
        cancelled: bool,
        event: Event,
    ) -> (r: (Option<LiveUpdate>, Action))
        requires
            old(self).wf(),
            live_room(old(self)@, event),
        ensures
            final(self).wf(),
            phase_action(final(self)@.phase, final(self)@.plan.voltage_mv, 0, r.1),
            (final(self)@, r.0 is Some) == live_next(
                old(self)@,
                now,
                cancelled,
                event,
                final(self)@.tally,
            ),
            deterministic(f) ==> (final(self)@, r.0) == live_result(
                f,
                old(self)@,
                now,
                cancelled,
                event,
            ),
    {
        let mut update: Option<LiveUpdate> = None;
        match self.phase {
            Phase::Opening => match event {
                Event::Done(Ok(_)) => {
                    self.device.keep_power_on_drop(self.plan.keep_power);
                    self.phase = Phase::SettingVoltage;
                },
                Event::Done(Err(e)) => {
                    self.fail(e);
                },
                _ => {},
            },
            Phase::SettingVoltage => match event {
                Event::Done(Ok(_)) => {
                    self.phase = Phase::PoweringOn;
                },
                Event::Done(Err(e)) => {
                    self.fail(e);
                },
                _ => {},
            },
            Phase::PoweringOn => match event {
                Event::Done(Ok(_)) => {
                    let _ = self.device.completed(Effect::Power(true), Ok(()));
                    self.phase = Phase::Starting;
                },
                Event::Done(Err(e)) => {
                    self.fail(e);
                },
                _ => {},
            },
            Phase::Settling => {},
            Phase::Starting => match event {
                Event::Done(Ok(_)) => {
                    let _ = self.device.completed(Effect::Sampling(true), Ok(()));
                    self.sampling_start = now;
                    self.last_update = now;
                    self.last_data = now;
                    self.poll(now, cancelled);
                },
                Event::Done(Err(e)) => {
                    self.fail(e);
                },
                _ => {},
            },
            Phase::Sampling => match event {
                Event::Data { bytes, missed, measurements } => {
                    update = self.take_data(f, now, cancelled, bytes, missed, &measurements);
                },
                Event::ReadFailed(e) => {
                    self.failure = Some(LiveFault::Reported(e));
                    self.phase = Phase::Stopping;
                },
                _ => {},
            },
            Phase::Stopping => match event {
                Event::Done(outcome) => {
                    let _ = self.device.completed(Effect::Sampling(false), outcome);
                    self.phase = if self.plan.keep_power {
                        Phase::Finished
                    } else {
                        Phase::PoweringOff
                    };
                },
                _ => {},
            },
            Phase::PoweringOff => match event {
                Event::Done(Ok(_)) => {
                    let _ = self.device.completed(Effect::Power(false), Ok(()));
                    self.phase = Phase::Finished;
                },
                Event::Done(Err(e)) => {
                    self.fail(e);
                },
                _ => {},
            },
            Phase::Finished => {},
        }
        (update, self.action())
    }

    /// The commands that put the device back into its initial state, to be sent
    /// when the session ends in any way.
    pub fn release(&self) -> (r: Vec<Command>)
        ensures
            r@ == release_commands(self@.device),
    {
        self.device.release()
    }

    /// The summary of the session, or why it failed; to be taken when the
    /// session is over.
    pub fn finish<A: Arithmetic>(self, f: &A) -> (r: Result<LiveSummary, Error>)
        requires
            self@.phase == Phase::Finished,
        ensures
            match self@.failure {
                Some(LiveFault::Reported(e)) => r == Err::<LiveSummary, Error>(e),
                Some(LiveFault::Stalled) => r matches Err(Error::Device(m)) && m@
                    == "measurement stream stalled: no data for 3 s"@,
                None => r matches Ok(summary) && {
                    &&& summary.samples == self@.total_count
                    &&& summary.missed_samples == self@.missed
                    &&& deterministic(f) ==> summary == summary_of(f, self@)
                },
            },
    {
        match self.failure {
            Some(LiveFault::Reported(e)) => {
                return Err(e);
            },
            Some(LiveFault::Stalled) => {
                return Err(Error::Device("measurement stream stalled: no data for 3 s".to_owned()));
            },
            None => {},
        }
        let rate = f.of_count(self.plan.sps as u128);
        let count = f.of_count(self.total_count as u128);
        let duration_secs = f.over(count, rate);
        let charge_uah = f.over(f.over(self.total_sum, rate), Double { bits: HOUR });
        if self.total_count == 0 {
            let zero = Double { bits: ZERO };
            return Ok(
                LiveSummary {
                    duration_secs,
                    samples: 0,
                    mean_ua: zero,
                    min_ua: zero,
                    max_ua: zero,
                    charge_uah,
                    avg_power_uw: zero,
                    missed_samples: self.missed,
                },
            );
        }
        let mean_ua = f.over(self.total_sum, count);
        Ok(
            LiveSummary {
                duration_secs,
                samples: self.total_count,
                mean_ua,
                min_ua: self.total_min,
                max_ua: self.total_max,
                charge_uah,
                avg_power_uw: f.over(
                    f.times(mean_ua, f.of_count(self.plan.voltage_mv as u128)),
                    Double { bits: THOUSAND },
                ),
                missed_samples: self.missed,
            },
        )
    }
}

/// The last `len` samples, or all where there are fewer.
pub open spec fn recent(samples: Seq<Single>, len: nat) -> Seq<Single> {
    if samples.len() <= len {
        samples
    } else {
        samples.skip(samples.len() - len)
    }
}

/// The tally of all `samples`, the last `fresh` of which came since the last
/// update.
pub open spec fn tally_of<A: Arithmetic>(
    f: &A,
    len: nat,
    samples: Seq<Single>,
    fresh: int,
) -> Tally {
    Tally {
        window: recent(samples, len),
        total_sum: total(f, Double { bits: ZERO }, all_widened(f, samples)),
        total_min: least_of(all_widened(f, samples)),
        total_max: greatest_of(all_widened(f, samples)),
        since_sum: total(
            f,
            Double { bits: ZERO },
            all_widened(f, samples.skip(samples.len() - fresh)),
        ),
    }
}

/// Tallying further samples gives the tally of all.
proof fn lemma_tally_continues<A: Arithmetic>(
    f: &A,
    len: nat,
    before: Seq<Single>,
    fresh: int,
    more: Seq<Single>,
)
    requires
        len >= 1,
        0 <= fresh <= before.len(),
    ensures
        tallied(f, tally_of(f, len, before, fresh), len, more) == tally_of(
            f,
            len,
            before + more,
            fresh + more.len(),
        ),
    decreases more.len(),
{
    if more.len() == 0 {
        assert(before + more =~= before);
    } else {
        let front = more.drop_last();
        lemma_tally_continues(f, len, before, fresh, front);
        let old_all = before + front;
        let all = before + more;
        assert(all.drop_last() =~= old_all);
        assert(all_widened(f, all).drop_last() =~= all_widened(f, old_all));
        let part = all.skip(all.len() - (fresh + more.len()));
        let old_part = old_all.skip(old_all.len() - (fresh + front.len()));
        assert(all_widened(f, part).drop_last() =~= all_widened(f, old_part));
        assert(slid(recent(old_all, len), len, more.last()) =~= recent(all, len));
    }
}

/// Whether what a session keeps is what the stream `history` gives: the tally
/// of the averages of its consecutive chunks, and the measurements that follow
/// them.
pub open spec fn monitors<A: Arithmetic>(f: &A, s: LiveModel, history: Seq<Single>) -> bool {
    let n = history.len() as int / s.plan.chunk as int;
    let samples = averages(f, history, s.plan.chunk as int, n as nat);
    &&& s.total_count == n
    &&& s.since_count <= n
    &&& s.pending == history.skip(n * s.plan.chunk)
    &&& s.tally == tally_of(f, s.plan.window_len as nat, samples, s.since_count as int)
}

/// However the measurement stream is cut into reads, and whenever updates are
/// given, the window holds the most recent samples, and the sums and extremes
/// are those of all samples since sampling started.
pub proof fn law_window_follows_the_stream<A: Arithmetic>(
    f: &A,
    s: LiveModel,
    history: Seq<Single>,
    now: u128,
    bytes: usize,
    missed: usize,
    measurements: Seq<Single>,
)
    requires
        s.plan.chunk >= 1,
        s.plan.window_len >= 1,
        monitors(f, s, history),
        bytes != 0,
        s.total_count + live_fresh_count(s, measurements) <= u64::MAX,
    ensures
        monitors(
            f,
            live_received(
                s,
                now,
                bytes,
                missed,
                measurements,
                tallied(f, s.tally, s.plan.window_len as nat, live_fresh(f, s, measurements)),
            ),
            history + measurements,
        ),
        monitors(f, updated(s, now), history),
{
    let c = s.plan.chunk as int;
    let len = s.plan.window_len as nat;
    let whole = history + measurements;
    let stream = s.pending + measurements;
    lemma_chunk_count_grows(history.len() as int, whole.len() as int, c);
    let n = history.len() as int / c;
    lemma_chunks_after(history.len() as int, c, n);
    lemma_chunks_after(whole.len() as int, c, n);
    assert(stream =~= whole.skip(n * c));
    let m = live_fresh_count(s, measurements) as int;
    let k = whole.len() as int / c;
    assert(k == n + m);
    lemma_chunks_after(whole.len() as int, c, k);
    assert(k * c == n * c + m * c) by (nonlinear_arith)
        requires
            k == n + m,
    ;
    assert(0 <= m * c) by (nonlinear_arith)
        requires
            m >= 0,
            c >= 1,
    ;
    lemma_averages_split(f, whole, c, n as nat, m as nat);
    lemma_averages_of_prefix(f, history, measurements, c, n as nat);
    assert(stream.skip(m * c) =~= whole.skip(k * c));
    let samples = averages(f, history, c, n as nat);
    lemma_tally_continues(f, len, samples, s.since_count as int, live_fresh(f, s, measurements));
    assert(all_widened(f, samples.skip(samples.len() as int)) =~= Seq::<Double>::empty());
}

/// Monitoring goes on only while it was not cancelled and data keeps coming.
pub proof fn law_monitoring_needs_data(
    s: LiveModel,
    now: u128,
    cancelled: bool,
    event: Event,
    tally: Tally,
)
    requires
        s.phase == Phase::Sampling,
        event is Data,
        live_next(s, now, cancelled, event, tally).0.phase == Phase::Sampling,
    ensures
        !cancelled,
        since(now, live_next(s, now, cancelled, event, tally).0.last_data) <= STALL_TIME,
{
}

/// Updates come no more often than the update interval, each with at least one
/// sample since the one before.
pub proof fn law_updates_are_spaced(
    s: LiveModel,
    now: u128,
    cancelled: bool,
    event: Event,
    tally: Tally,
)
    requires
        live_next(s, now, cancelled, event, tally).1,
    ensures
        since(now, s.last_update) >= s.plan.update_interval,
        live_next(s, now, cancelled, event, tally).0.last_update == now,
        live_next(s, now, cancelled, event, tally).0.since_count == 0,
        event matches Event::Data { bytes, missed, measurements } && live_received(
            s,
            now,
            bytes,
            missed,
            measurements@,
            tally,
        ).since_count > 0,
{
}

/// The ends of an update's window are its lowest and highest samples, where all
/// are numbers.
pub proof fn law_update_shows_window_extremes<A: Arithmetic>(f: &A, s: LiveModel, now: u128)
    requires
        s.tally.window.len() > 0,
        forall|i: int| 0 <= i < s.tally.window.len() ==> !(#[trigger] s.tally.window[i]).nan(),
    ensures
        exists|low: Single|
            low.value() == lowest(s.tally.window).value() && update_of(f, s, now).window_min_ua
                == #[trigger] widened(f, low),
        exists|high: Single|
            high.value() == highest(s.tally.window).value() && update_of(f, s, now).window_max_ua
                == #[trigger] widened(f, high),
{
    law_sorted_ends_are_extremes(s.tally.window);
    let sorted = ascending(s.tally.window);
    assert(update_of(f, s, now).window_min_ua == widened(f, sorted[0]));
    assert(update_of(f, s, now).window_max_ua == widened(f, sorted.last()));
}

/// But for rounding, the currents of an update are in order: the lowest of the
/// window, its median, the higher percentiles, the highest; and its mean lies
/// between the lowest and the highest.
pub proof fn law_update_is_in_order<A: Arithmetic>(f: &A, s: LiveModel, now: u128)
    requires
        rounds_in_order(f),
        1 <= s.tally.window.len() <= SUMMED_COUNTS,
        s.tally.window.len() <= usize::MAX,
        all_finite(s.tally.window),
    ensures
        ({
            let u = update_of(f, s, now);
            let n = s.tally.window.len() as int;
            let scale = larger_size(u.window_min_ua, u.window_max_ua);
            &&& at_most_nearly(u.window_min_ua, u.window_p50_ua, scale)
            &&& at_most_nearly(u.window_p50_ua, u.window_p95_ua, scale)
            &&& at_most_nearly(u.window_p95_ua, u.window_p99_ua, scale)
            &&& at_most_nearly(u.window_p99_ua, u.window_max_ua, scale)
            &&& at_most_summed(u.window_min_ua, u.window_mean_ua, n, scale)
            &&& at_most_summed(u.window_mean_ua, u.window_max_ua, n, scale)
        }),
{
    let sorted = ascending(s.tally.window);
    let p50 = Double { bits: MEDIAN };
    let p95 = Double { bits: NINETY_FIFTH };
    let p99 = Double { bits: NINETY_NINTH };
    let start = Double { bits: NEGATIVE_ZERO };
    assert(!p50.nan() && !p95.nan() && !p99.nan());
    assert(start.finite() && start.magnitude() == 0);
    lemma_rank_orders_doubles(p50, p95);
    lemma_rank_orders_doubles(p95, p99);
    lemma_ascending_samples_rise(s.tally.window);
    law_percentiles_grow(f, sorted, p50, p95);
    law_percentiles_grow(f, sorted, p95, p99);
    law_mean_lies_between_ends(f, start, sorted);
}

/// Cancellation is the normal way to end a session: the stream is stopped,
/// power is turned off unless it is to stay on, and the session ends without a
/// failure.
pub proof fn law_cancelled_session_ends_well(
    s: LiveModel,
    now: u128,
    event: Event,
    tally: Tally,
    later: u128,
    stopped: Result<(), Error>,
    off: u128,
)
    requires
        s.phase == Phase::Sampling,
        event is Data,
    ensures
        ({
            let a = live_next(s, now, true, event, tally).0;
            let b = live_next(a, later, true, Event::Done(stopped), a.tally).0;
            let c = live_next(b, off, true, Event::Done(Ok(())), b.tally).0;
            &&& a.phase == Phase::Stopping
            &&& b.phase == if s.plan.keep_power {
                Phase::Finished
            } else {
                Phase::PoweringOff
            }
            &&& c.phase == Phase::Finished
            &&& c.failure is None
        }),
{
}

/// One moment of a live session: when it was, whether the session was cancelled
/// by then, what happened, and the tally that it led to.
pub struct LiveMoment {
    /// The time in nanoseconds.
    pub now: u128,
    /// Whether the session was cancelled.
    pub cancelled: bool,
    /// What happened.
    pub event: Event,
    /// The tally that it led to.
    pub tally: Tally,
}

/// What a session has come to after `moments`.
pub open spec fn live_run(s: LiveModel, moments: Seq<LiveMoment>) -> LiveModel
    decreases moments.len(),
{
    if moments.len() == 0 {
        s
    } else {
        let m = moments.last();
        live_next(live_run(s, moments.drop_last()), m.now, m.cancelled, m.event, m.tally).0
    }
}

/// The measurement stream of a session: what it took from each of `moments`.
pub open spec fn live_stream(s: LiveModel, moments: Seq<LiveMoment>) -> Seq<Single>
    decreases moments.len(),
{
    if moments.len() == 0 {
        Seq::empty()
    } else {
        let front = moments.drop_last();
        live_stream(s, front) + heard(live_run(s, front).phase, moments.last().event)
    }
}

/// Whether the tallies of `moments` are those that `f` leads to, as those of
/// [`LiveSession::step`] are.
pub open spec fn tallied_by<A: Arithmetic>(f: &A, s: LiveModel, moments: Seq<LiveMoment>) -> bool
    decreases moments.len(),
{
    if moments.len() == 0 {
        true
    } else {
        let front = moments.drop_last();
        let m = moments.last();
        &&& tallied_by(f, s, front)
        &&& m.tally == tally_after(f, live_run(s, front), m.event)
    }
}

/// What a session keeps of the stream depends on its plan, its counts, the
/// pending measurements and the tally alone.
proof fn lemma_monitors_depends<A: Arithmetic>(
    f: &A,
    s: LiveModel,
    t: LiveModel,
    history: Seq<Single>,
)
    requires
        monitors(f, s, history),
        t.plan == s.plan,
        t.total_count == s.total_count,
        t.since_count == s.since_count,
        t.pending == s.pending,
        t.tally == s.tally,
    ensures
        monitors(f, t, history),
{
}

/// What a session keeps of the stream follows what it hears next.
proof fn lemma_next_follows<A: Arithmetic>(
    f: &A,
    s: LiveModel,
    history: Seq<Single>,
    m: LiveMoment,
)
    requires
        s.plan.chunk >= 1,
        s.plan.window_len >= 1,
        monitors(f, s, history),
        m.tally == tally_after(f, s, m.event),
        (history + heard(s.phase, m.event)).len() / s.plan.chunk as nat <= u64::MAX,
    ensures
        ({
            let t = live_next(s, m.now, m.cancelled, m.event, m.tally).0;
            &&& t.plan == s.plan
            &&& monitors(f, t, history + heard(s.phase, m.event))
        }),
{
    let c = s.plan.chunk as int;
    let whole = history + heard(s.phase, m.event);
    match (s.phase, m.event) {
        (Phase::Sampling, Event::Data { bytes, missed, measurements }) => {
            let t = live_received(s, m.now, bytes, missed, measurements@, m.tally);
            if bytes == 0 {
                assert(whole =~= history);
            } else {
                let n = history.len() as int / c;
                lemma_chunk_count_grows(history.len() as int, whole.len() as int, c);
                lemma_chunks_after(history.len() as int, c, n);
                lemma_chunks_after(whole.len() as int, c, n);
                assert((s.pending + measurements@).len() == whole.len() - n * c);
                law_window_follows_the_stream(
                    f,
                    s,
                    history,
                    m.now,
                    bytes,
                    missed,
                    measurements@,
                );
            }
            assert(monitors(f, t, whole));
            if update_due(t, m.now) {
                lemma_update_follows(f, t, whole, m.now);
                lemma_monitors_depends(
                    f,
                    updated(t, m.now),
                    live_polling(updated(t, m.now), m.now, m.cancelled),
                    whole,
                );
            } else {
                lemma_monitors_depends(f, t, live_polling(t, m.now, m.cancelled), whole);
            }
        },
        _ => {
            assert(whole =~= history);
            let t = live_next(s, m.now, m.cancelled, m.event, m.tally).0;
            lemma_monitors_depends(f, s, t, whole);
        },
    }
}

/// From its start to any moment, a session keeps what the measurement stream
/// gives, however the stream is cut into reads and whenever updates are given:
/// the window holds the most recent samples, and the sums and extremes are those
/// of all samples since sampling started. The samples must not outnumber the
/// counter.
pub proof fn law_monitoring_follows_the_stream<A: Arithmetic>(
    f: &A,
    plan: LivePlan,
    moments: Seq<LiveMoment>,
)
    requires
        plan.chunk >= 1,
        plan.window_len >= 1,
        tallied_by(f, live_start(plan), moments),
        live_stream(live_start(plan), moments).len() / plan.chunk as nat <= u64::MAX,
    ensures
        live_run(live_start(plan), moments).plan == plan,
        monitors(
            f,
            live_run(live_start(plan), moments),
            live_stream(live_start(plan), moments),
        ),
    decreases moments.len(),
{
    let start = live_start(plan);
    if moments.len() == 0 {
        lemma_monitors_from_start(f, plan);
    } else {
        let front = moments.drop_last();
        let history = live_stream(start, front);
        let whole = live_stream(start, moments);
        lemma_chunk_count_grows(history.len() as int, whole.len() as int, plan.chunk as int);
        law_monitoring_follows_the_stream(f, plan, front);
        lemma_next_follows(f, live_run(start, front), history, moments.last());
    }
}

/// Before its first event a session has heard nothing.
proof fn lemma_monitors_from_start<A: Arithmetic>(f: &A, plan: LivePlan)
    requires
        plan.chunk >= 1,
    ensures
        monitors(f, live_start(plan), Seq::empty()),
{
    let c = plan.chunk as int;
    let none = Seq::<Single>::empty();
    vstd::arithmetic::div_mod::lemma_div_basics(c);
    assert(averages(f, none, c, 0) =~= none);
    assert(none.skip(0) =~= none);
    assert(all_widened(f, none) =~= Seq::<Double>::empty());
    assert(recent(none, plan.window_len as nat) =~= none);
}

/// An update changes nothing but the share of the samples since the last one.
proof fn lemma_update_follows<A: Arithmetic>(
    f: &A,
    s: LiveModel,
    history: Seq<Single>,
    now: u128,
)
    requires
        s.plan.chunk >= 1,
        monitors(f, s, history),
    ensures
        monitors(f, updated(s, now), history),
{
    let c = s.plan.chunk as int;
    lemma_chunk_count_grows(0, history.len() as int, c);
    let samples = averages(f, history, c, (history.len() as int / c) as nat);
    assert(samples.skip(samples.len() as int) =~= Seq::<Single>::empty());
    assert(all_widened(f, samples.skip(samples.len() as int)) =~= Seq::<Double>::empty());
}

/// What the device does after `moments`: it has executed the requests that were
/// carried out, and none that failed.
pub open spec fn live_hardware(s: LiveModel, h: Hardware, moments: Seq<LiveMoment>) -> Hardware
    decreases moments.len(),
{
    if moments.len() == 0 {
        h
    } else {
        live_step(
            live_run(s, moments.drop_last()),
            live_hardware(s, h, moments.drop_last()),
            moments.last().event,
        )
    }
}

/// Whether a session knows of all that the device is doing, and, once the device
/// is open, that power is to stay on.
spec fn live_tracks(s: LiveModel, h: Hardware) -> bool {
    &&& tracks(s.device, h)
    &&& s.device.powered ==> s.device.keep_power_on_drop == s.plan.keep_power
    &&& match s.phase {
        Phase::Opening => !s.device.powered,
        Phase::Finished => true,
        _ => s.device.keep_power_on_drop == s.plan.keep_power,
    }
}

/// What the device does after one moment: it has executed the request that was
/// carried out, unless it failed.
pub open spec fn live_step(s: LiveModel, h: Hardware, event: Event) -> Hardware {
    match (requested(s.phase, s.plan.voltage_mv), event) {
        (Some((steps, _)), Event::Done(Ok(_))) => stepped_through(h, steps),
        _ => h,
    }
}

/// One moment leaves a session with all that it has to know.
proof fn lemma_live_step_tracks(s: LiveModel, h: Hardware, m: LiveMoment)
    requires
        live_tracks(s, h),
    ensures
        live_tracks(live_next(s, m.now, m.cancelled, m.event, m.tally).0, live_step(s, h, m.event)),
        live_next(s, m.now, m.cancelled, m.event, m.tally).0.plan == s.plan,
{
    lemma_request_effects(h, s.phase, s.plan.voltage_mv);
}

/// A session knows of all that the device is doing.
proof fn lemma_live_tracks(plan: LivePlan, h: Hardware, moments: Seq<LiveMoment>)
    requires
        !h.streaming,
        !h.powering,
    ensures
        live_tracks(
            live_run(live_start(plan), moments),
            live_hardware(live_start(plan), h, moments),
        ),
        live_run(live_start(plan), moments).plan == plan,
    decreases moments.len(),
{
    if moments.len() > 0 {
        let front = moments.drop_last();
        lemma_live_tracks(plan, h, front);
        lemma_live_step_tracks(
            live_run(live_start(plan), front),
            live_hardware(live_start(plan), h, front),
            moments.last(),
        );
    }
}

/// However a session goes and wherever it ends, releasing the device leaves the
/// measurement stream stopped, and power off unless it is to stay on.
pub proof fn law_monitoring_leaves_device_safe(
    plan: LivePlan,
    h: Hardware,
    moments: Seq<LiveMoment>,
)
    requires
        !h.streaming,
        !h.powering,
    ensures
        ({
            let s = live_run(live_start(plan), moments);
            let end = commanded_all(
                live_hardware(live_start(plan), h, moments),
                release_commands(s.device),
            );
            &&& !end.streaming
            &&& end.powering ==> plan.keep_power
        }),
{
    let s = live_run(live_start(plan), moments);
    let end = live_hardware(live_start(plan), h, moments);
    lemma_live_tracks(plan, h, moments);
    law_release_restores(s.device, end);
    let last = commanded_all(end, release_commands(s.device));
    if last.powering {
        assert(s.device.keep_power_on_drop);
        assert(last.powering == end.powering);
    }
}

} // verus!
