//! Recording samples from a PPK2.

use vstd::prelude::*;
use vstd::string::*;

use crate::arithmetic::{
    add_up_singles, all_widened, counted, deterministic, in_nanos, narrowed, product, quotient,
    sum, total, Arithmetic,
};
use crate::device::{
    affected, commanded_all, elapsed, law_release_restores, release_commands, since,
    stepped_through, tracks, Command, Device, DeviceModel, Effect, Hardware, MeasurementMode,
    PortStep, Request,
};
use crate::error::Error;
use crate::format::{Meta, Recording};
use crate::number::{lesser, Double, Single, FIVE_QUARTERS, NEGATIVE_ZERO};
use crate::text::{decimal, push_decimal};

verus! {

/// The PPK2 ADC sample rate; requested sample rates are produced by averaging
/// chunks of this stream.
pub const PPK2_RAW_SPS: u32 = 100_000;

/// Accepts a sample rate that divides the raw rate.
pub fn validate_sps(sps: u32) -> (r: Result<(), Error>)
    ensures
        r is Ok <==> 1 <= sps <= PPK2_RAW_SPS && PPK2_RAW_SPS % sps == 0,
        sps == 0 || sps > PPK2_RAW_SPS ==> (r matches Err(Error::InvalidConfig(m)) && m@
            == "sps must be in 1..=100000, got "@ + decimal(sps as nat)),
        1 <= sps <= PPK2_RAW_SPS && PPK2_RAW_SPS % sps != 0 ==> (r matches Err(
            Error::InvalidConfig(m),
        ) && m@
            == "sps must divide 100000 evenly (e.g. 10, 100, 1000, 10000, 100000), got "@ + decimal(
            sps as nat,
        )),
{
    if sps == 0 || sps > PPK2_RAW_SPS {
        let mut m = "sps must be in 1..=100000, got ".to_owned();
        push_decimal(&mut m, sps as u128);
        return Err(Error::InvalidConfig(m));
    }
    if PPK2_RAW_SPS % sps != 0 {
        let mut m =
            "sps must divide 100000 evenly (e.g. 10, 100, 1000, 10000, 100000), got ".to_owned();
        push_decimal(&mut m, sps as u128);
        return Err(Error::InvalidConfig(m));
    }
    Ok(())
}

/// Accepts a source voltage that the PPK2 can supply.
pub fn validate_voltage(voltage_mv: u16) -> (r: Result<(), Error>)
    ensures
        r is Ok <==> 800 <= voltage_mv <= 5000,
        !(800 <= voltage_mv <= 5000) ==> (r matches Err(Error::InvalidConfig(m)) && m@
            == "voltage must be in 800..=5000 mV, got "@ + decimal(voltage_mv as nat)),
{
    if voltage_mv < 800 || voltage_mv > 5000 {
        let mut m = "voltage must be in 800..=5000 mV, got ".to_owned();
        push_decimal(&mut m, voltage_mv as u128);
        return Err(Error::InvalidConfig(m));
    }
    Ok(())
}

/// Configuration for a recording.
#[derive(Debug, Clone)]
pub struct RecordConfig {
    /// Serial port of the PPK2. Autodetected when `None`.
    pub port: Option<String>,
    /// Source voltage in millivolt (800..=5000).
    pub voltage_mv: u16,
    /// Measurement mode. In `Source` mode the PPK2 powers the device under
    /// test; in `Ampere` mode it acts as an ammeter in series.
    pub mode: MeasurementMode,
    /// Nanoseconds to wait between enabling power and starting to sample,
    /// letting the device under test boot and settle.
    pub settle: u128,
    /// How long to sample, in nanoseconds.
    pub duration: u128,
    /// Samples per second to record (1..=100_000). Each sample is the average
    /// of `100_000 / sps` raw ADC samples.
    pub sps: u32,
    /// Keep the device powered after the recording finishes.
    pub keep_power: bool,
    /// Optional label stored in the sample file.
    pub label: Option<String>,
}

impl Default for RecordConfig {
    fn default() -> (r: Self)
        ensures
            r.port is None,
            r.voltage_mv == 3000,
            r.mode == MeasurementMode::Source,
            r.settle == 0,
            r.duration == 10_000_000_000,
            r.sps == 1000,
            !r.keep_power,
            r.label is None,
    {
        RecordConfig {
            port: None,
            voltage_mv: 3000,
            mode: MeasurementMode::Source,
            settle: 0,
            duration: 10_000_000_000,
            sps: 1000,
            keep_power: false,
            label: None,
        }
    }
}

/// Nanoseconds in a second.
pub const SECOND: u128 = 1_000_000_000;

/// A time in nanoseconds as seconds.
pub open spec fn seconds_of<A: Arithmetic>(f: &A, nanos: u128) -> Double {
    sum(
        f,
        counted(f, nanos as int / 1_000_000_000),
        quotient(f, counted(f, nanos as int % 1_000_000_000), counted(f, 1_000_000_000)),
    )
}

/// A time in nanoseconds as seconds.
pub fn seconds<A: Arithmetic>(f: &A, nanos: u128) -> (r: Double)
    ensures
        deterministic(f) ==> r == seconds_of(f, nanos),
{
    f.plus(f.of_count(nanos / SECOND), f.over(f.of_count(nanos % SECOND), f.of_count(SECOND)))
}

/// The average of a chunk of measurements, as one sample.
pub open spec fn chunk_average<A: Arithmetic>(f: &A, chunk: Seq<Single>) -> Single {
    narrowed(
        f,
        quotient(
            f,
            total(f, Double { bits: NEGATIVE_ZERO }, all_widened(f, chunk)),
            counted(f, chunk.len() as int),
        ),
    )
}

/// The averages of the first `n` chunks of `chunk` measurements each.
pub open spec fn averages<A: Arithmetic>(f: &A, stream: Seq<Single>, chunk: int, n: nat) -> Seq<
    Single,
> {
    Seq::new(n, |i: int| chunk_average(f, stream.subrange(i * chunk, i * chunk + chunk)))
}

/// Appends the averages of the first `n` chunks of `stream`.
fn push_averages<A: Arithmetic>(
    f: &A,
    out: &mut Vec<Single>,
    stream: &Vec<Single>,
    chunk: usize,
    n: usize,
)
    requires
        chunk >= 1,
        n <= stream@.len() as int / chunk as int,
    ensures
        final(out)@.len() == old(out)@.len() + n,
        forall|k: int| 0 <= k < old(out)@.len() ==> final(out)@[k] == old(out)@[k],
        deterministic(f) ==> final(out)@ == old(out)@ + averages(f, stream@, chunk as int, n as nat),
{
    let ghost start = out@;
    let mut i: usize = 0;
    let len: usize = stream.len();
    assert(out@ =~= start + averages(f, stream@, chunk as int, 0));
    while i < n
        invariant
            i <= n,
            chunk >= 1,
            len == stream@.len(),
            n <= len as int / chunk as int,
            out@.len() == start.len() + i,
            forall|k: int| 0 <= k < start.len() ==> out@[k] == start[k],
            deterministic(f) ==> out@ == start + averages(f, stream@, chunk as int, i as nat),
        decreases n - i,
    {
        proof {
            lemma_chunk_fits(len as int, chunk as int, i as int);
        }
        let at: usize = i * chunk;
        let piece = vstd::slice::slice_subrange(stream.as_slice(), at, at + chunk);
        let mean = f.over(
            add_up_singles(f, Double { bits: NEGATIVE_ZERO }, piece),
            f.of_count(chunk as u128),
        );
        out.push(f.narrow(mean));
        i += 1;
        proof {
            if deterministic(f) {
                assert(out@ =~= start + averages(f, stream@, chunk as int, i as nat));
            }
        }
    }
}

/// A full chunk ends within the stream.
pub(crate) proof fn lemma_chunk_fits(n: int, chunk: int, i: int)
    requires
        0 <= n,
        0 < chunk,
        0 <= i < n / chunk,
    ensures
        0 <= i * chunk,
        i * chunk + chunk <= n,
{
    vstd::arithmetic::div_mod::lemma_fundamental_div_mod(n, chunk);
    assert(0 <= i * chunk && i * chunk + chunk <= n) by (nonlinear_arith)
        requires
            n == chunk * (n / chunk) + n % chunk,
            0 <= n % chunk,
            0 <= i,
            i + 1 <= n / chunk,
            0 < chunk,
    ;
}

/// Moves all full chunks of `pending` followed by `incoming`, but no more than
/// `room`, as averages into `samples`; the rest stays pending. Gives the number
/// of new samples.
pub(crate) fn take_chunks<A: Arithmetic>(
    f: &A,
    samples: &mut Vec<Single>,
    pending: &mut Vec<Single>,
    incoming: &Vec<Single>,
    chunk: usize,
    room: usize,
) -> (n: usize)
    requires
        chunk >= 1,
    ensures
        n == lesser((old(pending)@ + incoming@).len() as int / chunk as int, room as int),
        0 <= n * chunk <= (old(pending)@ + incoming@).len() <= usize::MAX,
        final(samples)@.len() == old(samples)@.len() + n,
        final(samples)@.take(old(samples)@.len() as int) == old(samples)@,
        final(pending)@ == (old(pending)@ + incoming@).skip(n * chunk),
        deterministic(f) ==> final(samples)@ == old(samples)@ + averages(
            f,
            old(pending)@ + incoming@,
            chunk as int,
            n as nat,
        ),
{
    let ghost before = pending@;
    let ghost stream = before + incoming@;
    pending.extend_from_slice(incoming.as_slice());
    assert(pending@ =~= stream);
    let len: usize = pending.len();
    let full: usize = len / chunk;
    let n: usize = if full <= room {
        full
    } else {
        room
    };
    push_averages(f, samples, pending, chunk, n);
    assert(samples@.take(old(samples)@.len() as int) =~= old(samples)@);
    proof {
        vstd::arithmetic::div_mod::lemma_fundamental_div_mod(stream.len() as int, chunk as int);
        assert(0 <= n * chunk <= stream.len()) by (nonlinear_arith)
            requires
                stream.len() == chunk * (stream.len() as int / chunk as int) + stream.len() as int
                    % chunk as int,
                0 <= stream.len() as int % chunk as int,
                0 <= n <= stream.len() as int / chunk as int,
                chunk >= 1,
        ;
    }
    if n > 0 {
        let rest = pending.split_off(n * chunk);
        *pending = rest;
        assert(pending@ =~= stream.skip(n * chunk));
    } else {
        assert(n * chunk == 0) by (nonlinear_arith)
            requires
                n == 0,
        ;
        assert(stream.skip(0) =~= stream);
    }
    n
}

/// What a recording is made of, once its configuration was accepted.
#[derive(Debug, Clone, Copy)]
pub struct RecordPlan {
    /// Source voltage in millivolt.
    pub voltage_mv: u16,
    /// Nanoseconds from enabling power to sampling.
    pub settle: u128,
    /// Whether power stays on at the end.
    pub keep_power: bool,
    /// Number of samples to record.
    pub total: usize,
    /// Number of measurements that make up one sample.
    pub chunk: usize,
    /// Nanoseconds after which sampling is given up.
    pub limit: u128,
}

/// The number of samples in `nanos` at `sps` samples a second.
pub open spec fn sample_count<A: Arithmetic>(f: &A, nanos: u128, sps: u32) -> int {
    product(f, seconds_of(f, nanos), counted(f, sps as int)).round()
}

/// The number of samples in `nanos` at `sps` samples a second.
pub(crate) fn count_samples<A: Arithmetic>(f: &A, nanos: u128, sps: u32) -> (r: usize)
    ensures
        deterministic(f) ==> r == sample_count(f, nanos, sps),
{
    f.times(seconds(f, nanos), f.of_count(sps as u128)).round_count()
}

/// The time that a recording of `nanos` may take: a quarter more than nominal,
/// and two seconds on top, as chunk timing jitters and the first chunk is
/// delayed.
pub open spec fn time_limit<A: Arithmetic>(f: &A, nanos: u128) -> int {
    let slack = in_nanos(f, product(f, seconds_of(f, nanos), Double { bits: FIVE_QUARTERS }));
    lesser(slack + 2 * SECOND, u128::MAX as int)
}

/// The time that a recording of `nanos` may take.
fn limit_of<A: Arithmetic>(f: &A, nanos: u128) -> (r: u128)
    ensures
        deterministic(f) ==> r == time_limit(f, nanos),
{
    let slack: u128 = f.to_nanos(f.times(seconds(f, nanos), Double { bits: FIVE_QUARTERS }));
    if slack <= u128::MAX - 2 * SECOND {
        slack + 2 * SECOND
    } else {
        u128::MAX
    }
}

/// An accepted sample rate takes a whole number of raw samples for each sample.
pub(crate) proof fn lemma_chunk_of_rate(sps: u32)
    requires
        1 <= sps <= PPK2_RAW_SPS,
        PPK2_RAW_SPS % sps == 0,
    ensures
        PPK2_RAW_SPS as int / sps as int >= 1,
        (PPK2_RAW_SPS as int / sps as int) * sps == PPK2_RAW_SPS,
{
    vstd::arithmetic::div_mod::lemma_fundamental_div_mod(100_000, sps as int);
    assert(100_000int / sps as int >= 1 && (100_000int / sps as int) * sps == 100_000)
        by (nonlinear_arith)
        requires
            100_000 == sps * (100_000int / sps as int) + 100_000int % sps as int,
            100_000int % sps as int == 0,
            1 <= sps <= 100_000,
    ;
}

/// Whether a sample rate and a voltage are accepted.
pub open spec fn acceptable(sps: u32, voltage_mv: u16) -> bool {
    1 <= sps <= PPK2_RAW_SPS && PPK2_RAW_SPS % sps == 0 && 800 <= voltage_mv <= 5000
}

/// Whether `e` reports why a sample rate or a voltage is not accepted.
pub open spec fn reports_unacceptable(e: Error, sps: u32, voltage_mv: u16) -> bool {
    e matches Error::InvalidConfig(m) && m@ == if sps == 0 || sps > PPK2_RAW_SPS {
        "sps must be in 1..=100000, got "@ + decimal(sps as nat)
    } else if PPK2_RAW_SPS % sps != 0 {
        "sps must divide 100000 evenly (e.g. 10, 100, 1000, 10000, 100000), got "@ + decimal(
            sps as nat,
        )
    } else {
        "voltage must be in 800..=5000 mV, got "@ + decimal(voltage_mv as nat)
    }
}

/// Checks a sample rate, then a voltage.
pub(crate) fn validate(sps: u32, voltage_mv: u16) -> (r: Result<(), Error>)
    ensures
        match r {
            Ok(_) => acceptable(sps, voltage_mv),
            Err(e) => !acceptable(sps, voltage_mv) && reports_unacceptable(e, sps, voltage_mv),
        },
{
    match validate_sps(sps) {
        Ok(_) => validate_voltage(voltage_mv),
        Err(e) => Err(e),
    }
}

impl RecordPlan {
    /// Checks `config` and lays out the recording.
    pub fn new<A: Arithmetic>(f: &A, config: &RecordConfig) -> (r: Result<Self, Error>)
        ensures
            match r {
                Ok(plan) => {
                    &&& acceptable(config.sps, config.voltage_mv)
                    &&& plan.voltage_mv == config.voltage_mv
                    &&& plan.settle == config.settle
                    &&& plan.keep_power == config.keep_power
                    &&& plan.chunk == PPK2_RAW_SPS as int / config.sps as int
                    &&& plan.chunk * config.sps == PPK2_RAW_SPS
                    &&& plan.chunk >= 1
                    &&& deterministic(f) ==> plan.total == sample_count(
                        f,
                        config.duration,
                        config.sps,
                    ) && plan.limit == time_limit(f, config.duration)
                },
                Err(e) => !acceptable(config.sps, config.voltage_mv) && reports_unacceptable(
                    e,
                    config.sps,
                    config.voltage_mv,
                ),
            },
    {
        match validate(config.sps, config.voltage_mv) {
            Ok(_) => {},
            Err(e) => {
                return Err(e);
            },
        }
        let chunk: usize = (PPK2_RAW_SPS / config.sps) as usize;
        proof {
            lemma_chunk_of_rate(config.sps);
        }
        Ok(
            RecordPlan {
                voltage_mv: config.voltage_mv,
                settle: config.settle,
                keep_power: config.keep_power,
                total: count_samples(f, config.duration, config.sps),
                chunk,
                limit: limit_of(f, config.duration),
            },
        )
    }
}

/// Progress notifications of a recording.
#[derive(Debug, Clone, Copy)]
pub enum Progress {
    /// Power was enabled; waiting for the device to settle.
    Settling {
        /// Nanoseconds of settle time remaining.
        remaining: u128,
    },
    /// Sampling is in progress.
    Sampling {
        /// Samples collected so far.
        collected: usize,
        /// Total number of samples that will be collected.
        total: usize,
    },
}

/// What a session waits for.
#[derive(Clone, Copy, Debug, PartialEq, Eq, Structural)]
pub enum Phase {
    /// Waiting until the device is open.
    Opening,
    /// Waiting until the source voltage was set.
    SettingVoltage,
    /// Waiting until power was enabled.
    PoweringOn,
    /// Waiting for the device under test to settle.
    Settling,
    /// Waiting until the measurement stream was started.
    Starting,
    /// Waiting for data from the stream.
    Sampling,
    /// Waiting until the measurement stream was stopped.
    Stopping,
    /// Waiting until power was disabled.
    PoweringOff,
    /// Nothing: the session is over.
    Finished,
}

/// What the caller is to do next in a session.
#[derive(Debug)]
pub enum Action {
    /// Open the device and answer with [`Event::Done`].
    Open,
    /// Carry out a request and answer with [`Event::Done`].
    Perform(Request),
    /// Let so many nanoseconds pass and answer with [`Event::Woke`].
    Wait {
        /// How long to wait.
        pause: u128,
    },
    /// Read from the stream and answer with [`Event::Data`] or
    /// [`Event::ReadFailed`].
    Read,
    /// Nothing more: release the device and take the outcome.
    Finish,
}

/// What came of an [`Action`].
#[derive(Debug)]
pub enum Event {
    /// The device was opened, or a request was carried out; or that failed.
    Done(Result<(), Error>),
    /// The time to wait has passed.
    Woke,
    /// The stream was read.
    Data {
        /// Number of bytes that arrived; zero where none did in time.
        bytes: usize,
        /// Raw samples that the stream's counter field reports as missed.
        missed: usize,
        /// The measurements that the bytes completed, in microampere.
        measurements: Vec<Single>,
    },
    /// The port failed.
    ReadFailed(Error),
}

/// Nanoseconds after which the stream rate is checked.
pub const RATE_CHECK: u128 = 2_000_000_000;

/// The stream rate, in bytes a second, below which a session is given up: nine
/// tenths of four bytes for each raw sample.
pub const LOWEST_RATE: u128 = 360_000;

/// Nanoseconds between progress notifications.
pub const REPORT_INTERVAL: u128 = 1_000_000_000;

/// The longest time, in nanoseconds, between two looks at the clock while the
/// device settles.
pub const SETTLE_PAUSE: u128 = 200_000_000;

/// The rate at which `raw_bytes` arrived within `time` nanoseconds, in bytes a
/// second.
pub open spec fn stream_rate(raw_bytes: u64, time: u128) -> int {
    let secs = time as int / 1_000_000_000;
    if secs >= 1 {
        raw_bytes as int / secs
    } else {
        raw_bytes as int
    }
}

/// The rate at which `raw_bytes` arrived within `time` nanoseconds, in bytes a
/// second.
pub fn rate_of(raw_bytes: u64, time: u128) -> (r: u64)
    ensures
        r == stream_rate(raw_bytes, time),
{
    let secs: u128 = time / SECOND;
    if secs >= 1 {
        let rate: u128 = raw_bytes as u128 / secs;
        assert(rate <= raw_bytes) by (nonlinear_arith)
            requires
                rate as int == raw_bytes as int / secs as int,
                secs >= 1,
        ;
        rate as u64
    } else {
        raw_bytes
    }
}

/// A recording in progress: decides, from what the device and the clock gave,
/// what is to be done next, and keeps what was recorded.
pub struct RecordSession {
    plan: RecordPlan,
    phase: Phase,
    device: Device,
    settle_start: u128,
    sampling_start: u128,
    last_report: u128,
    pause: u128,
    raw_bytes: u64,
    missed: u64,
    rate_checked: bool,
    samples: Vec<Single>,
    pending: Vec<Single>,
    failure: Option<Error>,
}

/// What a [`RecordSession`] has come to.
pub struct RecordModel {
    /// What is to be recorded.
    pub plan: RecordPlan,
    /// What is waited for.
    pub phase: Phase,
    /// What the device was told.
    pub device: DeviceModel,
    /// When power was enabled, in nanoseconds.
    pub settle_start: u128,
    /// When the stream was started.
    pub sampling_start: u128,
    /// When progress was last reported.
    pub last_report: u128,
    /// How long to wait while the device settles.
    pub pause: u128,
    /// Bytes read from the stream.
    pub raw_bytes: u64,
    /// Raw samples missed.
    pub missed: u64,
    /// Whether the stream rate was checked.
    pub rate_checked: bool,
    /// The samples recorded.
    pub samples: Seq<Single>,
    /// Measurements that do not make up a sample yet.
    pub pending: Seq<Single>,
    /// Why the recording failed.
    pub failure: Option<Error>,
}

impl View for RecordSession {
    type V = RecordModel;

    closed spec fn view(&self) -> RecordModel {
        RecordModel {
            plan: self.plan,
            phase: self.phase,
            device: self.device@,
            settle_start: self.settle_start,
            sampling_start: self.sampling_start,
            last_report: self.last_report,
            pause: self.pause,
            raw_bytes: self.raw_bytes,
            missed: self.missed,
            rate_checked: self.rate_checked,
            samples: self.samples@,
            pending: self.pending@,
            failure: self.failure,
        }
    }
}

/// A recording before its first event.
pub open spec fn record_start(plan: RecordPlan) -> RecordModel {
    RecordModel {
        plan,
        phase: Phase::Opening,
        device: DeviceModel { sampling: false, powered: false, keep_power_on_drop: false },
        settle_start: 0,
        sampling_start: 0,
        last_report: 0,
        pause: 0,
        raw_bytes: 0,
        missed: 0,
        rate_checked: false,
        samples: Seq::empty(),
        pending: Seq::empty(),
        failure: None,
    }
}

/// `s` once nothing is left but to disable power, unless it is to stay on.
pub open spec fn powering_down(s: RecordModel, failure: Option<Error>) -> RecordModel {
    if s.plan.keep_power {
        RecordModel { phase: Phase::Finished, failure, ..s }
    } else {
        RecordModel { phase: Phase::PoweringOff, failure, ..s }
    }
}

/// `s` once sampling ended.
pub open spec fn stopping(s: RecordModel, failure: Option<Error>) -> RecordModel {
    RecordModel { phase: Phase::Stopping, failure, ..s }
}

/// `s` while the device settles: sampling starts once the settle time is over,
/// a cancelled recording ends, and progress is reported about once a second.
pub open spec fn settling(s: RecordModel, now: u128, cancelled: bool) -> (
    RecordModel,
    Option<Progress>,
) {
    let passed = since(now, s.settle_start);
    if passed >= s.plan.settle {
        (RecordModel { phase: Phase::Starting, ..s }, None)
    } else if cancelled {
        (powering_down(s, Some(Error::Cancelled)), None)
    } else {
        let remaining = (s.plan.settle - passed) as u128;
        let t = RecordModel {
            phase: Phase::Settling,
            pause: lesser(remaining as int, SETTLE_PAUSE as int) as u128,
            ..s
        };
        if since(now, s.last_report) >= REPORT_INTERVAL {
            (RecordModel { last_report: now, ..t }, Some(Progress::Settling { remaining }))
        } else {
            (t, None)
        }
    }
}

/// `s` while sampling: ends with all samples, on request, after too long, or
/// on a stream that is too slow; else reads on.
pub open spec fn polling(s: RecordModel, now: u128, cancelled: bool) -> (
    RecordModel,
    Option<Progress>,
) {
    let time = since(now, s.sampling_start);
    let due = !s.rate_checked && time >= RATE_CHECK;
    let rate = stream_rate(s.raw_bytes, time);
    let t = RecordModel { rate_checked: s.rate_checked || due, phase: Phase::Sampling, ..s };
    if s.samples.len() >= s.plan.total {
        (stopping(s, None), None)
    } else if cancelled {
        (stopping(s, Some(Error::Cancelled)), None)
    } else if time > s.plan.limit {
        (
            stopping(
                s,
                Some(
                    Error::Incomplete {
                        got: s.samples.len() as usize,
                        expected: s.plan.total,
                        raw_bytes: s.raw_bytes,
                        missed: s.missed,
                    },
                ),
            ),
            None,
        )
    } else if due && rate < LOWEST_RATE {
        (stopping(t, Some(Error::StreamRate { bytes_per_sec: rate as u64 })), None)
    } else if since(now, s.last_report) >= REPORT_INTERVAL {
        (
            RecordModel { last_report: now, ..t },
            Some(
                Progress::Sampling { collected: s.samples.len() as usize, total: s.plan.total },
            ),
        )
    } else {
        (t, None)
    }
}

/// The number of samples that new measurements complete.
pub open spec fn fresh_count(s: RecordModel, measurements: Seq<Single>) -> nat {
    lesser(
        (s.pending + measurements).len() as int / s.plan.chunk as int,
        if s.plan.total >= s.samples.len() {
            s.plan.total - s.samples.len()
        } else {
            0
        },
    ) as nat
}

/// The samples that new measurements complete.
pub open spec fn fresh_samples<A: Arithmetic>(
    f: &A,
    s: RecordModel,
    measurements: Seq<Single>,
) -> Seq<Single> {
    averages(
        f,
        s.pending + measurements,
        s.plan.chunk as int,
        fresh_count(s, measurements),
    )
}

/// `s` after data arrived that completes the samples `fresh`.
pub open spec fn received(
    s: RecordModel,
    bytes: usize,
    missed: usize,
    measurements: Seq<Single>,
    fresh: Seq<Single>,
) -> RecordModel {
    if bytes == 0 {
        s
    } else {
        RecordModel {
            raw_bytes: (s.raw_bytes + bytes) as u64,
            missed: (s.missed + missed) as u64,
            samples: s.samples + fresh,
            pending: (s.pending + measurements).skip(
                fresh_count(s, measurements) * s.plan.chunk,
            ),
            ..s
        }
    }
}

/// What follows `s` when `event` happens at `now`, and what to report; `fresh`
/// are the samples that the event completes. An event that does not answer the
/// current action changes nothing.
pub open spec fn record_next(
    s: RecordModel,
    now: u128,
    cancelled: bool,
    event: Event,
    fresh: Seq<Single>,
) -> (RecordModel, Option<Progress>) {
    match (s.phase, event) {
        (Phase::Opening, Event::Done(Ok(_))) => (
            RecordModel {
                phase: Phase::SettingVoltage,
                device: DeviceModel { keep_power_on_drop: s.plan.keep_power, ..s.device },
                ..s
            },
            None,
        ),
        (Phase::SettingVoltage, Event::Done(Ok(_))) => (
            RecordModel { phase: Phase::PoweringOn, ..s },
            None,
        ),
        (Phase::PoweringOn, Event::Done(Ok(_))) => settling(
            RecordModel {
                device: affected(s.device, Effect::Power(true)),
                settle_start: now,
                last_report: now,
                ..s
            },
            now,
            cancelled,
        ),
        (Phase::Settling, Event::Woke) => settling(s, now, cancelled),
        (Phase::Starting, Event::Done(Ok(_))) => polling(
            RecordModel {
                device: affected(s.device, Effect::Sampling(true)),
                sampling_start: now,
                last_report: now,
                ..s
            },
            now,
            cancelled,
        ),
        (Phase::Opening, Event::Done(Err(e)))
        | (Phase::SettingVoltage, Event::Done(Err(e)))
        | (Phase::PoweringOn, Event::Done(Err(e)))
        | (Phase::Starting, Event::Done(Err(e)))
        | (Phase::PoweringOff, Event::Done(Err(e))) => (
            RecordModel { phase: Phase::Finished, failure: Some(e), ..s },
            None,
        ),
        (Phase::Sampling, Event::Data { bytes, missed, measurements }) => polling(
            received(s, bytes, missed, measurements@, fresh),
            now,
            cancelled,
        ),
        (Phase::Sampling, Event::ReadFailed(e)) => (stopping(s, Some(e)), None),
        (Phase::Stopping, Event::Done(outcome)) => (
            powering_down(
                if outcome is Ok {
                    RecordModel { device: affected(s.device, Effect::Sampling(false)), ..s }
                } else {
                    s
                },
                s.failure,
            ),
            None,
        ),
        (Phase::PoweringOff, Event::Done(Ok(_))) => (
            RecordModel {
                phase: Phase::Finished,
                device: affected(s.device, Effect::Power(false)),
                ..s
            },
            None,
        ),
        _ => (s, None),
    }
}

/// The name of a mode in a sample file.
pub open spec fn mode_name(mode: MeasurementMode) -> Seq<char> {
    match mode {
        MeasurementMode::Source => "source"@,
        MeasurementMode::Ampere => "ampere"@,
    }
}

/// The steps of the request that a phase waits for, and what they effect.
pub open spec fn requested(phase: Phase, voltage_mv: u16) -> Option<(Seq<PortStep>, Effect)> {
    match phase {
        Phase::SettingVoltage => Some(
            (seq![PortStep::Send(Command::RegulatorSet(voltage_mv))], Effect::Untracked),
        ),
        Phase::PoweringOn => Some(
            (seq![PortStep::Send(Command::DeviceRunningSet(true))], Effect::Power(true)),
        ),
        Phase::Starting => Some(
            (
                seq![PortStep::ClearInput, PortStep::Send(Command::AverageStart)],
                Effect::Sampling(true),
            ),
        ),
        Phase::Stopping => Some(
            (seq![PortStep::Send(Command::AverageStop)], Effect::Sampling(false)),
        ),
        Phase::PoweringOff => Some(
            (seq![PortStep::Send(Command::DeviceRunningSet(false))], Effect::Power(false)),
        ),
        _ => None,
    }
}

/// Whether `a` is what is to be done in `phase`.
pub open spec fn phase_action(phase: Phase, voltage_mv: u16, pause: u128, a: Action) -> bool {
    match phase {
        Phase::Opening => a is Open,
        Phase::Settling => a == (Action::Wait { pause }),
        Phase::Sampling => a is Read,
        Phase::Finished => a is Finish,
        _ => a matches Action::Perform(q) && requested(phase, voltage_mv) == Some(
            (q.steps@, q.effect),
        ),
    }
}

/// What is to be done in `phase`.
pub(crate) fn action_for(phase: Phase, voltage_mv: u16, pause: u128, device: &Device) -> (r: Action)
    ensures
        phase_action(phase, voltage_mv, pause, r),
{
    match phase {
        Phase::Opening => Action::Open,
        Phase::SettingVoltage => Action::Perform(device.set_source_voltage(voltage_mv)),
        Phase::PoweringOn => Action::Perform(device.set_device_power(true)),
        Phase::Settling => Action::Wait { pause },
        Phase::Starting => Action::Perform(device.start_sampling()),
        Phase::Sampling => Action::Read,
        Phase::Stopping => Action::Perform(device.stop_sampling()),
        Phase::PoweringOff => Action::Perform(device.set_device_power(false)),
        Phase::Finished => Action::Finish,
    }
}

/// What holds of every recording session.
pub open spec fn record_wf(s: RecordModel) -> bool {
    &&& s.plan.chunk >= 1
    &&& s.samples.len() <= s.plan.total
    &&& match s.phase {
        Phase::Stopping | Phase::PoweringOff | Phase::Finished => s.failure is None
            ==> s.samples.len() == s.plan.total,
        _ => s.failure is None,
    }
}

/// Whether the counters of a session have room for the event.
pub open spec fn record_room(s: RecordModel, event: Event) -> bool {
    event matches Event::Data { bytes, missed, .. } ==> s.raw_bytes + bytes <= u64::MAX && s.missed
        + missed <= u64::MAX
}

impl RecordSession {
    /// The state is one that a recording can come to.
    pub closed spec fn wf(&self) -> bool {
        record_wf(self@)
    }

    /// Starts a recording; the first action is [`RecordSession::action`].
    pub fn new(plan: RecordPlan) -> (r: Self)
        requires
            plan.chunk >= 1,
        ensures
            r.wf(),
            r@ == record_start(plan),
    {
        RecordSession {
            plan,
            phase: Phase::Opening,
            device: Device::new(),
            settle_start: 0,
            sampling_start: 0,
            last_report: 0,
            pause: 0,
            raw_bytes: 0,
            missed: 0,
            rate_checked: false,
            samples: Vec::new(),
            pending: Vec::new(),
            failure: None,
        }
    }

    /// What is to be done next.
    pub fn action(&self) -> (r: Action)
        ensures
            phase_action(self@.phase, self@.plan.voltage_mv, self@.pause, r),
    {
        action_for(self.phase, self.plan.voltage_mv, self.pause, &self.device)
    }

    /// Whether the counters have room for an event with so many bytes and so
    /// many missed samples.
    pub fn has_room(&self, bytes: usize, missed: usize) -> (r: bool)
        ensures
            r == (self@.raw_bytes + bytes <= u64::MAX && self@.missed + missed <= u64::MAX),
    {
        bytes as u64 <= u64::MAX - self.raw_bytes && missed as u64 <= u64::MAX - self.missed
    }

    fn power_down(&mut self)
        ensures
            final(self)@ == powering_down(old(self)@, old(self)@.failure),
    {
        if self.plan.keep_power {
            self.phase = Phase::Finished;
        } else {
            self.phase = Phase::PoweringOff;
        }
    }

    fn settle(&mut self, now: u128, cancelled: bool) -> (r: Option<Progress>)
        ensures
            (final(self)@, r) == settling(old(self)@, now, cancelled),
    {
        let passed: u128 = elapsed(now, self.settle_start);
        if passed >= self.plan.settle {
            self.phase = Phase::Starting;
            None
        } else if cancelled {
            self.failure = Some(Error::Cancelled);
            self.power_down();
            None
        } else {
            let remaining: u128 = self.plan.settle - passed;
            self.phase = Phase::Settling;
            self.pause = if remaining <= SETTLE_PAUSE {
                remaining
            } else {
                SETTLE_PAUSE
            };
            if elapsed(now, self.last_report) >= REPORT_INTERVAL {
                self.last_report = now;
                Some(Progress::Settling { remaining })
            } else {
                None
            }
        }
    }

    fn poll(&mut self, now: u128, cancelled: bool) -> (r: Option<Progress>)
        requires
            old(self)@.failure is None,
        ensures
            (final(self)@, r) == polling(old(self)@, now, cancelled),
    {
        let time: u128 = elapsed(now, self.sampling_start);
        if self.samples.len() >= self.plan.total {
            self.phase = Phase::Stopping;
            return None;
        }
        if cancelled {
            self.failure = Some(Error::Cancelled);
            self.phase = Phase::Stopping;
            return None;
        }
        if time > self.plan.limit {
            self.failure = Some(
                Error::Incomplete {
                    got: self.samples.len(),
                    expected: self.plan.total,
                    raw_bytes: self.raw_bytes,
                    missed: self.missed,
                },
            );
            self.phase = Phase::Stopping;
            return None;
        }
        if !self.rate_checked && time >= RATE_CHECK {
            self.rate_checked = true;
            let rate: u64 = rate_of(self.raw_bytes, time);
            if (rate as u128) < LOWEST_RATE {
                self.failure = Some(Error::StreamRate { bytes_per_sec: rate });
                self.phase = Phase::Stopping;
                return None;
            }
        }
        self.phase = Phase::Sampling;
        if elapsed(now, self.last_report) >= REPORT_INTERVAL {
            self.last_report = now;
            Some(Progress::Sampling { collected: self.samples.len(), total: self.plan.total })
        } else {
            None
        }
    }

    fn fail(&mut self, e: Error)
        ensures
            final(self)@ == (RecordModel {
                phase: Phase::Finished,
                failure: Some(e),
                ..old(self)@
            }),
    {
        self.failure = Some(e);
        self.phase = Phase::Finished;
    }

    fn receive<A: Arithmetic>(
        &mut self,
        f: &A,
        bytes: usize,
        missed: usize,
        measurements: &Vec<Single>,
    )
        requires
            old(self)@.plan.chunk >= 1,
            old(self)@.raw_bytes + bytes <= u64::MAX,
            old(self)@.missed + missed <= u64::MAX,
        ensures
            ({
                let s = old(self)@;
                let t = final(self)@;
                let fresh = t.samples.skip(s.samples.len() as int);
                &&& t == received(s, bytes, missed, measurements@, fresh)
                &&& bytes != 0 ==> fresh.len() == fresh_count(s, measurements@)
                &&& bytes != 0 && deterministic(f) ==> fresh == fresh_samples(f, s, measurements@)
            }),
    {
        if bytes == 0 {
            return ;
        }
        let ghost s = self@;
        self.raw_bytes = self.raw_bytes + bytes as u64;
        self.missed = self.missed + missed as u64;
        let room: usize = if self.plan.total >= self.samples.len() {
            self.plan.total - self.samples.len()
        } else {
            0
        };
        let n: usize = take_chunks(
            f,
            &mut self.samples,
            &mut self.pending,
            measurements,
            self.plan.chunk,
            room,
        );
        proof {
            let fresh = self@.samples.skip(s.samples.len() as int);
            assert(n == fresh_count(s, measurements@));
            assert(self@.samples =~= s.samples + fresh);
            if deterministic(f) {
                assert(fresh =~= fresh_samples(f, s, measurements@));
            }
        }
    }

    /// Takes an event that happened at `now`, in nanoseconds, and whether the
    /// recording was cancelled by then. Gives what to report and what is to be
    /// done next. An event that does not answer the current action changes
    /// nothing.
    #[verifier::spinoff_prover]
    #[verifier::rlimit(30)]
    pub fn step<A: Arithmetic>(
        &mut self,
        f: &A,
        now: u128,
        cancelled: bool,
        event: Event,
    ) -> (r: (Option<Progress>, Action))
        requires
            old(self).wf(),
            record_room(old(self)@, event),
        ensures
            final(self).wf(),
            ({
                let s = old(self)@;
                let t = final(self)@;
                let fresh = t.samples.skip(s.samples.len() as int);
                &&& (t, r.0) == record_next(s, now, cancelled, event, fresh)
                &&& phase_action(t.phase, t.plan.voltage_mv, t.pause, r.1)
                &&& s.phase == Phase::Sampling ==> (event matches Event::Data {
                    bytes,
                    measurements,
                    ..
                } ==> bytes != 0 ==> {
                    &&& fresh.len() == fresh_count(s, measurements@)
                    &&& deterministic(f) ==> fresh == fresh_samples(f, s, measurements@)
                })
            }),
    {
        let report = match self.phase {
            Phase::Opening => match event {
                Event::Done(Ok(_)) => {
                    self.device.keep_power_on_drop(self.plan.keep_power);
                    self.phase = Phase::SettingVoltage;
                    None
                },
                Event::Done(Err(e)) => {
                    self.fail(e);
                    None
                },
                _ => None,
            },
            Phase::SettingVoltage => match event {
                Event::Done(Ok(_)) => {
                    self.phase = Phase::PoweringOn;
                    None
                },
                Event::Done(Err(e)) => {
                    self.fail(e);
                    None
                },
                _ => None,
            },
            Phase::PoweringOn => match event {
                Event::Done(Ok(_)) => {
                    let _ = self.device.completed(Effect::Power(true), Ok(()));
                    self.settle_start = now;
                    self.last_report = now;
                    self.settle(now, cancelled)
                },
                Event::Done(Err(e)) => {
                    self.fail(e);
                    None
                },
                _ => None,
            },
            Phase::Settling => match event {
                Event::Woke => self.settle(now, cancelled),
                _ => None,
            },
            Phase::Starting => match event {
                Event::Done(Ok(_)) => {
                    let _ = self.device.completed(Effect::Sampling(true), Ok(()));
                    self.sampling_start = now;
                    self.last_report = now;
                    self.poll(now, cancelled)
                },
                Event::Done(Err(e)) => {
                    self.fail(e);
                    None
                },
                _ => None,
            },
            Phase::Sampling => match event {
                Event::Data { bytes, missed, measurements } => {
                    self.receive(f, bytes, missed, &measurements);
                    self.poll(now, cancelled)
                },
                Event::ReadFailed(e) => {
                    self.failure = Some(e);
                    self.phase = Phase::Stopping;
                    None
                },
                _ => None,
            },
            Phase::Stopping => match event {
                Event::Done(outcome) => {
                    let _ = self.device.completed(Effect::Sampling(false), outcome);
                    self.power_down();
                    None
                },
                _ => None,
            },
            Phase::PoweringOff => match event {
                Event::Done(Ok(_)) => {
                    let _ = self.device.completed(Effect::Power(false), Ok(()));
                    self.phase = Phase::Finished;
                    None
                },
                Event::Done(Err(e)) => {
                    self.fail(e);
                    None
                },
                _ => None,
            },
            Phase::Finished => None,
        };
        (report, self.action())
    }

    /// The recording, or why there is none; to be taken when the session is
    /// over. The caller adds when sampling started, the version of the tool, and
    /// whether the device is calibrated.
    pub fn finish<A: Arithmetic>(
        self,
        f: &A,
        config: &RecordConfig,
        created_unix_ms: u64,
        tool_version: String,
        calibrated: bool,
    ) -> (r: Result<Recording, Error>)
        requires
            self.wf(),
            self@.phase == Phase::Finished,
        ensures
            match self@.failure {
                Some(e) => r == Err::<Recording, Error>(e),
                None => r matches Ok(rec) && {
                    &&& rec.samples_ua@ == self@.samples
                    &&& rec.samples_ua@.len() == self@.plan.total
                    &&& rec.meta.created_unix_ms == created_unix_ms
                    &&& rec.meta.tool_version == tool_version
                    &&& rec.meta.label == config.label
                    &&& rec.meta.voltage_mv == config.voltage_mv
                    &&& rec.meta.sps == config.sps
                    &&& deterministic(f) ==> rec.meta.settle_secs == seconds_of(f, config.settle)
                    &&& deterministic(f) ==> rec.meta.duration_secs == seconds_of(
                        f,
                        config.duration,
                    )
                    &&& rec.meta.mode@ == mode_name(config.mode)
                    &&& rec.meta.calibrated == calibrated
                    &&& rec.meta.missed_samples == self@.missed
                },
            },
    {
        match self.failure {
            Some(e) => Err(e),
            None => {
                let mode = match config.mode {
                    MeasurementMode::Source => "source".to_owned(),
                    MeasurementMode::Ampere => "ampere".to_owned(),
                };
                let label = match &config.label {
                    Some(label) => Some(label.clone()),
                    None => None,
                };
                Ok(
                    Recording {
                        meta: Meta {
                            created_unix_ms,
                            tool_version,
                            label,
                            voltage_mv: config.voltage_mv,
                            sps: config.sps,
                            settle_secs: seconds(f, config.settle),
                            duration_secs: seconds(f, config.duration),
                            mode,
                            calibrated,
                            missed_samples: self.missed,
                        },
                        samples_ua: self.samples,
                    },
                )
            },
        }
    }

    /// The commands that put the device back into its initial state, to be sent
    /// when the session ends in any way.
    pub fn release(&self) -> (r: Vec<Command>)
        ensures
            r@ == release_commands(self@.device),
    {
        self.device.release()
    }
}

/// Whether the samples and pending measurements of `s` are what the stream
/// `history` gives: the averages of its consecutive chunks, up to the number of
/// samples wanted, and what follows them.
pub open spec fn records<A: Arithmetic>(f: &A, s: RecordModel, history: Seq<Single>) -> bool {
    let n = lesser(history.len() as int / s.plan.chunk as int, s.plan.total as int);
    &&& s.samples == averages(f, history, s.plan.chunk as int, n as nat)
    &&& s.pending == history.skip(n * s.plan.chunk)
}

/// The averages of the chunks of a stream are those of its first `n` chunks and
/// those of what follows them.
pub(crate) proof fn lemma_averages_split<A: Arithmetic>(
    f: &A,
    stream: Seq<Single>,
    chunk: int,
    n: nat,
    m: nat,
)
    requires
        chunk >= 1,
        (n + m) * chunk <= stream.len(),
    ensures
        0 <= n * chunk <= stream.len(),
        averages(f, stream, chunk, n + m) == averages(f, stream, chunk, n) + averages(
            f,
            stream.skip(n * chunk),
            chunk,
            m,
        ),
{
    assert(0 <= n * chunk && n * chunk + m * chunk <= stream.len() && 0 <= m * chunk)
        by (nonlinear_arith)
        requires
            chunk >= 1,
            (n + m) * chunk <= stream.len(),
    ;
    let rest = stream.skip(n * chunk);
    let all = averages(f, stream, chunk, n + m);
    let parts = averages(f, stream, chunk, n) + averages(f, rest, chunk, m);
    assert forall|i: int| 0 <= i < n + m implies #[trigger] all[i] == parts[i] by {
        if i >= n {
            let j = i - n;
            assert(i * chunk == n * chunk + j * chunk && 0 <= j * chunk && j * chunk + chunk <= m
                * chunk) by (nonlinear_arith)
                requires
                    i == n + j,
                    0 <= j < m,
                    chunk >= 1,
            ;
            assert(rest.subrange(j * chunk, j * chunk + chunk) =~= stream.subrange(
                i * chunk,
                i * chunk + chunk,
            ));
        }
    }
    assert(all =~= parts);
}

/// The averages of the first chunks of a stream do not depend on what follows.
pub(crate) proof fn lemma_averages_of_prefix<A: Arithmetic>(
    f: &A,
    stream: Seq<Single>,
    more: Seq<Single>,
    chunk: int,
    n: nat,
)
    requires
        chunk >= 1,
        n * chunk <= stream.len(),
    ensures
        averages(f, stream + more, chunk, n) == averages(f, stream, chunk, n),
{
    let a = averages(f, stream + more, chunk, n);
    let b = averages(f, stream, chunk, n);
    assert forall|i: int| 0 <= i < n implies #[trigger] a[i] == b[i] by {
        assert(0 <= i * chunk && i * chunk + chunk <= n * chunk) by (nonlinear_arith)
            requires
                0 <= i < n,
                chunk >= 1,
        ;
        assert((stream + more).subrange(i * chunk, i * chunk + chunk) =~= stream.subrange(
            i * chunk,
            i * chunk + chunk,
        ));
    }
    assert(a =~= b);
}

/// Where `n` chunks are taken off the front of a stream, the chunks of the rest
/// are the others.
pub(crate) proof fn lemma_chunks_after(len: int, chunk: int, n: int)
    requires
        chunk >= 1,
        0 <= n <= len / chunk,
    ensures
        0 <= n * chunk <= len,
        len / chunk == n + (len - n * chunk) / chunk,
        0 <= (len - n * chunk) / chunk,
{
    vstd::arithmetic::div_mod::lemma_fundamental_div_mod(len, chunk);
    assert(0 <= n * chunk <= len) by (nonlinear_arith)
        requires
            len == chunk * (len / chunk) + len % chunk,
            0 <= len % chunk,
            0 <= n <= len / chunk,
            chunk >= 1,
    ;
    vstd::arithmetic::div_mod::lemma_hoist_over_denominator(len - n * chunk, n, chunk as nat);
    assert((len - n * chunk) / chunk >= 0) by (nonlinear_arith)
        requires
            len - n * chunk >= 0,
            chunk >= 1,
    ;
}

/// Each recorded sample is the average of its chunk of the measurement stream,
/// however the stream is cut into reads.
pub proof fn law_samples_average_the_stream<A: Arithmetic>(
    f: &A,
    s: RecordModel,
    history: Seq<Single>,
    bytes: usize,
    missed: usize,
    measurements: Seq<Single>,
)
    requires
        s.plan.chunk >= 1,
        records(f, s, history),
        bytes != 0,
    ensures
        records(
            f,
            received(s, bytes, missed, measurements, fresh_samples(f, s, measurements)),
            history + measurements,
        ),
{
    let c = s.plan.chunk as int;
    let total = s.plan.total as int;
    let whole = history + measurements;
    let stream = s.pending + measurements;
    lemma_chunk_count_grows(history.len() as int, whole.len() as int, c);
    let n = lesser(history.len() as int / c, total);
    lemma_chunks_after(history.len() as int, c, n);
    assert(stream =~= whole.skip(n * c));
    lemma_chunks_after(whole.len() as int, c, n);
    let m = fresh_count(s, measurements) as int;
    let k = lesser(whole.len() as int / c, total);
    assert(k == n + m);
    lemma_chunks_after(whole.len() as int, c, k);
    assert(k * c == n * c + m * c) by (nonlinear_arith)
        requires
            k == n + m,
    ;
    assert(0 <= m * c) by (nonlinear_arith)
        requires
            m >= 0,
            c >= 1,
    ;
    lemma_averages_split(f, whole, c, n as nat, m as nat);
    lemma_averages_of_prefix(f, history, measurements, c, n as nat);
    assert(stream.skip(m * c) =~= whole.skip(k * c));
}

/// A longer stream has no fewer chunks.
pub(crate) proof fn lemma_chunk_count_grows(a: int, b: int, chunk: int)
    requires
        0 <= a <= b,
        chunk >= 1,
    ensures
        0 <= a / chunk <= b / chunk,
{
    vstd::arithmetic::div_mod::lemma_div_is_ordered(a, b, chunk);
    vstd::arithmetic::div_mod::lemma_div_is_ordered(0, a, chunk);
    vstd::arithmetic::div_mod::lemma_div_basics(chunk);
}

/// Sampling starts only once the settle time has passed since power was
/// enabled.
pub proof fn law_sampling_starts_after_settling(
    s: RecordModel,
    now: u128,
    cancelled: bool,
    event: Event,
    fresh: Seq<Single>,
)
    requires
        s.phase != Phase::Starting,
        record_next(s, now, cancelled, event, fresh).0.phase == Phase::Starting,
    ensures
        s.phase == Phase::PoweringOn || s.phase == Phase::Settling,
        since(now, record_next(s, now, cancelled, event, fresh).0.settle_start) >= s.plan.settle,
        s.phase == Phase::Settling ==> record_next(s, now, cancelled, event, fresh).0.settle_start
            == s.settle_start,
{
}

/// Sampling goes on only while it was not cancelled, samples are missing, and
/// the time limit has not passed.
pub proof fn law_sampling_is_bounded(
    s: RecordModel,
    now: u128,
    cancelled: bool,
    event: Event,
    fresh: Seq<Single>,
)
    requires
        s.phase == Phase::Starting && event is Done || s.phase == Phase::Sampling && event is Data,
        record_next(s, now, cancelled, event, fresh).0.phase == Phase::Sampling,
    ensures
        ({
            let t = record_next(s, now, cancelled, event, fresh).0;
            &&& !cancelled
            &&& t.samples.len() < t.plan.total
            &&& since(now, t.sampling_start) <= t.plan.limit
        }),
{
}

/// Progress is reported no more often than once a second, while the device
/// settles as well as while sampling.
pub proof fn law_progress_is_spaced(
    s: RecordModel,
    now: u128,
    cancelled: bool,
    event: Event,
    fresh: Seq<Single>,
)
    requires
        record_next(s, now, cancelled, event, fresh).1 is Some,
    ensures
        s.phase == Phase::Settling || s.phase == Phase::Sampling,
        since(now, s.last_report) >= REPORT_INTERVAL,
        record_next(s, now, cancelled, event, fresh).0.last_report == now,
{
}

/// Progress is not held back either: a session that goes on settling or
/// sampling reports once a second has passed since power was enabled, since
/// sampling started, or since the last report.
pub proof fn law_progress_is_reported(
    s: RecordModel,
    now: u128,
    cancelled: bool,
    event: Event,
    fresh: Seq<Single>,
)
    requires
        s.phase == Phase::Settling && event is Woke || s.phase == Phase::Sampling && event is Data,
        record_next(s, now, cancelled, event, fresh).0.phase == s.phase,
        since(now, s.last_report) >= REPORT_INTERVAL,
    ensures
        record_next(s, now, cancelled, event, fresh).1 is Some,
{
}

/// A cancelled recording is stopped, its power is turned off unless it is to
/// stay on, and it ends as cancelled.
pub proof fn law_cancelled_recording_ends(
    s: RecordModel,
    now: u128,
    event: Event,
    fresh: Seq<Single>,
    later: u128,
    stopped: Result<(), Error>,
    off: u128,
)
    requires
        s.phase == Phase::Sampling,
        event is Data,
        fresh.len() + s.samples.len() < s.plan.total,
    ensures
        ({
            let a = record_next(s, now, true, event, fresh).0;
            let b = record_next(a, later, true, Event::Done(stopped), Seq::empty()).0;
            let c = record_next(b, off, true, Event::Done(Ok(())), Seq::empty()).0;
            &&& a.phase == Phase::Stopping
            &&& b.phase == if s.plan.keep_power {
                Phase::Finished
            } else {
                Phase::PoweringOff
            }
            &&& c.phase == Phase::Finished
            &&& c.failure == Some(Error::Cancelled)
        }),
{
}

/// A recording cancelled while the device settles never samples: its power is
/// turned off unless it is to stay on, and it ends as cancelled.
pub proof fn law_cancelled_settling_ends(s: RecordModel, now: u128, off: u128)
    requires
        s.phase == Phase::Settling,
        since(now, s.settle_start) < s.plan.settle,
    ensures
        ({
            let a = record_next(s, now, true, Event::Woke, Seq::empty()).0;
            let b = record_next(a, off, true, Event::Done(Ok(())), Seq::empty()).0;
            &&& a.phase == if s.plan.keep_power {
                Phase::Finished
            } else {
                Phase::PoweringOff
            }
            &&& b.phase == Phase::Finished
            &&& b.failure == Some(Error::Cancelled)
            &&& b.samples == s.samples
        }),
{
}

/// One moment of a session: when it was, whether the session was cancelled by
/// then, what happened, and the samples that it completed.
pub struct Moment {
    /// The time in nanoseconds.
    pub now: u128,
    /// Whether the session was cancelled.
    pub cancelled: bool,
    /// What happened.
    pub event: Event,
    /// The samples that it completed.
    pub fresh: Seq<Single>,
}

/// What a recording has come to after `moments`.
pub open spec fn record_run(s: RecordModel, moments: Seq<Moment>) -> RecordModel
    decreases moments.len(),
{
    if moments.len() == 0 {
        s
    } else {
        let m = moments.last();
        record_next(
            record_run(s, moments.drop_last()),
            m.now,
            m.cancelled,
            m.event,
            m.fresh,
        ).0
    }
}

/// The measurements that a session in `phase` takes from `event`.
pub open spec fn heard(phase: Phase, event: Event) -> Seq<Single> {
    match (phase, event) {
        (Phase::Sampling, Event::Data { bytes, missed: _, measurements }) => if bytes == 0 {
            Seq::empty()
        } else {
            measurements@
        },
        _ => Seq::empty(),
    }
}

/// The measurement stream of a recording: what it took from each of `moments`.
pub open spec fn record_stream(s: RecordModel, moments: Seq<Moment>) -> Seq<Single>
    decreases moments.len(),
{
    if moments.len() == 0 {
        Seq::empty()
    } else {
        let front = moments.drop_last();
        record_stream(s, front) + heard(record_run(s, front).phase, moments.last().event)
    }
}

/// Whether the samples that `moments` completed are averages by `f`, as those of
/// [`RecordSession::step`] are.
pub open spec fn averaged_by<A: Arithmetic>(f: &A, s: RecordModel, moments: Seq<Moment>) -> bool
    decreases moments.len(),
{
    if moments.len() == 0 {
        true
    } else {
        let front = moments.drop_last();
        let m = moments.last();
        &&& averaged_by(f, s, front)
        &&& m.event matches Event::Data { bytes, missed, measurements } ==> m.fresh
            == fresh_samples(f, record_run(s, front), measurements@)
    }
}

/// Of a recording only data changes what was sampled.
proof fn lemma_next_keeps_samples(
    s: RecordModel,
    now: u128,
    cancelled: bool,
    event: Event,
    fresh: Seq<Single>,
)
    ensures
        ({
            let t = record_next(s, now, cancelled, event, fresh).0;
            let r = match (s.phase, event) {
                (Phase::Sampling, Event::Data { bytes, missed, measurements }) => received(
                    s,
                    bytes,
                    missed,
                    measurements@,
                    fresh,
                ),
                _ => s,
            };
            &&& t.plan == s.plan
            &&& t.samples == r.samples
            &&& t.pending == r.pending
        }),
{
}

/// The samples of a recording are the averages of the consecutive chunks of the
/// measurement stream, from its start to any moment, however the stream is cut
/// into reads: as many as there are whole chunks, up to the number wanted.
pub proof fn law_recording_averages_the_stream<A: Arithmetic>(
    f: &A,
    plan: RecordPlan,
    moments: Seq<Moment>,
)
    requires
        plan.chunk >= 1,
        averaged_by(f, record_start(plan), moments),
    ensures
        record_run(record_start(plan), moments).plan == plan,
        records(
            f,
            record_run(record_start(plan), moments),
            record_stream(record_start(plan), moments),
        ),
    decreases moments.len(),
{
    let start = record_start(plan);
    if moments.len() == 0 {
        let none = Seq::<Single>::empty();
        lemma_chunks_after(0, plan.chunk as int, 0);
        lemma_chunk_count_grows(0, 0, plan.chunk as int);
        vstd::arithmetic::div_mod::lemma_div_basics(plan.chunk as int);
        assert(averages(f, none, plan.chunk as int, 0) =~= none);
        assert(none.skip(0) =~= none);
    } else {
        let front = moments.drop_last();
        let m = moments.last();
        law_recording_averages_the_stream(f, plan, front);
        let s = record_run(start, front);
        let history = record_stream(start, front);
        lemma_next_keeps_samples(s, m.now, m.cancelled, m.event, m.fresh);
        match (s.phase, m.event) {
            (Phase::Sampling, Event::Data { bytes, missed, measurements }) => {
                if bytes == 0 {
                    assert(history + Seq::<Single>::empty() =~= history);
                } else {
                    law_samples_average_the_stream(
                        f,
                        s,
                        history,
                        bytes,
                        missed,
                        measurements@,
                    );
                }
            },
            _ => {
                assert(history + Seq::<Single>::empty() =~= history);
            },
        }
    }
}

/// What the device does after `moments`: it has executed the requests that were
/// carried out, and none that failed.
pub open spec fn record_hardware(s: RecordModel, h: Hardware, moments: Seq<Moment>) -> Hardware
    decreases moments.len(),
{
    if moments.len() == 0 {
        h
    } else {
        record_step(
            record_run(s, moments.drop_last()),
            record_hardware(s, h, moments.drop_last()),
            moments.last().event,
        )
    }
}

/// Whether a recording knows of all that the device is doing, and, once the device
/// is open, that power is to stay on.
spec fn record_tracks(s: RecordModel, h: Hardware) -> bool {
    &&& tracks(s.device, h)
    &&& s.device.powered ==> s.device.keep_power_on_drop == s.plan.keep_power
    &&& match s.phase {
        Phase::Opening => !s.device.powered,
        Phase::Finished => true,
        _ => s.device.keep_power_on_drop == s.plan.keep_power,
    }
}

/// What the device does after one moment: it has executed the request that was
/// carried out, unless it failed.
pub open spec fn record_step(s: RecordModel, h: Hardware, event: Event) -> Hardware {
    match (requested(s.phase, s.plan.voltage_mv), event) {
        (Some((steps, _)), Event::Done(Ok(_))) => stepped_through(h, steps),
        _ => h,
    }
}

/// One moment leaves a recording with all that it has to know.
proof fn lemma_record_step_tracks(s: RecordModel, h: Hardware, m: Moment)
    requires
        record_tracks(s, h),
    ensures
        record_tracks(record_next(s, m.now, m.cancelled, m.event, m.fresh).0, record_step(s, h, m.event)),
        record_next(s, m.now, m.cancelled, m.event, m.fresh).0.plan == s.plan,
{
    lemma_request_effects(h, s.phase, s.plan.voltage_mv);
}

/// A recording knows of all that the device is doing.
proof fn lemma_record_tracks(plan: RecordPlan, h: Hardware, moments: Seq<Moment>)
    requires
        !h.streaming,
        !h.powering,
    ensures
        record_tracks(
            record_run(record_start(plan), moments),
            record_hardware(record_start(plan), h, moments),
        ),
        record_run(record_start(plan), moments).plan == plan,
    decreases moments.len(),
{
    if moments.len() > 0 {
        let front = moments.drop_last();
        lemma_record_tracks(plan, h, front);
        lemma_record_step_tracks(
            record_run(record_start(plan), front),
            record_hardware(record_start(plan), h, front),
            moments.last(),
        );
    }
}

/// What the requests of a session do to the device.
pub(crate) proof fn lemma_request_effects(h: Hardware, phase: Phase, voltage_mv: u16)
    ensures
        requested(phase, voltage_mv) matches Some((steps, effect)) ==> stepped_through(h, steps)
            == match effect {
            Effect::Untracked => h,
            Effect::Power(on) => Hardware { powering: on, ..h },
            Effect::Sampling(on) => Hardware { streaming: on, ..h },
        },
{
    reveal_with_fuel(stepped_through, 3);
    if let Some((steps, effect)) = requested(phase, voltage_mv) {
        assert(steps.drop_last().len() == steps.len() - 1);
    }
}

/// However a recording goes and wherever it ends, releasing the device leaves
/// the measurement stream stopped, and power off unless it is to stay on.
pub proof fn law_recording_leaves_device_safe(plan: RecordPlan, h: Hardware, moments: Seq<Moment>)
    requires
        !h.streaming,
        !h.powering,
    ensures
        ({
            let s = record_run(record_start(plan), moments);
            let end = commanded_all(
                record_hardware(record_start(plan), h, moments),
                release_commands(s.device),
            );
            &&& !end.streaming
            &&& end.powering ==> plan.keep_power
        }),
{
    let s = record_run(record_start(plan), moments);
    let end = record_hardware(record_start(plan), h, moments);
    lemma_record_tracks(plan, h, moments);
    law_release_restores(s.device, end);
    let last = commanded_all(end, release_commands(s.device));
    if last.powering {
        assert(s.device.keep_power_on_drop);
        assert(last.powering == end.powering);
    }
}

} // verus!
