//! What plans and sessions do, told by exact numbers.

use vstd::arithmetic::power2::lemma_pow2_pos;
use vstd::prelude::*;

use crate::accuracy::{
    lemma_count_is_exact, lemma_modest_product, lemma_product_is_close, lemma_sum_is_close,
    lemma_sum_stays_finite,
};
use crate::acquire::{
    rate_of, record_next, record_run, record_stream, records, sample_count, seconds_of, stream_rate,
    validate_sps, validate_voltage, Action, Event, Moment, Phase, Progress, RecordConfig,
    RecordModel, RecordPlan, RecordSession, PPK2_RAW_SPS,
};
use crate::arithmetic::{counted, deterministic, in_nanos, product, quotient, sum, Arithmetic};
use crate::device::{
    complete, opening_step, opening_wf, response_complete, switch_power, Command, Device, Effect,
    MeasurementMode, OpenEvent, OpenPhase, OpeningModel, PortStep, PowerPlan,
};
use crate::error::Error;
use crate::format::Recording;
use crate::live::{
    live_next, live_run, live_stream, LiveConfig, LiveFault, LiveModel, LiveMoment, LivePlan,
    LiveSession, Tally,
};
use crate::meaning::near_product;
use crate::meaning_live::{is_seconds, lemma_seconds_mean};
use crate::number::{lemma_named_numbers, Double, Single, FIVE_QUARTERS, ONE, ZERO};
use crate::rendering::Rendering;
use crate::rounding::{gap, lemma_quotient_stays_finite, rounds_in_order, size, EXACT_COUNTS};

verus! {

/// While sampling, a session takes all measurements of a read that brought bytes,
/// behind those that it took before; from anything else it takes none.
pub proof fn law_streams_take_every_read(
    r: RecordModel,
    records: Seq<Moment>,
    record: Moment,
    l: LiveModel,
    lives: Seq<LiveMoment>,
    live: LiveMoment,
)
    ensures
        record_stream(r, Seq::empty()) == Seq::<Single>::empty(),
        record_stream(r, records.push(record)) == record_stream(r, records) + match record.event {
            Event::Data { bytes, missed, measurements } if record_run(r, records).phase
                == Phase::Sampling && bytes != 0 => measurements@,
            _ => Seq::empty(),
        },
        live_stream(l, Seq::empty()) == Seq::<Single>::empty(),
        live_stream(l, lives.push(live)) == live_stream(l, lives) + match live.event {
            Event::Data { bytes, missed, measurements } if live_run(l, lives).phase
                == Phase::Sampling && bytes != 0 => measurements@,
            _ => Seq::empty(),
        },
{
    assert(records.push(record).drop_last() =~= records);
    assert(lives.push(live).drop_last() =~= lives);
}

/// Whether `n` is, but for rounding, the number of samples in `nanos` at `sps` a
/// second: the whole number nearest to the seconds times the rate.
pub open spec fn is_sample_count(n: int, nanos: int, sps: u32) -> bool {
    let u = Double::unit();
    exists|secs: Double, x: Double| #[trigger]
        is_seconds(secs, nanos) && #[trigger] near_product(x, secs.value(), sps * u) && 2 * gap(
            n * u,
            x.value(),
        ) <= u
}

/// The sample count that the library computes is one.
proof fn lemma_sample_count_means<A: Arithmetic>(f: &A, nanos: u128, sps: u32)
    requires
        rounds_in_order(f),
        nanos <= EXACT_COUNTS,
        sps <= PPK2_RAW_SPS,
        sample_count(f, nanos, sps) < usize::MAX,
    ensures
        is_sample_count(sample_count(f, nanos, sps), nanos as int, sps),
{
    let u = Double::unit();
    let secs = seconds_of(f, nanos);
    let c = counted(f, sps as int);
    let x = product(f, secs, c);
    let n = sample_count(f, nanos, sps);
    let v = x.value();
    lemma_pow2_pos(1074);
    lemma_seconds_mean(f, nanos);
    lemma_seconds_are_modest(f, nanos);
    lemma_count_is_exact(f, sps as int);
    assert(0 <= sps * u && sps * u <= EXACT_COUNTS * u) by (nonlinear_arith)
        requires
            0 <= sps <= EXACT_COUNTS,
            u > 0,
    ;
    lemma_modest_product(f, secs, c);
    lemma_product_is_close(f, secs, c);
    let zero = Double { bits: ZERO };
    lemma_named_numbers();
    assert(zero.finite());
    assert(0 <= v) by {
        assert(0 <= secs.value() * c.value()) by (nonlinear_arith)
            requires
                0 <= secs.value(),
                0 <= c.value(),
        ;
        assert(zero.value() * zero.value() == 0);
        reveal(rounds_in_order);
        assert(product(f, zero, zero).value() <= x.value());
    }
    vstd::arithmetic::div_mod::lemma_fundamental_div_mod(2 * v + u, 2 * u);
    let q = (2 * v + u) / (2 * u);
    assert(q >= 0) by (nonlinear_arith)
        requires
            2 * v + u == (2 * u) * q + (2 * v + u) % (2 * u),
            0 <= (2 * v + u) % (2 * u) < 2 * u,
            0 <= v,
            u > 0,
    ;
    assert(q == n);
    assert(2 * gap(n * u, v) <= u) by (nonlinear_arith)
        requires
            2 * v + u == (2 * u) * q + (2 * v + u) % (2 * u),
            0 <= (2 * v + u) % (2 * u) < 2 * u,
            q == n,
            u > 0,
    ;
    assert(near_product(x, secs.value(), sps * u));
}

/// Seconds are positive and far from overflow.
proof fn lemma_seconds_are_modest<A: Arithmetic>(f: &A, nanos: u128)
    requires
        rounds_in_order(f),
        nanos <= EXACT_COUNTS,
    ensures
        seconds_of(f, nanos).finite(),
        0 <= seconds_of(f, nanos).value() <= 2 * vstd::arithmetic::power2::pow2(1300) + 1,
{
    let u = Double::unit();
    let n = nanos as int;
    let x = n / 1_000_000_000;
    let y = n % 1_000_000_000;
    let a = counted(f, x);
    let b = counted(f, y);
    let g = counted(f, 1_000_000_000);
    let zero = Double { bits: ZERO };
    lemma_named_numbers();
    assert(zero.finite());
    lemma_pow2_pos(1074);
    lemma_count_is_exact(f, x);
    lemma_count_is_exact(f, y);
    lemma_count_is_exact(f, 1_000_000_000);
    let q = quotient(f, b, g);
    lemma_quotient_stays_finite(f, b, g);
    vstd::arithmetic::power2::lemma2_to64_rest();
    vstd::arithmetic::power2::lemma_pow2_adds(53, 1074);
    vstd::arithmetic::power2::lemma_pow2_strictly_increases(1127, 1974);
    vstd::arithmetic::power2::lemma_pow2_adds(56, 1074);
    vstd::arithmetic::power2::lemma_pow2_strictly_increases(1130, 1300);
    assert(0 <= x * u && x * u <= 0x20_0000_0000_0000 * u && 0 <= y * u && y * u
        <= 0x20_0000_0000_0000 * u) by (nonlinear_arith)
        requires
            0 <= x <= 0x20_0000_0000_0000,
            0 <= y <= 0x20_0000_0000_0000,
            u > 0,
    ;
    lemma_sum_stays_finite(f, a, q);
    lemma_sum_is_close(f, a, q);
    let s = sum(f, a, q).value();
    let e = a.value() + q.value();
    assert(gap(s, e) <= e && s <= 2 * e && s >= 0) by (nonlinear_arith)
        requires
            gap(s, e) * EXACT_COUNTS <= size(e),
            e >= 0,
            EXACT_COUNTS >= 1,
    ;
}

/// A recording is laid out for the samples in its duration, with all raw samples
/// of the device shared out among them, and may take a quarter more than the
/// duration and two seconds on top.
pub proof fn law_record_plan_lays_out_the_duration<A: Arithmetic>(
    f: &A,
    config: &RecordConfig,
    plan: RecordPlan,
)
    requires
        deterministic(f),
        rounds_in_order(f),
        config.duration <= EXACT_COUNTS,
        call_ensures(RecordPlan::new::<A>, (f, config), Ok(plan)),
    ensures
        plan.chunk * config.sps == 100_000,
        plan.total < usize::MAX ==> is_sample_count(
            plan.total as int,
            config.duration as int,
            config.sps,
        ),
        is_time_limit(f, plan.limit, config.duration as int),
{
    let u = Double::unit();
    let quarters = Double { bits: FIVE_QUARTERS };
    let secs = seconds_of(f, config.duration);
    let x = product(f, secs, quarters);
    lemma_named_numbers();
    lemma_pow2_pos(1074);
    assert(quarters.finite());
    if plan.total < usize::MAX {
        lemma_sample_count_means(f, config.duration, config.sps);
    }
    lemma_seconds_mean(f, config.duration);
    lemma_seconds_are_modest(f, config.duration);
    assert(quarters.value() <= EXACT_COUNTS * u) by (nonlinear_arith)
        requires
            4 * quarters.value() == 5 * u,
            u > 0,
            EXACT_COUNTS >= 2,
    ;
    lemma_modest_product(f, secs, quarters);
    lemma_product_is_close(f, secs, quarters);
    assert(is_seconds(secs, config.duration as int));
    assert(near_product(x, secs.value(), quarters.value()));
}

/// Whether `limit` is, but for rounding, five quarters of `nanos` and two seconds
/// on top, or the longest time that there is.
pub open spec fn is_time_limit<A: Arithmetic>(f: &A, limit: u128, nanos: int) -> bool {
    exists|secs: Double, x: Double, q: Double|
        {
            &&& #[trigger] is_seconds(secs, nanos)
            &&& #[trigger] near_product(x, secs.value(), q.value())
            &&& 4 * q.value() == 5 * Double::unit()
            &&& limit == if in_nanos(f, x) + 2_000_000_000 <= u128::MAX {
                in_nanos(f, x) + 2_000_000_000
            } else {
                u128::MAX as int
            }
        }
}

/// A live session is laid out for the samples in its window, of which there is
/// one at least, with all raw samples of the device shared out among the samples;
/// a window that holds none is refused.
pub proof fn law_live_plan_lays_out_the_window<F: Arithmetic + Rendering>(
    f: &F,
    config: &LiveConfig,
    r: Result<LivePlan, Error>,
)
    requires
        deterministic(f),
        rounds_in_order(f),
        config.window <= EXACT_COUNTS,
        call_ensures(LivePlan::new::<F>, (f, config), r),
    ensures
        r matches Ok(plan) ==> {
            &&& plan.chunk * config.sps == 100_000
            &&& plan.window_len >= 1
            &&& plan.window_len < usize::MAX ==> is_sample_count(
                plan.window_len as int,
                config.window as int,
                config.sps,
            )
        },
        r is Err && 1 <= config.sps <= 100_000 && 100_000u32 % config.sps == 0 && 800
            <= config.voltage_mv <= 5000 ==> is_sample_count(0, config.window as int, config.sps),
{
    if 1 <= config.sps <= 100_000 && sample_count(f, config.window, config.sps) < usize::MAX {
        lemma_sample_count_means(f, config.window, config.sps);
    }
}

/// A rate is the bytes that came divided by the whole seconds that passed, or the
/// bytes where no whole second passed.
pub proof fn law_rate_is_bytes_a_second(raw_bytes: u64, time: u128, r: u64)
    requires
        call_ensures(rate_of, (raw_bytes, time), r),
    ensures
        time < 1_000_000_000 ==> r == raw_bytes,
        time >= 1_000_000_000 ==> r * (time as int / 1_000_000_000) <= raw_bytes < (r + 1) * (
        time as int / 1_000_000_000),
{
    lemma_rate(raw_bytes, time);
}

/// What the rate of a stream is.
proof fn lemma_rate(raw_bytes: u64, time: u128)
    ensures
        stream_rate(raw_bytes, time) >= 0,
        time < 1_000_000_000 ==> stream_rate(raw_bytes, time) == raw_bytes,
        time >= 1_000_000_000 ==> stream_rate(raw_bytes, time) * (time as int / 1_000_000_000)
            <= raw_bytes < (stream_rate(raw_bytes, time) + 1) * (time as int / 1_000_000_000),
{
    let secs = time as int / 1_000_000_000;
    let n = raw_bytes as int;
    if time >= 1_000_000_000 {
        vstd::arithmetic::div_mod::lemma_fundamental_div_mod(n, secs);
        let q = n / secs;
        assert(q >= 0 && q * secs <= n && n < (q + 1) * secs) by (nonlinear_arith)
            requires
                n == secs * q + n % secs,
                0 <= n % secs < secs,
                n >= 0,
                secs >= 1,
        ;
    }
}

/// Whether a stream brings enough: nine tenths of the 400 000 bytes a second that
/// the device sends, over the whole seconds that passed.
pub open spec fn brings_enough(raw_bytes: int, time: int) -> bool {
    10 * raw_bytes >= 9 * 400_000 * (time / 1_000_000_000)
}

/// What comes of data while sampling. All samples: the recording stops well. Else
/// one that was cancelled, that took longer than its limit, or whose stream
/// turned out too slow when two seconds had passed, stops with an error that says
/// so; any other goes on.
pub proof fn law_sampling_ends_as_it_should(
    s: RecordModel,
    now: u128,
    cancelled: bool,
    event: Event,
    fresh: Seq<Single>,
)
    requires
        s.phase == Phase::Sampling,
        s.sampling_start <= now,
        s.samples.len() + fresh.len() <= usize::MAX,
        event matches Event::Data { bytes, missed, measurements } ==> bytes != 0 && s.raw_bytes
            + bytes <= u64::MAX && s.missed + missed <= u64::MAX,
    ensures
        event matches Event::Data { bytes, missed, measurements } ==> {
            let t = record_next(s, now, cancelled, event, fresh).0;
            let time = now - s.sampling_start;
            let due = !s.rate_checked && time >= 2_000_000_000;
            let slow = due && !brings_enough(s.raw_bytes + bytes, time);
            &&& t.samples == s.samples + fresh
            &&& t.raw_bytes == s.raw_bytes + bytes
            &&& t.missed == s.missed + missed
            &&& if t.samples.len() >= s.plan.total {
                t.phase == Phase::Stopping && t.failure is None
            } else if cancelled {
                t.phase == Phase::Stopping && t.failure == Some(Error::Cancelled)
            } else if time > s.plan.limit {
                t.phase == Phase::Stopping && (t.failure matches Some(
                    Error::Incomplete { got, expected, raw_bytes, missed: lost },
                ) && got == t.samples.len() && expected == s.plan.total && raw_bytes == t.raw_bytes
                    && lost == t.missed)
            } else if slow {
                t.phase == Phase::Stopping && (t.failure matches Some(
                    Error::StreamRate { bytes_per_sec },
                ) && bytes_per_sec * (time / 1_000_000_000) <= t.raw_bytes < (bytes_per_sec + 1) * (
                time / 1_000_000_000))
            } else {
                t.phase == Phase::Sampling && t.failure == s.failure && t.rate_checked == (
                s.rate_checked || due)
            }
        },
        event matches Event::ReadFailed(e) ==> {
            let t = record_next(s, now, cancelled, event, fresh).0;
            t.phase == Phase::Stopping && t.failure == Some(e) && t.samples == s.samples
        },
{
    match event {
        Event::Data { bytes, missed, measurements } => {
            let time = (now - s.sampling_start) as u128;
            let n = (s.raw_bytes + bytes) as u64;
            lemma_rate(n, time);
            if time >= 2_000_000_000 {
                lemma_slow_rate(stream_rate(n, time), n as int, time as int / 1_000_000_000);
            }
        },
        _ => {},
    }
}

/// A rate below the lowest one is too slow.
proof fn lemma_slow_rate(rate: int, n: int, secs: int)
    requires
        secs >= 1,
        rate * secs <= n < (rate + 1) * secs,
    ensures
        rate < 360_000 <==> 10 * n < 9 * 400_000 * secs,
{
    assert(9 * 400_000 * secs == 3_600_000 * secs) by (nonlinear_arith);
    if rate < 360_000 {
        assert((rate + 1) * secs <= 360_000 * secs) by (nonlinear_arith)
            requires
                rate + 1 <= 360_000,
                secs >= 1,
        ;
    } else {
        assert(360_000 * secs <= rate * secs) by (nonlinear_arith)
            requires
                360_000 <= rate,
                secs >= 1,
        ;
    }
}

/// What comes of data while monitoring. A session that was cancelled stops well;
/// one whose stream turned out too slow when two seconds had passed, or that got
/// no data for more than three seconds, stops with an error that says so; any
/// other goes on.
pub proof fn law_monitoring_ends_as_it_should(
    s: LiveModel,
    now: u128,
    cancelled: bool,
    event: Event,
    tally: Tally,
)
    requires
        s.phase == Phase::Sampling,
        s.sampling_start <= now,
        s.last_data <= now,
        event matches Event::Data { bytes, missed, measurements } ==> s.raw_bytes + bytes
            <= u64::MAX && s.missed + missed <= u64::MAX,
    ensures
        event matches Event::Data { bytes, missed, measurements } ==> {
            let t = live_next(s, now, cancelled, event, tally).0;
            let time = now - s.sampling_start;
            let due = !s.rate_checked && time >= 2_000_000_000;
            let slow = due && !brings_enough(s.raw_bytes + bytes, time);
            &&& t.raw_bytes == s.raw_bytes + bytes
            &&& bytes != 0 ==> t.missed == s.missed + missed && t.last_data == now
            &&& bytes == 0 ==> t.missed == s.missed && t.last_data == s.last_data
            &&& if cancelled {
                t.phase == Phase::Stopping && t.failure is None
            } else if slow {
                t.phase == Phase::Stopping && (t.failure matches Some(
                    LiveFault::Reported(Error::StreamRate { bytes_per_sec }),
                ) && bytes_per_sec * (time / 1_000_000_000) <= t.raw_bytes < (bytes_per_sec + 1) * (
                time / 1_000_000_000))
            } else if now - t.last_data > 3_000_000_000 {
                t.phase == Phase::Stopping && t.failure == Some(LiveFault::Stalled)
            } else {
                t.phase == Phase::Sampling && t.failure == s.failure && t.rate_checked == (
                s.rate_checked || due)
            }
        },
        event matches Event::ReadFailed(e) ==> {
            let t = live_next(s, now, cancelled, event, tally).0;
            t.phase == Phase::Stopping && t.failure == Some(LiveFault::Reported(e))
        },
{
    match event {
        Event::Data { bytes, missed, measurements } => {
            let time = (now - s.sampling_start) as u128;
            let n = (s.raw_bytes + bytes) as u64;
            lemma_rate(n, time);
            if time >= 2_000_000_000 {
                lemma_slow_rate(stream_rate(n, time), n as int, time as int / 1_000_000_000);
            }
        },
        _ => {},
    }
}

/// While the device settles, a recording waits for what is left of the settle
/// time, but no longer than a fifth of a second at once, and reports what is
/// left; when the time has passed, it starts the stream.
pub proof fn law_settling_waits_for_the_rest(s: RecordModel, now: u128)
    requires
        s.phase == Phase::Settling,
        s.settle_start <= now,
    ensures
        ({
            let (t, report) = record_next(s, now, false, Event::Woke, Seq::empty());
            let left = s.plan.settle - (now - s.settle_start);
            if left <= 0 {
                t.phase == Phase::Starting && report is None
            } else {
                &&& t.phase == Phase::Settling
                &&& t.pause <= left && t.pause <= 200_000_000
                &&& t.pause == left || t.pause == 200_000_000
                &&& report matches Some(p) ==> (p matches Progress::Settling { remaining }
                    && remaining == left)
            }
        }),
{
}

/// Whether an action is a request with the given steps and effect.
pub open spec fn asks_for(a: Action, steps: Seq<PortStep>, effect: Effect) -> bool {
    a matches Action::Perform(q) && q.steps@ == steps && q.effect == effect
}

/// Whether an action is what a session is to do in `phase`: set the source
/// voltage, turn power on, start the stream with nothing stale before it, stop
/// it, turn power off; else open, wait, read, or finish.
pub open spec fn is_due(a: Action, phase: Phase, voltage_mv: u16) -> bool {
    match phase {
        Phase::Opening => a is Open,
        Phase::SettingVoltage => asks_for(
            a,
            seq![PortStep::Send(Command::RegulatorSet(voltage_mv))],
            Effect::Untracked,
        ),
        Phase::PoweringOn => asks_for(
            a,
            seq![PortStep::Send(Command::DeviceRunningSet(true))],
            Effect::Power(true),
        ),
        Phase::Settling => a is Wait,
        Phase::Starting => asks_for(
            a,
            seq![PortStep::ClearInput, PortStep::Send(Command::AverageStart)],
            Effect::Sampling(true),
        ),
        Phase::Sampling => a is Read,
        Phase::Stopping => asks_for(
            a,
            seq![PortStep::Send(Command::AverageStop)],
            Effect::Sampling(false),
        ),
        Phase::PoweringOff => asks_for(
            a,
            seq![PortStep::Send(Command::DeviceRunningSet(false))],
            Effect::Power(false),
        ),
        Phase::Finished => a is Finish,
    }
}

/// In each phase a recording and a live session do what is due; the voltage that
/// they set is that of their plan, and a recording waits as long as it decided.
pub proof fn law_sessions_do_what_is_due(
    record: &RecordSession,
    a: Action,
    live: &LiveSession,
    b: Action,
)
    requires
        call_ensures(RecordSession::action, (record,), a),
        call_ensures(LiveSession::action, (live,), b),
    ensures
        is_due(a, record@.phase, record@.plan.voltage_mv),
        record@.phase == Phase::Settling ==> a == (Action::Wait { pause: record@.pause }),
        is_due(b, live@.phase, live@.plan.voltage_mv),
{
}

/// A recording goes from phase to phase: it opens the device, sets the voltage,
/// turns power on, lets the device settle, starts the stream and samples; once it
/// stops, well or not, it turns power off unless it is to stay on. A request that
/// fails before sampling, or while power is turned off, ends it with its error.
pub proof fn law_recording_goes_from_phase_to_phase(
    s: RecordModel,
    now: u128,
    cancelled: bool,
    outcome: Result<(), Error>,
)
    ensures
        ({
            let t = record_next(s, now, cancelled, Event::Done(outcome), Seq::empty()).0;
            match s.phase {
                Phase::Opening => outcome is Ok ==> t.phase == Phase::SettingVoltage
                    && t.device.keep_power_on_drop == s.plan.keep_power,
                Phase::SettingVoltage => outcome is Ok ==> t.phase == Phase::PoweringOn,
                Phase::PoweringOn => outcome is Ok ==> t.settle_start == now && t.device.powered
                    && t.phase == if s.plan.settle == 0 {
                    Phase::Starting
                } else if !cancelled {
                    Phase::Settling
                } else if s.plan.keep_power {
                    Phase::Finished
                } else {
                    Phase::PoweringOff
                },
                Phase::Starting => outcome is Ok ==> t.sampling_start == now && t.device.sampling
                    && (t.phase == Phase::Sampling || t.phase == Phase::Stopping),
                Phase::Stopping => t.failure == s.failure && t.phase == if s.plan.keep_power {
                    Phase::Finished
                } else {
                    Phase::PoweringOff
                } && t.device.sampling == (s.device.sampling && outcome is Err),
                Phase::PoweringOff => t.phase == Phase::Finished && (outcome is Ok ==> t.failure
                    == s.failure && !t.device.powered),
                _ => t == s,
            }
        }),
        outcome matches Err(e) ==> {
            let t = record_next(s, now, cancelled, Event::Done(outcome), Seq::empty()).0;
            match s.phase {
                Phase::Opening
                | Phase::SettingVoltage
                | Phase::PoweringOn
                | Phase::Starting
                | Phase::PoweringOff => t.phase == Phase::Finished && t.failure == Some(e)
                    && t.device == s.device,
                _ => true,
            }
        },
{
}

/// A live session goes from phase to phase as a recording does, but does not let
/// the device settle.
pub proof fn law_monitoring_goes_from_phase_to_phase(
    s: LiveModel,
    now: u128,
    cancelled: bool,
    outcome: Result<(), Error>,
    tally: Tally,
)
    ensures
        ({
            let t = live_next(s, now, cancelled, Event::Done(outcome), tally).0;
            match s.phase {
                Phase::Opening => outcome is Ok ==> t.phase == Phase::SettingVoltage
                    && t.device.keep_power_on_drop == s.plan.keep_power,
                Phase::SettingVoltage => outcome is Ok ==> t.phase == Phase::PoweringOn,
                Phase::PoweringOn => outcome is Ok ==> t.phase == Phase::Starting
                    && t.device.powered,
                Phase::Starting => outcome is Ok ==> t.sampling_start == now && t.last_data == now
                    && t.last_update == now && t.device.sampling && (t.phase == Phase::Sampling
                    || t.phase == Phase::Stopping),
                Phase::Stopping => t.failure == s.failure && t.phase == if s.plan.keep_power {
                    Phase::Finished
                } else {
                    Phase::PoweringOff
                } && t.device.sampling == (s.device.sampling && outcome is Err),
                Phase::PoweringOff => t.phase == Phase::Finished && (outcome is Ok ==> t.failure
                    == s.failure && !t.device.powered),
                _ => t == s,
            }
        }),
        outcome matches Err(e) ==> {
            let t = live_next(s, now, cancelled, Event::Done(outcome), tally).0;
            match s.phase {
                Phase::Opening
                | Phase::SettingVoltage
                | Phase::PoweringOn
                | Phase::Starting
                | Phase::PoweringOff => t.phase == Phase::Finished && t.failure == Some(
                    LiveFault::Reported(e),
                ) && t.device == s.device,
                _ => true,
            }
        },
{
}

/// A finished recording carries the settings that it was made with, the times in
/// seconds among them, and the samples that were taken.
pub proof fn law_finished_recording_carries_its_settings<A: Arithmetic>(
    f: &A,
    session: RecordSession,
    config: &RecordConfig,
    created_unix_ms: u64,
    tool_version: String,
    calibrated: bool,
    rec: Recording,
)
    requires
        deterministic(f),
        rounds_in_order(f),
        config.settle <= EXACT_COUNTS,
        config.duration <= EXACT_COUNTS,
        call_ensures(
            RecordSession::finish::<A>,
            (session, f, config, created_unix_ms, tool_version, calibrated),
            Ok(rec),
        ),
    ensures
        rec.samples_ua@ == session@.samples,
        rec.meta.sps == config.sps,
        rec.meta.voltage_mv == config.voltage_mv,
        rec.meta.label == config.label,
        rec.meta.calibrated == calibrated,
        rec.meta.created_unix_ms == created_unix_ms,
        rec.meta.tool_version == tool_version,
        rec.meta.missed_samples == session@.missed,
        is_seconds(rec.meta.settle_secs, config.settle as int),
        is_seconds(rec.meta.duration_secs, config.duration as int),
        config.mode == MeasurementMode::Source ==> rec.meta.mode@ == "source"@,
        config.mode == MeasurementMode::Ampere ==> rec.meta.mode@ == "ampere"@,
{
    lemma_seconds_mean(f, config.settle);
    lemma_seconds_mean(f, config.duration);
}

/// Power is switched on at the voltage, which is set first, and then kept on, or
/// it is switched off.
pub proof fn law_power_is_switched_at_the_voltage(
    device: &Device,
    voltage_mv: Option<u16>,
    plan: PowerPlan,
)
    requires
        call_ensures(switch_power, (device, voltage_mv), plan),
    ensures
        match voltage_mv {
            Some(mv) => {
                &&& plan.keep_power
                &&& plan.requests@.len() == 2
                &&& plan.requests@[0].steps@ == seq![PortStep::Send(Command::RegulatorSet(mv))]
                &&& plan.requests@[1].steps@ == seq![
                    PortStep::Send(Command::DeviceRunningSet(true)),
                ]
                &&& plan.requests@[1].effect == Effect::Power(true)
            },
            None => {
                &&& !plan.keep_power
                &&& plan.requests@.len() == 1
                &&& plan.requests@[0].steps@ == seq![
                    PortStep::Send(Command::DeviceRunningSet(false)),
                ]
                &&& plan.requests@[0].effect == Effect::Power(false)
            },
        },
{
}

/// A metadata response is complete where it ends with "END" and a line feed.
pub proof fn law_response_ends_with_end(response: &Vec<u8>, r: bool)
    requires
        call_ensures(response_complete, (response,), r),
    ensures
        r <==> {
            let n = response@.len() as int;
            &&& n >= 4
            &&& response@[n - 4] == 'E' as u8 && response@[n - 3] == 'N' as u8
            &&& response@[n - 2] == 'D' as u8 && response@[n - 1] == 10
        },
{
    let s = response@;
    let n = s.len() as int;
    if n >= 4 {
        let tail = s.subrange(n - 4, n);
        let end = seq![0x45u8, 0x4e, 0x44, 0x0a];
        assert(tail[0] == s[n - 4] && tail[1] == s[n - 3] && tail[2] == s[n - 2] && tail[3] == s[n
            - 1]);
        assert(end[0] == 0x45 && end[1] == 0x4e && end[2] == 0x44 && end[3] == 0x0a);
        if s[n - 4] == 0x45 && s[n - 3] == 0x4e && s[n - 2] == 0x44 && s[n - 1] == 0x0a {
            assert(tail =~= end);
        }
    }
}

/// Opening stops what an earlier session left running, asks for the metadata,
/// collects it until it is complete, and sets the mode. What arrived is kept in
/// order. An attempt that fails, by an error or because three seconds passed
/// before the response was complete, is followed by another; the third ends
/// opening with an error.
pub proof fn law_opening_goes_from_phase_to_phase(
    s: OpeningModel,
    now: u128,
    event: OpenEvent,
    t: OpeningModel,
)
    requires
        opening_wf(s),
        s.asked_at <= now,
        opening_step(s, now, event, t),
    ensures
        t.mode == s.mode,
        event is Done && event->Done_0 is Ok ==> match s.phase {
            OpenPhase::Quiescing => t.phase == OpenPhase::Asking,
            OpenPhase::Asking => t.phase == OpenPhase::Collecting && t.response.len() == 0
                && t.asked_at == now,
            OpenPhase::SettingMode => t.phase == OpenPhase::Closed && t.failure is None,
            _ => t == s,
        },
        s.phase == OpenPhase::Parsing && event is Parsed && event->Parsed_0 is Ok ==> t.phase
            == OpenPhase::SettingMode,
        s.phase == OpenPhase::Collecting ==> match event {
            OpenEvent::Arrived(bytes) => t.response == s.response + bytes@,
            _ => t.response == s.response,
        },
        s.phase == OpenPhase::Collecting && (event is Arrived || event is Quiet) ==> if complete(
            t.response,
        ) {
            t.phase == OpenPhase::Parsing && t.attempts == s.attempts
        } else if now - s.asked_at > 3_000_000_000 {
            t.attempts == s.attempts + 1
        } else {
            t.phase == OpenPhase::Collecting && t.attempts == s.attempts
        },
        s.phase == OpenPhase::Asking && event is Done && event->Done_0 is Err ==> t.attempts
            == s.attempts + 1,
        s.phase == OpenPhase::Collecting && event is ReadFailed ==> t.attempts == s.attempts + 1,
        s.phase == OpenPhase::Parsing && event is Parsed && event->Parsed_0 is Err ==> t.attempts
            == s.attempts + 1,
        t.attempts > s.attempts ==> if t.attempts < 3 {
            t.phase == OpenPhase::Asking && t.failure is None
        } else {
            t.phase == OpenPhase::Closed && t.failure is Some
        },
{
}

/// Whole counts of a number that is not negative and far from the largest count:
/// the one at or below it, the one at or above it, and the nearest, of two equally
/// near the higher.
pub proof fn law_counts_lie_around_a_number(
    x: Double,
    floor: usize,
    ceil: usize,
    round: usize,
)
    requires
        x.finite(),
        0 <= x.value() < (usize::MAX - 1) * Double::unit(),
        call_ensures(Double::floor_count, (&x,), floor),
        call_ensures(Double::ceil_count, (&x,), ceil),
        call_ensures(Double::round_count, (&x,), round),
    ensures
        floor * Double::unit() <= x.value() < (floor + 1) * Double::unit(),
        (ceil - 1) * Double::unit() < x.value() <= ceil * Double::unit(),
        (2 * round - 1) * Double::unit() <= 2 * x.value() < (2 * round + 1) * Double::unit(),
{
    let u = Double::unit();
    let v = x.value();
    let m = usize::MAX as int;
    lemma_pow2_pos(1074);
    vstd::arithmetic::div_mod::lemma_fundamental_div_mod(v, u);
    vstd::arithmetic::div_mod::lemma_fundamental_div_mod(-v, u);
    vstd::arithmetic::div_mod::lemma_fundamental_div_mod(2 * v + u, 2 * u);
    let a = v / u;
    let b = (-v) / u;
    let c = (2 * v + u) / (2 * u);
    assert(0 <= a && a < m && a * u <= v && v < (a + 1) * u) by (nonlinear_arith)
        requires
            v == u * a + v % u,
            0 <= v % u < u,
            0 <= v < (m - 1) * u,
            u > 0,
    ;
    assert(0 <= -b && -b < m && (-b - 1) * u < v && v <= -b * u) by (nonlinear_arith)
        requires
            -v == u * b + (-v) % u,
            0 <= (-v) % u < u,
            0 <= v < (m - 1) * u,
            u > 0,
    ;
    assert(0 <= c && c <= m && (2 * c - 1) * u <= 2 * v && 2 * v < (2 * c + 1) * u)
        by (nonlinear_arith)
        requires
            2 * v + u == (2 * u) * c + (2 * v + u) % (2 * u),
            0 <= (2 * v + u) % (2 * u) < 2 * u,
            0 <= v < (m - 1) * u,
            u > 0,
    ;
}

/// A number held between zero and one is itself where it lies there, and else the
/// nearer of the two.
pub proof fn law_held_number_lies_in_the_unit(x: Double, r: Double)
    requires
        x.finite(),
        call_ensures(Double::clamp_unit, (&x,), r),
    ensures
        r.finite(),
        r.value() == if x.value() < 0 {
            0
        } else if x.value() > Double::unit() {
            Double::unit()
        } else {
            x.value()
        },
{
    lemma_named_numbers();
    lemma_pow2_pos(1074);
    assert((Double { bits: ZERO }).finite() && (Double { bits: ONE }).finite());
}

/// A sample rate is accepted where it divides the 100 000 raw samples a second of
/// the device, and a voltage from 800 to 5000 millivolt; a recording is laid out
/// where both are accepted, and only there.
pub proof fn law_settings_are_accepted_within_bounds<A: Arithmetic>(
    f: &A,
    config: &RecordConfig,
    rate: Result<(), Error>,
    voltage: Result<(), Error>,
    plan: Result<RecordPlan, Error>,
)
    requires
        call_ensures(validate_sps, (config.sps,), rate),
        call_ensures(validate_voltage, (config.voltage_mv,), voltage),
        call_ensures(RecordPlan::new::<A>, (f, config), plan),
    ensures
        rate is Ok <==> 1 <= config.sps <= 100_000 && 100_000u32 % config.sps == 0,
        voltage is Ok <==> 800 <= config.voltage_mv <= 5000,
        plan is Ok <==> rate is Ok && voltage is Ok,
        plan matches Ok(p) ==> p.voltage_mv == config.voltage_mv && p.settle == config.settle
            && p.keep_power == config.keep_power,
{
}

} // verus!
