//! The PPK2 as seen over its serial port.
//!
//! The caller owns the port. This module says what to do with it: each
//! operation on the device is a [`Request`], a list of [`PortStep`]s to carry
//! out in order until one fails, whose outcome is handed back to
//! [`Device::completed`]. What the device was told is kept in [`Device`], so
//! that it can be put back into its initial state on every exit path.

use vstd::prelude::*;
use vstd::string::*;

use crate::error::Error;

verus! {

/// Device current measurement mode.
#[derive(Clone, Copy, Debug, PartialEq, Eq, Structural)]
pub enum MeasurementMode {
    /// The PPK2 acts as an ammeter in series.
    Ampere,
    /// The PPK2 powers the device under test.
    Source,
}

/// Commands that the PPK2 is sent.
#[derive(Clone, Copy, Debug, PartialEq, Eq, Structural)]
pub enum Command {
    /// Start the measurement stream.
    AverageStart,
    /// Stop the measurement stream.
    AverageStop,
    /// Turn power to the device under test on or off.
    DeviceRunningSet(bool),
    /// Set the source voltage in millivolt.
    RegulatorSet(u16),
    /// Set the measurement mode.
    SetPowerMode(MeasurementMode),
    /// Ask for the device metadata.
    GetMetaData,
}

/// One thing to do with the serial port.
#[derive(Clone, Copy, Debug, PartialEq, Eq, Structural)]
pub enum PortStep {
    /// Send a command.
    Send(Command),
    /// Discard what was received and not yet read.
    ClearInput,
    /// Discard what was received or is waiting to be sent.
    ClearAll,
    /// Let time pass.
    Pause {
        /// How long, in milliseconds.
        millis: u64,
    },
}

/// What a request, once carried out, means for the state of the device.
#[derive(Clone, Copy, Debug, PartialEq, Eq, Structural)]
pub enum Effect {
    /// Nothing that is kept track of.
    Untracked,
    /// Power to the device under test is on or off.
    Power(bool),
    /// The measurement stream is on or off.
    Sampling(bool),
}

/// An operation on the device.
#[derive(Debug)]
pub struct Request {
    /// What to do, in order, until a step fails.
    pub steps: Vec<PortStep>,
    /// What holds once every step was done.
    pub effect: Effect,
}

/// What a PPK2 is doing, as far as commands set it.
pub struct Hardware {
    /// Whether it sends the measurement stream.
    pub streaming: bool,
    /// Whether it powers the device under test.
    pub powering: bool,
}

/// What a PPK2 does after one command.
pub open spec fn commanded(h: Hardware, c: Command) -> Hardware {
    match c {
        Command::AverageStart => Hardware { streaming: true, ..h },
        Command::AverageStop => Hardware { streaming: false, ..h },
        Command::DeviceRunningSet(on) => Hardware { powering: on, ..h },
        _ => h,
    }
}

/// What a PPK2 does after a sequence of commands.
pub open spec fn commanded_all(h: Hardware, cs: Seq<Command>) -> Hardware
    decreases cs.len(),
{
    if cs.len() == 0 {
        h
    } else {
        commanded(commanded_all(h, cs.drop_last()), cs.last())
    }
}

/// What a PPK2 does after the steps of a request.
pub open spec fn stepped_through(h: Hardware, steps: Seq<PortStep>) -> Hardware
    decreases steps.len(),
{
    if steps.len() == 0 {
        h
    } else {
        match steps.last() {
            PortStep::Send(c) => commanded(stepped_through(h, steps.drop_last()), c),
            _ => stepped_through(h, steps.drop_last()),
        }
    }
}

/// A PPK2 device.
///
/// Releasing the handle restores the PPK2 to its initial state as a safety
/// net: the measurement stream is stopped and power to the device under test
/// is turned off (unless [`Device::keep_power_on_drop`] was set). The caller
/// does this on every exit path — errors, panics, and graceful signal shutdown
/// alike.
#[derive(Clone, Copy, Debug)]
pub struct Device {
    sampling: bool,
    powered: bool,
    keep_power_on_drop: bool,
}

/// What a [`Device`] keeps track of.
pub struct DeviceModel {
    /// Whether the measurement stream was started and not stopped.
    pub sampling: bool,
    /// Whether power to the device under test was turned on and not off.
    pub powered: bool,
    /// Whether power stays on when the handle is released.
    pub keep_power_on_drop: bool,
}

impl View for Device {
    type V = DeviceModel;

    closed spec fn view(&self) -> DeviceModel {
        DeviceModel {
            sampling: self.sampling,
            powered: self.powered,
            keep_power_on_drop: self.keep_power_on_drop,
        }
    }
}

/// The state of the device after a request with the given effect went well.
pub open spec fn affected(d: DeviceModel, effect: Effect) -> DeviceModel {
    match effect {
        Effect::Untracked => d,
        Effect::Power(on) => DeviceModel { powered: on, ..d },
        Effect::Sampling(on) => DeviceModel { sampling: on, ..d },
    }
}

/// The commands that put the device back into its initial state.
pub open spec fn release_commands(d: DeviceModel) -> Seq<Command> {
    (if d.sampling {
        seq![Command::AverageStop]
    } else {
        Seq::empty()
    }) + (if d.powered && !d.keep_power_on_drop {
        seq![Command::DeviceRunningSet(false)]
    } else {
        Seq::empty()
    })
}

/// How a read from the port ended.
#[derive(Debug)]
pub enum PortRead {
    /// So many bytes arrived.
    Bytes(usize),
    /// Nothing arrived within the port timeout.
    TimedOut,
    /// The port failed.
    Failed(Error),
}

impl Device {
    /// The state of a device that was just opened.
    pub fn new() -> (r: Self)
        ensures
            r@ == (DeviceModel { sampling: false, powered: false, keep_power_on_drop: false }),
    {
        Device { sampling: false, powered: false, keep_power_on_drop: false }
    }

    /// Set the source voltage in millivolt.
    pub fn set_source_voltage(&self, mv: u16) -> (r: Request)
        ensures
            r.steps@ == seq![PortStep::Send(Command::RegulatorSet(mv))],
            r.effect == Effect::Untracked,
    {
        let steps = vec![PortStep::Send(Command::RegulatorSet(mv))];
        assert(steps@ =~= seq![PortStep::Send(Command::RegulatorSet(mv))]);
        Request { steps, effect: Effect::Untracked }
    }

    /// Enable or disable power to the device under test.
    pub fn set_device_power(&self, on: bool) -> (r: Request)
        ensures
            r.steps@ == seq![PortStep::Send(Command::DeviceRunningSet(on))],
            r.effect == Effect::Power(on),
    {
        let steps = vec![PortStep::Send(Command::DeviceRunningSet(on))];
        assert(steps@ =~= seq![PortStep::Send(Command::DeviceRunningSet(on))]);
        Request { steps, effect: Effect::Power(on) }
    }

    /// Leave power to the device under test on when this handle is released,
    /// instead of turning it off.
    pub fn keep_power_on_drop(&mut self, keep: bool)
        ensures
            final(self)@ == (DeviceModel { keep_power_on_drop: keep, ..old(self)@ }),
    {
        self.keep_power_on_drop = keep;
    }

    /// Start the measurement stream; stale input is discarded first, so that
    /// the stream starts frame-aligned.
    pub fn start_sampling(&self) -> (r: Request)
        ensures
            r.steps@ == seq![PortStep::ClearInput, PortStep::Send(Command::AverageStart)],
            r.effect == Effect::Sampling(true),
    {
        let steps = vec![PortStep::ClearInput, PortStep::Send(Command::AverageStart)];
        assert(steps@ =~= seq![PortStep::ClearInput, PortStep::Send(Command::AverageStart)]);
        Request { steps, effect: Effect::Sampling(true) }
    }

    /// Stop the measurement stream.
    pub fn stop_sampling(&self) -> (r: Request)
        ensures
            r.steps@ == seq![PortStep::Send(Command::AverageStop)],
            r.effect == Effect::Sampling(false),
    {
        let steps = vec![PortStep::Send(Command::AverageStop)];
        assert(steps@ =~= seq![PortStep::Send(Command::AverageStop)]);
        Request { steps, effect: Effect::Sampling(false) }
    }

    /// Takes note of how a request ended: a request that failed changes
    /// nothing.
    pub fn completed(&mut self, effect: Effect, outcome: Result<(), Error>) -> (r: Result<
        (),
        Error,
    >)
        ensures
            r == outcome,
            final(self)@ == if outcome is Ok {
                affected(old(self)@, effect)
            } else {
                old(self)@
            },
    {
        if outcome.is_ok() {
            match effect {
                Effect::Untracked => {},
                Effect::Power(on) => {
                    self.powered = on;
                },
                Effect::Sampling(on) => {
                    self.sampling = on;
                },
            }
        }
        outcome
    }

    /// The number of raw stream bytes that a read gave: none when no data
    /// arrived within the port timeout.
    pub fn read_stream(read: PortRead) -> (r: Result<usize, Error>)
        ensures
            r == match read {
                PortRead::Bytes(n) => Ok::<usize, Error>(n),
                PortRead::TimedOut => Ok::<usize, Error>(0),
                PortRead::Failed(e) => Err::<usize, Error>(e),
            },
    {
        match read {
            PortRead::Bytes(n) => Ok(n),
            PortRead::TimedOut => Ok(0),
            PortRead::Failed(e) => Err(e),
        }
    }

    /// The commands that put the device back into its initial state.
    pub fn release(&self) -> (r: Vec<Command>)
        ensures
            r@ == release_commands(self@),
    {
        let mut r: Vec<Command> = Vec::new();
        if self.sampling {
            r.push(Command::AverageStop);
        }
        if self.powered && !self.keep_power_on_drop {
            r.push(Command::DeviceRunningSet(false));
        }
        assert(r@ =~= release_commands(self@));
        r
    }
}

/// Whether the handle knows of all that the device is doing.
pub open spec fn tracks(d: DeviceModel, h: Hardware) -> bool {
    (h.streaming ==> d.sampling) && (h.powering ==> d.powered)
}

/// Releasing a handle that knows of all that the device is doing stops the
/// stream and turns power off, unless power was asked to stay on.
pub proof fn law_release_restores(d: DeviceModel, h: Hardware)
    requires
        tracks(d, h),
    ensures
        !commanded_all(h, release_commands(d)).streaming,
        commanded_all(h, release_commands(d)).powering ==> d.keep_power_on_drop,
        d.keep_power_on_drop ==> commanded_all(h, release_commands(d)).powering == h.powering,
{
    reveal_with_fuel(commanded_all, 3);
    let cs = release_commands(d);
    if d.sampling && d.powered && !d.keep_power_on_drop {
        assert(cs =~= seq![Command::AverageStop, Command::DeviceRunningSet(false)]);
        assert(cs.drop_last() =~= seq![Command::AverageStop]);
        assert(cs.drop_last().drop_last() =~= Seq::<Command>::empty());
    } else if d.sampling {
        assert(cs =~= seq![Command::AverageStop]);
        assert(cs.drop_last() =~= Seq::<Command>::empty());
    } else if d.powered && !d.keep_power_on_drop {
        assert(cs =~= seq![Command::DeviceRunningSet(false)]);
        assert(cs.drop_last() =~= Seq::<Command>::empty());
    } else {
        assert(cs =~= Seq::<Command>::empty());
    }
}

/// How power to the device under test is switched without sampling.
#[derive(Debug)]
pub struct PowerPlan {
    /// Whether power stays on when the handle is released.
    pub keep_power: bool,
    /// What to carry out, in order, until a request fails.
    pub requests: Vec<Request>,
}

/// Whether `plan` switches power on at a voltage in millivolt, or off.
pub open spec fn switches_power(plan: PowerPlan, voltage_mv: Option<u16>) -> bool {
    match voltage_mv {
        Some(mv) => {
            &&& plan.keep_power
            &&& plan.requests@.len() == 2
            &&& plan.requests@[0].steps@ == seq![PortStep::Send(Command::RegulatorSet(mv))]
            &&& plan.requests@[0].effect == Effect::Untracked
            &&& plan.requests@[1].steps@ == seq![PortStep::Send(Command::DeviceRunningSet(true))]
            &&& plan.requests@[1].effect == Effect::Power(true)
        },
        None => {
            &&& !plan.keep_power
            &&& plan.requests@.len() == 1
            &&& plan.requests@[0].steps@ == seq![PortStep::Send(Command::DeviceRunningSet(false))]
            &&& plan.requests@[0].effect == Effect::Power(false)
        },
    }
}

/// Switches power on at a voltage in millivolt and leaves it on, or switches it
/// off.
pub fn switch_power(device: &Device, voltage_mv: Option<u16>) -> (r: PowerPlan)
    ensures
        switches_power(r, voltage_mv),
{
    let mut requests: Vec<Request> = Vec::new();
    match voltage_mv {
        Some(mv) => {
            requests.push(device.set_source_voltage(mv));
            requests.push(device.set_device_power(true));
            PowerPlan { keep_power: true, requests }
        },
        None => {
            requests.push(device.set_device_power(false));
            PowerPlan { keep_power: false, requests }
        },
    }
}

/// What the handle knows and what the device does after requests that all went
/// well.
pub open spec fn carried_out(d: DeviceModel, h: Hardware, requests: Seq<Request>) -> (
    DeviceModel,
    Hardware,
)
    decreases requests.len(),
{
    if requests.len() == 0 {
        (d, h)
    } else {
        let (e, i) = carried_out(d, h, requests.drop_last());
        (affected(e, requests.last().effect), stepped_through(i, requests.last().steps@))
    }
}

/// Power that was switched on stays on after the handle is released, and power
/// that was switched off stays off.
pub proof fn law_switched_power_lasts(plan: PowerPlan, voltage_mv: Option<u16>, h: Hardware)
    requires
        switches_power(plan, voltage_mv),
    ensures
        ({
            let d = DeviceModel {
                sampling: false,
                powered: false,
                keep_power_on_drop: plan.keep_power,
            };
            let (e, i) = carried_out(d, h, plan.requests@);
            commanded_all(i, release_commands(e)).powering == voltage_mv is Some
        }),
{
    reveal_with_fuel(carried_out, 3);
    reveal_with_fuel(stepped_through, 2);
    let d = DeviceModel { sampling: false, powered: false, keep_power_on_drop: plan.keep_power };
    let qs = plan.requests@;
    let (e, i) = carried_out(d, h, qs);
    assert(qs.drop_last().len() == qs.len() - 1);
    assert(release_commands(e) =~= Seq::<Command>::empty());
}

/// How often the metadata is asked for before opening fails.
pub const METADATA_ATTEMPTS: u8 = 3;

/// Nanoseconds that a metadata response may take.
pub const METADATA_NANOS: u128 = 3_000_000_000;

/// What opening a device waits for.
#[derive(Clone, Copy, Debug, PartialEq, Eq, Structural)]
pub enum OpenPhase {
    /// Waiting until the stream of an earlier session is stopped and gone.
    Quiescing,
    /// Waiting until the device was asked for its metadata.
    Asking,
    /// Waiting for more of the metadata.
    Collecting,
    /// Waiting until the metadata was parsed.
    Parsing,
    /// Waiting until the measurement mode was set.
    SettingMode,
    /// Nothing: the device is open, or opening has failed.
    Closed,
}

/// What the caller is to do next to open a device.
#[derive(Debug)]
pub enum OpenAction {
    /// Carry out a request and answer with [`OpenEvent::Done`].
    Perform(Request),
    /// Read from the port and answer with [`OpenEvent::Arrived`],
    /// [`OpenEvent::Quiet`] or [`OpenEvent::ReadFailed`].
    Read,
    /// Parse [`Opening::response`] and answer with [`OpenEvent::Parsed`].
    Parse,
    /// Nothing more; [`Opening::finish`] has the outcome.
    Finished,
}

/// What came of an [`OpenAction`].
#[derive(Debug)]
pub enum OpenEvent {
    /// A request was carried out, or failed.
    Done(Result<(), Error>),
    /// These bytes were read.
    Arrived(Vec<u8>),
    /// Nothing arrived within the port timeout.
    Quiet,
    /// The port failed.
    ReadFailed(Error),
    /// The metadata was parsed, or is malformed.
    Parsed(Result<(), Error>),
}

/// The opening of a device: stops what an earlier session left running, reads
/// the device metadata, and sets the measurement mode.
pub struct Opening {
    mode: MeasurementMode,
    phase: OpenPhase,
    attempts: u8,
    response: Vec<u8>,
    asked_at: u128,
    failure: Option<Error>,
}

/// What an [`Opening`] has come to.
pub struct OpeningModel {
    /// The measurement mode to set.
    pub mode: MeasurementMode,
    /// What is waited for.
    pub phase: OpenPhase,
    /// How many metadata attempts have failed.
    pub attempts: int,
    /// What the device has sent of its metadata.
    pub response: Seq<u8>,
    /// When the device was asked, in nanoseconds.
    pub asked_at: u128,
    /// Why opening failed.
    pub failure: Option<Error>,
}

impl View for Opening {
    type V = OpeningModel;

    closed spec fn view(&self) -> OpeningModel {
        OpeningModel {
            mode: self.mode,
            phase: self.phase,
            attempts: self.attempts as int,
            response: self.response@,
            asked_at: self.asked_at,
            failure: self.failure,
        }
    }
}

/// Whether a metadata response is complete: it ends with "END" and a newline.
pub open spec fn complete(response: Seq<u8>) -> bool {
    response.len() >= 4 && response.subrange(response.len() - 4, response.len() as int)
        == seq![0x45u8, 0x4e, 0x44, 0x0a]
}

/// Whether a metadata response is complete: it ends with "END" and a newline.
pub fn response_complete(response: &Vec<u8>) -> (r: bool)
    ensures
        r == complete(response@),
{
    let n: usize = response.len();
    if n < 4 {
        return false;
    }
    let r = response[n - 4] == 0x45 && response[n - 3] == 0x4e && response[n - 2] == 0x44
        && response[n - 1] == 0x0a;
    proof {
        let tail = response@.subrange(n - 4, n as int);
        let end = seq![0x45u8, 0x4e, 0x44, 0x0a];
        assert(tail[0] == response@[n - 4] && tail[1] == response@[n - 3] && tail[2]
            == response@[n - 2] && tail[3] == response@[n - 1]);
        assert(end[0] == 0x45 && end[1] == 0x4e && end[2] == 0x44 && end[3] == 0x0a);
        if r {
            assert(tail =~= end);
        }
    }
    r
}

/// The time from `start` to `now`; none where the clock seems to run backwards.
pub open spec fn since(now: u128, start: u128) -> u128 {
    if now >= start {
        (now - start) as u128
    } else {
        0
    }
}

/// The time from `start` to `now`.
pub fn elapsed(now: u128, start: u128) -> (r: u128)
    ensures
        r == since(now, start),
{
    if now >= start {
        now - start
    } else {
        0
    }
}

/// Whether `e` is the error of a metadata response that did not end in time.
pub open spec fn metadata_timeout(e: Error) -> bool {
    e matches Error::Device(m) && m@ == "timed out reading device metadata"@
}

/// `s` ended with the error `e`.
pub open spec fn opening_failed(s: OpeningModel, e: Error) -> OpeningModel {
    OpeningModel { phase: OpenPhase::Closed, failure: Some(e), ..s }
}

/// `s` after a failed metadata attempt: asked again, or failed for good.
pub open spec fn attempt_failed(s: OpeningModel, e: Error) -> OpeningModel {
    if s.attempts + 1 < METADATA_ATTEMPTS {
        OpeningModel { phase: OpenPhase::Asking, attempts: s.attempts + 1, ..s }
    } else {
        OpeningModel { attempts: s.attempts + 1, ..opening_failed(s, e) }
    }
}

/// Whether `t` follows `s` when `event` happens at `now`. An event that does
/// not answer the current action changes nothing.
pub open spec fn opening_step(
    s: OpeningModel,
    now: u128,
    event: OpenEvent,
    t: OpeningModel,
) -> bool {
    match (s.phase, event) {
        (OpenPhase::Quiescing, OpenEvent::Done(Ok(_))) => t == (OpeningModel {
            phase: OpenPhase::Asking,
            ..s
        }),
        (OpenPhase::Quiescing, OpenEvent::Done(Err(e))) => t == opening_failed(s, e),
        (OpenPhase::Asking, OpenEvent::Done(Ok(_))) => t == (OpeningModel {
            phase: OpenPhase::Collecting,
            response: Seq::empty(),
            asked_at: now,
            ..s
        }),
        (OpenPhase::Asking, OpenEvent::Done(Err(e))) => t == attempt_failed(s, e),
        (OpenPhase::Collecting, OpenEvent::Arrived(bytes)) => collecting_step(
            OpeningModel { response: s.response + bytes@, ..s },
            now,
            t,
        ),
        (OpenPhase::Collecting, OpenEvent::Quiet) => collecting_step(s, now, t),
        (OpenPhase::Collecting, OpenEvent::ReadFailed(e)) => t == attempt_failed(s, e),
        (OpenPhase::Parsing, OpenEvent::Parsed(Ok(_))) => t == (OpeningModel {
            phase: OpenPhase::SettingMode,
            ..s
        }),
        (OpenPhase::Parsing, OpenEvent::Parsed(Err(e))) => t == attempt_failed(s, e),
        (OpenPhase::SettingMode, OpenEvent::Done(Ok(_))) => t == (OpeningModel {
            phase: OpenPhase::Closed,
            ..s
        }),
        (OpenPhase::SettingMode, OpenEvent::Done(Err(e))) => t == opening_failed(s, e),
        _ => t == s,
    }
}

/// Whether `t` follows `s` while metadata is collected: parsed once complete,
/// given up once too late, else read on.
pub open spec fn collecting_step(s: OpeningModel, now: u128, t: OpeningModel) -> bool {
    if complete(s.response) {
        t == (OpeningModel { phase: OpenPhase::Parsing, ..s })
    } else if since(now, s.asked_at) > METADATA_NANOS {
        exists|e: Error| #[trigger] metadata_timeout(e) && t == attempt_failed(s, e)
    } else {
        t == s
    }
}

/// Whether `a` is what is to be done in the state `s`.
pub open spec fn opening_action(s: OpeningModel, a: OpenAction) -> bool {
    match s.phase {
        OpenPhase::Quiescing => a matches OpenAction::Perform(q) && q.effect == Effect::Untracked
            && q.steps@ == seq![
            PortStep::Send(Command::AverageStop),
            PortStep::Pause { millis: 100 },
            PortStep::ClearAll,
        ],
        OpenPhase::Asking => a matches OpenAction::Perform(q) && q.effect == Effect::Untracked
            && q.steps@ == seq![PortStep::ClearInput, PortStep::Send(Command::GetMetaData)],
        OpenPhase::Collecting => a is Read,
        OpenPhase::Parsing => a is Parse,
        OpenPhase::SettingMode => a matches OpenAction::Perform(q) && q.effect == Effect::Untracked
            && q.steps@ == seq![PortStep::Send(Command::SetPowerMode(s.mode))],
        OpenPhase::Closed => a is Finished,
    }
}

/// What holds of every opening.
pub open spec fn opening_wf(s: OpeningModel) -> bool {
    &&& 0 <= s.attempts <= METADATA_ATTEMPTS
    &&& s.phase != OpenPhase::Closed ==> s.attempts < METADATA_ATTEMPTS && s.failure is None
    &&& s.phase == OpenPhase::Parsing || s.phase == OpenPhase::SettingMode || (s.phase
        == OpenPhase::Closed && s.failure is None) ==> complete(s.response)
}

impl Opening {
    /// The state is one that opening can come to.
    pub closed spec fn wf(&self) -> bool {
        opening_wf(self@)
    }

    /// Starts opening a device in the given mode; the first action is
    /// [`Opening::action`].
    pub fn new(mode: MeasurementMode) -> (r: Self)
        ensures
            r.wf(),
            r@ == (OpeningModel {
                mode,
                phase: OpenPhase::Quiescing,
                attempts: 0,
                response: Seq::empty(),
                asked_at: 0,
                failure: None,
            }),
    {
        Opening {
            mode,
            phase: OpenPhase::Quiescing,
            attempts: 0,
            response: Vec::new(),
            asked_at: 0,
            failure: None,
        }
    }

    /// What is to be done next.
    pub fn action(&self) -> (r: OpenAction)
        ensures
            opening_action(self@, r),
    {
        match self.phase {
            OpenPhase::Quiescing => {
                let steps = vec![
                    PortStep::Send(Command::AverageStop),
                    PortStep::Pause { millis: 100 },
                    PortStep::ClearAll,
                ];
                assert(steps@ =~= seq![
                    PortStep::Send(Command::AverageStop),
                    PortStep::Pause { millis: 100 },
                    PortStep::ClearAll,
                ]);
                OpenAction::Perform(Request { steps, effect: Effect::Untracked })
            },
            OpenPhase::Asking => {
                let steps = vec![PortStep::ClearInput, PortStep::Send(Command::GetMetaData)];
                assert(steps@ =~= seq![PortStep::ClearInput, PortStep::Send(Command::GetMetaData)]);
                OpenAction::Perform(Request { steps, effect: Effect::Untracked })
            },
            OpenPhase::Collecting => OpenAction::Read,
            OpenPhase::Parsing => OpenAction::Parse,
            OpenPhase::SettingMode => {
                let steps = vec![PortStep::Send(Command::SetPowerMode(self.mode))];
                assert(steps@ =~= seq![PortStep::Send(Command::SetPowerMode(self.mode))]);
                OpenAction::Perform(Request { steps, effect: Effect::Untracked })
            },
            OpenPhase::Closed => OpenAction::Finished,
        }
    }

    /// Ask for the metadata again, or fail for good.
    fn attempt_failed(&mut self, e: Error)
        requires
            old(self)@.attempts < METADATA_ATTEMPTS,
        ensures
            final(self)@ == attempt_failed(old(self)@, e),
    {
        self.attempts = self.attempts + 1;
        if self.attempts < METADATA_ATTEMPTS {
            self.phase = OpenPhase::Asking;
        } else {
            self.phase = OpenPhase::Closed;
            self.failure = Some(e);
        }
    }

    /// Parse what was collected, give up, or read on.
    fn collect(&mut self, now: u128)
        requires
            old(self)@.attempts < METADATA_ATTEMPTS,
        ensures
            collecting_step(old(self)@, now, final(self)@),
    {
        if response_complete(&self.response) {
            self.phase = OpenPhase::Parsing;
        } else if elapsed(now, self.asked_at) > METADATA_NANOS {
            let e = Error::Device("timed out reading device metadata".to_owned());
            assert(metadata_timeout(e));
            self.attempt_failed(e);
        }
    }

    /// Takes an event at the time `now`, in nanoseconds, and gives what is to
    /// be done next. An event that does not answer the current action changes
    /// nothing.
    pub fn step(&mut self, now: u128, event: OpenEvent) -> (r: OpenAction)
        requires
            old(self).wf(),
        ensures
            final(self).wf(),
            opening_step(old(self)@, now, event, final(self)@),
            opening_action(final(self)@, r),
    {
        match self.phase {
            OpenPhase::Quiescing => match event {
                OpenEvent::Done(Ok(_)) => {
                    self.phase = OpenPhase::Asking;
                },
                OpenEvent::Done(Err(e)) => {
                    self.phase = OpenPhase::Closed;
                    self.failure = Some(e);
                },
                _ => {},
            },
            OpenPhase::Asking => match event {
                OpenEvent::Done(Ok(_)) => {
                    self.phase = OpenPhase::Collecting;
                    self.response = Vec::new();
                    self.asked_at = now;
                },
                OpenEvent::Done(Err(e)) => {
                    self.attempt_failed(e);
                },
                _ => {},
            },
            OpenPhase::Collecting => match event {
                OpenEvent::Arrived(bytes) => {
                    let ghost before = self.response@;
                    self.response.extend_from_slice(bytes.as_slice());
                    assert(self.response@ =~= before + bytes@);
                    self.collect(now);
                },
                OpenEvent::Quiet => {
                    self.collect(now);
                },
                OpenEvent::ReadFailed(e) => {
                    self.attempt_failed(e);
                },
                _ => {},
            },
            OpenPhase::Parsing => match event {
                OpenEvent::Parsed(Ok(_)) => {
                    self.phase = OpenPhase::SettingMode;
                },
                OpenEvent::Parsed(Err(e)) => {
                    self.attempt_failed(e);
                },
                _ => {},
            },
            OpenPhase::SettingMode => match event {
                OpenEvent::Done(Ok(_)) => {
                    self.phase = OpenPhase::Closed;
                },
                OpenEvent::Done(Err(e)) => {
                    self.phase = OpenPhase::Closed;
                    self.failure = Some(e);
                },
                _ => {},
            },
            OpenPhase::Closed => {},
        }
        self.action()
    }

    /// What the device has sent of its metadata.
    pub fn response(&self) -> (r: &Vec<u8>)
        ensures
            r@ == self@.response,
    {
        &self.response
    }

    /// The state of the opened device, or why it could not be opened; to be
    /// taken when nothing is left to do.
    pub fn finish(self) -> (r: Result<Device, Error>)
        requires
            self@.phase == OpenPhase::Closed,
        ensures
            match self@.failure {
                Some(e) => r == Err::<Device, Error>(e),
                None => r matches Ok(d) && d@ == (DeviceModel {
                    sampling: false,
                    powered: false,
                    keep_power_on_drop: false,
                }),
            },
    {
        match self.failure {
            Some(e) => Err(e),
            None => Ok(Device::new()),
        }
    }
}

/// The metadata is asked for at most three times, and a device is open only
/// after a complete response.
pub proof fn law_opening_is_bounded(s: OpeningModel, now: u128, event: OpenEvent, t: OpeningModel)
    requires
        opening_wf(s),
        opening_step(s, now, event, t),
    ensures
        opening_wf(t),
        t.attempts <= METADATA_ATTEMPTS,
        s.attempts <= t.attempts <= s.attempts + 1,
        t.phase == OpenPhase::Closed && t.failure is None ==> complete(t.response),
{
}

} // verus!
