//! Errors of the library.

use vstd::prelude::*;
use vstd::string::*;

use crate::text::{decimal, push_decimal};

verus! {

/// Errors returned by this crate.
#[derive(Debug, PartialEq, Eq)]
pub enum Error {
    /// Error communicating with the PPK2.
    Ppk2(String),
    /// Serial port error.
    Serial(String),
    /// Error talking to the PPK2 device.
    Device(String),
    /// File I/O error.
    Io(String),
    /// The file is not a powerbench sample file, or uses an unsupported version.
    InvalidFile(String),
    /// Invalid configuration or arguments.
    InvalidConfig(String),
    /// The recording was cancelled before completing.
    Cancelled,
    /// The measurement stream stalled or ended before enough samples arrived.
    ///
    /// `raw_bytes` and `missed` help tell apart a paused stream (few bytes,
    /// no misses: the device stopped sending) from a lossy one (plenty of
    /// bytes but many misses: data was dropped between device and host).
    Incomplete {
        /// Number of samples received.
        got: usize,
        /// Number of samples that were expected.
        expected: usize,
        /// Raw stream bytes read from the device.
        raw_bytes: u64,
        /// Raw samples the stream's counter field reported as missed.
        missed: u64,
    },
    /// The device is delivering its sample stream far below the nominal
    /// 400 KB/s (100 ksps), so the recording cannot complete in real time.
    StreamRate {
        /// Observed stream rate in bytes per second.
        bytes_per_sec: u64,
    },
    /// Not enough data to perform the requested analysis.
    NotEnoughData(String),
    /// Error running gnuplot.
    Gnuplot(String),
}

/// What [`Error::message`] says.
pub open spec fn error_text(e: Error) -> Seq<char> {
    match e {
        Error::Ppk2(s) => "PPK2 error: "@ + s@,
        Error::Serial(s) => "serial port error: "@ + s@,
        Error::Device(s) => "device error: "@ + s@,
        Error::Io(s) => "I/O error: "@ + s@,
        Error::InvalidFile(s) => "invalid sample file: "@ + s@,
        Error::InvalidConfig(s) => "invalid configuration: "@ + s@,
        Error::Cancelled => "recording cancelled"@,
        Error::Incomplete { got, expected, raw_bytes, missed } => "measurement incomplete: got "@
            + decimal(got as nat) + " of "@ + decimal(expected as nat) + " samples ("@ + decimal(
            raw_bytes as nat,
        ) + " stream bytes read, "@ + decimal(missed as nat) + " raw samples missed)"@,
        Error::StreamRate { bytes_per_sec } => "PPK2 stream rate too low: "@ + decimal(
            bytes_per_sec as nat,
        )
            + " B/s instead of ~400000 B/s (100 ksps). The USB path or device is pacing the stream. Try a different USB port — plug the PPK2 directly into a root port; full-speed devices behind USB 2.0 hubs/docks are commonly throttled exactly like this."@,
        Error::NotEnoughData(s) => "not enough data: "@ + s@,
        Error::Gnuplot(s) => "gnuplot failed: "@ + s@,
    }
}

/// `prefix` followed by `rest`.
fn prefixed(prefix: &str, rest: &String) -> (r: String)
    ensures
        r@ == prefix@ + rest@,
{
    let mut out = prefix.to_owned();
    out.append(rest.as_str());
    out
}

impl Error {
    /// The text shown to the user.
    pub fn message(&self) -> (r: String)
        ensures
            r@ == error_text(*self),
    {
        match self {
            Error::Ppk2(s) => prefixed("PPK2 error: ", s),
            Error::Serial(s) => prefixed("serial port error: ", s),
            Error::Device(s) => prefixed("device error: ", s),
            Error::Io(s) => prefixed("I/O error: ", s),
            Error::InvalidFile(s) => prefixed("invalid sample file: ", s),
            Error::InvalidConfig(s) => prefixed("invalid configuration: ", s),
            Error::Cancelled => "recording cancelled".to_owned(),
            Error::Incomplete { got, expected, raw_bytes, missed } => {
                let mut out = "measurement incomplete: got ".to_owned();
                push_decimal(&mut out, *got as u128);
                out.append(" of ");
                push_decimal(&mut out, *expected as u128);
                out.append(" samples (");
                push_decimal(&mut out, *raw_bytes as u128);
                out.append(" stream bytes read, ");
                push_decimal(&mut out, *missed as u128);
                out.append(" raw samples missed)");
                out
            },
            Error::StreamRate { bytes_per_sec } => {
                let mut out = "PPK2 stream rate too low: ".to_owned();
                push_decimal(&mut out, *bytes_per_sec as u128);
                out.append(
                    " B/s instead of ~400000 B/s (100 ksps). The USB path or device is pacing the stream. Try a different USB port — plug the PPK2 directly into a root port; full-speed devices behind USB 2.0 hubs/docks are commonly throttled exactly like this.",
                );
                out
            },
            Error::NotEnoughData(s) => prefixed("not enough data: ", s),
            Error::Gnuplot(s) => prefixed("gnuplot failed: ", s),
        }
    }
}

} // verus!
