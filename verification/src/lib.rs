//! Structured low-power benchmarking with the Nordic Power Profiler Kit II (PPK2).
//!
//! This crate holds what the `powerbench` tool decides and computes:
//!
//! - Recording current measurements from a PPK2 into a self-describing sample
//!   file ([`acquire`], [`format`]).
//! - Live monitoring with a moving average over the last N seconds ([`live`]).
//! - Computing summary statistics over a recording ([`stats`]).
//! - Comparing two recordings and deciding whether the difference is
//!   statistically significant ([`compare`]).
//! - Plotting two recordings for visual comparison using gnuplot ([`plot`]).
//! - What the command line prints of all this ([`report`]).
//!
//! Serial ports, files, clocks and processes are the caller's. A session with
//! the device ([`device::Opening`], [`acquire::RecordSession`],
//! [`live::LiveSession`]) says what to do next and is told what came of it.
//! Floating-point numbers are held as bit patterns ([`number`]); their rounded
//! arithmetic and their decimal text are the caller's too ([`arithmetic`],
//! [`rendering`]). What follows for the statistics where that arithmetic rounds
//! as IEEE 754 asks is stated in [`rounding`], [`accuracy`] and [`compare`].
//!
//! What the results mean, in whole numbers and characters rather than by how they
//! are computed, is stated beside the modules that compute them: of samples and
//! statistics in [`meaning`], of comparisons in [`meaning_compare`], of sample
//! files in [`meaning_file`], of sessions in [`meaning_session`] and
//! [`meaning_live`], of sorting in [`meaning_order`], of plots in
//! [`meaning_plot`], and of what is printed in [`meaning_report`]. How results come
//! about step by step, also where numbers are not finite, is in [`meaning_steps`].

pub mod accuracy;
pub mod acquire;
pub mod arithmetic;
pub mod compare;
pub mod device;
pub mod error;
pub mod format;
pub mod live;
pub mod meaning;
pub mod meaning_compare;
pub mod meaning_file;
pub mod meaning_live;
pub mod meaning_order;
pub mod meaning_plot;
pub mod meaning_report;
pub mod meaning_session;
pub mod meaning_steps;
pub mod number;
pub mod order;
pub mod plot;
pub mod rendering;
pub mod report;
pub mod rounding;
pub mod stats;
pub mod text;

pub use acquire::RecordConfig;
pub use arithmetic::Arithmetic;
pub use compare::{compare, CompareConfig, CompareResult};
pub use device::Device;
pub use error::Error;
pub use format::{Meta, Recording};
pub use live::{LiveConfig, LiveSummary, LiveUpdate};
pub use number::{Double, Single};
pub use rendering::Rendering;
pub use stats::Stats;
