//! What the command line prints: currents with a fitting unit, the live status
//! line, summaries and comparisons.

use vstd::prelude::*;
use vstd::string::*;

use crate::acquire::{seconds, seconds_of, Progress};
use crate::arithmetic::{counted, deterministic, difference, product, quotient, Arithmetic};
use crate::compare::{CompareResult, PercentileDiff};
use crate::error::Error;
use crate::format::Recording;
use crate::live::{LiveSummary, LiveUpdate};
use crate::number::{Double, HUNDRED, MILLION, ONE, THOUSAND, ZERO};
use crate::rendering::{
    fixed_text, scientific_text, shown_text, signed_text, stable, Rendering,
};
use crate::stats::Stats;
use crate::text::{
    cut, cut_line, decimal, join, joined, left_aligned, push_decimal, push_left, push_right,
    right_aligned, texts,
};

verus! {

/// A current in microampere with a unit that fits its size.
pub open spec fn ua_text<F: Arithmetic + Rendering>(f: &F, ua: Double) -> Seq<char> {
    let size = ua.absolute();
    if !ua.finite() {
        shown_text(f, ua)
    } else if !size.below(Double { bits: MILLION }) {
        fixed_text(f, quotient(f, ua, Double { bits: MILLION }), 4) + " A"@
    } else if !size.below(Double { bits: THOUSAND }) {
        fixed_text(f, quotient(f, ua, Double { bits: THOUSAND }), 3) + " mA"@
    } else if !size.below(Double { bits: ONE }) || ua.zero_valued() {
        fixed_text(f, ua, 2) + " µA"@
    } else {
        fixed_text(f, product(f, ua, Double { bits: THOUSAND }), 1) + " nA"@
    }
}

/// Format a current in µA with an adaptive unit.
pub fn fmt_ua<F: Arithmetic + Rendering>(f: &F, ua: Double) -> (r: String)
    ensures
        deterministic(f) && stable(f) ==> r@ == ua_text(f, ua),
{
    let size = ua.abs();
    if !ua.is_finite() {
        return f.shown(ua);
    }
    if !size.is_below(Double { bits: MILLION }) {
        let mut r = f.fixed(f.over(ua, Double { bits: MILLION }), 4);
        r.append(" A");
        r
    } else if !size.is_below(Double { bits: THOUSAND }) {
        let mut r = f.fixed(f.over(ua, Double { bits: THOUSAND }), 3);
        r.append(" mA");
        r
    } else if !size.is_below(Double { bits: ONE }) || ua.is_zero() {
        let mut r = f.fixed(ua, 2);
        r.append(" µA");
        r
    } else {
        let mut r = f.fixed(f.times(ua, Double { bits: THOUSAND }), 1);
        r.append(" nA");
        r
    }
}

/// A current at the right end of a field.
pub open spec fn ua_field<F: Arithmetic + Rendering>(f: &F, ua: Double, width: nat) -> Seq<char> {
    right_aligned(ua_text(f, ua), width)
}

/// Appends a current at the right end of a field.
fn push_ua<F: Arithmetic + Rendering>(f: &F, out: &mut String, ua: Double, width: usize)
    ensures
        deterministic(f) && stable(f) ==> final(out)@ == old(out)@ + ua_field(f, ua, width as nat),
{
    push_right(out, fmt_ua(f, ua).as_str(), width);
}

/// The line of a progress notification.
pub open spec fn progress_text<F: Arithmetic + Rendering>(f: &F, p: Progress) -> Seq<char> {
    match p {
        Progress::Settling { remaining } => "settling: "@ + fixed_text(
            f,
            seconds_of(f, remaining),
            0,
        ) + " s remaining"@,
        Progress::Sampling { collected, total } => "sampling: "@ + decimal(collected as nat) + "/"@
            + decimal(total as nat) + " ("@ + fixed_text(
            f,
            quotient(
                f,
                product(f, Double { bits: HUNDRED }, counted(f, collected as int)),
                counted(f, total as int),
            ),
            0,
        ) + "%)"@,
    }
}

/// The line of a progress notification.
pub fn progress_line<F: Arithmetic + Rendering>(f: &F, p: Progress) -> (r: String)
    ensures
        deterministic(f) && stable(f) ==> r@ == progress_text(f, p),
{
    match p {
        Progress::Settling { remaining } => {
            let mut out = "settling: ".to_owned();
            out.append(f.fixed(seconds(f, remaining), 0).as_str());
            out.append(" s remaining");
            out
        },
        Progress::Sampling { collected, total } => {
            let mut out = "sampling: ".to_owned();
            push_decimal(&mut out, collected as u128);
            out.append("/");
            push_decimal(&mut out, total as u128);
            out.append(" (");
            let share = f.over(
                f.times(Double { bits: HUNDRED }, f.of_count(collected as u128)),
                f.of_count(total as u128),
            );
            out.append(f.fixed(share, 0).as_str());
            out.append("%)");
            out
        },
    }
}

/// The status line of a live session.
pub open spec fn live_text<F: Arithmetic + Rendering>(f: &F, u: LiveUpdate) -> Seq<char> {
    right_aligned(fixed_text(f, u.elapsed_secs, 1), 7) + "s now "@ + ua_field(f, u.now_ua, 10)
        + " avg("@ + fixed_text(f, u.window_secs, 0) + "s) "@ + ua_field(f, u.window_mean_ua, 10)
        + " min "@ + ua_field(f, u.window_min_ua, 10) + " p50 "@ + ua_field(f, u.window_p50_ua, 10)
        + " p95 "@ + ua_field(f, u.window_p95_ua, 10) + " p99 "@ + ua_field(f, u.window_p99_ua, 10)
        + " max "@ + ua_field(f, u.window_max_ua, 10) + " tot "@ + ua_field(f, u.total_mean_ua, 10)
}

/// The status line of a live session.
pub fn live_line<F: Arithmetic + Rendering>(f: &F, u: &LiveUpdate) -> (r: String)
    ensures
        deterministic(f) && stable(f) ==> r@ == live_text(f, *u),
{
    let mut out = String::new();
    push_right(&mut out, f.fixed(u.elapsed_secs, 1).as_str(), 7);
    assert(stable(f) ==> out@ =~= right_aligned(fixed_text(f, u.elapsed_secs, 1), 7));
    out.append("s now ");
    push_ua(f, &mut out, u.now_ua, 10);
    out.append(" avg(");
    out.append(f.fixed(u.window_secs, 0).as_str());
    out.append("s) ");
    push_ua(f, &mut out, u.window_mean_ua, 10);
    out.append(" min ");
    push_ua(f, &mut out, u.window_min_ua, 10);
    out.append(" p50 ");
    push_ua(f, &mut out, u.window_p50_ua, 10);
    out.append(" p95 ");
    push_ua(f, &mut out, u.window_p95_ua, 10);
    out.append(" p99 ");
    push_ua(f, &mut out, u.window_p99_ua, 10);
    out.append(" max ");
    push_ua(f, &mut out, u.window_max_ua, 10);
    out.append(" tot ");
    push_ua(f, &mut out, u.total_mean_ua, 10);
    out
}

/// Width of the terminal on stdout, if it can be determined: `status` is what
/// the query for the window size gave, and `columns` the width that it filled
/// in.
pub fn terminal_width(status: i32, columns: u16) -> (r: Option<usize>)
    ensures
        r == if status == 0 && columns > 0 {
            Some(columns as usize)
        } else {
            None
        },
{
    if status == 0 && columns > 0 {
        Some(columns as usize)
    } else {
        None
    }
}

/// A status line as it fits the terminal: a wrapped line would break the
/// carriage-return rewrite.
pub fn fit_line(line: &str, width: Option<usize>) -> (r: String)
    ensures
        r@ == match width {
            Some(n) => cut(line@, n as nat),
            None => line@,
        },
        width matches Some(n) ==> r@.len() <= n,
{
    match width {
        Some(n) => cut_line(line, n),
        None => line.to_owned(),
    }
}

/// The note on missed samples in a summary; nothing where none is missed.
pub open spec fn missed_text(missed: u64) -> Seq<char> {
    if missed > 0 {
        ", "@ + decimal(missed as nat) + " raw samples missed"@
    } else {
        Seq::empty()
    }
}

/// The line with charge and power.
pub open spec fn charge_text<R: Rendering>(f: &R, charge_uah: Double, avg_power_uw: Double) -> Seq<
    char,
> {
    "  charge:   "@ + fixed_text(f, charge_uah, 4) + " µAh   avg power: "@ + fixed_text(
        f,
        avg_power_uw,
        2,
    ) + " µW\n"@
}

/// The line with charge and power.
fn charge_line<R: Rendering>(f: &R, charge_uah: Double, avg_power_uw: Double) -> (r: String)
    ensures
        stable(f) ==> r@ == charge_text(f, charge_uah, avg_power_uw),
{
    let mut out = "  charge:   ".to_owned();
    out.append(f.fixed(charge_uah, 4).as_str());
    out.append(" µAh   avg power: ");
    out.append(f.fixed(avg_power_uw, 2).as_str());
    out.append(" µW\n");
    out
}

/// The summary of a live session.
pub open spec fn summary_text<F: Arithmetic + Rendering>(f: &F, s: LiveSummary) -> Seq<char> {
    "session summary\n  duration: "@ + fixed_text(f, s.duration_secs, 1) + " s ("@ + decimal(
        s.samples as nat,
    ) + " samples)"@ + missed_text(s.missed_samples) + "\n  mean:     "@ + ua_field(
        f,
        s.mean_ua,
        12,
    ) + "   min:  "@ + ua_field(f, s.min_ua, 12) + "   max: "@ + ua_field(f, s.max_ua, 12) + "\n"@
        + charge_text(f, s.charge_uah, s.avg_power_uw)
}

/// The summary of a live session.
pub fn live_summary<F: Arithmetic + Rendering>(f: &F, s: &LiveSummary) -> (r: String)
    ensures
        deterministic(f) && stable(f) ==> r@ == summary_text(f, *s),
{
    let mut out = "session summary\n  duration: ".to_owned();
    out.append(f.fixed(s.duration_secs, 1).as_str());
    out.append(" s (");
    push_decimal(&mut out, s.samples as u128);
    out.append(" samples)");
    let mut note = String::new();
    if s.missed_samples > 0 {
        note = ", ".to_owned();
        push_decimal(&mut note, s.missed_samples as u128);
        note.append(" raw samples missed");
    }
    assert(note@ =~= missed_text(s.missed_samples));
    out.append(note.as_str());
    out.append("\n  mean:     ");
    push_ua(f, &mut out, s.mean_ua, 12);
    out.append("   min:  ");
    push_ua(f, &mut out, s.min_ua, 12);
    out.append("   max: ");
    push_ua(f, &mut out, s.max_ua, 12);
    out.append("\n");
    out.append(charge_line(f, s.charge_uah, s.avg_power_uw).as_str());
    out
}

/// A percentile with its current.
pub open spec fn cell_text<F: Arithmetic + Rendering>(f: &F, cell: (Double, Double)) -> Seq<char> {
    "p"@ + left_aligned(shown_text(f, cell.0), 5) + " "@ + ua_field(f, cell.1, 12)
}

/// One line of percentiles.
pub open spec fn row_text<F: Arithmetic + Rendering>(f: &F, cells: Seq<(Double, Double)>) -> Seq<
    char,
> {
    "  "@ + joined(cells.map_values(|c: (Double, Double)| cell_text(f, c)), "   "@) + "\n"@
}

/// The percentiles in lines of four; the last line may hold fewer.
pub open spec fn rows_text<F: Arithmetic + Rendering>(f: &F, cells: Seq<(Double, Double)>) -> Seq<
    char,
>
    decreases cells.len(),
{
    if cells.len() == 0 {
        Seq::empty()
    } else if cells.len() <= 4 {
        row_text(f, cells)
    } else {
        row_text(f, cells.take(4)) + rows_text(f, cells.skip(4))
    }
}

/// One line of percentiles.
fn row_line<F: Arithmetic + Rendering>(f: &F, cells: &[(Double, Double)]) -> (r: String)
    ensures
        deterministic(f) && stable(f) ==> r@ == row_text(f, cells@),
{
    let mut parts: Vec<String> = Vec::new();
    let mut i: usize = 0;
    while i < cells.len()
        invariant
            i <= cells@.len(),
            parts@.len() == i,
            deterministic(f) && stable(f) ==> forall|k: int|
                0 <= k < i ==> (#[trigger] parts@[k])@ == cell_text(f, cells@[k]),
        decreases cells@.len() - i,
    {
        let cell = cells[i];
        let mut part = "p".to_owned();
        push_left(&mut part, f.shown(cell.0).as_str(), 5);
        part.append(" ");
        push_ua(f, &mut part, cell.1, 12);
        parts.push(part);
        i += 1;
    }
    proof {
        if deterministic(f) && stable(f) {
            assert(texts(parts@) =~= cells@.map_values(|c: (Double, Double)| cell_text(f, c)));
        }
    }
    let mut out = "  ".to_owned();
    out.append(join(&parts, "   ").as_str());
    out.append("\n");
    out
}

/// The percentiles in lines of four.
fn rows<F: Arithmetic + Rendering>(f: &F, cells: &Vec<(Double, Double)>) -> (r: String)
    ensures
        deterministic(f) && stable(f) ==> r@ == rows_text(f, cells@),
{
    let mut out = String::new();
    let n: usize = cells.len();
    let mut at: usize = 0;
    assert(cells@.skip(0) =~= cells@);
    assert(out@ + rows_text(f, cells@) =~= rows_text(f, cells@));
    while at < n
        invariant
            at <= n,
            n == cells@.len(),
            deterministic(f) && stable(f) ==> out@ + rows_text(f, cells@.skip(at as int))
                == rows_text(f, cells@),
        decreases n - at,
    {
        let end: usize = if n - at <= 4 {
            n
        } else {
            at + 4
        };
        let ghost rest = cells@.skip(at as int);
        let ghost before = out@;
        let row = row_line(f, vstd::slice::slice_subrange(cells.as_slice(), at, end));
        out.append(row.as_str());
        proof {
            if end == n {
                assert(cells@.subrange(at as int, end as int) =~= rest);
                assert(cells@.skip(end as int) =~= Seq::<(Double, Double)>::empty());
            } else {
                assert(cells@.subrange(at as int, end as int) =~= rest.take(4));
                assert(cells@.skip(end as int) =~= rest.skip(4));
            }
            if deterministic(f) && stable(f) {
                assert(out@ + rows_text(f, cells@.skip(end as int)) =~= before + rows_text(f, rest));
            }
        }
        at = end;
    }
    assert(cells@.skip(n as int) =~= Seq::<(Double, Double)>::empty());
    assert(out@ + Seq::<char>::empty() =~= out@);
    out
}

/// The line with the label of a recording; nothing where it has none.
pub open spec fn label_text(label: Option<String>) -> Seq<char> {
    match label {
        Some(label) => "  label:    "@ + label@ + "\n"@,
        None => Seq::empty(),
    }
}

/// The note on a device that is not calibrated.
pub open spec fn calibration_text(calibrated: bool) -> Seq<char> {
    if calibrated {
        Seq::empty()
    } else {
        " (UNCALIBRATED)"@
    }
}

/// The statistics of a sample file.
pub open spec fn stats_text<F: Arithmetic + Rendering>(
    f: &F,
    file: Seq<char>,
    rec: Recording,
    s: Stats,
) -> Seq<char> {
    file + "\n"@ + label_text(rec.meta.label) + "  capture:  "@ + decimal(s.count as nat)
        + " samples at "@ + decimal(rec.meta.sps as nat) + " sps ("@ + fixed_text(
        f,
        s.duration_secs,
        1,
    ) + " s), "@ + decimal(rec.meta.voltage_mv as nat) + " mV, mode "@ + rec.meta.mode@
        + calibration_text(rec.meta.calibrated) + "\n  mean:     "@ + ua_field(f, s.mean, 12)
        + "   std:  "@ + ua_field(f, s.std_dev, 12) + "\n  min:      "@ + ua_field(f, s.min, 12)
        + "   max:  "@ + ua_field(f, s.max, 12) + "\n"@ + rows_text(f, s.percentiles@)
        + charge_text(f, s.charge_uah, s.avg_power_uw) + "\n"@
}

/// The statistics of a sample file.
pub fn stats_report<F: Arithmetic + Rendering>(
    f: &F,
    file: &str,
    rec: &Recording,
    s: &Stats,
) -> (r: String)
    ensures
        deterministic(f) && stable(f) ==> r@ == stats_text(f, file@, *rec, *s),
{
    let mut out = file.to_owned();
    out.append("\n");
    let label = match &rec.meta.label {
        Some(label) => {
            let mut line = "  label:    ".to_owned();
            line.append(label.as_str());
            line.append("\n");
            line
        },
        None => String::new(),
    };
    assert(label@ =~= label_text(rec.meta.label));
    out.append(label.as_str());
    out.append("  capture:  ");
    push_decimal(&mut out, s.count as u128);
    out.append(" samples at ");
    push_decimal(&mut out, rec.meta.sps as u128);
    out.append(" sps (");
    out.append(f.fixed(s.duration_secs, 1).as_str());
    out.append(" s), ");
    push_decimal(&mut out, rec.meta.voltage_mv as u128);
    out.append(" mV, mode ");
    out.append(rec.meta.mode.as_str());
    let ghost before = out@;
    if !rec.meta.calibrated {
        out.append(" (UNCALIBRATED)");
    }
    assert(out@ =~= before + calibration_text(rec.meta.calibrated));
    out.append("\n  mean:     ");
    push_ua(f, &mut out, s.mean, 12);
    out.append("   std:  ");
    push_ua(f, &mut out, s.std_dev, 12);
    out.append("\n  min:      ");
    push_ua(f, &mut out, s.min, 12);
    out.append("   max:  ");
    push_ua(f, &mut out, s.max, 12);
    out.append("\n");
    out.append(rows(f, &s.percentiles).as_str());
    out.append(charge_line(f, s.charge_uah, s.avg_power_uw).as_str());
    out.append("\n");
    out
}

/// The warning about samples lost during a capture.
pub fn missed_warning(missed: u64) -> (r: Option<String>)
    ensures
        r is Some <==> missed > 0,
        r matches Some(m) ==> m@ == "warning: "@ + decimal(missed as nat)
            + " raw samples were lost during capture (counter gaps in the stream); treat this recording with suspicion"@,
{
    if missed == 0 {
        return None;
    }
    let mut out = "warning: ".to_owned();
    push_decimal(&mut out, missed as u128);
    out.append(
        " raw samples were lost during capture (counter gaps in the stream); treat this recording with suspicion",
    );
    Some(out)
}

/// The line of one of two compared recordings.
pub open spec fn side_text<F: Arithmetic + Rendering>(
    f: &F,
    file: Seq<char>,
    mean: Double,
    blocks: usize,
    block_secs: Double,
) -> Seq<char> {
    file + "  mean "@ + ua_text(f, mean) + " ("@ + decimal(blocks as nat) + " blocks of "@
        + shown_text(f, block_secs) + " s)\n"@
}

/// The line of one of two compared recordings.
fn side<F: Arithmetic + Rendering>(
    f: &F,
    file: &str,
    mean: Double,
    blocks: usize,
    block_secs: Double,
) -> (r: String)
    ensures
        deterministic(f) && stable(f) ==> r@ == side_text(f, file@, mean, blocks, block_secs),
{
    let mut out = file.to_owned();
    out.append("  mean ");
    out.append(fmt_ua(f, mean).as_str());
    out.append(" (");
    push_decimal(&mut out, blocks as u128);
    out.append(" blocks of ");
    out.append(f.shown(block_secs).as_str());
    out.append(" s)\n");
    out
}

/// What a comparison concludes.
pub open spec fn verdict_text(significant: bool, mean_diff: Double, level: Seq<char>) -> Seq<char> {
    if significant {
        "=> SIGNIFICANT "@ + (if (Double { bits: ZERO }).below(mean_diff) {
            "INCREASE"@
        } else {
            "DECREASE"@
        }) + " in mean current at "@ + level + "% confidence\n"@
    } else {
        "=> no significant change detected at "@ + level + "% confidence\n"@
    }
}

/// What a comparison concludes.
fn verdict(significant: bool, mean_diff: Double, level: &str) -> (r: String)
    ensures
        r@ == verdict_text(significant, mean_diff, level@),
{
    let mut out = String::new();
    if significant {
        out = "=> SIGNIFICANT ".to_owned();
        if (Double { bits: ZERO }).is_below(mean_diff) {
            out.append("INCREASE");
        } else {
            out.append("DECREASE");
        }
        out.append(" in mean current at ");
        out.append(level);
    } else {
        out = "=> no significant change detected at ".to_owned();
        out.append(level);
    }
    out.append("% confidence\n");
    out
}

/// The line of one percentile of a comparison.
pub open spec fn diff_text<F: Arithmetic + Rendering>(f: &F, p: PercentileDiff) -> Seq<char> {
    left_aligned("p"@ + shown_text(f, p.percentile), 12) + " "@ + ua_field(f, p.baseline, 14) + " "@
        + ua_field(f, p.new, 14) + " "@ + ua_field(f, difference(f, p.new, p.baseline), 14) + "\n"@
}

/// The lines of the percentiles of a comparison.
pub open spec fn diffs_text<F: Arithmetic + Rendering>(f: &F, ps: Seq<PercentileDiff>) -> Seq<char>
    decreases ps.len(),
{
    if ps.len() == 0 {
        Seq::empty()
    } else {
        diffs_text(f, ps.drop_last()) + diff_text(f, ps.last())
    }
}

/// The lines of the percentiles of a comparison.
fn diffs<F: Arithmetic + Rendering>(f: &F, ps: &Vec<PercentileDiff>) -> (r: String)
    ensures
        deterministic(f) && stable(f) ==> r@ == diffs_text(f, ps@),
{
    let mut out = String::new();
    let mut i: usize = 0;
    assert(ps@.take(0) =~= Seq::<PercentileDiff>::empty());
    while i < ps.len()
        invariant
            i <= ps@.len(),
            deterministic(f) && stable(f) ==> out@ == diffs_text(f, ps@.take(i as int)),
        decreases ps@.len() - i,
    {
        assert(ps@.take(i + 1).drop_last() =~= ps@.take(i as int));
        let p = ps[i];
        let mut name = "p".to_owned();
        name.append(f.shown(p.percentile).as_str());
        let mut line = String::new();
        push_left(&mut line, name.as_str(), 12);
        assert(line@ =~= left_aligned(name@, 12));
        line.append(" ");
        push_ua(f, &mut line, p.baseline, 14);
        line.append(" ");
        push_ua(f, &mut line, p.new, 14);
        line.append(" ");
        push_ua(f, &mut line, f.minus(p.new, p.baseline), 14);
        line.append("\n");
        out.append(line.as_str());
        i += 1;
    }
    assert(ps@.take(i as int) =~= ps@);
    out
}

/// The report on a comparison.
pub open spec fn compare_text<F: Arithmetic + Rendering>(
    f: &F,
    baseline: Seq<char>,
    new: Seq<char>,
    r: CompareResult,
) -> Seq<char> {
    let level = shown_text(f, product(f, r.confidence, Double { bits: HUNDRED }));
    "baseline: "@ + side_text(f, baseline, r.mean_baseline, r.blocks_baseline, r.block_secs)
        + "new:      "@ + side_text(f, new, r.mean_new, r.blocks_new, r.block_secs)
        + "\nmean difference:   "@ + ua_text(f, r.mean_diff) + " ("@ + signed_text(
        f,
        r.mean_diff_pct,
        2,
    ) + "%)\n"@ + level + "% CI of diff:  ["@ + ua_text(f, r.diff_ci.0) + ", "@ + ua_text(
        f,
        r.diff_ci.1,
    ) + "]  (["@ + signed_text(f, r.diff_ci_pct.0, 2) + "%, "@ + signed_text(f, r.diff_ci_pct.1, 2)
        + "%])\nWelch's t-test:    t = "@ + fixed_text(f, r.t_statistic, 3) + ", dof = "@
        + fixed_text(f, r.degrees_of_freedom, 1) + ", p = "@ + scientific_text(f, r.p_value, 2)
        + "\n\n"@ + verdict_text(r.significant, r.mean_diff, level)
        + "\npercentile         baseline            new           diff\n"@ + diffs_text(
        f,
        r.percentiles@,
    )
}

/// The report on a comparison.
pub fn compare_report<F: Arithmetic + Rendering>(
    f: &F,
    baseline: &str,
    new: &str,
    r: &CompareResult,
) -> (text: String)
    ensures
        deterministic(f) && stable(f) ==> text@ == compare_text(f, baseline@, new@, *r),
{
    let level = f.shown(f.times(r.confidence, Double { bits: HUNDRED }));
    let mut out = "baseline: ".to_owned();
    out.append(side(f, baseline, r.mean_baseline, r.blocks_baseline, r.block_secs).as_str());
    out.append("new:      ");
    out.append(side(f, new, r.mean_new, r.blocks_new, r.block_secs).as_str());
    out.append("\nmean difference:   ");
    out.append(fmt_ua(f, r.mean_diff).as_str());
    out.append(" (");
    out.append(f.signed(r.mean_diff_pct, 2).as_str());
    out.append("%)\n");
    out.append(level.as_str());
    out.append("% CI of diff:  [");
    out.append(fmt_ua(f, r.diff_ci.0).as_str());
    out.append(", ");
    out.append(fmt_ua(f, r.diff_ci.1).as_str());
    out.append("]  ([");
    out.append(f.signed(r.diff_ci_pct.0, 2).as_str());
    out.append("%, ");
    out.append(f.signed(r.diff_ci_pct.1, 2).as_str());
    out.append("%])\nWelch's t-test:    t = ");
    out.append(f.fixed(r.t_statistic, 3).as_str());
    out.append(", dof = ");
    out.append(f.fixed(r.degrees_of_freedom, 1).as_str());
    out.append(", p = ");
    out.append(f.scientific(r.p_value, 2).as_str());
    out.append("\n\n");
    out.append(verdict(r.significant, r.mean_diff, level.as_str()).as_str());
    out.append("\npercentile         baseline            new           diff\n");
    out.append(diffs(f, &r.percentiles).as_str());
    out
}

/// What is said of a regression beyond `threshold` percent.
pub open spec fn regression_text<R: Rendering>(
    f: &R,
    mean_diff_pct: Double,
    threshold: Double,
    confidence: Double,
) -> Seq<char> {
    "FAIL: mean current increased "@ + fixed_text(f, mean_diff_pct, 2) + "% (> "@ + shown_text(
        f,
        threshold,
    ) + "%) with "@ + fixed_text(f, confidence, 1) + "% confidence"@
}

/// What is said of a regression beyond `threshold` percent, at a confidence in
/// percent.
pub fn regression_message<R: Rendering>(
    f: &R,
    mean_diff_pct: Double,
    threshold: Double,
    confidence: Double,
) -> (r: String)
    ensures
        stable(f) ==> r@ == regression_text(f, mean_diff_pct, threshold, confidence),
{
    let mut out = "FAIL: mean current increased ".to_owned();
    out.append(f.fixed(mean_diff_pct, 2).as_str());
    out.append("% (> ");
    out.append(f.shown(threshold).as_str());
    out.append("%) with ");
    out.append(f.fixed(confidence, 1).as_str());
    out.append("% confidence");
    out
}

/// How a run of the tool ended.
#[derive(Debug)]
pub enum Ending<'a> {
    /// All was done.
    Completed,
    /// A comparison found a regression beyond the threshold.
    Regressed,
    /// An error of the library ended it.
    Failed(&'a Error),
    /// Something else ended it.
    Broken,
}

/// The exit code of the tool. A cancelled recording ends with the conventional
/// code for termination by a signal.
pub fn exit_code(ending: &Ending) -> (r: u8)
    ensures
        r == match *ending {
            Ending::Completed => 0u8,
            Ending::Regressed => 2u8,
            Ending::Failed(Error::Cancelled) => 130u8,
            Ending::Failed(_) => 1u8,
            Ending::Broken => 1u8,
        },
{
    match ending {
        Ending::Completed => 0,
        Ending::Regressed => 2,
        Ending::Failed(Error::Cancelled) => 130,
        Ending::Failed(_) => 1,
        Ending::Broken => 1,
    }
}

/// The name of a recording in a plot: its label, or the file that it came from.
pub fn series_name(rec: &Recording, file: &str) -> (r: String)
    ensures
        r@ == match rec.meta.label {
            Some(label) => label@,
            None => file@,
        },
{
    match &rec.meta.label {
        Some(label) => label.clone(),
        None => file.to_owned(),
    }
}

} // verus!
