//! What texts and reports say, told by exact numbers.

use vstd::arithmetic::power2::lemma_pow2_pos;
use vstd::prelude::*;

use crate::accuracy::{
    lemma_count_is_exact, lemma_difference_is_close, lemma_product_is_close,
    lemma_product_stays_finite,
};
use crate::acquire::{seconds_of, Progress};
use crate::arithmetic::{counted, deterministic, difference, product, quotient, Arithmetic};
use crate::compare::{CompareResult, PercentileDiff};
use crate::error::Error;
use crate::format::Recording;
use crate::live::{LiveSummary, LiveUpdate};
use crate::meaning::{
    is_share, lemma_near_quotient, lemma_share_means, near_product, near_quotient, near_sum,
};
use crate::meaning_live::{is_seconds, lemma_seconds_mean};
use crate::number::{lemma_named_numbers, Double, HUNDRED, MILLION, ONE, THOUSAND, ZERO};
use crate::rendering::{fixed_text, scientific_text, shown_text, signed_text, stable, Rendering};
use crate::report::{
    cell_text, compare_report, diffs_text, fit_line, fmt_ua, live_line, live_summary, progress_line,
    regression_message, row_text, rows_text, stats_report, ua_text,
};
use crate::rounding::{lemma_quotient_stays_finite, rounds_in_order, size, EXACT_COUNTS};
use crate::stats::Stats;
use crate::text::{decimal, digit, joined, left_aligned, right_aligned, to_decimal};

verus! {

/// What the digits of a text stand for, the last for units.
pub open spec fn read_number(text: Seq<char>) -> int
    decreases text.len(),
{
    if text.len() == 0 {
        0
    } else {
        10 * read_number(text.drop_last()) + (text.last() as int - '0' as int)
    }
}

/// A number in decimal is made of digits, has no leading zero, and reads as the
/// number.
pub proof fn law_decimal_reads_back(n: u128, r: String)
    requires
        call_ensures(to_decimal, (n,), r),
    ensures
        r@.len() >= 1,
        forall|i: int| 0 <= i < r@.len() ==> '0' <= #[trigger] r@[i] <= '9',
        n > 0 ==> r@[0] != '0',
        n == 0 ==> r@.len() == 1,
        read_number(r@) == n,
{
    lemma_decimal_reads_back(n as nat);
}

/// What numbers in decimal read as.
proof fn lemma_decimal_reads_back(n: nat)
    ensures
        decimal(n).len() >= 1,
        forall|i: int| 0 <= i < decimal(n).len() ==> '0' <= #[trigger] decimal(n)[i] <= '9',
        n > 0 ==> decimal(n)[0] != '0',
        n == 0 ==> decimal(n).len() == 1,
        read_number(decimal(n)) == n,
    decreases n,
{
    let text = decimal(n);
    if n < 10 {
        assert(text.drop_last() =~= Seq::<char>::empty());
        assert(read_number(text.drop_last()) == 0);
        assert(text.last() == digit(n));
    } else {
        lemma_decimal_reads_back(n / 10);
        assert(text.drop_last() =~= decimal(n / 10));
        assert(text.last() == digit(n % 10));
        assert(text[0] == decimal(n / 10)[0]);
    }
}

/// A text at the right end of a field ends the field, at the left end it begins
/// it; the rest of the field is spaces. A field is as wide as asked for, or as
/// the text where that is wider.
pub proof fn law_fields_are_filled_with_spaces(text: Seq<char>, width: nat)
    ensures
        ({
            let right = right_aligned(text, width);
            let left = left_aligned(text, width);
            let len = if text.len() >= width {
                text.len() as int
            } else {
                width as int
            };
            &&& right.len() == len && left.len() == len
            &&& right.subrange(len - text.len(), len) == text
            &&& left.subrange(0, text.len() as int) == text
            &&& forall|i: int| 0 <= i < len - text.len() ==> #[trigger] right[i] == ' '
            &&& forall|i: int| text.len() <= i < len ==> #[trigger] left[i] == ' '
        }),
{
    let right = right_aligned(text, width);
    let left = left_aligned(text, width);
    let len = right.len() as int;
    assert(right.subrange(len - text.len(), len) =~= text);
    assert(left.subrange(0, text.len() as int) =~= text);
}

/// Joined texts are as long as all of them and the separators between, and with
/// one more they go on with the separator and that one.
pub proof fn law_joined_texts_follow_each_other(
    parts: Seq<Seq<char>>,
    more: Seq<char>,
    separator: Seq<char>,
)
    ensures
        joined(Seq::empty(), separator) == Seq::<char>::empty(),
        joined(seq![more], separator) == more,
        parts.len() > 0 ==> joined(parts.push(more), separator) == joined(parts, separator)
            + separator + more,
{
    assert(parts.push(more).drop_last() =~= parts);
}

/// A line that is cut begins the line, and is as long as the terminal is wide or
/// as the line.
pub proof fn law_fitted_line_begins_the_line(line: &str, width: Option<usize>, r: String)
    requires
        call_ensures(fit_line, (line, width), r),
    ensures
        r@ == line@.subrange(0, r@.len() as int),
        r@.len() == match width {
            Some(n) if n < line@.len() => n as int,
            _ => line@.len() as int,
        },
{
    assert(r@ =~= line@.subrange(0, r@.len() as int));
}

/// Whether a text shows a current in microampere, but for rounding: from one
/// ampere on in ampere with four decimals, from one milliampere on in milliampere
/// with three, from one microampere on or zero in microampere with two, and else
/// in nanoampere with one.
pub open spec fn is_current_text<R: Rendering>(f: &R, text: Seq<char>, ua: Double) -> bool {
    let u = Double::unit();
    let a = size(ua.value());
    if !ua.finite() {
        text == shown_text(f, ua)
    } else if a >= 1_000_000 * u {
        exists|v: Double| #[trigger]
            near_quotient(v, ua.value(), 1_000_000 * u) && text == fixed_text(f, v, 4) + " A"@
    } else if a >= 1000 * u {
        exists|v: Double| #[trigger]
            near_quotient(v, ua.value(), 1000 * u) && text == fixed_text(f, v, 3) + " mA"@
    } else if a >= u || a == 0 {
        text == fixed_text(f, ua, 2) + " µA"@
    } else {
        exists|v: Double| #[trigger]
            near_product(v, ua.value(), 1000 * u) && text == fixed_text(f, v, 1) + " nA"@
    }
}

/// A current is shown with a unit that fits its size.
pub proof fn law_current_has_a_fitting_unit<F: Arithmetic + Rendering>(
    f: &F,
    ua: Double,
    r: String,
)
    requires
        deterministic(f),
        stable(f),
        rounds_in_order(f),
        call_ensures(fmt_ua::<F>, (f, ua), r),
    ensures
        is_current_text(f, r@, ua),
{
    lemma_current_text(f, ua);
}

/// What the library shows of a current.
proof fn lemma_current_text<F: Arithmetic + Rendering>(f: &F, ua: Double)
    requires
        rounds_in_order(f),
    ensures
        is_current_text(f, ua_text(f, ua), ua),
{
    let u = Double::unit();
    let a = size(ua.value());
    let million = Double { bits: MILLION };
    let thousand = Double { bits: THOUSAND };
    let one = Double { bits: ONE };
    lemma_named_numbers();
    lemma_pow2_pos(1074);
    assert(million.finite() && thousand.finite() && one.finite());
    if ua.finite() {
        assert(ua.absolute().finite() && ua.absolute().value() == a);
        if a >= 1_000_000 * u {
            let v = quotient(f, ua, million);
            lemma_quotient_stays_finite(f, ua, million);
            lemma_near_quotient(f, ua, million);
            assert(near_quotient(v, ua.value(), 1_000_000 * u));
        } else if a >= 1000 * u {
            let v = quotient(f, ua, thousand);
            lemma_quotient_stays_finite(f, ua, thousand);
            lemma_near_quotient(f, ua, thousand);
            assert(near_quotient(v, ua.value(), 1000 * u));
        } else if a < u && a != 0 {
            let v = product(f, ua, thousand);
            vstd::arithmetic::power2::lemma2_to64();
            vstd::arithmetic::power2::lemma_pow2_adds(10, 1074);
            vstd::arithmetic::power2::lemma_pow2_strictly_increases(1084, 1974);
            let w = ua.value();
            assert(size(w * (1000 * u)) <= vstd::arithmetic::power2::pow2(1974) * u)
                by (nonlinear_arith)
                requires
                    -u <= w <= u,
                    u > 0,
                    1024 * u <= vstd::arithmetic::power2::pow2(1974),
            ;
            lemma_product_stays_finite(f, ua, thousand);
            lemma_product_is_close(f, ua, thousand);
            assert(near_product(v, ua.value(), 1000 * u));
        }
    }
}

/// The line of a progress notification tells the seconds that settling still
/// takes, or how many samples there are of how many, and what share of them in
/// percent.
pub proof fn law_progress_line_tells_the_share<F: Arithmetic + Rendering>(
    f: &F,
    p: Progress,
    r: String,
)
    requires
        deterministic(f),
        stable(f),
        rounds_in_order(f),
        match p {
            Progress::Settling { remaining } => remaining <= EXACT_COUNTS,
            Progress::Sampling { collected, total } => collected <= EXACT_COUNTS && 1 <= total
                <= EXACT_COUNTS,
        },
        call_ensures(progress_line::<F>, (f, p), r),
    ensures
        match p {
            Progress::Settling { remaining } => exists|v: Double| #[trigger]
                is_seconds(v, remaining as int) && r@ == "settling: "@ + fixed_text(f, v, 0)
                    + " s remaining"@,
            Progress::Sampling { collected, total } => exists|v: Double| #[trigger]
                is_share(
                    v,
                    100 * Double::unit(),
                    collected * Double::unit(),
                    total * Double::unit(),
                ) && r@ == "sampling: "@ + decimal(collected as nat) + "/"@ + decimal(total as nat)
                    + " ("@ + fixed_text(f, v, 0) + "%)"@,
        },
{
    let u = Double::unit();
    let hundred = Double { bits: HUNDRED };
    lemma_named_numbers();
    lemma_pow2_pos(1074);
    assert(hundred.finite());
    match p {
        Progress::Settling { remaining } => {
            lemma_seconds_mean(f, remaining);
            let v = seconds_of(f, remaining);
            assert(is_seconds(v, remaining as int));
        },
        Progress::Sampling { collected, total } => {
            let a = counted(f, collected as int);
            let b = counted(f, total as int);
            lemma_count_is_exact(f, collected as int);
            lemma_count_is_exact(f, total as int);
            assert(0 <= collected * u && collected * u <= EXACT_COUNTS * u && total * u >= u)
                by (nonlinear_arith)
                requires
                    0 <= collected <= EXACT_COUNTS,
                    total >= 1,
                    u > 0,
            ;
            assert(size(hundred.value()) <= 2 * vstd::arithmetic::power2::pow2(1300) + 1) by {
                vstd::arithmetic::power2::lemma2_to64();
                vstd::arithmetic::power2::lemma_pow2_adds(7, 1074);
                vstd::arithmetic::power2::lemma_pow2_strictly_increases(1081, 1300);
            }
            lemma_share_means(f, hundred, a, b);
            let v = quotient(f, product(f, hundred, a), b);
            assert(is_share(v, 100 * u, collected * u, total * u));
        },
    }
}

/// The status line of a live session shows each number behind its name.
pub proof fn law_live_line_shows_the_update<F: Arithmetic + Rendering>(
    f: &F,
    u: &LiveUpdate,
    r: String,
)
    requires
        deterministic(f),
        stable(f),
        call_ensures(live_line::<F>, (f, u), r),
    ensures
        r@ == right_aligned(fixed_text(f, u.elapsed_secs, 1), 7) + "s now "@ + right_aligned(
            ua_text(f, u.now_ua),
            10,
        ) + " avg("@ + fixed_text(f, u.window_secs, 0) + "s) "@ + right_aligned(
            ua_text(f, u.window_mean_ua),
            10,
        ) + " min "@ + right_aligned(ua_text(f, u.window_min_ua), 10) + " p50 "@ + right_aligned(
            ua_text(f, u.window_p50_ua),
            10,
        ) + " p95 "@ + right_aligned(ua_text(f, u.window_p95_ua), 10) + " p99 "@ + right_aligned(
            ua_text(f, u.window_p99_ua),
            10,
        ) + " max "@ + right_aligned(ua_text(f, u.window_max_ua), 10) + " tot "@ + right_aligned(
            ua_text(f, u.total_mean_ua),
            10,
        ),
{
}

/// The summary of a live session shows each number behind its name, and what was
/// missed where something was.
pub proof fn law_live_summary_shows_the_session<F: Arithmetic + Rendering>(
    f: &F,
    s: &LiveSummary,
    r: String,
)
    requires
        deterministic(f),
        stable(f),
        call_ensures(live_summary::<F>, (f, s), r),
    ensures
        r@ == "session summary\n  duration: "@ + fixed_text(f, s.duration_secs, 1) + " s ("@
            + decimal(s.samples as nat) + " samples)"@ + (if s.missed_samples == 0 {
            Seq::empty()
        } else {
            ", "@ + decimal(s.missed_samples as nat) + " raw samples missed"@
        }) + "\n  mean:     "@ + right_aligned(ua_text(f, s.mean_ua), 12) + "   min:  "@
            + right_aligned(ua_text(f, s.min_ua), 12) + "   max: "@ + right_aligned(
            ua_text(f, s.max_ua),
            12,
        ) + "\n"@ + ("  charge:   "@ + fixed_text(f, s.charge_uah, 4) + " µAh   avg power: "@
            + fixed_text(f, s.avg_power_uw, 2) + " µW\n"@),
{
}

/// A percentile as a report shows it: its percentage and its current.
pub open spec fn percentile_cell<F: Arithmetic + Rendering>(f: &F, p: (Double, Double)) -> Seq<
    char,
> {
    "p"@ + left_aligned(shown_text(f, p.0), 5) + " "@ + right_aligned(ua_text(f, p.1), 12)
}

/// The statistics of a recording are shown each behind its name, and the eight
/// percentiles in two lines of four, each with its own percentage.
pub proof fn law_stats_report_shows_the_statistics<F: Arithmetic + Rendering>(
    f: &F,
    file: &str,
    rec: &Recording,
    s: &Stats,
    r: String,
)
    requires
        deterministic(f),
        stable(f),
        s.percentiles@.len() == 8,
        call_ensures(stats_report::<F>, (f, file, rec, s), r),
    ensures
        ({
            let p = s.percentiles@;
            let label = match rec.meta.label {
                Some(label) => "  label:    "@ + label@ + "\n"@,
                None => Seq::empty(),
            };
            let note = if rec.meta.calibrated {
                Seq::empty()
            } else {
                " (UNCALIBRATED)"@
            };
            let first = "  "@ + percentile_cell(f, p[0]) + "   "@ + percentile_cell(f, p[1]) + "   "@
                + percentile_cell(f, p[2]) + "   "@ + percentile_cell(f, p[3]) + "\n"@;
            let second = "  "@ + percentile_cell(f, p[4]) + "   "@ + percentile_cell(f, p[5])
                + "   "@ + percentile_cell(f, p[6]) + "   "@ + percentile_cell(f, p[7]) + "\n"@;
            let charge = "  charge:   "@ + fixed_text(f, s.charge_uah, 4) + " µAh   avg power: "@
                + fixed_text(f, s.avg_power_uw, 2) + " µW\n"@;
            r@ == file@ + "\n"@ + label + "  capture:  "@ + decimal(s.count as nat)
                + " samples at "@ + decimal(rec.meta.sps as nat) + " sps ("@ + fixed_text(
                f,
                s.duration_secs,
                1,
            ) + " s), "@ + decimal(rec.meta.voltage_mv as nat) + " mV, mode "@ + rec.meta.mode@
                + note + "\n  mean:     "@ + right_aligned(ua_text(f, s.mean), 12) + "   std:  "@
                + right_aligned(ua_text(f, s.std_dev), 12) + "\n  min:      "@ + right_aligned(
                ua_text(f, s.min),
                12,
            ) + "   max:  "@ + right_aligned(ua_text(f, s.max), 12) + "\n"@ + (first + second)
                + charge + "\n"@
        }),
{
    let p = s.percentiles@;
    lemma_row_of_four(f, p.take(4));
    lemma_row_of_four(f, p.skip(4));
    assert(p.take(4)[0] == p[0] && p.take(4)[1] == p[1] && p.take(4)[2] == p[2] && p.take(4)[3]
        == p[3]);
    assert(p.skip(4)[0] == p[4] && p.skip(4)[1] == p[5] && p.skip(4)[2] == p[6] && p.skip(4)[3]
        == p[7]);
    assert(rows_text(f, p) == row_text(f, p.take(4)) + row_text(f, p.skip(4))) by {
        reveal_with_fuel(rows_text, 2);
    }
}

/// A line of four percentiles.
proof fn lemma_row_of_four<F: Arithmetic + Rendering>(f: &F, p: Seq<(Double, Double)>)
    requires
        p.len() == 4,
    ensures
        row_text(f, p) == "  "@ + percentile_cell(f, p[0]) + "   "@ + percentile_cell(f, p[1])
            + "   "@ + percentile_cell(f, p[2]) + "   "@ + percentile_cell(f, p[3]) + "\n"@,
{
    let cells = p.map_values(|c: (Double, Double)| cell_text(f, c));
    let space = "   "@;
    let a = seq![cells[0]];
    let b = a.push(cells[1]);
    let c = b.push(cells[2]);
    law_joined_texts_follow_each_other(Seq::empty(), cells[0], space);
    law_joined_texts_follow_each_other(a, cells[1], space);
    law_joined_texts_follow_each_other(b, cells[2], space);
    law_joined_texts_follow_each_other(c, cells[3], space);
    assert(c.push(cells[3]) =~= cells);
    assert(row_text(f, p) =~= "  "@ + percentile_cell(f, p[0]) + "   "@ + percentile_cell(f, p[1])
        + "   "@ + percentile_cell(f, p[2]) + "   "@ + percentile_cell(f, p[3]) + "\n"@);
}

/// Whether `d` is, but for rounding, by how much `new` is above `baseline`.
pub open spec fn is_increase(d: Double, baseline: Double, new: Double) -> bool {
    baseline.finite() && new.finite() && d.finite() ==> near_sum(
        d,
        new.value(),
        -baseline.value(),
    )
}

/// The first `n` lines of compared percentiles: the percentage, both currents and
/// the increase.
pub open spec fn compared_lines<F: Arithmetic + Rendering>(
    f: &F,
    ps: Seq<PercentileDiff>,
    ds: Seq<Double>,
    n: nat,
) -> Seq<char>
    decreases n,
{
    if n == 0 {
        Seq::empty()
    } else {
        let p = ps[n - 1];
        compared_lines(f, ps, ds, (n - 1) as nat) + (left_aligned(
            "p"@ + shown_text(f, p.percentile),
            12,
        ) + " "@ + right_aligned(ua_text(f, p.baseline), 14) + " "@ + right_aligned(
            ua_text(f, p.new),
            14,
        ) + " "@ + right_aligned(ua_text(f, ds[n - 1]), 14) + "\n"@)
    }
}

/// Whether the numbers of a comparison that a report computes are right: the
/// confidence in percent, and by how much each percentile rose.
pub open spec fn are_report_parts(level: Double, ds: Seq<Double>, r: CompareResult) -> bool {
    &&& r.confidence.finite() && level.finite() ==> near_product(
        level,
        r.confidence.value(),
        100 * Double::unit(),
    )
    &&& ds.len() == r.percentiles@.len()
    &&& forall|i: int|
        0 <= i < ds.len() ==> is_increase(
            #[trigger] ds[i],
            r.percentiles@[i].baseline,
            r.percentiles@[i].new,
        )
}

/// A comparison is shown each number behind its name; a significant difference is
/// called an increase where it is above zero; and each percentile stands in a
/// line with both currents and by how much it rose.
pub proof fn law_compare_report_shows_the_comparison<F: Arithmetic + Rendering>(
    f: &F,
    baseline: &str,
    new: &str,
    r: &CompareResult,
    text: String,
)
    requires
        deterministic(f),
        stable(f),
        rounds_in_order(f),
        call_ensures(compare_report::<F>, (f, baseline, new, r), text),
    ensures
        exists|level: Double, ds: Seq<Double>| #[trigger]
            are_report_parts(level, ds, *r) && text@ == {
                let percent = shown_text(f, level);
                let verdict = if !r.significant {
                    "=> no significant change detected at "@ + percent + "% confidence\n"@
                } else if !r.mean_diff.nan() && r.mean_diff.value() > 0 {
                    "=> SIGNIFICANT "@ + "INCREASE"@ + " in mean current at "@ + percent
                        + "% confidence\n"@
                } else {
                    "=> SIGNIFICANT "@ + "DECREASE"@ + " in mean current at "@ + percent
                        + "% confidence\n"@
                };
                "baseline: "@ + (baseline@ + "  mean "@ + ua_text(f, r.mean_baseline) + " ("@
                    + decimal(r.blocks_baseline as nat) + " blocks of "@ + shown_text(
                    f,
                    r.block_secs,
                ) + " s)\n"@) + "new:      "@ + (new@ + "  mean "@ + ua_text(f, r.mean_new) + " ("@
                    + decimal(r.blocks_new as nat) + " blocks of "@ + shown_text(f, r.block_secs)
                    + " s)\n"@) + "\nmean difference:   "@ + ua_text(f, r.mean_diff) + " ("@
                    + signed_text(f, r.mean_diff_pct, 2) + "%)\n"@ + percent + "% CI of diff:  ["@
                    + ua_text(f, r.diff_ci.0) + ", "@ + ua_text(f, r.diff_ci.1) + "]  (["@
                    + signed_text(f, r.diff_ci_pct.0, 2) + "%, "@ + signed_text(
                    f,
                    r.diff_ci_pct.1,
                    2,
                ) + "%])\nWelch's t-test:    t = "@ + fixed_text(f, r.t_statistic, 3) + ", dof = "@
                    + fixed_text(f, r.degrees_of_freedom, 1) + ", p = "@ + scientific_text(
                    f,
                    r.p_value,
                    2,
                ) + "\n\n"@ + verdict
                    + "\npercentile         baseline            new           diff\n"@
                    + compared_lines(f, r.percentiles@, ds, ds.len())
            },
{
    let hundred = Double { bits: HUNDRED };
    let zero = Double { bits: ZERO };
    lemma_named_numbers();
    assert(hundred.finite() && zero.finite());
    let level = product(f, r.confidence, hundred);
    let ps = r.percentiles@;
    let ds = Seq::new(ps.len(), |i: int| difference(f, ps[i].new, ps[i].baseline));
    if r.confidence.finite() && level.finite() {
        lemma_product_is_close(f, r.confidence, hundred);
    }
    assert forall|i: int| 0 <= i < ds.len() implies is_increase(
        #[trigger] ds[i],
        ps[i].baseline,
        ps[i].new,
    ) by {
        if ps[i].baseline.finite() && ps[i].new.finite() && ds[i].finite() {
            lemma_difference_is_close(f, ps[i].new, ps[i].baseline);
        }
    }
    lemma_compared_lines(f, ps, ds, ps.len());
    assert(ps.take(ps.len() as int) =~= ps);
    assert(are_report_parts(level, ds, *r));
}

/// The lines of compared percentiles are the same, however they are put together.
proof fn lemma_compared_lines<F: Arithmetic + Rendering>(
    f: &F,
    ps: Seq<PercentileDiff>,
    ds: Seq<Double>,
    n: nat,
)
    requires
        n <= ps.len(),
        ds.len() == ps.len(),
        forall|i: int|
            0 <= i < ds.len() ==> #[trigger] ds[i] == difference(f, ps[i].new, ps[i].baseline),
    ensures
        diffs_text(f, ps.take(n as int)) == compared_lines(f, ps, ds, n),
    decreases n,
{
    if n > 0 {
        lemma_compared_lines(f, ps, ds, (n - 1) as nat);
        assert(ps.take(n as int).drop_last() =~= ps.take(n - 1));
        assert(ds[n - 1] == difference(f, ps[n - 1].new, ps[n - 1].baseline));
    }
}

/// What is said of a regression names the increase, the threshold and the
/// confidence.
pub proof fn law_regression_message_names_the_increase<R: Rendering>(
    f: &R,
    mean_diff_pct: Double,
    threshold: Double,
    confidence: Double,
    r: String,
)
    requires
        stable(f),
        call_ensures(regression_message::<R>, (f, mean_diff_pct, threshold, confidence), r),
    ensures
        r@ == "FAIL: mean current increased "@ + fixed_text(f, mean_diff_pct, 2) + "% (> "@
            + shown_text(f, threshold) + "%) with "@ + fixed_text(f, confidence, 1)
            + "% confidence"@,
{
}

/// An error is shown with what it is about and what was reported of it.
pub proof fn law_error_message_tells_the_error(e: &Error, r: String)
    requires
        call_ensures(Error::message, (e,), r),
    ensures
        r@ == match *e {
            Error::Ppk2(s) => "PPK2 error: "@ + s@,
            Error::Serial(s) => "serial port error: "@ + s@,
            Error::Device(s) => "device error: "@ + s@,
            Error::Io(s) => "I/O error: "@ + s@,
            Error::InvalidFile(s) => "invalid sample file: "@ + s@,
            Error::InvalidConfig(s) => "invalid configuration: "@ + s@,
            Error::Cancelled => "recording cancelled"@,
            Error::Incomplete { got, expected, raw_bytes, missed } =>
            "measurement incomplete: got "@ + decimal(got as nat) + " of "@ + decimal(
                expected as nat,
            ) + " samples ("@ + decimal(raw_bytes as nat) + " stream bytes read, "@ + decimal(
                missed as nat,
            ) + " raw samples missed)"@,
            Error::StreamRate { bytes_per_sec } => "PPK2 stream rate too low: "@ + decimal(
                bytes_per_sec as nat,
            )
                + " B/s instead of ~400000 B/s (100 ksps). The USB path or device is pacing the stream. Try a different USB port — plug the PPK2 directly into a root port; full-speed devices behind USB 2.0 hubs/docks are commonly throttled exactly like this."@,
            Error::NotEnoughData(s) => "not enough data: "@ + s@,
            Error::Gnuplot(s) => "gnuplot failed: "@ + s@,
        },
{
}

} // verus!
