//! What the data files of a plot hold, told by exact numbers.

use vstd::arithmetic::power2::{lemma_pow2_pos, pow2};
use vstd::prelude::*;

use crate::accuracy::{all_finite, lemma_count_is_exact, SUMMED_COUNTS};
use crate::arithmetic::{all_widened, counted, deterministic, quotient, Arithmetic};
use crate::format::Recording;
use crate::meaning::{
    amounts, arranged, is_mean, is_percentile, lemma_amounts, lemma_ascending_is_arranged,
    lemma_duration_means, lemma_mean_means, lemma_near_quotient, lemma_percentile_means,
    lemma_sample_reach, near_quotient, reach, values,
};
use crate::meaning_report::law_joined_texts_follow_each_other;
use crate::number::{lemma_named_numbers, Double, Single, HUNDRED, TEN, ZERO};
use crate::order::{ascending, greatest_of, least_of, lemma_greatest_of, lemma_least_of};
use crate::plot::{
    bucket, bucket_count, bucket_lines, bucket_middle, bucket_start, buckets_of, curve_plots,
    envelope, envelope_data, envelope_plots, envelope_text, is_data_file, job_paths,
    lemma_bucket_starts, percentile_data, percentile_lines, percentile_text, plot, script, tenths,
    Bucket, GnuplotRun, OutputPath, PlotConfig, PlotFile, PlotJob, PlotOutcome, Series,
};
use crate::rendering::{shown_text, stable, Rendering};
use crate::rounding::{lemma_quotient_stays_finite, rounds_in_order, EXACT_COUNTS};
use crate::stats::percentile;
use crate::text::{decimal, quotes_doubled, texts};

verus! {

/// The first `n` lines of a file with a current and a percentage on each line.
pub open spec fn curve_lines<R: Rendering>(
    f: &R,
    currents: Seq<Double>,
    percents: Seq<Double>,
    n: nat,
) -> Seq<char>
    decreases n,
{
    if n == 0 {
        Seq::empty()
    } else {
        curve_lines(f, currents, percents, (n - 1) as nat) + shown_text(f, currents[n - 1]) + " "@
            + shown_text(f, percents[n - 1]) + "\n"@
    }
}

/// Whether each current is the percentile of the samples at the percentage beside
/// it, and the percentages go from 0 to 100 in tenths.
pub open spec fn is_curve(
    currents: Seq<Double>,
    percents: Seq<Double>,
    samples: Seq<Single>,
) -> bool {
    let u = Double::unit();
    &&& currents.len() == 1001
    &&& percents.len() == 1001
    &&& percents[0].value() == 0
    &&& percents[1000].value() == 100 * u
    &&& forall|k: int|
        #![trigger percents[k]]
        #![trigger currents[k]]
        0 <= k <= 1000 ==> near_quotient(percents[k], k * u, 10 * u) && is_percentile(
            currents[k],
            samples,
            percents[k],
            reach(amounts(samples)),
        )
}

/// Whether a text is the percentile curve of samples: a line that names them, and
/// one for each tenth of a percent.
pub open spec fn is_curve_file<R: Rendering>(
    f: &R,
    text: Seq<char>,
    samples: Seq<Single>,
    name: Seq<char>,
) -> bool {
    exists|currents: Seq<Double>, percents: Seq<Double>| #[trigger]
        is_curve(currents, percents, samples) && text == "# "@ + name
            + ": current_ua percent_of_samples_below\n"@ + curve_lines(
            f,
            currents,
            percents,
            1001,
        )
}

/// A percentile-curve file names the recording and holds a line for each tenth of
/// a percent: the current on a line is the percentile of the samples at the very
/// percentage that the line shows.
pub proof fn law_curve_shows_percentiles<F: Arithmetic + Rendering>(
    f: &F,
    rec: &Recording,
    name: &str,
    r: String,
)
    requires
        deterministic(f),
        stable(f),
        rounds_in_order(f),
        1 <= rec.samples_ua@.len() <= EXACT_COUNTS,
        all_finite(rec.samples_ua@),
        call_ensures(percentile_data::<F>, (f, rec, name), r),
    ensures
        is_curve_file(f, r@, rec.samples_ua@, name@),
{
    assert(rec.samples_ua.len() == rec.samples_ua@.len());
    lemma_curve_means(f, rec.samples_ua@, name@);
}

/// The percentile curve that the library writes is one.
proof fn lemma_curve_means<F: Arithmetic + Rendering>(f: &F, s: Seq<Single>, name: Seq<char>)
    requires
        rounds_in_order(f),
        1 <= s.len() <= EXACT_COUNTS,
        s.len() <= usize::MAX,
        all_finite(s),
    ensures
        is_curve_file(f, percentile_text(f, s, name), s, name),
{
    let sorted = ascending(s);
    let m = reach(amounts(s));
    let u = Double::unit();
    let percents = Seq::new(1001, |k: int| tenths(f, k));
    let currents = Seq::new(1001, |k: int| percentile(f, sorted, tenths(f, k)));
    lemma_sample_reach(f, s);
    lemma_ascending_is_arranged(s, m);
    assert forall|k: int|
        #![trigger percents[k]]
        #![trigger currents[k]]
        0 <= k <= 1000 implies near_quotient(percents[k], k * u, 10 * u) && is_percentile(
        currents[k],
        s,
        percents[k],
        m,
    ) by {
        lemma_tenths_mean(f, k);
        lemma_percentile_means(f, sorted, tenths(f, k), m);
        assert(arranged(amounts(sorted), amounts(s)));
    }
    lemma_tenths_mean(f, 0);
    lemma_tenths_mean(f, 1000);
    lemma_curve_lines(f, sorted, currents, percents, 1001);
    assert(is_curve(currents, percents, s));
}

/// The lines of a curve are the same, however they are put together.
pub(crate) proof fn lemma_curve_lines<F: Arithmetic + Rendering>(
    f: &F,
    sorted: Seq<Single>,
    currents: Seq<Double>,
    percents: Seq<Double>,
    n: nat,
)
    requires
        n <= 1001,
        currents.len() == 1001,
        percents.len() == 1001,
        forall|k: int| 0 <= k < 1001 ==> #[trigger] percents[k] == tenths(f, k),
        forall|k: int|
            0 <= k < 1001 ==> #[trigger] currents[k] == percentile(f, sorted, tenths(f, k)),
    ensures
        percentile_lines(f, sorted, n) == curve_lines(f, currents, percents, n),
    decreases n,
{
    if n > 0 {
        lemma_curve_lines(f, sorted, currents, percents, (n - 1) as nat);
        assert(percents[n - 1] == tenths(f, n - 1));
        assert(currents[n - 1] == percentile(f, sorted, tenths(f, n - 1)));
        assert(percentile_lines(f, sorted, n) =~= curve_lines(f, currents, percents, n));
    }
}

/// The percentages that the library computes are tenths.
proof fn lemma_tenths_mean<A: Arithmetic>(f: &A, k: int)
    requires
        rounds_in_order(f),
        0 <= k <= 1000,
    ensures
        ({
            let p = tenths(f, k);
            let u = Double::unit();
            &&& p.finite()
            &&& 0 <= p.value() <= 100 * u
            &&& near_quotient(p, k * u, 10 * u)
            &&& k == 0 ==> p.value() == 0
            &&& k == 1000 ==> p.value() == 100 * u
        }),
{
    let u = Double::unit();
    let ten = Double { bits: TEN };
    let zero = Double { bits: ZERO };
    let hundred = Double { bits: HUNDRED };
    let p = tenths(f, k);
    lemma_named_numbers();
    lemma_pow2_pos(1074);
    assert(ten.finite() && zero.finite() && hundred.finite());
    lemma_count_is_exact(f, k);
    lemma_count_is_exact(f, 1000);
    lemma_quotient_stays_finite(f, counted(f, k), ten);
    lemma_near_quotient(f, counted(f, k), ten);
    assert(0 <= k * u && (k * u) * (10 * u) <= (1000 * u) * (10 * u) && (1000 * u) * u == (100 * u)
        * (10 * u) && 0 * u == 0 * (10 * u)) by (nonlinear_arith)
        requires
            0 <= k <= 1000,
            u > 0,
    ;
    assert(quotient(f, counted(f, 1000), ten).value() == hundred.value()) by {
        reveal(rounds_in_order);
    }
    assert(p.value() <= quotient(f, counted(f, 1000), ten).value()) by {
        reveal(rounds_in_order);
    }
    if k == 0 {
        assert(p.value() == zero.value()) by {
            reveal(rounds_in_order);
        }
    }
}

/// Whether a bucket shows the samples from `start` to `end`: the time of the one
/// in the middle, the extremes and the mean.
pub open spec fn shows_bucket(
    b: Bucket,
    samples: Seq<Single>,
    sps: u32,
    start: int,
    end: int,
) -> bool {
    let u = Double::unit();
    let xs = amounts(samples.subrange(start, end));
    &&& start < end
    &&& exists|middle: int|
        2 * middle <= start + end < 2 * middle + 2 && #[trigger] near_quotient(
            b.t_mid,
            middle * u,
            sps * u,
        )
    &&& xs.contains(b.min.value()) && xs.contains(b.max.value())
    &&& forall|i: int|
        0 <= i < xs.len() ==> b.min.value() <= #[trigger] xs[i] && xs[i] <= b.max.value()
    &&& is_mean(b.mean, xs, reach(xs))
}

/// Whether buckets show the samples, each as many as the others but for one: the
/// bucket `i` goes from `starts[i]`, which is at `i` shares of the samples, to
/// where the next starts.
pub open spec fn shows_from(
    rows: Seq<Bucket>,
    starts: Seq<int>,
    samples: Seq<Single>,
    sps: u32,
) -> bool {
    let n = samples.len() as int;
    let count = rows.len() as int;
    &&& starts.len() == count + 1
    &&& starts[0] == 0 && starts[count] == n
    &&& forall|i: int|
        0 <= i <= count ==> #[trigger] starts[i] * count <= i * n < (starts[i] + 1) * count
    &&& forall|i: int|
        0 <= i < count ==> shows_bucket(
            #[trigger] rows[i],
            samples,
            sps,
            starts[i],
            starts[i + 1],
        )
}

/// Whether buckets show the samples, all of them and each once.
pub open spec fn shows_envelope(rows: Seq<Bucket>, samples: Seq<Single>, sps: u32) -> bool {
    exists|starts: Seq<int>| #[trigger] shows_from(rows, starts, samples, sps)
}

/// An envelope has so many buckets as were asked for, or one for each sample where
/// there are fewer, and together they show all of the samples.
pub proof fn law_envelope_shows_the_samples<A: Arithmetic>(
    f: &A,
    samples: &[Single],
    sps: u32,
    buckets: usize,
    r: Vec<Bucket>,
)
    requires
        deterministic(f),
        rounds_in_order(f),
        buckets >= 1,
        sps >= 1,
        1 <= samples@.len() <= SUMMED_COUNTS,
        all_finite(samples@),
        call_ensures(envelope::<A>, (f, samples, sps, buckets), r),
    ensures
        r@.len() == if samples@.len() <= buckets {
            samples@.len() as int
        } else {
            buckets as int
        },
        shows_envelope(r@, samples@, sps),
{
    lemma_envelope_means(f, samples@, sps, buckets as int);
}

/// The buckets that the library computes show the samples.
proof fn lemma_envelope_means<A: Arithmetic>(f: &A, s: Seq<Single>, sps: u32, buckets: int)
    requires
        rounds_in_order(f),
        buckets >= 1,
        sps >= 1,
        1 <= s.len() <= SUMMED_COUNTS,
        all_finite(s),
    ensures
        shows_envelope(buckets_of(f, s, sps, buckets), s, sps),
{
    let n = s.len() as int;
    let count = bucket_count(n, buckets);
    let rows = buckets_of(f, s, sps, buckets);
    let starts = Seq::new((count + 1) as nat, |i: int| bucket_start(n, count, i));
    lemma_bucket_starts(n, count, 0);
    lemma_bucket_starts(n, count, count - 1);
    assert forall|i: int| 0 <= i <= count implies #[trigger] starts[i] * count <= i * n < (starts[i]
        + 1) * count by {
        vstd::arithmetic::div_mod::lemma_fundamental_div_mod(i * n, count);
        let q = i * n / count;
        assert(q * count <= i * n && i * n < (q + 1) * count) by (nonlinear_arith)
            requires
                i * n == count * q + (i * n) % count,
                0 <= (i * n) % count < count,
        ;
    }
    assert forall|i: int| 0 <= i < count implies shows_bucket(
        #[trigger] rows[i],
        s,
        sps,
        starts[i],
        starts[i + 1],
    ) by {
        lemma_bucket_starts(n, count, i);
        lemma_bucket_means(f, s, sps, count, i);
    }
    assert(shows_from(rows, starts, s, sps));
}

/// A bucket that the library computes shows its samples.
proof fn lemma_bucket_means<A: Arithmetic>(f: &A, s: Seq<Single>, sps: u32, count: int, i: int)
    requires
        rounds_in_order(f),
        sps >= 1,
        1 <= s.len() <= SUMMED_COUNTS,
        all_finite(s),
        1 <= count <= s.len(),
        0 <= i < count,
    ensures
        shows_bucket(
            bucket(f, s, sps, count, i),
            s,
            sps,
            bucket_start(s.len() as int, count, i),
            bucket_start(s.len() as int, count, i + 1),
        ),
{
    let u = Double::unit();
    let n = s.len() as int;
    let start = bucket_start(n, count, i);
    let end = bucket_start(n, count, i + 1);
    let b = bucket(f, s, sps, count, i);
    let zero = Double { bits: ZERO };
    lemma_named_numbers();
    assert(zero.finite());
    lemma_bucket_starts(n, count, i);
    let part = s.subrange(start, end);
    let xs = amounts(part);
    let wide = all_widened(f, part);
    assert forall|j: int| 0 <= j < part.len() implies (#[trigger] part[j]).finite() by {
        assert(s[start + j].finite());
    }
    lemma_sample_reach(f, part);
    lemma_amounts(f, part);
    lemma_mean_means(f, zero, wide, reach(xs));
    let middle = bucket_middle(n, count, i);
    lemma_duration_means(f, middle, sps);
    assert(2 * middle <= start + end < 2 * middle + 2);
    assert(near_quotient(b.t_mid, middle * u, sps * u));
    lemma_least_of(wide);
    lemma_greatest_of(wide);
    let p = choose|p: int| 0 <= p < wide.len() && wide[p] == least_of(wide);
    let q = choose|q: int| 0 <= q < wide.len() && wide[q] == greatest_of(wide);
    assert(values(wide)[p] == xs[p] && values(wide)[q] == xs[q]);
    assert forall|k: int| 0 <= k < xs.len() implies b.min.value() <= #[trigger] xs[k] && xs[k]
        <= b.max.value() by {
        assert(values(wide)[k] == wide[k].value());
    }
}

/// The first `n` lines of a file with a time, the extremes and the mean on each
/// line.
pub open spec fn row_lines<R: Rendering>(f: &R, rows: Seq<Bucket>, n: nat) -> Seq<char>
    decreases n,
{
    if n == 0 {
        Seq::empty()
    } else {
        row_lines(f, rows, (n - 1) as nat) + shown_text(f, rows[n - 1].t_mid) + " "@ + shown_text(
            f,
            rows[n - 1].min,
        ) + " "@ + shown_text(f, rows[n - 1].mean) + " "@ + shown_text(f, rows[n - 1].max) + "\n"@
    }
}

/// The lines of an envelope are the same, however they are put together.
proof fn lemma_row_lines<R: Rendering>(f: &R, rows: Seq<Bucket>, n: nat)
    requires
        n <= rows.len(),
    ensures
        bucket_lines(f, rows.take(n as int)) == row_lines(f, rows, n),
    decreases n,
{
    if n > 0 {
        lemma_row_lines(f, rows, (n - 1) as nat);
        assert(rows.take(n as int).drop_last() =~= rows.take(n - 1));
        assert(bucket_lines(f, rows.take(n as int)) =~= row_lines(f, rows, n));
    }
}

/// Whether a text is the envelope of samples: a line that names them, and one for
/// each of so many buckets, or one for each sample where there are fewer.
pub open spec fn is_envelope_file<R: Rendering>(
    f: &R,
    text: Seq<char>,
    samples: Seq<Single>,
    sps: u32,
    buckets: int,
    name: Seq<char>,
) -> bool {
    exists|rows: Seq<Bucket>|
        {
            &&& #[trigger] shows_envelope(rows, samples, sps)
            &&& rows.len() == if samples.len() <= buckets {
                samples.len() as int
            } else {
                buckets
            }
            &&& text == "# "@ + name + ": t_mid_s min_ua mean_ua max_ua\n"@ + row_lines(
                f,
                rows,
                rows.len(),
            )
        }
}

/// An envelope file names the recording and holds a line for each bucket, which
/// together show all of the samples.
pub proof fn law_envelope_file_shows_the_samples<F: Arithmetic + Rendering>(
    f: &F,
    rec: &Recording,
    buckets: usize,
    name: &str,
    r: String,
)
    requires
        deterministic(f),
        stable(f),
        rounds_in_order(f),
        buckets >= 1,
        rec.meta.sps >= 1,
        1 <= rec.samples_ua@.len() <= SUMMED_COUNTS,
        all_finite(rec.samples_ua@),
        call_ensures(envelope_data::<F>, (f, rec, buckets, name), r),
    ensures
        is_envelope_file(f, r@, rec.samples_ua@, rec.meta.sps, buckets as int, name@),
{
    lemma_envelope_file_means(f, rec.samples_ua@, rec.meta.sps, buckets as int, name@);
}

/// The envelope that the library writes is one.
proof fn lemma_envelope_file_means<F: Arithmetic + Rendering>(
    f: &F,
    s: Seq<Single>,
    sps: u32,
    buckets: int,
    name: Seq<char>,
)
    requires
        rounds_in_order(f),
        buckets >= 1,
        sps >= 1,
        1 <= s.len() <= SUMMED_COUNTS,
        all_finite(s),
    ensures
        is_envelope_file(f, envelope_text(f, s, sps, buckets, name), s, sps, buckets, name),
{
    let rows = buckets_of(f, s, sps, buckets);
    lemma_envelope_means(f, s, sps, buckets);
    lemma_row_lines(f, rows, rows.len());
    assert(rows.take(rows.len() as int) =~= rows);
    assert(shows_envelope(rows, s, sps));
}

/// Whether a recording has samples that are finite, and a rate.
pub open spec fn can_be_plotted(rec: Recording) -> bool {
    &&& 1 <= rec.samples_ua@.len() <= SUMMED_COUNTS
    &&& all_finite(rec.samples_ua@)
    &&& rec.meta.sps >= 1
}

/// Whether two files beside `output` are the envelope and the percentile curve of
/// the series `i`.
pub open spec fn shows_series<R: Rendering>(
    f: &R,
    env: PlotFile,
    cdf: PlotFile,
    output: Seq<char>,
    i: int,
    series: Series,
    buckets: int,
) -> bool {
    let rec = *series.recording;
    &&& env.path@ == output + "."@ + decimal(i as nat) + ".env.dat"@
    &&& cdf.path@ == output + "."@ + decimal(i as nat) + ".cdf.dat"@
    &&& is_envelope_file(
        f,
        env.contents@,
        rec.samples_ua@,
        rec.meta.sps,
        buckets,
        series.name@,
    )
    &&& is_curve_file(f, cdf.contents@, rec.samples_ua@, series.name@)
}

/// The data files that the library writes of a series show it.
proof fn lemma_series_shown<F: Arithmetic + Rendering>(
    f: &F,
    series: Seq<Series>,
    output: Seq<char>,
    buckets: usize,
    i: int,
    env: PlotFile,
    cdf: PlotFile,
)
    requires
        deterministic(f),
        stable(f),
        rounds_in_order(f),
        0 <= i < series.len(),
        buckets >= 1,
        can_be_plotted(*series[i].recording),
        is_data_file(f, series, output, buckets, 2 * i, env),
        is_data_file(f, series, output, buckets, 2 * i + 1, cdf),
    ensures
        shows_series(f, env, cdf, output, i, series[i], buckets as int),
{
    let rec = *series[i].recording;
    assert(2 * i / 2 == i && 2 * i % 2 == 0 && (2 * i + 1) / 2 == i && (2 * i + 1) % 2 == 1);
    assert(rec.samples_ua@.len() == rec.samples_ua.len());
    lemma_envelope_file_means(
        f,
        rec.samples_ua@,
        rec.meta.sps,
        buckets as int,
        series[i].name@,
    );
    lemma_curve_means(f, rec.samples_ua@, series[i].name@);
}

/// A plot of one or two recordings writes two data files for each, beside the
/// output: the envelope of its samples and their percentile curve, under names
/// that tell which recording it is.
pub proof fn law_plot_files_show_the_recordings<F: Arithmetic + Rendering>(
    f: &F,
    recordings: &[Series],
    output: &OutputPath,
    config: &PlotConfig,
    job: PlotJob,
)
    requires
        deterministic(f),
        stable(f),
        rounds_in_order(f),
        forall|i: int|
            0 <= i < recordings@.len() ==> can_be_plotted(
                *(#[trigger] recordings@[i]).recording,
            ),
        call_ensures(plot::<F>, (f, recordings, output, config), Ok(job)),
    ensures
        1 <= recordings@.len() <= 2,
        job.data@.len() == 2 * recordings@.len(),
        forall|i: int|
            0 <= i < recordings@.len() ==> shows_series(
                f,
                job.data@[2 * i],
                job.data@[2 * i + 1],
                output.text@,
                i,
                #[trigger] recordings@[i],
                config.buckets as int,
            ),
        job.script.path@ == output.text@ + ".gp"@,
{
    assert forall|i: int| 0 <= i < recordings@.len() implies shows_series(
        f,
        job.data@[2 * i],
        job.data@[2 * i + 1],
        output.text@,
        i,
        #[trigger] recordings@[i],
        config.buckets as int,
    ) by {
        let env = job.data@[2 * i];
        let cdf = job.data@[2 * i + 1];
        assert(is_data_file(f, recordings@, output.text@, config.buckets, 2 * i, env));
        assert(is_data_file(f, recordings@, output.text@, config.buckets, 2 * i + 1, cdf));
        assert(can_be_plotted(*recordings@[i].recording));
        lemma_series_shown(f, recordings@, output.text@, config.buckets, i, env, cdf);
    }
}

/// What a script draws of the series `i`, in the color `rgb`: the band between
/// the columns of the envelope with the lowest and the highest currents.
pub open spec fn draws_band(base: Seq<char>, i: nat, rgb: Seq<char>) -> Seq<char> {
    "'"@ + base + "."@ + decimal(i) + ".env.dat' using 1:2:4 with filledcurves fc rgb '"@ + rgb
        + "' fs transparent solid 0.15 notitle"@
}

/// What a script draws of the series `i`: the column of the envelope with the
/// mean currents.
pub open spec fn draws_mean(base: Seq<char>, i: nat, rgb: Seq<char>, name: Seq<char>) -> Seq<char> {
    "'"@ + base + "."@ + decimal(i) + ".env.dat' using 1:3 with lines lc rgb '"@ + rgb
        + "' lw 1.5 title '"@ + quotes_doubled(name) + " (mean)'"@
}

/// What a script draws of the series `i`: its percentile curve.
pub open spec fn draws_curve(base: Seq<char>, i: nat, rgb: Seq<char>, name: Seq<char>) -> Seq<
    char,
> {
    "'"@ + base + "."@ + decimal(i) + ".cdf.dat' using 1:2 with lines lc rgb '"@ + rgb
        + "' lw 1.5 title '"@ + quotes_doubled(name) + "'"@
}

/// A script draws to the output file, as SVG where its extension says so and else
/// as PNG: in the first panel the band and the mean of each series over time, in
/// the second the percentile curves, each series in its own color. The title is
/// the configured one, or made of the names; a logarithmic scale goes for the
/// axis with the currents.
pub proof fn law_script_draws_each_series(
    names: &Vec<String>,
    output: &OutputPath,
    config: &PlotConfig,
    r: String,
)
    requires
        1 <= names@.len() <= 2,
        call_ensures(script, (names, output, config), r),
    ensures
        ({
            let base = quotes_doubled(output.text@);
            let a = names@[0]@;
            let b = names@[1]@;
            let two = names@.len() == 2;
            let svg = output.extension matches Some(e) && {
                &&& e@.len() == 3
                &&& e@[0] == 's' || e@[0] == 'S'
                &&& e@[1] == 'v' || e@[1] == 'V'
                &&& e@[2] == 'g' || e@[2] == 'G'
            };
            let terminal = if svg {
                "svg size 1400,900 dynamic font 'sans,11'"@
            } else {
                "pngcairo size 1400,900 font ',11'"@
            };
            let title = if config.title@.len() > 0 {
                config.title@
            } else if two {
                a + " vs "@ + b
            } else {
                a
            };
            let bands = if two {
                draws_band(base, 0, "#1f77b4"@) + ", \\\n     "@ + draws_mean(
                    base,
                    0,
                    "#1f77b4"@,
                    a,
                ) + ", \\\n     "@ + draws_band(base, 1, "#d62728"@) + ", \\\n     "@ + draws_mean(
                    base,
                    1,
                    "#d62728"@,
                    b,
                )
            } else {
                draws_band(base, 0, "#1f77b4"@) + ", \\\n     "@ + draws_mean(
                    base,
                    0,
                    "#1f77b4"@,
                    a,
                )
            };
            let curves = if two {
                draws_curve(base, 0, "#1f77b4"@, a) + ", \\\n     "@ + draws_curve(
                    base,
                    1,
                    "#d62728"@,
                    b,
                )
            } else {
                draws_curve(base, 0, "#1f77b4"@, a)
            };
            let none = Seq::<char>::empty();
            r@ == "set terminal "@ + terminal + "\nset output '"@ + base
                + "'\nset multiplot layout 2,1 title '"@ + quotes_doubled(title)
                + "'\nset grid\nset key left top\nset xlabel 'time (s)'\nset ylabel 'current (µA)'\n"@
                + (if config.log_scale {
                "set logscale y\n"@
            } else {
                none
            }) + "plot "@ + bands
                + "\nset xlabel 'current (µA)'\nset ylabel '% of samples below'\nset yrange [0:100]\n"@
                + (if config.log_scale {
                "unset logscale y\nset logscale x\n"@
            } else {
                none
            }) + "plot "@ + curves + "\nunset multiplot\n"@
        }),
{
    let all = texts(names@);
    let base = quotes_doubled(output.text@);
    let separator = ", \\\n     "@;
    let bands = envelope_plots(base, all);
    let curves = curve_plots(base, all);
    let p = draws_band(base, 0, "#1f77b4"@);
    let q = draws_mean(base, 0, "#1f77b4"@, all[0]);
    let c = draws_curve(base, 0, "#1f77b4"@, all[0]);
    law_joined_texts_follow_each_other(Seq::empty(), p, separator);
    law_joined_texts_follow_each_other(seq![p], q, separator);
    law_joined_texts_follow_each_other(Seq::empty(), c, separator);
    law_joined_texts_follow_each_other(Seq::empty(), all[0], " vs "@);
    reveal_with_fuel(envelope_plots, 3);
    assert(seq![p].push(q) =~= seq![p, q]);
    if names@.len() == 1 {
        assert(all =~= seq![all[0]]);
        assert(all.drop_last() =~= Seq::<Seq<char>>::empty());
        assert(bands =~= seq![p, q]);
        assert(curves =~= seq![c]);
    } else {
        let s = draws_band(base, 1, "#d62728"@);
        let t = draws_mean(base, 1, "#d62728"@, all[1]);
        let d = draws_curve(base, 1, "#d62728"@, all[1]);
        assert(all =~= seq![all[0]].push(all[1]));
        assert(all.drop_last() =~= seq![all[0]]);
        assert(all.drop_last().drop_last() =~= Seq::<Seq<char>>::empty());
        law_joined_texts_follow_each_other(seq![p].push(q), s, separator);
        law_joined_texts_follow_each_other(seq![p].push(q).push(s), t, separator);
        law_joined_texts_follow_each_other(seq![c], d, separator);
        law_joined_texts_follow_each_other(seq![all[0]], all[1], " vs "@);
        assert(bands =~= seq![p].push(q).push(s).push(t));
        assert(curves =~= seq![c].push(d));
    }
}

/// After gnuplot succeeded all files that a plot wrote are removed, unless they
/// are to be kept; after it did not, none is.
pub proof fn law_finished_plot_removes_its_files(
    job: &PlotJob,
    run: GnuplotRun,
    keep_data: bool,
    r: PlotOutcome,
)
    requires
        call_ensures(PlotJob::finish, (job, run, keep_data), r),
    ensures
        r.result is Ok <==> run is Succeeded,
        !(run is Succeeded) || keep_data ==> r.remove@.len() == 0,
        run is Succeeded && !keep_data ==> {
            &&& r.remove@.len() == job.data@.len() + 1
            &&& forall|i: int|
                0 <= i < job.data@.len() ==> (#[trigger] r.remove@[i])@ == job.data@[i].path@
            &&& r.remove@[job.data@.len() as int]@ == job.script.path@
        },
{
    if run is Succeeded {
        let removed = texts(r.remove@);
        assert(removed.len() == r.remove@.len());
        assert forall|i: int| 0 <= i < r.remove@.len() implies removed[i] == (
        #[trigger] r.remove@[i])@ by {}
        if !keep_data {
            assert(removed[job.data@.len() as int] == r.remove@[job.data@.len() as int]@);
            assert forall|i: int| 0 <= i < job.data@.len() implies (#[trigger] r.remove@[i])@
                == job.data@[i].path@ by {
                assert(job_paths(*job)[i] == job.data@[i].path@);
            }
        }
    }
}


} // verus!
