//! How results come about step by step, whatever the numbers are: each step
//! rounds once, and what is not finite goes through the same steps.

use vstd::prelude::*;

use crate::acquire::{
    averaged_by, averages, chunk_average, law_recording_averages_the_stream,
    lemma_chunk_count_grows, lemma_chunk_fits, record_run, record_start, record_stream, Event,
    Moment, RecordPlan,
};
use crate::arithmetic::{
    all_widened, counted, deterministic, difference, narrowed, product, quotient, square_root, sum,
    total, widened, Arithmetic,
};
use crate::compare::{block_means, compare, comparison, CompareConfig, CompareResult};
use crate::format::Recording;
use crate::live::{
    law_monitoring_follows_the_stream, live_received, live_result, live_run, live_start,
    live_stream, monitors, recent, tallied_by, tally_after, update_of, LiveModel, LiveMoment,
    LivePlan, LiveUpdate, MEDIAN, NINETY_FIFTH, NINETY_NINTH,
};
use crate::meaning::lemma_reported;
use crate::meaning_live::{last_ones, lemma_received_follows, taken};
use crate::meaning_order::single_not_above;
use crate::meaning_plot::{curve_lines, lemma_curve_lines};
use crate::number::{
    lemma_named_numbers, lesser, Double, Single, HOUR, HUNDRED, NEGATIVE_ZERO, ONE, TEN, THOUSAND,
    ZERO,
};
use crate::order::{ascending, greatest_of, least_of, lemma_ascending};
use crate::plot::{envelope, lemma_bucket_starts, percentile_data, tenths, Bucket};
use crate::rendering::{stable, Rendering};
use crate::stats::{
    highest, lowest, percentile, squared_distance, statistics, variance_of, Stats, PERCENTILES,
};

verus! {

/// Whether `t` adds up `xs` one after the other, from `start` on.
pub open spec fn adds_up_one_by_one<A: Arithmetic>(
    f: &A,
    t: Seq<Double>,
    start: Double,
    xs: Seq<Double>,
) -> bool {
    &&& t.len() == xs.len() + 1
    &&& t[0] == start
    &&& forall|i: int| 0 <= i < xs.len() ==> t[i + 1] == sum(f, t[i], #[trigger] xs[i])
}

/// Whether `v` is the sum of `xs` from `start` on, divided by `n`.
pub open spec fn is_stepwise_mean<A: Arithmetic>(
    f: &A,
    v: Double,
    start: Double,
    xs: Seq<Double>,
    n: int,
) -> bool {
    exists|t: Seq<Double>| #[trigger]
        adds_up_one_by_one(f, t, start, xs) && v == quotient(f, t.last(), counted(f, n))
}

/// Whether `xs` are the samples as doubles.
pub open spec fn are_widened<A: Arithmetic>(f: &A, xs: Seq<Double>, s: Seq<Single>) -> bool {
    xs.len() == s.len() && forall|i: int|
        0 <= i < s.len() ==> #[trigger] xs[i] == widened(f, s[i])
}

/// A sum takes its numbers one by one.
pub(crate) proof fn lemma_total_adds_up<A: Arithmetic>(f: &A, start: Double, xs: Seq<Double>)
    ensures
        exists|t: Seq<Double>| #[trigger]
            adds_up_one_by_one(f, t, start, xs) && t.last() == total(f, start, xs),
{
    let t = Seq::new(xs.len() + 1, |i: int| total(f, start, xs.take(i)));
    assert(xs.take(0) =~= Seq::<Double>::empty());
    assert forall|i: int| 0 <= i < xs.len() implies t[i + 1] == sum(f, t[i], #[trigger] xs[i]) by {
        assert(xs.take(i + 1).drop_last() =~= xs.take(i));
        assert(xs.take(i + 1).last() == xs[i]);
    }
    assert(xs.take(xs.len() as int) =~= xs);
    assert(adds_up_one_by_one(f, t, start, xs));
}

/// A quotient of a sum is a mean.
pub(crate) proof fn lemma_stepwise_mean<A: Arithmetic>(
    f: &A,
    start: Double,
    xs: Seq<Double>,
    n: int,
)
    ensures
        is_stepwise_mean(f, quotient(f, total(f, start, xs), counted(f, n)), start, xs, n),
{
    lemma_total_adds_up(f, start, xs);
}

/// Whether `v` is the percentile `p` of samples in ascending order: at the rank
/// that is so large a share of the last rank, the samples at the whole ranks
/// around it, each weighted by how near it is. The one of a single sample is that
/// sample.
pub open spec fn is_stepwise_percentile<A: Arithmetic>(
    f: &A,
    v: Double,
    sorted: Seq<Single>,
    p: Double,
) -> bool {
    let last = sorted.len() - 1;
    let one = Double { bits: ONE };
    let share = quotient(f, p, Double { bits: HUNDRED });
    if last == 0 {
        v == widened(f, sorted[0])
    } else {
        exists|held: Double, rank: Double, lo: int, hi: int|
            {
                &&& #[trigger] is_held(held, share)
                &&& #[trigger] is_rank(rank, lo, hi, last)
                &&& rank == product(f, held, counted(f, last))
                &&& v == sum(
                    f,
                    product(
                        f,
                        widened(f, sorted[lo]),
                        difference(f, one, difference(f, rank, counted(f, lo))),
                    ),
                    product(f, widened(f, sorted[hi]), difference(f, rank, counted(f, lo))),
                )
            }
    }
}

/// Whether `held` is `x` held between zero and one.
pub open spec fn is_held(held: Double, x: Double) -> bool {
    if !x.nan() && x.value() < 0 {
        held.bits == 0
    } else if !x.nan() && x.value() > Double::unit() {
        held.finite() && held.value() == Double::unit()
    } else {
        held == x
    }
}

/// Whether `lo` and `hi` are the whole ranks around `rank`, not beyond the last.
pub open spec fn is_rank(rank: Double, lo: int, hi: int, last: int) -> bool {
    let u = Double::unit();
    &&& 0 <= lo <= last
    &&& 0 <= hi <= last
    &&& rank.nan() ==> lo == 0 && hi == 0
    &&& !rank.nan() && rank.value() >= 0 ==> lo * u <= rank.value() && (lo < last ==> rank.value()
        < (lo + 1) * u) && (hi - 1) * u < rank.value() && (hi < last ==> rank.value() <= hi * u)
    &&& !rank.nan() && rank.value() < 0 ==> lo == 0 && hi == 0
}

/// The percentile that the library computes goes by these steps.
pub(crate) proof fn lemma_stepwise_percentile<A: Arithmetic>(f: &A, sorted: Seq<Single>, p: Double)
    requires
        1 <= sorted.len() <= usize::MAX,
    ensures
        is_stepwise_percentile(f, percentile(f, sorted, p), sorted, p),
{
    let n = sorted.len() as int;
    let last = n - 1;
    if n >= 2 {
        let share = quotient(f, p, Double { bits: HUNDRED });
        let held = share.unit_clamped();
        let rank = product(f, held, counted(f, last));
        let lo = lesser(rank.floor(), last);
        let hi = lesser(rank.ceil(), last);
        lemma_named_numbers();
        assert((Double { bits: ZERO }).finite() && (Double { bits: ONE }).finite());
        assert(is_held(held, share));
        lemma_ranks_around(rank, last);
        assert(is_rank(rank, lo, hi, last));
    }
}

/// Whole ranks around a rank.
proof fn lemma_ranks_around(rank: Double, last: int)
    requires
        1 <= last < usize::MAX,
    ensures
        is_rank(rank, lesser(rank.floor(), last), lesser(rank.ceil(), last), last),
{
    let u = Double::unit();
    let v = rank.value();
    vstd::arithmetic::power2::lemma_pow2_pos(1074);
    vstd::arithmetic::div_mod::lemma_fundamental_div_mod(v, u);
    vstd::arithmetic::div_mod::lemma_fundamental_div_mod(-v, u);
    let a = v / u;
    let b = (-v) / u;
    assert(a * u <= v && v < (a + 1) * u && v <= -b * u && (-b - 1) * u < v) by (nonlinear_arith)
        requires
            v == u * a + v % u,
            0 <= v % u < u,
            -v == u * b + (-v) % u,
            0 <= (-v) % u < u,
    ;
    if v >= 0 {
        assert(a >= 0 && -b >= 0) by (nonlinear_arith)
            requires
                v >= 0,
                v < (a + 1) * u,
                v <= -b * u,
                u > 0,
        ;
        if a > last {
            assert(last * u <= v) by (nonlinear_arith)
                requires
                    last <= a,
                    a * u <= v,
                    u > 0,
            ;
        }
        if -b > last {
            assert((last - 1) * u < v) by (nonlinear_arith)
                requires
                    last <= -b,
                    (-b - 1) * u < v,
                    u > 0,
            ;
        }
    } else {
        assert(a < 0 && -b <= 0) by (nonlinear_arith)
            requires
                v < 0,
                a * u <= v,
                (-b - 1) * u < v,
                u > 0,
        ;
    }
}

/// Whether statistics come about step by step: the mean from the sum of the
/// samples, the deviation from the sum of the squared distances from that mean,
/// each percentile from the sorted samples, charge and power from the mean.
pub open spec fn are_stepwise_statistics<A: Arithmetic>(
    f: &A,
    r: Stats,
    s: Seq<Single>,
    xs: Seq<Double>,
    squares: Seq<Double>,
    sorted: Seq<Single>,
    sps: u32,
    voltage_mv: u16,
) -> bool {
    let n = s.len() as int;
    let zero = Double { bits: ZERO };
    &&& are_widened(f, xs, s)
    &&& r.duration_secs == quotient(f, counted(f, n), counted(f, sps as int))
    &&& r.min == widened(f, lowest(s)) && r.max == widened(f, highest(s))
    &&& is_stepwise_mean(f, r.mean, zero, xs, n)
    &&& squares.len() == n
    &&& forall|i: int|
        0 <= i < n ==> #[trigger] squares[i] == product(
            f,
            difference(f, xs[i], r.mean),
            difference(f, xs[i], r.mean),
        )
    &&& n == 1 ==> r.std_dev == square_root(f, zero)
    &&& n >= 2 ==> exists|v: Double| #[trigger]
        is_stepwise_mean(f, v, Double { bits: NEGATIVE_ZERO }, squares, n - 1) && r.std_dev
            == square_root(f, v)
    &&& sorted.to_multiset() == s.to_multiset() && sorted.len() == n
    &&& forall|i: int, j: int|
        0 <= i <= j < n ==> single_not_above(#[trigger] sorted[i], #[trigger] sorted[j])
    &&& r.percentiles@.len() == 8
    &&& forall|i: int|
        0 <= i < 8 ==> is_stepwise_percentile(
            f,
            (#[trigger] r.percentiles@[i]).1,
            sorted,
            r.percentiles@[i].0,
        )
    &&& r.charge_uah == quotient(f, product(f, r.mean, r.duration_secs), Double { bits: HOUR })
    &&& r.avg_power_uw == quotient(
        f,
        product(f, r.mean, counted(f, voltage_mv as int)),
        Double { bits: THOUSAND },
    )
}

/// Statistics of any samples come about step by step, also where some are not
/// finite.
pub proof fn law_statistics_come_about_step_by_step<A: Arithmetic>(
    f: &A,
    samples: &[Single],
    sps: u32,
    voltage_mv: u16,
    r: Stats,
)
    requires
        deterministic(f),
        1 <= samples@.len() <= usize::MAX,
        call_ensures(Stats::from_samples::<A>, (f, samples, sps, voltage_mv), r),
    ensures
        exists|xs: Seq<Double>, squares: Seq<Double>, sorted: Seq<Single>| #[trigger]
            are_stepwise_statistics(f, r, samples@, xs, squares, sorted, sps, voltage_mv),
{
    let s = samples@;
    let n = s.len() as int;
    let zero = Double { bits: ZERO };
    let start = Double { bits: NEGATIVE_ZERO };
    let xs = all_widened(f, s);
    let squares = xs.map_values(|x: Double| squared_distance(f, x, r.mean));
    let sorted = ascending(s);
    assert(r@ == statistics(f, s, sps, voltage_mv));
    lemma_stepwise_mean(f, zero, xs, n);
    lemma_stepwise_mean(f, start, squares, n - 1);
    lemma_ascending(s);
    if n >= 2 {
        let v = variance_of(f, xs, r.mean);
        assert(is_stepwise_mean(f, v, start, squares, n - 1));
    }
    assert forall|i: int| 0 <= i < 8 implies is_stepwise_percentile(
        f,
        (#[trigger] r.percentiles@[i]).1,
        sorted,
        r.percentiles@[i].0,
    ) by {
        lemma_stepwise_percentile(f, sorted, Double { bits: PERCENTILES@[i] });
    }
    assert(are_widened(f, xs, s));
    assert forall|i: int| 0 <= i < n implies #[trigger] squares[i] == product(
        f,
        difference(f, xs[i], r.mean),
        difference(f, xs[i], r.mean),
    ) by {}
    assert forall|i: int, j: int| 0 <= i <= j < n implies single_not_above(
        #[trigger] sorted[i],
        #[trigger] sorted[j],
    ) by {
        assert(sorted[i].rank() <= sorted[j].rank());
    }
    assert(are_stepwise_statistics(f, r, s, xs, squares, sorted, sps, voltage_mv));
}

/// Whether a sample is the average of a chunk, step by step: the sum of its
/// measurements divided by how many there are, then narrowed.
pub open spec fn is_stepwise_average<A: Arithmetic>(f: &A, x: Single, chunk: Seq<Single>) -> bool {
    exists|xs: Seq<Double>, v: Double| #[trigger]
        are_widened(f, xs, chunk) && #[trigger] is_stepwise_mean(
            f,
            v,
            Double { bits: NEGATIVE_ZERO },
            xs,
            chunk.len() as int,
        ) && x == narrowed(f, v)
}

/// The average that the library computes goes by these steps.
proof fn lemma_stepwise_average<A: Arithmetic>(f: &A, chunk: Seq<Single>)
    ensures
        is_stepwise_average(f, chunk_average(f, chunk), chunk),
{
    let start = Double { bits: NEGATIVE_ZERO };
    let xs = all_widened(f, chunk);
    let v = quotient(f, total(f, start, xs), counted(f, chunk.len() as int));
    lemma_stepwise_mean(f, start, xs, chunk.len() as int);
    assert(are_widened(f, xs, chunk));
    assert(is_stepwise_mean(f, v, start, xs, chunk.len() as int));
}

/// The samples of a recording are averages of its chunks step by step, also where
/// measurements are not finite.
pub proof fn law_recorded_samples_come_about_step_by_step<A: Arithmetic>(
    f: &A,
    plan: RecordPlan,
    moments: Seq<Moment>,
)
    requires
        plan.chunk >= 1,
        averaged_by(f, record_start(plan), moments),
    ensures
        ({
            let samples = record_run(record_start(plan), moments).samples;
            let stream = record_stream(record_start(plan), moments);
            let c = plan.chunk as int;
            forall|i: int|
                0 <= i < samples.len() ==> is_stepwise_average(
                    f,
                    #[trigger] samples[i],
                    stream.subrange(i * c, i * c + c),
                )
        }),
{
    let samples = record_run(record_start(plan), moments).samples;
    let stream = record_stream(record_start(plan), moments);
    let c = plan.chunk as int;
    law_recording_averages_the_stream(f, plan, moments);
    assert forall|i: int| 0 <= i < samples.len() implies is_stepwise_average(
        f,
        #[trigger] samples[i],
        stream.subrange(i * c, i * c + c),
    ) by {
        lemma_stepwise_average(f, stream.subrange(i * c, i * c + c));
    }
}

/// Whether samples are the averages of the whole chunks that a stream begins
/// with, step by step.
pub open spec fn are_stepwise_averages<A: Arithmetic>(
    f: &A,
    samples: Seq<Single>,
    stream: Seq<Single>,
    c: int,
) -> bool {
    &&& samples.len() == stream.len() as int / c
    &&& forall|i: int|
        0 <= i < samples.len() ==> is_stepwise_average(
            f,
            #[trigger] samples[i],
            stream.subrange(i * c, i * c + c),
        )
}

/// The averages that the library computes go by these steps.
proof fn lemma_stepwise_averages<A: Arithmetic>(f: &A, stream: Seq<Single>, c: int)
    requires
        c >= 1,
    ensures
        are_stepwise_averages(
            f,
            averages(f, stream, c, (stream.len() as int / c) as nat),
            stream,
            c,
        ),
{
    let samples = averages(f, stream, c, (stream.len() as int / c) as nat);
    lemma_chunk_count_grows(0, stream.len() as int, c);
    assert forall|i: int| 0 <= i < samples.len() implies is_stepwise_average(
        f,
        #[trigger] samples[i],
        stream.subrange(i * c, i * c + c),
    ) by {
        lemma_stepwise_average(f, stream.subrange(i * c, i * c + c));
    }
}

/// Whether `v` is a percentile at so many percent, step by step.
pub open spec fn is_stepwise_percentile_at<A: Arithmetic>(
    f: &A,
    v: Double,
    sorted: Seq<Single>,
    percent: int,
) -> bool {
    exists|p: Double| #[trigger]
        is_stepwise_percentile(f, v, sorted, p) && p.finite() && p.value() == percent
            * Double::unit()
}

/// Whether an update comes about step by step from the samples, the last `fresh`
/// of which are new, and from the last `len` in ascending order.
pub open spec fn is_stepwise_update<A: Arithmetic>(
    f: &A,
    u: LiveUpdate,
    samples: Seq<Single>,
    sorted: Seq<Single>,
    len: int,
    fresh: int,
    sps: u32,
) -> bool {
    let n = samples.len() as int;
    let w = sorted.len() as int;
    let zero = Double { bits: ZERO };
    let rate = counted(f, sps as int);
    let all = samples.map_values(|x: Single| widened(f, x));
    let window = sorted.map_values(|x: Single| widened(f, x));
    &&& 1 <= fresh <= n
    &&& sorted.to_multiset() == last_ones(samples, len).to_multiset()
    &&& w == last_ones(samples, len).len()
    &&& forall|i: int, j: int|
        0 <= i <= j < w ==> single_not_above(#[trigger] sorted[i], #[trigger] sorted[j])
    &&& is_stepwise_mean(f, u.now_ua, zero, all.subrange(n - fresh, n), fresh)
    &&& u.window_secs == quotient(f, counted(f, w), rate)
    &&& is_stepwise_mean(f, u.window_mean_ua, Double { bits: NEGATIVE_ZERO }, window, w)
    &&& u.window_min_ua == widened(f, sorted[0])
    &&& u.window_max_ua == widened(f, sorted[w - 1])
    &&& is_stepwise_percentile_at(f, u.window_p50_ua, sorted, 50)
    &&& is_stepwise_percentile_at(f, u.window_p95_ua, sorted, 95)
    &&& is_stepwise_percentile_at(f, u.window_p99_ua, sorted, 99)
    &&& is_stepwise_mean(f, u.total_mean_ua, zero, all, n)
    &&& exists|t: Seq<Double>| #[trigger]
        adds_up_one_by_one(f, t, zero, all) && u.total_charge_uah == quotient(
            f,
            quotient(f, t.last(), rate),
            Double { bits: HOUR },
        )
}

/// What the library shows of a session goes by these steps.
proof fn lemma_stepwise_update<A: Arithmetic>(f: &A, s: LiveModel, stream: Seq<Single>, now: u128)
    requires
        s.plan.chunk >= 1,
        1 <= s.plan.window_len <= usize::MAX,
        s.since_count >= 1,
        monitors(f, s, stream),
    ensures
        exists|samples: Seq<Single>, sorted: Seq<Single>| #[trigger]
            are_stepwise_averages(f, samples, stream, s.plan.chunk as int) && #[trigger]
            is_stepwise_update(
                f,
                update_of(f, s, now),
                samples,
                sorted,
                s.plan.window_len as int,
                s.since_count as int,
                s.plan.sps,
            ),
{
    let c = s.plan.chunk as int;
    let n = stream.len() as int / c;
    let samples = averages(f, stream, c, n as nat);
    let u = update_of(f, s, now);
    let fresh = s.since_count as int;
    let len = s.plan.window_len as int;
    let window = last_ones(samples, len);
    let sorted = ascending(window);
    let w = window.len() as int;
    let zero = Double { bits: ZERO };
    let start = Double { bits: NEGATIVE_ZERO };
    let all = samples.map_values(|x: Single| widened(f, x));
    lemma_chunk_count_grows(0, stream.len() as int, c);
    lemma_stepwise_averages(f, stream, c);
    assert(recent(samples, len as nat) =~= window);
    assert(samples.skip(n - fresh) =~= samples.subrange(n - fresh, n));
    assert(all_widened(f, samples) =~= all);
    assert(all_widened(f, samples.skip(n - fresh)) =~= all.subrange(n - fresh, n));
    assert(all_widened(f, sorted) =~= sorted.map_values(|x: Single| widened(f, x)));
    lemma_ascending(window);
    lemma_stepwise_mean(f, zero, all.subrange(n - fresh, n), fresh);
    lemma_stepwise_mean(f, start, all_widened(f, sorted), w);
    lemma_stepwise_mean(f, zero, all, n);
    lemma_total_adds_up(f, zero, all);
    lemma_reported(2);
    lemma_reported(4);
    lemma_reported(5);
    lemma_stepwise_percentile(f, sorted, Double { bits: MEDIAN });
    lemma_stepwise_percentile(f, sorted, Double { bits: NINETY_FIFTH });
    lemma_stepwise_percentile(f, sorted, Double { bits: NINETY_NINTH });
    assert(is_stepwise_percentile_at(f, u.window_p50_ua, sorted, 50));
    assert(is_stepwise_percentile_at(f, u.window_p95_ua, sorted, 95));
    assert(is_stepwise_percentile_at(f, u.window_p99_ua, sorted, 99));
    assert forall|i: int, j: int| 0 <= i <= j < w implies single_not_above(
        #[trigger] sorted[i],
        #[trigger] sorted[j],
    ) by {
        assert(sorted[i].rank() <= sorted[j].rank());
    }
    assert(is_stepwise_update(f, u, samples, sorted, len, fresh, s.plan.sps));
}

/// An update comes about step by step from the stream up to and with the data
/// that it comes with, also where measurements are not finite.
pub proof fn law_update_comes_about_step_by_step<A: Arithmetic>(
    f: &A,
    plan: LivePlan,
    moments: Seq<LiveMoment>,
    now: u128,
    cancelled: bool,
    event: Event,
    u: LiveUpdate,
)
    requires
        plan.chunk >= 1,
        1 <= plan.window_len <= usize::MAX,
        tallied_by(f, live_start(plan), moments),
        event matches Event::Data { bytes, missed, measurements } ==> (live_stream(
            live_start(plan),
            moments,
        ) + taken(bytes, measurements@)).len() / plan.chunk as nat <= u64::MAX,
        live_result(f, live_run(live_start(plan), moments), now, cancelled, event).1 == Some(u),
    ensures
        event matches Event::Data { bytes, missed, measurements } && {
            let s = live_run(live_start(plan), moments);
            let stream = live_stream(live_start(plan), moments) + taken(bytes, measurements@);
            exists|samples: Seq<Single>, sorted: Seq<Single>| #[trigger]
                are_stepwise_averages(f, samples, stream, plan.chunk as int) && #[trigger]
                is_stepwise_update(
                    f,
                    u,
                    samples,
                    sorted,
                    plan.window_len as int,
                    samples.len() - (s.total_count - s.since_count),
                    plan.sps,
                )
        },
{
    let start = live_start(plan);
    let s = live_run(start, moments);
    let history = live_stream(start, moments);
    let c = plan.chunk as int;
    match event {
        Event::Data { bytes, missed, measurements } => {
            let stream = history + taken(bytes, measurements@);
            lemma_chunk_count_grows(history.len() as int, stream.len() as int, c);
            law_monitoring_follows_the_stream(f, plan, moments);
            let tally = tally_after(f, s, event);
            let t = live_received(s, now, bytes, missed, measurements@, tally);
            lemma_received_follows(f, s, history, now, bytes, missed, measurements@);
            lemma_stepwise_update(f, t, stream, now);
            let (samples, sorted) = choose|samples: Seq<Single>, sorted: Seq<Single>| #[trigger]
                are_stepwise_averages(f, samples, stream, c) && #[trigger] is_stepwise_update(
                    f,
                    update_of(f, t, now),
                    samples,
                    sorted,
                    plan.window_len as int,
                    t.since_count as int,
                    plan.sps,
                );
            assert(samples.len() - (s.total_count - s.since_count) == t.since_count);
            assert(is_stepwise_update(
                f,
                u,
                samples,
                sorted,
                plan.window_len as int,
                samples.len() - (s.total_count - s.since_count),
                plan.sps,
            ));
        },
        _ => {},
    }
}

/// Whether samples are those of `s` in ascending order, each as often.
pub open spec fn are_sorted(sorted: Seq<Single>, s: Seq<Single>) -> bool {
    &&& sorted.to_multiset() == s.to_multiset()
    &&& sorted.len() == s.len()
    &&& forall|i: int, j: int|
        0 <= i <= j < s.len() ==> single_not_above(#[trigger] sorted[i], #[trigger] sorted[j])
}

/// Samples in ascending order are sorted.
proof fn lemma_ascending_is_sorted(s: Seq<Single>)
    ensures
        are_sorted(ascending(s), s),
{
    let sorted = ascending(s);
    lemma_ascending(s);
    assert forall|i: int, j: int| 0 <= i <= j < s.len() implies single_not_above(
        #[trigger] sorted[i],
        #[trigger] sorted[j],
    ) by {
        assert(sorted[i].rank() <= sorted[j].rank());
    }
}

/// Whether each current is, step by step, the percentile at the percentage beside
/// it, which is so many tenths.
pub open spec fn is_stepwise_curve<A: Arithmetic>(
    f: &A,
    currents: Seq<Double>,
    percents: Seq<Double>,
    sorted: Seq<Single>,
) -> bool {
    &&& currents.len() == 1001
    &&& percents.len() == 1001
    &&& forall|k: int|
        #![trigger percents[k]]
        #![trigger currents[k]]
        0 <= k <= 1000 ==> percents[k] == quotient(f, counted(f, k), Double { bits: TEN })
            && is_stepwise_percentile(f, currents[k], sorted, percents[k])
}

/// The lines of a percentile-curve file come about step by step, also where
/// samples are not finite.
pub proof fn law_curve_comes_about_step_by_step<F: Arithmetic + Rendering>(
    f: &F,
    rec: &Recording,
    name: &str,
    r: String,
)
    requires
        deterministic(f),
        stable(f),
        rec.samples_ua@.len() >= 1,
        call_ensures(percentile_data::<F>, (f, rec, name), r),
    ensures
        exists|currents: Seq<Double>, percents: Seq<Double>, sorted: Seq<Single>| #[trigger]
            is_stepwise_curve(f, currents, percents, sorted) && are_sorted(sorted, rec.samples_ua@)
                && r@ == "# "@ + name@ + ": current_ua percent_of_samples_below\n"@ + curve_lines(
                f,
                currents,
                percents,
                1001,
            ),
{
    let s = rec.samples_ua@;
    let sorted = ascending(s);
    let percents = Seq::new(1001, |k: int| tenths(f, k));
    let currents = Seq::new(1001, |k: int| percentile(f, sorted, tenths(f, k)));
    assert(rec.samples_ua.len() == s.len());
    lemma_ascending_is_sorted(s);
    assert forall|k: int|
        #![trigger percents[k]]
        #![trigger currents[k]]
        0 <= k <= 1000 implies percents[k] == quotient(f, counted(f, k), Double { bits: TEN })
        && is_stepwise_percentile(f, currents[k], sorted, percents[k]) by {
        lemma_stepwise_percentile(f, sorted, tenths(f, k));
    }
    lemma_curve_lines(f, sorted, currents, percents, 1001);
    assert(is_stepwise_curve(f, currents, percents, sorted));
}

/// Each bucket of an envelope comes about step by step from its share of the
/// samples, also where some are not finite: the time of the middle one, the
/// lowest and the highest of what are numbers, and the mean.
pub proof fn law_envelope_comes_about_step_by_step<A: Arithmetic>(
    f: &A,
    samples: &[Single],
    sps: u32,
    buckets: usize,
    r: Vec<Bucket>,
    i: int,
)
    requires
        deterministic(f),
        buckets >= 1,
        samples@.len() >= 1,
        call_ensures(envelope::<A>, (f, samples, sps, buckets), r),
        0 <= i < r@.len(),
    ensures
        ({
            let n = samples@.len() as int;
            let count = r@.len() as int;
            let start = i * n / count;
            let end = (i + 1) * n / count;
            let xs = samples@.subrange(start, end).map_values(|x: Single| widened(f, x));
            let b = r@[i];
            &&& 0 <= start < end <= n
            &&& b.t_mid == quotient(f, counted(f, (start + end) / 2), counted(f, sps as int))
            &&& b.min == least_of(xs) && b.max == greatest_of(xs)
            &&& is_stepwise_mean(f, b.mean, Double { bits: ZERO }, xs, end - start)
        }),
{
    let n = samples@.len() as int;
    let count = r@.len() as int;
    let start = i * n / count;
    let end = (i + 1) * n / count;
    lemma_bucket_starts(n, count, i);
    let part = samples@.subrange(start, end);
    let xs = part.map_values(|x: Single| widened(f, x));
    assert(all_widened(f, part) =~= xs);
    assert(start + (end - start) / 2 == (start + end) / 2);
    lemma_stepwise_mean(f, Double { bits: ZERO }, xs, end - start);
}

/// Block means come about step by step from the samples of their blocks, also
/// where some are not finite.
pub proof fn law_block_means_come_about_step_by_step<F: Arithmetic + Rendering>(
    f: &F,
    samples: &[Single],
    sps: u32,
    config: &CompareConfig,
    means: Vec<Double>,
)
    requires
        deterministic(f),
        call_ensures(block_means::<F>, (f, samples, sps, config), Ok(means)),
    ensures
        ({
            let len = product(f, counted(f, sps as int), config.block_secs).round();
            &&& len >= 1
            &&& means@.len() == samples@.len() as int / len
            &&& forall|i: int|
                0 <= i < means@.len() ==> is_stepwise_mean(
                    f,
                    #[trigger] means@[i],
                    Double { bits: NEGATIVE_ZERO },
                    samples@.subrange(i * len, i * len + len).map_values(
                        |x: Single| widened(f, x),
                    ),
                    len,
                )
        }),
{
    let len = product(f, counted(f, sps as int), config.block_secs).round();
    assert(len >= 1);
    lemma_chunk_count_grows(0, samples@.len() as int, len);
    assert forall|i: int| 0 <= i < means@.len() implies is_stepwise_mean(
        f,
        #[trigger] means@[i],
        Double { bits: NEGATIVE_ZERO },
        samples@.subrange(i * len, i * len + len).map_values(|x: Single| widened(f, x)),
        len,
    ) by {
        let block = samples@.subrange(i * len, i * len + len);
        let xs = block.map_values(|x: Single| widened(f, x));
        lemma_chunk_fits(samples@.len() as int, len, i);
        assert(all_widened(f, block) =~= xs);
        lemma_stepwise_mean(f, Double { bits: NEGATIVE_ZERO }, xs, len);
    }
}

/// The means of a comparison, their difference, what it is in percent, and the
/// percentiles come about step by step, also where samples are not finite.
pub proof fn law_comparison_comes_about_step_by_step<F: Arithmetic + Rendering>(
    f: &F,
    baseline: &Recording,
    new: &Recording,
    config: &CompareConfig,
    r: CompareResult,
)
    requires
        deterministic(f),
        baseline.samples_ua@.len() >= 1,
        new.samples_ua@.len() >= 1,
        call_ensures(compare::<F>, (f, baseline, new, config), Ok(r)),
    ensures
        ({
            let s = baseline.samples_ua@;
            let t = new.samples_ua@;
            let zero = Double { bits: ZERO };
            let hundred = Double { bits: HUNDRED };
            &&& is_stepwise_mean(
                f,
                r.mean_baseline,
                zero,
                s.map_values(|x: Single| widened(f, x)),
                s.len() as int,
            )
            &&& is_stepwise_mean(
                f,
                r.mean_new,
                zero,
                t.map_values(|x: Single| widened(f, x)),
                t.len() as int,
            )
            &&& r.mean_diff == difference(f, r.mean_new, r.mean_baseline)
            &&& r.mean_baseline.value() != 0 ==> {
                &&& r.mean_diff_pct == quotient(
                    f,
                    product(f, hundred, r.mean_diff),
                    r.mean_baseline,
                )
                &&& r.diff_ci_pct.0 == quotient(
                    f,
                    product(f, hundred, r.diff_ci.0),
                    r.mean_baseline,
                )
                &&& r.diff_ci_pct.1 == quotient(
                    f,
                    product(f, hundred, r.diff_ci.1),
                    r.mean_baseline,
                )
            }
            &&& exists|a: Seq<Single>, b: Seq<Single>| #[trigger]
                are_sorted(a, s) && #[trigger] are_sorted(b, t) && forall|i: int|
                    0 <= i < 8 ==> is_stepwise_percentile(
                        f,
                        (#[trigger] r.percentiles@[i]).baseline,
                        a,
                        r.percentiles@[i].percentile,
                    ) && is_stepwise_percentile(
                        f,
                        r.percentiles@[i].new,
                        b,
                        r.percentiles@[i].percentile,
                    )
        }),
{
    let s = baseline.samples_ua@;
    let t = new.samples_ua@;
    let zero = Double { bits: ZERO };
    assert(s.len() == baseline.samples_ua.len() && t.len() == new.samples_ua.len());
    assert(r@ == comparison(f, *baseline, *new, *config));
    assert(all_widened(f, s) =~= s.map_values(|x: Single| widened(f, x)));
    assert(all_widened(f, t) =~= t.map_values(|x: Single| widened(f, x)));
    lemma_stepwise_mean(f, zero, all_widened(f, s), s.len() as int);
    lemma_stepwise_mean(f, zero, all_widened(f, t), t.len() as int);
    lemma_ascending_is_sorted(s);
    lemma_ascending_is_sorted(t);
    assert forall|i: int| 0 <= i < 8 implies is_stepwise_percentile(
        f,
        (#[trigger] r.percentiles@[i]).baseline,
        ascending(s),
        r.percentiles@[i].percentile,
    ) && is_stepwise_percentile(
        f,
        r.percentiles@[i].new,
        ascending(t),
        r.percentiles@[i].percentile,
    ) by {
        let p = Double { bits: PERCENTILES@[i] };
        lemma_stepwise_percentile(f, ascending(s), p);
        lemma_stepwise_percentile(f, ascending(t), p);
    }
    assert(are_sorted(ascending(s), s) && are_sorted(ascending(t), t));
}

} // verus!
