//! What a live session shows, told by exact numbers.

use vstd::arithmetic::power2::{lemma_pow2_pos, pow2};
use vstd::prelude::*;

use crate::accuracy::{
    all_finite, exact_sizes, lemma_bounded_totals, lemma_count_is_exact, lemma_modest_sums,
    lemma_sum_is_close, lemma_sum_stays_finite, lemma_total_is_close, SUMMED_COUNTS,
};
use crate::acquire::{
    averages, lemma_chunk_count_grows, lemma_chunk_fits, lemma_chunks_after, seconds, seconds_of,
    Event, Phase, PPK2_RAW_SPS,
};
use crate::arithmetic::{all_widened, counted, deterministic, quotient, total, widened, Arithmetic};
use crate::live::{
    law_monitoring_follows_the_stream, law_window_follows_the_stream, live_fresh, live_fresh_count,
    live_received, live_result, live_run, live_start, live_stream, monitors, recent, summary_of,
    tallied, tallied_by, tally_after, tally_of, update_of, LiveModel, LiveMoment, LivePlan,
    LiveSession, LiveSummary, LiveUpdate, MEDIAN, NINETY_FIFTH, NINETY_NINTH,
};
use crate::meaning::{
    amounts, arranged, bounded, is_chunk_average, is_mean, is_share, lemma_amounts,
    lemma_ascending_is_arranged, lemma_chunk_average_means, lemma_duration_means, lemma_mean_means,
    lemma_near_quotient, lemma_percentile_means, lemma_reported, lemma_sample_reach,
    lemma_share_means, lemma_whole_sum, lies_at, near_quotient, near_sum, reach, values, whole_sum,
};
use crate::number::{lemma_named_numbers, Double, Single, HOUR, NEGATIVE_ZERO, THOUSAND, ZERO};
use crate::order::{
    ascending, greatest_of, least_of, lemma_ascending, lemma_greatest_of, lemma_least_of,
    lemma_rearranged_contains,
};
use crate::rounding::{
    gap, lemma_quotient_stays_finite, narrows_closely, rounds_in_order, size, EXACT_COUNTS,
};
use crate::stats::percentile;

verus! {

/// Whether `v` is, but for rounding, the sum of `xs`, none of which is larger
/// than `m`.
pub open spec fn is_sum(v: Double, xs: Seq<int>, m: int) -> bool {
    let n = xs.len() as int;
    gap(v.value(), whole_sum(xs)) * EXACT_COUNTS <= 2 * n * (n * m)
}

/// Whether `v` is, but for rounding, the charge in µAh of currents in µA that
/// each last one of `sps` parts of a second: their sum divided by the rate and
/// by the seconds of an hour.
pub open spec fn is_charge(v: Double, xs: Seq<int>, sps: u32, m: int) -> bool {
    let u = Double::unit();
    exists|t: Double, q: Double| #[trigger]
        is_sum(t, xs, m) && #[trigger] near_quotient(q, t.value(), sps * u) && near_quotient(
            v,
            q.value(),
            3600 * u,
        )
}

/// Whether `v` is, but for rounding, a time in nanoseconds as seconds: the whole
/// seconds and the rest of them.
pub open spec fn is_seconds(v: Double, nanos: int) -> bool {
    let u = Double::unit();
    exists|q: Double| #[trigger]
        near_quotient(q, (nanos % 1_000_000_000) * u, 1_000_000_000 * u) && near_sum(
            v,
            (nanos / 1_000_000_000) * u,
            q.value(),
        )
}

/// Whether `samples` are the averages of the whole chunks of `c` measurements
/// that a stream begins with, one after the other.
pub open spec fn are_chunk_averages(samples: Seq<Single>, stream: Seq<Single>, c: int) -> bool {
    &&& samples.len() * c <= stream.len() < (samples.len() + 1) * c
    &&& forall|i: int|
        0 <= i < samples.len() ==> is_chunk_average(
            #[trigger] samples[i],
            stream.subrange(i * c, i * c + c),
        )
}

/// Whether an update shows the numbers `t`, which are in ascending order and not
/// larger than `m`, as its window: their mean, the first and the last of them,
/// and the percentiles at 50, 95 and 99 percent of the way.
pub open spec fn shows_window(u: LiveUpdate, t: Seq<int>, m: int) -> bool {
    let d = Double::unit();
    let n = t.len() as int;
    &&& n >= 1
    &&& is_mean(u.window_mean_ua, t, m)
    &&& u.window_min_ua.value() == t[0]
    &&& u.window_max_ua.value() == t[n - 1]
    &&& lies_at(u.window_p50_ua.value(), t, (50 * d) * (n - 1), 100, m)
    &&& lies_at(u.window_p95_ua.value(), t, (95 * d) * (n - 1), 100, m)
    &&& lies_at(u.window_p99_ua.value(), t, (99 * d) * (n - 1), 100, m)
}

/// The last `len` samples, or all where there are fewer.
pub open spec fn last_ones(samples: Seq<Single>, len: int) -> Seq<Single> {
    samples.subrange(
        if samples.len() <= len {
            0
        } else {
            samples.len() - len
        },
        samples.len() as int,
    )
}

/// Whether an update shows `samples`: the last `fresh` of them as what came since
/// the update before, the last `len` as the window, and all as the total.
pub open spec fn shows(
    u: LiveUpdate,
    samples: Seq<Single>,
    len: int,
    fresh: int,
    sps: u32,
) -> bool {
    let d = Double::unit();
    let n = samples.len() as int;
    let xs = amounts(samples);
    let new = amounts(samples.subrange(n - fresh, n));
    let window = last_ones(samples, len);
    &&& 1 <= fresh <= n
    &&& is_mean(u.now_ua, new, reach(new))
    &&& near_quotient(u.window_secs, window.len() * d, sps * d)
    &&& exists|t: Seq<int>| #[trigger]
        arranged(t, amounts(window)) && shows_window(u, t, reach(amounts(window)))
    &&& is_mean(u.total_mean_ua, xs, reach(xs))
    &&& is_charge(u.total_charge_uah, xs, sps, reach(xs))
}

/// What a session takes from a read: nothing where no bytes came.
pub open spec fn taken(bytes: usize, measurements: Seq<Single>) -> Seq<Single> {
    if bytes == 0 {
        Seq::empty()
    } else {
        measurements
    }
}

/// The sum that the library computes is one.
proof fn lemma_sum_means<A: Arithmetic>(f: &A, xs: Seq<Double>, m: int)
    requires
        rounds_in_order(f),
        xs.len() <= SUMMED_COUNTS,
        forall|i: int| 0 <= i < xs.len() ==> (#[trigger] xs[i]).finite(),
        bounded(values(xs), m),
        0 <= m <= pow2(1300),
    ensures
        total(f, Double { bits: ZERO }, xs).finite(),
        is_sum(total(f, Double { bits: ZERO }, xs), values(xs), m),
{
    let zero = Double { bits: ZERO };
    let n = xs.len() as int;
    lemma_named_numbers();
    assert(zero.finite());
    assert forall|i: int| 0 <= i < xs.len() implies (#[trigger] xs[i]).finite() && size(
        xs[i].value(),
    ) <= m by {
        assert(size(values(xs)[i]) <= m);
    }
    lemma_modest_sums(n, m);
    lemma_bounded_totals(f, zero, xs, m);
    lemma_total_is_close(f, zero, xs);
    lemma_whole_sum(xs);
    let s = exact_sizes(xs);
    assert(2 * n * s <= 2 * n * (n * m)) by (nonlinear_arith)
        requires
            s <= n * m,
            n >= 0,
    ;
}

/// The charge that the library computes is one.
proof fn lemma_charge_means<A: Arithmetic>(f: &A, samples: Seq<Single>, sps: u32)
    requires
        rounds_in_order(f),
        samples.len() <= SUMMED_COUNTS,
        all_finite(samples),
        sps >= 1,
    ensures
        is_charge(
            quotient(
                f,
                quotient(
                    f,
                    total(f, Double { bits: ZERO }, all_widened(f, samples)),
                    counted(f, sps as int),
                ),
                Double { bits: HOUR },
            ),
            amounts(samples),
            sps,
            reach(amounts(samples)),
        ),
{
    let u = Double::unit();
    let m = reach(amounts(samples));
    let hour = Double { bits: HOUR };
    let rate = counted(f, sps as int);
    let t = total(f, Double { bits: ZERO }, all_widened(f, samples));
    lemma_named_numbers();
    lemma_pow2_pos(1074);
    assert(hour.finite());
    lemma_sample_reach(f, samples);
    lemma_amounts(f, samples);
    lemma_sum_means(f, all_widened(f, samples), m);
    lemma_count_is_exact(f, sps as int);
    assert(sps * u >= u) by (nonlinear_arith)
        requires
            sps >= 1,
            u > 0,
    ;
    let q = quotient(f, t, rate);
    lemma_quotient_stays_finite(f, t, rate);
    lemma_near_quotient(f, t, rate);
    lemma_quotient_stays_finite(f, q, hour);
    lemma_near_quotient(f, q, hour);
    assert(is_sum(t, amounts(samples), m));
    assert(near_quotient(q, t.value(), sps * u));
}

/// The mean that the library computes of samples is one.
proof fn lemma_samples_mean<A: Arithmetic>(f: &A, start: Double, samples: Seq<Single>, m: int)
    requires
        rounds_in_order(f),
        start.finite(),
        start.value() == 0,
        1 <= samples.len() <= SUMMED_COUNTS,
        all_finite(samples),
        bounded(amounts(samples), m),
        m <= pow2(1202),
    ensures
        ({
            let mean = quotient(
                f,
                total(f, start, all_widened(f, samples)),
                counted(f, samples.len() as int),
            );
            &&& mean.finite()
            &&& size(mean.value()) <= 2 * m + 1
            &&& is_mean(mean, amounts(samples), m)
        }),
{
    vstd::arithmetic::power2::lemma_pow2_strictly_increases(1202, 1300);
    lemma_amounts(f, samples);
    lemma_mean_means(f, start, all_widened(f, samples), m);
}

/// A time in nanoseconds is told in seconds.
pub proof fn law_seconds_tell_nanoseconds<A: Arithmetic>(f: &A, nanos: u128, r: Double)
    requires
        deterministic(f),
        rounds_in_order(f),
        nanos <= EXACT_COUNTS,
        call_ensures(seconds::<A>, (f, nanos), r),
    ensures
        is_seconds(r, nanos as int),
{
    lemma_seconds_mean(f, nanos);
}

/// The seconds that the library computes are ones.
pub(crate) proof fn lemma_seconds_mean<A: Arithmetic>(f: &A, nanos: u128)
    requires
        rounds_in_order(f),
        nanos <= EXACT_COUNTS,
    ensures
        is_seconds(seconds_of(f, nanos), nanos as int),
{
    let u = Double::unit();
    let n = nanos as int;
    let a = counted(f, n / 1_000_000_000);
    let b = counted(f, n % 1_000_000_000);
    let g = counted(f, 1_000_000_000);
    lemma_pow2_pos(1074);
    lemma_count_is_exact(f, n / 1_000_000_000);
    lemma_count_is_exact(f, n % 1_000_000_000);
    lemma_count_is_exact(f, 1_000_000_000);
    let q = quotient(f, b, g);
    lemma_quotient_stays_finite(f, b, g);
    lemma_near_quotient(f, b, g);
    vstd::arithmetic::power2::lemma2_to64_rest();
    vstd::arithmetic::power2::lemma_pow2_adds(53, 1074);
    vstd::arithmetic::power2::lemma_pow2_strictly_increases(1127, 1974);
    let x = n / 1_000_000_000;
    let y = n % 1_000_000_000;
    assert(0 <= x * u && x * u <= 0x20_0000_0000_0000 * u && 0 <= y * u && y * u
        <= 0x20_0000_0000_0000 * u) by (nonlinear_arith)
        requires
            0 <= x <= 0x20_0000_0000_0000,
            0 <= y <= 0x20_0000_0000_0000,
            u > 0,
    ;
    lemma_sum_stays_finite(f, a, q);
    lemma_sum_is_close(f, a, q);
    assert(near_quotient(q, y * u, 1_000_000_000 * u));
}

/// The window that an update shows.
proof fn lemma_window_shown<A: Arithmetic>(f: &A, u: LiveUpdate, window: Seq<Single>)
    requires
        rounds_in_order(f),
        1 <= window.len() <= SUMMED_COUNTS,
        window.len() <= usize::MAX,
        all_finite(window),
        ({
            let sorted = ascending(window);
            &&& u.window_mean_ua == quotient(
                f,
                total(f, Double { bits: NEGATIVE_ZERO }, all_widened(f, sorted)),
                counted(f, sorted.len() as int),
            )
            &&& u.window_min_ua == widened(f, sorted[0])
            &&& u.window_max_ua == widened(f, sorted.last())
            &&& u.window_p50_ua == percentile(f, sorted, Double { bits: MEDIAN })
            &&& u.window_p95_ua == percentile(f, sorted, Double { bits: NINETY_FIFTH })
            &&& u.window_p99_ua == percentile(f, sorted, Double { bits: NINETY_NINTH })
        }),
    ensures
        exists|t: Seq<int>| #[trigger]
            arranged(t, amounts(window)) && shows_window(u, t, reach(amounts(window))),
{
    let sorted = ascending(window);
    let t = amounts(sorted);
    let n = window.len() as int;
    let m = reach(amounts(window));
    let start = Double { bits: NEGATIVE_ZERO };
    assert(start.finite() && start.magnitude() == 0);
    lemma_sample_reach(f, window);
    lemma_ascending_is_arranged(window, m);
    assert(all_finite(sorted)) by {
        assert forall|i: int| 0 <= i < sorted.len() implies (#[trigger] sorted[i]).finite() by {
            lemma_ascending(window);
            lemma_rearranged_contains(sorted, window, i);
            let j = choose|j: int| 0 <= j < window.len() && window[j] == sorted[i];
            assert(window[j].finite());
        }
    }
    lemma_samples_mean(f, start, sorted, m);
    lemma_amounts(f, sorted);
    assert(values(all_widened(f, sorted))[0] == widened(f, sorted[0]).value());
    assert(values(all_widened(f, sorted))[n - 1] == widened(f, sorted[n - 1]).value());
    lemma_reported(2);
    lemma_reported(4);
    lemma_reported(5);
    lemma_percentile_means(f, sorted, Double { bits: MEDIAN }, m);
    lemma_percentile_means(f, sorted, Double { bits: NINETY_FIFTH }, m);
    lemma_percentile_means(f, sorted, Double { bits: NINETY_NINTH }, m);
    assert(arranged(t, amounts(window)) && shows_window(u, t, m));
}

/// What the library shows of a session that keeps what a stream gives.
proof fn lemma_update_shown<A: Arithmetic>(f: &A, s: LiveModel, stream: Seq<Single>, now: u128)
    requires
        rounds_in_order(f),
        narrows_closely(f),
        1 <= s.plan.chunk <= PPK2_RAW_SPS,
        1 <= s.plan.window_len <= usize::MAX,
        s.plan.sps >= 1,
        s.since_count >= 1,
        monitors(f, s, stream),
        all_finite(stream),
        stream.len() / s.plan.chunk as nat <= SUMMED_COUNTS,
    ensures
        exists|samples: Seq<Single>| #[trigger]
            are_chunk_averages(samples, stream, s.plan.chunk as int) && shows(
                update_of(f, s, now),
                samples,
                s.plan.window_len as int,
                s.since_count as int,
                s.plan.sps,
            ),
{
    let c = s.plan.chunk as int;
    let n = stream.len() as int / c;
    let samples = averages(f, stream, c, n as nat);
    let u = update_of(f, s, now);
    let fresh = s.since_count as int;
    let len = s.plan.window_len as int;
    let window = last_ones(samples, len);
    let zero = Double { bits: ZERO };
    lemma_named_numbers();
    assert(zero.finite());
    lemma_averages_mean(f, stream, c);
    assert(recent(samples, len as nat) =~= window);
    assert(samples.skip(n - fresh) =~= samples.subrange(n - fresh, n));
    let new = samples.subrange(n - fresh, n);
    assert(all_finite(window) && all_finite(new)) by {
        assert forall|i: int| 0 <= i < window.len() implies (#[trigger] window[i]).finite() by {
            assert(samples[n - window.len() + i].finite());
        }
        assert forall|i: int| 0 <= i < new.len() implies (#[trigger] new[i]).finite() by {
            assert(samples[n - fresh + i].finite());
        }
    }
    lemma_sample_reach(f, samples);
    lemma_sample_reach(f, new);
    lemma_samples_mean(f, zero, samples, reach(amounts(samples)));
    lemma_samples_mean(f, zero, new, reach(amounts(new)));
    lemma_duration_means(f, window.len() as int, s.plan.sps);
    lemma_charge_means(f, samples, s.plan.sps);
    lemma_window_shown(f, u, window);
    assert(shows(u, samples, len, fresh, s.plan.sps));
}

/// The averages that the library computes of a stream are ones.
proof fn lemma_averages_mean<A: Arithmetic>(f: &A, stream: Seq<Single>, c: int)
    requires
        rounds_in_order(f),
        narrows_closely(f),
        1 <= c <= 0x400_0000,
        all_finite(stream),
    ensures
        ({
            let samples = averages(f, stream, c, (stream.len() as int / c) as nat);
            &&& stream.len() as int / c >= 0
            &&& are_chunk_averages(samples, stream, c)
            &&& all_finite(samples)
        }),
{
    let k = stream.len() as int / c;
    vstd::arithmetic::div_mod::lemma_fundamental_div_mod(stream.len() as int, c);
    assert(k * c <= stream.len() && stream.len() < (k + 1) * c && k >= 0) by (nonlinear_arith)
        requires
            stream.len() == c * k + stream.len() as int % c,
            0 <= stream.len() as int % c < c,
            stream.len() >= 0,
            c >= 1,
    ;
    let samples = averages(f, stream, c, k as nat);
    assert forall|i: int| 0 <= i < samples.len() implies is_chunk_average(
        #[trigger] samples[i],
        stream.subrange(i * c, i * c + c),
    ) by {
        lemma_chunk_fits(stream.len() as int, c, i);
        let chunk = stream.subrange(i * c, i * c + c);
        assert forall|j: int| 0 <= j < chunk.len() implies (#[trigger] chunk[j]).finite() by {
            assert(stream[i * c + j].finite());
        }
        lemma_chunk_average_means(f, chunk);
    }
    assert forall|i: int| 0 <= i < samples.len() implies (#[trigger] samples[i]).finite() by {
        assert(is_chunk_average(samples[i], stream.subrange(i * c, i * c + c)));
    }
}

/// An update comes with data, and shows the stream up to and with that data. The
/// samples are the averages of its whole chunks. The update shows the mean of
/// those that came since the update before; of those in the window how long they
/// took, the mean, the extremes and the percentiles at 50, 95 and 99 percent; of
/// all the mean and the charge; the time since sampling started; and how many
/// raw samples were missed.
#[verifier::rlimit(30)]
pub proof fn law_update_shows_the_stream<A: Arithmetic>(
    f: &A,
    plan: LivePlan,
    moments: Seq<LiveMoment>,
    now: u128,
    cancelled: bool,
    event: Event,
    u: LiveUpdate,
)
    requires
        rounds_in_order(f),
        narrows_closely(f),
        1 <= plan.chunk <= PPK2_RAW_SPS,
        1 <= plan.window_len <= usize::MAX,
        plan.sps >= 1,
        tallied_by(f, live_start(plan), moments),
        event matches Event::Data { bytes, missed, measurements } ==> {
            let stream = live_stream(live_start(plan), moments) + taken(bytes, measurements@);
            &&& all_finite(stream)
            &&& stream.len() / plan.chunk as nat <= SUMMED_COUNTS
            &&& live_run(live_start(plan), moments).missed + missed <= u64::MAX
        },
        live_result(f, live_run(live_start(plan), moments), now, cancelled, event).1 == Some(u),
    ensures
        event matches Event::Data { bytes, missed, measurements } && {
            let s = live_run(live_start(plan), moments);
            let stream = live_stream(live_start(plan), moments) + taken(bytes, measurements@);
            let shown = s.total_count - s.since_count;
            &&& exists|samples: Seq<Single>| #[trigger]
                are_chunk_averages(samples, stream, plan.chunk as int) && shows(
                    u,
                    samples,
                    plan.window_len as int,
                    samples.len() - shown,
                    plan.sps,
                )
            &&& s.sampling_start <= now && now - s.sampling_start <= EXACT_COUNTS ==> is_seconds(
                u.elapsed_secs,
                now - s.sampling_start,
            )
            &&& u.missed_samples == if bytes == 0 {
                s.missed as int
            } else {
                s.missed + missed
            }
        },
{
    let start = live_start(plan);
    let s = live_run(start, moments);
    let history = live_stream(start, moments);
    let c = plan.chunk as int;
    match event {
        Event::Data { bytes, missed, measurements } => {
            let stream = history + taken(bytes, measurements@);
            lemma_chunk_count_grows(history.len() as int, stream.len() as int, c);
            law_monitoring_follows_the_stream(f, plan, moments);
            let tally = tally_after(f, s, event);
            let t = live_received(s, now, bytes, missed, measurements@, tally);
            lemma_received_follows(f, s, history, now, bytes, missed, measurements@);
            lemma_update_shown(f, t, stream, now);
            let samples = choose|samples: Seq<Single>| #[trigger]
                are_chunk_averages(samples, stream, c) && shows(
                    update_of(f, t, now),
                    samples,
                    plan.window_len as int,
                    t.since_count as int,
                    plan.sps,
                );
            lemma_same_count(samples.len() as int, t.total_count as int, stream.len() as int, c);
            if s.sampling_start <= now && now - s.sampling_start <= EXACT_COUNTS {
                lemma_seconds_mean(f, (now - s.sampling_start) as u128);
            }
        },
        _ => {},
    }
}

/// A session keeps what the stream gives when data comes.
pub(crate) proof fn lemma_received_follows<A: Arithmetic>(
    f: &A,
    s: LiveModel,
    history: Seq<Single>,
    now: u128,
    bytes: usize,
    missed: usize,
    measurements: Seq<Single>,
)
    requires
        s.plan.chunk >= 1,
        s.plan.window_len >= 1,
        monitors(f, s, history),
        (history + taken(bytes, measurements)).len() / s.plan.chunk as nat <= u64::MAX,
    ensures
        ({
            let tally = tallied(
                f,
                s.tally,
                s.plan.window_len as nat,
                live_fresh(f, s, measurements),
            );
            let t = live_received(s, now, bytes, missed, measurements, tally);
            &&& t.plan == s.plan
            &&& t.sampling_start == s.sampling_start
            &&& t.total_count - t.since_count == s.total_count - s.since_count
            &&& monitors(f, t, history + taken(bytes, measurements))
        }),
{
    if bytes == 0 {
        assert(history + taken(bytes, measurements) =~= history);
    } else {
        let c = s.plan.chunk as int;
        let whole = history + measurements;
        let n = history.len() as int / c;
        lemma_chunk_count_grows(history.len() as int, whole.len() as int, c);
        lemma_chunks_after(history.len() as int, c, n);
        lemma_chunks_after(whole.len() as int, c, n);
        assert((s.pending + measurements).len() == whole.len() - n * c);
        law_window_follows_the_stream(f, s, history, now, bytes, missed, measurements);
    }
}

/// There is one number of whole chunks in a stream.
proof fn lemma_same_count(k: int, n: int, len: int, c: int)
    requires
        c >= 1,
        len >= 0,
        k * c <= len < (k + 1) * c,
        n == len / c,
    ensures
        k == n,
{
    assert((k + 1) * c == k * c + c) by (nonlinear_arith);
    vstd::arithmetic::div_mod::lemma_fundamental_div_mod_converse(len, c, k, len - k * c);
}

/// What counts as new in the next update: an update leaves no sample that counts
/// as new, and without one the samples that do not count as new stay so many.
/// Only data adds samples, and nothing but the start of the stream sets the time
/// that it started.
pub proof fn law_new_samples_count_from_the_last_update<A: Arithmetic>(
    f: &A,
    s: LiveModel,
    now: u128,
    cancelled: bool,
    event: Event,
)
    requires
        s.since_count <= s.total_count,
        event matches Event::Data { bytes, missed, measurements } ==> s.total_count
            + live_fresh_count(s, measurements@) <= u64::MAX,
    ensures
        ({
            let (t, update) = live_result(f, s, now, cancelled, event);
            &&& update is Some ==> t.since_count == 0
            &&& update is None ==> t.total_count - t.since_count == s.total_count - s.since_count
            &&& t.total_count >= s.total_count
            &&& !(event is Data) ==> t.total_count == s.total_count && t.missed == s.missed
            &&& s.phase == Phase::Starting && event == Event::Done(Ok(())) ==> t.sampling_start
                == now
            &&& s.phase != Phase::Starting ==> t.sampling_start == s.sampling_start
        }),
{
}

/// Whether a summary tells of `samples`: how many there are and how long they
/// took, their mean and extremes, the charge, and the power that the mean draws
/// at `voltage_mv`. Of no samples the mean, the extremes and the power are zero.
pub open spec fn tells(r: LiveSummary, samples: Seq<Single>, sps: u32, voltage_mv: u16) -> bool {
    let u = Double::unit();
    let n = samples.len() as int;
    let xs = amounts(samples);
    &&& r.samples == n
    &&& near_quotient(r.duration_secs, n * u, sps * u)
    &&& is_charge(r.charge_uah, xs, sps, reach(xs))
    &&& if n == 0 {
        &&& r.mean_ua.value() == 0 && r.min_ua.value() == 0
        &&& r.max_ua.value() == 0 && r.avg_power_uw.value() == 0
    } else {
        &&& is_mean(r.mean_ua, xs, reach(xs))
        &&& xs.contains(r.min_ua.value()) && xs.contains(r.max_ua.value())
        &&& forall|i: int|
            0 <= i < n ==> r.min_ua.value() <= #[trigger] xs[i] && xs[i] <= r.max_ua.value()
        &&& is_share(r.avg_power_uw, r.mean_ua.value(), voltage_mv * u, 1000 * u)
    }
}

/// The summary of a session tells of the whole stream: its samples are the
/// averages of the whole chunks.
pub proof fn law_summary_tells_of_the_stream<A: Arithmetic>(
    f: &A,
    plan: LivePlan,
    moments: Seq<LiveMoment>,
    session: LiveSession,
    r: LiveSummary,
)
    requires
        deterministic(f),
        rounds_in_order(f),
        narrows_closely(f),
        1 <= plan.chunk <= PPK2_RAW_SPS,
        plan.window_len >= 1,
        plan.sps >= 1,
        tallied_by(f, live_start(plan), moments),
        all_finite(live_stream(live_start(plan), moments)),
        live_stream(live_start(plan), moments).len() / plan.chunk as nat <= SUMMED_COUNTS,
        session@ == live_run(live_start(plan), moments),
        call_ensures(LiveSession::finish::<A>, (session, f), Ok(r)),
    ensures
        exists|samples: Seq<Single>| #[trigger]
            are_chunk_averages(
                samples,
                live_stream(live_start(plan), moments),
                plan.chunk as int,
            ) && tells(r, samples, plan.sps, plan.voltage_mv),
        r.missed_samples == session@.missed,
{
    let s = session@;
    let stream = live_stream(live_start(plan), moments);
    let c = plan.chunk as int;
    law_monitoring_follows_the_stream(f, plan, moments);
    let n = stream.len() as int / c;
    let samples = averages(f, stream, c, n as nat);
    lemma_averages_mean(f, stream, c);
    assert(r == summary_of(f, s));
    lemma_summary_told(f, s, samples);
    assert(are_chunk_averages(samples, stream, c) && tells(r, samples, plan.sps, plan.voltage_mv));
}

/// What the library tells of a session that keeps the tally of `samples`.
proof fn lemma_summary_told<A: Arithmetic>(f: &A, s: LiveModel, samples: Seq<Single>)
    requires
        rounds_in_order(f),
        s.plan.sps >= 1,
        samples.len() <= SUMMED_COUNTS,
        all_finite(samples),
        s.total_count == samples.len(),
        s.tally == tally_of(f, s.plan.window_len as nat, samples, s.since_count as int),
    ensures
        tells(summary_of(f, s), samples, s.plan.sps, s.plan.voltage_mv),
{
    let u = Double::unit();
    let n = samples.len() as int;
    let xs = amounts(samples);
    let r = summary_of(f, s);
    let zero = Double { bits: ZERO };
    let wide = all_widened(f, samples);
    lemma_named_numbers();
    lemma_pow2_pos(1074);
    assert(zero.finite());
    lemma_sample_reach(f, samples);
    lemma_duration_means(f, n, s.plan.sps);
    lemma_charge_means(f, samples, s.plan.sps);
    if n > 0 {
        lemma_amounts(f, samples);
        lemma_samples_mean(f, zero, samples, reach(xs));
        lemma_least_of(wide);
        lemma_greatest_of(wide);
        let i = choose|i: int| 0 <= i < wide.len() && wide[i] == least_of(wide);
        let j = choose|j: int| 0 <= j < wide.len() && wide[j] == greatest_of(wide);
        assert(values(wide)[i] == xs[i] && values(wide)[j] == xs[j]);
        assert forall|k: int| 0 <= k < n implies r.min_ua.value() <= #[trigger] xs[k] && xs[k]
            <= r.max_ua.value() by {
            assert(values(wide)[k] == wide[k].value());
        }
        let v = s.plan.voltage_mv as int;
        lemma_count_is_exact(f, v);
        assert(0 <= v * u && v * u <= EXACT_COUNTS * u) by (nonlinear_arith)
            requires
                0 <= v <= EXACT_COUNTS,
                u > 0,
        ;
        lemma_share_means(f, r.mean_ua, counted(f, v), Double { bits: THOUSAND });
    }
}

/// An update is not held back: while sampling, data that leaves a sample since
/// the update before gives one as soon as the update interval has passed.
pub proof fn law_updates_are_not_held_back<A: Arithmetic>(
    f: &A,
    s: LiveModel,
    now: u128,
    cancelled: bool,
    event: Event,
)
    requires
        s.phase == Phase::Sampling,
        s.plan.chunk >= 1,
        s.last_update <= now,
        now - s.last_update >= s.plan.update_interval,
        event matches Event::Data { bytes, missed, measurements } && (s.since_count > 0 || bytes
            != 0 && s.pending.len() + measurements@.len() >= s.plan.chunk) && s.since_count
            + live_fresh_count(s, measurements@) <= u64::MAX,
    ensures
        live_result(f, s, now, cancelled, event).1 is Some,
{
    let c = s.plan.chunk as int;
    match event {
        Event::Data { bytes, missed, measurements } => {
            let n = (s.pending + measurements@).len() as int;
            vstd::arithmetic::div_mod::lemma_div_is_ordered(0, n, c);
            vstd::arithmetic::div_mod::lemma_div_basics(c);
            if n >= c {
                vstd::arithmetic::div_mod::lemma_div_is_ordered(c, n, c);
                vstd::arithmetic::div_mod::lemma_div_by_self(c);
            }
        },
        _ => {},
    }
}

} // verus!
