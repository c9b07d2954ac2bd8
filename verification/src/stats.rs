//! Summary statistics over a recording.

use vstd::prelude::*;

use crate::arithmetic::{
    add_up, add_up_singles, all_widened, counted, deterministic, difference, product, quotient,
    square_root, sum, total, widened, Arithmetic,
};
use crate::format::Recording;
use crate::number::{
    lesser, Double, Single, HOUR, HUNDRED, NAN, NEGATIVE_ZERO, ONE, THOUSAND, ZERO,
};
use crate::order::{ascending, sort_singles};

verus! {

/// Percentiles reported by [`Stats`], as bit patterns of doubles: 1, 5, 50, 90,
/// 95, 99, 99.9 and 99.99.
pub const PERCENTILES: [u64; 8] = [
    0x3ff0_0000_0000_0000,
    0x4014_0000_0000_0000,
    0x4049_0000_0000_0000,
    0x4056_8000_0000_0000,
    0x4057_c000_0000_0000,
    0x4058_c000_0000_0000,
    0x4058_f999_9999_999a,
    0x4058_ff5c_28f5_c28f,
];

/// Summary statistics of a recording. All currents are in microampere.
#[derive(Debug, Clone)]
pub struct Stats {
    /// Number of samples.
    pub count: usize,
    /// Duration covered by the samples, in seconds.
    pub duration_secs: Double,
    /// Minimum current (µA).
    pub min: Double,
    /// Maximum current (µA).
    pub max: Double,
    /// Mean current (µA).
    pub mean: Double,
    /// Sample standard deviation (µA).
    pub std_dev: Double,
    /// Percentiles as `(percentile, current µA)` pairs; see [`PERCENTILES`].
    pub percentiles: Vec<(Double, Double)>,
    /// Total charge drawn during the recording, in microampere-hours.
    pub charge_uah: Double,
    /// Average power in microwatt, derived from the mean current and the
    /// source voltage stored in the file.
    pub avg_power_uw: Double,
}

/// What a [`Stats`] says.
pub struct StatsModel {
    /// Number of samples.
    pub count: nat,
    /// Duration covered by the samples, in seconds.
    pub duration_secs: Double,
    /// Minimum current.
    pub min: Double,
    /// Maximum current.
    pub max: Double,
    /// Mean current.
    pub mean: Double,
    /// Sample standard deviation.
    pub std_dev: Double,
    /// Percentiles with their currents.
    pub percentiles: Seq<(Double, Double)>,
    /// Total charge.
    pub charge_uah: Double,
    /// Average power.
    pub avg_power_uw: Double,
}

impl View for Stats {
    type V = StatsModel;

    open spec fn view(&self) -> StatsModel {
        StatsModel {
            count: self.count as nat,
            duration_secs: self.duration_secs,
            min: self.min,
            max: self.max,
            mean: self.mean,
            std_dev: self.std_dev,
            percentiles: self.percentiles@,
            charge_uah: self.charge_uah,
            avg_power_uw: self.avg_power_uw,
        }
    }
}

/// The lowest number among the samples; infinity where there is none.
pub open spec fn lowest(s: Seq<Single>) -> Single
    decreases s.len(),
{
    if s.len() == 0 {
        Single { bits: 0x7f80_0000 }
    } else if s.last().below(lowest(s.drop_last())) {
        s.last()
    } else {
        lowest(s.drop_last())
    }
}

/// The highest number among the samples; negative infinity where there is none.
pub open spec fn highest(s: Seq<Single>) -> Single
    decreases s.len(),
{
    if s.len() == 0 {
        Single { bits: 0xff80_0000 }
    } else if highest(s.drop_last()).below(s.last()) {
        s.last()
    } else {
        highest(s.drop_last())
    }
}

/// The lowest number among the samples.
pub fn least(samples: &[Single]) -> (r: Single)
    ensures
        r == lowest(samples@),
{
    let mut m = Single::infinity();
    let mut i: usize = 0;
    assert(samples@.take(0) =~= Seq::<Single>::empty());
    while i < samples.len()
        invariant
            i <= samples.len(),
            m == lowest(samples@.take(i as int)),
        decreases samples.len() - i,
    {
        assert(samples@.take(i + 1).drop_last() =~= samples@.take(i as int));
        let s = samples[i];
        if s.is_below(m) {
            m = s;
        }
        i += 1;
    }
    assert(samples@.take(i as int) =~= samples@);
    m
}

/// The highest number among the samples.
pub fn greatest(samples: &[Single]) -> (r: Single)
    ensures
        r == highest(samples@),
{
    let mut m = Single::negative_infinity();
    let mut i: usize = 0;
    assert(samples@.take(0) =~= Seq::<Single>::empty());
    while i < samples.len()
        invariant
            i <= samples.len(),
            m == highest(samples@.take(i as int)),
        decreases samples.len() - i,
    {
        assert(samples@.take(i + 1).drop_last() =~= samples@.take(i as int));
        let s = samples[i];
        if m.is_below(s) {
            m = s;
        }
        i += 1;
    }
    assert(samples@.take(i as int) =~= samples@);
    m
}

/// `lo` weighted by `1 - weight` plus `hi` weighted by `weight`.
pub open spec fn mix<A: Arithmetic>(f: &A, lo: Double, hi: Double, weight: Double) -> Double {
    sum(
        f,
        product(f, lo, difference(f, Double { bits: ONE }, weight)),
        product(f, hi, weight),
    )
}

/// The numbers at the whole ranks around `rank`, weighted by how near it is to
/// each. A rank beyond the last number counts as the last.
pub open spec fn between_ranks<A: Arithmetic>(f: &A, sorted: Seq<Double>, rank: Double) -> Double {
    let lo = lesser(rank.floor(), sorted.len() - 1);
    let hi = lesser(rank.ceil(), sorted.len() - 1);
    mix(f, sorted[lo], sorted[hi], difference(f, rank, counted(f, lo)))
}

/// The rank of a percentile among `n` samples.
pub open spec fn percentile_rank<A: Arithmetic>(f: &A, n: int, pct: Double) -> Double {
    product(
        f,
        quotient(f, pct, Double { bits: HUNDRED }).unit_clamped(),
        counted(f, n - 1),
    )
}

/// Percentile (0..=100) of ascending samples, with linear interpolation between
/// ranks.
pub open spec fn percentile<A: Arithmetic>(f: &A, sorted: Seq<Single>, pct: Double) -> Double {
    if sorted.len() == 0 {
        Double { bits: NAN }
    } else if sorted.len() == 1 {
        widened(f, sorted[0])
    } else {
        between_ranks(
            f,
            all_widened(f, sorted),
            percentile_rank(f, sorted.len() as int, pct),
        )
    }
}

/// `lo` weighted by `1 - frac` plus `hi` weighted by `frac`, with `frac` the
/// distance of `rank` from the whole rank `at`.
pub fn blend<A: Arithmetic>(f: &A, lo: Double, hi: Double, rank: Double, at: usize) -> (r: Double)
    ensures
        deterministic(f) ==> r == mix(f, lo, hi, difference(f, rank, counted(f, at as int))),
{
    let frac = f.minus(rank, f.of_count(at as u128));
    f.plus(f.times(lo, f.minus(Double { bits: ONE }, frac)), f.times(hi, frac))
}

/// Percentile (0..=100) of an ascending-sorted slice, with linear
/// interpolation between ranks.
pub fn percentile_sorted<A: Arithmetic>(f: &A, sorted: &[Single], pct: Double) -> (r: Double)
    ensures
        deterministic(f) ==> r == percentile(f, sorted@, pct),
        sorted@.len() == 0 ==> r == (Double { bits: NAN }),
{
    let n: usize = sorted.len();
    if n == 0 {
        return Double { bits: NAN };
    }
    if n == 1 {
        return f.widen(sorted[0]);
    }
    let rank = f.times(
        f.over(pct, Double { bits: HUNDRED }).clamp_unit(),
        f.of_count((n - 1) as u128),
    );
    let floor: usize = rank.floor_count();
    let ceil: usize = rank.ceil_count();
    let lo: usize = if floor <= n - 1 {
        floor
    } else {
        n - 1
    };
    let hi: usize = if ceil <= n - 1 {
        ceil
    } else {
        n - 1
    };
    blend(f, f.widen(sorted[lo]), f.widen(sorted[hi]), rank, lo)
}

/// The square of the distance of `x` from `mean`.
pub open spec fn squared_distance<A: Arithmetic>(f: &A, x: Double, mean: Double) -> Double {
    product(f, difference(f, x, mean), difference(f, x, mean))
}

/// The sample variance of `xs` around `mean`.
pub open spec fn variance_of<A: Arithmetic>(f: &A, xs: Seq<Double>, mean: Double) -> Double {
    quotient(
        f,
        total(
            f,
            Double { bits: NEGATIVE_ZERO },
            xs.map_values(|x: Double| squared_distance(f, x, mean)),
        ),
        counted(f, xs.len() - 1),
    )
}

/// The sample variance of `xs` around `mean`.
pub fn variance<A: Arithmetic>(f: &A, xs: &[Double], mean: Double) -> (r: Double)
    requires
        xs@.len() >= 1,
    ensures
        deterministic(f) ==> r == variance_of(f, xs@, mean),
{
    let mut squares: Vec<Double> = Vec::new();
    let mut i: usize = 0;
    while i < xs.len()
        invariant
            i <= xs.len(),
            squares.len() == i,
            deterministic(f) ==> forall|k: int|
                0 <= k < i ==> #[trigger] squares@[k] == squared_distance(f, xs@[k], mean),
        decreases xs.len() - i,
    {
        let d = f.minus(xs[i], mean);
        squares.push(f.times(d, d));
        i += 1;
    }
    proof {
        if deterministic(f) {
            assert(squares@ =~= xs@.map_values(|x: Double| squared_distance(f, x, mean)));
        }
    }
    f.over(
        add_up(f, Double { bits: NEGATIVE_ZERO }, squares.as_slice()),
        f.of_count((xs.len() - 1) as u128),
    )
}

/// The percentiles of [`PERCENTILES`] of ascending samples.
pub open spec fn percentile_table<A: Arithmetic>(f: &A, sorted: Seq<Single>) -> Seq<
    (Double, Double),
> {
    Seq::new(
        8,
        |i: int|
            (
                Double { bits: PERCENTILES@[i] },
                percentile(f, sorted, Double { bits: PERCENTILES@[i] }),
            ),
    )
}

/// The mean of the samples.
pub open spec fn sample_mean<A: Arithmetic>(f: &A, samples: Seq<Single>) -> Double {
    quotient(
        f,
        total(f, Double { bits: ZERO }, all_widened(f, samples)),
        counted(f, samples.len() as int),
    )
}

/// The mean of the samples.
pub fn mean_sample<A: Arithmetic>(f: &A, samples: &[Single]) -> (r: Double)
    ensures
        deterministic(f) ==> r == sample_mean(f, samples@),
{
    f.over(add_up_singles(f, Double { bits: ZERO }, samples), f.of_count(samples.len() as u128))
}

/// The statistics of the samples, taken `sps` times a second at `voltage_mv`.
pub open spec fn statistics<A: Arithmetic>(
    f: &A,
    samples: Seq<Single>,
    sps: u32,
    voltage_mv: u16,
) -> StatsModel {
    let duration_secs = quotient(f, counted(f, samples.len() as int), counted(f, sps as int));
    if samples.len() == 0 {
        let nan = Double { bits: NAN };
        StatsModel {
            count: 0,
            duration_secs,
            min: nan,
            max: nan,
            mean: nan,
            std_dev: nan,
            percentiles: Seq::new(8, |i: int| (Double { bits: PERCENTILES@[i] }, nan)),
            charge_uah: Double { bits: ZERO },
            avg_power_uw: nan,
        }
    } else {
        let mean = sample_mean(f, samples);
        let variance = if samples.len() > 1 {
            variance_of(f, all_widened(f, samples), mean)
        } else {
            Double { bits: ZERO }
        };
        StatsModel {
            count: samples.len(),
            duration_secs,
            min: widened(f, lowest(samples)),
            max: widened(f, highest(samples)),
            mean,
            std_dev: square_root(f, variance),
            percentiles: percentile_table(f, ascending(samples)),
            charge_uah: quotient(f, product(f, mean, duration_secs), Double { bits: HOUR }),
            avg_power_uw: quotient(
                f,
                product(f, mean, counted(f, voltage_mv as int)),
                Double { bits: THOUSAND },
            ),
        }
    }
}

/// Whether these are the statistics of no samples: nothing counted, no charge
/// drawn, and nothing else a number.
pub open spec fn empty_statistics(s: StatsModel) -> bool {
    let nan = Double { bits: NAN };
    &&& s.count == 0
    &&& s.min == nan && s.max == nan && s.mean == nan && s.std_dev == nan
    &&& s.percentiles == Seq::new(8, |i: int| (Double { bits: PERCENTILES@[i] }, nan))
    &&& s.charge_uah == (Double { bits: ZERO })
    &&& s.avg_power_uw == nan
}

/// The samples, each widened.
pub fn widen_all<A: Arithmetic>(f: &A, samples: &[Single]) -> (r: Vec<Double>)
    ensures
        r@.len() == samples@.len(),
        deterministic(f) ==> r@ == all_widened(f, samples@),
{
    let mut r: Vec<Double> = Vec::new();
    let mut i: usize = 0;
    while i < samples.len()
        invariant
            i <= samples.len(),
            r.len() == i,
            deterministic(f) ==> forall|k: int|
                0 <= k < i ==> #[trigger] r@[k] == widened(f, samples@[k]),
        decreases samples.len() - i,
    {
        r.push(f.widen(samples[i]));
        i += 1;
    }
    proof {
        if deterministic(f) {
            assert(r@ =~= all_widened(f, samples@));
        }
    }
    r
}

impl Stats {
    /// Compute statistics for a recording.
    pub fn compute<A: Arithmetic>(f: &A, rec: &Recording) -> (r: Self)
        ensures
            r.count == rec.samples_ua@.len(),
            r.percentiles@.len() == 8,
            rec.samples_ua@.len() == 0 ==> empty_statistics(r@),
            deterministic(f) ==> r@ == statistics(
                f,
                rec.samples_ua@,
                rec.meta.sps,
                rec.meta.voltage_mv,
            ),
    {
        Self::from_samples(f, rec.samples_ua.as_slice(), rec.meta.sps, rec.meta.voltage_mv)
    }

    /// Compute statistics from raw samples (µA) at the given sample rate.
    pub fn from_samples<A: Arithmetic>(
        f: &A,
        samples: &[Single],
        sps: u32,
        voltage_mv: u16,
    ) -> (r: Self)
        ensures
            r.count == samples@.len(),
            r.percentiles@.len() == 8,
            samples@.len() == 0 ==> empty_statistics(r@),
            deterministic(f) ==> r@ == statistics(f, samples@, sps, voltage_mv),
    {
        let count: usize = samples.len();
        let duration_secs = f.over(f.of_count(count as u128), f.of_count(sps as u128));
        let mut percentiles: Vec<(Double, Double)> = Vec::new();
        let mut i: usize = 0;
        if count == 0 {
            let nan = Double { bits: NAN };
            while i < 8
                invariant
                    i <= 8,
                    percentiles.len() == i,
                    nan == (Double { bits: NAN }),
                    forall|k: int|
                        0 <= k < i ==> #[trigger] percentiles@[k] == (
                            Double { bits: PERCENTILES@[k] },
                            nan,
                        ),
                decreases 8 - i,
            {
                percentiles.push((Double { bits: PERCENTILES[i] }, nan));
                i += 1;
            }
            assert(percentiles@ =~= Seq::new(8, |i: int| (Double { bits: PERCENTILES@[i] }, nan)));
            return Stats {
                count,
                duration_secs,
                min: nan,
                max: nan,
                mean: nan,
                std_dev: nan,
                percentiles,
                charge_uah: Double { bits: ZERO },
                avg_power_uw: nan,
            };
        }
        let min = f.widen(least(samples));
        let max = f.widen(greatest(samples));
        let mean = mean_sample(f, samples);
        let var = if count > 1 {
            variance(f, widen_all(f, samples).as_slice(), mean)
        } else {
            Double { bits: ZERO }
        };
        let sorted = sort_singles(samples);
        while i < 8
            invariant
                i <= 8,
                percentiles.len() == i,
                deterministic(f) ==> forall|k: int|
                    0 <= k < i ==> #[trigger] percentiles@[k] == (
                        Double { bits: PERCENTILES@[k] },
                        percentile(f, sorted@, Double { bits: PERCENTILES@[k] }),
                    ),
            decreases 8 - i,
        {
            let p = Double { bits: PERCENTILES[i] };
            percentiles.push((p, percentile_sorted(f, sorted.as_slice(), p)));
            i += 1;
        }
        proof {
            if deterministic(f) {
                assert(percentiles@ =~= percentile_table(f, sorted@));
            }
        }
        let charge_uah = f.over(f.times(mean, duration_secs), Double { bits: HOUR });
        let avg_power_uw = f.over(
            f.times(mean, f.of_count(voltage_mv as u128)),
            Double { bits: THOUSAND },
        );
        Stats {
            count,
            duration_secs,
            min,
            max,
            mean,
            std_dev: f.root(var),
            percentiles,
            charge_uah,
            avg_power_uw,
        }
    }
}

/// The lowest sample is at or below every sample that is a number, and is
/// itself one of the samples, unless none is a number.
pub proof fn law_lowest_is_least(s: Seq<Single>)
    ensures
        !lowest(s).nan(),
        forall|i: int| 0 <= i < s.len() && !s[i].nan() ==> lowest(s).value() <= #[trigger] s[i].value(),
        s.contains(lowest(s)) || lowest(s) == (Single { bits: 0x7f80_0000 }),
    decreases s.len(),
{
    if s.len() > 0 {
        let front = s.drop_last();
        law_lowest_is_least(front);
        assert forall|i: int| 0 <= i < s.len() && !s[i].nan() implies lowest(s).value()
            <= #[trigger] s[i].value() by {
            if i < front.len() {
                assert(front[i] == s[i]);
            }
        }
        if front.contains(lowest(front)) {
            let j = choose|j: int| 0 <= j < front.len() && front[j] == lowest(front);
            assert(s[j] == lowest(front));
        }
        assert(s[s.len() - 1] == s.last());
    }
}

/// The highest sample is at or above every sample that is a number, and is
/// itself one of the samples, unless none is a number.
pub proof fn law_highest_is_greatest(s: Seq<Single>)
    ensures
        !highest(s).nan(),
        forall|i: int| 0 <= i < s.len() && !s[i].nan() ==> #[trigger] s[i].value() <= highest(s).value(),
        s.contains(highest(s)) || highest(s) == (Single { bits: 0xff80_0000 }),
    decreases s.len(),
{
    if s.len() > 0 {
        let front = s.drop_last();
        law_highest_is_greatest(front);
        assert forall|i: int| 0 <= i < s.len() && !s[i].nan() implies #[trigger] s[i].value()
            <= highest(s).value() by {
            if i < front.len() {
                assert(front[i] == s[i]);
            }
        }
        if front.contains(highest(front)) {
            let j = choose|j: int| 0 <= j < front.len() && front[j] == highest(front);
            assert(s[j] == highest(front));
        }
        assert(s[s.len() - 1] == s.last());
    }
}

/// The extremes depend on which samples there are, not on their order; where a
/// zero is an extreme, the order may decide its sign.
pub proof fn law_extremes_ignore_order(a: Seq<Single>, b: Seq<Single>)
    requires
        a.to_multiset() == b.to_multiset(),
    ensures
        lowest(a).value() == lowest(b).value(),
        highest(a).value() == highest(b).value(),
{
    lemma_extremes_enclose(a, b);
    lemma_extremes_enclose(b, a);
}

/// The extremes of a rearrangement enclose those of the samples.
proof fn lemma_extremes_enclose(a: Seq<Single>, b: Seq<Single>)
    requires
        a.to_multiset() == b.to_multiset(),
    ensures
        lowest(b).value() <= lowest(a).value(),
        highest(a).value() <= highest(b).value(),
{
    law_lowest_is_least(a);
    law_lowest_is_least(b);
    law_highest_is_greatest(a);
    law_highest_is_greatest(b);
    crate::number::lemma_infinities(lowest(b));
    crate::number::lemma_infinities(highest(b));
    if a.contains(lowest(a)) {
        let i = choose|i: int| 0 <= i < a.len() && a[i] == lowest(a);
        crate::order::lemma_rearranged_contains(a, b, i);
        let j = choose|j: int| 0 <= j < b.len() && b[j] == a[i];
        assert(!b[j].nan());
    }
    if a.contains(highest(a)) {
        let i = choose|i: int| 0 <= i < a.len() && a[i] == highest(a);
        crate::order::lemma_rearranged_contains(a, b, i);
        let j = choose|j: int| 0 <= j < b.len() && b[j] == a[i];
        assert(!b[j].nan());
    }
}

/// Percentiles depend on which samples there are, not on their order.
pub proof fn law_percentiles_ignore_order<A: Arithmetic>(
    f: &A,
    a: Seq<Single>,
    b: Seq<Single>,
    pct: Double,
)
    requires
        a.to_multiset() == b.to_multiset(),
    ensures
        ascending(a) == ascending(b),
        percentile(f, ascending(a), pct) == percentile(f, ascending(b), pct),
        percentile_table(f, ascending(a)) == percentile_table(f, ascending(b)),
{
    crate::order::lemma_ascending_unique(a, b);
}

/// The extremes of the samples are their first and last in ascending order,
/// where all are numbers.
pub proof fn law_sorted_ends_are_extremes(s: Seq<Single>)
    requires
        s.len() > 0,
        forall|i: int| 0 <= i < s.len() ==> !(#[trigger] s[i]).nan(),
    ensures
        ascending(s).len() == s.len(),
        ascending(s)[0].value() == lowest(s).value(),
        ascending(s).last().value() == highest(s).value(),
{
    let t = ascending(s);
    crate::order::lemma_ascending(s);
    law_lowest_is_least(s);
    law_highest_is_greatest(s);
    crate::order::lemma_same_members(s, t);
    assert(t.contains(t[0]) && s.contains(t[0]));
    assert(t.contains(t.last()) && s.contains(t.last()));
    assert(!s[0].nan());
    if s.contains(lowest(s)) {
        assert(t.contains(lowest(s)));
        let j = choose|j: int| 0 <= j < t.len() && t[j] == lowest(s);
        crate::number::lemma_rank_orders_values(t[0], t[j]);
    } else {
        crate::number::lemma_infinities(s[0]);
        crate::number::lemma_infinities(t[0]);
    }
    if s.contains(highest(s)) {
        assert(t.contains(highest(s)));
        let j = choose|j: int| 0 <= j < t.len() && t[j] == highest(s);
        crate::number::lemma_rank_orders_values(t[j], t.last());
    } else {
        crate::number::lemma_infinities(s[0]);
        crate::number::lemma_infinities(t.last());
    }
}

} // verus!
