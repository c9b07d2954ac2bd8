//! Statistical comparison of two recordings.
//!
//! Consecutive PPK2 samples are strongly autocorrelated (the device under
//! test cycles through activity states much slower than the sample rate), so
//! testing raw samples against each other would wildly overstate confidence.
//! Instead, each recording is split into fixed-length blocks (default 1 s)
//! and inference is done on the block means, which are approximately
//! independent as long as the block length exceeds the device's activity
//! cycle. Two views on the same question are reported:
//!
//! - Welch's t-test on the block means (p-value).
//! - A bootstrap confidence interval for the difference of means, using a
//!   deterministic seed by default so CI runs are reproducible.

use vstd::arithmetic::power2::{
    lemma2_to64, lemma_pow2_adds, lemma_pow2_pos, lemma_pow2_strictly_increases, lemma_pow2_unfold,
    pow2,
};
use vstd::prelude::*;
use vstd::string::*;

use crate::accuracy::{
    all_finite, at_most_nearly, larger_size, lemma_bounded_totals, lemma_count_is_exact,
    lemma_difference_is_close, lemma_difference_stays_finite, lemma_mean_is_modest,
    lemma_mix_stays_finite, lemma_modest_sums, lemma_numbers_grow_with_rank, lemma_root_is_close,
    lemma_sample_is_modest, lemma_sample_mean_is_close, lemma_sum_stays_finite,
    lemma_variance_is_close, modest, SUMMED_COUNTS,
};
use crate::acquire::lemma_chunk_fits;
use crate::arithmetic::{
    add_up, add_up_singles, all_widened, counted, deterministic, difference, product, quotient,
    square_root, sum, t_distribution, total, Arithmetic,
};
use crate::error::Error;
use crate::format::Recording;
use crate::number::{
    lemma_between_is_finite, lemma_named_numbers, lemma_rank_orders_doubles, lemma_same_magnitude,
    Double, Single, HALF, HUNDRED, INFINITY, NAN, NEGATIVE_INFINITY, NEGATIVE_ZERO, ONE, TWO, ZERO,
};
use crate::order::{
    ascending, ascending_doubles, greatest_of, least_of, lemma_ascending_doubles, lemma_greatest_of,
    lemma_least_of, sort_doubles, sort_singles,
};
use crate::rendering::{shown_text, stable, Rendering};
use crate::rounding::{
    adds_up, copies, gap, is_weight, lemma_difference_mirrors, lemma_divided, lemma_mix_at_zero,
    lemma_other_weight, lemma_quotient_mirrors, lemma_quotient_of_numbers,
    lemma_quotient_stays_finite, lemma_rank_of_share, lemma_rank_parts, lemma_root_of_number,
    lemma_sum_mirrors, lemma_total_between, lower_rank, mirrors, opposite, repeated_mean, rising,
    rounds_in_order, size, upper_rank, EXACT_COUNTS,
};
use crate::stats::{
    between_ranks, blend, mean_sample, percentile, percentile_sorted, sample_mean, variance,
    variance_of, PERCENTILES,
};
use crate::text::{decimal, push_decimal};

verus! {

/// Configuration for [`compare`].
#[derive(Debug, Clone)]
pub struct CompareConfig {
    /// Block length in seconds used to derive approximately independent
    /// observations from the sample stream.
    pub block_secs: Double,
    /// Confidence level for the bootstrap interval and significance decision,
    /// e.g. 0.95 or 0.99.
    pub confidence: Double,
    /// Number of bootstrap resamples.
    pub bootstrap_iters: u32,
    /// Seed for the bootstrap RNG. Fixed by default for reproducibility.
    pub seed: u64,
}

impl Default for CompareConfig {
    fn default() -> (r: Self)
        ensures
            r.block_secs == (Double { bits: ONE }),
            r.confidence == (Double { bits: 0x3fee_6666_6666_6666 }),
            r.bootstrap_iters == 10_000,
            r.seed == 0x9e37_79b9_7f4a_7c15,
    {
        CompareConfig {
            block_secs: Double { bits: ONE },
            confidence: Double { bits: 0x3fee_6666_6666_6666 },
            bootstrap_iters: 10_000,
            seed: 0x9e37_79b9_7f4a_7c15,
        }
    }
}

/// Small deterministic PRNG (SplitMix64); good enough for bootstrap
/// resampling and keeps the dependency tree small.
pub struct SplitMix64 {
    state: u64,
}

/// The generator state after one step.
pub open spec fn stepped(state: u64) -> u64 {
    state.wrapping_add(0x9e37_79b9_7f4a_7c15)
}

/// The number that a generator gives when it has reached `state`.
pub open spec fn mixed(state: u64) -> u64 {
    let a = (state ^ (state >> 30)).wrapping_mul(0xbf58_476d_1ce4_e5b9);
    let b = (a ^ (a >> 27)).wrapping_mul(0x94d0_49bb_1331_11eb);
    b ^ (b >> 31)
}

/// The generator state after `n` steps.
pub open spec fn stepped_by(state: u64, n: nat) -> u64
    decreases n,
{
    if n == 0 {
        state
    } else {
        stepped(stepped_by(state, (n - 1) as nat))
    }
}

/// The number that the `i`-th of the next calls gives, counted from zero.
pub open spec fn drawn(state: u64, i: int) -> u64 {
    mixed(stepped_by(state, (i + 1) as nat))
}

impl View for SplitMix64 {
    type V = u64;

    closed spec fn view(&self) -> u64 {
        self.state
    }
}

impl SplitMix64 {
    /// A generator started at `seed`.
    pub fn new(seed: u64) -> (r: Self)
        ensures
            r@ == seed,
    {
        SplitMix64 { state: seed }
    }

    /// The next number.
    pub fn next(&mut self) -> (r: u64)
        ensures
            final(self)@ == stepped(old(self)@),
            r == drawn(old(self)@, 0),
    {
        self.state = self.state.wrapping_add(0x9e37_79b9_7f4a_7c15);
        proof {
            reveal_with_fuel(stepped_by, 2);
        }
        let z: u64 = self.state;
        let z: u64 = (z ^ (z >> 30)).wrapping_mul(0xbf58_476d_1ce4_e5b9);
        let z: u64 = (z ^ (z >> 27)).wrapping_mul(0x94d0_49bb_1331_11eb);
        z ^ (z >> 31)
    }
}

/// The mean of `xs`.
pub open spec fn mean_of<A: Arithmetic>(f: &A, xs: Seq<Double>) -> Double {
    quotient(f, total(f, Double { bits: NEGATIVE_ZERO }, xs), counted(f, xs.len() as int))
}

/// The mean of `xs`.
pub fn mean<A: Arithmetic>(f: &A, xs: &[Double]) -> (r: Double)
    ensures
        deterministic(f) ==> r == mean_of(f, xs@),
{
    f.over(add_up(f, Double { bits: NEGATIVE_ZERO }, xs), f.of_count(xs.len() as u128))
}

/// Steps compose.
pub(crate) proof fn lemma_steps_compose(state: u64, n: nat, m: nat)
    ensures
        stepped_by(stepped_by(state, n), m) == stepped_by(state, n + m),
    decreases m,
{
    if m > 0 {
        lemma_steps_compose(state, n, (m - 1) as nat);
    }
}

/// The numbers that a resample of `xs` picks when the generator is at `state`.
pub open spec fn picks(xs: Seq<Double>, state: u64) -> Seq<Double> {
    Seq::new(xs.len(), |i: int| xs[(drawn(state, i) as int) % (xs.len() as int)])
}

/// The mean of one resample of `xs`.
pub open spec fn resampled_mean<A: Arithmetic>(f: &A, xs: Seq<Double>, state: u64) -> Double {
    quotient(f, total(f, Double { bits: ZERO }, picks(xs, state)), counted(f, xs.len() as int))
}

/// The mean of as many numbers as there are in `xs`, each picked from `xs` at
/// random.
pub fn resample_mean<A: Arithmetic>(f: &A, xs: &[Double], rng: &mut SplitMix64) -> (r: Double)
    ensures
        final(rng)@ == stepped_by(old(rng)@, xs@.len()),
        deterministic(f) ==> r == resampled_mean(f, xs@, old(rng)@),
{
    let n: usize = xs.len();
    let ghost start = rng@;
    let ghost all = picks(xs@, start);
    let mut acc = Double { bits: ZERO };
    let mut i: usize = 0;
    assert(all.take(0) =~= Seq::<Double>::empty());
    while i < n
        invariant
            i <= n,
            n == xs@.len(),
            all == picks(xs@, start),
            rng@ == stepped_by(start, i as nat),
            deterministic(f) ==> acc == total(f, Double { bits: ZERO }, all.take(i as int)),
        decreases n - i,
    {
        proof {
            reveal_with_fuel(stepped_by, 2);
            lemma_steps_compose(start, i as nat, 1);
        }
        let z: u64 = rng.next();
        assert(z == drawn(start, i as int));
        let at: usize = (z % n as u64) as usize;
        assert(xs@[at as int] == all[i as int]);
        assert(all.take(i + 1).drop_last() =~= all.take(i as int));
        acc = f.plus(acc, xs[at]);
        i += 1;
    }
    assert(all.take(i as int) =~= all);
    f.over(acc, f.of_count(n as u128))
}

/// The difference of means in the `i`-th resample of both groups.
pub open spec fn resampled_difference<A: Arithmetic>(
    f: &A,
    a: Seq<Double>,
    b: Seq<Double>,
    seed: u64,
    i: int,
) -> Double {
    let at = stepped_by(seed, (i * (a.len() + b.len())) as nat);
    difference(
        f,
        resampled_mean(f, b, stepped_by(at, a.len())),
        resampled_mean(f, a, at),
    )
}

/// The bootstrap confidence interval for `mean(b) - mean(a)`.
pub open spec fn bootstrap_interval<A: Arithmetic>(
    f: &A,
    a: Seq<Double>,
    b: Seq<Double>,
    iters: u32,
    confidence: Double,
    seed: u64,
) -> (Double, Double) {
    let sorted = ascending_doubles(
        Seq::new(iters as nat, |i: int| resampled_difference(f, a, b, seed, i)),
    );
    let one = Double { bits: ONE };
    let tail = quotient(f, difference(f, one, confidence), Double { bits: TWO });
    let last = counted(f, iters - 1);
    (
        between_ranks(f, sorted, product(f, tail, last)),
        between_ranks(f, sorted, product(f, difference(f, one, tail), last)),
    )
}

/// The numbers at the whole ranks around `rank`, weighted by how near it is to
/// each.
pub fn interp<A: Arithmetic>(f: &A, sorted: &[Double], rank: Double) -> (r: Double)
    requires
        sorted@.len() >= 1,
    ensures
        deterministic(f) ==> r == between_ranks(f, sorted@, rank),
{
    let last: usize = sorted.len() - 1;
    let floor: usize = rank.floor_count();
    let ceil: usize = rank.ceil_count();
    let lo: usize = if floor <= last {
        floor
    } else {
        last
    };
    let hi: usize = if ceil <= last {
        ceil
    } else {
        last
    };
    blend(f, sorted[lo], sorted[hi], rank, lo)
}

/// Percentile-method bootstrap confidence interval for `mean(b) - mean(a)`.
pub fn bootstrap_diff_ci<A: Arithmetic>(
    f: &A,
    a: &[Double],
    b: &[Double],
    iters: u32,
    confidence: Double,
    seed: u64,
) -> (r: (Double, Double))
    requires
        iters >= 1,
    ensures
        deterministic(f) ==> r == bootstrap_interval(f, a@, b@, iters, confidence, seed),
{
    let mut rng = SplitMix64::new(seed);
    let mut diffs: Vec<Double> = Vec::new();
    let mut i: u32 = 0;
    let ghost per = (a@.len() + b@.len()) as int;
    while i < iters
        invariant
            i <= iters,
            per == a@.len() + b@.len(),
            diffs.len() == i,
            rng@ == stepped_by(seed, (i * per) as nat),
            deterministic(f) ==> forall|k: int|
                0 <= k < i ==> #[trigger] diffs@[k] == resampled_difference(f, a@, b@, seed, k),
        decreases iters - i,
    {
        proof {
            assert(i * per >= 0) by (nonlinear_arith)
                requires
                    i >= 0,
                    per >= 0,
            ;
            assert((i + 1) * per == i * per + per) by (nonlinear_arith);
            lemma_steps_compose(seed, (i * per) as nat, a@.len());
            lemma_steps_compose(seed, (i * per + a@.len()) as nat, b@.len());
        }
        let ra = resample_mean(f, a, &mut rng);
        let rb = resample_mean(f, b, &mut rng);
        diffs.push(f.minus(rb, ra));
        i += 1;
    }
    let sorted = sort_doubles(diffs.as_slice());
    proof {
        if deterministic(f) {
            assert(diffs@ =~= Seq::new(
                iters as nat,
                |i: int| resampled_difference(f, a@, b@, seed, i),
            ));
        }
    }
    let one = Double { bits: ONE };
    let tail = f.over(f.minus(one, confidence), Double { bits: TWO });
    let last = f.of_count((iters - 1) as u128);
    let lo_rank = f.times(tail, last);
    let hi_rank = f.times(f.minus(one, tail), last);
    (interp(f, sorted.as_slice(), lo_rank), interp(f, sorted.as_slice(), hi_rank))
}

/// Welch's unequal-variances t-test: t, degrees of freedom and two-sided
/// p-value.
pub open spec fn welch<A: Arithmetic>(f: &A, a: Seq<Double>, b: Seq<Double>) -> (
    Double,
    Double,
    Double,
) {
    let na = counted(f, a.len() as int);
    let nb = counted(f, b.len() as int);
    let ma = mean_of(f, a);
    let mb = mean_of(f, b);
    let ea = quotient(f, variance_of(f, a, ma), na);
    let eb = quotient(f, variance_of(f, b, mb), nb);
    let se2 = sum(f, ea, eb);
    let one = Double { bits: ONE };
    let two = Double { bits: TWO };
    if !se2.nan() && !(Double { bits: ZERO }).below(se2) {
        (
            difference(f, mb, ma).infinite(),
            difference(f, sum(f, na, nb), two),
            if ma.equal_to(mb) {
                one
            } else {
                Double { bits: ZERO }
            },
        )
    } else {
        let t = quotient(f, difference(f, mb, ma), square_root(f, se2));
        let dof = quotient(
            f,
            product(f, se2, se2),
            sum(
                f,
                quotient(f, product(f, ea, ea), difference(f, na, one)),
                quotient(f, product(f, eb, eb), difference(f, nb, one)),
            ),
        );
        let tail = difference(f, one, t_distribution(f, dof, t.absolute()));
        (t, dof, product(f, two, tail).unit_clamped())
    }
}

/// Welch's unequal-variances t-test. Returns (t, degrees of freedom,
/// two-sided p-value). Where both groups are constant, p is one for identical
/// means, and otherwise zero, as the difference is exact.
pub fn welch_t_test<A: Arithmetic>(f: &A, a: &[Double], b: &[Double]) -> (r: (
    Double,
    Double,
    Double,
))
    requires
        a@.len() >= 1,
        b@.len() >= 1,
    ensures
        deterministic(f) ==> r == welch(f, a@, b@),
{
    let na = f.of_count(a.len() as u128);
    let nb = f.of_count(b.len() as u128);
    let ma = mean(f, a);
    let mb = mean(f, b);
    let ea = f.over(variance(f, a, ma), na);
    let eb = f.over(variance(f, b, mb), nb);
    let se2 = f.plus(ea, eb);
    let one = Double { bits: ONE };
    let two = Double { bits: TWO };
    if !se2.is_nan() && !(Double { bits: ZERO }).is_below(se2) {
        let p = if ma.is_equal(mb) {
            one
        } else {
            Double { bits: ZERO }
        };
        return (f.minus(mb, ma).signed_infinity(), f.minus(f.plus(na, nb), two), p);
    }
    let t = f.over(f.minus(mb, ma), f.root(se2));
    let dof = f.over(
        f.times(se2, se2),
        f.plus(
            f.over(f.times(ea, ea), f.minus(na, one)),
            f.over(f.times(eb, eb), f.minus(nb, one)),
        ),
    );
    let tail = f.minus(one, f.students_t(dof, t.abs()));
    (t, dof, f.times(two, tail).clamp_unit())
}

/// The mean of the `i`-th block of `len` samples.
pub open spec fn block_mean<A: Arithmetic>(
    f: &A,
    samples: Seq<Single>,
    len: int,
    i: int,
) -> Double {
    quotient(
        f,
        total(
            f,
            Double { bits: NEGATIVE_ZERO },
            all_widened(f, samples.subrange(i * len, i * len + len)),
        ),
        counted(f, len),
    )
}

/// The means of the full blocks of `len` samples.
pub open spec fn block_means_of<A: Arithmetic>(f: &A, samples: Seq<Single>, len: int) -> Seq<
    Double,
> {
    Seq::new((samples.len() as int / len) as nat, |i: int| block_mean(f, samples, len, i))
}

/// The number of samples in a block of `block_secs`.
pub open spec fn block_len_of<A: Arithmetic>(f: &A, sps: u32, block_secs: Double) -> int {
    product(f, counted(f, sps as int), block_secs).round()
}

/// Why a comparison is refused.
pub enum Refusal {
    /// The confidence level is not between one half and one.
    Confidence,
    /// The block length is zero or negative.
    BlockLength,
    /// A block holds no sample at the given rate.
    EmptyBlock {
        /// The sample rate.
        sps: u32,
    },
    /// A recording holds fewer than two blocks.
    TooFewBlocks {
        /// The sample rate.
        sps: u32,
        /// The number of samples in a block.
        block_len: nat,
        /// The number of full blocks.
        blocks: nat,
    },
}

/// The text that reports `why` under `config`.
pub open spec fn refusal_text<R: Rendering>(f: &R, config: CompareConfig, why: Refusal) -> Seq<
    char,
> {
    let secs = shown_text(f, config.block_secs);
    match why {
        Refusal::Confidence => "confidence must be in (0.5, 1.0), got "@ + shown_text(
            f,
            config.confidence,
        ),
        Refusal::BlockLength => "block length must be positive"@,
        Refusal::EmptyBlock { sps } => "block length "@ + secs
            + " s is shorter than one sample at "@ + decimal(sps as nat) + " sps"@,
        Refusal::TooFewBlocks { sps, block_len, blocks } => "need at least 2 full blocks of "@
            + secs + " s ("@ + decimal(block_len) + " samples at "@ + decimal(sps as nat)
            + " sps) per file, got "@ + decimal(blocks)
            + "; record longer or use a smaller --block-secs"@,
    }
}

/// Whether `e` reports `why` under `config`.
pub open spec fn refuses<R: Rendering>(
    f: &R,
    config: CompareConfig,
    e: Error,
    why: Refusal,
) -> bool {
    match why {
        Refusal::TooFewBlocks { .. } => e matches Error::NotEnoughData(m) && (stable(f) ==> m@
            == refusal_text(f, config, why)),
        Refusal::BlockLength => e matches Error::InvalidConfig(m) && m@ == refusal_text(
            f,
            config,
            why,
        ),
        _ => e matches Error::InvalidConfig(m) && (stable(f) ==> m@ == refusal_text(
            f,
            config,
            why,
        )),
    }
}

/// Why the samples cannot be split into blocks.
pub open spec fn block_refusal<A: Arithmetic>(
    f: &A,
    samples: Seq<Single>,
    sps: u32,
    block_secs: Double,
) -> Option<Refusal> {
    let len = block_len_of(f, sps, block_secs);
    if len == 0 {
        Some(Refusal::EmptyBlock { sps })
    } else if samples.len() as int / len < 2 {
        Some(
            Refusal::TooFewBlocks {
                sps,
                block_len: len as nat,
                blocks: (samples.len() as int / len) as nat,
            },
        )
    } else {
        None
    }
}

/// Split samples into consecutive blocks of `config.block_secs` and return the
/// mean of each full block.
pub fn block_means<F: Arithmetic + Rendering>(
    f: &F,
    samples: &[Single],
    sps: u32,
    config: &CompareConfig,
) -> (r: Result<Vec<Double>, Error>)
    ensures
        r matches Ok(means) ==> means@.len() >= 2,
        deterministic(f) ==> match r {
            Ok(means) => block_refusal(f, samples@, sps, config.block_secs) is None && means@
                == block_means_of(f, samples@, block_len_of(f, sps, config.block_secs)),
            Err(e) => block_refusal(f, samples@, sps, config.block_secs) matches Some(why)
                && refuses(f, *config, e, why),
        },
{
    let len: usize = f.times(f.of_count(sps as u128), config.block_secs).round_count();
    if len == 0 {
        let mut m = "block length ".to_owned();
        m.append(f.shown(config.block_secs).as_str());
        m.append(" s is shorter than one sample at ");
        push_decimal(&mut m, sps as u128);
        m.append(" sps");
        return Err(Error::InvalidConfig(m));
    }
    let n: usize = samples.len();
    let blocks: usize = n / len;
    let mut means: Vec<Double> = Vec::new();
    let mut i: usize = 0;
    while i < blocks
        invariant
            i <= blocks,
            len > 0,
            n == samples@.len(),
            blocks == n as int / len as int,
            means.len() == i,
            deterministic(f) ==> forall|k: int|
                0 <= k < i ==> #[trigger] means@[k] == block_mean(f, samples@, len as int, k),
        decreases blocks - i,
    {
        proof {
            lemma_chunk_fits(n as int, len as int, i as int);
        }
        let start: usize = i * len;
        let block = vstd::slice::slice_subrange(samples, start, start + len);
        means.push(
            f.over(
                add_up_singles(f, Double { bits: NEGATIVE_ZERO }, block),
                f.of_count(len as u128),
            ),
        );
        i += 1;
    }
    proof {
        if deterministic(f) {
            assert(means@ =~= block_means_of(f, samples@, len as int));
        }
    }
    if means.len() < 2 {
        let mut m = "need at least 2 full blocks of ".to_owned();
        m.append(f.shown(config.block_secs).as_str());
        m.append(" s (");
        push_decimal(&mut m, len as u128);
        m.append(" samples at ");
        push_decimal(&mut m, sps as u128);
        m.append(" sps) per file, got ");
        push_decimal(&mut m, means.len() as u128);
        m.append("; record longer or use a smaller --block-secs");
        return Err(Error::NotEnoughData(m));
    }
    Ok(means)
}

/// Side-by-side percentile comparison, in µA.
#[derive(Debug, Clone, Copy)]
pub struct PercentileDiff {
    /// The percentile (0..=100).
    pub percentile: Double,
    /// Value in the baseline recording (µA).
    pub baseline: Double,
    /// Value in the new recording (µA).
    pub new: Double,
}

/// Result of comparing two recordings. All currents are in microampere.
/// "Difference" always means `new - baseline`.
#[derive(Debug)]
pub struct CompareResult {
    /// Mean current of the baseline recording.
    pub mean_baseline: Double,
    /// Mean current of the new recording.
    pub mean_new: Double,
    /// Difference of the mean currents (µA).
    pub mean_diff: Double,
    /// Difference of means as a percentage of the baseline mean.
    pub mean_diff_pct: Double,
    /// Number of blocks in the baseline recording.
    pub blocks_baseline: usize,
    /// Number of blocks in the new recording.
    pub blocks_new: usize,
    /// Block length in seconds.
    pub block_secs: Double,
    /// Welch's t statistic on the block means.
    pub t_statistic: Double,
    /// Welch–Satterthwaite degrees of freedom.
    pub degrees_of_freedom: Double,
    /// Two-sided p-value for the hypothesis "the means are equal".
    pub p_value: Double,
    /// Confidence level used for the interval and the significance decision.
    pub confidence: Double,
    /// Bootstrap confidence interval for the difference of means (µA).
    pub diff_ci: (Double, Double),
    /// Bootstrap confidence interval for the difference, as a percentage of
    /// the baseline mean.
    pub diff_ci_pct: (Double, Double),
    /// Whether the difference is statistically significant at the requested
    /// confidence level (p-value below alpha and the bootstrap interval
    /// excludes zero).
    pub significant: bool,
    /// Percentile comparison of the raw sample distributions.
    pub percentiles: Vec<PercentileDiff>,
}

/// What a [`CompareResult`] says.
pub struct CompareModel {
    /// Mean current of the baseline recording.
    pub mean_baseline: Double,
    /// Mean current of the new recording.
    pub mean_new: Double,
    /// Difference of means.
    pub mean_diff: Double,
    /// Difference of means as a percentage of the baseline mean.
    pub mean_diff_pct: Double,
    /// Number of blocks in the baseline recording.
    pub blocks_baseline: nat,
    /// Number of blocks in the new recording.
    pub blocks_new: nat,
    /// Block length in seconds.
    pub block_secs: Double,
    /// Welch's t statistic, the degrees of freedom and the p-value.
    pub welch: (Double, Double, Double),
    /// Confidence level.
    pub confidence: Double,
    /// Confidence interval of the difference.
    pub diff_ci: (Double, Double),
    /// Confidence interval as a percentage of the baseline mean.
    pub diff_ci_pct: (Double, Double),
    /// Whether the difference is significant.
    pub significant: bool,
    /// Percentile comparison.
    pub percentiles: Seq<PercentileDiff>,
}

impl View for CompareResult {
    type V = CompareModel;

    open spec fn view(&self) -> CompareModel {
        CompareModel {
            mean_baseline: self.mean_baseline,
            mean_new: self.mean_new,
            mean_diff: self.mean_diff,
            mean_diff_pct: self.mean_diff_pct,
            blocks_baseline: self.blocks_baseline as nat,
            blocks_new: self.blocks_new as nat,
            block_secs: self.block_secs,
            welch: (self.t_statistic, self.degrees_of_freedom, self.p_value),
            confidence: self.confidence,
            diff_ci: self.diff_ci,
            diff_ci_pct: self.diff_ci_pct,
            significant: self.significant,
            percentiles: self.percentiles@,
        }
    }
}

impl Clone for CompareResult {
    fn clone(&self) -> (r: Self)
        ensures
            r@ == self@,
    {
        let percentiles = self.percentiles.clone();
        assert(percentiles@ =~= self.percentiles@);
        CompareResult {
            mean_baseline: self.mean_baseline,
            mean_new: self.mean_new,
            mean_diff: self.mean_diff,
            mean_diff_pct: self.mean_diff_pct,
            blocks_baseline: self.blocks_baseline,
            blocks_new: self.blocks_new,
            block_secs: self.block_secs,
            t_statistic: self.t_statistic,
            degrees_of_freedom: self.degrees_of_freedom,
            p_value: self.p_value,
            confidence: self.confidence,
            diff_ci: self.diff_ci,
            diff_ci_pct: self.diff_ci_pct,
            significant: self.significant,
            percentiles,
        }
    }
}

/// `x` as a percentage of `base`; not a number where `base` is zero.
pub open spec fn percent_of<A: Arithmetic>(f: &A, x: Double, base: Double) -> Double {
    if base.zero_valued() {
        Double { bits: NAN }
    } else {
        quotient(f, product(f, Double { bits: HUNDRED }, x), base)
    }
}

/// `x` as a percentage of `base`; not a number where `base` is zero.
pub fn pct_of_baseline<A: Arithmetic>(f: &A, x: Double, base: Double) -> (r: Double)
    ensures
        base.zero_valued() ==> r == (Double { bits: NAN }),
        deterministic(f) ==> r == percent_of(f, x, base),
{
    if base.is_zero() {
        Double { bits: NAN }
    } else {
        f.over(f.times(Double { bits: HUNDRED }, x), base)
    }
}

/// Whether a p-value is below `alpha` and an interval excludes zero.
pub open spec fn significance(p_value: Double, alpha: Double, ci: (Double, Double)) -> bool {
    let zero = Double { bits: ZERO };
    p_value.below(alpha) && (zero.below(ci.0) || ci.1.below(zero))
}

/// Whether a difference is significant: its p-value is below `alpha` and its
/// confidence interval excludes zero.
pub fn is_significant(p_value: Double, alpha: Double, ci: (Double, Double)) -> (r: bool)
    ensures
        r == significance(p_value, alpha, ci),
{
    let zero = Double { bits: ZERO };
    p_value.is_below(alpha) && (zero.is_below(ci.0) || ci.1.is_below(zero))
}

/// The percentiles of two ascending sequences of samples, side by side.
pub open spec fn percentile_diffs<A: Arithmetic>(f: &A, a: Seq<Single>, b: Seq<Single>) -> Seq<
    PercentileDiff,
> {
    Seq::new(
        8,
        |i: int|
            {
                let p = Double { bits: PERCENTILES@[i] };
                PercentileDiff {
                    percentile: p,
                    baseline: percentile(f, a, p),
                    new: percentile(f, b, p),
                }
            },
    )
}

/// The percentiles of two ascending sequences of samples, side by side.
fn compare_percentiles<A: Arithmetic>(f: &A, a: &[Single], b: &[Single]) -> (r: Vec<
    PercentileDiff,
>)
    ensures
        r@.len() == 8,
        deterministic(f) ==> r@ == percentile_diffs(f, a@, b@),
{
    let mut r: Vec<PercentileDiff> = Vec::new();
    let mut i: usize = 0;
    while i < 8
        invariant
            i <= 8,
            r.len() == i,
            deterministic(f) ==> forall|k: int|
                0 <= k < i ==> #[trigger] r@[k] == percentile_diffs(f, a@, b@)[k],
        decreases 8 - i,
    {
        let p = Double { bits: PERCENTILES[i] };
        r.push(
            PercentileDiff {
                percentile: p,
                baseline: percentile_sorted(f, a, p),
                new: percentile_sorted(f, b, p),
            },
        );
        i += 1;
    }
    proof {
        if deterministic(f) {
            assert(r@ =~= percentile_diffs(f, a@, b@));
        }
    }
    r
}

/// Why nothing can be compared under `config`; the first reason counts.
pub open spec fn config_refusal(config: CompareConfig) -> Option<Refusal> {
    let c = config.confidence;
    if !((Double { bits: HALF }).below(c) && c.below(Double { bits: ONE })) {
        Some(Refusal::Confidence)
    } else if !config.block_secs.nan() && !(Double { bits: ZERO }).below(config.block_secs) {
        Some(Refusal::BlockLength)
    } else {
        None
    }
}

/// Why two recordings cannot be compared under `config`; the first reason
/// counts.
pub open spec fn comparison_refusal<A: Arithmetic>(
    f: &A,
    baseline: Recording,
    new: Recording,
    config: CompareConfig,
) -> Option<Refusal> {
    if config_refusal(config) is Some {
        config_refusal(config)
    } else {
        let a = block_refusal(f, baseline.samples_ua@, baseline.meta.sps, config.block_secs);
        if a is Some {
            a
        } else {
            block_refusal(f, new.samples_ua@, new.meta.sps, config.block_secs)
        }
    }
}

/// The comparison of two recordings under `config`.
pub open spec fn comparison<A: Arithmetic>(
    f: &A,
    baseline: Recording,
    new: Recording,
    config: CompareConfig,
) -> CompareModel {
    let a = block_means_of(
        f,
        baseline.samples_ua@,
        block_len_of(f, baseline.meta.sps, config.block_secs),
    );
    let b = block_means_of(
        f,
        new.samples_ua@,
        block_len_of(f, new.meta.sps, config.block_secs),
    );
    let mean_a = sample_mean(f, baseline.samples_ua@);
    let mean_b = sample_mean(f, new.samples_ua@);
    let diff = difference(f, mean_b, mean_a);
    let w = welch(f, a, b);
    let ci = bootstrap_interval(f, a, b, config.bootstrap_iters, config.confidence, config.seed);
    CompareModel {
        mean_baseline: mean_a,
        mean_new: mean_b,
        mean_diff: diff,
        mean_diff_pct: percent_of(f, diff, mean_a),
        blocks_baseline: a.len(),
        blocks_new: b.len(),
        block_secs: config.block_secs,
        welch: w,
        confidence: config.confidence,
        diff_ci: ci,
        diff_ci_pct: (percent_of(f, ci.0, mean_a), percent_of(f, ci.1, mean_a)),
        significant: significance(
            w.2,
            difference(f, Double { bits: ONE }, config.confidence),
            ci,
        ),
        percentiles: percentile_diffs(
            f,
            ascending(baseline.samples_ua@),
            ascending(new.samples_ua@),
        ),
    }
}

/// Compare two recordings; see the module documentation for methodology. There
/// must be a bootstrap resample at least, unless the comparison is refused.
pub fn compare<F: Arithmetic + Rendering>(
    f: &F,
    baseline: &Recording,
    new: &Recording,
    config: &CompareConfig,
) -> (r: Result<CompareResult, Error>)
    requires
        config.bootstrap_iters >= 1 || config_refusal(*config) is Some || (deterministic(f)
            && comparison_refusal(f, *baseline, *new, *config) is Some),
    ensures
        config_refusal(*config) matches Some(why) ==> (r matches Err(e) && refuses(
            f,
            *config,
            e,
            why,
        )),
        r matches Ok(result) ==> result.blocks_baseline >= 2 && result.blocks_new >= 2,
        deterministic(f) ==> match r {
            Ok(result) => comparison_refusal(f, *baseline, *new, *config) is None && result@
                == comparison(f, *baseline, *new, *config),
            Err(e) => comparison_refusal(f, *baseline, *new, *config) matches Some(why) && refuses(
                f,
                *config,
                e,
                why,
            ),
        },
{
    let one = Double { bits: ONE };
    if !((Double { bits: HALF }).is_below(config.confidence) && config.confidence.is_below(one)) {
        let mut m = "confidence must be in (0.5, 1.0), got ".to_owned();
        m.append(f.shown(config.confidence).as_str());
        return Err(Error::InvalidConfig(m));
    }
    if !config.block_secs.is_nan() && !(Double { bits: ZERO }).is_below(config.block_secs) {
        return Err(Error::InvalidConfig("block length must be positive".to_owned()));
    }
    let a = match block_means(f, baseline.samples_ua.as_slice(), baseline.meta.sps, config) {
        Ok(a) => a,
        Err(e) => {
            return Err(e);
        },
    };
    let b = match block_means(f, new.samples_ua.as_slice(), new.meta.sps, config) {
        Ok(b) => b,
        Err(e) => {
            return Err(e);
        },
    };
    let mean_a = mean_sample(f, baseline.samples_ua.as_slice());
    let mean_b = mean_sample(f, new.samples_ua.as_slice());
    let mean_diff = f.minus(mean_b, mean_a);
    let (t, dof, p_value) = welch_t_test(f, a.as_slice(), b.as_slice());
    let ci = bootstrap_diff_ci(
        f,
        a.as_slice(),
        b.as_slice(),
        config.bootstrap_iters,
        config.confidence,
        config.seed,
    );
    let alpha = f.minus(one, config.confidence);
    let sorted_a = sort_singles(baseline.samples_ua.as_slice());
    let sorted_b = sort_singles(new.samples_ua.as_slice());
    Ok(
        CompareResult {
            mean_baseline: mean_a,
            mean_new: mean_b,
            mean_diff,
            mean_diff_pct: pct_of_baseline(f, mean_diff, mean_a),
            blocks_baseline: a.len(),
            blocks_new: b.len(),
            block_secs: config.block_secs,
            t_statistic: t,
            degrees_of_freedom: dof,
            p_value,
            confidence: config.confidence,
            diff_ci: ci,
            diff_ci_pct: (pct_of_baseline(f, ci.0, mean_a), pct_of_baseline(f, ci.1, mean_a)),
            significant: is_significant(p_value, alpha, ci),
            percentiles: compare_percentiles(f, sorted_a.as_slice(), sorted_b.as_slice()),
        },
    )
}

/// Whether the mean rose by more than `threshold` percent of the baseline; a
/// threshold of zero asks for any rise.
pub open spec fn rises_beyond(diff: Double, diff_pct: Double, threshold: Double) -> bool {
    if threshold.equal_to(Double { bits: ZERO }) {
        (Double { bits: ZERO }).below(diff)
    } else {
        threshold.below(diff_pct)
    }
}

/// Whether a comparison is to fail: the mean increased significantly by more
/// than `max_regression` percent, where zero stands for any increase. Without a
/// threshold none fails.
pub fn exceeds_regression(result: &CompareResult, max_regression: Option<Double>) -> (r: bool)
    ensures
        r == (max_regression matches Some(threshold) && result.significant && rises_beyond(
            result.mean_diff,
            result.mean_diff_pct,
            threshold,
        )),
{
    match max_regression {
        Some(threshold) => {
            let rises = if threshold.is_equal(Double { bits: ZERO }) {
                (Double { bits: ZERO }).is_below(result.mean_diff)
            } else {
                threshold.is_below(result.mean_diff_pct)
            };
            result.significant && rises
        },
        None => false,
    }
}

/// A threshold of zero fails every significant increase of the mean, whatever
/// the baseline, and nothing else.
pub proof fn law_zero_threshold_fails_any_increase(
    result: &CompareResult,
    threshold: Double,
    failed: bool,
)
    requires
        threshold.equal_to(Double { bits: ZERO }),
        call_ensures(exceeds_regression, (result, Some(threshold)), failed),
    ensures
        failed <==> result.significant && !result.mean_diff.nan() && result.mean_diff.value() > 0,
{
    lemma_named_numbers();
}

/// Any other threshold fails what is significant and more than that percentage
/// of the baseline.
pub proof fn law_threshold_is_a_percentage(
    result: &CompareResult,
    threshold: Double,
    failed: bool,
)
    requires
        !threshold.equal_to(Double { bits: ZERO }),
        call_ensures(exceeds_regression, (result, Some(threshold)), failed),
    ensures
        failed <==> result.significant && threshold.below(result.mean_diff_pct),
{
    lemma_named_numbers();
}

/// Comparing the same recordings under the same configuration gives the same
/// result, and the same bootstrap interval, every time.
pub proof fn law_comparison_is_reproducible<F: Arithmetic + Rendering>(
    f: &F,
    baseline: &Recording,
    new: &Recording,
    config: &CompareConfig,
    first: CompareResult,
    second: CompareResult,
)
    requires
        deterministic(f),
        call_ensures(compare::<F>, (f, baseline, new, config), Ok(first)),
        call_ensures(compare::<F>, (f, baseline, new, config), Ok(second)),
    ensures
        first@ == second@,
        first.diff_ci == second.diff_ci,
{
    assert(first@.diff_ci == second@.diff_ci);
}

/// What is reported as significant has a p-value below one minus the confidence
/// level, and an interval that excludes zero.
pub proof fn law_significant_excludes_zero<F: Arithmetic + Rendering>(
    f: &F,
    baseline: &Recording,
    new: &Recording,
    config: &CompareConfig,
    result: CompareResult,
)
    requires
        deterministic(f),
        call_ensures(compare::<F>, (f, baseline, new, config), Ok(result)),
        result.significant,
    ensures
        result.p_value.below(difference(f, Double { bits: ONE }, config.confidence)),
        result.diff_ci.0.value() > 0 || result.diff_ci.1.value() < 0,
{
    lemma_named_numbers();
    assert(result@.significant && result@.diff_ci == result.diff_ci);
    assert(result@.welch.2 == result.p_value);
}

/// Samples after the last full block do not count for the blocks, on which the
/// test and the interval rest.
pub proof fn law_partial_block_is_ignored<A: Arithmetic>(f: &A, samples: Seq<Single>, len: int)
    requires
        len >= 1,
    ensures
        0 <= samples.len() as int / len * len <= samples.len(),
        block_means_of(f, samples, len) == block_means_of(
            f,
            samples.take(samples.len() as int / len * len),
            len,
        ),
{
    let n = samples.len() as int;
    let k = n / len;
    vstd::arithmetic::div_mod::lemma_fundamental_div_mod(n, len);
    assert(0 <= k * len <= n) by (nonlinear_arith)
        requires
            n == len * k + n % len,
            0 <= n % len < len,
            0 <= n,
            len >= 1,
    ;
    let full = samples.take(k * len);
    vstd::arithmetic::div_mod::lemma_div_by_multiple(k, len);
    assert forall|i: int| 0 <= i < k implies #[trigger] block_mean(f, samples, len, i)
        == block_mean(f, full, len, i) by {
        assert(0 <= i * len && i * len + len <= k * len) by (nonlinear_arith)
            requires
                0 <= i < k,
                len >= 1,
        ;
        assert(samples.subrange(i * len, i * len + len) =~= full.subrange(i * len, i * len + len));
    }
    assert(block_means_of(f, samples, len) =~= block_means_of(f, full, len));
}

/// A resample holds as many block means as there are, all of them drawn from
/// the block means.
pub proof fn law_resample_draws_from_blocks(xs: Seq<Double>, state: u64)
    requires
        0 < xs.len() <= u64::MAX,
    ensures
        picks(xs, state).len() == xs.len(),
        forall|i: int| 0 <= i < xs.len() ==> xs.contains(#[trigger] picks(xs, state)[i]),
{
    assert forall|i: int| 0 <= i < xs.len() implies xs.contains(#[trigger] picks(xs, state)[i]) by {
        let j = drawn(state, i) as int % xs.len() as int;
        assert(0 <= j < xs.len());
        assert(picks(xs, state)[i] == xs[j]);
    }
}

/// The rows of a percentile comparison with the recordings exchanged.
pub open spec fn exchanged_rows(rows: Seq<PercentileDiff>) -> Seq<PercentileDiff> {
    rows.map_values(
        |p: PercentileDiff|
            PercentileDiff { percentile: p.percentile, baseline: p.new, new: p.baseline },
    )
}

/// Exchanging the recordings exchanges what is said of each: where one
/// comparison is made the other is too, with the block counts, the means and
/// the percentiles exchanged.
pub proof fn law_exchanged_recordings<F: Arithmetic + Rendering>(
    f: &F,
    baseline: &Recording,
    new: &Recording,
    config: &CompareConfig,
    there: CompareResult,
    back: Result<CompareResult, Error>,
)
    requires
        deterministic(f),
        call_ensures(compare::<F>, (f, baseline, new, config), Ok(there)),
        call_ensures(compare::<F>, (f, new, baseline, config), back),
    ensures
        back matches Ok(other) && {
            &&& other.blocks_baseline == there.blocks_new
            &&& other.blocks_new == there.blocks_baseline
            &&& other.mean_baseline == there.mean_new
            &&& other.mean_new == there.mean_baseline
            &&& other.percentiles@ == exchanged_rows(there.percentiles@)
            &&& other.block_secs == there.block_secs
            &&& other.confidence == there.confidence
        },
{
    assert(comparison_refusal(f, *baseline, *new, *config) is None);
    assert(comparison_refusal(f, *new, *baseline, *config) is None);
    let other = back->Ok_0;
    assert(there@ == comparison(f, *baseline, *new, *config));
    assert(other@ == comparison(f, *new, *baseline, *config));
    assert(there@.blocks_baseline == there.blocks_baseline && there@.blocks_new
        == there.blocks_new);
    assert(other@.percentiles =~= exchanged_rows(there@.percentiles));
}

/// The infinities that opposite numbers give are opposite.
proof fn lemma_opposite_infinities(x: Double, y: Double)
    requires
        opposite(x, y),
        x.value() != 0,
    ensures
        opposite(x.infinite(), y.infinite()),
{
    let top = Double { bits: INFINITY };
    let bottom = Double { bits: NEGATIVE_INFINITY };
    assert(top.exponent() == 0x7ff && top.fraction() == 0);
    assert(bottom.exponent() == 0x7ff && bottom.fraction() == 0);
    assert(top.value() == -bottom.value());
}

/// The squared standard error of one group.
pub open spec fn squared_error<A: Arithmetic>(f: &A, xs: Seq<Double>) -> Double {
    quotient(f, variance_of(f, xs, mean_of(f, xs)), counted(f, xs.len() as int))
}

/// What one group adds to the divisor of the degrees of freedom.
pub open spec fn freedom_part<A: Arithmetic>(f: &A, xs: Seq<Double>) -> Double {
    let e = squared_error(f, xs);
    quotient(
        f,
        product(f, e, e),
        difference(f, counted(f, xs.len() as int), Double { bits: ONE }),
    )
}

/// The test with the groups exchanged.
proof fn lemma_welch_exchanged<A: Arithmetic>(f: &A, a: Seq<Double>, b: Seq<Double>)
    requires
        mirrors(f),
        !welch(f, a, b).0.nan(),
        !welch(f, a, b).1.nan(),
    ensures
        welch(f, b, a).1 == welch(f, a, b).1,
        welch(f, b, a).2 == welch(f, a, b).2,
        difference(f, mean_of(f, b), mean_of(f, a)).value() != 0 ==> opposite(
            welch(f, a, b).0,
            welch(f, b, a).0,
        ),
{
    let d = difference(f, mean_of(f, b), mean_of(f, a));
    let e = difference(f, mean_of(f, a), mean_of(f, b));
    let se2 = sum(f, squared_error(f, a), squared_error(f, b));
    if !se2.nan() && !(Double { bits: ZERO }).below(se2) {
        let na = counted(f, a.len() as int);
        let nb = counted(f, b.len() as int);
        lemma_sum_mirrors(f, squared_error(f, a), squared_error(f, b));
        lemma_difference_mirrors(f, mean_of(f, b), mean_of(f, a));
        lemma_difference_mirrors(f, sum(f, na, nb), Double { bits: TWO });
        lemma_sum_mirrors(f, na, nb);
        if d.value() != 0 {
            lemma_opposite_infinities(d, e);
        }
    } else {
        let r = square_root(f, se2);
        let x = freedom_part(f, a);
        let y = freedom_part(f, b);
        lemma_quotient_of_numbers(f, d, r);
        lemma_root_of_number(f, se2);
        lemma_sum_mirrors(f, squared_error(f, a), squared_error(f, b));
        lemma_difference_mirrors(f, mean_of(f, b), mean_of(f, a));
        lemma_quotient_mirrors(f, d, e, r);
        lemma_same_magnitude(quotient(f, d, r), quotient(f, e, r));
        lemma_quotient_of_numbers(f, product(f, se2, se2), sum(f, x, y));
        lemma_sum_mirrors(f, x, y);
    }
}

/// Block means of finite samples are finite, and far from overflow.
pub(crate) proof fn lemma_block_means_are_modest<A: Arithmetic>(
    f: &A,
    samples: Seq<Single>,
    len: int,
)
    requires
        rounds_in_order(f),
        samples.len() <= SUMMED_COUNTS,
        all_finite(samples),
        len >= 1,
    ensures
        block_means_of(f, samples, len).len() <= SUMMED_COUNTS,
        sample_sized(block_means_of(f, samples, len)),
        forall|i: int|
            0 <= i < block_means_of(f, samples, len).len() ==> modest(
                #[trigger] block_means_of(f, samples, len)[i],
            ),
{
    let blocks = block_means_of(f, samples, len);
    let start = Double { bits: NEGATIVE_ZERO };
    let m = pow2(1202) as int;
    assert(start.finite() && start.magnitude() == 0);
    vstd::arithmetic::div_mod::lemma_div_is_ordered_by_denominator(samples.len() as int, 1, len);
    vstd::arithmetic::div_mod::lemma_div_basics(samples.len() as int);
    lemma_pow2_pos(1202);
    lemma_pow2_unfold(1203);
    lemma_pow2_unfold(1204);
    lemma_pow2_strictly_increases(1202, 1300);
    lemma_pow2_strictly_increases(1204, 1300);
    assert forall|i: int| 0 <= i < blocks.len() implies modest(#[trigger] blocks[i]) && size(
        blocks[i].value(),
    ) <= pow2(1204) by {
        lemma_chunk_fits(samples.len() as int, len, i);
        let part = samples.subrange(i * len, i * len + len);
        let xs = all_widened(f, part);
        assert forall|j: int| 0 <= j < xs.len() implies (#[trigger] xs[j]).finite() && size(
            xs[j].value(),
        ) <= m by {
            assert(samples[i * len + j].finite());
            lemma_sample_is_modest(f, part[j]);
        }
        lemma_mean_is_modest(f, start, xs, m);
    }
}

/// What goes into the squared standard error of modest numbers is finite.
pub(crate) proof fn lemma_squared_error_is_finite<A: Arithmetic>(f: &A, xs: Seq<Double>)
    requires
        rounds_in_order(f),
        2 <= xs.len() <= SUMMED_COUNTS,
        forall|i: int| 0 <= i < xs.len() ==> modest(#[trigger] xs[i]),
    ensures
        mean_of(f, xs).finite(),
        squared_error(f, xs).finite(),
        0 <= squared_error(f, xs).value() <= pow2(1974),
{
    let n = xs.len() as int;
    let start = Double { bits: NEGATIVE_ZERO };
    let m = pow2(1300) as int;
    let u = Double::unit();
    assert(start.finite() && start.magnitude() == 0);
    lemma_pow2_pos(1074);
    lemma_pow2_pos(1300);
    assert forall|i: int| 0 <= i < xs.len() implies (#[trigger] xs[i]).finite() && size(
        xs[i].value(),
    ) <= m by {
        assert(modest(xs[i]));
    }
    lemma_mean_is_modest(f, start, xs, m);
    lemma_variance_is_close(f, xs, mean_of(f, xs), m);
    lemma_count_is_exact(f, n);
    assert(n * u >= u) by (nonlinear_arith)
        requires
            n >= 1,
            u > 0,
    ;
    lemma_quotient_stays_finite(f, variance_of(f, xs, mean_of(f, xs)), counted(f, n));
}

/// The test statistic of modest numbers is a number.
proof fn lemma_statistic_is_a_number<A: Arithmetic>(f: &A, a: Seq<Double>, b: Seq<Double>)
    requires
        rounds_in_order(f),
        2 <= a.len() <= SUMMED_COUNTS,
        2 <= b.len() <= SUMMED_COUNTS,
        forall|i: int| 0 <= i < a.len() ==> modest(#[trigger] a[i]),
        forall|i: int| 0 <= i < b.len() ==> modest(#[trigger] b[i]),
    ensures
        !welch(f, a, b).0.nan(),
{
    lemma_named_numbers();
    lemma_pow2_pos(1074);
    lemma_squared_error_is_finite(f, a);
    lemma_squared_error_is_finite(f, b);
    let zero = Double { bits: ZERO };
    let ma = mean_of(f, a);
    let mb = mean_of(f, b);
    let se2 = sum(f, squared_error(f, a), squared_error(f, b));
    let d = difference(f, mb, ma);
    lemma_sum_stays_finite(f, squared_error(f, a), squared_error(f, b));
    assert(zero.finite());
    assert(!d.nan()) by {
        reveal(rounds_in_order);
    }
    if zero.below(se2) {
        lemma_root_is_close(f, se2);
        let r = square_root(f, se2);
        let u = Double::unit();
        assert(r.value() > 0) by {
            let s = se2.value();
            let k = EXACT_COUNTS as int;
            if r.value() == 0 {
                assert(false) by (nonlinear_arith)
                    requires
                        r.value() == 0,
                        gap(r.value() * r.value(), s * u) * k <= 3 * (s * u),
                        k == 0x20_0000_0000_0000,
                        s > 0,
                        u > 0,
                ;
            }
        }
        lemma_quotient_is_a_number(f, d, r);
    } else {
        let top = Double { bits: INFINITY };
        let bottom = Double { bits: NEGATIVE_INFINITY };
        assert(top.fraction() == 0 && bottom.fraction() == 0);
    }
}

/// What has two blocks has samples.
pub(crate) proof fn lemma_some_samples(samples: int, len: int)
    requires
        samples >= 0,
        len >= 1,
        samples / len >= 2,
    ensures
        samples >= 1,
{
    vstd::arithmetic::div_mod::lemma_div_basics(len);
}

/// A quotient by a positive number is a number.
proof fn lemma_quotient_is_a_number<A: Arithmetic>(f: &A, x: Double, d: Double)
    requires
        rounds_in_order(f),
        !x.nan(),
        d.finite(),
        d.value() > 0,
    ensures
        !quotient(f, x, d).nan(),
{
    reveal(rounds_in_order);
}

/// Exchanging the recordings of finite samples turns the sign of the difference
/// and of t, and leaves the degrees of freedom and the p-value. With equal block
/// means there is no sign to turn. The degrees of freedom are to be a number:
/// they are not where the squares of both standard errors underflow, and then
/// there is no distribution to take the p-value from.
pub proof fn law_exchange_turns_the_difference<F: Arithmetic + Rendering>(
    f: &F,
    baseline: &Recording,
    new: &Recording,
    config: &CompareConfig,
    there: CompareResult,
    back: CompareResult,
)
    requires
        deterministic(f),
        rounds_in_order(f),
        mirrors(f),
        call_ensures(compare::<F>, (f, baseline, new, config), Ok(there)),
        call_ensures(compare::<F>, (f, new, baseline, config), Ok(back)),
        all_finite(baseline.samples_ua@),
        all_finite(new.samples_ua@),
        baseline.samples_ua@.len() <= SUMMED_COUNTS,
        new.samples_ua@.len() <= SUMMED_COUNTS,
        !there.degrees_of_freedom.nan(),
    ensures
        opposite(there.mean_diff, back.mean_diff),
        back.degrees_of_freedom == there.degrees_of_freedom,
        back.p_value == there.p_value,
        ({
            let a = block_means_of(
                f,
                baseline.samples_ua@,
                block_len_of(f, baseline.meta.sps, config.block_secs),
            );
            let b = block_means_of(
                f,
                new.samples_ua@,
                block_len_of(f, new.meta.sps, config.block_secs),
            );
            difference(f, mean_of(f, b), mean_of(f, a)).value() != 0 ==> opposite(
                there.t_statistic,
                back.t_statistic,
            )
        }),
{
    let a = block_means_of(
        f,
        baseline.samples_ua@,
        block_len_of(f, baseline.meta.sps, config.block_secs),
    );
    let b = block_means_of(
        f,
        new.samples_ua@,
        block_len_of(f, new.meta.sps, config.block_secs),
    );
    assert(there@ == comparison(f, *baseline, *new, *config));
    assert(back@ == comparison(f, *new, *baseline, *config));
    assert(there@.welch == welch(f, a, b) && back@.welch == welch(f, b, a));
    assert(there@.welch == (there.t_statistic, there.degrees_of_freedom, there.p_value));
    assert(back@.welch == (back.t_statistic, back.degrees_of_freedom, back.p_value));
    let la = block_len_of(f, baseline.meta.sps, config.block_secs);
    let lb = block_len_of(f, new.meta.sps, config.block_secs);
    assert(comparison_refusal(f, *baseline, *new, *config) is None);
    lemma_some_samples(baseline.samples_ua@.len() as int, la);
    lemma_some_samples(new.samples_ua@.len() as int, lb);
    lemma_block_means_are_modest(f, baseline.samples_ua@, la);
    lemma_block_means_are_modest(f, new.samples_ua@, lb);
    lemma_statistic_is_a_number(f, a, b);
    lemma_welch_exchanged(f, a, b);
    let x = sample_mean(f, baseline.samples_ua@);
    let y = sample_mean(f, new.samples_ua@);
    lemma_sample_mean_is_close(f, baseline.samples_ua@);
    lemma_sample_mean_is_close(f, new.samples_ua@);
    assert(!difference(f, y, x).nan()) by {
        reveal(rounds_in_order);
    }
    assert(there@.mean_diff == difference(f, y, x) && back@.mean_diff == difference(f, x, y));
    lemma_difference_mirrors(f, y, x);
}

/// The differences of means that the bootstrap resamples.
pub open spec fn resampled_differences<A: Arithmetic>(
    f: &A,
    a: Seq<Double>,
    b: Seq<Double>,
    iters: u32,
    seed: u64,
) -> Seq<Double> {
    Seq::new(iters as nat, |i: int| resampled_difference(f, a, b, seed, i))
}

/// Finite numbers in ascending order rise.
pub(crate) proof fn lemma_ascending_rises(xs: Seq<Double>)
    requires
        forall|i: int| 0 <= i < xs.len() ==> (#[trigger] xs[i]).finite(),
    ensures
        rising(ascending_doubles(xs)),
        ascending_doubles(xs).len() == xs.len(),
{
    let sorted = ascending_doubles(xs);
    lemma_ascending_doubles(xs);
    assert forall|i: int| 0 <= i < sorted.len() implies (#[trigger] sorted[i]).finite() by {
        assert(xs.contains(sorted[i]));
    }
    assert forall|i: int, j: int| 0 <= i <= j < sorted.len() implies (#[trigger] sorted[i]).value()
        <= (#[trigger] sorted[j]).value() by {
        assert(sorted[i].finite() && sorted[j].finite());
        lemma_rank_orders_doubles(sorted[i], sorted[j]);
    }
}

/// The half of what a confidence level leaves is a weight of at most one half,
/// and no larger for a higher level.
pub(crate) proof fn lemma_tails<A: Arithmetic>(f: &A, c: Double, d: Double)
    requires
        rounds_in_order(f),
        (Double { bits: HALF }).below(c),
        c.value() <= d.value(),
        d.below(Double { bits: ONE }),
    ensures
        ({
            let one = Double { bits: ONE };
            let two = Double { bits: TWO };
            let t = quotient(f, difference(f, one, c), two);
            let s = quotient(f, difference(f, one, d), two);
            &&& is_weight(s) && is_weight(t)
            &&& is_weight(difference(f, one, s)) && is_weight(difference(f, one, t))
            &&& s.value() <= t.value() <= difference(f, one, t).value()
            &&& difference(f, one, t).value() <= difference(f, one, s).value()
        }),
{
    lemma_named_numbers();
    lemma_pow2_pos(1074);
    let zero = Double { bits: ZERO };
    let half = Double { bits: HALF };
    let one = Double { bits: ONE };
    let two = Double { bits: TWO };
    let u = Double::unit();
    assert(zero.finite() && half.finite() && one.finite() && two.finite());
    lemma_between_is_finite(half, c, one);
    lemma_between_is_finite(half, d, one);
    lemma_other_weight(f, c);
    lemma_other_weight(f, d);
    let x = difference(f, one, c);
    let y = difference(f, one, d);
    let t = quotient(f, x, two);
    let s = quotient(f, y, two);
    reveal(rounds_in_order);
    assert(y.value() <= x.value());
    assert(quotient(f, zero, two).value() == 0) by {
        assert(zero.value() * u == zero.value() * two.value()) by (nonlinear_arith)
            requires
                zero.value() == 0,
        ;
        assert(zero.finite());
    }
    assert(quotient(f, one, two).value() == half.value()) by {
        assert(one.value() * u == half.value() * two.value()) by (nonlinear_arith)
            requires
                one.value() == u,
                two.value() == 2 * u,
                2 * half.value() == u,
        ;
    }
    assert(zero.value() * two.value() <= y.value() * two.value() && y.value() * two.value()
        <= x.value() * two.value() && x.value() * two.value() <= one.value() * two.value())
        by (nonlinear_arith)
        requires
            zero.value() <= y.value() <= x.value() <= one.value(),
            two.value() >= 0,
    ;
    assert(0 <= s.value() <= t.value() <= half.value());
    lemma_between_is_finite(zero, s, half);
    lemma_between_is_finite(zero, t, half);
    lemma_other_weight(f, s);
    lemma_other_weight(f, t);
    assert(difference(f, one, half).value() == half.value());
}

/// Between a single number and itself there is nothing to round.
pub(crate) proof fn lemma_single_number<A: Arithmetic>(f: &A, xs: Seq<Double>, rank: Double)
    requires
        rounds_in_order(f),
        xs.len() == 1,
        xs[0].finite(),
        rank.finite(),
        rank.value() == 0,
    ensures
        between_ranks(f, xs, rank).value() == xs[0].value(),
{
    lemma_named_numbers();
    assert(0 <= counted(f, 0).value()) by {
        lemma_count_is_exact(f, 0);
    }
    lemma_rank_parts(f, rank, 1);
    lemma_mix_at_zero(f, xs[0], xs[0], difference(f, rank, counted(f, 0)));
}

/// But for rounding, a higher confidence level encloses the interval of a lower
/// one, and both lie within the differences that were resampled; a single
/// resample leaves no width. Interpolating is not to overflow.
pub proof fn law_higher_confidence_encloses<A: Arithmetic>(
    f: &A,
    a: Seq<Double>,
    b: Seq<Double>,
    iters: u32,
    lower: Double,
    higher: Double,
    seed: u64,
)
    requires
        rounds_in_order(f),
        iters >= 1,
        (Double { bits: HALF }).below(lower),
        lower.value() <= higher.value(),
        higher.below(Double { bits: ONE }),
        forall|i: int|
            0 <= i < iters ==> (#[trigger] resampled_differences(f, a, b, iters, seed)[i]).finite(),
        bootstrap_interval(f, a, b, iters, lower, seed).0.finite(),
        bootstrap_interval(f, a, b, iters, lower, seed).1.finite(),
        bootstrap_interval(f, a, b, iters, higher, seed).0.finite(),
        bootstrap_interval(f, a, b, iters, higher, seed).1.finite(),
    ensures
        ({
            let narrow = bootstrap_interval(f, a, b, iters, lower, seed);
            let wide = bootstrap_interval(f, a, b, iters, higher, seed);
            let sorted = ascending_doubles(resampled_differences(f, a, b, iters, seed));
            let scale = larger_size(sorted[0], sorted.last());
            &&& at_most_nearly(sorted[0], wide.0, scale)
            &&& at_most_nearly(wide.0, narrow.0, scale)
            &&& at_most_nearly(narrow.0, narrow.1, scale)
            &&& at_most_nearly(narrow.1, wide.1, scale)
            &&& at_most_nearly(wide.1, sorted.last(), scale)
            &&& iters == 1 ==> wide.0.value() == wide.1.value()
        }),
{
    let diffs = resampled_differences(f, a, b, iters, seed);
    let sorted = ascending_doubles(diffs);
    let one = Double { bits: ONE };
    let two = Double { bits: TWO };
    let t = quotient(f, difference(f, one, lower), two);
    let s = quotient(f, difference(f, one, higher), two);
    let last = counted(f, iters - 1);
    assert(diffs =~= Seq::new(iters as nat, |i: int| resampled_difference(f, a, b, seed, i)));
    lemma_ascending_rises(diffs);
    lemma_tails(f, lower, higher);
    lemma_rank_of_share(f, iters as int, s, t);
    lemma_rank_of_share(f, iters as int, t, difference(f, one, t));
    lemma_rank_of_share(f, iters as int, difference(f, one, t), difference(f, one, s));
    lemma_numbers_grow_with_rank(f, sorted, product(f, s, last), product(f, t, last));
    lemma_numbers_grow_with_rank(
        f,
        sorted,
        product(f, t, last),
        product(f, difference(f, one, t), last),
    );
    lemma_numbers_grow_with_rank(
        f,
        sorted,
        product(f, difference(f, one, t), last),
        product(f, difference(f, one, s), last),
    );
    if iters == 1 {
        lemma_count_is_exact(f, 0);
        lemma_rank_of_share(f, 1, s, s);
        assert(sorted[0].finite());
        lemma_single_number(f, sorted, product(f, s, last));
        lemma_single_number(f, sorted, product(f, difference(f, one, s), last));
    }
}

/// The mean of a resample lies between the lowest and the highest number, but
/// for the rounding of a mean.
proof fn lemma_resampled_mean_between<A: Arithmetic>(f: &A, xs: Seq<Double>, state: u64)
    requires
        rounds_in_order(f),
        1 <= xs.len() <= EXACT_COUNTS,
        forall|i: int| 0 <= i < xs.len() ==> (#[trigger] xs[i]).finite(),
        adds_up(f, least_of(xs), xs.len()),
        adds_up(f, greatest_of(xs), xs.len()),
    ensures
        ({
            let mean = resampled_mean(f, xs, state);
            let low = repeated_mean(f, least_of(xs), xs.len());
            let high = repeated_mean(f, greatest_of(xs), xs.len());
            &&& mean.finite() && low.finite() && high.finite()
            &&& low.value() <= mean.value() <= high.value()
        }),
{
    let ys = picks(xs, state);
    let low = least_of(xs);
    let high = greatest_of(xs);
    let zero = Double { bits: ZERO };
    lemma_least_of(xs);
    lemma_greatest_of(xs);
    law_resample_draws_from_blocks(xs, state);
    assert forall|i: int| 0 <= i < ys.len() implies (#[trigger] ys[i]).finite() && low.value()
        <= ys[i].value() <= high.value() by {
        assert(xs.contains(ys[i]));
        let j = choose|j: int| 0 <= j < xs.len() && xs[j] == ys[i];
        assert(xs[j].finite());
    }
    lemma_total_between(f, ys, low, high);
    let n = xs.len() as int;
    lemma_divided(f, total(f, zero, copies(low, xs.len())), total(f, zero, ys), n);
    lemma_divided(f, total(f, zero, ys), total(f, zero, copies(high, xs.len())), n);
}

/// Whether sums of the block means, and the differences of their extremes, do
/// not overflow.
pub open spec fn stays_finite<A: Arithmetic>(f: &A, a: Seq<Double>, b: Seq<Double>) -> bool {
    &&& forall|i: int| 0 <= i < a.len() ==> (#[trigger] a[i]).finite()
    &&& forall|i: int| 0 <= i < b.len() ==> (#[trigger] b[i]).finite()
    &&& adds_up(f, least_of(a), a.len()) && adds_up(f, greatest_of(a), a.len())
    &&& adds_up(f, least_of(b), b.len()) && adds_up(f, greatest_of(b), b.len())
    &&& lowest_difference(f, a, b).finite() && highest_difference(f, a, b).finite()
}

/// The lowest difference of means that a resample can have: that between as many
/// times the lowest of `b` and as many times the highest of `a`.
pub open spec fn lowest_difference<A: Arithmetic>(f: &A, a: Seq<Double>, b: Seq<Double>) -> Double {
    difference(
        f,
        repeated_mean(f, least_of(b), b.len()),
        repeated_mean(f, greatest_of(a), a.len()),
    )
}

/// The highest difference of means that a resample can have.
pub open spec fn highest_difference<A: Arithmetic>(f: &A, a: Seq<Double>, b: Seq<Double>) -> Double {
    difference(
        f,
        repeated_mean(f, greatest_of(b), b.len()),
        repeated_mean(f, least_of(a), a.len()),
    )
}

/// Every resampled difference of means is a possible one.
pub proof fn law_resampled_differences_are_possible<A: Arithmetic>(
    f: &A,
    a: Seq<Double>,
    b: Seq<Double>,
    iters: u32,
    seed: u64,
    i: int,
)
    requires
        rounds_in_order(f),
        1 <= a.len() <= EXACT_COUNTS,
        1 <= b.len() <= EXACT_COUNTS,
        stays_finite(f, a, b),
        0 <= i < iters,
    ensures
        ({
            let d = resampled_differences(f, a, b, iters, seed)[i];
            &&& d.finite()
            &&& lowest_difference(f, a, b).value() <= d.value()
            &&& d.value() <= highest_difference(f, a, b).value()
        }),
{
    let at = stepped_by(seed, (i * (a.len() + b.len())) as nat);
    lemma_resampled_mean_between(f, b, stepped_by(at, a.len()));
    lemma_resampled_mean_between(f, a, at);
    let d = resampled_difference(f, a, b, seed, i);
    assert(resampled_differences(f, a, b, iters, seed)[i] == d);
    reveal(rounds_in_order);
    lemma_between_is_finite(lowest_difference(f, a, b), d, highest_difference(f, a, b));
}

/// But for rounding, the interval lies within the possible differences of means,
/// from the lowest of `b` less the highest of `a` to the highest of `b` less the
/// lowest of `a`.
pub proof fn law_interval_lies_within_differences<A: Arithmetic>(
    f: &A,
    a: Seq<Double>,
    b: Seq<Double>,
    iters: u32,
    confidence: Double,
    seed: u64,
)
    requires
        rounds_in_order(f),
        1 <= a.len() <= EXACT_COUNTS,
        1 <= b.len() <= EXACT_COUNTS,
        stays_finite(f, a, b),
        iters >= 1,
        (Double { bits: HALF }).below(confidence),
        confidence.below(Double { bits: ONE }),
        bootstrap_interval(f, a, b, iters, confidence, seed).0.finite(),
        bootstrap_interval(f, a, b, iters, confidence, seed).1.finite(),
    ensures
        ({
            let (low, high) = bootstrap_interval(f, a, b, iters, confidence, seed);
            let lowest = lowest_difference(f, a, b);
            let highest = highest_difference(f, a, b);
            let scale = larger_size(lowest, highest);
            &&& at_most_nearly(lowest, low, scale)
            &&& at_most_nearly(low, high, scale)
            &&& at_most_nearly(high, highest, scale)
        }),
{
    let diffs = resampled_differences(f, a, b, iters, seed);
    let sorted = ascending_doubles(diffs);
    assert forall|i: int| 0 <= i < iters implies (#[trigger] diffs[i]).finite() by {
        law_resampled_differences_are_possible(f, a, b, iters, seed, i);
    }
    law_higher_confidence_encloses(f, a, b, iters, confidence, confidence, seed);
    lemma_ascending_doubles(diffs);
    assert(diffs.contains(sorted[0]) && diffs.contains(sorted[sorted.len() - 1]));
    let j = choose|j: int| 0 <= j < diffs.len() && diffs[j] == sorted[0];
    let k = choose|k: int| 0 <= k < diffs.len() && diffs[k] == sorted.last();
    law_resampled_differences_are_possible(f, a, b, iters, seed, j);
    law_resampled_differences_are_possible(f, a, b, iters, seed, k);
    assert(larger_size(sorted[0], sorted.last()) <= larger_size(
        lowest_difference(f, a, b),
        highest_difference(f, a, b),
    ));
}

/// Adding up a number of the size of a block mean does not overflow, nor does
/// the mean of so many of it.
proof fn lemma_repeats_stay_finite<A: Arithmetic>(f: &A, x: Double, n: nat)
    requires
        rounds_in_order(f),
        1 <= n <= SUMMED_COUNTS,
        x.finite(),
        size(x.value()) <= pow2(1204),
    ensures
        adds_up(f, x, n),
        repeated_mean(f, x, n).finite(),
        size(repeated_mean(f, x, n).value()) <= 2 * pow2(1204) + 1,
{
    lemma_named_numbers();
    let zero = Double { bits: ZERO };
    let m = pow2(1204) as int;
    assert(zero.finite());
    lemma_pow2_pos(1204);
    lemma_pow2_strictly_increases(1204, 1300);
    assert forall|k: nat| k <= n implies (#[trigger] total(f, zero, copies(x, k))).finite() by {
        lemma_modest_sums(k as int, m);
        lemma_bounded_totals(f, zero, copies(x, k), m);
    }
    lemma_mean_is_modest(f, zero, copies(x, n), m);
}

/// Differences of means of numbers of the size of block means are modest.
pub(crate) proof fn lemma_difference_is_modest<A: Arithmetic>(f: &A, x: Double, y: Double)
    requires
        rounds_in_order(f),
        x.finite(),
        y.finite(),
        size(x.value()) <= 2 * pow2(1204) + 1,
        size(y.value()) <= 2 * pow2(1204) + 1,
    ensures
        modest(difference(f, x, y)),
{
    let k = EXACT_COUNTS as int;
    lemma_pow2_pos(1204);
    lemma2_to64();
    lemma_pow2_adds(4, 1204);
    lemma_pow2_strictly_increases(1208, 1300);
    lemma_pow2_strictly_increases(1208, 1974);
    lemma_difference_stays_finite(f, x, y);
    lemma_difference_is_close(f, x, y);
    let d = difference(f, x, y).value();
    let e = x.value() - y.value();
    assert(gap(d, e) <= size(e)) by (nonlinear_arith)
        requires
            gap(d, e) * k <= size(e),
            k >= 1,
            size(e) >= 0,
    ;
}

/// Whether numbers are finite and of the size of block means of samples.
pub open spec fn sample_sized(xs: Seq<Double>) -> bool {
    forall|i: int|
        0 <= i < xs.len() ==> (#[trigger] xs[i]).finite() && size(xs[i].value()) <= pow2(1204)
}

/// The extremes of numbers are among them.
proof fn lemma_extremes_are_sized(xs: Seq<Double>)
    requires
        xs.len() >= 1,
        sample_sized(xs),
    ensures
        least_of(xs).finite(),
        greatest_of(xs).finite(),
        size(least_of(xs).value()) <= pow2(1204),
        size(greatest_of(xs).value()) <= pow2(1204),
{
    lemma_least_of(xs);
    lemma_greatest_of(xs);
    let i = choose|i: int| 0 <= i < xs.len() && xs[i] == least_of(xs);
    let j = choose|j: int| 0 <= j < xs.len() && xs[j] == greatest_of(xs);
    assert(xs[i].finite() && xs[j].finite());
}

/// Nothing overflows in the bootstrap of block means of finite samples: they add
/// up to finite sums, the possible differences are finite, and so are the ends
/// of the interval.
pub proof fn law_bootstrap_of_samples_is_finite<A: Arithmetic>(
    f: &A,
    baseline: Seq<Single>,
    new: Seq<Single>,
    baseline_len: int,
    new_len: int,
    iters: u32,
    confidence: Double,
    seed: u64,
)
    requires
        rounds_in_order(f),
        all_finite(baseline),
        all_finite(new),
        baseline.len() <= SUMMED_COUNTS,
        new.len() <= SUMMED_COUNTS,
        1 <= baseline_len <= baseline.len(),
        1 <= new_len <= new.len(),
        iters >= 1,
        (Double { bits: HALF }).below(confidence),
        confidence.below(Double { bits: ONE }),
    ensures
        ({
            let a = block_means_of(f, baseline, baseline_len);
            let b = block_means_of(f, new, new_len);
            let (low, high) = bootstrap_interval(f, a, b, iters, confidence, seed);
            &&& 1 <= a.len() <= SUMMED_COUNTS
            &&& 1 <= b.len() <= SUMMED_COUNTS
            &&& stays_finite(f, a, b)
            &&& low.finite()
            &&& high.finite()
        }),
{
    let a = block_means_of(f, baseline, baseline_len);
    let b = block_means_of(f, new, new_len);
    lemma_block_means_are_modest(f, baseline, baseline_len);
    lemma_block_means_are_modest(f, new, new_len);
    vstd::arithmetic::div_mod::lemma_div_non_zero(baseline.len() as int, baseline_len);
    vstd::arithmetic::div_mod::lemma_div_non_zero(new.len() as int, new_len);
    lemma_sized_stays_finite(f, a, b);
    lemma_interval_is_finite(f, a, b, iters, confidence, seed);
}

/// Sums and differences of numbers of the size of block means are finite.
pub(crate) proof fn lemma_sized_stays_finite<A: Arithmetic>(f: &A, a: Seq<Double>, b: Seq<Double>)
    requires
        rounds_in_order(f),
        1 <= a.len() <= SUMMED_COUNTS,
        1 <= b.len() <= SUMMED_COUNTS,
        sample_sized(a),
        sample_sized(b),
    ensures
        stays_finite(f, a, b),
        modest(lowest_difference(f, a, b)),
        modest(highest_difference(f, a, b)),
{
    lemma_extremes_are_sized(a);
    lemma_extremes_are_sized(b);
    lemma_repeats_stay_finite(f, least_of(a), a.len());
    lemma_repeats_stay_finite(f, greatest_of(a), a.len());
    lemma_repeats_stay_finite(f, least_of(b), b.len());
    lemma_repeats_stay_finite(f, greatest_of(b), b.len());
    lemma_difference_is_modest(
        f,
        repeated_mean(f, least_of(b), b.len()),
        repeated_mean(f, greatest_of(a), a.len()),
    );
    lemma_difference_is_modest(
        f,
        repeated_mean(f, greatest_of(b), b.len()),
        repeated_mean(f, least_of(a), a.len()),
    );
}

/// The ends of an interval of modest differences are finite.
pub(crate) proof fn lemma_interval_is_finite<A: Arithmetic>(
    f: &A,
    a: Seq<Double>,
    b: Seq<Double>,
    iters: u32,
    confidence: Double,
    seed: u64,
)
    requires
        rounds_in_order(f),
        1 <= a.len() <= SUMMED_COUNTS,
        1 <= b.len() <= SUMMED_COUNTS,
        stays_finite(f, a, b),
        modest(lowest_difference(f, a, b)),
        modest(highest_difference(f, a, b)),
        iters >= 1,
        (Double { bits: HALF }).below(confidence),
        confidence.below(Double { bits: ONE }),
    ensures
        bootstrap_interval(f, a, b, iters, confidence, seed).0.finite(),
        bootstrap_interval(f, a, b, iters, confidence, seed).1.finite(),
{
    let diffs = resampled_differences(f, a, b, iters, seed);
    let sorted = ascending_doubles(diffs);
    let one = Double { bits: ONE };
    let t = quotient(f, difference(f, one, confidence), Double { bits: TWO });
    let last = counted(f, iters - 1);
    assert(diffs =~= Seq::new(iters as nat, |i: int| resampled_difference(f, a, b, seed, i)));
    lemma_ascending_doubles(diffs);
    assert forall|i: int| 0 <= i < sorted.len() implies modest(#[trigger] sorted[i]) by {
        assert(diffs.contains(sorted[i]));
        let j = choose|j: int| 0 <= j < diffs.len() && diffs[j] == sorted[i];
        law_resampled_differences_are_possible(f, a, b, iters, seed, j);
    }
    lemma_tails(f, confidence, confidence);
    lemma_rank_of_share(f, iters as int, t, difference(f, one, t));
    lemma_number_at_rank_is_finite(f, sorted, product(f, t, last));
    lemma_number_at_rank_is_finite(f, sorted, product(f, difference(f, one, t), last));
}

/// The number at a rank between modest numbers is finite.
pub(crate) proof fn lemma_number_at_rank_is_finite<A: Arithmetic>(
    f: &A,
    xs: Seq<Double>,
    rank: Double,
)
    requires
        rounds_in_order(f),
        1 <= xs.len(),
        xs.len() - 1 <= usize::MAX,
        forall|i: int| 0 <= i < xs.len() ==> modest(#[trigger] xs[i]),
        rank.finite(),
        0 <= rank.value() <= counted(f, xs.len() - 1).value(),
    ensures
        between_ranks(f, xs, rank).finite(),
        size(between_ranks(f, xs, rank).value()) <= 4 * pow2(1300),
{
    lemma_pow2_pos(1300);
    lemma_rank_parts(f, rank, xs.len() as int);
    let lo = lower_rank(rank, xs.len() as int);
    let hi = upper_rank(rank, xs.len() as int);
    assert(modest(xs[lo]) && modest(xs[hi]));
    lemma_mix_stays_finite(f, xs[lo], xs[hi], difference(f, rank, counted(f, lo)));
}

} // verus!
