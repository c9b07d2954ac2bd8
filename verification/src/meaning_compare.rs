//! What a comparison says, told by exact numbers.

use vstd::arithmetic::power2::{lemma_pow2_pos, pow2};
use vstd::prelude::*;

use crate::accuracy::{
    all_finite, exact_total, lemma_count_is_exact, lemma_difference_is_close, lemma_mean_is_modest,
    lemma_product_is_close, lemma_product_stays_finite, lemma_quotient_is_close,
    lemma_root_is_close, lemma_square_bound, lemma_square_is_positive, lemma_sum_is_close,
    lemma_sum_stays_finite, lemma_variance_is_close, modest, square_bound, squares, SUMMED_COUNTS,
};
use crate::acquire::lemma_chunk_fits;
use crate::arithmetic::{
    all_widened, counted, deterministic, difference, product, quotient, square_root, sum,
    t_distribution, Arithmetic,
};
use crate::compare::{
    block_len_of, block_means, block_means_of, block_refusal, bootstrap_diff_ci, bootstrap_interval,
    compare, comparison, comparison_refusal, config_refusal, drawn, interp, is_significant,
    lemma_ascending_rises, lemma_block_means_are_modest, lemma_difference_is_modest,
    lemma_number_at_rank_is_finite, lemma_single_number, lemma_some_samples, lemma_steps_compose,
    lemma_tails, mean, mean_of, mixed, pct_of_baseline, percent_of, percentile_diffs, picks,
    resampled_difference, resampled_differences, resampled_mean, sample_sized, squared_error,
    stepped, stepped_by, welch, welch_t_test, CompareConfig, CompareResult,
};
use crate::error::Error;
use crate::format::Recording;
use crate::meaning::{
    amounts, arranged, bounded, climbing, is_mean, is_percentile, is_reported, is_variance,
    lemma_amounts, lemma_ascending_is_arranged, lemma_lies_at, lemma_mean_means,
    lemma_near_quotient, lemma_percentile_means, lemma_reach, lemma_reported, lemma_sample_reach,
    lemma_unit_is_large, lemma_variance_means, lies_at, near_product, near_quotient, near_root,
    near_sum, reach, values,
};
use crate::number::{
    lemma_between_is_finite, lemma_large_numbers, lemma_named_numbers, Double, Single, HALF,
    HUNDRED, INFINITY, LARGE, NAN, NEGATIVE_INFINITY, NEGATIVE_LARGE, NEGATIVE_ZERO, ONE, TWO, ZERO,
};
use crate::order::{ascending, ascending_doubles, lemma_ascending_doubles, lemma_mapped_multisets};
use crate::rendering::Rendering;
use crate::rounding::{
    divides_closely, gap, lemma_other_weight, lemma_quotient_stays_finite, lemma_rank_of_share,
    rising, rounds_in_order, size, EXACT_COUNTS,
};
use crate::stats::{sample_mean, variance_of, PERCENTILES};

verus! {

/// The number of states of the generator.
pub open spec fn period() -> int {
    0x1_0000_0000_0000_0000
}

/// What a product of 64-bit numbers wraps to.
proof fn lemma_wrapped_product(x: u64, y: u64)
    ensures
        x.wrapping_mul(y) as int == (x * y) % period(),
{
}

/// Multiplying by a number and by its inverse changes nothing.
proof fn lemma_product_undone(x: u64, c: u64, d: u64)
    requires
        (c * d) % period() == 1,
    ensures
        x.wrapping_mul(c).wrapping_mul(d) == x,
{
    let m = period();
    lemma_wrapped_product(x, c);
    lemma_wrapped_product(x.wrapping_mul(c), d);
    vstd::arithmetic::div_mod::lemma_mul_mod_noop_left(x * c, d as int, m);
    assert((x * c) * d == x * (c * d)) by (nonlinear_arith);
    vstd::arithmetic::div_mod::lemma_mul_mod_noop_right(x as int, c * d, m);
    vstd::arithmetic::div_mod::lemma_small_mod(x as nat, m as nat);
}

/// The state at which the generator gives `z`.
pub open spec fn unmixed(z: u64) -> u64 {
    let b = z ^ (z >> 31) ^ (z >> 62);
    let c = b.wrapping_mul(0x3196_42b2_d24d_8ec3);
    let a = c ^ (c >> 27) ^ (c >> 54);
    let d = a.wrapping_mul(0x96de_1b17_3f11_9089);
    d ^ (d >> 30) ^ (d >> 60)
}

/// Mixing is undone.
proof fn lemma_unmixed(z: u64)
    ensures
        mixed(unmixed(z)) == z,
{
    let b = z ^ (z >> 31) ^ (z >> 62);
    let c = b.wrapping_mul(0x3196_42b2_d24d_8ec3);
    let a = c ^ (c >> 27) ^ (c >> 54);
    let d = a.wrapping_mul(0x96de_1b17_3f11_9089);
    let s = d ^ (d >> 30) ^ (d >> 60);
    assert(s ^ (s >> 30) == d) by (bit_vector)
        requires
            s == d ^ (d >> 30) ^ (d >> 60),
    ;
    lemma_product_undone(a, 0x96de_1b17_3f11_9089, 0xbf58_476d_1ce4_e5b9);
    assert(a ^ (a >> 27) == c) by (bit_vector)
        requires
            a == c ^ (c >> 27) ^ (c >> 54),
    ;
    lemma_product_undone(b, 0x3196_42b2_d24d_8ec3, 0x94d0_49bb_1331_11eb);
    assert(b ^ (b >> 31) == z) by (bit_vector)
        requires
            b == z ^ (z >> 31) ^ (z >> 62),
    ;
}

/// Where the generator is after so many steps.
proof fn lemma_stepped_by(state: u64, n: nat)
    ensures
        stepped_by(state, n) as int == (state + n * 0x9e37_79b9_7f4a_7c15) % period(),
    decreases n,
{
    let g = 0x9e37_79b9_7f4a_7c15int;
    let m = period();
    if n == 0 {
        vstd::arithmetic::div_mod::lemma_small_mod(state as nat, m as nat);
    } else {
        let k = (n - 1) as nat;
        lemma_stepped_by(state, k);
        let t = stepped_by(state, k);
        assert(stepped(t) as int == (t + g) % m);
        vstd::arithmetic::div_mod::lemma_add_mod_noop(state + k * g, g, m);
        vstd::arithmetic::div_mod::lemma_small_mod(g as nat, m as nat);
        assert(n * g == k * g + g) by (nonlinear_arith)
            requires
                k == n - 1,
        ;
    }
}

/// Every number can come next: whichever of the next calls is looked at, there
/// is a state from which it gives the number `z`.
pub proof fn law_every_number_can_be_drawn(z: u64, i: nat)
    ensures
        exists|state: u64| #[trigger] drawn(state, i as int) == z,
{
    let g = 0x9e37_79b9_7f4a_7c15int;
    let m = period();
    let t = unmixed(z) as int;
    let steps = (i + 1) * g;
    let state = ((t - steps) % m) as u64;
    lemma_unmixed(z);
    vstd::arithmetic::div_mod::lemma_mod_bound(t - steps, m);
    lemma_stepped_by(state, i + 1);
    vstd::arithmetic::div_mod::lemma_add_mod_noop(t - steps, steps, m);
    vstd::arithmetic::div_mod::lemma_add_mod_noop(state as int, steps, m);
    vstd::arithmetic::div_mod::lemma_small_mod(state as nat, m as nat);
    vstd::arithmetic::div_mod::lemma_small_mod(t as nat, m as nat);
    assert(drawn(state, i as int) == z);
}

/// Every block can be drawn: whichever draw of a resample is looked at, there is
/// a state of the generator from which it picks the number at `j`.
pub proof fn law_every_block_can_be_drawn(xs: Seq<Double>, i: nat, j: int)
    requires
        xs.len() <= u64::MAX,
        i < xs.len(),
        0 <= j < xs.len(),
    ensures
        exists|state: u64| #[trigger] picks(xs, state)[i as int] == xs[j],
{
    law_every_number_can_be_drawn(j as u64, i);
    let state = choose|state: u64| #[trigger] drawn(state, i as int) == j as u64;
    vstd::arithmetic::div_mod::lemma_small_mod(j as nat, xs.len());
    assert(picks(xs, state)[i as int] == xs[j]);
}

/// Values of numbers of the size of block means.
proof fn lemma_sized_reach(xs: Seq<Double>)
    requires
        sample_sized(xs),
    ensures
        bounded(values(xs), reach(values(xs))),
        0 <= reach(values(xs)) <= pow2(1204),
        pow2(1204) <= pow2(1300),
{
    lemma_pow2_pos(1204);
    vstd::arithmetic::power2::lemma_pow2_strictly_increases(1204, 1300);
    assert forall|i: int| 0 <= i < xs.len() implies size(#[trigger] values(xs)[i]) <= pow2(
        1204,
    ) by {
        assert(xs[i].finite());
    }
    lemma_reach(values(xs), pow2(1204) as int);
}

/// A resample of `n` numbers is the mean of `n` draws, each of which picks the
/// number at the remainder of the draw by `n`.
pub proof fn law_resample_is_a_mean_of_draws<A: Arithmetic>(f: &A, xs: Seq<Double>, state: u64)
    requires
        rounds_in_order(f),
        1 <= xs.len() <= SUMMED_COUNTS,
        sample_sized(xs),
    ensures
        is_mean(
            resampled_mean(f, xs, state),
            Seq::new(xs.len(), |k: int| xs[drawn(state, k) as int % xs.len() as int].value()),
            reach(values(xs)),
        ),
{
    lemma_resample_means(f, xs, state);
}

/// What a resample is, and that it is finite.
proof fn lemma_resample_means<A: Arithmetic>(f: &A, xs: Seq<Double>, state: u64)
    requires
        rounds_in_order(f),
        1 <= xs.len() <= SUMMED_COUNTS,
        sample_sized(xs),
    ensures
        resampled_mean(f, xs, state).finite(),
        size(resampled_mean(f, xs, state).value()) <= 2 * pow2(1204) + 1,
        is_mean(
            resampled_mean(f, xs, state),
            Seq::new(xs.len(), |k: int| xs[drawn(state, k) as int % xs.len() as int].value()),
            reach(values(xs)),
        ),
{
    let n = xs.len() as int;
    let m = reach(values(xs));
    let zero = Double { bits: ZERO };
    let ys = picks(xs, state);
    let zs = Seq::new(xs.len(), |k: int| xs[drawn(state, k) as int % n].value());
    lemma_named_numbers();
    assert(zero.finite());
    lemma_sized_reach(xs);
    assert forall|k: int| 0 <= k < ys.len() implies (#[trigger] ys[k]).finite() && size(
        values(ys)[k],
    ) <= m by {
        let at = drawn(state, k) as int % n;
        vstd::arithmetic::div_mod::lemma_mod_bound(drawn(state, k) as int, n);
        assert(ys[k] == xs[at]);
        assert(xs[at].finite());
        assert(size(values(xs)[at]) <= m);
    }
    assert(bounded(values(ys), m)) by {
        assert forall|k: int| 0 <= k < values(ys).len() implies size(#[trigger] values(ys)[k])
            <= m by {
            assert(ys[k].finite());
        }
    }
    assert(values(ys) =~= zs);
    lemma_mean_means(f, zero, ys, m);
}

/// The numbers that as many draws as there are numbers in `xs` pick, from the draw
/// `at` on: each that at the remainder of the draw by their number.
pub open spec fn drawn_from(xs: Seq<Double>, seed: u64, at: int) -> Seq<int> {
    Seq::new(xs.len(), |k: int| xs[drawn(seed, at + k) as int % xs.len() as int].value())
}

/// A draw picks the number at its remainder, whatever its quotient.
pub proof fn law_draw_picks_its_remainder(
    xs: Seq<Double>,
    seed: u64,
    at: int,
    k: int,
    q: int,
    j: int,
)
    requires
        0 <= k < xs.len(),
        0 <= j < xs.len(),
        drawn(seed, at + k) == q * xs.len() + j,
    ensures
        drawn_from(xs, seed, at)[k] == xs[j].value(),
        at == 0 ==> picks(xs, seed)[k] == xs[j],
{
    let n = xs.len() as int;
    assert(q * n == n * q) by (nonlinear_arith);
    vstd::arithmetic::div_mod::lemma_fundamental_div_mod_converse(q * n + j, n, q, j);
}

/// Whether `d` is, but for rounding, the difference of means in the resample `i`:
/// the mean of as many draws from `b` as it has numbers, less that of as many
/// from `a`, where a draw picks by its remainder. The draws of a resample follow
/// each other, those from `a` first, and resamples follow each other.
pub open spec fn is_resampled(
    d: Double,
    a: Seq<Double>,
    b: Seq<Double>,
    seed: u64,
    i: int,
) -> bool {
    let na = a.len() as int;
    let nb = b.len() as int;
    let at = i * (na + nb);
    exists|ma: Double, mb: Double|
        {
            &&& #[trigger] is_mean(ma, drawn_from(a, seed, at), reach(values(a)))
            &&& #[trigger] is_mean(mb, drawn_from(b, seed, at + na), reach(values(b)))
            &&& near_sum(d, mb.value(), -ma.value())
        }
}

/// Whether `ci` is, but for rounding, the interval of the resampled differences
/// that leaves half of what the confidence `c` leaves on either side: its ends
/// lie, in ascending order, at the shares `(1 - c) / 2` and `(1 + c) / 2` of the
/// last rank.
pub open spec fn is_interval(
    ci: (Double, Double),
    a: Seq<Double>,
    b: Seq<Double>,
    iters: u32,
    c: Double,
    seed: u64,
) -> bool {
    exists|diffs: Seq<Double>, t: Seq<int>|
        {
            &&& diffs.len() == iters
            &&& forall|i: int|
                0 <= i < iters ==> is_resampled(#[trigger] diffs[i], a, b, seed, i)
            &&& #[trigger] arranged(t, values(diffs))
            &&& lies_at(
                ci.0.value(),
                t,
                (Double::unit() - c.value()) * (iters - 1),
                2,
                reach(values(diffs)),
            )
            &&& lies_at(
                ci.1.value(),
                t,
                (Double::unit() + c.value()) * (iters - 1),
                2,
                reach(values(diffs)),
            )
        }
}

/// Draws from a later state are later draws.
proof fn lemma_later_draws(seed: u64, n: nat, k: int)
    requires
        0 <= k,
    ensures
        drawn(stepped_by(seed, n), k) == drawn(seed, n + k),
{
    lemma_steps_compose(seed, n, (k + 1) as nat);
}

/// The difference that the library computes is one.
proof fn lemma_resampled_means<A: Arithmetic>(
    f: &A,
    a: Seq<Double>,
    b: Seq<Double>,
    seed: u64,
    i: int,
)
    requires
        rounds_in_order(f),
        1 <= a.len() <= SUMMED_COUNTS,
        1 <= b.len() <= SUMMED_COUNTS,
        sample_sized(a),
        sample_sized(b),
        0 <= i,
    ensures
        modest(resampled_difference(f, a, b, seed, i)),
        is_resampled(resampled_difference(f, a, b, seed, i), a, b, seed, i),
{
    let na = a.len() as int;
    let nb = b.len() as int;
    let at = i * (na + nb);
    assert(at >= 0) by (nonlinear_arith)
        requires
            at == i * (na + nb),
            i >= 0,
            na >= 0,
            nb >= 0,
    ;
    let s = stepped_by(seed, at as nat);
    let t = stepped_by(s, a.len());
    let ma = resampled_mean(f, a, s);
    let mb = resampled_mean(f, b, t);
    lemma_resample_means(f, a, s);
    lemma_resample_means(f, b, t);
    assert(Seq::new(a.len(), |k: int| a[drawn(s, k) as int % na].value()) =~= drawn_from(
        a,
        seed,
        at,
    )) by {
        assert forall|k: int| 0 <= k < na implies drawn(s, k) == drawn(seed, at + k) by {
            lemma_later_draws(seed, at as nat, k);
        }
    }
    assert(Seq::new(b.len(), |k: int| b[drawn(t, k) as int % nb].value()) =~= drawn_from(
        b,
        seed,
        at + na,
    )) by {
        lemma_steps_compose(seed, at as nat, a.len());
        assert forall|k: int| 0 <= k < nb implies drawn(t, k) == drawn(seed, at + na + k) by {
            lemma_later_draws(seed, (at + na) as nat, k);
        }
    }
    lemma_difference_is_modest(f, mb, ma);
    lemma_difference_is_close(f, mb, ma);
    assert(near_sum(resampled_difference(f, a, b, seed, i), mb.value(), -ma.value()));
}

/// How far a rank, the share `t` of the last rank, is from the exact one.
proof fn lemma_share_rank_error(t: int, r: int, n: int, u: int, k: int)
    requires
        n >= 1,
        k > 0,
        u > 0,
        0 <= t <= u,
        gap(r * u, t * ((n - 1) * u)) * k <= t * ((n - 1) * u) + k * u,
    ensures
        gap(r, t * (n - 1)) * k <= u * (n - 1) + k,
{
    let c = n - 1;
    let s = t * c;
    assert(t * (c * u) == s * u) by (nonlinear_arith)
        requires
            s == t * c,
    ;
    let g = gap(r, s);
    assert(gap(r * u, s * u) == g * u) by (nonlinear_arith)
        requires
            g == gap(r, s),
            u > 0,
    ;
    assert(g * k <= s + k) by (nonlinear_arith)
        requires
            g * u * k <= s * u + k * u,
            u > 0,
    ;
    assert(s <= u * c) by (nonlinear_arith)
        requires
            s == t * c,
            0 <= t <= u,
            c >= 0,
    ;
}

/// How far half of what a confidence leaves is from the exact one.
proof fn lemma_tail_error(c: int, x: int, t: int, u: int, k: int)
    requires
        k > 0,
        u > 0,
        0 <= c <= u,
        0 <= x <= u,
        gap(x, u - c) * k <= u - c,
        gap(t * (2 * u), x * u) * k <= x * u + k * (2 * u),
    ensures
        gap(2 * t, u - c) * k <= 2 * u + 2 * k,
{
    let y = 2 * t;
    assert(t * (2 * u) == y * u) by (nonlinear_arith)
        requires
            y == 2 * t,
    ;
    let g = gap(y, x);
    assert(gap(y * u, x * u) == g * u) by (nonlinear_arith)
        requires
            g == gap(y, x),
            u > 0,
    ;
    assert(g * k <= x + 2 * k) by (nonlinear_arith)
        requires
            g * u * k <= x * u + k * (2 * u),
            u > 0,
    ;
    assert(gap(y, u - c) <= g + gap(x, u - c));
    assert(gap(y, u - c) * k <= g * k + gap(x, u - c) * k) by (nonlinear_arith)
        requires
            gap(y, u - c) <= g + gap(x, u - c),
            k > 0,
    ;
}

/// How far the rank of an end is from the exact one: `2 t` is near `e`, and `r`
/// near `t` times the last rank.
proof fn lemma_end_rank_error(e: int, t: int, r: int, n: int, u: int, k: int)
    requires
        n >= 1,
        k > 0,
        u >= 200 * k,
        gap(2 * t, e) * k <= 4 * u + 2 * k,
        gap(r, t * (n - 1)) * k <= u * (n - 1) + k,
        n == 1 ==> r == 0,
    ensures
        2 * gap(r * 2, e * (n - 1)) * k <= 7 * (n - 1) * (2 * u),
{
    let c = n - 1;
    let s = t * c;
    let y = 2 * t;
    assert(y * c == 2 * s) by (nonlinear_arith)
        requires
            y == 2 * t,
            s == t * c,
    ;
    let h = gap(y, e) * k;
    assert(gap(y * c, e * c) * k <= (4 * u + 2 * k) * c) by (nonlinear_arith)
        requires
            h == gap(y, e) * k,
            h <= 4 * u + 2 * k,
            c >= 0,
    {
        assert(gap(y * c, e * c) == gap(y, e) * c) by (nonlinear_arith)
            requires
                c >= 0,
        ;
        assert(gap(y, e) * c * k == h * c) by (nonlinear_arith)
            requires
                h == gap(y, e) * k,
        ;
        assert(h * c <= (4 * u + 2 * k) * c) by (nonlinear_arith)
            requires
                h <= 4 * u + 2 * k,
                c >= 0,
        ;
    }
    let x = gap(r * 2, e * c);
    assert(x <= 2 * gap(r, s) + gap(y * c, e * c));
    assert(x * k <= 2 * (gap(r, s) * k) + gap(y * c, e * c) * k) by (nonlinear_arith)
        requires
            x <= 2 * gap(r, s) + gap(y * c, e * c),
            k > 0,
    ;
    if c == 0 {
        assert(e * c == 0 && x == 0) by (nonlinear_arith)
            requires
                c == 0,
                r == 0,
                x == gap(r * 2, e * c),
        ;
        assert(2 * x * k == 0 && 7 * c * (2 * u) == 0) by (nonlinear_arith)
            requires
                x == 0,
                c == 0,
        ;
    } else {
        assert(2 * x * k <= 7 * c * (2 * u)) by (nonlinear_arith)
            requires
                x * k <= 2 * (u * c + k) + (4 * u + 2 * k) * c,
                c >= 1,
                u >= 200 * k,
                k > 0,
        ;
    }
}

/// The interval that the library computes is one.
pub(crate) proof fn lemma_interval_means<A: Arithmetic>(
    f: &A,
    a: Seq<Double>,
    b: Seq<Double>,
    iters: u32,
    c: Double,
    seed: u64,
)
    requires
        rounds_in_order(f),
        1 <= a.len() <= SUMMED_COUNTS,
        1 <= b.len() <= SUMMED_COUNTS,
        sample_sized(a),
        sample_sized(b),
        iters >= 1,
        (Double { bits: HALF }).below(c),
        c.below(Double { bits: ONE }),
    ensures
        is_interval(bootstrap_interval(f, a, b, iters, c, seed), a, b, iters, c, seed),
        bootstrap_interval(f, a, b, iters, c, seed).0.finite(),
        bootstrap_interval(f, a, b, iters, c, seed).1.finite(),
        size(bootstrap_interval(f, a, b, iters, c, seed).0.value()) <= 4 * pow2(1300),
        size(bootstrap_interval(f, a, b, iters, c, seed).1.value()) <= 4 * pow2(1300),
{
    let u = Double::unit();
    let k = EXACT_COUNTS as int;
    let n = iters as int;
    let half = Double { bits: HALF };
    let one = Double { bits: ONE };
    let two = Double { bits: TWO };
    let diffs = resampled_differences(f, a, b, iters, seed);
    let sorted = ascending_doubles(diffs);
    let m = reach(values(diffs));
    let ts = values(sorted);
    lemma_named_numbers();
    lemma_pow2_pos(1074);
    lemma_unit_is_large();
    assert(half.finite() && one.finite() && two.finite());
    lemma_between_is_finite(half, c, one);
    assert(diffs =~= Seq::new(iters as nat, |i: int| resampled_difference(f, a, b, seed, i)));
    assert forall|i: int| 0 <= i < iters implies modest(#[trigger] diffs[i]) && is_resampled(
        diffs[i],
        a,
        b,
        seed,
        i,
    ) by {
        lemma_resampled_means(f, a, b, seed, i);
    }
    lemma_ascending_rises(diffs);
    lemma_ascending_doubles(diffs);
    lemma_reach(values(diffs), 0);
    assert forall|i: int| 0 <= i < sorted.len() implies modest(#[trigger] sorted[i]) && size(
        ts[i],
    ) <= m by {
        assert(diffs.contains(sorted[i]));
        let j = choose|j: int| 0 <= j < diffs.len() && diffs[j] == sorted[i];
        assert(modest(diffs[j]));
        assert(values(diffs)[j] == ts[i]);
    }
    assert(bounded(ts, m)) by {
        assert forall|i: int| 0 <= i < ts.len() implies size(#[trigger] ts[i]) <= m by {
            assert(modest(sorted[i]));
        }
    }
    lemma_mapped_multisets(sorted, diffs, |x: Double| x.value());
    assert(climbing(ts)) by {
        assert forall|i: int, j: int| 0 <= i <= j < ts.len() implies #[trigger] ts[i]
            <= #[trigger] ts[j] by {
            assert(sorted[i].value() <= sorted[j].value());
        }
    }
    assert(arranged(ts, values(diffs)));
    let x = difference(f, one, c);
    let t = quotient(f, x, two);
    let s = difference(f, one, t);
    let last = counted(f, n - 1);
    let low = product(f, t, last);
    let high = product(f, s, last);
    lemma_tails(f, c, c);
    lemma_other_weight(f, c);
    lemma_difference_is_close(f, one, c);
    lemma_quotient_is_close(f, x, two);
    lemma_difference_is_close(f, one, t);
    lemma_count_is_exact(f, n - 1);
    lemma_rank_of_share(f, n, t, s);
    lemma_rank_of_share(f, n, t, t);
    lemma_rank_of_share(f, n, s, s);
    lemma_product_is_close(f, t, last);
    lemma_product_is_close(f, s, last);
    lemma_number_at_rank_is_finite(f, sorted, low);
    lemma_number_at_rank_is_finite(f, sorted, high);
    assert(t.value() * ((n - 1) * u) >= 0 && s.value() * ((n - 1) * u) >= 0 && x.value() * u >= 0)
        by (nonlinear_arith)
        requires
            t.value() >= 0,
            s.value() >= 0,
            x.value() >= 0,
            n >= 1,
            u > 0,
    ;
    lemma_share_rank_error(t.value(), low.value(), n, u, k);
    lemma_share_rank_error(s.value(), high.value(), n, u, k);
    lemma_tail_error(c.value(), x.value(), t.value(), u, k);
    let e = u - c.value();
    let g = u + c.value();
    lemma_upper_tail(c.value(), t.value(), s.value(), u, k);
    lemma_end_rank_error(e, t.value(), low.value(), n, u, k);
    lemma_end_rank_error(g, s.value(), high.value(), n, u, k);
    if n == 1 {
        assert(sorted[0].finite());
        lemma_single_number(f, sorted, low);
        lemma_single_number(f, sorted, high);
    }
    lemma_lies_at(f, sorted, low, e * (n - 1), 2, m);
    lemma_lies_at(f, sorted, high, g * (n - 1), 2, m);
}

/// How far the upper share is from the exact one.
proof fn lemma_upper_tail(c: int, t: int, s: int, u: int, k: int)
    requires
        k > 0,
        u > 0,
        0 <= t <= u,
        gap(2 * t, u - c) * k <= 2 * u + 2 * k,
        gap(s, u - t) * k <= u - t,
    ensures
        gap(2 * s, u + c) * k <= 4 * u + 2 * k,
{
    assert(gap(2 * s, u + c) <= 2 * gap(s, u - t) + gap(2 * t, u - c));
    assert(gap(2 * s, u + c) * k <= 2 * (gap(s, u - t) * k) + gap(2 * t, u - c) * k)
        by (nonlinear_arith)
        requires
            gap(2 * s, u + c) <= 2 * gap(s, u - t) + gap(2 * t, u - c),
            k > 0,
    ;
}

/// The bootstrap interval of block means is that of the resampled differences:
/// each of them the difference of the means of draws from all block means, and
/// the ends of the interval at the places in their ascending order that the
/// confidence tells.
pub proof fn law_interval_is_of_resampled_differences<A: Arithmetic>(
    f: &A,
    a: &[Double],
    b: &[Double],
    iters: u32,
    confidence: Double,
    seed: u64,
    r: (Double, Double),
)
    requires
        deterministic(f),
        rounds_in_order(f),
        1 <= a@.len() <= SUMMED_COUNTS,
        1 <= b@.len() <= SUMMED_COUNTS,
        sample_sized(a@),
        sample_sized(b@),
        iters >= 1,
        (Double { bits: HALF }).below(confidence),
        confidence.below(Double { bits: ONE }),
        call_ensures(bootstrap_diff_ci::<A>, (f, a, b, iters, confidence, seed), r),
    ensures
        is_interval(r, a@, b@, iters, confidence, seed),
{
    lemma_interval_means(f, a@, b@, iters, confidence, seed);
}

/// What goes into a test of two groups.
pub struct TestParts {
    /// The means.
    pub means: (Double, Double),
    /// The sample variances.
    pub variances: (Double, Double),
    /// The squared standard errors of the means.
    pub errors: (Double, Double),
    /// The squared standard error of the difference.
    pub error: Double,
    /// The difference of the means, the second less the first.
    pub difference: Double,
}

/// Whether `w` is what goes into a test of `a` against `b`: the mean and variance
/// of each, the variance over the number, and the sum and difference of both.
pub open spec fn are_test_parts(w: TestParts, a: Seq<Double>, b: Seq<Double>) -> bool {
    let u = Double::unit();
    &&& is_mean(w.means.0, values(a), reach(values(a)))
    &&& is_mean(w.means.1, values(b), reach(values(b)))
    &&& is_variance(w.variances.0, values(a), w.means.0, reach(values(a)))
    &&& is_variance(w.variances.1, values(b), w.means.1, reach(values(b)))
    &&& near_quotient(w.errors.0, w.variances.0.value(), a.len() * u)
    &&& near_quotient(w.errors.1, w.variances.1.value(), b.len() * u)
    &&& near_sum(w.error, w.errors.0.value(), w.errors.1.value())
    &&& near_sum(w.difference, w.means.1.value(), -w.means.0.value())
    &&& w.error.finite() && w.error.value() >= 0
}

/// Whether `t` is, but for rounding, a difference over the root of its squared
/// standard error.
pub open spec fn is_statistic(t: Double, difference: int, error: int) -> bool {
    exists|root: Double| #[trigger]
        near_root(root, error) && root.value() > 0 && near_quotient(t, difference, root.value())
}

/// Whether `v` is, but for rounding, the square of `e` over one less than `n`.
pub open spec fn is_freedom_part(v: Double, e: int, n: int) -> bool {
    exists|y: Double| #[trigger]
        near_product(y, e, e) && near_quotient(v, y.value(), (n - 1) * Double::unit())
}

/// Whether `dof` are, but for rounding, the degrees of freedom that Welch and
/// Satterthwaite give: the squared sum of the squared standard errors over the
/// sum of their squares, each over one less than its number.
pub open spec fn is_freedom(dof: Double, w: TestParts, na: int, nb: int) -> bool {
    exists|x: Double, y: Double, over: Double, under: Double|
        {
            &&& #[trigger] is_freedom_part(x, w.errors.0.value(), na)
            &&& #[trigger] is_freedom_part(y, w.errors.1.value(), nb)
            &&& #[trigger] near_sum(under, x.value(), y.value())
            &&& #[trigger] near_product(over, w.error.value(), w.error.value())
            &&& under.value() >= 0
            &&& under.value() > 0 && dof.finite() ==> near_quotient(
                dof,
                over.value(),
                under.value(),
            )
        }
}

/// Whether `p` is, but for rounding, twice what the probability `c` leaves of one,
/// held between zero and one.
pub open spec fn is_two_sided(p: Double, c: Double) -> bool {
    exists|tail: Double, y: Double|
        {
            &&& #[trigger] near_sum(tail, Double::unit(), -c.value())
            &&& #[trigger] near_product(y, 2 * Double::unit(), tail.value())
            &&& p.value() == if y.value() < 0 {
                0
            } else if y.value() > Double::unit() {
                Double::unit()
            } else {
                y.value()
            }
        }
}

/// Whether `(t, dof, p)` is what the test says of `a` against `b`. Where neither
/// group varies, t is infinite, with the sign of the difference, and p is one for
/// equal means and zero otherwise; else p is twice what Student's distribution
/// with `dof` degrees of freedom leaves beyond the size of t.
pub open spec fn is_test<A: Arithmetic>(
    f: &A,
    r: (Double, Double, Double),
    a: Seq<Double>,
    b: Seq<Double>,
) -> bool {
    exists|w: TestParts| #[trigger]
        are_test_parts(w, a, b) && if w.error.value() == 0 {
            &&& !r.0.finite() && !r.0.nan()
            &&& w.difference.value() > 0 ==> r.0.value() > 0
            &&& w.difference.value() < 0 ==> r.0.value() < 0
            &&& r.1.value() == (a.len() + b.len() - 2) * Double::unit()
            &&& r.2.value() == if w.means.0.value() == w.means.1.value() {
                Double::unit()
            } else {
                0
            }
        } else {
            let c = t_distribution(f, r.1, r.0.absolute());
            &&& r.0.finite() ==> is_statistic(r.0, w.difference.value(), w.error.value())
            &&& is_freedom(r.1, w, a.len() as int, b.len() as int)
            &&& c.finite() && 0 <= c.value() <= Double::unit() ==> is_two_sided(r.2, c)
        }
}

/// The group of one side of a test.
proof fn lemma_group_means<A: Arithmetic>(f: &A, xs: Seq<Double>)
    requires
        rounds_in_order(f),
        2 <= xs.len() <= SUMMED_COUNTS,
        sample_sized(xs),
    ensures
        ({
            let n = xs.len() as int;
            let mean = mean_of(f, xs);
            let v = variance_of(f, xs, mean);
            let e = squared_error(f, xs);
            let m = reach(values(xs));
            &&& mean.finite() && v.finite() && e.finite()
            &&& size(mean.value()) <= 2 * pow2(1204) + 1
            &&& is_mean(mean, values(xs), m)
            &&& is_variance(v, values(xs), mean, m)
            &&& near_quotient(e, v.value(), n * Double::unit())
            &&& 0 <= e.value() <= v.value() && v.value() <= pow2(1974)
        }),
{
    let n = xs.len() as int;
    let m = reach(values(xs));
    let u = Double::unit();
    let start = Double { bits: NEGATIVE_ZERO };
    let mean = mean_of(f, xs);
    assert(start.finite() && start.magnitude() == 0);
    lemma_pow2_pos(1074);
    lemma_sized_reach(xs);
    lemma_mean_means(f, start, xs, m);
    lemma_variance_means(f, xs, mean, m);
    lemma_count_is_exact(f, n);
    assert(n * u >= u) by (nonlinear_arith)
        requires
            n >= 1,
            u > 0,
    ;
    let v = variance_of(f, xs, mean);
    lemma_quotient_stays_finite(f, v, counted(f, n));
    lemma_near_quotient(f, v, counted(f, n));
}

/// The part of the degrees of freedom of one side, for errors that are far from
/// overflow.
proof fn lemma_freedom_part_means<A: Arithmetic>(f: &A, e: Double, n: int)
    requires
        rounds_in_order(f),
        e.finite(),
        0 <= e.value() <= pow2(1500),
        2 <= n <= SUMMED_COUNTS,
    ensures
        ({
            let v = quotient(
                f,
                product(f, e, e),
                difference(f, counted(f, n), Double { bits: ONE }),
            );
            &&& v.finite()
            &&& 0 <= v.value() <= pow2(1974)
            &&& is_freedom_part(v, e.value(), n)
        }),
{
    let u = Double::unit();
    let one = Double { bits: ONE };
    let y = product(f, e, e);
    let c = counted(f, n);
    let d = difference(f, c, one);
    lemma_named_numbers();
    lemma_pow2_pos(1074);
    assert(one.finite());
    lemma_square_fits(f, e);
    lemma_product_is_close(f, e, e);
    lemma_count_is_exact(f, n);
    lemma_count_is_exact(f, n - 1);
    assert(d.finite() && d.value() == (n - 1) * u) by {
        assert(n * u - u == (n - 1) * u) by (nonlinear_arith);
        reveal(rounds_in_order);
        assert(counted(f, n - 1).finite());
        assert(difference(f, c, one).value() == counted(f, n - 1).value());
        lemma_between_is_finite(counted(f, n - 1), d, counted(f, n - 1));
    }
    assert((n - 1) * u >= u) by (nonlinear_arith)
        requires
            n >= 2,
            u > 0,
    ;
    lemma_quotient_stays_finite(f, y, d);
    lemma_near_quotient(f, y, d);
    assert(near_product(y, e.value(), e.value()));
}

/// The square of a squared standard error is far from overflow.
proof fn lemma_square_fits<A: Arithmetic>(f: &A, e: Double)
    requires
        rounds_in_order(f),
        e.finite(),
        0 <= e.value() <= pow2(1500),
    ensures
        product(f, e, e).finite(),
        0 <= product(f, e, e).value() <= pow2(1974),
{
    let p = pow2(1500) as int;
    vstd::arithmetic::power2::lemma_pow2_adds(1500, 1500);
    vstd::arithmetic::power2::lemma_pow2_adds(1974, 1074);
    vstd::arithmetic::power2::lemma_pow2_strictly_increases(3000, 3048);
    assert(0 <= e.value() * e.value() && e.value() * e.value() <= p * p) by (nonlinear_arith)
        requires
            0 <= e.value() <= p,
    ;
    lemma_product_stays_finite(f, e, e);
    lemma_square_is_positive(f, e);
}

/// How large a variance can be: `v` is near `s` over `n - 1`, which is at most
/// `n b`.
proof fn lemma_variance_bound(v: int, s: int, b: int, n: int, k: int)
    requires
        n >= 2,
        2 * n + 2 <= k,
        b >= 0,
        0 <= s <= n * b,
        gap(v * (n - 1), s) * k <= (2 * n + 2) * (n * b) + k * (n - 1),
    ensures
        v <= 4 * b + 1,
{
    let c = n - 1;
    let a = n * b;
    let g = gap(v * c, s);
    assert(g <= a + c) by (nonlinear_arith)
        requires
            g * k <= (2 * n + 2) * a + k * c,
            2 * n + 2 <= k,
            a >= 0,
            k > 0,
    ;
    assert(v * c <= 2 * (n * b) + c);
    assert(v <= 4 * b + 1) by (nonlinear_arith)
        requires
            v * c <= 2 * (n * b) + c,
            n <= 2 * c,
            c >= 1,
            b >= 0,
    ;
}

/// The variance of numbers of the size of block means is far from overflow.
proof fn lemma_small_variance<A: Arithmetic>(f: &A, xs: Seq<Double>)
    requires
        rounds_in_order(f),
        2 <= xs.len() <= SUMMED_COUNTS,
        sample_sized(xs),
    ensures
        variance_of(f, xs, mean_of(f, xs)).value() <= pow2(1400),
{
    let n = xs.len() as int;
    let m = pow2(1204) as int;
    let w = 3 * m + 1;
    let u = Double::unit();
    let b = square_bound(w);
    let start = Double { bits: NEGATIVE_ZERO };
    assert(start.finite() && start.magnitude() == 0);
    lemma_pow2_pos(1204);
    lemma_pow2_pos(1074);
    vstd::arithmetic::power2::lemma_pow2_strictly_increases(1204, 1300);
    assert forall|i: int| 0 <= i < xs.len() implies (#[trigger] xs[i]).finite() && size(
        xs[i].value(),
    ) <= m by {
        assert(xs[i].finite());
    }
    lemma_mean_is_modest(f, start, xs, m);
    lemma_variance_is_close(f, xs, mean_of(f, xs), m);
    lemma_square_bound(m, n);
    lemma_variance_bound(
        variance_of(f, xs, mean_of(f, xs)).value(),
        exact_total(squares(f, xs, mean_of(f, xs))),
        b,
        n,
        EXACT_COUNTS as int,
    );
    let q = pow2(1206) as int;
    vstd::arithmetic::power2::lemma2_to64();
    vstd::arithmetic::power2::lemma_pow2_adds(2, 1204);
    vstd::arithmetic::power2::lemma_pow2_adds(1206, 1206);
    vstd::arithmetic::power2::lemma_pow2_adds(3, 2412);
    vstd::arithmetic::power2::lemma_pow2_adds(1341, 1074);
    assert(w <= q);
    assert(w * w <= q * q) by (nonlinear_arith)
        requires
            0 <= w <= q,
    ;
    let z = pow2(1341) as int;
    assert(b <= z + 1) by (nonlinear_arith)
        requires
            b * u <= z * u + u,
            u > 0,
    ;
    lemma_pow2_pos(1341);
    vstd::arithmetic::power2::lemma_pow2_adds(4, 1341);
    vstd::arithmetic::power2::lemma_pow2_strictly_increases(1345, 1400);
}

/// The test that the library computes is one.
pub(crate) proof fn lemma_test_means<A: Arithmetic>(f: &A, a: Seq<Double>, b: Seq<Double>)
    requires
        rounds_in_order(f),
        2 <= a.len() <= SUMMED_COUNTS,
        2 <= b.len() <= SUMMED_COUNTS,
        sample_sized(a),
        sample_sized(b),
    ensures
        is_test(f, welch(f, a, b), a, b),
{
    let u = Double::unit();
    let zero = Double { bits: ZERO };
    let one = Double { bits: ONE };
    let ma = mean_of(f, a);
    let mb = mean_of(f, b);
    let ea = squared_error(f, a);
    let eb = squared_error(f, b);
    let se = sum(f, ea, eb);
    let d = difference(f, mb, ma);
    let w = TestParts {
        means: (ma, mb),
        variances: (variance_of(f, a, ma), variance_of(f, b, mb)),
        errors: (ea, eb),
        error: se,
        difference: d,
    };
    lemma_named_numbers();
    lemma_pow2_pos(1074);
    assert(zero.finite() && one.finite());
    lemma_group_means(f, a);
    lemma_group_means(f, b);
    lemma_small_variance(f, a);
    lemma_small_variance(f, b);
    vstd::arithmetic::power2::lemma_pow2_strictly_increases(1400, 1974);
    vstd::arithmetic::power2::lemma_pow2_strictly_increases(1402, 1500);
    vstd::arithmetic::power2::lemma2_to64();
    vstd::arithmetic::power2::lemma_pow2_adds(2, 1400);
    lemma_sum_stays_finite(f, ea, eb);
    lemma_sum_is_close(f, ea, eb);
    lemma_difference_is_modest(f, mb, ma);
    lemma_difference_is_close(f, mb, ma);
    assert(0 <= se.value()) by {
        reveal(rounds_in_order);
        assert(sum(f, zero, zero).value() == zero.value());
        assert(sum(f, zero, zero).value() <= se.value());
    }
    assert(se.value() <= 2 * (ea.value() + eb.value())) by (nonlinear_arith)
        requires
            gap(se.value(), ea.value() + eb.value()) * EXACT_COUNTS <= size(
                ea.value() + eb.value(),
            ),
            ea.value() + eb.value() >= 0,
    ;
    assert(are_test_parts(w, a, b));
    if se.value() == 0 {
        lemma_constant_groups(f, a, b, d);
    } else {
        let r = welch(f, a, b);
        lemma_root_is_positive(f, se);
        let root = square_root(f, se);
        if r.0.finite() {
            lemma_near_quotient(f, d, root);
            assert(near_root(root, se.value()));
        }
        lemma_freedom_means(f, w, a.len() as int, b.len() as int);
        let c = t_distribution(f, r.1, r.0.absolute());
        if c.finite() && 0 <= c.value() <= u {
            lemma_two_sided_means(f, c);
        }
    }
}

/// The root of a positive number is positive.
proof fn lemma_root_is_positive<A: Arithmetic>(f: &A, x: Double)
    requires
        rounds_in_order(f),
        x.finite(),
        x.value() > 0,
    ensures
        square_root(f, x).finite(),
        square_root(f, x).value() > 0,
        near_root(square_root(f, x), x.value()),
{
    lemma_root_is_close(f, x);
    lemma_pow2_pos(1074);
    let r = square_root(f, x);
    let u = Double::unit();
    let s = x.value();
    let k = EXACT_COUNTS as int;
    if r.value() == 0 {
        assert(false) by (nonlinear_arith)
            requires
                r.value() == 0,
                gap(r.value() * r.value(), s * u) * k <= 3 * (s * u),
                k == 0x20_0000_0000_0000,
                s > 0,
                u > 0,
        ;
    }
}

/// What the test says of groups that do not vary.
proof fn lemma_constant_groups<A: Arithmetic>(f: &A, a: Seq<Double>, b: Seq<Double>, d: Double)
    requires
        rounds_in_order(f),
        2 <= a.len() <= SUMMED_COUNTS,
        2 <= b.len() <= SUMMED_COUNTS,
        mean_of(f, a).finite(),
        mean_of(f, b).finite(),
        d == difference(f, mean_of(f, b), mean_of(f, a)),
        d.finite(),
        sum(f, squared_error(f, a), squared_error(f, b)).finite(),
        sum(f, squared_error(f, a), squared_error(f, b)).value() == 0,
    ensures
        ({
            let r = welch(f, a, b);
            &&& !r.0.finite() && !r.0.nan()
            &&& d.value() > 0 ==> r.0.value() > 0
            &&& d.value() < 0 ==> r.0.value() < 0
            &&& r.1.value() == (a.len() + b.len() - 2) * Double::unit()
            &&& r.2.value() == if mean_of(f, a).value() == mean_of(f, b).value() {
                Double::unit()
            } else {
                0
            }
        }),
{
    let u = Double::unit();
    let na = a.len() as int;
    let nb = b.len() as int;
    let zero = Double { bits: ZERO };
    let two = Double { bits: TWO };
    let top = Double { bits: INFINITY };
    let bottom = Double { bits: NEGATIVE_INFINITY };
    lemma_named_numbers();
    lemma_pow2_pos(1074);
    lemma_pow2_pos(2046);
    assert(top.exponent() == 0x7ff && top.fraction() == 0);
    assert(bottom.exponent() == 0x7ff && bottom.fraction() == 0);
    assert(top.magnitude() > 0) by (nonlinear_arith)
        requires
            top.magnitude() == 0x10_0000_0000_0000 * pow2(2046),
            pow2(2046) > 0,
    ;
    assert(bottom.magnitude() == top.magnitude());
    let x = counted(f, na);
    let y = counted(f, nb);
    let s = sum(f, x, y);
    let e = counted(f, na + nb);
    let g = counted(f, na + nb - 2);
    lemma_count_is_exact(f, na);
    lemma_count_is_exact(f, nb);
    lemma_count_is_exact(f, na + nb);
    lemma_count_is_exact(f, na + nb - 2);
    assert(na * u + nb * u == (na + nb) * u) by (nonlinear_arith);
    assert((na + nb) * u - 2 * u == (na + nb - 2) * u) by (nonlinear_arith);
    assert(two.finite());
    reveal(rounds_in_order);
    assert(e.finite() && g.finite());
    assert(s.value() == e.value());
    lemma_between_is_finite(e, s, e);
    assert(difference(f, s, two).value() == g.value());
}

/// The degrees of freedom that the library computes are ones.
proof fn lemma_freedom_means<A: Arithmetic>(f: &A, w: TestParts, na: int, nb: int)
    requires
        rounds_in_order(f),
        2 <= na <= SUMMED_COUNTS,
        2 <= nb <= SUMMED_COUNTS,
        w.errors.0.finite(),
        w.errors.1.finite(),
        w.error.finite(),
        0 <= w.errors.0.value() <= pow2(1500),
        0 <= w.errors.1.value() <= pow2(1500),
        0 <= w.error.value() <= pow2(1500),
    ensures
        ({
            let one = Double { bits: ONE };
            let (ea, eb) = w.errors;
            let x = quotient(f, product(f, ea, ea), difference(f, counted(f, na), one));
            let y = quotient(f, product(f, eb, eb), difference(f, counted(f, nb), one));
            let dof = quotient(f, product(f, w.error, w.error), sum(f, x, y));
            is_freedom(dof, w, na, nb)
        }),
{
    let one = Double { bits: ONE };
    let zero = Double { bits: ZERO };
    let (ea, eb) = w.errors;
    let x = quotient(f, product(f, ea, ea), difference(f, counted(f, na), one));
    let y = quotient(f, product(f, eb, eb), difference(f, counted(f, nb), one));
    let under = sum(f, x, y);
    let over = product(f, w.error, w.error);
    let dof = quotient(f, over, under);
    lemma_freedom_part_means(f, ea, na);
    lemma_freedom_part_means(f, eb, nb);
    lemma_sum_stays_finite(f, x, y);
    lemma_sum_is_close(f, x, y);
    lemma_square_fits(f, w.error);
    lemma_product_is_close(f, w.error, w.error);
    lemma_named_numbers();
    assert(0 <= under.value()) by {
        reveal(rounds_in_order);
        assert(zero.finite());
        assert(sum(f, zero, zero).value() == zero.value());
        assert(sum(f, zero, zero).value() <= under.value());
    }
    if under.value() > 0 && dof.finite() {
        lemma_near_quotient(f, over, under);
    }
    assert(is_freedom_part(x, ea.value(), na) && is_freedom_part(y, eb.value(), nb));
    assert(near_sum(under, x.value(), y.value()));
    assert(near_product(over, w.error.value(), w.error.value()));
}

/// The two-sided p-value that the library computes is one.
proof fn lemma_two_sided_means<A: Arithmetic>(f: &A, c: Double)
    requires
        rounds_in_order(f),
        c.finite(),
        0 <= c.value() <= Double::unit(),
    ensures
        ({
            let tail = difference(f, Double { bits: ONE }, c);
            is_two_sided(product(f, Double { bits: TWO }, tail).unit_clamped(), c)
        }),
{
    let u = Double::unit();
    let zero = Double { bits: ZERO };
    let one = Double { bits: ONE };
    let two = Double { bits: TWO };
    let tail = difference(f, one, c);
    let y = product(f, two, tail);
    lemma_named_numbers();
    lemma_pow2_pos(1074);
    assert(zero.finite() && one.finite() && two.finite());
    lemma_other_weight(f, c);
    lemma_difference_is_close(f, one, c);
    vstd::arithmetic::power2::lemma_pow2_strictly_increases(1075, 1974);
    vstd::arithmetic::power2::lemma_pow2_unfold(1075);
    assert(0 <= two.value() * tail.value() && two.value() * tail.value() <= pow2(1974) * u)
        by (nonlinear_arith)
        requires
            two.value() == 2 * u,
            0 <= tail.value() <= u,
            2 * u <= pow2(1974),
            u > 0,
    ;
    lemma_product_stays_finite(f, two, tail);
    lemma_product_is_close(f, two, tail);
    assert(near_sum(tail, u, -c.value()));
    assert(near_product(y, 2 * u, tail.value()));
}

/// Welch's test compares the means of two groups by their variances.
pub proof fn law_test_compares_means<A: Arithmetic>(
    f: &A,
    a: &[Double],
    b: &[Double],
    r: (Double, Double, Double),
)
    requires
        deterministic(f),
        rounds_in_order(f),
        2 <= a@.len() <= SUMMED_COUNTS,
        2 <= b@.len() <= SUMMED_COUNTS,
        sample_sized(a@),
        sample_sized(b@),
        call_ensures(welch_t_test::<A>, (f, a, b), r),
    ensures
        is_test(f, r, a@, b@),
{
    lemma_test_means(f, a@, b@);
}

/// Whether `len` is the number of samples in a block of `block_secs`: the whole
/// number nearest to the rate times the length.
pub open spec fn is_block_len(len: int, sps: u32, block_secs: Double) -> bool {
    exists|x: Double| #[trigger]
        near_product(x, sps * Double::unit(), block_secs.value()) && 2 * gap(
            len * Double::unit(),
            x.value(),
        ) <= Double::unit()
}

/// Whether `blocks` are, but for rounding, the means of the full blocks of `len`
/// samples: the block `i` is all of the samples from `i len` on, up to the next.
pub open spec fn are_block_means(blocks: Seq<Double>, samples: Seq<Single>, len: int) -> bool {
    &&& len >= 1
    &&& blocks.len() * len <= samples.len() < (blocks.len() + 1) * len
    &&& forall|i: int|
        0 <= i < blocks.len() ==> is_mean(
            #[trigger] blocks[i],
            amounts(samples.subrange(i * len, i * len + len)),
            reach(amounts(samples.subrange(i * len, i * len + len))),
        )
}

/// Whether `v` is, but for rounding, `x` as a percentage of `base`.
pub open spec fn is_percentage(v: Double, x: Double, base: Double) -> bool {
    if base.value() == 0 {
        v.nan()
    } else {
        v.finite() ==> exists|y: Double| #[trigger]
            near_product(y, 100 * Double::unit(), x.value()) && near_quotient(
                v,
                y.value(),
                base.value(),
            )
    }
}

/// The percentage that the library computes is one.
proof fn lemma_percentage_means<A: Arithmetic>(f: &A, x: Double, base: Double)
    requires
        rounds_in_order(f),
        divides_closely(f),
        base.finite(),
        x.finite(),
        size(x.value()) <= 4 * pow2(1300),
    ensures
        is_percentage(percent_of(f, x, base), x, base),
{
    let u = Double::unit();
    let hundred = Double { bits: HUNDRED };
    let nan = Double { bits: NAN };
    lemma_named_numbers();
    lemma_pow2_pos(1074);
    assert(hundred.finite());
    assert(nan.exponent() == 0x7ff && nan.fraction() != 0);
    let y = product(f, hundred, x);
    vstd::arithmetic::power2::lemma2_to64();
    vstd::arithmetic::power2::lemma_pow2_adds(9, 1300);
    vstd::arithmetic::power2::lemma_pow2_strictly_increases(1309, 1974);
    assert(size(hundred.value() * x.value()) <= pow2(1974) * u) by (nonlinear_arith)
        requires
            hundred.value() == 100 * u,
            -4 * pow2(1300) <= x.value() <= 4 * pow2(1300),
            512 * pow2(1300) <= pow2(1974),
            u > 0,
    ;
    lemma_product_stays_finite(f, hundred, x);
    lemma_product_is_close(f, hundred, x);
    assert(near_product(y, 100 * u, x.value()));
    if base.value() != 0 && quotient(f, y, base).finite() {
        reveal(divides_closely);
    }
}

/// The block means that the library computes are ones.
proof fn lemma_block_means_mean<A: Arithmetic>(f: &A, samples: Seq<Single>, len: int)
    requires
        rounds_in_order(f),
        samples.len() <= SUMMED_COUNTS,
        all_finite(samples),
        len >= 1,
    ensures
        are_block_means(block_means_of(f, samples, len), samples, len),
{
    let blocks = block_means_of(f, samples, len);
    let n = samples.len() as int;
    let k = n / len;
    let start = Double { bits: NEGATIVE_ZERO };
    assert(start.finite() && start.magnitude() == 0);
    vstd::arithmetic::div_mod::lemma_fundamental_div_mod(n, len);
    assert(k * len <= n && n < (k + 1) * len && k >= 0) by (nonlinear_arith)
        requires
            n == len * k + n % len,
            0 <= n % len < len,
            n >= 0,
            len >= 1,
    ;
    assert forall|i: int| 0 <= i < blocks.len() implies is_mean(
        #[trigger] blocks[i],
        amounts(samples.subrange(i * len, i * len + len)),
        reach(amounts(samples.subrange(i * len, i * len + len))),
    ) by {
        lemma_chunk_fits(n, len, i);
        let part = samples.subrange(i * len, i * len + len);
        assert forall|j: int| 0 <= j < part.len() implies (#[trigger] part[j]).finite() by {
            assert(samples[i * len + j].finite());
        }
        lemma_sample_reach(f, part);
        lemma_amounts(f, part);
        lemma_mean_means(f, start, all_widened(f, part), reach(amounts(part)));
    }
}

/// The block length that the library computes is one.
proof fn lemma_block_len_means<A: Arithmetic>(f: &A, sps: u32, block_secs: Double)
    requires
        rounds_in_order(f),
        block_secs.finite(),
        1 <= block_len_of(f, sps, block_secs) <= SUMMED_COUNTS,
        SUMMED_COUNTS <= usize::MAX || block_len_of(f, sps, block_secs) < usize::MAX,
    ensures
        is_block_len(block_len_of(f, sps, block_secs), sps, block_secs),
{
    let u = Double::unit();
    let c = counted(f, sps as int);
    let x = product(f, c, block_secs);
    let len = block_len_of(f, sps, block_secs);
    let v = x.value();
    lemma_pow2_pos(1074);
    lemma_count_is_exact(f, sps as int);
    vstd::arithmetic::div_mod::lemma_fundamental_div_mod(2 * v + u, 2 * u);
    let q = (2 * v + u) / (2 * u);
    assert(q == len);
    assert(2 * gap(len * u, v) <= u && 0 <= 2 * v + u && v <= (len + 1) * u) by (nonlinear_arith)
        requires
            2 * v + u == (2 * u) * q + (2 * v + u) % (2 * u),
            0 <= (2 * v + u) % (2 * u) < 2 * u,
            q == len,
            len >= 1,
            u > 0,
    ;
    lemma_large_numbers();
    vstd::arithmetic::power2::lemma2_to64_rest();
    vstd::arithmetic::power2::lemma_pow2_adds(53, 1074);
    vstd::arithmetic::power2::lemma_pow2_strictly_increases(1127, 1974);
    assert((len + 1) * u <= 0x20_0000_0000_0000 * u && -u <= v) by (nonlinear_arith)
        requires
            1 <= len <= 0xf_ffff_ffff_ffff,
            0 <= 2 * v + u,
            u > 0,
    ;
    vstd::arithmetic::power2::lemma_pow2_strictly_increases(1074, 1974);
    lemma_between_is_finite(Double { bits: NEGATIVE_LARGE }, x, Double { bits: LARGE });
    lemma_product_is_close(f, c, block_secs);
    assert(near_product(x, sps * u, block_secs.value()));
}

/// What a comparison says, told by the samples: the mean of each recording and
/// their difference, also as a percentage of the baseline; for the means of full
/// blocks of each, how many there are, what the test says of them, and the
/// interval of their resampled differences, also as percentages; each reported
/// percentage with the percentiles of both recordings at it; and that the
/// difference is significant where p is below what the confidence leaves and the
/// interval excludes zero.
pub proof fn law_comparison_describes_the_recordings<F: Arithmetic + Rendering>(
    f: &F,
    baseline: &Recording,
    new: &Recording,
    config: &CompareConfig,
    r: CompareResult,
)
    requires
        deterministic(f),
        rounds_in_order(f),
        divides_closely(f),
        all_finite(baseline.samples_ua@),
        all_finite(new.samples_ua@),
        baseline.samples_ua@.len() <= SUMMED_COUNTS,
        new.samples_ua@.len() <= SUMMED_COUNTS,
        config.block_secs.finite(),
        config.bootstrap_iters >= 1,
        call_ensures(compare::<F>, (f, baseline, new, config), Ok(r)),
    ensures
        ({
            let s = baseline.samples_ua@;
            let t = new.samples_ua@;
            let zero = Double { bits: ZERO };
            &&& is_mean(r.mean_baseline, amounts(s), reach(amounts(s)))
            &&& is_mean(r.mean_new, amounts(t), reach(amounts(t)))
            &&& near_sum(r.mean_diff, r.mean_new.value(), -r.mean_baseline.value())
            &&& is_percentage(r.mean_diff_pct, r.mean_diff, r.mean_baseline)
            &&& is_percentage(r.diff_ci_pct.0, r.diff_ci.0, r.mean_baseline)
            &&& is_percentage(r.diff_ci_pct.1, r.diff_ci.1, r.mean_baseline)
            &&& exists|a: Seq<Double>, b: Seq<Double>, la: int, lb: int|
                {
                    &&& #[trigger] are_block_means(a, s, la)
                    &&& #[trigger] are_block_means(b, t, lb)
                    &&& is_block_len(la, baseline.meta.sps, config.block_secs)
                    &&& is_block_len(lb, new.meta.sps, config.block_secs)
                    &&& r.blocks_baseline == a.len() && r.blocks_new == b.len()
                    &&& a.len() >= 2 && b.len() >= 2
                    &&& is_test(f, (r.t_statistic, r.degrees_of_freedom, r.p_value), a, b)
                    &&& is_interval(
                        r.diff_ci,
                        a,
                        b,
                        config.bootstrap_iters,
                        config.confidence,
                        config.seed,
                    )
                }
            &&& r.percentiles@.len() == 8
            &&& forall|i: int|
                0 <= i < 8 ==> {
                    let row = #[trigger] r.percentiles@[i];
                    &&& is_reported(i, row.percentile)
                    &&& is_percentile(row.baseline, s, row.percentile, reach(amounts(s)))
                    &&& is_percentile(row.new, t, row.percentile, reach(amounts(t)))
                }
            &&& exists|alpha: Double| #[trigger]
                near_sum(alpha, Double::unit(), -config.confidence.value()) && (r.significant
                    <==> !r.p_value.nan() && r.p_value.value() < alpha.value() && (
                r.diff_ci.0.value() > 0 || r.diff_ci.1.value() < 0))
            &&& r.block_secs == config.block_secs && r.confidence == config.confidence
        }),
{
    let s = baseline.samples_ua@;
    let t = new.samples_ua@;
    let la = block_len_of(f, baseline.meta.sps, config.block_secs);
    let lb = block_len_of(f, new.meta.sps, config.block_secs);
    let a = block_means_of(f, s, la);
    let b = block_means_of(f, t, lb);
    let zero = Double { bits: ZERO };
    let half = Double { bits: HALF };
    let one = Double { bits: ONE };
    assert(s.len() == baseline.samples_ua.len() && t.len() == new.samples_ua.len());
    assert(comparison_refusal(f, *baseline, *new, *config) is None);
    assert(r@ == comparison(f, *baseline, *new, *config));
    assert(r@.welch == (r.t_statistic, r.degrees_of_freedom, r.p_value));
    lemma_named_numbers();
    assert(zero.finite() && half.finite() && one.finite());
    lemma_between_is_finite(half, config.confidence, one);
    lemma_some_samples(s.len() as int, la);
    lemma_some_samples(t.len() as int, lb);
    lemma_two_blocks(s.len() as int, la);
    lemma_two_blocks(t.len() as int, lb);
    lemma_recording_means(f, s);
    lemma_recording_means(f, t);
    lemma_difference_of_means(f, r.mean_new, r.mean_baseline);
    lemma_block_means_mean(f, s, la);
    lemma_block_means_mean(f, t, lb);
    lemma_block_len_means(f, baseline.meta.sps, config.block_secs);
    lemma_block_len_means(f, new.meta.sps, config.block_secs);
    lemma_block_means_are_modest(f, s, la);
    lemma_block_means_are_modest(f, t, lb);
    lemma_test_means(f, a, b);
    lemma_interval_means(f, a, b, config.bootstrap_iters, config.confidence, config.seed);
    lemma_pow2_pos(1300);
    lemma_percentage_means(f, r.mean_diff, r.mean_baseline);
    lemma_percentage_means(f, r.diff_ci.0, r.mean_baseline);
    lemma_percentage_means(f, r.diff_ci.1, r.mean_baseline);
    lemma_rows_mean(f, s, t);
    let alpha = difference(f, one, config.confidence);
    lemma_other_weight(f, config.confidence);
    lemma_difference_is_close(f, one, config.confidence);
    assert(near_sum(alpha, Double::unit(), -config.confidence.value()));
}

/// Two blocks of samples are no more than the samples.
proof fn lemma_two_blocks(samples: int, len: int)
    requires
        samples >= 0,
        len >= 1,
        samples / len >= 2,
    ensures
        len < samples,
{
    vstd::arithmetic::div_mod::lemma_fundamental_div_mod(samples, len);
    assert(len < samples) by (nonlinear_arith)
        requires
            samples == len * (samples / len) + samples % len,
            0 <= samples % len,
            samples / len >= 2,
            len >= 1,
    ;
}

/// The mean of a recording.
proof fn lemma_recording_means<A: Arithmetic>(f: &A, s: Seq<Single>)
    requires
        rounds_in_order(f),
        1 <= s.len() <= SUMMED_COUNTS,
        all_finite(s),
    ensures
        sample_mean(f, s).finite(),
        size(sample_mean(f, s).value()) <= 2 * pow2(1204) + 1,
        is_mean(sample_mean(f, s), amounts(s), reach(amounts(s))),
{
    let zero = Double { bits: ZERO };
    lemma_named_numbers();
    assert(zero.finite());
    lemma_sample_reach(f, s);
    lemma_amounts(f, s);
    vstd::arithmetic::power2::lemma_pow2_strictly_increases(1202, 1204);
    lemma_mean_means(f, zero, all_widened(f, s), reach(amounts(s)));
}

/// The difference of two means.
proof fn lemma_difference_of_means<A: Arithmetic>(f: &A, x: Double, y: Double)
    requires
        rounds_in_order(f),
        x.finite(),
        y.finite(),
        size(x.value()) <= 2 * pow2(1204) + 1,
        size(y.value()) <= 2 * pow2(1204) + 1,
    ensures
        modest(difference(f, x, y)),
        near_sum(difference(f, x, y), x.value(), -y.value()),
{
    lemma_difference_is_modest(f, x, y);
    lemma_difference_is_close(f, x, y);
}

/// The percentiles of two recordings side by side.
proof fn lemma_rows_mean<A: Arithmetic>(f: &A, s: Seq<Single>, t: Seq<Single>)
    requires
        rounds_in_order(f),
        1 <= s.len() <= SUMMED_COUNTS,
        1 <= t.len() <= SUMMED_COUNTS,
        s.len() <= usize::MAX,
        t.len() <= usize::MAX,
        all_finite(s),
        all_finite(t),
    ensures
        ({
            let rows = percentile_diffs(f, ascending(s), ascending(t));
            &&& rows.len() == 8
            &&& forall|i: int|
                0 <= i < 8 ==> {
                    let row = #[trigger] rows[i];
                    &&& is_reported(i, row.percentile)
                    &&& is_percentile(row.baseline, s, row.percentile, reach(amounts(s)))
                    &&& is_percentile(row.new, t, row.percentile, reach(amounts(t)))
                }
        }),
{
    let rows = percentile_diffs(f, ascending(s), ascending(t));
    lemma_sample_reach(f, s);
    lemma_sample_reach(f, t);
    lemma_ascending_is_arranged(s, reach(amounts(s)));
    lemma_ascending_is_arranged(t, reach(amounts(t)));
    assert forall|i: int| 0 <= i < 8 implies is_reported(i, (#[trigger] rows[i]).percentile)
        && is_percentile(rows[i].baseline, s, rows[i].percentile, reach(amounts(s)))
        && is_percentile(rows[i].new, t, rows[i].percentile, reach(amounts(t))) by {
        lemma_reported(i);
        let p = Double { bits: PERCENTILES@[i] };
        lemma_percentile_means(f, ascending(s), p, reach(amounts(s)));
        lemma_percentile_means(f, ascending(t), p, reach(amounts(t)));
        assert(arranged(amounts(ascending(s)), amounts(s)));
        assert(arranged(amounts(ascending(t)), amounts(t)));
    }
}

/// Whether samples are too few for two blocks of `block_secs`, but for rounding:
/// a block holds no sample, or two of them more than there are.
pub open spec fn are_too_few(samples: Seq<Single>, sps: u32, block_secs: Double) -> bool {
    let u = Double::unit();
    exists|x: Double| #[trigger]
        near_product(x, sps * u, block_secs.value()) && (2 * x.value() < u || samples.len() * u < 2
            * x.value() + u)
}

/// Where the library refuses to split samples, they are too few.
proof fn lemma_refused_samples<A: Arithmetic>(
    f: &A,
    samples: Seq<Single>,
    sps: u32,
    block_secs: Double,
)
    requires
        rounds_in_order(f),
        samples.len() <= usize::MAX,
        block_secs.finite(),
        0 <= block_secs.value() <= pow2(1300),
        block_refusal(f, samples, sps, block_secs) is Some,
    ensures
        are_too_few(samples, sps, block_secs),
{
    let u = Double::unit();
    let c = counted(f, sps as int);
    let x = product(f, c, block_secs);
    let v = x.value();
    let n = samples.len() as int;
    let len = block_len_of(f, sps, block_secs);
    lemma_pow2_pos(1074);
    lemma_pow2_pos(1300);
    lemma_count_is_exact(f, sps as int);
    vstd::arithmetic::power2::lemma2_to64();
    vstd::arithmetic::power2::lemma_pow2_adds(32, 1300);
    vstd::arithmetic::power2::lemma_pow2_strictly_increases(1332, 1974);
    assert(size(c.value() * block_secs.value()) <= pow2(1974) * u) by (nonlinear_arith)
        requires
            c.value() == sps * u,
            0 <= sps <= 0x1_0000_0000,
            0 <= block_secs.value() <= pow2(1300),
            0x1_0000_0000 * pow2(1300) <= pow2(1974),
            u > 0,
    ;
    lemma_product_stays_finite(f, c, block_secs);
    lemma_product_is_close(f, c, block_secs);
    assert(near_product(x, sps * u, block_secs.value()));
    let q = (2 * v + u) / (2 * u);
    vstd::arithmetic::div_mod::lemma_fundamental_div_mod(2 * v + u, 2 * u);
    if len == 0 {
        assert(2 * v < u) by (nonlinear_arith)
            requires
                2 * v + u == (2 * u) * q + (2 * v + u) % (2 * u),
                0 <= (2 * v + u) % (2 * u) < 2 * u,
                q <= 0,
                u > 0,
        ;
    } else {
        vstd::arithmetic::div_mod::lemma_fundamental_div_mod(n, len);
        let b = n / len;
        assert(n < 2 * len) by (nonlinear_arith)
            requires
                n == len * b + n % len,
                0 <= n % len < len,
                b < 2,
                len >= 1,
        ;
        assert(n * u < 2 * v + u) by (nonlinear_arith)
            requires
                2 * v + u == (2 * u) * q + (2 * v + u) % (2 * u),
                0 <= (2 * v + u) % (2 * u),
                n < 2 * len,
                len <= q,
                u > 0,
        ;
    }
}

/// Samples are split into the full blocks that they hold, two at least, with the
/// mean of each; they are refused only where they are too few for two.
pub proof fn law_block_means_are_of_full_blocks<F: Arithmetic + Rendering>(
    f: &F,
    samples: &[Single],
    sps: u32,
    config: &CompareConfig,
    r: Result<Vec<Double>, Error>,
)
    requires
        deterministic(f),
        rounds_in_order(f),
        samples@.len() <= SUMMED_COUNTS,
        samples@.len() <= usize::MAX,
        all_finite(samples@),
        config.block_secs.finite(),
        0 <= config.block_secs.value() <= pow2(1300),
        call_ensures(block_means::<F>, (f, samples, sps, config), r),
    ensures
        r matches Ok(means) ==> means@.len() >= 2 && exists|len: int| #[trigger]
            are_block_means(means@, samples@, len) && is_block_len(len, sps, config.block_secs),
        r is Err ==> are_too_few(samples@, sps, config.block_secs),
{
    let len = block_len_of(f, sps, config.block_secs);
    if r is Ok {
        lemma_two_blocks(samples@.len() as int, len);
        lemma_block_means_mean(f, samples@, len);
        lemma_block_len_means(f, sps, config.block_secs);
        assert(are_block_means(r->Ok_0@, samples@, len));
    } else {
        lemma_refused_samples(f, samples@, sps, config.block_secs);
    }
}

/// A comparison is refused where the confidence is not between one half and one
/// or the block length is not above zero; and else only where one of the
/// recordings is too short for two blocks.
pub proof fn law_comparison_is_refused_for_a_reason<F: Arithmetic + Rendering>(
    f: &F,
    baseline: &Recording,
    new: &Recording,
    config: &CompareConfig,
    r: Result<CompareResult, Error>,
)
    requires
        deterministic(f),
        rounds_in_order(f),
        config.block_secs.finite(),
        config.block_secs.value() <= pow2(1300),
        config.bootstrap_iters >= 1,
        call_ensures(compare::<F>, (f, baseline, new, config), r),
    ensures
        ({
            let c = config.confidence;
            let u = Double::unit();
            let fit = !c.nan() && 2 * c.value() > u && c.value() < u && config.block_secs.value()
                > 0;
            &&& !fit ==> r is Err
            &&& r is Err && fit ==> are_too_few(
                baseline.samples_ua@,
                baseline.meta.sps,
                config.block_secs,
            ) || are_too_few(new.samples_ua@, new.meta.sps, config.block_secs)
        }),
{
    let half = Double { bits: HALF };
    let one = Double { bits: ONE };
    let zero = Double { bits: ZERO };
    lemma_named_numbers();
    assert(half.finite() && one.finite() && zero.finite());
    assert(baseline.samples_ua@.len() == baseline.samples_ua.len());
    assert(new.samples_ua@.len() == new.samples_ua.len());
    if r is Err && config_refusal(*config) is None {
        if block_refusal(
            f,
            baseline.samples_ua@,
            baseline.meta.sps,
            config.block_secs,
        ) is Some {
            lemma_refused_samples(
                f,
                baseline.samples_ua@,
                baseline.meta.sps,
                config.block_secs,
            );
        } else {
            lemma_refused_samples(f, new.samples_ua@, new.meta.sps, config.block_secs);
        }
    }
}

/// A percentage of a baseline is one, and not a number where the baseline is
/// zero.
pub proof fn law_percentage_of_the_baseline<A: Arithmetic>(
    f: &A,
    x: Double,
    base: Double,
    r: Double,
)
    requires
        deterministic(f),
        rounds_in_order(f),
        divides_closely(f),
        x.finite(),
        base.finite(),
        size(x.value()) <= 4 * pow2(1300),
        call_ensures(pct_of_baseline::<A>, (f, x, base), r),
    ensures
        is_percentage(r, x, base),
{
    lemma_percentage_means(f, x, base);
}

/// A mean of numbers is one.
pub proof fn law_mean_counts_each_number<A: Arithmetic>(f: &A, xs: &[Double], m: int, r: Double)
    requires
        deterministic(f),
        rounds_in_order(f),
        1 <= xs@.len() <= SUMMED_COUNTS,
        forall|i: int| 0 <= i < xs@.len() ==> (#[trigger] xs@[i]).finite(),
        bounded(values(xs@), m),
        m <= pow2(1300),
        call_ensures(mean::<A>, (f, xs), r),
    ensures
        is_mean(r, values(xs@), m),
{
    let start = Double { bits: NEGATIVE_ZERO };
    assert(start.finite() && start.magnitude() == 0);
    lemma_mean_means(f, start, xs@, m);
}

/// A difference is significant where p is below what the confidence leaves and
/// the interval lies wholly above or wholly below zero.
pub proof fn law_significance_needs_both(
    p_value: Double,
    alpha: Double,
    ci: (Double, Double),
    r: bool,
)
    requires
        !p_value.nan(),
        !alpha.nan(),
        !ci.0.nan(),
        !ci.1.nan(),
        call_ensures(is_significant, (p_value, alpha, ci), r),
    ensures
        r <==> p_value.value() < alpha.value() && (ci.0.value() > 0 || ci.1.value() < 0),
{
    lemma_named_numbers();
}

/// The generator is SplitMix64: each step adds one constant to the state, and
/// what it gives is the state mixed by shifts and two products, all of 64 bits.
pub proof fn law_generator_mixes_its_state(state: u64)
    ensures
        stepped(state) == (state + 0x9e37_79b9_7f4a_7c15) % period(),
        ({
            let a = ((state ^ (state >> 30)) * 0xbf58_476d_1ce4_e5b9) % period();
            let b = ((a as u64 ^ (a as u64 >> 27)) * 0x94d0_49bb_1331_11eb) % period();
            mixed(state) == b as u64 ^ (b as u64 >> 31)
        }),
        forall|i: int|
            0 <= i ==> drawn(state, i) == #[trigger] drawn(stepped_by(state, i as nat), 0),
{
    let x = state ^ (state >> 30);
    let a = x.wrapping_mul(0xbf58_476d_1ce4_e5b9);
    lemma_wrapped_product(x, 0xbf58_476d_1ce4_e5b9);
    lemma_wrapped_product(a ^ (a >> 27), 0x94d0_49bb_1331_11eb);
    assert forall|i: int| 0 <= i implies drawn(state, i) == #[trigger] drawn(
        stepped_by(state, i as nat),
        0,
    ) by {
        lemma_steps_compose(state, i as nat, 1);
    }
}

/// The number at a rank between rising numbers lies on the line through those at
/// the whole ranks around it.
pub proof fn law_number_at_rank_lies_on_the_line<A: Arithmetic>(
    f: &A,
    sorted: &[Double],
    rank: Double,
    m: int,
    r: Double,
)
    requires
        deterministic(f),
        rounds_in_order(f),
        2 <= sorted@.len() <= EXACT_COUNTS,
        sorted@.len() <= usize::MAX,
        rising(sorted@),
        forall|i: int| 0 <= i < sorted@.len() ==> modest(#[trigger] sorted@[i]),
        bounded(values(sorted@), m),
        rank.finite(),
        0 <= rank.value() <= (sorted@.len() - 1) * Double::unit(),
        call_ensures(interp::<A>, (f, sorted, rank), r),
    ensures
        lies_at(r.value(), values(sorted@), rank.value(), 1, m),
{
    let n = sorted@.len() as int;
    lemma_count_is_exact(f, n - 1);
    lemma_number_at_rank_is_finite(f, sorted@, rank);
    lemma_lies_at(f, sorted@, rank, rank.value(), 1, m);
}

} // verus!
