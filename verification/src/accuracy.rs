//! How far rounding can move the statistics.
//!
//! What holds of exact interpolation and of exact sums holds of rounded ones up
//! to a bound. The bounds here follow from [`rounds_in_order`]; they count in
//! parts of two to the power 53, the width of a double's fraction, and in units
//! of the smallest subnormal, which has the value one.

use vstd::arithmetic::power2::{
    lemma_pow2_adds, lemma_pow2_pos, lemma_pow2_strictly_increases, pow2,
};
use vstd::prelude::*;

use crate::arithmetic::{
    all_widened, counted, difference, product, quotient, square_root, sum, total, widened,
    Arithmetic,
};
use crate::number::{
    lemma_between_is_finite, lemma_finite_is_inside, lemma_large_numbers, lemma_named_numbers,
    lemma_rank_orders_values, lemma_sample_size, Double, Single, HOUR, LARGE, NEGATIVE_LARGE,
    NEGATIVE_TWICE_LARGE, NEGATIVE_ZERO, ONE, THOUSAND, TWICE_LARGE, ZERO,
};
use crate::order::{
    ascending, lemma_ascending, lemma_mapped_multisets, lemma_rearranged_contains,
    lemma_same_members,
};
use crate::rounding::{
    adds_up, copies, gap, is_weight, lemma_divided_is_finite, lemma_other_weight,
    lemma_quotient_stays_finite, lemma_rank_of_share, lemma_rank_parts, lemma_scaled, lemma_share,
    lemma_shares_grow, lemma_widened_rising, lower_rank, repeated_mean, rising, rounds_closely,
    rounds_in_order, samples_rising, share_of, size, upper_rank, EXACT_COUNTS,
};
use crate::stats::{
    between_ranks, highest, law_extremes_ignore_order, law_highest_is_greatest, law_lowest_is_least,
    law_percentiles_ignore_order, lowest, mix, percentile, percentile_rank, sample_mean,
    squared_distance, statistics, variance_of,
};

verus! {

/// Whether `x` is at most `y` up to the rounding of two interpolations between
/// numbers no larger than `scale`: it exceeds `y` by no more than ten parts in
/// two to the power 53 of `scale` and four of the smallest subnormals.
pub open spec fn at_most_nearly(x: Double, y: Double, scale: int) -> bool {
    (x.value() - y.value()) * EXACT_COUNTS <= 10 * scale + 4 * EXACT_COUNTS
}

/// The larger size of two numbers.
pub open spec fn larger_size(a: Double, b: Double) -> int {
    if size(a.value()) >= size(b.value()) {
        size(a.value())
    } else {
        size(b.value())
    }
}

/// How near a sum is to the exact one.
pub proof fn lemma_sum_is_close<A: Arithmetic>(f: &A, a: Double, b: Double)
    requires
        rounds_in_order(f),
        a.finite(),
        b.finite(),
        sum(f, a, b).finite(),
    ensures
        gap(sum(f, a, b).value(), a.value() + b.value()) * EXACT_COUNTS <= size(
            a.value() + b.value(),
        ),
{
    reveal(rounds_in_order);
    reveal(rounds_closely);
}

/// How near a difference is to the exact one.
pub proof fn lemma_difference_is_close<A: Arithmetic>(f: &A, a: Double, b: Double)
    requires
        rounds_in_order(f),
        a.finite(),
        b.finite(),
        difference(f, a, b).finite(),
    ensures
        gap(difference(f, a, b).value(), a.value() - b.value()) * EXACT_COUNTS <= size(
            a.value() - b.value(),
        ),
{
    reveal(rounds_in_order);
    reveal(rounds_closely);
}

/// How near a product is to the exact one.
pub proof fn lemma_product_is_close<A: Arithmetic>(f: &A, a: Double, b: Double)
    requires
        rounds_in_order(f),
        a.finite(),
        b.finite(),
        product(f, a, b).finite(),
    ensures
        gap(product(f, a, b).value() * Double::unit(), a.value() * b.value()) * EXACT_COUNTS
            <= size(a.value() * b.value()) + EXACT_COUNTS * Double::unit(),
{
    reveal(rounds_in_order);
    reveal(rounds_closely);
}

/// How near a quotient is to the exact one.
pub proof fn lemma_quotient_is_close<A: Arithmetic>(f: &A, a: Double, b: Double)
    requires
        rounds_in_order(f),
        a.finite(),
        b.finite(),
        b.value() > 0,
        quotient(f, a, b).finite(),
    ensures
        gap(quotient(f, a, b).value() * b.value(), a.value() * Double::unit()) * EXACT_COUNTS
            <= size(a.value() * Double::unit()) + EXACT_COUNTS * b.value(),
{
    reveal(rounds_in_order);
    reveal(rounds_closely);
}

/// The errors of an interpolation added up: of the weight `v` of the lower
/// number, of the products `p` and `q`, and of their sum `s`.
proof fn lemma_mix_errors(
    lo: int,
    hi: int,
    w: int,
    v: int,
    p: int,
    q: int,
    s: int,
    m: int,
    u: int,
    k: int,
)
    requires
        k > 0,
        u > 0,
        size(lo) <= m,
        gap(v, u - w) * k <= u,
        gap(p * u, lo * v) * k <= m * u + k * u,
        gap(q * u, hi * w) * k <= m * u + k * u,
        gap(s, p + q) * k <= 2 * m,
    ensures
        gap(s * u, lo * (u - w) + hi * w) * k <= (5 * m + 2 * k) * u,
{
    let e1 = s - (p + q);
    let e2 = p * u - lo * v;
    let e3 = v - (u - w);
    let e4 = q * u - hi * w;
    let e = s * u - (lo * (u - w) + hi * w);
    assert(e == e1 * u + e2 + lo * e3 + e4) by (nonlinear_arith)
        requires
            e1 == s - (p + q),
            e2 == p * u - lo * v,
            e3 == v - (u - w),
            e4 == q * u - hi * w,
            e == s * u - (lo * (u - w) + hi * w),
    ;
    assert(-2 * m <= e1 * k && e1 * k <= 2 * m) by (nonlinear_arith)
        requires
            gap(s, p + q) * k <= 2 * m,
            e1 == s - (p + q),
            k > 0,
    ;
    assert(-(m * u + k * u) <= e2 * k && e2 * k <= m * u + k * u) by (nonlinear_arith)
        requires
            gap(p * u, lo * v) * k <= m * u + k * u,
            e2 == p * u - lo * v,
            k > 0,
    ;
    assert(-(m * u + k * u) <= e4 * k && e4 * k <= m * u + k * u) by (nonlinear_arith)
        requires
            gap(q * u, hi * w) * k <= m * u + k * u,
            e4 == q * u - hi * w,
            k > 0,
    ;
    assert(-u <= e3 * k && e3 * k <= u) by (nonlinear_arith)
        requires
            gap(v, u - w) * k <= u,
            e3 == v - (u - w),
            k > 0,
    ;
    let t = e3 * k;
    assert(-(m * u) <= lo * t && lo * t <= m * u) by (nonlinear_arith)
        requires
            -u <= t <= u,
            -m <= lo <= m,
            u > 0,
    ;
    let r = e1 * k;
    assert(-(2 * m * u) <= r * u && r * u <= 2 * m * u) by (nonlinear_arith)
        requires
            -2 * m <= r <= 2 * m,
            u > 0,
    ;
    let x = e1 * u;
    let y = lo * e3;
    assert(x * k == r * u) by (nonlinear_arith)
        requires
            x == e1 * u,
            r == e1 * k,
    ;
    assert(y * k == lo * t) by (nonlinear_arith)
        requires
            y == lo * e3,
            t == e3 * k,
    ;
    assert(e * k == x * k + e2 * k + y * k + e4 * k) by (nonlinear_arith)
        requires
            e == x + e2 + y + e4,
    ;
    assert((5 * m + 2 * k) * u == 2 * m * u + (m * u + k * u) + m * u + (m * u + k * u))
        by (nonlinear_arith);
    assert(gap(s * u, lo * (u - w) + hi * w) * k <= (5 * m + 2 * k) * u) by (nonlinear_arith)
        requires
            e == s * u - (lo * (u - w) + hi * w),
            -((5 * m + 2 * k) * u) <= e * k <= (5 * m + 2 * k) * u,
    ;
}

/// How near an interpolation is to the exact one.
pub proof fn lemma_mix_is_close<A: Arithmetic>(f: &A, lo: Double, hi: Double, w: Double, m: int)
    requires
        rounds_in_order(f),
        lo.finite(),
        hi.finite(),
        size(lo.value()) <= m,
        size(hi.value()) <= m,
        is_weight(w),
        mix(f, lo, hi, w).finite(),
    ensures
        gap(
            mix(f, lo, hi, w).value() * Double::unit(),
            lo.value() * (Double::unit() - w.value()) + hi.value() * w.value(),
        ) * EXACT_COUNTS <= (5 * m + 2 * EXACT_COUNTS) * Double::unit(),
{
    lemma_named_numbers();
    lemma_pow2_pos(1074);
    let one = Double { bits: ONE };
    let u = Double::unit();
    let k = EXACT_COUNTS as int;
    let v = difference(f, one, w);
    let p = product(f, lo, v);
    let q = product(f, hi, w);
    assert(one.finite());
    lemma_other_weight(f, w);
    lemma_scaled(f, lo, v);
    lemma_scaled(f, hi, w);
    lemma_difference_is_close(f, one, w);
    lemma_product_is_close(f, lo, v);
    lemma_product_is_close(f, hi, w);
    lemma_sum_is_close(f, p, q);
    lemma_weighted_size(lo.value(), v.value(), m, u);
    lemma_weighted_size(hi.value(), w.value(), m, u);
    lemma_mix_errors(
        lo.value(),
        hi.value(),
        w.value(),
        v.value(),
        p.value(),
        q.value(),
        mix(f, lo, hi, w).value(),
        m,
        u,
        k,
    );
}

/// A weight makes a number no larger.
proof fn lemma_weighted_size(x: int, w: int, m: int, u: int)
    requires
        size(x) <= m,
        0 <= w <= u,
    ensures
        size(x * w) <= m * u,
{
    assert(-(m * u) <= x * w && x * w <= m * u) by (nonlinear_arith)
        requires
            -m <= x <= m,
            0 <= w <= u,
            m >= 0,
    ;
}

/// Exact interpolation lies between the numbers and goes up with the weight.
proof fn lemma_exact_mix(lo: int, hi: int, v: int, w: int, u: int)
    requires
        lo <= hi,
        0 <= v <= w <= u,
    ensures
        lo * u <= lo * (u - v) + hi * v <= lo * (u - w) + hi * w <= hi * u,
{
    assert(lo * (u - v) + hi * v == lo * u + (hi - lo) * v) by (nonlinear_arith);
    assert(lo * (u - w) + hi * w == lo * u + (hi - lo) * w) by (nonlinear_arith);
    assert(hi * u == lo * u + (hi - lo) * u) by (nonlinear_arith);
    assert(0 <= (hi - lo) * v && (hi - lo) * v <= (hi - lo) * w && (hi - lo) * w <= (hi - lo) * u)
        by (nonlinear_arith)
        requires
            lo <= hi,
            0 <= v <= w <= u,
    ;
}

/// Two rounded numbers are in order up to both their errors where the exact ones
/// are in order.
proof fn lemma_order_survives(x: int, y: int, ex: int, ey: int, e: int, u: int, k: int)
    requires
        u > 0,
        k > 0,
        gap(x * u, ex) * k <= e * u,
        gap(y * u, ey) * k <= e * u,
        ex <= ey,
    ensures
        (x - y) * k <= 2 * e,
{
    assert((x - y) * k <= 2 * e) by (nonlinear_arith)
        requires
            u > 0,
            k > 0,
            gap(x * u, ex) * k <= e * u,
            gap(y * u, ey) * k <= e * u,
            ex <= ey,
    {
        assert((x * u - ex) * k <= e * u) by (nonlinear_arith)
            requires
                gap(x * u, ex) * k <= e * u,
                k > 0,
        ;
        assert((ey - y * u) * k <= e * u) by (nonlinear_arith)
            requires
                gap(y * u, ey) * k <= e * u,
                k > 0,
        ;
        assert((ex - ey) * k <= 0) by (nonlinear_arith)
            requires
                ex <= ey,
                k > 0,
        ;
        assert((x * u - ex) * k + (ey - y * u) * k + (ex - ey) * k == (x - y) * k * u)
            by (nonlinear_arith);
        assert((x - y) * k * u <= 2 * e * u) by (nonlinear_arith)
            requires
                (x - y) * k * u <= e * u + e * u,
        ;
        assert((x - y) * k <= 2 * e) by (nonlinear_arith)
            requires
                (x - y) * k * u <= 2 * e * u,
                u > 0,
        ;
    }
}

/// Numbers that rise from the first to the last are no larger than the larger of
/// these.
pub proof fn lemma_rising_size(xs: Seq<Double>, i: int)
    requires
        rising(xs),
        0 <= i < xs.len(),
    ensures
        xs[i].finite(),
        size(xs[i].value()) <= larger_size(xs[0], xs.last()),
{
    assert(xs[0].value() <= xs[i].value() <= xs[xs.len() - 1].value());
}

/// What a rank stands for between exact numbers.
pub open spec fn exact_between_ranks(xs: Seq<Double>, rank: Double, w: Double) -> int {
    let n = xs.len() as int;
    xs[lower_rank(rank, n)].value() * (Double::unit() - w.value()) + xs[upper_rank(
        rank,
        n,
    )].value() * w.value()
}

/// How near the number at a rank is to the exact one, which lies between the
/// numbers at the whole ranks around it.
pub proof fn lemma_number_at_rank<A: Arithmetic>(f: &A, xs: Seq<Double>, rank: Double)
    requires
        rounds_in_order(f),
        1 <= xs.len(),
        xs.len() - 1 <= usize::MAX,
        rising(xs),
        rank.finite(),
        0 <= rank.value() <= counted(f, xs.len() - 1).value(),
        between_ranks(f, xs, rank).finite(),
    ensures
        0 <= lower_rank(rank, xs.len() as int) <= upper_rank(rank, xs.len() as int) < xs.len(),
        ({
            let n = xs.len() as int;
            let w = difference(f, rank, counted(f, lower_rank(rank, n)));
            let exact = exact_between_ranks(xs, rank, w);
            let m = larger_size(xs[0], xs.last());
            &&& is_weight(w)
            &&& gap(between_ranks(f, xs, rank).value() * Double::unit(), exact) * EXACT_COUNTS <= (
            5 * m + 2 * EXACT_COUNTS) * Double::unit()
            &&& xs[lower_rank(rank, n)].value() * Double::unit() <= exact
            &&& exact <= xs[upper_rank(rank, n)].value() * Double::unit()
        }),
{
    lemma_rank_parts(f, rank, xs.len() as int);
    let lo = lower_rank(rank, xs.len() as int);
    let hi = upper_rank(rank, xs.len() as int);
    let w = difference(f, rank, counted(f, lo));
    lemma_rising_size(xs, lo);
    lemma_rising_size(xs, hi);
    lemma_mix_is_close(f, xs[lo], xs[hi], w, larger_size(xs[0], xs.last()));
    assert(xs[lo].value() <= xs[hi].value());
    lemma_exact_mix(xs[lo].value(), xs[hi].value(), w.value(), w.value(), Double::unit());
}

/// Numbers at higher ranks are no lower but for rounding, and all lie between
/// the first and the last but for rounding.
pub proof fn lemma_numbers_grow_with_rank<A: Arithmetic>(
    f: &A,
    xs: Seq<Double>,
    lower: Double,
    upper: Double,
)
    requires
        rounds_in_order(f),
        1 <= xs.len(),
        xs.len() - 1 <= usize::MAX,
        rising(xs),
        lower.finite(),
        upper.finite(),
        0 <= lower.value() <= upper.value() <= counted(f, xs.len() - 1).value(),
        between_ranks(f, xs, lower).finite(),
        between_ranks(f, xs, upper).finite(),
    ensures
        ({
            let scale = larger_size(xs[0], xs.last());
            &&& at_most_nearly(xs[0], between_ranks(f, xs, lower), scale)
            &&& at_most_nearly(between_ranks(f, xs, lower), between_ranks(f, xs, upper), scale)
            &&& at_most_nearly(between_ranks(f, xs, upper), xs.last(), scale)
        }),
{
    let n = xs.len() as int;
    let u = Double::unit();
    let k = EXACT_COUNTS as int;
    let m = larger_size(xs[0], xs.last());
    let e = 5 * m + 2 * k;
    lemma_pow2_pos(1074);
    lemma_number_at_rank(f, xs, lower);
    lemma_number_at_rank(f, xs, upper);
    let x = between_ranks(f, xs, lower).value();
    let y = between_ranks(f, xs, upper).value();
    let v = difference(f, lower, counted(f, lower_rank(lower, n)));
    let w = difference(f, upper, counted(f, lower_rank(upper, n)));
    let ex = exact_between_ranks(xs, lower, v);
    let ey = exact_between_ranks(xs, upper, w);
    let first = xs[0].value();
    let last = xs[xs.len() - 1].value();
    assert(ex <= ey) by {
        if upper_rank(lower, n) <= lower_rank(upper, n) {
            assert(xs[upper_rank(lower, n)].value() <= xs[lower_rank(upper, n)].value());
            vstd::arithmetic::mul::lemma_mul_inequality(
                xs[upper_rank(lower, n)].value(),
                xs[lower_rank(upper, n)].value(),
                u,
            );
        } else {
            lemma_same_segment(f, lower, upper, n);
            let a = lower_rank(lower, n);
            assert(xs[a].value() <= xs[a + 1].value());
            lemma_exact_mix(xs[a].value(), xs[a + 1].value(), v.value(), w.value(), u);
        }
    }
    lemma_order_survives(x, y, ex, ey, e, u, k);
    assert(gap(first * u, first * u) * k <= e * u && gap(last * u, last * u) * k <= e * u)
        by (nonlinear_arith)
        requires
            e >= 0,
            u > 0,
            k > 0,
    ;
    assert(first * u <= ex) by {
        assert(first <= xs[lower_rank(lower, n)].value());
        vstd::arithmetic::mul::lemma_mul_inequality(first, xs[lower_rank(lower, n)].value(), u);
    }
    assert(ey <= last * u) by {
        assert(xs[upper_rank(upper, n)].value() <= last);
        vstd::arithmetic::mul::lemma_mul_inequality(xs[upper_rank(upper, n)].value(), last, u);
    }
    lemma_order_survives(first, x, first * u, ex, e, u, k);
    lemma_order_survives(y, last, ey, last * u, e, u, k);
}

/// Two ranks that no whole rank separates lie between the same two, the lower
/// with the smaller weight.
proof fn lemma_same_segment<A: Arithmetic>(f: &A, lower: Double, upper: Double, n: int)
    requires
        rounds_in_order(f),
        1 <= n,
        n - 1 <= usize::MAX,
        lower.finite(),
        upper.finite(),
        0 <= lower.value() <= upper.value() <= counted(f, n - 1).value(),
        upper_rank(lower, n) > lower_rank(upper, n),
    ensures
        lower_rank(lower, n) == lower_rank(upper, n),
        upper_rank(lower, n) == lower_rank(lower, n) + 1,
        upper_rank(upper, n) == lower_rank(lower, n) + 1,
        difference(f, lower, counted(f, lower_rank(lower, n))).value() <= difference(
            f,
            upper,
            counted(f, lower_rank(upper, n)),
        ).value(),
{
    let u = Double::unit();
    lemma_pow2_pos(1074);
    lemma_rank_parts(f, lower, n);
    lemma_rank_parts(f, upper, n);
    vstd::arithmetic::div_mod::lemma_div_is_ordered(lower.value(), upper.value(), u);
    vstd::arithmetic::div_mod::lemma_div_is_ordered(-upper.value(), -lower.value(), u);
    let c = counted(f, lower_rank(lower, n));
    reveal(rounds_in_order);
    assert(c.finite());
    let v = difference(f, lower, c);
    let w = difference(f, upper, c);
    assert(v.value() <= w.value());
}

/// Whether a number is far from overflow: no larger than two to the power 226,
/// which samples and their means never reach.
pub open spec fn modest(x: Double) -> bool {
    x.finite() && size(x.value()) <= pow2(1300)
}

/// Sums of numbers up to two to the power 900 do not overflow.
pub proof fn lemma_sum_stays_finite<A: Arithmetic>(f: &A, a: Double, b: Double)
    requires
        rounds_in_order(f),
        a.finite(),
        b.finite(),
        size(a.value()) <= pow2(1974),
        size(b.value()) <= pow2(1974),
    ensures
        sum(f, a, b).finite(),
{
    lemma_large_numbers();
    let large = Double { bits: LARGE };
    let small = Double { bits: NEGATIVE_LARGE };
    let top = Double { bits: TWICE_LARGE };
    let bottom = Double { bits: NEGATIVE_TWICE_LARGE };
    reveal(rounds_in_order);
    assert(top.finite() && bottom.finite());
    assert(sum(f, large, large).value() == top.value());
    assert(sum(f, small, small).value() == bottom.value());
    assert(sum(f, a, b).value() <= sum(f, large, large).value());
    assert(sum(f, small, small).value() <= sum(f, a, b).value());
    lemma_between_is_finite(bottom, sum(f, a, b), top);
}

/// Samples are far from overflow.
pub proof fn lemma_sample_is_modest<A: Arithmetic>(f: &A, a: Single)
    requires
        rounds_in_order(f),
        a.finite(),
    ensures
        modest(widened(f, a)),
        size(widened(f, a).value()) <= pow2(1202),
{
    reveal(rounds_in_order);
    lemma_sample_size(a);
    lemma_pow2_adds(277, 925);
    lemma_pow2_pos(925);
    lemma_pow2_strictly_increases(1202, 1300);
    let v = a.value();
    let m = pow2(277) as int;
    let k = pow2(925) as int;
    assert(-(m * k) <= v * k && v * k <= m * k) by (nonlinear_arith)
        requires
            -m <= v <= m,
            k > 0,
    ;
}

/// Interpolating between numbers that are far from overflow does not overflow.
pub proof fn lemma_mix_stays_finite<A: Arithmetic>(f: &A, lo: Double, hi: Double, w: Double)
    requires
        rounds_in_order(f),
        modest(lo),
        modest(hi),
        is_weight(w),
    ensures
        mix(f, lo, hi, w).finite(),
        size(mix(f, lo, hi, w).value()) <= 4 * pow2(1300),
{
    let v = difference(f, Double { bits: ONE }, w);
    lemma_other_weight(f, w);
    lemma_scaled(f, lo, v);
    lemma_scaled(f, hi, w);
    lemma_pow2_strictly_increases(1300, 1974);
    let x = product(f, lo, v);
    let y = product(f, hi, w);
    lemma_sum_stays_finite(f, x, y);
    lemma_sum_is_close(f, x, y);
    let e = x.value() + y.value();
    assert(gap(sum(f, x, y).value(), e) <= size(e)) by (nonlinear_arith)
        requires
            gap(sum(f, x, y).value(), e) * EXACT_COUNTS <= size(e),
            EXACT_COUNTS >= 1,
    ;
}

/// Percentiles of finite samples are finite.
pub proof fn lemma_percentile_is_finite<A: Arithmetic>(f: &A, sorted: Seq<Single>, pct: Double)
    requires
        rounds_in_order(f),
        1 <= sorted.len() <= usize::MAX,
        samples_rising(sorted),
        !pct.nan(),
    ensures
        percentile(f, sorted, pct).finite(),
{
    let n = sorted.len() as int;
    if n == 1 {
        assert(sorted[0].finite());
        lemma_sample_is_modest(f, sorted[0]);
    } else {
        let xs = all_widened(f, sorted);
        let rank = percentile_rank(f, n, pct);
        lemma_share(f, pct);
        lemma_rank_of_share(f, n, share_of(f, pct), share_of(f, pct));
        lemma_rank_parts(f, rank, n);
        let lo = lower_rank(rank, n);
        let hi = upper_rank(rank, n);
        assert(sorted[lo].finite() && sorted[hi].finite());
        lemma_sample_is_modest(f, sorted[lo]);
        lemma_sample_is_modest(f, sorted[hi]);
        lemma_mix_stays_finite(f, xs[lo], xs[hi], difference(f, rank, counted(f, lo)));
    }
}

/// But for rounding, percentiles grow with the percentage and lie between the
/// lowest and the highest sample.
pub proof fn law_percentiles_grow<A: Arithmetic>(f: &A, sorted: Seq<Single>, p: Double, q: Double)
    requires
        rounds_in_order(f),
        1 <= sorted.len() <= usize::MAX,
        samples_rising(sorted),
        !p.nan(),
        !q.nan(),
        p.value() <= q.value(),
    ensures
        ({
            let first = widened(f, sorted[0]);
            let last = widened(f, sorted.last());
            let scale = larger_size(first, last);
            &&& at_most_nearly(first, percentile(f, sorted, p), scale)
            &&& at_most_nearly(percentile(f, sorted, p), percentile(f, sorted, q), scale)
            &&& at_most_nearly(percentile(f, sorted, q), last, scale)
        }),
{
    if sorted.len() >= 2 {
        let n = sorted.len() as int;
        let xs = all_widened(f, sorted);
        lemma_widened_rising(f, sorted);
        lemma_share(f, p);
        lemma_share(f, q);
        lemma_shares_grow(f, p, q);
        lemma_rank_of_share(f, n, share_of(f, p), share_of(f, q));
        lemma_percentile_is_finite(f, sorted, p);
        lemma_percentile_is_finite(f, sorted, q);
        lemma_numbers_grow_with_rank(f, xs, percentile_rank(f, n, p), percentile_rank(f, n, q));
    }
}

/// How many numbers a sum may have for its errors to be bounded here.
pub const SUMMED_COUNTS: u64 = 0xf_ffff_ffff_ffff;

/// The exact sum of numbers.
pub open spec fn exact_total(xs: Seq<Double>) -> int
    decreases xs.len(),
{
    if xs.len() == 0 {
        0
    } else {
        exact_total(xs.drop_last()) + xs.last().value()
    }
}

/// The exact sum of the sizes of numbers.
pub open spec fn exact_sizes(xs: Seq<Double>) -> int
    decreases xs.len(),
{
    if xs.len() == 0 {
        0
    } else {
        exact_sizes(xs.drop_last()) + size(xs.last().value())
    }
}

/// Whether adding up the numbers one by one does not overflow.
pub open spec fn totals_finite<A: Arithmetic>(f: &A, start: Double, xs: Seq<Double>) -> bool {
    forall|k: int| 0 <= k <= xs.len() ==> (#[trigger] total(f, start, xs.take(k))).finite()
}

/// A sum is no larger than the sum of the sizes.
proof fn lemma_exact_sizes(xs: Seq<Double>)
    ensures
        size(exact_total(xs)) <= exact_sizes(xs),
    decreases xs.len(),
{
    if xs.len() > 0 {
        lemma_exact_sizes(xs.drop_last());
    }
}

/// The error of one more addition: `t` is near `s`, and `r` is `t + x` rounded.
proof fn lemma_addition_error(t: int, s: int, x: int, r: int, a: int, n: int, k: int)
    requires
        1 <= n,
        2 * n <= k,
        size(s) <= a,
        gap(t, s) * k <= 2 * (n - 1) * a,
        gap(r, t + x) * k <= size(t + x),
    ensures
        gap(r, s + x) * k <= 2 * n * (a + size(x)),
{
    let d = gap(t, s);
    assert(d <= a) by (nonlinear_arith)
        requires
            d * k <= 2 * (n - 1) * a,
            2 * n <= k,
            1 <= n,
            a >= 0,
    ;
    assert(size(t + x) <= 2 * a + size(x));
    assert(gap(r, s + x) <= gap(r, t + x) + d);
    assert(gap(r, s + x) * k <= gap(r, t + x) * k + d * k) by (nonlinear_arith)
        requires
            gap(r, s + x) <= gap(r, t + x) + d,
            k > 0,
    ;
    let b = size(x);
    assert(2 * a + b + 2 * (n - 1) * a <= 2 * n * (a + b)) by (nonlinear_arith)
        requires
            n >= 1,
            b >= 0,
    ;
}

/// How near a sum is to the exact one: of `n` numbers, within `2 n` parts in two
/// to the power 53 of the sum of their sizes.
pub proof fn lemma_total_is_close<A: Arithmetic>(f: &A, start: Double, xs: Seq<Double>)
    requires
        rounds_in_order(f),
        start.value() == 0,
        xs.len() <= SUMMED_COUNTS,
        forall|i: int| 0 <= i < xs.len() ==> (#[trigger] xs[i]).finite(),
        totals_finite(f, start, xs),
    ensures
        total(f, start, xs).finite(),
        gap(total(f, start, xs).value(), exact_total(xs)) * EXACT_COUNTS <= 2 * xs.len()
            * exact_sizes(xs),
    decreases xs.len(),
{
    let n = xs.len() as int;
    assert(xs.take(n) =~= xs);
    assert(total(f, start, xs.take(n)).finite());
    if n > 0 {
        let front = xs.drop_last();
        assert(xs.last() == xs[n - 1]);
        assert forall|i: int| 0 <= i < front.len() implies (#[trigger] front[i]).finite() by {
            assert(xs[i].finite());
        }
        assert forall|k: int| 0 <= k <= front.len() implies (#[trigger] total(
            f,
            start,
            front.take(k),
        )).finite() by {
            assert(front.take(k) =~= xs.take(k));
        }
        lemma_total_is_close(f, start, front);
        lemma_exact_sizes(front);
        lemma_sum_is_close(f, total(f, start, front), xs.last());
        lemma_addition_error(
            total(f, start, front).value(),
            exact_total(front),
            xs.last().value(),
            total(f, start, xs).value(),
            exact_sizes(front),
            n,
            EXACT_COUNTS as int,
        );
    }
}

/// The sizes of numbers add up to no more than so often their bound.
proof fn lemma_sizes_below(xs: Seq<Double>, m: int)
    requires
        forall|i: int| 0 <= i < xs.len() ==> size((#[trigger] xs[i]).value()) <= m,
    ensures
        0 <= exact_sizes(xs) <= xs.len() * m,
    decreases xs.len(),
{
    let n = xs.len() as int;
    if n > 0 {
        let front = xs.drop_last();
        assert(xs.last() == xs[n - 1]);
        assert forall|i: int| 0 <= i < front.len() implies size((#[trigger] front[i]).value())
            <= m by {
            assert(size(xs[i].value()) <= m);
        }
        lemma_sizes_below(front, m);
        assert(n * m == (n - 1) * m + m) by (nonlinear_arith);
    }
}

/// Adding up numbers no larger than `bound` does not overflow where so often
/// twice the bound is far from overflow.
pub proof fn lemma_bounded_totals<A: Arithmetic>(
    f: &A,
    start: Double,
    xs: Seq<Double>,
    bound: int,
)
    requires
        rounds_in_order(f),
        start.finite(),
        start.value() == 0,
        xs.len() <= SUMMED_COUNTS,
        forall|i: int|
            0 <= i < xs.len() ==> (#[trigger] xs[i]).finite() && size(xs[i].value()) <= bound,
        0 <= bound,
        2 * xs.len() * bound <= pow2(1974),
    ensures
        totals_finite(f, start, xs),
        total(f, start, xs).finite(),
        0 <= exact_sizes(xs) <= xs.len() * bound,
        size(total(f, start, xs).value()) <= 2 * xs.len() * bound,
    decreases xs.len(),
{
    let n = xs.len() as int;
    if n > 0 {
        let front = xs.drop_last();
        assert(xs.last() == xs[n - 1]);
        assert forall|i: int| 0 <= i < front.len() implies (#[trigger] front[i]).finite() && size(
            front[i].value(),
        ) <= bound by {
            assert(xs[i].finite());
        }
        assert(2 * (n - 1) * bound <= 2 * n * bound && bound <= 2 * n * bound) by (nonlinear_arith)
            requires
                n >= 1,
                bound >= 0,
        ;
        lemma_bounded_totals(f, start, front, bound);
        lemma_sum_stays_finite(f, total(f, start, front), xs.last());
        assert forall|k: int| 0 <= k <= n implies (#[trigger] total(f, start, xs.take(k))).finite() by {
            if k < n {
                assert(front.take(k) =~= xs.take(k));
            } else {
                assert(xs.take(k) =~= xs);
            }
        }
    } else {
        assert forall|k: int| 0 <= k <= n implies (#[trigger] total(f, start, xs.take(k))).finite() by {
            assert(xs.take(k) =~= xs);
        }
    }
    lemma_total_is_close(f, start, xs);
    lemma_sizes_below(xs, bound);
    lemma_exact_sizes(xs);
    let t = total(f, start, xs).value();
    let s = exact_total(xs);
    let a = exact_sizes(xs);
    let k = EXACT_COUNTS as int;
    assert(gap(t, s) <= a) by (nonlinear_arith)
        requires
            gap(t, s) * k <= 2 * n * a,
            2 * n <= k,
            k > 0,
            a >= 0,
            n >= 0,
    ;
    assert(2 * (n * bound) == 2 * n * bound) by (nonlinear_arith);
}

/// The error of a mean: `q` is `t / c` rounded, and `t` a sum of `n` numbers near
/// `s`.
proof fn lemma_mean_error(t: int, s: int, q: int, a: int, n: int, c: int, u: int, k: int)
    requires
        1 <= n,
        2 * n <= k,
        1 <= c,
        u > 0,
        size(s) <= a,
        gap(t, s) * k <= 2 * n * a,
        gap(q * (c * u), t * u) * k <= size(t * u) + k * (c * u),
    ensures
        gap(q * c, s) * k <= (2 * n + 2) * a + k * c,
{
    let d = gap(t, s);
    assert(d <= a) by (nonlinear_arith)
        requires
            d * k <= 2 * n * a,
            2 * n <= k,
            1 <= n,
            a >= 0,
    ;
    assert(size(t) <= 2 * a);
    assert(q * (c * u) == (q * c) * u) by (nonlinear_arith);
    assert(gap(q * c, t) * u == gap(q * (c * u), t * u)) by (nonlinear_arith)
        requires
            q * (c * u) == (q * c) * u,
            u > 0,
    ;
    assert(size(t * u) == size(t) * u) by (nonlinear_arith)
        requires
            u > 0,
    ;
    assert(gap(q * c, t) * k <= size(t) + k * c) by (nonlinear_arith)
        requires
            gap(q * c, t) * u * k <= size(t) * u + k * (c * u),
            u > 0,
    ;
    assert(gap(q * c, s) <= gap(q * c, t) + d);
    assert(gap(q * c, s) * k <= gap(q * c, t) * k + d * k) by (nonlinear_arith)
        requires
            gap(q * c, s) <= gap(q * c, t) + d,
            k > 0,
    ;
    assert((2 * n + 2) * a == 2 * n * a + 2 * a) by (nonlinear_arith);
}

/// How near the sum of numbers, divided by a count, is to the exact quotient. It
/// is taken so often, as the exact quotient need not be a whole value.
pub proof fn lemma_mean_is_close<A: Arithmetic>(f: &A, start: Double, xs: Seq<Double>, c: int)
    requires
        rounds_in_order(f),
        start.value() == 0,
        1 <= xs.len() <= SUMMED_COUNTS,
        1 <= c <= EXACT_COUNTS,
        forall|i: int| 0 <= i < xs.len() ==> (#[trigger] xs[i]).finite(),
        totals_finite(f, start, xs),
    ensures
        ({
            let mean = quotient(f, total(f, start, xs), counted(f, c));
            &&& mean.finite()
            &&& gap(mean.value() * c, exact_total(xs)) * EXACT_COUNTS <= (2 * xs.len() + 2)
                * exact_sizes(xs) + EXACT_COUNTS * c
        }),
{
    let n = xs.len() as int;
    let u = Double::unit();
    let t = total(f, start, xs);
    let d = counted(f, c);
    lemma_pow2_pos(1074);
    lemma_total_is_close(f, start, xs);
    lemma_exact_sizes(xs);
    lemma_divided_is_finite(f, t, c);
    lemma_count_is_exact(f, c);
    assert(c * u > 0) by (nonlinear_arith)
        requires
            c >= 1,
            u > 0,
    ;
    lemma_quotient_is_close(f, t, d);
    lemma_mean_error(
        t.value(),
        exact_total(xs),
        quotient(f, t, d).value(),
        exact_sizes(xs),
        n,
        c,
        u,
        EXACT_COUNTS as int,
    );
}

/// Counts are exact.
pub proof fn lemma_count_is_exact<A: Arithmetic>(f: &A, n: int)
    requires
        rounds_in_order(f),
        0 <= n <= EXACT_COUNTS,
    ensures
        counted(f, n).finite(),
        counted(f, n).value() == n * Double::unit(),
{
    reveal(rounds_in_order);
}

/// Taking a number out of a sum.
proof fn lemma_total_without(xs: Seq<Double>, i: int)
    requires
        0 <= i < xs.len(),
    ensures
        exact_total(xs) == exact_total(xs.remove(i)) + xs[i].value(),
        exact_sizes(xs) == exact_sizes(xs.remove(i)) + size(xs[i].value()),
    decreases xs.len(),
{
    let n = xs.len() as int;
    let front = xs.drop_last();
    if i == n - 1 {
        assert(xs.remove(i) =~= front);
    } else {
        lemma_total_without(front, i);
        assert(xs.remove(i).drop_last() =~= front.remove(i));
        assert(xs.remove(i).last() == xs.last());
    }
}

/// Exact sums do not depend on the order of the numbers.
pub proof fn lemma_exact_totals_rearranged(xs: Seq<Double>, ys: Seq<Double>)
    requires
        xs.to_multiset() == ys.to_multiset(),
    ensures
        exact_total(xs) == exact_total(ys),
        exact_sizes(xs) == exact_sizes(ys),
    decreases xs.len(),
{
    broadcast use vstd::seq_lib::group_to_multiset_ensures;
    broadcast use vstd::multiset::group_multiset_axioms;

    assert(xs.to_multiset().len() == xs.len() && ys.to_multiset().len() == ys.len());
    if xs.len() > 0 {
        lemma_rearranged_contains(xs, ys, 0);
        let j = choose|j: int| 0 <= j < ys.len() && ys[j] == xs[0];
        assert(xs.remove(0).to_multiset() =~= xs.to_multiset().remove(xs[0]));
        assert(ys.remove(j).to_multiset() =~= ys.to_multiset().remove(xs[0]));
        lemma_exact_totals_rearranged(xs.remove(0), ys.remove(j));
        lemma_total_without(xs, 0);
        lemma_total_without(ys, j);
    }
}

/// The size of the larger extreme of the samples.
pub open spec fn sample_scale<A: Arithmetic>(f: &A, samples: Seq<Single>) -> int {
    larger_size(widened(f, lowest(samples)), widened(f, highest(samples)))
}

/// Whether all samples are finite.
pub open spec fn all_finite(samples: Seq<Single>) -> bool {
    forall|i: int| 0 <= i < samples.len() ==> (#[trigger] samples[i]).finite()
}

/// Samples lie between their extremes, which are finite.
pub proof fn lemma_samples_below_extremes<A: Arithmetic>(f: &A, samples: Seq<Single>)
    requires
        rounds_in_order(f),
        samples.len() > 0,
        all_finite(samples),
    ensures
        lowest(samples).finite(),
        highest(samples).finite(),
        forall|i: int|
            0 <= i < samples.len() ==> {
                &&& modest(#[trigger] all_widened(f, samples)[i])
                &&& size(all_widened(f, samples)[i].value()) <= sample_scale(f, samples)
            },
        sample_scale(f, samples) <= pow2(1300),
{
    law_lowest_is_least(samples);
    law_highest_is_greatest(samples);
    let low = lowest(samples);
    let high = highest(samples);
    assert(samples[0].finite());
    lemma_finite_is_inside(samples[0]);
    assert(samples.contains(low) && samples.contains(high));
    let i = choose|i: int| 0 <= i < samples.len() && samples[i] == low;
    let j = choose|j: int| 0 <= j < samples.len() && samples[j] == high;
    assert(samples[i].finite() && samples[j].finite());
    lemma_sample_is_modest(f, low);
    lemma_sample_is_modest(f, high);
    assert forall|i: int| 0 <= i < samples.len() implies modest(
        #[trigger] all_widened(f, samples)[i],
    ) && size(all_widened(f, samples)[i].value()) <= sample_scale(f, samples) by {
        let s = samples[i];
        assert(s.finite());
        lemma_sample_is_modest(f, s);
        reveal(rounds_in_order);
        assert(low.value() <= s.value() <= high.value());
    }
}

/// Products up to two to the power 900 do not overflow.
pub proof fn lemma_product_stays_finite<A: Arithmetic>(f: &A, a: Double, b: Double)
    requires
        rounds_in_order(f),
        a.finite(),
        b.finite(),
        size(a.value() * b.value()) <= pow2(1974) * Double::unit(),
    ensures
        product(f, a, b).finite(),
        size(product(f, a, b).value()) <= pow2(1974),
{
    lemma_large_numbers();
    lemma_named_numbers();
    let large = Double { bits: LARGE };
    let small = Double { bits: NEGATIVE_LARGE };
    let one = Double { bits: ONE };
    reveal(rounds_in_order);
    assert(one.finite() && large.finite() && small.finite());
    assert(large.value() * one.value() == large.value() * Double::unit());
    assert(small.value() * one.value() == small.value() * Double::unit());
    assert(product(f, large, one).value() == large.value());
    assert(product(f, small, one).value() == small.value());
    assert(small.value() * one.value() == -(pow2(1974) * Double::unit())) by (nonlinear_arith)
        requires
            small.value() == -pow2(1974),
            one.value() == Double::unit(),
    ;
    lemma_between_is_finite(small, product(f, a, b), large);
}

/// Sums of modest numbers are far from overflow.
pub proof fn lemma_modest_sums(n: int, m: int)
    requires
        0 <= n <= SUMMED_COUNTS,
        0 <= m <= pow2(1300),
    ensures
        2 * n * m <= pow2(1974),
{
    vstd::arithmetic::power2::lemma2_to64_rest();
    lemma_pow2_adds(53, 1300);
    lemma_pow2_strictly_increases(1353, 1974);
    assert(2 * n * m <= 0x20_0000_0000_0000 * pow2(1300)) by (nonlinear_arith)
        requires
            0 <= n <= 0xf_ffff_ffff_ffff,
            0 <= m <= pow2(1300),
    ;
}

/// The mean of numbers no larger than `m` is finite and hardly larger.
pub proof fn lemma_mean_is_modest<A: Arithmetic>(f: &A, start: Double, xs: Seq<Double>, m: int)
    requires
        rounds_in_order(f),
        start.finite(),
        start.value() == 0,
        1 <= xs.len() <= SUMMED_COUNTS,
        forall|i: int|
            0 <= i < xs.len() ==> (#[trigger] xs[i]).finite() && size(xs[i].value()) <= m,
        m <= pow2(1300),
    ensures
        ({
            let n = xs.len() as int;
            let mean = quotient(f, total(f, start, xs), counted(f, n));
            &&& mean.finite()
            &&& gap(mean.value() * n, exact_total(xs)) * EXACT_COUNTS <= n * ((2 * n + 2) * m
                + EXACT_COUNTS)
            &&& size(mean.value()) <= 2 * m + 1
        }),
{
    let n = xs.len() as int;
    assert(xs[0].finite());
    lemma_modest_sums(n, m);
    lemma_bounded_totals(f, start, xs, m);
    lemma_mean_is_close(f, start, xs, n);
    lemma_exact_sizes(xs);
    lemma_mean_bounds(
        quotient(f, total(f, start, xs), counted(f, n)).value(),
        exact_total(xs),
        exact_sizes(xs),
        m,
        n,
        EXACT_COUNTS as int,
    );
}

/// How near the mean of samples is to the exact one, and how large it can be.
pub proof fn lemma_sample_mean_is_close<A: Arithmetic>(f: &A, samples: Seq<Single>)
    requires
        rounds_in_order(f),
        1 <= samples.len() <= SUMMED_COUNTS,
        all_finite(samples),
    ensures
        ({
            let n = samples.len() as int;
            let xs = all_widened(f, samples);
            let mean = sample_mean(f, samples);
            let m = sample_scale(f, samples);
            &&& mean.finite()
            &&& gap(mean.value() * n, exact_total(xs)) * EXACT_COUNTS <= n * ((2 * n + 2) * m
                + EXACT_COUNTS)
            &&& size(mean.value()) <= 2 * m + 1
            &&& 0 <= m <= pow2(1300)
        }),
{
    lemma_named_numbers();
    let xs = all_widened(f, samples);
    let m = sample_scale(f, samples);
    let zero = Double { bits: ZERO };
    assert(zero.finite());
    lemma_samples_below_extremes(f, samples);
    assert forall|i: int| 0 <= i < xs.len() implies (#[trigger] xs[i]).finite() && size(
        xs[i].value(),
    ) <= m by {
        assert(modest(all_widened(f, samples)[i]));
    }
    lemma_mean_is_modest(f, zero, xs, m);
}

/// What the error of a mean comes to where no number is larger than `m`.
proof fn lemma_mean_bounds(v: int, s: int, a: int, m: int, n: int, k: int)
    requires
        1 <= n,
        2 * n + 2 <= k,
        size(s) <= a,
        a <= n * m,
        gap(v * n, s) * k <= (2 * n + 2) * a + k * n,
    ensures
        gap(v * n, s) * k <= n * ((2 * n + 2) * m + k),
        size(v) <= 2 * m + 1,
{
    let g = gap(v * n, s);
    assert((2 * n + 2) * a <= (2 * n + 2) * (n * m)) by (nonlinear_arith)
        requires
            a <= n * m,
            n >= 1,
    ;
    assert((2 * n + 2) * (n * m) + k * n == n * ((2 * n + 2) * m + k)) by (nonlinear_arith);
    assert(g <= a + n) by (nonlinear_arith)
        requires
            g * k <= (2 * n + 2) * a + k * n,
            2 * n + 2 <= k,
            a >= 0,
            k > 0,
    ;
    assert(size(v * n) <= 2 * a + n);
    assert(size(v * n) == size(v) * n) by (nonlinear_arith)
        requires
            n >= 1,
    ;
    assert(size(v) <= 2 * m + 1) by (nonlinear_arith)
        requires
            size(v) * n <= 2 * (n * m) + n,
            n >= 1,
    ;
}

/// Whether two means of `n` numbers no larger than `scale` agree up to the
/// rounding of their sums: they are no more than `4 n + 4` parts in two to the
/// power 53 of `scale`, and two of the smallest subnormals, apart.
pub open spec fn means_agree(x: Double, y: Double, n: int, scale: int) -> bool {
    gap(x.value(), y.value()) * EXACT_COUNTS <= (4 * n + 4) * scale + 2 * EXACT_COUNTS
}

/// Whether two such means agree once they are multiplied by `d` and divided by
/// `h`.
pub open spec fn scaled_means_agree(
    x: Double,
    y: Double,
    d: Double,
    h: Double,
    n: int,
    scale: int,
) -> bool {
    gap(x.value(), y.value()) * h.value() * EXACT_COUNTS <= d.value() * ((4 * n + 16) * scale + 3
        * EXACT_COUNTS) + 3 * EXACT_COUNTS * h.value()
}

/// The means of samples in two orders agree up to rounding.
proof fn lemma_means_agree<A: Arithmetic>(f: &A, a: Seq<Single>, b: Seq<Single>)
    requires
        rounds_in_order(f),
        1 <= a.len() <= SUMMED_COUNTS,
        all_finite(a),
        a.to_multiset() == b.to_multiset(),
    ensures
        a.len() == b.len(),
        all_finite(b),
        sample_scale(f, a) == sample_scale(f, b),
        means_agree(sample_mean(f, a), sample_mean(f, b), a.len() as int, sample_scale(f, a)),
{
    let n = a.len() as int;
    lemma_rearranged_contains(a, b, 0);
    assert forall|i: int| 0 <= i < b.len() implies (#[trigger] b[i]).finite() by {
        lemma_rearranged_contains(b, a, i);
        let j = choose|j: int| 0 <= j < a.len() && a[j] == b[i];
        assert(a[j].finite());
    }
    law_extremes_ignore_order(a, b);
    lemma_samples_below_extremes(f, a);
    lemma_samples_below_extremes(f, b);
    lemma_widened_values(f, lowest(a), lowest(b));
    lemma_widened_values(f, highest(a), highest(b));
    lemma_mapped_multisets(a, b, |x: Single| widened(f, x));
    lemma_exact_totals_rearranged(all_widened(f, a), all_widened(f, b));
    lemma_sample_mean_is_close(f, a);
    lemma_sample_mean_is_close(f, b);
    let x = sample_mean(f, a).value();
    let y = sample_mean(f, b).value();
    let s = exact_total(all_widened(f, a));
    let k = EXACT_COUNTS as int;
    let m = sample_scale(f, a);
    let e = (2 * n + 2) * m + k;
    assert(gap(x, y) * k <= 2 * e) by (nonlinear_arith)
        requires
            gap(x * n, s) * k <= n * e,
            gap(y * n, s) * k <= n * e,
            n >= 1,
            k > 0,
    {
        assert(gap(x, y) * n <= gap(x * n, s) + gap(y * n, s)) by (nonlinear_arith)
            requires
                n >= 1,
        ;
        assert(gap(x, y) * n * k <= 2 * (n * e)) by (nonlinear_arith)
            requires
                gap(x, y) * n <= gap(x * n, s) + gap(y * n, s),
                gap(x * n, s) * k <= n * e,
                gap(y * n, s) * k <= n * e,
                k > 0,
        ;
        assert(gap(x, y) * k <= 2 * e) by (nonlinear_arith)
            requires
                gap(x, y) * n * k <= 2 * (n * e),
                n >= 1,
        ;
    }
    assert(2 * e == (4 * n + 4) * m + 2 * k) by (nonlinear_arith)
        requires
            e == (2 * n + 2) * m + k,
    ;
}

/// Samples of one value are widened to one value.
proof fn lemma_widened_values<A: Arithmetic>(f: &A, a: Single, b: Single)
    requires
        rounds_in_order(f),
        a.finite(),
        b.finite(),
        a.value() == b.value(),
    ensures
        widened(f, a).value() == widened(f, b).value(),
{
    reveal(rounds_in_order);
}

/// The errors of a product `p` and a quotient `x` added up.
proof fn lemma_scaled_error(m: int, d: int, p: int, x: int, h: int, u: int, k: int)
    requires
        k >= 1,
        u > 0,
        h > 0,
        gap(p * u, m * d) * k <= size(m * d) + k * u,
        gap(x * h, p * u) * k <= size(p * u) + k * h,
    ensures
        gap(x * h, m * d) * k <= 3 * size(m * d) + u + k * (h + u),
{
    let e = m * d;
    let y = p * u;
    let z = x * h;
    assert(gap(y, e) <= size(e) + u) by (nonlinear_arith)
        requires
            gap(y, e) * k <= size(e) + k * u,
            k >= 1,
            size(e) >= 0,
            u > 0,
    ;
    assert(size(y) <= 2 * size(e) + u);
    assert(gap(z, e) <= gap(z, y) + gap(y, e));
    assert(gap(z, e) * k <= gap(z, y) * k + gap(y, e) * k) by (nonlinear_arith)
        requires
            gap(z, e) <= gap(z, y) + gap(y, e),
            k >= 1,
    ;
    assert(k * (h + u) == k * h + k * u) by (nonlinear_arith);
}

/// A mean times a duration is far from overflow.
pub proof fn lemma_modest_product<A: Arithmetic>(f: &A, mean: Double, d: Double)
    requires
        rounds_in_order(f),
        mean.finite(),
        d.finite(),
        size(mean.value()) <= 2 * pow2(1300) + 1,
        0 <= d.value() <= EXACT_COUNTS * Double::unit(),
    ensures
        product(f, mean, d).finite(),
{
    let u = Double::unit();
    let m = mean.value();
    let b = 2 * pow2(1300) + 1;
    lemma_pow2_pos(1074);
    lemma_pow2_pos(1300);
    vstd::arithmetic::power2::lemma2_to64_rest();
    lemma_pow2_adds(64, 1300);
    lemma_pow2_strictly_increases(1364, 1974);
    assert(size(m * d.value()) <= b * (EXACT_COUNTS * u)) by (nonlinear_arith)
        requires
            -b <= m <= b,
            0 <= d.value() <= EXACT_COUNTS * u,
            b > 0,
    ;
    assert(b * EXACT_COUNTS <= pow2(1364)) by (nonlinear_arith)
        requires
            b == 2 * pow2(1300) + 1,
            pow2(1300) >= 1,
            pow2(1364) == 0x1_0000_0000_0000_0000 * pow2(1300),
            EXACT_COUNTS == 0x20_0000_0000_0000,
    ;
    assert(b * (EXACT_COUNTS * u) <= pow2(1974) * u) by (nonlinear_arith)
        requires
            b * EXACT_COUNTS <= pow2(1974),
            u > 0,
    ;
    lemma_product_stays_finite(f, mean, d);
}

/// How near a scaled mean is to the exact one.
pub proof fn lemma_scaled_mean_is_close<A: Arithmetic>(f: &A, mean: Double, d: Double, h: Double)
    requires
        rounds_in_order(f),
        mean.finite(),
        d.finite(),
        h.finite(),
        size(mean.value()) <= 2 * pow2(1300) + 1,
        0 <= d.value() <= EXACT_COUNTS * Double::unit(),
        h.value() >= Double::unit(),
    ensures
        ({
            let x = quotient(f, product(f, mean, d), h);
            &&& x.finite()
            &&& gap(x.value() * h.value(), mean.value() * d.value()) * EXACT_COUNTS <= 3 * size(
                mean.value() * d.value(),
            ) + Double::unit() + EXACT_COUNTS * (h.value() + Double::unit())
        }),
{
    let u = Double::unit();
    let m = mean.value();
    lemma_pow2_pos(1074);
    lemma_modest_product(f, mean, d);
    lemma_product_is_close(f, mean, d);
    let p = product(f, mean, d);
    lemma_quotient_stays_finite(f, p, h);
    lemma_quotient_is_close(f, p, h);
    lemma_scaled_error(
        m,
        d.value(),
        p.value(),
        quotient(f, p, h).value(),
        h.value(),
        u,
        EXACT_COUNTS as int,
    );
}

/// What the errors of two scaled means, `x` of `a` and `y` of `b`, come to.
proof fn lemma_scaled_errors_apart(
    x: int,
    y: int,
    a: int,
    b: int,
    d: int,
    h: int,
    m: int,
    n: int,
    u: int,
    k: int,
)
    requires
        k >= 6,
        u > 0,
        h >= 4 * u,
        d >= 0,
        n >= 1,
        m >= 0,
        size(a) <= 2 * m + 1,
        size(b) <= 2 * m + 1,
        gap(a, b) * k <= (4 * n + 4) * m + 2 * k,
        gap(x * h, a * d) * k <= 3 * size(a * d) + u + k * (h + u),
        gap(y * h, b * d) * k <= 3 * size(b * d) + u + k * (h + u),
    ensures
        gap(x, y) * h * k <= d * ((4 * n + 16) * m + 3 * k) + 3 * k * h,
{
    let p = x * h;
    let q = y * h;
    let s = a * d;
    let t = b * d;
    let w = (2 * m + 1) * d;
    assert(size(s) <= w && size(t) <= w) by (nonlinear_arith)
        requires
            s == a * d,
            t == b * d,
            w == (2 * m + 1) * d,
            -(2 * m + 1) <= a <= 2 * m + 1,
            -(2 * m + 1) <= b <= 2 * m + 1,
            d >= 0,
    ;
    let g = gap(a, b) * k;
    assert(gap(s, t) * k == g * d) by (nonlinear_arith)
        requires
            s == a * d,
            t == b * d,
            g == gap(a, b) * k,
            d >= 0,
    ;
    assert(g * d <= ((4 * n + 4) * m + 2 * k) * d) by (nonlinear_arith)
        requires
            g <= (4 * n + 4) * m + 2 * k,
            d >= 0,
    ;
    assert(gap(x, y) * h == gap(p, q)) by (nonlinear_arith)
        requires
            p == x * h,
            q == y * h,
            h > 0,
    ;
    assert(gap(p, q) <= gap(p, s) + gap(s, t) + gap(q, t));
    assert(gap(p, q) * k <= gap(p, s) * k + gap(s, t) * k + gap(q, t) * k) by (nonlinear_arith)
        requires
            gap(p, q) <= gap(p, s) + gap(s, t) + gap(q, t),
            k >= 6,
    ;
    assert(2 * u + 2 * (k * (h + u)) <= 3 * k * h) by (nonlinear_arith)
        requires
            h >= 4 * u,
            k >= 6,
            u > 0,
    ;
    assert(6 * w + ((4 * n + 4) * m + 2 * k) * d <= d * ((4 * n + 16) * m + 3 * k))
        by (nonlinear_arith)
        requires
            w == (2 * m + 1) * d,
            k >= 6,
            d >= 0,
    ;
}

/// How long a recording can be.
pub proof fn lemma_duration<A: Arithmetic>(f: &A, n: int, sps: u32)
    requires
        rounds_in_order(f),
        0 <= n <= EXACT_COUNTS,
        sps > 0,
    ensures
        ({
            let duration = quotient(f, counted(f, n), counted(f, sps as int));
            &&& duration.finite()
            &&& 0 <= duration.value() <= EXACT_COUNTS * Double::unit()
        }),
{
    let u = Double::unit();
    lemma_pow2_pos(1074);
    lemma_count_is_exact(f, n);
    lemma_count_is_exact(f, sps as int);
    assert(sps * u >= u && 0 <= n * u && n * u <= EXACT_COUNTS * u) by (nonlinear_arith)
        requires
            sps >= 1,
            0 <= n <= EXACT_COUNTS,
            u > 0,
    ;
    lemma_quotient_stays_finite(f, counted(f, n), counted(f, sps as int));
}

/// Sums of so many times one number.
proof fn lemma_exact_copies(x: Double, n: nat)
    ensures
        exact_total(copies(x, n)) == n * x.value(),
        exact_sizes(copies(x, n)) == n * size(x.value()),
    decreases n,
{
    if n > 0 {
        let k = (n - 1) as nat;
        lemma_exact_copies(x, k);
        assert(copies(x, n).drop_last() =~= copies(x, k));
        assert(n * x.value() == k * x.value() + x.value()) by (nonlinear_arith)
            requires
                k == n - 1,
        ;
        assert(n * size(x.value()) == k * size(x.value()) + size(x.value())) by (nonlinear_arith)
            requires
                k == n - 1,
        ;
    } else {
        assert(0 * x.value() == 0 && 0 * size(x.value()) == 0);
    }
}

/// But for rounding, the mean of so many times one number is that number: it is
/// no more than `2 n + 2` parts in two to the power 53 of the number, and one
/// smallest subnormal, away.
pub proof fn law_repeated_mean_is_close<A: Arithmetic>(f: &A, x: Double, n: nat)
    requires
        rounds_in_order(f),
        x.finite(),
        1 <= n <= SUMMED_COUNTS,
        adds_up(f, x, n),
    ensures
        gap(repeated_mean(f, x, n).value(), x.value()) * EXACT_COUNTS <= (2 * n + 2) * size(
            x.value(),
        ) + EXACT_COUNTS,
{
    lemma_named_numbers();
    let zero = Double { bits: ZERO };
    let xs = copies(x, n);
    let k = EXACT_COUNTS as int;
    assert forall|j: int| 0 <= j <= xs.len() implies (#[trigger] total(
        f,
        zero,
        xs.take(j),
    )).finite() by {
        assert(xs.take(j) =~= copies(x, j as nat));
    }
    lemma_mean_is_close(f, zero, xs, n as int);
    lemma_exact_copies(x, n);
    let v = repeated_mean(f, x, n).value();
    let w = x.value();
    assert(gap(v, w) * k <= (2 * n + 2) * size(w) + k) by (nonlinear_arith)
        requires
            gap(v * n, n * w) * k <= (2 * n + 2) * (n * size(w)) + k * n,
            n >= 1,
            k > 0,
    {
        assert(gap(v * n, n * w) == gap(v, w) * n) by (nonlinear_arith)
            requires
                n >= 1,
        ;
        assert((2 * n + 2) * (n * size(w)) + k * n == ((2 * n + 2) * size(w) + k) * n)
            by (nonlinear_arith);
        assert(gap(v, w) * k <= (2 * n + 2) * size(w) + k) by (nonlinear_arith)
            requires
                gap(v, w) * n * k <= ((2 * n + 2) * size(w) + k) * n,
                n >= 1,
        ;
    }
}

/// Finite samples rise once they are in ascending order.
pub proof fn lemma_ascending_samples_rise(s: Seq<Single>)
    requires
        all_finite(s),
    ensures
        samples_rising(ascending(s)),
        ascending(s).len() == s.len(),
{
    let t = ascending(s);
    lemma_ascending(s);
    lemma_same_members(s, t);
    assert forall|i: int| 0 <= i < t.len() implies (#[trigger] t[i]).finite() by {
        assert(t.contains(t[i]) && s.contains(t[i]));
        let j = choose|j: int| 0 <= j < s.len() && s[j] == t[i];
        assert(s[j].finite());
    }
    assert forall|i: int, j: int| 0 <= i <= j < t.len() implies (#[trigger] t[i]).value() <= (
    #[trigger] t[j]).value() by {
        lemma_rank_orders_values(t[i], t[j]);
    }
}

/// Whether `x` is at most `y` up to the rounding of a mean of `n` numbers no
/// larger than `scale`.
pub open spec fn at_most_summed(x: Double, y: Double, n: int, scale: int) -> bool {
    (x.value() - y.value()) * EXACT_COUNTS <= (2 * n + 2) * scale + EXACT_COUNTS
}

/// An exact sum lies between so many times the lowest and the highest number.
proof fn lemma_exact_total_between(xs: Seq<Double>, low: int, high: int)
    requires
        forall|i: int| 0 <= i < xs.len() ==> low <= (#[trigger] xs[i]).value() <= high,
    ensures
        xs.len() * low <= exact_total(xs) <= xs.len() * high,
    decreases xs.len(),
{
    let n = xs.len() as int;
    if n > 0 {
        let front = xs.drop_last();
        assert(xs.last() == xs[n - 1]);
        assert forall|i: int| 0 <= i < front.len() implies low <= (#[trigger] front[i]).value()
            <= high by {
            assert(low <= xs[i].value());
        }
        lemma_exact_total_between(front, low, high);
        assert(n * low == (n - 1) * low + low && n * high == (n - 1) * high + high)
            by (nonlinear_arith);
    }
}

/// But for rounding, the mean of rising samples lies between the first and the
/// last.
pub proof fn law_mean_lies_between_ends<A: Arithmetic>(f: &A, start: Double, sorted: Seq<Single>)
    requires
        rounds_in_order(f),
        start.finite(),
        start.value() == 0,
        1 <= sorted.len() <= SUMMED_COUNTS,
        samples_rising(sorted),
    ensures
        ({
            let n = sorted.len() as int;
            let first = widened(f, sorted[0]);
            let last = widened(f, sorted.last());
            let mean = quotient(f, total(f, start, all_widened(f, sorted)), counted(f, n));
            let scale = larger_size(first, last);
            &&& mean.finite()
            &&& at_most_summed(first, mean, n, scale)
            &&& at_most_summed(mean, last, n, scale)
        }),
{
    let n = sorted.len() as int;
    let xs = all_widened(f, sorted);
    let m = larger_size(xs[0], xs.last());
    let k = EXACT_COUNTS as int;
    lemma_widened_rising(f, sorted);
    assert(sorted[0].finite() && sorted[n - 1].finite());
    lemma_sample_is_modest(f, sorted[0]);
    lemma_sample_is_modest(f, sorted[n - 1]);
    assert forall|i: int| 0 <= i < xs.len() implies (#[trigger] xs[i]).finite() && size(
        xs[i].value(),
    ) <= m by {
        lemma_rising_size(xs, i);
    }
    let low = xs[0].value();
    let high = xs[n - 1].value();
    assert forall|i: int| 0 <= i < xs.len() implies low <= (#[trigger] xs[i]).value() <= high by {
        assert(xs[0].value() <= xs[i].value() && xs[i].value() <= xs[n - 1].value());
    }
    lemma_mean_is_modest(f, start, xs, m);
    lemma_exact_total_between(xs, low, high);
    let v = quotient(f, total(f, start, xs), counted(f, n)).value();
    lemma_mean_between(v, exact_total(xs), low, high, (2 * n + 2) * m + k, n, k);
}

/// A mean near an exact one that lies between two numbers lies near between them.
proof fn lemma_mean_between(v: int, s: int, low: int, high: int, e: int, n: int, k: int)
    requires
        n >= 1,
        k > 0,
        n * low <= s <= n * high,
        gap(v * n, s) * k <= n * e,
    ensures
        (low - v) * k <= e,
        (v - high) * k <= e,
{
    assert((low - v) * k <= e) by (nonlinear_arith)
        requires
            n >= 1,
            k > 0,
            n * low <= s,
            gap(v * n, s) * k <= n * e,
    {
        assert((low - v) * n <= gap(v * n, s)) by (nonlinear_arith)
            requires
                n * low <= s,
        ;
        assert((low - v) * n * k <= n * e) by (nonlinear_arith)
            requires
                (low - v) * n <= gap(v * n, s),
                gap(v * n, s) * k <= n * e,
                k > 0,
        ;
        assert((low - v) * k <= e) by (nonlinear_arith)
            requires
                (low - v) * n * k <= n * e,
                n >= 1,
        ;
    }
    assert((v - high) * k <= e) by (nonlinear_arith)
        requires
            n >= 1,
            k > 0,
            s <= n * high,
            gap(v * n, s) * k <= n * e,
    {
        assert((v - high) * n <= gap(v * n, s)) by (nonlinear_arith)
            requires
                s <= n * high,
        ;
        assert((v - high) * n * k <= n * e) by (nonlinear_arith)
            requires
                (v - high) * n <= gap(v * n, s),
                gap(v * n, s) * k <= n * e,
                k > 0,
        ;
        assert((v - high) * k <= e) by (nonlinear_arith)
            requires
                (v - high) * n * k <= n * e,
                n >= 1,
        ;
    }
}

/// Whether two sample deviations of `n` numbers no larger than `scale` agree up
/// to rounding: their squares, the variances, are apart by no more than some
/// `100 n` parts in two to the power 53 of the square of the widest distance, and
/// by what subnormals can add to that. `3 scale + 1` bounds the distance of a
/// number from their mean.
pub open spec fn deviations_agree(x: Double, y: Double, n: int, scale: int) -> bool {
    let d = 3 * scale + 1;
    gap(x.value() * x.value(), y.value() * y.value()) * EXACT_COUNTS <= 2 * deviation_slack(
        d,
        n,
        Double::unit(),
        EXACT_COUNTS as int,
    )
}

/// Half the bound of [`deviations_agree`] for the distance `d`.
pub open spec fn deviation_slack(d: int, n: int, u: int, k: int) -> int {
    (48 * n + 160) * (d * d) + 8 * k * d + 7 * k * u
}

/// The squared distances of numbers from a mean.
pub open spec fn squares<A: Arithmetic>(f: &A, xs: Seq<Double>, mean: Double) -> Seq<Double> {
    xs.map_values(|x: Double| squared_distance(f, x, mean))
}

/// Differences of numbers up to two to the power 900 do not overflow.
pub proof fn lemma_difference_stays_finite<A: Arithmetic>(f: &A, a: Double, b: Double)
    requires
        rounds_in_order(f),
        a.finite(),
        b.finite(),
        size(a.value()) <= pow2(1974),
        size(b.value()) <= pow2(1974),
    ensures
        difference(f, a, b).finite(),
{
    lemma_large_numbers();
    let large = Double { bits: LARGE };
    let small = Double { bits: NEGATIVE_LARGE };
    let top = Double { bits: TWICE_LARGE };
    let bottom = Double { bits: NEGATIVE_TWICE_LARGE };
    reveal(rounds_in_order);
    assert(top.finite() && bottom.finite());
    assert(difference(f, large, small).value() == top.value());
    assert(difference(f, small, large).value() == bottom.value());
    assert(difference(f, a, b).value() <= difference(f, large, small).value());
    assert(difference(f, small, large).value() <= difference(f, a, b).value());
    lemma_between_is_finite(bottom, difference(f, a, b), top);
}

/// A square is not negative.
pub proof fn lemma_square_is_positive<A: Arithmetic>(f: &A, x: Double)
    requires
        rounds_in_order(f),
        x.finite(),
    ensures
        product(f, x, x).value() >= 0,
{
    reveal(rounds_in_order);
    lemma_named_numbers();
    let zero = Double { bits: ZERO };
    assert(zero.finite());
    assert(zero.value() * zero.value() == zero.value() * Double::unit()) by (nonlinear_arith)
        requires
            zero.value() == 0,
    ;
    assert(product(f, zero, zero).value() == zero.value());
    assert(zero.value() * zero.value() <= x.value() * x.value()) by (nonlinear_arith)
        requires
            zero.value() == 0,
    ;
}

/// Squares of distances between modest numbers are far from overflow.
proof fn lemma_modest_squares(m: int, d: int)
    requires
        0 <= m <= pow2(1300),
        d == 3 * m + 1,
    ensures
        4 * (d * d) <= pow2(1974) * Double::unit(),
        8 * (d * d) <= pow2(1600) * Double::unit(),
        2 * m + 1 <= pow2(1974),
        m <= pow2(1974),
{
    let p = pow2(1300) as int;
    lemma_pow2_pos(1300);
    vstd::arithmetic::power2::lemma2_to64();
    lemma_pow2_adds(2, 1300);
    lemma_pow2_adds(3, 2604);
    lemma_pow2_adds(1302, 1302);
    lemma_pow2_adds(1600, 1074);
    lemma_pow2_strictly_increases(2607, 2674);
    lemma_pow2_strictly_increases(1600, 1974);
    lemma_pow2_strictly_increases(1302, 1974);
    lemma_pow2_pos(1074);
    let q = pow2(1302) as int;
    assert(d <= q);
    assert(d * d <= q * q) by (nonlinear_arith)
        requires
            0 <= d <= q,
    ;
    assert(pow2(1600) * Double::unit() <= pow2(1974) * Double::unit()) by (nonlinear_arith)
        requires
            pow2(1600) <= pow2(1974),
            Double::unit() > 0,
    ;
}

/// What a squared distance can be: `d` is the rounded distance, `s` its rounded
/// square.
proof fn lemma_square_bounds(x: int, mean: int, d: int, s: int, m: int, w: int, u: int, k: int)
    requires
        k >= 1,
        u > 0,
        w == 3 * m + 1,
        size(x) <= m,
        size(mean) <= 2 * m + 1,
        gap(d, x - mean) * k <= size(x - mean),
        gap(s * u, d * d) * k <= size(d * d) + k * u,
    ensures
        size(x - mean) <= w,
        gap(d, x - mean) * k <= w,
        size(d) <= 2 * w,
        d * d <= 4 * (w * w),
        gap(s * u, d * d) * k <= 4 * (w * w) + k * u,
        s * u <= 8 * (w * w) + u,
{
    assert(size(x - mean) <= w);
    assert(gap(d, x - mean) <= w) by (nonlinear_arith)
        requires
            gap(d, x - mean) * k <= w,
            k >= 1,
            w >= 0,
    ;
    assert(d * d <= 4 * (w * w) && d * d >= 0) by (nonlinear_arith)
        requires
            -2 * w <= d <= 2 * w,
    ;
    let g = gap(s * u, d * d);
    assert(g <= 4 * (w * w) + u) by (nonlinear_arith)
        requires
            g * k <= 4 * (w * w) + k * u,
            k >= 1,
            u > 0,
            w * w >= 0,
    ;
}

/// The squared distance of a number from a mean, and how near it is to exact.
pub proof fn lemma_squared_distance<A: Arithmetic>(f: &A, x: Double, mean: Double, m: int)
    requires
        rounds_in_order(f),
        x.finite(),
        mean.finite(),
        size(x.value()) <= m,
        size(mean.value()) <= 2 * m + 1,
        m <= pow2(1300),
    ensures
        ({
            let u = Double::unit();
            let w = 3 * m + 1;
            let d = difference(f, x, mean);
            let s = squared_distance(f, x, mean);
            let v = d.value();
            &&& d.finite()
            &&& s.finite()
            &&& s.value() >= 0
            &&& gap(v, x.value() - mean.value()) * EXACT_COUNTS <= w
            &&& size(v) <= 2 * w
            &&& gap(s.value() * u, v * v) * EXACT_COUNTS <= 4 * (w * w) + EXACT_COUNTS * u
            &&& s.value() * u <= 8 * (w * w) + u
        }),
{
    let u = Double::unit();
    let w = 3 * m + 1;
    let d = difference(f, x, mean);
    let v = d.value();
    lemma_pow2_pos(1074);
    lemma_modest_squares(m, w);
    lemma_difference_stays_finite(f, x, mean);
    lemma_difference_is_close(f, x, mean);
    assert(size(x.value() - mean.value()) <= w);
    assert(gap(v, x.value() - mean.value()) <= w) by (nonlinear_arith)
        requires
            gap(v, x.value() - mean.value()) * EXACT_COUNTS <= w,
            w >= 0,
    ;
    assert(0 <= v * v && v * v <= 4 * (w * w)) by (nonlinear_arith)
        requires
            -2 * w <= v <= 2 * w,
    ;
    lemma_product_stays_finite(f, d, d);
    lemma_product_is_close(f, d, d);
    lemma_square_is_positive(f, d);
    lemma_square_bounds(
        x.value(),
        mean.value(),
        v,
        squared_distance(f, x, mean).value(),
        m,
        w,
        u,
        EXACT_COUNTS as int,
    );
}

/// A sum of numbers that are not negative is not negative.
proof fn lemma_total_is_positive<A: Arithmetic>(f: &A, start: Double, xs: Seq<Double>)
    requires
        rounds_in_order(f),
        start.finite(),
        start.value() == 0,
        forall|i: int|
            0 <= i < xs.len() ==> (#[trigger] xs[i]).finite() && xs[i].value() >= 0,
        totals_finite(f, start, xs),
    ensures
        total(f, start, xs).value() >= 0,
        exact_total(xs) == exact_sizes(xs),
    decreases xs.len(),
{
    let n = xs.len() as int;
    if n > 0 {
        let front = xs.drop_last();
        assert(xs.last() == xs[n - 1]);
        assert forall|i: int| 0 <= i < front.len() implies (#[trigger] front[i]).finite()
            && front[i].value() >= 0 by {
            assert(xs[i].finite());
        }
        assert forall|k: int| 0 <= k <= front.len() implies (#[trigger] total(
            f,
            start,
            front.take(k),
        )).finite() by {
            assert(front.take(k) =~= xs.take(k));
        }
        lemma_total_is_positive(f, start, front);
        assert(front.take(n - 1) =~= front);
        assert(total(f, start, front.take(n - 1)).finite());
        lemma_named_numbers();
        reveal(rounds_in_order);
        let zero = Double { bits: ZERO };
        assert(zero.finite());
        assert(sum(f, zero, zero).value() == zero.value());
        assert(sum(f, zero, zero).value() <= sum(f, total(f, start, front), xs.last()).value());
    }
}

/// A bound for squared distances where `w` bounds the distances.
pub open spec fn square_bound(w: int) -> int {
    8 * (w * w) / Double::unit() + 1
}

/// What the bound for squared distances is worth.
pub proof fn lemma_square_bound(m: int, n: int)
    requires
        0 <= m <= pow2(1300),
        0 <= n <= SUMMED_COUNTS,
    ensures
        ({
            let w = 3 * m + 1;
            let b = square_bound(w);
            &&& 1 <= b
            &&& b * Double::unit() <= 8 * (w * w) + Double::unit()
            &&& 2 * n * b <= pow2(1974)
            &&& forall|s: int|
                #![trigger s * Double::unit()]
                s * Double::unit() <= 8 * (w * w) + Double::unit() ==> s <= b
        }),
{
    let w = 3 * m + 1;
    let u = Double::unit();
    let a = 8 * (w * w);
    let b = square_bound(w);
    lemma_pow2_pos(1074);
    lemma_modest_squares(m, w);
    assert(a >= 0) by (nonlinear_arith)
        requires
            a == 8 * (w * w),
    ;
    vstd::arithmetic::div_mod::lemma_fundamental_div_mod(a, u);
    let q = a / u;
    assert(q >= 0 && q * u <= a && a < (q + 1) * u) by (nonlinear_arith)
        requires
            a == u * q + a % u,
            0 <= a % u < u,
            a >= 0,
            u > 0,
    ;
    assert(b * u == q * u + u) by (nonlinear_arith)
        requires
            b == q + 1,
    ;
    assert forall|s: int|
        #![trigger s * Double::unit()]
        s * Double::unit() <= 8 * (w * w) + Double::unit() implies s <= b by {
        assert(s <= q + 1) by (nonlinear_arith)
            requires
                s * u <= a + u,
                a < (q + 1) * u,
                u > 0,
        ;
    }
    let p = pow2(1600) as int;
    assert(q <= p) by (nonlinear_arith)
        requires
            q * u <= a,
            a <= p * u,
            u > 0,
    ;
    lemma_pow2_pos(1600);
    vstd::arithmetic::power2::lemma2_to64_rest();
    lemma_pow2_adds(54, 1600);
    lemma_pow2_strictly_increases(1654, 1974);
    assert(2 * n * b <= 0x40_0000_0000_0000 * p) by (nonlinear_arith)
        requires
            0 <= n <= 0xf_ffff_ffff_ffff,
            b == q + 1,
            0 <= q <= p,
            p >= 1,
    ;
}

/// The sample variance of samples around their mean: finite, not negative, and
/// near the exact one of the rounded squares.
pub proof fn lemma_variance_is_close<A: Arithmetic>(f: &A, xs: Seq<Double>, mean: Double, m: int)
    requires
        rounds_in_order(f),
        2 <= xs.len() <= SUMMED_COUNTS,
        forall|i: int|
            0 <= i < xs.len() ==> (#[trigger] xs[i]).finite() && size(xs[i].value()) <= m,
        mean.finite(),
        size(mean.value()) <= 2 * m + 1,
        0 <= m <= pow2(1300),
    ensures
        ({
            let n = xs.len() as int;
            let v = variance_of(f, xs, mean);
            let s = exact_total(squares(f, xs, mean));
            let b = square_bound(3 * m + 1);
            &&& v.finite()
            &&& 0 <= v.value() <= pow2(1974)
            &&& 0 <= s <= n * b
            &&& gap(v.value() * (n - 1), s) * EXACT_COUNTS <= (2 * n + 2) * (n * b) + EXACT_COUNTS
                * (n - 1)
        }),
{
    let n = xs.len() as int;
    let start = Double { bits: NEGATIVE_ZERO };
    let sq = squares(f, xs, mean);
    let w = 3 * m + 1;
    let b = square_bound(w);
    assert(start.finite() && start.magnitude() == 0);
    lemma_square_bound(m, n);
    assert forall|i: int| 0 <= i < sq.len() implies (#[trigger] sq[i]).finite() && sq[i].value()
        >= 0 && size(sq[i].value()) <= b by {
        assert(xs[i].finite());
        lemma_squared_distance(f, xs[i], mean, m);
        assert(sq[i].value() * Double::unit() <= 8 * (w * w) + Double::unit());
    }
    lemma_bounded_totals(f, start, sq, b);
    lemma_total_is_positive(f, start, sq);
    lemma_mean_is_close(f, start, sq, n - 1);
    lemma_count_is_exact(f, n - 1);
    let u = Double::unit();
    lemma_pow2_pos(1074);
    assert((n - 1) * u >= u) by (nonlinear_arith)
        requires
            n >= 2,
            u > 0,
    ;
    lemma_quotient_stays_finite(f, total(f, start, sq), counted(f, n - 1));
    assert(variance_of(f, xs, mean) == quotient(f, total(f, start, sq), counted(f, n - 1)));
    let a = exact_sizes(sq);
    assert((2 * n + 2) * a <= (2 * n + 2) * (n * b)) by (nonlinear_arith)
        requires
            a <= n * b,
            n >= 0,
    ;
}

/// Sums whose numbers are apart by no more than `q`, taken `w` times.
proof fn lemma_totals_apart(xs: Seq<Double>, ys: Seq<Double>, q: int, w: int)
    requires
        xs.len() == ys.len(),
        w >= 0,
        forall|i: int|
            0 <= i < xs.len() ==> gap((#[trigger] xs[i]).value(), ys[i].value()) * w <= q,
    ensures
        gap(exact_total(xs), exact_total(ys)) * w <= xs.len() * q,
    decreases xs.len(),
{
    let n = xs.len() as int;
    if n > 0 {
        let a = xs.drop_last();
        let b = ys.drop_last();
        assert forall|i: int| 0 <= i < a.len() implies gap((#[trigger] a[i]).value(), b[i].value())
            * w <= q by {
            assert(gap(xs[i].value(), ys[i].value()) * w <= q);
        }
        lemma_totals_apart(a, b, q, w);
        let x = xs[n - 1].value();
        let y = ys[n - 1].value();
        assert(gap(x, y) * w <= q);
        let g = gap(exact_total(a), exact_total(b));
        let h = gap(exact_total(xs), exact_total(ys));
        assert(h <= g + gap(x, y));
        assert(h * w <= g * w + gap(x, y) * w) by (nonlinear_arith)
            requires
                h <= g + gap(x, y),
                w >= 0,
        ;
        assert(n * q == (n - 1) * q + q) by (nonlinear_arith);
    }
}

/// How far two squares of distances from two means can be apart: `d` and `e` are
/// the rounded distances, `s` and `t` their rounded squares.
proof fn lemma_squares_apart(
    x: int,
    a: int,
    b: int,
    d: int,
    e: int,
    s: int,
    t: int,
    g: int,
    w: int,
    u: int,
    k: int,
)
    requires
        k >= 1,
        u > 0,
        w >= 0,
        gap(a, b) * k <= g,
        gap(d, x - a) * k <= w,
        gap(e, x - b) * k <= w,
        size(d) <= 2 * w,
        size(e) <= 2 * w,
        gap(s * u, d * d) * k <= 4 * (w * w) + k * u,
        gap(t * u, e * e) * k <= 4 * (w * w) + k * u,
    ensures
        gap(s, t) * (u * k) <= 4 * w * (g + 2 * w) + 8 * (w * w) + 2 * (k * u),
{
    let h = gap(d, e);
    assert(h <= gap(a, b) + gap(d, x - a) + gap(e, x - b));
    assert(h * k <= g + 2 * w) by (nonlinear_arith)
        requires
            h <= gap(a, b) + gap(d, x - a) + gap(e, x - b),
            gap(a, b) * k <= g,
            gap(d, x - a) * k <= w,
            gap(e, x - b) * k <= w,
            k >= 1,
    ;
    let p = d * d;
    let q = e * e;
    assert(gap(p, q) <= h * (4 * w)) by (nonlinear_arith)
        requires
            p == d * d,
            q == e * e,
            h == gap(d, e),
            -2 * w <= d <= 2 * w,
            -2 * w <= e <= 2 * w,
    {
        assert(p - q == (d - e) * (d + e)) by (nonlinear_arith)
            requires
                p == d * d,
                q == e * e,
        ;
        let y = d + e;
        let z = d - e;
        assert(-4 * w <= y && y <= 4 * w);
        assert(size(z * y) <= size(z) * (4 * w)) by (nonlinear_arith)
            requires
                -4 * w <= y <= 4 * w,
        ;
    }
    assert(gap(p, q) * k <= 4 * w * (g + 2 * w)) by (nonlinear_arith)
        requires
            gap(p, q) <= h * (4 * w),
            h * k <= g + 2 * w,
            w >= 0,
            k >= 1,
    {
        assert(gap(p, q) * k <= h * (4 * w) * k) by (nonlinear_arith)
            requires
                gap(p, q) <= h * (4 * w),
                k >= 1,
        ;
        assert(h * (4 * w) * k == (h * k) * (4 * w)) by (nonlinear_arith);
        assert((h * k) * (4 * w) <= (g + 2 * w) * (4 * w)) by (nonlinear_arith)
            requires
                h * k <= g + 2 * w,
                w >= 0,
        ;
        assert((g + 2 * w) * (4 * w) == 4 * w * (g + 2 * w)) by (nonlinear_arith);
    }
    let y = s * u;
    let z = t * u;
    assert(gap(s, t) * (u * k) == gap(y, z) * k) by (nonlinear_arith)
        requires
            y == s * u,
            z == t * u,
            u > 0,
    ;
    assert(gap(y, z) <= gap(y, p) + gap(p, q) + gap(z, q));
    assert(gap(y, z) * k <= gap(y, p) * k + gap(p, q) * k + gap(z, q) * k) by (nonlinear_arith)
        requires
            gap(y, z) <= gap(y, p) + gap(p, q) + gap(z, q),
            k >= 1,
    ;
}

/// How far variances can be apart: `v` and `y` are near sums `s` and `t` divided
/// by `c`.
proof fn lemma_variances_apart(
    v: int,
    y: int,
    s: int,
    t: int,
    n: int,
    a: int,
    q: int,
    u: int,
    k: int,
)
    requires
        n >= 2,
        2 * n + 2 <= k,
        u > 0,
        v >= 0,
        y >= 0,
        0 <= s <= a,
        0 <= t <= a,
        gap(v * (n - 1), s) * k <= (2 * n + 2) * a + k * (n - 1),
        gap(y * (n - 1), t) * k <= (2 * n + 2) * a + k * (n - 1),
        gap(s, t) * (u * k) <= n * q,
    ensures
        v * (n - 1) <= 2 * a + (n - 1),
        y * (n - 1) <= 2 * a + (n - 1),
        gap(v * (n - 1), y * (n - 1)) * (u * k) <= 2 * u * ((2 * n + 2) * a + k * (n - 1)) + n * q,
{
    let c = n - 1;
    let e = (2 * n + 2) * a + k * c;
    let p = v * c;
    let r = y * c;
    assert((2 * n + 2) * a <= k * a) by (nonlinear_arith)
        requires
            2 * n + 2 <= k,
            a >= 0,
    ;
    assert(gap(p, s) <= a + c) by (nonlinear_arith)
        requires
            gap(p, s) * k <= k * a + k * c,
            k > 0,
    ;
    assert(gap(r, t) <= a + c) by (nonlinear_arith)
        requires
            gap(r, t) * k <= k * a + k * c,
            k > 0,
    ;
    assert(gap(p, r) <= gap(p, s) + gap(s, t) + gap(r, t));
    let x = gap(p, s) * k;
    let z = gap(r, t) * k;
    assert(gap(p, r) * (u * k) <= x * u + gap(s, t) * (u * k) + z * u) by (nonlinear_arith)
        requires
            gap(p, r) <= gap(p, s) + gap(s, t) + gap(r, t),
            x == gap(p, s) * k,
            z == gap(r, t) * k,
            u > 0,
            k > 0,
    ;
    assert(x * u <= e * u && z * u <= e * u) by (nonlinear_arith)
        requires
            x <= e,
            z <= e,
            u > 0,
    ;
    assert(2 * u * e == e * u + e * u) by (nonlinear_arith);
}

/// How far the squares of two deviations, `r` and `z`, can be apart where their
/// variances are `v` and `y`.
proof fn lemma_deviations_apart(
    r: int,
    z: int,
    v: int,
    y: int,
    n: int,
    a: int,
    w: int,
    g: int,
    u: int,
    k: int,
)
    requires
        n >= 2,
        2 * n + 2 <= k,
        k >= 18,
        u > 0,
        v >= 0,
        y >= 0,
        w >= 0,
        a * u <= n * (8 * (w * w) + u),
        g <= (4 * n + 4) * w + 2 * k,
        v * (n - 1) <= 2 * a + (n - 1),
        y * (n - 1) <= 2 * a + (n - 1),
        gap(v * (n - 1), y * (n - 1)) * (u * k) <= 2 * u * ((2 * n + 2) * a + k * (n - 1)) + n * (4
            * w * (g + 2 * w) + 8 * (w * w) + 2 * (k * u)),
        gap(r * r, v * u) * k <= 3 * (v * u),
        gap(z * z, y * u) * k <= 3 * (y * u),
    ensures
        gap(r * r, z * z) * k <= 2 * deviation_slack(w, n, u, k),
{
    let c = n - 1;
    let ww = w * w;
    let q = 4 * w * (g + 2 * w) + 8 * ww + 2 * (k * u);
    let b = n * (8 * ww + u);
    let e = deviation_slack(w, n, u, k);
    let p = r * r;
    let o = z * z;
    assert(gap(p, o) <= gap(p, v * u) + gap(v * u, y * u) + gap(o, y * u));
    assert(gap(p, o) * k <= 3 * (v * u) + gap(v * u, y * u) * k + 3 * (y * u)) by (nonlinear_arith)
        requires
            gap(p, o) <= gap(p, v * u) + gap(v * u, y * u) + gap(o, y * u),
            gap(p, v * u) * k <= 3 * (v * u),
            gap(o, y * u) * k <= 3 * (y * u),
            k > 0,
    ;
    assert(gap(v * u, y * u) * k * c == gap(v * c, y * c) * (u * k)) by (nonlinear_arith)
        requires
            u > 0,
            c >= 1,
    {
        assert(gap(v * u, y * u) == gap(v, y) * u) by (nonlinear_arith)
            requires
                u > 0,
        ;
        assert(gap(v * c, y * c) == gap(v, y) * c) by (nonlinear_arith)
            requires
                c >= 1,
        ;
        assert(gap(v, y) * u * k * c == gap(v, y) * c * (u * k)) by (nonlinear_arith);
    }
    let h = gap(v * u, y * u) * k;
    assert(gap(p, o) * k * c <= 3 * (v * c) * u + h * c + 3 * (y * c) * u) by (nonlinear_arith)
        requires
            gap(p, o) * k <= 3 * (v * u) + h + 3 * (y * u),
            c >= 1,
    ;
    assert(3 * (v * c) * u <= 6 * (a * u) + 3 * (c * u) && 3 * (y * c) * u <= 6 * (a * u) + 3 * (c
        * u)) by (nonlinear_arith)
        requires
            v * c <= 2 * a + c,
            y * c <= 2 * a + c,
            u > 0,
    ;
    let i = (2 * n + 2) * a;
    let j = k * c;
    assert(2 * u * (i + j) == 2 * (i * u) + 2 * (j * u)) by (nonlinear_arith);
    assert(i * u == (2 * n + 2) * (a * u)) by (nonlinear_arith)
        requires
            i == (2 * n + 2) * a,
    ;
    assert(2 * ((2 * n + 2) * (a * u)) == (4 * n + 4) * (a * u)) by (nonlinear_arith);
    assert(j * u == k * (c * u)) by (nonlinear_arith)
        requires
            j == k * c,
    ;
    assert((4 * n + 4) * (a * u) <= (4 * n + 4) * b) by (nonlinear_arith)
        requires
            a * u <= b,
            n >= 2,
    ;
    assert(c * u <= n * u && k * (c * u) <= k * (n * u)) by (nonlinear_arith)
        requires
            c <= n,
            c >= 0,
            u > 0,
            k > 0,
    ;
    assert(gap(p, o) * k * c <= 12 * b + 6 * (n * u) + (4 * n + 4) * b + 2 * (k * (n * u)) + n * q);
    assert(4 * w * (g + 2 * w) <= (16 * n + 24) * ww + 8 * k * w) by (nonlinear_arith)
        requires
            ww == w * w,
            g <= (4 * n + 4) * w + 2 * k,
            w >= 0,
    ;
    assert((4 * n + 4) * b + 12 * b == n * ((4 * n + 16) * (8 * ww + u))) by (nonlinear_arith)
        requires
            b == n * (8 * ww + u),
    ;
    let inner = (4 * n + 16) * (8 * ww + u) + 6 * u + 2 * (k * u) + q;
    assert(n * inner == n * ((4 * n + 16) * (8 * ww + u)) + 6 * (n * u) + 2 * (k * (n * u)) + n * q)
        by (nonlinear_arith)
        requires
            inner == (4 * n + 16) * (8 * ww + u) + 6 * u + 2 * (k * u) + q,
    ;
    assert((4 * n + 16) * (8 * ww + u) == (32 * n + 128) * ww + (4 * n + 16) * u)
        by (nonlinear_arith);
    assert((4 * n + 22) * u <= 3 * (k * u)) by (nonlinear_arith)
        requires
            4 * n + 22 <= 3 * k,
            u > 0,
    ;
    assert((4 * n + 16) * u + 6 * u == (4 * n + 22) * u) by (nonlinear_arith);
    assert((32 * n + 128) * ww + (16 * n + 24) * ww + 8 * ww == (48 * n + 160) * ww)
        by (nonlinear_arith);
    assert(7 * k * u == 7 * (k * u)) by (nonlinear_arith);
    assert(inner <= e);
    assert(gap(p, o) * k <= 2 * e) by (nonlinear_arith)
        requires
            gap(p, o) * k * c <= n * inner,
            inner <= e,
            n <= 2 * c,
            n >= 2,
            c >= 1,
            e >= 0,
    {
        assert(n * inner <= n * e) by (nonlinear_arith)
            requires
                inner <= e,
                n >= 0,
        ;
        assert(n * e <= 2 * c * e) by (nonlinear_arith)
            requires
                n <= 2 * c,
                e >= 0,
        ;
        let x = gap(p, o) * k;
        assert(x <= 2 * e) by (nonlinear_arith)
            requires
                x * c <= 2 * c * e,
                c >= 1,
        ;
    }
}

/// How near a root is to the exact one.
pub proof fn lemma_root_is_close<A: Arithmetic>(f: &A, a: Double)
    requires
        rounds_in_order(f),
        a.finite(),
        a.value() >= 0,
    ensures
        ({
            let root = square_root(f, a);
            &&& root.finite()
            &&& root.value() >= 0
            &&& gap(root.value() * root.value(), a.value() * Double::unit()) * EXACT_COUNTS <= 3
                * (a.value() * Double::unit())
        }),
{
    reveal(rounds_in_order);
    reveal(rounds_closely);
}

/// The sample deviations of samples in two orders agree up to rounding.
proof fn lemma_deviations_agree<A: Arithmetic>(f: &A, a: Seq<Single>, b: Seq<Single>)
    requires
        rounds_in_order(f),
        2 <= a.len() <= SUMMED_COUNTS,
        all_finite(a),
        a.to_multiset() == b.to_multiset(),
    ensures
        deviations_agree(
            square_root(f, variance_of(f, all_widened(f, a), sample_mean(f, a))),
            square_root(f, variance_of(f, all_widened(f, b), sample_mean(f, b))),
            a.len() as int,
            sample_scale(f, a),
        ),
{
    let n = a.len() as int;
    let m = sample_scale(f, a);
    let w = 3 * m + 1;
    let u = Double::unit();
    let k = EXACT_COUNTS as int;
    let x = sample_mean(f, a);
    let y = sample_mean(f, b);
    let xs = all_widened(f, a);
    let ys = all_widened(f, b);
    let bound = square_bound(w);
    lemma_pow2_pos(1074);
    lemma_means_agree(f, a, b);
    lemma_samples_below_extremes(f, a);
    lemma_samples_below_extremes(f, b);
    lemma_sample_mean_is_close(f, a);
    lemma_sample_mean_is_close(f, b);
    lemma_square_bound(m, n);
    assert forall|i: int| 0 <= i < xs.len() implies (#[trigger] xs[i]).finite() && size(
        xs[i].value(),
    ) <= m by {
        assert(modest(all_widened(f, a)[i]));
    }
    assert forall|i: int| 0 <= i < ys.len() implies (#[trigger] ys[i]).finite() && size(
        ys[i].value(),
    ) <= m by {
        assert(modest(all_widened(f, b)[i]));
    }
    lemma_variance_is_close(f, xs, x, m);
    lemma_variance_is_close(f, ys, y, m);
    lemma_mapped_multisets(a, b, |s: Single| widened(f, s));
    lemma_mapped_multisets(xs, ys, |s: Double| squared_distance(f, s, x));
    lemma_exact_totals_rearranged(squares(f, xs, x), squares(f, ys, x));
    let g = (4 * n + 4) * m + 2 * k;
    let q = 4 * w * (g + 2 * w) + 8 * (w * w) + 2 * (k * u);
    lemma_squares_of_means_apart(f, ys, x, y, m, g);
    let p = exact_total(squares(f, xs, x));
    let t = exact_total(squares(f, ys, y));
    let v = variance_of(f, xs, x);
    let z = variance_of(f, ys, y);
    lemma_variances_apart(v.value(), z.value(), p, t, n, n * bound, q, u, k);
    lemma_root_is_close(f, v);
    lemma_root_is_close(f, z);
    assert(n * bound * u <= n * (8 * (w * w) + u)) by (nonlinear_arith)
        requires
            bound * u <= 8 * (w * w) + u,
            n >= 0,
    ;
    assert(g <= (4 * n + 4) * w + 2 * k) by (nonlinear_arith)
        requires
            g == (4 * n + 4) * m + 2 * k,
            m <= w,
            n >= 0,
    ;
    lemma_deviations_apart(
        square_root(f, v).value(),
        square_root(f, z).value(),
        v.value(),
        z.value(),
        n,
        n * bound,
        w,
        g,
        u,
        k,
    );
}

/// How far the squared distances of numbers from two means add up apart.
proof fn lemma_squares_of_means_apart<A: Arithmetic>(
    f: &A,
    xs: Seq<Double>,
    a: Double,
    b: Double,
    m: int,
    g: int,
)
    requires
        rounds_in_order(f),
        forall|i: int|
            0 <= i < xs.len() ==> (#[trigger] xs[i]).finite() && size(xs[i].value()) <= m,
        a.finite(),
        b.finite(),
        size(a.value()) <= 2 * m + 1,
        size(b.value()) <= 2 * m + 1,
        0 <= m <= pow2(1300),
        gap(a.value(), b.value()) * EXACT_COUNTS <= g,
    ensures
        ({
            let w = 3 * m + 1;
            let u = Double::unit();
            gap(exact_total(squares(f, xs, a)), exact_total(squares(f, xs, b))) * (u * EXACT_COUNTS)
                <= xs.len() * (4 * w * (g + 2 * w) + 8 * (w * w) + 2 * (EXACT_COUNTS * u))
        }),
{
    let w = 3 * m + 1;
    let u = Double::unit();
    let k = EXACT_COUNTS as int;
    let q = 4 * w * (g + 2 * w) + 8 * (w * w) + 2 * (k * u);
    let s = squares(f, xs, a);
    let t = squares(f, xs, b);
    lemma_pow2_pos(1074);
    assert forall|i: int| 0 <= i < s.len() implies gap((#[trigger] s[i]).value(), t[i].value()) * (u
        * k) <= q by {
        let x = xs[i];
        assert(x.finite());
        lemma_squared_distance(f, x, a, m);
        lemma_squared_distance(f, x, b, m);
        lemma_squares_apart(
            x.value(),
            a.value(),
            b.value(),
            difference(f, x, a).value(),
            difference(f, x, b).value(),
            s[i].value(),
            t[i].value(),
            g,
            w,
            u,
            k,
        );
    }
    assert(u * k >= 0) by (nonlinear_arith)
        requires
            u > 0,
            k > 0,
    ;
    lemma_totals_apart(s, t, q, u * k);
}

/// The statistics of samples do not depend on their order: how many there are,
/// how long they took, their extremes and percentiles not at all, and the mean,
/// deviation, charge and power only in how sums were rounded.
pub proof fn law_statistics_ignore_order<A: Arithmetic>(
    f: &A,
    a: Seq<Single>,
    b: Seq<Single>,
    sps: u32,
    voltage_mv: u16,
)
    requires
        rounds_in_order(f),
        1 <= a.len() <= SUMMED_COUNTS,
        all_finite(a),
        a.to_multiset() == b.to_multiset(),
        sps > 0,
    ensures
        ({
            let n = a.len() as int;
            let scale = sample_scale(f, a);
            let s = statistics(f, a, sps, voltage_mv);
            let t = statistics(f, b, sps, voltage_mv);
            &&& s.count == t.count
            &&& s.duration_secs == t.duration_secs
            &&& s.min.value() == t.min.value()
            &&& s.max.value() == t.max.value()
            &&& s.percentiles == t.percentiles
            &&& means_agree(s.mean, t.mean, n, scale)
            &&& deviations_agree(s.std_dev, t.std_dev, n, scale)
            &&& scaled_means_agree(
                s.charge_uah,
                t.charge_uah,
                s.duration_secs,
                Double { bits: HOUR },
                n,
                scale,
            )
            &&& scaled_means_agree(
                s.avg_power_uw,
                t.avg_power_uw,
                counted(f, voltage_mv as int),
                Double { bits: THOUSAND },
                n,
                scale,
            )
        }),
{
    let n = a.len() as int;
    let m = sample_scale(f, a);
    let u = Double::unit();
    let k = EXACT_COUNTS as int;
    let x = sample_mean(f, a);
    let y = sample_mean(f, b);
    let hour = Double { bits: HOUR };
    let thousand = Double { bits: THOUSAND };
    lemma_named_numbers();
    lemma_pow2_pos(1074);
    assert(hour.finite() && thousand.finite());
    lemma_means_agree(f, a, b);
    lemma_samples_below_extremes(f, a);
    lemma_samples_below_extremes(f, b);
    law_extremes_ignore_order(a, b);
    lemma_widened_values(f, lowest(a), lowest(b));
    lemma_widened_values(f, highest(a), highest(b));
    law_percentiles_ignore_order(f, a, b, hour);
    lemma_sample_mean_is_close(f, a);
    lemma_sample_mean_is_close(f, b);
    if n >= 2 {
        lemma_deviations_agree(f, a, b);
    } else {
        let slack = deviation_slack(3 * m + 1, n, u, k);
        assert(slack >= 0) by (nonlinear_arith)
            requires
                slack == deviation_slack(3 * m + 1, n, u, k),
                m >= 0,
                n >= 0,
                u > 0,
                k > 0,
        ;
    }
    let duration = quotient(f, counted(f, n), counted(f, sps as int));
    let volts = counted(f, voltage_mv as int);
    lemma_duration(f, n, sps);
    lemma_count_is_exact(f, voltage_mv as int);
    assert(0 <= voltage_mv * u && voltage_mv * u <= EXACT_COUNTS * u) by (nonlinear_arith)
        requires
            0 <= voltage_mv <= EXACT_COUNTS,
            u > 0,
    ;
    lemma_scaled_mean_is_close(f, x, duration, hour);
    lemma_scaled_mean_is_close(f, y, duration, hour);
    lemma_scaled_mean_is_close(f, x, volts, thousand);
    lemma_scaled_mean_is_close(f, y, volts, thousand);
    lemma_scaled_errors_apart(
        quotient(f, product(f, x, duration), hour).value(),
        quotient(f, product(f, y, duration), hour).value(),
        x.value(),
        y.value(),
        duration.value(),
        hour.value(),
        m,
        n,
        u,
        k,
    );
    lemma_scaled_errors_apart(
        quotient(f, product(f, x, volts), thousand).value(),
        quotient(f, product(f, y, volts), thousand).value(),
        x.value(),
        y.value(),
        volts.value(),
        thousand.value(),
        m,
        n,
        u,
        k,
    );
}

} // verus!
