//! What the results are, told by exact numbers.
//!
//! The contracts name the rounded operations that lead to a result. The laws
//! here say what the result is: a sum of the very samples, a place between two
//! of them, a share of a whole. They are stated over whole numbers, with a bound
//! for what rounding can do, and they name none of the steps in between.

use vstd::arithmetic::power2::{lemma_pow2_pos, pow2};
use vstd::prelude::*;

use crate::accuracy::{
    all_finite, exact_between_ranks, exact_total, larger_size, lemma_ascending_samples_rise,
    lemma_count_is_exact, lemma_difference_is_close, lemma_duration, lemma_mean_is_modest,
    lemma_modest_product, lemma_number_at_rank, lemma_percentile_is_finite, lemma_product_is_close,
    lemma_quotient_is_close, lemma_root_is_close, lemma_sample_is_modest,
    lemma_samples_below_extremes, lemma_square_bound, lemma_squared_distance,
    lemma_variance_is_close, square_bound, squares, SUMMED_COUNTS,
};
use crate::acquire::{
    averaged_by, chunk_average, law_recording_averages_the_stream, lemma_chunk_fits, record_run,
    record_start, record_stream, Moment, RecordPlan, PPK2_RAW_SPS,
};
use crate::arithmetic::{
    all_widened, counted, deterministic, difference, narrowed, product, quotient, total, widened,
    Arithmetic,
};
use crate::format::Recording;
use crate::number::{
    lemma_between_is_finite, lemma_finite_is_inside, lemma_largest_sample, lemma_named_numbers,
    Double, Single, HOUR, HUNDRED, NEGATIVE_ZERO, ONE, THOUSAND, ZERO,
};
use crate::order::{ascending, lemma_ascending, lemma_mapped_multisets, lemma_rearranged_contains};
use crate::rounding::{
    gap, lemma_quotient_stays_finite, lemma_rank_of_share, lemma_rank_parts, lemma_share,
    lemma_widened_rising, lower_rank, narrows_closely, rising, rounds_closely, rounds_in_order,
    samples_rising, share_of, size, upper_rank, EXACT_COUNTS,
};
use crate::stats::{
    between_ranks, highest, law_highest_is_greatest, law_lowest_is_least, lowest, mean_sample,
    percentile, percentile_rank, percentile_sorted, squared_distance, statistics, variance_of,
    Stats, PERCENTILES,
};

verus! {

/// The exact number that a sample stands for, in units of the smallest subnormal
/// double.
pub open spec fn amount(x: Single) -> int {
    x.value() * pow2(925)
}

/// The exact numbers that samples stand for.
pub open spec fn amounts(s: Seq<Single>) -> Seq<int> {
    s.map_values(|x: Single| amount(x))
}

/// The exact numbers that doubles stand for.
pub open spec fn values(s: Seq<Double>) -> Seq<int> {
    s.map_values(|x: Double| x.value())
}

/// The exact sum of whole numbers.
pub open spec fn whole_sum(xs: Seq<int>) -> int
    decreases xs.len(),
{
    if xs.len() == 0 {
        0
    } else {
        whole_sum(xs.drop_last()) + xs.last()
    }
}

/// Whether no number is larger than `m`.
pub open spec fn bounded(xs: Seq<int>, m: int) -> bool {
    forall|i: int| 0 <= i < xs.len() ==> size(#[trigger] xs[i]) <= m
}

/// Whether no number is above its successors.
pub open spec fn climbing(xs: Seq<int>) -> bool {
    forall|i: int, j: int| 0 <= i <= j < xs.len() ==> #[trigger] xs[i] <= #[trigger] xs[j]
}

/// Whether `t` are the numbers `s` in ascending order.
pub open spec fn arranged(t: Seq<int>, s: Seq<int>) -> bool {
    t.to_multiset() == s.to_multiset() && t.len() == s.len() && climbing(t)
}

/// The line through the numbers at the places `a` and `a + 1` of `xs`, at `y`;
/// places are `d` apart, and the result is taken `d` times.
pub open spec fn line(xs: Seq<int>, a: int, y: int, d: int) -> int {
    xs[a] * ((a + 1) * d - y) + xs[a + 1] * (y - a * d)
}

/// Whether `v` lies, but for rounding, on the line through the two neighbours
/// among `xs` that enclose the place `num / den`, where no number is larger than
/// `m`. Places count in units of [`Double::unit`].
pub open spec fn lies_at(v: int, xs: Seq<int>, num: int, den: int, m: int) -> bool {
    let n = xs.len() as int;
    let d = den * Double::unit();
    &&& n == 1 ==> v == xs[0]
    &&& forall|a: int|
        0 <= a < n - 1 && a * d <= num <= (a + 1) * d ==> gap(v * d, #[trigger] line(xs, a, num, d))
            * EXACT_COUNTS <= ((7 * n + 7) * m + 2 * EXACT_COUNTS) * d
}

/// The line goes up, and no steeper than twice the largest number a place.
proof fn lemma_line_climbs(xs: Seq<int>, a: int, y: int, b: int, z: int, d: int, m: int)
    requires
        climbing(xs),
        bounded(xs, m),
        0 <= a < xs.len() - 1,
        0 <= b < xs.len() - 1,
        d > 0,
        a * d <= y <= (a + 1) * d,
        b * d <= z <= (b + 1) * d,
        y <= z,
    ensures
        0 <= line(xs, b, z, d) - line(xs, a, y, d) <= 2 * m * (z - y),
{
    let p = xs[a];
    let q = xs[a + 1];
    let r = xs[b];
    let s = xs[b + 1];
    assert(size(p) <= m && size(q) <= m && size(r) <= m && size(s) <= m);
    assert(p <= q && r <= s);
    if a == b {
        assert(line(xs, b, z, d) - line(xs, a, y, d) == (q - p) * (z - y)) by (nonlinear_arith)
            requires
                line(xs, b, z, d) == p * ((a + 1) * d - z) + q * (z - a * d),
                line(xs, a, y, d) == p * ((a + 1) * d - y) + q * (y - a * d),
        ;
        assert(0 <= (q - p) * (z - y) && (q - p) * (z - y) <= 2 * m * (z - y)) by (nonlinear_arith)
            requires
                0 <= q - p <= 2 * m,
                y <= z,
        ;
    } else if a > b {
        assert((b + 1) * d <= a * d) by (nonlinear_arith)
            requires
                b + 1 <= a,
                d > 0,
        ;
        assert(y == z && y == a * d && z == (b + 1) * d);
        assert(b + 1 == a) by (nonlinear_arith)
            requires
                (b + 1) * d == a * d,
                d > 0,
        ;
        assert(line(xs, a, y, d) == p * d) by (nonlinear_arith)
            requires
                line(xs, a, y, d) == p * ((a + 1) * d - y) + q * (y - a * d),
                y == a * d,
        ;
        assert(line(xs, b, z, d) == s * d) by (nonlinear_arith)
            requires
                line(xs, b, z, d) == r * ((b + 1) * d - z) + s * (z - b * d),
                z == (b + 1) * d,
        ;
        assert(2 * m * (z - y) == 0) by (nonlinear_arith)
            requires
                z == y,
        ;
    } else {
        let e = z - b * d;
        let g = (a + 1) * d - y;
        let k = (b - a - 1) * d;
        assert(line(xs, b, z, d) == r * d + (s - r) * e) by (nonlinear_arith)
            requires
                line(xs, b, z, d) == r * ((b + 1) * d - z) + s * (z - b * d),
                e == z - b * d,
        ;
        assert(line(xs, a, y, d) == q * d - (q - p) * g) by (nonlinear_arith)
            requires
                line(xs, a, y, d) == p * ((a + 1) * d - y) + q * (y - a * d),
                g == (a + 1) * d - y,
        ;
        assert(q <= r);
        assert(0 <= (s - r) * e && (s - r) * e <= 2 * m * e) by (nonlinear_arith)
            requires
                0 <= s - r <= 2 * m,
                0 <= e,
        ;
        assert(0 <= (q - p) * g && (q - p) * g <= 2 * m * g) by (nonlinear_arith)
            requires
                0 <= q - p <= 2 * m,
                0 <= g,
        ;
        assert(0 <= (r - q) * d && (r - q) * d <= 2 * m * k) by {
            if b == a + 1 {
                assert(r == q);
                assert(k == 0) by (nonlinear_arith)
                    requires
                        b == a + 1,
                        k == (b - a - 1) * d,
                ;
                assert((r - q) * d == 0 && 2 * m * k == 0) by (nonlinear_arith)
                    requires
                        r == q,
                        k == 0,
                ;
            } else {
                assert(k >= d) by (nonlinear_arith)
                    requires
                        b >= a + 2,
                        k == (b - a - 1) * d,
                        d > 0,
                ;
                assert(0 <= (r - q) * d && (r - q) * d <= 2 * m * k) by (nonlinear_arith)
                    requires
                        0 <= r - q <= 2 * m,
                        k >= d,
                        d > 0,
                ;
            }
        }
        assert(r * d - q * d == (r - q) * d) by (nonlinear_arith);
        assert(z - y == e + k + g) by (nonlinear_arith)
            requires
                e == z - b * d,
                g == (a + 1) * d - y,
                k == (b - a - 1) * d,
        ;
        assert(2 * m * (z - y) == 2 * m * e + 2 * m * k + 2 * m * g) by (nonlinear_arith)
            requires
                z - y == e + k + g,
        ;
    }
}

/// A line at finer places is the same line.
proof fn lemma_line_scales(xs: Seq<int>, a: int, y: int, d: int, k: int)
    ensures
        line(xs, a, y * k, d * k) == line(xs, a, y, d) * k,
{
    let p = xs[a];
    let q = xs[a + 1];
    let s = (a + 1) * d - y;
    let t = y - a * d;
    assert((a + 1) * (d * k) - y * k == s * k) by (nonlinear_arith)
        requires
            s == (a + 1) * d - y,
    ;
    assert(y * k - a * (d * k) == t * k) by (nonlinear_arith)
        requires
            t == y - a * d,
    ;
    assert(p * (s * k) + q * (t * k) == (p * s + q * t) * k) by (nonlinear_arith);
}

/// The segment of a place, and how near the number at a rank is to the line
/// there.
proof fn lemma_rank_lies_on_line<A: Arithmetic>(f: &A, xs: Seq<Double>, rank: Double, m: int) -> (b:
    int)
    requires
        rounds_in_order(f),
        2 <= xs.len() <= EXACT_COUNTS,
        xs.len() - 1 <= usize::MAX,
        rising(xs),
        bounded(values(xs), m),
        rank.finite(),
        0 <= rank.value() <= (xs.len() - 1) * Double::unit(),
        between_ranks(f, xs, rank).finite(),
    ensures
        0 <= b < xs.len() - 1,
        b * Double::unit() <= rank.value() <= (b + 1) * Double::unit(),
        gap(
            between_ranks(f, xs, rank).value() * Double::unit(),
            line(values(xs), b, rank.value(), Double::unit()),
        ) * EXACT_COUNTS <= (7 * m + 2 * EXACT_COUNTS) * Double::unit(),
{
    let n = xs.len() as int;
    let u = Double::unit();
    let k = EXACT_COUNTS as int;
    let r = rank.value();
    let vs = values(xs);
    lemma_pow2_pos(1074);
    lemma_count_is_exact(f, n - 1);
    lemma_rank_parts(f, rank, n);
    lemma_number_at_rank(f, xs, rank);
    let lo = lower_rank(rank, n);
    let hi = upper_rank(rank, n);
    let c = counted(f, lo);
    let w = difference(f, rank, c);
    let big = larger_size(xs[0], xs.last());
    assert(vs[0] == xs[0].value() && vs[n - 1] == xs[n - 1].value());
    assert(big <= m);
    let exact = exact_between_ranks(xs, rank, w);
    let v = between_ranks(f, xs, rank).value();
    lemma_count_is_exact(f, lo);
    let q = r / u;
    vstd::arithmetic::div_mod::lemma_fundamental_div_mod(r, u);
    assert(q * u <= r && r < (q + 1) * u && q <= n - 1 && 0 <= q) by (nonlinear_arith)
        requires
            r == u * q + r % u,
            0 <= r % u < u,
            0 <= r <= (n - 1) * u,
            u > 0,
    ;
    assert(lo == q);
    let b = if lo < n - 1 {
        lo
    } else {
        n - 2
    };
    assert(b * u <= r && r <= (b + 1) * u) by (nonlinear_arith)
        requires
            lo * u <= r,
            r < (lo + 1) * u,
            r <= (n - 1) * u,
            b == lo || (b == n - 2 && lo == n - 1),
            u > 0,
    ;
    assert((5 * big + 2 * k) * u <= (5 * m + 2 * k) * u) by (nonlinear_arith)
        requires
            big <= m,
            u > 0,
    ;
    assert(vs[lo] == xs[lo].value() && vs[hi] == xs[hi].value() && vs[b + 1] == xs[b + 1].value()
        && vs[b] == xs[b].value());
    if hi == lo {
        lemma_whole_place(vs, lo, b, r, u);
        assert(exact == vs[lo] * u) by (nonlinear_arith)
            requires
                exact == vs[lo] * (u - w.value()) + vs[lo] * w.value(),
        ;
        assert(r == lo * u) by {
            crate::rounding::lemma_rank_is_whole(rank, n);
        }
        assert((5 * m + 2 * k) * u <= (7 * m + 2 * k) * u) by (nonlinear_arith)
            requires
                m >= 0,
                u > 0,
        ;
    } else {
        assert(hi == lo + 1 && b == lo);
        lemma_difference_is_close(f, rank, c);
        assert((lo + 1) * u == lo * u + u) by (nonlinear_arith);
        lemma_weight_error(
            vs[lo],
            vs[hi],
            w.value(),
            r - lo * u,
            line(vs, b, r, u),
            exact,
            v * u,
            m,
            u,
            k,
        );
    }
    b
}

/// At a whole place the line gives the number there.
proof fn lemma_whole_place(xs: Seq<int>, at: int, b: int, r: int, u: int)
    ensures
        r == at * u && (b == at || b + 1 == at) ==> line(xs, b, r, u) == xs[at] * u,
{
    if r == at * u && b == at {
        assert(xs[b] * ((b + 1) * u - r) + xs[b + 1] * (r - b * u) == xs[at] * u)
            by (nonlinear_arith)
            requires
                r == at * u,
                b == at,
        ;
    } else if r == at * u && b + 1 == at {
        let p = xs[b];
        let q = xs[b + 1];
        assert(p * ((b + 1) * u - r) + q * (r - b * u) == q * u) by (nonlinear_arith)
            requires
                r == (b + 1) * u,
        ;
    }
}

/// What a rounded weight does to an interpolation.
proof fn lemma_weight_error(
    lo: int,
    hi: int,
    w: int,
    t: int,
    l: int,
    exact: int,
    v: int,
    m: int,
    u: int,
    k: int,
)
    requires
        k > 0,
        u > 0,
        size(lo) <= m,
        size(hi) <= m,
        0 <= t <= u,
        gap(w, t) * k <= size(t),
        l == lo * (u - t) + hi * t,
        exact == lo * (u - w) + hi * w,
        gap(v, exact) * k <= (5 * m + 2 * k) * u,
    ensures
        gap(v, l) * k <= (7 * m + 2 * k) * u,
{
    let e = w - t;
    let h = hi - lo;
    assert(exact - l == h * e) by (nonlinear_arith)
        requires
            l == lo * (u - t) + hi * t,
            exact == lo * (u - w) + hi * w,
            e == w - t,
            h == hi - lo,
    ;
    assert(-u <= e * k && e * k <= u) by (nonlinear_arith)
        requires
            gap(w, t) * k <= u,
            e == w - t,
            k > 0,
    ;
    let y = e * k;
    assert(-(2 * m * u) <= h * y && h * y <= 2 * m * u) by (nonlinear_arith)
        requires
            -2 * m <= h <= 2 * m,
            -u <= y <= u,
    ;
    assert((h * e) * k == h * y) by (nonlinear_arith)
        requires
            y == e * k,
    ;
    assert(gap(exact, l) * k <= 2 * m * u) by (nonlinear_arith)
        requires
            -(2 * m * u) <= (exact - l) * k <= 2 * m * u,
    ;
    assert(gap(v, l) <= gap(v, exact) + gap(exact, l));
    assert(gap(v, l) * k <= gap(v, exact) * k + gap(exact, l) * k) by (nonlinear_arith)
        requires
            gap(v, l) <= gap(v, exact) + gap(exact, l),
            k > 0,
    ;
    assert((7 * m + 2 * k) * u == (5 * m + 2 * k) * u + 2 * m * u) by (nonlinear_arith);
}

/// The number at a rank that is near the place `num / den` lies there.
pub(crate) proof fn lemma_lies_at<A: Arithmetic>(
    f: &A,
    xs: Seq<Double>,
    rank: Double,
    num: int,
    den: int,
    m: int,
)
    requires
        rounds_in_order(f),
        1 <= xs.len() <= EXACT_COUNTS,
        xs.len() - 1 <= usize::MAX,
        rising(xs),
        bounded(values(xs), m),
        rank.finite(),
        0 <= rank.value() <= (xs.len() - 1) * Double::unit(),
        between_ranks(f, xs, rank).finite(),
        xs.len() == 1 ==> between_ranks(f, xs, rank).value() == xs[0].value(),
        den >= 1,
        2 * gap(rank.value() * den, num) * EXACT_COUNTS <= 7 * (xs.len() - 1) * (den
            * Double::unit()),
    ensures
        lies_at(between_ranks(f, xs, rank).value(), values(xs), num, den, m),
{
    let n = xs.len() as int;
    let u = Double::unit();
    let k = EXACT_COUNTS as int;
    let d = den * u;
    let vs = values(xs);
    let r = rank.value();
    let v = between_ranks(f, xs, rank).value();
    lemma_pow2_pos(1074);
    assert(vs[0] == xs[0].value());
    assert(size(vs[0]) <= m);
    if n >= 2 {
        let b = lemma_rank_lies_on_line(f, xs, rank, m);
        assert(d > 0) by (nonlinear_arith)
            requires
                d == den * u,
                den >= 1,
                u > 0,
        ;
        assert(climbing(vs)) by {
            assert forall|i: int, j: int| 0 <= i <= j < vs.len() implies #[trigger] vs[i]
                <= #[trigger] vs[j] by {
                assert(xs[i].value() <= xs[j].value());
            }
        }
        let z = r * den;
        assert(u * den == d) by (nonlinear_arith)
            requires
                d == den * u,
        ;
        lemma_line_scales(vs, b, r, u, den);
        assert(b * d <= z && z <= (b + 1) * d) by (nonlinear_arith)
            requires
                b * u <= r <= (b + 1) * u,
                z == r * den,
                d == den * u,
                den >= 1,
        ;
        let l = line(vs, b, r, u);
        assert(gap(v * d, line(vs, b, z, d)) * k <= (7 * m + 2 * k) * d) by {
            assert(gap(v * d, l * den) == gap(v * u, l) * den) by (nonlinear_arith)
                requires
                    d == den * u,
                    den >= 1,
            {
                assert(v * d == (v * u) * den) by (nonlinear_arith)
                    requires
                        d == den * u,
                ;
                let p = v * u;
                assert(gap(p * den, l * den) == gap(p, l) * den) by (nonlinear_arith)
                    requires
                        den >= 1,
                ;
            }
            let g = gap(v * u, l);
            assert(g * den * k <= (7 * m + 2 * k) * d) by (nonlinear_arith)
                requires
                    g * k <= (7 * m + 2 * k) * u,
                    d == den * u,
                    den >= 1,
            ;
        }
        assert forall|a: int| 0 <= a < n - 1 && a * d <= num <= (a + 1) * d implies gap(
            v * d,
            #[trigger] line(vs, a, num, d),
        ) * k <= ((7 * n + 7) * m + 2 * k) * d by {
            if num <= z {
                lemma_line_climbs(vs, a, num, b, z, d, m);
            } else {
                lemma_line_climbs(vs, b, z, a, num, d, m);
            }
            lemma_moved_place(
                v * d,
                line(vs, b, z, d),
                line(vs, a, num, d),
                gap(z, num),
                n,
                m,
                d,
                k,
            );
        }
    }
}

/// What a moved place does to a number on the line.
proof fn lemma_moved_place(v: int, p: int, q: int, e: int, n: int, m: int, d: int, k: int)
    requires
        n >= 1,
        m >= 0,
        d > 0,
        k > 0,
        gap(v, p) * k <= (7 * m + 2 * k) * d,
        gap(p, q) <= 2 * m * e,
        2 * e * k <= 7 * (n - 1) * d,
    ensures
        gap(v, q) * k <= ((7 * n + 7) * m + 2 * k) * d,
{
    assert(gap(v, q) <= gap(v, p) + gap(p, q));
    assert(gap(v, q) * k <= gap(v, p) * k + gap(p, q) * k) by (nonlinear_arith)
        requires
            gap(v, q) <= gap(v, p) + gap(p, q),
            k > 0,
    ;
    assert(gap(p, q) * k <= 2 * m * e * k) by (nonlinear_arith)
        requires
            gap(p, q) <= 2 * m * e,
            k > 0,
    ;
    assert(2 * m * e * k == m * (2 * e * k)) by (nonlinear_arith);
    let y = 2 * e * k;
    assert(m * y <= m * (7 * (n - 1) * d)) by (nonlinear_arith)
        requires
            y <= 7 * (n - 1) * d,
            m >= 0,
    ;
    assert(m * (7 * (n - 1) * d) == (7 * n - 7) * m * d) by (nonlinear_arith);
    assert((7 * n - 7) * m * d + (7 * m + 2 * k) * d <= ((7 * n + 7) * m + 2 * k) * d)
        by (nonlinear_arith)
        requires
            m >= 0,
            d > 0,
    ;
}

/// What a double is near: the sum `a + b` rounded.
pub open spec fn near_sum(r: Double, a: int, b: int) -> bool {
    gap(r.value(), a + b) * EXACT_COUNTS <= size(a + b)
}

/// What a double is near: the product of `a` and `b` rounded.
pub open spec fn near_product(r: Double, a: int, b: int) -> bool {
    gap(r.value() * Double::unit(), a * b) * EXACT_COUNTS <= size(a * b) + EXACT_COUNTS
        * Double::unit()
}

/// What a double is near: the quotient `a / b` rounded.
pub open spec fn near_quotient(r: Double, a: int, b: int) -> bool {
    gap(r.value() * b, a * Double::unit()) * EXACT_COUNTS <= size(a * Double::unit()) + EXACT_COUNTS
        * size(b)
}

/// What a double is near: the root of `a` rounded.
pub open spec fn near_root(r: Double, a: int) -> bool {
    &&& r.value() >= 0
    &&& gap(r.value() * r.value(), a * Double::unit()) * EXACT_COUNTS <= 3 * (a * Double::unit())
}

/// Whether `v` is, but for rounding, the mean of `xs`, none of which is larger
/// than `m`: each of them counts once, and is divided by how many there are.
pub open spec fn is_mean(v: Double, xs: Seq<int>, m: int) -> bool {
    let n = xs.len() as int;
    gap(v.value() * n, whole_sum(xs)) * EXACT_COUNTS <= n * ((2 * n + 2) * m + EXACT_COUNTS)
}

/// Whether `v` is, but for rounding, the percentile `p` of the samples: it lies
/// on the line through the two of them, in ascending order, whose ranks enclose
/// `p` hundredths of the last rank.
pub open spec fn is_percentile(v: Double, samples: Seq<Single>, p: Double, m: int) -> bool {
    exists|t: Seq<int>| #[trigger]
        arranged(t, amounts(samples)) && lies_at(
            v.value(),
            t,
            p.value() * (samples.len() - 1),
            100,
            m,
        )
}

/// A finite quotient is near the exact one.
pub(crate) proof fn lemma_near_quotient<A: Arithmetic>(f: &A, a: Double, b: Double)
    requires
        rounds_in_order(f),
        a.finite(),
        b.finite(),
        b.value() > 0,
        quotient(f, a, b).finite(),
    ensures
        near_quotient(quotient(f, a, b), a.value(), b.value()),
{
    reveal(rounds_in_order);
    reveal(rounds_closely);
}

/// Widening keeps the numbers.
pub(crate) proof fn lemma_amounts<A: Arithmetic>(f: &A, s: Seq<Single>)
    requires
        rounds_in_order(f),
        all_finite(s),
    ensures
        values(all_widened(f, s)) == amounts(s),
        forall|i: int| 0 <= i < s.len() ==> (#[trigger] all_widened(f, s)[i]).finite(),
        exact_total(all_widened(f, s)) == whole_sum(amounts(s)),
{
    let xs = all_widened(f, s);
    assert forall|i: int| 0 <= i < s.len() implies (#[trigger] xs[i]).finite() && xs[i].value()
        == amount(s[i]) by {
        assert(s[i].finite());
        reveal(rounds_in_order);
    }
    assert(values(xs) =~= amounts(s));
    lemma_whole_sum(xs);
}

/// Exact sums of doubles are sums of their values.
pub(crate) proof fn lemma_whole_sum(xs: Seq<Double>)
    ensures
        exact_total(xs) == whole_sum(values(xs)),
    decreases xs.len(),
{
    if xs.len() > 0 {
        lemma_whole_sum(xs.drop_last());
        assert(values(xs).drop_last() =~= values(xs.drop_last()));
    }
}

/// How far the rank of a percentile is from the exact one.
proof fn lemma_percentile_rank_error(p: int, q: int, r: int, n: int, u: int, k: int)
    requires
        n >= 2,
        k > 0,
        u >= 200 * k,
        0 <= p <= 100 * u,
        0 <= q <= u,
        gap(q * (100 * u), p * u) * k <= p * u + k * (100 * u),
        gap(r * u, q * ((n - 1) * u)) * k <= q * ((n - 1) * u) + k * u,
    ensures
        2 * gap(r * 100, p * (n - 1)) * k <= 7 * (n - 1) * (100 * u),
{
    let c = n - 1;
    assert(gap(100 * q, p) * k <= p + 100 * k) by (nonlinear_arith)
        requires
            gap(q * (100 * u), p * u) * k <= p * u + k * (100 * u),
            u > 0,
    {
        let y = 100 * q;
        assert(q * (100 * u) == y * u) by (nonlinear_arith)
            requires
                y == 100 * q,
        ;
        assert(gap(y * u, p * u) == gap(y, p) * u) by (nonlinear_arith)
            requires
                u > 0,
        ;
        let g = gap(y, p);
        assert(g * k <= p + 100 * k) by (nonlinear_arith)
            requires
                g * u * k <= p * u + k * (100 * u),
                u > 0,
        ;
    }
    let t = q * c;
    assert(gap(r, t) * k <= t + k) by (nonlinear_arith)
        requires
            gap(r * u, q * (c * u)) * k <= q * (c * u) + k * u,
            t == q * c,
            u > 0,
    {
        assert(q * (c * u) == t * u) by (nonlinear_arith)
            requires
                t == q * c,
        ;
        assert(gap(r * u, t * u) == gap(r, t) * u) by (nonlinear_arith)
            requires
                u > 0,
        ;
        let g = gap(r, t);
        assert(g * k <= t + k) by (nonlinear_arith)
            requires
                g * u * k <= t * u + k * u,
                u > 0,
        ;
    }
    assert(t <= u * c && t >= 0) by (nonlinear_arith)
        requires
            t == q * c,
            0 <= q <= u,
            c >= 1,
    ;
    let w = 100 * q;
    assert(gap(w * c, p * c) * k <= (p + 100 * k) * c) by (nonlinear_arith)
        requires
            gap(w, p) * k <= p + 100 * k,
            c >= 1,
    {
        assert(gap(w * c, p * c) == gap(w, p) * c) by (nonlinear_arith)
            requires
                c >= 1,
        ;
        let g = gap(w, p) * k;
        assert(g * c <= (p + 100 * k) * c) by (nonlinear_arith)
            requires
                g <= p + 100 * k,
                c >= 1,
        ;
        assert(gap(w, p) * c * k == g * c) by (nonlinear_arith)
            requires
                g == gap(w, p) * k,
        ;
    }
    assert(w * c == 100 * t) by (nonlinear_arith)
        requires
            w == 100 * q,
            t == q * c,
    ;
    let x = gap(r * 100, p * c);
    assert(x <= 100 * gap(r, t) + gap(w * c, p * c));
    assert(x * k <= 100 * (gap(r, t) * k) + gap(w * c, p * c) * k) by (nonlinear_arith)
        requires
            x <= 100 * gap(r, t) + gap(w * c, p * c),
            k > 0,
    ;
    assert((p + 100 * k) * c <= (101 * u) * c) by (nonlinear_arith)
        requires
            p <= 100 * u,
            u >= 200 * k,
            c >= 1,
            k > 0,
    ;
    assert(100 * k <= u * c) by (nonlinear_arith)
        requires
            u >= 200 * k,
            c >= 1,
            k > 0,
    ;
    assert(x * k <= 202 * (u * c)) by {
        assert((101 * u) * c == 101 * (u * c)) by (nonlinear_arith);
    }
    assert(2 * x * k <= 7 * c * (100 * u)) by (nonlinear_arith)
        requires
            x * k <= 202 * (u * c),
            u > 0,
            c >= 1,
    ;
}

/// One is far larger than what counts to two to the power 53 in subnormals.
pub(crate) proof fn lemma_unit_is_large()
    ensures
        Double::unit() >= 1000 * EXACT_COUNTS,
{
    vstd::arithmetic::power2::lemma2_to64_rest();
    vstd::arithmetic::power2::lemma2_to64();
    vstd::arithmetic::power2::lemma_pow2_adds(10, 53);
    vstd::arithmetic::power2::lemma_pow2_strictly_increases(63, 1074);
}

/// The percentile that the library computes is a percentile.
pub(crate) proof fn lemma_percentile_means<A: Arithmetic>(
    f: &A,
    sorted: Seq<Single>,
    p: Double,
    m: int,
)
    requires
        rounds_in_order(f),
        1 <= sorted.len() <= EXACT_COUNTS,
        sorted.len() <= usize::MAX,
        samples_rising(sorted),
        bounded(amounts(sorted), m),
        !p.nan(),
        0 <= p.value() <= 100 * Double::unit(),
    ensures
        lies_at(
            percentile(f, sorted, p).value(),
            amounts(sorted),
            p.value() * (sorted.len() - 1),
            100,
            m,
        ),
{
    let n = sorted.len() as int;
    let u = Double::unit();
    let xs = all_widened(f, sorted);
    assert(all_finite(sorted));
    lemma_amounts(f, sorted);
    assert(values(xs)[0] == xs[0].value());
    if n >= 2 {
        let hundred = Double { bits: HUNDRED };
        let q = quotient(f, p, hundred);
        let rank = percentile_rank(f, n, p);
        lemma_pow2_pos(1074);
        lemma_unit_is_large();
        lemma_named_numbers();
        lemma_hundred_parts(f, p);
        lemma_share(f, p);
        lemma_rank_of_share(f, n, share_of(f, p), share_of(f, p));
        lemma_count_is_exact(f, n - 1);
        lemma_product_is_close(f, q, counted(f, n - 1));
        assert(p.value() * u >= 0 && q.value() * ((n - 1) * u) >= 0) by (nonlinear_arith)
            requires
                p.value() >= 0,
                q.value() >= 0,
                n >= 1,
                u > 0,
        ;
        lemma_percentile_rank_error(
            p.value(),
            q.value(),
            rank.value(),
            n,
            u,
            EXACT_COUNTS as int,
        );
        lemma_widened_rising(f, sorted);
        lemma_percentile_is_finite(f, sorted, p);
        lemma_lies_at(f, xs, rank, p.value() * (n - 1), 100, m);
    }
}

/// A hundredth of a percentage is a weight that is not clamped.
proof fn lemma_hundred_parts<A: Arithmetic>(f: &A, p: Double)
    requires
        rounds_in_order(f),
        !p.nan(),
        0 <= p.value() <= 100 * Double::unit(),
    ensures
        ({
            let hundred = Double { bits: HUNDRED };
            let q = quotient(f, p, hundred);
            &&& p.finite()
            &&& q.finite()
            &&& 0 <= q.value() <= Double::unit()
            &&& share_of(f, p) == q
            &&& gap(q.value() * (100 * Double::unit()), p.value() * Double::unit()) * EXACT_COUNTS
                <= size(p.value() * Double::unit()) + EXACT_COUNTS * (100 * Double::unit())
        }),
{
    let zero = Double { bits: ZERO };
    let one = Double { bits: ONE };
    let hundred = Double { bits: HUNDRED };
    let u = Double::unit();
    lemma_named_numbers();
    lemma_pow2_pos(1074);
    assert(zero.finite() && one.finite() && hundred.finite());
    lemma_between_is_finite(zero, p, hundred);
    let q = quotient(f, p, hundred);
    reveal(rounds_in_order);
    assert(quotient(f, zero, hundred).value() == 0) by {
        assert(zero.value() * u == zero.value() * hundred.value()) by (nonlinear_arith)
            requires
                zero.value() == 0,
        ;
        assert(zero.finite());
    }
    assert(quotient(f, hundred, hundred).value() == u) by {
        assert(hundred.value() * u == one.value() * hundred.value()) by (nonlinear_arith)
            requires
                one.value() == u,
        ;
        assert(one.finite());
    }
    assert(zero.value() * hundred.value() <= p.value() * hundred.value() && p.value()
        * hundred.value() <= hundred.value() * hundred.value()) by (nonlinear_arith)
        requires
            zero.value() == 0,
            0 <= p.value() <= hundred.value(),
            hundred.value() > 0,
    ;
    lemma_between_is_finite(zero, q, one);
    lemma_quotient_is_close(f, p, hundred);
}

/// Where the numbers in ascending order are those of the samples.
pub(crate) proof fn lemma_ascending_is_arranged(s: Seq<Single>, m: int)
    requires
        all_finite(s),
        bounded(amounts(s), m),
    ensures
        arranged(amounts(ascending(s)), amounts(s)),
        bounded(amounts(ascending(s)), m),
        samples_rising(ascending(s)),
        ascending(s).len() == s.len(),
{
    let t = ascending(s);
    lemma_ascending_samples_rise(s);
    lemma_ascending(s);
    lemma_mapped_multisets(t, s, |x: Single| amount(x));
    lemma_pow2_pos(925);
    assert forall|i: int, j: int| 0 <= i <= j < t.len() implies #[trigger] amounts(t)[i]
        <= #[trigger] amounts(t)[j] by {
        assert(t[i].value() <= t[j].value());
        vstd::arithmetic::mul::lemma_mul_inequality(t[i].value(), t[j].value(), pow2(925) as int);
    }
    assert forall|i: int| 0 <= i < t.len() implies size(#[trigger] amounts(t)[i]) <= m by {
        lemma_rearranged_contains(t, s, i);
        let j = choose|j: int| 0 <= j < s.len() && s[j] == t[i];
        assert(amounts(s)[j] == amounts(t)[i]);
    }
}

/// The percentile of ascending samples lies, but for rounding, on the line
/// through the two of them whose ranks enclose `pct` hundredths of the last rank.
pub proof fn law_percentile_lies_at_its_rank<A: Arithmetic>(
    f: &A,
    sorted: &[Single],
    pct: Double,
    m: int,
    r: Double,
)
    requires
        deterministic(f),
        rounds_in_order(f),
        1 <= sorted@.len() <= EXACT_COUNTS,
        sorted@.len() <= usize::MAX,
        samples_rising(sorted@),
        bounded(amounts(sorted@), m),
        !pct.nan(),
        0 <= pct.value() <= 100 * Double::unit(),
        call_ensures(percentile_sorted::<A>, (f, sorted, pct), r),
    ensures
        lies_at(r.value(), amounts(sorted@), pct.value() * (sorted@.len() - 1), 100, m),
{
    lemma_percentile_means(f, sorted@, pct, m);
}

/// The largest size among numbers.
pub open spec fn reach(xs: Seq<int>) -> int
    decreases xs.len(),
{
    if xs.len() == 0 {
        0
    } else if size(xs.last()) > reach(xs.drop_last()) {
        size(xs.last())
    } else {
        reach(xs.drop_last())
    }
}

/// No number is larger than the largest.
pub(crate) proof fn lemma_reach(xs: Seq<int>, m: int)
    ensures
        bounded(xs, reach(xs)),
        0 <= reach(xs),
        bounded(xs, m) && m >= 0 ==> reach(xs) <= m,
    decreases xs.len(),
{
    if xs.len() > 0 {
        let front = xs.drop_last();
        lemma_reach(front, m);
        assert(xs.last() == xs[xs.len() - 1]);
        assert forall|i: int| 0 <= i < xs.len() implies size(#[trigger] xs[i]) <= reach(xs) by {
            if i < front.len() {
                assert(front[i] == xs[i]);
            }
        }
        if bounded(xs, m) {
            assert forall|i: int| 0 <= i < front.len() implies size(#[trigger] front[i]) <= m by {
                assert(front[i] == xs[i]);
            }
        }
    }
}

/// Finite samples are far from overflow.
pub(crate) proof fn lemma_sample_reach<A: Arithmetic>(f: &A, s: Seq<Single>)
    requires
        rounds_in_order(f),
        all_finite(s),
    ensures
        bounded(amounts(s), reach(amounts(s))),
        0 <= reach(amounts(s)) <= pow2(1202),
        pow2(1202) <= pow2(1300),
{
    lemma_pow2_pos(1202);
    vstd::arithmetic::power2::lemma_pow2_strictly_increases(1202, 1300);
    lemma_amounts(f, s);
    assert forall|i: int| 0 <= i < s.len() implies size(#[trigger] amounts(s)[i]) <= pow2(1202) by {
        assert(s[i].finite());
        lemma_sample_is_modest(f, s[i]);
        assert(values(all_widened(f, s))[i] == amounts(s)[i]);
    }
    lemma_reach(amounts(s), pow2(1202) as int);
}

/// The sum of the squared distances of numbers from `c`.
pub open spec fn square_sum(xs: Seq<int>, c: int) -> int
    decreases xs.len(),
{
    if xs.len() == 0 {
        0
    } else {
        square_sum(xs.drop_last(), c) + (xs.last() - c) * (xs.last() - c)
    }
}

/// Whether `v` is, but for rounding, the sample variance of `xs` around `mean`:
/// the sum of the squared distances, divided by one less than how many there are.
/// No number is larger than `m`, so that `3 m + 1` bounds the distances.
pub open spec fn is_variance(v: Double, xs: Seq<int>, mean: Double, m: int) -> bool {
    let n = xs.len() as int;
    let w = 3 * m + 1;
    let u = Double::unit();
    gap(v.value() * u * (n - 1), square_sum(xs, mean.value())) * EXACT_COUNTS <= n * ((16 * n + 23)
        * (w * w) + 4 * (EXACT_COUNTS * u))
}

/// Whether `v` is, but for rounding, the root of such a variance.
pub open spec fn is_deviation(v: Double, xs: Seq<int>, mean: Double, m: int) -> bool {
    exists|variance: Double| #[trigger]
        is_variance(variance, xs, mean, m) && near_root(v, variance.value())
}

/// Whether `v` is, but for rounding, `a` times `b` divided by `c`.
pub open spec fn is_share(v: Double, a: int, b: int, c: int) -> bool {
    exists|y: Double| #[trigger] near_product(y, a, b) && near_quotient(v, y.value(), c)
}

/// The squares that are added up are near the exact ones.
proof fn lemma_square_is_near(x: int, mean: int, d: int, s: int, w: int, u: int, k: int)
    requires
        k >= 1,
        u > 0,
        size(x - mean) <= w,
        gap(d, x - mean) * k <= w,
        size(d) <= 2 * w,
        gap(s * u, d * d) * k <= 4 * (w * w) + k * u,
    ensures
        gap(s * u, (x - mean) * (x - mean)) * k <= 7 * (w * w) + k * u,
{
    let t = x - mean;
    let e = d - t;
    let g = d + t;
    let p = d * d;
    let q = t * t;
    assert(p - q == e * g) by (nonlinear_arith)
        requires
            p == d * d,
            q == t * t,
            e == d - t,
            g == d + t,
    ;
    assert(-w <= e * k && e * k <= w) by (nonlinear_arith)
        requires
            gap(d, t) * k <= w,
            e == d - t,
            k >= 1,
    ;
    let y = e * k;
    assert(-(3 * (w * w)) <= y * g && y * g <= 3 * (w * w)) by (nonlinear_arith)
        requires
            -w <= y <= w,
            -(3 * w) <= g <= 3 * w,
    ;
    assert((e * g) * k == y * g) by (nonlinear_arith)
        requires
            y == e * k,
    ;
    assert(gap(p, q) * k <= 3 * (w * w)) by (nonlinear_arith)
        requires
            -(3 * (w * w)) <= (p - q) * k <= 3 * (w * w),
    ;
    let z = s * u;
    assert(gap(z, q) <= gap(z, p) + gap(p, q));
    assert(gap(z, q) * k <= gap(z, p) * k + gap(p, q) * k) by (nonlinear_arith)
        requires
            gap(z, q) <= gap(z, p) + gap(p, q),
            k >= 1,
    ;
}

/// The sum of the rounded squares is near the exact one.
proof fn lemma_squares_are_near<A: Arithmetic>(f: &A, xs: Seq<Double>, mean: Double, m: int)
    requires
        rounds_in_order(f),
        forall|i: int|
            0 <= i < xs.len() ==> (#[trigger] xs[i]).finite() && size(xs[i].value()) <= m,
        mean.finite(),
        size(mean.value()) <= 2 * m + 1,
        0 <= m <= pow2(1300),
    ensures
        ({
            let w = 3 * m + 1;
            let u = Double::unit();
            gap(exact_total(squares(f, xs, mean)) * u, square_sum(values(xs), mean.value()))
                * EXACT_COUNTS <= xs.len() * (7 * (w * w) + EXACT_COUNTS * u)
        }),
    decreases xs.len(),
{
    let n = xs.len() as int;
    let w = 3 * m + 1;
    let u = Double::unit();
    let k = EXACT_COUNTS as int;
    lemma_pow2_pos(1074);
    if n > 0 {
        let front = xs.drop_last();
        let x = xs[n - 1];
        assert forall|i: int| 0 <= i < front.len() implies (#[trigger] front[i]).finite() && size(
            front[i].value(),
        ) <= m by {
            assert(xs[i].finite());
        }
        lemma_squares_are_near(f, front, mean, m);
        lemma_squared_distance(f, x, mean, m);
        let s = squared_distance(f, x, mean).value();
        let d = difference(f, x, mean).value();
        lemma_square_is_near(x.value(), mean.value(), d, s, w, u, k);
        assert(squares(f, xs, mean).drop_last() =~= squares(f, front, mean));
        assert(values(xs).drop_last() =~= values(front));
        let a = exact_total(squares(f, front, mean));
        let b = square_sum(values(front), mean.value());
        let t = (x.value() - mean.value()) * (x.value() - mean.value());
        assert((a + s) * u == a * u + s * u) by (nonlinear_arith);
        let p = a * u;
        let q = s * u;
        assert(gap(p + q, b + t) <= gap(p, b) + gap(q, t));
        assert(gap(p + q, b + t) * k <= gap(p, b) * k + gap(q, t) * k) by (nonlinear_arith)
            requires
                gap(p + q, b + t) <= gap(p, b) + gap(q, t),
                k > 0,
        ;
        let e = 7 * (w * w) + k * u;
        assert(n * e == (n - 1) * e + e) by (nonlinear_arith);
    } else {
        assert(0 * u == 0);
    }
}

/// The variance that the library computes is one.
pub(crate) proof fn lemma_variance_means<A: Arithmetic>(
    f: &A,
    xs: Seq<Double>,
    mean: Double,
    m: int,
)
    requires
        rounds_in_order(f),
        2 <= xs.len() <= SUMMED_COUNTS,
        forall|i: int| 0 <= i < xs.len() ==> (#[trigger] xs[i]).finite(),
        bounded(values(xs), m),
        mean.finite(),
        size(mean.value()) <= 2 * m + 1,
        0 <= m <= pow2(1300),
    ensures
        variance_of(f, xs, mean).finite(),
        0 <= variance_of(f, xs, mean).value() <= pow2(1974),
        is_variance(variance_of(f, xs, mean), values(xs), mean, m),
{
    let n = xs.len() as int;
    let w = 3 * m + 1;
    let u = Double::unit();
    let k = EXACT_COUNTS as int;
    assert forall|i: int| 0 <= i < xs.len() implies (#[trigger] xs[i]).finite() && size(
        xs[i].value(),
    ) <= m by {
        assert(size(values(xs)[i]) <= m);
    }
    lemma_pow2_pos(1074);
    lemma_variance_is_close(f, xs, mean, m);
    lemma_squares_are_near(f, xs, mean, m);
    lemma_square_bound(m, n);
    let b = square_bound(w);
    lemma_variance_errors(
        variance_of(f, xs, mean).value(),
        exact_total(squares(f, xs, mean)),
        square_sum(values(xs), mean.value()),
        b,
        w * w,
        n,
        u,
        k,
    );
}

/// The errors of a variance added up.
proof fn lemma_variance_errors(v: int, s: int, q: int, b: int, ww: int, n: int, u: int, k: int)
    requires
        n >= 2,
        2 * n + 2 <= k,
        u > 0,
        ww >= 0,
        b * u <= 8 * ww + u,
        gap(v * (n - 1), s) * k <= (2 * n + 2) * (n * b) + k * (n - 1),
        gap(s * u, q) * k <= n * (7 * ww + k * u),
    ensures
        gap(v * u * (n - 1), q) * k <= n * ((16 * n + 23) * ww + 4 * (k * u)),
{
    let c = n - 1;
    let p = v * c;
    assert(v * u * c == p * u) by (nonlinear_arith)
        requires
            p == v * c,
    ;
    let g = gap(p, s);
    assert(gap(p * u, s * u) == g * u) by (nonlinear_arith)
        requires
            g == gap(p, s),
            u > 0,
    ;
    assert(gap(p * u, q) <= gap(p * u, s * u) + gap(s * u, q));
    assert(gap(p * u, q) * k <= (g * k) * u + gap(s * u, q) * k) by (nonlinear_arith)
        requires
            gap(p * u, q) <= g * u + gap(s * u, q),
            k > 0,
    ;
    let e = (2 * n + 2) * (n * b) + k * c;
    assert((g * k) * u <= e * u) by (nonlinear_arith)
        requires
            g * k <= e,
            u > 0,
    ;
    let y = n * b;
    assert(e * u == (2 * n + 2) * (y * u) + k * c * u) by (nonlinear_arith)
        requires
            e == (2 * n + 2) * y + k * c,
    ;
    assert(y * u == n * (b * u)) by (nonlinear_arith)
        requires
            y == n * b,
    ;
    assert((2 * n + 2) * (n * (b * u)) <= (2 * n + 2) * (n * (8 * ww + u))) by (nonlinear_arith)
        requires
            b * u <= 8 * ww + u,
            n >= 2,
    ;
    assert(k * c * u <= n * (k * u)) by (nonlinear_arith)
        requires
            c <= n,
            k > 0,
            u > 0,
    ;
    assert((2 * n + 2) * (n * (8 * ww + u)) == n * ((16 * n + 16) * ww + (2 * n + 2) * u))
        by (nonlinear_arith);
    assert((2 * n + 2) * u <= k * u) by (nonlinear_arith)
        requires
            2 * n + 2 <= k,
            u > 0,
    ;
    let x = (16 * n + 16) * ww + (2 * n + 2) * u;
    let z = (16 * n + 16) * ww + k * u;
    assert(n * x <= n * z) by (nonlinear_arith)
        requires
            x <= z,
            n >= 0,
    ;
    assert(n * z + n * (k * u) + n * (7 * ww + k * u) <= n * ((16 * n + 23) * ww + 4 * (k * u)))
        by (nonlinear_arith)
        requires
            z == (16 * n + 16) * ww + k * u,
            n >= 2,
            k > 0,
            u > 0,
    ;
}

/// The mean that the library computes is one.
pub(crate) proof fn lemma_mean_means<A: Arithmetic>(f: &A, start: Double, xs: Seq<Double>, m: int)
    requires
        rounds_in_order(f),
        start.finite(),
        start.value() == 0,
        1 <= xs.len() <= SUMMED_COUNTS,
        forall|i: int| 0 <= i < xs.len() ==> (#[trigger] xs[i]).finite(),
        bounded(values(xs), m),
        m <= pow2(1300),
    ensures
        ({
            let mean = quotient(f, total(f, start, xs), counted(f, xs.len() as int));
            &&& mean.finite()
            &&& size(mean.value()) <= 2 * m + 1
            &&& is_mean(mean, values(xs), m)
        }),
{
    assert forall|i: int| 0 <= i < xs.len() implies (#[trigger] xs[i]).finite() && size(
        xs[i].value(),
    ) <= m by {
        assert(size(values(xs)[i]) <= m);
    }
    lemma_mean_is_modest(f, start, xs, m);
    lemma_whole_sum(xs);
}

/// The percentages that statistics report, as numbers: the first six exactly,
/// 99.9 and 99.99 as near as a double gets.
pub open spec fn is_reported(i: int, p: Double) -> bool {
    let u = Double::unit();
    &&& p.finite()
    &&& i == 0 ==> p.value() == u
    &&& i == 1 ==> p.value() == 5 * u
    &&& i == 2 ==> p.value() == 50 * u
    &&& i == 3 ==> p.value() == 90 * u
    &&& i == 4 ==> p.value() == 95 * u
    &&& i == 5 ==> p.value() == 99 * u
    &&& i == 6 ==> gap(p.value() * 10, 999 * u) * EXACT_COUNTS <= 999 * u
    &&& i == 7 ==> gap(p.value() * 100, 9999 * u) * EXACT_COUNTS <= 9999 * u
}

/// The reported percentages are what they are named after.
pub(crate) proof fn lemma_reported(i: int)
    requires
        0 <= i < 8,
    ensures
        is_reported(i, Double { bits: PERCENTILES@[i] }),
        0 <= (Double { bits: PERCENTILES@[i] }).value() <= 100 * Double::unit(),
        !(Double { bits: PERCENTILES@[i] }).nan(),
{
    lemma_named_numbers();
    lemma_pow2_pos(1021);
    vstd::arithmetic::power2::lemma2_to64();
    vstd::arithmetic::power2::lemma2_to64_rest();
    let p = pow2(1021) as int;
    lemma_scaled_power(53, 0x20_0000_0000_0000);
    lemma_scaled_power(1, 2);
    lemma_scaled_power(3, 8);
    lemma_scaled_power(6, 64);
    lemma_scaled_power(7, 128);
    let x = Double { bits: PERCENTILES@[i] };
    assert(Double::unit() == 0x20_0000_0000_0000 * p);
    if i == 0 {
        assert(x.exponent() == 1023 && x.fraction() == 0);
        assert(x.magnitude() == (0x10_0000_0000_0000 + x.fraction()) * pow2(1022));
        assert(x.value() == 0x20_0000_0000_0000 * p) by (nonlinear_arith)
            requires
                x.value() == (0x10_0000_0000_0000 + x.fraction()) * pow2(1022),
                x.fraction() == 0,
                pow2(1022) == 2 * p,
        ;
    } else if i == 1 {
        assert(x.exponent() == 1025 && x.fraction() == 0x4_0000_0000_0000);
        assert(x.magnitude() == (0x10_0000_0000_0000 + x.fraction()) * pow2(1024));
        assert(x.value() == 0xa0_0000_0000_0000 * p) by (nonlinear_arith)
            requires
                x.value() == (0x10_0000_0000_0000 + x.fraction()) * pow2(1024),
                x.fraction() == 0x4_0000_0000_0000,
                pow2(1024) == 8 * p,
        ;
    } else if i == 2 {
        assert(x.exponent() == 1028 && x.fraction() == 0x9_0000_0000_0000);
        assert(x.magnitude() == (0x10_0000_0000_0000 + x.fraction()) * pow2(1027));
        assert(x.value() == 0x640_0000_0000_0000 * p) by (nonlinear_arith)
            requires
                x.value() == (0x10_0000_0000_0000 + x.fraction()) * pow2(1027),
                x.fraction() == 0x9_0000_0000_0000,
                pow2(1027) == 64 * p,
        ;
    } else if i == 3 {
        assert(x.exponent() == 1029 && x.fraction() == 0x6_8000_0000_0000);
        assert(x.magnitude() == (0x10_0000_0000_0000 + x.fraction()) * pow2(1028));
        assert(x.value() == 0xb40_0000_0000_0000 * p) by (nonlinear_arith)
            requires
                x.value() == (0x10_0000_0000_0000 + x.fraction()) * pow2(1028),
                x.fraction() == 0x6_8000_0000_0000,
                pow2(1028) == 128 * p,
        ;
    } else if i == 4 {
        assert(x.exponent() == 1029 && x.fraction() == 0x7_c000_0000_0000);
        assert(x.magnitude() == (0x10_0000_0000_0000 + x.fraction()) * pow2(1028));
        assert(x.value() == 0xbe0_0000_0000_0000 * p) by (nonlinear_arith)
            requires
                x.value() == (0x10_0000_0000_0000 + x.fraction()) * pow2(1028),
                x.fraction() == 0x7_c000_0000_0000,
                pow2(1028) == 128 * p,
        ;
    } else if i == 5 {
        assert(x.exponent() == 1029 && x.fraction() == 0x8_c000_0000_0000);
        assert(x.magnitude() == (0x10_0000_0000_0000 + x.fraction()) * pow2(1028));
        assert(x.value() == 0xc60_0000_0000_0000 * p) by (nonlinear_arith)
            requires
                x.value() == (0x10_0000_0000_0000 + x.fraction()) * pow2(1028),
                x.fraction() == 0x8_c000_0000_0000,
                pow2(1028) == 128 * p,
        ;
    } else if i == 6 {
        assert(x.exponent() == 1029 && x.fraction() == 0x8_f999_9999_999a);
        assert(x.magnitude() == (0x10_0000_0000_0000 + x.fraction()) * pow2(1028));
        assert(x.value() == 0xc7c_cccc_cccc_cd00 * p) by (nonlinear_arith)
            requires
                x.value() == (0x10_0000_0000_0000 + x.fraction()) * pow2(1028),
                x.fraction() == 0x8_f999_9999_999a,
                pow2(1028) == 128 * p,
        ;
        let g = gap(x.value() * 10, 999 * Double::unit());
        assert(g == 512 * p);
        assert(g * EXACT_COUNTS <= 999 * (0x20_0000_0000_0000 * p)) by (nonlinear_arith)
            requires
                g == 512 * p,
                p >= 0,
                EXACT_COUNTS == 0x20_0000_0000_0000,
        ;
    } else {
        assert(x.exponent() == 1029 && x.fraction() == 0x8_ff5c_28f5_c28f);
        assert(x.magnitude() == (0x10_0000_0000_0000 + x.fraction()) * pow2(1028));
        assert(x.value() == 0xc7f_ae14_7ae1_4780 * p) by (nonlinear_arith)
            requires
                x.value() == (0x10_0000_0000_0000 + x.fraction()) * pow2(1028),
                x.fraction() == 0x8_ff5c_28f5_c28f,
                pow2(1028) == 128 * p,
        ;
        let g = gap(x.value() * 100, 9999 * Double::unit());
        assert(g == 4608 * p);
        assert(g * EXACT_COUNTS <= 9999 * (0x20_0000_0000_0000 * p)) by (nonlinear_arith)
            requires
                g == 4608 * p,
                p >= 0,
                EXACT_COUNTS == 0x20_0000_0000_0000,
        ;
    }
}

/// Powers of two next to one.
proof fn lemma_scaled_power(k: nat, p: nat)
    requires
        pow2(k) == p,
    ensures
        pow2(1021 + k) == p * pow2(1021),
{
    vstd::arithmetic::power2::lemma_pow2_adds(1021, k);
    vstd::arithmetic::mul::lemma_mul_is_commutative(pow2(1021) as int, p as int);
}

/// Whether statistics describe samples, taken `sps` times a second at
/// `voltage_mv`: how many there are, how long they took, the lowest and the
/// highest of them, their mean, the root of their variance, each reported
/// percentage with the percentile at that very percentage, the charge that the
/// mean draws over the duration, and the power that it draws at the voltage.
pub open spec fn describes(r: Stats, samples: Seq<Single>, sps: u32, voltage_mv: u16) -> bool {
    let n = samples.len() as int;
    let xs = amounts(samples);
    let m = reach(xs);
    let u = Double::unit();
    &&& r.count == n
    &&& near_quotient(r.duration_secs, n * u, sps * u)
    &&& xs.contains(r.min.value()) && xs.contains(r.max.value())
    &&& forall|i: int| 0 <= i < n ==> r.min.value() <= #[trigger] xs[i] && xs[i] <= r.max.value()
    &&& is_mean(r.mean, xs, m)
    &&& n >= 2 ==> is_deviation(r.std_dev, xs, r.mean, m)
    &&& n == 1 ==> r.std_dev.value() == 0
    &&& r.percentiles@.len() == 8
    &&& forall|i: int|
        0 <= i < 8 ==> is_reported(i, (#[trigger] r.percentiles@[i]).0) && is_percentile(
            r.percentiles@[i].1,
            samples,
            r.percentiles@[i].0,
            m,
        )
    &&& is_share(r.charge_uah, r.mean.value(), r.duration_secs.value(), 3600 * u)
    &&& is_share(r.avg_power_uw, r.mean.value(), voltage_mv * u, 1000 * u)
}

/// Statistics of samples describe them.
pub proof fn law_statistics_describe_the_samples<A: Arithmetic>(
    f: &A,
    samples: &[Single],
    sps: u32,
    voltage_mv: u16,
    r: Stats,
)
    requires
        deterministic(f),
        rounds_in_order(f),
        1 <= samples@.len() <= SUMMED_COUNTS,
        samples@.len() <= usize::MAX,
        all_finite(samples@),
        sps > 0,
        call_ensures(Stats::from_samples::<A>, (f, samples, sps, voltage_mv), r),
    ensures
        describes(r, samples@, sps, voltage_mv),
{
    lemma_statistics_describe(f, samples@, sps, voltage_mv, r);
}

/// Statistics of a recording describe its samples, at its rate and voltage.
pub proof fn law_recording_statistics_describe_it<A: Arithmetic>(f: &A, rec: &Recording, r: Stats)
    requires
        deterministic(f),
        rounds_in_order(f),
        1 <= rec.samples_ua@.len() <= SUMMED_COUNTS,
        all_finite(rec.samples_ua@),
        rec.meta.sps > 0,
        call_ensures(Stats::compute::<A>, (f, rec), r),
    ensures
        describes(r, rec.samples_ua@, rec.meta.sps, rec.meta.voltage_mv),
{
    assert(rec.samples_ua@.len() == rec.samples_ua.len());
    lemma_statistics_describe(f, rec.samples_ua@, rec.meta.sps, rec.meta.voltage_mv, r);
}

/// The duration of a recording is the number of its samples divided by its rate.
pub proof fn law_duration_is_samples_by_rate<A: Arithmetic>(f: &A, rec: &Recording, r: Double)
    requires
        deterministic(f),
        rounds_in_order(f),
        rec.samples_ua@.len() <= EXACT_COUNTS,
        rec.meta.sps > 0,
        call_ensures(Recording::duration_secs::<A>, (rec, f), r),
    ensures
        near_quotient(
            r,
            rec.samples_ua@.len() * Double::unit(),
            rec.meta.sps * Double::unit(),
        ),
{
    lemma_duration_means(f, rec.samples_ua@.len() as int, rec.meta.sps);
}

/// The mean of samples is one, and the variance of numbers around a mean of them.
pub proof fn law_mean_and_variance<A: Arithmetic>(
    f: &A,
    samples: &[Single],
    mean: Double,
    xs: &[Double],
    variance: Double,
)
    requires
        deterministic(f),
        rounds_in_order(f),
        2 <= samples@.len() <= SUMMED_COUNTS,
        all_finite(samples@),
        xs@ == all_widened(f, samples@),
        call_ensures(mean_sample::<A>, (f, samples), mean),
        call_ensures(crate::stats::variance::<A>, (f, xs, mean), variance),
    ensures
        is_mean(mean, amounts(samples@), reach(amounts(samples@))),
        is_variance(variance, amounts(samples@), mean, reach(amounts(samples@))),
{
    let s = samples@;
    let m = reach(amounts(s));
    let zero = Double { bits: ZERO };
    lemma_named_numbers();
    assert(zero.finite());
    lemma_sample_reach(f, s);
    lemma_amounts(f, s);
    lemma_mean_means(f, zero, xs@, m);
    lemma_variance_means(f, xs@, mean, m);
}

/// Statistics that the library computes describe the samples.
proof fn lemma_statistics_describe<A: Arithmetic>(
    f: &A,
    s: Seq<Single>,
    sps: u32,
    voltage_mv: u16,
    r: Stats,
)
    requires
        rounds_in_order(f),
        1 <= s.len() <= SUMMED_COUNTS,
        s.len() <= usize::MAX,
        all_finite(s),
        sps > 0,
        r@ == statistics(f, s, sps, voltage_mv),
        r.count == s.len(),
    ensures
        describes(r, s, sps, voltage_mv),
{
    let n = s.len() as int;
    let xs = amounts(s);
    let m = reach(xs);
    let u = Double::unit();
    let zero = Double { bits: ZERO };
    let wide = all_widened(f, s);
    lemma_named_numbers();
    lemma_pow2_pos(1074);
    assert(zero.finite());
    lemma_sample_reach(f, s);
    lemma_amounts(f, s);
    lemma_mean_means(f, zero, wide, m);
    lemma_extremes_mean(f, s);
    lemma_ascending_is_arranged(s, m);
    assert forall|i: int| 0 <= i < 8 implies is_reported(i, (#[trigger] r.percentiles@[i]).0)
        && is_percentile(r.percentiles@[i].1, s, r.percentiles@[i].0, m) by {
        lemma_reported(i);
        let p = Double { bits: PERCENTILES@[i] };
        assert(r.percentiles@[i] == (p, percentile(f, ascending(s), p)));
        lemma_percentile_means(f, ascending(s), p, m);
        assert(arranged(amounts(ascending(s)), amounts(s)));
    }
    lemma_duration_means(f, n, sps);
    lemma_count_is_exact(f, voltage_mv as int);
    assert(0 <= voltage_mv * u && voltage_mv * u <= EXACT_COUNTS * u) by (nonlinear_arith)
        requires
            0 <= voltage_mv <= EXACT_COUNTS,
            u > 0,
    ;
    lemma_share_means(f, r.mean, r.duration_secs, Double { bits: HOUR });
    lemma_share_means(f, r.mean, counted(f, voltage_mv as int), Double { bits: THOUSAND });
    if n >= 2 {
        lemma_variance_means(f, wide, r.mean, m);
        let v = variance_of(f, wide, r.mean);
        lemma_root_is_close(f, v);
        assert(is_variance(v, xs, r.mean, m));
    } else {
        lemma_root_is_close(f, zero);
        let d = r.std_dev.value();
        assert(d == 0) by (nonlinear_arith)
            requires
                gap(d * d, 0 * u) * EXACT_COUNTS <= 3 * (0 * u),
        ;
    }
}

/// The extremes that the library finds are those of the samples.
pub(crate) proof fn lemma_extremes_mean<A: Arithmetic>(f: &A, s: Seq<Single>)
    requires
        rounds_in_order(f),
        s.len() > 0,
        all_finite(s),
    ensures
        amounts(s).contains(widened(f, lowest(s)).value()),
        amounts(s).contains(widened(f, highest(s)).value()),
        forall|i: int|
            0 <= i < s.len() ==> widened(f, lowest(s)).value() <= #[trigger] amounts(s)[i]
                && amounts(s)[i] <= widened(f, highest(s)).value(),
{
    let low = lowest(s);
    let high = highest(s);
    law_lowest_is_least(s);
    law_highest_is_greatest(s);
    lemma_samples_below_extremes(f, s);
    assert(s[0].finite());
    lemma_finite_is_inside(s[0]);
    lemma_pow2_pos(925);
    assert(s.contains(low) && s.contains(high));
    let i = choose|i: int| 0 <= i < s.len() && s[i] == low;
    let j = choose|j: int| 0 <= j < s.len() && s[j] == high;
    assert(widened(f, low).value() == amount(low) && widened(f, high).value() == amount(high)) by {
        reveal(rounds_in_order);
    }
    assert(amounts(s)[i] == amount(low) && amounts(s)[j] == amount(high));
    assert forall|k: int| 0 <= k < s.len() implies widened(f, low).value() <= #[trigger] amounts(
        s,
    )[k] && amounts(s)[k] <= widened(f, high).value() by {
        assert(s[k].finite());
        vstd::arithmetic::mul::lemma_mul_inequality(low.value(), s[k].value(), pow2(925) as int);
        vstd::arithmetic::mul::lemma_mul_inequality(s[k].value(), high.value(), pow2(925) as int);
    }
}

/// The duration that the library computes is one.
pub(crate) proof fn lemma_duration_means<A: Arithmetic>(f: &A, n: int, sps: u32)
    requires
        rounds_in_order(f),
        0 <= n <= EXACT_COUNTS,
        sps > 0,
    ensures
        ({
            let d = quotient(f, counted(f, n), counted(f, sps as int));
            &&& d.finite()
            &&& 0 <= d.value() <= EXACT_COUNTS * Double::unit()
            &&& near_quotient(d, n * Double::unit(), sps * Double::unit())
        }),
{
    let u = Double::unit();
    lemma_pow2_pos(1074);
    lemma_duration(f, n, sps);
    lemma_count_is_exact(f, n);
    lemma_count_is_exact(f, sps as int);
    assert(sps * u > 0) by (nonlinear_arith)
        requires
            sps >= 1,
            u > 0,
    ;
    lemma_quotient_is_close(f, counted(f, n), counted(f, sps as int));
}

/// The product and quotient that the library computes are ones.
pub(crate) proof fn lemma_share_means<A: Arithmetic>(f: &A, mean: Double, d: Double, h: Double)
    requires
        rounds_in_order(f),
        mean.finite(),
        d.finite(),
        h.finite(),
        size(mean.value()) <= 2 * pow2(1300) + 1,
        0 <= d.value() <= EXACT_COUNTS * Double::unit(),
        h.value() >= Double::unit(),
    ensures
        is_share(quotient(f, product(f, mean, d), h), mean.value(), d.value(), h.value()),
{
    lemma_pow2_pos(1074);
    let y = product(f, mean, d);
    lemma_modest_product(f, mean, d);
    lemma_product_is_close(f, mean, d);
    lemma_quotient_stays_finite(f, y, h);
    lemma_quotient_is_close(f, y, h);
    assert(near_product(y, mean.value(), d.value()));
}

/// Whether `x` is, but for rounding to a double and then to a single, the average
/// of a chunk of measurements: taken as often as there are measurements, it is
/// the sum of all of them.
pub open spec fn is_chunk_average(x: Single, chunk: Seq<Single>) -> bool {
    let xs = amounts(chunk);
    let c = xs.len() as int;
    let m = reach(xs);
    &&& x.finite()
    &&& gap(amount(x) * c, whole_sum(xs)) * EXACT_COUNTS <= c * ((2 * c + 2) * m + EXACT_COUNTS
        + 0x2000_0000 * (2 * m + 1) + EXACT_COUNTS * pow2(925))
}

/// How near a narrowed double is.
proof fn lemma_narrowed_is_close<A: Arithmetic>(f: &A, a: Double)
    requires
        narrows_closely(f),
        a.finite(),
        size(a.value()) < 0x1ff_ffff * pow2(1177),
    ensures
        narrowed(f, a).finite(),
        gap(amount(narrowed(f, a)), a.value()) * 0x100_0000 <= size(a.value()) + 0x100_0000 * pow2(
            925,
        ),
{
    reveal(narrows_closely);
}

/// A mean of samples is not beyond what a single can hold.
proof fn lemma_mean_fits_single(q: int, s: int, m: int, c: int, p: int, k: int)
    requires
        1 <= c <= 0x400_0000,
        k == 0x20_0000_0000_0000,
        p >= 8,
        0 <= m <= 0x1ff_fffe * p,
        size(s) <= c * m,
        gap(q * c, s) * k <= c * ((2 * c + 2) * m + k),
    ensures
        size(q) < 0x1ff_ffff * p,
{
    let e = (2 * c + 2) * m + k;
    assert(size(q * c) <= c * m + gap(q * c, s));
    assert(size(q * c) == size(q) * c) by (nonlinear_arith)
        requires
            c >= 1,
    ;
    assert(size(q) * c * k <= c * m * k + c * e) by (nonlinear_arith)
        requires
            size(q) * c <= c * m + gap(q * c, s),
            gap(q * c, s) * k <= c * e,
            k > 0,
    ;
    assert(size(q) * k <= m * k + e) by (nonlinear_arith)
        requires
            size(q) * c * k <= c * m * k + c * e,
            c >= 1,
    ;
    assert((2 * c + 2) * m <= 0x800_0002 * (0x1ff_fffe * p)) by (nonlinear_arith)
        requires
            0 <= m <= 0x1ff_fffe * p,
            1 <= c <= 0x400_0000,
    ;
    assert(0x800_0002 * (0x1ff_fffe * p) <= 0x18_0000_0000_0000 * p) by (nonlinear_arith)
        requires
            p >= 0,
    ;
    assert(m * k <= 0x1ff_fffe * (k * p)) by (nonlinear_arith)
        requires
            m <= 0x1ff_fffe * p,
            k > 0,
    ;
    assert(size(q) * k < 0x1ff_ffff * (k * p)) by (nonlinear_arith)
        requires
            size(q) * k <= 0x1ff_fffe * (k * p) + 0x18_0000_0000_0000 * p + k,
            k == 0x20_0000_0000_0000,
            p >= 8,
    ;
    assert(size(q) < 0x1ff_ffff * p) by (nonlinear_arith)
        requires
            size(q) * k < 0x1ff_ffff * (k * p),
            k > 0,
    ;
}

/// The errors of an average added up: `q` is a mean, `a` what it is narrowed to.
proof fn lemma_average_errors(a: int, q: int, s: int, c: int, m: int, p: int, k: int)
    requires
        c >= 1,
        k == 0x20_0000_0000_0000,
        p >= 0,
        size(q) <= 2 * m + 1,
        gap(q * c, s) * k <= c * ((2 * c + 2) * m + k),
        gap(a, q) * 0x100_0000 <= size(q) + 0x100_0000 * p,
    ensures
        gap(a * c, s) * k <= c * ((2 * c + 2) * m + k + 0x2000_0000 * (2 * m + 1) + k * p),
{
    let e = (2 * c + 2) * m + k;
    let g = gap(a, q);
    assert(g * k <= 0x2000_0000 * (2 * m + 1) + k * p) by (nonlinear_arith)
        requires
            g * 0x100_0000 <= 2 * m + 1 + 0x100_0000 * p,
            k == 0x20_0000_0000_0000,
    ;
    assert(gap(a * c, q * c) == g * c) by (nonlinear_arith)
        requires
            g == gap(a, q),
            c >= 1,
    ;
    assert(gap(a * c, s) <= gap(a * c, q * c) + gap(q * c, s));
    assert(gap(a * c, s) * k <= (g * k) * c + gap(q * c, s) * k) by (nonlinear_arith)
        requires
            gap(a * c, s) <= g * c + gap(q * c, s),
            k > 0,
    ;
    let h = 0x2000_0000 * (2 * m + 1) + k * p;
    assert((g * k) * c <= h * c) by (nonlinear_arith)
        requires
            g * k <= h,
            c >= 1,
    ;
    assert(c * (e + h) == c * e + h * c) by (nonlinear_arith);
}

/// The average that the library computes is one.
pub(crate) proof fn lemma_chunk_average_means<A: Arithmetic>(f: &A, chunk: Seq<Single>)
    requires
        rounds_in_order(f),
        narrows_closely(f),
        1 <= chunk.len() <= 0x400_0000,
        all_finite(chunk),
    ensures
        is_chunk_average(chunk_average(f, chunk), chunk),
{
    let c = chunk.len() as int;
    let xs = amounts(chunk);
    let wide = all_widened(f, chunk);
    let m = reach(xs);
    let k = EXACT_COUNTS as int;
    let start = Double { bits: NEGATIVE_ZERO };
    let p = pow2(1177) as int;
    assert(start.finite() && start.magnitude() == 0);
    lemma_sample_reach(f, chunk);
    lemma_amounts(f, chunk);
    lemma_mean_means(f, start, wide, m);
    let q = quotient(f, total(f, start, wide), counted(f, c));
    lemma_pow2_pos(925);
    assert(p >= 8 && 0x1ff_fffe * p >= 0) by {
        vstd::arithmetic::power2::lemma2_to64();
        vstd::arithmetic::power2::lemma_pow2_strictly_increases(3, 1177);
    }
    assert forall|i: int| 0 <= i < xs.len() implies size(#[trigger] xs[i]) <= 0x1ff_fffe * p by {
        assert(chunk[i].finite());
        lemma_largest_sample(chunk[i]);
        vstd::arithmetic::power2::lemma_pow2_adds(253, 925);
        vstd::arithmetic::power2::lemma_pow2_unfold(1178);
        let v = chunk[i].value();
        let z = pow2(925) as int;
        assert(-(0xff_ffff * pow2(253) * z) <= v * z && v * z <= 0xff_ffff * pow2(253) * z)
            by (nonlinear_arith)
            requires
                -(0xff_ffff * pow2(253)) <= v <= 0xff_ffff * pow2(253),
                z > 0,
        ;
        assert(0xff_ffff * pow2(253) * z == 0xff_ffff * (pow2(253) * z)) by (nonlinear_arith);
    }
    lemma_reach(xs, 0x1ff_fffe * p);
    lemma_sum_reach(xs, m);
    lemma_mean_fits_single(q.value(), whole_sum(xs), m, c, p, k);
    lemma_narrowed_is_close(f, q);
    lemma_average_errors(
        amount(chunk_average(f, chunk)),
        q.value(),
        whole_sum(xs),
        c,
        m,
        pow2(925) as int,
        k,
    );
}

/// A sum is no larger than so often the largest number.
proof fn lemma_sum_reach(xs: Seq<int>, m: int)
    requires
        bounded(xs, m),
    ensures
        size(whole_sum(xs)) <= xs.len() * m,
    decreases xs.len(),
{
    let n = xs.len() as int;
    if n > 0 {
        let front = xs.drop_last();
        assert(xs.last() == xs[n - 1]);
        assert forall|i: int| 0 <= i < front.len() implies size(#[trigger] front[i]) <= m by {
            assert(front[i] == xs[i]);
        }
        lemma_sum_reach(front, m);
        assert(n * m == (n - 1) * m + m) by (nonlinear_arith);
    }
}

/// A recording holds one sample for each whole chunk of the measurement stream,
/// up to the number wanted. The sample `i` is the average of the chunk `i`: all
/// of its measurements, and no others, count for it, each with the same weight.
pub proof fn law_recorded_samples_are_averages<A: Arithmetic>(
    f: &A,
    plan: RecordPlan,
    moments: Seq<Moment>,
)
    requires
        rounds_in_order(f),
        narrows_closely(f),
        1 <= plan.chunk <= PPK2_RAW_SPS,
        averaged_by(f, record_start(plan), moments),
        all_finite(record_stream(record_start(plan), moments)),
    ensures
        ({
            let samples = record_run(record_start(plan), moments).samples;
            let stream = record_stream(record_start(plan), moments);
            let c = plan.chunk as int;
            &&& samples.len() <= plan.total
            &&& samples.len() * c <= stream.len()
            &&& samples.len() < plan.total ==> stream.len() < (samples.len() + 1) * c
            &&& forall|i: int|
                0 <= i < samples.len() ==> is_chunk_average(
                    #[trigger] samples[i],
                    stream.subrange(i * c, i * c + c),
                )
        }),
{
    let s = record_run(record_start(plan), moments);
    let stream = record_stream(record_start(plan), moments);
    let c = plan.chunk as int;
    law_recording_averages_the_stream(f, plan, moments);
    let k = stream.len() as int / c;
    vstd::arithmetic::div_mod::lemma_fundamental_div_mod(stream.len() as int, c);
    assert(k * c <= stream.len() && stream.len() < (k + 1) * c && k >= 0) by (nonlinear_arith)
        requires
            stream.len() == c * k + stream.len() as int % c,
            0 <= stream.len() as int % c < c,
            stream.len() >= 0,
            c >= 1,
    ;
    let n = s.samples.len() as int;
    assert(n <= k);
    assert(n * c <= k * c) by (nonlinear_arith)
        requires
            n <= k,
            c >= 1,
    ;
    assert forall|i: int| 0 <= i < s.samples.len() implies is_chunk_average(
        #[trigger] s.samples[i],
        stream.subrange(i * c, i * c + c),
    ) by {
        lemma_chunk_fits(stream.len() as int, c, i);
        let chunk = stream.subrange(i * c, i * c + c);
        assert forall|j: int| 0 <= j < chunk.len() implies (#[trigger] chunk[j]).finite() by {
            assert(stream[i * c + j].finite());
        }
        lemma_chunk_average_means(f, chunk);
    }
}

} // verus!
