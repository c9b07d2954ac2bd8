//! What follows for the statistics from the way arithmetic rounds.
//!
//! The caller's arithmetic promises nothing. Here is what can be said of the
//! statistics where it does what IEEE 754 asks of round-to-nearest: the result
//! of an operation is the exact one where that is a double, results are in the
//! same order as the exact ones, and a finite result is as near to the exact one
//! as the fraction's width allows ([`rounds_in_order`]). All numbers are taken by
//! their value.

use vstd::arithmetic::power2::pow2;
use vstd::prelude::*;

use crate::arithmetic::{
    all_widened, counted, difference, narrowed, product, quotient, square_root, sum, total, widened,
    Arithmetic,
};
use crate::number::{
    lemma_between_is_finite, lemma_large_double_is_whole, lemma_named_numbers, lesser, Double,
    Single, HUNDRED, NAN, ONE, ZERO,
};
use crate::stats::{mix, percentile, percentile_rank};

verus! {

/// Sums are in order, and exact where they can be.
pub open spec fn sums_in_order<A: Arithmetic>(f: &A) -> bool {
    &&& forall|a: Double, b: Double|
        a.finite() && b.finite() ==> !(#[trigger] sum(f, a, b)).nan()
    &&& forall|a: Double, b: Double, c: Double, d: Double|
        #![trigger sum(f, a, b), sum(f, c, d)]
        a.finite() && b.finite() && c.finite() && d.finite() && a.value() + b.value() <= c.value()
            + d.value() ==> sum(f, a, b).value() <= sum(f, c, d).value()
    &&& forall|a: Double, b: Double, e: Double|
        #![trigger sum(f, a, b), e.finite()]
        a.finite() && b.finite() && e.finite() && a.value() + b.value() == e.value() ==> sum(
            f,
            a,
            b,
        ).value() == e.value()
}

/// Differences are in order, and exact where they can be.
pub open spec fn differences_in_order<A: Arithmetic>(f: &A) -> bool {
    &&& forall|a: Double, b: Double|
        a.finite() && b.finite() ==> !(#[trigger] difference(f, a, b)).nan()
    &&& forall|a: Double, b: Double, c: Double, d: Double|
        #![trigger difference(f, a, b), difference(f, c, d)]
        a.finite() && b.finite() && c.finite() && d.finite() && a.value() - b.value() <= c.value()
            - d.value() ==> difference(f, a, b).value() <= difference(f, c, d).value()
    &&& forall|a: Double, b: Double, e: Double|
        #![trigger difference(f, a, b), e.finite()]
        a.finite() && b.finite() && e.finite() && a.value() - b.value() == e.value()
            ==> difference(f, a, b).value() == e.value()
}

/// Products are in order, and exact where they can be.
pub open spec fn products_in_order<A: Arithmetic>(f: &A) -> bool {
    &&& forall|a: Double, b: Double|
        a.finite() && b.finite() ==> !(#[trigger] product(f, a, b)).nan()
    &&& forall|a: Double, b: Double, c: Double, d: Double|
        #![trigger product(f, a, b), product(f, c, d)]
        a.finite() && b.finite() && c.finite() && d.finite() && a.value() * b.value() <= c.value()
            * d.value() ==> product(f, a, b).value() <= product(f, c, d).value()
    &&& forall|a: Double, b: Double, e: Double|
        #![trigger product(f, a, b), e.finite()]
        a.finite() && b.finite() && e.finite() && a.value() * b.value() == e.value()
            * Double::unit() ==> product(f, a, b).value() == e.value()
}

/// Quotients by positive numbers are in order, and exact where they can be; an
/// infinity stays what it is.
pub open spec fn quotients_in_order<A: Arithmetic>(f: &A) -> bool {
    &&& forall|a: Double, b: Double|
        a.finite() && b.finite() && b.value() > 0 ==> !(#[trigger] quotient(f, a, b)).nan()
    &&& forall|a: Double, b: Double|
        !a.nan() && !a.finite() && b.finite() && b.value() > 0 ==> #[trigger] quotient(f, a, b) == a
    &&& forall|a: Double, b: Double, c: Double, d: Double|
        #![trigger quotient(f, a, b), quotient(f, c, d)]
        a.finite() && b.finite() && c.finite() && d.finite() && b.value() > 0 && d.value() > 0
            && a.value() * d.value() <= c.value() * b.value() ==> quotient(f, a, b).value()
            <= quotient(f, c, d).value()
    &&& forall|a: Double, b: Double, e: Double|
        #![trigger quotient(f, a, b), e.finite()]
        a.finite() && b.finite() && e.finite() && b.value() > 0 && a.value() * Double::unit()
            == e.value() * b.value() ==> quotient(f, a, b).value() == e.value()
}

/// The largest count up to which every count is a double.
pub const EXACT_COUNTS: u64 = 0x20_0000_0000_0000;

/// Counts up to [`EXACT_COUNTS`] are exact. Larger ones are finite, and no double
/// lies between a count and what it is rounded to.
pub open spec fn counts_exactly<A: Arithmetic>(f: &A) -> bool {
    &&& forall|n: int| 0 <= n <= u64::MAX ==> (#[trigger] counted(f, n)).finite()
    &&& forall|n: int, e: Double|
        #![trigger counted(f, n), e.finite()]
        0 <= n <= u64::MAX && e.finite() && n * Double::unit() <= e.value() ==> counted(
            f,
            n,
        ).value() <= e.value()
    &&& forall|n: int, e: Double|
        #![trigger counted(f, n), e.finite()]
        0 <= n <= u64::MAX && e.finite() && e.value() <= n * Double::unit() ==> e.value()
            <= counted(f, n).value()
    &&& forall|n: int|
        0 <= n <= EXACT_COUNTS ==> (#[trigger] counted(f, n)).finite() && counted(f, n).value() == n
            * Double::unit()
}

/// Widening keeps numbers, and so keeps them finite and in order. The value of a
/// single counts in units of two to the power -149, that of a double in units of
/// two to the power -1074.
pub open spec fn widens_in_order<A: Arithmetic>(f: &A) -> bool {
    &&& forall|a: Single|
        a.finite() ==> (#[trigger] widened(f, a)).finite() && widened(f, a).value() == a.value()
            * pow2(925)
    &&& forall|a: Single, b: Single|
        #![trigger widened(f, a), widened(f, b)]
        a.finite() && b.finite() && a.value() <= b.value() ==> widened(f, a).value() <= widened(
            f,
            b,
        ).value()
}

/// How far apart two values are.
pub open spec fn gap(a: int, b: int) -> int {
    if a >= b {
        a - b
    } else {
        b - a
    }
}

/// The size of a value without its sign.
pub open spec fn size(a: int) -> int {
    gap(a, 0)
}

/// A finite result is within one part in two to the power 53 of the exact one,
/// half the last bit of a fraction. A product or a quotient may also be off by
/// the smallest subnormal, which has the value one. A root is finite, and its
/// square, with twice its error, within three parts of what it is a root of.
#[verifier::opaque]
pub open spec fn rounds_closely<A: Arithmetic>(f: &A) -> bool {
    &&& forall|a: Double, b: Double|
        a.finite() && b.finite() && (#[trigger] sum(f, a, b)).finite() ==> gap(
            sum(f, a, b).value(),
            a.value() + b.value(),
        ) * EXACT_COUNTS <= size(a.value() + b.value())
    &&& forall|a: Double, b: Double|
        a.finite() && b.finite() && (#[trigger] difference(f, a, b)).finite() ==> gap(
            difference(f, a, b).value(),
            a.value() - b.value(),
        ) * EXACT_COUNTS <= size(a.value() - b.value())
    &&& forall|a: Double, b: Double|
        a.finite() && b.finite() && (#[trigger] product(f, a, b)).finite() ==> gap(
            product(f, a, b).value() * Double::unit(),
            a.value() * b.value(),
        ) * EXACT_COUNTS <= size(a.value() * b.value()) + EXACT_COUNTS * Double::unit()
    &&& forall|a: Double, b: Double|
        a.finite() && b.finite() && b.value() > 0 && (#[trigger] quotient(f, a, b)).finite()
            ==> gap(quotient(f, a, b).value() * b.value(), a.value() * Double::unit())
            * EXACT_COUNTS <= size(a.value() * Double::unit()) + EXACT_COUNTS * b.value()
    &&& forall|a: Double|
        a.finite() && a.value() >= 0 ==> {
            let root = #[trigger] square_root(f, a);
            &&& root.finite()
            &&& root.value() >= 0
            &&& gap(root.value() * root.value(), a.value() * Double::unit()) * EXACT_COUNTS <= 3
                * (a.value() * Double::unit())
        }
}

/// Whether `f` narrows as IEEE 754 asks: a double below the largest single and
/// half its last bit comes to a finite single, within one part in two to the
/// power 24 or the smallest subnormal single.
#[verifier::opaque]
pub open spec fn narrows_closely<A: Arithmetic>(f: &A) -> bool {
    forall|a: Double|
        a.finite() && size(a.value()) < 0x1ff_ffff * pow2(1177) ==> {
            let narrow = #[trigger] narrowed(f, a);
            &&& narrow.finite()
            &&& gap(narrow.value() * pow2(925), a.value()) * 0x100_0000 <= size(a.value())
                + 0x100_0000 * pow2(925)
        }
}

/// Whether `f` divides by numbers of either sign as IEEE 754 asks: a finite
/// quotient is within one part in two to the power 53 of the exact one, or the
/// smallest subnormal.
#[verifier::opaque]
pub open spec fn divides_closely<A: Arithmetic>(f: &A) -> bool {
    forall|a: Double, b: Double|
        a.finite() && b.finite() && b.value() != 0 && (#[trigger] quotient(f, a, b)).finite()
            ==> gap(quotient(f, a, b).value() * b.value(), a.value() * Double::unit())
            * EXACT_COUNTS <= size(a.value() * Double::unit()) + EXACT_COUNTS * size(b.value())
}

/// Whether `f` rounds as IEEE 754 asks: results are exact where they can be, in
/// the order of the exact ones, and close to them.
#[verifier::opaque]
pub open spec fn rounds_in_order<A: Arithmetic>(f: &A) -> bool {
    &&& sums_in_order(f)
    &&& differences_in_order(f)
    &&& products_in_order(f)
    &&& quotients_in_order(f)
    &&& counts_exactly(f)
    &&& widens_in_order(f)
    &&& rounds_closely(f)
}

/// Whether a number is a weight: between zero and one.
pub open spec fn is_weight(w: Double) -> bool {
    w.finite() && 0 <= w.value() <= Double::unit()
}

/// Whether the numbers are finite, none above its successors.
pub open spec fn rising(xs: Seq<Double>) -> bool {
    &&& forall|i: int| 0 <= i < xs.len() ==> (#[trigger] xs[i]).finite()
    &&& forall|i: int, j: int|
        0 <= i <= j < xs.len() ==> (#[trigger] xs[i]).value() <= (#[trigger] xs[j]).value()
}

/// A number scaled by a weight lies between zero and the number.
pub proof fn lemma_scaled<A: Arithmetic>(f: &A, x: Double, w: Double)
    requires
        rounds_in_order(f),
        x.finite(),
        is_weight(w),
    ensures
        product(f, x, w).finite(),
        x.value() >= 0 ==> 0 <= product(f, x, w).value() <= x.value(),
        x.value() <= 0 ==> x.value() <= product(f, x, w).value() <= 0,
        w.value() == 0 ==> product(f, x, w).value() == 0,
        w.value() == Double::unit() ==> product(f, x, w).value() == x.value(),
{
    reveal(rounds_in_order);
    lemma_named_numbers();
    let one = Double { bits: ONE };
    let zero = Double { bits: ZERO };
    let p = product(f, x, w);
    let u = Double::unit();
    assert(one.finite() && zero.finite());
    assert(x.value() * zero.value() == 0 && zero.value() * u == 0) by (nonlinear_arith)
        requires
            zero.value() == 0,
    ;
    assert(product(f, x, one).value() == x.value());
    assert(product(f, x, zero).value() == 0);
    if w.value() == 0 {
        assert(x.value() * w.value() == 0) by (nonlinear_arith)
            requires
                w.value() == 0,
        ;
        assert(zero.finite());
    }
    if w.value() == u {
        assert(x.value() * w.value() == x.value() * u);
        assert(x.finite());
    }
    if x.value() >= 0 {
        assert(0 <= x.value() * w.value() <= x.value() * u) by (nonlinear_arith)
            requires
                x.value() >= 0,
                0 <= w.value() <= u,
        ;
        lemma_between_is_finite(zero, p, x);
    }
    if x.value() <= 0 {
        assert(x.value() * u <= x.value() * w.value() <= 0) by (nonlinear_arith)
            requires
                x.value() <= 0,
                0 <= w.value() <= u,
        ;
        lemma_between_is_finite(x, p, zero);
    }
}

/// What is left of one beside a weight is a weight.
pub proof fn lemma_other_weight<A: Arithmetic>(f: &A, w: Double)
    requires
        rounds_in_order(f),
        is_weight(w),
    ensures
        is_weight(difference(f, Double { bits: ONE }, w)),
        w.value() == 0 ==> difference(f, Double { bits: ONE }, w).value() == Double::unit(),
{
    reveal(rounds_in_order);
    lemma_named_numbers();
    let one = Double { bits: ONE };
    let zero = Double { bits: ZERO };
    let v = difference(f, one, w);
    assert(one.finite() && zero.finite());
    assert(difference(f, one, one).value() == 0) by {
        assert(zero.finite());
    }
    assert(difference(f, one, zero).value() == one.value());
    lemma_between_is_finite(zero, v, one);
}

/// Mixing higher numbers gives no lower a mixture.
pub proof fn lemma_mix_grows<A: Arithmetic>(
    f: &A,
    a: Double,
    b: Double,
    c: Double,
    d: Double,
    w: Double,
)
    requires
        rounds_in_order(f),
        a.finite(),
        b.finite(),
        c.finite(),
        d.finite(),
        a.value() <= c.value(),
        b.value() <= d.value(),
        is_weight(w),
    ensures
        mix(f, a, b, w).value() <= mix(f, c, d, w).value(),
{
    let v = difference(f, Double { bits: ONE }, w);
    lemma_other_weight(f, w);
    lemma_scaled(f, a, v);
    lemma_scaled(f, b, w);
    lemma_scaled(f, c, v);
    lemma_scaled(f, d, w);
    reveal(rounds_in_order);
    assert(a.value() * v.value() <= c.value() * v.value()) by (nonlinear_arith)
        requires
            a.value() <= c.value(),
            0 <= v.value(),
    ;
    assert(b.value() * w.value() <= d.value() * w.value()) by (nonlinear_arith)
        requires
            b.value() <= d.value(),
            0 <= w.value(),
    ;
}

/// A weight of zero leaves the lower number.
pub proof fn lemma_mix_at_zero<A: Arithmetic>(f: &A, a: Double, b: Double, w: Double)
    requires
        rounds_in_order(f),
        a.finite(),
        b.finite(),
        is_weight(w),
        w.value() == 0,
    ensures
        mix(f, a, b, w).value() == a.value(),
{
    let v = difference(f, Double { bits: ONE }, w);
    lemma_other_weight(f, w);
    lemma_scaled(f, a, v);
    lemma_scaled(f, b, w);
    reveal(rounds_in_order);
    assert(a.finite());
}

/// The whole rank at or below `rank` among `n` numbers.
pub open spec fn lower_rank(rank: Double, n: int) -> int {
    lesser(rank.floor(), n - 1)
}

/// The whole rank at or above `rank` among `n` numbers.
pub open spec fn upper_rank(rank: Double, n: int) -> int {
    lesser(rank.ceil(), n - 1)
}

/// What a count is rounded to where a double has its value, or lies between it
/// and what it is rounded to.
proof fn lemma_count_reaches<A: Arithmetic>(f: &A, n: int, e: Double)
    requires
        rounds_in_order(f),
        0 <= n <= u64::MAX,
        e.finite(),
        n * Double::unit() <= e.value(),
        e.value() == n * Double::unit() || e.value() <= counted(f, n).value(),
    ensures
        counted(f, n).finite(),
        counted(f, n).value() == e.value(),
{
    reveal(rounds_in_order);
}

/// The difference of numbers of one value is zero.
proof fn lemma_no_difference<A: Arithmetic>(f: &A, a: Double, b: Double)
    requires
        rounds_in_order(f),
        a.finite(),
        b.finite(),
        a.value() == b.value(),
    ensures
        is_weight(difference(f, a, b)),
        difference(f, a, b).value() == 0,
{
    reveal(rounds_in_order);
    lemma_named_numbers();
    vstd::arithmetic::power2::lemma_pow2_pos(1074);
    let zero = Double { bits: ZERO };
    assert(zero.finite());
    lemma_between_is_finite(zero, difference(f, a, b), zero);
}

/// The distance of a rank from a count at most one below it is a weight.
proof fn lemma_rank_weight<A: Arithmetic>(f: &A, rank: Double, lo: int)
    requires
        rounds_in_order(f),
        rank.finite(),
        0 <= lo <= EXACT_COUNTS,
        lo * Double::unit() <= rank.value() <= (lo + 1) * Double::unit(),
    ensures
        is_weight(difference(f, rank, counted(f, lo))),
{
    reveal(rounds_in_order);
    lemma_named_numbers();
    let u = Double::unit();
    let one = Double { bits: ONE };
    let zero = Double { bits: ZERO };
    let c = counted(f, lo);
    assert(one.finite() && zero.finite());
    assert(c.finite() && c.value() == lo * u);
    assert(difference(f, c, c).value() == 0) by {
        assert(zero.finite());
    }
    assert(difference(f, one, zero).value() == one.value());
    assert((lo + 1) * u == lo * u + u) by (nonlinear_arith);
    lemma_between_is_finite(zero, difference(f, rank, c), one);
}

/// The whole ranks around a rank, and how far it is from the lower one.
pub proof fn lemma_rank_parts<A: Arithmetic>(f: &A, rank: Double, n: int)
    requires
        rounds_in_order(f),
        1 <= n,
        n - 1 <= usize::MAX,
        rank.finite(),
        0 <= rank.value() <= counted(f, n - 1).value(),
    ensures
        lower_rank(rank, n) == lesser(rank.value() / Double::unit(), n - 1),
        upper_rank(rank, n) == lesser(-((-rank.value()) / Double::unit()), n - 1),
        0 <= lower_rank(rank, n) <= upper_rank(rank, n) <= n - 1,
        upper_rank(rank, n) <= lower_rank(rank, n) + 1,
        counted(f, lower_rank(rank, n)).finite(),
        is_weight(difference(f, rank, counted(f, lower_rank(rank, n)))),
        upper_rank(rank, n) == lower_rank(rank, n) ==> difference(
            f,
            rank,
            counted(f, lower_rank(rank, n)),
        ).value() == 0,
{
    let u = Double::unit();
    let v = rank.value();
    let k = EXACT_COUNTS as int;
    vstd::arithmetic::power2::lemma_pow2_pos(1074);
    vstd::arithmetic::div_mod::lemma_fundamental_div_mod(v, u);
    vstd::arithmetic::div_mod::lemma_fundamental_div_mod(-v, u);
    let lo = v / u;
    let hi = -((-v) / u);
    assert(0 <= lo <= hi && hi <= lo + 1 && lo * u <= v && v <= hi * u && (v % u == 0 ==> lo == hi)
        && v < (lo + 1) * u) by (nonlinear_arith)
        requires
            v == u * (v / u) + v % u,
            -v == u * ((-v) / u) + (-v) % u,
            0 <= v % u < u,
            0 <= (-v) % u < u,
            lo == v / u,
            hi == -((-v) / u),
            0 <= v,
            u > 0,
    ;
    assert(lower_rank(rank, n) == lesser(lo, n - 1));
    assert(upper_rank(rank, n) == lesser(hi, n - 1));
    assert(counted(f, lower_rank(rank, n)).finite()) by {
        reveal(rounds_in_order);
    }
    if lo >= k {
        assert(v >= k * u) by (nonlinear_arith)
            requires
                lo * u <= v,
                lo >= k,
                u > 0,
        ;
        lemma_large_double_is_whole(rank);
    }
    if lo > n - 1 || (lo == n - 1 && lo == hi) || lo >= k {
        let at = lesser(lo, n - 1);
        assert(at * u <= v) by (nonlinear_arith)
            requires
                at <= lo,
                lo * u <= v,
                u > 0,
        ;
        assert(at < n - 1 ==> v == at * u);
        lemma_count_reaches(f, at, rank);
        lemma_no_difference(f, rank, counted(f, at));
    } else {
        assert((lo + 1) * u >= v);
        lemma_rank_weight(f, rank, lo);
        if hi > n - 1 {
            // A count this small is exact.
            reveal(rounds_in_order);
            assert(counted(f, n - 1).value() == (n - 1) * u);
            assert(v <= lo * u);
            assert(false) by {
                lemma_whole_has_one_rank(v, lo, u);
            }
        }
        if lo == hi {
            lemma_count_reaches(f, lo, rank);
            lemma_no_difference(f, rank, counted(f, lo));
        }
    }
}

/// A rank with one whole rank around it, and not beyond the last, is whole.
pub proof fn lemma_rank_is_whole(rank: Double, n: int)
    requires
        1 <= n,
        n - 1 <= usize::MAX,
        rank.finite(),
        0 <= rank.value() <= (n - 1) * Double::unit(),
        lower_rank(rank, n) == upper_rank(rank, n),
    ensures
        rank.value() == lower_rank(rank, n) * Double::unit(),
{
    let u = Double::unit();
    let v = rank.value();
    vstd::arithmetic::power2::lemma_pow2_pos(1074);
    vstd::arithmetic::div_mod::lemma_fundamental_div_mod(v, u);
    vstd::arithmetic::div_mod::lemma_fundamental_div_mod(-v, u);
    let lo = v / u;
    let hi = -((-v) / u);
    assert(0 <= lo <= hi && hi <= n - 1 && lo * u <= v && v <= hi * u) by (nonlinear_arith)
        requires
            v == u * (v / u) + v % u,
            -v == u * ((-v) / u) + (-v) % u,
            0 <= v % u < u,
            0 <= (-v) % u < u,
            lo == v / u,
            hi == -((-v) / u),
            0 <= v <= (n - 1) * u,
            u > 0,
    ;
}

/// A whole number has no rank above it.
proof fn lemma_whole_has_one_rank(v: int, lo: int, u: int)
    requires
        u > 0,
        v == lo * u,
    ensures
        -((-v) / u) == lo,
{
    assert(-v == (-lo) * u) by (nonlinear_arith)
        requires
            v == lo * u,
    ;
    vstd::arithmetic::div_mod::lemma_fundamental_div_mod_converse(-v, u, -lo, 0);
}

/// The share of the ranks that a percentile stands for.
pub open spec fn share_of<A: Arithmetic>(f: &A, pct: Double) -> Double {
    quotient(f, pct, Double { bits: HUNDRED }).unit_clamped()
}

/// Shares are weights; percentiles at or beyond the ends stand for none or all
/// of the ranks.
pub proof fn lemma_share<A: Arithmetic>(f: &A, pct: Double)
    requires
        rounds_in_order(f),
        !pct.nan(),
    ensures
        is_weight(share_of(f, pct)),
        pct.value() <= 0 ==> share_of(f, pct).value() == 0,
        pct.value() >= 100 * Double::unit() ==> share_of(f, pct).value() == Double::unit(),
{
    reveal(rounds_in_order);
    lemma_named_numbers();
    vstd::arithmetic::power2::lemma_pow2_pos(1074);
    let zero = Double { bits: ZERO };
    let one = Double { bits: ONE };
    let hundred = Double { bits: HUNDRED };
    let u = Double::unit();
    assert(zero.finite() && one.finite() && hundred.finite());
    assert(!zero.nan() && !one.nan());
    let q = quotient(f, pct, hundred);
    if pct.finite() {
        assert(quotient(f, zero, hundred).value() == 0) by {
            assert(zero.value() * u == zero.value() * hundred.value()) by (nonlinear_arith)
                requires
                    zero.value() == 0,
            ;
            assert(zero.finite());
        }
        assert(quotient(f, hundred, hundred).value() == u) by {
            assert(hundred.value() * u == one.value() * hundred.value()) by (nonlinear_arith)
                requires
                    one.value() == u,
            ;
            assert(one.finite());
        }
        if pct.value() <= 0 {
            assert(pct.value() * hundred.value() <= zero.value() * hundred.value())
                by (nonlinear_arith)
                requires
                    pct.value() <= 0,
                    zero.value() == 0,
                    hundred.value() > 0,
            ;
        }
        if pct.value() >= 100 * u {
            assert(hundred.value() * hundred.value() <= pct.value() * hundred.value())
                by (nonlinear_arith)
                requires
                    pct.value() >= hundred.value(),
                    hundred.value() > 0,
            ;
        }
    } else {
        assert(q == pct);
        if 0 <= q.value() <= u {
            lemma_between_is_finite(zero, q, one);
        }
    }
    if !q.below(zero) && !one.below(q) {
        lemma_between_is_finite(zero, q, one);
    }
}

/// Higher percentiles stand for no smaller a share of the ranks.
pub proof fn lemma_shares_grow<A: Arithmetic>(f: &A, p: Double, q: Double)
    requires
        rounds_in_order(f),
        !p.nan(),
        !q.nan(),
        p.value() <= q.value(),
    ensures
        share_of(f, p).value() <= share_of(f, q).value(),
{
    lemma_share(f, p);
    lemma_share(f, q);
    lemma_named_numbers();
    vstd::arithmetic::power2::lemma_pow2_pos(1074);
    let zero = Double { bits: ZERO };
    let one = Double { bits: ONE };
    let hundred = Double { bits: HUNDRED };
    assert(zero.finite() && one.finite() && hundred.finite());
    if 0 < p.value() && q.value() < 100 * Double::unit() {
        lemma_between_is_finite(zero, p, hundred);
        lemma_between_is_finite(zero, q, hundred);
        reveal(rounds_in_order);
        assert(p.value() * hundred.value() <= q.value() * hundred.value()) by (nonlinear_arith)
            requires
                p.value() <= q.value(),
                hundred.value() > 0,
        ;
        assert(quotient(f, p, hundred).value() <= quotient(f, q, hundred).value());
        assert(!quotient(f, p, hundred).nan() && !quotient(f, q, hundred).nan());
    }
}

/// The rank of a share of `n` numbers.
pub proof fn lemma_rank_of_share<A: Arithmetic>(f: &A, n: int, w: Double, v: Double)
    requires
        rounds_in_order(f),
        1 <= n,
        n - 1 <= u64::MAX,
        is_weight(w),
        is_weight(v),
        w.value() <= v.value(),
    ensures
        ({
            let last = counted(f, n - 1);
            &&& product(f, w, last).finite()
            &&& product(f, v, last).finite()
            &&& 0 <= product(f, w, last).value() <= product(f, v, last).value() <= last.value()
            &&& w.value() == 0 ==> product(f, w, last).value() == 0
            &&& v.value() == Double::unit() ==> product(f, v, last).value() == last.value()
        }),
{
    reveal(rounds_in_order);
    lemma_named_numbers();
    vstd::arithmetic::power2::lemma_pow2_pos(1074);
    let zero = Double { bits: ZERO };
    let one = Double { bits: ONE };
    let last = counted(f, n - 1);
    let u = Double::unit();
    let a = product(f, w, last);
    let b = product(f, v, last);
    assert(zero.finite() && one.finite() && last.finite());
    assert((n - 1) * u >= 0) by (nonlinear_arith)
        requires
            n >= 1,
            u > 0,
    ;
    assert(last.value() >= zero.value());
    assert(zero.value() * last.value() == 0 && zero.value() * u == 0) by (nonlinear_arith)
        requires
            zero.value() == 0,
    ;
    assert(product(f, zero, last).value() == 0) by {
        assert(zero.finite());
    }
    assert(one.value() * last.value() == last.value() * u) by (nonlinear_arith)
        requires
            one.value() == u,
    ;
    assert(product(f, one, last).value() == last.value());
    assert(0 <= w.value() * last.value() <= v.value() * last.value() <= one.value() * last.value())
        by (nonlinear_arith)
        requires
            0 <= w.value() <= v.value() <= one.value(),
            last.value() >= 0,
    ;
    lemma_between_is_finite(zero, a, last);
    lemma_between_is_finite(zero, b, last);
    if w.value() == 0 {
        assert(w.value() * last.value() == zero.value() * last.value());
        assert(a.value() <= product(f, zero, last).value());
    }
    if v.value() == u {
        assert(one.value() * last.value() <= v.value() * last.value());
    }
}

/// Whether the samples are finite, none above its successors.
pub open spec fn samples_rising(sorted: Seq<Single>) -> bool {
    &&& forall|i: int| 0 <= i < sorted.len() ==> (#[trigger] sorted[i]).finite()
    &&& forall|i: int, j: int|
        0 <= i <= j < sorted.len() ==> (#[trigger] sorted[i]).value() <= (
        #[trigger] sorted[j]).value()
}

/// Rising samples rise when they are widened.
pub proof fn lemma_widened_rising<A: Arithmetic>(f: &A, sorted: Seq<Single>)
    requires
        rounds_in_order(f),
        samples_rising(sorted),
    ensures
        rising(all_widened(f, sorted)),
{
    reveal(rounds_in_order);
    let xs = all_widened(f, sorted);
    assert forall|i: int| 0 <= i < xs.len() implies (#[trigger] xs[i]).finite() by {
        assert(sorted[i].finite());
    }
    assert forall|i: int, j: int| 0 <= i <= j < xs.len() implies (#[trigger] xs[i]).value() <= (
    #[trigger] xs[j]).value() by {
        assert(sorted[i].finite() && sorted[j].finite());
        assert(sorted[i].value() <= sorted[j].value());
    }
}

/// Percentiles at or beyond the ends give the ends: the lowest sample from zero
/// down, the highest from one hundred up. Of no samples a percentile is not a
/// number, and of one it is that one. The highest sample is given where its rank
/// is not rounded down, which no rank below two to the power 53 is.
pub proof fn law_percentile_ends<A: Arithmetic>(f: &A, sorted: Seq<Single>, pct: Double)
    requires
        rounds_in_order(f),
        sorted.len() <= usize::MAX,
        samples_rising(sorted),
        !pct.nan(),
    ensures
        1 <= sorted.len() <= EXACT_COUNTS ==> counted(f, sorted.len() - 1).value() == (sorted.len()
            - 1) * Double::unit(),
        sorted.len() == 0 ==> percentile(f, sorted, pct) == (Double { bits: NAN }),
        sorted.len() == 1 ==> percentile(f, sorted, pct) == widened(f, sorted[0]),
        sorted.len() > 0 && pct.value() <= 0 ==> percentile(f, sorted, pct).value() == widened(
            f,
            sorted[0],
        ).value(),
        sorted.len() > 0 && pct.value() >= 100 * Double::unit() && counted(
            f,
            sorted.len() - 1,
        ).value() >= (sorted.len() - 1) * Double::unit() ==> percentile(f, sorted, pct).value()
            == widened(f, sorted.last()).value(),
{
    assert(1 <= sorted.len() <= EXACT_COUNTS ==> counted(f, sorted.len() - 1).value() == (
    sorted.len() - 1) * Double::unit()) by {
        reveal(rounds_in_order);
    }
    if sorted.len() >= 2 {
        let n = sorted.len() as int;
        let xs = all_widened(f, sorted);
        let rank = percentile_rank(f, n, pct);
        lemma_widened_rising(f, sorted);
        lemma_share(f, pct);
        lemma_rank_of_share(f, n, share_of(f, pct), share_of(f, pct));
        lemma_rank_parts(f, rank, n);
        vstd::arithmetic::power2::lemma_pow2_pos(1074);
        let w = difference(f, rank, counted(f, lower_rank(rank, n)));
        let u = Double::unit();
        let last = counted(f, n - 1).value();
        if pct.value() <= 0 {
            assert(lower_rank(rank, n) == 0 && upper_rank(rank, n) == 0) by {
                assert(rank.value() == 0);
                vstd::arithmetic::div_mod::lemma_div_basics(u);
            }
            lemma_mix_at_zero(f, xs[0], xs[0], w);
        }
        if pct.value() >= 100 * u && last >= (n - 1) * u {
            assert(lower_rank(rank, n) == n - 1) by {
                vstd::arithmetic::div_mod::lemma_div_by_multiple(n - 1, u);
                vstd::arithmetic::div_mod::lemma_div_is_ordered((n - 1) * u, last, u);
            }
            lemma_mix_at_zero(f, xs[n - 1], xs[n - 1], w);
        }
    }
}

/// But for rounding, a percentile lies between the lowest and the highest
/// sample: it lies between what interpolating between the lowest and itself,
/// and between the highest and itself, gives with the same weight.
pub proof fn law_percentile_lies_between_ends<A: Arithmetic>(
    f: &A,
    sorted: Seq<Single>,
    pct: Double,
)
    requires
        rounds_in_order(f),
        2 <= sorted.len() <= usize::MAX,
        samples_rising(sorted),
        !pct.nan(),
    ensures
        ({
            let n = sorted.len() as int;
            let rank = percentile_rank(f, n, pct);
            let w = difference(f, rank, counted(f, lower_rank(rank, n)));
            let first = widened(f, sorted[0]);
            let last = widened(f, sorted.last());
            &&& is_weight(w)
            &&& mix(f, first, first, w).value() <= percentile(f, sorted, pct).value()
            &&& percentile(f, sorted, pct).value() <= mix(f, last, last, w).value()
        }),
{
    let n = sorted.len() as int;
    let xs = all_widened(f, sorted);
    let rank = percentile_rank(f, n, pct);
    lemma_widened_rising(f, sorted);
    lemma_share(f, pct);
    lemma_rank_of_share(f, n, share_of(f, pct), share_of(f, pct));
    lemma_rank_parts(f, rank, n);
    let w = difference(f, rank, counted(f, lower_rank(rank, n)));
    let lo = xs[lower_rank(rank, n)];
    let hi = xs[upper_rank(rank, n)];
    assert(xs[0].finite() && xs[n - 1].finite() && lo.finite() && hi.finite());
    lemma_mix_grows(f, xs[0], xs[0], lo, hi, w);
    lemma_mix_grows(f, lo, hi, xs[n - 1], xs[n - 1], w);
}

/// Whether two numbers differ in their sign alone, or are both zero.
pub open spec fn opposite(x: Double, y: Double) -> bool {
    !x.nan() && !y.nan() && x.value() == -y.value()
}

/// Whether `f` treats both signs and both operands alike, as IEEE 754 asks:
/// exchanging the operands leaves a sum and turns the sign of a difference, the
/// sign of a quotient turns with that of its dividend, and what is not a number
/// stays so. Where a result is not a number, nothing is asked of it.
#[verifier::opaque]
pub open spec fn mirrors<A: Arithmetic>(f: &A) -> bool {
    &&& forall|a: Double, b: Double|
        !(#[trigger] sum(f, a, b)).nan() ==> sum(f, b, a) == sum(f, a, b)
    &&& forall|a: Double, b: Double|
        !(#[trigger] difference(f, a, b)).nan() ==> !a.nan() && !b.nan() && opposite(
            difference(f, a, b),
            difference(f, b, a),
        )
    &&& forall|x: Double, y: Double, d: Double|
        #![trigger quotient(f, x, d), quotient(f, y, d)]
        opposite(x, y) && !quotient(f, x, d).nan() ==> opposite(
            quotient(f, x, d),
            quotient(f, y, d),
        )
    &&& forall|x: Double, d: Double|
        !(#[trigger] quotient(f, x, d)).nan() ==> !x.nan() && !d.nan()
    &&& forall|x: Double| !(#[trigger] square_root(f, x)).nan() ==> !x.nan()
}

/// What exchanging the operands does to a sum.
pub proof fn lemma_sum_mirrors<A: Arithmetic>(f: &A, a: Double, b: Double)
    requires
        mirrors(f),
        !sum(f, a, b).nan(),
    ensures
        sum(f, b, a) == sum(f, a, b),
{
    reveal(mirrors);
}

/// What exchanging the operands does to a difference.
pub proof fn lemma_difference_mirrors<A: Arithmetic>(f: &A, a: Double, b: Double)
    requires
        mirrors(f),
        !difference(f, a, b).nan(),
    ensures
        !a.nan(),
        !b.nan(),
        opposite(difference(f, a, b), difference(f, b, a)),
{
    reveal(mirrors);
}

/// What the sign of the dividend does to a quotient.
pub proof fn lemma_quotient_mirrors<A: Arithmetic>(f: &A, x: Double, y: Double, d: Double)
    requires
        mirrors(f),
        opposite(x, y),
        !quotient(f, x, d).nan(),
    ensures
        opposite(quotient(f, x, d), quotient(f, y, d)),
{
    reveal(mirrors);
}

/// A quotient that is a number is one of numbers.
pub proof fn lemma_quotient_of_numbers<A: Arithmetic>(f: &A, x: Double, d: Double)
    requires
        mirrors(f),
        !quotient(f, x, d).nan(),
    ensures
        !x.nan(),
        !d.nan(),
{
    reveal(mirrors);
}

/// A root that is a number is one of a number.
pub proof fn lemma_root_of_number<A: Arithmetic>(f: &A, x: Double)
    requires
        mirrors(f),
        !square_root(f, x).nan(),
    ensures
        !x.nan(),
{
    reveal(mirrors);
}

/// `k` times the number `x`.
pub open spec fn copies(x: Double, k: nat) -> Seq<Double> {
    Seq::new(k, |i: int| x)
}

/// The mean of `n` times the number `x`: `x`, but for rounding.
pub open spec fn repeated_mean<A: Arithmetic>(f: &A, x: Double, n: nat) -> Double {
    quotient(f, total(f, Double { bits: ZERO }, copies(x, n)), counted(f, n as int))
}

/// Whether adding up `x` so often does not overflow.
pub open spec fn adds_up<A: Arithmetic>(f: &A, x: Double, n: nat) -> bool {
    forall|k: nat|
        k <= n ==> (#[trigger] total(f, Double { bits: ZERO }, copies(x, k))).finite()
}

/// A sum of numbers lies between the sums of as many times the lowest and the
/// highest of them.
pub proof fn lemma_total_between<A: Arithmetic>(f: &A, ys: Seq<Double>, low: Double, high: Double)
    requires
        rounds_in_order(f),
        low.finite(),
        high.finite(),
        forall|i: int|
            0 <= i < ys.len() ==> (#[trigger] ys[i]).finite() && low.value() <= ys[i].value()
                <= high.value(),
        adds_up(f, low, ys.len()),
        adds_up(f, high, ys.len()),
    ensures
        ({
            let zero = Double { bits: ZERO };
            &&& total(f, zero, ys).finite()
            &&& total(f, zero, copies(low, ys.len())).value() <= total(f, zero, ys).value()
            &&& total(f, zero, ys).value() <= total(f, zero, copies(high, ys.len())).value()
        }),
    decreases ys.len(),
{
    let zero = Double { bits: ZERO };
    let n = ys.len();
    if n == 0 {
        assert(ys =~= copies(low, 0) && ys =~= copies(high, 0));
        assert(zero.finite());
    } else {
        let front = ys.drop_last();
        let k = (n - 1) as nat;
        assert(ys.last() == ys[n - 1]);
        assert forall|i: int| 0 <= i < front.len() implies (#[trigger] front[i]).finite()
            && low.value() <= front[i].value() <= high.value() by {
            assert(ys[i].finite());
        }
        lemma_total_between(f, front, low, high);
        assert(copies(low, n).drop_last() =~= copies(low, k));
        assert(copies(high, n).drop_last() =~= copies(high, k));
        assert(total(f, zero, copies(low, k)).finite());
        assert(total(f, zero, copies(high, k)).finite());
        assert(total(f, zero, copies(low, n)).finite());
        assert(total(f, zero, copies(high, n)).finite());
        reveal(rounds_in_order);
        assert(total(f, zero, copies(low, n)) == sum(f, total(f, zero, copies(low, k)), low));
        assert(total(f, zero, copies(high, n)) == sum(f, total(f, zero, copies(high, k)), high));
        lemma_between_is_finite(
            total(f, zero, copies(low, n)),
            total(f, zero, ys),
            total(f, zero, copies(high, n)),
        );
    }
}

/// Dividing by a count of one or more keeps a number finite, and in order.
pub proof fn lemma_divided<A: Arithmetic>(f: &A, x: Double, y: Double, n: int)
    requires
        rounds_in_order(f),
        x.finite(),
        y.finite(),
        x.value() <= y.value(),
        1 <= n <= EXACT_COUNTS,
    ensures
        quotient(f, x, counted(f, n)).finite(),
        quotient(f, y, counted(f, n)).finite(),
        quotient(f, x, counted(f, n)).value() <= quotient(f, y, counted(f, n)).value(),
{
    lemma_divided_is_finite(f, x, n);
    lemma_divided_is_finite(f, y, n);
    reveal(rounds_in_order);
    vstd::arithmetic::power2::lemma_pow2_pos(1074);
    let c = counted(f, n);
    assert(c.finite());
    assert(c.value() > 0) by (nonlinear_arith)
        requires
            c.value() == n * Double::unit(),
            n >= 1,
            Double::unit() > 0,
    ;
    assert(x.value() * c.value() <= y.value() * c.value()) by (nonlinear_arith)
        requires
            x.value() <= y.value(),
            c.value() > 0,
    ;
}

/// Quotients by one or more are finite, and no larger than the dividend.
pub proof fn lemma_quotient_stays_finite<A: Arithmetic>(f: &A, x: Double, d: Double)
    requires
        rounds_in_order(f),
        x.finite(),
        d.finite(),
        d.value() >= Double::unit(),
    ensures
        quotient(f, x, d).finite(),
        size(quotient(f, x, d).value()) <= size(x.value()),
        x.value() >= 0 ==> quotient(f, x, d).value() >= 0,
{
    reveal(rounds_in_order);
    lemma_named_numbers();
    vstd::arithmetic::power2::lemma_pow2_pos(1074);
    let zero = Double { bits: ZERO };
    let one = Double { bits: ONE };
    let q = quotient(f, x, d);
    let u = Double::unit();
    assert(zero.finite() && one.finite());
    assert(zero.value() * u == zero.value() * d.value()) by (nonlinear_arith)
        requires
            zero.value() == 0,
    ;
    assert(quotient(f, zero, d).value() == 0) by {
        assert(zero.finite());
    }
    assert(x.value() * u == x.value() * one.value());
    assert(quotient(f, x, one).value() == x.value());
    if x.value() >= 0 {
        assert(zero.value() * d.value() <= x.value() * d.value() && x.value() * one.value()
            <= x.value() * d.value()) by (nonlinear_arith)
            requires
                x.value() >= 0,
                zero.value() == 0,
                one.value() == u,
                d.value() >= u,
                u > 0,
        ;
        lemma_between_is_finite(zero, q, x);
    } else {
        assert(x.value() * d.value() <= zero.value() * d.value() && x.value() * d.value()
            <= x.value() * one.value()) by (nonlinear_arith)
            requires
                x.value() <= 0,
                zero.value() == 0,
                one.value() == u,
                d.value() >= u,
                u > 0,
        ;
        lemma_between_is_finite(x, q, zero);
    }
}

/// Dividing by a count of one or more keeps a number finite.
pub proof fn lemma_divided_is_finite<A: Arithmetic>(f: &A, x: Double, n: int)
    requires
        rounds_in_order(f),
        x.finite(),
        1 <= n <= EXACT_COUNTS,
    ensures
        quotient(f, x, counted(f, n)).finite(),
{
    let c = counted(f, n);
    vstd::arithmetic::power2::lemma_pow2_pos(1074);
    assert(c.finite() && c.value() == n * Double::unit()) by {
        reveal(rounds_in_order);
    }
    assert(n * Double::unit() >= Double::unit()) by (nonlinear_arith)
        requires
            n >= 1,
            Double::unit() > 0,
    ;
    lemma_quotient_stays_finite(f, x, c);
}

} // verus!
