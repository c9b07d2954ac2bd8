//! What sorting and searching numbers give, told by their bit patterns.

use vstd::prelude::*;

use crate::number::{Double, Single, INFINITY, NEGATIVE_INFINITY};
use crate::order::{
    find_greatest, find_least, greatest_of, least_of, lemma_ascending, lemma_ascending_doubles,
    sort_doubles, sort_singles,
};

verus! {

/// Whether the bit pattern `a` of a single is not above `b` in the total order of
/// IEEE 754: negative ones come before positive ones, positive ones in the order
/// of their patterns and negative ones the other way round. What is not a number
/// thus stands at an end.
pub open spec fn single_not_above(a: Single, b: Single) -> bool {
    if a.bits < 0x8000_0000 {
        b.bits < 0x8000_0000 && a.bits <= b.bits
    } else {
        b.bits < 0x8000_0000 || b.bits <= a.bits
    }
}

/// Whether the bit pattern `a` of a double is not above `b` in the total order of
/// IEEE 754.
pub open spec fn double_not_above(a: Double, b: Double) -> bool {
    if a.bits < 0x8000_0000_0000_0000 {
        b.bits < 0x8000_0000_0000_0000 && a.bits <= b.bits
    } else {
        b.bits < 0x8000_0000_0000_0000 || b.bits <= a.bits
    }
}

/// Sorted samples are the same, each as often as before, and none is above its
/// successors.
pub proof fn law_sorted_samples_rise(samples: &[Single], r: Vec<Single>)
    requires
        call_ensures(sort_singles, (samples,), r),
    ensures
        r@.to_multiset() == samples@.to_multiset(),
        r@.len() == samples@.len(),
        forall|i: int, j: int|
            0 <= i <= j < r@.len() ==> single_not_above(#[trigger] r@[i], #[trigger] r@[j]),
{
    lemma_ascending(samples@);
}

/// Sorted numbers are the same, each as often as before, and none is above its
/// successors.
pub proof fn law_sorted_numbers_rise(numbers: &[Double], r: Vec<Double>)
    requires
        call_ensures(sort_doubles, (numbers,), r),
    ensures
        r@.to_multiset() == numbers@.to_multiset(),
        r@.len() == numbers@.len(),
        forall|i: int, j: int|
            0 <= i <= j < r@.len() ==> double_not_above(#[trigger] r@[i], #[trigger] r@[j]),
{
    lemma_ascending_doubles(numbers@);
}

/// The lowest of numbers is one of them that none is below, and the highest one
/// that none is above; what is not a number does not count, and where nothing
/// counts they are the infinities.
pub proof fn law_extremes_pass_over_what_is_not_a_number(
    xs: &[Double],
    least: Double,
    greatest: Double,
)
    requires
        call_ensures(find_least, (xs,), least),
        call_ensures(find_greatest, (xs,), greatest),
    ensures
        !least.nan() && !greatest.nan(),
        xs@.contains(least) || least.bits == 0x7ff0_0000_0000_0000,
        xs@.contains(greatest) || greatest.bits == 0xfff0_0000_0000_0000,
        forall|i: int|
            0 <= i < xs@.len() && !(#[trigger] xs@[i]).nan() ==> least.value() <= xs@[i].value()
                && xs@[i].value() <= greatest.value(),
{
    lemma_extremes_pass_over(xs@);
}

/// The extremes of numbers, some of which may not be numbers.
proof fn lemma_extremes_pass_over(xs: Seq<Double>)
    ensures
        !least_of(xs).nan() && !greatest_of(xs).nan(),
        xs.contains(least_of(xs)) || least_of(xs) == (Double { bits: INFINITY }),
        xs.contains(greatest_of(xs)) || greatest_of(xs) == (Double { bits: NEGATIVE_INFINITY }),
        forall|i: int|
            0 <= i < xs.len() && !(#[trigger] xs[i]).nan() ==> least_of(xs).value()
                <= xs[i].value() && xs[i].value() <= greatest_of(xs).value(),
    decreases xs.len(),
{
    let top = Double { bits: INFINITY };
    let bottom = Double { bits: NEGATIVE_INFINITY };
    assert(top.exponent() == 0x7ff && top.fraction() == 0);
    assert(bottom.exponent() == 0x7ff && bottom.fraction() == 0);
    if xs.len() > 0 {
        let front = xs.drop_last();
        lemma_extremes_pass_over(front);
        assert(xs.last() == xs[xs.len() - 1]);
        if front.contains(least_of(front)) {
            let j = choose|j: int| 0 <= j < front.len() && front[j] == least_of(front);
            assert(xs[j] == least_of(front));
        }
        if front.contains(greatest_of(front)) {
            let j = choose|j: int| 0 <= j < front.len() && front[j] == greatest_of(front);
            assert(xs[j] == greatest_of(front));
        }
        assert forall|i: int| 0 <= i < xs.len() && !(#[trigger] xs[i]).nan() implies least_of(
            xs,
        ).value() <= xs[i].value() && xs[i].value() <= greatest_of(xs).value() by {
            if i < front.len() {
                assert(front[i] == xs[i]);
            }
        }
    }
}

/// Comparing numbers goes by their values, and is false where one of them is not
/// a number.
pub proof fn law_comparing_goes_by_value(a: Double, b: Double, below: bool, equal: bool)
    requires
        call_ensures(Double::is_below, (&a, b), below),
        call_ensures(Double::is_equal, (&a, b), equal),
    ensures
        a.nan() || b.nan() ==> !below && !equal,
        !a.nan() && !b.nan() ==> (below <==> a.value() < b.value()) && (equal <==> a.value()
            == b.value()),
{
}

} // verus!
