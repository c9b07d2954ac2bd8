//! Ascending order of samples and statistics.

use vstd::prelude::*;
use vstd::relations::{sorted_by, total_ordering};
use vstd::seq_lib::lemma_sorted_unique;

use crate::number::{
    lemma_smaller_is_finite, Double, Single, INFINITY, NEGATIVE_INFINITY,
};

verus! {

/// The samples of `s` in the total order of IEEE 754, lowest first.
pub open spec fn ascending(s: Seq<Single>) -> Seq<Single> {
    s.sort_by(|a: Single, b: Single| a.rank() <= b.rank())
}

/// The numbers of `s` in the total order of IEEE 754, lowest first.
pub open spec fn ascending_doubles(s: Seq<Double>) -> Seq<Double> {
    s.sort_by(|a: Double, b: Double| a.rank() <= b.rank())
}

/// Sorts `keys` upwards with `slice::sort_unstable`, which leaves the same
/// integers in the vector, each as often as before, none above its successor.
#[verifier::external_body]
fn sort_keys(keys: &mut Vec<u64>)
    ensures
        final(keys)@.to_multiset() == old(keys)@.to_multiset(),
        forall|i: int, j: int|
            0 <= i <= j < final(keys)@.len() ==> final(keys)@[i] <= final(keys)@[j],
{
    keys.sort_unstable();
}

/// Mapping keeps two sequences rearrangements of each other.
pub proof fn lemma_mapped_multisets<T, U>(a: Seq<T>, b: Seq<T>, f: spec_fn(T) -> U)
    requires
        a.to_multiset() == b.to_multiset(),
    ensures
        a.map_values(f).to_multiset() == b.map_values(f).to_multiset(),
    decreases a.len(),
{
    broadcast use vstd::seq_lib::group_to_multiset_ensures;
    broadcast use vstd::multiset::group_multiset_axioms;

    if a.len() == 0 {
        assert(a.to_multiset().len() == a.len() && b.to_multiset().len() == b.len());
        assert(a.map_values(f) =~= b.map_values(f));
    } else {
        let x = a[0];
        assert(a.to_multiset().count(x) > 0);
        assert(b.contains(x));
        let j = b.index_of(x);
        let a1 = a.remove(0);
        let b1 = b.remove(j);
        assert(a1.to_multiset() =~= a.to_multiset().remove(x));
        assert(b1.to_multiset() =~= b.to_multiset().remove(x));
        lemma_mapped_multisets(a1, b1, f);
        assert(a1.map_values(f) =~= a.map_values(f).remove(0));
        assert(b1.map_values(f) =~= b.map_values(f).remove(j));
        assert(a.map_values(f).to_multiset() =~= a1.map_values(f).to_multiset().insert(f(x)));
        assert(b.map_values(f).to_multiset() =~= b1.map_values(f).to_multiset().insert(f(x)));
    }
}

/// The element at `i` of one of two rearrangements is in the other.
pub proof fn lemma_rearranged_contains<T>(a: Seq<T>, b: Seq<T>, i: int)
    requires
        a.to_multiset() == b.to_multiset(),
        0 <= i < a.len(),
    ensures
        b.contains(a[i]),
        a.len() == b.len(),
{
    broadcast use vstd::seq_lib::group_to_multiset_ensures;
    broadcast use vstd::multiset::group_multiset_axioms;

    assert(a.contains(a[i]));
    assert(a.to_multiset().count(a[i]) > 0);
    assert(a.to_multiset().len() == a.len() && b.to_multiset().len() == b.len());
}

/// The samples in ascending order.
pub fn sort_singles(samples: &[Single]) -> (r: Vec<Single>)
    ensures
        r@ == ascending(samples@),
        r@.len() == samples@.len(),
        forall|i: int, j: int| 0 <= i <= j < r@.len() ==> r@[i].rank() <= r@[j].rank(),
        r@.to_multiset() == samples@.to_multiset(),
{
    let mut keys: Vec<u64> = Vec::new();
    let mut i: usize = 0;
    while i < samples.len()
        invariant
            i <= samples.len(),
            keys.len() == i,
            forall|k: int| 0 <= k < i ==> keys@[k] == samples@[k].rank(),
        decreases samples.len() - i,
    {
        let bits: u32 = samples[i].bits;
        if bits >= 0x8000_0000 {
            keys.push((0xffff_ffff - bits) as u64);
        } else {
            keys.push(bits as u64 + 0x8000_0000);
        }
        i += 1;
    }
    let ghost before = keys@;
    sort_keys(&mut keys);
    let ghost back = |k: u64|
        if k >= 0x8000_0000 {
            Single { bits: (k - 0x8000_0000) as u32 }
        } else {
            Single { bits: (0xffff_ffff - k) as u32 }
        };
    assert forall|k: int| 0 <= k < keys@.len() implies #[trigger] keys@[k] <= 0xffff_ffff by {
        lemma_rearranged_contains(keys@, before, k);
        let j = choose|j: int| 0 <= j < before.len() && before[j] == keys@[k];
    }
    let mut r: Vec<Single> = Vec::new();
    let mut n: usize = 0;
    while n < keys.len()
        invariant
            n <= keys.len(),
            r.len() == n,
            forall|k: int| 0 <= k < keys@.len() ==> #[trigger] keys@[k] <= 0xffff_ffff,
            forall|k: int| 0 <= k < n ==> #[trigger] r@[k] == back(keys@[k]),
            forall|k: u64|
                k <= 0xffff_ffff ==> #[trigger] back(k) == if k >= 0x8000_0000 {
                    Single { bits: (k - 0x8000_0000) as u32 }
                } else {
                    Single { bits: (0xffff_ffff - k) as u32 }
                },
        decreases keys.len() - n,
    {
        let key: u64 = keys[n];
        if key >= 0x8000_0000 {
            r.push(Single { bits: (key - 0x8000_0000) as u32 });
        } else {
            r.push(Single { bits: (0xffff_ffff - key) as u32 });
        }
        n += 1;
    }
    proof {
        assert(r@ =~= keys@.map_values(back));
        assert(samples@ =~= before.map_values(back));
        lemma_mapped_multisets(keys@, before, back);
        let leq = |a: Single, b: Single| a.rank() <= b.rank();
        assert forall|k: int| 0 <= k < r@.len() implies #[trigger] r@[k].rank() == keys@[k] by {
            assert(keys@[k] <= 0xffff_ffff);
        }
        samples@.lemma_sort_by_ensures(leq);
        assert(total_ordering(leq));
        assert(sorted_by(r@, leq));
        lemma_sorted_unique(r@, samples@.sort_by(leq), leq);
        assert(ascending(samples@) == samples@.sort_by(leq));
        broadcast use vstd::seq_lib::group_to_multiset_ensures;
        assert(r@.to_multiset().len() == samples@.to_multiset().len());
    }
    r
}

/// The numbers in ascending order.
pub fn sort_doubles(numbers: &[Double]) -> (r: Vec<Double>)
    ensures
        r@ == ascending_doubles(numbers@),
        r@.len() == numbers@.len(),
        forall|i: int, j: int| 0 <= i <= j < r@.len() ==> r@[i].rank() <= r@[j].rank(),
        r@.to_multiset() == numbers@.to_multiset(),
{
    let mut keys: Vec<u64> = Vec::new();
    let mut i: usize = 0;
    while i < numbers.len()
        invariant
            i <= numbers.len(),
            keys.len() == i,
            forall|k: int| 0 <= k < i ==> keys@[k] == numbers@[k].rank(),
        decreases numbers.len() - i,
    {
        let bits: u64 = numbers[i].bits;
        if bits >= 0x8000_0000_0000_0000 {
            keys.push(0xffff_ffff_ffff_ffff - bits);
        } else {
            keys.push(bits + 0x8000_0000_0000_0000);
        }
        i += 1;
    }
    let ghost before = keys@;
    sort_keys(&mut keys);
    let ghost back = |k: u64|
        if k >= 0x8000_0000_0000_0000 {
            Double { bits: (k - 0x8000_0000_0000_0000) as u64 }
        } else {
            Double { bits: (0xffff_ffff_ffff_ffff - k) as u64 }
        };
    let mut r: Vec<Double> = Vec::new();
    let mut n: usize = 0;
    while n < keys.len()
        invariant
            n <= keys.len(),
            r.len() == n,
            forall|k: int| 0 <= k < n ==> #[trigger] r@[k] == back(keys@[k]),
            forall|k: u64| #[trigger]
                back(k) == if k >= 0x8000_0000_0000_0000 {
                    Double { bits: (k - 0x8000_0000_0000_0000) as u64 }
                } else {
                    Double { bits: (0xffff_ffff_ffff_ffff - k) as u64 }
                },
        decreases keys.len() - n,
    {
        let key: u64 = keys[n];
        if key >= 0x8000_0000_0000_0000 {
            r.push(Double { bits: key - 0x8000_0000_0000_0000 });
        } else {
            r.push(Double { bits: 0xffff_ffff_ffff_ffff - key });
        }
        n += 1;
    }
    proof {
        assert(r@ =~= keys@.map_values(back));
        assert(numbers@ =~= before.map_values(back));
        lemma_mapped_multisets(keys@, before, back);
        let leq = |a: Double, b: Double| a.rank() <= b.rank();
        assert forall|k: int| 0 <= k < r@.len() implies #[trigger] r@[k].rank() == keys@[k] by {}
        numbers@.lemma_sort_by_ensures(leq);
        assert(total_ordering(leq));
        assert(sorted_by(r@, leq));
        lemma_sorted_unique(r@, numbers@.sort_by(leq), leq);
        assert(ascending_doubles(numbers@) == numbers@.sort_by(leq));
        broadcast use vstd::seq_lib::group_to_multiset_ensures;
        assert(r@.to_multiset().len() == numbers@.to_multiset().len());
    }
    r
}

/// Sorting keeps the samples and puts them in order.
pub proof fn lemma_ascending(s: Seq<Single>)
    ensures
        ascending(s).len() == s.len(),
        ascending(s).to_multiset() == s.to_multiset(),
        forall|i: int, j: int|
            0 <= i <= j < s.len() ==> #[trigger] ascending(s)[i].rank() <= #[trigger] ascending(
                s,
            )[j].rank(),
{
    broadcast use vstd::seq_lib::group_to_multiset_ensures;

    let leq = |a: Single, b: Single| a.rank() <= b.rank();
    assert(total_ordering(leq));
    s.lemma_sort_by_ensures(leq);
    assert(ascending(s).to_multiset().len() == ascending(s).len());
    assert(s.to_multiset().len() == s.len());
    assert(sorted_by(ascending(s), leq));
    assert forall|i: int, j: int| 0 <= i <= j < s.len() implies #[trigger] ascending(s)[i].rank()
        <= #[trigger] ascending(s)[j].rank() by {
        if i < j {
            assert(leq(ascending(s)[i], ascending(s)[j]));
        }
    }
}

/// Sorting keeps the numbers and puts them in order.
pub proof fn lemma_ascending_doubles(s: Seq<Double>)
    ensures
        ascending_doubles(s).len() == s.len(),
        ascending_doubles(s).to_multiset() == s.to_multiset(),
        forall|i: int| 0 <= i < s.len() ==> s.contains(#[trigger] ascending_doubles(s)[i]),
        forall|i: int, j: int|
            0 <= i <= j < s.len() ==> #[trigger] ascending_doubles(s)[i].rank()
                <= #[trigger] ascending_doubles(s)[j].rank(),
{
    broadcast use vstd::seq_lib::group_to_multiset_ensures;

    let leq = |a: Double, b: Double| a.rank() <= b.rank();
    let t = ascending_doubles(s);
    assert(total_ordering(leq));
    s.lemma_sort_by_ensures(leq);
    assert(t.to_multiset().len() == t.len());
    assert(s.to_multiset().len() == s.len());
    assert(sorted_by(t, leq));
    assert forall|i: int| 0 <= i < s.len() implies s.contains(#[trigger] t[i]) by {
        lemma_rearranged_contains(t, s, i);
    }
    assert forall|i: int, j: int| 0 <= i <= j < s.len() implies #[trigger] t[i].rank()
        <= #[trigger] t[j].rank() by {
        if i < j {
            assert(leq(t[i], t[j]));
        }
    }
}

/// Rearranged samples have one ascending order.
pub proof fn lemma_ascending_unique(a: Seq<Single>, b: Seq<Single>)
    requires
        a.to_multiset() == b.to_multiset(),
    ensures
        ascending(a) == ascending(b),
{
    let leq = |a: Single, b: Single| a.rank() <= b.rank();
    assert(total_ordering(leq));
    a.lemma_sort_by_ensures(leq);
    b.lemma_sort_by_ensures(leq);
    lemma_sorted_unique(a.sort_by(leq), b.sort_by(leq), leq);
}

/// Samples in ascending order are the same samples.
pub proof fn lemma_same_members(s: Seq<Single>, t: Seq<Single>)
    requires
        s.to_multiset() == t.to_multiset(),
    ensures
        forall|x: Single|
            #![trigger s.contains(x)]
            #![trigger t.contains(x)]
            s.contains(x) <==> t.contains(x),
{
    assert forall|x: Single|
        #![trigger s.contains(x)]
        #![trigger t.contains(x)]
        s.contains(x) == t.contains(x) by {
        if s.contains(x) {
            let i = choose|i: int| 0 <= i < s.len() && s[i] == x;
            lemma_rearranged_contains(s, t, i);
        }
        if t.contains(x) {
            let i = choose|i: int| 0 <= i < t.len() && t[i] == x;
            lemma_rearranged_contains(t, s, i);
        }
    }
}

/// The lower of two numbers; `a` where they do not differ in value.
pub open spec fn lower(a: Double, b: Double) -> Double {
    if b.below(a) {
        b
    } else {
        a
    }
}

/// The higher of two numbers; `a` where they do not differ in value.
pub open spec fn higher(a: Double, b: Double) -> Double {
    if a.below(b) {
        b
    } else {
        a
    }
}

/// The lowest of the numbers; infinity where there is none.
pub open spec fn least_of(xs: Seq<Double>) -> Double
    decreases xs.len(),
{
    if xs.len() == 0 {
        Double { bits: INFINITY }
    } else {
        lower(least_of(xs.drop_last()), xs.last())
    }
}

/// The highest of the numbers; negative infinity where there is none.
pub open spec fn greatest_of(xs: Seq<Double>) -> Double
    decreases xs.len(),
{
    if xs.len() == 0 {
        Double { bits: NEGATIVE_INFINITY }
    } else {
        higher(greatest_of(xs.drop_last()), xs.last())
    }
}

/// The lowest of the numbers; infinity where there is none.
pub fn find_least(xs: &[Double]) -> (r: Double)
    ensures
        r == least_of(xs@),
{
    let mut m = Double { bits: INFINITY };
    let mut i: usize = 0;
    assert(xs@.take(0) =~= Seq::<Double>::empty());
    while i < xs.len()
        invariant
            i <= xs.len(),
            m == least_of(xs@.take(i as int)),
        decreases xs.len() - i,
    {
        assert(xs@.take(i + 1).drop_last() =~= xs@.take(i as int));
        if xs[i].is_below(m) {
            m = xs[i];
        }
        i += 1;
    }
    assert(xs@.take(i as int) =~= xs@);
    m
}

/// The highest of the numbers; negative infinity where there is none.
pub fn find_greatest(xs: &[Double]) -> (r: Double)
    ensures
        r == greatest_of(xs@),
{
    let mut m = Double { bits: NEGATIVE_INFINITY };
    let mut i: usize = 0;
    assert(xs@.take(0) =~= Seq::<Double>::empty());
    while i < xs.len()
        invariant
            i <= xs.len(),
            m == greatest_of(xs@.take(i as int)),
        decreases xs.len() - i,
    {
        assert(xs@.take(i + 1).drop_last() =~= xs@.take(i as int));
        if m.is_below(xs[i]) {
            m = xs[i];
        }
        i += 1;
    }
    assert(xs@.take(i as int) =~= xs@);
    m
}

/// The lowest of finite numbers is one of them, and none is below it.
pub proof fn lemma_least_of(xs: Seq<Double>)
    requires
        xs.len() > 0,
        forall|i: int| 0 <= i < xs.len() ==> (#[trigger] xs[i]).finite(),
    ensures
        least_of(xs).finite(),
        xs.contains(least_of(xs)),
        forall|i: int| 0 <= i < xs.len() ==> least_of(xs).value() <= (#[trigger] xs[i]).value(),
    decreases xs.len(),
{
    let front = xs.drop_last();
    assert(xs.last() == xs[xs.len() - 1]);
    assert forall|i: int| 0 <= i < front.len() implies (#[trigger] front[i]).finite() by {
        assert(xs[i].finite());
    }
    if front.len() > 0 {
        lemma_least_of(front);
        let j = choose|j: int| 0 <= j < front.len() && front[j] == least_of(front);
        assert(xs[j] == least_of(front));
    } else {
        lemma_beyond_finite(xs.last());
    }
    let a = least_of(front);
    let b = xs.last();
    assert(b.finite() && !a.nan() && least_of(xs) == lower(a, b));
    assert(least_of(xs).value() <= a.value() && least_of(xs).value() <= b.value());
    assert forall|i: int| 0 <= i < xs.len() implies least_of(xs).value() <= (
    #[trigger] xs[i]).value() by {
        if i < front.len() {
            assert(a.value() <= front[i].value());
            assert(front[i] == xs[i]);
        } else {
            assert(xs[i] == b);
        }
    }
}

/// The highest of finite numbers is one of them, and none is above it.
pub proof fn lemma_greatest_of(xs: Seq<Double>)
    requires
        xs.len() > 0,
        forall|i: int| 0 <= i < xs.len() ==> (#[trigger] xs[i]).finite(),
    ensures
        greatest_of(xs).finite(),
        xs.contains(greatest_of(xs)),
        forall|i: int| 0 <= i < xs.len() ==> (#[trigger] xs[i]).value() <= greatest_of(xs).value(),
    decreases xs.len(),
{
    let front = xs.drop_last();
    assert(xs.last() == xs[xs.len() - 1]);
    assert forall|i: int| 0 <= i < front.len() implies (#[trigger] front[i]).finite() by {
        assert(xs[i].finite());
    }
    if front.len() > 0 {
        lemma_greatest_of(front);
        let j = choose|j: int| 0 <= j < front.len() && front[j] == greatest_of(front);
        assert(xs[j] == greatest_of(front));
    } else {
        lemma_beyond_finite(xs.last());
    }
    let a = greatest_of(front);
    let b = xs.last();
    assert(b.finite() && !a.nan() && greatest_of(xs) == higher(a, b));
    assert(a.value() <= greatest_of(xs).value() && b.value() <= greatest_of(xs).value());
    assert forall|i: int| 0 <= i < xs.len() implies (#[trigger] xs[i]).value() <= greatest_of(
        xs,
    ).value() by {
        if i < front.len() {
            assert(front[i].value() <= a.value());
            assert(front[i] == xs[i]);
        } else {
            assert(xs[i] == b);
        }
    }
}

/// The infinities lie beyond every finite number.
proof fn lemma_beyond_finite(x: Double)
    requires
        x.finite(),
    ensures
        x.below(Double { bits: INFINITY }),
        (Double { bits: NEGATIVE_INFINITY }).below(x),
{
    let top = Double { bits: INFINITY };
    let bottom = Double { bits: NEGATIVE_INFINITY };
    assert(top.exponent() == 0x7ff && top.fraction() == 0);
    assert(bottom.exponent() == 0x7ff && bottom.fraction() == 0);
    if top.magnitude() <= x.magnitude() {
        lemma_smaller_is_finite(top, x);
    }
}

} // verus!
