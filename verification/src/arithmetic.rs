//! Rounded arithmetic on bit patterns, supplied by the caller.
//!
//! The statistics of this library are sums, quotients and roots in double
//! precision. Which operations are made, on which operands and in which order,
//! is the library's; the operations themselves are the caller's, who hands in
//! a value with the [`Arithmetic`] trait. The trait promises nothing of its
//! results. A contract that speaks of a result reads: where the arithmetic
//! gives one result for one set of operands ([`deterministic`]), the function
//! returns exactly the named combination of these results.

use vstd::prelude::*;

use crate::number::{Double, Single};

verus! {

/// Double-precision operations on bit patterns.
pub trait Arithmetic {
    /// `a + b`.
    fn plus(&self, a: Double, b: Double) -> Double;

    /// `a - b`.
    fn minus(&self, a: Double, b: Double) -> Double;

    /// `a * b`.
    fn times(&self, a: Double, b: Double) -> Double;

    /// `a / b`.
    fn over(&self, a: Double, b: Double) -> Double;

    /// The square root of `a`.
    fn root(&self, a: Double) -> Double;

    /// The double nearest to `n`.
    fn of_count(&self, n: u128) -> Double;

    /// The double with the value of `a`.
    fn widen(&self, a: Single) -> Double;

    /// The single nearest to `a`.
    fn narrow(&self, a: Double) -> Single;

    /// The nanoseconds nearest to `secs` seconds.
    fn to_nanos(&self, secs: Double) -> u128;

    /// The cumulative distribution function at `x` of Student's t distribution
    /// with location zero, scale one and `freedom` degrees of freedom.
    fn students_t(&self, freedom: Double, x: Double) -> Double;
}

/// What `f` gives for `a + b`.
pub open spec fn sum<A: Arithmetic>(f: &A, a: Double, b: Double) -> Double {
    choose|r: Double| call_ensures(A::plus, (f, a, b), r)
}

/// What `f` gives for `a - b`.
pub open spec fn difference<A: Arithmetic>(f: &A, a: Double, b: Double) -> Double {
    choose|r: Double| call_ensures(A::minus, (f, a, b), r)
}

/// What `f` gives for `a * b`.
pub open spec fn product<A: Arithmetic>(f: &A, a: Double, b: Double) -> Double {
    choose|r: Double| call_ensures(A::times, (f, a, b), r)
}

/// What `f` gives for `a / b`.
pub open spec fn quotient<A: Arithmetic>(f: &A, a: Double, b: Double) -> Double {
    choose|r: Double| call_ensures(A::over, (f, a, b), r)
}

/// What `f` gives for the square root of `a`.
pub open spec fn square_root<A: Arithmetic>(f: &A, a: Double) -> Double {
    choose|r: Double| call_ensures(A::root, (f, a), r)
}

/// What `f` gives for the count `n`.
pub open spec fn counted<A: Arithmetic>(f: &A, n: int) -> Double {
    let m = n as u128;
    choose|r: Double| call_ensures(A::of_count, (f, m), r)
}

/// What `f` gives for the single `a`, widened.
pub open spec fn widened<A: Arithmetic>(f: &A, a: Single) -> Double {
    choose|r: Double| call_ensures(A::widen, (f, a), r)
}

/// What `f` gives for the double `a`, narrowed.
pub open spec fn narrowed<A: Arithmetic>(f: &A, a: Double) -> Single {
    choose|r: Single| call_ensures(A::narrow, (f, a), r)
}

/// What `f` gives for `secs` seconds in nanoseconds.
pub open spec fn in_nanos<A: Arithmetic>(f: &A, secs: Double) -> u128 {
    choose|r: u128| call_ensures(A::to_nanos, (f, secs), r)
}

/// What `f` gives for Student's t distribution function.
pub open spec fn t_distribution<A: Arithmetic>(f: &A, freedom: Double, x: Double) -> Double {
    choose|r: Double| call_ensures(A::students_t, (f, freedom, x), r)
}

/// Whether `f` gives one result for one set of operands.
pub open spec fn deterministic<A: Arithmetic>(f: &A) -> bool {
    &&& forall|a: Double, b: Double, r: Double| #[trigger]
        call_ensures(A::plus, (f, a, b), r) ==> r == sum(f, a, b)
    &&& forall|a: Double, b: Double, r: Double| #[trigger]
        call_ensures(A::minus, (f, a, b), r) ==> r == difference(f, a, b)
    &&& forall|a: Double, b: Double, r: Double| #[trigger]
        call_ensures(A::times, (f, a, b), r) ==> r == product(f, a, b)
    &&& forall|a: Double, b: Double, r: Double| #[trigger]
        call_ensures(A::over, (f, a, b), r) ==> r == quotient(f, a, b)
    &&& forall|a: Double, r: Double| #[trigger]
        call_ensures(A::root, (f, a), r) ==> r == square_root(f, a)
    &&& forall|n: u128, r: Double| #[trigger]
        call_ensures(A::of_count, (f, n), r) ==> r == counted(f, n as int)
    &&& forall|a: Single, r: Double| #[trigger]
        call_ensures(A::widen, (f, a), r) ==> r == widened(f, a)
    &&& forall|a: Double, r: Single| #[trigger]
        call_ensures(A::narrow, (f, a), r) ==> r == narrowed(f, a)
    &&& forall|secs: Double, r: u128| #[trigger]
        call_ensures(A::to_nanos, (f, secs), r) ==> r == in_nanos(f, secs)
    &&& forall|freedom: Double, x: Double, r: Double| #[trigger]
        call_ensures(A::students_t, (f, freedom, x), r) ==> r == t_distribution(f, freedom, x)
}

/// The sum of `xs`, taken from the first to the last, on top of `start`.
pub open spec fn total<A: Arithmetic>(f: &A, start: Double, xs: Seq<Double>) -> Double
    decreases xs.len(),
{
    if xs.len() == 0 {
        start
    } else {
        sum(f, total(f, start, xs.drop_last()), xs.last())
    }
}

/// The numbers `xs`, each widened.
pub open spec fn all_widened<A: Arithmetic>(f: &A, xs: Seq<Single>) -> Seq<Double> {
    xs.map_values(|x: Single| widened(f, x))
}

/// The sum of the numbers of `xs` on top of `start`.
pub fn add_up<A: Arithmetic>(f: &A, start: Double, xs: &[Double]) -> (r: Double)
    ensures
        deterministic(f) ==> r == total(f, start, xs@),
{
    let mut acc = start;
    let mut i: usize = 0;
    assert(xs@.take(0) =~= Seq::<Double>::empty());
    while i < xs.len()
        invariant
            i <= xs.len(),
            deterministic(f) ==> acc == total(f, start, xs@.take(i as int)),
        decreases xs.len() - i,
    {
        assert(xs@.take(i + 1).drop_last() =~= xs@.take(i as int));
        acc = f.plus(acc, xs[i]);
        i += 1;
    }
    assert(xs@.take(i as int) =~= xs@);
    acc
}

/// The sum of the numbers of `xs`, each widened, on top of `start`.
pub fn add_up_singles<A: Arithmetic>(f: &A, start: Double, xs: &[Single]) -> (r: Double)
    ensures
        deterministic(f) ==> r == total(f, start, all_widened(f, xs@)),
{
    let mut acc = start;
    let mut i: usize = 0;
    let ghost wide = all_widened(f, xs@);
    assert(wide.take(0) =~= Seq::<Double>::empty());
    while i < xs.len()
        invariant
            i <= xs.len(),
            wide == all_widened(f, xs@),
            deterministic(f) ==> acc == total(f, start, wide.take(i as int)),
        decreases xs.len() - i,
    {
        assert(wide.take(i + 1).drop_last() =~= wide.take(i as int));
        acc = f.plus(acc, f.widen(xs[i]));
        i += 1;
    }
    assert(wide.take(i as int) =~= wide);
    acc
}

} // verus!
