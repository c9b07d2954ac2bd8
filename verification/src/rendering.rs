//! Floating-point numbers as text, supplied by the caller.
//!
//! How a double is written in decimal is the caller's, who hands in a value
//! with the [`Rendering`] trait. The trait promises nothing of its results. A
//! contract that speaks of a text with such a number in it reads: where the
//! rendering gives one text for one number ([`stable`]), the function returns
//! exactly the text that holds the rendered number.

use vstd::prelude::*;

use crate::number::Double;

verus! {

/// Doubles in decimal.
pub trait Rendering {
    /// The shortest decimal that reads back as `x`.
    fn shown(&self, x: Double) -> String;

    /// `x` with `places` decimal places.
    fn fixed(&self, x: Double, places: usize) -> String;

    /// `x` with its sign, positive or negative, and `places` decimal places.
    fn signed(&self, x: Double, places: usize) -> String;

    /// `x` in scientific notation with `places` decimal places.
    fn scientific(&self, x: Double, places: usize) -> String;
}

/// What `f` gives for the shortest text of `x`.
pub open spec fn shown_text<R: Rendering>(f: &R, x: Double) -> Seq<char> {
    (choose|s: String| call_ensures(R::shown, (f, x), s))@
}

/// What `f` gives for `x` with `places` decimal places.
pub open spec fn fixed_text<R: Rendering>(f: &R, x: Double, places: usize) -> Seq<char> {
    (choose|s: String| call_ensures(R::fixed, (f, x, places), s))@
}

/// What `f` gives for `x` with its sign and `places` decimal places.
pub open spec fn signed_text<R: Rendering>(f: &R, x: Double, places: usize) -> Seq<char> {
    (choose|s: String| call_ensures(R::signed, (f, x, places), s))@
}

/// What `f` gives for `x` in scientific notation.
pub open spec fn scientific_text<R: Rendering>(f: &R, x: Double, places: usize) -> Seq<char> {
    (choose|s: String| call_ensures(R::scientific, (f, x, places), s))@
}

/// Whether `f` gives one text for one number.
pub open spec fn stable<R: Rendering>(f: &R) -> bool {
    &&& forall|x: Double, s: String| #[trigger]
        call_ensures(R::shown, (f, x), s) ==> s@ == shown_text(f, x)
    &&& forall|x: Double, n: usize, s: String| #[trigger]
        call_ensures(R::fixed, (f, x, n), s) ==> s@ == fixed_text(f, x, n)
    &&& forall|x: Double, n: usize, s: String| #[trigger]
        call_ensures(R::signed, (f, x, n), s) ==> s@ == signed_text(f, x, n)
    &&& forall|x: Double, n: usize, s: String| #[trigger]
        call_ensures(R::scientific, (f, x, n), s) ==> s@ == scientific_text(f, x, n)
}

} // verus!
