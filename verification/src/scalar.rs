//! What the algorithms ask of the numbers in a matrix, and the tolerance
//! rule: a number counts as zero when its magnitude does not exceed the
//! scalar's tolerance.

use vstd::prelude::*;

verus! {

/// A number that a matrix can hold. The library decides nothing about the
/// arithmetic itself: a method here promises nothing of its result, and the
/// algorithms are proved for whatever it returns.
pub trait Scalar: Copy {
    /// The number that `token` spells, if it spells one.
    fn parse(token: &Vec<char>) -> Option<Self>;

    /// The number 0.
    fn zero() -> Self;

    /// The number 1.
    fn one() -> Self;

    /// The tolerance: the magnitude up to which a number counts as zero.
    fn tolerance() -> Self;

    /// The sum `self + other`.
    fn plus(self, other: Self) -> Self;

    /// The difference `self - other`.
    fn minus(self, other: Self) -> Self;

    /// The product `self * other`.
    fn times(self, other: Self) -> Self;

    /// The quotient `self / other`.
    fn over(self, other: Self) -> Self;

    /// The absolute value.
    fn magnitude(self) -> Self;

    /// Whether `self < other`.
    fn less_than(self, other: Self) -> bool;

    /// The greater of the two.
    fn larger(self, other: Self) -> Self;
}

/// `answer` is what the scalar may say to the question whether the magnitude
/// of `x` is greater than the tolerance: what `less_than` may return for a
/// tolerance and a magnitude of `x` that the scalar may give.
pub open spec fn judged_exceeding<T: Scalar>(x: T, answer: bool) -> bool {
    exists|t: T, a: T|
        call_ensures(T::tolerance, (), t) && call_ensures(T::magnitude, (x, ), a)
            && #[trigger] call_ensures(T::less_than, (t, a), answer)
}

/// `answer` is what the scalar may say to the question whether the magnitude
/// of `x` is less than the tolerance.
pub open spec fn judged_below<T: Scalar>(x: T, answer: bool) -> bool {
    exists|t: T, a: T|
        call_ensures(T::tolerance, (), t) && call_ensures(T::magnitude, (x, ), a)
            && #[trigger] call_ensures(T::less_than, (a, t), answer)
}

/// `x` counts as zero in a reduced matrix: it is `zero` itself, or the scalar
/// has found its magnitude not to exceed the tolerance.
pub open spec fn negligible<T: Scalar>(x: T, zero: T) -> bool {
    x == zero || judged_exceeding(x, false)
}

/// Whether the magnitude of `x` is greater than the tolerance: asks the
/// scalar whether its tolerance is less than the magnitude of `x`.
pub fn exceeds_tolerance<T: Scalar>(x: T) -> (answer: bool)
    ensures
        judged_exceeding(x, answer),
{
    T::tolerance().less_than(x.magnitude())
}

/// Whether the magnitude of `x` is less than the tolerance: asks the scalar
/// whether the magnitude of `x` is less than its tolerance.
pub fn below_tolerance<T: Scalar>(x: T) -> (answer: bool)
    ensures
        judged_below(x, answer),
{
    x.magnitude().less_than(T::tolerance())
}

} // verus!
