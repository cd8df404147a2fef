//! The arithmetic that prices, sizes and money are computed in.
//!
//! The library fixes which operations are applied to which numbers and in which order; the
//! numbers themselves are a parameter. Each operation has a name in specifications, so that a
//! contract says which formula a result is the value of.
use vstd::prelude::*;

verus! {

/// A number type. Every executable operation returns what the specification function of the same
/// line names; an implementation may choose that function freely, so long as the result depends on
/// the operands alone.
pub trait Number: Copy {
    /// The number that stands for an integer.
    open spec fn integer(n: int) -> Self {
        arbitrary()
    }

    fn from_int(n: i64) -> (r: Self)
        ensures
            r == Self::integer(n as int),
    ;

    /// A number above every finite one.
    open spec fn unbounded() -> Self {
        arbitrary()
    }

    fn infinity() -> (r: Self)
        ensures
            r == Self::unbounded(),
    ;

    open spec fn sum(self, other: Self) -> Self {
        arbitrary()
    }

    fn plus(self, other: Self) -> (r: Self)
        ensures
            r == self.sum(other),
    ;

    open spec fn difference(self, other: Self) -> Self {
        arbitrary()
    }

    fn minus(self, other: Self) -> (r: Self)
        ensures
            r == self.difference(other),
    ;

    open spec fn product(self, other: Self) -> Self {
        arbitrary()
    }

    fn times(self, other: Self) -> (r: Self)
        ensures
            r == self.product(other),
    ;

    open spec fn quotient(self, other: Self) -> Self {
        arbitrary()
    }

    fn over(self, other: Self) -> (r: Self)
        ensures
            r == self.quotient(other),
    ;

    open spec fn negated(self) -> Self {
        arbitrary()
    }

    fn neg(self) -> (r: Self)
        ensures
            r == self.negated(),
    ;

    open spec fn magnitude(self) -> Self {
        arbitrary()
    }

    fn abs(self) -> (r: Self)
        ensures
            r == self.magnitude(),
    ;

    open spec fn lesser(self, other: Self) -> Self {
        arbitrary()
    }

    fn min(self, other: Self) -> (r: Self)
        ensures
            r == self.lesser(other),
    ;

    open spec fn greater(self, other: Self) -> Self {
        arbitrary()
    }

    fn max(self, other: Self) -> (r: Self)
        ensures
            r == self.greater(other),
    ;

    /// The least whole number that is not below this one.
    open spec fn rounded_up(self) -> Self {
        arbitrary()
    }

    fn ceil(self) -> (r: Self)
        ensures
            r == self.rounded_up(),
    ;

    /// The nearest whole number.
    open spec fn nearest(self) -> Self {
        arbitrary()
    }

    fn round(self) -> (r: Self)
        ensures
            r == self.nearest(),
    ;

    /// What is left without the whole part.
    open spec fn fraction(self) -> Self {
        arbitrary()
    }

    fn fract(self) -> (r: Self)
        ensures
            r == self.fraction(),
    ;

    open spec fn root(self) -> Self {
        arbitrary()
    }

    fn sqrt(self) -> (r: Self)
        ensures
            r == self.root(),
    ;

    open spec fn below(self, other: Self) -> bool {
        arbitrary()
    }

    fn is_below(self, other: Self) -> (r: bool)
        ensures
            r == self.below(other),
    ;

    open spec fn at_most(self, other: Self) -> bool {
        arbitrary()
    }

    fn is_at_most(self, other: Self) -> (r: bool)
        ensures
            r == self.at_most(other),
    ;

    open spec fn equals(self, other: Self) -> bool {
        arbitrary()
    }

    fn is_equal(self, other: Self) -> (r: bool)
        ensures
            r == self.equals(other),
    ;

    open spec fn finite(self) -> bool {
        arbitrary()
    }

    fn is_finite(self) -> (r: bool)
        ensures
            r == self.finite(),
    ;

    /// The whole part, as an `i64`, the nearest one where it lies outside.
    open spec fn truncated(self) -> i64 {
        arbitrary()
    }

    fn to_int(self) -> (r: i64)
        ensures
            r == self.truncated(),
    ;

    /// The number that a text writes, if it writes one.
    open spec fn written(s: Seq<char>) -> Option<Self> {
        arbitrary()
    }

    fn parse(s: &str) -> (r: Option<Self>)
        ensures
            r == Self::written(s@),
    ;

    /// The shortest text that writes the number.
    open spec fn shown(self) -> Seq<char> {
        arbitrary()
    }

    fn text(self) -> (r: String)
        ensures
            r@ == self.shown(),
    ;

    /// The number with a fixed count of decimals.
    open spec fn shown_fixed(self, decimals: nat) -> Seq<char> {
        arbitrary()
    }

    fn fixed(self, decimals: usize) -> (r: String)
        ensures
            r@ == self.shown_fixed(decimals as nat),
    ;
}

/// The number types that have logarithms and the like.
pub trait Analytic: Number {
    /// The natural logarithm.
    open spec fn logarithm(self) -> Self {
        arbitrary()
    }

    fn ln(self) -> (r: Self)
        ensures
            r == self.logarithm(),
    ;

    /// The natural exponential.
    open spec fn exponential(self) -> Self {
        arbitrary()
    }

    fn exp(self) -> (r: Self)
        ensures
            r == self.exponential(),
    ;

    open spec fn cosine(self) -> Self {
        arbitrary()
    }

    fn cos(self) -> (r: Self)
        ensures
            r == self.cosine(),
    ;

    /// The circumference of the unit circle.
    open spec fn full_turn() -> Self {
        arbitrary()
    }

    fn tau() -> (r: Self)
        ensures
            r == Self::full_turn(),
    ;
}

/// The number `a / b`.
pub open spec fn fraction_of<N: Number>(a: int, b: int) -> N {
    N::integer(a).quotient(N::integer(b))
}

/// The number `a / b`.
pub fn ratio<N: Number>(a: i64, b: i64) -> (r: N)
    ensures
        r == fraction_of::<N>(a as int, b as int),
{
    N::from_int(a).over(N::from_int(b))
}

/// The number, moved to the nearer end of the range from `lo` to `hi` where it lies outside.
pub open spec fn clamped<N: Number>(x: N, lo: N, hi: N) -> N {
    let y = if x.below(lo) {
        lo
    } else {
        x
    };
    if hi.below(y) {
        hi
    } else {
        y
    }
}

/// Moves a number into the range from `lo` to `hi`.
pub fn clamp<N: Number>(x: N, lo: N, hi: N) -> (r: N)
    ensures
        r == clamped(x, lo, hi),
{
    let y = if x.is_below(lo) {
        lo
    } else {
        x
    };
    if hi.is_below(y) {
        hi
    } else {
        y
    }
}

/// The nearest `i32` to an `i64`.
pub open spec fn to_i32_range(n: i64) -> i32 {
    if n > i32::MAX {
        i32::MAX
    } else if n < i32::MIN {
        i32::MIN
    } else {
        n as i32
    }
}

/// The whole part of a number as an `i32`, the nearest one where it lies outside.
pub fn to_i32<N: Number>(x: N) -> (r: i32)
    ensures
        r == to_i32_range(x.truncated()),
{
    let n: i64 = x.to_int();
    if n > i32::MAX as i64 {
        i32::MAX
    } else if n < i32::MIN as i64 {
        i32::MIN
    } else {
        n as i32
    }
}

/// The number that a count stands for; counts beyond the largest `i64` stand for that.
pub open spec fn tally<N: Number>(n: nat) -> N {
    N::integer(
        if n <= i64::MAX {
            n as int
        } else {
            i64::MAX as int
        },
    )
}

/// The number that a count stands for.
pub fn count<N: Number>(n: usize) -> (r: N)
    ensures
        r == tally::<N>(n as nat),
{
    if n as u128 <= i64::MAX as u128 {
        N::from_int(n as i64)
    } else {
        N::from_int(i64::MAX)
    }
}

} // verus!
