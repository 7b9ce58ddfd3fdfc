//! The arithmetic that measurement and layout are written over.
//!
//! Layout never looks inside a width: it adds widths up and compares them.
//! [`Scalar`] names exactly the operations it uses, so the same verified code
//! serves binary floating point and the fixed-point
//! [`crate::layout_unit::LayoutUnit`].
use vstd::prelude::*;

verus! {

/// A count, as specifications speak of it.
pub type Count = nat;

/// A text, as specifications speak of it.
pub type Text = Seq<char>;

/// A length, a width or a factor.
///
/// Each executable operation returns the value of its specification
/// counterpart and nothing else is promised: no associativity, no total order.
/// Where a law needs more of the arithmetic it says so, see
/// [`ordered_arithmetic`].
pub trait Scalar: Copy {
    /// The additive starting point, `0`.
    spec fn zero_value() -> Self;

    /// A bound that no line exceeds.
    spec fn infinite_value() -> Self;

    /// The value closest to `numerator / denominator`.
    spec fn ratio_value(numerator: Count, denominator: Count) -> Self;

    /// The sum.
    spec fn plus(self, other: Self) -> Self;

    /// The difference.
    spec fn minus(self, other: Self) -> Self;

    /// The product.
    spec fn times(self, other: Self) -> Self;

    /// The remainder of a division.
    spec fn modulo(self, other: Self) -> Self;

    /// The larger of two values.
    spec fn larger(self, other: Self) -> Self;

    /// Whether `self <= other`.
    spec fn at_most(self, other: Self) -> bool;

    /// Whether `self < other`.
    spec fn below(self, other: Self) -> bool;

    /// Whether the value is a number and not an infinity.
    spec fn finite(self) -> bool;

    /// The value that a decimal literal denotes.
    spec fn parsed(text: Text) -> Option<Self>;

    /// The value in words, for diagnostics.
    spec fn shown(self) -> Text;

    /// The bits that stand for the value.
    spec fn encoded(self) -> u64;

    /// The value that bits stand for.
    spec fn decoded(bits: u64) -> Self;

    fn zero() -> (r: Self)
        ensures
            r == Self::zero_value(),
    ;

    fn infinity() -> (r: Self)
        ensures
            r == Self::infinite_value(),
    ;

    fn ratio(numerator: usize, denominator: usize) -> (r: Self)
        requires
            denominator > 0,
        ensures
            r == Self::ratio_value(numerator as nat, denominator as nat),
    ;

    fn add(self, other: Self) -> (r: Self)
        ensures
            r == self.plus(other),
    ;

    fn sub(self, other: Self) -> (r: Self)
        ensures
            r == self.minus(other),
    ;

    fn mul(self, other: Self) -> (r: Self)
        ensures
            r == self.times(other),
    ;

    fn rem(self, other: Self) -> (r: Self)
        ensures
            r == self.modulo(other),
    ;

    fn max(self, other: Self) -> (r: Self)
        ensures
            r == self.larger(other),
    ;

    fn le(self, other: Self) -> (r: bool)
        ensures
            r == self.at_most(other),
    ;

    fn lt(self, other: Self) -> (r: bool)
        ensures
            r == self.below(other),
    ;

    fn is_finite(self) -> (r: bool)
        ensures
            r == self.finite(),
    ;

    fn parse(text: &str) -> (r: Option<Self>)
        ensures
            r == Self::parsed(text@),
    ;

    fn show(self) -> (r: String)
        ensures
            r@ == self.shown(),
    ;

    fn to_bits(self) -> (r: u64)
        ensures
            r == self.encoded(),
    ;

    fn from_bits(bits: u64) -> (r: Self)
        ensures
            r == Self::decoded(bits),
    ;
}

/// A coordinate of a renderer.
pub trait Coordinate: Scalar {
    /// The quotient.
    spec fn over(self, other: Self) -> Self;

    /// `self * factor + addend`, rounded once.
    spec fn fused(self, factor: Self, addend: Self) -> Self;

    /// The value with its sign changed.
    spec fn negated(self) -> Self;

    /// The largest count that is not above the value, zero where there is
    /// none.
    spec fn whole(self) -> usize;

    fn div(self, other: Self) -> (r: Self)
        ensures
            r == self.over(other),
    ;

    fn mul_add(self, factor: Self, addend: Self) -> (r: Self)
        ensures
            r == self.fused(factor, addend),
    ;

    fn neg(self) -> (r: Self)
        ensures
            r == self.negated(),
    ;

    fn floor(self) -> (r: usize)
        ensures
            r == self.whole(),
    ;
}

/// A coordinate that is no finer than the widths `W` that text is measured in.
pub trait Widen<W: Scalar>: Coordinate {
    /// The value as a width.
    spec fn widened(self) -> W;

    fn widen(self) -> (r: W)
        ensures
            r == self.widened(),
    ;
}

/// The sum of a run of values, added from the left onto `start`.
pub open spec fn sum_onto<W: Scalar>(start: W, values: Seq<W>) -> W
    decreases values.len(),
{
    if values.len() == 0 {
        start
    } else {
        sum_onto(start, values.drop_last()).plus(values.last())
    }
}

/// The sum of a run of values, added from the left.
pub open spec fn sum_of<W: Scalar>(values: Seq<W>) -> W {
    sum_onto(W::zero_value(), values)
}

/// A width that a line may have: not negative and not undefined.
pub open spec fn nonnegative<W: Scalar>(value: W) -> bool {
    W::zero_value().at_most(value)
}

/// Whether a measurement is finite and not negative.
pub open spec fn is_measure<W: Scalar>(value: W) -> bool {
    value.finite() && nonnegative(value)
}

/// Whether a value is a measurement, or the width of something without any.
pub open spec fn is_width<W: Scalar>(value: W) -> bool {
    is_measure(value) || value == W::zero_value()
}

/// Whether the first `count` values and their running sums are measurements.
pub open spec fn sums_measure<W: Scalar>(values: Seq<W>, count: int) -> bool {
    forall|k: int|
        0 <= k < count ==> is_measure(#[trigger] values[k]) && is_measure(
            sum_of(values.take(k + 1)),
        )
}

/// The distance from `current` to the next tab stop.
pub open spec fn tab_advance_value<W: Scalar>(current: W, tab_stop: W) -> W {
    if !tab_stop.finite() || tab_stop.at_most(W::zero_value()) || !current.finite() {
        W::zero_value()
    } else {
        tab_stop.minus(current.modulo(tab_stop))
    }
}

/// What the laws ask of the arithmetic, on widths that are not negative: an
/// order that is reflexive, transitive and total, sums that keep it on both
/// sides and never shrink, the larger of two widths above both, finite widths
/// below finite ones, an infinity that nothing exceeds, and tab stops that lie
/// ahead and no further than their distance.
///
/// Binary floating point has all of this, since what is not a number is not
/// above zero either; so has [`crate::layout_unit::LayoutUnit`].
pub open spec fn ordered_arithmetic<W: Scalar>() -> bool {
    &&& nonnegative(W::zero_value())
    &&& forall|a: W| #![trigger nonnegative(a)] nonnegative(a) ==> a.at_most(a)
    &&& forall|a: W, b: W, c: W|
        #![trigger a.at_most(b), b.at_most(c)]
        nonnegative(a) && nonnegative(b) && nonnegative(c) && a.at_most(b) && b.at_most(c)
            ==> a.at_most(c)
    &&& forall|a: W, b: W|
        #![trigger a.below(b)]
        nonnegative(a) && nonnegative(b) ==> a.below(b) == !b.at_most(a) && (a.below(b)
            ==> a.at_most(b))
    &&& forall|a: W, b: W|
        #![trigger a.plus(b)]
        nonnegative(a) && nonnegative(b) ==> nonnegative(a.plus(b)) && a.at_most(a.plus(b))
    &&& forall|a: W, b: W, c: W|
        #![trigger a.plus(c), b.plus(c)]
        nonnegative(a) && nonnegative(b) && nonnegative(c) && a.at_most(b) ==> a.plus(c).at_most(
            b.plus(c),
        )
    &&& forall|a: W, b: W, c: W|
        #![trigger c.plus(a), c.plus(b)]
        nonnegative(a) && nonnegative(b) && nonnegative(c) && a.at_most(b) ==> c.plus(a).at_most(
            c.plus(b),
        )
    &&& forall|a: W, limit: W|
        #![trigger a.plus(W::zero_value()).at_most(limit)]
        nonnegative(a) && nonnegative(limit) && a.at_most(limit) ==> a.plus(
            W::zero_value(),
        ).at_most(limit)
    &&& forall|a: W, b: W|
        #![trigger a.larger(b)]
        nonnegative(a) && nonnegative(b) ==> nonnegative(a.larger(b)) && a.at_most(a.larger(b))
            && b.at_most(a.larger(b))
    &&& forall|a: W, b: W|
        #![trigger a.at_most(b)]
        nonnegative(a) && a.at_most(b) && b.finite() ==> a.finite()
    &&& nonnegative(W::infinite_value())
    &&& forall|a: W, b: W|
        #![trigger a.at_most(W::infinite_value().plus(b))]
        nonnegative(a) && nonnegative(b) ==> a.at_most(W::infinite_value().plus(b))
    &&& forall|a: W, tab_stop: W|
        #![trigger tab_advance_value(a, tab_stop)]
        nonnegative(a) && nonnegative(tab_stop) ==> {
            &&& nonnegative(tab_advance_value(a, tab_stop))
            &&& tab_advance_value(a, tab_stop).at_most(tab_stop)
        }
}

/// Whether widths may be added in any order.
#[verifier::opaque]
pub open spec fn sums_in_any_order<W: Scalar>() -> bool {
    &&& forall|a: W, b: W|
        #![trigger a.plus(b)]
        nonnegative(a) && nonnegative(b) ==> a.plus(b) == b.plus(a)
    &&& forall|a: W, b: W, c: W|
        #![trigger a.plus(b).plus(c)]
        nonnegative(a) && nonnegative(b) && nonnegative(c) ==> a.plus(b).plus(c) == a.plus(
            b.plus(c),
        )
}

/// Whether sums undo differences, and no width is left of a smaller one.
#[verifier::opaque]
pub open spec fn sums_undo_differences<W: Scalar>() -> bool {
    &&& forall|a: W| #![trigger a.minus(W::zero_value())] a.minus(W::zero_value()) == a
    &&& forall|a: W, b: W, c: W|
        #![trigger a.at_most(b.minus(c))]
        nonnegative(a) && nonnegative(c) && a.at_most(b.minus(c)) ==> a.plus(c).at_most(b)
    &&& forall|a: W, b: W, c: W, d: W|
        #![trigger a.at_most(b.minus(c).plus(d))]
        nonnegative(a) && nonnegative(c) && nonnegative(d) && nonnegative(b.minus(c)) && a.at_most(
            b.minus(c).plus(d),
        ) ==> a.plus(c).at_most(b.plus(d))
    &&& forall|a: W, b: W|
        #![trigger a.minus(b)]
        nonnegative(a) && nonnegative(b) ==> (nonnegative(a.minus(b)) == b.at_most(a))
}

/// Whether the larger of two widths is one of the two.
#[verifier::opaque]
pub open spec fn larger_is_one_of_two<W: Scalar>() -> bool {
    forall|a: W, b: W|
        #![trigger a.larger(b)]
        a.larger(b) == (if b.at_most(a) {
            a
        } else {
            b
        })
}

/// What the laws ask of the arithmetic beyond its order where widths are taken
/// away as well as added.
///
/// Binary floating point rounds and has this up to rounding only;
/// [`crate::layout_unit::LayoutUnit`] has it.
pub open spec fn exact_arithmetic<W: Scalar>() -> bool {
    &&& sums_in_any_order::<W>()
    &&& sums_undo_differences::<W>()
    &&& larger_is_one_of_two::<W>()
}

} // verus!
