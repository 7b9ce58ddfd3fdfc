//! Exact fixed-point widths.
use crate::decimal::{all_digits, numeral, numeral_value, push_numeral, read_digits};
use crate::scalar::{
    exact_arithmetic, larger_is_one_of_two, nonnegative, ordered_arithmetic, sums_in_any_order,
    sums_undo_differences, tab_advance_value, Coordinate, Scalar, Widen,
};
use crate::text::chars_of;
use vstd::prelude::*;
use vstd::string::*;

verus! {

/// A width in 4800ths of a pixel: fine enough to hold every factor, tolerance
/// and conversion that the library itself brings along.
///
/// Sums are exact up to the ends of the range, which stand for the infinities.
/// Products and quotients are rounded down to a unit.
#[derive(Debug, Clone, Copy, PartialEq, Eq, Structural)]
pub struct LayoutUnit {
    pub raw: i64,
}

/// The most digits that [`LayoutUnit`] reads.
pub const MAX_LITERAL_DIGITS: usize = 18;

/// The unit closest to a number of 4800ths.
pub open spec fn nearest_unit(value: int) -> LayoutUnit {
    if value < i64::MIN {
        LayoutUnit { raw: i64::MIN }
    } else if value > i64::MAX {
        LayoutUnit { raw: i64::MAX }
    } else {
        LayoutUnit { raw: value as i64 }
    }
}

/// Ten to a power.
pub open spec fn power_of_ten(exponent: nat) -> nat
    decreases exponent,
{
    if exponent == 0 {
        1
    } else {
        10 * power_of_ten((exponent - 1) as nat)
    }
}

/// The position of the decimal point, or the length of the text.
pub open spec fn point_index(text: Seq<char>) -> int {
    match text.index_of_first('.') {
        Some(index) => index,
        None => text.len() as int,
    }
}

/// The digits of a decimal literal with its point taken out.
pub open spec fn literal_digits(text: Seq<char>) -> Seq<char> {
    if point_index(text) < text.len() {
        text.remove(point_index(text))
    } else {
        text
    }
}

/// The unit that a decimal literal denotes: digits, at least one and at most
/// [`MAX_LITERAL_DIGITS`], with at most one decimal point. What is below one
/// unit is dropped.
pub open spec fn literal_unit(text: Seq<char>) -> Option<LayoutUnit> {
    let digits = literal_digits(text);
    if 0 < digits.len() <= MAX_LITERAL_DIGITS && all_digits(digits) {
        let decimals = (digits.len() - least_index(point_index(text), digits.len() as int)) as nat;
        Some(nearest_unit((numeral_value(digits) * 4800) as int / power_of_ten(decimals) as int))
    } else {
        None
    }
}

/// The smaller of two indices.
pub open spec fn least_index(a: int, b: int) -> int {
    if a <= b {
        a
    } else {
        b
    }
}

fn nearest(value: i128) -> (r: LayoutUnit)
    ensures
        r == nearest_unit(value as int),
{
    if value < i64::MIN as i128 {
        LayoutUnit { raw: i64::MIN }
    } else if value > i64::MAX as i128 {
        LayoutUnit { raw: i64::MAX }
    } else {
        LayoutUnit { raw: value as i64 }
    }
}

impl LayoutUnit {
    /// Whether this stands for positive infinity.
    pub open spec fn is_top(self) -> bool {
        self.raw == i64::MAX
    }
}

impl Scalar for LayoutUnit {
    open spec fn zero_value() -> Self {
        LayoutUnit { raw: 0 }
    }

    open spec fn infinite_value() -> Self {
        LayoutUnit { raw: i64::MAX }
    }

    open spec fn ratio_value(numerator: nat, denominator: nat) -> Self {
        nearest_unit((numerator * 4800) as int / denominator as int)
    }

    open spec fn plus(self, other: Self) -> Self {
        if self.is_top() || other.is_top() {
            LayoutUnit { raw: i64::MAX }
        } else {
            nearest_unit(self.raw + other.raw)
        }
    }

    open spec fn minus(self, other: Self) -> Self {
        if self.is_top() {
            self
        } else {
            nearest_unit(self.raw - other.raw)
        }
    }

    open spec fn times(self, other: Self) -> Self {
        nearest_unit((self.raw * other.raw) / 4800)
    }

    open spec fn modulo(self, other: Self) -> Self {
        if self.raw >= 0 && other.raw > 0 {
            LayoutUnit { raw: (self.raw as int % other.raw as int) as i64 }
        } else {
            LayoutUnit { raw: 0 }
        }
    }

    open spec fn larger(self, other: Self) -> Self {
        if self.raw < other.raw {
            other
        } else {
            self
        }
    }

    open spec fn at_most(self, other: Self) -> bool {
        self.raw <= other.raw
    }

    open spec fn below(self, other: Self) -> bool {
        self.raw < other.raw
    }

    open spec fn finite(self) -> bool {
        i64::MIN < self.raw < i64::MAX
    }

    open spec fn parsed(text: Seq<char>) -> Option<Self> {
        literal_unit(text)
    }

    open spec fn shown(self) -> Seq<char> {
        (if self.raw < 0 {
            seq!['-'] + numeral((0 - self.raw) as nat)
        } else {
            numeral(self.raw as nat)
        }) + seq!['/', '4', '8', '0', '0']
    }

    open spec fn encoded(self) -> u64 {
        (self.raw - i64::MIN) as u64
    }

    open spec fn decoded(bits: u64) -> Self {
        LayoutUnit { raw: (bits + i64::MIN) as i64 }
    }

    fn zero() -> (r: Self) {
        LayoutUnit { raw: 0 }
    }

    fn infinity() -> (r: Self) {
        LayoutUnit { raw: i64::MAX }
    }

    fn ratio(numerator: usize, denominator: usize) -> (r: Self) {
        let quotient: u128 = (numerator as u128 * 4800) / (denominator as u128);
        proof {
            assert(quotient <= numerator * 4800) by (nonlinear_arith)
                requires
                    denominator >= 1,
                    quotient == (numerator * 4800) / denominator as int,
            ;
        }
        nearest(quotient as i128)
    }

    fn add(self, other: Self) -> (r: Self) {
        if self.raw == i64::MAX || other.raw == i64::MAX {
            LayoutUnit { raw: i64::MAX }
        } else {
            nearest(self.raw as i128 + other.raw as i128)
        }
    }

    fn sub(self, other: Self) -> (r: Self) {
        if self.raw == i64::MAX {
            self
        } else {
            nearest(self.raw as i128 - other.raw as i128)
        }
    }

    fn mul(self, other: Self) -> (r: Self) {
        let a: i128 = self.raw as i128;
        let b: i128 = other.raw as i128;
        proof {
            assert(-0x4000_0000_0000_0000_0000_0000_0000_0000 <= a * b
                <= 0x4000_0000_0000_0000_0000_0000_0000_0000) by (nonlinear_arith)
                requires
                    -0x8000_0000_0000_0000 <= a <= 0x8000_0000_0000_0000,
                    -0x8000_0000_0000_0000 <= b <= 0x8000_0000_0000_0000,
            ;
        }
        let product: i128 = a * b;
        if product >= 0 {
            nearest(((product as u128) / 4800) as i128)
        } else {
            let below: u128 = (-product) as u128;
            let quotient: u128 = (below + 4799) / 4800;
            proof {
                assert((product as int) / 4800 == -(quotient as int));
            }
            nearest(-(quotient as i128))
        }
    }

    fn rem(self, other: Self) -> (r: Self) {
        if self.raw >= 0 && other.raw > 0 {
            LayoutUnit { raw: ((self.raw as u64) % (other.raw as u64)) as i64 }
        } else {
            LayoutUnit { raw: 0 }
        }
    }

    fn max(self, other: Self) -> (r: Self) {
        if self.raw < other.raw {
            other
        } else {
            self
        }
    }

    fn le(self, other: Self) -> (r: bool) {
        self.raw <= other.raw
    }

    fn lt(self, other: Self) -> (r: bool) {
        self.raw < other.raw
    }

    fn is_finite(self) -> (r: bool) {
        i64::MIN < self.raw && self.raw < i64::MAX
    }

    fn parse(text: &str) -> (r: Option<Self>) {
        parse_literal(text)
    }

    fn show(self) -> (r: String) {
        let mut shown = String::new();
        let ghost sign: Seq<char> = if self.raw < 0 {
            seq!['-']
        } else {
            Seq::empty()
        };
        let magnitude: u64 = if self.raw < 0 {
            shown.push('-');
            (-(self.raw as i128)) as u64
        } else {
            self.raw as u64
        };
        proof {
            assert(shown@ =~= sign);
        }
        push_numeral(&mut shown, magnitude);
        shown.append("/4800");
        proof {
            reveal_strlit("/4800");
        }
        proof {
            assert(shown@ =~= self.shown());
        }
        shown
    }

    fn to_bits(self) -> (r: u64) {
        (self.raw as i128 - i64::MIN as i128) as u64
    }

    fn from_bits(bits: u64) -> (r: Self) {
        LayoutUnit { raw: (bits as i128 + i64::MIN as i128) as i64 }
    }
}

impl Coordinate for LayoutUnit {
    open spec fn over(self, other: Self) -> Self {
        if self.raw >= 0 && other.raw > 0 {
            nearest_unit((self.raw * 4800) / other.raw as int)
        } else {
            LayoutUnit { raw: 0 }
        }
    }

    open spec fn fused(self, factor: Self, addend: Self) -> Self {
        self.times(factor).plus(addend)
    }

    open spec fn negated(self) -> Self {
        nearest_unit(-self.raw)
    }

    open spec fn whole(self) -> usize {
        if self.raw < 0 {
            0
        } else if self.raw / 4800 > usize::MAX {
            usize::MAX
        } else {
            (self.raw as int / 4800) as usize
        }
    }

    fn div(self, other: Self) -> (r: Self) {
        if self.raw >= 0 && other.raw > 0 {
            let scaled: u128 = self.raw as u128 * 4800;
            let quotient: u128 = scaled / (other.raw as u128);
            proof {
                assert(quotient <= scaled) by (nonlinear_arith)
                    requires
                        other.raw >= 1,
                        quotient == scaled as int / other.raw as int,
                ;
            }
            nearest(quotient as i128)
        } else {
            LayoutUnit { raw: 0 }
        }
    }

    fn mul_add(self, factor: Self, addend: Self) -> (r: Self) {
        self.mul(factor).add(addend)
    }

    fn neg(self) -> (r: Self) {
        nearest(-(self.raw as i128))
    }

    fn floor(self) -> (r: usize) {
        if self.raw < 0 {
            return 0;
        }
        let pixels: u64 = (self.raw as u64) / 4800;
        if pixels > usize::MAX as u64 {
            usize::MAX
        } else {
            pixels as usize
        }
    }
}

impl Widen<LayoutUnit> for LayoutUnit {
    open spec fn widened(self) -> LayoutUnit {
        self
    }

    fn widen(self) -> (r: LayoutUnit) {
        self
    }
}

fn parse_literal(text: &str) -> (r: Option<LayoutUnit>)
    ensures
        r == literal_unit(text@),
{
    let chars = chars_of(text);
    let mut point: usize = 0;
    while point < chars.len() && chars[point] != '.'
        invariant
            point <= chars@.len(),
            forall|k: int| 0 <= k < point ==> chars@[k] != '.',
        decreases chars@.len() - point,
    {
        point += 1;
    }
    let mut digits: Vec<char> = Vec::new();
    let mut index: usize = 0;
    while index < chars.len()
        invariant
            index <= chars@.len(),
            point <= chars@.len(),
            digits@ == if index <= point {
                chars@.take(index as int)
            } else {
                chars@.take(point as int) + chars@.subrange(point + 1, index as int)
            },
        decreases chars@.len() - index,
    {
        if index != point {
            digits.push(chars[index]);
        }
        index += 1;
        proof {
            assert(digits@ =~= if index <= point {
                chars@.take(index as int)
            } else {
                chars@.take(point as int) + chars@.subrange(point + 1, index as int)
            });
        }
    }
    proof {
        text@.index_of_first_ensures('.');
        if point < chars@.len() {
            assert(text@[point as int] == '.');
            assert(text@.contains('.'));
        } else {
            assert(!text@.contains('.'));
        }
        assert(point_index(text@) == point as int);
        assert(digits@ =~= literal_digits(text@));
    }
    if digits.len() == 0 || digits.len() > MAX_LITERAL_DIGITS {
        return None;
    }
    let read = read_digits(&digits, 0, digits.len(), u64::MAX);
    proof {
        assert(digits@.subrange(0, digits@.len() as int) =~= digits@);
        if all_digits(digits@) {
            lemma_value_bound(digits@);
            lemma_power_monotone(digits@.len(), 18);
            lemma_power_18();
        }
    }
    match read {
        Some(value) => {
            let whole: usize = if point < digits.len() {
                point
            } else {
                digits.len()
            };
            let divisor = tenfold(digits.len() - whole);
            let scaled: u128 = value as u128 * 4800;
            let units: u128 = scaled / (divisor as u128);
            proof {
                assert(units <= scaled) by (nonlinear_arith)
                    requires
                        divisor >= 1,
                        units == scaled as int / divisor as int,
                ;
            }
            Some(nearest(units as i128))
        },
        None => None,
    }
}

fn tenfold(exponent: usize) -> (r: u64)
    requires
        exponent <= MAX_LITERAL_DIGITS,
    ensures
        r == power_of_ten(exponent as nat),
        r >= 1,
{
    let mut power: u64 = 1;
    let mut index: usize = 0;
    proof {
        lemma_power_18();
    }
    while index < exponent
        invariant
            index <= exponent <= 18,
            power == power_of_ten(index as nat),
            power >= 1,
            power_of_ten(18) == 1_000_000_000_000_000_000,
        decreases exponent - index,
    {
        proof {
            lemma_power_monotone((index + 1) as nat, 18);
            assert(power_of_ten((index + 1) as nat) == 10 * power_of_ten(index as nat));
        }
        power = power * 10;
        index += 1;
    }
    power
}

proof fn lemma_power_18()
    ensures
        power_of_ten(18) == 1_000_000_000_000_000_000,
{
    reveal_with_fuel(power_of_ten, 19);
}

proof fn lemma_power_monotone(a: nat, b: nat)
    requires
        a <= b,
    ensures
        1 <= power_of_ten(a) <= power_of_ten(b),
    decreases b,
{
    if a < b {
        lemma_power_monotone(a, (b - 1) as nat);
    } else if a > 0 {
        lemma_power_monotone((a - 1) as nat, (b - 1) as nat);
    }
}

proof fn lemma_value_bound(digits: Seq<char>)
    requires
        all_digits(digits),
    ensures
        numeral_value(digits) < power_of_ten(digits.len()),
    decreases digits.len(),
{
    if digits.len() > 0 {
        assert(all_digits(digits.drop_last())) by {
            assert forall|i: int| 0 <= i < digits.drop_last().len() implies crate::decimal::is_digit(
                #[trigger] digits.drop_last()[i],
            ) by {
                assert(digits.drop_last()[i] == digits[i]);
            }
        }
        lemma_value_bound(digits.drop_last());
        assert(crate::decimal::is_digit(digits.last()));
    }
}

/// A ratio whose denominator divides 4800 is held exactly, up to the end of the
/// range.
pub proof fn ratios_are_exact(numerator: nat, denominator: nat)
    requires
        denominator > 0,
        4800nat % denominator == 0,
        numerator * 4800 < i64::MAX,
    ensures
        LayoutUnit::ratio_value(numerator, denominator).raw * denominator == numerator * 4800,
{
    let factor: nat = 4800nat / denominator;
    assert(4800nat == denominator * factor) by (nonlinear_arith)
        requires
            denominator > 0,
            4800nat % denominator == 0,
            factor == 4800nat / denominator,
    ;
    let product = (numerator * 4800) as int;
    assert(product == (numerator * factor) * denominator) by (nonlinear_arith)
        requires
            4800nat == denominator * factor,
            product == numerator * 4800,
    ;
    assert(product / denominator as int == numerator * factor) by (nonlinear_arith)
        requires
            denominator > 0,
            product == (numerator * factor) * denominator,
    ;
    assert(numerator * factor <= product) by (nonlinear_arith)
        requires
            denominator > 0,
            product == (numerator * factor) * denominator,
            numerator * factor >= 0,
    ;
}

/// The bits of a layout unit give it back.
pub proof fn layout_units_decode(value: LayoutUnit)
    ensures
        LayoutUnit::decoded(value.encoded()) == value,
{
}

/// Layout units are ordered as the laws ask.
pub proof fn layout_units_are_ordered()
    ensures
        ordered_arithmetic::<LayoutUnit>(),
{
    assert forall|a: LayoutUnit, tab_stop: LayoutUnit|
        #![trigger tab_advance_value(a, tab_stop)]
        nonnegative(a) && nonnegative(tab_stop) implies {
        &&& nonnegative(tab_advance_value(a, tab_stop))
        &&& tab_advance_value(a, tab_stop).at_most(tab_stop)
    } by {
        if tab_stop.raw > 0 {
            assert(0 <= a.raw as int % tab_stop.raw as int <= tab_stop.raw) by (nonlinear_arith)
                requires
                    a.raw >= 0,
                    tab_stop.raw > 0,
            ;
        }
    }
}

/// Layout units add up exactly, up to the end of their range.
pub proof fn layout_units_add_up_exactly()
    ensures
        exact_arithmetic::<LayoutUnit>(),
{
    reveal(sums_in_any_order);
    reveal(sums_undo_differences);
    reveal(larger_is_one_of_two);
}

/// A tab moves the pen to the next tab stop: behind it the pen stands at a whole
/// number of stops, ahead of where it stood and by one stop at most.
pub proof fn tabs_move_to_the_next_stop(current: LayoutUnit, tab_stop: LayoutUnit)
    requires
        0 <= current.raw < i64::MAX,
        0 < tab_stop.raw < i64::MAX,
    ensures
        ({
            let advance = tab_advance_value(current, tab_stop);
            &&& 0 < advance.raw <= tab_stop.raw
            &&& (current.raw + advance.raw) % tab_stop.raw as int == 0
        }),
{
    let c = current.raw as int;
    let t = tab_stop.raw as int;
    let rest = c % t;
    assert(0 <= rest < t) by (nonlinear_arith)
        requires
            rest == c % t,
            t > 0,
    ;
    assert((c + (t - rest)) % t == 0) by (nonlinear_arith)
        requires
            rest == c % t,
            t > 0,
    {
        assert(c == t * (c / t) + rest);
        assert(c + (t - rest) == t * (c / t + 1));
    }
}

} // verus!
