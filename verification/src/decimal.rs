//! Decimal numerals: written for diagnostics, read from user input.
use vstd::prelude::*;

verus! {

/// Whether a character is an ASCII digit.
pub open spec fn is_digit(c: char) -> bool {
    '0' <= c && c <= '9'
}

/// The digit with a value below ten.
pub open spec fn digit(value: nat) -> char {
    (48 + value) as u8 as char
}

/// The value of a digit.
pub open spec fn digit_value(c: char) -> nat {
    (c as nat - 48) as nat
}

/// The decimal numeral of a number, without leading zeros.
pub open spec fn numeral(n: nat) -> Seq<char>
    decreases n,
{
    if n < 10 {
        seq![digit(n)]
    } else {
        numeral(n / 10).push(digit(n % 10))
    }
}

/// The number that a run of digits denotes.
pub open spec fn numeral_value(digits: Seq<char>) -> nat
    decreases digits.len(),
{
    if digits.len() == 0 {
        0
    } else {
        numeral_value(digits.drop_last()) * 10 + digit_value(digits.last())
    }
}

/// Whether every character is an ASCII digit.
pub open spec fn all_digits(text: Seq<char>) -> bool {
    forall|i: int| 0 <= i < text.len() ==> is_digit(#[trigger] text[i])
}

/// The number that an unsigned literal denotes: digits, at least one, behind
/// an optional plus sign, and not above `max`.
pub open spec fn unsigned_literal(text: Seq<char>, max: nat) -> Option<nat> {
    let digits = if text.len() > 0 && text[0] == '+' {
        text.skip(1)
    } else {
        text
    };
    if digits.len() > 0 && all_digits(digits) && numeral_value(digits) <= max {
        Some(numeral_value(digits))
    } else {
        None
    }
}

/// Reading a numeral gives back the number that it was written for.
pub proof fn numerals_read_back(n: nat)
    ensures
        numeral(n).len() > 0,
        all_digits(numeral(n)),
        numeral_value(numeral(n)) == n,
    decreases n,
{
    assert(forall|d: nat| d < 10 ==> is_digit(#[trigger] digit(d)) && digit_value(digit(d)) == d);
    if n < 10 {
        assert(numeral(n).drop_last() =~= Seq::<char>::empty());
        assert(numeral_value(numeral(n).drop_last()) == 0);
        assert(numeral(n).last() == digit(n));
    } else {
        numerals_read_back(n / 10);
        assert(numeral(n).drop_last() =~= numeral(n / 10));
        assert(numeral(n).last() == digit(n % 10));
        assert forall|i: int| 0 <= i < numeral(n).len() implies is_digit(
            #[trigger] numeral(n)[i],
        ) by {
            if i < numeral(n / 10).len() {
                assert(numeral(n)[i] == numeral(n / 10)[i]);
            }
        }
    }
}

/// A longer run of digits denotes no smaller number.
pub proof fn lemma_prefix_value(digits: Seq<char>, length: int)
    requires
        0 <= length <= digits.len(),
    ensures
        numeral_value(digits.take(length)) <= numeral_value(digits),
    decreases digits.len() - length,
{
    if length < digits.len() {
        lemma_prefix_value(digits, length + 1);
        assert(digits.take(length + 1).drop_last() =~= digits.take(length));
    } else {
        assert(digits.take(length) =~= digits);
    }
}

/// Append the decimal numeral of a number.
pub fn push_numeral(string: &mut String, n: u64)
    ensures
        final(string)@ == old(string)@ + numeral(n as nat),
    decreases n,
{
    let ghost before = string@;
    if n >= 10 {
        push_numeral(string, n / 10);
    } else {
        proof {
            assert(before + Seq::<char>::empty() =~= before);
        }
    }
    let last: u8 = (n % 10) as u8;
    string.push((48 + last) as char);
    proof {
        assert(string@ =~= before + numeral(n as nat));
    }
}

/// Read a run of digits, at least one, that denotes a number up to `max`.
pub fn read_digits(chars: &Vec<char>, from: usize, to: usize, max: u64) -> (r: Option<u64>)
    requires
        from <= to <= chars@.len(),
    ensures
        match r {
            Some(value) => from < to && all_digits(chars@.subrange(from as int, to as int))
                && value == numeral_value(chars@.subrange(from as int, to as int)) && value <= max,
            None => from == to || !all_digits(chars@.subrange(from as int, to as int))
                || numeral_value(chars@.subrange(from as int, to as int)) > max,
        },
{
    if from == to {
        return None;
    }
    let ghost digits = chars@.subrange(from as int, to as int);
    let mut value: u64 = 0;
    let mut index: usize = from;
    while index < to
        invariant
            from <= index <= to <= chars@.len(),
            digits == chars@.subrange(from as int, to as int),
            all_digits(digits.take(index - from)),
            value == numeral_value(digits.take(index - from)),
            value <= max,
        decreases to - index,
    {
        let c = chars[index];
        proof {
            assert(c == digits[index - from]);
            assert(digits.take(index - from + 1).drop_last() =~= digits.take(index - from));
            lemma_prefix_value(digits, index - from + 1);
        }
        if c < '0' || c > '9' {
            return None;
        }
        let units: u64 = c as u64 - 48;
        if value > (max - if units < max { units } else { max }) / 10 || units > max {
            return None;
        }
        value = value * 10 + units;
        index += 1;
    }
    proof {
        assert(digits.take(index - from) =~= digits);
    }
    Some(value)
}

/// Read an unsigned literal up to `max`.
pub fn read_unsigned(chars: &Vec<char>, from: usize, to: usize, max: u64) -> (r: Option<u64>)
    requires
        from <= to <= chars@.len(),
    ensures
        match unsigned_literal(chars@.subrange(from as int, to as int), max as nat) {
            Some(value) => r == Some(value as u64),
            None => r is None,
        },
{
    let ghost text = chars@.subrange(from as int, to as int);
    if from < to && chars[from] == '+' {
        proof {
            assert(text.skip(1) =~= chars@.subrange(from + 1, to as int));
        }
        read_digits(chars, from + 1, to, max)
    } else {
        read_digits(chars, from, to, max)
    }
}

} // verus!
