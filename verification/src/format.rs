//! Text for diagnostics.
use vstd::prelude::*;

verus! {

/// A string between quotes, with what cannot be printed escaped.
pub uninterp spec fn quoted(text: Seq<char>) -> Seq<char>;

/// A character between quotes, with what cannot be printed escaped.
pub uninterp spec fn quoted_char(c: char) -> Seq<char>;

/// `Debug` of `str` in the standard library.
///
/// Claimed of it: what is written depends on the string alone. Which
/// characters are escaped, and how, is left to the standard library.
#[verifier::external_body]
pub(crate) fn quote(text: &str) -> (r: String)
    ensures
        r@ == quoted(text@),
{
    format!("{:?}", text)
}

/// `Debug` of `char` in the standard library.
///
/// Claimed of it: what is written depends on the character alone.
#[verifier::external_body]
pub(crate) fn quote_char(c: char) -> (r: String)
    ensures
        r@ == quoted_char(c),
{
    format!("{:?}", c)
}

/// The upper-case hexadecimal digit with a value below sixteen.
pub open spec fn hex_digit(value: nat) -> char {
    if value < 10 {
        (48 + value) as u8 as char
    } else {
        (55 + value) as u8 as char
    }
}

/// The hexadecimal numeral of a number in at least `width` digits.
pub open spec fn hex_numeral(n: nat, width: nat) -> Seq<char>
    decreases n, width,
{
    if n < 16 && width <= 1 {
        seq![hex_digit(n)]
    } else {
        hex_numeral(
            n / 16,
            if width > 0 {
                (width - 1) as nat
            } else {
                0
            },
        ).push(hex_digit(n % 16))
    }
}

/// Append a hexadecimal numeral in at least `width` digits.
pub(crate) fn push_hex(string: &mut String, n: u32, width: u32)
    ensures
        final(string)@ == old(string)@ + hex_numeral(n as nat, width as nat),
    decreases n, width,
{
    let ghost before = string@;
    if n >= 16 || width > 1 {
        push_hex(
            string,
            n / 16,
            if width > 0 {
                width - 1
            } else {
                0
            },
        );
    } else {
        proof {
            assert(before + Seq::<char>::empty() =~= before);
        }
    }
    let last: u8 = (n % 16) as u8;
    string.push(
        if last < 10 {
            (48 + last) as char
        } else {
            (55 + last) as char
        },
    );
    proof {
        assert(string@ =~= before + hex_numeral(n as nat, width as nat));
    }
}

} // verus!
