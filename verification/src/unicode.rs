//! Unicode character classification for text segmentation.
//!
//! These classes drive the segment-merging passes that determine where line
//! breaks are allowed.
use crate::decimal::{all_digits, is_digit};
use crate::text::chars_of;
use vstd::prelude::*;

verus! {

/// The ranges of [`is_cjk`].
pub open spec fn cjk(c: char) -> bool {
    let cp = c as u32;
    // CJK Unified Ideographs
    ||| 0x4E00 <= cp <= 0x9FFF
    // CJK Unified Ideographs Extension A
    ||| 0x3400 <= cp <= 0x4DBF
    // CJK Unified Ideographs Extension B
    ||| 0x20000 <= cp <= 0x2A6DF
    // CJK Compatibility Ideographs
    ||| 0xF900 <= cp <= 0xFAFF
    // CJK Unified Ideographs Extension C-F
    ||| 0x2A700 <= cp <= 0x2CEAF
    // CJK Compatibility Ideographs Supplement
    ||| 0x2F800 <= cp <= 0x2FA1F
    // Kangxi Radicals
    ||| 0x2F00 <= cp <= 0x2FDF
    // CJK Radicals Supplement
    ||| 0x2E80 <= cp <= 0x2EFF
    // CJK Symbols and Punctuation (partial -- excludes some)
    ||| 0x3000 <= cp <= 0x303F
    // Hiragana
    ||| 0x3040 <= cp <= 0x309F
    // Katakana
    ||| 0x30A0 <= cp <= 0x30FF
    // Katakana Phonetic Extensions
    ||| 0x31F0 <= cp <= 0x31FF
    // Halfwidth/Fullwidth Forms (CJK portion)
    ||| 0xFF01 <= cp <= 0xFF60
    ||| 0xFFE0 <= cp <= 0xFFE6
    // Bopomofo
    ||| 0x3100 <= cp <= 0x312F
    ||| 0x31A0 <= cp <= 0x31BF
    // Yi
    ||| 0xA000 <= cp <= 0xA4CF
}

/// Check if a character is in a CJK range: ideographs and their extensions,
/// radicals, symbols and punctuation, kana, bopomofo, Yi, and the fullwidth
/// forms.
#[must_use]
pub fn is_cjk(c: char) -> (r: bool)
    ensures
        r == cjk(c),
{
    let cp: u32 = c as u32;
    (0x4E00 <= cp && cp <= 0x9FFF)
        || (0x3400 <= cp && cp <= 0x4DBF)
        || (0x20000 <= cp && cp <= 0x2A6DF)
        || (0xF900 <= cp && cp <= 0xFAFF)
        || (0x2A700 <= cp && cp <= 0x2CEAF)
        || (0x2F800 <= cp && cp <= 0x2FA1F)
        || (0x2F00 <= cp && cp <= 0x2FDF)
        || (0x2E80 <= cp && cp <= 0x2EFF)
        || (0x3000 <= cp && cp <= 0x303F)
        || (0x3040 <= cp && cp <= 0x309F)
        || (0x30A0 <= cp && cp <= 0x30FF)
        || (0x31F0 <= cp && cp <= 0x31FF)
        || (0xFF01 <= cp && cp <= 0xFF60)
        || (0xFFE0 <= cp && cp <= 0xFFE6)
        || (0x3100 <= cp && cp <= 0x312F)
        || (0x31A0 <= cp && cp <= 0x31BF)
        || (0xA000 <= cp && cp <= 0xA4CF)
}

/// The characters of [`is_kinsoku_end`].
pub open spec fn kinsoku_end(c: char) -> bool {
    matches!(
        c,
        '\u{3001}' | '\u{3002}' | '\u{FF0C}' | '\u{FF0E}' | '\u{FF09}' | '\u{FF3D}'
            | '\u{FF5D}' | '\u{3015}' | '\u{3009}' | '\u{300B}' | '\u{300D}' | '\u{300F}'
            | '\u{3011}' | '\u{3017}' | '\u{3019}' | '\u{301B}' | '\u{3041}' | '\u{3043}'
            | '\u{3045}' | '\u{3047}' | '\u{3049}' | '\u{3063}' | '\u{3083}' | '\u{3085}'
            | '\u{3087}' | '\u{308E}' | '\u{30A1}' | '\u{30A3}' | '\u{30A5}' | '\u{30A7}'
            | '\u{30A9}' | '\u{30C3}' | '\u{30E3}' | '\u{30E5}' | '\u{30E7}' | '\u{30EE}'
            | '\u{30F5}' | '\u{30F6}' | '\u{30FC}' | '\u{30FD}' | '\u{30FE}' | '\u{309D}'
            | '\u{309E}' | '\u{2019}' | '\u{201D}' | '\u{FF01}' | '\u{FF1F}' | '\u{30FB}'
            | '\u{FF1A}' | '\u{FF1B}'
    )
}

/// Kinsoku Shori -- Japanese line-breaking prohibition rules.
///
/// Characters that must not start a line: closing brackets and quotes, small
/// kana, prolonged sound and iteration marks, fullwidth punctuation.
#[must_use]
pub fn is_kinsoku_end(c: char) -> (r: bool)
    ensures
        r == kinsoku_end(c),
{
    matches!(
        c,
        '\u{3001}' | '\u{3002}' | '\u{FF0C}' | '\u{FF0E}' | '\u{FF09}' | '\u{FF3D}'
            | '\u{FF5D}' | '\u{3015}' | '\u{3009}' | '\u{300B}' | '\u{300D}' | '\u{300F}'
            | '\u{3011}' | '\u{3017}' | '\u{3019}' | '\u{301B}' | '\u{3041}' | '\u{3043}'
            | '\u{3045}' | '\u{3047}' | '\u{3049}' | '\u{3063}' | '\u{3083}' | '\u{3085}'
            | '\u{3087}' | '\u{308E}' | '\u{30A1}' | '\u{30A3}' | '\u{30A5}' | '\u{30A7}'
            | '\u{30A9}' | '\u{30C3}' | '\u{30E3}' | '\u{30E5}' | '\u{30E7}' | '\u{30EE}'
            | '\u{30F5}' | '\u{30F6}' | '\u{30FC}' | '\u{30FD}' | '\u{30FE}' | '\u{309D}'
            | '\u{309E}' | '\u{2019}' | '\u{201D}' | '\u{FF01}' | '\u{FF1F}' | '\u{30FB}'
            | '\u{FF1A}' | '\u{FF1B}'
    )
}

/// The characters of [`is_kinsoku_start`].
pub open spec fn kinsoku_start(c: char) -> bool {
    matches!(
        c,
        '\u{FF08}' | '\u{FF3B}' | '\u{FF5B}' | '\u{3014}' | '\u{3008}' | '\u{300A}'
            | '\u{300C}' | '\u{300E}' | '\u{3010}' | '\u{3016}' | '\u{3018}' | '\u{301A}'
            | '\u{2018}' | '\u{201C}'
    )
}

/// Characters that must not end a line (opening brackets, etc.).
#[must_use]
pub fn is_kinsoku_start(c: char) -> (r: bool)
    ensures
        r == kinsoku_start(c),
{
    matches!(
        c,
        '\u{FF08}' | '\u{FF3B}' | '\u{FF5B}' | '\u{3014}' | '\u{3008}' | '\u{300A}'
            | '\u{300C}' | '\u{300E}' | '\u{3010}' | '\u{3016}' | '\u{3018}' | '\u{301A}'
            | '\u{2018}' | '\u{201C}'
    )
}

/// The characters of [`is_left_sticky_punctuation`].
pub open spec fn left_sticky(c: char) -> bool {
    matches!(
        c,
        '.' | ',' | ':' | ';' | '!' | '?'
            | ')' | ']' | '}' | '"' | '\'' | '\u{2019}'
            | '\u{201D}' | '\u{2026}' | '%' | '\u{00B0}'
    )
}

/// Left-sticky punctuation -- merges with the preceding word segment
/// so that `"better."` is measured as one unit.
#[must_use]
pub fn is_left_sticky_punctuation(c: char) -> (r: bool)
    ensures
        r == left_sticky(c),
{
    matches!(
        c,
        '.' | ',' | ':' | ';' | '!' | '?'
            | ')' | ']' | '}' | '"' | '\'' | '\u{2019}'
            | '\u{201D}' | '\u{2026}' | '%' | '\u{00B0}'
    )
}

/// The characters of [`is_forward_sticky`].
pub open spec fn forward_sticky(c: char) -> bool {
    matches!(
        c,
        '(' | '[' | '{' | '"' | '\'' | '\u{2018}'
            | '\u{201C}' | '$' | '\u{00A3}' | '\u{00A5}' | '\u{20AC}'
    )
}

/// Forward-sticky punctuation -- carries into the next word segment
/// so opening quotes, brackets and currency signs aren't orphaned at line end.
#[must_use]
pub fn is_forward_sticky(c: char) -> (r: bool)
    ensures
        r == forward_sticky(c),
{
    matches!(
        c,
        '(' | '[' | '{' | '"' | '\'' | '\u{2018}'
            | '\u{201C}' | '$' | '\u{00A3}' | '\u{00A5}' | '\u{20AC}'
    )
}

/// The characters of [`is_url_internal`].
pub open spec fn url_internal(c: char) -> bool {
    matches!(
        c,
        '/' | '.' | '-' | '_' | '~' | ':'
            | '?' | '#' | '[' | ']' | '@' | '!'
            | '$' | '&' | '\'' | '(' | ')' | '*'
            | '+' | ',' | ';' | '=' | '%'
    )
}

/// Check if a character is a URL-internal character (not a break point in URLs).
#[must_use]
pub fn is_url_internal(c: char) -> (r: bool)
    ensures
        r == url_internal(c),
{
    matches!(
        c,
        '/' | '.' | '-' | '_' | '~' | ':'
            | '?' | '#' | '[' | ']' | '@' | '!'
            | '$' | '&' | '\'' | '(' | ')' | '*'
            | '+' | ',' | ';' | '=' | '%'
    )
}

/// The characters of [`is_numeric_connective`].
pub open spec fn numeric_connective(c: char) -> bool {
    matches!(
        c,
        '.' | ',' | '-' | ':' | '/' | '+'
    )
}

/// Check if a character is a numeric connective (e.g., `.` in `3.14`, `,` in `1,000`).
#[must_use]
pub fn is_numeric_connective(c: char) -> (r: bool)
    ensures
        r == numeric_connective(c),
{
    matches!(
        c,
        '.' | ',' | '-' | ':' | '/' | '+'
    )
}

/// Soft hyphen (U+00AD).
#[must_use]
pub fn is_soft_hyphen(c: char) -> (r: bool)
    ensures
        r == (c == '\u{00AD}'),
{
    c == '\u{00AD}'
}

/// Zero-width space (U+200B) -- explicit break opportunity.
#[must_use]
pub fn is_zero_width_space(c: char) -> (r: bool)
    ensures
        r == (c == '\u{200B}'),
{
    c == '\u{200B}'
}

/// The ranges of [`is_emoji`].
pub open spec fn emoji(c: char) -> bool {
    let cp = c as u32;
    // Emoticons
    ||| 0x1F600 <= cp <= 0x1F64F
    // Misc symbols
    ||| 0x1F300 <= cp <= 0x1F5FF
    // Transport & map
    ||| 0x1F680 <= cp <= 0x1F6FF
    // Supplemental symbols
    ||| 0x1F900 <= cp <= 0x1F9FF
    // Flags
    ||| 0x1FA00 <= cp <= 0x1FA6F
    ||| 0x1FA70 <= cp <= 0x1FAFF
    // Dingbats
    ||| 0x2700 <= cp <= 0x27BF
    // Misc symbols & pictographs
    ||| 0x2600 <= cp <= 0x26FF
}

/// Check if a character is an emoji (simplified detection).
///
/// Covers common emoji ranges for diagnostic metadata. It is not a complete
/// Unicode emoji-property implementation, and no measurement correction is
/// inferred from this classification.
#[must_use]
pub fn is_emoji(c: char) -> (r: bool)
    ensures
        r == emoji(c),
{
    let cp: u32 = c as u32;
    (0x1F600 <= cp && cp <= 0x1F64F)
        || (0x1F300 <= cp && cp <= 0x1F5FF)
        || (0x1F680 <= cp && cp <= 0x1F6FF)
        || (0x1F900 <= cp && cp <= 0x1F9FF)
        || (0x1FA00 <= cp && cp <= 0x1FA6F)
        || (0x1FA70 <= cp && cp <= 0x1FAFF)
        || (0x2700 <= cp && cp <= 0x27BF)
        || (0x2600 <= cp && cp <= 0x26FF)
}

/// The characters with the Unicode property `White_Space`.
pub open spec fn white_space(c: char) -> bool {
    let cp = c as u32;
    ||| 0x09 <= cp <= 0x0D
    ||| cp == 0x20
    ||| cp == 0x85
    ||| cp == 0xA0
    ||| cp == 0x1680
    ||| 0x2000 <= cp <= 0x200A
    ||| cp == 0x2028
    ||| cp == 0x2029
    ||| cp == 0x202F
    ||| cp == 0x205F
    ||| cp == 0x3000
}

/// Check if a character has the Unicode property `White_Space`.
#[must_use]
pub fn is_white_space(c: char) -> (r: bool)
    ensures
        r == white_space(c),
{
    let cp: u32 = c as u32;
    (0x09 <= cp && cp <= 0x0D) || cp == 0x20 || cp == 0x85 || cp == 0xA0 || cp == 0x1680 || (0x2000
        <= cp && cp <= 0x200A) || cp == 0x2028 || cp == 0x2029 || cp == 0x202F || cp == 0x205F || cp
        == 0x3000
}

/// An ASCII letter in lower case, any other character as it is.
pub open spec fn ascii_lower(c: char) -> char {
    if 'A' <= c && c <= 'Z' {
        (c as u8 + 32) as u8 as char
    } else {
        c
    }
}

/// The ASCII letters of a text in lower case.
pub open spec fn ascii_lowered(text: Seq<char>) -> Seq<char> {
    text.map_values(|c: char| ascii_lower(c))
}

/// An ASCII letter in lower case, any other character as it is.
#[must_use]
pub fn to_ascii_lower(c: char) -> (r: char)
    ensures
        r == ascii_lower(c),
{
    if 'A' <= c && c <= 'Z' {
        (c as u8 + 32) as char
    } else {
        c
    }
}

/// The characters with ASCII letters in lower case.
#[must_use]
pub fn lower_chars(chars: &Vec<char>) -> (r: Vec<char>)
    ensures
        r@ == ascii_lowered(chars@),
{
    let mut lower: Vec<char> = Vec::new();
    let mut index: usize = 0;
    while index < chars.len()
        invariant
            index <= chars@.len(),
            lower@ == ascii_lowered(chars@.take(index as int)),
        decreases chars@.len() - index,
    {
        lower.push(to_ascii_lower(chars[index]));
        index += 1;
        proof {
            assert(lower@ =~= ascii_lowered(chars@.take(index as int)));
        }
    }
    proof {
        assert(chars@.take(index as int) =~= chars@);
    }
    lower
}

/// Whether a text starts with `prefix`.
pub open spec fn has_prefix(text: Seq<char>, prefix: Seq<char>) -> bool {
    prefix.len() <= text.len() && text.take(prefix.len() as int) == prefix
}

/// The beginnings by which a URL is recognized.
pub open spec fn url_start(text: Seq<char>) -> bool {
    let lower = ascii_lowered(text);
    has_prefix(lower, "http://"@) || has_prefix(lower, "https://"@) || has_prefix(lower, "www."@)
}

/// Whether the lower-cased characters start with a prefix.
fn starts_with_lowered(chars: &Vec<char>, prefix: &str) -> (r: bool)
    ensures
        r == has_prefix(ascii_lowered(chars@), prefix@),
{
    let expected = chars_of(prefix);
    if chars.len() < expected.len() {
        return false;
    }
    let ghost lower = ascii_lowered(chars@);
    let mut index: usize = 0;
    while index < expected.len()
        invariant
            index <= expected@.len() <= chars@.len(),
            lower == ascii_lowered(chars@),
            expected@ == prefix@,
            forall|k: int| 0 <= k < index ==> lower[k] == expected@[k],
        decreases expected@.len() - index,
    {
        if to_ascii_lower(chars[index]) != expected[index] {
            proof {
                assert(lower.take(expected@.len() as int)[index as int] != expected@[index as int]);
            }
            return false;
        }
        index += 1;
    }
    proof {
        assert(lower.take(expected@.len() as int) =~= expected@);
    }
    true
}

/// Check if a string looks like a URL (starts with `http://`, `https://`, or
/// `www.`, in any case).
#[must_use]
pub fn looks_like_url(s: &str) -> (r: bool)
    ensures
        r == url_start(s@),
{
    let chars = chars_of(s);
    starts_with_lowered(&chars, "http://") || starts_with_lowered(&chars, "https://")
        || starts_with_lowered(&chars, "www.")
}

/// Check if a string contains only ASCII digits, and at least one.
#[must_use]
pub fn is_all_digits(s: &str) -> (r: bool)
    ensures
        r == (s@.len() > 0 && all_digits(s@)),
{
    let chars = chars_of(s);
    if chars.len() == 0 {
        return false;
    }
    let mut index: usize = 0;
    while index < chars.len()
        invariant
            index <= chars@.len(),
            chars@ == s@,
            forall|k: int| 0 <= k < index ==> is_digit(#[trigger] chars@[k]),
        decreases chars@.len() - index,
    {
        if chars[index] < '0' || chars[index] > '9' {
            return false;
        }
        index += 1;
    }
    true
}

} // verus!
