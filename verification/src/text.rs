//! Strings as sequences of characters.
use crate::unicode::{is_white_space, white_space};
use vstd::prelude::*;

verus! {

/// `String::push` of the standard library appends one character.
pub assume_specification[ std::string::String::push ](string: &mut String, character: char)
    ensures
        final(string)@ == old(string)@.push(character),
;

/// The characters of each string.
pub open spec fn views(strings: Seq<String>) -> Seq<Seq<char>> {
    strings.map_values(|s: String| s@)
}

/// The pieces, one after the other.
pub open spec fn joined(pieces: Seq<Seq<char>>) -> Seq<char>
    decreases pieces.len(),
{
    if pieces.len() == 0 {
        Seq::empty()
    } else {
        joined(pieces.drop_last()) + pieces.last()
    }
}

/// The characters of a string.
pub fn chars_of(text: &str) -> (r: Vec<char>)
    ensures
        r@ == text@,
{
    let mut chars: Vec<char> = Vec::new();
    for c in it: text.chars()
        invariant
            chars@ == text@.take(it.index() as int),
            it.seq() == text@,
    {
        proof {
            assert(text@.take(it.index() + 1) =~= text@.take(it.index() as int).push(c));
        }
        chars.push(c);
    }
    proof {
        assert(text@.take(text@.len() as int) =~= text@);
    }
    chars
}

/// Append a run of characters to a string.
pub fn push_chars(string: &mut String, chars: &Vec<char>, from: usize, to: usize)
    requires
        from <= to <= chars@.len(),
    ensures
        final(string)@ == old(string)@ + chars@.subrange(from as int, to as int),
{
    let ghost before = string@;
    let mut index: usize = from;
    proof {
        assert(before + chars@.subrange(from as int, from as int) =~= before);
    }
    while index < to
        invariant
            from <= index <= to <= chars@.len(),
            string@ == before + chars@.subrange(from as int, index as int),
        decreases to - index,
    {
        proof {
            assert((before + chars@.subrange(from as int, index as int)).push(chars@[index as int])
                =~= before + chars@.subrange(from as int, index + 1));
        }
        string.push(chars[index]);
        index += 1;
    }
}

/// The string of a run of characters.
pub fn string_of(chars: &Vec<char>, from: usize, to: usize) -> (r: String)
    requires
        from <= to <= chars@.len(),
    ensures
        r@ == chars@.subrange(from as int, to as int),
{
    let mut string = String::new();
    push_chars(&mut string, chars, from, to);
    proof {
        assert(string@ =~= chars@.subrange(from as int, to as int));
    }
    string
}

pub proof fn lemma_joined_concat(head: Seq<Seq<char>>, tail: Seq<Seq<char>>)
    ensures
        joined(head + tail) == joined(head) + joined(tail),
    decreases tail.len(),
{
    if tail.len() == 0 {
        assert(head + tail =~= head);
        assert(joined(head) + joined(tail) =~= joined(head));
    } else {
        assert((head + tail).drop_last() =~= head + tail.drop_last());
        lemma_joined_concat(head, tail.drop_last());
        assert(joined(head + tail) =~= joined(head) + joined(tail));
    }
}

pub proof fn lemma_joined_one(piece: Seq<char>)
    ensures
        joined(seq![piece]) == piece,
{
    assert(seq![piece].drop_last() =~= Seq::<Seq<char>>::empty());
    assert(joined(seq![piece].drop_last()) =~= Seq::empty());
    assert(joined(seq![piece]) =~= piece);
}

// ---- Whitespace at the ends ----------------------------------------------------

/// The first index from `from` on that does not hold whitespace.
pub open spec fn skip_white(text: Seq<char>, from: int) -> int
    decreases text.len() - from,
{
    if 0 <= from < text.len() && white_space(text[from]) {
        skip_white(text, from + 1)
    } else {
        from
    }
}

/// The first index from `from` on that holds whitespace, or the length.
pub open spec fn white_from(text: Seq<char>, from: int) -> int
    decreases text.len() - from,
{
    if 0 <= from < text.len() && !white_space(text[from]) {
        white_from(text, from + 1)
    } else {
        from
    }
}

/// The end of a text without its trailing whitespace, not before `from`.
pub open spec fn white_end(text: Seq<char>, from: int, to: int) -> int
    decreases to - from,
{
    if from < to <= text.len() && white_space(text[to - 1]) {
        white_end(text, from, to - 1)
    } else {
        to
    }
}

/// A text without whitespace at its start.
pub open spec fn trimmed_start(text: Seq<char>) -> Seq<char> {
    text.skip(skip_white(text, 0))
}

/// A text without whitespace at its ends.
pub open spec fn trimmed(text: Seq<char>) -> Seq<char> {
    let start = skip_white(text, 0);
    text.subrange(start, white_end(text, start, text.len() as int))
}

pub proof fn lemma_skip_white(text: Seq<char>, from: int)
    requires
        0 <= from <= text.len(),
    ensures
        from <= skip_white(text, from) <= text.len(),
        forall|k: int| from <= k < skip_white(text, from) ==> white_space(#[trigger] text[k]),
        skip_white(text, from) < text.len() ==> !white_space(text[skip_white(text, from)]),
    decreases text.len() - from,
{
    if from < text.len() && white_space(text[from]) {
        lemma_skip_white(text, from + 1);
    }
}

pub proof fn lemma_white_from(text: Seq<char>, from: int)
    requires
        0 <= from <= text.len(),
    ensures
        from <= white_from(text, from) <= text.len(),
        from < text.len() && !white_space(text[from]) ==> from < white_from(text, from),
    decreases text.len() - from,
{
    if from < text.len() && !white_space(text[from]) {
        lemma_white_from(text, from + 1);
    }
}

pub proof fn lemma_white_end(text: Seq<char>, from: int, to: int)
    requires
        0 <= from <= to <= text.len(),
    ensures
        from <= white_end(text, from, to) <= to,
    decreases to - from,
{
    if from < to && white_space(text[to - 1]) {
        lemma_white_end(text, from, to - 1);
    }
}

/// The first index from `from` on that does not hold whitespace.
pub fn skip_whitespace(chars: &Vec<char>, from: usize) -> (r: usize)
    requires
        from <= chars@.len(),
    ensures
        r == skip_white(chars@, from as int),
        from <= r <= chars@.len(),
{
    let mut index: usize = from;
    while index < chars.len() && is_white_space(chars[index])
        invariant
            from <= index <= chars@.len(),
            skip_white(chars@, from as int) == skip_white(chars@, index as int),
        decreases chars@.len() - index,
    {
        index += 1;
    }
    index
}

/// The first index from `from` on that holds whitespace, or the length.
pub fn find_whitespace(chars: &Vec<char>, from: usize) -> (r: usize)
    requires
        from <= chars@.len(),
    ensures
        r == white_from(chars@, from as int),
        from <= r <= chars@.len(),
{
    let mut index: usize = from;
    while index < chars.len() && !is_white_space(chars[index])
        invariant
            from <= index <= chars@.len(),
            white_from(chars@, from as int) == white_from(chars@, index as int),
        decreases chars@.len() - index,
    {
        index += 1;
    }
    index
}

/// A run of characters.
pub fn slice_of(chars: &Vec<char>, from: usize, to: usize) -> (r: Vec<char>)
    requires
        from <= to <= chars@.len(),
    ensures
        r@ == chars@.subrange(from as int, to as int),
{
    let mut part: Vec<char> = Vec::new();
    let mut index: usize = from;
    while index < to
        invariant
            from <= index <= to <= chars@.len(),
            part@ == chars@.subrange(from as int, index as int),
        decreases to - index,
    {
        part.push(chars[index]);
        index += 1;
        proof {
            assert(part@ =~= chars@.subrange(from as int, index as int));
        }
    }
    part
}

/// Characters without whitespace at either end.
pub fn trim_chars(chars: &Vec<char>) -> (r: Vec<char>)
    ensures
        r@ == trimmed(chars@),
{
    let start = skip_whitespace(chars, 0);
    let mut end: usize = chars.len();
    while end > start && is_white_space(chars[end - 1])
        invariant
            start <= end <= chars@.len(),
            white_end(chars@, start as int, chars@.len() as int) == white_end(
                chars@,
                start as int,
                end as int,
            ),
        decreases end,
    {
        end -= 1;
    }
    slice_of(chars, start, end)
}

/// Whether characters spell a string.
pub fn spells(chars: &Vec<char>, text: &str) -> (r: bool)
    ensures
        r == (chars@ == text@),
{
    let expected = chars_of(text);
    if chars.len() != expected.len() {
        return false;
    }
    let mut index: usize = 0;
    while index < chars.len()
        invariant
            index <= chars@.len() == expected@.len(),
            expected@ == text@,
            forall|k: int| 0 <= k < index ==> chars@[k] == expected@[k],
        decreases chars@.len() - index,
    {
        if chars[index] != expected[index] {
            return false;
        }
        index += 1;
    }
    proof {
        assert(chars@ =~= text@);
    }
    true
}

/// Whether a text ends with `suffix`.
pub open spec fn has_suffix(text: Seq<char>, suffix: Seq<char>) -> bool {
    suffix.len() <= text.len() && text.skip(text.len() - suffix.len()) == suffix
}

/// A text without its last `count` characters.
pub open spec fn without_last(text: Seq<char>, count: nat) -> Seq<char> {
    text.take(text.len() - count)
}

/// The characters before `suffix`, where the text ends with it.
pub fn strip_suffix(chars: &Vec<char>, suffix: &str) -> (r: Option<Vec<char>>)
    ensures
        match r {
            Some(rest) => has_suffix(chars@, suffix@) && rest@ == without_last(
                chars@,
                suffix@.len(),
            ),
            None => !has_suffix(chars@, suffix@),
        },
{
    let expected = chars_of(suffix);
    if chars.len() < expected.len() {
        return None;
    }
    let start: usize = chars.len() - expected.len();
    let tail = slice_of(chars, start, chars.len());
    proof {
        assert(tail@ =~= chars@.skip(start as int));
    }
    if spells(&tail, suffix) {
        let rest = slice_of(chars, 0, start);
        proof {
            assert(rest@ =~= without_last(chars@, suffix@.len()));
        }
        Some(rest)
    } else {
        None
    }
}

} // verus!
