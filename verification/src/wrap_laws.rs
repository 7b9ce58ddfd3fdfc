//! What holds of simple word wrap: the lines hold the words, in order, and each
//! line holds as many of them as it can.
use crate::analysis::{normalized_text, with_newlines};
use crate::analysis_laws::{a_space, every_line_ending_is_one_newline, one_ending, runs};
use crate::gpu_layout::{
    fixed_outcome, full_pieces, hard_break_lines, last_piece_start, newline_split, next_newline,
    paragraph_lines, paragraphs_lines, simple_outcome, unless_empty, words_from, wrapped, Anchor,
    AtlasView, Glyph, TextLayoutConfig,
};
use crate::layout_unit::LayoutUnit;
use crate::scalar::{Coordinate, Scalar};
use crate::text::{lemma_skip_white, lemma_white_from, skip_white, white_from};
use crate::types::WhiteSpaceMode;
use crate::unicode::white_space;
use vstd::prelude::*;

verus! {

// ---- Greedy -----------------------------------------------------------------------------------

/// Whether nothing of `next` up to the end of a word of it still had room on
/// `line`, with a space before it, within `max` characters.
pub open spec fn no_room_for(line: Seq<char>, next: Seq<char>, max: int) -> bool {
    forall|n: int|
        0 <= n <= next.len() && (n == next.len() || next[n] == ' ') ==> line.len() + 1
            + #[trigger] next.take(n).len() > max
}

/// Whether no line of some neighbors had room for a word of the line behind it.
pub open spec fn greedy(lines: Seq<Seq<char>>, max: int) -> bool {
    forall|i: int, j: int|
        0 <= i && j == i + 1 && j < lines.len() ==> no_room_for(
            #[trigger] lines[i],
            #[trigger] lines[j],
            max,
        )
}

proof fn lemma_greedy_concat(head: Seq<Seq<char>>, tail: Seq<Seq<char>>, max: int)
    requires
        greedy(head, max),
        greedy(tail, max),
        head.len() > 0 && tail.len() > 0 ==> no_room_for(head.last(), tail.first(), max),
    ensures
        greedy(head + tail, max),
{
    let lines = head + tail;
    assert forall|i: int, j: int| 0 <= i && j == i + 1 && j < lines.len() implies no_room_for(
        #[trigger] lines[i],
        #[trigger] lines[j],
        max,
    ) by {
        if j < head.len() {
            assert(lines[i] == head[i] && lines[j] == head[j]);
        } else if i >= head.len() {
            assert(lines[i] == tail[i - head.len()] && lines[j] == tail[j - head.len()]);
        } else {
            assert(lines[i] == head.last() && lines[j] == tail.first());
        }
    }
}

/// Whether a text is a word: not empty, and no space in it.
pub open spec fn is_word(text: Seq<char>) -> bool {
    &&& text.len() > 0
    &&& forall|i: int| 0 <= i < text.len() ==> #[trigger] text[i] != ' '
}

proof fn lemma_long_word_has_no_room(line: Seq<char>, next: Seq<char>, word: Seq<char>, max: int)
    requires
        is_word(word),
        word.len() <= next.len(),
        next.take(word.len() as int) == word,
        line.len() + 1 + word.len() > max,
    ensures
        no_room_for(line, next, max),
{
    assert forall|n: int| 0 <= n <= next.len() && (n == next.len() || next[n] == ' ') implies
        line.len() + 1 + #[trigger] next.take(n).len() > max by {
        if n < word.len() {
            assert(next[n] == next.take(word.len() as int)[n]);
        }
    }
}

proof fn lemma_full_line_has_no_room(line: Seq<char>, next: Seq<char>, max: int)
    requires
        line.len() >= max,
    ensures
        no_room_for(line, next, max),
{
}

proof fn lemma_pieces_are_full(word: Seq<char>, from: int, max: int)
    requires
        max > 0,
        0 <= from <= word.len(),
        is_word(word),
    ensures
        greedy(full_pieces(word, from, max), max),
        forall|i: int|
            0 <= i < full_pieces(word, from, max).len() ==> (#[trigger] full_pieces(
                word,
                from,
                max,
            )[i]).len() == max && is_word(full_pieces(word, from, max)[i]),
        from <= last_piece_start(word, from, max) <= word.len(),
        word.len() - from > max ==> full_pieces(word, from, max).len() > 0,
    decreases word.len() - from,
{
    if from + max <= word.len() {
        lemma_pieces_are_full(word, from + max, max);
        let piece = word.subrange(from, from + max);
        let rest = full_pieces(word, from + max, max);
        let pieces = full_pieces(word, from, max);
        assert forall|i: int| 0 <= i < pieces.len() implies (#[trigger] pieces[i]).len() == max
            && is_word(pieces[i]) by {
            if i > 0 {
                assert(pieces[i] == rest[i - 1]);
            } else {
                assert(pieces[0] == piece);
                assert forall|k: int| 0 <= k < piece.len() implies #[trigger] piece[k] != ' ' by {
                    assert(piece[k] == word[from + k]);
                }
            }
        }
        if rest.len() > 0 {
            lemma_full_line_has_no_room(piece, rest.first(), max);
        }
        assert(seq![piece].last() == piece);
        lemma_greedy_concat(seq![piece], rest, max);
    }
}

#[verifier::rlimit(40)]
proof fn lemma_wrapped_is_greedy(words: Seq<Seq<char>>, index: int, current: Seq<char>, max: int)
    requires
        max > 0,
        0 <= index <= words.len(),
        current.len() <= max,
        forall|i: int| 0 <= i < words.len() ==> is_word(#[trigger] words[i]),
    ensures
        greedy(wrapped(words, index, current, max), max),
        current.len() > 0 ==> {
            let lines = wrapped(words, index, current, max);
            &&& lines.len() > 0
            &&& current.len() <= lines[0].len()
            &&& lines[0].take(current.len() as int) == current
        },
    decreases words.len() - index,
{
    let lines = wrapped(words, index, current, max);
    if index >= words.len() {
        assert(current.len() > 0 ==> lines[0].take(current.len() as int) =~= current);
    } else {
        let word = words[index];
        assert(is_word(word));
        if word.len() > max {
            let rest = word.skip(last_piece_start(word, 0, max));
            let pieces = full_pieces(word, 0, max);
            let first = unless_empty(current);
            lemma_pieces_are_full(word, 0, max);
            crate::gpu_laws::lemma_full_pieces(word, 0, max);
            lemma_wrapped_is_greedy(words, index + 1, rest, max);
            let tail = wrapped(words, index + 1, rest, max);
            assert(pieces[0].len() == max && pieces[0].take(max) =~= pieces[0]);
            if current.len() > 0 {
                lemma_long_word_has_no_room(current, pieces[0], pieces[0], max);
            }
            lemma_greedy_concat(first, pieces, max);
            assert((first + pieces).last() == pieces[pieces.len() - 1]);
            if tail.len() > 0 {
                lemma_full_line_has_no_room(pieces[pieces.len() - 1], tail.first(), max);
            }
            lemma_greedy_concat(first + pieces, tail, max);
            assert(current.len() > 0 ==> lines[0] == current);
            assert(current.len() > 0 ==> current.take(current.len() as int) =~= current);
        } else if current.len() == 0 {
            lemma_wrapped_is_greedy(words, index + 1, word, max);
        } else if current.len() + 1 + word.len() <= max {
            let longer = current.push(' ') + word;
            lemma_wrapped_is_greedy(words, index + 1, longer, max);
            assert(lines[0].take(current.len() as int) =~= lines[0].take(longer.len() as int).take(
                current.len() as int,
            ));
            assert(longer.take(current.len() as int) =~= current);
        } else {
            lemma_wrapped_is_greedy(words, index + 1, word, max);
            let tail = wrapped(words, index + 1, word, max);
            lemma_long_word_has_no_room(current, tail[0], word, max);
            lemma_greedy_concat(seq![current], tail, max);
            assert(current.take(current.len() as int) =~= current);
        }
    }
}

// ---- Words ------------------------------------------------------------------------------------

/// The white space that separates words.
pub open spec fn any_white() -> spec_fn(char) -> bool {
    |c: char| white_space(c)
}

proof fn lemma_runs_without(text: Seq<char>, separates: spec_fn(char) -> bool)
    requires
        forall|i: int| 0 <= i < text.len() ==> separates(#[trigger] text[i]),
    ensures
        runs(text, separates) == Seq::<Seq<char>>::empty(),
    decreases text.len(),
{
    if text.len() > 0 {
        lemma_runs_without(text.drop_last(), separates);
    }
}

/// A run behind a separator is a run of its own.
proof fn lemma_runs_push(head: Seq<char>, word: Seq<char>, separates: spec_fn(char) -> bool)
    requires
        head.len() > 0 ==> separates(head.last()),
        word.len() > 0,
        forall|i: int| 0 <= i < word.len() ==> !separates(#[trigger] word[i]),
    ensures
        runs(head + word, separates) == runs(head, separates).push(word),
    decreases word.len(),
{
    let whole = head + word;
    let shorter = word.drop_last();
    assert(whole.drop_last() =~= head + shorter);
    assert(whole.last() == word[word.len() - 1]);
    if shorter.len() == 0 {
        assert(head + shorter =~= head);
        assert(word =~= seq![word.last()]);
        assert(head.len() > 0 ==> whole[whole.len() - 2] == head.last());
    } else {
        assert forall|i: int| 0 <= i < shorter.len() implies !separates(#[trigger] shorter[i]) by {
            assert(shorter[i] == word[i]);
        }
        lemma_runs_push(head, shorter, separates);
        assert(whole[whole.len() - 2] == word[word.len() - 2]);
        let before = runs(head, separates).push(shorter);
        assert(before.drop_last() =~= runs(head, separates));
        assert(shorter.push(word.last()) =~= word);
    }
}

/// Runs before a separator stay as they are.
proof fn lemma_runs_split(head: Seq<char>, tail: Seq<char>, separates: spec_fn(char) -> bool)
    requires
        tail.len() > 0 ==> separates(tail.first()),
    ensures
        runs(head + tail, separates) == runs(head, separates) + runs(tail, separates),
    decreases tail.len(),
{
    if tail.len() == 0 {
        assert(head + tail =~= head);
        assert(runs(head, separates) + runs(tail, separates) =~= runs(head, separates));
    } else {
        let whole = head + tail;
        lemma_runs_split(head, tail.drop_last(), separates);
        assert(whole.drop_last() =~= head + tail.drop_last());
        let a = runs(head, separates);
        let b = runs(tail.drop_last(), separates);
        if !separates(tail.last()) {
            assert(tail.len() > 1);
            assert(whole[whole.len() - 2] == tail[tail.len() - 2]);
            if !separates(tail[tail.len() - 2]) {
                lemma_runs_some(tail.drop_last(), separates);
                assert((a + b).drop_last() =~= a + b.drop_last());
                assert((a + b).last() == b.last());
            }
        }
        assert(runs(whole, separates) =~= a + runs(tail, separates));
    }
}

proof fn lemma_runs_some(text: Seq<char>, separates: spec_fn(char) -> bool)
    requires
        text.len() > 0,
        !separates(text.last()),
    ensures
        runs(text, separates).len() > 0,
    decreases text.len(),
{
    if text.len() > 1 && !separates(text[text.len() - 2]) {
        lemma_runs_some(text.drop_last(), separates);
    }
}

proof fn lemma_white_from_is_word(text: Seq<char>, from: int)
    requires
        0 <= from <= text.len(),
    ensures
        forall|k: int| from <= k < white_from(text, from) ==> !white_space(#[trigger] text[k]),
        white_from(text, from) < text.len() ==> white_space(text[white_from(text, from)]),
    decreases text.len() - from,
{
    if from < text.len() && !white_space(text[from]) {
        lemma_white_from_is_word(text, from + 1);
    }
}

/// The words of a text are its maximal runs between white space.
#[verifier::rlimit(40)]
proof fn lemma_words_are_runs(text: Seq<char>, from: int)
    requires
        0 <= from <= text.len(),
        from == 0 || from == text.len() || white_space(text[from]),
    ensures
        words_from(text, from) == runs(text.skip(from), any_white()),
        forall|i: int|
            0 <= i < words_from(text, from).len() ==> is_word(
                #[trigger] words_from(text, from)[i],
            ),
    decreases text.len() - from,
{
    let start = skip_white(text, from);
    lemma_skip_white(text, from);
    lemma_white_from(text, start);
    lemma_white_from_is_word(text, start);
    let end = white_from(text, start);
    let gap = text.subrange(from, start);
    assert(white_space(' '));
    if start < end {
        let word = text.subrange(start, end);
        let rest = text.skip(end);
        lemma_words_are_runs(text, end);
        lemma_runs_without(gap, any_white());
        lemma_runs_push(gap, word, any_white());
        lemma_runs_split(gap + word, rest, any_white());
        assert(text.skip(from) =~= gap + word + rest);
        assert(runs(gap, any_white()).push(word) =~= seq![word]);
        let words = words_from(text, from);
        assert forall|i: int| 0 <= i < words.len() implies is_word(#[trigger] words[i]) by {
            if i > 0 {
                assert(words[i] == words_from(text, end)[i - 1]);
            } else {
                assert(words[0] == word);
                assert forall|k: int| 0 <= k < word.len() implies #[trigger] word[k] != ' ' by {
                    assert(word[k] == text[start + k]);
                }
            }
        }
    } else {
        assert(text.skip(from) =~= gap);
        lemma_runs_without(gap, any_white());
    }
}

/// A word cut into parts of `max` characters, the last of which may be shorter.
pub open spec fn cut(word: Seq<char>, max: int) -> Seq<Seq<char>>
    decreases word.len(),
{
    if word.len() == 0 {
        Seq::empty()
    } else if word.len() <= max || max <= 0 {
        seq![word]
    } else {
        seq![word.take(max)] + cut(word.skip(max), max)
    }
}

/// Words, those that are too long cut.
pub open spec fn all_cut(words: Seq<Seq<char>>, max: int) -> Seq<Seq<char>>
    decreases words.len(),
{
    if words.len() == 0 {
        Seq::empty()
    } else {
        cut(words.first(), max) + all_cut(words.skip(1), max)
    }
}

/// What stands between the spaces of lines, in order.
pub open spec fn words_of_lines(lines: Seq<Seq<char>>) -> Seq<Seq<char>>
    decreases lines.len(),
{
    if lines.len() == 0 {
        Seq::empty()
    } else {
        words_of_lines(lines.drop_last()) + runs(lines.last(), a_space())
    }
}

proof fn lemma_words_of_lines_concat(head: Seq<Seq<char>>, tail: Seq<Seq<char>>)
    ensures
        words_of_lines(head + tail) == words_of_lines(head) + words_of_lines(tail),
    decreases tail.len(),
{
    if tail.len() == 0 {
        assert(head + tail =~= head);
        assert(words_of_lines(head) + words_of_lines(tail) =~= words_of_lines(head));
    } else {
        lemma_words_of_lines_concat(head, tail.drop_last());
        assert((head + tail).drop_last() =~= head + tail.drop_last());
        assert(words_of_lines(head + tail) =~= words_of_lines(head) + words_of_lines(tail));
    }
}

proof fn lemma_words_of_one(line: Seq<char>)
    ensures
        words_of_lines(seq![line]) == runs(line, a_space()),
{
    reveal_with_fuel(words_of_lines, 2);
    assert(seq![line].drop_last() =~= Seq::empty());
    assert(words_of_lines(seq![line]) =~= runs(line, a_space()));
}

proof fn lemma_one_word(word: Seq<char>)
    requires
        is_word(word),
    ensures
        runs(word, a_space()) == seq![word],
{
    lemma_runs_push(Seq::empty(), word, a_space());
    assert(Seq::<char>::empty() + word =~= word);
    assert(runs(word, a_space()) =~= seq![word]);
}

proof fn lemma_words_of_pieces(pieces: Seq<Seq<char>>)
    requires
        forall|i: int| 0 <= i < pieces.len() ==> is_word(#[trigger] pieces[i]),
    ensures
        words_of_lines(pieces) == pieces,
    decreases pieces.len(),
{
    if pieces.len() > 0 {
        let shorter = pieces.drop_last();
        assert forall|i: int| 0 <= i < shorter.len() implies is_word(#[trigger] shorter[i]) by {
            assert(shorter[i] == pieces[i]);
        }
        lemma_words_of_pieces(shorter);
        lemma_one_word(pieces[pieces.len() - 1]);
        assert(words_of_lines(pieces) =~= pieces);
    } else {
        assert(words_of_lines(pieces) =~= pieces);
    }
}

proof fn lemma_pieces_are_cut(word: Seq<char>, from: int, max: int)
    requires
        max > 0,
        0 <= from <= word.len(),
    ensures
        full_pieces(word, from, max) + unless_empty(word.skip(last_piece_start(word, from, max)))
            == cut(word.skip(from), max),
        from <= last_piece_start(word, from, max) <= word.len(),
    decreases word.len() - from,
{
    let rest = word.skip(from);
    let last = word.skip(last_piece_start(word, from, max));
    if from + max <= word.len() {
        lemma_pieces_are_cut(word, from + max, max);
        assert(word.subrange(from, from + max) =~= rest.take(max));
        assert(word.skip(from + max) =~= rest.skip(max));
        if rest.len() == max {
            assert(rest.take(max) =~= rest);
            assert(cut(rest.skip(max), max) =~= Seq::empty());
        }
        assert(full_pieces(word, from, max) + unless_empty(last) =~= seq![rest.take(max)] + (
        full_pieces(word, from + max, max) + unless_empty(last)));
        assert(seq![rest.take(max)] + cut(rest.skip(max), max) =~= cut(rest, max));
    } else {
        assert(full_pieces(word, from, max) + unless_empty(last) =~= cut(rest, max));
    }
}

#[verifier::rlimit(40)]
proof fn lemma_wrapped_words(words: Seq<Seq<char>>, index: int, current: Seq<char>, max: int)
    requires
        max > 0,
        0 <= index <= words.len(),
        forall|i: int| 0 <= i < words.len() ==> is_word(#[trigger] words[i]),
    ensures
        words_of_lines(wrapped(words, index, current, max)) == runs(current, a_space()) + all_cut(
            words.skip(index),
            max,
        ),
    decreases words.len() - index,
{
    let before = runs(current, a_space());
    if index >= words.len() {
        assert(words.skip(index) =~= Seq::empty());
        lemma_words_of_one(current);
        assert(words_of_lines(wrapped(words, index, current, max)) =~= before + all_cut(
            words.skip(index),
            max,
        ));
    } else {
        let word = words[index];
        let later = words.skip(index + 1);
        assert(is_word(word));
        assert(words.skip(index).first() == word);
        assert(words.skip(index).skip(1) =~= later);
        let expected = before + (cut(word, max) + all_cut(later, max));
        if word.len() > max {
            let rest = word.skip(last_piece_start(word, 0, max));
            let pieces = full_pieces(word, 0, max);
            let tail = wrapped(words, index + 1, rest, max);
            lemma_pieces_are_full(word, 0, max);
            lemma_pieces_are_cut(word, 0, max);
            lemma_words_of_pieces(pieces);
            lemma_wrapped_words(words, index + 1, rest, max);
            lemma_words_of_lines_concat(unless_empty(current) + pieces, tail);
            lemma_words_of_lines_concat(unless_empty(current), pieces);
            lemma_words_of_one(current);
            assert(words_of_lines(unless_empty(current)) =~= before);
            assert(word.skip(0) =~= word);
            if rest.len() > 0 {
                assert forall|k: int| 0 <= k < rest.len() implies #[trigger] rest[k] != ' ' by {
                    assert(rest[k] == word[last_piece_start(word, 0, max) + k]);
                }
                lemma_one_word(rest);
            } else {
                assert(runs(rest, a_space()) =~= Seq::empty());
            }
            assert(runs(rest, a_space()) == unless_empty(rest));
            assert(words_of_lines(wrapped(words, index, current, max)) =~= before + ((pieces
                + unless_empty(rest)) + all_cut(later, max)));
        } else {
            assert(cut(word, max) =~= seq![word]);
            if current.len() == 0 {
                lemma_wrapped_words(words, index + 1, word, max);
                lemma_one_word(word);
                assert(before =~= Seq::empty());
                assert(words_of_lines(wrapped(words, index, current, max)) =~= expected);
            } else if current.len() + 1 + word.len() <= max {
                let spaced = current.push(' ');
                lemma_wrapped_words(words, index + 1, spaced + word, max);
                lemma_runs_push(spaced, word, a_space());
                assert(spaced.drop_last() =~= current);
                assert(runs(spaced, a_space()) == before);
                assert(words_of_lines(wrapped(words, index, current, max)) =~= expected);
            } else {
                let tail = wrapped(words, index + 1, word, max);
                lemma_wrapped_words(words, index + 1, word, max);
                lemma_one_word(word);
                lemma_words_of_lines_concat(seq![current], tail);
                lemma_words_of_one(current);
                assert(words_of_lines(wrapped(words, index, current, max)) =~= expected);
            }
        }
    }
}

/// Simple wrap is greedy: of two neighboring lines of a paragraph, the first
/// one, a space and the first word of the second one are together longer than
/// a line may be.
pub proof fn simple_wrap_is_greedy(paragraph: Seq<char>, max: int)
    requires
        max > 0,
    ensures
        greedy(paragraph_lines(paragraph, max), max),
{
    lemma_words_are_runs(paragraph, 0);
    lemma_wrapped_is_greedy(words_from(paragraph, 0), 0, Seq::empty(), max);
}

/// Simple wrap keeps the words apart and in order: what stands between the
/// spaces of the lines is what stands between the white space of the paragraph,
/// one for one, where a word longer than a line is cut into lines.
pub proof fn simple_wrap_keeps_words_apart(paragraph: Seq<char>, max: int)
    requires
        max > 0,
    ensures
        words_of_lines(paragraph_lines(paragraph, max)) == all_cut(
            runs(paragraph, any_white()),
            max,
        ),
{
    let words = words_from(paragraph, 0);
    lemma_words_are_runs(paragraph, 0);
    assert(paragraph.skip(0) =~= paragraph);
    if words.len() == 0 {
        lemma_words_of_one(Seq::empty());
        assert(words_of_lines(paragraph_lines(paragraph, max)) =~= Seq::empty());
        assert(all_cut(words, max) =~= Seq::empty());
    } else {
        lemma_wrapped_words(words, 0, Seq::empty(), max);
        assert(words.skip(0) =~= words);
        assert(runs(Seq::<char>::empty(), a_space()) + all_cut(words, max) =~= all_cut(
            words,
            max,
        ));
    }
}

// ---- Paragraphs -------------------------------------------------------------------------------

proof fn lemma_next_newline_before(text: Seq<char>, from: int)
    requires
        0 <= from <= text.len(),
    ensures
        from <= next_newline(text, from) <= text.len(),
        forall|k: int| from <= k < next_newline(text, from) ==> #[trigger] text[k] != '\n',
        next_newline(text, from) < text.len() ==> text[next_newline(text, from)] == '\n',
    decreases text.len() - from,
{
    if from < text.len() && text[from] != '\n' {
        lemma_next_newline_before(text, from + 1);
    }
}

proof fn lemma_same_newline(text: Seq<char>, whole: Seq<char>, offset: int, from: int)
    requires
        0 <= from <= text.len(),
        0 <= offset,
        offset + text.len() <= whole.len(),
        whole.subrange(offset, offset + text.len()) == text,
        offset + text.len() == whole.len() || whole[offset + text.len()] == '\n',
    ensures
        next_newline(whole, offset + from) == offset + next_newline(text, from),
    decreases text.len() - from,
{
    if from < text.len() {
        assert(whole.subrange(offset, offset + text.len())[from] == whole[offset + from]);
        if text[from] != '\n' {
            lemma_same_newline(text, whole, offset, from + 1);
        }
    }
}

/// A text that ends where the whole does, or before a newline of it, is split as
/// it is in the whole.
#[verifier::rlimit(40)]
proof fn lemma_split_within(text: Seq<char>, whole: Seq<char>, offset: int, from: int)
    requires
        0 <= from <= text.len(),
        0 <= offset,
        offset + text.len() <= whole.len(),
        whole.subrange(offset, offset + text.len()) == text,
        offset + text.len() == whole.len() || whole[offset + text.len()] == '\n',
    ensures
        newline_split(whole, offset + from) == newline_split(text, from) + if offset + text.len()
            == whole.len() {
            Seq::empty()
        } else {
            newline_split(whole, offset + text.len() + 1)
        },
    decreases text.len() - from,
{
    lemma_same_newline(text, whole, offset, from);
    lemma_next_newline_before(text, from);
    let end = next_newline(text, from);
    let behind = if offset + text.len() == whole.len() {
        Seq::empty()
    } else {
        newline_split(whole, offset + text.len() + 1)
    };
    assert(whole.subrange(offset + from, offset + end) =~= text.subrange(from, end)) by {
        assert forall|k: int| from <= k < end implies whole[offset + k] == #[trigger] text[k] by {
            assert(whole.subrange(offset, offset + text.len())[k] == whole[offset + k]);
        }
    }
    if end < text.len() {
        lemma_split_within(text, whole, offset, end + 1);
        assert(newline_split(whole, offset + from) =~= newline_split(text, from) + behind);
    } else {
        assert(newline_split(whole, offset + from) =~= newline_split(text, from) + behind);
    }
}

/// A label is cut at its line endings and nowhere else: every line ending,
/// whichever of `\r\n`, `\r`, `\n` and form feed it is, ends one line and starts
/// the next one.
pub proof fn labels_are_cut_at_line_endings(
    before: Seq<char>,
    ending: Seq<char>,
    after: Seq<char>,
)
    requires
        one_ending(before, ending, after),
    ensures
        hard_break_lines(before + ending + after) == hard_break_lines(before) + hard_break_lines(
            after,
        ),
{
    every_line_ending_is_one_newline(before, ending, after);
    let a = normalized_text(before, WhiteSpaceMode::PreWrap);
    let b = normalized_text(after, WhiteSpaceMode::PreWrap);
    let whole = a + seq!['\n'] + b;
    assert(whole == with_newlines(before + ending + after));
    assert(whole.subrange(0, a.len() as int) =~= a);
    lemma_split_within(a, whole, 0, 0);
    let offset = a.len() as int + 1;
    assert(whole.subrange(offset, offset + b.len()) =~= b);
    lemma_split_within(b, whole, offset, 0);
    assert(newline_split(b, 0) + Seq::<Seq<char>>::empty() =~= newline_split(b, 0));
}

/// A label without line endings is one line.
pub proof fn a_label_without_line_endings_is_one_line(text: Seq<char>)
    requires
        forall|i: int|
            0 <= i < text.len() ==> #[trigger] text[i] != '\n' && text[i] != '\r' && text[i]
                != '\u{000C}',
    ensures
        hard_break_lines(text) == seq![text],
{
    crate::analysis_laws::preserved_text_stays(text);
    lemma_next_newline_before(text, 0);
    assert(text.subrange(0, text.len() as int) =~= text);
}

// ---- The width --------------------------------------------------------------------------------

/// Whether a label is wrapped at so many characters to a line: as many as fit
/// beside each other on the width, one at least.
pub open spec fn fills_the_width(max: int, glyph_width: LayoutUnit, width: LayoutUnit) -> bool {
    &&& max >= 1
    &&& max * glyph_width.raw <= width.raw || max == 1
    &&& width.raw < (max + 1) * glyph_width.raw
}

/// A label with simple word wrap is wrapped at its width: its rows are the
/// wrapped lines of as many characters as fit on the width beside each other.
pub proof fn simple_labels_are_wrapped_at_the_width(
    atlas: AtlasView,
    anchor: Anchor<LayoutUnit>,
    text: Seq<char>,
    config: TextLayoutConfig<LayoutUnit>,
    width: LayoutUnit,
    glyphs: Seq<Glyph<LayoutUnit>>,
) -> (max: int)
    requires
        simple_outcome(atlas, anchor, text, config, Ok(glyphs)),
        config.max_width == Some(width),
        0 <= width.raw <= u32::MAX,
        anchor.font_size.times(config.glyph_advance).raw > 0,
    ensures
        fills_the_width(max, anchor.font_size.times(config.glyph_advance), width),
        fixed_outcome(
            atlas,
            anchor,
            paragraphs_lines(hard_break_lines(text), max),
            config,
            Ok(glyphs),
        ),
{
    let glyph_width = anchor.font_size.times(config.glyph_advance);
    let w = width.raw as int;
    let g = glyph_width.raw as int;
    let quotient = (w * 4800) / g;
    let fitting = quotient / 4800;
    assert(0 <= quotient <= w * 4800) by (nonlinear_arith)
        requires
            w >= 0,
            g >= 1,
            quotient == (w * 4800) / g,
    ;
    assert(fitting * g <= w < (fitting + 1) * g) by (nonlinear_arith)
        requires
            w >= 0,
            g >= 1,
            quotient == (w * 4800) / g,
            fitting == quotient / 4800,
            quotient >= 0,
    {
        assert(quotient * g <= w * 4800 < (quotient + 1) * g);
        assert(fitting * 4800 <= quotient < (fitting + 1) * 4800);
        assert(fitting * 4800 * g <= quotient * g);
        assert((quotient + 1) * g <= (fitting + 1) * 4800 * g);
    }
    assert(fitting <= w) by (nonlinear_arith)
        requires
            fitting * g <= w,
            g >= 1,
            fitting >= 0,
    ;
    assert(width.over(glyph_width).whole() == fitting);
    let max = if fitting < 1 {
        1
    } else {
        fitting
    };
    assert(w < (max + 1) * g) by (nonlinear_arith)
        requires
            w < (fitting + 1) * g,
            max >= fitting,
            g >= 1,
    ;
    max
}

} // verus!
