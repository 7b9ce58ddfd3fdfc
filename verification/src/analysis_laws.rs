//! What holds of normalized text.
use crate::analysis::{collapsed, collapsible, normalized_text, with_newlines};
use crate::types::WhiteSpaceMode;
use vstd::prelude::*;

verus! {

/// Whether the only collapsible whitespace of a text is single spaces between
/// other characters.
pub open spec fn tidy(text: Seq<char>) -> bool {
    forall|i: int|
        0 <= i < text.len() && collapsible(#[trigger] text[i]) ==> {
            &&& text[i] == ' '
            &&& 0 < i < text.len() - 1
            &&& !collapsible(text[i - 1])
        }
}

/// Collapsing leaves single spaces between words, and none at either end.
pub proof fn collapsed_text_is_tidy(text: Seq<char>)
    ensures
        tidy(collapsed(text)),
        collapsed(text).len() > 0 ==> !collapsible(collapsed(text).last()),
    decreases text.len(),
{
    if text.len() > 0 {
        let head = text.drop_last();
        let before = collapsed(head);
        collapsed_text_is_tidy(head);
        let after = collapsed(text);
        assert forall|i: int| 0 <= i < after.len() && collapsible(#[trigger] after[i]) implies {
            &&& after[i] == ' '
            &&& 0 < i < after.len() - 1
            &&& !collapsible(after[i - 1])
        } by {
            if i < before.len() {
                assert(after[i] == before[i]);
                assert(i > 0 ==> after[i - 1] == before[i - 1]);
            } else {
                assert(before.len() > 0 ==> after[before.len() - 1] == before.last());
            }
        }
    }
}

proof fn lemma_tidy_prefix(text: Seq<char>, length: int)
    requires
        tidy(text),
        0 <= length <= text.len(),
    ensures
        collapsed(text.take(length)) == if length > 0 && collapsible(text[length - 1]) {
            text.take(length - 1)
        } else {
            text.take(length)
        },
    decreases length,
{
    let prefix = text.take(length);
    if length == 0 {
        assert(prefix =~= Seq::empty());
    } else {
        lemma_tidy_prefix(text, length - 1);
        let head = prefix.drop_last();
        assert(head =~= text.take(length - 1));
        let last = text[length - 1];
        if !collapsible(last) {
            if length > 1 && collapsible(text[length - 2]) {
                assert(head.last() == text[length - 2]);
                assert(text[length - 2] == ' ' && length - 2 > 0);
                assert(text.take(length - 2).push(' ').push(last) =~= prefix);
            } else {
                assert(length > 1 ==> head.last() == text[length - 2]);
                assert(text.take(length - 1).push(last) =~= prefix);
            }
        } else {
            assert(!collapsible(text[length - 2]));
        }
    }
}

/// Text that is tidy collapses to itself.
pub proof fn tidy_text_stays(text: Seq<char>)
    requires
        tidy(text),
    ensures
        collapsed(text) == text,
{
    lemma_tidy_prefix(text, text.len() as int);
    assert(text.take(text.len() as int) =~= text);
}

/// Whether a text has no line ending but `\n`.
pub open spec fn only_newlines(text: Seq<char>) -> bool {
    forall|i: int|
        0 <= i < text.len() ==> #[trigger] text[i] != '\r' && text[i] != '\u{000C}'
}

proof fn lemma_newlines(text: Seq<char>)
    ensures
        only_newlines(with_newlines(text)),
        only_newlines(text) ==> with_newlines(text) == text,
    decreases text.len(),
{
    if text.len() > 0 {
        let head = text.drop_last();
        lemma_newlines(head);
        let before = with_newlines(head);
        let after = with_newlines(text);
        assert forall|i: int| 0 <= i < after.len() implies #[trigger] after[i] != '\r' && after[i]
            != '\u{000C}' by {
            if i < before.len() {
                assert(after[i] == before[i]);
            }
        }
        if only_newlines(text) {
            assert forall|i: int| 0 <= i < head.len() implies #[trigger] head[i] != '\r' && head[i]
                != '\u{000C}' by {
                assert(head[i] == text[i]);
            }
            assert(text.len() > 1 ==> text[text.len() - 2] != '\r');
            assert(text.last() == text[text.len() - 1]);
            assert(head.push(text.last()) =~= text);
        }
    } else {
        assert(with_newlines(text) =~= text);
    }
}

/// Preserving whitespace leaves `\n` as the only line ending.
pub proof fn preserved_text_has_only_newlines(text: Seq<char>)
    ensures
        only_newlines(with_newlines(text)),
{
    lemma_newlines(text);
}

/// Normalizing twice is normalizing once.
pub proof fn normalizing_is_idempotent(text: Seq<char>, mode: WhiteSpaceMode)
    ensures
        normalized_text(normalized_text(text, mode), mode) == normalized_text(text, mode),
{
    match mode {
        WhiteSpaceMode::Normal => {
            collapsed_text_is_tidy(text);
            tidy_text_stays(collapsed(text));
        },
        WhiteSpaceMode::PreWrap => {
            lemma_newlines(text);
            lemma_newlines(with_newlines(text));
        },
    }
}

/// The maximal runs of a text between separators, in order.
pub open spec fn runs(text: Seq<char>, separates: spec_fn(char) -> bool) -> Seq<Seq<char>>
    decreases text.len(),
{
    if text.len() == 0 {
        Seq::empty()
    } else {
        let before = runs(text.drop_last(), separates);
        if separates(text.last()) {
            before
        } else if text.len() > 1 && !separates(text[text.len() - 2]) {
            before.drop_last().push(before.last().push(text.last()))
        } else {
            before.push(seq![text.last()])
        }
    }
}

/// The whitespace between words.
pub open spec fn between_words() -> spec_fn(char) -> bool {
    |c: char| c == ' ' || c == '\t' || c == '\n' || c == '\r' || c == '\u{000C}'
}

/// The space.
pub open spec fn a_space() -> spec_fn(char) -> bool {
    |c: char| c == ' '
}

#[verifier::rlimit(40)]
proof fn lemma_collapsed_words(text: Seq<char>)
    ensures
        runs(collapsed(text), a_space()) == runs(text, between_words()),
        text.len() > 0 && !between_words()(text.last()) ==> collapsed(text).len() > 0
            && collapsed(text).last() == text.last(),
        collapsed(text).len() > 0 ==> !between_words()(collapsed(text).last()),
        collapsed(text).len() == 0 ==> runs(text, between_words()).len() == 0,
    decreases text.len(),
{
    if text.len() > 0 {
        let head = text.drop_last();
        let before = collapsed(head);
        let c = text.last();
        lemma_collapsed_words(head);
        assert(head.len() > 0 ==> head.last() == text[text.len() - 2]);
        if !between_words()(c) {
            if before.len() > 0 && between_words()(head.last()) {
                let spaced = before.push(' ');
                let longer = spaced.push(c);
                assert(longer.drop_last() =~= spaced);
                assert(spaced.drop_last() =~= before);
                assert(longer[longer.len() - 2] == ' ');
                assert(runs(spaced, a_space()) == runs(before, a_space()));
            } else {
                let longer = before.push(c);
                assert(longer.drop_last() =~= before);
                if before.len() > 0 {
                    assert(longer[longer.len() - 2] == before.last());
                }
            }
        }
    }
}

/// Collapsing keeps the words: split at its spaces, a collapsed text is the
/// maximal runs between the whitespace of the text, in order. Two characters
/// that whitespace of any kind stood between have a space between them, and two
/// characters that none stood between have not.
pub proof fn collapsing_keeps_the_words(text: Seq<char>)
    ensures
        runs(normalized_text(text, WhiteSpaceMode::Normal), a_space()) == runs(
            text,
            between_words(),
        ),
{
    lemma_collapsed_words(text);
}

/// Between two words of a collapsed text there is exactly one space, and at its
/// ends there is none: every character is a single space between two words or
/// part of one.
pub proof fn collapsed_words_are_single_spaced(text: Seq<char>, index: int)
    requires
        0 <= index < normalized_text(text, WhiteSpaceMode::Normal).len(),
        between_words()(normalized_text(text, WhiteSpaceMode::Normal)[index]),
    ensures
        ({
            let result = normalized_text(text, WhiteSpaceMode::Normal);
            &&& result[index] == ' '
            &&& 0 < index < result.len() - 1
            &&& !between_words()(result[index - 1])
            &&& !between_words()(result[index + 1])
        }),
{
    collapsed_text_is_tidy(text);
    let result = collapsed(text);
    assert(collapsible(result[index]));
    if collapsible(result[index + 1]) {
        assert(!collapsible(result[index]));
    }
}

/// Whether `ending` is one line ending of the text that it stands in between
/// `before` and `after`, taken as a whole.
pub open spec fn one_ending(before: Seq<char>, ending: Seq<char>, after: Seq<char>) -> bool {
    ||| ending == seq!['\r', '\n']
    ||| ending == seq!['\u{000C}']
    ||| ending == seq!['\n'] && !(before.len() > 0 && before.last() == '\r')
    ||| ending == seq!['\r'] && !(after.len() > 0 && after.first() == '\n')
}

proof fn lemma_newlines_concat(before: Seq<char>, after: Seq<char>)
    requires
        !(before.len() > 0 && after.len() > 0 && before.last() == '\r' && after.first() == '\n'),
    ensures
        with_newlines(before + after) == with_newlines(before) + with_newlines(after),
    decreases after.len(),
{
    if after.len() == 0 {
        assert(before + after =~= before);
        assert(with_newlines(before) + with_newlines(after) =~= with_newlines(before));
    } else {
        let whole = before + after;
        lemma_newlines_concat(before, after.drop_last());
        assert(whole.drop_last() =~= before + after.drop_last());
        if after.len() > 1 {
            assert(whole[whole.len() - 2] == after[after.len() - 2]);
        } else if before.len() > 0 {
            assert(whole[whole.len() - 2] == before.last());
        }
        assert(with_newlines(whole) =~= with_newlines(before) + with_newlines(after));
    }
}

/// Preserving whitespace writes every line ending as one `\n`, whichever of
/// `\r\n`, `\r`, `\n` and form feed it is, and leaves the texts before and
/// behind it to themselves.
pub proof fn every_line_ending_is_one_newline(
    before: Seq<char>,
    ending: Seq<char>,
    after: Seq<char>,
)
    requires
        one_ending(before, ending, after),
    ensures
        normalized_text(before + ending + after, WhiteSpaceMode::PreWrap) == normalized_text(
            before,
            WhiteSpaceMode::PreWrap,
        ) + seq!['\n'] + normalized_text(after, WhiteSpaceMode::PreWrap),
{
    lemma_newlines_concat(before + ending, after);
    lemma_newlines_concat(before, ending);
    assert(with_newlines(Seq::<char>::empty()) =~= Seq::empty());
    if ending.len() == 2 {
        let first = ending.drop_last();
        assert(first =~= seq!['\r']);
        assert(first.drop_last() =~= Seq::empty());
    } else {
        assert(ending.drop_last() =~= Seq::empty());
    }
    reveal_with_fuel(with_newlines, 3);
    assert(with_newlines(ending) =~= seq!['\n']);
}

/// Preserving whitespace leaves a text without other line endings as it is:
/// every space and every tab stays.
pub proof fn preserved_text_stays(text: Seq<char>)
    requires
        only_newlines(text),
    ensures
        normalized_text(text, WhiteSpaceMode::PreWrap) == text,
{
    lemma_newlines(text);
}

} // verus!
