//! What holds of the segments of a text: controls and blanks stay what they
//! are, punctuation keeps to the word that it belongs to, URLs and numbers stay
//! whole, and nothing else is put together.
use crate::analysis::{
    all_chars, connective_piece, digit_piece, fuse, fused_run, joins, lemma_numeric_end,
    lemma_single, lemma_url_end, lemma_url_seed, merged, merging_is_sound, numeric_end,
    numeric_merged, proper, refined, run_merging_is_sound, sound, texts_of, url_end, url_extension,
    url_merged, url_seed, MergeRule, Piece,
};
use crate::segmentation::alphanumeric;
use crate::text::{joined, lemma_joined_concat};
use crate::types::SegmentKind;
use crate::unicode::url_start;
use vstd::prelude::*;

verus! {

// ---- Controls -----------------------------------------------------------------------------------

/// A control is a segment of its own, of the kind that it stands for: U+00AD is
/// a soft hyphen, U+200B a zero-width break, and U+00A0, U+202F, U+2060 and
/// U+FEFF are glue. No segment of another kind holds one, a hard break is a
/// newline and a tab a tab.
pub proof fn controls_stand_alone(pieces: Seq<Piece>, text: Seq<char>, index: int, place: int)
    requires
        sound(pieces, text),
        0 <= index < pieces.len(),
        0 <= place < pieces[index].text.len(),
    ensures
        ({
            let piece = pieces[index];
            let c = piece.text[place];
            let soft = c == '\u{00AD}';
            let zero_width = c == '\u{200B}';
            let glue = c == '\u{00A0}' || c == '\u{202F}' || c == '\u{2060}' || c == '\u{FEFF}';
            &&& soft == (piece.kind == SegmentKind::SoftHyphen)
            &&& zero_width == (piece.kind == SegmentKind::ZeroWidthBreak)
            &&& glue == (piece.kind == SegmentKind::Glue)
            &&& soft || zero_width || glue ==> piece.text.len() == 1
            &&& piece.kind == SegmentKind::HardBreak ==> piece.text == seq!['\n']
            &&& piece.kind == SegmentKind::Tab ==> piece.text == seq!['\t']
        }),
{
    assert(proper(pieces[index]));
}

/// The pieces that are not text, in order.
pub open spec fn without_text(pieces: Seq<Piece>) -> Seq<Piece>
    decreases pieces.len(),
{
    if pieces.len() == 0 {
        Seq::empty()
    } else if pieces.last().kind == SegmentKind::Text {
        without_text(pieces.drop_last())
    } else {
        without_text(pieces.drop_last()).push(pieces.last())
    }
}

proof fn lemma_without_text_concat(head: Seq<Piece>, tail: Seq<Piece>)
    ensures
        without_text(head + tail) == without_text(head) + without_text(tail),
    decreases tail.len(),
{
    if tail.len() == 0 {
        assert(head + tail =~= head);
        assert(without_text(head) + without_text(tail) =~= without_text(head));
    } else {
        lemma_without_text_concat(head, tail.drop_last());
        assert((head + tail).drop_last() =~= head + tail.drop_last());
        assert(without_text(head + tail) =~= without_text(head) + without_text(tail));
    }
}

proof fn lemma_merging_keeps_the_rest(pieces: Seq<Piece>, rule: MergeRule)
    ensures
        without_text(merged(pieces, rule)) == without_text(pieces),
    decreases pieces.len(),
{
    if pieces.len() > 0 {
        let before = merged(pieces.drop_last(), rule);
        let piece = pieces.last();
        lemma_merging_keeps_the_rest(pieces.drop_last(), rule);
        if before.len() > 0 && joins(rule, before.last(), pieces[pieces.len() - 2], piece) {
            let longer = before.drop_last().push(fuse(rule, before.last(), piece));
            assert(longer.drop_last() =~= before.drop_last());
        } else {
            assert(before.push(piece).drop_last() =~= before);
        }
    }
}

proof fn lemma_one_without_text(piece: Piece)
    ensures
        without_text(seq![piece]) == if piece.kind == SegmentKind::Text {
            Seq::empty()
        } else {
            seq![piece]
        },
{
    reveal_with_fuel(without_text, 2);
    assert(seq![piece].drop_last() =~= Seq::empty());
    assert(without_text(seq![piece]) =~= if piece.kind == SegmentKind::Text {
        Seq::empty()
    } else {
        seq![piece]
    });
}

proof fn lemma_only_text(pieces: Seq<Piece>, from: int, to: int)
    requires
        0 <= from <= to <= pieces.len(),
        forall|k: int| from <= k < to ==> (#[trigger] pieces[k]).kind == SegmentKind::Text,
    ensures
        without_text(pieces.skip(from)) == without_text(pieces.skip(to)),
    decreases to - from,
{
    if from < to {
        lemma_only_text(pieces, from + 1, to);
        assert(pieces.skip(from) =~= seq![pieces[from]] + pieces.skip(from + 1));
        lemma_without_text_concat(seq![pieces[from]], pieces.skip(from + 1));
        lemma_one_without_text(pieces[from]);
        assert(Seq::<Piece>::empty() + without_text(pieces.skip(from + 1)) =~= without_text(
            pieces.skip(from + 1),
        ));
    }
}

proof fn lemma_urls_keep_the_rest(pieces: Seq<Piece>, from: int)
    requires
        0 <= from <= pieces.len(),
    ensures
        without_text(url_merged(pieces, from)) == without_text(pieces.skip(from)),
    decreases pieces.len() - from,
{
    if from >= pieces.len() {
        assert(pieces.skip(from) =~= Seq::empty());
    } else {
        lemma_url_seed(pieces, from, 1);
        match url_seed(pieces, from, 1) {
            Some(count) => {
                lemma_url_end(pieces, from + count);
                let end = url_end(pieces, from + count);
                let front = fused_run(pieces, from, end);
                lemma_urls_keep_the_rest(pieces, end);
                lemma_only_text(pieces, from, end);
                lemma_without_text_concat(seq![front], url_merged(pieces, end));
                lemma_one_without_text(front);
                assert(pieces[from].kind == SegmentKind::Text);
                assert(Seq::<Piece>::empty() + without_text(url_merged(pieces, end))
                    =~= without_text(url_merged(pieces, end)));
            },
            None => {
                lemma_urls_keep_the_rest(pieces, from + 1);
                lemma_without_text_concat(seq![pieces[from]], url_merged(pieces, from + 1));
                lemma_without_text_concat(seq![pieces[from]], pieces.skip(from + 1));
                assert(pieces.skip(from) =~= seq![pieces[from]] + pieces.skip(from + 1));
            },
        }
    }
}

proof fn lemma_numbers_keep_the_rest(pieces: Seq<Piece>, from: int)
    requires
        0 <= from <= pieces.len(),
    ensures
        without_text(numeric_merged(pieces, from)) == without_text(pieces.skip(from)),
    decreases pieces.len() - from,
{
    if from >= pieces.len() {
        assert(pieces.skip(from) =~= Seq::empty());
    } else if digit_piece(pieces[from]) {
        lemma_numeric_end(pieces, from + 1);
        let end = numeric_end(pieces, from + 1);
        let front = fused_run(pieces, from, end);
        lemma_numbers_keep_the_rest(pieces, end);
        lemma_only_text(pieces, from, end);
        lemma_without_text_concat(seq![front], numeric_merged(pieces, end));
        lemma_one_without_text(front);
        assert(Seq::<Piece>::empty() + without_text(numeric_merged(pieces, end)) =~= without_text(
            numeric_merged(pieces, end),
        ));
    } else {
        lemma_numbers_keep_the_rest(pieces, from + 1);
        lemma_without_text_concat(seq![pieces[from]], numeric_merged(pieces, from + 1));
        lemma_without_text_concat(seq![pieces[from]], pieces.skip(from + 1));
        assert(pieces.skip(from) =~= seq![pieces[from]] + pieces.skip(from + 1));
    }
}

/// Only text is put together: blanks, tabs, breaks, hyphens and glue come out as
/// they went in, one for one and in order.
pub proof fn only_text_is_put_together(initial: Seq<Piece>)
    ensures
        without_text(refined(initial)) == without_text(initial),
{
    let urls = url_merged(initial, 0);
    let numbers = numeric_merged(urls, 0);
    let left = merged(numbers, MergeRule::LeftSticky);
    let forward = merged(left, MergeRule::ForwardSticky);
    let end = merged(forward, MergeRule::KinsokuEnd);
    lemma_urls_keep_the_rest(initial, 0);
    assert(initial.skip(0) =~= initial);
    lemma_numbers_keep_the_rest(urls, 0);
    assert(urls.skip(0) =~= urls);
    lemma_merging_keeps_the_rest(numbers, MergeRule::LeftSticky);
    lemma_merging_keeps_the_rest(left, MergeRule::ForwardSticky);
    lemma_merging_keeps_the_rest(forward, MergeRule::KinsokuEnd);
    lemma_merging_keeps_the_rest(end, MergeRule::KinsokuStart);
}

// ---- Punctuation --------------------------------------------------------------------------------

/// Punctuation that belongs to the word before it.
pub open spec fn trails(c: char) -> bool {
    match c {
        '.' | ',' | ':' | ';' | '!' | '?' | ')' | ']' | '}' | '"' | '\'' | '%' => true,
        // A right single and a right double quotation mark.
        '\u{2019}' | '\u{201D}' => true,
        // An ellipsis and a degree sign.
        '\u{2026}' | '\u{00B0}' => true,
        _ => false,
    }
}

/// Punctuation that belongs to the word behind it.
pub open spec fn leads(c: char) -> bool {
    match c {
        '(' | '[' | '{' | '"' | '\'' | '$' => true,
        // A left single and a left double quotation mark.
        '\u{2018}' | '\u{201C}' => true,
        // The signs of pound, yen and euro.
        '\u{00A3}' | '\u{00A5}' | '\u{20AC}' => true,
        _ => false,
    }
}

/// Whether a character must not start a line: closing brackets and quotation
/// marks, fullwidth punctuation, small kana, and the marks of long and repeated
/// sounds.
pub open spec fn never_starts(c: char) -> bool {
    let cp = c as u32;
    // Ideographic comma and full stop, fullwidth comma and full stop.
    ||| cp == 0x3001 || cp == 0x3002 || cp == 0xFF0C || cp == 0xFF0E
    // Fullwidth exclamation and question mark, colon and semicolon.
    ||| cp == 0xFF01 || cp == 0xFF1F || cp == 0xFF1A || cp == 0xFF1B
    // Closing brackets.
    ||| cp == 0xFF09 || cp == 0xFF3D || cp == 0xFF5D || cp == 0x3015 || cp == 0x3009 || cp == 0x300B
    ||| cp == 0x300D || cp == 0x300F || cp == 0x3011 || cp == 0x3017 || cp == 0x3019 || cp == 0x301B
    // Closing quotation marks.
    ||| cp == 0x2019 || cp == 0x201D
    // Small hiragana.
    ||| cp == 0x3041 || cp == 0x3043 || cp == 0x3045 || cp == 0x3047 || cp == 0x3049
    ||| cp == 0x3063 || cp == 0x3083 || cp == 0x3085 || cp == 0x3087 || cp == 0x308E
    // Small katakana.
    ||| cp == 0x30A1 || cp == 0x30A3 || cp == 0x30A5 || cp == 0x30A7 || cp == 0x30A9
    ||| cp == 0x30C3 || cp == 0x30E3 || cp == 0x30E5 || cp == 0x30E7 || cp == 0x30EE
    ||| cp == 0x30F5 || cp == 0x30F6
    // The marks of long and repeated sounds, and the middle dot.
    ||| cp == 0x30FC || cp == 0x30FD || cp == 0x30FE || cp == 0x309D || cp == 0x309E || cp == 0x30FB
}

/// Whether a character must not end a line: opening brackets and quotation
/// marks.
pub open spec fn never_ends(c: char) -> bool {
    let cp = c as u32;
    ||| cp == 0xFF08 || cp == 0xFF3B || cp == 0xFF5B || cp == 0x3014 || cp == 0x3008 || cp == 0x300A
    ||| cp == 0x300C || cp == 0x300E || cp == 0x3010 || cp == 0x3016 || cp == 0x3018 || cp == 0x301A
    ||| cp == 0x2018 || cp == 0x201C
}

/// Whether every character of a text is of a class.
pub open spec fn made_of(text: Seq<char>, class: spec_fn(char) -> bool) -> bool {
    forall|i: int| 0 <= i < text.len() ==> class(#[trigger] text[i])
}

/// Whether a rule says that two segments belong together.
pub open spec fn belong_together(rule: MergeRule, before: Piece, behind: Piece) -> bool {
    &&& before.kind == SegmentKind::Text
    &&& behind.kind == SegmentKind::Text
    &&& match rule {
        MergeRule::LeftSticky => made_of(behind.text, |c: char| trails(c)) && !before.contains_cjk,
        MergeRule::ForwardSticky => made_of(before.text, |c: char| leads(c)),
        MergeRule::KinsokuEnd => behind.text.len() > 0 && never_starts(behind.text[0]),
        MergeRule::KinsokuStart => before.text.len() > 0 && never_ends(before.text.last()),
    }
}

proof fn lemma_classes(rule: MergeRule, last: Piece, previous: Piece, piece: Piece)
    ensures
        joins(rule, last, previous, piece) == (match rule {
            MergeRule::ForwardSticky => last.kind == SegmentKind::Text && belong_together(
                rule,
                previous,
                piece,
            ),
            _ => belong_together(rule, last, piece),
        }),
{
    assert(all_chars(piece.text, |c: char| crate::unicode::left_sticky(c)) == made_of(
        piece.text,
        |c: char| trails(c),
    ));
    assert(all_chars(previous.text, |c: char| crate::unicode::forward_sticky(c)) == made_of(
        previous.text,
        |c: char| leads(c),
    ));
    if piece.text.len() > 0 {
        lemma_kinsoku(piece.text[0]);
    }
    if last.text.len() > 0 {
        lemma_kinsoku(last.text.last());
    }
}

proof fn lemma_kinsoku(c: char)
    ensures
        crate::unicode::kinsoku_end(c) == never_starts(c),
        crate::unicode::kinsoku_start(c) == never_ends(c),
{
}

/// Whether no neighbors are left that a rule says belong together.
pub open spec fn settled(rule: MergeRule, pieces: Seq<Piece>) -> bool {
    forall|i: int, j: int|
        0 <= i && j == i + 1 && j < pieces.len() ==> !belong_together(
            rule,
            #[trigger] pieces[i],
            #[trigger] pieces[j],
        )
}

/// Whether a text ends with another.
pub open spec fn has_suffix(text: Seq<char>, suffix: Seq<char>) -> bool {
    suffix.len() <= text.len() && text.skip(text.len() - suffix.len()) == suffix
}

/// Whether a text starts with another.
pub open spec fn has_start(text: Seq<char>, start: Seq<char>) -> bool {
    start.len() <= text.len() && text.take(start.len() as int) == start
}

/// The last piece that a pass gives ends with the last piece that it was given.
proof fn lemma_last_of_merged(pieces: Seq<Piece>, rule: MergeRule)
    requires
        pieces.len() > 0,
    ensures
        merged(pieces, rule).len() > 0,
        merged(pieces, rule).last().kind == pieces.last().kind,
        has_suffix(merged(pieces, rule).last().text, pieces.last().text),
        pieces.last().contains_cjk && rule != MergeRule::LeftSticky ==> merged(
            pieces,
            rule,
        ).last().contains_cjk,
{
    let before = merged(pieces.drop_last(), rule);
    let piece = pieces.last();
    assert(piece.text.skip(0) =~= piece.text);
    if before.len() > 0 && joins(rule, before.last(), pieces[pieces.len() - 2], piece) {
        let fused = fuse(rule, before.last(), piece);
        assert(fused.text.skip(fused.text.len() - piece.text.len()) =~= piece.text);
    }
}

/// Where two pieces meet that a pass gives, two met that it was given.
#[verifier::rlimit(40)]
proof fn lemma_boundary(pieces: Seq<Piece>, rule: MergeRule, index: int) -> (at: int)
    requires
        0 <= index < merged(pieces, rule).len() - 1,
    ensures
        0 <= at < pieces.len() - 1,
        ({
            let a = merged(pieces, rule)[index];
            let b = merged(pieces, rule)[index + 1];
            &&& a.kind == pieces[at].kind
            &&& has_suffix(a.text, pieces[at].text)
            &&& pieces[at].contains_cjk && rule != MergeRule::LeftSticky ==> a.contains_cjk
            &&& b.kind == pieces[at + 1].kind
            &&& has_start(b.text, pieces[at + 1].text)
        }),
    decreases pieces.len(),
{
    let head = pieces.drop_last();
    let before = merged(head, rule);
    let piece = pieces.last();
    let result = merged(pieces, rule);
    if before.len() > 0 && joins(rule, before.last(), pieces[pieces.len() - 2], piece) {
        let at = lemma_boundary(head, rule, index);
        let b = before[index + 1];
        assert(result[index] == before[index]);
        if index + 1 == result.len() - 1 {
            assert(result[index + 1].text.take(pieces[at + 1].text.len() as int) =~= b.text.take(
                pieces[at + 1].text.len() as int,
            ));
        } else {
            assert(result[index + 1] == b);
        }
        at
    } else if index + 1 < before.len() {
        let at = lemma_boundary(head, rule, index);
        assert(result[index] == before[index] && result[index + 1] == before[index + 1]);
        at
    } else {
        assert(head.len() > 0);
        lemma_last_of_merged(head, rule);
        assert(result[index] == before.last());
        assert(piece.text.take(piece.text.len() as int) =~= piece.text);
        assert(pieces[pieces.len() - 2] == head.last());
        pieces.len() - 2
    }
}

proof fn lemma_made_of_part(text: Seq<char>, part: Seq<char>, class: spec_fn(char) -> bool)
    requires
        made_of(text, class),
        has_suffix(text, part) || has_start(text, part),
    ensures
        made_of(part, class),
{
    assert forall|i: int| 0 <= i < part.len() implies class(#[trigger] part[i]) by {
        if has_start(text, part) {
            assert(text.take(part.len() as int)[i] == text[i]);
        } else {
            let offset = text.len() - part.len();
            assert(text.skip(offset)[i] == text[offset + i]);
        }
    }
}

/// Whether no piece is empty.
pub open spec fn none_empty(pieces: Seq<Piece>) -> bool {
    forall|i: int| 0 <= i < pieces.len() ==> (#[trigger] pieces[i]).text.len() > 0
}

/// Where pieces end and start with others, they belong together only if those do.
proof fn lemma_belong_inside(rule: MergeRule, a: Piece, b: Piece, x: Piece, y: Piece)
    requires
        belong_together(rule, a, b),
        a.kind == x.kind && b.kind == y.kind,
        x.text.len() > 0 && y.text.len() > 0,
        has_suffix(a.text, x.text),
        has_start(b.text, y.text),
        rule == MergeRule::LeftSticky && x.contains_cjk ==> a.contains_cjk,
    ensures
        belong_together(rule, x, y),
{
    match rule {
        MergeRule::LeftSticky => {
            lemma_made_of_part(b.text, y.text, |c: char| trails(c));
        },
        MergeRule::ForwardSticky => {
            lemma_made_of_part(a.text, x.text, |c: char| leads(c));
        },
        MergeRule::KinsokuEnd => {
            assert(b.text.take(y.text.len() as int)[0] == b.text[0]);
        },
        MergeRule::KinsokuStart => {
            let offset = a.text.len() - x.text.len();
            assert(a.text.skip(offset)[x.text.len() - 1] == a.text[a.text.len() - 1]);
        },
    }
}

/// What one rule has settled another pass does not unsettle.
proof fn lemma_stays_settled(rule: MergeRule, pieces: Seq<Piece>, other: MergeRule)
    requires
        none_empty(pieces),
        settled(rule, pieces),
        rule == MergeRule::LeftSticky ==> other != MergeRule::LeftSticky,
    ensures
        settled(rule, merged(pieces, other)),
{
    let result = merged(pieces, other);
    assert forall|i: int, j: int| 0 <= i && j == i + 1 && j < result.len() implies !belong_together(
        rule,
        #[trigger] result[i],
        #[trigger] result[j],
    ) by {
        let at = lemma_boundary(pieces, other, i);
        if belong_together(rule, result[i], result[j]) {
            assert(pieces[at].text.len() > 0 && pieces[at + 1].text.len() > 0);
            lemma_belong_inside(rule, result[i], result[j], pieces[at], pieces[at + 1]);
        }
    }
}

/// A pass settles its rule.
#[verifier::rlimit(40)]
proof fn lemma_pass_settles(rule: MergeRule, pieces: Seq<Piece>)
    requires
        none_empty(pieces),
    ensures
        settled(rule, merged(pieces, rule)),
        none_empty(merged(pieces, rule)),
    decreases pieces.len(),
{
    if pieces.len() > 0 {
        let head = pieces.drop_last();
        let before = merged(head, rule);
        let piece = pieces.last();
        let result = merged(pieces, rule);
        assert forall|i: int| 0 <= i < head.len() implies (#[trigger] head[i]).text.len() > 0 by {
            assert(head[i] == pieces[i]);
        }
        lemma_pass_settles(rule, head);
        assert(pieces[pieces.len() - 1].text.len() > 0);
        if before.len() > 0 {
            lemma_last_of_merged(head, rule);
            assert(pieces[pieces.len() - 2] == head.last());
            lemma_classes(rule, before.last(), head.last(), piece);
            assert(before[before.len() - 1].text.len() > 0);
        }
        let together = before.len() > 0 && joins(
            rule,
            before.last(),
            pieces[pieces.len() - 2],
            piece,
        );
        assert forall|i: int| 0 <= i < result.len() implies (#[trigger] result[i]).text.len()
            > 0 by {
            if i < before.len() - 1 || !together && i < before.len() {
                assert(result[i] == before[i]);
            }
        }
        assert forall|i: int, j: int|
            0 <= i && j == i + 1 && j < result.len() implies !belong_together(
            rule,
            #[trigger] result[i],
            #[trigger] result[j],
        ) by {
            if together {
                assert(result[i] == before[i]);
                if j < before.len() - 1 {
                    assert(result[j] == before[j]);
                } else {
                    let last = before[j];
                    assert(result[j] == fuse(rule, last, piece));
                    assert(before[i].text.len() > 0 && last.text.len() > 0);
                    assert(before[i].text.skip(0) =~= before[i].text);
                    assert(result[j].text.take(last.text.len() as int) =~= last.text);
                    if belong_together(rule, result[i], result[j]) {
                        lemma_belong_inside(rule, result[i], result[j], before[i], last);
                    }
                }
            } else if j < before.len() {
                assert(result[i] == before[i] && result[j] == before[j]);
            } else {
                assert(result[i] == before.last() && result[j] == piece);
                if belong_together(rule, before.last(), piece) {
                    assert(piece.text.take(piece.text.len() as int) =~= piece.text);
                    assert(pieces[pieces.len() - 2].text.len() > 0);
                    if rule == MergeRule::ForwardSticky {
                        lemma_belong_inside(rule, before.last(), piece, head.last(), piece);
                    }
                }
            }
        }
    }
}

/// Punctuation keeps to the word that it belongs to. Of two neighboring text
/// segments the second is never trailing punctuation alone, unless the first is
/// CJK, the first is never leading punctuation alone, the second never starts
/// with a character that must not start a line, and the first never ends with
/// one that must not end a line.
pub proof fn punctuation_keeps_to_its_word(initial: Seq<Piece>, text: Seq<char>)
    requires
        sound(initial, text),
    ensures
        settled(MergeRule::LeftSticky, refined(initial)),
        settled(MergeRule::ForwardSticky, refined(initial)),
        settled(MergeRule::KinsokuEnd, refined(initial)),
        settled(MergeRule::KinsokuStart, refined(initial)),
{
    let urls = url_merged(initial, 0);
    let numbers = numeric_merged(urls, 0);
    let left = merged(numbers, MergeRule::LeftSticky);
    let forward = merged(left, MergeRule::ForwardSticky);
    let end = merged(forward, MergeRule::KinsokuEnd);
    run_merging_is_sound(initial, text);
    run_merging_is_sound(urls, text);
    merging_is_sound(numbers, MergeRule::LeftSticky, text);
    merging_is_sound(left, MergeRule::ForwardSticky, text);
    merging_is_sound(forward, MergeRule::KinsokuEnd, text);
    assert(none_empty(numbers)) by {
        assert forall|i: int| 0 <= i < numbers.len() implies (#[trigger] numbers[i]).text.len()
            > 0 by {
            assert(proper(numbers[i]));
        }
    }
    lemma_pass_settles(MergeRule::LeftSticky, numbers);
    lemma_pass_settles(MergeRule::ForwardSticky, left);
    lemma_stays_settled(MergeRule::LeftSticky, left, MergeRule::ForwardSticky);
    lemma_pass_settles(MergeRule::KinsokuEnd, forward);
    lemma_stays_settled(MergeRule::LeftSticky, forward, MergeRule::KinsokuEnd);
    lemma_stays_settled(MergeRule::ForwardSticky, forward, MergeRule::KinsokuEnd);
    lemma_pass_settles(MergeRule::KinsokuStart, end);
    lemma_stays_settled(MergeRule::LeftSticky, end, MergeRule::KinsokuStart);
    lemma_stays_settled(MergeRule::ForwardSticky, end, MergeRule::KinsokuStart);
    lemma_stays_settled(MergeRule::KinsokuEnd, end, MergeRule::KinsokuStart);
}

// ---- What is left alone -------------------------------------------------------------------------

/// Whether nothing in pieces calls for being put together: no neighbors belong
/// together, no run of them starts like a URL, and no digits stand before a
/// connective and digits.
pub open spec fn nothing_belongs_together(pieces: Seq<Piece>) -> bool {
    &&& settled(MergeRule::LeftSticky, pieces)
    &&& settled(MergeRule::ForwardSticky, pieces)
    &&& settled(MergeRule::KinsokuEnd, pieces)
    &&& settled(MergeRule::KinsokuStart, pieces)
    &&& forall|i: int, j: int|
        0 <= i < j <= pieces.len() ==> !url_start(
            joined(texts_of(#[trigger] pieces.subrange(i, j))),
        )
    &&& forall|i: int|
        0 <= i < pieces.len() - 2 && digit_piece(#[trigger] pieces[i]) ==> !(connective_piece(
            pieces[i + 1],
        ) && digit_piece(pieces[i + 2]))
}

proof fn lemma_no_seed_here(pieces: Seq<Piece>, from: int, count: nat)
    requires
        0 <= from < pieces.len(),
        count > 0,
        forall|i: int, j: int|
            0 <= i < j <= pieces.len() ==> !url_start(
                joined(texts_of(#[trigger] pieces.subrange(i, j))),
            ),
    ensures
        url_seed(pieces, from, count) is None,
    decreases pieces.len() - from - count + 1,
{
    if from + count <= pieces.len() {
        assert(!url_start(joined(texts_of(pieces.subrange(from, from + count)))));
        if pieces[from + count - 1].kind == SegmentKind::Text {
            lemma_no_seed_here(pieces, from, count + 1);
        }
    }
}

proof fn lemma_urls_left_alone(pieces: Seq<Piece>, from: int)
    requires
        0 <= from <= pieces.len(),
        nothing_belongs_together(pieces),
    ensures
        url_merged(pieces, from) == pieces.skip(from),
    decreases pieces.len() - from,
{
    if from < pieces.len() {
        lemma_no_seed_here(pieces, from, 1);
        lemma_urls_left_alone(pieces, from + 1);
    }
    assert(url_merged(pieces, from) =~= pieces.skip(from));
}

proof fn lemma_numbers_left_alone(pieces: Seq<Piece>, from: int)
    requires
        0 <= from <= pieces.len(),
        nothing_belongs_together(pieces),
    ensures
        numeric_merged(pieces, from) == pieces.skip(from),
    decreases pieces.len() - from,
{
    if from < pieces.len() {
        lemma_numbers_left_alone(pieces, from + 1);
        if digit_piece(pieces[from]) {
            assert(numeric_end(pieces, from + 1) == from + 1);
            lemma_single(pieces, from);
            let front = fused_run(pieces, from, from + 1);
            assert(front.contains_cjk == pieces[from].contains_cjk);
            assert(front == pieces[from]);
        }
    }
    assert(numeric_merged(pieces, from) =~= pieces.skip(from));
}

proof fn lemma_pass_leaves_alone(rule: MergeRule, pieces: Seq<Piece>)
    requires
        settled(rule, pieces),
    ensures
        merged(pieces, rule) == pieces,
    decreases pieces.len(),
{
    if pieces.len() > 0 {
        let head = pieces.drop_last();
        assert forall|i: int, j: int| 0 <= i && j == i + 1 && j < head.len() implies
            !belong_together(rule, #[trigger] head[i], #[trigger] head[j]) by {
            assert(head[i] == pieces[i] && head[j] == pieces[j]);
        }
        lemma_pass_leaves_alone(rule, head);
        if head.len() > 0 {
            let previous = pieces[pieces.len() - 2];
            let piece = pieces[pieces.len() - 1];
            assert(head.last() == previous);
            lemma_classes(rule, previous, previous, piece);
            assert(!belong_together(rule, previous, piece));
        }
    }
    assert(merged(pieces, rule) =~= pieces);
}

/// Segments that nothing calls for putting together are left alone: the text is
/// broken between its words as they come.
pub proof fn other_segments_are_left_alone(initial: Seq<Piece>)
    requires
        nothing_belongs_together(initial),
    ensures
        refined(initial) == initial,
{
    lemma_urls_left_alone(initial, 0);
    assert(initial.skip(0) =~= initial);
    lemma_numbers_left_alone(initial, 0);
    lemma_pass_leaves_alone(MergeRule::LeftSticky, initial);
    lemma_pass_leaves_alone(MergeRule::ForwardSticky, initial);
    lemma_pass_leaves_alone(MergeRule::KinsokuEnd, initial);
    lemma_pass_leaves_alone(MergeRule::KinsokuStart, initial);
}

// ---- Numbers and URLs ---------------------------------------------------------------------------

/// Whether a piece is a run of decimal digits.
pub open spec fn is_digits(piece: Piece) -> bool {
    piece.kind == SegmentKind::Text && piece.text.len() > 0 && made_of(
        piece.text,
        |c: char| '0' <= c && c <= '9',
    )
}

/// Whether a piece is what stands between the digits of a number, a date or a
/// time.
pub open spec fn is_connective(piece: Piece) -> bool {
    piece.kind == SegmentKind::Text && piece.text.len() > 0 && made_of(
        piece.text,
        |c: char| c == '.' || c == ',' || c == '-' || c == ':' || c == '/' || c == '+',
    )
}

/// Whether no digits are left that stand apart from a connective and digits
/// behind it.
pub open spec fn numbers_whole(pieces: Seq<Piece>) -> bool {
    forall|i: int, j: int, k: int|
        0 <= i && j == i + 1 && k == j + 1 && k < pieces.len() ==> !(is_digits(
            #[trigger] pieces[i],
        ) && is_connective(#[trigger] pieces[j]) && is_digits(#[trigger] pieces[k]))
}

proof fn lemma_number_classes(piece: Piece)
    ensures
        digit_piece(piece) == is_digits(piece),
        connective_piece(piece) == is_connective(piece),
{
    assert(crate::decimal::all_digits(piece.text) == made_of(
        piece.text,
        |c: char| '0' <= c && c <= '9',
    ));
    assert(all_chars(piece.text, |c: char| crate::unicode::numeric_connective(c)) == made_of(
        piece.text,
        |c: char| c == '.' || c == ',' || c == '-' || c == ':' || c == '/' || c == '+',
    ));
}

/// A run starts with its first piece.
proof fn lemma_run_start(pieces: Seq<Piece>, from: int, to: int)
    requires
        0 <= from < to <= pieces.len(),
    ensures
        has_start(fused_run(pieces, from, to).text, pieces[from].text),
        fused_run(pieces, from, to).kind == pieces[from].kind,
        to > from + 1 ==> fused_run(pieces, from, to).text == pieces[from].text + joined(
            texts_of(pieces.subrange(from + 1, to)),
        ),
        to == from + 1 ==> fused_run(pieces, from, to).text == pieces[from].text,
{
    let first = seq![pieces[from].text];
    let rest = texts_of(pieces.subrange(from + 1, to));
    assert(texts_of(pieces.subrange(from, to)) =~= first + rest);
    lemma_joined_concat(first, rest);
    crate::text::lemma_joined_one(pieces[from].text);
    let text = fused_run(pieces, from, to).text;
    assert(text == pieces[from].text + joined(rest));
    assert(text.take(pieces[from].text.len() as int) =~= pieces[from].text);
    if to == from + 1 {
        assert(rest =~= Seq::empty());
        assert(text =~= pieces[from].text);
    }
}

/// A run that holds more than one piece holds a connective, and is not digits
/// alone; no run that starts with digits is a connective.
proof fn lemma_number_run(pieces: Seq<Piece>, from: int)
    requires
        0 <= from < pieces.len(),
        digit_piece(pieces[from]),
    ensures
        ({
            let end = numeric_end(pieces, from + 1);
            let front = fused_run(pieces, from, end);
            &&& from < end <= pieces.len()
            &&& !is_connective(front)
            &&& is_digits(front) ==> end == from + 1
        }),
{
    lemma_numeric_end(pieces, from + 1);
    let end = numeric_end(pieces, from + 1);
    let front = fused_run(pieces, from, end);
    lemma_run_start(pieces, from, end);
    let first = pieces[from].text;
    assert(crate::decimal::is_digit(first[0]));
    assert(front.text.take(first.len() as int)[0] == front.text[0]);
    if is_connective(front) {
        let c = front.text[0];
        assert(c == '.' || c == ',' || c == '-' || c == ':' || c == '/' || c == '+');
    }
    if end > from + 1 {
        let middle = pieces[from + 1].text;
        assert(connective_piece(pieces[from + 1]));
        lemma_number_classes(pieces[from + 1]);
        lemma_run_start(pieces, from + 1, end);
        let inner = fused_run(pieces, from + 1, end).text;
        assert(inner.take(middle.len() as int)[0] == inner[0]);
        assert(front.text[first.len() as int] == inner[0]);
        let c = middle[0];
        assert(c == '.' || c == ',' || c == '-' || c == ':' || c == '/' || c == '+');
        if is_digits(front) {
            assert('0' <= front.text[first.len() as int]);
        }
    }
}

#[verifier::rlimit(40)]
proof fn lemma_numbers_whole(pieces: Seq<Piece>, from: int)
    requires
        0 <= from <= pieces.len(),
    ensures
        numbers_whole(numeric_merged(pieces, from)),
        from < pieces.len() ==> {
            let first = numeric_merged(pieces, from)[0];
            &&& numeric_merged(pieces, from).len() > 0
            &&& is_digits(first) ==> digit_piece(pieces[from])
            &&& is_connective(first) ==> connective_piece(pieces[from]) && numeric_merged(
                pieces,
                from,
            ) == seq![pieces[from]] + numeric_merged(pieces, from + 1)
        },
        from == pieces.len() ==> numeric_merged(pieces, from).len() == 0,
    decreases pieces.len() - from,
{
    if from < pieces.len() {
        let result = numeric_merged(pieces, from);
        lemma_number_classes(pieces[from]);
        let end = if digit_piece(pieces[from]) {
            numeric_end(pieces, from + 1)
        } else {
            from + 1
        };
        if digit_piece(pieces[from]) {
            lemma_number_run(pieces, from);
        }
        let rest = numeric_merged(pieces, end);
        lemma_numbers_whole(pieces, end);
        let front = result[0];
        assert(result =~= seq![front] + rest);
        assert forall|i: int, j: int, k: int|
            0 <= i && j == i + 1 && k == j + 1 && k < result.len() implies !(is_digits(
            #[trigger] result[i],
        ) && is_connective(#[trigger] result[j]) && is_digits(#[trigger] result[k])) by {
            if i > 0 {
                assert(result[i] == rest[i - 1] && result[j] == rest[j - 1] && result[k] == rest[k
                    - 1]);
            } else if is_digits(result[0]) && is_connective(result[1]) && is_digits(result[2]) {
                assert(end == from + 1);
                assert(result[1] == rest[0] && result[2] == rest[1]);
                assert(rest == seq![pieces[end]] + numeric_merged(pieces, end + 1));
                assert(rest[1] == numeric_merged(pieces, end + 1)[0]);
                lemma_numbers_whole(pieces, end + 1);
                assert(connective_piece(pieces[from + 1]) && digit_piece(pieces[from + 2]));
            }
        }
    }
}

/// Numbers stay whole: no digits are left apart from a connective and the
/// digits behind it.
pub proof fn numbers_stay_whole(pieces: Seq<Piece>)
    ensures
        numbers_whole(numeric_merged(pieces, 0)),
{
    lemma_numbers_whole(pieces, 0);
}

/// Whether a piece goes on with a URL: it is letters, digits and the characters
/// that URLs are made of.
pub open spec fn goes_on_with_url(piece: Piece) -> bool {
    piece.kind == SegmentKind::Text && piece.text.len() > 0 && made_of(
        piece.text,
        |c: char|
            alphanumeric(c) || match c {
                '/' | '.' | '-' | '_' | '~' | ':' | '?' | '#' | '[' | ']' | '@' | '!' => true,
                '$' | '&' | '\'' | '(' | ')' | '*' | '+' | ',' | ';' | '=' | '%' => true,
                _ => false,
            },
    )
}

/// Whether no URL is left apart from a piece that goes on with it.
pub open spec fn urls_whole(pieces: Seq<Piece>) -> bool {
    forall|i: int, j: int|
        0 <= i && j == i + 1 && j < pieces.len() ==> !((#[trigger] pieces[i]).kind
            == SegmentKind::Text && url_start(pieces[i].text) && goes_on_with_url(
            #[trigger] pieces[j],
        ))
}

proof fn lemma_url_class(piece: Piece)
    ensures
        url_extension(piece) == goes_on_with_url(piece),
{
    assert(all_chars(
        piece.text,
        |c: char| crate::unicode::url_internal(c) || alphanumeric(c),
    ) == made_of(
        piece.text,
        |c: char|
            alphanumeric(c) || match c {
                '/' | '.' | '-' | '_' | '~' | ':' | '?' | '#' | '[' | ']' | '@' | '!' => true,
                '$' | '&' | '\'' | '(' | ')' | '*' | '+' | ',' | ';' | '=' | '%' => true,
                _ => false,
            },
    ));
}

proof fn lemma_url_end_stops(pieces: Seq<Piece>, from: int)
    requires
        0 <= from <= pieces.len(),
    ensures
        url_end(pieces, from) < pieces.len() ==> !url_extension(pieces[url_end(pieces, from)]),
    decreases pieces.len() - from,
{
    if from < pieces.len() && url_extension(pieces[from]) {
        lemma_url_end_stops(pieces, from + 1);
    }
}

#[verifier::rlimit(40)]
proof fn lemma_urls_whole(pieces: Seq<Piece>, from: int)
    requires
        0 <= from <= pieces.len(),
        none_empty(pieces),
    ensures
        urls_whole(url_merged(pieces, from)),
        from < pieces.len() ==> {
            let first = url_merged(pieces, from)[0];
            &&& url_merged(pieces, from).len() > 0
            &&& first.kind == pieces[from].kind
            &&& has_start(first.text, pieces[from].text)
        },
        from == pieces.len() ==> url_merged(pieces, from).len() == 0,
    decreases pieces.len() - from,
{
    if from < pieces.len() {
        let result = url_merged(pieces, from);
        lemma_url_seed(pieces, from, 1);
        let seed = url_seed(pieces, from, 1);
        let end = match seed {
            Some(count) => url_end(pieces, from + count),
            None => from + 1,
        };
        if let Some(count) = seed {
            lemma_url_end(pieces, from + count);
            lemma_url_end_stops(pieces, from + count);
            lemma_run_start(pieces, from, end);
        } else {
            lemma_single(pieces, from);
            assert(pieces[from].text.take(pieces[from].text.len() as int) =~= pieces[from].text);
        }
        let rest = url_merged(pieces, end);
        lemma_urls_whole(pieces, end);
        let front = result[0];
        assert(result =~= seq![front] + rest);
        assert forall|i: int, j: int| 0 <= i && j == i + 1 && j < result.len() implies !((
        #[trigger] result[i]).kind == SegmentKind::Text && url_start(result[i].text)
            && goes_on_with_url(#[trigger] result[j])) by {
            if i > 0 {
                assert(result[i] == rest[i - 1] && result[j] == rest[j - 1]);
            } else if front.kind == SegmentKind::Text && url_start(front.text) && goes_on_with_url(
                result[1],
            ) {
                assert(result[1] == rest[0]);
                assert(end < pieces.len());
                assert(pieces[end].text.len() > 0);
                let part = pieces[end].text;
                assert forall|n: int| 0 <= n < part.len() implies rest[0].text[n]
                    == #[trigger] part[n] by {
                    assert(rest[0].text.take(part.len() as int)[n] == part[n]);
                }
                lemma_url_class(rest[0]);
                assert(url_extension(rest[0]));
                assert(url_extension(pieces[end]));
                assert(seed is None);
                assert(front == pieces[from]);
            }
        }
    }
}

/// URLs stay whole: no segment that starts like a URL is left apart from a
/// segment that goes on with it.
pub proof fn urls_stay_whole(pieces: Seq<Piece>)
    requires
        none_empty(pieces),
    ensures
        urls_whole(url_merged(pieces, 0)),
{
    lemma_urls_whole(pieces, 0);
}

// ---- On either side -----------------------------------------------------------------------------

/// A pass works for itself behind a piece that is not text.
#[verifier::rlimit(40)]
proof fn lemma_pass_splits(rule: MergeRule, head: Seq<Piece>, tail: Seq<Piece>)
    requires
        head.len() > 0,
        head.last().kind != SegmentKind::Text,
    ensures
        merged(head + tail, rule) == merged(head, rule) + merged(tail, rule),
    decreases tail.len(),
{
    let whole = head + tail;
    if tail.len() == 0 {
        assert(whole =~= head);
        assert(merged(head, rule) + merged(tail, rule) =~= merged(head, rule));
    } else {
        let shorter = tail.drop_last();
        lemma_pass_splits(rule, head, shorter);
        assert(whole.drop_last() =~= head + shorter);
        assert(whole.last() == tail.last());
        lemma_last_of_merged(head, rule);
        let front = merged(head, rule);
        let back = merged(shorter, rule);
        let before = front + back;
        if shorter.len() == 0 {
            assert(back =~= Seq::empty());
            assert(before.last() == front.last());
        } else {
            lemma_last_of_merged(shorter, rule);
            assert(before.last() == back.last());
            assert(whole[whole.len() - 2] == tail[tail.len() - 2]);
            assert(before.drop_last() =~= front + back.drop_last());
        }
        assert(merged(whole, rule) =~= front + merged(tail, rule));
    }
}

proof fn lemma_pass_around(rule: MergeRule, before: Seq<Piece>, middle: Piece, after: Seq<Piece>)
    requires
        middle.kind != SegmentKind::Text,
    ensures
        merged(before + seq![middle] + after, rule) == merged(before, rule) + seq![middle] + merged(
            after,
            rule,
        ),
{
    let head = before + seq![middle];
    assert(head.last() == middle);
    assert(head.drop_last() =~= before);
    assert(merged(head, rule) =~= merged(before, rule) + seq![middle]);
    lemma_pass_splits(rule, head, after);
}

proof fn lemma_same_run(pieces: Seq<Piece>, part: Seq<Piece>, offset: int, from: int, to: int)
    requires
        0 <= from < to <= part.len(),
        0 <= offset,
        offset + part.len() <= pieces.len(),
        pieces.subrange(offset, offset + part.len()) == part,
    ensures
        fused_run(pieces, offset + from, offset + to) == fused_run(part, from, to),
{
    assert forall|k: int| 0 <= k < part.len() implies #[trigger] part[k] == pieces[offset + k] by {
        assert(pieces.subrange(offset, offset + part.len())[k] == pieces[offset + k]);
    }
    assert(pieces.subrange(offset + from, offset + to) =~= part.subrange(from, to));
    let whole = fused_run(pieces, offset + from, offset + to);
    let run = fused_run(part, from, to);
    assert(part[from] == pieces[offset + from]);
    if whole.contains_cjk {
        let k = choose|k: int|
            offset + from <= k < offset + to && (#[trigger] pieces[k]).contains_cjk;
        assert(part[k - offset].contains_cjk);
    }
    if run.contains_cjk {
        let k = choose|k: int| from <= k < to && (#[trigger] part[k]).contains_cjk;
        assert(pieces[offset + k].contains_cjk);
    }
}

/// Whether `part` stands in pieces at an offset, and nothing behind it that could
/// join it.
spec fn stands_alone(pieces: Seq<Piece>, part: Seq<Piece>, offset: int) -> bool {
    &&& 0 <= offset
    &&& offset + part.len() <= pieces.len()
    &&& pieces.subrange(offset, offset + part.len()) == part
    &&& offset + part.len() == pieces.len() || pieces[offset + part.len()].kind
        != SegmentKind::Text
}

proof fn lemma_part_at(pieces: Seq<Piece>, part: Seq<Piece>, offset: int, index: int)
    requires
        stands_alone(pieces, part, offset),
        0 <= index < part.len(),
    ensures
        pieces[offset + index] == part[index],
{
    assert(pieces.subrange(offset, offset + part.len())[index] == pieces[offset + index]);
}

proof fn lemma_same_seed(
    pieces: Seq<Piece>,
    part: Seq<Piece>,
    offset: int,
    from: int,
    count: nat,
)
    requires
        stands_alone(pieces, part, offset),
        0 <= from < part.len(),
        count > 0,
    ensures
        url_seed(pieces, offset + from, count) == url_seed(part, from, count) || count > part.len()
            - from + 1,
        count == part.len() - from + 1 ==> url_seed(pieces, offset + from, count) is None,
    decreases pieces.len() - offset - from - count + 1,
{
    if from + count <= part.len() {
        lemma_part_at(pieces, part, offset, from + count - 1);
        assert(pieces.subrange(offset + from, offset + from + count) =~= part.subrange(
            from,
            from + count,
        )) by {
            assert forall|k: int| from <= k < from + count implies pieces[offset + k]
                == #[trigger] part[k] by {
                lemma_part_at(pieces, part, offset, k);
            }
        }
        if pieces[offset + from + count - 1].kind == SegmentKind::Text {
            lemma_same_seed(pieces, part, offset, from, count + 1);
        }
    }
}

proof fn lemma_same_url_end(pieces: Seq<Piece>, part: Seq<Piece>, offset: int, from: int)
    requires
        stands_alone(pieces, part, offset),
        0 <= from <= part.len(),
    ensures
        url_end(pieces, offset + from) == offset + url_end(part, from),
    decreases part.len() - from,
{
    if from < part.len() {
        lemma_part_at(pieces, part, offset, from);
        if url_extension(part[from]) {
            lemma_same_url_end(pieces, part, offset, from + 1);
        }
    }
}

#[verifier::rlimit(40)]
proof fn lemma_urls_within(pieces: Seq<Piece>, part: Seq<Piece>, offset: int, from: int)
    requires
        stands_alone(pieces, part, offset),
        0 <= from <= part.len(),
    ensures
        url_merged(pieces, offset + from) == url_merged(part, from) + url_merged(
            pieces,
            offset + part.len(),
        ),
    decreases part.len() - from,
{
    let behind = url_merged(pieces, offset + part.len());
    if from < part.len() {
        lemma_part_at(pieces, part, offset, from);
        lemma_same_seed(pieces, part, offset, from, 1);
        lemma_url_seed(part, from, 1);
        match url_seed(part, from, 1) {
            Some(count) => {
                lemma_url_end(part, from + count);
                lemma_same_url_end(pieces, part, offset, from + count);
                let end = url_end(part, from + count);
                lemma_same_run(pieces, part, offset, from, end);
                lemma_urls_within(pieces, part, offset, end);
                assert(url_merged(pieces, offset + from) =~= url_merged(part, from) + behind);
            },
            None => {
                lemma_urls_within(pieces, part, offset, from + 1);
                assert(url_merged(pieces, offset + from) =~= url_merged(part, from) + behind);
            },
        }
    } else {
        assert(url_merged(part, from) + behind =~= behind);
    }
}

proof fn lemma_same_number_end(pieces: Seq<Piece>, part: Seq<Piece>, offset: int, from: int)
    requires
        stands_alone(pieces, part, offset),
        0 <= from <= part.len(),
    ensures
        numeric_end(pieces, offset + from) == offset + numeric_end(part, from),
    decreases part.len() - from,
{
    if from < part.len() {
        lemma_part_at(pieces, part, offset, from);
        if from + 1 < part.len() {
            lemma_part_at(pieces, part, offset, from + 1);
            if connective_piece(part[from]) && digit_piece(part[from + 1]) {
                lemma_same_number_end(pieces, part, offset, from + 2);
            }
        }
    }
}

#[verifier::rlimit(40)]
proof fn lemma_numbers_within(pieces: Seq<Piece>, part: Seq<Piece>, offset: int, from: int)
    requires
        stands_alone(pieces, part, offset),
        0 <= from <= part.len(),
    ensures
        numeric_merged(pieces, offset + from) == numeric_merged(part, from) + numeric_merged(
            pieces,
            offset + part.len(),
        ),
    decreases part.len() - from,
{
    let behind = numeric_merged(pieces, offset + part.len());
    if from < part.len() {
        lemma_part_at(pieces, part, offset, from);
        if digit_piece(part[from]) {
            lemma_numeric_end(part, from + 1);
            lemma_same_number_end(pieces, part, offset, from + 1);
            let end = numeric_end(part, from + 1);
            lemma_same_run(pieces, part, offset, from, end);
            lemma_numbers_within(pieces, part, offset, end);
        } else {
            lemma_numbers_within(pieces, part, offset, from + 1);
        }
        assert(numeric_merged(pieces, offset + from) =~= numeric_merged(part, from) + behind);
    } else {
        assert(numeric_merged(part, from) + behind =~= behind);
    }
}

#[verifier::rlimit(40)]
proof fn lemma_urls_around(before: Seq<Piece>, middle: Piece, after: Seq<Piece>)
    requires
        middle.kind != SegmentKind::Text,
    ensures
        url_merged(before + seq![middle] + after, 0) == url_merged(before, 0) + seq![middle] + url_merged(after, 0),
{
    let pieces = before + seq![middle] + after;
    let at = before.len() as int;
    let offset = at + 1;
    assert(pieces[at] == middle);
    assert(stands_alone(pieces, before, 0)) by {
        assert(pieces.subrange(0, at) =~= before);
    }
    assert(stands_alone(pieces, after, offset)) by {
        assert(pieces.subrange(offset, offset + after.len()) =~= after);
    }
    let first = url_merged(before, 0);
    let last = url_merged(after, 0);
    let none = Seq::<Piece>::empty();
    assert(url_merged(pieces, 0) == first + url_merged(pieces, at)) by {
        lemma_urls_within(pieces, before, 0, 0);
    }
    assert(url_merged(pieces, offset) == last + none) by {
        lemma_urls_within(pieces, after, offset, 0);
        assert(url_merged(pieces, offset + after.len()) == none);
    }
    assert(last + none =~= last);
    assert(url_seed(pieces, at, 1) is None);
    assert(url_merged(pieces, at) == seq![middle] + url_merged(pieces, at + 1));
    assert(first + (seq![middle] + last) =~= first + seq![middle] + last);
}

#[verifier::rlimit(40)]
proof fn lemma_numbers_around(before: Seq<Piece>, middle: Piece, after: Seq<Piece>)
    requires
        middle.kind != SegmentKind::Text,
    ensures
        numeric_merged(before + seq![middle] + after, 0) == numeric_merged(before, 0) + seq![middle] + numeric_merged(after, 0),
{
    let pieces = before + seq![middle] + after;
    let at = before.len() as int;
    let offset = at + 1;
    assert(pieces[at] == middle);
    assert(stands_alone(pieces, before, 0)) by {
        assert(pieces.subrange(0, at) =~= before);
    }
    assert(stands_alone(pieces, after, offset)) by {
        assert(pieces.subrange(offset, offset + after.len()) =~= after);
    }
    let first = numeric_merged(before, 0);
    let last = numeric_merged(after, 0);
    let none = Seq::<Piece>::empty();
    assert(numeric_merged(pieces, 0) == first + numeric_merged(pieces, at)) by {
        lemma_numbers_within(pieces, before, 0, 0);
    }
    assert(numeric_merged(pieces, offset) == last + none) by {
        lemma_numbers_within(pieces, after, offset, 0);
        assert(numeric_merged(pieces, offset + after.len()) == none);
    }
    assert(last + none =~= last);
    assert(!digit_piece(pieces[at]));
    assert(numeric_merged(pieces, at) == seq![middle] + numeric_merged(pieces, at + 1));
    assert(first + (seq![middle] + last) =~= first + seq![middle] + last);
}

/// What stands on either side of a blank, a break or any other segment that is
/// not text is put together by itself: nothing reaches across.
pub proof fn nothing_reaches_across_what_is_not_text(
    before: Seq<Piece>,
    middle: Piece,
    after: Seq<Piece>,
)
    requires
        middle.kind != SegmentKind::Text,
    ensures
        refined(before + seq![middle] + after) == refined(before) + seq![middle] + refined(after),
{
    lemma_urls_around(before, middle, after);
    let a = url_merged(before, 0);
    let b = url_merged(after, 0);
    lemma_numbers_around(a, middle, b);
    let a = numeric_merged(a, 0);
    let b = numeric_merged(b, 0);
    lemma_pass_around(MergeRule::LeftSticky, a, middle, b);
    let a = merged(a, MergeRule::LeftSticky);
    let b = merged(b, MergeRule::LeftSticky);
    lemma_pass_around(MergeRule::ForwardSticky, a, middle, b);
    let a = merged(a, MergeRule::ForwardSticky);
    let b = merged(b, MergeRule::ForwardSticky);
    lemma_pass_around(MergeRule::KinsokuEnd, a, middle, b);
    let a = merged(a, MergeRule::KinsokuEnd);
    let b = merged(b, MergeRule::KinsokuEnd);
    lemma_pass_around(MergeRule::KinsokuStart, a, middle, b);
}

} // verus!
