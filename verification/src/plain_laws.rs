//! What holds of plain text: its lines, one after the other, are the text.
use crate::analysis::{collapsed, collapsible, control_kind, normalized_text, plain, proper};
use crate::analysis_laws::{collapsed_text_is_tidy, tidy};
use crate::layout::{hidden, lines_outcome, materializes};
use crate::layout_laws::{
    bare_text, dropped_text, lines_give_the_text_back, rejoined,
    text_without_controls_is_shown_whole,
};
use crate::line_break::{
    break_at, broken_line, first_break, fit_limit, fits_after, last_fitting, lemma_break_advances,
    lemma_first_break, line_advance, lines_from, skip_spaces, walked_lines, InternalLine,
};
use crate::line_laws::{
    hyphens_are_selected_soft_hyphens, lemma_advance_nonnegative, lemma_last_fitting_stays,
    lemma_lines_from, lemma_none_fits_later, lemma_simple_is_full, lemma_sizes, ordered_for,
};
use crate::prepare::aligned;
use crate::scalar::{is_measure, nonnegative, ordered_arithmetic, Scalar};
use crate::text::joined;
use crate::types::{hangs, LayoutLine, PreparedData, RichText, SegmentKind, WhiteSpaceMode};
use crate::unicode::white_space;
use vstd::prelude::*;

verus! {

/// Whether a text is plain: its only whitespace is spaces, and it holds no soft
/// hyphen.
pub open spec fn plain_text(text: Seq<char>) -> bool {
    forall|i: int|
        0 <= i < text.len() ==> {
            &&& white_space(#[trigger] text[i]) ==> text[i] == ' '
            &&& text[i] != '\u{00AD}'
        }
}

proof fn lemma_collapsed_is_plain(text: Seq<char>)
    requires
        plain_text(text),
    ensures
        plain_text(collapsed(text)),
    decreases text.len(),
{
    if text.len() > 0 {
        let head = text.drop_last();
        assert forall|i: int| 0 <= i < head.len() implies {
            &&& white_space(#[trigger] head[i]) ==> head[i] == ' '
            &&& head[i] != '\u{00AD}'
        } by {
            assert(head[i] == text[i]);
        }
        lemma_collapsed_is_plain(head);
        let before = collapsed(head);
        let after = collapsed(text);
        let last = text[text.len() - 1];
        assert(white_space(last) ==> last == ' ');
        assert forall|i: int| 0 <= i < after.len() implies {
            &&& white_space(#[trigger] after[i]) ==> after[i] == ' '
            &&& after[i] != '\u{00AD}'
        } by {
            if i < before.len() {
                assert(after[i] == before[i]);
            }
        }
    }
}

/// Where the characters of a segment stand in the text.
proof fn lemma_segment_in_text(segments: Seq<Seq<char>>, index: int)
    requires
        0 <= index < segments.len(),
    ensures
        joined(segments.take(index + 1)) == joined(segments.take(index)) + segments[index],
        joined(segments.take(index + 1)).len() <= joined(segments).len(),
        forall|k: int|
            0 <= k < joined(segments.take(index + 1)).len() ==> #[trigger] joined(segments)[k]
                == joined(segments.take(index + 1))[k],
    decreases segments.len() - index,
{
    assert(segments.take(index + 1).drop_last() =~= segments.take(index));
    if index + 1 < segments.len() {
        lemma_segment_in_text(segments, index + 1);
    } else {
        assert(segments.take(index + 1) =~= segments);
    }
}

/// What stands in a segment of a plain text.
proof fn lemma_plain_segment(segments: Seq<Seq<char>>, index: int, k: int)
    requires
        plain_text(joined(segments)),
        0 <= index < segments.len(),
        0 <= k < segments[index].len(),
    ensures
        white_space(segments[index][k]) ==> segments[index][k] == ' ',
        segments[index][k] != '\u{00AD}',
{
    lemma_segment_in_text(segments, index);
    let position = joined(segments.take(index)).len() + k;
    assert(joined(segments)[position as int] == segments[index][k]);
}

/// Whether a collapsible space follows a blank.
spec fn doubles_blank<W: Scalar>(data: &PreparedData<W>, index: int) -> bool {
    &&& data.kinds@[index] == SegmentKind::Space || data.kinds@[index]
        == SegmentKind::PreservedSpace
    &&& data.kinds@[index + 1] == SegmentKind::Space
}

/// Whether no collapsible space follows a blank, and nothing is hidden.
spec fn single_blanks<W: Scalar>(data: &PreparedData<W>) -> bool {
    &&& forall|i: int| 0 <= i < data.count() - 1 ==> !(#[trigger] doubles_blank(data, i))
    &&& forall|i: int|
        0 <= i < data.count() ==> !hidden(#[trigger] data.kinds@[i]) && data.kinds@[i]
            != SegmentKind::Tab
}

proof fn lemma_single_blanks<W: Scalar>(rich: RichText<W>, text: Seq<char>)
    requires
        aligned(rich),
        joined(rich.segments) == collapsed(text),
        plain_text(text),
    ensures
        single_blanks(&rich.data),
{
    let segments = rich.segments;
    let kinds = rich.data.kinds@;
    let whole = joined(segments);
    lemma_collapsed_is_plain(text);
    collapsed_text_is_tidy(text);
    assert forall|i: int| 0 <= i < rich.data.count() implies !hidden(#[trigger] kinds[i])
        && kinds[i] != SegmentKind::Tab by {
        assert(proper(plain(segments[i], kinds[i])));
        lemma_plain_segment(segments, i, 0);
        if kinds[i] == SegmentKind::SoftHyphen {
            assert(control_kind(segments[i][0]) == Some(SegmentKind::SoftHyphen));
        }
    }
    assert forall|i: int| 0 <= i < rich.data.count() - 1 implies !(#[trigger] doubles_blank(
        &rich.data,
        i,
    )) by {
        lemma_no_double_blank(rich, i);
    }
}

proof fn lemma_no_double_blank<W: Scalar>(rich: RichText<W>, index: int)
    requires
        aligned(rich),
        plain_text(joined(rich.segments)),
        tidy(joined(rich.segments)),
        0 <= index < rich.data.count() - 1,
    ensures
        !doubles_blank(&rich.data, index),
{
    let segments = rich.segments;
    let kinds = rich.data.kinds@;
    let whole = joined(segments);
    assert(proper(plain(segments[index], kinds[index])));
    assert(proper(plain(segments[index + 1], kinds[index + 1])));
    if doubles_blank(&rich.data, index) {
        let last = segments[index].len() - 1;
        lemma_segment_in_text(segments, index);
        lemma_segment_in_text(segments, index + 1);
        lemma_plain_segment(segments, index, last);
        lemma_plain_segment(segments, index + 1, 0);
        let position = joined(segments.take(index)).len() + last;
        assert(whole[position as int] == segments[index][last]);
        assert(whole[position + 1] == segments[index + 1][0]);
        assert(white_space(segments[index][last]) && white_space(segments[index + 1][0]));
        assert(collapsible(whole[position + 1]));
        assert(collapsible(whole[position + 1 - 1]));
    }
}

/// Behind a break of such a text the next line starts where the line ends.
proof fn lemma_nothing_is_dropped<W: Scalar>(
    data: &PreparedData<W>,
    start: int,
    grapheme: int,
    at: int,
    limit: W,
)
    requires
        ordered_for(data),
        single_blanks(data),
        nonnegative(limit),
        0 <= start <= at < data.count(),
        0 <= grapheme,
    ensures
        break_at(data, start, grapheme, at, limit) matches Some(b) ==> b.end == b.next,
{
    lemma_sizes(data);
    lemma_last_fitting_stays(data, start, grapheme, at, at, limit);
    if let Some(last) = last_fitting(data, start, grapheme, at, limit) {
        if last + 1 < at && data.kinds@[last + 1] == SegmentKind::Space {
            assert(!doubles_blank(data, last));
            assert(!hidden(data.kinds@[last]));
            assert(data.kinds@[last] == SegmentKind::ZeroWidthBreak);
            lemma_advance_nonnegative(data, start, grapheme, last);
            lemma_none_fits_later(data, start, grapheme, at, last + 1, limit);
            lemma_space_fits(data, start, grapheme, last, limit);
        }
        assert(skip_spaces(data, last + 1, at) == last + 1);
    }
}

/// A space behind a zero-width break that fits, fits.
proof fn lemma_space_fits<W: Scalar>(
    data: &PreparedData<W>,
    start: int,
    grapheme: int,
    index: int,
    limit: W,
)
    requires
        ordered_for(data),
        nonnegative(limit),
        0 <= start <= index < data.count() - 1,
        0 <= grapheme,
        data.kinds@[index] == SegmentKind::ZeroWidthBreak,
        data.kinds@[index + 1] == SegmentKind::Space,
        fits_after(data, start, grapheme, index, limit),
    ensures
        fits_after(data, start, grapheme, index + 1, limit),
{
    lemma_advance_nonnegative(data, start, grapheme, index);
    lemma_advance_nonnegative(data, start, grapheme, index + 1);
    reveal(ordered_for);
    let before = line_advance(data, start, grapheme, index);
    let after = line_advance(data, start, grapheme, index + 1);
    assert(hangs(data.kinds@[index]) && hangs(data.kinds@[index + 1]));
    assert(data.breakable(index) is None) by {
        if data.breakable(index) is Some {
            assert(data.kinds@[index] == SegmentKind::Text);
        }
    }
    assert(after == before.plus(data.widths@[index]));
    assert(after == before.plus(W::zero_value()));
    assert(after.plus(W::zero_value()).at_most(limit));
    assert(crate::line_break::visible(data.kinds@[index + 1]));
}

/// Whether the line behind one starts where that one ends.
spec fn abuts_next<W: Scalar>(lines: Seq<InternalLine<W>>, index: int) -> bool {
    lines[index].end_segment == lines[index + 1].start_segment && lines[index].end_grapheme
        == lines[index + 1].start_grapheme
}

/// Whether each line starts where the one before it ends.
spec fn abut<W: Scalar>(lines: Seq<InternalLine<W>>) -> bool {
    forall|i: int| 0 <= i < lines.len() - 1 ==> #[trigger] abuts_next(lines, i)
}

proof fn lemma_lines_abut<W: Scalar>(
    data: &PreparedData<W>,
    start: int,
    grapheme: int,
    from: int,
    end: int,
    limit: W,
)
    requires
        ordered_for(data),
        single_blanks(data),
        nonnegative(limit),
        0 <= start <= from <= end <= data.count(),
        0 <= grapheme <= usize::MAX,
    ensures
        ({
            let lines = lines_from(data, start, grapheme, from, end, end, limit);
            &&& lines.len() > 0
            &&& lines[0].start_segment == start
            &&& lines[0].start_grapheme == grapheme
            &&& abut(lines)
        }),
    decreases end - start, crate::line_break::grapheme_count(data, start) - grapheme,
{
    lemma_sizes(data);
    lemma_first_break(data, start, grapheme, from, end, limit);
    lemma_lines_from(data, start, grapheme, from, end, end, limit);
    let lines = lines_from(data, start, grapheme, from, end, end, limit);
    if let Some(at) = first_break(data, start, grapheme, from, end, limit) {
        let b = break_at(data, start, grapheme, at, limit)->0;
        lemma_break_advances(data, start, grapheme, at, limit);
        lemma_nothing_is_dropped(data, start, grapheme, at, limit);
        let s = b.next.segment_index() as int;
        let g = b.next.grapheme_index() as int;
        lemma_lines_abut(data, s, g, at, end, limit);
        let tail = lines_from(data, s, g, at, end, end, limit);
        let line = broken_line(start, grapheme, b);
        assert(lines =~= seq![line] + tail);
        assert forall|i: int| 0 <= i < lines.len() - 1 implies #[trigger] abuts_next(lines, i) by {
            if i > 0 {
                assert(abuts_next(tail, i - 1));
                assert(lines[i] == tail[i - 1]);
                assert(lines[i + 1] == tail[i]);
            } else {
                assert(lines[1] == tail[0]);
            }
        }
    }
}

/// The bare texts of lines.
spec fn bare_texts<W: Scalar>(rich: RichText<W>, lines: Seq<InternalLine<W>>) -> Seq<Seq<char>> {
    lines.map_values(|line: InternalLine<W>| bare_text(rich, line))
}

proof fn lemma_rejoined_is_joined<W: Scalar>(rich: RichText<W>, lines: Seq<InternalLine<W>>)
    requires
        abut(lines),
    ensures
        rejoined(rich, lines) == joined(bare_texts(rich, lines)),
    decreases lines.len(),
{
    let texts = bare_texts(rich, lines);
    if lines.len() == 0 {
        assert(joined(texts) =~= Seq::empty());
    } else {
        let shorter = lines.drop_last();
        let last = lines.len() - 1;
        assert(texts.drop_last() =~= bare_texts(rich, shorter));
        assert forall|i: int| 0 <= i < shorter.len() - 1 implies #[trigger] abuts_next(
            shorter,
            i,
        ) by {
            assert(abuts_next(lines, i));
        }
        lemma_rejoined_is_joined(rich, shorter);
        if last > 0 {
            assert(abuts_next(lines, last - 1));
            assert(dropped_text(rich, lines[last - 1], lines[last]) =~= Seq::empty());
            assert(rejoined(rich, lines) =~= joined(texts));
        } else {
            assert(shorter =~= Seq::empty());
            assert(rejoined(rich, lines) =~= joined(texts));
        }
    }
}

/// The texts of materialized lines.
pub open spec fn line_texts<W>(lines: Seq<LayoutLine<W>>) -> Seq<Seq<char>> {
    lines.map_values(|line: LayoutLine<W>| line.text@)
}

/// Wrapping loses, repeats and adds no character of plain text: one after the
/// other the lines are the normalized text, at whatever width.
pub proof fn plain_lines_are_the_text<W: Scalar>(
    text: Seq<char>,
    rich: RichText<W>,
    max_width: W,
    lines: Vec<LayoutLine<W>>,
)
    requires
        ordered_arithmetic::<W>(),
        plain_text(text),
        aligned(rich),
        joined(rich.segments) == normalized_text(text, WhiteSpaceMode::Normal),
        lines_outcome(rich, max_width, Ok(lines)),
    ensures
        joined(line_texts(lines@)) == normalized_text(text, WhiteSpaceMode::Normal),
{
    let data = &rich.data;
    let limit = fit_limit(max_width, data.profile);
    let walked = walked_lines(data, limit);
    assert(is_measure(data.profile.line_fit_epsilon));
    assert(nonnegative(limit));
    assert(ordered_for(data)) by {
        reveal(ordered_for);
    }
    lemma_single_blanks(rich, text);
    assert forall|i: int| 0 <= i < data.count() implies #[trigger] data.kinds@[i]
        != SegmentKind::HardBreak by {
        assert(!hidden(data.kinds@[i]));
    }
    lemma_simple_is_full(data, limit);
    if data.count() > 0 {
        lemma_lines_abut(data, 0, 0, 0, data.count() as int, limit);
    }
    assert(abut(walked));
    lemma_rejoined_is_joined(rich, walked);
    lines_give_the_text_back(rich, limit);
    text_without_controls_is_shown_whole(rich);
    assert forall|i: int| 0 <= i < walked.len() implies line_texts(lines@)[i] == #[trigger] bare_texts(
        rich,
        walked,
    )[i] by {
        assert(materializes(rich, walked[i], lines@[i]));
        if walked[i].ends_with_discretionary_hyphen {
            assert(walked.contains(walked[i]));
            hyphens_are_selected_soft_hyphens(data, limit, walked[i]);
            assert(hidden(data.kinds@[walked[i].end_segment - 1]));
        }
    }
    assert(line_texts(lines@) =~= bare_texts(rich, walked));
}

} // verus!
