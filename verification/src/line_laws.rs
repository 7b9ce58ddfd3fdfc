//! What holds of every layout, whichever surface it is read from.
use crate::line_break::{
    advance_of, all_chunk_lines, break_at, broken_line, chunk_bounds, chunk_lines, closing_line, cursor_at,
    ends_in_hard_break, entry_grapheme, first_break, fits_after, full_lines, grapheme_count,
    hard_break_from, last_fitting, least_int, lemma_break_advances, lemma_first_break, line_advance,
    lines_from, next_line, normalized, overflows, remaining_width, simple_lines, skip_spaces,
    visible, walked_lines, InternalLine,
};
use crate::scalar::{
    is_width, nonnegative, ordered_arithmetic, sum_of, tab_advance_value, Scalar,
};
use crate::types::{
    chunks_from, hangs, next_hard_break, LayoutCursor, LayoutLineRange, PreparedData, PreparedLineChunk,
    SegmentKind,
};
use crate::width_laws::{lemma_break_measures, lemma_paint_measures, lines_bounded};
use vstd::prelude::*;

verus! {

/// The streaming surface as a whole: the lines that repeated calls give.
pub open spec fn streamed_lines<W: Scalar>(
    data: &PreparedData<W>,
    cursor: LayoutCursor,
    limit: W,
) -> Seq<LayoutLineRange<W>>
    decreases
        data.count() + 1 - cursor.segment_index(),
        grapheme_count(data, cursor.segment_index() as int) - normalized(data, cursor).grapheme_index(),
    when data.count() < usize::MAX
{
    match next_line(data, cursor, limit) {
        Some((line, next)) => {
            proof {
                lemma_stream_step(data, cursor, limit);
            }
            seq![line] + streamed_lines(data, next, limit)
        },
        None => Seq::empty(),
    }
}

/// The range that a walked line covers.
pub open spec fn as_range<W: Scalar>(line: InternalLine<W>) -> LayoutLineRange<W> {
    LayoutLineRange {
        width: line.width,
        start: LayoutCursor::at(line.start_segment, line.start_grapheme),
        end: LayoutCursor::at(line.end_segment, line.end_grapheme),
        ends_with_discretionary_hyphen: line.ends_with_discretionary_hyphen,
    }
}

/// The ranges that walked lines cover.
pub open spec fn as_ranges<W: Scalar>(lines: Seq<InternalLine<W>>) -> Seq<LayoutLineRange<W>> {
    lines.map_values(|line: InternalLine<W>| as_range(line))
}

/// The streaming cursor always makes progress: the cursor after a line stands
/// behind the cursor that the line was asked for with.
pub proof fn streaming_advances<W: Scalar>(data: &PreparedData<W>, cursor: LayoutCursor, limit: W)
    requires
        cursor.segment_index() < usize::MAX,
    ensures
        next_line(data, cursor, limit) matches Some((line, next)) ==> cursor.before(next),
{
    lemma_sizes(data);
    if cursor.segment_index() < data.count() {
        let from = normalized(data, cursor);
        let start = from.segment_index() as int;
        let grapheme = from.grapheme_index() as int;
        lemma_hard_break_bounds(data, start);
        let end = hard_break_from(data, start);
        lemma_first_break(data, start, grapheme, start, end, limit);
        if let Some(at) = first_break(data, start, grapheme, start, end, limit) {
            lemma_break_advances(data, start, grapheme, at, limit);
        }
    }
}

pub proof fn lemma_stream_step<W: Scalar>(data: &PreparedData<W>, cursor: LayoutCursor, limit: W)
    requires
        data.count() < usize::MAX || cursor.segment_index() < data.count(),
    ensures
        next_line(data, cursor, limit) matches Some((line, next)) ==> {
            &&& cursor.segment_index() <= next.segment_index() <= data.count() + 1
            &&& next.segment_index() == cursor.segment_index() ==> normalized(
                data,
                cursor,
            ).grapheme_index() < normalized(data, next).grapheme_index() <= grapheme_count(
                data,
                cursor.segment_index() as int,
            )
        },
{
    lemma_sizes(data);
    if cursor.segment_index() < data.count() {
        let from = normalized(data, cursor);
        let start = from.segment_index() as int;
        let grapheme = from.grapheme_index() as int;
        lemma_hard_break_bounds(data, start);
        let end = hard_break_from(data, start);
        lemma_first_break(data, start, grapheme, start, end, limit);
        if let Some(at) = first_break(data, start, grapheme, start, end, limit) {
            lemma_break_advances(data, start, grapheme, at, limit);
            let next = break_at(data, start, grapheme, at, limit)->0.next;
            assert(normalized(data, next) == next);
            assert(0 <= grapheme_count(data, start) <= usize::MAX);
        }
    }
}

/// The cursor behind a line that does not end the text stands in a segment.
pub(crate) proof fn lemma_next_cursor<W: Scalar>(
    data: &PreparedData<W>,
    cursor: LayoutCursor,
    limit: W,
)
    requires
        cursor.segment_index() < data.count(),
    ensures
        next_line(data, cursor, limit) matches Some((line, next)) ==> (next.segment_index()
            < data.count() && next.grapheme_index() > 0 ==> next.grapheme_index() < grapheme_count(
            data,
            next.segment_index() as int,
        )),
{
    lemma_sizes(data);
    let from = normalized(data, cursor);
    let start = from.segment_index() as int;
    let grapheme = from.grapheme_index() as int;
    lemma_hard_break_bounds(data, start);
    let end = hard_break_from(data, start);
    lemma_first_break(data, start, grapheme, start, end, limit);
    if let Some(at) = first_break(data, start, grapheme, start, end, limit) {
        lemma_break_advances(data, start, grapheme, at, limit);
    }
}

pub(crate) proof fn lemma_sizes<W: Scalar>(data: &PreparedData<W>)
    ensures
        data.count() <= usize::MAX,
        forall|k: int|
            0 <= k < data.count() ==> 0 <= #[trigger] grapheme_count(data, k) <= usize::MAX,
{
    assert(data.kinds.len() <= usize::MAX);
    assert forall|k: int| 0 <= k < data.count() implies 0 <= #[trigger] grapheme_count(data, k)
        <= usize::MAX by {
        if let Some(widths) = data.breakable_widths@[k] {
            assert(widths.len() <= usize::MAX);
        }
    }
}

pub(crate) proof fn lemma_hard_break_bounds<W: Scalar>(data: &PreparedData<W>, from: int)
    requires
        0 <= from <= data.count(),
    ensures
        from <= hard_break_from(data, from) <= data.count(),
        hard_break_from(data, from) < data.count() ==> data.kinds@[hard_break_from(data, from)]
            == SegmentKind::HardBreak,
        forall|k: int|
            from <= k < hard_break_from(data, from) ==> #[trigger] data.kinds@[k]
                != SegmentKind::HardBreak,
    decreases data.count() - from,
{
    if from < data.count() && data.kinds@[from] != SegmentKind::HardBreak {
        lemma_hard_break_bounds(data, from + 1);
    }
}

// ---- Walked and streamed lines agree ------------------------------------------

/// Whether a text was prepared, and its arithmetic is ordered as the laws ask.
#[verifier::opaque]
pub open spec fn ordered_for<W: Scalar>(data: &PreparedData<W>) -> bool {
    ordered_arithmetic::<W>() && data.well_formed()
}

proof fn lemma_sum_nonnegative<W: Scalar>(values: Seq<W>)
    requires
        ordered_arithmetic::<W>(),
        forall|k: int| 0 <= k < values.len() ==> nonnegative(#[trigger] values[k]),
    ensures
        nonnegative(sum_of(values)),
    decreases values.len(),
{
    if values.len() > 0 {
        assert forall|k: int| 0 <= k < values.drop_last().len() implies nonnegative(
            #[trigger] values.drop_last()[k],
        ) by {
            assert(values.drop_last()[k] == values[k]);
        }
        lemma_sum_nonnegative(values.drop_last());
        assert(nonnegative(values.last()));
    }
}

pub(crate) proof fn lemma_remaining_nonnegative<W: Scalar>(data: &PreparedData<W>, index: int, grapheme: int)
    requires
        ordered_arithmetic::<W>(),
        data.well_formed(),
        0 <= index < data.count(),
        0 <= grapheme,
    ensures
        nonnegative(remaining_width(data, index, grapheme)),
{
    assert(is_width(data.widths@[index]));
    if let Some(widths) = data.breakable(index) {
        let rest = widths.skip(least_int(grapheme, widths.len() as int));
        assert forall|k: int| 0 <= k < rest.len() implies nonnegative(#[trigger] rest[k]) by {
            assert(rest[k] == data.breakable(index)->0[k + least_int(
                grapheme,
                widths.len() as int,
            )]);
        }
        lemma_sum_nonnegative(rest);
    }
}

pub(crate) proof fn lemma_advance_nonnegative<W: Scalar>(
    data: &PreparedData<W>,
    start: int,
    grapheme: int,
    index: int,
)
    requires
        ordered_for(data),
        0 <= start,
        0 <= grapheme,
        index <= data.count(),
    ensures
        nonnegative(line_advance(data, start, grapheme, index)),
    decreases index - start,
{
    reveal(ordered_for);
    if index > start {
        lemma_advance_nonnegative(data, start, grapheme, index - 1);
        let before = line_advance(data, start, grapheme, index - 1);
        let entry = entry_grapheme(start, grapheme, index - 1);
        if data.kinds@[index - 1] == SegmentKind::Tab {
            assert(is_width(data.tab_stop_advance));
            assert(nonnegative(
                before.plus(tab_advance_value(before, data.tab_stop_advance)),
            ));
        } else {
            lemma_remaining_nonnegative(data, index - 1, entry);
            assert(nonnegative(before.plus(remaining_width(data, index - 1, entry))));
        }
    }
}

/// A line grows from segment to segment.
pub(crate) proof fn lemma_advance_grows<W: Scalar>(
    data: &PreparedData<W>,
    start: int,
    grapheme: int,
    from: int,
    to: int,
)
    requires
        ordered_for(data),
        0 <= start <= from <= to <= data.count(),
        0 <= grapheme,
    ensures
        line_advance(data, start, grapheme, from).at_most(
            line_advance(data, start, grapheme, to),
        ),
    decreases to - from,
{
    lemma_advance_nonnegative(data, start, grapheme, from);
    lemma_advance_nonnegative(data, start, grapheme, to);
    if from < to {
        lemma_advance_grows(data, start, grapheme, from, to - 1);
        lemma_advance_nonnegative(data, start, grapheme, to - 1);
        lemma_step_nonnegative(data, start, grapheme, to - 1);
    }
    reveal(ordered_for);
}

/// What a segment adds to a line is not negative.
proof fn lemma_step_nonnegative<W: Scalar>(
    data: &PreparedData<W>,
    start: int,
    grapheme: int,
    index: int,
)
    requires
        ordered_for(data),
        0 <= start <= index < data.count(),
        0 <= grapheme,
    ensures
        nonnegative(
            advance_of(
                data,
                index,
                entry_grapheme(start, grapheme, index),
                line_advance(data, start, grapheme, index),
            ),
        ),
{
    lemma_advance_nonnegative(data, start, grapheme, index);
    reveal(ordered_for);
    let before = line_advance(data, start, grapheme, index);
    if data.kinds@[index] == SegmentKind::Tab {
        assert(is_width(data.tab_stop_advance));
        assert(nonnegative(tab_advance_value(before, data.tab_stop_advance)));
    } else {
        lemma_remaining_nonnegative(data, index, entry_grapheme(start, grapheme, index));
    }
}

/// A tab that a line has come past within the limit is a place where it may end
/// and fits.
proof fn lemma_tab_fits<W: Scalar>(
    data: &PreparedData<W>,
    start: int,
    grapheme: int,
    tab: int,
    index: int,
    limit: W,
)
    requires
        ordered_for(data),
        nonnegative(limit),
        0 <= start <= tab < index < data.count(),
        0 <= grapheme,
        data.kinds@[tab] == SegmentKind::Tab,
        data.kinds@[index] == SegmentKind::Text,
        !overflows(data, start, grapheme, index, limit),
    ensures
        fits_after(data, start, grapheme, tab, limit),
{
    lemma_advance_nonnegative(data, start, grapheme, tab);
    lemma_advance_nonnegative(data, start, grapheme, index);
    lemma_advance_grows(data, start, grapheme, tab, index);
    reveal(ordered_for);
    let entry = entry_grapheme(start, grapheme, index);
    lemma_remaining_nonnegative(data, index, entry);
    let at_tab = line_advance(data, start, grapheme, tab);
    let at_text = line_advance(data, start, grapheme, index);
    let through = at_text.plus(remaining_width(data, index, entry));
    assert(at_text.at_most(through));
    assert(through.at_most(limit));
    assert(at_tab.at_most(through));
    assert(at_tab.at_most(limit));
    assert(hangs(data.kinds@[tab]));
    assert(at_tab.plus(W::zero_value()).at_most(limit));
    assert(visible(data.kinds@[tab]));
}

/// No segment behind the last one that fits fits.
pub(crate) proof fn lemma_none_fits_later<W: Scalar>(
    data: &PreparedData<W>,
    start: int,
    grapheme: int,
    index: int,
    later: int,
    limit: W,
)
    requires
        start <= later < index,
        last_fitting(data, start, grapheme, index, limit) matches Some(last) && last < later,
    ensures
        !fits_after(data, start, grapheme, later, limit),
    decreases index - later,
{
    if later < index - 1 {
        lemma_none_fits_later(data, start, grapheme, index - 1, later, limit);
    }
}

/// A line that starts later is no wider where both have arrived, as long as
/// there is no tab on the way.
proof fn lemma_later_start_is_narrower<W: Scalar>(
    data: &PreparedData<W>,
    start: int,
    grapheme: int,
    later: int,
    index: int,
)
    requires
        ordered_for(data),
        0 <= start < later <= index <= data.count(),
        0 <= grapheme,
        forall|k: int| later <= k < index ==> #[trigger] data.kinds@[k] != SegmentKind::Tab,
    ensures
        line_advance(data, later, 0, index).at_most(line_advance(data, start, grapheme, index)),
    decreases index - later,
{
    reveal(ordered_for);
    lemma_advance_nonnegative(data, start, grapheme, index);
    if index > later {
        lemma_later_start_is_narrower(data, start, grapheme, later, index - 1);
        lemma_advance_nonnegative(data, start, grapheme, index - 1);
        lemma_advance_nonnegative(data, later, 0, index - 1);
        let a = line_advance(data, later, 0, index - 1);
        let b = line_advance(data, start, grapheme, index - 1);
        assert(data.kinds@[index - 1] != SegmentKind::Tab);
        lemma_remaining_nonnegative(data, index - 1, 0);
        let w = remaining_width(data, index - 1, 0);
        assert(a.plus(w).at_most(b.plus(w)));
    }
}

pub(crate) proof fn lemma_last_fitting_stays<W: Scalar>(
    data: &PreparedData<W>,
    start: int,
    grapheme: int,
    index: int,
    earlier: int,
    limit: W,
)
    requires
        earlier <= index,
    ensures
        last_fitting(data, start, grapheme, index, limit) matches Some(last) ==> {
            &&& start <= last < index
            &&& fits_after(data, start, grapheme, last, limit)
            &&& last < earlier ==> last_fitting(data, start, grapheme, earlier, limit) == Some(last)
        },
    decreases index - start,
{
    if index > start && !fits_after(data, start, grapheme, index - 1, limit) && earlier < index {
        lemma_last_fitting_stays(data, start, grapheme, index - 1, earlier, limit);
    } else if index > start && !fits_after(data, start, grapheme, index - 1, limit) {
        lemma_last_fitting_stays(data, start, grapheme, index - 1, index - 1, limit);
    }
}

proof fn lemma_skipped_are_spaces<W: Scalar>(data: &PreparedData<W>, from: int, to: int)
    requires
        from <= to,
    ensures
        from <= skip_spaces(data, from, to) <= to,
        forall|k: int|
            from <= k < skip_spaces(data, from, to) ==> #[trigger] data.kinds@[k]
                == SegmentKind::Space,
    decreases to - from,
{
    if from < to && data.kinds@[from] == SegmentKind::Space {
        lemma_skipped_are_spaces(data, from + 1, to);
    }
}

proof fn lemma_first_break_from_earlier<W: Scalar>(
    data: &PreparedData<W>,
    start: int,
    grapheme: int,
    earlier: int,
    from: int,
    to: int,
    limit: W,
)
    requires
        earlier <= from <= to,
        forall|k: int|
            earlier <= k < from ==> #[trigger] break_at(data, start, grapheme, k, limit) is None,
    ensures
        first_break(data, start, grapheme, earlier, to, limit) == first_break(
            data,
            start,
            grapheme,
            from,
            to,
            limit,
        ),
    decreases from - earlier,
{
    if earlier < from {
        assert(break_at(data, start, grapheme, earlier, limit) is None);
        lemma_first_break_from_earlier(data, start, grapheme, earlier + 1, from, to, limit);
    }
}

/// A text that fits on a line fits on one that starts later.
proof fn lemma_text_still_fits<W: Scalar>(
    data: &PreparedData<W>,
    start: int,
    grapheme: int,
    later: int,
    index: int,
    limit: W,
)
    requires
        ordered_for(data),
        nonnegative(limit),
        0 <= start < later <= index < data.count(),
        0 <= grapheme,
        forall|k: int| later <= k < index ==> #[trigger] data.kinds@[k] != SegmentKind::Tab,
        !overflows(data, start, grapheme, index, limit),
    ensures
        !overflows(data, later, 0, index, limit),
{
    lemma_later_start_is_narrower(data, start, grapheme, later, index);
    lemma_advance_nonnegative(data, start, grapheme, index);
    lemma_advance_nonnegative(data, later, 0, index);
    reveal(ordered_for);
    lemma_remaining_nonnegative(data, index, 0);
    let a = line_advance(data, later, 0, index);
    let b = line_advance(data, start, grapheme, index);
    let w = remaining_width(data, index, 0);
    assert(a.plus(w).at_most(b.plus(w)));
    assert(nonnegative(a.plus(w)) && nonnegative(b.plus(w)));
}

/// After a break on account of the text at `at`, no text between the new line
/// start and `at` overflows the new line.
proof fn lemma_nothing_overflows_before<W: Scalar>(
    data: &PreparedData<W>,
    start: int,
    grapheme: int,
    at: int,
    limit: W,
)
    requires
        ordered_for(data),
        nonnegative(limit),
        0 <= start <= at < data.count(),
        0 <= grapheme,
        break_at(data, start, grapheme, at, limit) is Some,
        forall|k: int|
            start <= k < at ==> #[trigger] break_at(data, start, grapheme, k, limit) is None,
    ensures
        ({
            let next = break_at(data, start, grapheme, at, limit)->0.next;
            forall|j: int|
                next.segment_index() <= j < at ==> #[trigger] break_at(
                    data,
                    next.segment_index() as int,
                    next.grapheme_index() as int,
                    j,
                    limit,
                ) is None
        }),
{
    lemma_sizes(data);
    lemma_break_advances(data, start, grapheme, at, limit);
    let next = break_at(data, start, grapheme, at, limit)->0.next;
    lemma_last_fitting_stays(data, start, grapheme, at, at, limit);
    if let Some(last) = last_fitting(data, start, grapheme, at, limit) {
        lemma_skipped_are_spaces(data, last + 1, at);
        let later = next.segment_index() as int;
        assert forall|j: int| later <= j < at implies #[trigger] break_at(
            data,
            later,
            next.grapheme_index() as int,
            j,
            limit,
        ) is None by {
            if data.kinds@[j] == SegmentKind::Text {
                lemma_last_fitting_stays(data, start, grapheme, at, j, limit);
                assert(break_at(data, start, grapheme, j, limit) is None);
                assert(!overflows(data, start, grapheme, j, limit));
                assert forall|k: int| later <= k < j implies #[trigger] data.kinds@[k]
                    != SegmentKind::Tab by {
                    if data.kinds@[k] == SegmentKind::Tab {
                        lemma_tab_fits(data, start, grapheme, k, j, limit);
                        lemma_none_fits_later(data, start, grapheme, at, k, limit);
                    }
                }
                lemma_text_still_fits(data, start, grapheme, later, j, limit);
            }
        }
    }
}

/// The walk of one chunk, followed by the stream after it, is the stream from
/// where the walk began.
proof fn lemma_walk_is_stream<W: Scalar>(
    data: &PreparedData<W>,
    start: int,
    grapheme: int,
    from: int,
    end: int,
    consumed: int,
    limit: W,
)
    requires
        ordered_for(data),
        nonnegative(limit),
        data.count() < usize::MAX,
        0 <= start <= from <= end,
        start < end,
        end == hard_break_from(data, start),
        consumed == if end < data.count() {
            end + 1
        } else {
            end
        },
        0 <= grapheme,
        grapheme > 0 ==> grapheme < grapheme_count(data, start),
        forall|j: int|
            start <= j < from ==> #[trigger] break_at(data, start, grapheme, j, limit) is None,
    ensures
        as_ranges(lines_from(data, start, grapheme, from, end, consumed, limit)) + streamed_lines(
            data,
            cursor_at(consumed, 0),
            limit,
        ) == streamed_lines(data, cursor_at(start, grapheme), limit),
    decreases end - start, grapheme_count(data, start) - grapheme,
{
    lemma_first_break_from_earlier(data, start, grapheme, start, from, end, limit);
    lemma_hard_break_bounds(data, start);
    lemma_first_break(data, start, grapheme, start, end, limit);
    lemma_stream_from(data, start, grapheme, limit);
    lemma_lines_from(data, start, grapheme, from, end, consumed, limit);
    let lines = lines_from(data, start, grapheme, from, end, consumed, limit);
    let rest = streamed_lines(data, cursor_at(consumed, 0), limit);
    match first_break(data, start, grapheme, start, end, limit) {
        Some(at) => {
            let line_break = break_at(data, start, grapheme, at, limit)->0;
            lemma_break_advances(data, start, grapheme, at, limit);
            lemma_nothing_overflows_before(data, start, grapheme, at, limit);
            let s = line_break.next.segment_index() as int;
            let g = line_break.next.grapheme_index() as int;
            lemma_hard_break_later(data, start, s);
            lemma_walk_is_stream(data, s, g, at, end, consumed, limit);
            let tail = lines_from(data, s, g, at, end, consumed, limit);
            lemma_as_ranges_cons(broken_line(start, grapheme, line_break), tail, rest);
        },
        None => {
            let line = closing_line(data, start, grapheme, end, consumed);
            lemma_as_ranges_cons(line, Seq::empty(), rest);
            assert(seq![line] + Seq::<InternalLine<W>>::empty() =~= seq![line]);
            assert(as_ranges(Seq::<InternalLine<W>>::empty()) + rest =~= rest);
        },
    }
}

proof fn lemma_as_ranges_cons<W: Scalar>(
    line: InternalLine<W>,
    tail: Seq<InternalLine<W>>,
    rest: Seq<LayoutLineRange<W>>,
)
    ensures
        as_ranges(seq![line] + tail) + rest == seq![as_range(line)] + (as_ranges(tail) + rest),
{
    assert(as_ranges(seq![line] + tail) =~= seq![as_range(line)] + as_ranges(tail));
    assert(as_ranges(seq![line] + tail) + rest =~= seq![as_range(line)] + (as_ranges(tail)
        + rest));
}

pub(crate) proof fn lemma_lines_from<W: Scalar>(
    data: &PreparedData<W>,
    start: int,
    grapheme: int,
    from: int,
    end: int,
    consumed: int,
    limit: W,
)
    requires
        0 <= start <= from,
        0 <= grapheme,
        end <= data.count(),
    ensures
        lines_from(data, start, grapheme, from, end, consumed, limit) == match first_break(
            data,
            start,
            grapheme,
            from,
            end,
            limit,
        ) {
            Some(at) => {
                let line_break = break_at(data, start, grapheme, at, limit)->0;
                seq![broken_line(start, grapheme, line_break)] + lines_from(
                    data,
                    line_break.next.segment_index() as int,
                    line_break.next.grapheme_index() as int,
                    at,
                    end,
                    consumed,
                    limit,
                )
            },
            None => seq![closing_line(data, start, grapheme, end, consumed)],
        },
{
    lemma_first_break(data, start, grapheme, from, end, limit);
    if let Some(at) = first_break(data, start, grapheme, from, end, limit) {
        lemma_break_advances(data, start, grapheme, at, limit);
    }
}

/// The stream from a normal cursor, by the break that ends its first line.
proof fn lemma_stream_from<W: Scalar>(data: &PreparedData<W>, start: int, grapheme: int, limit: W)
    requires
        data.count() < usize::MAX,
        0 <= start < data.count(),
        0 <= grapheme,
        grapheme > 0 ==> grapheme < grapheme_count(data, start),
    ensures
        ({
            let end = hard_break_from(data, start);
            let consumed = if end < data.count() {
                end + 1
            } else {
                end
            };
            streamed_lines(data, cursor_at(start, grapheme), limit) == match first_break(
                data,
                start,
                grapheme,
                start,
                end,
                limit,
            ) {
                Some(at) => {
                    let line_break = break_at(data, start, grapheme, at, limit)->0;
                    seq![as_range(broken_line(start, grapheme, line_break))] + streamed_lines(
                        data,
                        line_break.next,
                        limit,
                    )
                },
                None => seq![as_range(closing_line(data, start, grapheme, end, consumed))]
                    + streamed_lines(data, cursor_at(consumed, 0), limit),
            }
        }),
{
    lemma_sizes(data);
    lemma_hard_break_bounds(data, start);
    assert(0 <= grapheme_count(data, start) <= usize::MAX);
    let cursor = cursor_at(start, grapheme);
    assert(normalized(data, cursor) == cursor);
}

proof fn lemma_hard_break_later<W: Scalar>(data: &PreparedData<W>, from: int, later: int)
    requires
        0 <= from <= later <= hard_break_from(data, from),
    ensures
        hard_break_from(data, later) == hard_break_from(data, from),
    decreases later - from,
{
    if from < later {
        lemma_hard_break_later(data, from + 1, later);
    }
}

pub(crate) proof fn lemma_hard_break_of_kinds<W: Scalar>(data: &PreparedData<W>, from: int)
    requires
        0 <= from <= data.count(),
        data.kinds@.len() == data.count(),
    ensures
        next_hard_break(data.kinds@, from) == hard_break_from(data, from),
    decreases data.count() - from,
{
    if from < data.count() && data.kinds@[from] != SegmentKind::HardBreak {
        lemma_hard_break_of_kinds(data, from + 1);
    }
}

/// The lines of the chunks from `start` on are the stream from there.
proof fn lemma_chunks_are_stream<W: Scalar>(
    data: &PreparedData<W>,
    chunks: Seq<PreparedLineChunk>,
    start: int,
    limit: W,
)
    requires
        ordered_for(data),
        nonnegative(limit),
        0 < data.count() < usize::MAX,
        data.kinds@.len() == data.count(),
        0 <= start <= data.count(),
        start == data.count() ==> ends_in_hard_break(data),
        chunks == chunks_from(data.kinds@, start),
    ensures
        as_ranges(all_chunk_lines(data, chunks, limit)) == streamed_lines(
            data,
            cursor_at(start, 0),
            limit,
        ),
    decreases data.count() - start,
{
    lemma_sizes(data);
    lemma_hard_break_bounds(data, start);
    lemma_hard_break_of_kinds(data, start);
    let count = data.count() as int;
    let end = hard_break_from(data, start);
    let chunk = chunks[0];
    let consumed = if end < count {
        end + 1
    } else {
        end
    };
    assert(chunk_bounds(data, chunk) == (start, end, consumed));
    let head = chunk_lines(data, chunk, limit);
    if start < end {
        lemma_walk_is_stream(data, start, 0, start, end, consumed, limit);
    } else {
        // A chunk without segments is one empty line.
        lemma_first_break(data, start, 0, start, end, limit);
        assert(head == seq![closing_line(data, start, 0, end, consumed)]);
        assert(as_ranges(head) =~= seq![as_range(closing_line(data, start, 0, end, consumed))]);
        let rest = streamed_lines(data, cursor_at(consumed, 0), limit);
        assert(normalized(data, cursor_at(start, 0)) == cursor_at(start, 0));
        if start < count {
            assert(as_ranges(head) + rest =~= streamed_lines(data, cursor_at(start, 0), limit));
        } else {
            assert(streamed_lines(data, cursor_at(count + 1, 0), limit) =~= Seq::empty());
            assert(as_ranges(head) =~= streamed_lines(data, cursor_at(start, 0), limit));
        }
    }
    if end < count {
        let tail = chunks_from(data.kinds@, end + 1);
        assert(chunks =~= seq![chunk] + tail);
        lemma_chunks_are_stream(data, tail, end + 1, limit);
        lemma_chunk_lines_split(data, seq![chunk], tail, limit);
        lemma_one_chunk(data, chunk, limit);
        assert(as_ranges(all_chunk_lines(data, chunks, limit)) =~= as_ranges(head) + as_ranges(
            all_chunk_lines(data, tail, limit),
        ));
    } else {
        assert(chunks =~= seq![chunk]);
        lemma_one_chunk(data, chunk, limit);
        if start < end {
            assert(streamed_lines(data, cursor_at(count, 0), limit) =~= Seq::empty());
            assert(as_ranges(head) + Seq::<LayoutLineRange<W>>::empty() =~= as_ranges(head));
        }
    }
}

pub(crate) proof fn lemma_one_chunk<W: Scalar>(data: &PreparedData<W>, chunk: PreparedLineChunk, limit: W)
    ensures
        all_chunk_lines(data, seq![chunk], limit) == chunk_lines(data, chunk, limit),
{
    assert(seq![chunk].drop_last() =~= Seq::<PreparedLineChunk>::empty());
    assert(all_chunk_lines(data, seq![chunk].drop_last(), limit) =~= Seq::empty());
    assert(all_chunk_lines(data, seq![chunk], limit) =~= chunk_lines(data, chunk, limit));
}

pub(crate) proof fn lemma_chunk_lines_split<W: Scalar>(
    data: &PreparedData<W>,
    head: Seq<PreparedLineChunk>,
    tail: Seq<PreparedLineChunk>,
    limit: W,
)
    ensures
        all_chunk_lines(data, head + tail, limit) == all_chunk_lines(data, head, limit)
            + all_chunk_lines(data, tail, limit),
    decreases tail.len(),
{
    if tail.len() == 0 {
        assert(head + tail =~= head);
        assert(all_chunk_lines(data, head, limit) + all_chunk_lines(data, tail, limit)
            =~= all_chunk_lines(data, head, limit));
    } else {
        assert((head + tail).drop_last() =~= head + tail.drop_last());
        lemma_chunk_lines_split(data, head, tail.drop_last(), limit);
        assert(all_chunk_lines(data, head + tail, limit) =~= all_chunk_lines(data, head, limit)
            + all_chunk_lines(data, tail, limit));
    }
}

/// Counting, walking and streaming agree: on prepared text the walked lines
/// are the lines that streaming from the start gives, one for one.
///
pub proof fn walked_lines_are_streamed_lines<W: Scalar>(data: &PreparedData<W>, limit: W)
    requires
        data.well_formed(),
        ordered_arithmetic::<W>(),
        nonnegative(limit),
        data.count() < usize::MAX,
    ensures
        as_ranges(walked_lines(data, limit)) == streamed_lines(data, cursor_at(0, 0), limit),
{
    assert(ordered_for(data)) by {
        reveal(ordered_for);
    }
    if data.count() == 0 {
        assert(streamed_lines(data, cursor_at(1, 0), limit) =~= Seq::empty());
        assert(as_ranges(walked_lines(data, limit)) =~= streamed_lines(
            data,
            cursor_at(0, 0),
            limit,
        ));
    } else {
        lemma_chunks_are_stream(data, data.chunks@, 0, limit);
        if data.simple_fast_path {
            lemma_simple_is_full(data, limit);
        }
    }
}

/// On text that needs no chunks the two walkers give the same lines.
pub proof fn lemma_simple_is_full<W: Scalar>(data: &PreparedData<W>, limit: W)
    requires
        data.well_formed(),
        forall|i: int| 0 <= i < data.count() ==> #[trigger] data.kinds@[i]
            != SegmentKind::HardBreak,
    ensures
        simple_lines(data, limit) == full_lines(data, limit),
{
    if data.count() > 0 {
        lemma_sizes(data);
        lemma_hard_break_bounds(data, 0);
        lemma_hard_break_of_kinds(data, 0);
        let chunk = data.chunks@[0];
        assert(data.chunks@ =~= seq![chunk]);
        lemma_one_chunk(data, chunk, limit);
        assert(chunk_bounds(data, chunk) == (0int, data.count() as int, data.count() as int));
    }
}

// ---- Lines cover the text, and end where they may ------------------------------

/// Whether `next` starts where `line` ends, up to collapsible spaces that
/// belong to neither.
pub open spec fn meets<W: Scalar>(
    data: &PreparedData<W>,
    line: InternalLine<W>,
    next: InternalLine<W>,
) -> bool {
    ||| line.end_segment == next.start_segment && line.end_grapheme == next.start_grapheme
    ||| {
        &&& line.end_grapheme == 0 && next.start_grapheme == 0
        &&& line.end_segment <= next.start_segment
        &&& forall|k: int|
            line.end_segment <= k < next.start_segment ==> #[trigger] data.kinds@[k]
                == SegmentKind::Space
    }
}

/// Whether lines cover the text from a cursor to a boundary, in order, with
/// nothing twice and nothing but collapsible spaces left out.
pub open spec fn cover<W: Scalar>(
    data: &PreparedData<W>,
    lines: Seq<InternalLine<W>>,
    start: int,
    grapheme: int,
    end: int,
) -> bool {
    &&& lines.len() > 0
    &&& lines.first().start_segment == start
    &&& lines.first().start_grapheme == grapheme
    &&& lines.last().end_segment == end
    &&& lines.last().end_grapheme == 0
    &&& forall|i: int|
        0 <= i < lines.len() - 1 ==> meets(data, #[trigger] lines[i], lines[i + 1])
}

/// Whether a line ends where a line may end.
///
/// A hyphen is painted only after a soft hyphen and only where it fits. Text
/// that glue attaches to the line is neither left for the next line nor split.
/// Where lines are bounded, its width is a measurement.
pub open spec fn ends_properly<W: Scalar>(
    data: &PreparedData<W>,
    line: InternalLine<W>,
    limit: W,
) -> bool {
    let end = line.end_segment as int;
    &&& line.start_segment <= end <= data.count()
    &&& line.start_segment == end ==> line.start_grapheme <= line.end_grapheme
    &&& lines_bounded(data) ==> is_width(line.width)
    &&& line.ends_with_discretionary_hyphen ==> {
        &&& line.end_grapheme == 0 && end > 0
        &&& data.kinds@[end - 1] == SegmentKind::SoftHyphen
        &&& line.width.at_most(limit)
    }
    &&& line.end_grapheme == 0 && line.start_segment < end < data.count() ==> data.kinds@[end - 1]
        != SegmentKind::Glue
    &&& line.end_grapheme > 0 ==> {
        &&& end < data.count()
        &&& data.kinds@[end] == SegmentKind::Text
        &&& line.end_grapheme < grapheme_count(data, end)
        &&& line.start_segment < end ==> data.kinds@[end - 1] != SegmentKind::Glue
    }
}

proof fn lemma_break_is_proper<W: Scalar>(
    data: &PreparedData<W>,
    start: int,
    grapheme: int,
    at: int,
    limit: W,
)
    requires
        data.well_formed(),
        0 <= start <= at < data.count(),
        0 <= grapheme <= usize::MAX,
        break_at(data, start, grapheme, at, limit) is Some,
        forall|k: int| start <= k <= at ==> #[trigger] data.kinds@[k] != SegmentKind::HardBreak,
    ensures
        ({
            let b = break_at(data, start, grapheme, at, limit)->0;
            &&& ends_properly(data, broken_line(start, grapheme, b), limit)
            &&& b.end.segment_index() <= b.next.segment_index()
            &&& b.end == b.next || {
                &&& b.end.grapheme_index() == 0 && b.next.grapheme_index() == 0
                &&& forall|k: int|
                    b.end.segment_index() <= k < b.next.segment_index() ==> #[trigger] data.kinds@[k]
                        == SegmentKind::Space
            }
        }),
{
    lemma_sizes(data);
    assert(0 <= grapheme_count(data, at) <= usize::MAX);
    lemma_last_fitting_stays(data, start, grapheme, at, at, limit);
    if lines_bounded(data) {
        lemma_break_measures(data, start, grapheme, at, limit);
    }
    if let Some(last) = last_fitting(data, start, grapheme, at, limit) {
        lemma_skipped_are_spaces(data, last + 1, at);
        assert(fits_after(data, start, grapheme, last, limit));
    }
}

/// A streamed line starts at its cursor, ends behind it, and the next cursor
/// stands at its end, up to collapsible spaces.
pub(crate) proof fn lemma_streamed_line<W: Scalar>(
    data: &PreparedData<W>,
    cursor: LayoutCursor,
    limit: W,
)
    requires
        data.well_formed(),
        cursor.segment_index() < data.count(),
        normalized(data, cursor) == cursor,
    ensures
        next_line(data, cursor, limit) matches Some((line, next)) && {
            &&& line.start == cursor
            &&& cursor.segment_index() <= line.end.segment_index() <= data.count()
            &&& line.end.segment_index() == cursor.segment_index() ==> cursor.grapheme_index()
                <= line.end.grapheme_index()
            &&& line.end.segment_index() <= next.segment_index() <= data.count()
            &&& next.segment_index() == data.count() ==> line.end == next && next.grapheme_index() == 0
            &&& next.grapheme_index() > 0 ==> next.grapheme_index() < grapheme_count(
                data,
                next.segment_index() as int,
            )
            &&& lines_bounded(data) ==> is_width(line.width)
            &&& line.end == next || {
                &&& line.end.grapheme_index() == 0 && next.grapheme_index() == 0
                &&& forall|k: int|
                    line.end.segment_index() <= k < next.segment_index() ==> #[trigger] data.kinds@[k]
                        == SegmentKind::Space
            }
        },
{
    lemma_sizes(data);
    let start = cursor.segment_index() as int;
    let grapheme = cursor.grapheme_index() as int;
    lemma_hard_break_bounds(data, start);
    let end = hard_break_from(data, start);
    lemma_first_break(data, start, grapheme, start, end, limit);
    if let Some(at) = first_break(data, start, grapheme, start, end, limit) {
        lemma_break_advances(data, start, grapheme, at, limit);
        lemma_break_is_proper(data, start, grapheme, at, limit);
    } else if lines_bounded(data) {
        lemma_paint_measures(data, start, grapheme, end);
    }
}

proof fn lemma_lines_from_cover<W: Scalar>(
    data: &PreparedData<W>,
    start: int,
    grapheme: int,
    from: int,
    end: int,
    consumed: int,
    limit: W,
)
    requires
        data.well_formed(),
        0 <= start <= from <= end <= consumed <= data.count(),
        0 <= grapheme <= usize::MAX,
        grapheme > 0 ==> start < end,
        consumed < data.count() ==> data.kinds@[consumed - 1] == SegmentKind::HardBreak,
        forall|k: int| start <= k < end ==> #[trigger] data.kinds@[k] != SegmentKind::HardBreak,
    ensures
        cover(
            data,
            lines_from(data, start, grapheme, from, end, consumed, limit),
            start,
            grapheme,
            consumed,
        ),
        forall|i: int|
            0 <= i < lines_from(data, start, grapheme, from, end, consumed, limit).len()
                ==> ends_properly(
                data,
                #[trigger] lines_from(data, start, grapheme, from, end, consumed, limit)[i],
                limit,
            ),
    decreases end - start, grapheme_count(data, start) - grapheme,
{
    lemma_sizes(data);
    lemma_first_break(data, start, grapheme, from, end, limit);
    lemma_lines_from(data, start, grapheme, from, end, consumed, limit);
    let lines = lines_from(data, start, grapheme, from, end, consumed, limit);
    match first_break(data, start, grapheme, from, end, limit) {
        Some(at) => {
            let b = break_at(data, start, grapheme, at, limit)->0;
            lemma_break_advances(data, start, grapheme, at, limit);
            lemma_break_is_proper(data, start, grapheme, at, limit);
            let s = b.next.segment_index() as int;
            let g = b.next.grapheme_index() as int;
            lemma_lines_from_cover(data, s, g, at, end, consumed, limit);
            let tail = lines_from(data, s, g, at, end, consumed, limit);
            lemma_cover_cons(data, broken_line(start, grapheme, b), tail, s, g, consumed);
            assert forall|i: int| 0 <= i < lines.len() implies ends_properly(
                data,
                #[trigger] lines[i],
                limit,
            ) by {
                if i > 0 {
                    assert(lines[i] == tail[i - 1]);
                }
            }
        },
        None => {
            assert(lines.len() == 1);
            if lines_bounded(data) {
                lemma_paint_measures(data, start, grapheme, end);
            }
        },
    }
}

proof fn lemma_cover_cons<W: Scalar>(
    data: &PreparedData<W>,
    line: InternalLine<W>,
    tail: Seq<InternalLine<W>>,
    start: int,
    grapheme: int,
    end: int,
)
    requires
        cover(data, tail, start, grapheme, end),
        meets(data, line, tail.first()),
    ensures
        cover(
            data,
            seq![line] + tail,
            line.start_segment as int,
            line.start_grapheme as int,
            end,
        ),
{
    let lines = seq![line] + tail;
    assert forall|i: int| 0 <= i < lines.len() - 1 implies meets(
        data,
        #[trigger] lines[i],
        lines[i + 1],
    ) by {
        if i > 0 {
            assert(lines[i] == tail[i - 1]);
            assert(lines[i + 1] == tail[i - 1 + 1]);
        }
    }
}

proof fn lemma_cover_concat<W: Scalar>(
    data: &PreparedData<W>,
    head: Seq<InternalLine<W>>,
    tail: Seq<InternalLine<W>>,
    start: int,
    grapheme: int,
    middle: int,
    end: int,
)
    requires
        cover(data, head, start, grapheme, middle),
        cover(data, tail, middle, 0, end),
    ensures
        cover(data, head + tail, start, grapheme, end),
{
    let lines = head + tail;
    assert forall|i: int| 0 <= i < lines.len() - 1 implies meets(
        data,
        #[trigger] lines[i],
        lines[i + 1],
    ) by {
        if i < head.len() - 1 {
            assert(lines[i] == head[i]);
            assert(lines[i + 1] == head[i + 1]);
        } else if i >= head.len() {
            assert(lines[i] == tail[i - head.len()]);
            assert(lines[i + 1] == tail[i - head.len() + 1]);
        } else {
            assert(lines[i] == head.last());
            assert(lines[i + 1] == tail.first());
        }
    }
}

proof fn lemma_chunk_lines_cover<W: Scalar>(
    data: &PreparedData<W>,
    chunks: Seq<PreparedLineChunk>,
    start: int,
    limit: W,
)
    requires
        data.well_formed(),
        0 <= start <= data.count(),
        chunks == chunks_from(data.kinds@, start),
    ensures
        cover(data, all_chunk_lines(data, chunks, limit), start, 0, data.count() as int),
        forall|i: int|
            0 <= i < all_chunk_lines(data, chunks, limit).len() ==> ends_properly(
                data,
                #[trigger] all_chunk_lines(data, chunks, limit)[i],
                limit,
            ),
    decreases data.count() - start,
{
    lemma_sizes(data);
    lemma_hard_break_bounds(data, start);
    lemma_hard_break_of_kinds(data, start);
    let count = data.count() as int;
    let end = hard_break_from(data, start);
    let chunk = chunks[0];
    let consumed = if end < count {
        end + 1
    } else {
        end
    };
    assert(chunk_bounds(data, chunk) == (start, end, consumed));
    let head = chunk_lines(data, chunk, limit);
    lemma_lines_from_cover(data, start, 0, start, end, consumed, limit);
    lemma_one_chunk(data, chunk, limit);
    if end < count {
        let rest = chunks_from(data.kinds@, end + 1);
        assert(chunks =~= seq![chunk] + rest);
        lemma_chunk_lines_cover(data, rest, end + 1, limit);
        lemma_chunk_lines_split(data, seq![chunk], rest, limit);
        let tail = all_chunk_lines(data, rest, limit);
        lemma_cover_concat(data, head, tail, start, 0, end + 1, count);
        let lines = all_chunk_lines(data, chunks, limit);
        assert forall|i: int| 0 <= i < lines.len() implies ends_properly(
            data,
            #[trigger] lines[i],
            limit,
        ) by {
            if i >= head.len() {
                assert(lines[i] == tail[i - head.len()]);
            } else {
                assert(lines[i] == head[i]);
            }
        }
    } else {
        assert(chunks =~= seq![chunk]);
    }
}

pub(crate) proof fn lemma_walked_lines<W: Scalar>(data: &PreparedData<W>, limit: W)
    requires
        data.well_formed(),
    ensures
        cover(data, walked_lines(data, limit), 0, 0, data.count() as int),
        forall|i: int|
            0 <= i < walked_lines(data, limit).len() ==> ends_properly(
                data,
                #[trigger] walked_lines(data, limit)[i],
                limit,
            ),
{
    if data.count() > 0 {
        lemma_chunk_lines_cover(data, data.chunks@, 0, limit);
        if data.simple_fast_path {
            lemma_simple_is_full(data, limit);
        }
    }
}

/// Laying out drops nothing and repeats nothing: the lines run from the start
/// of the text to its end, each begins where the one before it ended, and only
/// collapsible spaces fall between two lines.
pub proof fn lines_cover_the_text<W: Scalar>(data: &PreparedData<W>, limit: W)
    requires
        data.well_formed(),
    ensures
        cover(data, walked_lines(data, limit), 0, 0, data.count() as int),
{
    lemma_walked_lines(data, limit);
}

/// A hyphen is painted only by a line that ends at a soft hyphen and still
/// fits with the hyphen on it.
pub proof fn hyphens_are_selected_soft_hyphens<W: Scalar>(
    data: &PreparedData<W>,
    limit: W,
    line: InternalLine<W>,
)
    requires
        data.well_formed(),
        walked_lines(data, limit).contains(line),
        line.ends_with_discretionary_hyphen,
    ensures
        line.end_grapheme == 0,
        0 < line.end_segment <= data.count(),
        data.kinds@[line.end_segment - 1] == SegmentKind::SoftHyphen,
        line.width.at_most(limit),
{
    lemma_walked_lines(data, limit);
}

/// Glue never becomes a break boundary: a line that ends inside the text does
/// not end right after glue that it holds, and does not split the text that
/// such glue attaches to it.
pub proof fn glue_is_never_a_boundary<W: Scalar>(
    data: &PreparedData<W>,
    limit: W,
    line: InternalLine<W>,
)
    requires
        data.well_formed(),
        walked_lines(data, limit).contains(line),
        line.start_segment < line.end_segment < data.count(),
    ensures
        data.kinds@[line.end_segment - 1] != SegmentKind::Glue,
{
    lemma_walked_lines(data, limit);
}

/// Every line of a text that preparation accepted has a width that is a
/// measurement: no width overflows, at whatever limit the text is laid out.
pub proof fn line_widths_are_measurements<W: Scalar>(
    data: &PreparedData<W>,
    limit: W,
    line: InternalLine<W>,
)
    requires
        lines_bounded(data),
        walked_lines(data, limit).contains(line),
    ensures
        is_width(line.width),
{
    assert(data.well_formed()) by {
        reveal(lines_bounded);
    }
    lemma_walked_lines(data, limit);
}

/// The same of streamed lines, from wherever they are asked for.
pub proof fn streamed_widths_are_measurements<W: Scalar>(
    data: &PreparedData<W>,
    cursor: LayoutCursor,
    limit: W,
)
    requires
        lines_bounded(data),
    ensures
        next_line(data, cursor, limit) matches Some((line, next)) ==> is_width(line.width),
{
    assert(data.well_formed()) by {
        reveal(lines_bounded);
    }
    lemma_sizes(data);
    if cursor.segment_index() < data.count() {
        let from = normalized(data, cursor);
        assert(0 <= grapheme_count(data, from.segment_index() as int) <= usize::MAX);
        lemma_streamed_line(data, from, limit);
    }
}

} // verus!
