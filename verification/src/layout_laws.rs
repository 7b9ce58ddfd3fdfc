//! What holds of laid out text: streaming cursors stay usable, and the lines
//! give the text back.
use crate::layout::{
    grapheme_range, hidden, layout_outcome, line_text, lines_outcome, shown_text, splits_up,
    valid_cursor,
};
use crate::line_break::{
    cursor_at, first_break, fit_limit, grapheme_count, hard_break_from, least_int, lemma_break_advances,
    lemma_first_break, next_line, normalized, walked_lines, InternalLine,
};
use crate::line_laws::{
    as_range, as_ranges, ends_properly, lemma_hard_break_bounds, lemma_stream_step,
    lemma_walked_lines, meets, streamed_lines, walked_lines_are_streamed_lines,
};
use crate::prepare::{aligned, joins_up};
use crate::scalar::{is_measure, nonnegative, ordered_arithmetic, Scalar};
use crate::segmentation::grapheme_clusters;
use crate::text::{joined, lemma_joined_concat};
use crate::types::{
    LayoutCursor, LayoutLine, LayoutResult, PreparedData, RichText, SegmentKind,
};
use vstd::prelude::*;

verus! {

/// The cursor that a line is returned with is accepted for the next line: no
/// caller can be handed a cursor that stands nowhere in the text.
pub proof fn streamed_cursors_are_valid<W: Scalar>(
    data: &PreparedData<W>,
    cursor: LayoutCursor,
    limit: W,
)
    requires
        data.well_formed(),
        valid_cursor(data, cursor),
    ensures
        next_line(data, cursor, limit) matches Some((line, next)) ==> valid_cursor(data, next),
{
    assert(data.kinds.len() <= usize::MAX);
    if cursor.segment_index() < data.count() {
        let from = normalized(data, cursor);
        let start = from.segment_index() as int;
        let grapheme = from.grapheme_index() as int;
        lemma_hard_break_bounds(data, start);
        let end = hard_break_from(data, start);
        lemma_first_break(data, start, grapheme, start, end, limit);
        if let Some(at) = first_break(data, start, grapheme, start, end, limit) {
            lemma_break_advances(data, start, grapheme, at, limit);
        }
    }
}

/// Whether every call of the streaming surface from a cursor on is served: its
/// cursor is accepted, until there are no more lines.
pub open spec fn stream_is_served<W: Scalar>(
    data: &PreparedData<W>,
    cursor: LayoutCursor,
    limit: W,
) -> bool
    decreases
        data.count() + 1 - cursor.segment_index(),
        grapheme_count(data, cursor.segment_index() as int) - normalized(data, cursor).grapheme_index(),
    when data.count() < usize::MAX
{
    valid_cursor(data, cursor) && match next_line(data, cursor, limit) {
        Some((line, next)) => {
            proof {
                lemma_stream_step(data, cursor, limit);
            }
            stream_is_served(data, next, limit)
        },
        None => true,
    }
}

proof fn lemma_stream_is_served<W: Scalar>(
    data: &PreparedData<W>,
    cursor: LayoutCursor,
    limit: W,
)
    requires
        data.well_formed(),
        data.count() < usize::MAX,
        valid_cursor(data, cursor),
    ensures
        stream_is_served(data, cursor, limit),
    decreases
        data.count() + 1 - cursor.segment_index(),
        grapheme_count(data, cursor.segment_index() as int) - normalized(data, cursor).grapheme_index(),
{
    streamed_cursors_are_valid(data, cursor, limit);
    lemma_stream_step(data, cursor, limit);
    if let Some((line, next)) = next_line(data, cursor, limit) {
        lemma_stream_is_served(data, next, limit);
    }
}

/// Streaming serves the layout: from the first cursor on no call is refused,
/// the calls come to an end, and the lines they give are the walked lines,
/// field by field and as many as the fast path counts.
pub proof fn streaming_serves_the_layout<W: Scalar>(
    data: &PreparedData<W>,
    max_width: W,
    line_height: W,
    result: LayoutResult<W>,
)
    requires
        ordered_arithmetic::<W>(),
        data.well_formed(),
        data.count() < usize::MAX,
        layout_outcome(data, max_width, line_height, data.profile, Ok(result)),
    ensures
        ({
            let limit = fit_limit(max_width, data.profile);
            let streamed = streamed_lines(data, cursor_at(0, 0), limit);
            &&& stream_is_served(data, cursor_at(0, 0), limit)
            &&& streamed == as_ranges(walked_lines(data, limit))
            &&& result.line_count == streamed.len()
        }),
{
    let limit = fit_limit(max_width, data.profile);
    assert(is_measure(data.profile.line_fit_epsilon));
    assert(nonnegative(limit));
    lemma_stream_is_served(data, cursor_at(0, 0), limit);
    walked_lines_are_streamed_lines(data, limit);
}

/// The surfaces agree on the number of lines: the fast path counts as many as
/// are materialized.
pub proof fn surfaces_agree<W: Scalar>(
    rich: RichText<W>,
    max_width: W,
    line_height: W,
    result: LayoutResult<W>,
    lines: Vec<LayoutLine<W>>,
)
    requires
        layout_outcome(&rich.data, max_width, line_height, rich.data.profile, Ok(result)),
        lines_outcome(rich, max_width, Ok(lines)),
    ensures
        result.line_count == lines@.len(),
{
}

/// What a text shows before a cursor.
pub open spec fn text_before(
    segments: Seq<Seq<char>>,
    kinds: Seq<SegmentKind>,
    segment: int,
    grapheme: int,
) -> Seq<char> {
    shown_text(segments, kinds, 0, 0, 0, segment) + if grapheme > 0 && segment < segments.len()
        && !hidden(kinds[segment]) {
        grapheme_range(segments[segment], 0, grapheme)
    } else {
        Seq::empty()
    }
}

/// The text of a walked line without its hyphen.
pub open spec fn bare_text<W: Scalar>(rich: RichText<W>, line: InternalLine<W>) -> Seq<char> {
    let range = as_range(line);
    line_text(rich.segments, rich.data.kinds@, range.start, range.end, false)
}

/// The collapsible spaces that were dropped between two lines.
pub open spec fn dropped_text<W: Scalar>(
    rich: RichText<W>,
    line: InternalLine<W>,
    next: InternalLine<W>,
) -> Seq<char> {
    if line.end_segment < next.start_segment {
        joined(rich.segments.subrange(line.end_segment as int, next.start_segment as int))
    } else {
        Seq::empty()
    }
}

/// The texts of lines one after the other, with what was dropped between them.
pub open spec fn rejoined<W: Scalar>(rich: RichText<W>, lines: Seq<InternalLine<W>>) -> Seq<char>
    decreases lines.len(),
{
    if lines.len() == 0 {
        Seq::empty()
    } else if lines.len() == 1 {
        bare_text(rich, lines[0])
    } else {
        let last = lines.len() - 1;
        rejoined(rich, lines.drop_last()) + dropped_text(rich, lines[last - 1], lines[last])
            + bare_text(rich, lines[last])
    }
}

/// Everything that a text shows: its segments without soft hyphens and hard
/// breaks.
pub open spec fn visible_text<W: Scalar>(rich: RichText<W>) -> Seq<char> {
    shown_text(rich.segments, rich.data.kinds@, 0, 0, 0, rich.segments.len() as int)
}

proof fn lemma_grapheme_range_split(segment: Seq<char>, from: int, middle: int, to: int)
    requires
        0 <= from <= middle <= to,
    ensures
        grapheme_range(segment, from, middle) + grapheme_range(segment, middle, to)
            == grapheme_range(segment, from, to),
{
    let clusters = grapheme_clusters(segment);
    let count = clusters.len() as int;
    let a = least_int(from, count);
    let b = least_int(middle, count);
    let c = least_int(to, count);
    if a < b && b < c {
        assert(clusters.subrange(a, b) + clusters.subrange(b, c) =~= clusters.subrange(a, c));
        lemma_joined_concat(clusters.subrange(a, b), clusters.subrange(b, c));
    }
    assert(grapheme_range(segment, from, middle) + grapheme_range(segment, middle, to)
        =~= grapheme_range(segment, from, to));
}

proof fn lemma_grapheme_range_whole(segment: Seq<char>, to: int)
    requires
        joins_up(segment),
        grapheme_clusters(segment).len() <= to,
    ensures
        grapheme_range(segment, 0, to) == segment,
{
    let clusters = grapheme_clusters(segment);
    assert(clusters.subrange(0, clusters.len() as int) =~= clusters);
    if clusters.len() == 0 {
        assert(joined(clusters) =~= Seq::empty());
    }
}

/// The whole segments of a line continue the text before its start.
proof fn lemma_whole_segments(
    segments: Seq<Seq<char>>,
    kinds: Seq<SegmentKind>,
    start: int,
    grapheme: int,
    to: int,
)
    requires
        0 <= start < to <= segments.len(),
        segments.len() == kinds.len(),
        0 <= grapheme <= usize::MAX,
        grapheme > 0 && !hidden(kinds[start]) ==> splits_up(segments[start]),
    ensures
        text_before(segments, kinds, start, grapheme) + shown_text(
            segments,
            kinds,
            start,
            grapheme,
            start,
            to,
        ) == shown_text(segments, kinds, 0, 0, 0, to),
    decreases to,
{
    let before = text_before(segments, kinds, start, grapheme);
    if to == start + 1 {
        let plain = shown_text(segments, kinds, 0, 0, 0, start);
        assert(shown_text(segments, kinds, start, grapheme, start, start) =~= Seq::empty());
        if !hidden(kinds[start]) && grapheme > 0 {
            lemma_grapheme_range_split(segments[start], 0, grapheme, usize::MAX as int);
            lemma_grapheme_range_whole(segments[start], usize::MAX as int);
        }
        assert(before + shown_text(segments, kinds, start, grapheme, start, to) =~= shown_text(
            segments,
            kinds,
            0,
            0,
            0,
            to,
        ));
    } else {
        lemma_whole_segments(segments, kinds, start, grapheme, to - 1);
        assert(before + shown_text(segments, kinds, start, grapheme, start, to) =~= shown_text(
            segments,
            kinds,
            0,
            0,
            0,
            to,
        ));
    }
}

/// A range continues the text before its start up to the text before its end.
proof fn lemma_range_continues(
    segments: Seq<Seq<char>>,
    kinds: Seq<SegmentKind>,
    start: LayoutCursor,
    end: LayoutCursor,
)
    requires
        segments.len() == kinds.len(),
        !end.before(start),
        end.segment_index() <= segments.len(),
        start.grapheme_index() > 0 ==> start.segment_index() < segments.len() && (!hidden(
            kinds[start.segment_index() as int],
        ) ==> splits_up(segments[start.segment_index() as int])),
    ensures
        text_before(
            segments,
            kinds,
            start.segment_index() as int,
            start.grapheme_index() as int,
        ) + line_text(segments, kinds, start, end, false) == text_before(
            segments,
            kinds,
            end.segment_index() as int,
            end.grapheme_index() as int,
        ),
{
    let s = start.segment_index() as int;
    let e = end.segment_index() as int;
    let from = start.grapheme_index() as int;
    let to = end.grapheme_index() as int;
    let before = text_before(segments, kinds, s, from);
    let after = text_before(segments, kinds, e, to);
    let text = line_text(segments, kinds, start, end, false);
    if s < e {
        lemma_whole_segments(segments, kinds, s, from, e);
        assert(before + text =~= after);
    } else {
        assert(shown_text(segments, kinds, s, from, s, e) =~= Seq::empty());
        if e < segments.len() && !hidden(kinds[e]) && from > 0 {
            lemma_grapheme_range_split(segments[e], 0, from, to);
        }
        assert(before + text =~= after);
    }
}

/// A line continues the text before its start up to the text before its end.
pub(crate) proof fn lemma_line_continues<W: Scalar>(rich: RichText<W>, line: InternalLine<W>)
    requires
        aligned(rich),
        line.start_segment <= line.end_segment <= rich.data.count(),
        line.start_segment == line.end_segment ==> line.start_grapheme <= line.end_grapheme,
        line.start_grapheme > 0 ==> line.start_segment < rich.data.count() && rich.data.breakable(
            line.start_segment as int,
        ) is Some,
    ensures
        text_before(
            rich.segments,
            rich.data.kinds@,
            line.start_segment as int,
            line.start_grapheme as int,
        ) + bare_text(rich, line) == text_before(
            rich.segments,
            rich.data.kinds@,
            line.end_segment as int,
            line.end_grapheme as int,
        ),
{
    if line.start_grapheme > 0 {
        if let Some(widths) = rich.data.breakable_widths@[line.start_segment as int] {
            assert(widths.len() <= usize::MAX);
        }
    }
    let range = as_range(line);
    lemma_range_continues(rich.segments, rich.data.kinds@, range.start, range.end);
}

/// Whether a cursor stands at a place of segments: at a boundary, or at a
/// grapheme of one of them.
pub open spec fn place_in(segments: Seq<Seq<char>>, cursor: LayoutCursor) -> bool {
    ||| cursor.grapheme_index() == 0 && cursor.segment_index() <= segments.len()
    ||| cursor.segment_index() < segments.len() && cursor.grapheme_index() < grapheme_clusters(
        segments[cursor.segment_index() as int],
    ).len()
}

/// Neighboring ranges add up: for three cursors in order, the texts of the two
/// ranges are the text of the whole range.
///
/// Where a range starts inside a segment, the graphemes of that segment are its
/// text; materializing the range says so.
pub proof fn neighboring_ranges_add_up(
    segments: Seq<Seq<char>>,
    kinds: Seq<SegmentKind>,
    a: LayoutCursor,
    b: LayoutCursor,
    c: LayoutCursor,
)
    requires
        segments.len() == kinds.len(),
        place_in(segments, a) && place_in(segments, b) && place_in(segments, c),
        !b.before(a) && !c.before(b),
        a.grapheme_index() > 0 && !hidden(kinds[a.segment_index() as int]) ==> splits_up(
            segments[a.segment_index() as int],
        ),
        b.grapheme_index() > 0 && !hidden(kinds[b.segment_index() as int]) ==> splits_up(
            segments[b.segment_index() as int],
        ),
    ensures
        line_text(segments, kinds, a, b, false) + line_text(segments, kinds, b, c, false)
            == line_text(segments, kinds, a, c, false),
{
    lemma_range_continues(segments, kinds, a, b);
    lemma_range_continues(segments, kinds, b, c);
    lemma_range_continues(segments, kinds, a, c);
    let before = text_before(
        segments,
        kinds,
        a.segment_index() as int,
        a.grapheme_index() as int,
    );
    let first = line_text(segments, kinds, a, b, false);
    let second = line_text(segments, kinds, b, c, false);
    let whole = line_text(segments, kinds, a, c, false);
    assert(before + first + second == before + whole);
    assert((before + first + second).skip(before.len() as int) =~= first + second);
    assert((before + whole).skip(before.len() as int) =~= whole);
}

/// The segments that show, in order.
pub open spec fn shown_segments(segments: Seq<Seq<char>>, kinds: Seq<SegmentKind>) -> Seq<Seq<char>>
    decreases segments.len(),
{
    if segments.len() == 0 {
        Seq::empty()
    } else {
        let before = shown_segments(segments.drop_last(), kinds);
        if hidden(kinds[segments.len() - 1]) {
            before
        } else {
            before.push(segments.last())
        }
    }
}

proof fn lemma_shown_segments(segments: Seq<Seq<char>>, kinds: Seq<SegmentKind>, to: int)
    requires
        0 <= to <= segments.len(),
    ensures
        shown_text(segments, kinds, 0, 0, 0, to) == joined(
            shown_segments(segments.take(to), kinds),
        ),
    decreases to,
{
    if to > 0 {
        lemma_shown_segments(segments, kinds, to - 1);
        let run = segments.take(to);
        assert(run.drop_last() =~= segments.take(to - 1));
        let before = shown_segments(run.drop_last(), kinds);
        assert(before.push(segments[to - 1]).drop_last() =~= before);
        assert(shown_text(segments, kinds, 0, 0, 0, to) =~= joined(shown_segments(run, kinds)));
    }
}

/// The whole range is everything but soft hyphens and hard breaks: the text of
/// the range from the start to the end of some segments is those that show, one
/// after the other.
pub proof fn the_whole_range_is_what_shows(segments: Seq<Seq<char>>, kinds: Seq<SegmentKind>)
    requires
        segments.len() == kinds.len() <= usize::MAX,
    ensures
        line_text(
            segments,
            kinds,
            cursor_at(0, 0),
            cursor_at(segments.len() as int, 0),
            false,
        ) == joined(shown_segments(segments, kinds)),
{
    let count = segments.len() as int;
    lemma_shown_segments(segments, kinds, count);
    assert(segments.take(count) =~= segments);
    assert(line_text(segments, kinds, cursor_at(0, 0), cursor_at(count, 0), false)
        =~= shown_text(segments, kinds, 0, 0, 0, count));
}

/// What is dropped between two lines continues the text up to the next line.
pub(crate) proof fn lemma_drop_continues<W: Scalar>(
    rich: RichText<W>,
    line: InternalLine<W>,
    next: InternalLine<W>,
    to: int,
)
    requires
        aligned(rich),
        line.end_segment <= to <= next.start_segment <= rich.data.count(),
        forall|k: int|
            line.end_segment <= k < next.start_segment ==> #[trigger] rich.data.kinds@[k]
                == SegmentKind::Space,
    ensures
        text_before(rich.segments, rich.data.kinds@, line.end_segment as int, 0) + joined(
            rich.segments.subrange(line.end_segment as int, to),
        ) == text_before(rich.segments, rich.data.kinds@, to, 0),
    decreases to,
{
    let from = line.end_segment as int;
    let before = text_before(rich.segments, rich.data.kinds@, from, 0);
    let run = rich.segments.subrange(from, to);
    if to == from {
        assert(run =~= Seq::empty());
        assert(before + joined(run) =~= before);
    } else {
        lemma_drop_continues(rich, line, next, to - 1);
        assert(run.drop_last() =~= rich.segments.subrange(from, to - 1));
        assert(rich.data.kinds@[to - 1] == SegmentKind::Space);
        assert(before + joined(run) =~= text_before(rich.segments, rich.data.kinds@, to, 0));
    }
}

/// Lines that meet, from the start of the text on, give back the text before
/// the end of the last one.
proof fn lemma_rejoined<W: Scalar>(rich: RichText<W>, lines: Seq<InternalLine<W>>, limit: W)
    requires
        aligned(rich),
        lines.len() > 0,
        lines[0].start_segment == 0 && lines[0].start_grapheme == 0,
        forall|i: int| 0 <= i < lines.len() - 1 ==> meets(&rich.data, #[trigger] lines[i], lines[i + 1]),
        forall|i: int|
            0 <= i < lines.len() ==> ends_properly(&rich.data, #[trigger] lines[i], limit),
    ensures
        rejoined(rich, lines) == text_before(
            rich.segments,
            rich.data.kinds@,
            lines.last().end_segment as int,
            lines.last().end_grapheme as int,
        ),
    decreases lines.len(),
{
    let segments = rich.segments;
    let kinds = rich.data.kinds@;
    let last = lines.len() - 1;
    assert(ends_properly(&rich.data, lines[last], limit));
    if last == 0 {
        lemma_line_continues(rich, lines[0]);
        assert(text_before(segments, kinds, 0, 0) =~= Seq::empty());
        assert(rejoined(rich, lines) =~= text_before(segments, kinds, 0, 0) + bare_text(
            rich,
            lines[0],
        ));
    } else {
        let shorter = lines.drop_last();
        let line = lines[last - 1];
        let next = lines[last];
        assert forall|i: int| 0 <= i < shorter.len() - 1 implies meets(
            &rich.data,
            #[trigger] shorter[i],
            shorter[i + 1],
        ) by {
            assert(meets(&rich.data, lines[i], lines[i + 1]));
        }
        lemma_rejoined(rich, shorter, limit);
        assert(shorter.last() == line);
        assert(meets(&rich.data, line, next));
        assert(ends_properly(&rich.data, line, limit));
        let here = text_before(
            segments,
            kinds,
            line.end_segment as int,
            line.end_grapheme as int,
        );
        let there = text_before(
            segments,
            kinds,
            next.start_segment as int,
            next.start_grapheme as int,
        );
        if line.end_segment < next.start_segment {
            lemma_drop_continues(rich, line, next, next.start_segment as int);
        }
        assert(here + dropped_text(rich, line, next) =~= there);
        lemma_line_continues(rich, next);
        assert(rejoined(rich, lines) =~= there + bare_text(rich, next));
    }
}

/// The lines give the text back: one after the other, with the collapsible
/// spaces that were dropped where a line was broken, they are everything that
/// the text shows. No part of it is lost and none is shown twice.
pub proof fn lines_give_the_text_back<W: Scalar>(rich: RichText<W>, limit: W)
    requires
        aligned(rich),
    ensures
        rejoined(rich, walked_lines(&rich.data, limit)) == visible_text(rich),
{
    let lines = walked_lines(&rich.data, limit);
    lemma_walked_lines(&rich.data, limit);
    lemma_rejoined(rich, lines, limit);
    assert(lines[0] == lines.first());
    assert(text_before(rich.segments, rich.data.kinds@, rich.segments.len() as int, 0)
        =~= visible_text(rich));
}

proof fn lemma_shown_is_joined(segments: Seq<Seq<char>>, kinds: Seq<SegmentKind>, to: int)
    requires
        0 <= to <= segments.len(),
        segments.len() == kinds.len(),
        forall|k: int| 0 <= k < kinds.len() ==> !hidden(#[trigger] kinds[k]),
    ensures
        shown_text(segments, kinds, 0, 0, 0, to) == joined(segments.take(to)),
    decreases to,
{
    if to > 0 {
        lemma_shown_is_joined(segments, kinds, to - 1);
        assert(segments.take(to).drop_last() =~= segments.take(to - 1));
    } else {
        assert(segments.take(0) =~= Seq::empty());
    }
}

/// A text without soft hyphens and hard breaks is shown whole.
pub proof fn text_without_controls_is_shown_whole<W: Scalar>(rich: RichText<W>)
    requires
        aligned(rich),
        forall|k: int| 0 <= k < rich.data.count() ==> !hidden(#[trigger] rich.data.kinds@[k]),
    ensures
        visible_text(rich) == joined(rich.segments),
{
    lemma_shown_is_joined(rich.segments, rich.data.kinds@, rich.segments.len() as int);
    assert(rich.segments.take(rich.segments.len() as int) =~= rich.segments);
}

} // verus!
