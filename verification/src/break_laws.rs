//! Where the lines of a layout end, and how wide they are, said of the segments
//! alone: a line takes what it can, ends at the last place where it may, and
//! splits or overfills only where nothing else is left.
use crate::layout::{layout_outcome, line_text, lines_outcome, materializes, valid_cursor};
use crate::line_break::{
    break_at, chunk_bounds, cursor_at, first_break, first_overflow, fit_limit, fits_after,
    grapheme_count, hard_break_from, last_fitting, least_int, lemma_break_advances,
    lemma_first_break, line_advance, next_line, normalized, overflows, paints, skip_spaces, visible,
    walked_lines,
};
use crate::line_laws::{
    as_range, as_ranges, lemma_hard_break_bounds, lemma_last_fitting_stays, lemma_next_cursor,
    lemma_lines_from, lemma_none_fits_later, lemma_sizes, lemma_stream_step, streamed_lines,
    walked_lines_are_streamed_lines,
};
use crate::scalar::{
    nonnegative, ordered_arithmetic, sum_of, sum_onto, tab_advance_value, Scalar,
};
use crate::types::{
    EngineProfile, LayoutCursor, LayoutLine, LayoutLineRange, LayoutResult, PreparedData, RichText,
    SegmentKind,
};
use vstd::prelude::*;

verus! {

// ---- What is said of a line ---------------------------------------------------------------------

/// Whether the pen moves on over a segment as it should: over a tab to the next
/// tab stop, over the segment that the line starts inside by the graphemes that
/// are left of it, and over any other by its width.
pub open spec fn pen_moves<W: Scalar>(
    data: &PreparedData<W>,
    start: LayoutCursor,
    pen: Seq<W>,
    step: int,
) -> bool {
    let index = start.segment_index() + step;
    pen[step + 1] == pen[step].plus(
        if data.kinds@[index] == SegmentKind::Tab {
            tab_advance_value(pen[step], data.tab_stop_advance)
        } else if step == 0 && start.grapheme_index() > 0 && data.breakable(index) is Some {
            sum_of(data.breakable(index)->0.skip(start.grapheme_index() as int))
        } else {
            data.widths@[index]
        },
    )
}

/// Whether `pen` holds the positions of a pen that starts at zero at `start`:
/// one before every segment from there on, and one behind the last.
pub open spec fn pen_positions<W: Scalar>(
    data: &PreparedData<W>,
    start: LayoutCursor,
    pen: Seq<W>,
) -> bool {
    &&& start.segment_index() + pen.len() == data.count() + 1
    &&& pen.len() > 0
    &&& pen[0] == W::zero_value()
    &&& forall|step: int|
        0 <= step < pen.len() - 1 ==> #[trigger] pen_moves(data, start, pen, step)
}

/// Whether segments of this kind are shown on a line.
pub open spec fn shows(kind: SegmentKind) -> bool {
    match kind {
        SegmentKind::ZeroWidthBreak | SegmentKind::SoftHyphen | SegmentKind::HardBreak => false,
        _ => true,
    }
}

/// Whether something shows in `from..to`.
pub open spec fn something_shows<W: Scalar>(data: &PreparedData<W>, from: int, to: int) -> bool {
    exists|k: int| from <= k < to && shows(#[trigger] data.kinds@[k])
}

/// Whether a line could end behind segment `index`: there is a blank, a tab, a
/// zero-width break or a soft hyphen there, the line shows something up to it,
/// and what stands before it fits, with the hyphen that a soft hyphen needs.
pub open spec fn could_end_behind<W: Scalar>(
    data: &PreparedData<W>,
    start: LayoutCursor,
    pen: Seq<W>,
    index: int,
    limit: W,
) -> bool {
    &&& match data.kinds@[index] {
        SegmentKind::Text | SegmentKind::Glue | SegmentKind::HardBreak => false,
        _ => true,
    }
    &&& something_shows(data, start.segment_index() as int, index + 1)
    &&& pen[index - start.segment_index()].plus(
        if data.kinds@[index] == SegmentKind::SoftHyphen {
            data.discretionary_hyphen_width
        } else {
            W::zero_value()
        },
    ).at_most(limit)
}

/// Whether a line takes the rest of its paragraph.
pub open spec fn ends_paragraph<W: Scalar>(
    data: &PreparedData<W>,
    line: LayoutLineRange<W>,
) -> bool {
    let end = line.end.segment_index() as int;
    &&& line.end.grapheme_index() == 0
    &&& end == data.count() || line.start.segment_index() < end && data.kinds@[end - 1]
        == SegmentKind::HardBreak
}

/// The grapheme of segment `index` that a line starts with.
pub open spec fn first_grapheme(start: LayoutCursor, index: int) -> int {
    if index == start.segment_index() {
        start.grapheme_index() as int
    } else {
        0
    }
}

/// Whether a line that ends inside a text had no other place to end: it could
/// not have ended behind any segment before that text.
pub open spec fn splits_of_necessity<W: Scalar>(
    data: &PreparedData<W>,
    line: LayoutLineRange<W>,
    pen: Seq<W>,
    limit: W,
) -> bool {
    line.end.grapheme_index() > 0 ==> forall|k: int|
        line.start.segment_index() <= k < line.end.segment_index() ==> !(
        #[trigger] could_end_behind(data, line.start, pen, k, limit))
}

/// Whether the text at `at` is why a line ends before it or inside it: no hard
/// break comes first, the pen is past the limit behind it, and the line could
/// not have ended further on before it.
pub open spec fn ends_on_account_of<W: Scalar>(
    data: &PreparedData<W>,
    line: LayoutLineRange<W>,
    pen: Seq<W>,
    limit: W,
    at: int,
) -> bool {
    let start = line.start.segment_index() as int;
    let end = line.end.segment_index() as int;
    &&& end <= at < data.count()
    &&& line.end.grapheme_index() > 0 ==> at == end
    &&& data.kinds@[at] == SegmentKind::Text
    &&& limit.below(pen[at - start + 1])
    &&& forall|k: int| start <= k <= at ==> #[trigger] data.kinds@[k] != SegmentKind::HardBreak
    &&& forall|k: int|
        end <= k < at ==> !(#[trigger] could_end_behind(data, line.start, pen, k, limit))
}

/// Whether a line holds as much as it can: where it does not take the rest of
/// its paragraph a text is in its way, inside which no further grapheme fits,
/// or of which not even the first one fits.
pub open spec fn holds_what_fits<W: Scalar>(
    data: &PreparedData<W>,
    line: LayoutLineRange<W>,
    pen: Seq<W>,
    limit: W,
) -> bool {
    let start = line.start.segment_index() as int;
    let end = line.end.segment_index() as int;
    let to = line.end.grapheme_index() as int;
    let from = first_grapheme(line.start, end);
    ends_paragraph(data, line) || {
        &&& exists|at: int| #[trigger] ends_on_account_of(data, line, pen, limit, at)
        &&& to > 0 ==> {
            &&& data.breakable(end) is Some
            &&& from < to < data.breakable(end)->0.len()
            &&& limit.below(
                sum_onto(pen[end - start], data.breakable(end)->0.subrange(from, to + 1)),
            ) || to == from + 1 && !something_shows(data, start, end)
        }
        &&& to == 0 ==> start < end
        &&& to == 0 && !could_end_behind(data, line.start, pen, end - 1, limit) ==> {
            &&& ends_on_account_of(data, line, pen, limit, end)
            &&& data.kinds@[end - 1] != SegmentKind::Glue
            &&& something_shows(data, start, end)
            &&& forall|k: int|
                start <= k < end ==> !(#[trigger] could_end_behind(
                    data,
                    line.start,
                    pen,
                    k,
                    limit,
                ))
            &&& match data.breakable(end) {
                None => true,
                Some(widths) => {
                    ||| widths.len() == 0
                    ||| limit.below(pen[end - start].plus(widths[0]))
                    ||| !limit.below(sum_onto(pen[end - start], widths))
                },
            }
        }
    }
}

/// Whether a text that the pen is past the limit behind cannot be helped: the
/// line could not have ended before it, and it is attached by glue, or the line
/// shows nothing before it and it cannot be split.
pub open spec fn overruns_of_necessity<W: Scalar>(
    data: &PreparedData<W>,
    start: LayoutCursor,
    pen: Seq<W>,
    limit: W,
    text: int,
) -> bool {
    let first = start.segment_index() as int;
    let from = first_grapheme(start, text);
    &&& forall|k: int|
        first <= k < text ==> !(#[trigger] could_end_behind(data, start, pen, k, limit))
    &&& first < text && data.kinds@[text - 1] == SegmentKind::Glue || {
        &&& !something_shows(data, first, text)
        &&& match data.breakable(text) {
            None => true,
            Some(widths) => {
                ||| widths.len() <= from + 1
                ||| !limit.below(
                    sum_onto(pen[text - first], widths.subrange(from, widths.len() as int)),
                )
            },
        }
    }
}

/// Whether every text of a line ends within the limit where it can: a text that
/// is whole on the line overruns of necessity only, and of one that is split
/// the part on the line fits, unless it is a single grapheme that nothing shows
/// before.
pub open spec fn stays_within<W: Scalar>(
    data: &PreparedData<W>,
    line: LayoutLineRange<W>,
    pen: Seq<W>,
    limit: W,
) -> bool {
    let start = line.start.segment_index() as int;
    let end = line.end.segment_index() as int;
    let to = line.end.grapheme_index() as int;
    let from = first_grapheme(line.start, end);
    &&& forall|text: int|
        start <= text < end && #[trigger] data.kinds@[text] == SegmentKind::Text && limit.below(
            pen[text - start + 1],
        ) ==> overruns_of_necessity(data, line.start, pen, limit, text)
    &&& to > 0 ==> {
        ||| !limit.below(sum_onto(pen[end - start], data.breakable(end)->0.subrange(from, to)))
        ||| to == from + 1 && !something_shows(data, start, end)
    }
}

/// Whether a line has the width that it should: the pen before its last segment
/// and what that segment paints at the end of a line, or the graphemes of it
/// that are on the line; and whether it paints a hyphen exactly where it is
/// broken behind a soft hyphen that it could end behind.
pub open spec fn is_measured<W: Scalar>(
    data: &PreparedData<W>,
    line: LayoutLineRange<W>,
    pen: Seq<W>,
    limit: W,
) -> bool {
    let start = line.start.segment_index() as int;
    let end = line.end.segment_index() as int;
    let to = line.end.grapheme_index() as int;
    let closes = ends_paragraph(data, line);
    let last = if closes && data.kinds@[end - 1] == SegmentKind::HardBreak {
        end - 2
    } else {
        end - 1
    };
    &&& line.ends_with_discretionary_hyphen <==> !closes && to == 0 && start < end
        && data.kinds@[end - 1] == SegmentKind::SoftHyphen && could_end_behind(
        data,
        line.start,
        pen,
        end - 1,
        limit,
    )
    &&& line.width == if to > 0 {
        pen[end - start].plus(
            sum_of(data.breakable(end)->0.subrange(first_grapheme(line.start, end), to)),
        )
    } else if last < start {
        W::zero_value()
    } else {
        pen[last - start].plus(
            if last == start && line.start.grapheme_index() > 0 {
                sum_of(data.breakable(last)->0.skip(line.start.grapheme_index() as int))
            } else if data.kinds@[last] == SegmentKind::SoftHyphen
                && !line.ends_with_discretionary_hyphen {
                W::zero_value()
            } else {
                data.line_end_paint_advances@[last]
            },
        )
    }
}

/// Whether a line holds no hard break but the one that ends it.
pub open spec fn is_of_one_paragraph<W: Scalar>(
    data: &PreparedData<W>,
    line: LayoutLineRange<W>,
) -> bool {
    forall|k: int|
        line.start.segment_index() <= k < line.end.segment_index() - 1 ==> #[trigger] data.kinds@[k]
            != SegmentKind::HardBreak
}

/// Whether the place behind a line is where the next one should start: at the
/// line's end, and where the line was broken behind collapsible spaces.
pub open spec fn is_followed_by<W: Scalar>(
    data: &PreparedData<W>,
    line: LayoutLineRange<W>,
    next: LayoutCursor,
) -> bool {
    if ends_paragraph(data, line) || line.end.grapheme_index() > 0 {
        next == line.end
    } else {
        &&& next.grapheme_index() == 0
        &&& line.end.segment_index() <= next.segment_index() < data.count()
        &&& data.kinds@[next.segment_index() as int] != SegmentKind::Space
        &&& forall|k: int|
            line.end.segment_index() <= k < next.segment_index() ==> #[trigger] data.kinds@[k]
                == SegmentKind::Space
    }
}

/// Everything that holds of a line and the place behind it.
pub open spec fn is_a_line<W: Scalar>(
    data: &PreparedData<W>,
    line: LayoutLineRange<W>,
    next: LayoutCursor,
    pen: Seq<W>,
    limit: W,
) -> bool {
    &&& splits_of_necessity(data, line, pen, limit)
    &&& holds_what_fits(data, line, pen, limit)
    &&& stays_within(data, line, pen, limit)
    &&& is_measured(data, line, pen, limit)
    &&& is_of_one_paragraph(data, line)
    &&& is_followed_by(data, line, next)
}

// ---- Why it holds -------------------------------------------------------------------------------

pub(crate) proof fn lemma_pen<W: Scalar>(
    data: &PreparedData<W>,
    start: LayoutCursor,
    pen: Seq<W>,
    step: int,
)
    requires
        data.well_formed(),
        pen_positions(data, start, pen),
        start.segment_index() < data.count(),
        normalized(data, start) == start,
        0 <= step < pen.len(),
    ensures
        pen[step] == line_advance(
            data,
            start.segment_index() as int,
            start.grapheme_index() as int,
            start.segment_index() + step,
        ),
    decreases step,
{
    if step > 0 {
        lemma_pen(data, start, pen, step - 1);
        lemma_sizes(data);
        assert(pen_moves(data, start, pen, step - 1));
        let index = start.segment_index() + step - 1;
        assert(grapheme_count(data, start.segment_index() as int) <= usize::MAX);
        if step - 1 == 0 && start.grapheme_index() > 0 {
            assert(data.breakable(index) is Some);
        }
    }
}

/// All positions at once.
proof fn lemma_pens<W: Scalar>(data: &PreparedData<W>, start: LayoutCursor, pen: Seq<W>)
    requires
        data.well_formed(),
        pen_positions(data, start, pen),
        start.segment_index() < data.count(),
        normalized(data, start) == start,
    ensures
        ({
            let first = start.segment_index() as int;
            let grapheme = start.grapheme_index() as int;
            forall|k: int|
                first <= k <= data.count() ==> #[trigger] line_advance(data, first, grapheme, k)
                    == pen[k - first]
        }),
{
    let first = start.segment_index() as int;
    let grapheme = start.grapheme_index() as int;
    assert forall|k: int| first <= k <= data.count() implies #[trigger] line_advance(
        data,
        first,
        grapheme,
        k,
    ) == pen[k - first] by {
        lemma_pen(data, start, pen, k - first);
    }
}

proof fn lemma_shows<W: Scalar>(data: &PreparedData<W>, from: int, to: int)
    ensures
        something_shows(data, from, to) == paints(data, from, to),
{
    if something_shows(data, from, to) {
        let k = choose|k: int| from <= k < to && shows(#[trigger] data.kinds@[k]);
        assert(visible(data.kinds@[k]));
    }
    if paints(data, from, to) {
        let k = choose|k: int| from <= k < to && visible(#[trigger] data.kinds@[k]);
        assert(shows(data.kinds@[k]));
    }
}

proof fn lemma_could_end<W: Scalar>(
    data: &PreparedData<W>,
    start: LayoutCursor,
    pen: Seq<W>,
    index: int,
    limit: W,
)
    requires
        data.well_formed(),
        pen_positions(data, start, pen),
        normalized(data, start) == start,
        start.segment_index() <= index < data.count(),
    ensures
        could_end_behind(data, start, pen, index, limit) == fits_after(
            data,
            start.segment_index() as int,
            start.grapheme_index() as int,
            index,
            limit,
        ),
{
    lemma_pen(data, start, pen, index - start.segment_index());
    lemma_shows(data, start.segment_index() as int, index + 1);
    assert(data.kinds@[index] == data.kinds@[index]);
}

proof fn lemma_none_fits<W: Scalar>(
    data: &PreparedData<W>,
    start: int,
    grapheme: int,
    index: int,
    earlier: int,
    limit: W,
)
    requires
        start <= earlier < index,
        last_fitting(data, start, grapheme, index, limit) is None,
    ensures
        !fits_after(data, start, grapheme, earlier, limit),
    decreases index - earlier,
{
    if earlier < index - 1 {
        lemma_none_fits(data, start, grapheme, index - 1, earlier, limit);
    }
}

proof fn lemma_overflow<W: Scalar>(widths: Seq<W>, from: int, current: W, limit: W)
    requires
        0 <= from <= widths.len(),
    ensures
        ({
            let at = first_overflow(widths, from, current, limit);
            &&& from <= at <= widths.len()
            &&& from < at ==> !limit.below(sum_onto(current, widths.subrange(from, at)))
            &&& at < widths.len() ==> limit.below(sum_onto(current, widths.subrange(from, at + 1)))
        }),
    decreases widths.len() - from,
{
    let at = first_overflow(widths, from, current, limit);
    if from < widths.len() {
        let one = current.plus(widths[from]);
        assert(widths.subrange(from, from + 1).drop_last() =~= Seq::empty());
        assert(sum_onto(current, Seq::<W>::empty()) == current);
        assert(sum_onto(current, widths.subrange(from, from + 1)) == one);
        if !limit.below(one) {
            lemma_overflow(widths, from + 1, one, limit);
            lemma_sum_front(widths, from, at, current);
            if at < widths.len() {
                lemma_sum_front(widths, from, at + 1, current);
            }
            if at == from + 1 {
                assert(widths.subrange(from, at) =~= widths.subrange(from, from + 1));
            }
        }
    }
}

/// A sum is added up from the left.
proof fn lemma_sum_front<W: Scalar>(widths: Seq<W>, from: int, to: int, current: W)
    requires
        0 <= from < to <= widths.len(),
    ensures
        sum_onto(current, widths.subrange(from, to)) == sum_onto(
            current.plus(widths[from]),
            widths.subrange(from + 1, to),
        ),
    decreases to - from,
{
    let run = widths.subrange(from, to);
    if to == from + 1 {
        assert(run.drop_last() =~= Seq::empty());
        assert(sum_onto(current, Seq::<W>::empty()) == current);
        assert(widths.subrange(from + 1, to) =~= Seq::empty());
    } else {
        lemma_sum_front(widths, from, to - 1, current);
        assert(run.drop_last() =~= widths.subrange(from, to - 1));
        assert(widths.subrange(from + 1, to).drop_last() =~= widths.subrange(from + 1, to - 1));
    }
}

proof fn lemma_skips_all<W: Scalar>(data: &PreparedData<W>, from: int, to: int)
    requires
        from <= to,
    ensures
        from <= skip_spaces(data, from, to) <= to,
        skip_spaces(data, from, to) < to ==> data.kinds@[skip_spaces(data, from, to)]
            != SegmentKind::Space,
        forall|k: int|
            from <= k < skip_spaces(data, from, to) ==> #[trigger] data.kinds@[k]
                == SegmentKind::Space,
    decreases to - from,
{
    if from < to && data.kinds@[from] == SegmentKind::Space {
        lemma_skips_all(data, from + 1, to);
    }
}

proof fn lemma_text_step<W: Scalar>(
    data: &PreparedData<W>,
    start: LayoutCursor,
    pen: Seq<W>,
    text: int,
    limit: W,
)
    requires
        data.well_formed(),
        pen_positions(data, start, pen),
        normalized(data, start) == start,
        start.segment_index() <= text < data.count(),
        data.kinds@[text] == SegmentKind::Text,
    ensures
        overflows(
            data,
            start.segment_index() as int,
            start.grapheme_index() as int,
            text,
            limit,
        ) == limit.below(pen[text - start.segment_index() + 1]),
{
    let step = text - start.segment_index();
    lemma_pen(data, start, pen, step);
    lemma_pen(data, start, pen, step + 1);
}

/// A text that the line does not break on account of overruns of necessity.
#[verifier::rlimit(40)]
proof fn lemma_unbroken<W: Scalar>(
    data: &PreparedData<W>,
    start: LayoutCursor,
    pen: Seq<W>,
    text: int,
    limit: W,
)
    requires
        data.well_formed(),
        pen_positions(data, start, pen),
        normalized(data, start) == start,
        start.segment_index() <= text < data.count(),
        data.kinds@[text] == SegmentKind::Text,
        limit.below(pen[text - start.segment_index() + 1]),
        break_at(
            data,
            start.segment_index() as int,
            start.grapheme_index() as int,
            text,
            limit,
        ) is None,
    ensures
        overruns_of_necessity(data, start, pen, limit, text),
{
    let first = start.segment_index() as int;
    let grapheme = start.grapheme_index() as int;
    lemma_sizes(data);
    lemma_text_step(data, start, pen, text, limit);
    assert(last_fitting(data, first, grapheme, text, limit) is None);
    assert forall|k: int| first <= k < text implies !(#[trigger] could_end_behind(
        data,
        start,
        pen,
        k,
        limit,
    )) by {
        lemma_none_fits(data, first, grapheme, text, k, limit);
        lemma_could_end(data, start, pen, k, limit);
    }
    lemma_shows(data, first, text);
    lemma_pen(data, start, pen, text - first);
    if let Some(widths) = data.breakable(text) {
        assert(grapheme_count(data, first) <= usize::MAX);
        let from = first_grapheme(start, text);
        assert(least_int(from, widths.len() as int) == from);
        lemma_overflow(widths, from, pen[text - first], limit);
        if from < widths.len() {
            assert(widths.subrange(from, widths.len() as int) =~= widths.subrange(
                from,
                widths.len() as int,
            ));
        }
    }
}

/// What holds of a streamed line.
#[verifier::rlimit(40)]
proof fn lemma_is_a_line<W: Scalar>(
    data: &PreparedData<W>,
    start: LayoutCursor,
    pen: Seq<W>,
    limit: W,
)
    requires
        data.well_formed(),
        pen_positions(data, start, pen),
        normalized(data, start) == start,
        start.segment_index() < data.count(),
    ensures
        next_line(data, start, limit) matches Some((line, next)) && line.start == start
            && is_a_line(data, line, next, pen, limit),
{
    lemma_sizes(data);
    let count = data.count() as int;
    let first = start.segment_index() as int;
    let grapheme = start.grapheme_index() as int;
    let (line, next) = next_line(data, start, limit)->0;
    lemma_hard_break_bounds(data, first);
    let end = hard_break_from(data, first);
    lemma_first_break(data, first, grapheme, first, end, limit);
    lemma_pens(data, start, pen);
    assert(grapheme_count(data, first) <= usize::MAX);
    let reached = match first_break(data, first, grapheme, first, end, limit) {
        Some(at) => at,
        None => end,
    };
    assert forall|text: int|
        first <= text < reached && #[trigger] data.kinds@[text] == SegmentKind::Text
            && limit.below(pen[text - first + 1]) implies overruns_of_necessity(
        data,
        start,
        pen,
        limit,
        text,
    ) by {
        assert(break_at(data, first, grapheme, text, limit) is None);
        lemma_unbroken(data, start, pen, text, limit);
    }
    match first_break(data, first, grapheme, first, end, limit) {
        None => {
            if end < count {
                assert(data.kinds@[end] == SegmentKind::HardBreak);
            }
            assert(ends_paragraph(data, line));
            if end > first && end - 1 == first && grapheme > 0 {
                assert(data.breakable(first) is Some);
            }
        },
        Some(at) => {
            lemma_break_advances(data, first, grapheme, at, limit);
            lemma_text_step(data, start, pen, at, limit);
            lemma_shows(data, first, at);
            lemma_last_fitting_stays(data, first, grapheme, at, at, limit);
            assert(data.kinds@[at] == SegmentKind::Text);
            match last_fitting(data, first, grapheme, at, limit) {
                Some(last) => {
                    assert(data.kinds@[last] != SegmentKind::HardBreak);
                    lemma_skips_all(data, last + 1, at);
                    lemma_could_end(data, start, pen, last, limit);
                    assert forall|k: int| last + 1 <= k < at implies !(#[trigger] could_end_behind(
                        data,
                        start,
                        pen,
                        k,
                        limit,
                    )) by {
                        lemma_none_fits_later(data, first, grapheme, at, k, limit);
                        lemma_could_end(data, start, pen, k, limit);
                    }
                    assert(ends_on_account_of(data, line, pen, limit, at));
                    if last == first && grapheme > 0 {
                        assert(data.breakable(first) is Some);
                    }
                },
                None => {
                    assert forall|k: int| first <= k < at implies !(#[trigger] could_end_behind(
                        data,
                        start,
                        pen,
                        k,
                        limit,
                    )) by {
                        lemma_none_fits(data, first, grapheme, at, k, limit);
                        lemma_could_end(data, start, pen, k, limit);
                    }
                    assert(ends_on_account_of(data, line, pen, limit, at));
                    if at > first {
                        assert(data.kinds@[at - 1] != SegmentKind::HardBreak);
                    }
                    if let Some(widths) = data.breakable(at) {
                        assert(grapheme_count(data, at) <= usize::MAX);
                        let from = first_grapheme(start, at);
                        assert(least_int(from, widths.len() as int) == from);
                        let current = pen[at - first];
                        lemma_overflow(widths, from, current, limit);
                        if widths.len() > 0 {
                            assert(widths.subrange(0, 1).drop_last() =~= Seq::empty());
                            assert(sum_onto(current, Seq::<W>::empty()) == current);
                            assert(widths.subrange(0, widths.len() as int) =~= widths);
                        }
                    }
                    if at - 1 == first && grapheme > 0 {
                        assert(data.breakable(first) is Some);
                    }
                },
            }
        },
    }
}

/// The cursor that a streamed line was asked for with.
proof fn lemma_streamed_at<W: Scalar>(
    data: &PreparedData<W>,
    cursor: LayoutCursor,
    limit: W,
    index: int,
) -> (at: LayoutCursor)
    requires
        data.well_formed(),
        data.count() < usize::MAX,
        cursor.segment_index() < data.count() ==> normalized(data, cursor) == cursor,
        0 <= index < streamed_lines(data, cursor, limit).len(),
    ensures
        at.segment_index() < data.count() ==> normalized(data, at) == at,
        ({
            let lines = streamed_lines(data, cursor, limit);
            next_line(data, at, limit) matches Some((line, next)) && {
                &&& line == lines[index]
                &&& line.start == at
                &&& index + 1 < lines.len() ==> lines[index + 1].start == next
            }
        }),
    decreases index,
{
    lemma_sizes(data);
    let lines = streamed_lines(data, cursor, limit);
    let (line, next) = next_line(data, cursor, limit)->0;
    let rest = streamed_lines(data, next, limit);
    lemma_stream_step(data, cursor, limit);
    assert(lines =~= seq![line] + rest);
    if cursor.segment_index() < data.count() {
        lemma_next_cursor(data, cursor, limit);
        if next.segment_index() < data.count() {
            assert(grapheme_count(data, next.segment_index() as int) <= usize::MAX);
            assert(normalized(data, next) == next);
        }
    }
    if index == 0 {
        if lines.len() > 1 {
            assert(lines[1] == rest[0]);
        }
        cursor
    } else {
        assert(lines[index] == rest[index - 1]);
        if index + 1 < lines.len() {
            assert(lines[index + 1] == rest[index]);
        }
        lemma_streamed_at(data, next, limit, index - 1)
    }
}

// ---- The laws -----------------------------------------------------------------------------------

/// There is a pen for every place that a line can start at.
pub proof fn every_line_has_a_pen<W: Scalar>(data: &PreparedData<W>, start: LayoutCursor) -> (pen:
    Seq<W>)
    requires
        data.well_formed(),
        start.segment_index() < data.count(),
        normalized(data, start) == start,
    ensures
        pen_positions(data, start, pen),
{
    let first = start.segment_index() as int;
    let grapheme = start.grapheme_index() as int;
    let pen = Seq::new(
        (data.count() + 1 - first) as nat,
        |step: int| line_advance(data, first, grapheme, first + step),
    );
    lemma_sizes(data);
    assert(grapheme_count(data, first) <= usize::MAX);
    assert forall|step: int| 0 <= step < pen.len() - 1 implies #[trigger] pen_moves(
        data,
        start,
        pen,
        step,
    ) by {
        assert(pen[step] == line_advance(data, first, grapheme, first + step));
        assert(pen[step + 1] == line_advance(data, first, grapheme, first + step + 1));
        if step == 0 && grapheme > 0 {
            assert(data.breakable(first) is Some);
        }
    }
    pen
}

/// A line that is asked for one at a time, from whatever place in the text: it
/// is split only where it could not end anywhere before, it holds all that
/// fits, it overruns the limit only of necessity, its width is measured, it does
/// not reach past a hard break, and the next line starts where it should.
pub proof fn a_streamed_line_is_a_line<W: Scalar>(
    data: &PreparedData<W>,
    cursor: LayoutCursor,
    pen: Seq<W>,
    limit: W,
)
    requires
        data.well_formed(),
        cursor.segment_index() < data.count(),
        pen_positions(data, normalized(data, cursor), pen),
    ensures
        next_line(data, cursor, limit) matches Some((line, next)) && line.start == normalized(
            data,
            cursor,
        ) && is_a_line(data, line, next, pen, limit),
{
    lemma_sizes(data);
    assert(grapheme_count(data, cursor.segment_index() as int) <= usize::MAX);
    let start = normalized(data, cursor);
    assert(normalized(data, start) == start);
    lemma_is_a_line(data, start, pen, limit);
}

/// Where the line behind a line of a layout starts, or the end of the last one.
pub open spec fn place_behind<W: Scalar>(
    lines: Seq<LayoutLineRange<W>>,
    index: int,
) -> LayoutCursor {
    if index + 1 < lines.len() {
        lines[index + 1].start
    } else {
        lines[index].end
    }
}

/// The lines of a layout are broken where they should be: what holds of a line
/// that is asked for alone holds of every line of the whole, and the lines that
/// hold no segment are empty and without width.
#[verifier::rlimit(40)]
pub proof fn lines_are_broken_where_they_should_be<W: Scalar>(
    data: &PreparedData<W>,
    limit: W,
    index: int,
    pen: Seq<W>,
)
    requires
        ordered_arithmetic::<W>(),
        data.well_formed(),
        data.count() < usize::MAX,
        nonnegative(limit),
        0 <= index < walked_lines(data, limit).len(),
        as_range(walked_lines(data, limit)[index]).start.segment_index() < data.count()
            ==> pen_positions(data, as_range(walked_lines(data, limit)[index]).start, pen),
    ensures
        ({
            let lines = as_ranges(walked_lines(data, limit));
            let line = lines[index];
            if line.start.segment_index() < data.count() {
                is_a_line(data, line, place_behind(lines, index), pen, limit)
            } else {
                &&& line.start == line.end
                &&& line.width == W::zero_value()
                &&& !line.ends_with_discretionary_hyphen
                &&& index + 1 == lines.len()
            }
        }),
{
    let lines = as_ranges(walked_lines(data, limit));
    walked_lines_are_streamed_lines(data, limit);
    lemma_sizes(data);
    if data.count() > 0 {
        assert(0 <= grapheme_count(data, 0));
        assert(normalized(data, cursor_at(0, 0)) == cursor_at(0, 0));
    }
    let at = lemma_streamed_at(data, cursor_at(0, 0), limit, index);
    if at.segment_index() < data.count() {
        lemma_is_a_line(data, at, pen, limit);
        let (line, next) = next_line(data, at, limit)->0;
        if index + 1 == lines.len() {
            lemma_last_line_ends(data, limit);
            assert(ends_paragraph(data, line));
        }
    } else if index + 1 < lines.len() {
        let (line, next) = next_line(data, at, limit)->0;
        let following = lemma_streamed_at(data, cursor_at(0, 0), limit, index + 1);
        assert(following == next);
        assert(next_line(data, next, limit) is None);
    }
}

proof fn lemma_last_line_ends<W: Scalar>(data: &PreparedData<W>, limit: W)
    requires
        data.well_formed(),
    ensures
        walked_lines(data, limit).len() > 0,
        as_ranges(walked_lines(data, limit)).last().end == cursor_at(data.count() as int, 0),
{
    crate::line_laws::lines_cover_the_text(data, limit);
}

/// A word is split only where the line has no other place to end: a line that
/// ends inside a text holds no blank, tab, zero-width break or soft hyphen
/// behind something that shows at which it could have ended within the limit.
pub proof fn words_are_split_only_where_nothing_else_fits<W: Scalar>(
    data: &PreparedData<W>,
    limit: W,
    index: int,
    pen: Seq<W>,
    place: int,
)
    requires
        ordered_arithmetic::<W>(),
        data.well_formed(),
        data.count() < usize::MAX,
        nonnegative(limit),
        0 <= index < walked_lines(data, limit).len(),
        walked_lines(data, limit)[index].end_grapheme > 0,
        pen_positions(data, as_range(walked_lines(data, limit)[index]).start, pen),
        walked_lines(data, limit)[index].start_segment <= place < walked_lines(
            data,
            limit,
        )[index].end_segment,
        ({
            ||| data.kinds@[place] == SegmentKind::Space
            ||| data.kinds@[place] == SegmentKind::PreservedSpace
            ||| data.kinds@[place] == SegmentKind::Tab
            ||| data.kinds@[place] == SegmentKind::ZeroWidthBreak
            ||| data.kinds@[place] == SegmentKind::SoftHyphen
        }),
        something_shows(data, walked_lines(data, limit)[index].start_segment as int, place + 1),
    ensures
        ({
            let position = pen[place - walked_lines(data, limit)[index].start_segment];
            if data.kinds@[place] == SegmentKind::SoftHyphen {
                !position.plus(data.discretionary_hyphen_width).at_most(limit)
            } else {
                !position.plus(W::zero_value()).at_most(limit)
            }
        }),
{
    let line = as_ranges(walked_lines(data, limit))[index];
    crate::line_laws::lemma_walked_lines(data, limit);
    assert(crate::line_laws::ends_properly(data, walked_lines(data, limit)[index], limit));
    lines_are_broken_where_they_should_be(data, limit, index, pen);
    assert(!could_end_behind(data, line.start, pen, place, limit));
}

/// A layout is walked at its width and the tolerance of the profile beyond it:
/// its lines are the walked lines at that limit, one for one, each with the text
/// of its range.
pub proof fn lines_may_reach_into_the_tolerance<W: Scalar>(
    rich: RichText<W>,
    max_width: W,
    lines: Vec<LayoutLine<W>>,
    index: int,
)
    requires
        lines_outcome(rich, max_width, Ok(lines)),
        0 <= index < lines@.len(),
    ensures
        ({
            let limit = max_width.plus(rich.data.profile.line_fit_epsilon);
            let walked = as_ranges(walked_lines(&rich.data, limit));
            let line = lines@[index];
            &&& lines@.len() == walked.len()
            &&& line.start == walked[index].start
            &&& line.end == walked[index].end
            &&& line.width == walked[index].width
            &&& line.ends_with_discretionary_hyphen == walked[index].ends_with_discretionary_hyphen
            &&& line.text@ == line_text(
                rich.segments,
                rich.data.kinds@,
                line.start,
                line.end,
                line.ends_with_discretionary_hyphen,
            )
        }),
{
    let walked = walked_lines(&rich.data, fit_limit(max_width, rich.data.profile));
    assert(materializes(rich, walked[index], lines@[index]));
}

/// Counting lines counts those of the same limit.
pub proof fn counted_lines_may_reach_into_the_tolerance<W: Scalar>(
    data: &PreparedData<W>,
    max_width: W,
    line_height: W,
    profile: EngineProfile<W>,
    result: LayoutResult<W>,
)
    requires
        layout_outcome(data, max_width, line_height, profile, Ok(result)),
    ensures
        result.line_count == walked_lines(
            data,
            max_width.plus(profile.line_fit_epsilon),
        ).len(),
{
}

/// A line fits up to its width and the tolerance of the profile beyond it.
pub proof fn the_limit_is_the_width_and_the_tolerance<W: Scalar>(
    max_width: W,
    profile: EngineProfile<W>,
)
    ensures
        fit_limit(max_width, profile) == max_width.plus(profile.line_fit_epsilon),
{
}

/// Nothing is laid out in a width that is negative or undefined, at a line
/// height that is not finite and above zero, or with a tolerance that is
/// negative or not finite; and no layout has a height that is.
pub proof fn only_sound_geometry_is_laid_out<W: Scalar>(
    data: &PreparedData<W>,
    max_width: W,
    line_height: W,
    profile: EngineProfile<W>,
    result: LayoutResult<W>,
)
    requires
        layout_outcome(data, max_width, line_height, profile, Ok(result)),
    ensures
        W::zero_value().at_most(max_width),
        W::zero_value().below(line_height) && line_height.finite(),
        W::zero_value().at_most(profile.line_fit_epsilon) && profile.line_fit_epsilon.finite(),
        W::zero_value().at_most(result.height) && result.height.finite(),
        result.line_count > 0,
{
    lemma_some_line(data, max_width.plus(profile.line_fit_epsilon));
}

proof fn lemma_some_line<W: Scalar>(data: &PreparedData<W>, limit: W)
    ensures
        walked_lines(data, limit).len() > 0,
{
    if data.count() > 0 {
        lemma_lines_from(data, 0, 0, 0, data.count() as int, data.count() as int, limit);
        if data.chunks@.len() > 0 {
            let chunk = data.chunks@.last();
            let (start, end, consumed) = chunk_bounds(data, chunk);
            lemma_lines_from(data, start, 0, start, end, consumed, limit);
        }
    }
}

/// A cursor is accepted exactly where it stands at a place of the text: before a
/// segment, before a grapheme of a segment that can be broken inside, at the end
/// of the text, or behind the empty line of a text that is empty or ends in a
/// hard break.
pub proof fn cursors_stand_at_places_of_the_text<W: Scalar>(
    data: &PreparedData<W>,
    cursor: LayoutCursor,
)
    requires
        data.well_formed(),
    ensures
        valid_cursor(data, cursor) == {
            let segment = cursor.segment_index() as int;
            let grapheme = cursor.grapheme_index() as int;
            let count = data.kinds@.len() as int;
            ||| segment <= count && grapheme == 0
            ||| segment < count && (data.breakable(segment) matches Some(widths) && grapheme
                < widths.len())
            ||| segment == count + 1 && grapheme == 0 && (count == 0 || data.kinds@[count - 1]
                == SegmentKind::HardBreak)
        },
{
}

} // verus!
