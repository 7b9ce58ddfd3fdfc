//! Line-breaking engine.
//!
//! It operates on the parallel arrays in [`PreparedData`] alone: no strings
//! and no measurement calls, so a layout after preparation is cheap. Three
//! surfaces share one definition of where a line ends:
//! 1. [`walk_lines_simple`] -- the whole text as a single chunk
//! 2. [`walk_lines_full`] -- chunk by chunk between hard breaks
//! 3. [`layout_next_line_range`] -- streaming single-line cursor API
use crate::scalar::{sum_of, tab_advance_value, Scalar};
use crate::types::{
    EngineProfile, LayoutCursor, LayoutLineRange, PreparedData, PreparedLineChunk, SegmentKind,
};
use vstd::prelude::*;

verus! {

/// A line found by a walker.
#[derive(Debug, Clone, Copy)]
pub struct InternalLine<W> {
    pub start_segment: usize,
    pub start_grapheme: usize,
    pub end_segment: usize,
    pub end_grapheme: usize,
    pub width: W,
    pub ends_with_discretionary_hyphen: bool,
}

/// The last break opportunity that fits on the line.
#[derive(Clone, Copy)]
pub struct PendingBreak<W> {
    pub end_segment: usize,
    pub paint_width: W,
    pub ends_with_discretionary_hyphen: bool,
}

/// What is known of a line whose segments have been taken up to some index.
#[derive(Clone, Copy)]
pub struct LineState<W> {
    pub width: W,
    pub has_content: bool,
    pub pending: Option<PendingBreak<W>>,
}

/// Where a line ends and where the next one starts.
#[derive(Clone, Copy)]
pub struct LineBreak<W> {
    pub end: LayoutCursor,
    pub width: W,
    pub ends_with_discretionary_hyphen: bool,
    pub next: LayoutCursor,
}

// ---- What a line is ---------------------------------------------------------

/// Structural controls may alter where a line can break but do not make an
/// otherwise empty line eligible for emission.
pub open spec fn visible(kind: SegmentKind) -> bool {
    kind != SegmentKind::ZeroWidthBreak && kind != SegmentKind::SoftHyphen && kind
        != SegmentKind::HardBreak
}

/// A cursor from two indices.
pub open spec fn cursor_at(segment: int, grapheme: int) -> LayoutCursor {
    LayoutCursor::at(segment as usize, grapheme as usize)
}

/// The width of a segment from one of its graphemes on.
///
/// The whole segment keeps its shaped width; the per-grapheme widths count
/// only once a cursor has entered the segment.
pub open spec fn remaining_width<W: Scalar>(data: &PreparedData<W>, index: int, grapheme: int) -> W {
    if grapheme == 0 {
        data.widths@[index]
    } else {
        match data.breakable(index) {
            Some(widths) => sum_of(widths.skip(least_int(grapheme, widths.len() as int))),
            None => data.widths@[index],
        }
    }
}

/// The smaller of two indices.
pub open spec fn least_int(a: int, b: int) -> int {
    if a <= b {
        a
    } else {
        b
    }
}

/// The grapheme at which the line that starts at `(start, grapheme)` enters
/// segment `index`.
pub open spec fn entry_grapheme(start: int, grapheme: int, index: int) -> int {
    if index == start {
        grapheme
    } else {
        0
    }
}

/// How far segment `index` moves a line that is already `current` wide.
pub open spec fn advance_of<W: Scalar>(
    data: &PreparedData<W>,
    index: int,
    grapheme: int,
    current: W,
) -> W {
    if data.kinds@[index] == SegmentKind::Tab {
        tab_advance_value(current, data.tab_stop_advance)
    } else {
        remaining_width(data, index, grapheme)
    }
}

/// The width of the line that starts at `(start, grapheme)` before segment
/// `index`, nothing hanging.
pub open spec fn line_advance<W: Scalar>(
    data: &PreparedData<W>,
    start: int,
    grapheme: int,
    index: int,
) -> W
    decreases index - start,
{
    if index <= start {
        W::zero_value()
    } else {
        let before = line_advance(data, start, grapheme, index - 1);
        before.plus(
            advance_of(data, index - 1, entry_grapheme(start, grapheme, index - 1), before),
        )
    }
}

/// Whether the segments `start..index` paint anything.
pub open spec fn paints<W: Scalar>(data: &PreparedData<W>, start: int, index: int) -> bool {
    exists|k: int| start <= k < index && visible(#[trigger] data.kinds@[k])
}

/// Whether the line that starts at `(start, grapheme)` may end after segment
/// `index` and fits there.
pub open spec fn fits_after<W: Scalar>(
    data: &PreparedData<W>,
    start: int,
    grapheme: int,
    index: int,
    limit: W,
) -> bool {
    &&& data.kinds@[index].breaks_after()
    &&& paints(data, start, index + 1)
    &&& line_advance(data, start, grapheme, index).plus(
        data.line_end_fit_advances@[index],
    ).at_most(limit)
}

/// The last segment before `index` after which the line may end and fits.
pub open spec fn last_fitting<W: Scalar>(
    data: &PreparedData<W>,
    start: int,
    grapheme: int,
    index: int,
    limit: W,
) -> Option<int>
    decreases index - start,
{
    if index <= start {
        None
    } else if fits_after(data, start, grapheme, index - 1, limit) {
        Some(index - 1)
    } else {
        last_fitting(data, start, grapheme, index - 1, limit)
    }
}

/// The painted width of the line from `(start, grapheme)` to the boundary
/// before segment `end`.
pub open spec fn paint_width<W: Scalar>(
    data: &PreparedData<W>,
    start: int,
    grapheme: int,
    end: int,
) -> W {
    if end <= start {
        W::zero_value()
    } else {
        let last = end - 1;
        let before = line_advance(data, start, grapheme, last);
        before.plus(
            if last == start && grapheme > 0 {
                advance_of(data, last, grapheme, before)
            } else if data.kinds@[last] == SegmentKind::SoftHyphen {
                W::zero_value()
            } else {
                data.line_end_paint_advances@[last]
            },
        )
    }
}

/// The first grapheme from `from` on that would carry a line of width
/// `current` past `limit`.
pub open spec fn first_overflow<W: Scalar>(widths: Seq<W>, from: int, current: W, limit: W) -> int
    decreases widths.len() - from,
{
    if from >= widths.len() {
        widths.len() as int
    } else if limit.below(current.plus(widths[from])) {
        from
    } else {
        first_overflow(widths, from + 1, current.plus(widths[from]), limit)
    }
}

/// The grapheme before which a segment is broken to stay within `limit`.
///
/// At least one grapheme stays on the line. `on_empty_line` lets that one
/// overflow.
pub open spec fn grapheme_break<W: Scalar>(
    widths: Seq<W>,
    start: int,
    current: W,
    limit: W,
    on_empty_line: bool,
) -> Option<int> {
    let fitting = first_overflow(widths, start, current, limit);
    let at = if fitting == start && on_empty_line {
        start + 1
    } else {
        fitting
    };
    if start < at < widths.len() {
        Some(at)
    } else {
        None
    }
}

/// The first index in `from..to` whose segment is not a collapsible space.
pub open spec fn skip_spaces<W: Scalar>(data: &PreparedData<W>, from: int, to: int) -> int
    decreases to - from,
{
    if from < to && data.kinds@[from] == SegmentKind::Space {
        skip_spaces(data, from + 1, to)
    } else {
        from
    }
}

/// Whether the text at `index` is attached to what stands before it on the
/// line by non-breaking glue.
pub open spec fn glued<W: Scalar>(data: &PreparedData<W>, start: int, index: int) -> bool {
    index > start && data.kinds@[index - 1] == SegmentKind::Glue
}

/// Whether the text at `index` carries the line past `limit`.
pub open spec fn overflows<W: Scalar>(
    data: &PreparedData<W>,
    start: int,
    grapheme: int,
    index: int,
    limit: W,
) -> bool {
    &&& data.kinds@[index] == SegmentKind::Text
    &&& limit.below(
        line_advance(data, start, grapheme, index).plus(
            remaining_width(data, index, entry_grapheme(start, grapheme, index)),
        ),
    )
}

/// Where the line that starts at `(start, grapheme)` breaks on account of the
/// text at `index`, if that text overflows and a break is to be had.
///
/// In order of preference: after the last segment that fits, inside the text,
/// before the text.
pub open spec fn break_at<W: Scalar>(
    data: &PreparedData<W>,
    start: int,
    grapheme: int,
    index: int,
    limit: W,
) -> Option<LineBreak<W>> {
    let current = line_advance(data, start, grapheme, index);
    let entry = entry_grapheme(start, grapheme, index);
    let inside = match data.breakable(index) {
        Some(widths) => grapheme_break(
            widths,
            least_int(entry, widths.len() as int),
            current,
            limit,
            !paints(data, start, index),
        ),
        None => None,
    };
    if !overflows(data, start, grapheme, index, limit) {
        None
    } else if let Some(last) = last_fitting(data, start, grapheme, index, limit) {
        Some(
            LineBreak {
                end: cursor_at(last + 1, 0),
                width: line_advance(data, start, grapheme, last).plus(
                    data.line_end_paint_advances@[last],
                ),
                ends_with_discretionary_hyphen: data.kinds@[last] == SegmentKind::SoftHyphen,
                next: cursor_at(skip_spaces(data, last + 1, index), 0),
            },
        )
    } else if glued(data, start, index) {
        None
    } else if let Some(at) = inside {
        let widths = data.breakable(index)->0;
        Some(
            LineBreak {
                end: cursor_at(index, at),
                width: current.plus(
                    sum_of(widths.subrange(least_int(entry, widths.len() as int), at)),
                ),
                ends_with_discretionary_hyphen: false,
                next: cursor_at(index, at),
            },
        )
    } else if paints(data, start, index) && start < index {
        Some(
            LineBreak {
                end: cursor_at(index, 0),
                width: paint_width(data, start, grapheme, index),
                ends_with_discretionary_hyphen: false,
                next: cursor_at(index, 0),
            },
        )
    } else {
        None
    }
}

/// The first text in `from..to` at which the line that starts at
/// `(start, grapheme)` breaks.
pub open spec fn first_break<W: Scalar>(
    data: &PreparedData<W>,
    start: int,
    grapheme: int,
    from: int,
    to: int,
    limit: W,
) -> Option<int>
    decreases to - from,
{
    if from >= to {
        None
    } else if break_at(data, start, grapheme, from, limit) is Some {
        Some(from)
    } else {
        first_break(data, start, grapheme, from + 1, to, limit)
    }
}

/// The line that starts at `(start, grapheme)` and ends as `line_break` says.
pub open spec fn broken_line<W: Scalar>(
    start: int,
    grapheme: int,
    line_break: LineBreak<W>,
) -> InternalLine<W> {
    InternalLine {
        start_segment: start as usize,
        start_grapheme: grapheme as usize,
        end_segment: line_break.end.segment_index(),
        end_grapheme: line_break.end.grapheme_index(),
        width: line_break.width,
        ends_with_discretionary_hyphen: line_break.ends_with_discretionary_hyphen,
    }
}

/// The line that takes the rest of a chunk whose text ends before `end` and
/// which is left behind at `consumed`.
pub open spec fn closing_line<W: Scalar>(
    data: &PreparedData<W>,
    start: int,
    grapheme: int,
    end: int,
    consumed: int,
) -> InternalLine<W> {
    InternalLine {
        start_segment: start as usize,
        start_grapheme: grapheme as usize,
        end_segment: consumed as usize,
        end_grapheme: 0,
        width: paint_width(data, start, grapheme, end),
        ends_with_discretionary_hyphen: false,
    }
}

/// The lines from `(start, grapheme)` to the end of a chunk, where the texts
/// before `from` are known to be on the first of them.
pub open spec fn lines_from<W: Scalar>(
    data: &PreparedData<W>,
    start: int,
    grapheme: int,
    from: int,
    end: int,
    consumed: int,
    limit: W,
) -> Seq<InternalLine<W>>
    decreases end - start, grapheme_count(data, start) - grapheme,
    when 0 <= start <= from && 0 <= grapheme && end <= data.count()
{
    match first_break(data, start, grapheme, from, end, limit) {
        Some(at) => {
            let line_break = break_at(data, start, grapheme, at, limit)->0;
            proof {
                lemma_first_break(data, start, grapheme, from, end, limit);
                lemma_break_advances(data, start, grapheme, at, limit);
            }
            seq![broken_line(start, grapheme, line_break)] + lines_from(
                data,
                line_break.next.segment_index() as int,
                line_break.next.grapheme_index() as int,
                at,
                end,
                consumed,
                limit,
            )
        },
        None => seq![closing_line(data, start, grapheme, end, consumed)],
    }
}

/// The number of graphemes inside which a segment can be broken.
pub open spec fn grapheme_count<W: Scalar>(data: &PreparedData<W>, index: int) -> int {
    match data.breakable(index) {
        Some(widths) => widths.len() as int,
        None => 0,
    }
}

pub proof fn lemma_first_break<W: Scalar>(
    data: &PreparedData<W>,
    start: int,
    grapheme: int,
    from: int,
    to: int,
    limit: W,
)
    ensures
        first_break(data, start, grapheme, from, to, limit) matches Some(at) ==> {
            &&& from <= at < to
            &&& break_at(data, start, grapheme, at, limit) is Some
        },
        forall|k: int|
            #![trigger break_at(data, start, grapheme, k, limit)]
            from <= k < (match first_break(data, start, grapheme, from, to, limit) {
                Some(at) => at,
                None => to,
            }) ==> break_at(data, start, grapheme, k, limit) is None,
    decreases to - from,
{
    if from < to && break_at(data, start, grapheme, from, limit) is None {
        lemma_first_break(data, start, grapheme, from + 1, to, limit);
    }
}

pub(crate) proof fn lemma_last_fitting<W: Scalar>(
    data: &PreparedData<W>,
    start: int,
    grapheme: int,
    index: int,
    limit: W,
)
    ensures
        last_fitting(data, start, grapheme, index, limit) matches Some(last) ==> {
            &&& start <= last < index
            &&& fits_after(data, start, grapheme, last, limit)
        },
    decreases index - start,
{
    if index > start && !fits_after(data, start, grapheme, index - 1, limit) {
        lemma_last_fitting(data, start, grapheme, index - 1, limit);
    }
}

proof fn lemma_skip_spaces<W: Scalar>(data: &PreparedData<W>, from: int, to: int)
    requires
        from <= to,
    ensures
        from <= skip_spaces(data, from, to) <= to,
        forall|k: int|
            from <= k < skip_spaces(data, from, to) ==> #[trigger] data.kinds@[k]
                == SegmentKind::Space,
    decreases to - from,
{
    if from < to && data.kinds@[from] == SegmentKind::Space {
        lemma_skip_spaces(data, from + 1, to);
    }
}

/// Indices of segments and of graphemes are machine integers.
proof fn lemma_indices_fit<W: Scalar>(data: &PreparedData<W>)
    ensures
        data.count() <= usize::MAX,
        forall|k: int|
            0 <= k < data.count() ==> #[trigger] grapheme_count(data, k) <= usize::MAX,
{
    assert(data.kinds.len() <= usize::MAX);
    assert forall|k: int| 0 <= k < data.count() implies #[trigger] grapheme_count(data, k)
        <= usize::MAX by {
        if let Some(widths) = data.breakable_widths@[k] {
            assert(widths.len() <= usize::MAX);
        }
    }
}

/// A break leaves the next line further on than the one that it ends.
pub proof fn lemma_break_advances<W: Scalar>(
    data: &PreparedData<W>,
    start: int,
    grapheme: int,
    index: int,
    limit: W,
)
    requires
        0 <= start <= index < data.count(),
        0 <= grapheme,
    ensures
        break_at(data, start, grapheme, index, limit) matches Some(b) ==> {
            &&& start <= b.next.segment_index() <= index
            &&& b.next.segment_index() == start ==> grapheme < b.next.grapheme_index()
            &&& b.next.grapheme_index() > 0 ==> b.next.grapheme_index() < grapheme_count(
                data,
                b.next.segment_index() as int,
            )
        },
{
    lemma_indices_fit(data);
    assert(grapheme_count(data, index) <= usize::MAX);
    lemma_last_fitting(data, start, grapheme, index, limit);
    if let Some(last) = last_fitting(data, start, grapheme, index, limit) {
        lemma_skip_spaces(data, last + 1, index);
    }
}

/// The bounds of a chunk, kept inside the text.
pub open spec fn chunk_bounds<W: Scalar>(data: &PreparedData<W>, chunk: PreparedLineChunk) -> (
    int,
    int,
    int,
) {
    let count = data.count() as int;
    let start = least_int(chunk.start_segment_index as int, count);
    let end = clamped(chunk.end_segment_index as int, start, count);
    let consumed = clamped(chunk.consumed_end_segment_index as int, end, count);
    (start, end, consumed)
}

/// `value`, moved into `low..=high`.
pub open spec fn clamped(value: int, low: int, high: int) -> int {
    if value < low {
        low
    } else {
        least_int(value, high)
    }
}

/// The lines of one chunk. A chunk without segments is one empty line.
pub open spec fn chunk_lines<W: Scalar>(
    data: &PreparedData<W>,
    chunk: PreparedLineChunk,
    limit: W,
) -> Seq<InternalLine<W>> {
    let (start, end, consumed) = chunk_bounds(data, chunk);
    lines_from(data, start, 0, start, end, consumed, limit)
}

/// The lines of a run of chunks.
pub open spec fn all_chunk_lines<W: Scalar>(
    data: &PreparedData<W>,
    chunks: Seq<PreparedLineChunk>,
    limit: W,
) -> Seq<InternalLine<W>>
    decreases chunks.len(),
{
    if chunks.len() == 0 {
        Seq::empty()
    } else {
        all_chunk_lines(data, chunks.drop_last(), limit) + chunk_lines(data, chunks.last(), limit)
    }
}

/// The single line of an empty text.
pub open spec fn empty_line<W: Scalar>() -> InternalLine<W> {
    InternalLine {
        start_segment: 0,
        start_grapheme: 0,
        end_segment: 0,
        end_grapheme: 0,
        width: W::zero_value(),
        ends_with_discretionary_hyphen: false,
    }
}

/// The lines of a text without hard breaks.
pub open spec fn simple_lines<W: Scalar>(data: &PreparedData<W>, limit: W) -> Seq<InternalLine<W>> {
    let count = data.count() as int;
    if count == 0 {
        seq![empty_line()]
    } else {
        lines_from(data, 0, 0, 0, count, count, limit)
    }
}

/// The lines of a text, chunk by chunk.
pub open spec fn full_lines<W: Scalar>(data: &PreparedData<W>, limit: W) -> Seq<InternalLine<W>> {
    if data.count() == 0 || data.chunks@.len() == 0 {
        simple_lines(data, limit)
    } else {
        all_chunk_lines(data, data.chunks@, limit)
    }
}

/// The width up to which a line still fits.
pub open spec fn fit_limit<W: Scalar>(max_width: W, profile: EngineProfile<W>) -> W {
    max_width.plus(profile.line_fit_epsilon)
}

/// The first hard break from `from` on, or the end of the text.
pub open spec fn hard_break_from<W: Scalar>(data: &PreparedData<W>, from: int) -> int
    decreases data.count() - from,
{
    if from >= data.count() || data.kinds@[from] == SegmentKind::HardBreak {
        from
    } else {
        hard_break_from(data, from + 1)
    }
}

/// A cursor whose grapheme is one that its segment has.
pub open spec fn normalized<W: Scalar>(
    data: &PreparedData<W>,
    cursor: LayoutCursor,
) -> LayoutCursor {
    if cursor.segment_index() >= data.count() {
        cursor_at(data.count() as int, 0)
    } else {
        cursor_at(
            cursor.segment_index() as int,
            least_int(
                cursor.grapheme_index() as int,
                grapheme_count(data, cursor.segment_index() as int),
            ),
        )
    }
}

/// Whether the text ends in a hard break.
pub open spec fn ends_in_hard_break<W: Scalar>(data: &PreparedData<W>) -> bool {
    data.count() > 0 && data.kinds@[data.count() - 1] == SegmentKind::HardBreak
}

/// The line that starts at a cursor, and the cursor after it.
///
/// A text that is empty or ends in a hard break has one more, empty line at
/// its end; the cursor past the end says that it was taken.
pub open spec fn next_line<W: Scalar>(
    data: &PreparedData<W>,
    cursor: LayoutCursor,
    limit: W,
) -> Option<(LayoutLineRange<W>, LayoutCursor)> {
    let count = data.count() as int;
    if cursor.segment_index() >= count {
        if cursor == cursor_at(count, 0) && (count == 0 || ends_in_hard_break(data)) {
            Some(
                (
                    LayoutLineRange {
                        width: W::zero_value(),
                        start: cursor,
                        end: cursor,
                        ends_with_discretionary_hyphen: false,
                    },
                    cursor_at(if count < usize::MAX { count + 1 } else { count }, 0),
                ),
            )
        } else {
            None
        }
    } else {
        let from = normalized(data, cursor);
        let start = from.segment_index() as int;
        let grapheme = from.grapheme_index() as int;
        let end = hard_break_from(data, start);
        match first_break(data, start, grapheme, start, end, limit) {
            Some(at) => {
                let line_break = break_at(data, start, grapheme, at, limit)->0;
                Some(
                    (
                        LayoutLineRange {
                            width: line_break.width,
                            start: from,
                            end: line_break.end,
                            ends_with_discretionary_hyphen:
                                line_break.ends_with_discretionary_hyphen,
                        },
                        line_break.next,
                    ),
                )
            },
            None => {
                let next = cursor_at(
                    if end < count {
                        end + 1
                    } else {
                        count
                    },
                    0,
                );
                Some(
                    (
                        LayoutLineRange {
                            width: paint_width(data, start, grapheme, end),
                            start: from,
                            end: next,
                            ends_with_discretionary_hyphen: false,
                        },
                        next,
                    ),
                )
            },
        }
    }
}

// ---- Helpers ----------------------------------------------------------------

/// Compute tab advance to the next tab stop.
pub fn get_tab_advance<W: Scalar>(current_x: W, tab_stop_advance: W) -> (r: W)
    ensures
        r == tab_advance_value(current_x, tab_stop_advance),
{
    if !tab_stop_advance.is_finite() || tab_stop_advance.le(W::zero()) || !current_x.is_finite() {
        return W::zero();
    }
    tab_stop_advance.sub(current_x.rem(tab_stop_advance))
}

/// Sum a run of values.
fn sum_slice<W: Scalar>(values: &Vec<W>, from: usize, to: usize) -> (r: W)
    requires
        from <= to <= values@.len(),
    ensures
        r == sum_of(values@.subrange(from as int, to as int)),
{
    let mut total = W::zero();
    let mut index: usize = from;
    while index < to
        invariant
            from <= index <= to <= values@.len(),
            total == sum_of(values@.subrange(from as int, index as int)),
        decreases to - index,
    {
        proof {
            assert(values@.subrange(from as int, index + 1).drop_last() =~= values@.subrange(
                from as int,
                index as int,
            ));
        }
        total = total.add(values[index]);
        index += 1;
    }
    total
}

/// The width of a segment from a grapheme on.
fn remaining_segment_width<W: Scalar>(
    data: &PreparedData<W>,
    index: usize,
    start_grapheme: usize,
) -> (r: W)
    requires
        index < data.count(),
    ensures
        r == remaining_width(data, index as int, start_grapheme as int),
{
    if start_grapheme == 0 {
        return data.widths[index];
    }
    match &data.breakable_widths[index] {
        Some(widths) => {
            let from: usize = if start_grapheme < widths.len() {
                start_grapheme
            } else {
                widths.len()
            };
            proof {
                assert(widths@.subrange(from as int, widths@.len() as int) =~= widths@.skip(
                    from as int,
                ));
            }
            sum_slice(widths, from, widths.len())
        },
        None => data.widths[index],
    }
}

/// Structural controls do not make an otherwise empty line eligible for
/// emission.
fn is_visible_line_content(kind: SegmentKind) -> (r: bool)
    ensures
        r == visible(kind),
{
    !matches!(
        kind,
        SegmentKind::ZeroWidthBreak | SegmentKind::SoftHyphen | SegmentKind::HardBreak
    )
}

/// Skip leading space segments after a break.
fn skip_leading_spaces<W: Scalar>(data: &PreparedData<W>, from: usize, limit: usize) -> (r: usize)
    requires
        from <= limit <= data.count(),
    ensures
        r == skip_spaces(data, from as int, limit as int),
        from <= r <= limit,
{
    let mut i: usize = from;
    while i < limit && data.kinds[i] == SegmentKind::Space
        invariant
            from <= i <= limit <= data.count(),
            skip_spaces(data, from as int, limit as int) == skip_spaces(
                data,
                i as int,
                limit as int,
            ),
        decreases limit - i,
    {
        i += 1;
    }
    i
}

/// Find the grapheme index at which to break a segment for overflow-wrap.
///
/// Returns the index and the width of the graphemes before it, or `None` when
/// the whole segment fits or no grapheme may stay on the line.
fn find_grapheme_break<W: Scalar>(
    grapheme_widths: &Vec<W>,
    start: usize,
    line_w: W,
    limit: W,
    allow_first_overflow: bool,
) -> (r: Option<(usize, W)>)
    requires
        start <= grapheme_widths@.len(),
    ensures
        match grapheme_break(
            grapheme_widths@,
            start as int,
            line_w,
            limit,
            allow_first_overflow,
        ) {
            Some(at) => r == Some(
                (at as usize, sum_of(grapheme_widths@.subrange(start as int, at))),
            ),
            None => r is None,
        },
{
    let mut accum = line_w;
    let mut at: usize = start;
    while at < grapheme_widths.len() && !limit.lt(accum.add(grapheme_widths[at]))
        invariant
            start <= at <= grapheme_widths@.len(),
            first_overflow(grapheme_widths@, start as int, line_w, limit) == first_overflow(
                grapheme_widths@,
                at as int,
                accum,
                limit,
            ),
        decreases grapheme_widths@.len() - at,
    {
        accum = accum.add(grapheme_widths[at]);
        at += 1;
    }
    if at == start && allow_first_overflow && at < grapheme_widths.len() {
        at += 1;
    }
    if at > start && at < grapheme_widths.len() {
        Some((at, sum_slice(grapheme_widths, start, at)))
    } else {
        None
    }
}

impl<W: Scalar> LineState<W> {
    /// Whether this is the state of the line that starts at
    /// `(start, grapheme)` before segment `index`.
    pub open spec fn describes(
        self,
        data: &PreparedData<W>,
        start: int,
        grapheme: int,
        index: int,
        limit: W,
    ) -> bool {
        &&& self.width == line_advance(data, start, grapheme, index)
        &&& self.has_content == paints(data, start, index)
        &&& match last_fitting(data, start, grapheme, index, limit) {
            Some(last) => self.pending matches Some(pending) && pending.end_segment == last + 1
                && pending.paint_width == line_advance(data, start, grapheme, last).plus(
                data.line_end_paint_advances@[last],
            ) && pending.ends_with_discretionary_hyphen == (data.kinds@[last]
                == SegmentKind::SoftHyphen),
            None => self.pending is None,
        }
    }

    /// The state of a line that holds nothing.
    fn fresh() -> (r: Self)
        ensures
            r.width == W::zero_value(),
            !r.has_content,
            r.pending is None,
    {
        LineState { width: W::zero(), has_content: false, pending: None }
    }

    /// The state after one more segment.
    fn advance_over(
        self,
        data: &PreparedData<W>,
        index: usize,
        grapheme: usize,
        limit: W,
    ) -> (r: Self)
        requires
            index < data.count(),
        ensures
            forall|start: int, first: int|
                #![trigger self.describes(data, start, first, index as int, limit)]
                start <= index && grapheme == entry_grapheme(start, first, index as int)
                    && self.describes(data, start, first, index as int, limit) ==> r.describes(
                    data,
                    start,
                    first,
                    index + 1,
                    limit,
                ),
    {
        proof {
            lemma_indices_fit(data);
        }
        let kind = data.kinds[index];
        let advance = if kind == SegmentKind::Tab {
            get_tab_advance(self.width, data.tab_stop_advance)
        } else {
            remaining_segment_width(data, index, grapheme)
        };
        let has_content = self.has_content || is_visible_line_content(kind);
        let pending = if kind.can_break_after() && has_content && self.width.add(
            data.line_end_fit_advances[index],
        ).le(limit) {
            Some(
                PendingBreak {
                    end_segment: index + 1,
                    paint_width: self.width.add(data.line_end_paint_advances[index]),
                    ends_with_discretionary_hyphen: kind == SegmentKind::SoftHyphen,
                },
            )
        } else {
            self.pending
        };
        let r = LineState { width: self.width.add(advance), has_content, pending };
        proof {
            assert forall|start: int, first: int|
                #![trigger self.describes(data, start, first, index as int, limit)]
                start <= index && grapheme == entry_grapheme(start, first, index as int)
                    && self.describes(data, start, first, index as int, limit) implies r.describes(
                data,
                start,
                first,
                index + 1,
                limit,
            ) by {
                lemma_paints_one_more(data, start, index as int);
            }
        }
        r
    }
}

proof fn lemma_paints_one_more<W: Scalar>(data: &PreparedData<W>, start: int, index: int)
    requires
        start <= index,
    ensures
        paints(data, start, index + 1) == (paints(data, start, index) || visible(
            data.kinds@[index],
        )),
{
    if paints(data, start, index) {
        let k = choose|k: int| start <= k < index && visible(#[trigger] data.kinds@[k]);
        assert(start <= k < index + 1 && visible(data.kinds@[k]));
    }
    if visible(data.kinds@[index]) {
        assert(start <= index < index + 1 && visible(data.kinds@[index]));
    }
}

/// Compute the painted width of a line that starts at a cursor and ends
/// before a segment.
fn compute_paint_width<W: Scalar>(
    data: &PreparedData<W>,
    start: usize,
    grapheme: usize,
    end: usize,
) -> (r: W)
    requires
        end <= data.count(),
    ensures
        r == paint_width(data, start as int, grapheme as int, end as int),
{
    if end <= start {
        return W::zero();
    }
    let mut width = W::zero();
    let mut index: usize = start;
    while index + 1 < end
        invariant
            start <= index < end <= data.count(),
            width == line_advance(data, start as int, grapheme as int, index as int),
        decreases end - index,
    {
        let entry: usize = if index == start {
            grapheme
        } else {
            0
        };
        let advance = if data.kinds[index] == SegmentKind::Tab {
            get_tab_advance(width, data.tab_stop_advance)
        } else {
            remaining_segment_width(data, index, entry)
        };
        width = width.add(advance);
        index += 1;
    }
    let last = if index == start && grapheme > 0 {
        if data.kinds[index] == SegmentKind::Tab {
            get_tab_advance(width, data.tab_stop_advance)
        } else {
            remaining_segment_width(data, index, grapheme)
        }
    } else if data.kinds[index] == SegmentKind::SoftHyphen {
        // U+00AD contributes paint width only when a break selects it.
        W::zero()
    } else {
        data.line_end_paint_advances[index]
    };
    width.add(last)
}

/// Decide whether the line that starts at `(start, grapheme)` breaks on
/// account of segment `index`.
fn find_break<W: Scalar>(
    data: &PreparedData<W>,
    start: usize,
    grapheme: usize,
    index: usize,
    state: LineState<W>,
    limit: W,
) -> (r: Option<LineBreak<W>>)
    requires
        start <= index < data.count(),
        state.describes(data, start as int, grapheme as int, index as int, limit),
    ensures
        r == break_at(data, start as int, grapheme as int, index as int, limit),
{
    proof {
        lemma_indices_fit(data);
        assert(grapheme_count(data, index as int) <= usize::MAX);
        lemma_last_fitting(data, start as int, grapheme as int, index as int, limit);
    }
    if data.kinds[index] != SegmentKind::Text {
        return None;
    }
    let entry: usize = if index == start {
        grapheme
    } else {
        0
    };
    if !limit.lt(state.width.add(remaining_segment_width(data, index, entry))) {
        return None;
    }
    // Try the pending break.
    if let Some(pending) = state.pending {
        let next = skip_leading_spaces(data, pending.end_segment, index);
        return Some(
            LineBreak {
                end: LayoutCursor { segment_index: pending.end_segment, grapheme_index: 0 },
                width: pending.paint_width,
                ends_with_discretionary_hyphen: pending.ends_with_discretionary_hyphen,
                next: LayoutCursor { segment_index: next, grapheme_index: 0 },
            },
        );
    }
    // Text that is attached to the preceding run by non-breaking glue stays
    // with it.
    if index > start && data.kinds[index - 1] == SegmentKind::Glue {
        return None;
    }
    // Try grapheme breaking within the segment.
    if let Some(widths) = &data.breakable_widths[index] {
        let from: usize = if entry < widths.len() {
            entry
        } else {
            widths.len()
        };
        if let Some((at, width)) = find_grapheme_break(
            widths,
            from,
            state.width,
            limit,
            !state.has_content,
        ) {
            let end = LayoutCursor { segment_index: index, grapheme_index: at };
            return Some(
                LineBreak {
                    end,
                    width: state.width.add(width),
                    ends_with_discretionary_hyphen: false,
                    next: end,
                },
            );
        }
    }
    // No part of this segment fits after existing content: leave it for the
    // next line, where it can be split from a fresh start.
    if state.has_content && start < index {
        let end = LayoutCursor { segment_index: index, grapheme_index: 0 };
        return Some(
            LineBreak {
                end,
                width: compute_paint_width(data, start, grapheme, index),
                ends_with_discretionary_hyphen: false,
                next: end,
            },
        );
    }
    None
}

/// Reconstruct the state of a line that starts at an earlier segment.
fn replay_line_state<W: Scalar>(
    data: &PreparedData<W>,
    from: usize,
    grapheme: usize,
    to: usize,
    limit: W,
) -> (r: LineState<W>)
    requires
        from <= to <= data.count(),
    ensures
        r.describes(data, from as int, grapheme as int, to as int, limit),
{
    let mut state = LineState::fresh();
    let mut index: usize = from;
    while index < to
        invariant
            from <= index <= to <= data.count(),
            state.describes(data, from as int, grapheme as int, index as int, limit),
        decreases to - index,
    {
        let entry: usize = if index == from {
            grapheme
        } else {
            0
        };
        state = state.advance_over(data, index, entry, limit);
        index += 1;
    }
    state
}

// ---- Walkers ----------------------------------------------------------------

/// Walk the lines of `start..end`, appending each to `lines`.
fn walk_range<W: Scalar>(
    data: &PreparedData<W>,
    start: usize,
    end: usize,
    consumed: usize,
    limit: W,
    lines: &mut Vec<InternalLine<W>>,
)
    requires
        start <= end <= data.count(),
    ensures
        final(lines)@ == old(lines)@ + lines_from(
            data,
            start as int,
            0,
            start as int,
            end as int,
            consumed as int,
            limit,
        ),
{
    let ghost before = lines@;
    let ghost all = lines_from(
        data,
        start as int,
        0,
        start as int,
        end as int,
        consumed as int,
        limit,
    );
    let mut line_start: usize = start;
    let mut line_grapheme: usize = 0;
    let mut state = LineState::fresh();
    let mut i: usize = start;
    proof {
        assert(before + Seq::<InternalLine<W>>::empty() =~= before);
    }
    while i < end
        invariant
            start <= line_start <= i <= end <= data.count(),
            state.describes(data, line_start as int, line_grapheme as int, i as int, limit),
            before + all == lines@ + lines_from(
                data,
                line_start as int,
                line_grapheme as int,
                i as int,
                end as int,
                consumed as int,
                limit,
            ),
        decreases end - i, end - line_start, grapheme_count(data, line_start as int)
            - line_grapheme,
    {
        proof {
            lemma_break_advances(
                data,
                line_start as int,
                line_grapheme as int,
                i as int,
                limit,
            );
        }
        match find_break(data, line_start, line_grapheme, i, state, limit) {
            Some(line_break) => {
                let line = InternalLine {
                    start_segment: line_start,
                    start_grapheme: line_grapheme,
                    end_segment: line_break.end.segment_index(),
                    end_grapheme: line_break.end.grapheme_index(),
                    width: line_break.width,
                    ends_with_discretionary_hyphen: line_break.ends_with_discretionary_hyphen,
                };
                let ghost previous = lines@;
                lines.push(line);
                line_start = line_break.next.segment_index();
                line_grapheme = line_break.next.grapheme_index();
                state = replay_line_state(data, line_start, line_grapheme, i, limit);
                proof {
                    let rest = lines_from(
                        data,
                        line_start as int,
                        line_grapheme as int,
                        i as int,
                        end as int,
                        consumed as int,
                        limit,
                    );
                    assert(previous + (seq![line] + rest) =~= lines@ + rest);
                }
            },
            None => {
                let entry: usize = if i == line_start {
                    line_grapheme
                } else {
                    0
                };
                state = state.advance_over(data, i, entry, limit);
                i += 1;
            },
        }
    }
    let width = compute_paint_width(data, line_start, line_grapheme, end);
    let ghost previous = lines@;
    lines.push(
        InternalLine {
            start_segment: line_start,
            start_grapheme: line_grapheme,
            end_segment: consumed,
            end_grapheme: 0,
            width,
            ends_with_discretionary_hyphen: false,
        },
    );
    proof {
        assert(lines@ =~= previous + seq![
            closing_line(
                data,
                line_start as int,
                line_grapheme as int,
                end as int,
                consumed as int,
            ),
        ]);
    }
}

/// Walk a single chunk (between hard breaks), appending its lines.
fn walk_chunk<W: Scalar>(
    data: &PreparedData<W>,
    chunk: PreparedLineChunk,
    limit: W,
    lines: &mut Vec<InternalLine<W>>,
)
    ensures
        final(lines)@ == old(lines)@ + chunk_lines(data, chunk, limit),
{
    let count = data.segment_count();
    let start: usize = min_index(chunk.start_segment_index, count);
    let end: usize = if chunk.end_segment_index < start {
        start
    } else {
        min_index(chunk.end_segment_index, count)
    };
    let consumed: usize = if chunk.consumed_end_segment_index < end {
        end
    } else {
        min_index(chunk.consumed_end_segment_index, count)
    };
    walk_range(data, start, end, consumed, limit, lines);
}

fn min_index(a: usize, b: usize) -> (r: usize)
    ensures
        r == least_int(a as int, b as int),
{
    if a <= b {
        a
    } else {
        b
    }
}

/// Walk lines using the simple fast path: the whole text is one chunk.
///
/// Meant for `Text`, `Space`, and `ZeroWidthBreak` segments, the common case
/// for prose.
#[must_use]
pub fn walk_lines_simple<W: Scalar>(
    data: &PreparedData<W>,
    max_width: W,
    profile: &EngineProfile<W>,
) -> (r: Vec<InternalLine<W>>)
    ensures
        r@ == simple_lines(data, fit_limit(max_width, *profile)),
{
    let limit = max_width.add(profile.line_fit_epsilon);
    let count = data.segment_count();
    let mut lines: Vec<InternalLine<W>> = Vec::new();
    if count == 0 {
        lines.push(
            InternalLine {
                start_segment: 0,
                start_grapheme: 0,
                end_segment: 0,
                end_grapheme: 0,
                width: W::zero(),
                ends_with_discretionary_hyphen: false,
            },
        );
        proof {
            assert(lines@ =~= seq![empty_line::<W>()]);
        }
        return lines;
    }
    walk_range(data, 0, count, count, limit, &mut lines);
    proof {
        assert(lines@ =~= simple_lines(data, limit));
    }
    lines
}

/// Count lines using the simple fast path.
#[must_use]
pub fn count_lines_simple<W: Scalar>(
    data: &PreparedData<W>,
    max_width: W,
    profile: &EngineProfile<W>,
) -> (r: usize)
    ensures
        r == simple_lines(data, fit_limit(max_width, *profile)).len(),
{
    walk_lines_simple(data, max_width, profile).len()
}

/// Walk lines with full chunk/tab/soft-hyphen support.
#[must_use]
pub fn walk_lines_full<W: Scalar>(
    data: &PreparedData<W>,
    max_width: W,
    profile: &EngineProfile<W>,
) -> (r: Vec<InternalLine<W>>)
    ensures
        r@ == full_lines(data, fit_limit(max_width, *profile)),
{
    if data.segment_count() == 0 || data.chunks.len() == 0 {
        return walk_lines_simple(data, max_width, profile);
    }
    let limit = max_width.add(profile.line_fit_epsilon);
    let mut lines: Vec<InternalLine<W>> = Vec::new();
    let mut index: usize = 0;
    while index < data.chunks.len()
        invariant
            index <= data.chunks@.len(),
            lines@ == all_chunk_lines(data, data.chunks@.take(index as int), limit),
        decreases data.chunks@.len() - index,
    {
        proof {
            assert(data.chunks@.take(index + 1).drop_last() =~= data.chunks@.take(index as int));
        }
        walk_chunk(data, data.chunks[index], limit, &mut lines);
        index += 1;
    }
    proof {
        assert(data.chunks@.take(index as int) =~= data.chunks@);
    }
    lines
}

/// Count lines using the full walker with chunk support.
#[must_use]
pub fn count_lines_full<W: Scalar>(
    data: &PreparedData<W>,
    max_width: W,
    profile: &EngineProfile<W>,
) -> (r: usize)
    ensures
        r == full_lines(data, fit_limit(max_width, *profile)).len(),
{
    walk_lines_full(data, max_width, profile).len()
}

/// The lines of a text, by the path that it was prepared for.
pub open spec fn walked_lines<W: Scalar>(data: &PreparedData<W>, limit: W) -> Seq<InternalLine<W>> {
    if data.simple_fast_path {
        simple_lines(data, limit)
    } else {
        full_lines(data, limit)
    }
}

/// Walk lines by the path that the text was prepared for.
#[must_use]
pub fn walk_lines<W: Scalar>(
    data: &PreparedData<W>,
    max_width: W,
    profile: &EngineProfile<W>,
) -> (r: Vec<InternalLine<W>>)
    ensures
        r@ == walked_lines(data, fit_limit(max_width, *profile)),
{
    if data.simple_fast_path {
        walk_lines_simple(data, max_width, profile)
    } else {
        walk_lines_full(data, max_width, profile)
    }
}

// ---- Streaming cursor API ---------------------------------------------------

/// Clamp a cursor to the prepared representation.
fn normalize_cursor<W: Scalar>(data: &PreparedData<W>, cursor: LayoutCursor) -> (r: LayoutCursor)
    requires
        cursor.segment_index() < data.count(),
    ensures
        r == normalized(data, cursor),
{
    let grapheme_index: usize = match &data.breakable_widths[cursor.segment_index()] {
        Some(widths) => min_index(cursor.grapheme_index(), widths.len()),
        None => 0,
    };
    LayoutCursor { segment_index: cursor.segment_index(), grapheme_index }
}

/// Layout a single line starting from a cursor position.
///
/// Returns the line range and the cursor for the next line, or `None`
/// if there are no more lines. Call repeatedly to iterate lines one at a
/// time; `max_width` may differ from line to line (for text flowing around
/// images).
#[must_use]
pub fn layout_next_line_range<W: Scalar>(
    data: &PreparedData<W>,
    start: LayoutCursor,
    max_width: W,
    profile: &EngineProfile<W>,
) -> (r: Option<(LayoutLineRange<W>, LayoutCursor)>)
    ensures
        r == next_line(data, start, fit_limit(max_width, *profile)),
{
    let count = data.segment_count();
    if start.segment_index() >= count {
        let open_end = count == 0 || data.kinds[count - 1] == SegmentKind::HardBreak;
        if start.segment_index() == count && start.grapheme_index() == 0 && open_end {
            let past: usize = if count < usize::MAX {
                count + 1
            } else {
                count
            };
            return Some(
                (
                    LayoutLineRange {
                        width: W::zero(),
                        start,
                        end: start,
                        ends_with_discretionary_hyphen: false,
                    },
                    LayoutCursor { segment_index: past, grapheme_index: 0 },
                ),
            );
        }
        return None;
    }
    let limit = max_width.add(profile.line_fit_epsilon);
    let from = normalize_cursor(data, start);
    let first: usize = from.segment_index();
    let ghost end = hard_break_from(data, first as int);
    let mut state = LineState::fresh();
    let mut i: usize = first;
    proof {
        lemma_hard_break_from(data, first as int);
    }
    while i < count && data.kinds[i] != SegmentKind::HardBreak
        invariant
            first == from.segment_index(),
            from.segment_index() <= i <= count == data.count(),
            i <= end <= count,
            end == hard_break_from(data, i as int),
            state.describes(
                data,
                from.segment_index() as int,
                from.grapheme_index() as int,
                i as int,
                limit,
            ),
            from == normalized(data, start),
            start.segment_index() < data.count(),
            limit == fit_limit(max_width, *profile),
            end == hard_break_from(data, first as int),
            first_break(
                data,
                first as int,
                from.grapheme_index() as int,
                first as int,
                end,
                limit,
            ) == first_break(
                data,
                first as int,
                from.grapheme_index() as int,
                i as int,
                end,
                limit,
            ),
        decreases count - i,
    {
        proof {
            lemma_hard_break_from(data, i + 1);
        }
        match find_break(data, first, from.grapheme_index(), i, state, limit) {
            Some(line_break) => {
                return Some(
                    (
                        LayoutLineRange {
                            width: line_break.width,
                            start: from,
                            end: line_break.end,
                            ends_with_discretionary_hyphen:
                                line_break.ends_with_discretionary_hyphen,
                        },
                        line_break.next,
                    ),
                );
            },
            None => {
                let entry: usize = if i == first {
                    from.grapheme_index()
                } else {
                    0
                };
                state = state.advance_over(data, i, entry, limit);
                i += 1;
            },
        }
    }
    let next = LayoutCursor {
        segment_index: if i < count {
            i + 1
        } else {
            count
        },
        grapheme_index: 0,
    };
    Some(
        (
            LayoutLineRange {
                width: compute_paint_width(data, first, from.grapheme_index(), i),
                start: from,
                end: next,
                ends_with_discretionary_hyphen: false,
            },
            next,
        ),
    )
}

proof fn lemma_hard_break_from<W: Scalar>(data: &PreparedData<W>, from: int)
    requires
        0 <= from <= data.count(),
    ensures
        from <= hard_break_from(data, from) <= data.count(),
        hard_break_from(data, from) < data.count() ==> data.kinds@[hard_break_from(data, from)]
            == SegmentKind::HardBreak,
        forall|k: int|
            from <= k < hard_break_from(data, from) ==> #[trigger] data.kinds@[k]
                != SegmentKind::HardBreak,
    decreases data.count() - from,
{
    if from < data.count() && data.kinds@[from] != SegmentKind::HardBreak {
        lemma_hard_break_from(data, from + 1);
    }
}

} // verus!
