//! Layout: lines out of prepared text, at any width.
use crate::backend::font::positive;
use crate::backend::{validate_metric, validated};
use crate::error::Error;
use crate::line_break::{
    ends_in_hard_break, fit_limit, grapheme_count, layout_next_line_range, least_int, next_line,
    walk_lines, walked_lines, InternalLine,
};
use crate::line_laws::{as_range, as_ranges};
use crate::prepare::joins_up;
use crate::scalar::{nonnegative, Scalar};
use crate::segmentation::{grapheme_clusters, graphemes};
use crate::text::{joined, views};
use crate::types::{
    invalid_profile, EngineProfile, LayoutCursor, LayoutLine, LayoutLineRange, LayoutResult,
    PreparedData, PreparedText, PreparedTextWithSegments, RichText, SegmentKind,
};
use vstd::prelude::*;
use vstd::string::*;

verus! {

// ---- Arguments -------------------------------------------------------------------

/// The error for a width that is negative or undefined.
pub open spec fn invalid_max_width(error: Error) -> bool {
    error.rejects("max_width"@, "must be non-negative and not NaN"@)
}

/// The error for a line height that is not finite and positive.
pub open spec fn invalid_line_height(error: Error) -> bool {
    error.rejects("line_height"@, "must be finite and greater than zero"@)
}

pub(crate) fn validate_max_width<W: Scalar>(max_width: W) -> (r: Result<(), Error>)
    ensures
        r is Ok <==> nonnegative(max_width),
        r matches Err(error) ==> invalid_max_width(error),
{
    if W::zero().le(max_width) {
        Ok(())
    } else {
        Err(Error::invalid_input("max_width", "must be non-negative and not NaN"))
    }
}

pub(crate) fn validate_line_height<W: Scalar>(line_height: W) -> (r: Result<(), Error>)
    ensures
        r is Ok <==> positive(line_height),
        r matches Err(error) ==> invalid_line_height(error),
{
    if line_height.is_finite() && W::zero().lt(line_height) {
        Ok(())
    } else {
        Err(Error::invalid_input("line_height", "must be finite and greater than zero"))
    }
}

/// Whether a cursor stands at a place of the text: at a segment boundary,
/// inside a breakable segment, at the end, or past the empty line that ends a
/// text which is empty or ends in a hard break.
pub open spec fn valid_cursor<W: Scalar>(data: &PreparedData<W>, cursor: LayoutCursor) -> bool {
    let segment = cursor.segment_index() as int;
    let grapheme = cursor.grapheme_index() as int;
    if segment < data.count() {
        grapheme == 0 || grapheme < grapheme_count(data, segment)
    } else if segment == data.count() {
        grapheme == 0
    } else {
        segment == data.count() + 1 && grapheme == 0 && (data.count() == 0 || ends_in_hard_break(
            data,
        ))
    }
}

/// The error for a cursor that stands nowhere in the text.
pub open spec fn invalid_cursor(
    error: Error,
    context: Seq<char>,
    cursor: LayoutCursor,
    segment_count: nat,
) -> bool {
    error matches Error::InvalidCursor {
        context: c,
        segment_index,
        grapheme_index,
        segment_count: count,
    } && c@ == context && segment_index == cursor.segment_index() && grapheme_index
        == cursor.grapheme_index() && count == segment_count
}

/// Whether a cursor stands at a place of the text.
pub(crate) fn is_valid_cursor<W: Scalar>(data: &PreparedData<W>, cursor: LayoutCursor) -> (r: bool)
    ensures
        r == valid_cursor(data, cursor),
{
    let segment_count = data.segment_count();
    let segment: usize = cursor.segment_index();
    let grapheme: usize = cursor.grapheme_index();
    if segment < segment_count {
        grapheme == 0 || match &data.breakable_widths[segment] {
            Some(widths) => grapheme < widths.len(),
            None => false,
        }
    } else if segment == segment_count {
        grapheme == 0
    } else {
        segment - segment_count == 1 && grapheme == 0 && (segment_count == 0
            || data.kinds[segment_count - 1] == SegmentKind::HardBreak)
    }
}

fn validate_cursor<W: Scalar>(
    data: &PreparedData<W>,
    cursor: LayoutCursor,
    context: &'static str,
) -> (r: Result<(), Error>)
    ensures
        r is Ok <==> valid_cursor(data, cursor),
        r matches Err(error) ==> invalid_cursor(error, context@, cursor, data.count()),
{
    if is_valid_cursor(data, cursor) {
        Ok(())
    } else {
        Err(
            Error::InvalidCursor {
                context,
                segment_index: cursor.segment_index(),
                grapheme_index: cursor.grapheme_index(),
                segment_count: data.segment_count(),
            },
        )
    }
}

// ---- Counting and walking ----------------------------------------------------------

/// What a layout at some width and line height gives.
pub open spec fn layout_outcome<W: Scalar>(
    data: &PreparedData<W>,
    max_width: W,
    line_height: W,
    profile: EngineProfile<W>,
    outcome: Result<LayoutResult<W>, Error>,
) -> bool {
    if !nonnegative(max_width) {
        outcome matches Err(error) && invalid_max_width(error)
    } else if !positive(line_height) {
        outcome matches Err(error) && invalid_line_height(error)
    } else if !profile.valid() {
        outcome matches Err(error) && invalid_profile(error)
    } else {
        let lines = walked_lines(data, fit_limit(max_width, profile)).len();
        let height = W::ratio_value(lines, 1).times(line_height);
        match outcome {
            Ok(result) => result.line_count == lines && validated(
                "layout height"@,
                height,
                Ok(result.height),
            ),
            Err(error) => validated("layout height"@, height, Err(error)),
        }
    }
}

/// Layout prepared text at a given width -- the fast path.
///
/// Returns line count and total height. This is pure arithmetic over
/// cached widths, without backend measurement or text materialization.
///
/// # Errors
///
/// Returns an error when the width or the line height is invalid, or the
/// height is no measurement.
pub fn layout<W: Scalar>(prepared: &PreparedText<W>, max_width: W, line_height: W) -> (r: Result<
    LayoutResult<W>,
    Error,
>)
    ensures
        layout_outcome(&prepared@, max_width, line_height, prepared@.profile, r),
{
    layout_with_profile(prepared, max_width, line_height, &prepared.data().profile)
}

/// Layout with a specific engine profile.
///
/// # Errors
///
/// Returns an error when the width, line height, or profile contains invalid
/// numeric values, or the height is no measurement.
pub fn layout_with_profile<W: Scalar>(
    prepared: &PreparedText<W>,
    max_width: W,
    line_height: W,
    profile: &EngineProfile<W>,
) -> (r: Result<LayoutResult<W>, Error>)
    ensures
        layout_outcome(&prepared@, max_width, line_height, *profile, r),
{
    if let Err(error) = validate_max_width(max_width) {
        return Err(error);
    }
    if let Err(error) = validate_line_height(line_height) {
        return Err(error);
    }
    if let Err(error) = profile.validate() {
        return Err(error);
    }
    let line_count: usize = walk_lines(prepared.data(), max_width, profile).len();
    match validate_metric("layout height", W::ratio(line_count, 1).mul(line_height)) {
        Ok(height) => Ok(LayoutResult { line_count, height }),
        Err(error) => Err(error),
    }
}

fn range_of<W: Scalar>(line: &InternalLine<W>) -> (r: LayoutLineRange<W>)
    ensures
        r == as_range(*line),
{
    LayoutLineRange {
        width: line.width,
        start: LayoutCursor {
            segment_index: line.start_segment,
            grapheme_index: line.start_grapheme,
        },
        end: LayoutCursor { segment_index: line.end_segment, grapheme_index: line.end_grapheme },
        ends_with_discretionary_hyphen: line.ends_with_discretionary_hyphen,
    }
}

/// Walk line ranges without materializing text -- geometry only.
///
/// Returns each line with its width and cursor range. Fastest way to get
/// layout geometry when you don't need text content.
///
/// # Errors
///
/// Returns an error when the width or the profile is invalid.
pub fn walk_line_ranges<W: Scalar>(
    prepared: &PreparedText<W>,
    max_width: W,
    profile: &EngineProfile<W>,
) -> (r: Result<Vec<LayoutLineRange<W>>, Error>)
    ensures
        if !nonnegative(max_width) {
            r matches Err(error) && invalid_max_width(error)
        } else if !profile.valid() {
            r matches Err(error) && invalid_profile(error)
        } else {
            r matches Ok(ranges) && ranges@ == as_ranges(
                walked_lines(&prepared@, fit_limit(max_width, *profile)),
            )
        },
{
    if let Err(error) = validate_max_width(max_width) {
        return Err(error);
    }
    if let Err(error) = profile.validate() {
        return Err(error);
    }
    let lines = walk_lines(prepared.data(), max_width, profile);
    let mut ranges: Vec<LayoutLineRange<W>> = Vec::new();
    let mut index: usize = 0;
    while index < lines.len()
        invariant
            index <= lines@.len(),
            ranges@ == as_ranges(lines@.take(index as int)),
        decreases lines@.len() - index,
    {
        ranges.push(range_of(&lines[index]));
        index += 1;
        proof {
            assert(ranges@ =~= as_ranges(lines@.take(index as int)));
        }
    }
    proof {
        assert(lines@.take(index as int) =~= lines@);
    }
    Ok(ranges)
}

/// The width of the widest line, at least zero.
pub open spec fn widest<W: Scalar>(lines: Seq<InternalLine<W>>) -> W
    decreases lines.len(),
{
    if lines.len() == 0 {
        W::zero_value()
    } else {
        let before = widest(lines.drop_last());
        if before.below(lines.last().width) {
            lines.last().width
        } else {
            before
        }
    }
}

/// Measure the natural (unwrapped) width of text.
///
/// Returns the width the text would occupy if it weren't wrapped --
/// effectively the width of the widest forced line (at infinite `max_width`).
///
/// # Errors
///
/// Returns an error when the profile of the prepared text is invalid.
pub fn measure_natural_width<W: Scalar>(prepared: &PreparedText<W>) -> (r: Result<W, Error>)
    ensures
        if !nonnegative(W::infinite_value()) {
            r matches Err(error) && invalid_max_width(error)
        } else if !prepared@.profile.valid() {
            r matches Err(error) && invalid_profile(error)
        } else {
            r matches Ok(width) && width == widest(
                walked_lines(&prepared@, fit_limit(W::infinite_value(), prepared@.profile)),
            )
        },
{
    let profile = &prepared.data().profile;
    if let Err(error) = validate_max_width(W::infinity()) {
        return Err(error);
    }
    if let Err(error) = profile.validate() {
        return Err(error);
    }
    let lines = walk_lines(prepared.data(), W::infinity(), profile);
    let mut width = W::zero();
    let mut index: usize = 0;
    proof {
        assert(lines@.take(0) =~= Seq::empty());
    }
    while index < lines.len()
        invariant
            index <= lines@.len(),
            width == widest(lines@.take(index as int)),
        decreases lines@.len() - index,
    {
        proof {
            assert(lines@.take(index + 1).drop_last() =~= lines@.take(index as int));
        }
        if width.lt(lines[index].width) {
            width = lines[index].width;
        }
        index += 1;
    }
    proof {
        assert(lines@.take(index as int) =~= lines@);
    }
    Ok(width)
}

/// Layout a single line starting from a cursor -- streaming API.
///
/// Supports per-line `max_width` (for text flowing around images).
/// Call repeatedly with the returned cursor to iterate all lines.
///
/// # Errors
///
/// Returns an error when the width is invalid, or the cursor stands nowhere in
/// the text.
pub fn layout_next_line<W: Scalar>(
    prepared: &PreparedText<W>,
    start: LayoutCursor,
    max_width: W,
) -> (r: Result<Option<(LayoutLineRange<W>, LayoutCursor)>, Error>)
    ensures
        if !nonnegative(max_width) {
            r matches Err(error) && invalid_max_width(error)
        } else if !prepared@.profile.valid() {
            r matches Err(error) && invalid_profile(error)
        } else if !valid_cursor(&prepared@, start) {
            r matches Err(error) && invalid_cursor(
                error,
                "layout_next_line"@,
                start,
                prepared@.count(),
            )
        } else {
            r == Ok::<_, Error>(
                next_line(&prepared@, start, fit_limit(max_width, prepared@.profile)),
            )
        },
{
    let data = prepared.data();
    if let Err(error) = validate_max_width(max_width) {
        return Err(error);
    }
    if let Err(error) = data.profile.validate() {
        return Err(error);
    }
    if let Err(error) = validate_cursor(data, start, "layout_next_line") {
        return Err(error);
    }
    Ok(layout_next_line_range(data, start, max_width, &data.profile))
}

// ---- Line text -----------------------------------------------------------------------

/// Whether a kind never shows in line text: a selected soft hyphen shows as a
/// hyphen instead, a hard break as the line's end.
pub open spec fn hidden(kind: SegmentKind) -> bool {
    kind == SegmentKind::SoftHyphen || kind == SegmentKind::HardBreak
}

/// Whether the graphemes of a text are the text, and can be counted.
pub open spec fn splits_up(text: Seq<char>) -> bool {
    joins_up(text) && grapheme_clusters(text).len() <= usize::MAX
}

/// The graphemes `from..to` of a segment, both kept inside the segment.
pub open spec fn grapheme_range(segment: Seq<char>, from: int, to: int) -> Seq<char> {
    let clusters = grapheme_clusters(segment);
    let start = least_int(from, clusters.len() as int);
    let end = least_int(to, clusters.len() as int);
    if start < end {
        joined(clusters.subrange(start, end))
    } else {
        Seq::empty()
    }
}

/// What the segments `from..to` show on a line that starts at
/// `(start, grapheme)`.
pub open spec fn shown_text(
    segments: Seq<Seq<char>>,
    kinds: Seq<SegmentKind>,
    start: int,
    grapheme: int,
    from: int,
    to: int,
) -> Seq<char>
    decreases to - from,
{
    if to <= from {
        Seq::empty()
    } else {
        let last = to - 1;
        shown_text(segments, kinds, start, grapheme, from, last) + if hidden(kinds[last]) {
            Seq::empty()
        } else if last == start && grapheme > 0 {
            grapheme_range(segments[last], grapheme, usize::MAX as int)
        } else {
            segments[last]
        }
    }
}

/// The text of a line between two cursors, with a hyphen where it ends in one.
pub open spec fn line_text(
    segments: Seq<Seq<char>>,
    kinds: Seq<SegmentKind>,
    start: LayoutCursor,
    end: LayoutCursor,
    hyphen: bool,
) -> Seq<char> {
    let count = least_int(segments.len() as int, kinds.len() as int);
    let boundary = least_int(end.segment_index() as int, count);
    let from = least_int(start.segment_index() as int, boundary);
    let whole = shown_text(
        segments,
        kinds,
        start.segment_index() as int,
        start.grapheme_index() as int,
        from,
        boundary,
    );
    let part = if end.grapheme_index() > 0 && end.segment_index() < count && !hidden(
        kinds[end.segment_index() as int],
    ) {
        grapheme_range(
            segments[end.segment_index() as int],
            if start.segment_index() == end.segment_index() {
                start.grapheme_index() as int
            } else {
                0
            },
            end.grapheme_index() as int,
        )
    } else {
        Seq::empty()
    };
    whole + part + if hyphen {
        seq!['-']
    } else {
        Seq::empty()
    }
}

/// Append the clusters `from..to`, both kept inside the run.
pub fn push_clusters(text: &mut String, clusters: &Vec<String>, from: usize, to: usize)
    ensures
        ({
            let count = clusters@.len() as int;
            let start = least_int(from as int, count);
            let end = least_int(to as int, count);
            final(text)@ == old(text)@ + if start < end {
                joined(views(clusters@).subrange(start, end))
            } else {
                Seq::empty()
            }
        }),
{
    let ghost before = text@;
    let ghost all = views(clusters@);
    let start: usize = if from < clusters.len() {
        from
    } else {
        clusters.len()
    };
    let end: usize = if to < clusters.len() {
        to
    } else {
        clusters.len()
    };
    let mut index: usize = start;
    proof {
        assert(all.subrange(start as int, start as int) =~= Seq::empty());
        assert(before + Seq::<char>::empty() =~= before);
    }
    while index < end
        invariant
            start <= index,
            start < end ==> index <= end,
            end <= clusters@.len(),
            start <= clusters@.len(),
            all == views(clusters@),
            index > start ==> start < end,
            text@ == before + joined(all.subrange(start as int, index as int)),
        decreases end - index,
    {
        proof {
            let longer = all.subrange(start as int, index + 1);
            assert(longer.drop_last() =~= all.subrange(start as int, index as int));
            assert(longer.last() == clusters@[index as int]@);
            assert(before + joined(all.subrange(start as int, index as int))
                + clusters@[index as int]@ =~= before + joined(longer));
        }
        text.append(clusters[index].as_str());
        index += 1;
    }
}

/// Whether the segments that a range starts or ends inside are their graphemes.
pub open spec fn split_segments_split_up(
    segments: Seq<Seq<char>>,
    kinds: Seq<SegmentKind>,
    start: LayoutCursor,
    end: LayoutCursor,
) -> bool {
    let count = least_int(segments.len() as int, kinds.len() as int);
    let boundary = least_int(end.segment_index() as int, count);
    &&& start.grapheme_index() > 0 && start.segment_index() < boundary && !hidden(
        kinds[start.segment_index() as int],
    ) ==> splits_up(segments[start.segment_index() as int])
    &&& end.grapheme_index() > 0 && end.segment_index() < count && !hidden(
        kinds[end.segment_index() as int],
    ) ==> splits_up(segments[end.segment_index() as int])
}

/// Materialize line text from segment strings.
#[must_use]
pub fn materialize_line_text(
    segments: &[String],
    kinds: &[SegmentKind],
    start: LayoutCursor,
    end: LayoutCursor,
    ends_with_discretionary_hyphen: bool,
) -> (r: String)
    ensures
        r@ == line_text(views(segments@), kinds@, start, end, ends_with_discretionary_hyphen),
        split_segments_split_up(views(segments@), kinds@, start, end),
{
    let ghost texts = views(segments@);
    let mut text = String::new();
    let count: usize = if segments.len() < kinds.len() {
        segments.len()
    } else {
        kinds.len()
    };
    let boundary: usize = if end.segment_index() < count {
        end.segment_index()
    } else {
        count
    };
    let from: usize = if start.segment_index() < boundary {
        start.segment_index()
    } else {
        boundary
    };
    let mut index: usize = from;
    proof {
        assert(text@ =~= Seq::empty());
    }
    while index < boundary
        invariant
            from <= index <= boundary <= count,
            count <= segments@.len(),
            count <= kinds@.len(),
            texts == views(segments@),
            text@ == shown_text(
                texts,
                kinds@,
                start.segment_index() as int,
                start.grapheme_index() as int,
                from as int,
                index as int,
            ),
            start.grapheme_index() > 0 && start.segment_index() < index && !hidden(
                kinds@[start.segment_index() as int],
            ) ==> splits_up(texts[start.segment_index() as int]),
        decreases boundary - index,
    {
        let kind = kinds[index];
        let ghost before = text@;
        proof {
            assert(texts[index as int] == segments@[index as int]@);
            assert(before + Seq::<char>::empty() =~= before);
        }
        if !matches!(kind, SegmentKind::SoftHyphen | SegmentKind::HardBreak) {
            if index == start.segment_index() && start.grapheme_index() > 0 {
                let clusters = graphemes(segments[index].as_str());
                proof {
                    assert(clusters.len() == grapheme_clusters(texts[index as int]).len());
                }
                push_clusters(&mut text, &clusters, start.grapheme_index(), usize::MAX);
            } else {
                text.append(segments[index].as_str());
            }
        }
        index += 1;
    }
    let ghost whole = text@;
    if end.grapheme_index() > 0 && end.segment_index() < count && !matches!(
        kinds[end.segment_index()],
        SegmentKind::SoftHyphen | SegmentKind::HardBreak
    ) {
        proof {
            assert(texts[end.segment_index() as int] == segments@[end.segment_index() as int]@);
        }
        let clusters = graphemes(segments[end.segment_index()].as_str());
        proof {
            assert(clusters.len() == grapheme_clusters(texts[end.segment_index() as int]).len());
        }
        let first: usize = if start.segment_index() == end.segment_index() {
            start.grapheme_index()
        } else {
            0
        };
        push_clusters(&mut text, &clusters, first, end.grapheme_index());
    } else {
        proof {
            assert(whole + Seq::<char>::empty() =~= whole);
        }
    }
    let ghost shown = text@;
    if ends_with_discretionary_hyphen {
        text.push('-');
        proof {
            assert(text@ =~= shown + seq!['-']);
        }
    } else {
        proof {
            assert(shown + Seq::<char>::empty() =~= shown);
        }
    }
    text
}

/// Whether a materialized line is a walked line with its text.
pub open spec fn materializes<W: Scalar>(
    rich: RichText<W>,
    walked: InternalLine<W>,
    line: LayoutLine<W>,
) -> bool {
    let range = as_range(walked);
    &&& line.width == range.width
    &&& line.start == range.start
    &&& line.end == range.end
    &&& line.ends_with_discretionary_hyphen == range.ends_with_discretionary_hyphen
    &&& line.text@ == line_text(
        rich.segments,
        rich.data.kinds@,
        range.start,
        range.end,
        range.ends_with_discretionary_hyphen,
    )
}

/// What laying rich text out with its lines gives.
pub open spec fn lines_outcome<W: Scalar>(
    rich: RichText<W>,
    max_width: W,
    outcome: Result<Vec<LayoutLine<W>>, Error>,
) -> bool {
    if !nonnegative(max_width) {
        outcome matches Err(error) && invalid_max_width(error)
    } else if !rich.data.profile.valid() {
        outcome matches Err(error) && invalid_profile(error)
    } else {
        let walked = walked_lines(&rich.data, fit_limit(max_width, rich.data.profile));
        outcome matches Ok(lines) && lines@.len() == walked.len() && forall|i: int|
            0 <= i < walked.len() ==> materializes(rich, #[trigger] walked[i], lines@[i])
    }
}

/// Layout with full line information -- returns each line's text and geometry.
///
/// Requires `PreparedTextWithSegments` (from `prepare_with_segments()`).
///
/// # Errors
///
/// Returns an error when `max_width` is negative or undefined.
pub fn layout_with_lines<W: Scalar>(prepared: &PreparedTextWithSegments<W>, max_width: W) -> (r:
    Result<Vec<LayoutLine<W>>, Error>)
    ensures
        lines_outcome(prepared@, max_width, r),
{
    let data = prepared.data();
    if let Err(error) = validate_max_width(max_width) {
        return Err(error);
    }
    if let Err(error) = data.profile.validate() {
        return Err(error);
    }
    let walked = walk_lines(data, max_width, &data.profile);
    let mut lines: Vec<LayoutLine<W>> = Vec::new();
    let mut index: usize = 0;
    while index < walked.len()
        invariant
            index <= walked@.len(),
            *data == prepared@.data,
            lines@.len() == index,
            forall|i: int|
                0 <= i < index ==> materializes(prepared@, #[trigger] walked@[i], lines@[i]),
        decreases walked@.len() - index,
    {
        let range = range_of(&walked[index]);
        let text = materialize_line_text(
            prepared.segments(),
            data.kinds.as_slice(),
            range.start,
            range.end,
            range.ends_with_discretionary_hyphen,
        );
        lines.push(
            LayoutLine {
                text,
                width: range.width,
                start: range.start,
                end: range.end,
                ends_with_discretionary_hyphen: range.ends_with_discretionary_hyphen,
            },
        );
        index += 1;
    }
    Ok(lines)
}

} // verus!
