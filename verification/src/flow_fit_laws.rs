//! What holds of the lines of an inline flow: they fit where they can, they
//! hold the items in order, each with its gap and its padding, and they end
//! where the next item has no room.
use crate::backend::MeasureBackend;
use crate::break_laws::{
    a_streamed_line_is_a_line, every_line_has_a_pen, first_grapheme, overruns_of_necessity,
    pen_positions, something_shows,
};
use crate::error::Error;
use crate::inline_flow::{
    empty_filling, fill_item, fill_line, filled_cursor, flow_advances, flow_cursors_are_valid,
    flow_lines, flow_prepared, item_end, item_step, items_outcome, largest_width, lemma_fill_bounds,
    lemma_flow_step, natural_width_of, next_flow_line, remaining_width_of, rest_behind, valid_place,
    widest_from, BreakMode, Filled, Filling, FlowItem, FlowLine, Fragment, InlineFlowCursor,
    InlineFlowItem, InlineFlowOptions, ItemStep,
};
use crate::layout::line_text;
use crate::line_break::{
    cursor_at, fit_limit, grapheme_count, next_line, normalized, walked_lines, InternalLine,
};
use crate::line_laws::{
    lemma_advance_nonnegative, lemma_next_cursor, lemma_sizes, lemma_stream_step,
    lemma_streamed_line, ordered_for, streamed_lines,
};
use crate::natural_laws::lemma_unlimited_is_nonnegative;
use crate::scalar::{
    exact_arithmetic, is_measure, is_width, larger_is_one_of_two, nonnegative, ordered_arithmetic,
    sum_of, sum_onto, sums_in_any_order, sums_undo_differences, Scalar,
};
use crate::types::{LayoutCursor, LayoutLineRange, PreparedData, SegmentKind};
use vstd::prelude::*;

verus! {

/// Whether every item of a flow is measured: its text was prepared, and its
/// width, its padding and the gap before it are not negative.
pub open spec fn flow_measured<W: Scalar>(flow: Seq<FlowItem<W>>) -> bool {
    forall|i: int|
        0 <= i < flow.len() ==> {
            &&& (#[trigger] flow[i]).rich.data.well_formed()
            &&& nonnegative(flow[i].natural_width)
            &&& nonnegative(flow[i].extra_width)
            &&& nonnegative(flow[i].gap_before)
        }
}

/// Whether something that wide fits on a line of its own, with the padding of
/// its item beside it. Where the padding alone is wider than the line no room
/// is left for text.
pub open spec fn fits_beside_padding<W: Scalar>(item: FlowItem<W>, width: W, max_width: W) -> bool {
    if item.extra_width.at_most(max_width) {
        width.plus(item.extra_width).at_most(fit_limit(max_width, item.rich.data.profile))
    } else {
        width.at_most(fit_limit(W::zero_value(), item.rich.data.profile))
    }
}

/// The room that is left for text beside the padding of an item.
pub open spec fn room_beside_padding<W: Scalar>(item: FlowItem<W>, max_width: W) -> W {
    fit_limit(
        if item.extra_width.at_most(max_width) {
            max_width.minus(item.extra_width)
        } else {
            W::zero_value()
        },
        item.rich.data.profile,
    )
}

/// Whether a part of an item that has a line to itself fits where it can: each
/// text that is whole on the line ends, with the padding, within the width, or
/// overruns of necessity; and so does the part of a text that is split, unless
/// it is a single grapheme that nothing shows before.
pub open spec fn part_fits<W: Scalar>(
    item: FlowItem<W>,
    fragment: Fragment<W>,
    pen: Seq<W>,
    max_width: W,
) -> bool {
    let data = &item.rich.data;
    let start = fragment.start.segment_index() as int;
    let end = fragment.end.segment_index() as int;
    let to = fragment.end.grapheme_index() as int;
    let from = first_grapheme(fragment.start, end);
    &&& forall|text: int|
        start <= text < end && #[trigger] data.kinds@[text] == SegmentKind::Text ==> {
            ||| fits_beside_padding(item, pen[text - start + 1], max_width)
            ||| overruns_of_necessity(
                data,
                fragment.start,
                pen,
                room_beside_padding(item, max_width),
                text,
            )
        }
    &&& to > 0 ==> {
        ||| fits_beside_padding(
            item,
            sum_onto(pen[end - start], data.breakable(end)->0.subrange(from, to)),
            max_width,
        )
        ||| to == from + 1 && !something_shows(data, start, end)
    }
}

/// The arithmetic that the laws on flows ask for.
#[verifier::opaque]
spec fn flow_arithmetic<W: Scalar>() -> bool {
    ordered_arithmetic::<W>() && exact_arithmetic::<W>()
}

// ---- Why lines fit ------------------------------------------------------------------------------

proof fn lemma_swap<W: Scalar>(a: W, b: W)
    requires
        flow_arithmetic::<W>(),
        nonnegative(a) && nonnegative(b),
    ensures
        a.plus(b) == b.plus(a),
{
    reveal(flow_arithmetic);
    reveal(sums_in_any_order);
}

proof fn lemma_undo<W: Scalar>(a: W, b: W, c: W)
    requires
        flow_arithmetic::<W>(),
        nonnegative(a) && nonnegative(c),
        a.at_most(b.minus(c)),
    ensures
        a.plus(c).at_most(b),
{
    reveal(flow_arithmetic);
    reveal(sums_undo_differences);
}

/// A sum of widths is one, and no smaller than its first part.
proof fn lemma_sum<W: Scalar>(a: W, b: W)
    requires
        flow_arithmetic::<W>(),
        nonnegative(a) && nonnegative(b),
    ensures
        nonnegative(a.plus(b)),
        a.at_most(a.plus(b)),
{
    reveal(flow_arithmetic);
}

proof fn lemma_sum_grows<W: Scalar>(a: W, b: W, c: W)
    requires
        flow_arithmetic::<W>(),
        nonnegative(a) && nonnegative(b) && nonnegative(c),
        a.at_most(b),
    ensures
        a.plus(c).at_most(b.plus(c)),
{
    reveal(flow_arithmetic);
}

proof fn lemma_through<W: Scalar>(a: W, b: W, c: W)
    requires
        flow_arithmetic::<W>(),
        nonnegative(a) && nonnegative(b) && nonnegative(c),
        a.at_most(b) && b.at_most(c),
    ensures
        a.at_most(c),
{
    reveal(flow_arithmetic);
}

proof fn lemma_not_below<W: Scalar>(a: W, b: W)
    requires
        flow_arithmetic::<W>(),
        nonnegative(a) && nonnegative(b),
    ensures
        a.below(b) == !b.at_most(a),
{
    reveal(flow_arithmetic);
}

proof fn lemma_zero<W: Scalar>()
    requires
        flow_arithmetic::<W>(),
    ensures
        nonnegative(W::zero_value()),
{
    reveal(flow_arithmetic);
}

/// What fits in the room that is left fits on the line.
proof fn lemma_fits_in_room<W: Scalar>(
    line_width: W,
    gap: W,
    extra: W,
    occupied: W,
    max_width: W,
)
    requires
        flow_arithmetic::<W>(),
        nonnegative(line_width) && nonnegative(gap) && nonnegative(extra) && nonnegative(occupied)
            && nonnegative(max_width),
        occupied.at_most(max_width.minus(line_width).minus(gap).minus(extra)),
    ensures
        line_width.plus(gap.plus(occupied)).at_most(max_width),
{
    let padded = occupied.plus(extra);
    lemma_sum(occupied, extra);
    lemma_undo(occupied, max_width.minus(line_width).minus(gap), extra);
    let spaced = padded.plus(gap);
    lemma_sum(padded, gap);
    lemma_undo(padded, max_width.minus(line_width), gap);
    lemma_sum(spaced, line_width);
    lemma_undo(spaced, max_width, line_width);
    let needed = occupied.plus(gap);
    lemma_sum(occupied, gap);
    lemma_sum_grows(occupied, padded, gap);
    lemma_sum_grows(needed, spaced, line_width);
    lemma_sum(needed, line_width);
    lemma_swap(gap, occupied);
    lemma_swap(line_width, needed);
    lemma_through(needed.plus(line_width), spaced.plus(line_width), max_width);
}

/// The gap before the item that a line has come to.
pub open spec fn gap_on<W: Scalar>(flow: Seq<FlowItem<W>>, line: Filling<W>) -> W {
    if line.fragments.len() == 0 {
        W::zero_value()
    } else {
        flow[line.item_index].gap_before
    }
}

/// An item that is placed behind others leaves the line within its width.
proof fn lemma_placed_fits<W: Scalar>(flow: Seq<FlowItem<W>>, line: Filling<W>, max_width: W)
    requires
        flow_arithmetic::<W>(),
        flow_measured(flow),
        nonnegative(max_width),
        0 <= line.item_index < flow.len(),
        nonnegative(line.width),
    ensures
        fill_item(flow, line, max_width) matches Filled::Placed(longer) ==> {
            &&& nonnegative(longer.width)
            &&& longer.width.at_most(max_width) || line.fragments.len() == 0
                && flow[line.item_index].break_mode == BreakMode::Never
        },
{
    let item = flow[line.item_index];
    let gap = gap_on(flow, line);
    lemma_zero::<W>();
    if let Filled::Placed(longer) = fill_item(flow, line, max_width) {
        assert(is_measure(longer.width));
        if item.break_mode == BreakMode::Never {
            lemma_not_below(max_width, longer.width);
        } else {
            let occupied = remaining_width_of(item, line.cursor).plus(item.extra_width);
            assert(is_measure(occupied));
            lemma_fits_in_room(line.width, gap, item.extra_width, occupied, max_width);
        }
    }
}

/// A line that holds something, and fits unless that is one atomic item, is
/// filled up to one of which the same holds.
proof fn lemma_filled_fits<W: Scalar>(
    flow: Seq<FlowItem<W>>,
    line: Filling<W>,
    max_width: W,
    first: int,
)
    requires
        flow_arithmetic::<W>(),
        flow_measured(flow),
        nonnegative(max_width),
        0 <= line.item_index <= flow.len(),
        nonnegative(line.width),
        line.fragments.len() > 0,
        line.width.at_most(max_width) || line.fragments.len() == 1 && flow[first].break_mode
            == BreakMode::Never,
    ensures
        fill_line(flow, line, max_width) matches Ok(filled) ==> filled.width.at_most(max_width)
            || filled.fragments.len() == 1 && flow[first].break_mode == BreakMode::Never,
    decreases flow.len() - line.item_index,
{
    if line.item_index < flow.len() {
        lemma_placed_fits(flow, line, max_width);
        if let Filled::Placed(longer) = fill_item(flow, line, max_width) {
            lemma_filled_fits(flow, longer, max_width, first);
        }
    }
}

proof fn lemma_sum_onto_nonnegative<W: Scalar>(start: W, values: Seq<W>)
    requires
        flow_arithmetic::<W>(),
        nonnegative(start),
        forall|k: int| 0 <= k < values.len() ==> nonnegative(#[trigger] values[k]),
    ensures
        nonnegative(sum_onto(start, values)),
    decreases values.len(),
{
    if values.len() > 0 {
        let shorter = values.drop_last();
        assert forall|k: int| 0 <= k < shorter.len() implies nonnegative(#[trigger] shorter[k]) by {
            assert(shorter[k] == values[k]);
        }
        lemma_sum_onto_nonnegative(start, shorter);
        assert(nonnegative(values[values.len() - 1]));
        lemma_sum(sum_onto(start, shorter), values.last());
    }
}

proof fn lemma_undo_with<W: Scalar>(a: W, b: W, c: W, d: W)
    requires
        flow_arithmetic::<W>(),
        nonnegative(a) && nonnegative(c) && nonnegative(d),
        nonnegative(b.minus(c)),
        a.at_most(b.minus(c).plus(d)),
    ensures
        a.plus(c).at_most(b.plus(d)),
{
    reveal(flow_arithmetic);
    reveal(sums_undo_differences);
}

proof fn lemma_difference<W: Scalar>(a: W, b: W)
    requires
        flow_arithmetic::<W>(),
        nonnegative(a) && nonnegative(b),
    ensures
        nonnegative(a.minus(b)) == b.at_most(a),
        a.minus(W::zero_value()) == a,
{
    reveal(flow_arithmetic);
    reveal(sums_undo_differences);
}

/// What is within the room beside the padding fits with the padding.
proof fn lemma_room<W: Scalar>(item: FlowItem<W>, width: W, max_width: W)
    requires
        flow_arithmetic::<W>(),
        item.rich.data.well_formed(),
        nonnegative(item.extra_width),
        nonnegative(max_width),
        nonnegative(width),
        !room_beside_padding(item, max_width).below(width),
    ensures
        fits_beside_padding(item, width, max_width),
{
    let epsilon = item.rich.data.profile.line_fit_epsilon;
    let extra = item.extra_width;
    assert(is_measure(epsilon));
    lemma_zero::<W>();
    let room = room_beside_padding(item, max_width);
    lemma_difference(max_width, extra);
    if extra.at_most(max_width) {
        lemma_sum(max_width.minus(extra), epsilon);
        lemma_not_below(room, width);
        lemma_undo_with(width, max_width, extra, epsilon);
    } else {
        lemma_sum(W::zero_value(), epsilon);
        lemma_not_below(room, width);
    }
}

proof fn lemma_pen_is_nonnegative<W: Scalar>(
    data: &PreparedData<W>,
    start: LayoutCursor,
    pen: Seq<W>,
    step: int,
)
    requires
        flow_arithmetic::<W>(),
        data.well_formed(),
        start.segment_index() < data.count(),
        normalized(data, start) == start,
        pen_positions(data, start, pen),
        0 <= step < pen.len(),
    ensures
        nonnegative(pen[step]),
{
    assert(ordered_for(data)) by {
        reveal(flow_arithmetic);
        reveal(ordered_for);
    }
    crate::break_laws::lemma_pen(data, start, pen, step);
    lemma_advance_nonnegative(
        data,
        start.segment_index() as int,
        start.grapheme_index() as int,
        start.segment_index() + step,
    );
}

/// The part of an item that fills a line fits where it can.
#[verifier::rlimit(40)]
proof fn lemma_part_fits<W: Scalar>(
    flow: Seq<FlowItem<W>>,
    start: InlineFlowCursor,
    max_width: W,
    pen: Seq<W>,
)
    requires
        flow_arithmetic::<W>(),
        flow_measured(flow),
        nonnegative(max_width),
        start.item_index() < flow.len(),
        valid_place(flow, start.item_index() as int, start.layout_cursor()),
        fill_item(flow, empty_filling(start), max_width) is Full,
        (fill_item(flow, empty_filling(start), max_width)->Full_0).fragments.len() > 0,
        start.layout_cursor().segment_index()
            < flow[start.item_index() as int].rich.data.count() ==> pen_positions(
            &flow[start.item_index() as int].rich.data,
            normalized(&flow[start.item_index() as int].rich.data, start.layout_cursor()),
            pen,
        ),
    ensures
        ({
            let full = fill_item(flow, empty_filling(start), max_width)->Full_0;
            let item = flow[start.item_index() as int];
            &&& full.fragments.len() == 1
            &&& part_fits(item, full.fragments[0], pen, max_width)
        }),
{
    let item = flow[start.item_index() as int];
    let data = &item.rich.data;
    let cursor = start.layout_cursor();
    let full = fill_item(flow, empty_filling(start), max_width)->Full_0;
    let fragment = full.fragments[0];
    lemma_zero::<W>();
    assert(nonnegative(item.extra_width));
    lemma_sizes(data);
    let zero = W::zero_value();
    lemma_difference(max_width, zero);
    let available = max_width.minus(zero).minus(zero).minus(item.extra_width);
    assert(available == max_width.minus(item.extra_width));
    let limit = fit_limit(available.larger(zero), data.profile);
    lemma_larger_is_room(item, max_width);
    assert(limit == room_beside_padding(item, max_width));
    assert(full.fragments =~= seq![fragment]);
    let (range, next) = next_line(data, cursor, limit)->0;
    assert(fragment.start == range.start && fragment.end == range.end);
    if cursor.segment_index() < data.count() {
        a_streamed_line_is_a_line(data, cursor, pen, limit);
        let from = range.start;
        let first = from.segment_index() as int;
        let end = range.end.segment_index() as int;
        let to = range.end.grapheme_index() as int;
        assert(grapheme_count(data, cursor.segment_index() as int) <= usize::MAX);
        assert(normalized(data, from) == from);
        lemma_streamed_line(data, from, limit);
        assert(end <= data.count());
        assert forall|text: int|
            first <= text < end && #[trigger] data.kinds@[text] == SegmentKind::Text implies {
            ||| fits_beside_padding(item, pen[text - first + 1], max_width)
            ||| overruns_of_necessity(
                data,
                from,
                pen,
                room_beside_padding(item, max_width),
                text,
            )
        } by {
            if !limit.below(pen[text - first + 1]) {
                lemma_pen_is_nonnegative(data, from, pen, text - first + 1);
                lemma_room(item, pen[text - first + 1], max_width);
            }
        }
        if to > 0 {
            let widths = data.breakable(end)->0;
            let part = widths.subrange(first_grapheme(from, end), to);
            let sum = sum_onto(pen[end - first], part);
            if !limit.below(sum) {
                lemma_pen_is_nonnegative(data, from, pen, end - first);
                assert forall|k: int| 0 <= k < part.len() implies nonnegative(
                    #[trigger] part[k],
                ) by {
                    assert(part[k] == data.breakable(end)->0[k + first_grapheme(from, end)]);
                    assert(is_width(part[k]));
                }
                lemma_sum_onto_nonnegative(pen[end - first], part);
                lemma_room(item, sum, max_width);
            }
        }
    } else {
        assert(data.count() == 0);
    }
}

proof fn lemma_larger_is_room<W: Scalar>(item: FlowItem<W>, max_width: W)
    requires
        flow_arithmetic::<W>(),
        nonnegative(item.extra_width),
        nonnegative(max_width),
    ensures
        fit_limit(
            max_width.minus(item.extra_width).larger(W::zero_value()),
            item.rich.data.profile,
        ) == room_beside_padding(item, max_width),
{
    reveal(flow_arithmetic);
    lemma_difference(max_width, item.extra_width);
    reveal(larger_is_one_of_two);
}

// ---- What a line holds --------------------------------------------------------------------------

/// The gaps and the widths of fragments added up, in order.
pub open spec fn added_up<W: Scalar>(fragments: Seq<Fragment<W>>) -> W
    decreases fragments.len(),
{
    if fragments.len() == 0 {
        W::zero_value()
    } else {
        added_up(fragments.drop_last()).plus(
            fragments.last().gap_before.plus(fragments.last().occupied_width),
        )
    }
}

/// Whether a fragment shows what is left of an item from a place on: all of its
/// text from there to its end, as wide as that is and its padding beside it.
pub open spec fn shows_the_rest<W: Scalar>(
    item: FlowItem<W>,
    fragment: Fragment<W>,
    from: LayoutCursor,
) -> bool {
    &&& fragment.start == from
    &&& fragment.end == item_end(item)
    &&& !fragment.ends_with_discretionary_hyphen
    &&& fragment.occupied_width == remaining_width_of(item, from).plus(item.extra_width)
}

/// Whether a fragment shows the line of an item's text that is asked for at a
/// place in the room beside its padding, and its padding beside that.
pub open spec fn shows_a_part<W: Scalar>(
    item: FlowItem<W>,
    fragment: Fragment<W>,
    from: LayoutCursor,
    max_width: W,
) -> bool {
    next_line(&item.rich.data, from, room_beside_padding(item, max_width)) matches Some(
        (range, next),
    ) && {
        &&& fragment.start == range.start
        &&& fragment.end == range.end
        &&& fragment.ends_with_discretionary_hyphen == range.ends_with_discretionary_hyphen
        &&& fragment.occupied_width == range.width.plus(item.extra_width)
    }
}

/// Whether fragment `index` of a line that starts at a place of a flow is the
/// one that should stand there: of the item that many behind the first one, its
/// gap before it unless it is first, all that is left of the item, or on a line
/// of its own a part of it, where the item is not atomic.
pub open spec fn is_of_its_item<W: Scalar>(
    flow: Seq<FlowItem<W>>,
    max_width: W,
    start: InlineFlowCursor,
    fragments: Seq<Fragment<W>>,
    index: int,
) -> bool {
    let item = flow[start.item_index() + index];
    let fragment = fragments[index];
    let from = if index == 0 {
        start.layout_cursor()
    } else {
        cursor_at(0, 0)
    };
    &&& start.item_index() + index < flow.len()
    &&& fragment.item_index == item.source_item_index
    &&& fragment.text == line_text(
        item.rich.segments,
        item.rich.data.kinds@,
        fragment.start,
        fragment.end,
        fragment.ends_with_discretionary_hyphen,
    )
    &&& fragment.gap_before == if index == 0 {
        W::zero_value()
    } else {
        item.gap_before
    }
    &&& {
        ||| shows_the_rest(item, fragment, from)
        ||| fragments.len() == 1 && item.break_mode != BreakMode::Never && shows_a_part(
            item,
            fragment,
            from,
            max_width,
        )
    }
}

/// Whether an item has room on a line that is that wide and holds something.
pub open spec fn has_room<W: Scalar>(item: FlowItem<W>, line_width: W, max_width: W) -> bool {
    if item.break_mode == BreakMode::Never {
        !max_width.below(
            line_width.plus(item.gap_before.plus(item.natural_width).plus(item.extra_width)),
        )
    } else {
        let left = max_width.minus(line_width).minus(item.gap_before).minus(item.extra_width);
        !left.at_most(W::zero_value()) && item.natural_width.plus(item.extra_width).at_most(left)
    }
}

/// Whether the first `count` fragments of a line are all of their items that is
/// left.
pub open spec fn all_whole<W: Scalar>(
    flow: Seq<FlowItem<W>>,
    start: InlineFlowCursor,
    fragments: Seq<Fragment<W>>,
) -> bool {
    forall|i: int|
        0 <= i < fragments.len() ==> shows_the_rest(
            flow[start.item_index() + i],
            #[trigger] fragments[i],
            if i == 0 {
                start.layout_cursor()
            } else {
                cursor_at(0, 0)
            },
        )
}

/// What is known of a line while whole items are put on it.
spec fn filled_with_wholes<W: Scalar>(
    flow: Seq<FlowItem<W>>,
    max_width: W,
    start: InlineFlowCursor,
    line: Filling<W>,
) -> bool {
    &&& line.item_index == start.item_index() + line.fragments.len()
    &&& line.item_index <= flow.len()
    &&& line.cursor == if line.fragments.len() == 0 {
        start.layout_cursor()
    } else {
        cursor_at(0, 0)
    }
    &&& nonnegative(line.width)
    &&& line.width == added_up(line.fragments)
    &&& all_whole(flow, start, line.fragments)
    &&& forall|i: int|
        0 <= i < line.fragments.len() ==> #[trigger] is_of_its_item(
            flow,
            max_width,
            start,
            line.fragments,
            i,
        )
}

proof fn lemma_regroup<W: Scalar>(a: W, b: W, c: W)
    requires
        flow_arithmetic::<W>(),
        nonnegative(a) && nonnegative(b) && nonnegative(c),
    ensures
        a.plus(b).plus(c) == a.plus(b.plus(c)),
{
    reveal(flow_arithmetic);
    reveal(sums_in_any_order);
}

#[verifier::rlimit(40)]
proof fn lemma_whole_is_placed<W: Scalar>(
    flow: Seq<FlowItem<W>>,
    max_width: W,
    start: InlineFlowCursor,
    line: Filling<W>,
)
    requires
        flow_arithmetic::<W>(),
        flow_measured(flow),
        valid_place(flow, start.item_index() as int, start.layout_cursor()),
        filled_with_wholes(flow, max_width, start, line),
        line.item_index < flow.len(),
    ensures
        fill_item(flow, line, max_width) matches Filled::Placed(longer) ==> filled_with_wholes(
            flow,
            max_width,
            start,
            longer,
        ) && longer.fragments.len() == line.fragments.len() + 1,
{
    let item = flow[line.item_index];
    let gap = gap_on(flow, line);
    lemma_zero::<W>();
    if let Filled::Placed(longer) = fill_item(flow, line, max_width) {
        let fragment = longer.fragments.last();
        assert(longer.fragments =~= line.fragments.push(fragment));
        assert(longer.fragments.drop_last() =~= line.fragments);
        assert(is_measure(longer.width));
        if item.break_mode == BreakMode::Never {
            lemma_regroup(gap, item.natural_width, item.extra_width);
            assert(line.cursor == cursor_at(0, 0));
        }
        assert(longer.width == line.width.plus(gap.plus(fragment.occupied_width)));
        assert forall|i: int| 0 <= i < longer.fragments.len() implies shows_the_rest(
            flow[start.item_index() + i],
            #[trigger] longer.fragments[i],
            if i == 0 {
                start.layout_cursor()
            } else {
                cursor_at(0, 0)
            },
        ) by {
            if i < line.fragments.len() {
                assert(longer.fragments[i] == line.fragments[i]);
            }
        }
        assert forall|i: int| 0 <= i < longer.fragments.len() implies #[trigger] is_of_its_item(
            flow,
            max_width,
            start,
            longer.fragments,
            i,
        ) by {
            if i < line.fragments.len() {
                assert(longer.fragments[i] == line.fragments[i]);
                assert(is_of_its_item(flow, max_width, start, line.fragments, i));
            }
        }
    }
}

/// What a filled line holds.
spec fn filled_well<W: Scalar>(
    flow: Seq<FlowItem<W>>,
    max_width: W,
    start: InlineFlowCursor,
    filled: Filling<W>,
) -> bool {
    &&& filled.width == added_up(filled.fragments)
    &&& forall|i: int|
        0 <= i < filled.fragments.len() ==> #[trigger] is_of_its_item(
            flow,
            max_width,
            start,
            filled.fragments,
            i,
        )
    &&& filled.fragments.len() > 1 || filled.fragments.len() == 1 && (
    flow[start.item_index() as int].break_mode == BreakMode::Never || fits_whole(
        flow,
        max_width,
        start,
    )) ==> {
        &&& all_whole(flow, start, filled.fragments)
        &&& filled.item_index == start.item_index() + filled.fragments.len()
        &&& filled.cursor == cursor_at(0, 0)
        &&& filled.item_index < flow.len() ==> !has_room(
            flow[filled.item_index],
            filled.width,
            max_width,
        )
    }
}

/// Whether what is left of the item that a line starts in fits on it whole.
pub open spec fn fits_whole<W: Scalar>(
    flow: Seq<FlowItem<W>>,
    max_width: W,
    start: InlineFlowCursor,
) -> bool {
    let item = flow[start.item_index() as int];
    remaining_width_of(item, start.layout_cursor()).plus(item.extra_width).at_most(
        max_width.minus(item.extra_width),
    )
}

proof fn lemma_filled_well<W: Scalar>(
    flow: Seq<FlowItem<W>>,
    max_width: W,
    start: InlineFlowCursor,
    line: Filling<W>,
)
    requires
        flow_arithmetic::<W>(),
        flow_measured(flow),
        nonnegative(max_width),
        valid_place(flow, start.item_index() as int, start.layout_cursor()),
        filled_with_wholes(flow, max_width, start, line),
        line.fragments.len() > 0,
    ensures
        fill_line(flow, line, max_width) matches Ok(filled) ==> filled_well(
            flow,
            max_width,
            start,
            filled,
        ),
    decreases flow.len() - line.item_index,
{
    if line.item_index < flow.len() {
        lemma_whole_is_placed(flow, max_width, start, line);
        if let Filled::Placed(longer) = fill_item(flow, line, max_width) {
            lemma_filled_well(flow, max_width, start, longer);
        }
    }
}

#[verifier::rlimit(40)]
proof fn lemma_first_item<W: Scalar>(
    flow: Seq<FlowItem<W>>,
    max_width: W,
    start: InlineFlowCursor,
)
    requires
        flow_arithmetic::<W>(),
        flow_measured(flow),
        nonnegative(max_width),
        start.item_index() < flow.len(),
        valid_place(flow, start.item_index() as int, start.layout_cursor()),
    ensures
        fill_line(flow, empty_filling(start), max_width) matches Ok(filled) ==> (
        filled.fragments.len() > 0 ==> filled_well(flow, max_width, start, filled)),
{
    let first = empty_filling::<W>(start);
    let item = flow[first.item_index];
    lemma_zero::<W>();
    assert(filled_with_wholes(flow, max_width, start, first));
    lemma_whole_is_placed(flow, max_width, start, first);
    match fill_item(flow, first, max_width) {
        Filled::Placed(longer) => {
            lemma_filled_well(flow, max_width, start, longer);
        },
        Filled::Full(full) => {
            if full.fragments.len() > 0 {
                let zero = W::zero_value();
                lemma_difference(max_width, zero);
                assert(nonnegative(item.extra_width));
                lemma_larger_is_room(item, max_width);
                assert(max_width.minus(zero).minus(zero).minus(item.extra_width)
                    == max_width.minus(item.extra_width));
                let fragment = full.fragments[0];
                assert(full.fragments =~= seq![fragment]);
                assert(full.fragments.drop_last() =~= Seq::empty());
                assert(added_up(full.fragments.drop_last()) == zero);
                assert(shows_a_part(item, fragment, start.layout_cursor(), max_width));
                assert(is_of_its_item(flow, max_width, start, full.fragments, 0));
            }
        },
        Filled::Fault(fault) => {},
    }
}

// ---- The laws -----------------------------------------------------------------------------------

/// Lines of an inline flow fit: a line, gaps and padding included, is no wider
/// than the width; or it holds one fragment only, and that one is an atomic
/// item, or a part of an item of which every word ends within the width, with
/// the padding beside it, unless that word cannot be put or split otherwise.
pub proof fn flow_lines_fit<W: Scalar>(
    flow: Seq<FlowItem<W>>,
    max_width: W,
    start: InlineFlowCursor,
    line: FlowLine<W>,
    next: InlineFlowCursor,
    pen: Seq<W>,
)
    requires
        ordered_arithmetic::<W>(),
        exact_arithmetic::<W>(),
        flow_measured(flow),
        next_flow_line(flow, max_width, start, Ok(Some((line, next)))),
        start.item_index() < flow.len() && start.layout_cursor().segment_index()
            < flow[start.item_index() as int].rich.data.count() ==> pen_positions(
            &flow[start.item_index() as int].rich.data,
            normalized(&flow[start.item_index() as int].rich.data, start.layout_cursor()),
            pen,
        ),
    ensures
        line.width.at_most(max_width) || line.fragments.len() == 1 && ({
            let item = flow[start.item_index() as int];
            ||| item.break_mode == BreakMode::Never
            ||| part_fits(item, line.fragments[0], pen, max_width)
        }),
{
    assert(flow_arithmetic::<W>()) by {
        reveal(flow_arithmetic);
    }
    let first = empty_filling::<W>(start);
    lemma_zero::<W>();
    lemma_placed_fits(flow, first, max_width);
    match fill_item(flow, first, max_width) {
        Filled::Placed(longer) => {
            lemma_filled_fits(flow, longer, max_width, start.item_index() as int);
        },
        Filled::Full(full) => {
            lemma_part_fits(flow, start, max_width, pen);
        },
        Filled::Fault(fault) => {},
    }
}

/// A line of an inline flow holds the items one after the other: each fragment
/// is of the item behind the one before, has that item's gap before it unless
/// it is the first, and shows all that is left of the item, padding beside it;
/// only a fragment on a line of its own shows a part, never of an atomic item,
/// and then the line of its text that is asked for in the room beside its
/// padding. The width of the line is its gaps and its fragments added up.
pub proof fn flow_lines_hold_the_items_in_order<W: Scalar>(
    flow: Seq<FlowItem<W>>,
    max_width: W,
    start: InlineFlowCursor,
    line: FlowLine<W>,
    next: InlineFlowCursor,
)
    requires
        ordered_arithmetic::<W>(),
        exact_arithmetic::<W>(),
        flow_measured(flow),
        next_flow_line(flow, max_width, start, Ok(Some((line, next)))),
    ensures
        line.width == added_up(line.fragments),
        forall|i: int|
            0 <= i < line.fragments.len() ==> #[trigger] is_of_its_item(
                flow,
                max_width,
                start,
                line.fragments,
                i,
            ),
{
    assert(flow_arithmetic::<W>()) by {
        reveal(flow_arithmetic);
    }
    lemma_first_item(flow, max_width, start);
}

/// A line of an inline flow takes items as long as there is room: where it
/// holds several items, an atomic one, or one that fits whole, it shows each of
/// them to its end, and the item behind the last one has no room.
pub proof fn flow_lines_take_what_has_room<W: Scalar>(
    flow: Seq<FlowItem<W>>,
    max_width: W,
    start: InlineFlowCursor,
    line: FlowLine<W>,
    next: InlineFlowCursor,
)
    requires
        ordered_arithmetic::<W>(),
        exact_arithmetic::<W>(),
        flow_measured(flow),
        flow.len() <= usize::MAX,
        next_flow_line(flow, max_width, start, Ok(Some((line, next)))),
        line.fragments.len() > 1 || flow[start.item_index() as int].break_mode == BreakMode::Never
            || fits_whole(flow, max_width, start),
    ensures
        all_whole(flow, start, line.fragments),
        next.item_index() == start.item_index() + line.fragments.len(),
        next.layout_cursor() == cursor_at(0, 0),
        next.item_index() < flow.len() ==> !has_room(
            flow[next.item_index() as int],
            line.width,
            max_width,
        ),
{
    assert(flow_arithmetic::<W>()) by {
        reveal(flow_arithmetic);
    }
    lemma_first_item(flow, max_width, start);
    lemma_fill_bounds(flow, empty_filling(start), max_width);
}

/// Every line of a flow that is laid out as a whole is one that is asked for at
/// some place of the flow, and the next one is asked for where it ends.
pub proof fn flow_lines_are_asked_for_in_turn<W: Scalar>(
    flow: Seq<FlowItem<W>>,
    max_width: W,
    cursor: InlineFlowCursor,
    lines: Seq<FlowLine<W>>,
    index: int,
) -> (places: (InlineFlowCursor, InlineFlowCursor))
    requires
        flow.len() <= usize::MAX,
        nonnegative(max_width),
        valid_place(flow, cursor.item_index() as int, cursor.layout_cursor()),
        flow_lines(flow, max_width, cursor) == Ok::<
            Seq<FlowLine<W>>,
            Option<crate::inline_flow::WidthFault<W>>,
        >(lines),
        0 <= index < lines.len(),
    ensures
        next_flow_line(flow, max_width, places.0, Ok(Some((lines[index], places.1)))),
        index == 0 ==> places.0 == cursor,
        index == lines.len() - 1 ==> places.1.item_index() == flow.len(),
        flow_lines(flow, max_width, places.1) == Ok::<
            Seq<FlowLine<W>>,
            Option<crate::inline_flow::WidthFault<W>>,
        >(lines.skip(index + 1)),
    decreases index,
{
    let filled = fill_line(flow, empty_filling(cursor), max_width)->Ok_0;
    let line = FlowLine { fragments: filled.fragments, width: filled.width };
    let next = filled_cursor(filled);
    let outcome: Result<Option<(FlowLine<W>, InlineFlowCursor)>, Error> = Ok(Some((line, next)));
    assert(next_flow_line(flow, max_width, cursor, outcome));
    flow_cursors_are_valid(flow, max_width, cursor, line, next);
    flow_advances(flow, max_width, cursor);
    lemma_flow_step(flow, max_width, cursor);
    let rest = flow_lines(flow, max_width, next)->Ok_0;
    assert(lines =~= seq![line] + rest);
    assert(lines.skip(1) =~= rest);
    if index == 0 {
        (cursor, next)
    } else {
        assert(lines[index] == rest[index - 1]);
        assert(lines.skip(index + 1) =~= rest.skip(index));
        flow_lines_are_asked_for_in_turn(flow, max_width, next, rest, index - 1)
    }
}

// ---- Prepared flows -----------------------------------------------------------------------------

proof fn lemma_largest<W: Scalar>(lines: Seq<InternalLine<W>>, index: int)
    requires
        ordered_arithmetic::<W>(),
        forall|i: int| 0 <= i < lines.len() ==> nonnegative((#[trigger] lines[i]).width),
    ensures
        nonnegative(largest_width(lines)),
        0 <= index < lines.len() ==> lines[index].width.at_most(largest_width(lines)),
    decreases lines.len(),
{
    assert(nonnegative(W::zero_value()));
    if lines.len() > 0 {
        let shorter = lines.drop_last();
        assert forall|i: int| 0 <= i < shorter.len() implies nonnegative(
            (#[trigger] shorter[i]).width,
        ) by {
            assert(shorter[i] == lines[i]);
        }
        lemma_largest(shorter, index);
        let before = largest_width(shorter);
        let last = lines[lines.len() - 1].width;
        assert(nonnegative(last));
        assert(before.at_most(before.larger(last)) && last.at_most(before.larger(last)));
        if 0 <= index < shorter.len() {
            assert(shorter[index] == lines[index]);
        }
    }
}

proof fn lemma_largest_is_a_line<W: Scalar>(lines: Seq<InternalLine<W>>) -> (index: Option<int>)
    requires
        larger_is_one_of_two::<W>(),
    ensures
        match index {
            Some(i) => 0 <= i < lines.len() && largest_width(lines) == lines[i].width,
            None => largest_width(lines) == W::zero_value(),
        },
    decreases lines.len(),
{
    reveal(larger_is_one_of_two);
    if lines.len() == 0 {
        None
    } else if lines.last().width.at_most(largest_width(lines.drop_last())) {
        lemma_largest_is_a_line(lines.drop_last())
    } else {
        Some(lines.len() - 1)
    }
}

/// The natural width of an item is attained: it is that of one of the lines that
/// its text has without any limit, or zero, and none of them is wider.
pub proof fn natural_width_of_an_item_is_that_of_a_line<W: Scalar>(data: &PreparedData<W>)
    requires
        ordered_arithmetic::<W>(),
        exact_arithmetic::<W>(),
        data.well_formed(),
    ensures
        ({
            let unlimited = walked_lines(data, fit_limit(W::infinite_value(), data.profile));
            let natural = natural_width_of(data);
            &&& natural == W::zero_value() || exists|i: int|
                0 <= i < unlimited.len() && (#[trigger] unlimited[i]).width == natural
            &&& forall|i: int|
                0 <= i < unlimited.len() ==> (#[trigger] unlimited[i]).width.at_most(natural)
        }),
{
    let unlimited = walked_lines(data, fit_limit(W::infinite_value(), data.profile));
    assert forall|i: int| 0 <= i < unlimited.len() implies nonnegative(
        (#[trigger] unlimited[i]).width,
    ) by {
        lemma_unlimited_is_nonnegative(data, i);
    }
    assert forall|i: int| 0 <= i < unlimited.len() implies (#[trigger] unlimited[i]).width.at_most(
        natural_width_of(data),
    ) by {
        lemma_largest(unlimited, i);
    }
    let attained = lemma_largest_is_a_line(unlimited);
    if let Some(i) = attained {
        assert(unlimited[i].width == natural_width_of(data));
    }
}

#[verifier::rlimit(40)]
proof fn lemma_items_are_measured<W: Scalar, B: MeasureBackend<W>>(
    backend: &B,
    items: Seq<InlineFlowItem<W>>,
    index: int,
    options: InlineFlowOptions,
    pending: W,
    used: nat,
    flow: Seq<FlowItem<W>>,
)
    requires
        ordered_arithmetic::<W>(),
        0 <= index <= items.len(),
        nonnegative(pending),
        items_outcome(backend, items, index, options, pending, used, Ok(flow)),
    ensures
        flow_measured(flow),
    decreases items.len() - index,
{
    assert(nonnegative(W::zero_value()));
    if index < items.len() {
        let outcome = Ok::<Seq<FlowItem<W>>, Error>(flow);
        let step = choose|step: Result<ItemStep<W>, Error>|
            {
                &&& #[trigger] item_step(
                    backend,
                    items[index],
                    index,
                    options,
                    pending,
                    used,
                    step,
                )
                &&& match step {
                    Err(error) => outcome == Err::<Seq<FlowItem<W>>, Error>(error),
                    Ok(next) => rest_behind(next.item, outcome) matches Some(rest) && items_outcome(
                        backend,
                        items,
                        index + 1,
                        options,
                        next.pending,
                        next.used,
                        rest,
                    ),
                }
            };
        if let Ok(next) = step {
            assert(nonnegative(next.pending));
            match next.item {
                None => {
                    lemma_items_are_measured(
                        backend,
                        items,
                        index + 1,
                        options,
                        next.pending,
                        next.used,
                        flow,
                    );
                },
                Some(first) => {
                    let rest = flow.drop_first();
                    lemma_items_are_measured(
                        backend,
                        items,
                        index + 1,
                        options,
                        next.pending,
                        next.used,
                        rest,
                    );
                    let data = &first.rich.data;
                    let lines = walked_lines(data, fit_limit(W::infinite_value(), data.profile));
                    assert forall|i: int| 0 <= i < lines.len() implies nonnegative(
                        (#[trigger] lines[i]).width,
                    ) by {
                        lemma_unlimited_is_nonnegative(data, i);
                    }
                    lemma_largest(lines, 0);
                    assert forall|i: int| 0 <= i < flow.len() implies {
                        &&& (#[trigger] flow[i]).rich.data.well_formed()
                        &&& nonnegative(flow[i].natural_width)
                        &&& nonnegative(flow[i].extra_width)
                        &&& nonnegative(flow[i].gap_before)
                    } by {
                        if i > 0 {
                            assert(flow[i] == rest[i - 1]);
                        } else {
                            assert(flow[0] == first);
                        }
                    }
                },
            }
        }
    }
}

/// A flow that was prepared is measured, so that the laws on its lines hold of
/// it.
pub proof fn prepared_flows_are_measured<W: Scalar, B: MeasureBackend<W>>(
    backend: &B,
    items: Seq<InlineFlowItem<W>>,
    options: InlineFlowOptions,
    flow: Seq<FlowItem<W>>,
)
    requires
        ordered_arithmetic::<W>(),
        flow_prepared(backend, items, options, Ok(flow)),
    ensures
        flow_measured(flow),
{
    assert(nonnegative(W::zero_value()));
    lemma_items_are_measured(backend, items, 0, options, W::zero_value(), 0, flow);
}

// ---- What is left of an item --------------------------------------------------------------------

#[verifier::rlimit(40)]
proof fn lemma_line_is_nonnegative<W: Scalar>(
    data: &PreparedData<W>,
    cursor: LayoutCursor,
    limit: W,
)
    requires
        flow_arithmetic::<W>(),
        data.well_formed(),
        cursor.segment_index() < data.count(),
        normalized(data, cursor) == cursor,
    ensures
        next_line(data, cursor, limit) matches Some((line, next)) && nonnegative(line.width),
{
    lemma_zero::<W>();
    let pen = every_line_has_a_pen(data, cursor);
    a_streamed_line_is_a_line(data, cursor, pen, limit);
    lemma_streamed_line(data, cursor, limit);
    let (line, next) = next_line(data, cursor, limit)->0;
    let first = line.start.segment_index() as int;
    let end = line.end.segment_index() as int;
    let to = line.end.grapheme_index() as int;
    if to > 0 {
        let part = data.breakable(end)->0.subrange(first_grapheme(line.start, end), to);
        assert forall|k: int| 0 <= k < part.len() implies nonnegative(#[trigger] part[k]) by {
            assert(part[k] == data.breakable(end)->0[k + first_grapheme(line.start, end)]);
            assert(is_width(part[k]));
        }
        lemma_sum_onto_nonnegative(W::zero_value(), part);
        lemma_pen_is_nonnegative(data, cursor, pen, end - first);
        lemma_sum(pen[end - first], sum_of(part));
    } else {
        let closes = crate::break_laws::ends_paragraph(data, line);
        let last = if closes && data.kinds@[end - 1] == SegmentKind::HardBreak {
            end - 2
        } else {
            end - 1
        };
        if last >= first {
            lemma_pen_is_nonnegative(data, cursor, pen, last - first);
            assert(is_width(data.widths@[last]));
            if last == first && cursor.grapheme_index() > 0 {
                lemma_sizes(data);
                assert(grapheme_count(data, first) <= usize::MAX);
                let widths = data.breakable(first)->0;
                let rest = widths.skip(cursor.grapheme_index() as int);
                assert forall|k: int| 0 <= k < rest.len() implies nonnegative(
                    #[trigger] rest[k],
                ) by {
                    assert(rest[k] == data.breakable(first)->0[k + cursor.grapheme_index()]);
                    assert(is_width(rest[k]));
                }
                lemma_sum_onto_nonnegative(W::zero_value(), rest);
                lemma_sum(pen[last - first], sum_of(rest));
            } else {
                lemma_sum(pen[last - first], W::zero_value());
                lemma_sum(pen[last - first], data.line_end_paint_advances@[last]);
            }
        }
    }
}

proof fn lemma_larger<W: Scalar>(a: W, b: W)
    requires
        flow_arithmetic::<W>(),
        nonnegative(a) && nonnegative(b),
    ensures
        nonnegative(a.larger(b)),
        a.at_most(a.larger(b)),
        b.at_most(a.larger(b)),
        a.larger(b) == a || a.larger(b) == b,
        a.at_most(a),
{
    reveal(flow_arithmetic);
    reveal(larger_is_one_of_two);
}

/// The lines that are left, from some place on and without any limit.
pub open spec fn lines_left<W: Scalar>(data: &PreparedData<W>, cursor: LayoutCursor) -> Seq<
    LayoutLineRange<W>,
> {
    streamed_lines(data, cursor, fit_limit(W::infinite_value(), data.profile))
}

#[verifier::rlimit(40)]
proof fn lemma_widest_left<W: Scalar>(data: &PreparedData<W>, cursor: LayoutCursor, known: W)
    requires
        flow_arithmetic::<W>(),
        data.well_formed(),
        data.count() < usize::MAX,
        cursor.segment_index() < data.count(),
        normalized(data, cursor) == cursor,
        nonnegative(known),
    ensures
        ({
            let lines = lines_left(data, cursor);
            let widest = widest_from(data, cursor, known);
            &&& nonnegative(widest)
            &&& known.at_most(widest)
            &&& forall|i: int| 0 <= i < lines.len() ==> (#[trigger] lines[i]).width.at_most(widest)
            &&& widest == known || exists|i: int|
                0 <= i < lines.len() && (#[trigger] lines[i]).width == widest
        }),
    decreases
        data.count() + 1 - cursor.segment_index(),
        grapheme_count(data, cursor.segment_index() as int) - cursor.grapheme_index(),
{
    let limit = fit_limit(W::infinite_value(), data.profile);
    lemma_zero::<W>();
    lemma_sizes(data);
    lemma_line_is_nonnegative(data, cursor, limit);
    lemma_stream_step(data, cursor, limit);
    lemma_next_cursor(data, cursor, limit);
    let (line, next) = next_line(data, cursor, limit)->0;
    let rest = streamed_lines(data, next, limit);
    let lines = lines_left(data, cursor);
    assert(lines =~= seq![line] + rest);
    assert(lines[0] == line);
    let wider = known.larger(line.width);
    lemma_larger(known, line.width);
    let widest = widest_from(data, cursor, known);
    if next.segment_index() >= data.count() {
        assert(widest == wider);
        lemma_through(W::zero_value(), known, widest);
        assert forall|i: int| 0 <= i < lines.len() implies (#[trigger] lines[i]).width.at_most(
            widest,
        ) by {
            if i > 0 {
                assert(lines[i] == rest[i - 1]);
                lemma_trailing_line(data, next, limit, i - 1);
                assert(nonnegative(widest));
            }
        }
        if widest != known {
            assert(lines[0].width == widest);
        }
    } else {
        assert(grapheme_count(data, next.segment_index() as int) <= usize::MAX);
        assert(normalized(data, next) == next);
        lemma_widest_left(data, next, wider);
        assert(widest == widest_from(data, next, wider));
        lemma_through(known, wider, widest);
        lemma_through(line.width, wider, widest);
        assert forall|i: int| 0 <= i < lines.len() implies (#[trigger] lines[i]).width.at_most(
            widest,
        ) by {
            if i > 0 {
                assert(lines[i] == rest[i - 1]);
                assert(lines_left(data, next)[i - 1].width.at_most(widest));
            }
        }
        if widest != wider {
            let i = choose|i: int| 0 <= i < rest.len() && (#[trigger] rest[i]).width == widest;
            assert(lines[i + 1].width == widest);
        } else if widest != known {
            assert(lines[0].width == widest);
        }
    }
}

/// Behind the last segment there is one empty line at most.
proof fn lemma_trailing_line<W: Scalar>(
    data: &PreparedData<W>,
    cursor: LayoutCursor,
    limit: W,
    index: int,
)
    requires
        data.count() < usize::MAX,
        cursor.segment_index() >= data.count(),
        0 <= index < streamed_lines(data, cursor, limit).len(),
    ensures
        streamed_lines(data, cursor, limit)[index].width == W::zero_value(),
{
    let (line, next) = next_line(data, cursor, limit)->0;
    lemma_stream_step(data, cursor, limit);
    assert(next_line(data, next, limit) is None);
    assert(streamed_lines(data, next, limit) =~= Seq::empty());
}

/// What is left of an item from a place inside it is as wide as the widest of
/// the lines that its text has from there on without any limit.
pub proof fn what_is_left_is_as_wide_as_its_widest_line<W: Scalar>(
    item: FlowItem<W>,
    cursor: LayoutCursor,
)
    requires
        ordered_arithmetic::<W>(),
        exact_arithmetic::<W>(),
        item.rich.data.well_formed(),
        item.rich.data.count() < usize::MAX,
        cursor.segment_index() < item.rich.data.count(),
        normalized(&item.rich.data, cursor) == cursor,
        cursor != cursor_at(0, 0),
    ensures
        ({
            let lines = lines_left(&item.rich.data, cursor);
            let width = remaining_width_of(item, cursor);
            &&& forall|i: int| 0 <= i < lines.len() ==> (#[trigger] lines[i]).width.at_most(width)
            &&& width == W::zero_value() || exists|i: int|
                0 <= i < lines.len() && (#[trigger] lines[i]).width == width
        }),
{
    assert(flow_arithmetic::<W>()) by {
        reveal(flow_arithmetic);
    }
    lemma_zero::<W>();
    lemma_widest_left(&item.rich.data, cursor, W::zero_value());
}

} // verus!
