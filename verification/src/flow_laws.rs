//! What holds of inline flow: the lines give the text of the items back.
use crate::backend::MeasureBackend;
use crate::error::Error;
use crate::inline_flow::{
    valid_place, empty_filling, fill_item, fill_line, filled_cursor, flow_advances, flow_lines,
    flow_prepared, item_end, items_outcome, item_step, lemma_flow_step, rest_behind, Filled,
    Filling, FlowItem, Fragment, InlineFlowCursor, InlineFlowItem, InlineFlowOptions, ItemStep,
};
use crate::layout::line_text;
use crate::layout_laws::{
    lemma_drop_continues, lemma_line_continues, text_before, visible_text,
};
use crate::line_break::{cursor_at, fit_limit, grapheme_count, next_line, normalized, InternalLine};
use crate::line_laws::lemma_streamed_line;
use crate::prepare::aligned;
use crate::scalar::Scalar;
use crate::text::joined;
use crate::types::LayoutCursor;
use vstd::prelude::*;

verus! {

/// Whether every item of a flow is aligned.
pub open spec fn flow_aligned<W: Scalar>(flow: Seq<FlowItem<W>>) -> bool {
    forall|i: int| 0 <= i < flow.len() ==> aligned(#[trigger] flow[i].rich)
}

proof fn lemma_items_are_aligned<W: Scalar, B: MeasureBackend<W>>(
    backend: &B,
    items: Seq<InlineFlowItem<W>>,
    index: int,
    options: InlineFlowOptions,
    pending: W,
    used: nat,
    flow: Seq<FlowItem<W>>,
)
    requires
        0 <= index <= items.len(),
        items_outcome(backend, items, index, options, pending, used, Ok(flow)),
    ensures
        flow_aligned(flow),
    decreases items.len() - index,
{
    if index < items.len() {
        let outcome = Ok::<Seq<FlowItem<W>>, Error>(flow);
        let step = choose|step: Result<ItemStep<W>, Error>|
            {
                &&& #[trigger] item_step(
                    backend,
                    items[index],
                    index,
                    options,
                    pending,
                    used,
                    step,
                )
                &&& match step {
                    Err(error) => outcome == Err::<Seq<FlowItem<W>>, Error>(error),
                    Ok(next) => rest_behind(next.item, outcome) matches Some(rest) && items_outcome(
                        backend,
                        items,
                        index + 1,
                        options,
                        next.pending,
                        next.used,
                        rest,
                    ),
                }
            };
        if let Ok(next) = step {
            match next.item {
                None => {
                    lemma_items_are_aligned(
                        backend,
                        items,
                        index + 1,
                        options,
                        next.pending,
                        next.used,
                        flow,
                    );
                },
                Some(first) => {
                    let rest = flow.drop_first();
                    lemma_items_are_aligned(
                        backend,
                        items,
                        index + 1,
                        options,
                        next.pending,
                        next.used,
                        rest,
                    );
                    assert forall|i: int| 0 <= i < flow.len() implies aligned(
                        #[trigger] flow[i].rich,
                    ) by {
                        if i > 0 {
                            assert(flow[i] == rest[i - 1]);
                        }
                    }
                },
            }
        }
    }
}

/// The items of a prepared flow are aligned, whatever was measured.
pub proof fn prepared_flows_are_aligned<W: Scalar, B: MeasureBackend<W>>(
    backend: &B,
    items: Seq<InlineFlowItem<W>>,
    options: InlineFlowOptions,
    flow: Seq<FlowItem<W>>,
)
    requires
        flow_prepared(backend, items, options, Ok(flow)),
    ensures
        flow_aligned(flow),
{
    lemma_items_are_aligned(backend, items, 0, options, W::zero_value(), 0, flow);
}

/// The text of a fragment without its hyphen.
pub open spec fn bare_fragment<W>(fragment: Fragment<W>) -> Seq<char> {
    if fragment.ends_with_discretionary_hyphen {
        fragment.text.drop_last()
    } else {
        fragment.text
    }
}

/// The texts of fragments one after the other.
pub open spec fn fragments_text<W>(fragments: Seq<Fragment<W>>) -> Seq<char> {
    joined(fragments.map_values(|fragment: Fragment<W>| bare_fragment(fragment)))
}

/// The collapsible spaces that were dropped behind a line that ends inside an
/// item.
pub open spec fn dropped_behind<W: Scalar>(
    flow: Seq<FlowItem<W>>,
    line: Filling<W>,
) -> Seq<char> {
    let end = line.fragments.last().end;
    if line.item_index < flow.len() && line.cursor != cursor_at(0, 0) && end.segment_index()
        < line.cursor.segment_index() {
        joined(
            flow[line.item_index].rich.segments.subrange(
                end.segment_index() as int,
                line.cursor.segment_index() as int,
            ),
        )
    } else {
        Seq::empty()
    }
}

/// Everything that the first `count` items show.
pub open spec fn items_text<W: Scalar>(flow: Seq<FlowItem<W>>, count: int) -> Seq<char>
    decreases count,
{
    if count <= 0 {
        Seq::empty()
    } else {
        items_text(flow, count - 1) + visible_text(flow[count - 1].rich)
    }
}

/// What a flow shows before a place.
pub open spec fn flow_text_before<W: Scalar>(
    flow: Seq<FlowItem<W>>,
    item_index: int,
    cursor: LayoutCursor,
) -> Seq<char> {
    items_text(flow, item_index) + if item_index < flow.len() {
        text_before(
            flow[item_index].rich.segments,
            flow[item_index].rich.data.kinds@,
            cursor.segment_index() as int,
            cursor.grapheme_index() as int,
        )
    } else {
        Seq::empty()
    }
}

/// A fragment of an item as a line of its text.
spec fn as_line<W: Scalar>(fragment: Fragment<W>) -> InternalLine<W> {
    InternalLine {
        start_segment: fragment.start.segment_index(),
        start_grapheme: fragment.start.grapheme_index(),
        end_segment: fragment.end.segment_index(),
        end_grapheme: fragment.end.grapheme_index(),
        width: fragment.occupied_width,
        ends_with_discretionary_hyphen: false,
    }
}

proof fn lemma_start_of_item<W: Scalar>(flow: Seq<FlowItem<W>>, item_index: int)
    requires
        0 <= item_index <= flow.len(),
    ensures
        flow_text_before(flow, item_index, cursor_at(0, 0)) == items_text(flow, item_index),
{
    assert(flow_text_before(flow, item_index, cursor_at(0, 0)) =~= items_text(flow, item_index));
}

proof fn lemma_fragments_text_push<W>(fragments: Seq<Fragment<W>>, fragment: Fragment<W>)
    ensures
        fragments_text(fragments.push(fragment)) == fragments_text(fragments) + bare_fragment(
            fragment,
        ),
{
    let texts = fragments.map_values(|f: Fragment<W>| bare_fragment(f));
    let longer = fragments.push(fragment).map_values(|f: Fragment<W>| bare_fragment(f));
    assert(longer =~= texts.push(bare_fragment(fragment)));
    assert(longer.drop_last() =~= texts);
}

/// A fragment continues what the flow shows before its start.
proof fn lemma_fragment_continues<W: Scalar>(
    flow: Seq<FlowItem<W>>,
    item_index: int,
    start: LayoutCursor,
    fragment: Fragment<W>,
)
    requires
        flow_aligned(flow),
        item_index < flow.len(),
        valid_place(flow, item_index, start),
        fragment.start == start,
        fragment.text == line_text(
            flow[item_index].rich.segments,
            flow[item_index].rich.data.kinds@,
            start,
            fragment.end,
            fragment.ends_with_discretionary_hyphen,
        ),
        start.segment_index() <= fragment.end.segment_index() <= flow[item_index].rich.data.count(),
        start.segment_index() == fragment.end.segment_index() ==> start.grapheme_index()
            <= fragment.end.grapheme_index(),
    ensures
        flow_text_before(flow, item_index, start) + bare_fragment(fragment) == flow_text_before(
            flow,
            item_index,
            fragment.end,
        ),
        fragment.end == item_end(flow[item_index]) ==> flow_text_before(
            flow,
            item_index,
            fragment.end,
        ) == flow_text_before(flow, item_index + 1, cursor_at(0, 0)),
{
    let item = flow[item_index];
    let segments = item.rich.segments;
    let kinds = item.rich.data.kinds@;
    let line = as_line(fragment);
    assert(aligned(item.rich));
    assert(item.rich.data.kinds.len() <= usize::MAX);
    lemma_line_continues(item.rich, line);
    let bare = line_text(segments, kinds, start, fragment.end, false);
    if fragment.ends_with_discretionary_hyphen {
        assert(fragment.text =~= bare + seq!['-']);
        assert(fragment.text.drop_last() =~= bare);
    }
    assert(bare_fragment(fragment) == bare);
    assert(flow_text_before(flow, item_index, start) + bare =~= flow_text_before(
        flow,
        item_index,
        fragment.end,
    ));
    if fragment.end == item_end(item) {
        assert(text_before(segments, kinds, segments.len() as int, 0) =~= visible_text(item.rich));
        assert(flow_text_before(flow, item_index, fragment.end) =~= items_text(
            flow,
            item_index + 1,
        ));
        lemma_start_of_item(flow, item_index + 1);
    }
}

/// Filling a line goes on with the text: what the line shows so far is what the
/// flow shows between the line's start and the place that it has come to.
proof fn lemma_fill_continues<W: Scalar>(
    flow: Seq<FlowItem<W>>,
    line: Filling<W>,
    max_width: W,
    before: Seq<char>,
)
    requires
        flow_aligned(flow),
        valid_place(flow, line.item_index, line.cursor),
        line.fragments.len() > 0 ==> line.cursor == cursor_at(0, 0),
        flow_text_before(flow, line.item_index, line.cursor) == before + fragments_text(
            line.fragments,
        ),
    ensures
        fill_line(flow, line, max_width) matches Ok(filled) ==> (filled.fragments.len() > 0 ==> {
            &&& valid_place(flow, filled.item_index, filled.cursor)
            &&& flow_text_before(flow, filled.item_index, filled.cursor) == before
                + fragments_text(filled.fragments) + dropped_behind(flow, filled)
        }),
    decreases flow.len() - line.item_index,
{
    if line.item_index >= flow.len() {
        assert(before + fragments_text(line.fragments) + dropped_behind(flow, line) =~= before
            + fragments_text(line.fragments));
    } else {
        let item = flow[line.item_index];
        let data = &item.rich.data;
        let gap = if line.fragments.len() == 0 {
            W::zero_value()
        } else {
            item.gap_before
        };
        assert(aligned(item.rich));
        assert(data.kinds.len() <= usize::MAX);
        match fill_item(flow, line, max_width) {
            Filled::Placed(longer) => {
                let fragment = longer.fragments.last();
                assert(longer.fragments =~= line.fragments.push(fragment));
                lemma_fragments_text_push(line.fragments, fragment);
                lemma_fragment_continues(flow, line.item_index, line.cursor, fragment);
                assert(flow_text_before(flow, longer.item_index, longer.cursor) =~= before
                    + fragments_text(longer.fragments));
                lemma_fill_continues(flow, longer, max_width, before);
            },
            Filled::Full(full) => {
                if line.fragments.len() > 0 {
                    assert(full == line);
                    assert(before + fragments_text(line.fragments) + dropped_behind(flow, line)
                        =~= before + fragments_text(line.fragments));
                } else if full.fragments.len() > 0 {
                    lemma_full_line(flow, line, max_width, before);
                }
            },
            Filled::Fault(fault) => {},
        }
    }
}

/// The same for the part of an item that fills an empty line.
proof fn lemma_full_line<W: Scalar>(
    flow: Seq<FlowItem<W>>,
    line: Filling<W>,
    max_width: W,
    before: Seq<char>,
)
    requires
        flow_aligned(flow),
        line.item_index < flow.len(),
        valid_place(flow, line.item_index, line.cursor),
        line.fragments.len() == 0,
        flow_text_before(flow, line.item_index, line.cursor) == before + fragments_text(
            line.fragments,
        ),
        fill_item(flow, line, max_width) matches Filled::Full(full) && full.fragments.len() > 0,
    ensures
        fill_item(flow, line, max_width) matches Filled::Full(full) && {
            &&& valid_place(flow, full.item_index, full.cursor)
            &&& flow_text_before(flow, full.item_index, full.cursor) == before + fragments_text(
                full.fragments,
            ) + dropped_behind(flow, full)
        },
{
    let item = flow[line.item_index];
    let data = &item.rich.data;
    let available = max_width.minus(line.width).minus(W::zero_value()).minus(item.extra_width);
    let limit = fit_limit(available.larger(W::zero_value()), data.profile);
    assert(aligned(item.rich));
    assert(data.kinds.len() <= usize::MAX);
    let full = fill_item(flow, line, max_width)->Full_0;
    let fragment = full.fragments.last();
    assert(full.fragments =~= line.fragments.push(fragment));
    lemma_fragments_text_push(line.fragments, fragment);
    if line.cursor.segment_index() < data.count() {
        lemma_streamed_line(data, line.cursor, limit);
        let next = (next_line(data, line.cursor, limit)->0).1;
        lemma_fragment_continues(flow, line.item_index, line.cursor, fragment);
        if next.segment_index() >= data.count() {
            assert(fragment.end == item_end(item));
            assert(full.cursor == cursor_at(0, 0));
            assert(flow_text_before(flow, full.item_index, full.cursor) =~= before
                + fragments_text(full.fragments) + dropped_behind(flow, full));
        } else {
            assert(full.cursor == next);
            if fragment.end != next {
                let spaces = InternalLine {
                    start_segment: next.segment_index(),
                    start_grapheme: 0,
                    ..as_line(fragment)
                };
                lemma_drop_continues(
                    item.rich,
                    as_line(fragment),
                    spaces,
                    next.segment_index() as int,
                );
            }
            assert(flow_text_before(flow, full.item_index, full.cursor) =~= before
                + fragments_text(full.fragments) + dropped_behind(flow, full));
        }
    } else {
        // An item without segments shows nothing, and is left behind at once.
        assert(data.count() == 0);
        assert(line.cursor == cursor_at(0, 0));
        lemma_fragment_continues(flow, line.item_index, line.cursor, fragment);
        assert(flow_text_before(flow, full.item_index, full.cursor) =~= before + fragments_text(
            full.fragments,
        ) + dropped_behind(flow, full));
    }
}

/// The text that the lines from a cursor on show, with the spaces that were
/// dropped behind each.
pub open spec fn retold<W: Scalar>(
    flow: Seq<FlowItem<W>>,
    max_width: W,
    cursor: InlineFlowCursor,
) -> Seq<char>
    decreases
        flow.len() - cursor.item_index(),
        flow[cursor.item_index() as int].rich.data.count() + 1 - cursor.layout_cursor().segment_index(),
        grapheme_count(
            &flow[cursor.item_index() as int].rich.data,
            cursor.layout_cursor().segment_index() as int,
        ) - normalized(
            &flow[cursor.item_index() as int].rich.data,
            cursor.layout_cursor(),
        ).grapheme_index(),
    when flow.len() <= usize::MAX
{
    if cursor.item_index() >= flow.len() {
        Seq::empty()
    } else {
        match fill_line(flow, empty_filling(cursor), max_width) {
            Err(fault) => Seq::empty(),
            Ok(line) => if line.fragments.len() == 0 {
                Seq::empty()
            } else {
                proof {
                    flow_advances(flow, max_width, cursor);
                    lemma_flow_step(flow, max_width, cursor);
                }
                fragments_text(line.fragments) + dropped_behind(flow, line) + retold(
                    flow,
                    max_width,
                    filled_cursor(line),
                )
            },
        }
    }
}

proof fn lemma_retold<W: Scalar>(
    flow: Seq<FlowItem<W>>,
    max_width: W,
    cursor: InlineFlowCursor,
)
    requires
        flow_aligned(flow),
        flow.len() <= usize::MAX,
        valid_place(flow, cursor.item_index() as int, cursor.layout_cursor()),
        flow_lines(flow, max_width, cursor) is Ok,
    ensures
        flow_text_before(flow, cursor.item_index() as int, cursor.layout_cursor()) + retold(
            flow,
            max_width,
            cursor,
        ) == items_text(flow, flow.len() as int),
    decreases
        flow.len() - cursor.item_index(),
        flow[cursor.item_index() as int].rich.data.count() + 1 - cursor.layout_cursor().segment_index(),
        grapheme_count(
            &flow[cursor.item_index() as int].rich.data,
            cursor.layout_cursor().segment_index() as int,
        ) - normalized(
            &flow[cursor.item_index() as int].rich.data,
            cursor.layout_cursor(),
        ).grapheme_index(),
{
    let before = flow_text_before(flow, cursor.item_index() as int, cursor.layout_cursor());
    if cursor.item_index() >= flow.len() {
        assert(before + retold(flow, max_width, cursor) =~= items_text(flow, flow.len() as int));
    } else {
        let first = empty_filling::<W>(cursor);
        let line = fill_line(flow, first, max_width)->Ok_0;
        assert(fragments_text(first.fragments) =~= Seq::empty());
        assert(before + fragments_text(first.fragments) =~= before);
        lemma_fill_continues(flow, first, max_width, before);
        flow_advances(flow, max_width, cursor);
        lemma_flow_step(flow, max_width, cursor);
        let next = filled_cursor(line);
        lemma_retold(flow, max_width, next);
        assert(before + retold(flow, max_width, cursor) =~= before + fragments_text(
            line.fragments,
        ) + dropped_behind(flow, line) + retold(flow, max_width, next));
    }
}

/// Inline flow neither drops nor repeats text: one after the other, with the
/// collapsible spaces that were dropped where an item was broken, the fragments
/// are everything that the items show.
pub proof fn flow_gives_the_text_back<W: Scalar>(flow: Seq<FlowItem<W>>, max_width: W)
    requires
        flow_aligned(flow),
        flow.len() <= usize::MAX,
        flow_lines(
            flow,
            max_width,
            InlineFlowCursor::at(0, cursor_at(0, 0)),
        ) is Ok,
    ensures
        retold(
            flow,
            max_width,
            InlineFlowCursor::at(0, cursor_at(0, 0)),
        ) == items_text(flow, flow.len() as int),
{
    let start = InlineFlowCursor::at(0, cursor_at(0, 0));
    lemma_start_of_item(flow, 0);
    lemma_retold(flow, max_width, start);
    assert(items_text(flow, 0) + retold(flow, max_width, start) =~= retold(
        flow,
        max_width,
        start,
    ));
}

} // verus!
