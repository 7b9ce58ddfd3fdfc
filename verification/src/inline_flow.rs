//! Inline flow -- mixed inline runs.
//!
//! Handles layout of heterogeneous inline content like:
//! `"Deploy to @staging completed in 3.2s"`
//! where `@staging` is an atomic chip with different font/styling.
//!
//! Each item can be:
//! - **Breakable** (normal text) -- wraps at word boundaries
//! - **Atomic** (`break: Never`) -- never wraps mid-item (chips, badges, code spans)
//!
//! Items can have `extra_width` for padding/border chrome.
use crate::analysis::{analyzed, collapsible, texts_of};
use crate::backend::font::positive;
use crate::backend::{FontSpec, FontView, MeasureBackend};
use crate::error::{Error, MetricValue};
use crate::layout::{
    invalid_line_height, invalid_max_width, is_valid_cursor, line_text, materialize_line_text,
    valid_cursor, validate_line_height, validate_max_width,
};
use crate::line_break::{
    cursor_at, fit_limit, grapheme_count, layout_next_line_range, next_line, normalized, walk_lines,
    walked_lines, InternalLine,
};
use crate::line_laws::{lemma_next_cursor, lemma_stream_step, streaming_advances};
use crate::prepare::{
    aligned, byte_count, prepare_outcome, prepare_with_segments, segment_levels,
};
use crate::scalar::{is_measure, nonnegative, Scalar};
use crate::segmentation::{grapheme_clusters, graphemes};
use crate::text::{chars_of, string_of, views};
use crate::types::{
    LayoutCursor, PrepareOptions, PreparedData, PreparedTextWithSegments, RichText,
    WhiteSpaceMode, DEFAULT_MAX_GRAPHEMES, DEFAULT_MAX_INPUT_BYTES, DEFAULT_MAX_SEGMENTS,
};
use vstd::prelude::*;

verus! {

/// Default maximum source items accepted by one inline flow.
pub const DEFAULT_MAX_INLINE_ITEMS: usize = 1_024;

/// An inline flow item -- one run of content in a mixed line.
#[derive(Debug, Clone)]
pub struct InlineFlowItem<W> {
    /// Text content of this item.
    pub text: String,
    /// Font for this item (can differ per item).
    pub font: FontSpec<W>,
    /// Break behavior.
    pub break_mode: BreakMode,
    /// Extra width added to this item (e.g., padding + border for chips).
    pub extra_width: W,
}

/// Break behavior for inline flow items.
#[derive(Debug, Clone, Copy, PartialEq, Eq, Structural)]
pub enum BreakMode {
    /// Normal text wrapping (can break at word boundaries).
    Normal,
    /// Never break within this item (atomic placement).
    Never,
}

impl Default for BreakMode {
    fn default() -> (r: Self)
        ensures
            r == BreakMode::Normal,
    {
        BreakMode::Normal
    }
}

/// Prepared inline flow -- ready for layout.
#[derive(Debug, Clone)]
pub struct PreparedInlineFlow<W> {
    /// Prepared text for each item, with the space before it.
    items: Vec<PreparedInlineItem<W>>,
}

#[derive(Debug, Clone)]
struct PreparedInlineItem<W> {
    source_item_index: usize,
    prepared_with_segments: PreparedTextWithSegments<W>,
    natural_width: W,
    extra_width: W,
    break_mode: BreakMode,
    gap_before: W,
}

/// A prepared item as a value.
pub struct FlowItem<W> {
    pub source_item_index: usize,
    pub rich: RichText<W>,
    pub natural_width: W,
    pub extra_width: W,
    pub break_mode: BreakMode,
    pub gap_before: W,
}

impl<W> View for PreparedInlineItem<W> {
    type V = FlowItem<W>;

    closed spec fn view(&self) -> FlowItem<W> {
        FlowItem {
            source_item_index: self.source_item_index,
            rich: self.prepared_with_segments@,
            natural_width: self.natural_width,
            extra_width: self.extra_width,
            break_mode: self.break_mode,
            gap_before: self.gap_before,
        }
    }
}

impl<W> View for PreparedInlineFlow<W> {
    type V = Seq<FlowItem<W>>;

    closed spec fn view(&self) -> Seq<FlowItem<W>> {
        self.items@.map_values(|item: PreparedInlineItem<W>| item@)
    }
}

/// Aggregate resource limits for [`prepare_inline_flow_with_options`].
#[derive(Debug, Clone, Copy, PartialEq, Eq, Structural)]
pub struct InlineFlowOptions {
    /// Maximum number of source items.
    pub max_items: usize,
    /// Maximum total UTF-8 bytes across all source item text.
    pub max_input_bytes: usize,
    /// Maximum total extended grapheme clusters across all source items.
    pub max_graphemes: usize,
    /// Maximum total analyzed segments retained by the prepared flow.
    pub max_segments: usize,
}

/// The limits of [`InlineFlowOptions::default`].
pub open spec fn default_flow_options() -> InlineFlowOptions {
    InlineFlowOptions {
        max_items: DEFAULT_MAX_INLINE_ITEMS,
        max_input_bytes: DEFAULT_MAX_INPUT_BYTES,
        max_graphemes: DEFAULT_MAX_GRAPHEMES,
        max_segments: DEFAULT_MAX_SEGMENTS,
    }
}

impl Default for InlineFlowOptions {
    fn default() -> (r: Self)
        ensures
            r == default_flow_options(),
    {
        InlineFlowOptions {
            max_items: DEFAULT_MAX_INLINE_ITEMS,
            max_input_bytes: DEFAULT_MAX_INPUT_BYTES,
            max_graphemes: DEFAULT_MAX_GRAPHEMES,
            max_segments: DEFAULT_MAX_SEGMENTS,
        }
    }
}

/// A fragment of an inline flow item on a line.
#[derive(Debug, Clone)]
pub struct InlineFlowFragment<W> {
    /// Index of the source item.
    pub item_index: usize,
    /// Text content of this fragment.
    pub text: String,
    /// Gap before this fragment (inter-item space).
    pub gap_before: W,
    /// Width occupied by this fragment (including `extra_width`).
    pub occupied_width: W,
    /// Start cursor within the item's prepared text.
    pub start: LayoutCursor,
    /// End cursor within the item's prepared text.
    pub end: LayoutCursor,
    /// Whether this fragment paints a selected U+00AD as a trailing hyphen.
    pub ends_with_discretionary_hyphen: bool,
}

/// A fragment as a value.
pub struct Fragment<W> {
    pub item_index: usize,
    pub text: Seq<char>,
    pub gap_before: W,
    pub occupied_width: W,
    pub start: LayoutCursor,
    pub end: LayoutCursor,
    pub ends_with_discretionary_hyphen: bool,
}

impl<W> View for InlineFlowFragment<W> {
    type V = Fragment<W>;

    open spec fn view(&self) -> Fragment<W> {
        Fragment {
            item_index: self.item_index,
            text: self.text@,
            gap_before: self.gap_before,
            occupied_width: self.occupied_width,
            start: self.start,
            end: self.end,
            ends_with_discretionary_hyphen: self.ends_with_discretionary_hyphen,
        }
    }
}

/// The fragments as values.
pub open spec fn fragments_of<W>(fragments: Seq<InlineFlowFragment<W>>) -> Seq<Fragment<W>> {
    fragments.map_values(|fragment: InlineFlowFragment<W>| fragment@)
}

/// A line from inline flow layout.
#[derive(Debug, Clone)]
pub struct InlineFlowLine<W> {
    /// Fragments on this line.
    pub fragments: Vec<InlineFlowFragment<W>>,
    /// Total width of this line.
    pub width: W,
}

/// A line as a value.
pub struct FlowLine<W> {
    pub fragments: Seq<Fragment<W>>,
    pub width: W,
}

impl<W> View for InlineFlowLine<W> {
    type V = FlowLine<W>;

    open spec fn view(&self) -> FlowLine<W> {
        FlowLine { fragments: fragments_of(self.fragments@), width: self.width }
    }
}

/// The lines as values.
pub open spec fn flow_lines_of<W>(lines: Seq<InlineFlowLine<W>>) -> Seq<FlowLine<W>> {
    lines.map_values(|line: InlineFlowLine<W>| line@)
}

/// Cursor position within an inline flow.
#[derive(Debug, Clone, Copy, PartialEq, Eq, Structural)]
pub struct InlineFlowCursor {
    /// Current item index.
    pub(crate) item_index: usize,
    /// Cursor within the current item's prepared text.
    pub(crate) layout_cursor: LayoutCursor,
}

impl InlineFlowCursor {
    /// The item that the cursor stands in.
    pub open(crate) spec fn item(self) -> usize {
        self.item_index
    }

    /// Where in the item the cursor stands.
    pub open(crate) spec fn place(self) -> LayoutCursor {
        self.layout_cursor
    }

    /// The cursor at a place of an item.
    pub open(crate) spec fn at(item: usize, place: LayoutCursor) -> Self {
        InlineFlowCursor { item_index: item, layout_cursor: place }
    }

    /// Current item index.
    #[must_use]
    #[verifier::when_used_as_spec(item)]
    pub fn item_index(self) -> (r: usize)
        ensures
            r == self.item(),
    {
        self.item_index
    }

    /// Cursor within the current item's prepared text.
    #[must_use]
    #[verifier::when_used_as_spec(place)]
    pub fn layout_cursor(self) -> (r: LayoutCursor)
        ensures
            r == self.place(),
    {
        self.layout_cursor
    }

    /// Whether `self` stands before `other`.
    pub open spec fn before(self, other: InlineFlowCursor) -> bool {
        self.item() < other.item() || (self.item() == other.item() && self.place().before(
            other.place(),
        ))
    }
}

impl Default for InlineFlowCursor {
    fn default() -> (r: Self)
        ensures
            r == InlineFlowCursor::at(0, cursor_at(0, 0)),
    {
        InlineFlowCursor {
            item_index: 0,
            layout_cursor: LayoutCursor { segment_index: 0, grapheme_index: 0 },
        }
    }
}

// ---- Laying out ----------------------------------------------------------------------

/// The width of the widest line of a text at no width limit, where `known` is
/// the widest of the lines before the cursor.
pub open spec fn widest_from<W: Scalar>(data: &PreparedData<W>, cursor: LayoutCursor, known: W) -> W
    decreases
        data.count() + 1 - cursor.segment_index(),
        grapheme_count(data, cursor.segment_index() as int) - normalized(data, cursor).grapheme_index(),
{
    match next_line(data, cursor, fit_limit(W::infinite_value(), data.profile)) {
        Some((range, next)) => {
            let wider = known.larger(range.width);
            if next.segment_index() >= data.count() || cursor.segment_index() >= data.count() {
                wider
            } else {
                proof {
                    lemma_stream_step(
                        data,
                        cursor,
                        fit_limit(W::infinite_value(), data.profile),
                    );
                }
                widest_from(data, next, wider)
            }
        },
        None => known,
    }
}

/// The width of what is left of an item from a cursor on.
pub open spec fn remaining_width_of<W: Scalar>(item: FlowItem<W>, cursor: LayoutCursor) -> W {
    if cursor == cursor_at(0, 0) {
        item.natural_width
    } else {
        widest_from(&item.rich.data, cursor, W::zero_value())
    }
}

/// The fragment that shows an item between two cursors.
pub open spec fn fragment_of<W: Scalar>(
    item: FlowItem<W>,
    gap: W,
    occupied: W,
    start: LayoutCursor,
    end: LayoutCursor,
    hyphen: bool,
) -> Fragment<W> {
    Fragment {
        item_index: item.source_item_index,
        text: line_text(item.rich.segments, item.rich.data.kinds@, start, end, hyphen),
        gap_before: gap,
        occupied_width: occupied,
        start,
        end,
        ends_with_discretionary_hyphen: hyphen,
    }
}

/// The cursor at the end of an item.
pub open spec fn item_end<W: Scalar>(item: FlowItem<W>) -> LayoutCursor {
    cursor_at(item.rich.data.count() as int, 0)
}

/// A line that is being filled: its fragments, its width, and the place that
/// it has come to.
pub struct Filling<W> {
    pub fragments: Seq<Fragment<W>>,
    pub width: W,
    pub item_index: int,
    pub cursor: LayoutCursor,
}

/// A derived width that is no measurement.
pub struct WidthFault<W> {
    pub metric: Seq<char>,
    pub value: W,
}

/// What becomes of a line when it is offered one more item.
pub enum Filled<W> {
    /// The item is on the line, which goes on behind it.
    Placed(Filling<W>),
    /// The line ends here.
    Full(Filling<W>),
    /// A width is no measurement.
    Fault(WidthFault<W>),
}

/// Put a fragment of a breakable item on the line.
pub open spec fn place_fragment<W: Scalar>(
    line: Filling<W>,
    gap: W,
    fragment: Fragment<W>,
    item_index: int,
    cursor: LayoutCursor,
) -> Result<Filling<W>, WidthFault<W>> {
    let width = line.width.plus(gap.plus(fragment.occupied_width));
    if !is_measure(fragment.occupied_width) {
        Err(WidthFault { metric: "inline fragment width"@, value: fragment.occupied_width })
    } else if !is_measure(width) {
        Err(WidthFault { metric: "inline line width"@, value: width })
    } else {
        Ok(Filling { fragments: line.fragments.push(fragment), width, item_index, cursor })
    }
}

/// Offer an atomic item to a line: it is placed whole, unless it would not fit
/// on a line that holds something.
pub open spec fn fill_atomic<W: Scalar>(
    item: FlowItem<W>,
    line: Filling<W>,
    gap: W,
    max_width: W,
) -> Filled<W> {
    let needed = gap.plus(item.natural_width).plus(item.extra_width);
    let width = line.width.plus(needed);
    let occupied = item.natural_width.plus(item.extra_width);
    if !is_measure(needed) {
        Filled::Fault(WidthFault { metric: "atomic item width"@, value: needed })
    } else if !is_measure(width) {
        Filled::Fault(WidthFault { metric: "inline line width"@, value: width })
    } else if max_width.below(width) && line.fragments.len() > 0 {
        Filled::Full(line)
    } else if !is_measure(occupied) {
        Filled::Fault(WidthFault { metric: "atomic fragment width"@, value: occupied })
    } else {
        Filled::Placed(
            Filling {
                fragments: line.fragments.push(
                    fragment_of(item, gap, occupied, cursor_at(0, 0), item_end(item), false),
                ),
                width,
                item_index: line.item_index + 1,
                cursor: cursor_at(0, 0),
            },
        )
    }
}

/// Offer a breakable item to a line: what is left of it is placed whole where
/// it fits; on an empty line the part that fits is placed, and fills the line.
pub open spec fn fill_breakable<W: Scalar>(
    item: FlowItem<W>,
    line: Filling<W>,
    gap: W,
    max_width: W,
) -> Filled<W> {
    let data = &item.rich.data;
    let available = max_width.minus(line.width).minus(gap).minus(item.extra_width);
    let remaining = remaining_width_of(item, line.cursor);
    let occupied = remaining.plus(item.extra_width);
    if available.at_most(W::zero_value()) && line.fragments.len() > 0 {
        Filled::Full(line)
    } else if occupied.at_most(available) {
        let fragment = fragment_of(item, gap, occupied, line.cursor, item_end(item), false);
        match place_fragment(line, gap, fragment, line.item_index + 1, cursor_at(0, 0)) {
            Ok(filling) => Filled::Placed(filling),
            Err(fault) => Filled::Fault(fault),
        }
    } else if line.fragments.len() > 0 {
        Filled::Full(line)
    } else {
        let limit = fit_limit(available.larger(W::zero_value()), data.profile);
        match next_line(data, line.cursor, limit) {
            None => Filled::Full(line),
            Some((range, next)) => {
                let fragment = fragment_of(
                    item,
                    gap,
                    range.width.plus(item.extra_width),
                    range.start,
                    range.end,
                    range.ends_with_discretionary_hyphen,
                );
                let consumed = next.segment_index() >= data.count();
                match place_fragment(
                    line,
                    gap,
                    fragment,
                    if consumed {
                        line.item_index + 1
                    } else {
                        line.item_index
                    },
                    if consumed {
                        cursor_at(0, 0)
                    } else {
                        next
                    },
                ) {
                    Ok(filling) => Filled::Full(filling),
                    Err(fault) => Filled::Fault(fault),
                }
            },
        }
    }
}

/// Offer the item that a line has come to.
pub open spec fn fill_item<W: Scalar>(
    flow: Seq<FlowItem<W>>,
    line: Filling<W>,
    max_width: W,
) -> Filled<W> {
    let item = flow[line.item_index];
    let gap = if line.fragments.len() == 0 {
        W::zero_value()
    } else {
        item.gap_before
    };
    if item.break_mode == BreakMode::Never {
        fill_atomic(item, line, gap, max_width)
    } else {
        fill_breakable(item, line, gap, max_width)
    }
}

/// Fill a line as far as it goes.
pub open spec fn fill_line<W: Scalar>(
    flow: Seq<FlowItem<W>>,
    line: Filling<W>,
    max_width: W,
) -> Result<Filling<W>, WidthFault<W>>
    decreases flow.len() - line.item_index,
{
    if line.item_index < 0 || line.item_index >= flow.len() {
        Ok(line)
    } else {
        match fill_item(flow, line, max_width) {
            Filled::Placed(longer) => fill_line(flow, longer, max_width),
            Filled::Full(full) => Ok(full),
            Filled::Fault(fault) => Err(fault),
        }
    }
}

/// A line that holds nothing yet.
pub open spec fn empty_filling<W: Scalar>(cursor: InlineFlowCursor) -> Filling<W> {
    Filling {
        fragments: Seq::empty(),
        width: W::zero_value(),
        item_index: cursor.item_index() as int,
        cursor: cursor.layout_cursor(),
    }
}

/// The cursor that a line has come to.
pub open spec fn filled_cursor<W: Scalar>(line: Filling<W>) -> InlineFlowCursor {
    InlineFlowCursor::at(line.item_index as usize, line.cursor)
}

/// The error for a flow that comes to no end.
pub open spec fn no_progress(error: Error) -> bool {
    error matches Error::StateUnavailable { state } && state@ == "inline flow cursor progress"@
}

/// The error for a derived width.
pub open spec fn reports_fault<W: Scalar>(error: Error, fault: WidthFault<W>) -> bool {
    error.reports_metric(fault.metric, fault.value)
}

/// Whether an error rejects a flow cursor.
pub open spec fn rejects_flow_cursor(
    error: Error,
    context: Seq<char>,
    segment: usize,
    grapheme: usize,
    count: nat,
) -> bool {
    error matches Error::InvalidCursor {
        context: c,
        segment_index,
        grapheme_index,
        segment_count,
    } && c@ == context && segment_index == segment && grapheme_index == grapheme && segment_count
        == count
}

/// Whether a place is one of a flow: the start of an item, a place inside it,
/// or the end of the flow.
pub open spec fn valid_place<W: Scalar>(
    flow: Seq<FlowItem<W>>,
    item_index: int,
    cursor: LayoutCursor,
) -> bool {
    &&& 0 <= item_index <= flow.len()
    &&& cursor == cursor_at(0, 0) || {
        &&& item_index < flow.len()
        &&& flow[item_index].break_mode == BreakMode::Normal
        &&& cursor.segment_index() < flow[item_index].rich.data.count()
        &&& valid_cursor(&flow[item_index].rich.data, cursor)
    }
}

/// What laying out the next line of a flow gives.
pub open spec fn next_flow_line<W: Scalar>(
    flow: Seq<FlowItem<W>>,
    max_width: W,
    start: InlineFlowCursor,
    outcome: Result<Option<(FlowLine<W>, InlineFlowCursor)>, Error>,
) -> bool {
    if !nonnegative(max_width) {
        outcome matches Err(error) && invalid_max_width(error)
    } else if start.item_index() > flow.len() {
        outcome matches Err(error) && rejects_flow_cursor(
            error,
            "inline flow"@,
            start.item_index(),
            0,
            flow.len(),
        )
    } else if start.item_index() == flow.len() {
        if start.layout_cursor() == cursor_at(0, 0) {
            outcome matches Ok(None)
        } else {
            outcome matches Err(error) && rejects_flow_cursor(
                error,
                "inline flow terminal item"@,
                start.layout_cursor().segment_index(),
                start.layout_cursor().grapheme_index(),
                0,
            )
        }
    } else if !valid_place(flow, start.item_index() as int, start.layout_cursor()) {
        outcome matches Err(error) && rejects_flow_cursor(
            error,
            "inline flow item"@,
            start.layout_cursor().segment_index(),
            start.layout_cursor().grapheme_index(),
            flow[start.item_index() as int].rich.data.count(),
        )
    } else {
        match fill_line(flow, empty_filling(start), max_width) {
            Err(fault) => outcome matches Err(error) && reports_fault(error, fault),
            Ok(line) => if line.fragments.len() == 0 {
                outcome matches Err(error) && no_progress(error)
            } else {
                outcome == Ok::<_, Error>(
                    Some(
                        (
                            FlowLine { fragments: line.fragments, width: line.width },
                            filled_cursor(line),
                        ),
                    ),
                )
            },
        }
    }
}

/// A line that is being filled.
struct LineFill<W> {
    fragments: Vec<InlineFlowFragment<W>>,
    width: W,
    item_index: usize,
    cursor: LayoutCursor,
}

impl<W> View for LineFill<W> {
    type V = Filling<W>;

    closed spec fn view(&self) -> Filling<W> {
        Filling {
            fragments: fragments_of(self.fragments@),
            width: self.width,
            item_index: self.item_index as int,
            cursor: self.cursor,
        }
    }
}

/// Accept a derived width that is a measurement.
fn validate_inline_width<W: Scalar>(metric: &'static str, width: W) -> (r: Result<(), Error>)
    ensures
        match r {
            Ok(()) => is_measure(width),
            Err(error) => !is_measure(width) && reports_fault(
                error,
                (WidthFault { metric: metric@, value: width }),
            ),
        },
{
    if width.is_finite() && W::zero().le(width) {
        Ok(())
    } else {
        Err(Error::InvalidMetric { metric, value: MetricValue::of(width) })
    }
}

/// Measure what is left of an item from a cursor on.
fn measure_remaining<W: Scalar>(item: &PreparedInlineItem<W>, cursor: LayoutCursor) -> (r: W)
    ensures
        r == remaining_width_of(item@, cursor),
{
    if cursor.segment_index() == 0 && cursor.grapheme_index() == 0 {
        return item.natural_width;
    }
    let data = item.prepared_with_segments.data();
    let count = data.segment_count();
    let ghost limit = fit_limit(W::infinite_value(), data.profile);
    let mut width = W::zero();
    let mut at = cursor;
    loop
        invariant
            count == data.count(),
            limit == fit_limit(W::infinite_value(), data.profile),
            widest_from(data, cursor, W::zero_value()) == widest_from(data, at, width),
            *data == item@.rich.data,
            cursor != cursor_at(0, 0),
        decreases
            data.count() + 1 - at.segment_index(),
            grapheme_count(data, at.segment_index() as int) - normalized(data, at).grapheme_index(),
    {
        match layout_next_line_range(data, at, W::infinity(), &data.profile) {
            Some((range, next)) => {
                width = width.max(range.width);
                if next.segment_index() >= count || at.segment_index() >= count {
                    return width;
                }
                proof {
                    lemma_stream_step(data, at, limit);
                }
                at = next;
            },
            None => {
                return width;
            },
        }
    }
}

/// Make the fragment that shows an item between two cursors.
fn make_fragment<W: Scalar>(
    item: &PreparedInlineItem<W>,
    gap: W,
    occupied: W,
    start: LayoutCursor,
    end: LayoutCursor,
    hyphen: bool,
) -> (r: InlineFlowFragment<W>)
    ensures
        r@ == fragment_of(item@, gap, occupied, start, end, hyphen),
{
    let text = materialize_line_text(
        item.prepared_with_segments.segments(),
        item.prepared_with_segments.data().kinds.as_slice(),
        start,
        end,
        hyphen,
    );
    InlineFlowFragment {
        item_index: item.source_item_index,
        text,
        gap_before: gap,
        occupied_width: occupied,
        start,
        end,
        ends_with_discretionary_hyphen: hyphen,
    }
}

/// Put a fragment of a breakable item on the line.
fn push_fragment<W: Scalar>(
    line: &mut LineFill<W>,
    gap: W,
    fragment: InlineFlowFragment<W>,
    item_index: usize,
    cursor: LayoutCursor,
) -> (r: Result<(), Error>)
    ensures
        match place_fragment(old(line)@, gap, fragment@, item_index as int, cursor) {
            Ok(filling) => r is Ok && final(line)@ == filling,
            Err(fault) => r matches Err(error) && reports_fault(error, fault),
        },
{
    let ghost before = line@;
    if let Err(error) = validate_inline_width("inline fragment width", fragment.occupied_width) {
        return Err(error);
    }
    let width = line.width.add(gap.add(fragment.occupied_width));
    if let Err(error) = validate_inline_width("inline line width", width) {
        return Err(error);
    }
    let ghost placed = fragment@;
    line.fragments.push(fragment);
    line.width = width;
    line.item_index = item_index;
    line.cursor = cursor;
    proof {
        assert(line@.fragments =~= before.fragments.push(placed));
    }
    Ok(())
}

/// Offer an atomic item to a line. Returns whether the line goes on.
fn offer_atomic<W: Scalar>(
    item: &PreparedInlineItem<W>,
    line: &mut LineFill<W>,
    gap: W,
    max_width: W,
) -> (r: Result<bool, Error>)
    requires
        old(line)@.item_index < usize::MAX,
    ensures
        filled_as(fill_atomic(item@, old(line)@, gap, max_width), final(line)@, r),
{
    let ghost before = line@;
    let needed = gap.add(item.natural_width).add(item.extra_width);
    if let Err(error) = validate_inline_width("atomic item width", needed) {
        return Err(error);
    }
    let width = line.width.add(needed);
    if let Err(error) = validate_inline_width("inline line width", width) {
        return Err(error);
    }
    if max_width.lt(width) && line.fragments.len() > 0 {
        // Wrap before this item
        return Ok(false);
    }
    let occupied = item.natural_width.add(item.extra_width);
    if let Err(error) = validate_inline_width("atomic fragment width", occupied) {
        return Err(error);
    }
    let start = LayoutCursor { segment_index: 0, grapheme_index: 0 };
    let end = LayoutCursor {
        segment_index: item.prepared_with_segments.data().segment_count(),
        grapheme_index: 0,
    };
    let fragment = make_fragment(item, gap, occupied, start, end, false);
    let ghost placed = fragment@;
    line.fragments.push(fragment);
    line.width = width;
    line.item_index = line.item_index + 1;
    line.cursor = start;
    proof {
        assert(line@.fragments =~= before.fragments.push(placed));
    }
    Ok(true)
}

/// Whether a line was filled as the model says, `Ok(true)` meaning that it goes
/// on.
spec fn filled_as<W: Scalar>(filled: Filled<W>, line: Filling<W>, r: Result<bool, Error>) -> bool {
    match filled {
        Filled::Placed(filling) => r == Ok::<bool, Error>(true) && line == filling,
        Filled::Full(filling) => r == Ok::<bool, Error>(false) && line == filling,
        Filled::Fault(fault) => r matches Err(error) && reports_fault(error, fault),
    }
}

/// Offer a breakable item to a line. Returns whether the line goes on.
fn offer_breakable<W: Scalar>(
    item: &PreparedInlineItem<W>,
    line: &mut LineFill<W>,
    gap: W,
    max_width: W,
) -> (r: Result<bool, Error>)
    requires
        old(line)@.item_index < usize::MAX,
    ensures
        filled_as(fill_breakable(item@, old(line)@, gap, max_width), final(line)@, r),
{
    let data = item.prepared_with_segments.data();
    let count = data.segment_count();
    let available = max_width.sub(line.width).sub(gap).sub(item.extra_width);
    if available.le(W::zero()) && line.fragments.len() > 0 {
        // No room -- wrap before this item
        return Ok(false);
    }
    let occupied = measure_remaining(item, line.cursor).add(item.extra_width);
    let item_index: usize = line.item_index;
    let start = line.cursor;
    let origin = LayoutCursor { segment_index: 0, grapheme_index: 0 };
    if occupied.le(available) {
        // Entire item fits on this line
        let end = LayoutCursor { segment_index: count, grapheme_index: 0 };
        let fragment = make_fragment(item, gap, occupied, start, end, false);
        return match push_fragment(line, gap, fragment, item_index + 1, origin) {
            Ok(()) => Ok(true),
            Err(error) => Err(error),
        };
    }
    if line.fragments.len() > 0 {
        // Doesn't fit -- wrap before this item
        return Ok(false);
    }
    // Partial fit -- find the break point; the line is full after it.
    let effective_max = available.max(W::zero());
    if let Some((range, next)) = layout_next_line_range(data, start, effective_max, &data.profile) {
        let fragment = make_fragment(
            item,
            gap,
            range.width.add(item.extra_width),
            range.start,
            range.end,
            range.ends_with_discretionary_hyphen,
        );
        let consumed = next.segment_index() >= count;
        return match push_fragment(
            line,
            gap,
            fragment,
            if consumed {
                item_index + 1
            } else {
                item_index
            },
            if consumed {
                origin
            } else {
                next
            },
        ) {
            Ok(()) => Ok(false),
            Err(error) => Err(error),
        };
    }
    Ok(false)
}

/// Whether a cursor stands at the start of an item, or at a place inside an item
/// that can be broken.
fn stands_in_item<W: Scalar>(item: &PreparedInlineItem<W>, cursor: LayoutCursor) -> (r: bool)
    ensures
        r == (cursor == cursor_at(0, 0) || {
            &&& item@.break_mode == BreakMode::Normal
            &&& cursor.segment_index() < item@.rich.data.count()
            &&& valid_cursor(&item@.rich.data, cursor)
        }),
{
    if cursor.segment_index() == 0 && cursor.grapheme_index() == 0 {
        return true;
    }
    let data = item.prepared_with_segments.data();
    if item.break_mode == BreakMode::Never || cursor.segment_index() >= data.segment_count() {
        return false;
    }
    is_valid_cursor(data, cursor)
}

/// Layout the next line of an inline flow.
///
/// Returns the line and the cursor for the next line, or `None` if done.
///
/// # Errors
///
/// Returns an error for invalid geometry or a cursor that does not belong to
/// this prepared flow.
pub fn layout_next_inline_flow_line<W: Scalar>(
    prepared: &PreparedInlineFlow<W>,
    max_width: W,
    start: InlineFlowCursor,
) -> (r: Result<Option<(InlineFlowLine<W>, InlineFlowCursor)>, Error>)
    ensures
        next_flow_line(prepared@, max_width, start, line_result(r)),
{
    if let Err(error) = validate_max_width(max_width) {
        return Err(error);
    }
    let count: usize = prepared.items.len();
    if start.item_index() > count {
        return Err(
            Error::InvalidCursor {
                context: "inline flow",
                segment_index: start.item_index(),
                grapheme_index: 0,
                segment_count: count,
            },
        );
    }
    if start.item_index() == count {
        if start.layout_cursor().segment_index() == 0 && start.layout_cursor().grapheme_index() == 0 {
            return Ok(None);
        }
        return Err(
            Error::InvalidCursor {
                context: "inline flow terminal item",
                segment_index: start.layout_cursor().segment_index(),
                grapheme_index: start.layout_cursor().grapheme_index(),
                segment_count: 0,
            },
        );
    }
    let ghost flow = prepared@;
    let item = &prepared.items[start.item_index()];
    proof {
        assert(flow[start.item_index() as int] == item@);
    }
    if !stands_in_item(item, start.layout_cursor()) {
        return Err(
            Error::InvalidCursor {
                context: "inline flow item",
                segment_index: start.layout_cursor().segment_index(),
                grapheme_index: start.layout_cursor().grapheme_index(),
                segment_count: item.prepared_with_segments.data().segment_count(),
            },
        );
    }
    let fragments: Vec<InlineFlowFragment<W>> = Vec::new();
    let mut line = LineFill {
        fragments,
        width: W::zero(),
        item_index: start.item_index(),
        cursor: start.layout_cursor(),
    };
    proof {
        assert(line@.fragments =~= Seq::empty());
    }
    let mut open = true;
    while open && line.item_index < prepared.items.len()
        invariant
            flow == prepared@,
            flow.len() == prepared.items@.len(),
            fill_line(flow, empty_filling(start), max_width) == if open {
                fill_line(flow, line@, max_width)
            } else {
                Ok(line@)
            },
            nonnegative(max_width),
            start.item_index() < flow.len(),
            valid_place(flow, start.item_index() as int, start.layout_cursor()),
        decreases (if open { 1int } else { 0int }), prepared.items@.len() - line.item_index,
    {
        let item = &prepared.items[line.item_index];
        proof {
            assert(flow[line@.item_index] == item@);
        }
        let gap = if line.fragments.len() == 0 {
            W::zero()
        } else {
            item.gap_before
        };
        let ghost before = line@;
        let offered = if item.break_mode == BreakMode::Never {
            offer_atomic(item, &mut line, gap, max_width)
        } else {
            offer_breakable(item, &mut line, gap, max_width)
        };
        match offered {
            Ok(goes_on) => {
                open = goes_on;
            },
            Err(error) => {
                return Err(error);
            },
        }
    }
    if line.fragments.len() == 0 {
        return Err(Error::StateUnavailable { state: "inline flow cursor progress" });
    }
    let next = InlineFlowCursor { item_index: line.item_index, layout_cursor: line.cursor };
    Ok(Some((InlineFlowLine { fragments: line.fragments, width: line.width }, next)))
}

/// A line and the cursor after it as values, or the error.
pub open spec fn line_result<W>(
    result: Result<Option<(InlineFlowLine<W>, InlineFlowCursor)>, Error>,
) -> Result<Option<(FlowLine<W>, InlineFlowCursor)>, Error> {
    match result {
        Ok(Some((line, next))) => Ok(Some((line@, next))),
        Ok(None) => Ok(None),
        Err(error) => Err(error),
    }
}

// ---- All lines ------------------------------------------------------------------------

pub proof fn lemma_fill_bounds<W: Scalar>(flow: Seq<FlowItem<W>>, line: Filling<W>, max_width: W)
    requires
        0 <= line.item_index <= flow.len(),
    ensures
        fill_line(flow, line, max_width) matches Ok(filled) ==> line.item_index
            <= filled.item_index <= flow.len(),
    decreases flow.len() - line.item_index,
{
    if line.item_index < flow.len() {
        if let Filled::Placed(longer) = fill_item(flow, line, max_width) {
            lemma_fill_bounds(flow, longer, max_width);
        }
    }
}

/// A flow always makes progress: the cursor after a line stands behind the
/// cursor that the line was asked for with, and inside the flow.
pub proof fn flow_advances<W: Scalar>(
    flow: Seq<FlowItem<W>>,
    max_width: W,
    start: InlineFlowCursor,
)
    requires
        start.item_index() < flow.len() <= usize::MAX,
    ensures
        fill_line(flow, empty_filling(start), max_width) matches Ok(line) ==> (
        line.fragments.len() > 0 ==> {
            &&& start.before(filled_cursor(line))
            &&& start.item_index() <= line.item_index <= flow.len()
            &&& line.item_index == start.item_index() ==> line.cursor.segment_index()
                < flow[line.item_index].rich.data.count()
        }),
{
    let first = empty_filling::<W>(start);
    lemma_fill_bounds(flow, first, max_width);
    match fill_item(flow, first, max_width) {
        Filled::Placed(longer) => {
            lemma_fill_bounds(flow, longer, max_width);
        },
        Filled::Full(full) => {
            let item = flow[first.item_index];
            let data = &item.rich.data;
            let available = max_width.minus(W::zero_value()).minus(W::zero_value()).minus(
                item.extra_width,
            );
            let limit = fit_limit(available.larger(W::zero_value()), data.profile);
            if start.layout_cursor().segment_index() < data.count() {
                assert(data.kinds.len() <= usize::MAX);
                streaming_advances(data, start.layout_cursor(), limit);
            }
        },
        Filled::Fault(fault) => {},
    }
}

/// A line that is filled from a place of the flow comes to a place of the flow.
proof fn lemma_filled_place<W: Scalar>(flow: Seq<FlowItem<W>>, line: Filling<W>, max_width: W)
    requires
        valid_place(flow, line.item_index, line.cursor),
        line.fragments.len() > 0 ==> line.cursor == cursor_at(0, 0),
    ensures
        fill_line(flow, line, max_width) matches Ok(filled) ==> valid_place(
            flow,
            filled.item_index,
            filled.cursor,
        ),
    decreases flow.len() - line.item_index,
{
    if line.item_index < flow.len() {
        let item = flow[line.item_index];
        let data = &item.rich.data;
        match fill_item(flow, line, max_width) {
            Filled::Placed(longer) => {
                lemma_filled_place(flow, longer, max_width);
            },
            Filled::Full(full) => {
                let available = max_width.minus(line.width).minus(W::zero_value()).minus(
                    item.extra_width,
                );
                let limit = fit_limit(available.larger(W::zero_value()), data.profile);
                assert(data.kinds.len() <= usize::MAX);
                if line.fragments.len() == 0 && line.cursor.segment_index() < data.count() {
                    lemma_next_cursor(data, line.cursor, limit);
                }
            },
            Filled::Fault(fault) => {},
        }
    }
}

/// Every cursor that a flow hands out is one of its places, so that no caller
/// who passes cursors on is refused.
pub proof fn flow_cursors_are_valid<W: Scalar>(
    flow: Seq<FlowItem<W>>,
    max_width: W,
    start: InlineFlowCursor,
    line: FlowLine<W>,
    next: InlineFlowCursor,
)
    requires
        flow.len() <= usize::MAX,
        next_flow_line(flow, max_width, start, Ok(Some((line, next)))),
    ensures
        valid_place(flow, next.item_index() as int, next.layout_cursor()),
{
    lemma_filled_place(flow, empty_filling(start), max_width);
    lemma_fill_bounds(flow, empty_filling(start), max_width);
}

/// The lines of a flow from a cursor on, or the width that is no measurement,
/// or nothing where the flow comes to no end.
pub open spec fn flow_lines<W: Scalar>(
    flow: Seq<FlowItem<W>>,
    max_width: W,
    cursor: InlineFlowCursor,
) -> Result<Seq<FlowLine<W>>, Option<WidthFault<W>>>
    decreases
        flow.len() - cursor.item_index(),
        flow[cursor.item_index() as int].rich.data.count() + 1 - cursor.layout_cursor().segment_index(),
        grapheme_count(
            &flow[cursor.item_index() as int].rich.data,
            cursor.layout_cursor().segment_index() as int,
        ) - normalized(
            &flow[cursor.item_index() as int].rich.data,
            cursor.layout_cursor(),
        ).grapheme_index(),
    when flow.len() <= usize::MAX
{
    if cursor.item_index() >= flow.len() {
        Ok(Seq::empty())
    } else {
        match fill_line(flow, empty_filling(cursor), max_width) {
            Err(fault) => Err(Some(fault)),
            Ok(line) => if line.fragments.len() == 0 {
                Err(None)
            } else {
                proof {
                    flow_advances(flow, max_width, cursor);
                    lemma_flow_step(flow, max_width, cursor);
                }
                match flow_lines(flow, max_width, filled_cursor(line)) {
                    Err(fault) => Err(fault),
                    Ok(rest) => Ok(
                        seq![FlowLine { fragments: line.fragments, width: line.width }] + rest,
                    ),
                }
            },
        }
    }
}

/// A line that ends inside the item that it started in leaves less of it.
pub proof fn lemma_flow_step<W: Scalar>(
    flow: Seq<FlowItem<W>>,
    max_width: W,
    start: InlineFlowCursor,
)
    requires
        start.item_index() < flow.len() <= usize::MAX,
    ensures
        fill_line(flow, empty_filling(start), max_width) matches Ok(line) ==> (
        line.fragments.len() > 0 && line.item_index == start.item_index() ==> {
            let data = &flow[start.item_index() as int].rich.data;
            let from = start.layout_cursor();
            &&& from.segment_index() <= line.cursor.segment_index() <= data.count() + 1
            &&& line.cursor.segment_index() == from.segment_index() ==> normalized(
                data,
                from,
            ).grapheme_index() < normalized(data, line.cursor).grapheme_index() <= grapheme_count(
                data,
                from.segment_index() as int,
            )
        }),
{
    let first = empty_filling::<W>(start);
    lemma_fill_bounds(flow, first, max_width);
    match fill_item(flow, first, max_width) {
        Filled::Placed(longer) => {
            lemma_fill_bounds(flow, longer, max_width);
        },
        Filled::Full(full) => {
            let item = flow[first.item_index];
            let data = &item.rich.data;
            let available = max_width.minus(W::zero_value()).minus(W::zero_value()).minus(
                item.extra_width,
            );
            let limit = fit_limit(available.larger(W::zero_value()), data.profile);
            if start.layout_cursor().segment_index() < data.count() {
                lemma_stream_step(data, start.layout_cursor(), limit);
            }
        },
        Filled::Fault(fault) => {},
    }
}

/// What laying out a whole flow gives.
pub open spec fn flow_outcome<W: Scalar>(
    flow: Seq<FlowItem<W>>,
    max_width: W,
    outcome: Result<Seq<FlowLine<W>>, Error>,
) -> bool {
    if !nonnegative(max_width) {
        outcome matches Err(error) && invalid_max_width(error)
    } else {
        match flow_lines(
            flow,
            max_width,
            InlineFlowCursor::at(0, cursor_at(0, 0)),
        ) {
            Ok(lines) => outcome == Ok::<Seq<FlowLine<W>>, Error>(lines),
            Err(Some(fault)) => outcome matches Err(error) && reports_fault(error, fault),
            Err(None) => outcome matches Err(error) && no_progress(error),
        }
    }
}

/// Lines as values, or the error.
pub open spec fn lines_result<W>(result: Result<Vec<InlineFlowLine<W>>, Error>) -> Result<
    Seq<FlowLine<W>>,
    Error,
> {
    match result {
        Ok(lines) => Ok(flow_lines_of(lines@)),
        Err(error) => Err(error),
    }
}

/// Layout all lines of an inline flow.
///
/// # Errors
///
/// Returns an error when `max_width` is invalid, or a derived width is no
/// measurement.
pub fn layout_inline_flow<W: Scalar>(prepared: &PreparedInlineFlow<W>, max_width: W) -> (r: Result<
    Vec<InlineFlowLine<W>>,
    Error,
>)
    ensures
        flow_outcome(prepared@, max_width, lines_result(r)),
{
    if let Err(error) = validate_max_width(max_width) {
        return Err(error);
    }
    let ghost flow = prepared@;
    let ghost all = flow_lines(
        flow,
        max_width,
        InlineFlowCursor::at(0, cursor_at(0, 0)),
    );
    let mut lines: Vec<InlineFlowLine<W>> = Vec::new();
    let mut cursor = InlineFlowCursor {
        item_index: 0,
        layout_cursor: LayoutCursor { segment_index: 0, grapheme_index: 0 },
    };
    proof {
        assert(flow.len() == prepared.items.len());
        assert(flow_lines_of(lines@) =~= Seq::empty());
        if let Ok(rest) = all {
            assert(Seq::<FlowLine<W>>::empty() + rest =~= rest);
        }
    }
    loop
        invariant
            flow == prepared@,
            flow.len() <= usize::MAX,
            nonnegative(max_width),
            all == flow_lines(
                flow,
                max_width,
                InlineFlowCursor::at(0, cursor_at(0, 0)),
            ),
            valid_place(flow, cursor.item_index() as int, cursor.layout_cursor()),
            all == match flow_lines(flow, max_width, cursor) {
                Ok(rest) => Ok::<Seq<FlowLine<W>>, Option<WidthFault<W>>>(
                    flow_lines_of(lines@) + rest,
                ),
                Err(fault) => Err(fault),
            },
        decreases
            flow.len() - cursor.item_index(),
            flow[cursor.item_index() as int].rich.data.count() + 1
                - cursor.layout_cursor().segment_index(),
            grapheme_count(
                &flow[cursor.item_index() as int].rich.data,
                cursor.layout_cursor().segment_index() as int,
            ) - normalized(
                &flow[cursor.item_index() as int].rich.data,
                cursor.layout_cursor(),
            ).grapheme_index(),
    {
        proof {
            if cursor.item_index() < flow.len() {
                flow_advances(flow, max_width, cursor);
                lemma_flow_step(flow, max_width, cursor);
                lemma_filled_place(flow, empty_filling(cursor), max_width);
            }
        }
        match layout_next_inline_flow_line(prepared, max_width, cursor) {
            Ok(Some((line, next))) => {
                let ghost before = flow_lines_of(lines@);
                let ghost shown = line@;
                lines.push(line);
                cursor = next;
                proof {
                    assert(flow_lines_of(lines@) =~= before.push(shown));
                    if let Ok(rest) = flow_lines(flow, max_width, next) {
                        assert(before + (seq![shown] + rest) =~= flow_lines_of(lines@) + rest);
                    }
                }
            },
            Ok(None) => {
                proof {
                    assert(flow_lines_of(lines@) + Seq::<FlowLine<W>>::empty() =~= flow_lines_of(
                        lines@,
                    ));
                }
                return Ok(lines);
            },
            Err(error) => {
                return Err(error);
            },
        }
    }
}

/// What the height of a flow comes to.
pub open spec fn flow_height_outcome<W: Scalar>(
    flow: Seq<FlowItem<W>>,
    max_width: W,
    line_height: W,
    outcome: Result<W, Error>,
) -> bool {
    if !positive(line_height) {
        outcome matches Err(error) && invalid_line_height(error)
    } else {
        match flow_lines(
            flow,
            max_width,
            InlineFlowCursor::at(0, cursor_at(0, 0)),
        ) {
            Ok(lines) if nonnegative(max_width) => {
                let height = W::ratio_value(lines.len(), 1).times(line_height);
                match outcome {
                    Ok(value) => height.finite() && value == height,
                    Err(error) => !height.finite() && error.rejects(
                        "inline flow height"@,
                        "derived value is not finite"@,
                    ),
                }
            },
            _ => outcome matches Err(error) && flow_outcome(flow, max_width, Err(error)),
        }
    }
}

/// Measure total height of an inline flow.
///
/// # Errors
///
/// Returns an error when layout geometry is invalid.
pub fn measure_inline_flow<W: Scalar>(
    prepared: &PreparedInlineFlow<W>,
    max_width: W,
    line_height: W,
) -> (r: Result<W, Error>)
    ensures
        flow_height_outcome(prepared@, max_width, line_height, r),
{
    if let Err(error) = validate_line_height(line_height) {
        return Err(error);
    }
    let lines = match layout_inline_flow(prepared, max_width) {
        Ok(lines) => lines,
        Err(error) => {
            return Err(error);
        },
    };
    let height = W::ratio(lines.len(), 1).mul(line_height);
    if height.is_finite() {
        Ok(height)
    } else {
        Err(Error::invalid_input("inline flow height", "derived value is not finite"))
    }
}

// ---- Source limits ----------------------------------------------------------------------

/// The size of the first `count` items in UTF-8.
pub open spec fn total_bytes<W>(items: Seq<InlineFlowItem<W>>, count: int) -> nat
    decreases count,
{
    if count <= 0 {
        0
    } else {
        total_bytes(items, count - 1) + byte_count(items[count - 1].text@) as nat
    }
}

/// The number of grapheme clusters of the first `count` items.
pub open spec fn total_clusters<W>(items: Seq<InlineFlowItem<W>>, count: int) -> nat
    decreases count,
{
    if count <= 0 {
        0
    } else {
        total_clusters(items, count - 1) + grapheme_clusters(items[count - 1].text@).len()
    }
}

/// Whether the totals over the first `count` items can be counted.
pub open spec fn countable<W>(items: Seq<InlineFlowItem<W>>, count: int) -> bool {
    total_bytes(items, count) <= usize::MAX && total_clusters(items, count) <= usize::MAX
}

/// Whether `error` says that the totals can no longer be counted at `index`.
pub open spec fn count_fault_at<W>(
    items: Seq<InlineFlowItem<W>>,
    index: int,
    error: Error,
) -> bool {
    &&& 0 <= index < items.len()
    &&& countable(items, index)
    &&& !countable(items, index + 1)
    &&& error matches Error::ArithmeticOverflow { operation } && operation@ == if total_bytes(
        items,
        index + 1,
    ) > usize::MAX {
        "counting inline-flow input bytes"@
    } else {
        "counting inline-flow graphemes"@
    }
}

/// Whether source items are within the limits.
pub open spec fn source_fits<W>(
    items: Seq<InlineFlowItem<W>>,
    options: InlineFlowOptions,
) -> bool {
    &&& items.len() <= options.max_items
    &&& countable(items, items.len() as int)
    &&& total_bytes(items, items.len() as int) <= options.max_input_bytes
    &&& total_clusters(items, items.len() as int) <= options.max_graphemes
}

/// Whether `error` rejects source items that are not within the limits.
pub open spec fn source_fault<W>(
    items: Seq<InlineFlowItem<W>>,
    options: InlineFlowOptions,
    error: Error,
) -> bool {
    let count = items.len() as int;
    if count > options.max_items {
        error.exceeds("inline-flow items"@, items.len(), options.max_items as nat)
    } else if !countable(items, count) {
        exists|index: int| #[trigger] count_fault_at(items, index, error)
    } else if total_bytes(items, count) > options.max_input_bytes {
        error == (Error::InputTooLarge {
            bytes: total_bytes(items, count) as usize,
            max_bytes: options.max_input_bytes,
        })
    } else {
        total_clusters(items, count) > options.max_graphemes && error.exceeds(
            "inline-flow graphemes"@,
            total_clusters(items, count),
            options.max_graphemes as nat,
        )
    }
}

proof fn lemma_countable<W>(items: Seq<InlineFlowItem<W>>, low: int, high: int)
    requires
        0 <= low <= high,
        countable(items, high),
    ensures
        countable(items, low),
    decreases high - low,
{
    if low < high {
        lemma_countable(items, low, high - 1);
    }
}

fn validate_inline_source_limits<W: Scalar>(
    items: &[InlineFlowItem<W>],
    options: &InlineFlowOptions,
) -> (r: Result<(), Error>)
    ensures
        match r {
            Ok(()) => source_fits(items@, *options),
            Err(error) => source_fault(items@, *options, error),
        },
{
    let count: usize = items.len();
    if count > options.max_items {
        return Err(
            Error::InputComplexity {
                resource: "inline-flow items",
                units: count,
                max_units: options.max_items,
            },
        );
    }
    let mut bytes: usize = 0;
    let mut clusters: usize = 0;
    let mut index: usize = 0;
    while index < count
        invariant
            index <= count == items@.len(),
            count <= options.max_items,
            bytes == total_bytes(items@, index as int),
            clusters == total_clusters(items@, index as int),
        decreases count - index,
    {
        let text = items[index].text.as_str();
        let item_clusters = graphemes(text);
        proof {
            assert(views(item_clusters@).len() == item_clusters@.len());
            if countable(items@, count as int) {
                lemma_countable(items@, index + 1, count as int);
            }
        }
        bytes = match bytes.checked_add(text.len()) {
            Some(total) => total,
            None => {
                let error = Error::ArithmeticOverflow {
                    operation: "counting inline-flow input bytes",
                };
                proof {
                    assert(count_fault_at(items@, index as int, error));
                }
                return Err(error);
            },
        };
        clusters = match clusters.checked_add(item_clusters.len()) {
            Some(total) => total,
            None => {
                let error = Error::ArithmeticOverflow {
                    operation: "counting inline-flow graphemes",
                };
                proof {
                    assert(count_fault_at(items@, index as int, error));
                }
                return Err(error);
            },
        };
        index += 1;
    }
    if bytes > options.max_input_bytes {
        return Err(Error::InputTooLarge { bytes, max_bytes: options.max_input_bytes });
    }
    if clusters > options.max_graphemes {
        return Err(
            Error::InputComplexity {
                resource: "inline-flow graphemes",
                units: clusters,
                max_units: options.max_graphemes,
            },
        );
    }
    Ok(())
}

// ---- Preparing --------------------------------------------------------------------------

/// The first index from `from` on that does not hold collapsible whitespace.
pub open spec fn skip_collapsible(text: Seq<char>, from: int) -> int
    decreases text.len() - from,
{
    if 0 <= from < text.len() && collapsible(text[from]) {
        skip_collapsible(text, from + 1)
    } else {
        from
    }
}

/// The end of a text without its trailing collapsible whitespace.
pub open spec fn collapsible_end(text: Seq<char>, from: int, to: int) -> int
    decreases to - from,
{
    if from < to <= text.len() && collapsible(text[to - 1]) {
        collapsible_end(text, from, to - 1)
    } else {
        to
    }
}

/// A text without collapsible whitespace at its ends.
pub open spec fn without_boundary_space(text: Seq<char>) -> Seq<char> {
    let start = skip_collapsible(text, 0);
    text.subrange(start, collapsible_end(text, start, text.len() as int))
}

/// Whether a text starts with collapsible whitespace.
pub open spec fn starts_with_space(text: Seq<char>) -> bool {
    text.len() > 0 && collapsible(text[0])
}

/// Whether a text ends with collapsible whitespace.
pub open spec fn ends_with_space(text: Seq<char>) -> bool {
    text.len() > 0 && collapsible(text.last())
}

/// What a reply on the width of a space is accepted as.
pub open spec fn gap_reply<W: Scalar>(reply: Result<W, Error>, outcome: Result<W, Error>) -> bool {
    match reply {
        Err(error) => outcome == Err::<W, Error>(error),
        Ok(width) => crate::backend::validated("inline flow gap"@, width, outcome),
    }
}

/// Whether `outcome` is what a backend may make of a space between items.
pub open spec fn space_outcome<W: Scalar, B: MeasureBackend<W>>(
    backend: &B,
    font: FontView<W>,
    outcome: Result<W, Error>,
) -> bool {
    exists|reply: Result<W, Error>| #[trigger]
        backend.may_measure_space(font, reply) && gap_reply(reply, outcome)
}

/// Whether `outcome` may be the gap before an item: the space that the items
/// before it left, or the one that it starts with.
pub open spec fn gap_outcome<W: Scalar, B: MeasureBackend<W>>(
    backend: &B,
    font: FontView<W>,
    pending: W,
    leading: bool,
    outcome: Result<W, Error>,
) -> bool {
    if W::zero_value().below(pending) {
        outcome == Ok::<W, Error>(pending)
    } else if leading {
        space_outcome(backend, font, outcome)
    } else {
        outcome == Ok::<W, Error>(W::zero_value())
    }
}

/// The limits for an item where so many segments are taken.
pub open spec fn item_options<W: Scalar>(options: InlineFlowOptions, used: nat) -> PrepareOptions<
    W,
> {
    PrepareOptions {
        white_space: WhiteSpaceMode::Normal,
        profile: None,
        max_input_bytes: options.max_input_bytes,
        max_graphemes: options.max_graphemes,
        max_segments: if used <= options.max_segments {
            (options.max_segments - used) as usize
        } else {
            0
        },
    }
}

/// Whether `outcome` is what preparing a text with its segments may give.
pub open spec fn rich_outcome<W: Scalar, B: MeasureBackend<W>>(
    backend: &B,
    text: Seq<char>,
    font: FontView<W>,
    options: PrepareOptions<W>,
    outcome: Result<RichText<W>, Error>,
) -> bool {
    match outcome {
        Ok(rich) => {
            &&& prepare_outcome(text, font, backend, options, Ok(rich.data))
            &&& rich.segments == texts_of(analyzed(text, options.white_space))
            &&& rich.seg_levels == segment_levels(rich.segments)
            &&& aligned(rich)
        },
        Err(error) => prepare_outcome(text, font, backend, options, Err(error)),
    }
}

/// The largest line width, at least zero.
pub open spec fn largest_width<W: Scalar>(lines: Seq<InternalLine<W>>) -> W
    decreases lines.len(),
{
    if lines.len() == 0 {
        W::zero_value()
    } else {
        largest_width(lines.drop_last()).larger(lines.last().width)
    }
}

/// The width of a text at no width limit.
pub open spec fn natural_width_of<W: Scalar>(data: &PreparedData<W>) -> W {
    largest_width(walked_lines(data, fit_limit(W::infinite_value(), data.profile)))
}

/// What one source item comes to: the prepared item, unless the item is blank,
/// the space that it leaves for the next, and the segments taken so far.
pub struct ItemStep<W> {
    pub item: Option<FlowItem<W>>,
    pub pending: W,
    pub used: nat,
}

/// Whether a value is zero.
pub open spec fn is_zero<W: Scalar>(value: W) -> bool {
    value.at_most(W::zero_value()) && W::zero_value().at_most(value)
}

/// What a blank item comes to: it is the space between its neighbors, and
/// cannot carry anything else.
pub open spec fn blank_step<W: Scalar, B: MeasureBackend<W>>(
    backend: &B,
    item: InlineFlowItem<W>,
    pending: W,
    used: nat,
    step: Result<ItemStep<W>, Error>,
) -> bool {
    if W::zero_value().below(item.extra_width) || item.break_mode != BreakMode::Normal {
        step matches Err(error) && error.rejects(
            "empty inline item"@,
            "empty or whitespace-only items cannot carry chrome width or atomic break behavior"@,
        )
    } else if item.text@.len() > 0 && is_zero(pending) {
        match step {
            Ok(next) => {
                &&& next.item is None && next.used == used
                &&& space_outcome(backend, item.font@, Ok(next.pending))
            },
            Err(error) => space_outcome(backend, item.font@, Err(error)),
        }
    } else {
        step == Ok::<ItemStep<W>, Error>(ItemStep { item: None, pending, used })
    }
}

/// Whether a prepared item may come of a source item.
pub open spec fn item_prepared<W: Scalar, B: MeasureBackend<W>>(
    backend: &B,
    item: InlineFlowItem<W>,
    index: int,
    options: InlineFlowOptions,
    pending: W,
    used: nat,
    prepared: FlowItem<W>,
) -> bool {
    &&& prepared.source_item_index == index
    &&& prepared.extra_width == item.extra_width
    &&& prepared.break_mode == item.break_mode
    &&& gap_outcome(
        backend,
        item.font@,
        pending,
        starts_with_space(item.text@),
        Ok(prepared.gap_before),
    )
    &&& rich_outcome(
        backend,
        without_boundary_space(item.text@),
        item.font@,
        item_options(options, used),
        Ok(prepared.rich),
    )
    &&& prepared.natural_width == natural_width_of(&prepared.rich.data)
}

/// What an item with text comes to. It may fail at the gap before it, at its
/// text, at the segments that it takes, or at the space after it.
pub open spec fn text_step<W: Scalar, B: MeasureBackend<W>>(
    backend: &B,
    item: InlineFlowItem<W>,
    index: int,
    options: InlineFlowOptions,
    pending: W,
    used: nat,
    step: Result<ItemStep<W>, Error>,
) -> bool {
    let text = without_boundary_space(item.text@);
    match step {
        Ok(next) => {
            &&& next.item matches Some(prepared) && {
                &&& item_prepared(backend, item, index, options, pending, used, prepared)
                &&& next.used == used + prepared.rich.data.count()
                &&& next.used <= options.max_segments
                &&& if ends_with_space(item.text@) {
                    space_outcome(backend, item.font@, Ok(next.pending))
                } else {
                    next.pending == W::zero_value()
                }
            }
        },
        Err(error) => {
            ||| gap_outcome(
                backend,
                item.font@,
                pending,
                starts_with_space(item.text@),
                Err(error),
            )
            ||| {
                &&& exists|gap: W| #[trigger]
                    gap_outcome(
                        backend,
                        item.font@,
                        pending,
                        starts_with_space(item.text@),
                        Ok(gap),
                    )
                &&& rich_outcome(
                    backend,
                    text,
                    item.font@,
                    item_options(options, used),
                    Err::<RichText<W>, Error>(error),
                )
            }
            ||| {
                &&& exists|prepared: FlowItem<W>| #[trigger]
                    item_prepared(backend, item, index, options, pending, used, prepared)
                &&& ends_with_space(item.text@) && space_outcome(backend, item.font@, Err(error))
            }
        },
    }
}

/// What a source item comes to.
pub open spec fn item_step<W: Scalar, B: MeasureBackend<W>>(
    backend: &B,
    item: InlineFlowItem<W>,
    index: int,
    options: InlineFlowOptions,
    pending: W,
    used: nat,
    step: Result<ItemStep<W>, Error>,
) -> bool {
    if !is_measure(item.extra_width) {
        step matches Err(error) && error.rejects(
            "inline item extra_width"@,
            "must be finite and non-negative"@,
        )
    } else if without_boundary_space(item.text@).len() == 0 {
        blank_step(backend, item, pending, used, step)
    } else {
        text_step(backend, item, index, options, pending, used, step)
    }
}

/// The flow behind its first item, where that item is `first`.
pub open spec fn rest_behind<W>(
    first: Option<FlowItem<W>>,
    outcome: Result<Seq<FlowItem<W>>, Error>,
) -> Option<Result<Seq<FlowItem<W>>, Error>> {
    match outcome {
        Err(error) => Some(Err(error)),
        Ok(list) => match first {
            None => Some(Ok(list)),
            Some(item) => if list.len() > 0 && list[0] == item {
                Some(Ok(list.drop_first()))
            } else {
                None
            },
        },
    }
}

/// Whether `outcome` is what preparing the items from `index` on may give,
/// where the items before left the space `pending` and took `used` segments.
pub open spec fn items_outcome<W: Scalar, B: MeasureBackend<W>>(
    backend: &B,
    items: Seq<InlineFlowItem<W>>,
    index: int,
    options: InlineFlowOptions,
    pending: W,
    used: nat,
    outcome: Result<Seq<FlowItem<W>>, Error>,
) -> bool
    decreases items.len() - index,
{
    if index >= items.len() {
        outcome == Ok::<Seq<FlowItem<W>>, Error>(Seq::empty())
    } else {
        exists|step: Result<ItemStep<W>, Error>|
            {
                &&& #[trigger] item_step(
                    backend,
                    items[index],
                    index,
                    options,
                    pending,
                    used,
                    step,
                )
                &&& match step {
                    Err(error) => outcome == Err::<Seq<FlowItem<W>>, Error>(error),
                    Ok(next) => rest_behind(next.item, outcome) matches Some(rest) && items_outcome(
                        backend,
                        items,
                        index + 1,
                        options,
                        next.pending,
                        next.used,
                        rest,
                    ),
                }
            }
    }
}

/// What preparing a flow may give.
pub open spec fn flow_prepared<W: Scalar, B: MeasureBackend<W>>(
    backend: &B,
    items: Seq<InlineFlowItem<W>>,
    options: InlineFlowOptions,
    outcome: Result<Seq<FlowItem<W>>, Error>,
) -> bool {
    if source_fits(items, options) {
        items_outcome(backend, items, 0, options, W::zero_value(), 0, outcome)
    } else {
        outcome matches Err(error) && source_fault(items, options, error)
    }
}

/// Measure the space between items.
fn validated_space_width<W: Scalar, B: MeasureBackend<W>>(backend: &B, font: &FontSpec<W>) -> (r:
    Result<W, Error>)
    ensures
        space_outcome(backend, font@, r),
{
    let reply = backend.measure_space_width(font);
    proof {
        assert(backend.may_measure_space(font@, reply));
    }
    accept_gap(reply)
}

/// Take the gap between items from the width of a space.
pub fn accept_gap<W: Scalar>(reply: Result<W, Error>) -> (r: Result<W, Error>)
    ensures
        gap_reply(reply, r),
{
    match reply {
        Err(error) => Err(error),
        Ok(width) => crate::backend::validate_metric("inline flow gap", width),
    }
}

fn is_collapsible_boundary_whitespace(character: char) -> (r: bool)
    ensures
        r == collapsible(character),
{
    matches!(character, ' ' | '\t' | '\n' | '\u{000C}' | '\r')
}

/// Take collapsible whitespace off both ends.
fn trim_boundary_space(chars: &Vec<char>) -> (r: String)
    ensures
        r@ == without_boundary_space(chars@),
{
    let mut start: usize = 0;
    while start < chars.len() && is_collapsible_boundary_whitespace(chars[start])
        invariant
            start <= chars@.len(),
            skip_collapsible(chars@, 0) == skip_collapsible(chars@, start as int),
        decreases chars@.len() - start,
    {
        start += 1;
    }
    let mut end: usize = chars.len();
    while end > start && is_collapsible_boundary_whitespace(chars[end - 1])
        invariant
            start <= end <= chars@.len(),
            collapsible_end(chars@, start as int, chars@.len() as int) == collapsible_end(
                chars@,
                start as int,
                end as int,
            ),
        decreases end,
    {
        end -= 1;
    }
    string_of(chars, start, end)
}

/// The width of a text at no width limit.
fn measure_natural_width_data<W: Scalar>(data: &PreparedData<W>) -> (r: W)
    ensures
        r == natural_width_of(data),
{
    let lines = walk_lines(data, W::infinity(), &data.profile);
    let mut width = W::zero();
    let mut index: usize = 0;
    proof {
        assert(lines@.take(0) =~= Seq::empty());
    }
    while index < lines.len()
        invariant
            index <= lines@.len(),
            width == largest_width(lines@.take(index as int)),
        decreases lines@.len() - index,
    {
        proof {
            assert(lines@.take(index + 1).drop_last() =~= lines@.take(index as int));
        }
        width = width.max(lines[index].width);
        index += 1;
    }
    proof {
        assert(lines@.take(index as int) =~= lines@);
    }
    width
}

/// What one source item came to.
struct PreparedStep<W> {
    item: Option<PreparedInlineItem<W>>,
    pending: W,
    used: usize,
}

impl<W> PreparedStep<W> {
    closed spec fn value(&self) -> ItemStep<W> {
        ItemStep {
            item: match self.item {
                Some(item) => Some(item@),
                None => None,
            },
            pending: self.pending,
            used: self.used as nat,
        }
    }
}

spec fn step_result<W>(result: Result<PreparedStep<W>, Error>) -> Result<ItemStep<W>, Error> {
    match result {
        Ok(step) => Ok(step.value()),
        Err(error) => Err(error),
    }
}

/// Prepare one source item.
fn prepare_item<W: Scalar, B: MeasureBackend<W>>(
    backend: &B,
    item: &InlineFlowItem<W>,
    index: usize,
    options: &InlineFlowOptions,
    pending: W,
    used: usize,
) -> (r: Result<PreparedStep<W>, Error>)
    requires
        used <= options.max_segments,
    ensures
        item_step(backend, *item, index as int, *options, pending, used as nat, step_result(r)),
        r matches Ok(step) ==> step.used <= options.max_segments,
{
    if !(item.extra_width.is_finite() && W::zero().le(item.extra_width)) {
        return Err(
            Error::invalid_input("inline item extra_width", "must be finite and non-negative"),
        );
    }
    let chars = chars_of(item.text.as_str());
    let text = trim_boundary_space(&chars);
    if text.as_str().is_empty() {
        if W::zero().lt(item.extra_width) || item.break_mode != BreakMode::Normal {
            return Err(
                Error::invalid_input(
                    "empty inline item",
                    "empty or whitespace-only items cannot carry chrome width or atomic break behavior",
                ),
            );
        }
        if chars.len() > 0 && pending.le(W::zero()) && W::zero().le(pending) {
            return match validated_space_width(backend, &item.font) {
                Ok(width) => Ok(PreparedStep { item: None, pending: width, used }),
                Err(error) => Err(error),
            };
        }
        return Ok(PreparedStep { item: None, pending, used });
    }
    let leading = chars.len() > 0 && is_collapsible_boundary_whitespace(chars[0]);
    let trailing = chars.len() > 0 && is_collapsible_boundary_whitespace(chars[chars.len() - 1]);
    let gap = if W::zero().lt(pending) {
        Ok(pending)
    } else if leading {
        validated_space_width(backend, &item.font)
    } else {
        Ok(W::zero())
    };
    let gap_before = match gap {
        Ok(width) => width,
        Err(error) => {
            return Err(error);
        },
    };
    proof {
        assert(gap_outcome(
            backend,
            item.font@,
            pending,
            starts_with_space(item.text@),
            Ok(gap_before),
        ));
    }
    let item_limits = PrepareOptions {
        white_space: WhiteSpaceMode::Normal,
        profile: None,
        max_input_bytes: options.max_input_bytes,
        max_graphemes: options.max_graphemes,
        max_segments: options.max_segments - used,
    };
    let prepared = match prepare_with_segments(text.as_str(), &item.font, backend, item_limits) {
        Ok(prepared) => prepared,
        Err(error) => {
            return Err(error);
        },
    };
    let count = prepared.data().segment_count();
    let natural_width = measure_natural_width_data(prepared.data());
    let prepared_item = PreparedInlineItem {
        source_item_index: index,
        prepared_with_segments: prepared,
        natural_width,
        extra_width: item.extra_width,
        break_mode: item.break_mode,
        gap_before,
    };
    proof {
        assert(item_prepared(
            backend,
            *item,
            index as int,
            *options,
            pending,
            used as nat,
            prepared_item@,
        ));
    }
    let left = if trailing {
        match validated_space_width(backend, &item.font) {
            Ok(width) => width,
            Err(error) => {
                return Err(error);
            },
        }
    } else {
        W::zero()
    };
    Ok(PreparedStep { item: Some(prepared_item), pending: left, used: used + count })
}

/// A flow behind items that are done.
spec fn behind<W>(done: Seq<FlowItem<W>>, rest: Result<Seq<FlowItem<W>>, Error>) -> Result<
    Seq<FlowItem<W>>,
    Error,
> {
    match rest {
        Ok(list) => Ok(done + list),
        Err(error) => Err(error),
    }
}

/// Prepare an inline flow with aggregate resource limits.
///
/// Validation of item count, total bytes, and total graphemes happens before
/// any backend measurement. Segment capacity is charged as each bounded item
/// is analyzed.
///
/// # Errors
///
/// Returns an error when aggregate limits are exceeded, an item has invalid
/// geometry, or the backend cannot measure required text.
pub fn prepare_inline_flow_with_options<W: Scalar, B: MeasureBackend<W>>(
    items: &[InlineFlowItem<W>],
    backend: &B,
    options: InlineFlowOptions,
) -> (r: Result<PreparedInlineFlow<W>, Error>)
    ensures
        flow_prepared(backend, items@, options, flow_result(r)),
{
    if let Err(error) = validate_inline_source_limits(items, &options) {
        return Err(error);
    }
    let mut prepared: Vec<PreparedInlineItem<W>> = Vec::new();
    let mut pending = W::zero();
    let mut used: usize = 0;
    let mut index: usize = 0;
    let ghost mut done: Seq<FlowItem<W>> = Seq::empty();
    proof {
        assert(done =~= prepared@.map_values(|item: PreparedInlineItem<W>| item@));
        assert forall|rest: Result<Seq<FlowItem<W>>, Error>| #[trigger]
            items_outcome(
                backend,
                items@,
                0,
                options,
                pending,
                0,
                rest,
            ) implies items_outcome(
            backend,
            items@,
            0,
            options,
            W::zero_value(),
            0,
            behind(done, rest),
        ) by {
            if let Ok(list) = rest {
                assert(done + list =~= list);
            }
        }
    }
    while index < items.len()
        invariant
            index <= items@.len(),
            source_fits(items@, options),
            used <= options.max_segments,
            done == prepared@.map_values(|item: PreparedInlineItem<W>| item@),
            forall|rest: Result<Seq<FlowItem<W>>, Error>| #[trigger]
                items_outcome(
                    backend,
                    items@,
                    index as int,
                    options,
                    pending,
                    used as nat,
                    rest,
                ) ==> items_outcome(
                    backend,
                    items@,
                    0,
                    options,
                    W::zero_value(),
                    0,
                    behind(done, rest),
                ),
        decreases items@.len() - index,
    {
        let ghost before = done;
        let ghost old_pending = pending;
        let ghost old_used = used as nat;
        let result = prepare_item(backend, &items[index], index, &options, pending, used);
        let ghost step = step_result(result);
        let step_done = match result {
            Ok(step_done) => step_done,
            Err(error) => {
                proof {
                    let rest = Err::<Seq<FlowItem<W>>, Error>(error);
                    assert(items_outcome(
                        backend,
                        items@,
                        index as int,
                        options,
                        pending,
                        used as nat,
                        rest,
                    ));
                    assert(items_outcome(
                        backend,
                        items@,
                        0,
                        options,
                        W::zero_value(),
                        0,
                        behind(done, rest),
                    ));
                }
                return Err(error);
            },
        };
        let ghost next = step_done.value();
        pending = step_done.pending;
        used = step_done.used;
        match step_done.item {
            Some(item) => {
                proof {
                    done = done.push(item@);
                }
                prepared.push(item);
                proof {
                    assert(done =~= prepared@.map_values(|item: PreparedInlineItem<W>| item@));
                }
            },
            None => {},
        }
        proof {
            assert forall|rest: Result<Seq<FlowItem<W>>, Error>| #[trigger]
                items_outcome(
                    backend,
                    items@,
                    index + 1,
                    options,
                    pending,
                    used as nat,
                    rest,
                ) implies items_outcome(
                backend,
                items@,
                0,
                options,
                W::zero_value(),
                0,
                behind(done, rest),
            ) by {
                let longer = match rest {
                    Err(error) => Err::<Seq<FlowItem<W>>, Error>(error),
                    Ok(list) => Ok(
                        match next.item {
                            Some(item) => seq![item] + list,
                            None => list,
                        },
                    ),
                };
                if let Ok(list) = rest {
                    if let Some(item) = next.item {
                        assert((seq![item] + list).drop_first() =~= list);
                    }
                }
                assert(rest_behind(next.item, longer) == Some(rest));
                assert(item_step(
                    backend,
                    items@[index as int],
                    index as int,
                    options,
                    old_pending,
                    old_used,
                    step,
                ));
                assert(items_outcome(
                    backend,
                    items@,
                    index as int,
                    options,
                    old_pending,
                    old_used,
                    longer,
                ));
                if let Ok(list) = rest {
                    match next.item {
                        Some(item) => {
                            assert(before + (seq![item] + list) =~= done + list);
                        },
                        None => {},
                    }
                }
                assert(behind(before, longer) == behind(done, rest));
            }
        }
        index += 1;
    }
    proof {
        let rest = Ok::<Seq<FlowItem<W>>, Error>(Seq::empty());
        assert(items_outcome(
            backend,
            items@,
            index as int,
            options,
            pending,
            used as nat,
            rest,
        ));
        assert(done + Seq::<FlowItem<W>>::empty() =~= done);
        assert(behind(done, rest) == Ok::<Seq<FlowItem<W>>, Error>(done));
    }
    Ok(PreparedInlineFlow { items: prepared })
}

/// A prepared flow as a value, or the error.
pub open spec fn flow_result<W>(result: Result<PreparedInlineFlow<W>, Error>) -> Result<
    Seq<FlowItem<W>>,
    Error,
> {
    match result {
        Ok(flow) => Ok(flow@),
        Err(error) => Err(error),
    }
}

/// Prepare an inline flow for layout.
///
/// # Errors
///
/// Returns an error when an item has invalid geometry, exceeds the configured
/// text limit, or cannot be measured by the selected backend.
pub fn prepare_inline_flow<W: Scalar, B: MeasureBackend<W>>(
    items: &[InlineFlowItem<W>],
    backend: &B,
) -> (r: Result<PreparedInlineFlow<W>, Error>)
    ensures
        flow_prepared(backend, items@, default_flow_options(), flow_result(r)),
{
    prepare_inline_flow_with_options(
        items,
        backend,
        InlineFlowOptions {
            max_items: DEFAULT_MAX_INLINE_ITEMS,
            max_input_bytes: DEFAULT_MAX_INPUT_BYTES,
            max_graphemes: DEFAULT_MAX_GRAPHEMES,
            max_segments: DEFAULT_MAX_SEGMENTS,
        },
    )
}

} // verus!
