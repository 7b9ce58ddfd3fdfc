//! What holds of an inline flow when it is prepared: its items are the source
//! items that hold text, trimmed, and between two of them there is the gap of
//! one space exactly where whitespace stood.
use crate::analysis::{analyzed, texts_of};
use crate::analysis_laws::between_words;
use crate::backend::MeasureBackend;
use crate::error::Error;
use crate::inline_flow::{
    collapsible_end, flow_prepared, item_options, item_step, items_outcome, natural_width_of,
    rest_behind, skip_collapsible, space_outcome, without_boundary_space, FlowItem, InlineFlowItem,
    InlineFlowOptions, ItemStep,
};
use crate::prepare::prepare_outcome;
use crate::scalar::{nonnegative, ordered_arithmetic, Scalar};
use crate::types::{PrepareOptions, WhiteSpaceMode};
use vstd::prelude::*;

verus! {

// ---- Trimming -----------------------------------------------------------------------------------

/// Whether a text is blank: nothing but whitespace that collapses.
pub open spec fn is_blank(text: Seq<char>) -> bool {
    forall|i: int| 0 <= i < text.len() ==> between_words()(#[trigger] text[i])
}

/// Whether `inner` is a text without the whitespace at its ends.
pub open spec fn is_trimmed_of(text: Seq<char>, inner: Seq<char>) -> bool {
    exists|from: int, to: int|
        {
            &&& 0 <= from <= to <= text.len()
            &&& inner == #[trigger] text.subrange(from, to)
            &&& forall|i: int| 0 <= i < from ==> between_words()(#[trigger] text[i])
            &&& forall|i: int| to <= i < text.len() ==> between_words()(#[trigger] text[i])
            &&& from < to ==> !between_words()(text[from]) && !between_words()(text[to - 1])
            &&& from == to ==> is_blank(text)
        }
}

proof fn lemma_skip(text: Seq<char>, from: int)
    requires
        0 <= from <= text.len(),
    ensures
        from <= skip_collapsible(text, from) <= text.len(),
        forall|i: int|
            from <= i < skip_collapsible(text, from) ==> between_words()(#[trigger] text[i]),
        skip_collapsible(text, from) < text.len() ==> !between_words()(
            text[skip_collapsible(text, from)],
        ),
    decreases text.len() - from,
{
    if from < text.len() && between_words()(text[from]) {
        lemma_skip(text, from + 1);
    }
}

proof fn lemma_end(text: Seq<char>, from: int, to: int)
    requires
        0 <= from <= to <= text.len(),
    ensures
        from <= collapsible_end(text, from, to) <= to,
        forall|i: int|
            collapsible_end(text, from, to) <= i < to ==> between_words()(#[trigger] text[i]),
        from < collapsible_end(text, from, to) ==> !between_words()(
            text[collapsible_end(text, from, to) - 1],
        ),
    decreases to - from,
{
    if from < to && between_words()(text[to - 1]) {
        lemma_end(text, from, to - 1);
    }
}

/// The text of an item is trimmed: the whitespace at its ends is gone, and
/// nothing else is.
pub proof fn item_text_is_trimmed(text: Seq<char>)
    ensures
        is_trimmed_of(text, without_boundary_space(text)),
        without_boundary_space(text).len() == 0 <==> is_blank(text),
{
    let from = skip_collapsible(text, 0);
    lemma_skip(text, 0);
    let to = collapsible_end(text, from, text.len() as int);
    lemma_end(text, from, text.len() as int);
    assert(without_boundary_space(text) == text.subrange(from, to));
    if from == to {
        assert forall|i: int| 0 <= i < text.len() implies between_words()(#[trigger] text[i]) by {}
    }
}

// ---- Gaps ---------------------------------------------------------------------------------------

/// Whether whitespace stands between source item `before` and the start of
/// item `at`, where the items between them are blank. Before the first item
/// there is `-1`.
pub open spec fn space_before<W>(items: Seq<InlineFlowItem<W>>, before: int, at: int) -> bool {
    ||| before >= 0 && items[before].text@.len() > 0 && between_words()(items[before].text@.last())
    ||| exists|j: int| before < j < at && (#[trigger] items[j]).text@.len() > 0
}

/// Whether a width is that of a space in the font of one of the items from
/// `before` to `at`.
pub open spec fn is_space_of<W: Scalar, B: MeasureBackend<W>>(
    backend: &B,
    items: Seq<InlineFlowItem<W>>,
    before: int,
    at: int,
    width: W,
) -> bool {
    exists|j: int|
        before <= j <= at && 0 <= j < items.len() && #[trigger] space_outcome(
            backend,
            items[j].font@,
            Ok(width),
        )
}

/// Whether a gap before item `at` is right: none where no whitespace stood
/// between it and item `before`, and one space where some did, however much it
/// was, unless a space has no width.
pub open spec fn gap_is_right<W: Scalar, B: MeasureBackend<W>>(
    backend: &B,
    items: Seq<InlineFlowItem<W>>,
    before: int,
    at: int,
    gap: W,
) -> bool {
    if space_before(items, before, at) || items[at].text@.len() > 0 && between_words()(
        items[at].text@[0],
    ) {
        ||| is_space_of(backend, items, before, at, gap)
        ||| gap == W::zero_value() && exists|space: W| #[trigger]
            is_space_of(backend, items, before, at, space) && !W::zero_value().below(space)
    } else {
        gap == W::zero_value()
    }
}

/// Whether a prepared item is its source item: its segments are those of the
/// trimmed text, measured in its font, and it is as wide as they are without any
/// limit.
pub open spec fn shows_its_source<W: Scalar, B: MeasureBackend<W>>(
    backend: &B,
    source: InlineFlowItem<W>,
    item: FlowItem<W>,
) -> bool {
    exists|inner: Seq<char>, options: PrepareOptions<W>|
        {
            &&& is_trimmed_of(source.text@, inner)
            &&& options.white_space == WhiteSpaceMode::Normal
            &&& #[trigger] prepare_outcome(
                inner,
                source.font@,
                backend,
                options,
                Ok(item.rich.data),
            )
            &&& item.rich.segments == texts_of(analyzed(inner, WhiteSpaceMode::Normal))
            &&& item.natural_width == natural_width_of(&item.rich.data)
        }
}

/// Whether prepared items are those that source items from `index` on give,
/// behind source item `before`.
pub open spec fn is_flow_of<W: Scalar, B: MeasureBackend<W>>(
    backend: &B,
    items: Seq<InlineFlowItem<W>>,
    before: int,
    index: int,
    flow: Seq<FlowItem<W>>,
) -> bool
    decreases flow.len(),
{
    if flow.len() == 0 {
        forall|j: int| index <= j < items.len() ==> is_blank((#[trigger] items[j]).text@)
    } else {
        let first = flow[0];
        let at = first.source_item_index as int;
        &&& index <= at < items.len()
        &&& forall|j: int| index <= j < at ==> is_blank((#[trigger] items[j]).text@)
        &&& !is_blank(items[at].text@)
        &&& first.extra_width == items[at].extra_width
        &&& first.break_mode == items[at].break_mode
        &&& gap_is_right(backend, items, before, at, first.gap_before)
        &&& shows_its_source(backend, items[at], first)
        &&& is_flow_of(backend, items, at, at + 1, flow.skip(1))
    }
}

/// What is known of the space that items left: nothing where no whitespace
/// stood behind item `before`, and a measured space where some did.
spec fn pending_is_right<W: Scalar, B: MeasureBackend<W>>(
    backend: &B,
    items: Seq<InlineFlowItem<W>>,
    before: int,
    index: int,
    pending: W,
) -> bool {
    if space_before(items, before, index) {
        is_space_of(backend, items, before, index - 1, pending)
    } else {
        pending == W::zero_value()
    }
}

proof fn lemma_space_stays<W: Scalar, B: MeasureBackend<W>>(
    backend: &B,
    items: Seq<InlineFlowItem<W>>,
    before: int,
    at: int,
    later: int,
    width: W,
)
    requires
        at <= later,
        is_space_of(backend, items, before, at, width),
    ensures
        is_space_of(backend, items, before, later, width),
{
    let j = choose|j: int|
        before <= j <= at && 0 <= j < items.len() && #[trigger] space_outcome(
            backend,
            items[j].font@,
            Ok(width),
        );
    assert(space_outcome(backend, items[j].font@, Ok(width)));
}

#[verifier::rlimit(40)]
proof fn lemma_items<W: Scalar, B: MeasureBackend<W>>(
    backend: &B,
    items: Seq<InlineFlowItem<W>>,
    before: int,
    index: int,
    from: int,
    options: InlineFlowOptions,
    pending: W,
    used: nat,
    flow: Seq<FlowItem<W>>,
)
    requires
        ordered_arithmetic::<W>(),
        items.len() <= usize::MAX,
        -1 <= before < from <= index <= items.len(),
        forall|j: int| from <= j < index ==> is_blank((#[trigger] items[j]).text@),
        from == before + 1,
        pending_is_right(backend, items, before, index, pending),
        items_outcome(backend, items, index, options, pending, used, Ok(flow)),
    ensures
        is_flow_of(backend, items, before, from, flow),
    decreases items.len() - index,
{
    let zero = W::zero_value();
    assert(nonnegative(zero) && zero.at_most(zero));
    assert(zero.below(zero) == !zero.at_most(zero));
    if index < items.len() {
        let item = items[index];
        item_text_is_trimmed(item.text@);
        let outcome = Ok::<Seq<FlowItem<W>>, Error>(flow);
        let step = choose|step: Result<ItemStep<W>, Error>|
            {
                &&& #[trigger] item_step(backend, item, index, options, pending, used, step)
                &&& match step {
                    Err(error) => outcome == Err::<Seq<FlowItem<W>>, Error>(error),
                    Ok(next) => rest_behind(next.item, outcome) matches Some(rest) && items_outcome(
                        backend,
                        items,
                        index + 1,
                        options,
                        next.pending,
                        next.used,
                        rest,
                    ),
                }
            };
        if let Ok(next) = step {
            match next.item {
                None => {
                    if item.text@.len() > 0 {
                        assert(items[index].text@.len() > 0);
                        assert(space_before(items, before, index + 1));
                        if next.pending == pending && space_before(items, before, index) {
                            lemma_space_stays(backend, items, before, index - 1, index, pending);
                        } else {
                            assert(space_outcome(backend, items[index].font@, Ok(next.pending)));
                        }
                    } else {
                        lemma_same_space(items, before, index);
                        if space_before(items, before, index) {
                            lemma_space_stays(backend, items, before, index - 1, index, pending);
                        }
                    }
                    lemma_items(
                        backend,
                        items,
                        before,
                        index + 1,
                        from,
                        options,
                        next.pending,
                        next.used,
                        flow,
                    );
                },
                Some(first) => {
                    let rest = flow.drop_first();
                    assert(flow.skip(1) =~= rest);
                    assert(first.source_item_index == index);
                    if space_before(items, before, index) {
                        lemma_space_stays(backend, items, before, index - 1, index, pending);
                    }
                    let leading = item.text@.len() > 0 && between_words()(item.text@[0]);
                    if !zero.below(pending) && leading {
                        assert(space_outcome(
                            backend,
                            items[index].font@,
                            Ok(first.gap_before),
                        ));
                        assert(is_space_of(backend, items, before, index, first.gap_before));
                    }
                    assert(gap_is_right(backend, items, before, index, first.gap_before));
                    assert(prepare_outcome(
                        without_boundary_space(item.text@),
                        item.font@,
                        backend,
                        item_options(options, used),
                        Ok(first.rich.data),
                    ));
                    assert(shows_its_source(backend, item, first));
                    let trailing = item.text@.len() > 0 && between_words()(item.text@.last());
                    assert(space_before(items, index, index + 1) == trailing);
                    if trailing {
                        assert(space_outcome(backend, items[index].font@, Ok(next.pending)));
                        assert(is_space_of(backend, items, index, index, next.pending));
                    }
                    lemma_items(
                        backend,
                        items,
                        index,
                        index + 1,
                        index + 1,
                        options,
                        next.pending,
                        next.used,
                        rest,
                    );
                },
            }
        }
    }
}

proof fn lemma_same_space<W>(items: Seq<InlineFlowItem<W>>, before: int, at: int)
    requires
        0 <= at < items.len(),
        items[at].text@.len() == 0,
        before < at,
    ensures
        space_before(items, before, at + 1) == space_before(items, before, at),
{
    if exists|j: int| before < j < at && (#[trigger] items[j]).text@.len() > 0 {
        let j = choose|j: int| before < j < at && (#[trigger] items[j]).text@.len() > 0;
        assert(before < j < at + 1 && items[j].text@.len() > 0);
    }
    if exists|j: int| before < j < at + 1 && (#[trigger] items[j]).text@.len() > 0 {
        let j = choose|j: int| before < j < at + 1 && (#[trigger] items[j]).text@.len() > 0;
        assert(before < j < at && items[j].text@.len() > 0);
    }
}

/// A prepared flow is the source items that hold text, in order, each with its
/// padding and its way of breaking; between two of them there is the gap of one
/// space where whitespace stood at the end of the first, at the start of the
/// second or between them, and none where none did.
pub proof fn prepared_flows_are_spaced_as_their_source<W: Scalar, B: MeasureBackend<W>>(
    backend: &B,
    items: Seq<InlineFlowItem<W>>,
    options: InlineFlowOptions,
    flow: Seq<FlowItem<W>>,
)
    requires
        ordered_arithmetic::<W>(),
        items.len() <= usize::MAX,
        flow_prepared(backend, items, options, Ok(flow)),
    ensures
        is_flow_of(backend, items, -1, 0, flow),
{
    assert(!space_before(items, -1, 0));
    lemma_items(backend, items, -1, 0, 0, options, W::zero_value(), 0, flow);
}

} // verus!
