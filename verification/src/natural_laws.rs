//! What holds of a text at its natural width: it breaks at its hard breaks and
//! nowhere else.
use crate::layout::widest;
use crate::line_break::{
    all_chunk_lines, break_at, chunk_bounds, chunk_lines, closing_line, first_break, fit_limit,
    full_lines, hard_break_from, line_advance, overflows, paint_width, remaining_width,
    walked_lines, InternalLine,
};
use crate::line_laws::{
    lemma_advance_grows, lemma_advance_nonnegative, lemma_chunk_lines_split,
    lemma_hard_break_bounds, lemma_hard_break_of_kinds, lemma_lines_from, lemma_one_chunk,
    lemma_remaining_nonnegative, lemma_simple_is_full, lemma_sizes, ordered_for,
};
use crate::scalar::{is_measure, is_width, nonnegative, ordered_arithmetic, Scalar};
use crate::types::{chunks_from, PreparedData, SegmentKind};
use vstd::prelude::*;

verus! {

/// The number of hard breaks from `from` on.
pub open spec fn hard_breaks_from(kinds: Seq<SegmentKind>, from: int) -> nat
    decreases kinds.len() - from,
{
    if from < 0 || from >= kinds.len() {
        0
    } else {
        hard_breaks_from(kinds, from + 1) + if kinds[from] == SegmentKind::HardBreak {
            1nat
        } else {
            0
        }
    }
}

/// Whether a paragraph starts at a segment: at the start of the text, or behind
/// a hard break.
spec fn starts_paragraph<W: Scalar>(data: &PreparedData<W>, start: int) -> bool {
    start == 0 || data.kinds@[start - 1] == SegmentKind::HardBreak
}

/// Whether no text of the paragraph that starts at a segment overflows when the
/// paragraph is laid out on one line.
spec fn paragraph_fits<W: Scalar>(data: &PreparedData<W>, start: int, limit: W) -> bool {
    forall|k: int|
        start <= k < hard_break_from(data, start) ==> !(#[trigger] overflows(
            data,
            start,
            0,
            k,
            limit,
        ))
}

/// Whether every paragraph fits on one line.
spec fn paragraphs_fit<W: Scalar>(data: &PreparedData<W>, limit: W) -> bool {
    forall|start: int|
        0 <= start <= data.count() && #[trigger] starts_paragraph(data, start) ==> paragraph_fits(
            data,
            start,
            limit,
        )
}

proof fn lemma_no_break<W: Scalar>(
    data: &PreparedData<W>,
    start: int,
    from: int,
    to: int,
    limit: W,
)
    requires
        paragraph_fits(data, start, limit),
        start <= from <= to <= hard_break_from(data, start),
    ensures
        first_break(data, start, 0, from, to, limit) is None,
    decreases to - from,
{
    if from < to {
        assert(!overflows(data, start, 0, from, limit));
        assert(break_at(data, start, 0, from, limit) is None);
        lemma_no_break(data, start, from + 1, to, limit);
    }
}

proof fn lemma_hard_breaks_skip<W: Scalar>(data: &PreparedData<W>, from: int)
    requires
        data.kinds@.len() == data.count(),
        0 <= from <= data.count(),
    ensures
        hard_breaks_from(data.kinds@, from) == if hard_break_from(data, from) < data.count() {
            1 + hard_breaks_from(data.kinds@, hard_break_from(data, from) + 1)
        } else {
            0
        },
    decreases data.count() - from,
{
    if from < data.count() && data.kinds@[from] != SegmentKind::HardBreak {
        lemma_hard_breaks_skip(data, from + 1);
    }
}

/// The lines from a paragraph on that fits on one: that line, and those of the
/// paragraphs behind it.
proof fn lemma_paragraph_split<W: Scalar>(data: &PreparedData<W>, start: int, limit: W)
    requires
        data.well_formed(),
        0 <= start <= data.count(),
        paragraph_fits(data, start, limit),
    ensures
        ({
            let end = hard_break_from(data, start);
            let lines = all_chunk_lines(data, chunks_from(data.kinds@, start), limit);
            &&& start <= end <= data.count()
            &&& lines == if end < data.count() {
                seq![closing_line(data, start, 0, end, end + 1)] + all_chunk_lines(
                    data,
                    chunks_from(data.kinds@, end + 1),
                    limit,
                )
            } else {
                seq![closing_line(data, start, 0, end, end)]
            }
        }),
{
    lemma_sizes(data);
    lemma_hard_break_bounds(data, start);
    lemma_hard_break_of_kinds(data, start);
    let count = data.count() as int;
    let end = hard_break_from(data, start);
    let chunks = chunks_from(data.kinds@, start);
    let chunk = chunks[0];
    let consumed = if end < count {
        end + 1
    } else {
        end
    };
    assert(chunk_bounds(data, chunk) == (start, end, consumed));
    lemma_no_break(data, start, start, end, limit);
    lemma_lines_from(data, start, 0, start, end, consumed, limit);
    assert(chunk_lines(data, chunk, limit) == seq![closing_line(data, start, 0, end, consumed)]);
    lemma_one_chunk(data, chunk, limit);
    if end < count {
        let rest = chunks_from(data.kinds@, end + 1);
        assert(chunks =~= seq![chunk] + rest);
        lemma_chunk_lines_split(data, seq![chunk], rest, limit);
    } else {
        assert(chunks =~= seq![chunk]);
    }
}

/// Where every paragraph fits, there is one line for each.
proof fn lemma_one_line_each<W: Scalar>(data: &PreparedData<W>, start: int, limit: W)
    requires
        data.well_formed(),
        0 <= start <= data.count(),
        starts_paragraph(data, start),
        paragraphs_fit(data, limit),
    ensures
        all_chunk_lines(data, chunks_from(data.kinds@, start), limit).len() == 1
            + hard_breaks_from(data.kinds@, start),
    decreases data.count() - start,
{
    assert(paragraph_fits(data, start, limit));
    lemma_paragraph_split(data, start, limit);
    lemma_hard_break_bounds(data, start);
    lemma_hard_breaks_skip(data, start);
    let end = hard_break_from(data, start);
    if end < data.count() {
        assert(starts_paragraph(data, end + 1));
        lemma_one_line_each(data, end + 1, limit);
    }
}

/// The index of the line for a paragraph.
proof fn lemma_line_of_paragraph<W: Scalar>(
    data: &PreparedData<W>,
    start: int,
    target: int,
    limit: W,
) -> (index: int)
    requires
        data.well_formed(),
        0 <= start <= target <= data.count(),
        starts_paragraph(data, start),
        starts_paragraph(data, target),
        paragraphs_fit(data, limit),
    ensures
        ({
            let lines = all_chunk_lines(data, chunks_from(data.kinds@, start), limit);
            0 <= index < lines.len() && lines[index].width == paint_width(
                data,
                target,
                0,
                hard_break_from(data, target),
            )
        }),
    decreases data.count() - start,
{
    assert(paragraph_fits(data, start, limit));
    lemma_paragraph_split(data, start, limit);
    lemma_hard_break_bounds(data, start);
    let end = hard_break_from(data, start);
    if target == start {
        0
    } else {
        if target <= end {
            assert(data.kinds@[target - 1] != SegmentKind::HardBreak);
        }
        assert(starts_paragraph(data, end + 1));
        let index = lemma_line_of_paragraph(data, end + 1, target, limit);
        index + 1
    }
}

/// No line is negative where every paragraph fits.
proof fn lemma_lines_nonnegative<W: Scalar>(
    data: &PreparedData<W>,
    start: int,
    limit: W,
    index: int,
)
    requires
        data.well_formed(),
        ordered_for(data),
        nonnegative(W::zero_value()),
        0 <= start <= data.count(),
        starts_paragraph(data, start),
        paragraphs_fit(data, limit),
        0 <= index < all_chunk_lines(data, chunks_from(data.kinds@, start), limit).len(),
    ensures
        nonnegative(
            all_chunk_lines(data, chunks_from(data.kinds@, start), limit)[index].width,
        ),
    decreases data.count() - start,
{
    assert(paragraph_fits(data, start, limit));
    lemma_paragraph_split(data, start, limit);
    lemma_hard_break_bounds(data, start);
    let end = hard_break_from(data, start);
    if index == 0 {
        if start < end {
            lemma_paragraph_line(data, start, start);
        }
    } else {
        assert(starts_paragraph(data, end + 1));
        lemma_lines_nonnegative(data, end + 1, limit, index - 1);
    }
}

/// The walked lines of prepared text are the lines of its chunks.
proof fn lemma_walked_are_chunk_lines<W: Scalar>(data: &PreparedData<W>, limit: W)
    requires
        data.well_formed(),
        data.count() > 0,
    ensures
        walked_lines(data, limit) == all_chunk_lines(data, chunks_from(data.kinds@, 0), limit),
{
    lemma_hard_break_of_kinds(data, 0);
    if data.simple_fast_path {
        lemma_simple_is_full(data, limit);
    }
    assert(full_lines(data, limit) == all_chunk_lines(data, data.chunks@, limit));
}

proof fn lemma_paragraph_line<W: Scalar>(data: &PreparedData<W>, start: int, index: int)
    requires
        ordered_for(data),
        0 <= start <= index < hard_break_from(data, start),
        hard_break_from(data, start) <= data.count(),
    ensures
        nonnegative(paint_width(data, start, 0, hard_break_from(data, start))),
        data.kinds@[index] == SegmentKind::Text ==> {
            let through = line_advance(data, start, 0, index).plus(
                remaining_width(data, index, 0),
            );
            &&& nonnegative(through)
            &&& through.at_most(paint_width(data, start, 0, hard_break_from(data, start)))
        },
{
    let end = hard_break_from(data, start);
    let last = end - 1;
    lemma_advance_nonnegative(data, start, 0, last);
    lemma_advance_nonnegative(data, start, 0, index);
    if index < last {
        lemma_advance_nonnegative(data, start, 0, index + 1);
        lemma_advance_grows(data, start, 0, index + 1, last);
    }
    reveal(ordered_for);
    lemma_remaining_nonnegative(data, index, 0);
    let before = line_advance(data, start, 0, last);
    let part = if data.kinds@[last] == SegmentKind::SoftHyphen {
        W::zero_value()
    } else {
        data.line_end_paint_advances@[last]
    };
    assert(is_width(data.widths@[last]));
    assert(is_width(data.line_end_paint_advances@[last]));
    assert(nonnegative(part));
    assert(nonnegative(before.plus(part)) && before.at_most(before.plus(part)));
}

proof fn lemma_widest<W: Scalar>(lines: Seq<InternalLine<W>>, index: int)
    requires
        ordered_arithmetic::<W>(),
        forall|i: int| 0 <= i < lines.len() ==> nonnegative((#[trigger] lines[i]).width),
        0 <= index < lines.len(),
    ensures
        nonnegative(widest(lines)),
        lines[index].width.at_most(widest(lines)),
    decreases lines.len(),
{
    let shorter = lines.drop_last();
    let last = lines.last().width;
    assert(nonnegative(lines[lines.len() - 1].width));
    assert(nonnegative(W::zero_value()));
    assert forall|i: int| 0 <= i < shorter.len() implies nonnegative(
        (#[trigger] shorter[i]).width,
    ) by {
        assert(shorter[i] == lines[i]);
    }
    if shorter.len() == 0 {
        assert(widest(shorter) == W::zero_value());
    } else {
        lemma_widest(shorter, if index < shorter.len() { index } else { 0 });
        if index < shorter.len() {
            assert(shorter[index] == lines[index]);
        }
    }
    assert(widest(shorter).below(last) == !last.at_most(widest(shorter)));
    assert(last.below(widest(shorter)) == !widest(shorter).at_most(last));
}

proof fn lemma_unlimited_fits<W: Scalar>(data: &PreparedData<W>, limit: W)
    requires
        ordered_for(data),
        nonnegative(limit),
        forall|a: W| nonnegative(a) ==> #[trigger] a.at_most(limit),
    ensures
        paragraphs_fit(data, limit),
{
    assert forall|start: int|
        0 <= start <= data.count() && #[trigger] starts_paragraph(
            data,
            start,
        ) implies paragraph_fits(data, start, limit) by {
        lemma_hard_break_bounds(data, start);
        assert forall|k: int| start <= k < hard_break_from(data, start) implies !(
        #[trigger] overflows(data, start, 0, k, limit)) by {
            if data.kinds@[k] == SegmentKind::Text {
                lemma_paragraph_line(data, start, k);
                let through = line_advance(data, start, 0, k).plus(remaining_width(data, k, 0));
                assert(through.at_most(limit));
                lemma_fits(data, through, limit);
            }
        }
    }
}

proof fn lemma_fits<W: Scalar>(data: &PreparedData<W>, a: W, limit: W)
    requires
        ordered_for(data),
        nonnegative(a),
        nonnegative(limit),
        a.at_most(limit),
    ensures
        !limit.below(a),
{
    reveal(ordered_for);
}

/// The natural width is the width that a text needs to break at its hard breaks
/// only: laid out at it there is one line more than there are hard breaks, as
/// many as without any limit, and none of those is wider.
pub proof fn natural_width_breaks_at_hard_breaks_only<W: Scalar>(data: &PreparedData<W>)
    requires
        ordered_arithmetic::<W>(),
        data.well_formed(),
    ensures
        ({
            let unlimited = walked_lines(data, fit_limit(W::infinite_value(), data.profile));
            let natural = widest(unlimited);
            &&& unlimited.len() == 1 + hard_breaks_from(data.kinds@, 0)
            &&& walked_lines(data, fit_limit(natural, data.profile)).len() == unlimited.len()
            &&& forall|i: int|
                0 <= i < unlimited.len() ==> (#[trigger] unlimited[i]).width.at_most(natural)
        }),
{
    let epsilon = data.profile.line_fit_epsilon;
    assert(is_measure(epsilon));
    let no_limit = fit_limit(W::infinite_value(), data.profile);
    let unlimited = walked_lines(data, no_limit);
    let natural = widest(unlimited);
    let limit = fit_limit(natural, data.profile);
    assert(nonnegative(W::zero_value()));
    if data.count() == 0 {
        assert(unlimited.len() == 1);
        lemma_widest(unlimited, 0);
    } else {
        assert(ordered_for(data)) by {
            reveal(ordered_for);
        }
        assert forall|a: W| nonnegative(a) implies #[trigger] a.at_most(no_limit) by {
            assert(a.at_most(W::infinite_value().plus(epsilon)));
        }
        lemma_unlimited_fits(data, no_limit);
        assert(starts_paragraph(data, 0));
        lemma_walked_are_chunk_lines(data, no_limit);
        lemma_one_line_each(data, 0, no_limit);
        assert forall|i: int| 0 <= i < unlimited.len() implies nonnegative(
            (#[trigger] unlimited[i]).width,
        ) by {
            lemma_lines_nonnegative(data, 0, no_limit, i);
        }
        assert forall|i: int| 0 <= i < unlimited.len() implies (
        #[trigger] unlimited[i]).width.at_most(natural) by {
            lemma_widest(unlimited, i);
        }
        lemma_widest(unlimited, 0);
        assert(nonnegative(limit) && natural.at_most(limit));
        assert forall|start: int|
            0 <= start <= data.count() && #[trigger] starts_paragraph(
                data,
                start,
            ) implies paragraph_fits(data, start, limit) by {
            lemma_hard_break_bounds(data, start);
            let i = lemma_line_of_paragraph(data, 0, start, no_limit);
            assert(unlimited[i].width.at_most(natural));
            assert forall|k: int| start <= k < hard_break_from(data, start) implies !(
            #[trigger] overflows(data, start, 0, k, limit)) by {
                if data.kinds@[k] == SegmentKind::Text {
                    lemma_paragraph_line(data, start, k);
                    let through = line_advance(data, start, 0, k).plus(
                        remaining_width(data, k, 0),
                    );
                    assert(through.at_most(natural));
                    assert(through.at_most(limit));
                    lemma_fits(data, through, limit);
                }
            }
        }
        lemma_walked_are_chunk_lines(data, limit);
        lemma_one_line_each(data, 0, limit);
    }
}

proof fn lemma_widest_is_a_line<W: Scalar>(lines: Seq<InternalLine<W>>) -> (index: Option<int>)
    ensures
        match index {
            Some(i) => 0 <= i < lines.len() && widest(lines) == lines[i].width,
            None => widest(lines) == W::zero_value(),
        },
    decreases lines.len(),
{
    if lines.len() == 0 {
        None
    } else if widest(lines.drop_last()).below(lines.last().width) {
        Some(lines.len() - 1)
    } else {
        lemma_widest_is_a_line(lines.drop_last())
    }
}

/// The natural width is attained: it is the width of one of the lines that a
/// text has without any limit, and no line is wider; or it is zero, and none of
/// the lines is wider than that.
pub proof fn natural_width_is_that_of_a_line<W: Scalar>(data: &PreparedData<W>)
    requires
        ordered_arithmetic::<W>(),
        data.well_formed(),
    ensures
        ({
            let unlimited = walked_lines(data, fit_limit(W::infinite_value(), data.profile));
            let natural = widest(unlimited);
            &&& natural == W::zero_value() || exists|i: int|
                0 <= i < unlimited.len() && (#[trigger] unlimited[i]).width == natural
            &&& forall|i: int|
                0 <= i < unlimited.len() ==> (#[trigger] unlimited[i]).width.at_most(natural)
        }),
{
    natural_width_breaks_at_hard_breaks_only(data);
    let unlimited = walked_lines(data, fit_limit(W::infinite_value(), data.profile));
    let attained = lemma_widest_is_a_line(unlimited);
    if let Some(i) = attained {
        assert(unlimited[i].width == widest(unlimited));
    }
}

/// No line of a text without any limit is negative.
pub(crate) proof fn lemma_unlimited_is_nonnegative<W: Scalar>(data: &PreparedData<W>, index: int)
    requires
        ordered_arithmetic::<W>(),
        data.well_formed(),
        0 <= index < walked_lines(data, fit_limit(W::infinite_value(), data.profile)).len(),
    ensures
        nonnegative(
            walked_lines(data, fit_limit(W::infinite_value(), data.profile))[index].width,
        ),
{
    let epsilon = data.profile.line_fit_epsilon;
    assert(is_measure(epsilon));
    let no_limit = fit_limit(W::infinite_value(), data.profile);
    assert(nonnegative(W::zero_value()));
    if data.count() > 0 {
        assert(ordered_for(data)) by {
            reveal(ordered_for);
        }
        assert forall|a: W| nonnegative(a) implies #[trigger] a.at_most(no_limit) by {
            assert(a.at_most(W::infinite_value().plus(epsilon)));
        }
        lemma_unlimited_fits(data, no_limit);
        assert(starts_paragraph(data, 0));
        lemma_walked_are_chunk_lines(data, no_limit);
        lemma_lines_nonnegative(data, 0, no_limit, index);
    }
}

} // verus!
