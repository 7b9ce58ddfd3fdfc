//! Why no line of prepared text has a width that is no measurement.
//!
//! Preparation bounds the width that a line can come to before a single line
//! is laid out. Here stands that the bound covers every line.
use crate::backend::{FontView, MeasureBackend};
use crate::line_break::{
    advance_of, break_at, entry_grapheme, last_fitting, least_int, lemma_last_fitting,
    line_advance, paint_width,
};
use crate::prepare::{bounded_to, contribution, line_bound, prepare_outcome};
use crate::scalar::{
    is_measure, is_width, nonnegative, ordered_arithmetic, sum_of, tab_advance_value, Scalar,
};
use crate::types::{PrepareOptions, PreparedData, SegmentKind};
use vstd::prelude::*;

verus! {

/// Whether the lines of a text are bounded: preparation accepted it, and the
/// arithmetic is one that bounds hold for.
#[verifier::opaque]
pub open spec fn lines_bounded<W: Scalar>(data: &PreparedData<W>) -> bool {
    &&& ordered_arithmetic::<W>()
    &&& data.well_formed()
    &&& bounded_to(data, data.count() as int)
}

proof fn lemma_take_sum<W: Scalar>(widths: Seq<W>, from: int, to: int)
    requires
        ordered_arithmetic::<W>(),
        0 <= from <= to <= widths.len(),
        forall|k: int| 0 <= k < widths.len() ==> nonnegative(#[trigger] widths[k]),
    ensures
        nonnegative(sum_of(widths.take(to))),
        nonnegative(sum_of(widths.subrange(from, to))),
        sum_of(widths.subrange(from, to)).at_most(sum_of(widths.take(to))),
    decreases to,
{
    if to > 0 {
        assert(widths.take(to).drop_last() =~= widths.take(to - 1));
        assert(nonnegative(widths[to - 1]));
        if from < to {
            lemma_take_sum(widths, from, to - 1);
            assert(widths.subrange(from, to).drop_last() =~= widths.subrange(from, to - 1));
            let a = sum_of(widths.subrange(from, to - 1));
            let b = sum_of(widths.take(to - 1));
            assert(a.plus(widths[to - 1]).at_most(b.plus(widths[to - 1])));
        } else {
            lemma_take_sum(widths, from - 1, to - 1);
            assert(widths.subrange(from, to) =~= Seq::empty());
            assert(nonnegative(sum_of(widths.take(to - 1)).plus(widths[to - 1])));
        }
    } else {
        assert(widths.subrange(from, to) =~= Seq::empty());
        assert(widths.take(to) =~= Seq::empty());
        assert(nonnegative(W::zero_value()));
    }
}

proof fn lemma_whole_sum<W: Scalar>(widths: Seq<W>, to: int)
    requires
        ordered_arithmetic::<W>(),
        0 <= to <= widths.len(),
        forall|k: int| 0 <= k < widths.len() ==> nonnegative(#[trigger] widths[k]),
    ensures
        nonnegative(sum_of(widths)),
        sum_of(widths.take(to)).at_most(sum_of(widths)),
    decreases widths.len() - to,
{
    let count = widths.len() as int;
    lemma_take_sum(widths, 0, to);
    if to == count {
        assert(widths.take(to) =~= widths);
    } else {
        lemma_whole_sum(widths, to + 1);
        lemma_take_sum(widths, 0, to + 1);
        assert(widths.take(to + 1).drop_last() =~= widths.take(to));
        assert(nonnegative(widths[to]));
        assert(sum_of(widths.take(to)).at_most(sum_of(widths.take(to)).plus(widths[to])));
    }
}

/// A part of a segment is no wider than the segment's share in the bound.
proof fn lemma_contribution<W: Scalar>(data: &PreparedData<W>, index: int)
    requires
        ordered_arithmetic::<W>(),
        data.well_formed(),
        0 <= index < data.count(),
    ensures
        nonnegative(contribution(data, index)),
        nonnegative(data.widths@[index]),
        data.widths@[index].at_most(contribution(data, index)),
        nonnegative(data.line_end_paint_advances@[index]),
        data.line_end_paint_advances@[index].at_most(contribution(data, index)),
        data.kinds@[index] == SegmentKind::Tab ==> data.tab_stop_advance.at_most(
            contribution(data, index),
        ),
        forall|from: int, to: int|
            #![trigger data.breakable(index)->0.subrange(from, to)]
            data.breakable(index) is Some && 0 <= from <= to <= data.breakable(index)->0.len() ==> {
                let part = sum_of(data.breakable(index)->0.subrange(from, to));
                nonnegative(part) && part.at_most(contribution(data, index))
            },
{
    let a = data.widths@[index];
    let b = data.line_end_fit_advances@[index];
    let c = data.line_end_paint_advances@[index];
    let d = match data.breakable(index) {
        Some(widths) => sum_of(widths),
        None => W::zero_value(),
    };
    let e = if data.kinds@[index] == SegmentKind::Tab {
        data.tab_stop_advance
    } else {
        W::zero_value()
    };
    assert(is_width(a) && is_width(b) && is_width(c));
    if let Some(widths) = data.breakable(index) {
        assert forall|k: int| 0 <= k < widths.len() implies nonnegative(#[trigger] widths[k]) by {
            assert(is_width(data.breakable(index)->0[k]));
        }
        lemma_whole_sum(widths, 0);
        assert forall|from: int, to: int|
            #![trigger widths.subrange(from, to)]
            0 <= from <= to <= widths.len() implies nonnegative(sum_of(widths.subrange(from, to)))
            && sum_of(widths.subrange(from, to)).at_most(d) by {
            lemma_take_sum(widths, from, to);
            lemma_whole_sum(widths, to);
        }
    }
    assert(nonnegative(d) && nonnegative(e));
    let ab = a.larger(b);
    let abc = ab.larger(c);
    let abcd = abc.larger(d);
    assert(a.at_most(ab) && ab.at_most(abc) && abc.at_most(abcd) && abcd.at_most(abcd.larger(e)));
    assert(a.at_most(abc));
    assert(a.at_most(abcd));
    assert(c.at_most(abc));
    assert(c.at_most(abcd));
    assert(d.at_most(abcd));
    assert(d.at_most(abcd.larger(e)));
    if let Some(widths) = data.breakable(index) {
        assert forall|from: int, to: int|
            #![trigger data.breakable(index)->0.subrange(from, to)]
            0 <= from <= to <= widths.len() implies sum_of(
            data.breakable(index)->0.subrange(from, to),
        ).at_most(contribution(data, index)) by {
            assert(sum_of(widths.subrange(from, to)).at_most(d));
        }
    }
}

/// What a segment moves a line is within its share in the bound.
proof fn lemma_advance_of<W: Scalar>(
    data: &PreparedData<W>,
    index: int,
    grapheme: int,
    current: W,
)
    requires
        ordered_arithmetic::<W>(),
        data.well_formed(),
        0 <= index < data.count(),
        0 <= grapheme,
        nonnegative(current),
    ensures
        nonnegative(advance_of(data, index, grapheme, current)),
        advance_of(data, index, grapheme, current).at_most(contribution(data, index)),
{
    lemma_contribution(data, index);
    if data.kinds@[index] == SegmentKind::Tab {
        assert(is_width(data.tab_stop_advance));
        assert(tab_advance_value(current, data.tab_stop_advance).at_most(data.tab_stop_advance));
    } else if grapheme > 0 {
        if let Some(widths) = data.breakable(index) {
            let from = least_int(grapheme, widths.len() as int);
            assert(widths.skip(from) =~= widths.subrange(from, widths.len() as int));
        }
    }
}

/// The bound covers a line as far as it has come.
proof fn lemma_advance_bound<W: Scalar>(
    data: &PreparedData<W>,
    start: int,
    grapheme: int,
    index: int,
)
    requires
        ordered_arithmetic::<W>(),
        data.well_formed(),
        0 <= start <= index <= data.count(),
        0 <= grapheme,
        forall|k: int| start <= k < index ==> #[trigger] data.kinds@[k] != SegmentKind::HardBreak,
    ensures
        nonnegative(line_advance(data, start, grapheme, index)),
        nonnegative(line_bound(data, index)),
        line_advance(data, start, grapheme, index).at_most(line_bound(data, index)),
    decreases index,
{
    if index == start {
        lemma_bound_nonnegative(data, index);
    } else {
        lemma_advance_bound(data, start, grapheme, index - 1);
        let before = line_advance(data, start, grapheme, index - 1);
        let bound = line_bound(data, index - 1);
        let advance = advance_of(
            data,
            index - 1,
            entry_grapheme(start, grapheme, index - 1),
            before,
        );
        let share = contribution(data, index - 1);
        lemma_advance_of(data, index - 1, entry_grapheme(start, grapheme, index - 1), before);
        lemma_contribution(data, index - 1);
        assert(data.kinds@[index - 1] != SegmentKind::HardBreak);
        lemma_sum_bound(before, bound, advance, share);
    }
}

proof fn lemma_sum_bound<W: Scalar>(a: W, b: W, c: W, d: W)
    requires
        ordered_arithmetic::<W>(),
        nonnegative(a),
        nonnegative(b),
        nonnegative(c),
        nonnegative(d),
        a.at_most(b),
        c.at_most(d),
    ensures
        nonnegative(a.plus(c)),
        nonnegative(b.plus(d)),
        a.plus(c).at_most(b.plus(d)),
{
    assert(a.plus(c).at_most(b.plus(c)));
    assert(b.plus(c).at_most(b.plus(d)));
}

proof fn lemma_bound_nonnegative<W: Scalar>(data: &PreparedData<W>, index: int)
    requires
        ordered_arithmetic::<W>(),
        data.well_formed(),
        0 <= index <= data.count(),
    ensures
        nonnegative(line_bound(data, index)),
    decreases index,
{
    if index > 0 && data.kinds@[index - 1] != SegmentKind::HardBreak {
        lemma_bound_nonnegative(data, index - 1);
        lemma_contribution(data, index - 1);
        assert(nonnegative(line_bound(data, index - 1).plus(contribution(data, index - 1))));
    }
}

/// A line that has come to a segment, and a part of that segment, make up a
/// measurement.
proof fn lemma_sum_measures<W: Scalar>(
    data: &PreparedData<W>,
    start: int,
    grapheme: int,
    index: int,
    part: W,
)
    requires
        ordered_arithmetic::<W>(),
        data.well_formed(),
        bounded_to(data, data.count() as int),
        0 <= start <= index < data.count(),
        0 <= grapheme,
        forall|k: int| start <= k <= index ==> #[trigger] data.kinds@[k] != SegmentKind::HardBreak,
        nonnegative(part),
        part.at_most(contribution(data, index)),
    ensures
        is_measure(line_advance(data, start, grapheme, index).plus(part)),
{
    lemma_advance_bound(data, start, grapheme, index);
    lemma_contribution(data, index);
    let before = line_advance(data, start, grapheme, index);
    lemma_sum_bound(before, line_bound(data, index), part, contribution(data, index));
    assert(data.kinds@[index] != SegmentKind::HardBreak);
    assert(is_measure(line_bound(data, index + 1)));
    assert(before.plus(part).at_most(line_bound(data, index + 1)));
}

/// What is painted of a line up to a boundary is a measurement, or nothing.
pub(crate) proof fn lemma_paint_measures<W: Scalar>(
    data: &PreparedData<W>,
    start: int,
    grapheme: int,
    end: int,
)
    requires
        lines_bounded(data),
        0 <= start <= end <= data.count(),
        0 <= grapheme,
        forall|k: int| start <= k < end ==> #[trigger] data.kinds@[k] != SegmentKind::HardBreak,
    ensures
        is_width(paint_width(data, start, grapheme, end)),
{
    reveal(lines_bounded);
    if end > start {
        let last = end - 1;
        lemma_contribution(data, last);
        lemma_advance_bound(data, start, grapheme, last);
        let before = line_advance(data, start, grapheme, last);
        lemma_advance_of(data, last, grapheme, before);
        assert(nonnegative(W::zero_value()));
        let part = if last == start && grapheme > 0 {
            advance_of(data, last, grapheme, before)
        } else if data.kinds@[last] == SegmentKind::SoftHyphen {
            W::zero_value()
        } else {
            data.line_end_paint_advances@[last]
        };
        assert(part.at_most(contribution(data, last)));
        lemma_sum_measures(data, start, grapheme, last, part);
    }
}

/// A line that is broken has a width that is a measurement.
pub(crate) proof fn lemma_break_measures<W: Scalar>(
    data: &PreparedData<W>,
    start: int,
    grapheme: int,
    at: int,
    limit: W,
)
    requires
        lines_bounded(data),
        0 <= start <= at < data.count(),
        0 <= grapheme,
        forall|k: int| start <= k <= at ==> #[trigger] data.kinds@[k] != SegmentKind::HardBreak,
    ensures
        break_at(data, start, grapheme, at, limit) matches Some(b) ==> is_width(b.width),
{
    lemma_last_fitting(data, start, grapheme, at, limit);
    lemma_paint_measures(data, start, grapheme, at);
    reveal(lines_bounded);
    if let Some(last) = last_fitting(data, start, grapheme, at, limit) {
        lemma_contribution(data, last);
        lemma_sum_measures(data, start, grapheme, last, data.line_end_paint_advances@[last]);
    }
    if let Some(widths) = data.breakable(at) {
        let entry = least_int(entry_grapheme(start, grapheme, at), widths.len() as int);
        lemma_contribution(data, at);
        assert forall|to: int| entry <= to <= widths.len() implies is_measure(
            line_advance(data, start, grapheme, at).plus(
                sum_of(#[trigger] data.breakable(at)->0.subrange(entry, to)),
            ),
        ) by {
            lemma_sum_measures(
                data,
                start,
                grapheme,
                at,
                sum_of(data.breakable(at)->0.subrange(entry, to)),
            );
        }
    }
}

/// Preparation bounds the lines of what it accepts.
pub proof fn prepared_lines_are_bounded<W: Scalar, B: MeasureBackend<W>>(
    text: Seq<char>,
    font: FontView<W>,
    backend: &B,
    options: PrepareOptions<W>,
    data: PreparedData<W>,
)
    requires
        ordered_arithmetic::<W>(),
        prepare_outcome(text, font, backend, options, Ok(data)),
        data.well_formed(),
    ensures
        lines_bounded(&data),
{
    reveal(lines_bounded);
}

} // verus!
