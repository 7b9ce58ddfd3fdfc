//! Preparation: analysis and measurement, once per text and font.
use crate::analysis::{
    all_simple, analysis_of, analyze_text, analyzed, kinds_of, normalized_text, pieces_of, plain,
    prepared_chunks, proper, sound, texts_of, to_prepared_chunks, AnalysisResult, AnalysisSegment, Piece,
};
use crate::backend::{
    sum_fault, validate_metric, validated, validated_width_sum, FontSpec, FontView, MeasureBackend,
    SegmentMetrics,
};
use crate::bidi::{byte_levels, compute_segment_levels, directional_levels, levels_at};
use crate::decimal::{numeral, push_numeral};
use crate::error::Error;
use crate::scalar::{is_measure, is_width, sum_of, sums_measure, Scalar};
use crate::segmentation::{grapheme_clusters, graphemes};
use crate::text::{chars_of, joined, lemma_joined_concat, views};
use crate::types::{
    chunks_from, hangs, invalid_profile, EngineProfile, PrepareOptions, PrepareProfile, PreparedData,
    PreparedText, PreparedTextWithSegments, RichText, SegmentKind,
};
use vstd::prelude::*;
use vstd::string::*;
use vstd::utf8::encode_utf8;

verus! {

// ---- Limits ----------------------------------------------------------------------

/// The size of a text in UTF-8.
pub open spec fn byte_count(text: Seq<char>) -> usize {
    encode_utf8(text).len() as usize
}

/// What is wrong with the size of an input, if anything.
pub open spec fn size_fault<W>(
    text: Seq<char>,
    clusters: nat,
    options: PrepareOptions<W>,
    error: Error,
) -> bool {
    if byte_count(text) > options.max_input_bytes {
        error == (Error::InputTooLarge {
            bytes: byte_count(text),
            max_bytes: options.max_input_bytes,
        })
    } else {
        clusters > options.max_graphemes && error.exceeds(
            "text graphemes"@,
            clusters,
            options.max_graphemes as nat,
        )
    }
}

/// Whether an input is within the limits.
pub open spec fn size_fits<W>(text: Seq<char>, clusters: nat, options: PrepareOptions<W>) -> bool {
    byte_count(text) <= options.max_input_bytes && clusters <= options.max_graphemes
}

fn validate_input_complexity<W: Scalar>(text: &str, options: &PrepareOptions<W>) -> (r: Result<
    (),
    Error,
>)
    ensures
        match r {
            Ok(()) => size_fits(text@, grapheme_clusters(text@).len(), *options),
            Err(error) => size_fault(text@, grapheme_clusters(text@).len(), *options, error),
        },
{
    let bytes: usize = text.len();
    if bytes > options.max_input_bytes {
        return Err(Error::InputTooLarge { bytes, max_bytes: options.max_input_bytes });
    }
    let clusters: usize = graphemes(text).len();
    if clusters > options.max_graphemes {
        return Err(
            Error::InputComplexity {
                resource: "text graphemes",
                units: clusters,
                max_units: options.max_graphemes,
            },
        );
    }
    Ok(())
}

fn validate_analysis_complexity(analysis: &AnalysisResult, max_segments: usize) -> (r: Result<
    (),
    Error,
>)
    ensures
        match r {
            Ok(()) => analysis.segments@.len() <= max_segments,
            Err(error) => analysis.segments@.len() > max_segments && error.exceeds(
                "analyzed text segments"@,
                analysis.segments@.len(),
                max_segments as nat,
            ),
        },
{
    let segments: usize = analysis.segments.len();
    if segments > max_segments {
        Err(
            Error::InputComplexity {
                resource: "analyzed text segments",
                units: segments,
                max_units: max_segments,
            },
        )
    } else {
        Ok(())
    }
}

// ---- Measuring one segment ---------------------------------------------------------

/// What the engine keeps of a measured segment.
pub struct SegmentEntry<W> {
    pub width: W,
    pub line_end_fit_advance: W,
    pub line_end_paint_advance: W,
    pub breakable_widths: Option<Vec<W>>,
}

/// A measured segment as a value.
pub struct EntryView<W> {
    pub width: W,
    pub fit: W,
    pub paint: W,
    pub breakable: Option<Seq<W>>,
}

impl<W> View for SegmentEntry<W> {
    type V = EntryView<W>;

    open spec fn view(&self) -> EntryView<W> {
        EntryView {
            width: self.width,
            fit: self.line_end_fit_advance,
            paint: self.line_end_paint_advance,
            breakable: match self.breakable_widths {
                Some(widths) => Some(widths@),
                None => None,
            },
        }
    }
}

/// The entry of prepared data at an index.
pub open spec fn entry_at<W: Scalar>(data: &PreparedData<W>, index: int) -> EntryView<W> {
    EntryView {
        width: data.widths@[index],
        fit: data.line_end_fit_advances@[index],
        paint: data.line_end_paint_advances@[index],
        breakable: data.breakable(index),
    }
}

/// Glue that has no width in any font.
pub open spec fn zero_width_glue(c: char) -> bool {
    c == '\u{2060}' || c == '\u{FEFF}'
}

/// Whether every character of a text is glue without width.
pub open spec fn all_zero_width_glue(text: Seq<char>) -> bool {
    forall|i: int| 0 <= i < text.len() ==> zero_width_glue(#[trigger] text[i])
}

/// Whether a piece has a width that only the backend knows.
pub open spec fn is_measured(piece: Piece) -> bool {
    match piece.kind {
        SegmentKind::Text | SegmentKind::Space | SegmentKind::PreservedSpace => true,
        SegmentKind::Glue => !all_zero_width_glue(piece.text),
        _ => false,
    }
}

/// The entry of a piece that is not measured: only a soft hyphen that ends a
/// line shows.
pub open spec fn fixed_entry<W: Scalar>(kind: SegmentKind, hyphen_width: W) -> EntryView<W> {
    let at_line_end = if kind == SegmentKind::SoftHyphen {
        hyphen_width
    } else {
        W::zero_value()
    };
    EntryView { width: W::zero_value(), fit: at_line_end, paint: at_line_end, breakable: None }
}

/// The entry of a measured piece. At a line end collapsible spaces neither
/// count nor show, preserved spaces show but do not count.
pub open spec fn measured_entry<W: Scalar>(
    kind: SegmentKind,
    width: W,
    widths: Option<Seq<W>>,
) -> EntryView<W> {
    EntryView {
        width,
        fit: if kind == SegmentKind::Space || kind == SegmentKind::PreservedSpace {
            W::zero_value()
        } else {
            width
        },
        paint: if kind == SegmentKind::Space {
            W::zero_value()
        } else {
            width
        },
        breakable: if kind == SegmentKind::Text {
            widths
        } else {
            None
        },
    }
}

/// What is said of a backend that gives another number of widths than there
/// are graphemes.
pub open spec fn count_message(given: nat, expected: nat) -> Seq<char> {
    "returned "@ + numeral(given) + " grapheme widths for a "@ + numeral(expected)
        + "-grapheme segment"@
}

/// Whether metrics are usable: every width, and every running sum of grapheme
/// widths, is a measurement.
pub open spec fn usable<W: Scalar>(metrics: SegmentMetrics<W>) -> bool {
    is_measure(metrics.width) && match metrics.widths() {
        Some(widths) => sums_measure(widths, widths.len() as int),
        None => true,
    }
}

/// Whether `error` rejects metrics.
pub open spec fn metrics_fault<W: Scalar>(metrics: SegmentMetrics<W>, error: Error) -> bool {
    if !is_measure(metrics.width) {
        error.reports_metric("segment width"@, metrics.width)
    } else {
        match metrics.widths() {
            Some(widths) => sum_fault(widths, "grapheme width"@, "grapheme width sum"@, error),
            None => false,
        }
    }
}

/// Whether a text piece got widths for another number of graphemes.
pub open spec fn miscounted<W: Scalar>(
    kind: SegmentKind,
    clusters: nat,
    metrics: SegmentMetrics<W>,
) -> bool {
    kind == SegmentKind::Text && (metrics.widths() matches Some(widths) && widths.len() != clusters)
}

/// What a reply of the backend makes of a piece with so many graphemes.
pub open spec fn entry_outcome<W: Scalar>(
    kind: SegmentKind,
    clusters: nat,
    reply: Result<SegmentMetrics<W>, Error>,
    outcome: Result<EntryView<W>, Error>,
) -> bool {
    match reply {
        Err(error) => outcome == Err::<EntryView<W>, Error>(error),
        Ok(metrics) => match outcome {
            Ok(entry) => {
                &&& usable(metrics)
                &&& !miscounted(kind, clusters, metrics)
                &&& entry == measured_entry(kind, metrics.width, metrics.widths())
            },
            Err(error) => if usable(metrics) {
                miscounted(kind, clusters, metrics) && error.reports_measurement(
                    "measurement backend"@,
                    count_message(metrics.widths()->0.len(), clusters),
                )
            } else {
                metrics_fault(metrics, error)
            },
        },
    }
}

/// Whether `outcome` is what a backend may make of a piece.
pub open spec fn piece_outcome<W: Scalar, B: MeasureBackend<W>>(
    backend: &B,
    font: FontView<W>,
    piece: Piece,
    hyphen_width: W,
    outcome: Result<EntryView<W>, Error>,
) -> bool {
    if is_measured(piece) {
        exists|reply: Result<SegmentMetrics<W>, Error>| #[trigger]
            backend.may_measure(piece.text, font, reply) && entry_outcome(
                piece.kind,
                grapheme_clusters(piece.text).len(),
                reply,
                outcome,
            )
    } else {
        outcome == Ok::<EntryView<W>, Error>(fixed_entry(piece.kind, hyphen_width))
    }
}

fn is_zero_width_glue(character: char) -> (r: bool)
    ensures
        r == zero_width_glue(character),
{
    matches!(character, '\u{2060}' | '\u{FEFF}')
}

fn is_zero_width_glue_text(text: &str) -> (r: bool)
    ensures
        r == all_zero_width_glue(text@),
{
    let chars = chars_of(text);
    let mut index: usize = 0;
    while index < chars.len()
        invariant
            index <= chars@.len(),
            chars@ == text@,
            forall|k: int| 0 <= k < index ==> zero_width_glue(#[trigger] chars@[k]),
        decreases chars@.len() - index,
    {
        if !is_zero_width_glue(chars[index]) {
            return false;
        }
        index += 1;
    }
    true
}

fn validate_segment_metrics<W: Scalar>(metrics: &SegmentMetrics<W>) -> (r: Result<(), Error>)
    ensures
        match r {
            Ok(()) => usable(*metrics),
            Err(error) => !usable(*metrics) && metrics_fault(*metrics, error),
        },
{
    if let Err(error) = validate_metric("segment width", metrics.width) {
        return Err(error);
    }
    if let Some(widths) = &metrics.grapheme_widths {
        if let Err(error) = validated_width_sum(widths, "grapheme width", "grapheme width sum") {
            proof {
                lemma_sum_fault(widths@, "grapheme width"@, "grapheme width sum"@, error);
            }
            return Err(error);
        }
    }
    Ok(())
}

proof fn lemma_sum_fault<W: Scalar>(
    widths: Seq<W>,
    item_metric: Seq<char>,
    sum_metric: Seq<char>,
    error: Error,
)
    requires
        sum_fault(widths, item_metric, sum_metric, error),
    ensures
        !sums_measure(widths, widths.len() as int),
{
    let index = choose|index: int|
        #[trigger] crate::backend::sum_fault_at(widths, index, item_metric, sum_metric, error);
    assert(!is_measure(widths[index]) || !is_measure(sum_of(widths.take(index + 1))));
}

/// Say that a backend gave another number of widths than there are graphemes.
fn miscount_message(given: usize, expected: usize) -> (r: String)
    ensures
        r@ == count_message(given as nat, expected as nat),
{
    let mut message = "returned ".to_string();
    push_numeral(&mut message, given as u64);
    message.append(" grapheme widths for a ");
    push_numeral(&mut message, expected as u64);
    message.append("-grapheme segment");
    message
}

/// Make an entry of what the backend answered for a segment that has
/// `clusters` graphemes.
///
/// # Errors
///
/// Passes the backend's error on, and rejects widths that are no measurements
/// or are not one for each grapheme of a text segment.
pub fn accept_metrics<W: Scalar>(
    kind: SegmentKind,
    clusters: usize,
    reply: Result<SegmentMetrics<W>, Error>,
) -> (r: Result<SegmentEntry<W>, Error>)
    ensures
        entry_outcome(kind, clusters as nat, reply, entry_result(r)),
{
    let metrics = match reply {
        Ok(metrics) => metrics,
        Err(error) => {
            return Err(error);
        },
    };
    if let Err(error) = validate_segment_metrics(&metrics) {
        return Err(error);
    }
    if kind == SegmentKind::Text {
        if let Some(widths) = &metrics.grapheme_widths {
            if widths.len() != clusters {
                return Err(
                    Error::measurement(
                        "measurement backend",
                        miscount_message(widths.len(), clusters),
                    ),
                );
            }
        }
    }
    let width = metrics.width;
    Ok(
        SegmentEntry {
            width,
            line_end_fit_advance: if kind == SegmentKind::Space || kind
                == SegmentKind::PreservedSpace {
                W::zero()
            } else {
                width
            },
            line_end_paint_advance: if kind == SegmentKind::Space {
                W::zero()
            } else {
                width
            },
            breakable_widths: if kind == SegmentKind::Text {
                metrics.grapheme_widths
            } else {
                None
            },
        },
    )
}

/// An entry as a value, or the error.
pub open spec fn entry_result<W>(result: Result<SegmentEntry<W>, Error>) -> Result<
    EntryView<W>,
    Error,
> {
    match result {
        Ok(entry) => Ok(entry@),
        Err(error) => Err(error),
    }
}

/// Whether the graphemes of a text are the text.
pub open spec fn joins_up(text: Seq<char>) -> bool {
    joined(grapheme_clusters(text)) == text
}

/// Measure one segment.
fn measure_piece<W: Scalar, B: MeasureBackend<W>>(
    segment: &AnalysisSegment,
    font: &FontSpec<W>,
    backend: &B,
    hyphen_width: W,
) -> (r: Result<SegmentEntry<W>, Error>)
    ensures
        piece_outcome(backend, font@, segment@, hyphen_width, entry_result(r)),
        is_measured(segment@) ==> joins_up(segment@.text),
{
    let measured = match segment.kind {
        SegmentKind::Text | SegmentKind::Space | SegmentKind::PreservedSpace => true,
        SegmentKind::Glue => !is_zero_width_glue_text(segment.text.as_str()),
        _ => false,
    };
    if measured {
        let reply = backend.measure_segment(segment.text.as_str(), font);
        let clusters = graphemes(segment.text.as_str());
        proof {
            assert(views(clusters@).len() == grapheme_clusters(segment@.text).len());
            assert(backend.may_measure(segment@.text, font@, reply));
        }
        accept_metrics(segment.kind, clusters.len(), reply)
    } else {
        let at_line_end = if segment.kind == SegmentKind::SoftHyphen {
            hyphen_width
        } else {
            W::zero()
        };
        Ok(
            SegmentEntry {
                width: W::zero(),
                line_end_fit_advance: at_line_end,
                line_end_paint_advance: at_line_end,
                breakable_widths: None,
            },
        )
    }
}

// ---- The widest line ---------------------------------------------------------------

/// The most that a segment can add to a line.
pub open spec fn contribution<W: Scalar>(data: &PreparedData<W>, index: int) -> W {
    let graphemes = match data.breakable(index) {
        Some(widths) => sum_of(widths),
        None => W::zero_value(),
    };
    let tab = if data.kinds@[index] == SegmentKind::Tab {
        data.tab_stop_advance
    } else {
        W::zero_value()
    };
    data.widths@[index].larger(data.line_end_fit_advances@[index]).larger(
        data.line_end_paint_advances@[index],
    ).larger(graphemes).larger(tab)
}

/// A bound on every line up to segment `index` since the last hard break.
pub open spec fn line_bound<W: Scalar>(data: &PreparedData<W>, index: int) -> W
    decreases index,
{
    if index <= 0 || data.kinds@[index - 1] == SegmentKind::HardBreak {
        W::zero_value()
    } else {
        line_bound(data, index - 1).plus(contribution(data, index - 1))
    }
}

/// Whether the grapheme widths of a segment sum up to a measurement.
pub open spec fn graphemes_sum<W: Scalar>(data: &PreparedData<W>, index: int) -> bool {
    match data.breakable(index) {
        Some(widths) => sums_measure(widths, widths.len() as int),
        None => true,
    }
}

/// Whether the bound stays a measurement up to segment `index`.
pub open spec fn bounded_to<W: Scalar>(data: &PreparedData<W>, index: int) -> bool {
    forall|k: int|
        0 <= k < index && #[trigger] data.kinds@[k] != SegmentKind::HardBreak ==> graphemes_sum(
            data,
            k,
        ) && is_measure(line_bound(data, k + 1))
}

/// Whether `error` says that the bound leaves the measurements at `index`.
pub open spec fn bound_fault_at<W: Scalar>(
    data: &PreparedData<W>,
    index: int,
    error: Error,
) -> bool {
    &&& 0 <= index < data.kinds@.len()
    &&& bounded_to(data, index)
    &&& data.kinds@[index] != SegmentKind::HardBreak
    &&& if !graphemes_sum(data, index) {
        sum_fault(
            data.breakable(index)->0,
            "grapheme width"@,
            "grapheme width sum"@,
            error,
        )
    } else {
        let bound = line_bound(data, index + 1);
        !is_measure(bound) && error.reports_metric(
            "prepared cumulative line width"@,
            bound,
        )
    }
}

/// Check that no line can get wider than a measurement.
fn validate_prepared_width_bound<W: Scalar>(data: &PreparedData<W>) -> (r: Result<(), Error>)
    requires
        data.count() == data.kinds@.len(),
    ensures
        match r {
            Ok(()) => bounded_to(data, data.kinds@.len() as int),
            Err(error) => exists|index: int| #[trigger] bound_fault_at(data, index, error),
        },
{
    let mut bound = W::zero();
    let mut index: usize = 0;
    while index < data.kinds.len()
        invariant
            index <= data.kinds@.len() == data.count(),
            bound == line_bound(data, index as int),
            bounded_to(data, index as int),
        decreases data.kinds@.len() - index,
    {
        let kind = data.kinds[index];
        if kind == SegmentKind::HardBreak {
            bound = W::zero();
        } else {
            let graphemes = match &data.breakable_widths[index] {
                Some(widths) => match validated_width_sum(
                    widths,
                    "grapheme width",
                    "grapheme width sum",
                ) {
                    Ok(total) => total,
                    Err(error) => {
                        proof {
                            lemma_sum_fault(
                                widths@,
                                "grapheme width"@,
                                "grapheme width sum"@,
                                error,
                            );
                            assert(bound_fault_at(data, index as int, error));
                        }
                        return Err(error);
                    },
                },
                None => W::zero(),
            };
            let tab = if kind == SegmentKind::Tab {
                data.tab_stop_advance
            } else {
                W::zero()
            };
            let added = data.widths[index].max(data.line_end_fit_advances[index]).max(
                data.line_end_paint_advances[index],
            ).max(graphemes).max(tab);
            bound = bound.add(added);
            if let Err(error) = validate_metric("prepared cumulative line width", bound) {
                proof {
                    assert(bound_fault_at(data, index as int, error));
                }
                return Err(error);
            }
        }
        index += 1;
    }
    Ok(())
}

// ---- Measuring a text --------------------------------------------------------------

/// What the width of a space makes of the tab stops.
pub open spec fn tab_stop_outcome<W: Scalar>(
    reply: Result<W, Error>,
    outcome: Result<W, Error>,
) -> bool {
    match reply {
        Err(error) => outcome == Err::<W, Error>(error),
        Ok(space) => if is_measure(space) {
            validated("tab stop advance"@, space.times(W::ratio_value(8, 1)), outcome)
        } else {
            outcome matches Err(error) && error.reports_metric("space width"@, space)
        },
    }
}

/// What the measured width of a hyphen is accepted as.
pub open spec fn hyphen_width_outcome<W: Scalar>(
    reply: Result<W, Error>,
    outcome: Result<W, Error>,
) -> bool {
    match reply {
        Err(error) => outcome == Err::<W, Error>(error),
        Ok(width) => validated("hyphen width"@, width, outcome),
    }
}

/// Whether `outcome` is what a backend may make of the tab stops: none are
/// needed where there is no tab.
pub open spec fn tab_outcome<W: Scalar, B: MeasureBackend<W>>(
    backend: &B,
    font: FontView<W>,
    kinds: Seq<SegmentKind>,
    outcome: Result<W, Error>,
) -> bool {
    if kinds.contains(SegmentKind::Tab) {
        exists|reply: Result<W, Error>| #[trigger]
            backend.may_measure_space(font, reply) && tab_stop_outcome(reply, outcome)
    } else {
        outcome == Ok::<W, Error>(W::zero_value())
    }
}

/// Whether `outcome` is what a backend may make of the hyphen: none is needed
/// where there is no soft hyphen.
pub open spec fn hyphen_outcome<W: Scalar, B: MeasureBackend<W>>(
    backend: &B,
    font: FontView<W>,
    kinds: Seq<SegmentKind>,
    outcome: Result<W, Error>,
) -> bool {
    if kinds.contains(SegmentKind::SoftHyphen) {
        exists|reply: Result<W, Error>| #[trigger]
            backend.may_measure_hyphen(font, reply) && hyphen_width_outcome(reply, outcome)
    } else {
        outcome == Ok::<W, Error>(W::zero_value())
    }
}

/// Whether data holds what a backend may have measured of pieces.
pub open spec fn holds_measurements<W: Scalar, B: MeasureBackend<W>>(
    data: &PreparedData<W>,
    backend: &B,
    font: FontView<W>,
    pieces: Seq<Piece>,
    profile: EngineProfile<W>,
) -> bool {
    let kinds = kinds_of(pieces);
    &&& data.kinds@ == kinds
    &&& data.widths@.len() == kinds.len()
    &&& data.line_end_fit_advances@.len() == kinds.len()
    &&& data.line_end_paint_advances@.len() == kinds.len()
    &&& data.breakable_widths@.len() == kinds.len()
    &&& tab_outcome(backend, font, kinds, Ok(data.tab_stop_advance))
    &&& hyphen_outcome(backend, font, kinds, Ok(data.discretionary_hyphen_width))
    &&& forall|i: int|
        0 <= i < pieces.len() ==> piece_outcome(
            backend,
            font,
            #[trigger] pieces[i],
            data.discretionary_hyphen_width,
            Ok(entry_at(data, i)),
        )
    &&& data.chunks@ == chunks_from(kinds, 0)
    &&& data.simple_fast_path == all_simple(kinds)
    &&& data.profile == profile
}

/// Whether a backend may have failed with `error` on piece `index`, after all
/// pieces before it.
pub open spec fn piece_fault_at<W: Scalar, B: MeasureBackend<W>>(
    backend: &B,
    font: FontView<W>,
    pieces: Seq<Piece>,
    hyphen_width: W,
    index: int,
    error: Error,
) -> bool {
    &&& 0 <= index < pieces.len()
    &&& piece_outcome(backend, font, pieces[index], hyphen_width, Err(error))
    &&& forall|k: int|
        0 <= k < index ==> may_succeed(backend, font, #[trigger] pieces[k], hyphen_width)
}

/// Whether a backend may have given an entry for a piece.
pub open spec fn may_succeed<W: Scalar, B: MeasureBackend<W>>(
    backend: &B,
    font: FontView<W>,
    piece: Piece,
    hyphen_width: W,
) -> bool {
    exists|entry: EntryView<W>| piece_outcome(backend, font, piece, hyphen_width, Ok(entry))
}

/// Whether measuring pieces may fail with `error`: at the tab stops, at the
/// hyphen, at a piece, or because a line could get too wide, in this order.
pub open spec fn measuring_fault<W: Scalar, B: MeasureBackend<W>>(
    backend: &B,
    font: FontView<W>,
    pieces: Seq<Piece>,
    profile: EngineProfile<W>,
    error: Error,
) -> bool {
    let kinds = kinds_of(pieces);
    ||| tab_outcome(backend, font, kinds, Err(error))
    ||| {
        &&& exists|tab: W| tab_outcome(backend, font, kinds, Ok(tab))
        &&& hyphen_outcome(backend, font, kinds, Err(error))
    }
    ||| {
        &&& exists|tab: W| tab_outcome(backend, font, kinds, Ok(tab))
        &&& exists|hyphen: W, index: int|
            {
                &&& hyphen_outcome(backend, font, kinds, Ok(hyphen))
                &&& #[trigger] piece_fault_at(backend, font, pieces, hyphen, index, error)
            }
    }
    ||| exists|data: PreparedData<W>, index: int|
        {
            &&& holds_measurements(&data, backend, font, pieces, profile)
            &&& #[trigger] bound_fault_at(&data, index, error)
        }
}

/// What measuring pieces may give.
pub open spec fn measuring_outcome<W: Scalar, B: MeasureBackend<W>>(
    backend: &B,
    font: FontView<W>,
    pieces: Seq<Piece>,
    profile: EngineProfile<W>,
    outcome: Result<PreparedData<W>, Error>,
) -> bool {
    match outcome {
        Ok(data) => {
            &&& holds_measurements(&data, backend, font, pieces, profile)
            &&& bounded_to(&data, data.kinds@.len() as int)
        },
        Err(error) => measuring_fault(backend, font, pieces, profile, error),
    }
}

/// What was measured is well-formed.
proof fn lemma_measurements_are_well_formed<W: Scalar, B: MeasureBackend<W>>(
    data: &PreparedData<W>,
    backend: &B,
    font: FontView<W>,
    pieces: Seq<Piece>,
    profile: EngineProfile<W>,
)
    requires
        holds_measurements(data, backend, font, pieces, profile),
        profile.valid(),
    ensures
        data.well_formed(),
{
    let hyphen = data.discretionary_hyphen_width;
    assert forall|i: int| 0 <= i < data.kinds@.len() implies {
        &&& is_width(#[trigger] data.widths@[i])
        &&& is_width(data.line_end_fit_advances@[i])
        &&& is_width(data.line_end_paint_advances@[i])
    } by {
        assert(data.kinds@[i] == pieces[i].kind);
        lemma_entry_is_well_formed(backend, font, pieces[i], hyphen, entry_at(data, i));
    }
    assert forall|i: int, k: int|
        #![trigger data.breakable(i)->0[k]]
        0 <= i < data.kinds@.len() && data.breakable(i) is Some && 0 <= k < data.breakable(
            i,
        )->0.len() implies is_width(data.breakable(i)->0[k]) by {
        lemma_entry_is_well_formed(backend, font, pieces[i], hyphen, entry_at(data, i));
    }
    assert forall|i: int|
        0 <= i < data.kinds@.len() && #[trigger] data.breakable(i) is Some implies data.kinds@[i]
        == SegmentKind::Text by {
        assert(data.kinds@[i] == pieces[i].kind);
        lemma_entry_is_well_formed(backend, font, pieces[i], hyphen, entry_at(data, i));
    }
    assert forall|i: int|
        0 <= i < data.kinds@.len() && #[trigger] data.kinds@[i]
            == SegmentKind::SoftHyphen implies data.line_end_fit_advances@[i] == hyphen
        && data.line_end_paint_advances@[i] == hyphen by {
        assert(data.kinds@[i] == pieces[i].kind);
        assert(!is_measured(pieces[i]));
        assert(piece_outcome(backend, font, pieces[i], hyphen, Ok(entry_at(data, i))));
    }
    assert forall|i: int| 0 <= i < data.kinds@.len() implies {
        &&& #[trigger] data.kinds@[i] == SegmentKind::Text ==> data.line_end_paint_advances@[i]
            == data.widths@[i]
        &&& hangs(data.kinds@[i]) ==> data.line_end_fit_advances@[i] == W::zero_value()
        &&& data.kinds@[i] == SegmentKind::ZeroWidthBreak ==> data.widths@[i] == W::zero_value()
    } by {
        assert(data.kinds@[i] == pieces[i].kind);
        assert(piece_outcome(backend, font, pieces[i], hyphen, Ok(entry_at(data, i))));
    }
}

proof fn lemma_entry_is_well_formed<W: Scalar, B: MeasureBackend<W>>(
    backend: &B,
    font: FontView<W>,
    piece: Piece,
    hyphen: W,
    entry: EntryView<W>,
)
    requires
        piece_outcome(backend, font, piece, hyphen, Ok(entry)),
        is_width(hyphen),
    ensures
        is_width(entry.width),
        is_width(entry.fit),
        is_width(entry.paint),
        entry.breakable matches Some(widths) ==> {
            &&& piece.kind == SegmentKind::Text
            &&& forall|k: int| 0 <= k < widths.len() ==> is_width(#[trigger] widths[k])
        },
{
}

/// Whether a kind occurs among segments.
fn has_kind(segments: &Vec<AnalysisSegment>, kind: SegmentKind) -> (r: bool)
    ensures
        r == kinds_of(pieces_of(segments@)).contains(kind),
{
    let ghost kinds = kinds_of(pieces_of(segments@));
    let mut index: usize = 0;
    while index < segments.len()
        invariant
            index <= segments@.len(),
            kinds == kinds_of(pieces_of(segments@)),
            forall|k: int| 0 <= k < index ==> #[trigger] kinds[k] != kind,
        decreases segments@.len() - index,
    {
        proof {
            assert(kinds[index as int] == segments@[index as int].kind);
        }
        if segments[index].kind == kind {
            return true;
        }
        index += 1;
    }
    false
}

/// Take tab stops from the width of a space.
pub fn accept_tab_stop<W: Scalar>(reply: Result<W, Error>) -> (r: Result<W, Error>)
    ensures
        tab_stop_outcome(reply, r),
{
    match reply {
        Err(error) => Err(error),
        Ok(width) => match validate_metric("space width", width) {
            Err(error) => Err(error),
            Ok(space) => validate_metric("tab stop advance", space.mul(W::ratio(8, 1))),
        },
    }
}

/// Take the width of a hyphen.
pub fn accept_hyphen_width<W: Scalar>(reply: Result<W, Error>) -> (r: Result<W, Error>)
    ensures
        hyphen_width_outcome(reply, r),
{
    match reply {
        Err(error) => Err(error),
        Ok(width) => validate_metric("hyphen width", width),
    }
}

/// Whether breakable segments have one width for each grapheme, and their
/// graphemes are their text.
pub open spec fn splits_as<W: Scalar>(data: &PreparedData<W>, segments: Seq<Seq<char>>) -> bool {
    forall|i: int|
        0 <= i < data.count() && #[trigger] data.breakable(i) is Some ==> {
            &&& data.breakable(i)->0.len() == grapheme_clusters(segments[i]).len()
            &&& joins_up(segments[i])
        }
}

/// Measure an already-analyzed text.
pub fn measure_analysis<W: Scalar, B: MeasureBackend<W>>(
    analysis: &AnalysisResult,
    font: &FontSpec<W>,
    backend: &B,
    profile: EngineProfile<W>,
) -> (r: Result<PreparedData<W>, Error>)
    requires
        analysis_of(*analysis, pieces_of(analysis.segments@)),
        profile.valid(),
    ensures
        measuring_outcome(backend, font@, pieces_of(analysis.segments@), profile, r),
        r matches Ok(data) ==> data.well_formed() && splits_as(
            &data,
            texts_of(pieces_of(analysis.segments@)),
        ),
{
    let ghost pieces = pieces_of(analysis.segments@);
    let ghost all_kinds = kinds_of(pieces);
    let tab_stop_advance = if has_kind(&analysis.segments, SegmentKind::Tab) {
        match accept_tab_stop(backend.measure_space_width(font)) {
            Ok(advance) => advance,
            Err(error) => {
                return Err(error);
            },
        }
    } else {
        W::zero()
    };
    proof {
        assert(tab_outcome(backend, font@, all_kinds, Ok(tab_stop_advance)));
    }
    let hyphen_width = if has_kind(&analysis.segments, SegmentKind::SoftHyphen) {
        match accept_hyphen_width(backend.measure_hyphen_width(font)) {
            Ok(width) => width,
            Err(error) => {
                return Err(error);
            },
        }
    } else {
        W::zero()
    };
    proof {
        assert(hyphen_outcome(backend, font@, all_kinds, Ok(hyphen_width)));
    }
    let mut data = PreparedData {
        widths: Vec::new(),
        line_end_fit_advances: Vec::new(),
        line_end_paint_advances: Vec::new(),
        kinds: Vec::new(),
        breakable_widths: Vec::new(),
        chunks: to_prepared_chunks(&analysis.chunks),
        tab_stop_advance,
        discretionary_hyphen_width: hyphen_width,
        simple_fast_path: analysis.simple_fast_path,
        profile,
    };
    let mut index: usize = 0;
    while index < analysis.segments.len()
        invariant
            index <= analysis.segments@.len(),
            pieces == pieces_of(analysis.segments@),
            all_kinds == kinds_of(pieces),
            tab_outcome(backend, font@, all_kinds, Ok(tab_stop_advance)),
            hyphen_outcome(backend, font@, all_kinds, Ok(hyphen_width)),
            data.kinds@ == all_kinds.take(index as int),
            data.widths@.len() == index,
            data.line_end_fit_advances@.len() == index,
            data.line_end_paint_advances@.len() == index,
            data.breakable_widths@.len() == index,
            forall|i: int|
                0 <= i < index ==> piece_outcome(
                    backend,
                    font@,
                    #[trigger] pieces[i],
                    hyphen_width,
                    Ok(entry_at(&data, i)),
                ),
            forall|i: int|
                0 <= i < index && is_measured(#[trigger] pieces[i]) ==> joins_up(pieces[i].text),
            data.chunks@ == prepared_chunks(analysis.chunks@),
            data.tab_stop_advance == tab_stop_advance,
            data.discretionary_hyphen_width == hyphen_width,
            data.simple_fast_path == analysis.simple_fast_path,
            data.profile == profile,
        decreases analysis.segments@.len() - index,
    {
        let segment = &analysis.segments[index];
        proof {
            assert(pieces[index as int] == segment@);
        }
        let entry = match measure_piece(segment, font, backend, hyphen_width) {
            Ok(entry) => entry,
            Err(error) => {
                proof {
                    assert forall|k: int| 0 <= k < index implies may_succeed(
                        backend,
                        font@,
                        #[trigger] pieces[k],
                        hyphen_width,
                    ) by {
                        let entry = entry_at(&data, k);
                        assert(piece_outcome(backend, font@, pieces[k], hyphen_width, Ok(entry)));
                    }
                    assert(piece_fault_at(
                        backend,
                        font@,
                        pieces,
                        hyphen_width,
                        index as int,
                        error,
                    ));
                }
                return Err(error);
            },
        };
        let ghost before = data;
        let ghost measured = entry@;
        data.kinds.push(segment.kind);
        data.widths.push(entry.width);
        data.line_end_fit_advances.push(entry.line_end_fit_advance);
        data.line_end_paint_advances.push(entry.line_end_paint_advance);
        data.breakable_widths.push(entry.breakable_widths);
        proof {
            assert(data.kinds@ =~= all_kinds.take(index + 1));
            assert forall|i: int| 0 <= i < index + 1 implies piece_outcome(
                backend,
                font@,
                #[trigger] pieces[i],
                hyphen_width,
                Ok(entry_at(&data, i)),
            ) by {
                if i < index {
                    assert(entry_at(&data, i) == entry_at(&before, i));
                } else {
                    assert(entry_at(&data, i) == measured);
                }
            }
        }
        index += 1;
    }
    proof {
        assert(all_kinds.take(index as int) =~= all_kinds);
        assert(holds_measurements(&data, backend, font@, pieces, profile));
        lemma_measurements_are_well_formed(&data, backend, font@, pieces, profile);
        assert forall|i: int|
            0 <= i < data.count() && #[trigger] data.breakable(i) is Some implies {
            &&& data.breakable(i)->0.len() == grapheme_clusters(texts_of(pieces)[i]).len()
            &&& joins_up(texts_of(pieces)[i])
        } by {
            assert(texts_of(pieces)[i] == pieces[i].text);
            assert(piece_outcome(
                backend,
                font@,
                pieces[i],
                hyphen_width,
                Ok(entry_at(&data, i)),
            ));
        }
    }
    match validate_prepared_width_bound(&data) {
        Ok(()) => Ok(data),
        Err(error) => {
            proof {
                let k = choose|k: int| #[trigger] bound_fault_at(&data, k, error);
                assert(holds_measurements(&data, backend, font@, pieces, profile)
                    && bound_fault_at(&data, k, error));
            }
            Err(error)
        },
    }
}

// ---- Preparing a text --------------------------------------------------------------

/// What preparing a text may give. Every limit is checked before anything is
/// measured.
pub open spec fn prepare_outcome<W: Scalar, B: MeasureBackend<W>>(
    text: Seq<char>,
    font: FontView<W>,
    backend: &B,
    options: PrepareOptions<W>,
    outcome: Result<PreparedData<W>, Error>,
) -> bool {
    let clusters = grapheme_clusters(text).len();
    let pieces = analyzed(text, options.white_space);
    if !size_fits(text, clusters, options) {
        outcome matches Err(error) && size_fault(text, clusters, options, error)
    } else if !options.chosen_profile().valid() {
        outcome matches Err(error) && invalid_profile(error)
    } else if pieces.len() > options.max_segments {
        outcome matches Err(error) && error.exceeds(
            "analyzed text segments"@,
            pieces.len(),
            options.max_segments as nat,
        )
    } else {
        measuring_outcome(backend, font, pieces, options.chosen_profile(), outcome)
    }
}

/// Analyze a text within the limits.
///
/// # Errors
///
/// Rejects a text that is too large or too complex, and an invalid profile.
pub fn analyze_within<W: Scalar>(text: &str, options: &PrepareOptions<W>) -> (r: Result<
    (AnalysisResult, EngineProfile<W>),
    Error,
>)
    ensures
        ({
            let clusters = grapheme_clusters(text@).len();
            let pieces = analyzed(text@, options.white_space);
            match r {
                Ok((analysis, profile)) => {
                    &&& size_fits(text@, clusters, *options)
                    &&& profile == options.chosen_profile()
                    &&& profile.valid()
                    &&& pieces.len() <= options.max_segments
                    &&& analysis_of(analysis, pieces)
                    &&& sound(pieces, normalized_text(text@, options.white_space))
                },
                Err(error) => if !size_fits(text@, clusters, *options) {
                    size_fault(text@, clusters, *options, error)
                } else if !options.chosen_profile().valid() {
                    invalid_profile(error)
                } else {
                    pieces.len() > options.max_segments && error.exceeds(
                        "analyzed text segments"@,
                        pieces.len(),
                        options.max_segments as nat,
                    )
                },
            }
        }),
{
    if let Err(error) = validate_input_complexity(text, options) {
        return Err(error);
    }
    let profile = match options.profile {
        Some(profile) => profile,
        None => EngineProfile::native(),
    };
    if let Err(error) = profile.validate() {
        return Err(error);
    }
    let analysis = analyze_text(text, options.white_space);
    if let Err(error) = validate_analysis_complexity(&analysis, options.max_segments) {
        return Err(error);
    }
    Ok((analysis, profile))
}

/// Prepare text for layout -- the expensive phase.
///
/// Analyzes the text into segments, measures each segment using the
/// provided backend, and produces a `PreparedText` handle containing
/// all the data needed for the fast `layout()` path.
///
/// Call this once per (text, font) pair. Then call `layout()` as many
/// times as needed with different widths.
///
/// # Errors
///
/// Returns an error when the text exceeds a limit, the profile is invalid, or
/// the backend fails or answers with unusable metrics.
pub fn prepare<W: Scalar, B: MeasureBackend<W>>(
    text: &str,
    font: &FontSpec<W>,
    backend: &B,
    options: PrepareOptions<W>,
) -> (r: Result<PreparedText<W>, Error>)
    ensures
        prepare_outcome(text@, font@, backend, options, data_result(r)),
        r matches Ok(prepared) ==> prepared@.well_formed(),
{
    let (analysis, profile) = match analyze_within(text, &options) {
        Ok(found) => found,
        Err(error) => {
            return Err(error);
        },
    };
    match measure_analysis(&analysis, font, backend, profile) {
        Ok(data) => Ok(PreparedText::from_data(data)),
        Err(error) => Err(error),
    }
}

/// The data of prepared text, or the error.
pub open spec fn data_result<W>(result: Result<PreparedText<W>, Error>) -> Result<
    PreparedData<W>,
    Error,
> {
    match result {
        Ok(prepared) => Ok(prepared@),
        Err(error) => Err(error),
    }
}

/// The data of rich prepared text, or the error.
pub open spec fn rich_data_result<W>(result: Result<PreparedTextWithSegments<W>, Error>) -> Result<
    PreparedData<W>,
    Error,
> {
    match result {
        Ok(prepared) => Ok(prepared@.data),
        Err(error) => Err(error),
    }
}

/// The scalar at which each text starts when they stand one after the other.
pub open spec fn starts_of(texts: Seq<Seq<char>>) -> Seq<usize> {
    Seq::new(texts.len(), |i: int| joined(texts.take(i)).len() as usize)
}

/// The bidi levels at the starts of texts that stand one after the other.
pub open spec fn segment_levels(texts: Seq<Seq<char>>) -> Option<Seq<i8>> {
    let text = joined(texts);
    match directional_levels(text, byte_levels(text)) {
        Some(levels) => Some(levels_at(levels, starts_of(texts))),
        None => None,
    }
}

/// Whether rich text is aligned: there is a segment for each entry, which is what
/// its kind says, with a grapheme for each of its widths, and a level where
/// there are any.
pub open spec fn aligned<W: Scalar>(rich: RichText<W>) -> bool {
    &&& rich.data.well_formed()
    &&& rich.segments.len() == rich.data.count()
    &&& forall|i: int|
        0 <= i < rich.segments.len() ==> proper(
            plain(#[trigger] rich.segments[i], rich.data.kinds@[i]),
        )
    &&& splits_as(&rich.data, rich.segments)
    &&& rich.seg_levels matches Some(levels) ==> levels.len() == rich.segments.len()
}

/// The texts of segments.
fn segment_strings(segments: &Vec<AnalysisSegment>) -> (r: Vec<String>)
    ensures
        views(r@) == texts_of(pieces_of(segments@)),
{
    let ghost texts = texts_of(pieces_of(segments@));
    let mut strings: Vec<String> = Vec::new();
    let mut index: usize = 0;
    while index < segments.len()
        invariant
            index <= segments@.len(),
            texts == texts_of(pieces_of(segments@)),
            views(strings@) == texts.take(index as int),
        decreases segments@.len() - index,
    {
        let ghost before = strings@;
        let copy = segments[index].text.clone();
        strings.push(copy);
        proof {
            assert(texts[index as int] == segments@[index as int].text@);
            assert(views(strings@) =~= views(before).push(copy@));
            assert(views(strings@) =~= texts.take(index + 1));
        }
        index += 1;
    }
    proof {
        assert(texts.take(index as int) =~= texts);
    }
    strings
}

/// The prefix of texts is a prefix of their join, and ends before it where the
/// next text is not empty.
proof fn lemma_start_inside(texts: Seq<Seq<char>>, index: int)
    requires
        0 <= index < texts.len(),
        forall|i: int| 0 <= i < texts.len() ==> (#[trigger] texts[i]).len() > 0,
    ensures
        joined(texts.take(index)).len() < joined(texts).len(),
        joined(texts.take(index + 1)) == joined(texts.take(index)) + texts[index],
{
    assert(texts.take(index + 1).drop_last() =~= texts.take(index));
    assert(texts =~= texts.take(index + 1) + texts.skip(index + 1));
    lemma_joined_concat(texts.take(index + 1), texts.skip(index + 1));
    assert(texts.take(index + 1).last() == texts[index]);
}

/// Compute the bidi levels at the starts of segments.
fn levels_of_segments(segments: &Vec<String>) -> (r: Result<Option<Vec<i8>>, Error>)
    requires
        forall|i: int| 0 <= i < segments@.len() ==> (#[trigger] segments@[i])@.len() > 0,
    ensures
        match segment_levels(views(segments@)) {
            Some(levels) => r matches Ok(Some(found)) && found@ == levels,
            None => r matches Ok(None),
        },
{
    let ghost texts = views(segments@);
    let mut normalized = String::new();
    let mut index: usize = 0;
    proof {
        assert(texts.take(0) =~= Seq::empty());
        assert(normalized@ =~= joined(texts.take(0)));
        assert forall|i: int| 0 <= i < texts.len() implies (#[trigger] texts[i]).len() > 0 by {
            assert(texts[i] == segments@[i]@);
        }
    }
    while index < segments.len()
        invariant
            index <= segments@.len(),
            texts == views(segments@),
            forall|i: int| 0 <= i < texts.len() ==> (#[trigger] texts[i]).len() > 0,
            normalized@ == joined(texts.take(index as int)),
        decreases segments@.len() - index,
    {
        proof {
            lemma_start_inside(texts, index as int);
            assert(texts[index as int] == segments@[index as int]@);
        }
        normalized.append(segments[index].as_str());
        index += 1;
    }
    proof {
        assert(texts.take(index as int) =~= texts);
    }
    let chars = chars_of(normalized.as_str());
    let mut starts: Vec<usize> = Vec::new();
    let mut cursor: usize = 0;
    index = 0;
    proof {
        assert(starts@ =~= starts_of(texts).take(0));
        assert(chars.len() == joined(texts).len());
    }
    while index < segments.len()
        invariant
            index <= segments@.len(),
            texts == views(segments@),
            forall|i: int| 0 <= i < texts.len() ==> (#[trigger] texts[i]).len() > 0,
            chars.len() == joined(texts).len(),
            cursor == joined(texts.take(index as int)).len(),
            starts@ == starts_of(texts).take(index as int),
            forall|k: int| 0 <= k < starts@.len() ==> #[trigger] starts@[k] < joined(texts).len(),
        decreases segments@.len() - index,
    {
        proof {
            lemma_start_inside(texts, index as int);
            assert(texts[index as int] == segments@[index as int]@);
            if index + 1 < texts.len() {
                lemma_start_inside(texts, index + 1);
            } else {
                assert(texts.take(index + 1) =~= texts);
            }
        }
        starts.push(cursor);
        cursor += chars_of(segments[index].as_str()).len();
        proof {
            assert(starts@ =~= starts_of(texts).take(index + 1));
        }
        index += 1;
    }
    proof {
        assert(starts@ =~= starts_of(texts));
    }
    compute_segment_levels(normalized.as_str(), starts.as_slice())
}

/// Prepare text with segment strings -- for `layout_with_lines()`.
///
/// Same as `prepare()` but also retains the segment text and the bidi level at
/// the start of each segment, enabling line content materialization.
///
/// # Errors
///
/// Fails as `prepare()` does.
pub fn prepare_with_segments<W: Scalar, B: MeasureBackend<W>>(
    text: &str,
    font: &FontSpec<W>,
    backend: &B,
    options: PrepareOptions<W>,
) -> (r: Result<PreparedTextWithSegments<W>, Error>)
    ensures
        prepare_outcome(text@, font@, backend, options, rich_data_result(r)),
        r matches Ok(prepared) ==> {
            &&& prepared@.segments == texts_of(analyzed(text@, options.white_space))
            &&& prepared@.seg_levels == segment_levels(prepared@.segments)
            &&& joined(prepared@.segments) == normalized_text(text@, options.white_space)
            &&& aligned(prepared@)
        },
{
    let (analysis, profile) = match analyze_within(text, &options) {
        Ok(found) => found,
        Err(error) => {
            return Err(error);
        },
    };
    let data = match measure_analysis(&analysis, font, backend, profile) {
        Ok(data) => data,
        Err(error) => {
            return Err(error);
        },
    };
    let segments = segment_strings(&analysis.segments);
    proof {
        let pieces = pieces_of(analysis.segments@);
        assert forall|i: int| 0 <= i < segments@.len() implies (#[trigger] segments@[i])@.len()
            > 0 by {
            assert(views(segments@)[i] == segments@[i]@);
            assert(texts_of(pieces)[i] == pieces[i].text);
            assert(proper(pieces[i]));
        }
    }
    let seg_levels = match levels_of_segments(&segments) {
        Ok(levels) => levels,
        Err(error) => {
            return Err(error);
        },
    };
    proof {
        let pieces = pieces_of(analysis.segments@);
        assert forall|i: int| 0 <= i < segments@.len() implies proper(
            plain(#[trigger] views(segments@)[i], data.kinds@[i]),
        ) by {
            assert(texts_of(pieces)[i] == pieces[i].text);
            assert(proper(pieces[i]));
            assert(data.kinds@[i] == pieces[i].kind);
        }
    }
    Ok(PreparedTextWithSegments::from_parts(data, segments, seg_levels))
}

// ---- Profiling -----------------------------------------------------------------------

/// The number of the first `count` segments that can be broken inside.
pub open spec fn breakable_count<W: Scalar>(data: &PreparedData<W>, count: int) -> nat
    decreases count,
{
    if count <= 0 {
        0
    } else {
        breakable_count(data, count - 1) + if data.breakable(count - 1) is Some {
            1nat
        } else {
            0
        }
    }
}

/// Count the segments that can be broken inside.
fn count_breakable<W: Scalar>(data: &PreparedData<W>) -> (r: usize)
    ensures
        r == breakable_count(data, data.breakable_widths@.len() as int),
{
    let mut count: usize = 0;
    let mut index: usize = 0;
    while index < data.breakable_widths.len()
        invariant
            index <= data.breakable_widths@.len(),
            count == breakable_count(data, index as int),
            count <= index,
        decreases data.breakable_widths@.len() - index,
    {
        if data.breakable_widths[index].is_some() {
            count += 1;
        }
        index += 1;
    }
    count
}

/// Whether a profile shows prepared data, timed by a clock that read `start`,
/// `analyzed` and `end`.
pub open spec fn profiles<W: Scalar>(
    profile: PrepareProfile<W>,
    data: &PreparedData<W>,
    start: W,
    analyzed: W,
    end: W,
) -> bool {
    &&& profile.analysis_ms == analyzed.minus(start)
    &&& profile.measure_ms == end.minus(analyzed)
    &&& profile.total_ms == end.minus(start)
    &&& profile.analysis_segments == data.kinds@.len()
    &&& profile.prepared_segments == data.widths@.len()
    &&& profile.breakable_segments == breakable_count(data, data.breakable_widths@.len() as int)
}

/// Whether a profile shows prepared data under some three readings of the clock.
pub open spec fn timed<W: Scalar, F: Fn() -> W>(
    now: F,
    profile: PrepareProfile<W>,
    data: &PreparedData<W>,
) -> bool {
    exists|start: W, analyzed: W, end: W|
        {
            &&& call_ensures(now, (), start)
            &&& call_ensures(now, (), analyzed)
            &&& call_ensures(now, (), end)
            &&& #[trigger] profiles(profile, data, start, analyzed, end)
        }
}

/// Whether a profile shows what a text may be prepared as.
pub open spec fn profiled<W: Scalar, B: MeasureBackend<W>, F: Fn() -> W>(
    text: Seq<char>,
    font: FontView<W>,
    backend: &B,
    options: PrepareOptions<W>,
    now: F,
    profile: PrepareProfile<W>,
) -> bool {
    exists|data: PreparedData<W>|
        {
            &&& prepare_outcome(text, font, backend, options, Ok(data))
            &&& #[trigger] timed(now, profile, &data)
        }
}

/// Put a profile together from three readings of a clock in milliseconds: before
/// the analysis, behind it, and behind the measurement.
#[must_use]
pub fn profile_of<W: Scalar>(data: &PreparedData<W>, start: W, analyzed: W, end: W) -> (r:
    PrepareProfile<W>)
    ensures
        profiles(r, data, start, analyzed, end),
{
    PrepareProfile {
        analysis_ms: analyzed.sub(start),
        measure_ms: end.sub(analyzed),
        total_ms: end.sub(start),
        analysis_segments: data.kinds.len(),
        prepared_segments: data.widths.len(),
        breakable_segments: count_breakable(data),
    }
}

/// Diagnostic helper that runs the prepare pipeline while separating the
/// analysis and measurement timings. `now` reads a clock in milliseconds.
///
/// # Errors
///
/// Fails as `prepare()` does.
pub fn profile_prepare<W: Scalar, B: MeasureBackend<W>, F: Fn() -> W>(
    text: &str,
    font: &FontSpec<W>,
    backend: &B,
    options: PrepareOptions<W>,
    now: F,
) -> (r: Result<PrepareProfile<W>, Error>)
    requires
        call_requires(now, ()),
    ensures
        match r {
            Ok(profile) => profiled(text@, font@, backend, options, now, profile),
            Err(error) => prepare_outcome(
                text@,
                font@,
                backend,
                options,
                Err::<PreparedData<W>, Error>(error),
            ),
        },
{
    let start = now();
    let (analysis, engine) = match analyze_within(text, &options) {
        Ok(found) => found,
        Err(error) => {
            return Err(error);
        },
    };
    let analyzed = now();
    let measured = measure_analysis(&analysis, font, backend, engine);
    proof {
        assert(prepare_outcome(text@, font@, backend, options, measured));
    }
    let data = match measured {
        Ok(data) => data,
        Err(error) => {
            return Err(error);
        },
    };
    let end = now();
    let profile = profile_of(&data, start, analyzed, end);
    proof {
        assert(profiles(profile, &data, start, analyzed, end));
        assert(timed(now, profile, &data));
        assert(profiled(text@, font@, backend, options, now, profile));
    }
    Ok(profile)
}

} // verus!
