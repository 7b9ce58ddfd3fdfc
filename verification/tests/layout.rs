//! Preparation, line breaking, line materialization and inline flow in
//! double-precision pixels.
use pretext::backend::MeasureBackend;
use pretext::inline_flow::{
    prepare_inline_flow, prepare_inline_flow_with_options, BreakMode, InlineFlowCursor,
    InlineFlowOptions,
};
use pretext::scalar::{Count, Scalar, Text};
use pretext::types::{
    LayoutCursor, PreparedLineChunk, SegmentKind, WhiteSpaceMode, DEFAULT_MAX_GRAPHEMES,
    DEFAULT_MAX_INPUT_BYTES, DEFAULT_MAX_SEGMENTS,
};
use pretext::{prepare, prepare_with_segments, Error};
use std::cell::Cell;
use std::time::Instant;
use unicode_segmentation::UnicodeSegmentation;

/// Pixels in double precision.
#[derive(Debug, Clone, Copy, PartialEq, PartialOrd)]
struct Px(f64);

impl Scalar for Px {
    fn zero_value() -> Self {
        Px(0.0)
    }

    fn infinite_value() -> Self {
        Px(f64::INFINITY)
    }

    fn ratio_value(_numerator: Count, _denominator: Count) -> Self {
        unreachable!("specifications are not run")
    }

    fn plus(self, other: Self) -> Self {
        Px(self.0 + other.0)
    }

    fn minus(self, other: Self) -> Self {
        Px(self.0 - other.0)
    }

    fn times(self, other: Self) -> Self {
        Px(self.0 * other.0)
    }

    fn modulo(self, other: Self) -> Self {
        Px(self.0 % other.0)
    }

    fn larger(self, other: Self) -> Self {
        Px(self.0.max(other.0))
    }

    fn at_most(self, other: Self) -> bool {
        self.0 <= other.0
    }

    fn below(self, other: Self) -> bool {
        self.0 < other.0
    }

    fn finite(self) -> bool {
        self.0.is_finite()
    }

    fn parsed(_text: Text) -> Option<Self> {
        unreachable!("specifications are not run")
    }

    fn shown(self) -> Text {
        unreachable!("specifications are not run")
    }

    fn encoded(self) -> u64 {
        self.0.to_bits()
    }

    fn decoded(bits: u64) -> Self {
        Px(f64::from_bits(bits))
    }

    fn zero() -> Self {
        Px::zero_value()
    }

    fn infinity() -> Self {
        Px::infinite_value()
    }

    fn ratio(numerator: usize, denominator: usize) -> Self {
        Px(numerator as f64 / denominator as f64)
    }

    fn add(self, other: Self) -> Self {
        self.plus(other)
    }

    fn sub(self, other: Self) -> Self {
        self.minus(other)
    }

    fn mul(self, other: Self) -> Self {
        self.times(other)
    }

    fn rem(self, other: Self) -> Self {
        self.modulo(other)
    }

    fn max(self, other: Self) -> Self {
        self.larger(other)
    }

    fn le(self, other: Self) -> bool {
        self.at_most(other)
    }

    fn lt(self, other: Self) -> bool {
        self.below(other)
    }

    fn is_finite(self) -> bool {
        self.finite()
    }

    fn parse(text: &str) -> Option<Self> {
        text.parse().ok().map(Px)
    }

    fn show(self) -> String {
        format!("{}", self.0)
    }

    fn to_bits(self) -> u64 {
        self.encoded()
    }

    fn from_bits(bits: u64) -> Self {
        Px::decoded(bits)
    }
}

impl PartialEq<f64> for Px {
    fn eq(&self, other: &f64) -> bool {
        self.0 == *other
    }
}

impl PartialOrd<f64> for Px {
    fn partial_cmp(&self, other: &f64) -> Option<std::cmp::Ordering> {
        self.0.partial_cmp(other)
    }
}

impl std::ops::Add<f64> for Px {
    type Output = f64;

    fn add(self, other: f64) -> f64 {
        self.0 + other
    }
}

impl std::ops::Sub<f64> for Px {
    type Output = f64;

    fn sub(self, other: f64) -> f64 {
        self.0 - other
    }
}

type EngineProfile = pretext::types::EngineProfile<Px>;
type FixedWidthBackend = pretext::backend::fixed::FixedWidthBackend<Px>;
type FontSpec = pretext::backend::FontSpec<Px>;
type InlineFlowItem = pretext::inline_flow::InlineFlowItem<Px>;
type InlineFlowLine = pretext::inline_flow::InlineFlowLine<Px>;
type InternalLine = pretext::line_break::InternalLine<Px>;
type LayoutLine = pretext::types::LayoutLine<Px>;
type LayoutLineRange = pretext::types::LayoutLineRange<Px>;
type LayoutResult = pretext::types::LayoutResult<Px>;
type PrepareOptions = pretext::types::PrepareOptions<Px>;
type PrepareProfile = pretext::types::PrepareProfile<Px>;
type PreparedData = pretext::types::PreparedData<Px>;
type PreparedInlineFlow = pretext::inline_flow::PreparedInlineFlow<Px>;
type PreparedText = pretext::types::PreparedText<Px>;
type PreparedTextWithSegments = pretext::types::PreparedTextWithSegments<Px>;
type SegmentEntry = pretext::prepare::SegmentEntry<Px>;
type SegmentMetrics = pretext::backend::SegmentMetrics<Px>;

// ---- The library's functions on plain numbers -----------------------------------


fn valid<T>(result: Result<T, Error>) -> T {
    result.expect("test input is valid")
}

fn count_lines_simple(data: &PreparedData, max_width: f64, profile: &EngineProfile) -> usize {
    pretext::line_break::count_lines_simple(data, Px(max_width), profile)
}

fn count_lines_full(data: &PreparedData, max_width: f64, profile: &EngineProfile) -> usize {
    pretext::line_break::count_lines_full(data, Px(max_width), profile)
}

fn walk_lines_simple(
    data: &PreparedData,
    max_width: f64,
    profile: &EngineProfile,
    on_line: impl FnMut(InternalLine),
) {
    pretext::line_break::walk_lines_simple(data, Px(max_width), profile)
        .into_iter()
        .for_each(on_line);
}

fn walk_lines_full(
    data: &PreparedData,
    max_width: f64,
    profile: &EngineProfile,
    on_line: impl FnMut(InternalLine),
) {
    pretext::line_break::walk_lines_full(data, Px(max_width), profile)
        .into_iter()
        .for_each(on_line);
}

fn layout_next_line_range(
    data: &PreparedData,
    start: LayoutCursor,
    max_width: f64,
    profile: &EngineProfile,
) -> Option<(LayoutLineRange, LayoutCursor)> {
    pretext::line_break::layout_next_line_range(data, start, Px(max_width), profile)
}

fn get_tab_advance(current_x: f64, tab_stop_advance: f64) -> f64 {
    pretext::line_break::get_tab_advance(Px(current_x), Px(tab_stop_advance)).0
}

fn layout(prepared: &PreparedText, max_width: f64, line_height: f64) -> Result<LayoutResult, Error> {
    pretext::layout(prepared, Px(max_width), Px(line_height))
}

fn layout_with_lines(
    prepared: &PreparedTextWithSegments,
    max_width: f64,
) -> Result<Vec<LayoutLine>, Error> {
    pretext::layout_with_lines(prepared, Px(max_width))
}

fn layout_next_line(
    prepared: &PreparedText,
    start: LayoutCursor,
    max_width: f64,
) -> Result<Option<(LayoutLineRange, LayoutCursor)>, Error> {
    pretext::layout_next_line(prepared, start, Px(max_width))
}

fn walk_line_ranges(
    prepared: &PreparedText,
    max_width: f64,
    profile: &EngineProfile,
    on_line: impl FnMut(LayoutLineRange),
) -> Result<(), Error> {
    pretext::walk_line_ranges(prepared, Px(max_width), profile)
        .map(|ranges| ranges.into_iter().for_each(on_line))
}

fn measure_natural_width(prepared: &PreparedText) -> Result<f64, Error> {
    pretext::measure_natural_width(prepared).map(|width| width.0)
}

fn materialize_line_text(
    segments: &[String],
    kinds: &[SegmentKind],
    start_segment: usize,
    start_grapheme: usize,
    end_segment: usize,
    end_grapheme: usize,
    hyphen: bool,
) -> String {
    let start = LayoutCursor::new(start_segment, start_grapheme);
    let end = LayoutCursor::new(end_segment, end_grapheme);
    pretext::layout::materialize_line_text(segments, kinds, start, end, hyphen)
}

fn profile_prepare<B: MeasureBackend<Px>>(
    text: &str,
    font: &FontSpec,
    backend: &B,
    options: PrepareOptions,
) -> Result<PrepareProfile, Error> {
    let epoch = Instant::now();
    let now = || Px(epoch.elapsed().as_secs_f64() * 1000.0);
    pretext::profile_prepare(text, font, backend, options, now)
}

fn layout_inline_flow(
    prepared: &PreparedInlineFlow,
    max_width: f64,
) -> Result<Vec<InlineFlowLine>, Error> {
    pretext::inline_flow::layout_inline_flow(prepared, Px(max_width))
}

fn measure_inline_flow(
    prepared: &PreparedInlineFlow,
    max_width: f64,
    line_height: f64,
) -> Result<Px, Error> {
    pretext::inline_flow::measure_inline_flow(prepared, Px(max_width), Px(line_height))
}

// ---- Line breaking ----------------------------------------------------------------

fn make_simple_data(widths: &[f64], kinds: &[SegmentKind]) -> PreparedData {
    let n = widths.len();
    let mut fit_advances = Vec::with_capacity(n);
    let mut paint_advances = Vec::with_capacity(n);
    let mut breakable = Vec::with_capacity(n);

    for (i, &w) in widths.iter().enumerate() {
        if kinds[i].hangs_at_line_end() {
            fit_advances.push(Px(0.0));
            paint_advances.push(Px(0.0));
        } else {
            fit_advances.push(Px(w));
            paint_advances.push(Px(w));
        }
        breakable.push(None);
    }

    PreparedData {
        widths: widths.iter().copied().map(Px).collect(),
        line_end_fit_advances: fit_advances,
        line_end_paint_advances: paint_advances,
        kinds: kinds.to_vec(),
        breakable_widths: breakable,
        chunks: vec![PreparedLineChunk {
            start_segment_index: 0,
            end_segment_index: n,
            consumed_end_segment_index: n,
        }],
        tab_stop_advance: Px(48.0),
        discretionary_hyphen_width: Px(5.0),
        simple_fast_path: true,
        profile: EngineProfile::native(),
    }
}

fn make_breakable_word_data(grapheme_count: usize, grapheme_width: f64) -> PreparedData {
    let total_width = (0..grapheme_count).fold(0.0, |width, _| width + grapheme_width);
    let mut data = make_simple_data(&[total_width], &[SegmentKind::Text]);
    data.breakable_widths = vec![Some(vec![Px(grapheme_width); grapheme_count])];
    data
}

fn line_signature(line: &InternalLine) -> (usize, usize, usize, usize, f64) {
    (
        line.start_segment,
        line.start_grapheme,
        line.end_segment,
        line.end_grapheme,
        line.width.0,
    )
}

fn range_signature(line: &LayoutLineRange) -> (usize, usize, usize, usize, f64) {
    (
        line.start.segment_index(),
        line.start.grapheme_index(),
        line.end.segment_index(),
        line.end.grapheme_index(),
        line.width.0,
    )
}

fn line_state_signature(line: &InternalLine) -> (usize, usize, usize, usize, f64, bool) {
    (
        line.start_segment,
        line.start_grapheme,
        line.end_segment,
        line.end_grapheme,
        line.width.0,
        line.ends_with_discretionary_hyphen,
    )
}

fn range_state_signature(line: &LayoutLineRange) -> (usize, usize, usize, usize, f64, bool) {
    (
        line.start.segment_index(),
        line.start.grapheme_index(),
        line.end.segment_index(),
        line.end.grapheme_index(),
        line.width.0,
        line.ends_with_discretionary_hyphen,
    )
}

fn make_control_data(kinds: &[SegmentKind]) -> PreparedData {
    let widths: Vec<_> = kinds
        .iter()
        .map(|kind| match kind {
            SegmentKind::Text | SegmentKind::Glue => 3.0,
            SegmentKind::Space | SegmentKind::PreservedSpace => 1.0,
            SegmentKind::ZeroWidthBreak
            | SegmentKind::SoftHyphen
            | SegmentKind::HardBreak
            | SegmentKind::Tab => 0.0,
        })
        .collect();
    let mut data = make_simple_data(&widths, kinds);
    data.discretionary_hyphen_width = Px(2.0);
    data.tab_stop_advance = Px(4.0);
    for (index, kind) in kinds.iter().enumerate() {
        if *kind == SegmentKind::SoftHyphen {
            if let Some(advance) = data.line_end_fit_advances.get_mut(index) {
                *advance = data.discretionary_hyphen_width;
            }
            if let Some(advance) = data.line_end_paint_advances.get_mut(index) {
                *advance = data.discretionary_hyphen_width;
            }
        }
    }
    data.simple_fast_path = false;
    data
}

fn collect_streaming_lines(data: &PreparedData, max_width: f64) -> Vec<LayoutLineRange> {
    let mut cursor = LayoutCursor::default();
    let mut lines = Vec::new();
    while let Some((line, next)) =
        layout_next_line_range(data, cursor, max_width, &data.profile)
    {
        assert_ne!(next, cursor, "streaming cursor must always make progress");
        lines.push(line);
        cursor = next;
    }
    lines
}

#[test]
fn test_single_word_no_wrap() {
    let data = make_simple_data(&[50.0], &[SegmentKind::Text]);
    let profile = EngineProfile::native();
    assert_eq!(count_lines_simple(&data, 100.0, &profile), 1);
}

#[test]
fn test_two_words_wrap() {
    let data = make_simple_data(
        &[50.0, 5.0, 50.0],
        &[SegmentKind::Text, SegmentKind::Space, SegmentKind::Text],
    );
    let profile = EngineProfile::native();
    assert_eq!(count_lines_simple(&data, 80.0, &profile), 2);
}

#[test]
fn test_three_words_two_wraps() {
    let data = make_simple_data(
        &[40.0, 5.0, 40.0, 5.0, 40.0],
        &[
            SegmentKind::Text,
            SegmentKind::Space,
            SegmentKind::Text,
            SegmentKind::Space,
            SegmentKind::Text,
        ],
    );
    let profile = EngineProfile::native();
    assert_eq!(count_lines_simple(&data, 60.0, &profile), 3);
}

#[test]
fn line_break_test_empty_text() {
    let data = make_simple_data(&[], &[]);
    let profile = EngineProfile::native();
    assert_eq!(count_lines_simple(&data, 100.0, &profile), 1);
}

#[test]
fn test_exact_fit() {
    let data = make_simple_data(
        &[50.0, 5.0, 45.0],
        &[SegmentKind::Text, SegmentKind::Space, SegmentKind::Text],
    );
    let profile = EngineProfile::native();
    assert_eq!(count_lines_simple(&data, 100.0, &profile), 1);
}

#[test]
fn test_walk_lines_produces_correct_ranges() {
    let data = make_simple_data(
        &[50.0, 5.0, 50.0],
        &[SegmentKind::Text, SegmentKind::Space, SegmentKind::Text],
    );
    let profile = EngineProfile::native();

    let mut lines = Vec::new();
    walk_lines_simple(&data, 80.0, &profile, |line| lines.push(line));

    assert_eq!(lines.len(), 2);
    assert_eq!(lines[0].start_segment, 0);
    assert_eq!(lines[1].start_segment, 2);
}

#[test]
fn simple_walker_repeatedly_splits_one_long_segment() {
    let data = make_breakable_word_data(20, 6.0);
    let mut lines = Vec::new();

    walk_lines_simple(&data, 18.0, &data.profile, |line| lines.push(line));

    let signatures: Vec<_> = lines.iter().map(line_signature).collect();
    assert_eq!(count_lines_simple(&data, 18.0, &data.profile), 7);
    assert_eq!(
        signatures,
        vec![
            (0, 0, 0, 3, 18.0),
            (0, 3, 0, 6, 18.0),
            (0, 6, 0, 9, 18.0),
            (0, 9, 0, 12, 18.0),
            (0, 12, 0, 15, 18.0),
            (0, 15, 0, 18, 18.0),
            (0, 18, 1, 0, 12.0),
        ]
    );
}

#[test]
fn full_walker_repeatedly_splits_one_long_segment() {
    let mut data = make_breakable_word_data(20, 6.0);
    data.simple_fast_path = false;
    let mut lines = Vec::new();

    walk_lines_full(&data, 18.0, &data.profile, |line| lines.push(line));

    let signatures: Vec<_> = lines.iter().map(line_signature).collect();
    assert_eq!(count_lines_full(&data, 18.0, &data.profile), 7);
    assert_eq!(
        signatures,
        vec![
            (0, 0, 0, 3, 18.0),
            (0, 3, 0, 6, 18.0),
            (0, 6, 0, 9, 18.0),
            (0, 9, 0, 12, 18.0),
            (0, 12, 0, 15, 18.0),
            (0, 15, 0, 18, 18.0),
            (0, 18, 1, 0, 12.0),
        ]
    );
}

#[test]
fn whole_segment_measurement_preserves_shaping_until_midword_break() {
    let mut data = make_simple_data(&[10.0], &[SegmentKind::Text]);
    // Isolated grapheme measurements deliberately exceed the shaped
    // whole-segment width, as with kerning pairs such as "AV".
    data.breakable_widths = vec![Some(vec![Px(6.0), Px(6.0)])];

    let mut simple = Vec::new();
    walk_lines_simple(&data, 11.0, &data.profile, |line| simple.push(line));
    let streamed = collect_streaming_lines(&data, 11.0);

    assert_eq!(
        simple.iter().map(line_signature).collect::<Vec<_>>(),
        vec![(0, 0, 1, 0, 10.0)]
    );
    assert_eq!(
        simple.iter().map(line_signature).collect::<Vec<_>>(),
        streamed.iter().map(range_signature).collect::<Vec<_>>()
    );

    data.simple_fast_path = false;
    let mut full = Vec::new();
    walk_lines_full(&data, 11.0, &data.profile, |line| full.push(line));
    assert_eq!(
        full.iter().map(line_signature).collect::<Vec<_>>(),
        vec![(0, 0, 1, 0, 10.0)]
    );
}

#[test]
fn glue_never_becomes_a_break_boundary() {
    let mut data = make_simple_data(
        &[6.0, 6.0, 6.0],
        &[SegmentKind::Text, SegmentKind::Glue, SegmentKind::Text],
    );
    data.breakable_widths = vec![None, None, Some(vec![Px(6.0)])];
    data.simple_fast_path = false;

    let mut walked = Vec::new();
    walk_lines_full(&data, 12.0, &data.profile, |line| walked.push(line));
    let streamed = collect_streaming_lines(&data, 12.0);

    assert_eq!(
        walked.iter().map(line_signature).collect::<Vec<_>>(),
        vec![(0, 0, 3, 0, 18.0)]
    );
    assert_eq!(
        walked.iter().map(line_signature).collect::<Vec<_>>(),
        streamed.iter().map(range_signature).collect::<Vec<_>>()
    );
}

#[test]
fn leading_zero_width_break_never_emits_an_empty_line() {
    let mut data = make_simple_data(
        &[0.0, 60.0],
        &[SegmentKind::ZeroWidthBreak, SegmentKind::Text],
    );
    data.breakable_widths = vec![None, Some(vec![Px(6.0); 10])];

    let mut simple = Vec::new();
    walk_lines_simple(&data, 18.0, &data.profile, |line| simple.push(line));
    let streamed = collect_streaming_lines(&data, 18.0);

    assert_eq!(simple.len(), 4);
    assert_eq!(simple[0].width, 18.0);
    assert_eq!(simple[0].start_segment, 0);
    assert_eq!(simple[0].end_segment, 1);
    assert_eq!(simple[0].end_grapheme, 3);
    assert_eq!(
        simple.iter().map(line_signature).collect::<Vec<_>>(),
        streamed.iter().map(range_signature).collect::<Vec<_>>()
    );

    data.simple_fast_path = false;
    let mut full = Vec::new();
    walk_lines_full(&data, 18.0, &data.profile, |line| full.push(line));
    assert_eq!(
        simple.iter().map(line_signature).collect::<Vec<_>>(),
        full.iter().map(line_signature).collect::<Vec<_>>()
    );
}

#[test]
fn non_fitting_soft_hyphen_preserves_the_earlier_fitting_break() {
    for final_is_breakable in [false, true] {
        let mut data = make_control_data(&[
            SegmentKind::Text,
            SegmentKind::Space,
            SegmentKind::SoftHyphen,
            SegmentKind::Text,
        ]);
        if final_is_breakable {
            data.breakable_widths[3] = Some(vec![Px(3.0)]);
        }
        let mut walked = Vec::new();
        walk_lines_full(&data, 5.0, &data.profile, |line| walked.push(line));
        let streamed = collect_streaming_lines(&data, 5.0);

        assert_eq!(walked.len(), 2);
        assert_eq!(walked[0].end_segment, 2);
        assert_eq!(walked[1].start_segment, 2);
        assert_eq!(walked[1].width, 3.0);
        assert!(
            walked
                .iter()
                .all(|line| !line.ends_with_discretionary_hyphen)
        );
        assert_eq!(
            walked.iter().map(line_state_signature).collect::<Vec<_>>(),
            streamed
                .iter()
                .map(range_state_signature)
                .collect::<Vec<_>>()
        );
    }
}

#[test]
fn production_preparation_preserves_control_run_parity() {
    let backend =
        valid(valid(FixedWidthBackend::new().with_char_width(Px(0.3))).with_cjk_width(Px(0.3)));
    let font = valid(FontSpec::new("10px monospace"));

    for text in ["\u{200B}abcdefghij", "a \u{00AD}a", "a \u{00AD}\u{4E2D}"] {
        let prepared = valid(prepare(
            text,
            &font,
            &backend,
            PrepareOptions::default(),
        ));
        let rich = valid(prepare_with_segments(
            text,
            &font,
            &backend,
            PrepareOptions::default(),
        ));
        let rich_lines = valid(layout_with_lines(&rich, 5.0));
        let summary = valid(layout(&prepared, 5.0, 10.0));

        let mut walked = Vec::new();
        valid(walk_line_ranges(
            &prepared,
            5.0,
            &prepared.data().profile,
            |line| walked.push(line),
        ));

        let mut streamed = Vec::new();
        let mut cursor = LayoutCursor::default();
        while let Some((line, next)) = valid(layout_next_line(&prepared, cursor, 5.0)) {
            assert_ne!(next, cursor, "streaming cursor must advance for {text:?}");
            streamed.push(line);
            cursor = next;
        }

        assert_eq!(summary.line_count, rich_lines.len(), "count/rich: {text:?}");
        assert_eq!(walked.len(), rich_lines.len(), "walk/rich: {text:?}");
        assert_eq!(streamed.len(), rich_lines.len(), "stream/rich: {text:?}");
        assert!(
            rich_lines.iter().all(|line| line.width > 0.0),
            "structural controls emitted an empty line for {text:?}"
        );
        assert!(
            rich_lines
                .iter()
                .all(|line| !line.ends_with_discretionary_hyphen),
            "a non-fitting soft hyphen replaced an earlier fitting break for {text:?}"
        );
        assert_eq!(
            walked.iter().map(range_state_signature).collect::<Vec<_>>(),
            streamed
                .iter()
                .map(range_state_signature)
                .collect::<Vec<_>>(),
            "walk/stream state mismatch for {text:?}"
        );
    }
}

#[test]
fn selected_soft_hyphen_state_has_full_and_streaming_parity() {
    let data = make_control_data(&[
        SegmentKind::Text,
        SegmentKind::SoftHyphen,
        SegmentKind::Text,
    ]);
    let mut walked = Vec::new();
    walk_lines_full(&data, 5.0, &data.profile, |line| walked.push(line));
    let streamed = collect_streaming_lines(&data, 5.0);

    assert_eq!(walked.len(), 2);
    assert_eq!(walked[0].width, 5.0);
    assert!(walked[0].ends_with_discretionary_hyphen);
    assert!(!walked[1].ends_with_discretionary_hyphen);
    assert_eq!(
        walked.iter().map(line_state_signature).collect::<Vec<_>>(),
        streamed
            .iter()
            .map(range_state_signature)
            .collect::<Vec<_>>()
    );
}

const KINDS: [SegmentKind; 5] = [
    SegmentKind::Text,
    SegmentKind::Space,
    SegmentKind::ZeroWidthBreak,
    SegmentKind::SoftHyphen,
    SegmentKind::Tab,
];

#[test]
fn short_mixed_control_runs_have_cross_surface_parity() {
    for length in 0..=4 {
        let case_count = (0..length).fold(1_usize, |count, _| count * KINDS.len());
        for encoded in 0..case_count {
            let mut value = encoded;
            let mut kinds = Vec::with_capacity(length);
            for _ in 0..length {
                if let Some(kind) = KINDS.get(value % KINDS.len()) {
                    kinds.push(*kind);
                }
                value /= KINDS.len();
            }

            let data = make_control_data(&kinds);
            for max_width in [0.0, 1.0, 2.0, 3.0, 4.0, 5.0, 8.0, f64::INFINITY] {
                let mut full = Vec::new();
                walk_lines_full(&data, max_width, &data.profile, |line| full.push(line));
                let streamed = collect_streaming_lines(&data, max_width);

                assert_eq!(
                    count_lines_full(&data, max_width, &data.profile),
                    full.len(),
                    "full count mismatch for {kinds:?} at {max_width}"
                );
                assert_eq!(
                    full.iter().map(line_state_signature).collect::<Vec<_>>(),
                    streamed
                        .iter()
                        .map(range_state_signature)
                        .collect::<Vec<_>>(),
                    "full/stream mismatch for {kinds:?} at {max_width}"
                );

                if kinds.iter().all(|kind| {
                    matches!(
                        kind,
                        SegmentKind::Text | SegmentKind::Space | SegmentKind::ZeroWidthBreak
                    )
                }) {
                    let mut simple = Vec::new();
                    walk_lines_simple(&data, max_width, &data.profile, |line| {
                        simple.push(line);
                    });
                    assert_eq!(
                        count_lines_simple(&data, max_width, &data.profile),
                        simple.len(),
                        "simple count mismatch for {kinds:?} at {max_width}"
                    );
                    assert_eq!(
                        simple.iter().map(line_state_signature).collect::<Vec<_>>(),
                        streamed
                            .iter()
                            .map(range_state_signature)
                            .collect::<Vec<_>>(),
                        "simple/stream mismatch for {kinds:?} at {max_width}"
                    );
                }
            }
        }
    }
}

#[test]
fn streaming_repeatedly_advances_through_one_long_segment() {
    let data = make_breakable_word_data(20, 6.0);
    let mut cursor = LayoutCursor::default();
    let mut signatures = Vec::new();

    while let Some((line, next)) = layout_next_line_range(&data, cursor, 18.0, &data.profile) {
        signatures.push((
            line.start.segment_index(),
            line.start.grapheme_index(),
            line.end.segment_index(),
            line.end.grapheme_index(),
            line.width.0,
        ));
        assert_ne!(next, cursor, "streaming cursor must always make progress");
        cursor = next;
    }

    assert_eq!(
        signatures,
        vec![
            (0, 0, 0, 3, 18.0),
            (0, 3, 0, 6, 18.0),
            (0, 6, 0, 9, 18.0),
            (0, 9, 0, 12, 18.0),
            (0, 12, 0, 15, 18.0),
            (0, 15, 0, 18, 18.0),
            (0, 18, 1, 0, 12.0),
        ]
    );
    assert_eq!(cursor, LayoutCursor::new(1, 0));
}

#[test]
fn mid_word_break_makes_progress_when_one_grapheme_exceeds_the_line() {
    let data = make_breakable_word_data(5, 6.0);
    let mut lines = Vec::new();

    walk_lines_simple(&data, 5.0, &data.profile, |line| lines.push(line));

    assert_eq!(lines.len(), 5);
    assert!(
        lines
            .iter()
            .all(|line| (line.width - 6.0).abs() < f64::EPSILON)
    );
    assert_eq!(lines.last().map(line_signature), Some((0, 4, 1, 0, 6.0)));
}

#[test]
fn cjk_like_segments_have_count_walk_and_streaming_parity() {
    let data = make_simple_data(
        &[10.0, 10.0, 10.0, 10.0, 10.0, 10.0, 10.0, 10.0],
        &[SegmentKind::Text; 8],
    );
    let mut walked = Vec::new();
    walk_lines_simple(&data, 30.0, &data.profile, |line| walked.push(line));
    let streamed = collect_streaming_lines(&data, 30.0);

    assert_eq!(count_lines_simple(&data, 30.0, &data.profile), 3);
    assert_eq!(walked.len(), streamed.len());
    assert_eq!(
        walked.iter().map(line_signature).collect::<Vec<_>>(),
        streamed.iter().map(range_signature).collect::<Vec<_>>()
    );
    assert_eq!(
        streamed.iter().map(|line| line.width).collect::<Vec<_>>(),
        vec![30.0, 30.0, 20.0]
    );
}

#[test]
fn zero_width_word_sequence_has_count_walk_and_streaming_parity() {
    let data = make_simple_data(
        &[6.0, 2.5, 6.0, 2.5, 6.0, 2.5, 6.0, 2.5, 6.0, 2.5, 6.0],
        &[
            SegmentKind::Text,
            SegmentKind::Space,
            SegmentKind::Text,
            SegmentKind::Space,
            SegmentKind::Text,
            SegmentKind::Space,
            SegmentKind::Text,
            SegmentKind::Space,
            SegmentKind::Text,
            SegmentKind::Space,
            SegmentKind::Text,
        ],
    );
    let mut walked = Vec::new();
    walk_lines_simple(&data, 0.0, &data.profile, |line| walked.push(line));
    let streamed = collect_streaming_lines(&data, 0.0);

    assert_eq!(count_lines_simple(&data, 0.0, &data.profile), 6);
    assert_eq!(walked.len(), streamed.len());
    assert_eq!(
        walked.iter().map(line_signature).collect::<Vec<_>>(),
        streamed.iter().map(range_signature).collect::<Vec<_>>()
    );
    assert!(
        streamed
            .iter()
            .all(|line| (line.width - 6.0).abs() < f64::EPSILON)
    );
}

#[test]
fn pending_space_does_not_prevent_repeated_word_splitting() {
    let mut data = make_simple_data(
        &[30.0, 2.5, 30.0],
        &[SegmentKind::Text, SegmentKind::Space, SegmentKind::Text],
    );
    data.breakable_widths = vec![Some(vec![Px(6.0); 5]), None, Some(vec![Px(6.0); 5])];

    for (max_width, expected_count) in [(18.0, 4), (0.0, 10)] {
        let mut walked = Vec::new();
        walk_lines_simple(&data, max_width, &data.profile, |line| walked.push(line));
        let streamed = collect_streaming_lines(&data, max_width);

        assert_eq!(
            count_lines_simple(&data, max_width, &data.profile),
            expected_count
        );
        assert_eq!(walked.len(), streamed.len());
        assert_eq!(
            walked.iter().map(line_signature).collect::<Vec<_>>(),
            streamed.iter().map(range_signature).collect::<Vec<_>>()
        );
    }
}

#[test]
fn trailing_hard_break_has_full_walk_and_streaming_parity() {
    let mut data = make_simple_data(
        &[6.0, 0.0, 6.0, 0.0],
        &[
            SegmentKind::Text,
            SegmentKind::HardBreak,
            SegmentKind::Text,
            SegmentKind::HardBreak,
        ],
    );
    data.simple_fast_path = false;
    data.chunks = vec![
        PreparedLineChunk {
            start_segment_index: 0,
            end_segment_index: 1,
            consumed_end_segment_index: 2,
        },
        PreparedLineChunk {
            start_segment_index: 2,
            end_segment_index: 3,
            consumed_end_segment_index: 4,
        },
        PreparedLineChunk {
            start_segment_index: 4,
            end_segment_index: 4,
            consumed_end_segment_index: 4,
        },
    ];
    let mut walked = Vec::new();
    walk_lines_full(&data, 100.0, &data.profile, |line| walked.push(line));
    let streamed = collect_streaming_lines(&data, 100.0);

    assert_eq!(count_lines_full(&data, 100.0, &data.profile), 3);
    assert_eq!(walked.len(), streamed.len());
    assert_eq!(
        walked.iter().map(line_signature).collect::<Vec<_>>(),
        streamed.iter().map(range_signature).collect::<Vec<_>>()
    );
    assert_eq!(
        streamed.iter().map(|line| line.width).collect::<Vec<_>>(),
        vec![6.0, 6.0, 0.0]
    );
}

#[test]
fn tab_advance_is_replayed_for_full_walk_and_streaming_widths() {
    let mut data = make_simple_data(
        &[6.0, 0.0, 6.0],
        &[SegmentKind::Text, SegmentKind::Tab, SegmentKind::Text],
    );
    data.simple_fast_path = false;
    data.tab_stop_advance = Px(20.0);
    let mut walked = Vec::new();
    walk_lines_full(&data, f64::INFINITY, &data.profile, |line| {
        walked.push(line);
    });
    let streamed = collect_streaming_lines(&data, f64::INFINITY);

    assert_eq!(count_lines_full(&data, f64::INFINITY, &data.profile), 1);
    assert_eq!(
        walked.iter().map(line_signature).collect::<Vec<_>>(),
        vec![(0, 0, 3, 0, 26.0)]
    );
    assert_eq!(
        walked.iter().map(line_signature).collect::<Vec<_>>(),
        streamed.iter().map(range_signature).collect::<Vec<_>>()
    );
}

#[test]
fn public_tab_geometry_reports_the_dynamic_advance_on_every_surface() {
    let backend = FixedWidthBackend::new();
    let font = FontSpec::new("10px monospace").expect("test font is valid");
    let options = PrepareOptions {
        white_space: WhiteSpaceMode::PreWrap,
        ..PrepareOptions::default()
    };
    let prepared = prepare("a\tb", &font, &backend, options.clone())
        .expect("test preparation succeeds");
    let rich = prepare_with_segments("a\tb", &font, &backend, options)
        .expect("test preparation with segments succeeds");

    assert_eq!(
        measure_natural_width(&prepared).expect("natural width succeeds"),
        26.0
    );
    let materialized =
        layout_with_lines(&rich, f64::INFINITY).expect("materialized layout succeeds");
    assert_eq!(materialized.first().map(|line| line.width.0), Some(26.0));
    assert_eq!(
        materialized.first().map(|line| line.text.as_str()),
        Some("a\tb")
    );

    let streamed = layout_next_line(&prepared, LayoutCursor::default(), f64::INFINITY)
        .expect("streaming layout succeeds")
        .expect("one line is available");
    assert_eq!(streamed.0.width, 26.0);
    assert_eq!(streamed.0.start, LayoutCursor::new(0, 0));
    assert_eq!(streamed.0.end, LayoutCursor::new(3, 0));
}

const RADIX: usize = 4;
const SEGMENTS: usize = 4;

#[test]
fn simple_count_walk_and_streaming_remain_in_lockstep_across_mixed_runs() {
    let case_count = RADIX.pow(SEGMENTS as u32);

    for encoded in 0..case_count {
        let mut value = encoded;
        let mut widths = Vec::with_capacity(SEGMENTS);
        let mut kinds = Vec::with_capacity(SEGMENTS);
        let mut breakable_widths = Vec::with_capacity(SEGMENTS);
        for _ in 0..SEGMENTS {
            match value % RADIX {
                0 => {
                    widths.push(6.0);
                    kinds.push(SegmentKind::Text);
                    breakable_widths.push(None);
                }
                1 => {
                    widths.push(18.0);
                    kinds.push(SegmentKind::Text);
                    breakable_widths.push(Some(vec![Px(6.0); 3]));
                }
                2 => {
                    widths.push(2.5);
                    kinds.push(SegmentKind::Space);
                    breakable_widths.push(None);
                }
                _ => {
                    widths.push(0.0);
                    kinds.push(SegmentKind::ZeroWidthBreak);
                    breakable_widths.push(None);
                }
            }
            value /= RADIX;
        }

        let mut data = make_simple_data(&widths, &kinds);
        data.breakable_widths = breakable_widths;
        for max_width in [0.0, 5.0, 6.0, 12.0, 18.0, 30.0, f64::INFINITY] {
            let mut walked = Vec::new();
            walk_lines_simple(&data, max_width, &data.profile, |line| walked.push(line));
            let streamed = collect_streaming_lines(&data, max_width);
            let walked_signatures = walked.iter().map(line_signature).collect::<Vec<_>>();
            let streamed_signatures = streamed.iter().map(range_signature).collect::<Vec<_>>();

            assert_eq!(
                count_lines_simple(&data, max_width, &data.profile),
                walked.len(),
                "count/walk mismatch for encoded case {encoded} at width {max_width}"
            );
            assert_eq!(
                walked_signatures, streamed_signatures,
                "walk/stream mismatch for encoded case {encoded} at width {max_width}"
            );
        }
    }
}

#[test]
fn test_tab_advance() {
    assert!((get_tab_advance(0.0, 48.0) - 48.0).abs() < 0.001);
    assert!((get_tab_advance(10.0, 48.0) - 38.0).abs() < 0.001);
    assert!((get_tab_advance(48.0, 48.0) - 48.0).abs() < 0.001);
}

#[test]
fn test_cursor_api() {
    let data = make_simple_data(
        &[30.0, 5.0, 30.0, 5.0, 30.0],
        &[
            SegmentKind::Text,
            SegmentKind::Space,
            SegmentKind::Text,
            SegmentKind::Space,
            SegmentKind::Text,
        ],
    );
    let profile = EngineProfile::native();
    let start = LayoutCursor::default();

    let result = layout_next_line_range(&data, start, 50.0, &profile);
    assert!(result.is_some());
    let (line, next) = result.unwrap();
    assert_eq!(line.start.segment_index(), 0);
    assert!(next.segment_index() >= 2);
}

#[test]
fn drifted_parallel_arrays_are_bounded_by_shortest_array() {
    let mut data = make_simple_data(&[30.0], &[SegmentKind::Text]);
    data.kinds.clear();

    assert_eq!(data.segment_count(), 0);
    assert_eq!(count_lines_simple(&data, 50.0, &data.profile), 1);

    let mut lines = Vec::new();
    walk_lines_simple(&data, 50.0, &data.profile, |line| lines.push(line));
    assert_eq!(lines.len(), 1);
    assert_eq!(lines[0].width, 0.0);
}

#[test]
fn streaming_cursor_clamps_drifted_grapheme_index() {
    let mut data = make_simple_data(&[40.0], &[SegmentKind::Text]);
    data.breakable_widths[0] = Some(vec![Px(10.0), Px(10.0), Px(10.0), Px(10.0)]);
    let cursor = LayoutCursor::new(0, usize::MAX);

    let result = layout_next_line_range(&data, cursor, f64::INFINITY, &data.profile);
    assert!(result.is_some());
    if let Some((line, next)) = result {
        assert_eq!(line.start.grapheme_index(), 4);
        assert_eq!(line.width, 0.0);
        assert_eq!(next.segment_index(), 1);
    }
}

#[test]
fn full_walker_clamps_drifted_chunk_bounds() {
    let mut data = make_simple_data(&[40.0], &[SegmentKind::Text]);
    data.chunks = vec![PreparedLineChunk {
        start_segment_index: usize::MAX,
        end_segment_index: usize::MAX,
        consumed_end_segment_index: usize::MAX,
    }];

    let mut lines = Vec::new();
    walk_lines_full(&data, 50.0, &data.profile, |line| lines.push(line));
    assert_eq!(lines.len(), 1);
    assert_eq!(lines[0].start_segment, 1);
    assert_eq!(lines[0].end_segment, 1);
}

// ---- Preparation and layout -------------------------------------------------------

struct InvalidGraphemeBackend;

impl MeasureBackend<Px> for InvalidGraphemeBackend {
    fn measure_segment(
        &self,
        _text: &str,
        _font: &FontSpec,
    ) -> Result<SegmentMetrics, Error> {
        Ok(SegmentMetrics {
            width: Px(1.0),
            contains_cjk: false,
            emoji_count: 0,
            grapheme_widths: Some(vec![Px(1.0)]),
        })
    }

    fn measure_space_width(&self, _font: &FontSpec) -> Result<Px, Error> {
        Ok(Px(1.0))
    }

    fn measure_hyphen_width(&self, _font: &FontSpec) -> Result<Px, Error> {
        Ok(Px(1.0))
    }
}

struct OverflowingAggregateBackend;

impl MeasureBackend<Px> for OverflowingAggregateBackend {
    fn measure_segment(&self, text: &str, _font: &FontSpec) -> Result<SegmentMetrics, Error> {
        Ok(SegmentMetrics {
            width: Px(if text.trim().is_empty() { 1.0 } else { 1e308 }),
            contains_cjk: false,
            emoji_count: 0,
            grapheme_widths: None,
        })
    }

    fn measure_space_width(&self, _font: &FontSpec) -> Result<Px, Error> {
        Ok(Px(1.0))
    }

    fn measure_hyphen_width(&self, _font: &FontSpec) -> Result<Px, Error> {
        Ok(Px(1.0))
    }
}

struct CountingBackend {
    calls: Cell<usize>,
}

impl CountingBackend {
    fn new() -> Self {
        Self {
            calls: Cell::new(0),
        }
    }

    fn record(&self) {
        self.calls.set(self.calls.get().saturating_add(1));
    }
}

impl MeasureBackend<Px> for CountingBackend {
    fn measure_segment(&self, text: &str, _font: &FontSpec) -> Result<SegmentMetrics, Error> {
        self.record();
        Ok(SegmentMetrics {
            width: Px(text.graphemes(true).count() as f64),
            contains_cjk: false,
            emoji_count: 0,
            grapheme_widths: None,
        })
    }

    fn measure_space_width(&self, _font: &FontSpec) -> Result<Px, Error> {
        self.record();
        Ok(Px(1.0))
    }

    fn measure_hyphen_width(&self, _font: &FontSpec) -> Result<Px, Error> {
        self.record();
        Ok(Px(1.0))
    }
}

struct TextOnlyBackend;

impl MeasureBackend<Px> for TextOnlyBackend {
    fn measure_segment(&self, text: &str, _font: &FontSpec) -> Result<SegmentMetrics, Error> {
        Ok(SegmentMetrics {
            width: Px(text.graphemes(true).count() as f64),
            contains_cjk: false,
            emoji_count: 0,
            grapheme_widths: None,
        })
    }

    fn measure_space_width(&self, _font: &FontSpec) -> Result<Px, Error> {
        Err(Error::Measurement {
            backend: "test",
            message: "space is unavailable".to_owned(),
        })
    }

    fn measure_hyphen_width(&self, _font: &FontSpec) -> Result<Px, Error> {
        Err(Error::Measurement {
            backend: "test",
            message: "hyphen is unavailable".to_owned(),
        })
    }
}

fn setup() -> (FixedWidthBackend, FontSpec) {
    (
        FixedWidthBackend::new(),
        FontSpec::new("16px Inter").expect("test font specification is valid"),
    )
}

#[test]
fn test_prepare_and_layout_simple() {
    let (backend, font) = setup();
    let prepared = valid(prepare(
        "Hello, world!",
        &font,
        &backend,
        PrepareOptions::default(),
    ));
    let result = valid(layout(&prepared, 200.0, 24.0));
    assert!(result.line_count >= 1);
    assert!(result.height > 0.0);
}

#[test]
fn test_layout_wrap() {
    let (backend, font) = setup();
    let prepared = valid(prepare(
        "Hello, world!",
        &font,
        &backend,
        PrepareOptions::default(),
    ));
    let result = valid(layout(&prepared, 60.0, 24.0));
    assert!(result.line_count >= 2);
}

#[test]
fn test_layout_no_wrap() {
    let (backend, font) = setup();
    let prepared = valid(prepare("Hi", &font, &backend, PrepareOptions::default()));
    let result = valid(layout(&prepared, 200.0, 24.0));
    assert_eq!(result.line_count, 1);
    assert!((result.height - 24.0).abs() < 0.001);
}

#[test]
fn test_layout_with_lines() {
    let (backend, font) = setup();
    let prepared = valid(prepare_with_segments(
        "Hello world test",
        &font,
        &backend,
        PrepareOptions::default(),
    ));
    let lines = valid(layout_with_lines(&prepared, 80.0));
    assert!(!lines.is_empty());
    let all_text: String = lines
        .iter()
        .map(|l| l.text.clone())
        .collect::<Vec<_>>()
        .join(" ");
    assert!(all_text.contains("Hello"));
    assert!(all_text.contains("world"));
    assert!(all_text.contains("test"));
}

#[test]
fn test_natural_width() {
    let (backend, font) = setup();
    let prepared = valid(prepare(
        "Hello world",
        &font,
        &backend,
        PrepareOptions::default(),
    ));
    let natural = valid(measure_natural_width(&prepared));
    assert!(natural > 50.0);
}

#[test]
fn lib_test_empty_text() {
    let (backend, font) = setup();
    let prepared = valid(prepare("", &font, &backend, PrepareOptions::default()));
    let result = valid(layout(&prepared, 200.0, 24.0));
    assert_eq!(result.line_count, 1);
    assert!((result.height - 24.0).abs() < 0.001);

    let (line, terminal) = valid(layout_next_line(&prepared, LayoutCursor::default(), 200.0))
        .expect("empty text emits one empty line");
    assert_eq!(line.width, 0.0);
    assert!(
        valid(layout_next_line(&prepared, terminal, 200.0)).is_none(),
        "the cursor returned for empty text must be accepted as terminal"
    );
}

#[test]
fn line_materialization_preserves_whitespace_and_handles_control_segments() {
    let (backend, _) = setup();
    let font = valid(FontSpec::new("10px monospace"));

    let nbsp = valid(prepare_with_segments(
        "a\u{00A0}",
        &font,
        &backend,
        PrepareOptions::default(),
    ));
    let nbsp_lines = valid(layout_with_lines(&nbsp, f64::INFINITY));
    assert_eq!(nbsp_lines.len(), 1);
    assert_eq!(
        nbsp_lines.first().map(|line| line.text.as_str()),
        Some("a\u{00A0}")
    );

    let preserved = valid(prepare_with_segments(
        "a  \nb",
        &font,
        &backend,
        PrepareOptions {
            white_space: WhiteSpaceMode::PreWrap,
            ..PrepareOptions::default()
        },
    ));
    let preserved_lines = valid(layout_with_lines(&preserved, f64::INFINITY));
    assert_eq!(
        preserved_lines
            .iter()
            .map(|line| line.text.as_str())
            .collect::<Vec<_>>(),
        vec!["a  ", "b"]
    );
    assert!(preserved_lines.first().is_some_and(|line| line.width > 6.0));

    let segments = vec!["co".to_owned(), "\u{00AD}".to_owned(), "operate".to_owned()];
    let kinds = vec![
        SegmentKind::Text,
        SegmentKind::SoftHyphen,
        SegmentKind::Text,
    ];
    assert_eq!(
        materialize_line_text(&segments, &kinds, 0, 0, 2, 0, true),
        "co-"
    );
    assert_eq!(
        materialize_line_text(&segments, &kinds, 0, 0, 2, 0, false),
        "co"
    );
    assert_eq!(
        materialize_line_text(&segments, &kinds, 0, 0, 3, 0, false),
        "cooperate"
    );
}

#[test]
fn glue_soft_hyphen_and_streaming_surfaces_agree() {
    let backend = FixedWidthBackend::new();
    let font = valid(FontSpec::new("10px monospace"));

    for max_width in [0.0, 6.0, 12.0] {
        let text = "a\u{00A0}b";
        let expected_width = valid(backend.measure_segment(text, &font)).width;
        let prepared = valid(prepare(text, &font, &backend, PrepareOptions::default()));
        let rich = valid(prepare_with_segments(
            text,
            &font,
            &backend,
            PrepareOptions::default(),
        ));
        let lines = valid(layout_with_lines(&rich, max_width));
        assert_eq!(valid(layout(&prepared, max_width, 10.0)).line_count, 1);
        assert_eq!(lines.len(), 1);
        assert_eq!(lines[0].text, text);
        assert_eq!(lines[0].width, expected_width);

        let (streamed, terminal) = valid(layout_next_line(
            &prepared,
            LayoutCursor::default(),
            max_width,
        ))
        .expect("glued text emits one line");
        assert_eq!(streamed.width, expected_width);
        assert!(valid(layout_next_line(&prepared, terminal, max_width)).is_none());
    }

    let wide = valid(prepare_with_segments(
        "co\u{00AD}operate",
        &font,
        &backend,
        PrepareOptions::default(),
    ));
    let unbroken = valid(layout_with_lines(&wide, f64::INFINITY));
    assert_eq!(unbroken.len(), 1);
    assert_eq!(unbroken[0].text, "cooperate");
    assert!(!unbroken[0].ends_with_discretionary_hyphen);

    let broken = valid(layout_with_lines(&wide, 18.0));
    assert_eq!(broken.first().map(|line| line.text.as_str()), Some("co-"));
    assert!(
        broken
            .first()
            .is_some_and(|line| line.ends_with_discretionary_hyphen)
    );
    assert!(
        broken
            .iter()
            .skip(1)
            .all(|line| !line.ends_with_discretionary_hyphen)
    );

    let prepared = valid(prepare(
        "co\u{00AD}operate",
        &font,
        &backend,
        PrepareOptions::default(),
    ));
    let mut walked = Vec::new();
    valid(walk_line_ranges(
        &prepared,
        18.0,
        &EngineProfile::native(),
        |range| walked.push(range),
    ));
    assert_eq!(walked.len(), broken.len());
    assert!(
        walked
            .first()
            .is_some_and(|line| line.ends_with_discretionary_hyphen)
    );

    let mut cursor = LayoutCursor::default();
    let mut streamed = Vec::new();
    while let Some((range, next)) = valid(layout_next_line(&prepared, cursor, 18.0)) {
        streamed.push(range);
        if next.segment_index() >= prepared.segment_count() {
            break;
        }
        assert_ne!(next, cursor, "streaming layout must advance");
        cursor = next;
    }
    assert_eq!(streamed.len(), broken.len());
    assert_eq!(
        streamed
            .iter()
            .map(|line| line.ends_with_discretionary_hyphen)
            .collect::<Vec<_>>(),
        broken
            .iter()
            .map(|line| line.ends_with_discretionary_hyphen)
            .collect::<Vec<_>>()
    );

    let terminal = valid(prepare_with_segments(
        "co\u{00AD}",
        &font,
        &backend,
        PrepareOptions::default(),
    ));
    let terminal_lines = valid(layout_with_lines(&terminal, f64::INFINITY));
    assert_eq!(terminal_lines.len(), 1);
    assert_eq!(terminal_lines[0].text, "co");
    assert_eq!(terminal_lines[0].width, 12.0);
    assert!(!terminal_lines[0].ends_with_discretionary_hyphen);

    let terminal_prepared = valid(prepare(
        "co\u{00AD}",
        &font,
        &backend,
        PrepareOptions::default(),
    ));
    let (terminal_range, _) = valid(layout_next_line(
        &terminal_prepared,
        LayoutCursor::default(),
        f64::INFINITY,
    ))
    .expect("terminal soft hyphen emits one text line");
    assert!(!terminal_range.ends_with_discretionary_hyphen);
}

#[test]
fn test_streaming_api() {
    let (backend, font) = setup();
    let prepared = valid(prepare(
        "Hello world foo bar",
        &font,
        &backend,
        PrepareOptions::default(),
    ));

    let mut cursor = LayoutCursor::default();
    let mut line_count = 0;

    while let Some((_range, next)) = valid(layout_next_line(&prepared, cursor, 80.0)) {
        line_count += 1;
        if next.segment_index() >= prepared.segment_count() && next.grapheme_index() == 0 {
            break;
        }
        if next == cursor {
            break; // Safety: prevent infinite loop
        }
        cursor = next;
    }

    assert!(line_count >= 1);
}

#[test]
fn test_cjk_text() {
    let (backend, font) = setup();
    let prepared = valid(prepare(
        "\u{65E5}\u{672C}\u{8A9E}\u{30C6}\u{30B9}\u{30C8}",
        &font,
        &backend,
        PrepareOptions::default(),
    ));
    let result = valid(layout(&prepared, 50.0, 24.0));
    assert!(result.line_count >= 2);
}

#[test]
fn test_layout_consistency() {
    let (backend, font) = setup();
    let text = "The quick brown fox jumps over the lazy dog";
    let prepared = valid(prepare(text, &font, &backend, PrepareOptions::default()));

    let wide = valid(layout(&prepared, 1000.0, 24.0));
    let narrow = valid(layout(&prepared, 50.0, 24.0));

    assert_eq!(wide.line_count, 1);
    assert!(narrow.line_count > wide.line_count);
    assert!((narrow.height - narrow.line_count as f64 * 24.0).abs() < 0.001);
}

#[test]
fn test_walk_line_ranges() {
    let (backend, font) = setup();
    let prepared = valid(prepare(
        "Hello world test",
        &font,
        &backend,
        PrepareOptions::default(),
    ));

    let profile = EngineProfile::default();
    let mut ranges = Vec::new();
    valid(walk_line_ranges(&prepared, 80.0, &profile, |r| {
        ranges.push(r);
    }));

    assert!(!ranges.is_empty());
    for range in &ranges {
        assert!(range.width >= 0.0);
    }
}

#[test]
fn test_resize_is_cheap() {
    let (backend, font) = setup();
    let text = "Lorem ipsum dolor sit amet, consectetur adipiscing elit. \
                Sed do eiusmod tempor incididunt ut labore et dolore magna aliqua.";
    let prepared = valid(prepare(text, &font, &backend, PrepareOptions::default()));

    for w in (50..500).step_by(10) {
        let result = valid(layout(&prepared, f64::from(w), 24.0));
        assert!(result.line_count >= 1);
    }
}

#[test]
fn prepared_profile_is_honored_by_default_layout() {
    let (backend, font) = setup();
    let profile = EngineProfile {
        line_fit_epsilon: Px(100.0),
    };
    let prepared = valid(prepare(
        "hello world",
        &font,
        &backend,
        PrepareOptions {
            profile: Some(profile),
            ..PrepareOptions::default()
        },
    ));

    assert_eq!(valid(layout(&prepared, 50.0, 24.0)).line_count, 1);
}

#[test]
fn invalid_geometry_returns_errors() {
    let (backend, font) = setup();
    let prepared = valid(prepare("hello", &font, &backend, PrepareOptions::default()));

    assert!(layout(&prepared, f64::NAN, 24.0).is_err());
    assert!(layout(&prepared, 100.0, 0.0).is_err());
}

#[test]
fn derived_layout_height_overflow_is_rejected() {
    let (backend, font) = setup();
    let prepared = valid(prepare(
        "hello world",
        &font,
        &backend,
        PrepareOptions::default(),
    ));

    assert!(layout(&prepared, 40.0, f64::MAX).is_err());
}

#[test]
fn preparation_enforces_input_and_backend_shape_limits() {
    let (_, font) = setup();
    assert!(matches!(
        prepare(
            "four",
            &font,
            &FixedWidthBackend::new(),
            PrepareOptions {
                max_input_bytes: 3,
                ..PrepareOptions::default()
            },
        ),
        Err(Error::InputTooLarge { .. })
    ));
    assert!(matches!(
        prepare(
            "ab",
            &font,
            &InvalidGraphemeBackend,
            PrepareOptions::default(),
        ),
        Err(Error::Measurement {
            backend: "measurement backend",
            ..
        })
    ));
}

#[test]
fn preparation_complexity_limits_are_typed_and_pre_measurement() {
    let (_, font) = setup();
    let accepted = CountingBackend::new();
    assert!(
        prepare(
            "ab",
            &font,
            &accepted,
            PrepareOptions {
                max_graphemes: 2,
                ..PrepareOptions::default()
            },
        )
        .is_ok()
    );
    assert!(accepted.calls.get() > 0);

    let grapheme_rejected = CountingBackend::new();
    assert!(matches!(
        prepare(
            "abc",
            &font,
            &grapheme_rejected,
            PrepareOptions {
                max_graphemes: 2,
                ..PrepareOptions::default()
            },
        ),
        Err(Error::InputComplexity {
            resource: "text graphemes",
            units: 3,
            max_units: 2,
        })
    ));
    assert_eq!(grapheme_rejected.calls.get(), 0);

    let segment_accepted = CountingBackend::new();
    assert!(
        prepare(
            "a b",
            &font,
            &segment_accepted,
            PrepareOptions {
                max_segments: 3,
                ..PrepareOptions::default()
            },
        )
        .is_ok()
    );

    let segment_rejected = CountingBackend::new();
    assert!(matches!(
        prepare(
            "a b",
            &font,
            &segment_rejected,
            PrepareOptions {
                max_segments: 2,
                ..PrepareOptions::default()
            },
        ),
        Err(Error::InputComplexity {
            resource: "analyzed text segments",
            units: 3,
            max_units: 2,
        })
    ));
    assert_eq!(segment_rejected.calls.get(), 0);
}

#[test]
fn preparation_only_requests_metrics_used_by_the_analysis() {
    let (_, font) = setup();
    assert!(prepare("", &font, &TextOnlyBackend, PrepareOptions::default()).is_ok());
    assert!(prepare("abc", &font, &TextOnlyBackend, PrepareOptions::default()).is_ok());

    assert!(matches!(
        prepare(
            "a\tb",
            &font,
            &TextOnlyBackend,
            PrepareOptions {
                white_space: WhiteSpaceMode::PreWrap,
                ..PrepareOptions::default()
            },
        ),
        Err(Error::Measurement {
            backend: "test",
            ..
        })
    ));
    assert!(matches!(
        prepare(
            "co\u{00AD}operate",
            &font,
            &TextOnlyBackend,
            PrepareOptions::default(),
        ),
        Err(Error::Measurement {
            backend: "test",
            ..
        })
    ));
}

#[test]
fn profile_prepare_enforces_the_same_complexity_limits() {
    let (_, font) = setup();
    let backend = CountingBackend::new();
    assert!(matches!(
        profile_prepare(
            "abc",
            &font,
            &backend,
            PrepareOptions {
                max_graphemes: 2,
                ..PrepareOptions::default()
            },
        ),
        Err(Error::InputComplexity {
            resource: "text graphemes",
            ..
        })
    ));
    assert_eq!(backend.calls.get(), 0);

    assert!(matches!(
        profile_prepare(
            "a b",
            &font,
            &backend,
            PrepareOptions {
                max_segments: 2,
                ..PrepareOptions::default()
            },
        ),
        Err(Error::InputComplexity {
            resource: "analyzed text segments",
            ..
        })
    ));
    assert_eq!(backend.calls.get(), 0);
}

#[test]
fn cumulative_backend_width_overflow_is_rejected_during_preparation() {
    let (_, font) = setup();
    assert!(matches!(
        prepare(
            "a a",
            &font,
            &OverflowingAggregateBackend,
            PrepareOptions::default(),
        ),
        Err(Error::InvalidMetric {
            metric: "prepared cumulative line width",
            ..
        })
    ));
}

// ---- Inline flow -------------------------------------------------------------------

#[test]
fn test_inline_flow_basic() {
    let backend = FixedWidthBackend::new();
    let items = vec![
        InlineFlowItem {
            text: "Deploy to".to_string(),
            font: valid(FontSpec::new("16px Inter")),
            break_mode: BreakMode::Normal,
            extra_width: Px(0.0),
        },
        InlineFlowItem {
            text: "@staging".to_string(),
            font: valid(FontSpec::new("14px monospace")),
            break_mode: BreakMode::Never,
            extra_width: Px(8.0), // Chip padding
        },
        InlineFlowItem {
            text: "completed".to_string(),
            font: valid(FontSpec::new("16px Inter")),
            break_mode: BreakMode::Normal,
            extra_width: Px(0.0),
        },
    ];

    let prepared = valid(prepare_inline_flow(&items, &backend));
    let lines = valid(layout_inline_flow(&prepared, 300.0));
    assert!(!lines.is_empty());

    // All items should appear in the output
    let all_text: String = lines
        .iter()
        .flat_map(|l| l.fragments.iter())
        .map(|f| f.text.clone())
        .collect::<Vec<_>>()
        .join(" ");
    assert!(all_text.contains("Deploy"));
    assert!(all_text.contains("@staging"));
    assert!(all_text.contains("completed"));
}

#[test]
fn test_atomic_item_no_break() {
    let backend = FixedWidthBackend::new();
    let items = vec![
        InlineFlowItem {
            text: "Hello".to_string(),
            font: valid(FontSpec::new("16px Inter")),
            break_mode: BreakMode::Normal,
            extra_width: Px(0.0),
        },
        InlineFlowItem {
            text: "@very-long-username".to_string(),
            font: valid(FontSpec::new("16px Inter")),
            break_mode: BreakMode::Never, // Atomic -- must not break
            extra_width: Px(8.0),
        },
    ];

    let prepared = valid(prepare_inline_flow(&items, &backend));
    let lines = valid(layout_inline_flow(&prepared, 100.0));

    // The atomic item should appear as a single fragment
    for line in &lines {
        for frag in &line.fragments {
            if frag.item_index == 1 {
                assert!(frag.text.contains("@very-long-username"));
            }
        }
    }
}

#[test]
fn derived_inline_geometry_overflow_is_rejected() {
    let backend = FixedWidthBackend::new();
    let prepared = valid(prepare_inline_flow(
        &[InlineFlowItem {
            text: "aa".to_owned(),
            font: valid(FontSpec::new("8e307px Inter")),
            break_mode: BreakMode::Never,
            extra_width: Px(1e308),
        }],
        &backend,
    ));

    assert!(layout_inline_flow(&prepared, f64::INFINITY).is_err());
}

#[test]
fn derived_inline_height_overflow_is_rejected() {
    let backend = FixedWidthBackend::new();
    let items = ["a", "b"].map(|text| InlineFlowItem {
        text: text.to_owned(),
        font: valid(FontSpec::new("16px Inter")),
        break_mode: BreakMode::Never,
        extra_width: Px(0.0),
    });
    let prepared = valid(prepare_inline_flow(&items, &backend));

    assert!(measure_inline_flow(&prepared, 10.0, f64::MAX).is_err());
}

fn normal_item(text: &str, font: &FontSpec) -> InlineFlowItem {
    InlineFlowItem {
        text: text.to_owned(),
        font: font.clone(),
        break_mode: BreakMode::Normal,
        extra_width: Px(0.0),
    }
}

#[test]
fn adjacent_items_do_not_invent_whitespace() {
    let backend = FixedWidthBackend::new();
    let font = valid(FontSpec::new("10px monospace"));
    let prepared = valid(prepare_inline_flow(
        &[normal_item("foo", &font), normal_item("bar", &font)],
        &backend,
    ));
    let lines = valid(layout_inline_flow(&prepared, 100.0));

    assert_eq!(lines.len(), 1);
    assert_eq!(lines[0].fragments.len(), 2);
    assert_eq!(lines[0].fragments[1].gap_before, 0.0);
    assert_eq!(
        lines[0]
            .fragments
            .iter()
            .map(|fragment| fragment.text.as_str())
            .collect::<String>(),
        "foobar"
    );
}

#[test]
fn authored_boundary_whitespace_becomes_one_gap() {
    let backend = FixedWidthBackend::new();
    let font = valid(FontSpec::new("10px monospace"));
    let prepared = valid(prepare_inline_flow(
        &[normal_item("foo ", &font), normal_item("bar", &font)],
        &backend,
    ));
    let lines = valid(layout_inline_flow(&prepared, 100.0));

    assert_eq!(lines.len(), 1);
    assert_eq!(
        lines[0].fragments[1].gap_before,
        valid(backend.measure_space_width(&font))
    );
}

#[test]
fn whitespace_only_bridge_preserves_source_item_indices() {
    let backend = FixedWidthBackend::new();
    let font = valid(FontSpec::new("10px monospace"));
    let prepared = valid(prepare_inline_flow(
        &[
            normal_item("a", &font),
            normal_item(" \t", &font),
            normal_item("b", &font),
        ],
        &backend,
    ));
    let lines = valid(layout_inline_flow(&prepared, 100.0));

    assert_eq!(lines[0].fragments.len(), 2);
    assert_eq!(lines[0].fragments[1].item_index, 2);
    assert_eq!(
        lines[0].fragments[1].gap_before,
        valid(backend.measure_space_width(&font))
    );
}

#[test]
fn non_breaking_space_is_content_not_boundary_trim() {
    let backend = FixedWidthBackend::new();
    let font = valid(FontSpec::new("10px monospace"));
    let prepared = valid(prepare_inline_flow(
        &[normal_item("a\u{00A0}b", &font)],
        &backend,
    ));
    let lines = valid(layout_inline_flow(&prepared, 12.0));
    let expected_width = valid(backend.measure_segment("a\u{00A0}b", &font)).width;

    assert_eq!(lines.len(), 1);
    assert_eq!(lines[0].fragments[0].text, "a\u{00A0}b");
    assert_eq!(lines[0].fragments[0].occupied_width, expected_width);
}

#[test]
fn repeated_midword_fragments_neither_duplicate_nor_drop_text() {
    let backend = FixedWidthBackend::new();
    let font = valid(FontSpec::new("10px monospace"));
    let original = "abcdefghijklmnopqrst";
    let prepared = valid(prepare_inline_flow(
        &[normal_item(original, &font)],
        &backend,
    ));
    let lines = valid(layout_inline_flow(&prepared, 18.0));
    let reconstructed: String = lines
        .iter()
        .flat_map(|line| line.fragments.iter())
        .map(|fragment| fragment.text.as_str())
        .collect();

    assert_eq!(lines.len(), 7);
    assert_eq!(reconstructed, original);
}

#[test]
fn inline_flow_paints_only_a_selected_soft_hyphen() {
    let backend = FixedWidthBackend::new();
    let font = valid(FontSpec::new("10px monospace"));
    let prepared = valid(prepare_inline_flow(
        &[normal_item("co\u{00AD}operate", &font)],
        &backend,
    ));
    let lines = valid(layout_inline_flow(&prepared, 18.0));
    let fragments: Vec<_> = lines
        .iter()
        .flat_map(|line| line.fragments.iter())
        .collect();

    assert_eq!(
        fragments.first().map(|fragment| fragment.text.as_str()),
        Some("co-")
    );
    assert!(
        fragments
            .first()
            .is_some_and(|fragment| fragment.ends_with_discretionary_hyphen)
    );
    assert!(
        fragments
            .iter()
            .skip(1)
            .all(|fragment| !fragment.ends_with_discretionary_hyphen)
    );

    let terminal = valid(prepare_inline_flow(
        &[normal_item("co\u{00AD}", &font)],
        &backend,
    ));
    let terminal_lines = valid(layout_inline_flow(&terminal, f64::INFINITY));
    let terminal_fragment = terminal_lines
        .first()
        .and_then(|line| line.fragments.first())
        .expect("terminal soft hyphen produces one inline fragment");
    assert_eq!(terminal_fragment.text, "co");
    assert!(!terminal_fragment.ends_with_discretionary_hyphen);
}

#[test]
fn discarded_empty_items_cannot_hide_geometry_or_break_behavior() {
    let backend = FixedWidthBackend::new();
    let font = valid(FontSpec::new("10px monospace"));

    for item in [
        InlineFlowItem {
            text: String::new(),
            font: font.clone(),
            break_mode: BreakMode::Normal,
            extra_width: Px(4.0),
        },
        InlineFlowItem {
            text: "  ".to_owned(),
            font: font.clone(),
            break_mode: BreakMode::Never,
            extra_width: Px(0.0),
        },
    ] {
        assert!(matches!(
            prepare_inline_flow(&[item], &backend),
            Err(Error::InvalidInput {
                parameter: "empty inline item",
                ..
            })
        ));
    }
}

#[test]
fn aggregate_inline_flow_limits_are_enforced() {
    let backend = FixedWidthBackend::new();
    let font = valid(FontSpec::new("10px monospace"));
    let items = [normal_item("a", &font), normal_item("b", &font)];

    assert!(matches!(
        prepare_inline_flow_with_options(
            &items,
            &backend,
            InlineFlowOptions {
                max_items: 1,
                ..InlineFlowOptions::default()
            },
        ),
        Err(Error::InputComplexity {
            resource: "inline-flow items",
            units: 2,
            max_units: 1,
        })
    ));
    assert!(matches!(
        prepare_inline_flow_with_options(
            &items,
            &backend,
            InlineFlowOptions {
                max_input_bytes: 1,
                ..InlineFlowOptions::default()
            },
        ),
        Err(Error::InputTooLarge {
            bytes: 2,
            max_bytes: 1,
        })
    ));
    assert!(matches!(
        prepare_inline_flow_with_options(
            &items,
            &backend,
            InlineFlowOptions {
                max_graphemes: 1,
                ..InlineFlowOptions::default()
            },
        ),
        Err(Error::InputComplexity {
            resource: "inline-flow graphemes",
            units: 2,
            max_units: 1,
        })
    ));
    assert!(matches!(
        prepare_inline_flow_with_options(
            &items,
            &backend,
            InlineFlowOptions {
                max_segments: 1,
                ..InlineFlowOptions::default()
            },
        ),
        Err(Error::InputComplexity {
            resource: "analyzed text segments",
            units: 1,
            max_units: 0,
        })
    ));

    assert!(
        prepare_inline_flow_with_options(
            &items,
            &backend,
            InlineFlowOptions {
                max_items: 2,
                max_input_bytes: 2,
                max_graphemes: 2,
                max_segments: 2,
            },
        )
        .is_ok()
    );
}

// ---- Types -----------------------------------------------------------------------

#[test]
fn prepare_options_use_documented_input_limit() {
    assert_eq!(
        PrepareOptions::default().max_input_bytes,
        DEFAULT_MAX_INPUT_BYTES
    );
    assert_eq!(
        PrepareOptions::default().max_graphemes,
        DEFAULT_MAX_GRAPHEMES
    );
    assert_eq!(PrepareOptions::default().max_segments, DEFAULT_MAX_SEGMENTS);
}

#[test]
fn engine_profile_rejects_invalid_epsilon() {
    for epsilon in [f64::NAN, f64::INFINITY, f64::NEG_INFINITY, -0.001] {
        let profile = EngineProfile {
            line_fit_epsilon: Px(epsilon),
        };
        assert!(profile.validate().is_err());
    }
    assert!(EngineProfile::native().validate().is_ok());
}

#[test]
fn layout_cursor_exposes_read_only_indices() {
    let cursor = LayoutCursor::new(3, 7);
    assert_eq!(cursor.segment_index(), 3);
    assert_eq!(cursor.grapheme_index(), 7);
}

// ---- Profiling --------------------------------------------------------------------

#[test]
fn profile_prepare_returns_populated_profile() {
    let backend = FixedWidthBackend::new();
    let font = valid(FontSpec::new("16px Inter"));

    let profile = valid(profile_prepare(
        "The quick brown fox jumps over the lazy dog.",
        &font,
        &backend,
        Default::default(),
    ));

    // Timings must be non-negative (may legitimately be 0 on very fast runs).
    assert!(profile.analysis_ms >= 0.0);
    assert!(profile.measure_ms >= 0.0);
    assert!(profile.total_ms >= 0.0);
    // total should be >= sum of parts minus float slop.
    let sum = profile.analysis_ms.0 + profile.measure_ms.0;
    assert!(
        profile.total_ms + 1e-3 >= sum,
        "total {} < analysis+measure {}",
        profile.total_ms.0,
        sum
    );

    // Counts reflect the fixture: multiple segments, several of which are
    // word-like and thus candidates for grapheme-breakable measurement.
    assert!(profile.analysis_segments > 0);
    assert!(profile.prepared_segments > 0);
    // breakable_segments may be 0 if no segment exceeds its own width — that's
    // backend-dependent. Just assert it's ≤ prepared_segments.
    assert!(profile.breakable_segments <= profile.prepared_segments);
}

#[test]
fn profile_prepare_empty_text() {
    let backend = FixedWidthBackend::new();
    let font = valid(FontSpec::new("16px Inter"));

    let profile = valid(profile_prepare(
        "",
        &font,
        &backend,
        Default::default(),
    ));
    assert_eq!(profile.analysis_segments, 0);
    assert_eq!(profile.prepared_segments, 0);
    assert_eq!(profile.breakable_segments, 0);
}

// ---- Exact geometry ---------------------------------------------------------------

fn rich(text: &str, options: PrepareOptions) -> PreparedTextWithSegments {
    let font = valid(FontSpec::new("10px monospace"));
    valid(prepare_with_segments(
        text,
        &font,
        &FixedWidthBackend::new(),
        options,
    ))
}

fn plain(text: &str, options: PrepareOptions) -> PreparedText {
    let font = valid(FontSpec::new("10px monospace"));
    valid(prepare(text, &font, &FixedWidthBackend::new(), options))
}

fn pre_wrap() -> PrepareOptions {
    PrepareOptions {
        white_space: WhiteSpaceMode::PreWrap,
        ..PrepareOptions::default()
    }
}

#[test]
fn two_words_break_at_the_space_between_them() {
    // Six pixels for each letter, two and a half for the space.
    let text = rich("ab cd", PrepareOptions::default());
    let lines = valid(layout_with_lines(&text, 13.0));
    let shown: Vec<_> = lines
        .iter()
        .map(|line| (line.text.as_str(), line.width.0))
        .collect();
    assert_eq!(shown, vec![("ab ", 12.0), ("cd", 12.0)]);
    assert_eq!(lines[0].start, LayoutCursor::new(0, 0));
    assert_eq!(lines[0].end, LayoutCursor::new(2, 0));
    assert_eq!(lines[1].start, LayoutCursor::new(2, 0));
    assert_eq!(lines[1].end, LayoutCursor::new(3, 0));

    let prepared = plain("ab cd", PrepareOptions::default());
    let result = valid(layout(&prepared, 13.0, 20.0));
    assert_eq!((result.line_count, result.height.0), (2, 40.0));
    assert_eq!(valid(measure_natural_width(&prepared)), 26.5);
}

#[test]
fn the_epsilon_of_the_profile_lets_a_line_fit() {
    let prepared = plain("ab cd", PrepareOptions::default());
    let exact = EngineProfile {
        line_fit_epsilon: Px(0.0),
    };
    let count = |width: f64, profile: &EngineProfile| {
        valid(pretext::layout_with_profile(
            &prepared,
            Px(width),
            Px(1.0),
            profile,
        ))
        .line_count
    };
    assert_eq!(count(26.496, &exact), 2);
    assert_eq!(count(26.496, &EngineProfile::native()), 1);
    assert_eq!(count(26.485, &EngineProfile::safari()), 1);
    assert_eq!(EngineProfile::chromium().line_fit_epsilon, 0.005);
    assert_eq!(EngineProfile::gecko().line_fit_epsilon, 0.005);
    assert_eq!(EngineProfile::safari().line_fit_epsilon, 1.0 / 64.0);
}

#[test]
fn a_text_that_ends_in_a_hard_break_has_one_more_line() {
    let prepared = plain("ab\n", pre_wrap());
    assert_eq!(valid(layout(&prepared, 100.0, 10.0)).line_count, 2);

    let (first, middle) = valid(layout_next_line(&prepared, LayoutCursor::default(), 100.0))
        .expect("the first line");
    assert_eq!(first.width, 12.0);
    let (second, terminal) =
        valid(layout_next_line(&prepared, middle, 100.0)).expect("the empty line at the end");
    assert_eq!(second.width, 0.0);
    assert_eq!(terminal, LayoutCursor::new(3, 0));
    assert!(valid(layout_next_line(&prepared, terminal, 100.0)).is_none());
}

#[test]
fn cursors_outside_the_text_are_refused() {
    let prepared = plain("ab cd", PrepareOptions::default());
    for (segment, grapheme) in [(0, 2), (1, 1), (3, 1), (4, 0), (usize::MAX, 0)] {
        assert_eq!(
            layout_next_line(&prepared, LayoutCursor::new(segment, grapheme), 100.0).err(),
            Some(Error::InvalidCursor {
                context: "layout_next_line",
                segment_index: segment,
                grapheme_index: grapheme,
                segment_count: 3,
            })
        );
    }
    assert!(layout_next_line(&prepared, LayoutCursor::new(2, 1), 100.0).is_ok());
    assert!(layout_next_line(&prepared, LayoutCursor::new(3, 0), 100.0).is_ok());
}

#[test]
fn geometry_errors_name_the_argument() {
    let prepared = plain("ab", PrepareOptions::default());
    let refused = |outcome: Result<LayoutResult, Error>| outcome.expect_err("refused").message();
    assert_eq!(
        refused(layout(&prepared, -1.0, 10.0)),
        "invalid max_width: must be non-negative and not NaN"
    );
    assert_eq!(
        refused(layout(&prepared, 10.0, f64::INFINITY)),
        "invalid line_height: must be finite and greater than zero"
    );
    assert_eq!(
        refused(pretext::layout_with_profile(
            &prepared,
            Px(10.0),
            Px(10.0),
            &EngineProfile {
                line_fit_epsilon: Px(-1.0)
            },
        )),
        "invalid profile.line_fit_epsilon: must be finite and non-negative"
    );
    let tall = plain("ab\ncd", pre_wrap());
    assert_eq!(
        refused(layout(&tall, 10.0, f64::MAX)),
        "measurement layout height must be finite and non-negative, got inf"
    );
}

// ---- Laws on examples ----------------------------------------------------------------

const SAMPLE: &str = "The quick brown\u{00A0}fox co\u{00AD}operates with \u{65E5}\u{672C}\u{8A9E} \
                      at https://example.com/a?b=1 on 2024-01-15.";

#[test]
fn lines_put_together_are_the_text() {
    let text = rich(SAMPLE, PrepareOptions::default());
    for width in [0.0, 6.0, 20.0, 45.0, 90.0, 250.0, f64::INFINITY] {
        let lines = valid(layout_with_lines(&text, width));
        let mut retold = String::new();
        for (index, line) in lines.iter().enumerate() {
            let mut shown = line.text.clone();
            if line.ends_with_discretionary_hyphen {
                assert_eq!(shown.pop(), Some('-'));
            }
            retold.push_str(&shown);
            if let Some(next) = lines.get(index + 1) {
                for dropped in line.end.segment_index()..next.start.segment_index() {
                    assert_eq!(text.data().kinds[dropped], SegmentKind::Space);
                    retold.push_str(&text.segments()[dropped]);
                }
            }
        }
        assert_eq!(retold, SAMPLE.replace('\u{00AD}', ""), "at {width}");
    }
}

#[test]
fn every_surface_gives_the_same_lines() {
    let sample = "a\tbc  def\n\nghi jk\u{00AD}l\n";
    let text = rich(sample, pre_wrap());
    let prepared = plain(sample, pre_wrap());
    for width in [0.0, 6.0, 11.0, 13.0, 30.0, f64::INFINITY] {
        let lines = valid(layout_with_lines(&text, width));
        let mut walked = Vec::new();
        valid(walk_line_ranges(
            &prepared,
            width,
            &prepared.data().profile,
            |line| walked.push(line),
        ));
        let mut streamed = Vec::new();
        let mut cursor = LayoutCursor::default();
        while let Some((line, next)) = valid(layout_next_line(&prepared, cursor, width)) {
            streamed.push(line);
            cursor = next;
        }
        assert_eq!(valid(layout(&prepared, width, 1.0)).line_count, lines.len());
        assert_eq!(
            walked.iter().map(range_state_signature).collect::<Vec<_>>(),
            streamed.iter().map(range_state_signature).collect::<Vec<_>>()
        );
        assert_eq!(walked.len(), lines.len());
        for (range, line) in walked.iter().zip(&lines) {
            assert_eq!((range.start, range.end), (line.start, line.end));
            assert_eq!(range.width.0, line.width.0);
            assert!(line.width.0.is_finite());
        }
    }
}

#[test]
fn each_line_may_have_a_width_of_its_own() {
    let prepared = plain("aaaa bbbb cccc", PrepareOptions::default());
    let (first, next) = valid(layout_next_line(&prepared, LayoutCursor::default(), 30.0))
        .expect("the first line");
    assert_eq!(first.width, 24.0);
    let (second, end) = valid(layout_next_line(&prepared, next, 100.0)).expect("the second line");
    assert_eq!(second.width, 50.5);
    assert!(valid(layout_next_line(&prepared, end, 100.0)).is_none());
}

// ---- Backends that misbehave -----------------------------------------------------------

/// Answers with fixed replies.
struct ReplyBackend {
    width: f64,
    graphemes: Option<Vec<f64>>,
    space: f64,
    hyphen: f64,
}

impl MeasureBackend<Px> for ReplyBackend {
    fn measure_segment(&self, _text: &str, _font: &FontSpec) -> Result<SegmentMetrics, Error> {
        Ok(SegmentMetrics {
            width: Px(self.width),
            contains_cjk: false,
            emoji_count: 0,
            grapheme_widths: self
                .graphemes
                .as_ref()
                .map(|widths| widths.iter().copied().map(Px).collect()),
        })
    }

    fn measure_space_width(&self, _font: &FontSpec) -> Result<Px, Error> {
        Ok(Px(self.space))
    }

    fn measure_hyphen_width(&self, _font: &FontSpec) -> Result<Px, Error> {
        Ok(Px(self.hyphen))
    }
}

#[test]
fn replies_that_are_no_measurements_are_rejected() {
    let font = valid(FontSpec::new("10px monospace"));
    let sound = || ReplyBackend {
        width: 2.0,
        graphemes: Some(vec![1.0, 1.0]),
        space: 1.0,
        hyphen: 1.0,
    };
    let refused = |text: &str, backend: ReplyBackend| {
        prepare(text, &font, &backend, pre_wrap())
            .err()
            .map(|error| error.message())
    };
    assert_eq!(refused("ab", sound()), None);
    assert_eq!(
        refused("ab", ReplyBackend { width: -1.0, ..sound() }).as_deref(),
        Some("measurement segment width must be finite and non-negative, got -1")
    );
    assert_eq!(
        refused("ab", ReplyBackend { graphemes: Some(vec![1.0, f64::NAN]), ..sound() }).as_deref(),
        Some("measurement grapheme width must be finite and non-negative, got NaN")
    );
    assert_eq!(
        refused("ab", ReplyBackend { graphemes: Some(vec![f64::MAX; 2]), ..sound() }).as_deref(),
        Some("measurement grapheme width sum must be finite and non-negative, got inf")
    );
    assert_eq!(
        refused("abc", sound()).as_deref(),
        Some(
            "measurement backend measurement failed: \
             returned 2 grapheme widths for a 3-grapheme segment"
        )
    );
    assert_eq!(
        refused("\t", ReplyBackend { space: f64::MAX, ..sound() }).as_deref(),
        Some("measurement tab stop advance must be finite and non-negative, got inf")
    );
    assert_eq!(
        refused("\u{00AD}", ReplyBackend { hyphen: -0.5, ..sound() }).as_deref(),
        Some("measurement hyphen width must be finite and non-negative, got -0.5")
    );
}

#[test]
fn accepted_replies_become_entries() {
    let reply = |width: f64, graphemes: Option<Vec<f64>>| {
        Ok(SegmentMetrics {
            width: Px(width),
            contains_cjk: false,
            emoji_count: 0,
            grapheme_widths: graphemes.map(|widths| widths.into_iter().map(Px).collect()),
        })
    };
    let entry = |kind, clusters, reply| {
        let entry: SegmentEntry = valid(pretext::prepare::accept_metrics(kind, clusters, reply));
        (
            entry.width.0,
            entry.line_end_fit_advance.0,
            entry.line_end_paint_advance.0,
            entry.breakable_widths.map(|widths| widths.len()),
        )
    };
    assert_eq!(
        entry(SegmentKind::Text, 2, reply(3.0, Some(vec![1.0, 2.0]))),
        (3.0, 3.0, 3.0, Some(2))
    );
    assert_eq!(
        entry(SegmentKind::Space, 1, reply(3.0, None)),
        (3.0, 0.0, 0.0, None)
    );
    assert_eq!(
        entry(SegmentKind::PreservedSpace, 2, reply(3.0, Some(vec![1.0]))),
        (3.0, 0.0, 3.0, None)
    );
    assert_eq!(valid(pretext::prepare::accept_tab_stop(Ok(Px(2.5)))), 20.0);
    assert_eq!(valid(pretext::prepare::accept_hyphen_width(Ok(Px(2.5)))), 2.5);
    assert_eq!(valid(pretext::inline_flow::accept_gap(Ok(Px(2.5)))), 2.5);
}

// ---- Inline flow edges ---------------------------------------------------------------------

fn one_item_flow(text: &str) -> PreparedInlineFlow {
    let font = valid(FontSpec::new("10px monospace"));
    valid(prepare_inline_flow(
        &[normal_item(text, &font)],
        &FixedWidthBackend::new(),
    ))
}

fn next_flow_line(
    prepared: &PreparedInlineFlow,
    max_width: f64,
    start: InlineFlowCursor,
) -> Result<Option<(InlineFlowLine, InlineFlowCursor)>, Error> {
    pretext::inline_flow::layout_next_inline_flow_line(prepared, Px(max_width), start)
}

#[test]
fn cursors_of_another_flow_are_refused() {
    let long = one_item_flow("abcdefghijklmnopqrst");
    let (_, inside) = valid(next_flow_line(&long, 18.0, InlineFlowCursor::default()))
        .expect("the first line of many");
    assert_eq!(inside.item_index(), 0);
    assert_eq!(inside.layout_cursor(), LayoutCursor::new(0, 3));
    assert_eq!(
        next_flow_line(&one_item_flow("ab"), 18.0, inside).err(),
        Some(Error::InvalidCursor {
            context: "inline flow item",
            segment_index: 0,
            grapheme_index: 3,
            segment_count: 1,
        })
    );

    // An atomic item is only entered at its start.
    let font = valid(FontSpec::new("10px monospace"));
    let mut chip = normal_item("abcdefgh", &font);
    chip.break_mode = BreakMode::Never;
    let atomic = valid(prepare_inline_flow(&[chip], &FixedWidthBackend::new()));
    assert!(matches!(
        next_flow_line(&atomic, 18.0, inside),
        Err(Error::InvalidCursor {
            context: "inline flow item",
            ..
        })
    ));

    // The cursor behind one flow stands past the end of an empty one, and
    // inside a longer one.
    let (line, end) = valid(next_flow_line(&one_item_flow("ab"), 18.0, InlineFlowCursor::default()))
        .expect("one line");
    assert_eq!(line.width, 12.0);
    assert_eq!((end.item_index(), end.layout_cursor()), (1, LayoutCursor::default()));
    assert!(matches!(next_flow_line(&one_item_flow("ab"), 18.0, end), Ok(None)));
    let empty = valid(prepare_inline_flow(&[], &FixedWidthBackend::new()));
    assert_eq!(
        next_flow_line(&empty, 18.0, end).err(),
        Some(Error::InvalidCursor {
            context: "inline flow",
            segment_index: 1,
            grapheme_index: 0,
            segment_count: 0,
        })
    );
    assert!(matches!(
        next_flow_line(&empty, 18.0, InlineFlowCursor::default()),
        Ok(None)
    ));
}

#[test]
fn a_cursor_inside_the_terminal_item_is_refused() {
    let font = valid(FontSpec::new("10px monospace"));
    let backend = FixedWidthBackend::new();
    let two = valid(prepare_inline_flow(
        &[normal_item("a", &font), normal_item("bcdefghijk", &font)],
        &backend,
    ));
    let (_, second) =
        valid(next_flow_line(&two, 18.0, InlineFlowCursor::default())).expect("the first line");
    let (_, inside) = valid(next_flow_line(&two, 18.0, second)).expect("the second line");
    assert_eq!(inside.item_index(), 1);
    assert!(matches!(
        next_flow_line(&one_item_flow("a"), 18.0, inside),
        Err(Error::InvalidCursor {
            context: "inline flow terminal item",
            ..
        })
    ));
}

#[test]
fn returned_flow_cursors_are_accepted() {
    let font = valid(FontSpec::new("10px monospace"));
    let flow = valid(prepare_inline_flow(
        &[normal_item("abc defghijk ", &font), normal_item("lm no", &font)],
        &FixedWidthBackend::new(),
    ));
    for width in [0.0, 6.0, 13.0, 30.0, 200.0] {
        let mut cursor = InlineFlowCursor::default();
        let mut lines = 0;
        while let Some((_, next)) = valid(next_flow_line(&flow, width, cursor)) {
            lines += 1;
            cursor = next;
        }
        assert_eq!(lines, valid(layout_inline_flow(&flow, width)).len());
    }
}

#[test]
fn neighboring_ranges_put_together_are_the_whole_range() {
    let segments: Vec<String> = ["co", "\u{00AD}", "e\u{0301}fg", " ", "h"]
        .into_iter()
        .map(str::to_owned)
        .collect();
    let kinds = [
        SegmentKind::Text,
        SegmentKind::SoftHyphen,
        SegmentKind::Text,
        SegmentKind::Space,
        SegmentKind::Text,
    ];
    let cursors = [(0, 0), (0, 1), (1, 0), (2, 0), (2, 1), (2, 2), (3, 0), (4, 0), (5, 0)];
    let text = |from: (usize, usize), to: (usize, usize)| {
        materialize_line_text(&segments, &kinds, from.0, from.1, to.0, to.1, false)
    };
    for (i, a) in cursors.iter().enumerate() {
        for (j, b) in cursors.iter().enumerate().skip(i) {
            for c in cursors.iter().skip(j) {
                assert_eq!(text(*a, *b) + &text(*b, *c), text(*a, *c));
            }
        }
    }
    assert_eq!(text((0, 0), (5, 0)), "coe\u{0301}fg h");
}

#[test]
fn plain_lines_put_together_are_the_normalized_text() {
    let text = "  the quick  brown fox\u{200B} jumped over\u{200B}it ";
    let prepared = rich(text, PrepareOptions::default());
    for width in 0..200 {
        let lines = valid(layout_with_lines(&prepared, f64::from(width)));
        let joined: String = lines.iter().map(|line| line.text.as_str()).collect();
        assert_eq!(joined, "the quick brown fox\u{200B} jumped over\u{200B}it");
    }
}

#[test]
fn the_natural_width_breaks_at_hard_breaks_only() {
    for (text, lines) in [
        ("", 1),
        ("a b", 1),
        ("a\tb  \nlonger line\n\nc", 4),
        ("co\u{00AD}op\n", 2),
    ] {
        let prepared = plain(text, pre_wrap());
        let width = valid(measure_natural_width(&prepared));
        assert_eq!(valid(layout(&prepared, width, 1.0)).line_count, lines);
        assert_eq!(valid(layout(&prepared, f64::INFINITY, 1.0)).line_count, lines);
    }
}

#[test]
fn rejected_metrics_keep_their_number() {
    let font = valid(FontSpec::new("10px monospace"));
    let backend = ReplyBackend {
        width: -1.5,
        graphemes: None,
        space: 1.0,
        hyphen: 1.0,
    };
    match prepare("ab", &font, &backend, PrepareOptions::default()) {
        Err(Error::InvalidMetric { metric, value }) => {
            assert_eq!(metric, "segment width");
            assert_eq!(value.number::<Px>(), -1.5);
            assert_eq!(value.as_str(), "-1.5");
        }
        other => panic!("{other:?}"),
    }
}

#[test]
fn flow_geometry_is_exact() {
    let font = valid(FontSpec::new("10px monospace"));
    let chip = InlineFlowItem {
        text: "cd".to_owned(),
        font: font.clone(),
        break_mode: BreakMode::Never,
        extra_width: Px(4.0),
    };
    let prepared = valid(prepare_inline_flow(
        &[normal_item("ab ", &font), chip],
        &FixedWidthBackend::new(),
    ));
    // 12 for each text, 2.5 between them, 4 for the chip.
    let one = valid(layout_inline_flow(&prepared, 30.5));
    assert_eq!(one.len(), 1);
    assert_eq!(one[0].width, 30.5);
    assert_eq!(one[0].fragments[1].occupied_width, 16.0);
    assert_eq!(one[0].fragments[1].gap_before, 2.5);

    let two = valid(layout_inline_flow(&prepared, 30.0));
    assert_eq!(two.len(), 2);
    assert_eq!(two[1].width, 16.0);
    assert_eq!(two[1].fragments[0].gap_before, 0.0);
    assert_eq!(valid(measure_inline_flow(&prepared, 30.0, 20.0)), 40.0);
}

#[test]
fn flow_arguments_are_checked() {
    let font = valid(FontSpec::new("10px monospace"));
    let mut item = normal_item("ab", &font);
    item.extra_width = Px(-1.0);
    assert!(matches!(
        prepare_inline_flow(&[item], &FixedWidthBackend::new()),
        Err(Error::InvalidInput {
            parameter: "inline item extra_width",
            ..
        })
    ));
    let prepared = valid(prepare_inline_flow(
        &[normal_item("ab", &font)],
        &FixedWidthBackend::new(),
    ));
    assert!(layout_inline_flow(&prepared, -1.0).is_err());
    assert!(measure_inline_flow(&prepared, 10.0, 0.0).is_err());
    let empty = valid(prepare_inline_flow(&[], &FixedWidthBackend::new()));
    assert!(valid(layout_inline_flow(&empty, 10.0)).is_empty());
}

// ---- Profiling ------------------------------------------------------------------------------

#[test]
fn profiles_take_three_readings_of_the_clock() {
    let font = valid(FontSpec::new("10px monospace"));
    let ticks = Cell::new(0.0);
    let now = || {
        ticks.set(ticks.get() + 1.5);
        Px(ticks.get())
    };
    let profile = valid(pretext::profile_prepare(
        "ab cd",
        &font,
        &FixedWidthBackend::new(),
        PrepareOptions::default(),
        now,
    ));
    assert_eq!(profile.analysis_ms, 1.5);
    assert_eq!(profile.measure_ms, 1.5);
    assert_eq!(profile.total_ms, 3.0);
    assert_eq!(profile.analysis_segments, 3);
    assert_eq!(profile.prepared_segments, 3);
    assert_eq!(profile.breakable_segments, 2);
}

#[test]
fn profiles_are_put_together_from_readings() {
    let prepared = plain("ab cd", PrepareOptions::default());
    let profile = pretext::prepare::profile_of(prepared.data(), Px(1.0), Px(3.5), Px(10.0));
    assert_eq!(profile.analysis_ms, 2.5);
    assert_eq!(profile.measure_ms, 6.5);
    assert_eq!(profile.total_ms, 9.0);
    assert_eq!(profile.analysis_segments, 3);
    assert_eq!(profile.prepared_segments, 3);
    assert_eq!(profile.breakable_segments, 2);
}

/// Fails on whatever it is asked, and says what that was.
struct FailingBackend {
    space: bool,
    hyphen: bool,
}

fn failure(message: &str) -> Error {
    Error::Measurement {
        backend: "test",
        message: message.to_owned(),
    }
}

impl MeasureBackend<Px> for FailingBackend {
    fn measure_segment(&self, text: &str, _font: &FontSpec) -> Result<SegmentMetrics, Error> {
        Err(failure(text))
    }

    fn measure_space_width(&self, _font: &FontSpec) -> Result<Px, Error> {
        if self.space {
            Err(failure("space"))
        } else {
            Ok(Px(1.0))
        }
    }

    fn measure_hyphen_width(&self, _font: &FontSpec) -> Result<Px, Error> {
        if self.hyphen {
            Err(failure("hyphen"))
        } else {
            Ok(Px(1.0))
        }
    }
}

#[test]
fn the_first_failing_measurement_decides_the_error() {
    let font = valid(FontSpec::new("10px monospace"));
    let refused = |space: bool, hyphen: bool| {
        prepare(
            "ab\tc\u{00AD}d",
            &font,
            &FailingBackend { space, hyphen },
            pre_wrap(),
        )
        .err()
    };
    assert_eq!(refused(true, true), Some(failure("space")));
    assert_eq!(refused(false, true), Some(failure("hyphen")));
    assert_eq!(refused(true, false), Some(failure("space")));
    assert_eq!(refused(false, false), Some(failure("ab")));
}
