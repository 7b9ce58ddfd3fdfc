//! Text in exact layout units.
use pretext::backend::canvas::{CanvasState, FontStep};
use pretext::backend::fixed::FixedWidthBackend;
use pretext::backend::{FontSpec, MeasureBackend};
use pretext::gpu_layout::{GlyphAtlas, GpuTextLayout, TextLayoutConfig};
use pretext::layout_unit::LayoutUnit;
use pretext::scalar::{Coordinate, Scalar, Widen};
use pretext::types::{LayoutCursor, PrepareOptions, WhiteSpaceMode};
use pretext::{layout, layout_next_line, layout_with_lines, prepare, prepare_with_segments};

fn units(raw: i64) -> LayoutUnit {
    LayoutUnit { raw }
}

fn pixels(count: usize) -> LayoutUnit {
    LayoutUnit::ratio(count, 1)
}

#[test]
fn units_hold_the_factors_of_the_library() {
    assert_eq!(LayoutUnit::ratio(1, 64), units(75));
    assert_eq!(LayoutUnit::ratio(6, 10), units(2_880));
    assert_eq!(LayoutUnit::ratio(5, 1_000), units(24));
    assert_eq!(LayoutUnit::ratio(1, 6), units(800));
    assert_eq!(LayoutUnit::ratio(4, 3), units(6_400));
    assert_eq!(pixels(2), units(9_600));
    assert_eq!(pixels(16).mul(LayoutUnit::ratio(6, 10)), units(46_080));
    assert_eq!(units(-1).mul(units(1)), units(-1));
    assert_eq!(units(130).rem(units(64)), units(2));
    assert_eq!(units(3).sub(units(5)), units(-2));
    assert_eq!(Scalar::max(units(3), units(5)), units(5));
    assert!(Scalar::le(units(3), units(3)) && !Scalar::lt(units(3), units(3)));
    assert_eq!(pixels(1).div(pixels(2)), units(2_400));
    assert_eq!(pixels(1).mul_add(pixels(2), units(1)), units(9_601));
    assert_eq!(units(5).neg(), units(-5));
    assert_eq!(units(9_700).floor(), 2);
    assert_eq!(units(-1).floor(), 0);
    assert_eq!(units(7).widen(), units(7));
}

#[test]
fn sizes_and_widths_are_those_of_the_constants() {
    let font = FontSpec::<LayoutUnit>::new("12pt monospace").expect("valid font");
    assert_eq!(font.size_px(), pixels(16));
    let font = FontSpec::<LayoutUnit>::new("10px monospace").expect("valid font");
    let metrics = FixedWidthBackend::new()
        .measure_segment("a", &font)
        .expect("measurement succeeds");
    assert_eq!(metrics.width, pixels(6));
    let one = FontSpec::<LayoutUnit>::new("1px Inter, serif").expect("valid font");
    assert_eq!(
        CanvasState::<LayoutUnit>::new(1, 1).font_step(&one),
        Ok(FontStep::AssignAfterTwoPixels)
    );
}

#[test]
fn bits_give_the_value_back() {
    for raw in [0, 1, -1, i64::MAX, i64::MIN] {
        assert_eq!(LayoutUnit::from_bits(units(raw).to_bits()), units(raw));
    }
}

#[test]
fn the_ends_of_the_range_are_infinite() {
    let top = LayoutUnit::infinity();
    assert!(!top.is_finite());
    assert_eq!(top.add(units(-5)), top);
    assert_eq!(units(i64::MAX - 1).add(units(5)), top);
    assert_eq!(top.sub(units(5)), top);
    assert_eq!(units(i64::MAX / 2).mul(units(i64::MAX / 2)), top);
}

#[test]
fn literals_are_read_and_written() {
    assert_eq!(LayoutUnit::parse("1.5"), Some(units(7_200)));
    assert_eq!(LayoutUnit::parse("16"), Some(units(76_800)));
    assert_eq!(LayoutUnit::parse(".25"), Some(units(1_200)));
    assert_eq!(LayoutUnit::parse(""), None);
    assert_eq!(LayoutUnit::parse("1.2.3"), None);
    assert_eq!(LayoutUnit::parse("-1"), None);
    assert_eq!(units(96).show(), "96/4800");
    assert_eq!(units(-3).show(), "-3/4800");
}

#[test]
fn text_is_laid_out_in_units() {
    let font = FontSpec::<LayoutUnit>::new("10px monospace").expect("valid font");
    let backend = FixedWidthBackend::new();
    let text = prepare_with_segments("ab cd", &font, &backend, PrepareOptions::default())
        .expect("prepared");
    let lines = layout_with_lines(&text, pixels(13)).expect("lines");
    let shown: Vec<_> = lines
        .iter()
        .map(|line| (line.text.as_str(), line.width))
        .collect();
    assert_eq!(shown, vec![("ab ", pixels(12)), ("cd", pixels(12))]);
}

#[test]
fn streaming_and_counting_agree_on_tabs() {
    let font = FontSpec::<LayoutUnit>::new("10px monospace").expect("valid font");
    let options = PrepareOptions {
        white_space: WhiteSpaceMode::PreWrap,
        ..PrepareOptions::default()
    };
    let text = prepare(
        "a\tbb\t\tccc dd\n\te f",
        &font,
        &FixedWidthBackend::new(),
        options,
    )
    .expect("prepared");
    for width in 0..80 {
        let mut streamed = 0;
        let mut cursor = LayoutCursor::default();
        while let Some((_, next)) = layout_next_line(&text, cursor, pixels(width)).expect("valid") {
            streamed += 1;
            cursor = next;
        }
        let result = layout(&text, pixels(width), pixels(10)).expect("valid");
        assert_eq!(result.line_count, streamed);
        assert_eq!(result.height, pixels(10 * streamed));
    }
}

#[test]
fn overflowing_widths_are_rejected() {
    let font = FontSpec::<LayoutUnit>::new("1200000000000000px monospace").expect("valid font");
    let outcome = prepare(
        "abc def",
        &font,
        &FixedWidthBackend::new(),
        PrepareOptions::default(),
    );
    let message = outcome.expect_err("too wide").message();
    assert!(message.starts_with("measurement "), "{message}");
}

#[test]
fn glyphs_are_placed_in_units() {
    let layout = GpuTextLayout::new(&GlyphAtlas::default_ascii());
    let config = TextLayoutConfig {
        glyph_advance: pixels(1),
        ..TextLayoutConfig::default()
    };
    let instances = layout
        .layout_single_line("AB", [units(0); 3], pixels(1), [pixels(1); 4], &config)
        .expect("placed");
    let columns: Vec<_> = instances.iter().map(|glyph| glyph.glyph_offset[0].raw).collect();
    assert_eq!(columns, vec![2_400, 7_200]);
}
