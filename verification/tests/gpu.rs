//! Glyph instances in single precision over widths in double precision.
use pretext::gpu_layout::{GlyphAtlas, GpuTextLayout, TextAlign, VerticalAlign};
use pretext::scalar::{Coordinate, Count, Scalar, Text, Widen};
use pretext::types::DEFAULT_MAX_GRAPHEMES;
use pretext::Error;

/// Pixels in double precision.
#[derive(Debug, Clone, Copy, PartialEq, PartialOrd)]
struct Px(f64);

impl Scalar for Px {
    fn zero_value() -> Self {
        Px(0.0)
    }

    fn infinite_value() -> Self {
        Px(f64::INFINITY)
    }

    fn ratio_value(_numerator: Count, _denominator: Count) -> Self {
        unreachable!("specifications are not run")
    }

    fn plus(self, other: Self) -> Self {
        Px(self.0 + other.0)
    }

    fn minus(self, other: Self) -> Self {
        Px(self.0 - other.0)
    }

    fn times(self, other: Self) -> Self {
        Px(self.0 * other.0)
    }

    fn modulo(self, other: Self) -> Self {
        Px(self.0 % other.0)
    }

    fn larger(self, other: Self) -> Self {
        Px(self.0.max(other.0))
    }

    fn at_most(self, other: Self) -> bool {
        self.0 <= other.0
    }

    fn below(self, other: Self) -> bool {
        self.0 < other.0
    }

    fn finite(self) -> bool {
        self.0.is_finite()
    }

    fn parsed(_text: Text) -> Option<Self> {
        unreachable!("specifications are not run")
    }

    fn shown(self) -> Text {
        unreachable!("specifications are not run")
    }

    fn encoded(self) -> u64 {
        self.0.to_bits()
    }

    fn decoded(bits: u64) -> Self {
        Px(f64::from_bits(bits))
    }

    fn zero() -> Self {
        Px::zero_value()
    }

    fn infinity() -> Self {
        Px::infinite_value()
    }

    fn ratio(numerator: usize, denominator: usize) -> Self {
        Px(numerator as f64 / denominator as f64)
    }

    fn add(self, other: Self) -> Self {
        self.plus(other)
    }

    fn sub(self, other: Self) -> Self {
        self.minus(other)
    }

    fn mul(self, other: Self) -> Self {
        self.times(other)
    }

    fn rem(self, other: Self) -> Self {
        self.modulo(other)
    }

    fn max(self, other: Self) -> Self {
        self.larger(other)
    }

    fn le(self, other: Self) -> bool {
        self.at_most(other)
    }

    fn lt(self, other: Self) -> bool {
        self.below(other)
    }

    fn is_finite(self) -> bool {
        self.finite()
    }

    fn parse(text: &str) -> Option<Self> {
        text.parse().ok().map(Px)
    }

    fn show(self) -> String {
        format!("{}", self.0)
    }

    fn to_bits(self) -> u64 {
        self.encoded()
    }

    fn from_bits(bits: u64) -> Self {
        Px::decoded(bits)
    }
}

/// Coordinates in single precision.
#[derive(Debug, Clone, Copy, PartialEq, PartialOrd)]
struct Px32(f32);

impl Scalar for Px32 {
    fn zero_value() -> Self {
        Px32(0.0)
    }

    fn infinite_value() -> Self {
        Px32(f32::INFINITY)
    }

    fn ratio_value(_numerator: Count, _denominator: Count) -> Self {
        unreachable!("specifications are not run")
    }

    fn plus(self, other: Self) -> Self {
        Px32(self.0 + other.0)
    }

    fn minus(self, other: Self) -> Self {
        Px32(self.0 - other.0)
    }

    fn times(self, other: Self) -> Self {
        Px32(self.0 * other.0)
    }

    fn modulo(self, other: Self) -> Self {
        Px32(self.0 % other.0)
    }

    fn larger(self, other: Self) -> Self {
        Px32(self.0.max(other.0))
    }

    fn at_most(self, other: Self) -> bool {
        self.0 <= other.0
    }

    fn below(self, other: Self) -> bool {
        self.0 < other.0
    }

    fn finite(self) -> bool {
        self.0.is_finite()
    }

    fn parsed(_text: Text) -> Option<Self> {
        unreachable!("specifications are not run")
    }

    fn shown(self) -> Text {
        unreachable!("specifications are not run")
    }

    fn encoded(self) -> u64 {
        u64::from(self.0.to_bits())
    }

    fn decoded(bits: u64) -> Self {
        Px32(f32::from_bits(bits as u32))
    }

    fn zero() -> Self {
        Px32::zero_value()
    }

    fn infinity() -> Self {
        Px32::infinite_value()
    }

    fn ratio(numerator: usize, denominator: usize) -> Self {
        Px32(numerator as f32 / denominator as f32)
    }

    fn add(self, other: Self) -> Self {
        self.plus(other)
    }

    fn sub(self, other: Self) -> Self {
        self.minus(other)
    }

    fn mul(self, other: Self) -> Self {
        self.times(other)
    }

    fn rem(self, other: Self) -> Self {
        self.modulo(other)
    }

    fn max(self, other: Self) -> Self {
        self.larger(other)
    }

    fn le(self, other: Self) -> bool {
        self.at_most(other)
    }

    fn lt(self, other: Self) -> bool {
        self.below(other)
    }

    fn is_finite(self) -> bool {
        self.finite()
    }

    fn parse(text: &str) -> Option<Self> {
        text.parse().ok().map(Px32)
    }

    fn show(self) -> String {
        format!("{}", self.0)
    }

    fn to_bits(self) -> u64 {
        self.encoded()
    }

    fn from_bits(bits: u64) -> Self {
        Px32::decoded(bits)
    }
}

impl Coordinate for Px32 {
    fn over(self, other: Self) -> Self {
        Px32(self.0 / other.0)
    }

    fn fused(self, factor: Self, addend: Self) -> Self {
        Px32(self.0.mul_add(factor.0, addend.0))
    }

    fn negated(self) -> Self {
        Px32(-self.0)
    }

    fn whole(self) -> usize {
        self.0.floor() as usize
    }

    fn div(self, other: Self) -> Self {
        self.over(other)
    }

    fn mul_add(self, factor: Self, addend: Self) -> Self {
        self.fused(factor, addend)
    }

    fn neg(self) -> Self {
        self.negated()
    }

    fn floor(self) -> usize {
        self.whole()
    }
}

impl Widen<Px> for Px32 {
    fn widened(self) -> Px {
        Px(f64::from(self.0))
    }

    fn widen(self) -> Px {
        self.widened()
    }
}

impl std::ops::Sub<f32> for Px32 {
    type Output = f32;

    fn sub(self, other: f32) -> f32 {
        self.0 - other
    }
}

impl std::ops::Mul<f32> for Px32 {
    type Output = f32;

    fn mul(self, other: f32) -> f32 {
        self.0 * other
    }
}

impl Px32 {
    fn abs(self) -> f32 {
        self.0.abs()
    }
}

fn px<const N: usize>(values: [f32; N]) -> [Px32; N] {
    values.map(Px32)
}

type FixedWidthBackend = pretext::backend::fixed::FixedWidthBackend<Px>;
type FontSpec = pretext::backend::FontSpec<Px>;
type GlyphInstance = pretext::gpu_layout::GlyphInstance<Px32>;
type TextLayoutConfig = pretext::gpu_layout::TextLayoutConfig<Px32>;

const GLYPH_BUFFER_RESOURCE: &str = "GPU glyph instance buffer";

fn valid<T>(result: Result<T, Error>) -> T {
    result.expect("test input is valid")
}

fn atlas() -> GlyphAtlas {
    GlyphAtlas::default_ascii()
}

#[test]
fn test_atlas_uvs() {
    let a = atlas();
    // Space (char 32) should be at (0,0)
    let (uv_min, _uv_max) = a.char_uvs::<Px32>(32).unwrap();
    assert!(uv_min[0].abs() < 0.001);
    assert!(uv_min[1].abs() < 0.001);

    // 'A' (char 65) = index 33, row 2 col 1
    let (uv_min, _) = a.char_uvs::<Px32>(65).unwrap();
    let uv_cell = 64.0 / 1024.0; // 0.0625
    let expected_col = 33 % 16; // 1
    let expected_row = 33 / 16; // 2
    assert!((uv_min[0] - expected_col as f32 * uv_cell).abs() < 0.001);
    assert!((uv_min[1] - expected_row as f32 * uv_cell).abs() < 0.001);
}

#[test]
fn test_single_line_layout() {
    let layout = GpuTextLayout::new(&atlas());
    let instances = valid(layout.layout_single_line(
        "Hello",
        px([0.0, 0.0, 0.0]),
        Px32(0.1),
        px([1.0, 1.0, 1.0, 1.0]),
        &TextLayoutConfig::default(),
    ));
    assert_eq!(instances.len(), 5);

    for (i, inst) in instances.iter().enumerate() {
        let expected = (i as f32).mul_add(0.6, 0.3);
        assert!((inst.glyph_offset[0] - expected).abs() < 0.001);
        assert!(inst.glyph_offset[1].abs() < 0.001);
    }
}

#[test]
fn test_single_line_center_aligned() {
    let layout = GpuTextLayout::new(&atlas());
    let config = TextLayoutConfig {
        align: TextAlign::Center,
        ..Default::default()
    };
    let instances =
        valid(layout.layout_single_line("AB", px([0.0, 0.0, 0.0]), Px32(0.1), px([1.0; 4]), &config));
    assert_eq!(instances.len(), 2);
    assert!((instances[0].glyph_offset[0] - (-0.3)).abs() < 0.001);
    assert!((instances[1].glyph_offset[0] - 0.3).abs() < 0.001);
}

#[test]
fn test_single_line_right_aligned_uses_glyph_centers() {
    let layout = GpuTextLayout::new(&atlas());
    let config = TextLayoutConfig {
        align: TextAlign::Right,
        ..Default::default()
    };
    let instances =
        valid(layout.layout_single_line("AB", px([0.0, 0.0, 0.0]), Px32(0.1), px([1.0; 4]), &config));

    assert_eq!(instances.len(), 2);
    assert!((instances[0].glyph_offset[0] - (-0.9)).abs() < 0.001);
    assert!((instances[1].glyph_offset[0] - (-0.3)).abs() < 0.001);
}

#[test]
fn test_multiline_simple() {
    let layout = GpuTextLayout::new(&atlas());
    let config = TextLayoutConfig {
        max_width: Some(Px32(0.3)),
        ..Default::default()
    };
    let instances = valid(layout.layout_multiline_simple(
        "Hello World",
        px([0.0, 5.0, 0.0]),
        Px32(0.1),
        px([1.0; 4]),
        &config,
    ));

    assert_eq!(instances.len(), 10); // 5 + 5 chars
    assert!(instances[0].glyph_offset[1].abs() < 0.001);
    assert!((instances[5].glyph_offset[1] - (-1.4)).abs() < 0.001);
}

#[test]
fn test_explicit_newlines() {
    let layout = GpuTextLayout::new(&atlas());
    let instances = valid(layout.layout_multiline_simple(
        "Hi\nWorld",
        px([0.0, 0.0, 0.0]),
        Px32(0.1),
        px([1.0; 4]),
        &TextLayoutConfig {
            max_width: Some(Px32(10.0)),
            ..Default::default()
        },
    ));

    // "Hi" = 2 chars, "World" = 5 chars = 7 total
    assert_eq!(instances.len(), 7);
}

#[test]
fn single_line_rejects_character_missing_from_atlas() {
    let layout = GpuTextLayout::new(&atlas());
    let error = layout
        .layout_single_line(
            "A\u{1F680}B",
            px([0.0, 0.0, 0.0]),
            Px32(0.1),
            px([1.0; 4]),
            &TextLayoutConfig::default(),
        )
        .expect_err("emoji must not be silently dropped");
    assert!(matches!(
        error,
        Error::UnsupportedGlyph {
            character: '\u{1F680}',
            codepoint: 0x1F680,
        }
    ));
}

#[test]
fn test_glyph_instance_size() {
    assert_eq!(std::mem::size_of::<GlyphInstance>(), 64);
}

#[test]
fn atlas_rejects_invalid_dimensions() {
    assert!(GlyphAtlas::ascii_sdf(1024, 64, 0).is_err());
    assert!(GlyphAtlas::ascii_sdf(64, 64, 16).is_err());
}

#[test]
fn measured_multiline_layout_uses_wrapped_ranges() {
    let layout = GpuTextLayout::new(&atlas());
    let config = TextLayoutConfig {
        max_width: Some(Px32(3.0)),
        ..TextLayoutConfig::default()
    };
    let instances = valid(layout.layout_multiline(
        "hello world",
        px([0.0; 3]),
        Px32(1.0),
        px([1.0; 4]),
        &config,
        &FixedWidthBackend::new(),
    ));
    let rows: std::collections::BTreeSet<i32> = instances
        .iter()
        .map(|glyph| (glyph.glyph_offset[1] * 1000.0).round() as i32)
        .collect();

    assert_eq!(instances.len(), 11);
    assert_eq!(rows.len(), 2);
}

#[test]
fn measured_multiline_preserves_renderable_spaces() {
    let layout = GpuTextLayout::new(&atlas());
    let instances = valid(layout.layout_multiline(
        "a  b",
        px([0.0; 3]),
        Px32(1.0),
        px([1.0; 4]),
        &TextLayoutConfig {
            max_width: Some(Px32(100.0)),
            ..TextLayoutConfig::default()
        },
        &FixedWidthBackend::new(),
    ));
    assert_eq!(instances.len(), 4);
}

#[test]
fn multiline_allows_hard_break_controls_but_rejects_other_controls() {
    let layout = GpuTextLayout::new(&atlas());
    let config = TextLayoutConfig::default();
    let instances = valid(layout.layout_multiline_simple(
        "A\r\nB\u{000C}C",
        px([0.0; 3]),
        Px32(1.0),
        px([1.0; 4]),
        &config,
    ));
    assert_eq!(instances.len(), 3);

    let error = layout
        .layout_multiline_simple("A\tB", px([0.0; 3]), Px32(1.0), px([1.0; 4]), &config)
        .expect_err("unsupported tab must not be silently dropped");
    assert!(matches!(
        error,
        Error::UnsupportedGlyph {
            character: '\t',
            codepoint: 9,
        }
    ));
}

#[test]
fn gpu_output_is_bounded_before_instance_allocation() {
    let layout = GpuTextLayout::new(&atlas());
    let config = TextLayoutConfig {
        max_glyphs: 2,
        ..TextLayoutConfig::default()
    };
    let error = layout
        .layout_single_line("ABC", px([0.0; 3]), Px32(1.0), px([1.0; 4]), &config)
        .expect_err("three glyphs must exceed a two-glyph buffer limit");
    assert!(matches!(
        error,
        Error::ResourceLimit {
            resource: GLYPH_BUFFER_RESOURCE,
            requested_bytes: 192,
            max_bytes: 128,
        }
    ));
}

#[test]
fn gpu_layout_rejects_excessive_structural_input() {
    let layout = GpuTextLayout::new(&atlas());
    let text = "\n".repeat(DEFAULT_MAX_GRAPHEMES + 1);
    let error = layout
        .layout_multiline_simple(&text, px([0.0; 3]), Px32(1.0), px([1.0; 4]), &TextLayoutConfig::default())
        .expect_err("line controls must not bypass the structural input bound");
    assert!(matches!(
        error,
        Error::InputComplexity {
            resource: "GPU layout graphemes",
            units,
            max_units: DEFAULT_MAX_GRAPHEMES,
        } if units == DEFAULT_MAX_GRAPHEMES + 1
    ));
}

#[test]
fn simple_layout_splits_oversized_words() {
    let lines = GpuTextLayout::split_lines_simple("abcdefgh", 3);
    assert_eq!(
        lines,
        vec![vec!['a', 'b', 'c'], vec!['d', 'e', 'f'], vec!['g', 'h']]
    );
}

#[test]
fn gpu_layout_rejects_invalid_numeric_inputs() {
    let layout = GpuTextLayout::new(&atlas());
    assert!(
        layout
            .layout_single_line(
                "hello",
                px([f32::NAN, 0.0, 0.0]),
                Px32(1.0),
                px([1.0; 4]),
                &TextLayoutConfig::default(),
            )
            .is_err()
    );
}

/// Proportional layout: per-glyph centering and proportional advances.
///
/// Uses synthetic widths (A=1.0, B=0.5, C=0.25) so the math is checkable
/// by hand. The fixed backend produces line-break decisions consistent
/// with the callback when the backend's character width matches.
#[test]
fn test_proportional_single_line_centering() {
    let layout = GpuTextLayout::new(&atlas());
    let backend = FixedWidthBackend::new();
    let font_spec = valid(FontSpec::new("16px monospace"));

    let widths = |ch: char| {
        Px32(match ch {
            'A' => 1.0,
            'B' => 0.5,
            'C' => 0.25,
            _ => 0.6,
        })
    };

    let config = TextLayoutConfig {
        align: TextAlign::Left,
        vertical_align: VerticalAlign::Top,
        // The proportional callback, not this fixed-path field, controls
        // placement in this API.
        glyph_advance: Px32(0.0),
        max_width: None,
        ..Default::default()
    };

    let instances = valid(layout.layout_label_proportional(
        "ABC",
        px([0.0, 0.0, 0.0]),
        Px32(1.0),
        px([1.0; 4]),
        &config,
        &backend,
        &font_spec,
        widths,
    ));

    assert_eq!(instances.len(), 3);
    // Center-of-advance convention:
    //   A at x_cursor=0,    advance=1.0  -> offset = 0.5
    //   B at x_cursor=1.0,  advance=0.5  -> offset = 1.25
    //   C at x_cursor=1.5,  advance=0.25 -> offset = 1.625
    assert!((instances[0].glyph_offset[0] - 0.5).abs() < 1e-4);
    assert!((instances[1].glyph_offset[0] - 1.25).abs() < 1e-4);
    assert!((instances[2].glyph_offset[0] - 1.625).abs() < 1e-4);
}

/// Proportional layout: explicit newline produces two lines with correct
/// per-line widths and per-line centering when alignment is `Center`.
#[test]
fn test_proportional_explicit_newline_center_aligned() {
    let layout = GpuTextLayout::new(&atlas());
    let backend = FixedWidthBackend::new();
    let font_spec = valid(FontSpec::new("16px monospace"));

    // Uniform 0.6 advance — matches the FixedWidthBackend's defaults so
    // pretext's line widths line up cleanly with our callback's widths.
    let widths = |_ch: char| Px32(0.6);

    let config = TextLayoutConfig {
        align: TextAlign::Center,
        vertical_align: VerticalAlign::Top,
        max_width: None,
        ..Default::default()
    };

    let instances = valid(layout.layout_label_proportional(
        "Hi\nWorld",
        px([0.0, 0.0, 0.0]),
        Px32(1.0),
        px([1.0; 4]),
        &config,
        &backend,
        &font_spec,
        widths,
    ));

    // 2 chars + 5 chars = 7 glyphs across 2 lines.
    assert_eq!(instances.len(), 7);

    // Line 0 ("Hi") has width 2 * 0.6 = 1.2, center-aligned => cursor starts
    // at -0.6, first glyph center at -0.6 + 0.3 = -0.3.
    assert!((instances[0].glyph_offset[0] - (-0.3)).abs() < 1e-3);
    assert!(instances[0].glyph_offset[1].abs() < 1e-6);

    // Line 1 ("World") has width 5 * 0.6 = 3.0, center-aligned => cursor
    // starts at -1.5, first glyph center at -1.5 + 0.3 = -1.2.
    assert!((instances[2].glyph_offset[0] - (-1.2)).abs() < 1e-3);
    // Second line y offset = -line_spacing (default 1.4).
    assert!((instances[2].glyph_offset[1] - (-1.4)).abs() < 1e-3);
}

/// Proportional layout: width-limited wrapping splits into multiple lines.
/// We don't pin exact line contents (depends on backend); we just check
/// that wrapping happened.
#[test]
fn test_proportional_wrap_to_multiple_lines() {
    let layout = GpuTextLayout::new(&atlas());
    let backend = FixedWidthBackend::new();
    let font_spec = valid(FontSpec::new("16px monospace"));

    let widths = |_ch: char| Px32(0.6);

    // max_width small enough to force a wrap with uniform 0.6 advance.
    let config = TextLayoutConfig {
        align: TextAlign::Left,
        vertical_align: VerticalAlign::Top,
        max_width: Some(Px32(2.6)),
        ..Default::default()
    };

    let instances = valid(layout.layout_label_proportional(
        "Alpha Beta Gamma",
        px([0.0, 0.0, 0.0]),
        Px32(1.0),
        px([1.0; 4]),
        &config,
        &backend,
        &font_spec,
        widths,
    ));

    // At least two distinct y rows in the output.
    let rows: std::collections::BTreeSet<i32> = instances
        .iter()
        .map(|g| (g.glyph_offset[1] * 1000.0).round() as i32)
        .collect();
    assert!(
        rows.len() >= 2,
        "expected wrapping to produce >=2 rows, got {}",
        rows.len()
    );
}

/// Proportional layout: empty text returns no instances (no panic, no
/// pretext call).
#[test]
fn test_proportional_empty_text() {
    let layout = GpuTextLayout::new(&atlas());
    let backend = FixedWidthBackend::new();
    let font_spec = valid(FontSpec::new("16px monospace"));

    let instances = valid(layout.layout_label_proportional(
        "",
        px([0.0, 0.0, 0.0]),
        Px32(1.0),
        px([1.0; 4]),
        &TextLayoutConfig::default(),
        &backend,
        &font_spec,
        |_| Px32(0.6),
    ));
    assert!(instances.is_empty());
}

/// Proportional layout rejects characters outside the atlas.
#[test]
fn test_proportional_non_ascii_rejected() {
    let layout = GpuTextLayout::new(&atlas());
    let backend = FixedWidthBackend::new();
    let font_spec = valid(FontSpec::new("16px monospace"));

    let error = layout
        .layout_label_proportional(
            "A\u{1F680}B",
            px([0.0, 0.0, 0.0]),
            Px32(1.0),
            px([1.0; 4]),
            &TextLayoutConfig::default(),
            &backend,
            &font_spec,
            |_| Px32(0.6),
        )
        .expect_err("emoji must not be silently dropped");
    assert!(matches!(
        error,
        Error::UnsupportedGlyph {
            character: '\u{1F680}',
            codepoint: 0x1F680,
        }
    ));
}

#[test]
fn test_vertical_center_alignment() {
    let layout = GpuTextLayout::new(&atlas());
    let config = TextLayoutConfig {
        max_width: Some(Px32(0.3)),
        vertical_align: VerticalAlign::Center,
        ..Default::default()
    };
    let instances = valid(layout.layout_multiline_simple(
        "Hello World",
        px([0.0, 0.0, 0.0]),
        Px32(0.1),
        px([1.0; 4]),
        &config,
    ));

    // Two baselines span 1.4 units, centered around the anchor.
    assert!((instances[0].glyph_offset[1] - 0.7).abs() < 0.001);
    assert!((instances[5].glyph_offset[1] - (-0.7)).abs() < 0.001);
}

#[test]
fn derived_gpu_geometry_overflow_is_rejected() {
    let layout = GpuTextLayout::new(&atlas());
    let config = TextLayoutConfig {
        glyph_advance: Px32(f32::MAX),
        ..TextLayoutConfig::default()
    };
    assert!(
        layout
            .layout_single_line("AB", px([0.0; 3]), Px32(1.0), px([1.0; 4]), &config)
            .is_err()
    );
}

// ---- Exact placement ------------------------------------------------------------------

#[test]
fn every_character_gets_its_cell() {
    let layout = GpuTextLayout::new(&atlas());
    let config = TextLayoutConfig::default();
    let instances = valid(layout.layout_single_line(
        "A~ ",
        px([1.0, 2.0, 3.0]),
        Px32(0.5),
        px([0.25, 0.5, 0.75, 1.0]),
        &config,
    ));
    assert_eq!(instances.len(), 3);
    for (instance, character) in instances.iter().zip("A~ ".chars()) {
        let (uv_min, uv_max) = atlas()
            .char_uvs::<Px32>(character as u32)
            .expect("a cell of the atlas");
        assert_eq!(instance.atlas_uv_min, uv_min);
        assert_eq!(instance.atlas_uv_max, uv_max);
        assert_eq!(instance.world_pos, px([1.0, 2.0, 3.0]));
        assert_eq!(instance.font_size, Px32(0.5));
        assert_eq!(instance.color, px([0.25, 0.5, 0.75, 1.0]));
    }
    assert!(atlas().char_uvs::<Px32>(127).is_none());
    assert!(atlas().char_uvs::<Px32>(31).is_none());
    assert_eq!(
        atlas().char_uvs::<Px32>(65),
        Some((px([0.0625, 0.125]), px([0.125, 0.1875])))
    );
}

#[test]
fn the_bottom_line_stands_at_the_anchor() {
    let layout = GpuTextLayout::new(&atlas());
    let config = TextLayoutConfig {
        vertical_align: VerticalAlign::Bottom,
        line_spacing: Px32(2.0),
        ..TextLayoutConfig::default()
    };
    let instances = valid(layout.layout_multiline_simple(
        "A\nB\nC",
        px([0.0; 3]),
        Px32(1.0),
        px([1.0; 4]),
        &config,
    ));
    let rows: Vec<f32> = instances.iter().map(|glyph| glyph.glyph_offset[1].0).collect();
    assert_eq!(rows, vec![4.0, 2.0, 0.0]);
}

#[test]
fn wrapped_lines_are_short_and_keep_the_words() {
    let text = "the quick  brown\tfox\n\njumps\r\noverlong-word";
    for max in 1..12 {
        let lines = GpuTextLayout::split_lines_simple(text, max);
        assert!(lines.iter().all(|line| line.len() <= max));
        let kept: String = lines
            .iter()
            .flatten()
            .filter(|character| !character.is_whitespace())
            .collect();
        let words: String = text.split_whitespace().collect();
        assert_eq!(kept, words);
    }
    let lines: Vec<String> = GpuTextLayout::split_lines_simple("ab cd efg\n\nh", 5)
        .iter()
        .map(|line| line.iter().collect())
        .collect();
    assert_eq!(lines, vec!["ab cd", "efg", "", "h"]);
}

#[test]
fn given_advances_place_the_glyphs() {
    let layout = GpuTextLayout::new(&atlas());
    let config = TextLayoutConfig {
        align: TextAlign::Right,
        ..TextLayoutConfig::default()
    };
    let place = |advances: Vec<f32>| {
        layout.place_proportional_lines(
            &vec![vec!['A', 'B']],
            &vec![advances.into_iter().map(Px32).collect()],
            px([0.0; 3]),
            Px32(1.0),
            px([1.0; 4]),
            &config,
        )
    };
    let instances = valid(place(vec![1.0, 0.5]));
    let columns: Vec<f32> = instances.iter().map(|glyph| glyph.glyph_offset[0].0).collect();
    assert_eq!(columns, vec![-1.0, -0.25]);
    assert_eq!(
        place(vec![1.0, -0.5]).expect_err("negative").message(),
        "invalid glyph advance: callback values must be finite and non-negative"
    );
    assert!(place(vec![f32::MAX, f32::MAX]).is_err());
}

#[test]
fn label_arguments_are_named_in_errors() {
    let layout = GpuTextLayout::new(&atlas());
    let refused = |config: TextLayoutConfig, size: f32, color: [f32; 4]| {
        layout
            .layout_multiline("ab", px([0.0; 3]), Px32(size), px(color), &config, &FixedWidthBackend::new())
            .expect_err("refused")
    };
    let named = |error: Error| match error {
        Error::InvalidInput { parameter, .. } => parameter,
        _ => "another error",
    };
    let config = TextLayoutConfig::default();
    assert_eq!(named(refused(config, 0.0, [1.0; 4])), "font_size");
    assert_eq!(named(refused(config, 1.0, [f32::NAN, 1.0, 1.0, 1.0])), "color");
    let narrow = TextLayoutConfig {
        max_width: Some(Px32(0.0)),
        ..config
    };
    assert_eq!(named(refused(narrow, 1.0, [1.0; 4])), "config.max_width");
    let flat = TextLayoutConfig {
        line_spacing: Px32(-1.0),
        ..config
    };
    assert_eq!(named(refused(flat, 1.0, [1.0; 4])), "config.line_spacing");
    let still = TextLayoutConfig {
        glyph_advance: Px32(0.0),
        ..config
    };
    assert_eq!(named(refused(still, 1.0, [1.0; 4])), "config.glyph_advance");
}

#[test]
fn atlases_are_checked() {
    let atlas = valid(GlyphAtlas::ascii_sdf(512, 32, 16));
    assert_eq!(
        (atlas.atlas_size(), atlas.glyph_size(), atlas.glyphs_per_row()),
        (512, 32, 16)
    );
    assert_eq!((atlas.first_char(), atlas.last_char()), (32, 127));
    assert_eq!(
        GlyphAtlas::ascii_sdf(1024, 64, 0).expect_err("no cells").message(),
        "invalid glyph atlas dimensions: atlas_size, glyph_size, and glyphs_per_row must be non-zero"
    );
    assert!(GlyphAtlas::ascii_sdf(64, 64, 1).is_err());
}

#[test]
fn advances_are_asked_for_once_the_lines_are_checked() {
    let layout = GpuTextLayout::new(&atlas());
    let backend = FixedWidthBackend::new();
    let font = valid(FontSpec::new("16px monospace"));
    let place = |text: &str, config: &TextLayoutConfig, advance: fn(char) -> Px32| {
        layout.layout_label_proportional(
            text,
            px([0.0; 3]),
            Px32(1.0),
            px([1.0; 4]),
            config,
            &backend,
            &font,
            advance,
        )
    };
    // A vertical extent that is not finite is reported before any advance.
    let tall = TextLayoutConfig {
        line_spacing: Px32(f32::MAX),
        ..TextLayoutConfig::default()
    };
    assert_eq!(
        place("A\nB\nC", &tall, |_| panic!("not asked"))
            .expect_err("too tall")
            .message(),
        "invalid multi-line vertical span: derived value is not finite"
    );
    // Only characters of the atlas are asked for.
    let config = TextLayoutConfig::default();
    let instances = valid(place("A\nB C", &config, |character| {
        assert!((' '..='~').contains(&character));
        Px32(0.5)
    }));
    assert_eq!(instances.len(), 4);
}
