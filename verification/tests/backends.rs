//! Measurement backends, the measurement cache and the pool of prepared text in
//! double-precision pixels.
use font_test_data::TINOS_SUBSET;
use pretext::backend::canvas::{
    accept_canvas_width, estimated_retained_bytes, format_canvas_init_failure, retained_bytes_with,
    texts_to_ask, FontStep,
};
use pretext::backend::skrifa_backend::{nominal_advance, nominal_metrics, GlyphLookup};
use pretext::backend::MeasureBackend;
use pretext::memory::{estimated_bytes_with, estimated_heap_bytes, Capacities};
use pretext::scalar::{Count, Scalar, Text};
use pretext::session::{
    free_batch, layout_batch, layout_lines, parse_handles, pool_layout, pool_prepare,
    prepare_and_layout, prepare_batch, prepare_values, read_batch, store_values, MAX_POOL_BYTES,
};
use pretext::{prepare, Error};
use skrifa::prelude::{FontRef, LocationRef, MetadataProvider, Size};
use skrifa::GlyphId;
use std::collections::HashMap;

/// Pixels in double precision.
#[derive(Debug, Clone, Copy, PartialEq, PartialOrd)]
struct Px(f64);

impl Scalar for Px {
    fn zero_value() -> Self {
        Px(0.0)
    }

    fn infinite_value() -> Self {
        Px(f64::INFINITY)
    }

    fn ratio_value(_numerator: Count, _denominator: Count) -> Self {
        unreachable!("specifications are not run")
    }

    fn plus(self, other: Self) -> Self {
        Px(self.0 + other.0)
    }

    fn minus(self, other: Self) -> Self {
        Px(self.0 - other.0)
    }

    fn times(self, other: Self) -> Self {
        Px(self.0 * other.0)
    }

    fn modulo(self, other: Self) -> Self {
        Px(self.0 % other.0)
    }

    fn larger(self, other: Self) -> Self {
        Px(self.0.max(other.0))
    }

    fn at_most(self, other: Self) -> bool {
        self.0 <= other.0
    }

    fn below(self, other: Self) -> bool {
        self.0 < other.0
    }

    fn finite(self) -> bool {
        self.0.is_finite()
    }

    fn parsed(_text: Text) -> Option<Self> {
        unreachable!("specifications are not run")
    }

    fn shown(self) -> Text {
        unreachable!("specifications are not run")
    }

    fn encoded(self) -> u64 {
        self.0.to_bits()
    }

    fn decoded(bits: u64) -> Self {
        Px(f64::from_bits(bits))
    }

    fn zero() -> Self {
        Px::zero_value()
    }

    fn infinity() -> Self {
        Px::infinite_value()
    }

    fn ratio(numerator: usize, denominator: usize) -> Self {
        Px(numerator as f64 / denominator as f64)
    }

    fn add(self, other: Self) -> Self {
        self.plus(other)
    }

    fn sub(self, other: Self) -> Self {
        self.minus(other)
    }

    fn mul(self, other: Self) -> Self {
        self.times(other)
    }

    fn rem(self, other: Self) -> Self {
        self.modulo(other)
    }

    fn max(self, other: Self) -> Self {
        self.larger(other)
    }

    fn le(self, other: Self) -> bool {
        self.at_most(other)
    }

    fn lt(self, other: Self) -> bool {
        self.below(other)
    }

    fn is_finite(self) -> bool {
        self.finite()
    }

    fn parse(text: &str) -> Option<Self> {
        text.parse().ok().map(Px)
    }

    fn show(self) -> String {
        format!("{}", self.0)
    }

    fn to_bits(self) -> u64 {
        self.encoded()
    }

    fn from_bits(bits: u64) -> Self {
        Px::decoded(bits)
    }
}

impl PartialEq<f64> for Px {
    fn eq(&self, other: &f64) -> bool {
        self.0 == *other
    }
}

impl PartialOrd<f64> for Px {
    fn partial_cmp(&self, other: &f64) -> Option<std::cmp::Ordering> {
        self.0.partial_cmp(other)
    }
}

impl std::ops::Add<f64> for Px {
    type Output = f64;

    fn add(self, other: f64) -> f64 {
        self.0 + other
    }
}

impl std::ops::Mul<f64> for Px {
    type Output = f64;

    fn mul(self, other: f64) -> f64 {
        self.0 * other
    }
}

impl std::ops::Sub for Px {
    type Output = f64;

    fn sub(self, other: Px) -> f64 {
        self.0 - other.0
    }
}

impl std::ops::Sub<f64> for Px {
    type Output = f64;

    fn sub(self, other: f64) -> f64 {
        self.0 - other
    }
}

type CanvasState = pretext::backend::canvas::CanvasState<Px>;
type FixedWidthBackend = pretext::backend::fixed::FixedWidthBackend<Px>;
type FontSpec = pretext::backend::FontSpec<Px>;
type MeasurementCache = pretext::backend::canvas::MeasurementCache<Px>;
type PrepareOptions = pretext::types::PrepareOptions<Px>;
type PreparedPool = pretext::session::PreparedPool<Px>;
type PreparedText = pretext::types::PreparedText<Px>;
type SegmentMetrics = pretext::backend::SegmentMetrics<Px>;

/// Registered fonts, with glyph advances scaled by skrifa.
struct SkrifaNominalBackend(pretext::backend::SkrifaNominalBackend);

impl SkrifaNominalBackend {
    fn new() -> Self {
        SkrifaNominalBackend(pretext::backend::SkrifaNominalBackend::new())
    }

    fn load_font(&mut self, family: &str, data: &[u8]) -> Result<(), Error> {
        self.0.load_font(family, data)
    }

    fn set_default_font(&mut self, data: &[u8]) -> Result<(), Error> {
        self.0.set_default_font(data)
    }

    fn advance(&self, font: &FontSpec, glyph: u32) -> Option<Px> {
        let data = self.0.get_font_data(font).ok()?;
        let face = FontRef::from_index(data, 0).ok()?;
        face.glyph_metrics(Size::new(font.size_px().0 as f32), LocationRef::default())
            .advance_width(GlyphId::new(glyph))
            .map(|width| Px(f64::from(width)))
    }

    fn measure_segment(&self, text: &str, font: &FontSpec) -> Result<SegmentMetrics, Error> {
        self.0
            .measure_segment(text, font, |glyph| self.advance(font, glyph))
    }

    fn measure_space_width(&self, font: &FontSpec) -> Result<Px, Error> {
        self.0
            .measure_space_width(font, |glyph| self.advance(font, glyph))
    }

    fn measure_hyphen_width(&self, font: &FontSpec) -> Result<Px, Error> {
        self.0
            .measure_hyphen_width(font, |glyph| self.advance(font, glyph))
    }
}

// ---- Fixed widths ----------------------------------------------------------

#[test]
fn test_fixed_width_basic() {
    let backend = FixedWidthBackend::new();
    let font = FontSpec::new("16px Inter").expect("valid font");
    let metrics = backend
        .measure_segment("hello", &font)
        .expect("measurement succeeds");
    // 5 chars * 16px * 0.6 = 48.0
    assert!((metrics.width - 48.0).abs() < 0.001);
    assert!(!metrics.contains_cjk);
}

#[test]
fn test_fixed_width_cjk() {
    let backend = FixedWidthBackend::new();
    let font = FontSpec::new("16px Noto Sans").expect("valid font");
    let metrics = backend
        .measure_segment("\u{65E5}\u{672C}", &font)
        .expect("measurement succeeds");
    // 2 CJK chars * 16px * 1.0 = 32.0
    assert!((metrics.width - 32.0).abs() < 0.001);
    assert!(metrics.contains_cjk);
}

#[test]
fn test_font_size_parsing() {
    let font = FontSpec::new("14px monospace").expect("valid font");
    assert!((font.size_px() - 14.0).abs() < 0.001);

    let font = FontSpec::new("12pt serif").expect("valid font");
    assert!((font.size_px() - 16.0).abs() < 0.001);
}

#[test]
fn test_monospace() {
    let backend = FixedWidthBackend::monospace();
    let font = FontSpec::new("16px monospace").expect("valid font");
    let space = backend
        .measure_space_width(&font)
        .expect("measurement succeeds");
    let hyphen = backend
        .measure_hyphen_width(&font)
        .expect("measurement succeeds");
    assert!((space - hyphen).abs() < 0.001); // Same width in monospace
}

#[test]
fn test_grapheme_widths() {
    let backend = FixedWidthBackend::new();
    let font = FontSpec::new("16px Inter").expect("valid font");
    let metrics = backend
        .measure_segment("hello", &font)
        .expect("measurement succeeds");
    assert!(metrics.grapheme_widths.is_some());
    let gw = metrics.grapheme_widths.unwrap();
    assert_eq!(gw.len(), 5);
    assert!(gw.iter().all(|w| (*w - 9.6).abs() < 0.001));
}

#[test]
fn invalid_public_configuration_is_rejected() {
    assert!(matches!(
        FixedWidthBackend::new().with_char_width(Px(f64::NAN)),
        Err(Error::InvalidInput {
            parameter: "char_width_factor",
            ..
        })
    ));
}

#[test]
fn overflowing_measurement_is_rejected() {
    let font = FontSpec::new("1e308px Inter").expect("valid font");
    let backend = FixedWidthBackend::new()
        .with_char_width(Px(2.0))
        .expect("valid factor");
    assert!(matches!(
        backend.measure_segment("a", &font),
        Err(Error::InvalidMetric { .. })
    ));
}

#[test]
fn no_break_controls_use_explicit_semantic_widths() {
    let backend = FixedWidthBackend::new();
    let font = FontSpec::new("12px sans-serif").expect("valid font");

    let nbsp = backend
        .measure_segment("\u{00A0}", &font)
        .expect("NBSP measurement succeeds");
    let narrow = backend
        .measure_segment("\u{202F}", &font)
        .expect("NNBSP measurement succeeds");
    let joiners = backend
        .measure_segment("\u{2060}\u{FEFF}", &font)
        .expect("zero-width controls measure successfully");

    assert_eq!(nbsp.width, 3.0);
    assert_eq!(narrow.width, 2.0);
    assert_eq!(joiners.width, 0.0);
}

// ---- Font specifications ---------------------------------------------------

#[test]
fn parses_documented_size_and_line_height() {
    let font = FontSpec::new("14px/1.5 monospace").expect("valid font");
    assert_eq!(font.as_css_str(), "14px/1.5 monospace");
    assert!((font.size_px() - 14.0).abs() < f64::EPSILON);
    assert_eq!(font.family(), "monospace");
    assert!(font.has_generic_family());
}

#[test]
fn converts_points_and_unquotes_primary_family() {
    let font = FontSpec::new("italic 12pt 'Noto Sans', serif").expect("valid font");
    assert!((font.size_px() - 16.0).abs() < f64::EPSILON);
    assert_eq!(font.family(), "Noto Sans");
    assert!(font.has_generic_family());
}

#[test]
fn parses_spaced_line_height() {
    let font = FontSpec::new("14px / 1.5 Noto Sans").expect("valid font");
    assert_eq!(font.family(), "Noto Sans");
}

#[test]
fn rejects_invalid_sizes_and_families() {
    for invalid in [
        "Inter",
        "NaNpx Inter",
        "0px Inter",
        "-1pt Inter",
        "16px",
        "16px/nope Inter",
        "16px/0 Inter",
        "16px / NaN Inter",
        "éx 16px Inter",
        "bold bolder 16px Inter",
        "16px Inter,",
        "16px Inter, 'Noto Sans",
        "16px No'to",
    ] {
        assert!(
            matches!(FontSpec::new(invalid), Err(Error::InvalidFontSpec { .. })),
            "accepted {invalid:?}"
        );
    }
}

#[test]
fn rejects_unclosed_family_quote() {
    assert!(matches!(
        FontSpec::new("16px 'Noto Sans"),
        Err(Error::InvalidFontSpec { .. })
    ));
}

#[test]
fn unicode_tokens_before_size_return_an_error_without_panicking() {
    assert!(matches!(
        FontSpec::new("éx 16px Inter"),
        Err(Error::InvalidFontSpec { .. })
    ));
}

#[test]
fn records_explicit_generic_fallback_without_requiring_one_for_native_use() {
    let named_only = FontSpec::new("16px Inter").expect("valid native font spec");
    let with_fallback =
        FontSpec::new("16px Inter, sans-serif").expect("valid canvas font spec");
    let quoted_generic =
        FontSpec::new("16px Inter, 'sans-serif'").expect("valid named family spec");

    assert!(!named_only.has_generic_family());
    assert!(with_fallback.has_generic_family());
    assert!(!quoted_generic.has_generic_family());
}

// ---- Skrifa ----------------------------------------------------------------

#[test]
fn missing_font_is_reported_without_estimation() {
    let backend = SkrifaNominalBackend::new();
    let font = FontSpec::new("16px Inter").expect("valid font specification");
    assert!(matches!(
        backend.measure_segment("hello", &font),
        Err(Error::MissingFont { family }) if family == "Inter"
    ));
    assert!(matches!(
        backend.measure_space_width(&font),
        Err(Error::MissingFont { .. })
    ));
}

#[test]
fn invalid_font_bytes_return_typed_error() {
    let mut backend = SkrifaNominalBackend::new();
    assert!(matches!(
        backend.load_font("Inter", b"not a font"),
        Err(Error::Measurement {
            backend: "skrifa",
            ..
        })
    ));
}

#[test]
fn empty_family_is_rejected() {
    let mut backend = SkrifaNominalBackend::new();
    assert!(matches!(
        backend.load_font("  ", TINOS_SUBSET),
        Err(Error::InvalidInput {
            parameter: "family",
            ..
        })
    ));
}

#[test]
fn real_font_metrics_are_positive_and_scale_with_size() {
    let mut backend = SkrifaNominalBackend::new();
    backend
        .load_font("Tinos", TINOS_SUBSET)
        .expect("fontations test font should load");

    let small = FontSpec::new("10px Tinos").expect("valid font specification");
    let large = FontSpec::new("20px Tinos").expect("valid font specification");
    let small_metrics = backend
        .measure_segment("aAbB", &small)
        .expect("real glyph metrics should be available");
    let large_metrics = backend
        .measure_segment("aAbB", &large)
        .expect("real glyph metrics should be available");

    assert!(small_metrics.width > 0.0);
    assert_eq!(
        small_metrics.grapheme_widths.as_ref().map(Vec::len),
        Some(4)
    );
    assert!((large_metrics.width - small_metrics.width * 2.0).abs() <= 0.01);
}

#[test]
fn default_font_is_used_for_an_unregistered_family() {
    let mut backend = SkrifaNominalBackend::new();
    backend
        .set_default_font(TINOS_SUBSET)
        .expect("fontations test font should load");
    let font = FontSpec::new("16px Unknown").expect("valid font specification");

    assert!(
        backend
            .measure_segment("a", &font)
            .expect("default font should provide metrics")
            .width
            > 0.0
    );
}

#[test]
fn missing_codepoint_is_rejected_instead_of_measuring_notdef() {
    let mut backend = SkrifaNominalBackend::new();
    backend
        .load_font("Tinos", TINOS_SUBSET)
        .expect("fontations test font should load");
    let font = FontSpec::new("16px Tinos").expect("valid font specification");

    assert!(matches!(
        backend.measure_segment("😀", &font),
        Err(Error::MissingGlyph {
            character: '😀',
            family,
        }) if family == "Tinos"
    ));
}

#[test]
fn zero_width_joiners_do_not_require_font_glyphs() {
    let mut backend = SkrifaNominalBackend::new();
    backend
        .load_font("Tinos", TINOS_SUBSET)
        .expect("fontations test font should load");
    let font = FontSpec::new("16px Tinos").expect("valid font specification");

    let metrics = backend
        .measure_segment("\u{2060}\u{FEFF}", &font)
        .expect("layout controls have semantic zero width");
    assert_eq!(metrics.width, 0.0);
}

// ---- Measurement cache -----------------------------------------------------

fn metrics(width: f64) -> SegmentMetrics {
    SegmentMetrics {
        width: Px(width),
        contains_cjk: false,
        emoji_count: 0,
        grapheme_widths: None,
    }
}

#[test]
fn bounded_cache_evicts_oldest_entry() {
    let mut cache = MeasurementCache::new(2, usize::MAX);
    let first = ("16px A".to_owned(), "a".to_owned());
    let second = ("16px A".to_owned(), "b".to_owned());
    let third = ("16px A".to_owned(), "c".to_owned());
    cache.insert(first.0.clone(), first.1.clone(), metrics(1.0));
    cache.insert(second.0.clone(), second.1.clone(), metrics(2.0));
    cache.insert(third.0.clone(), third.1.clone(), metrics(3.0));

    assert!(cache.get(&first.0, &first.1).is_none());
    assert_eq!(cache.get(&second.0, &second.1).map(|m| m.width.0), Some(2.0));
    assert_eq!(cache.get(&third.0, &third.1).map(|m| m.width.0), Some(3.0));
}

#[test]
fn zero_capacity_disables_cache() {
    let mut cache = MeasurementCache::new(0, usize::MAX);
    let key = ("16px A".to_owned(), "a".to_owned());
    cache.insert(key.0.clone(), key.1.clone(), metrics(1.0));
    assert!(cache.get(&key.0, &key.1).is_none());
}

#[test]
fn byte_capacity_evicts_oldest_entry() {
    let first = ("16px A".to_owned(), "a".to_owned());
    let second = ("16px A".to_owned(), "b".to_owned());
    let entry_bytes = estimated_retained_bytes(&first.0, &first.1, &metrics(1.0));
    let mut cache = MeasurementCache::new(10, entry_bytes);

    cache.insert(first.0.clone(), first.1.clone(), metrics(1.0));
    cache.insert(second.0.clone(), second.1.clone(), metrics(2.0));

    assert!(cache.get(&first.0, &first.1).is_none());
    assert_eq!(cache.get(&second.0, &second.1).map(|m| m.width.0), Some(2.0));
    assert!(cache.retained_bytes() <= cache.byte_capacity());
}

#[test]
fn oversized_entry_is_not_cached() {
    let key = ("16px A".to_owned(), "large".to_owned());
    let value = SegmentMetrics {
        width: Px(10.0),
        contains_cjk: false,
        emoji_count: 0,
        grapheme_widths: Some(vec![Px(1.0); 128]),
    };
    let required_bytes = estimated_retained_bytes(&key.0, &key.1, &value);
    let mut cache = MeasurementCache::new(10, required_bytes.saturating_sub(1));

    cache.insert(key.0.clone(), key.1.clone(), value);

    assert!(cache.get(&key.0, &key.1).is_none());
    assert_eq!(cache.retained_bytes(), 0);
}

#[test]
fn zero_byte_capacity_disables_cache() {
    let mut cache = MeasurementCache::new(10, 0);
    let key = ("16px A".to_owned(), "a".to_owned());
    cache.insert(key.0.clone(), key.1.clone(), metrics(1.0));
    assert!(cache.get(&key.0, &key.1).is_none());
}

// ---- Pool ------------------------------------------------------------------

fn prepared() -> PreparedText {
    let backend = FixedWidthBackend::new();
    let font = FontSpec::new("16px Inter").expect("fixed test font is valid");
    prepare("hello", &font, &backend, PrepareOptions::default())
        .expect("test preparation succeeds")
}

#[test]
fn pool_exhausts_identifier_space_without_reusing_handles() {
    let value = prepared();
    let mut pool = PreparedPool {
        entries: HashMap::new(),
        next_id: u32::MAX,
        charged_bytes: 0,
    };
    let max = pool
        .insert(value.clone(), 5)
        .expect("first insertion succeeds");
    let exhausted = pool.insert(value, 5);

    assert_eq!(max, u32::MAX);
    assert!(pool.get(max).is_ok());
    assert!(matches!(
        exhausted,
        Err(Error::IdentifierExhausted {
            resource: "WASM prepared-text handle"
        })
    ));
}

#[test]
fn pool_rejects_unknown_and_double_freed_handles() {
    let mut pool = PreparedPool::default();
    let handle = pool.insert(prepared(), 5).expect("insertion succeeds");
    assert!(pool.remove(handle).is_ok());
    assert!(matches!(
        pool.remove(handle),
        Err(Error::InvalidHandle { handle: rejected }) if rejected == handle
    ));
}

#[test]
fn handle_parser_rejects_partial_batches() {
    assert!(parse_handles("1,nope,3").is_err());
    assert_eq!(
        parse_handles("1, 2, 3").expect("valid handles"),
        vec![1, 2, 3]
    );
}

#[test]
fn removing_an_entry_releases_its_memory_charge() {
    let mut pool = PreparedPool::default();
    let handle = pool.insert(prepared(), 5).expect("insertion succeeds");
    let charged = pool.charged_bytes;
    assert!(charged > 5);
    pool.remove(handle).expect("removal succeeds");
    assert_eq!(pool.charged_bytes, 0);
}

#[test]
fn rejected_batch_does_not_mutate_pool() {
    let mut pool = PreparedPool::default();
    let existing = pool.insert(prepared(), 5).expect("insertion succeeds");
    let entry_count = pool.entries.len();
    let charged_bytes = pool.charged_bytes;

    let rejected = pool.insert_batch(vec![(prepared(), MAX_POOL_BYTES)]);

    assert!(matches!(rejected, Err(Error::ResourceLimit { .. })));
    assert_eq!(pool.entries.len(), entry_count);
    assert_eq!(pool.charged_bytes, charged_bytes);
    assert!(pool.get(existing).is_ok());
}

// ---- Font specifications in detail --------------------------------------------------

#[test]
fn rejected_fonts_say_why() {
    for (css, reason) in [
        ("  ", "font specification is empty"),
        ("Inter", "unsupported token before font size: \"Inter\""),
        ("bold", "expected a size using px or pt units"),
        ("abcpx Inter", "font size is not a number"),
        ("-1pt Inter", "font size must be finite and positive"),
        ("loud 16px Inter", "unsupported token before font size: \"loud\""),
        ("bold bolder 16px Inter", "duplicate font prefix category at \"bolder\""),
        ("16px", "font family is missing"),
        ("16px/ Inter", "line height is missing after '/'"),
        ("16px/nope Inter", "line height is not a supported number"),
        ("16px/0 Inter", "line height must be finite and positive"),
        ("16px ''", "font family is empty"),
        ("16px 'Noto Sans", "font family quote is not closed"),
    ] {
        assert_eq!(
            FontSpec::new(css).err(),
            Some(Error::InvalidFontSpec {
                spec: css.to_owned(),
                reason: reason.to_owned(),
            }),
            "{css:?}"
        );
    }
}

#[test]
fn accepted_fonts_keep_their_parts() {
    let font = FontSpec::new("  italic small-caps 700 condensed 9pt/1.2 \"Noto Sans\" , serif ")
        .expect("valid font");
    assert_eq!(
        font.as_css_str(),
        "italic small-caps 700 condensed 9pt/1.2 \"Noto Sans\" , serif"
    );
    assert_eq!(font.size_px(), 12.0);
    assert_eq!(font.family(), "Noto Sans");
    assert!(font.has_generic_family());
    assert_eq!(font, font.clone());
}

// ---- Fixed widths in detail ----------------------------------------------------------

#[test]
fn fixed_widths_add_up_by_cluster() {
    let font = FontSpec::new("10px Inter").expect("valid font");
    let backend = FixedWidthBackend::new();
    let metrics = backend
        .measure_segment("a\u{65E5} \u{1F600}", &font)
        .expect("measurement succeeds");
    assert_eq!(metrics.emoji_count, 1);
    assert!(metrics.contains_cjk);
    assert_eq!(
        metrics.grapheme_widths,
        Some(vec![Px(6.0), Px(10.0), Px(2.5), Px(10.0)])
    );
    assert_eq!(metrics.width, 28.5);

    let single = backend.measure_segment("a", &font).expect("measurement succeeds");
    assert!(single.grapheme_widths.is_none());
    let given = backend
        .measure_clusters(&vec!["a".to_owned(), "b".to_owned()], Px(20.0))
        .expect("measurement succeeds");
    assert_eq!(given.width, 24.0);
}

#[test]
fn factors_are_checked_by_name() {
    let refused = |outcome: Result<FixedWidthBackend, Error>| match outcome {
        Err(Error::InvalidInput { parameter, .. }) => parameter,
        _ => "accepted",
    };
    let backend = FixedWidthBackend::new();
    assert_eq!(refused(backend.with_char_width(Px(-1.0))), "char_width_factor");
    assert_eq!(refused(backend.with_cjk_width(Px(f64::INFINITY))), "cjk_width_factor");
    assert_eq!(refused(backend.with_space_width(Px(f64::NAN))), "space_width_factor");
    assert_eq!(
        refused(backend.with_narrow_space_width(Px(-0.1))),
        "narrow_space_width_factor"
    );
    let font = FontSpec::new("10px Inter").expect("valid font");
    let spaced = backend.with_space_width(Px(0.5)).expect("valid factor");
    assert_eq!(spaced.measure_space_width(&font).expect("measurement succeeds"), 5.0);
    assert_eq!(spaced.measure_hyphen_width(&font).expect("measurement succeeds"), 6.0);
}

// ---- Skrifa in detail -------------------------------------------------------------------

#[test]
fn unusable_font_bytes_are_named_in_the_message() {
    let mut backend = SkrifaNominalBackend::new();
    let message = backend
        .load_font(" Inter ", b"not a font")
        .expect_err("no font")
        .message();
    assert!(message.starts_with("skrifa measurement failed: failed to parse font \"Inter\": "));
    assert!(message.len() > "skrifa measurement failed: failed to parse font \"Inter\": ".len());
    let message = backend
        .set_default_font(&[])
        .expect_err("no font")
        .message();
    assert!(message.starts_with("skrifa measurement failed: failed to parse default font: "));

    // A face with a table directory and nothing else has no character map.
    let mut bare = vec![0_u8, 1, 0, 0, 0, 0, 0, 0, 0, 0, 0, 0];
    bare.extend_from_slice(&[0; 4]);
    assert_eq!(
        backend.set_default_font(&bare).expect_err("no map").message(),
        "skrifa measurement failed: default font has no supported character map"
    );
}

#[test]
fn a_family_is_found_before_the_default_font() {
    let mut fonts = pretext::backend::SkrifaNominalBackend::new();
    let tinos = FontSpec::new("16px Tinos").expect("valid font");
    let other = FontSpec::new("16px Other").expect("valid font");
    fonts.load_font("Tinos", TINOS_SUBSET).expect("a font");
    assert_eq!(fonts.get_font_data(&tinos).expect("loaded"), TINOS_SUBSET);
    assert_eq!(
        fonts.get_font_data(&other).err(),
        Some(Error::MissingFont {
            family: "Other".to_owned()
        })
    );
    fonts.set_default_font(TINOS_SUBSET).expect("a font");
    assert_eq!(fonts.get_font_data(&other).expect("the default"), TINOS_SUBSET);
}

#[test]
fn nominal_widths_come_from_glyph_advances() {
    let mut fonts = pretext::backend::SkrifaNominalBackend::new();
    fonts.load_font("Tinos", TINOS_SUBSET).expect("a font");
    let font = FontSpec::new("16px Tinos").expect("valid font");
    // The advance of a glyph is its number: distinct characters, distinct
    // glyphs.
    let numbered = |glyph: u32| Some(Px(f64::from(glyph)));
    let metrics = fonts.measure_segment("ab", &font, numbered).expect("measured");
    let widths = metrics.grapheme_widths.expect("two graphemes");
    assert!(widths[0].0 > 0.0 && widths[0] != widths[1]);
    assert_eq!(metrics.width, widths[0].0 + widths[1].0);

    let refused = fonts
        .measure_segment("a", &font, |_| None::<Px>)
        .expect_err("no advance");
    assert_eq!(
        refused.message(),
        format!(
            "skrifa measurement failed: font has no advance width for U+0061 (glyph {})",
            widths[0].0
        )
    );
    assert_eq!(
        fonts
            .measure_segment("a", &font, |_| Some(Px(f64::NAN)))
            .expect_err("no measurement")
            .message(),
        "measurement skrifa glyph advance must be finite and non-negative, got NaN"
    );
}

#[test]
fn lookups_are_summed_up_by_cluster() {
    let lookup = |width: f64| GlyphLookup {
        glyph: Some(7),
        advance: Some(Px(width)),
    };
    let clusters = vec!["e\u{0301}".to_owned(), "b".to_owned()];
    let metrics = nominal_metrics(
        &clusters,
        "Tinos",
        &vec![vec![lookup(1.0), lookup(0.5)], vec![lookup(2.0)]],
    )
    .expect("measured");
    assert_eq!(metrics.width, 3.5);
    assert_eq!(metrics.grapheme_widths, Some(vec![Px(1.5), Px(2.0)]));

    let missing = GlyphLookup::<Px> {
        glyph: None,
        advance: None,
    };
    assert_eq!(
        nominal_advance('x', "Tinos", missing),
        Err(Error::MissingGlyph {
            character: 'x',
            family: "Tinos".to_owned(),
        })
    );
    assert_eq!(nominal_advance('\u{2060}', "Tinos", missing), Ok(Px(0.0)));
    let wide = vec![vec![lookup(f64::MAX)], vec![lookup(f64::MAX)]];
    assert_eq!(
        nominal_metrics(&vec!["a".to_owned(), "b".to_owned()], "Tinos", &wide)
            .expect_err("too wide")
            .message(),
        "measurement skrifa segment width must be finite and non-negative, got inf"
    );
}

#[test]
fn spaces_and_hyphens_are_measured_as_characters() {
    let mut backend = SkrifaNominalBackend::new();
    let font = FontSpec::new("16px Tinos").expect("valid font");
    assert!(matches!(
        backend.measure_hyphen_width(&font),
        Err(Error::MissingFont { .. })
    ));
    backend.load_font("Tinos", TINOS_SUBSET).expect("a font");
    let width = backend.measure_segment("a", &font).expect("measured").width;
    assert!(width > 0.0);
    // The subset holds letters only.
    assert!(matches!(
        backend.measure_hyphen_width(&font),
        Err(Error::MissingGlyph { character: '-', .. })
    ));
}

// ---- Around the browser ------------------------------------------------------------------

#[test]
fn the_browser_is_asked_about_the_segment_and_its_graphemes() {
    assert_eq!(texts_to_ask("ab\u{0301}"), vec!["ab\u{0301}", "a", "b\u{0301}"]);
    assert_eq!(texts_to_ask("a"), vec!["a"]);
}

#[test]
fn answers_are_put_together_and_retained() {
    let font = FontSpec::new("16px Inter, sans-serif").expect("valid font");
    let mut state = CanvasState::new(4, 4_096);
    assert!(state.cached("ab", &font).is_none());
    assert!(state.measured("ab", &font, &vec![Px(11.0), Px(6.0)]).is_none());
    let metrics = state
        .measured("ab", &font, &vec![Px(11.0), Px(6.0), Px(6.0)])
        .expect("three answers");
    assert_eq!(metrics.width, 11.0);
    assert_eq!(metrics.grapheme_widths, Some(vec![Px(6.0), Px(6.0)]));
    let cached = state.cached("ab", &font).expect("retained");
    assert_eq!(cached.width, 11.0);
    assert_eq!(cached.grapheme_widths, Some(vec![Px(6.0), Px(6.0)]));
    state.clear_cache();
    assert!(state.cached("ab", &font).is_none());

    let single = state
        .measured("\u{1F600}", &font, &vec![Px(16.0)])
        .expect("one answer");
    assert_eq!((single.emoji_count, single.grapheme_widths), (1, None));
}

#[test]
fn a_font_is_assigned_after_a_sentinel() {
    let font = FontSpec::new("16px Inter, sans-serif").expect("valid font");
    let one = FontSpec::new("1px Inter, sans-serif").expect("valid font");
    let named = FontSpec::new("16px Inter").expect("valid font");
    let mut state = CanvasState::new(4, 4_096);
    assert_eq!(state.font_step(&font), Ok(FontStep::AssignAfterOnePixel));
    assert_eq!(state.font_step(&one), Ok(FontStep::AssignAfterTwoPixels));
    assert_eq!(FontStep::AssignAfterOnePixel.sentinel(), Some("1px serif"));
    assert_eq!(FontStep::AssignAfterTwoPixels.sentinel(), Some("2px serif"));
    assert_eq!(FontStep::Ready.sentinel(), None);
    assert_eq!(
        state.font_step(&named),
        Err(Error::InvalidFontSpec {
            spec: "16px Inter".to_owned(),
            reason: "canvas measurement requires an explicit CSS generic family fallback"
                .to_owned(),
        })
    );

    assert_eq!(
        state
            .font_assigned(&font, "1px serif", "1px serif")
            .expect_err("the browser took no notice")
            .message(),
        "canvas measurement failed: browser rejected validated font assignment \
         \"16px Inter, sans-serif\""
    );
    assert_eq!(state.font_step(&font), Ok(FontStep::AssignAfterOnePixel));
    assert_eq!(state.font_assigned(&font, "1px serif", "16px Inter"), Ok(()));
    assert_eq!(state.font_step(&font), Ok(FontStep::Ready));
}

#[test]
fn browser_replies_are_checked() {
    assert_eq!(accept_canvas_width(Px(2.0)), Ok(Px(2.0)));
    assert_eq!(
        accept_canvas_width(Px(-2.0)).expect_err("negative").message(),
        "measurement canvas text width must be finite and non-negative, got -2"
    );
    assert_eq!(
        format_canvas_init_failure(Some("none"), "no browser window"),
        "offscreen context failed (none); DOM fallback failed (no browser window)"
    );
    assert_eq!(
        format_canvas_init_failure(None, "gone"),
        "DOM canvas initialization failed (gone)"
    );
}

#[test]
fn retained_bytes_count_the_key_twice() {
    let fixed = 2 * std::mem::size_of::<(String, String)>() + std::mem::size_of::<SegmentMetrics>();
    assert_eq!(retained_bytes_with::<Px>("abc", "\u{20AC}", 0), fixed + 12);
    assert_eq!(retained_bytes_with::<Px>("", "", 3), fixed + 24);
    assert_eq!(retained_bytes_with::<Px>("", "", usize::MAX), usize::MAX);
    assert_eq!(
        estimated_retained_bytes("abc", "\u{20AC}", &metrics(1.0)),
        fixed + 12
    );
}

#[test]
fn a_cached_measurement_is_replaced_in_place() {
    let mut cache = MeasurementCache::new(2, usize::MAX);
    cache.insert("f".to_owned(), "a".to_owned(), metrics(1.0));
    cache.insert("f".to_owned(), "b".to_owned(), metrics(2.0));
    cache.insert("f".to_owned(), "a".to_owned(), metrics(3.0));
    assert_eq!(cache.get("f", "a").map(|m| m.width.0), Some(3.0));
    // It keeps its age: the next one evicts it first.
    cache.insert("f".to_owned(), "c".to_owned(), metrics(4.0));
    assert!(cache.get("f", "a").is_none());
    assert_eq!(cache.get("f", "b").map(|m| m.width.0), Some(2.0));
    cache.clear();
    assert!(cache.get("f", "b").is_none());
    assert_eq!(cache.retained_bytes(), 0);
}

// ---- Memory ----------------------------------------------------------------------------------

#[test]
fn heap_estimates_follow_the_capacities() {
    let capacities = Capacities {
        widths: 3,
        line_end_fit_advances: 4,
        line_end_paint_advances: 5,
        kinds: 6,
        breakable_widths: 2,
        grapheme_widths: vec![0, 7],
        chunks: 1,
    };
    let expected = std::mem::size_of::<pretext::types::PreparedData<Px>>()
        + (3 + 4 + 5 + 7) * 8
        + 6 * std::mem::size_of::<pretext::types::SegmentKind>()
        + 2 * std::mem::size_of::<Option<Vec<Px>>>()
        + std::mem::size_of::<pretext::types::PreparedLineChunk>();
    assert_eq!(estimated_bytes_with::<Px>(&capacities), expected);
    let huge = Capacities {
        widths: usize::MAX,
        grapheme_widths: vec![],
        ..capacities
    };
    assert_eq!(estimated_bytes_with::<Px>(&huge), usize::MAX);
    assert!(estimated_heap_bytes(&prepared()) > std::mem::size_of::<PreparedText>());
}

// ---- Sessions ----------------------------------------------------------------------------------

#[test]
fn batches_round_trip_through_their_handles() {
    let backend = FixedWidthBackend::new();
    let mut pool = PreparedPool::new();
    let handles = prepare_batch(&mut pool, "[\"ab cd\", \"x\"]", "10px Inter", "normal", &backend)
        .expect("a batch");
    assert_eq!(handles, "1,2");
    assert_eq!(parse_handles(&handles), Ok(vec![1, 2]));
    assert_eq!(layout_batch(&pool, &handles, Px(13.0), Px(10.0)), Ok(3));
    assert_eq!(pool_layout(&pool, 1, Px(13.0), Px(10.0)), Ok(2));
    assert_eq!(free_batch(&mut pool, &handles), Ok(()));
    assert_eq!((pool.entries.len(), pool.charged_bytes), (0, 0));
    assert_eq!(
        pool_prepare(&mut pool, "y", "10px Inter", "pre-wrap", &backend),
        Ok(3)
    );
}

#[test]
fn refused_batches_change_nothing() {
    let backend = FixedWidthBackend::new();
    let mut pool = PreparedPool::new();
    let handle = pool_prepare(&mut pool, "ab", "10px Inter", "normal", &backend).expect("room");
    let state = |pool: &PreparedPool| (pool.entries.len(), pool.next_id, pool.charged_bytes);
    let before = state(&pool);

    let refused = |outcome: Result<String, Error>| outcome.expect_err("refused").message();
    assert_eq!(
        refused(prepare_batch(&mut pool, "[1]", "10px Inter", "normal", &backend)),
        "invalid texts_json: invalid type: integer `1`, expected a string at line 1 column 2"
    );
    assert_eq!(
        refused(prepare_batch(&mut pool, "[\"a\"]", "10px Inter", "nowrap", &backend)),
        "invalid white_space: expected \"normal\" or \"pre-wrap\""
    );
    assert_eq!(
        refused(prepare_batch(&mut pool, "[\"a\"]", "bold", "nowrap", &backend)),
        "invalid font specification \"bold\": expected a size using px or pt units"
    );
    let many = format!("[{}]", vec!["\"a\""; 1_025].join(","));
    assert_eq!(
        refused(prepare_batch(&mut pool, &many, "10px Inter", "normal", &backend)),
        "invalid texts_json: batch exceeds 1024 texts"
    );
    let long = format!("[\"{}\"]", "a".repeat(65_537));
    assert_eq!(
        refused(prepare_batch(&mut pool, &long, "10px Inter", "normal", &backend)),
        "WASM batch graphemes contains 65537 units; configured maximum is 65536 units"
    );
    let huge = format!("[\"{}\"]", "a".repeat(4 * 1_024 * 1_024));
    assert_eq!(
        refused(prepare_batch(&mut pool, &huge, "10px Inter", "normal", &backend)),
        "input is 4194308 bytes; configured maximum is 4194304 bytes"
    );
    assert_eq!(
        free_batch(&mut pool, "1,1").expect_err("twice").message(),
        "invalid handles_csv: duplicate handles are not allowed"
    );
    assert_eq!(free_batch(&mut pool, "1,2"), Err(Error::InvalidHandle { handle: 2 }));
    assert_eq!(state(&pool), before);
    assert!(pool.get(handle).is_ok());
}

#[test]
fn batch_requests_are_checked_before_measuring() {
    let check = |json: &str, font: &str, mode: &str| {
        read_batch::<Px>(json, font, mode).map_err(|error| error.message())
    };
    assert_eq!(
        check("[\"a\", \"b\"]", "10px Inter", "pre-wrap"),
        Ok(vec!["a".to_owned(), "b".to_owned()])
    );
    assert_eq!(check("[]", "10px Inter", "normal"), Ok(vec![]));
    assert!(check("[\"a\"", "10px Inter", "normal").is_err());
    assert_eq!(
        check("[]", "bold", "nowrap"),
        Err("invalid font specification \"bold\": expected a size using px or pt units".to_owned())
    );
    assert_eq!(
        check("[]", "10px Inter", "nowrap"),
        Err("invalid white_space: expected \"normal\" or \"pre-wrap\"".to_owned())
    );
}

#[test]
fn lists_of_handles_are_read_strictly() {
    let refused = |csv: &str| parse_handles(csv).expect_err("refused").message();
    assert_eq!(parse_handles("  "), Ok(vec![]));
    assert_eq!(parse_handles(" +7 ,4294967295"), Ok(vec![7, u32::MAX]));
    assert_eq!(
        refused("1,nope,3"),
        "invalid handles_csv: invalid handle \"nope\": invalid digit found in string"
    );
    assert_eq!(
        refused("1, "),
        "invalid handles_csv: invalid handle \" \": cannot parse integer from empty string"
    );
    assert_eq!(
        refused("4294967296"),
        "invalid handles_csv: invalid handle \"4294967296\": number too large to fit in target type"
    );
    assert_eq!(
        refused(&vec!["1"; 1_025].join(",")),
        "invalid handles_csv: batch exceeds 1024 handles"
    );
    assert_eq!(
        refused(&" ".repeat(11_265)),
        "input is 11265 bytes; configured maximum is 11264 bytes"
    );
}

#[test]
fn requests_are_served_in_one_step() {
    let backend = FixedWidthBackend::new();
    assert_eq!(
        prepare_and_layout("ab cd", "10px Inter", "normal", Px(13.0), Px(10.0), &backend),
        Ok(2)
    );
    let lines = layout_lines("ab cd", "10px Inter", "normal", Px(13.0), &backend).expect("lines");
    let texts: Vec<_> = lines.iter().map(|line| line.text.as_str()).collect();
    assert_eq!(texts, vec!["ab ", "cd"]);
    assert!(layout_lines("ab", "10px Inter", "normal", Px(-1.0), &backend).is_err());
    let long = format!("10px {}", "a".repeat(4_096));
    assert_eq!(
        prepare_and_layout("ab", &long, "normal", Px(13.0), Px(10.0), &backend),
        Err(Error::InputTooLarge {
            bytes: 4_101,
            max_bytes: 4_096,
        })
    );
}

#[test]
fn a_pool_is_full_at_its_limits() {
    let mut pool = PreparedPool::new();
    let values: Vec<PreparedText> = (0..16_384).map(|_| prepared()).collect();
    let charges = vec![1; 16_384];
    assert_eq!(
        pool.insert_charged(values, &charges).map(|handles| handles.len()),
        Ok(16_384)
    );
    assert_eq!(pool.charged_bytes, 16_384);
    assert_eq!(
        pool.insert_charged(vec![prepared()], &vec![0]),
        Err(Error::PoolExhausted { capacity: 16_384 })
    );
    assert_eq!(pool.insert_charged(vec![], &vec![]), Ok(vec![]));
    assert_eq!(pool.remove(5), Ok(()));
    assert_eq!(
        pool.insert_charged(vec![prepared()], &vec![MAX_POOL_BYTES]),
        Err(Error::ResourceLimit {
            resource: "WASM prepared-text pool",
            requested_bytes: MAX_POOL_BYTES + 16_383,
            max_bytes: MAX_POOL_BYTES,
        })
    );
    // The freed handle is not handed out again.
    assert_eq!(pool.insert_charged(vec![prepared()], &vec![0]), Ok(vec![16_385]));
}

#[test]
fn a_pool_out_of_order_is_reported() {
    let mut pool = PreparedPool {
        entries: HashMap::new(),
        next_id: 2,
        charged_bytes: 0,
    };
    let handle = pool.insert(prepared(), 5).expect("room");
    assert_eq!(handle, 2);
    pool.charged_bytes = 0;
    assert_eq!(
        pool.remove(handle),
        Err(Error::StateUnavailable {
            state: "WASM prepared-text memory accounting"
        })
    );
    pool.next_id = 2;
    assert_eq!(
        pool.insert(prepared(), 5),
        Err(Error::StateUnavailable {
            state: "WASM monotonic handle allocator"
        })
    );
}

#[test]
fn batches_are_prepared_and_stored_in_two_steps() {
    let texts = vec!["ab".to_owned(), "\u{20AC}".to_owned()];
    let values = prepare_values(&texts, "10px Inter", "normal", &FixedWidthBackend::new())
        .expect("prepared");
    let sizes: Vec<usize> = values.iter().map(|value| value.1).collect();
    assert_eq!(sizes, vec![2, 3]);
    let mut pool = PreparedPool::new();
    assert_eq!(store_values(&mut pool, values), Ok("1,2".to_owned()));
    assert_eq!(store_values(&mut pool, vec![]), Ok(String::new()));
    assert_eq!(pool.entries.len(), 2);
}
