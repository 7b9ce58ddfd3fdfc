//! Characters, text analysis and bidirectional levels.
use pretext::analysis::{
    analyze_text, merge_forward_sticky, merge_kinsoku, merge_left_sticky_punctuation,
    merge_numeric_runs, merge_url_runs, normalize_whitespace, segment_words, AnalysisSegment,
};
use pretext::bidi::{
    bidi_type_at, classify_char, compute_bidi_levels, compute_segment_levels, scalar_levels,
    BidiType,
};
use pretext::error::MetricValue;
use pretext::layout_unit::LayoutUnit;
use pretext::types::{SegmentKind, WhiteSpaceMode};
use pretext::session::error_code;
use pretext::unicode::{
    is_cjk, is_emoji, is_forward_sticky, is_kinsoku_end, is_kinsoku_start,
    is_left_sticky_punctuation, is_numeric_connective, is_soft_hyphen, is_url_internal,
    is_zero_width_space, looks_like_url,
};
use pretext::{prepare_with_segments, Error};

type FixedWidthBackend = pretext::backend::fixed::FixedWidthBackend<LayoutUnit>;
type FontSpec = pretext::backend::FontSpec<LayoutUnit>;

fn valid<T>(result: Result<T, Error>) -> T {
    result.expect("test input is valid")
}

// ---- Analysis ------------------------------------------------------------------

fn text_segment(text: impl Into<String>) -> AnalysisSegment {
    AnalysisSegment {
        text: text.into(),
        kind: SegmentKind::Text,
        contains_cjk: false,
    }
}

fn reconstructed_text(segments: &[AnalysisSegment]) -> String {
    segments
        .iter()
        .map(|segment| segment.text.as_str())
        .collect()
}

#[test]
fn test_normalize_whitespace_normal() {
    assert_eq!(
        normalize_whitespace("  hello   world  ", WhiteSpaceMode::Normal),
        "hello world"
    );
    assert_eq!(
        normalize_whitespace("hello\n\nworld", WhiteSpaceMode::Normal),
        "hello world"
    );
    assert_eq!(
        normalize_whitespace("  \t  \n  ", WhiteSpaceMode::Normal),
        ""
    );
}

#[test]
fn test_normalize_whitespace_prewrap() {
    assert_eq!(
        normalize_whitespace("hello\r\nworld", WhiteSpaceMode::PreWrap),
        "hello\nworld"
    );
    assert_eq!(
        normalize_whitespace("hello\u{000C}world", WhiteSpaceMode::PreWrap),
        "hello\nworld"
    );
}

#[test]
fn form_feed_matches_css_whitespace_modes() {
    let normal = analyze_text("a\u{000C}\u{000C}b", WhiteSpaceMode::Normal);
    assert_eq!(reconstructed_text(&normal.segments), "a b");

    let pre_wrap = analyze_text("a\u{000C}b", WhiteSpaceMode::PreWrap);
    assert_eq!(reconstructed_text(&pre_wrap.segments), "a\nb");
    assert!(
        pre_wrap
            .segments
            .iter()
            .any(|segment| segment.kind == SegmentKind::HardBreak)
    );
}

#[test]
fn test_basic_segmentation() {
    let result = analyze_text("hello world", WhiteSpaceMode::Normal);
    assert_eq!(result.segments.len(), 3); // "hello", " ", "world"
    assert_eq!(result.segments[0].kind, SegmentKind::Text);
    assert_eq!(result.segments[1].kind, SegmentKind::Space);
    assert_eq!(result.segments[2].kind, SegmentKind::Text);
}

#[test]
fn embedded_break_and_no_break_controls_are_always_explicit_segments() {
    let controls = [
        ('\u{00AD}', SegmentKind::SoftHyphen),
        ('\u{200B}', SegmentKind::ZeroWidthBreak),
        ('\u{00A0}', SegmentKind::Glue),
        ('\u{202F}', SegmentKind::Glue),
        ('\u{2060}', SegmentKind::Glue),
        ('\u{FEFF}', SegmentKind::Glue),
    ];

    for (control, expected_kind) in controls {
        let input = format!("left{control}right");
        let analyzed = analyze_text(&input, WhiteSpaceMode::Normal);
        let matching: Vec<_> = analyzed
            .segments
            .iter()
            .filter(|segment| segment.text == control.to_string())
            .collect();

        assert_eq!(reconstructed_text(&analyzed.segments), input);
        assert_eq!(matching.len(), 1, "control U+{:04X}", control as u32);
        assert_eq!(
            matching.first().map(|segment| segment.kind),
            Some(expected_kind)
        );
    }
}

#[test]
fn adjacent_embedded_controls_remain_individual_and_ordered() {
    let input = "a\u{00AD}\u{200B}\u{00A0}\u{202F}\u{2060}\u{FEFF}z";
    let analyzed = analyze_text(input, WhiteSpaceMode::Normal);
    let controls: Vec<_> = analyzed
        .segments
        .iter()
        .filter(|segment| segment.kind != SegmentKind::Text)
        .map(|segment| (segment.text.as_str(), segment.kind))
        .collect();

    assert_eq!(reconstructed_text(&analyzed.segments), input);
    assert_eq!(
        controls,
        vec![
            ("\u{00AD}", SegmentKind::SoftHyphen),
            ("\u{200B}", SegmentKind::ZeroWidthBreak),
            ("\u{00A0}", SegmentKind::Glue),
            ("\u{202F}", SegmentKind::Glue),
            ("\u{2060}", SegmentKind::Glue),
            ("\u{FEFF}", SegmentKind::Glue),
        ]
    );
}

const CONTROL_COUNT: usize = 4_096;

#[test]
fn long_embedded_control_run_preserves_every_control_without_coalescing() {
    let input = format!(
        "{}tail",
        "part\u{00AD}\u{200B}\u{2060}".repeat(CONTROL_COUNT)
    );

    let analyzed = analyze_text(&input, WhiteSpaceMode::Normal);
    let explicit_controls = analyzed
        .segments
        .iter()
        .filter(|segment| {
            matches!(
                segment.kind,
                SegmentKind::SoftHyphen | SegmentKind::ZeroWidthBreak | SegmentKind::Glue
            )
        })
        .count();

    assert_eq!(reconstructed_text(&analyzed.segments), input);
    assert_eq!(explicit_controls, CONTROL_COUNT * 3);
}

#[test]
fn test_left_sticky_punctuation() {
    let result = analyze_text("hello.", WhiteSpaceMode::Normal);
    // "hello" and "." should merge into "hello."
    assert!(result.segments.len() <= 2);
    assert!(
        result
            .segments
            .iter()
            .any(|s| s.text.contains("hello") && s.text.contains('.'))
    );
}

#[test]
fn test_cjk_splitting() {
    let result = analyze_text("\u{65E5}\u{672C}\u{8A9E}", WhiteSpaceMode::Normal);
    // Each CJK character should be its own segment
    assert_eq!(result.segments.len(), 3);
    assert!(result.segments.iter().all(|s| s.contains_cjk));
}

#[test]
fn analysis_test_empty_text() {
    let result = analyze_text("", WhiteSpaceMode::Normal);
    assert!(result.segments.is_empty());
    assert!(result.simple_fast_path);
}

#[test]
fn test_simple_fast_path() {
    let result = analyze_text("hello world", WhiteSpaceMode::Normal);
    assert!(result.simple_fast_path);
}

#[test]
fn test_hard_break_chunks() {
    let result = analyze_text("line1\nline2\nline3", WhiteSpaceMode::PreWrap);
    // Should have 3 chunks
    assert_eq!(result.chunks.len(), 3);
}

const RUN_LENGTH: usize = 8_192;

#[test]
fn long_sticky_punctuation_runs_merge_without_losing_text() {
    let mut trailing = Vec::with_capacity(RUN_LENGTH + 1);
    trailing.push(text_segment("word"));
    trailing.extend((0..RUN_LENGTH).map(|_| text_segment(".")));
    merge_left_sticky_punctuation(&mut trailing);
    assert_eq!(trailing.len(), 1);
    assert_eq!(
        reconstructed_text(&trailing),
        format!("word{}", ".".repeat(RUN_LENGTH))
    );

    let mut leading = Vec::with_capacity(RUN_LENGTH + 1);
    leading.extend((0..RUN_LENGTH).map(|_| text_segment("(")));
    leading.push(text_segment("word"));
    merge_forward_sticky(&mut leading);
    assert_eq!(leading.len(), 1);
    assert_eq!(
        reconstructed_text(&leading),
        format!("{}word", "(".repeat(RUN_LENGTH))
    );
}

#[test]
fn long_url_run_merges_without_losing_text() {
    let mut segments = Vec::with_capacity(RUN_LENGTH + 1);
    segments.push(text_segment("https://example.com/"));
    segments.extend((0..RUN_LENGTH).map(|index| {
        if index % 2 == 0 {
            text_segment("path")
        } else {
            text_segment("/")
        }
    }));
    let expected = reconstructed_text(&segments);

    merge_url_runs(&mut segments);

    assert_eq!(segments.len(), 1);
    assert_eq!(reconstructed_text(&segments), expected);
}

#[test]
fn fragmented_url_seed_and_complete_tail_merge_atomically() {
    let mut segments = [
        "HTTPS", ":", "/", "/", "example", ".", "com", "/", "a", "?", "x", "=", "1", "#",
        "frag",
    ]
    .into_iter()
    .map(text_segment)
    .collect();

    merge_url_runs(&mut segments);

    assert_eq!(segments.len(), 1);
    assert_eq!(
        reconstructed_text(&segments),
        "HTTPS://example.com/a?x=1#frag"
    );
}

#[test]
fn complete_analysis_keeps_urls_and_dates_atomic_end_to_end() {
    let url = "https://example.com/a/b?x=1#frag";
    let date = "2024-01-15";
    let input = format!("visit {url} before {date} please");

    let analyzed = analyze_text(&input, WhiteSpaceMode::Normal);

    assert_eq!(reconstructed_text(&analyzed.segments), input);
    assert!(analyzed.segments.iter().any(|segment| segment.text == url));
    assert!(analyzed.segments.iter().any(|segment| segment.text == date));
}

#[test]
fn chained_numeric_connectives_merge_the_entire_date_and_time() {
    let mut date = ["2024", "-", "01", "-", "15"]
        .into_iter()
        .map(text_segment)
        .collect();
    let mut time = ["09", ":", "30", ":", "45"]
        .into_iter()
        .map(text_segment)
        .collect();

    merge_numeric_runs(&mut date);
    merge_numeric_runs(&mut time);

    assert_eq!(date.len(), 1);
    assert_eq!(reconstructed_text(&date), "2024-01-15");
    assert_eq!(time.len(), 1);
    assert_eq!(reconstructed_text(&time), "09:30:45");
}

const GROUP_COUNT: usize = 4_097;

#[test]
fn long_ip_like_numeric_run_preserves_order_and_text() {
    let mut segments = Vec::with_capacity(GROUP_COUNT * 2 - 1);
    for group in 0..GROUP_COUNT {
        if group > 0 {
            segments.push(text_segment("."));
        }
        segments.push(text_segment((group % 256).to_string()));
    }
    let expected = reconstructed_text(&segments);

    merge_numeric_runs(&mut segments);

    assert_eq!(segments.len(), 1);
    assert_eq!(reconstructed_text(&segments), expected);
}

#[test]
fn adversarial_patterns_survive_the_complete_analysis_pipeline() {
    let punctuation = format!("word{}", ".".repeat(2_048));
    let url = format!("https://example.com/{}end?x=1", "path/".repeat(2_048));
    let ip = std::iter::repeat_n("192.168.0.1", 2_048)
        .collect::<Vec<_>>()
        .join(",");
    let input = format!("{punctuation} {url} {ip}");

    let analyzed = analyze_text(&input, WhiteSpaceMode::Normal);

    assert_eq!(reconstructed_text(&analyzed.segments), input);
}

// ---- Characters ------------------------------------------------------------------

#[test]
fn test_cjk_detection() {
    assert!(is_cjk('\u{4E2D}')); // 中
    assert!(is_cjk('\u{65E5}')); // 日
    assert!(is_cjk('\u{3042}')); // あ Hiragana
    assert!(is_cjk('\u{30A2}')); // ア Katakana
    assert!(!is_cjk('A'));
    assert!(!is_cjk('1'));
}

#[test]
fn test_kinsoku_end() {
    assert!(is_kinsoku_end('\u{3001}')); // Ideographic comma
    assert!(is_kinsoku_end('\u{3002}')); // Ideographic full stop
    assert!(is_kinsoku_end('\u{3041}')); // Small hiragana
    assert!(!is_kinsoku_end('\u{3042}')); // Regular hiragana
}

#[test]
fn test_kinsoku_start() {
    assert!(is_kinsoku_start('\u{300C}')); // Left corner bracket
    assert!(is_kinsoku_start('\u{201C}')); // Left double quote
    assert!(!is_kinsoku_start('A'));
}

#[test]
fn test_left_sticky() {
    assert!(is_left_sticky_punctuation('.'));
    assert!(is_left_sticky_punctuation(','));
    assert!(is_left_sticky_punctuation('!'));
    assert!(!is_left_sticky_punctuation('A'));
}

#[test]
fn test_url_detection() {
    assert!(looks_like_url("https://example.com"));
    assert!(looks_like_url("http://foo.bar"));
    assert!(looks_like_url("www.example.com"));
    assert!(!looks_like_url("not a url"));
}

#[test]
fn test_emoji() {
    assert!(is_emoji('\u{1F600}')); // grinning face
    assert!(is_emoji('\u{1F680}')); // rocket
    assert!(!is_emoji('A'));
    assert!(!is_emoji('\u{4E2D}')); // 中
}

// ---- Segment starts ---------------------------------------------------------------

#[test]
fn segment_levels_reject_out_of_range_start_without_panicking() {
    assert_eq!(
        compute_segment_levels("א", &[99]),
        Err(Error::InvalidBidiStart {
            start: 99,
            char_count: 1,
        })
    );
}

#[test]
fn segment_levels_validate_starts_even_without_bidi_text() {
    assert_eq!(
        compute_segment_levels("abc", &[0, 3]),
        Err(Error::InvalidBidiStart {
            start: 3,
            char_count: 3,
        })
    );
}

#[test]
fn segment_levels_use_unicode_scalar_indices() {
    assert_eq!(compute_segment_levels("😀א", &[0, 1]), Ok(Some(vec![1, 1])));
}

#[test]
fn segment_levels_return_none_for_empty_or_ltr_text() {
    assert_eq!(compute_segment_levels("", &[]), Ok(None));
    assert_eq!(compute_segment_levels("plain text", &[0, 6]), Ok(None));
}

// ---- Classifier ------------------------------------------------------------

#[test]
fn classify_latin_letter() {
    assert_eq!(classify_char('A'), BidiType::L);
    assert_eq!(classify_char('z'), BidiType::L);
}

#[test]
fn classify_ascii_digit() {
    assert_eq!(classify_char('0'), BidiType::EN);
    assert_eq!(classify_char('9'), BidiType::EN);
}

#[test]
fn classify_space_is_whitespace() {
    assert_eq!(classify_char(' '), BidiType::WS);
}

#[test]
fn classify_comma_is_common_separator() {
    assert_eq!(classify_char(','), BidiType::CS);
}

#[test]
fn classify_hebrew_is_rtl() {
    // U+05D0 HEBREW LETTER ALEF
    assert_eq!(classify_char('\u{05D0}'), BidiType::R);
    // U+05F4 upper bound of R range
    assert_eq!(classify_char('\u{05F4}'), BidiType::R);
}

#[test]
fn classify_arabic_letter_is_al() {
    // U+0627 ARABIC LETTER ALEF — arabicTypes[0x27] = 'AL'
    assert_eq!(classify_char('\u{0627}'), BidiType::AL);
}

#[test]
fn classify_arabic_indic_digit_is_an() {
    // U+0660 ARABIC-INDIC DIGIT ZERO — arabicTypes[0x60] = 'AN'
    assert_eq!(classify_char('\u{0660}'), BidiType::AN);
}

#[test]
fn classify_syriac_is_al_fallthrough() {
    // U+0700-0x08AC fall through to AL
    assert_eq!(classify_char('\u{0700}'), BidiType::AL);
    assert_eq!(classify_char('\u{08AC}'), BidiType::AL);
}

#[test]
fn classify_high_bmp_defaults_l() {
    // Beyond the bidi ranges → L
    assert_eq!(classify_char('\u{4E2D}'), BidiType::L); // CJK 中
}

// ---- compute_bidi_levels ---------------------------------------------------

#[test]
fn all_latin_yields_none() {
    assert!(compute_bidi_levels("hello world").is_none());
}

#[test]
fn empty_yields_none() {
    assert!(compute_bidi_levels("").is_none());
}

#[test]
fn hebrew_only_single_level() {
    // All R chars, levels all 1.
    let got = compute_bidi_levels("\u{05D0}\u{05D1}\u{05D2}").expect("bidi present");
    assert_eq!(got, vec![1, 1, 1]);
}

#[test]
fn emoji_is_neutral_and_follows_the_rtl_paragraph_level() {
    assert_eq!(classify_char('\u{1F600}'), BidiType::ON);

    let got = compute_bidi_levels("\u{1F600}\u{05D0}\u{05D1}").expect("bidi present");
    assert_eq!(got, vec![1, 1, 1]);
    assert!(compute_bidi_levels("\u{1F600} hello").is_none());
}

#[test]
fn rtl_isolate_resolves_without_changing_surrounding_ltr_text() {
    assert_eq!(classify_char('\u{2067}'), BidiType::RLI);
    assert_eq!(classify_char('\u{2069}'), BidiType::PDI);

    let got = compute_bidi_levels("a \u{2067}\u{05D0}\u{05D1}\u{2069} z")
        .expect("RTL isolate requires bidi metadata");
    assert_eq!(got, vec![0, 0, 0, 1, 1, 0, 0, 0]);
}

#[test]
fn first_strong_isolate_detects_its_own_rtl_direction() {
    assert_eq!(classify_char('\u{2068}'), BidiType::FSI);

    let got = compute_bidi_levels("a \u{2068}\u{05D0}\u{05D1}\u{2069} z")
        .expect("first-strong isolate requires bidi metadata");
    assert_eq!(got, vec![0, 0, 0, 1, 1, 0, 0, 0]);
}

#[test]
fn explicit_rtl_embedding_resolves_nested_ltr_text() {
    assert_eq!(classify_char('\u{202B}'), BidiType::RLE);
    assert_eq!(classify_char('\u{202C}'), BidiType::PDF);

    let got = compute_bidi_levels("a \u{202B}AB\u{202C} z")
        .expect("RTL embedding requires bidi metadata");
    assert_eq!(got.len(), 8);
    assert_eq!(&got[..3], &[0, 0, 0]);
    assert_eq!(&got[3..5], &[2, 2]);
    assert_eq!(&got[6..], &[0, 0]);
}

#[test]
fn paragraphs_resolve_direction_independently() {
    let got = compute_bidi_levels("abc \u{05D0}\u{05D1}\n\u{05D0}\u{05D1} abc")
        .expect("both paragraphs contain RTL text");
    assert_eq!(got, vec![0, 0, 0, 0, 1, 1, 0, 1, 1, 1, 2, 2, 2]);
}

// ---- compute_segment_levels ------------------------------------------------

#[test]
fn seg_levels_all_latin_none() {
    assert!(valid(compute_segment_levels("hello world", &[0, 5, 6])).is_none());
}

#[test]
fn seg_levels_hebrew_word() {
    let got = valid(compute_segment_levels(
        "\u{05D0}\u{05D1}\u{05D2} world",
        &[0, 3, 4],
    ))
    .expect("bidi present");
    assert_eq!(got, vec![1, 1, 2]);
}

#[test]
fn seg_levels_arabic_word() {
    let got = valid(compute_segment_levels(
        "\u{0627}\u{0644}\u{0633}\u{0644}\u{0627}\u{0645}",
        &[0],
    ))
    .expect("bidi present");
    assert_eq!(got, vec![1]);
}

#[test]
fn seg_levels_mixed_ltr_rtl() {
    let got = valid(compute_segment_levels(
        "hello \u{05D0}\u{05D1} world",
        &[0, 5, 6, 8, 9],
    ))
    .expect("bidi present");
    assert_eq!(got, vec![0, 0, 1, 0, 0]);
}

#[test]
fn seg_levels_digits_only_none() {
    assert!(valid(compute_segment_levels("12345", &[0])).is_none());
}

#[test]
fn seg_levels_arabic_indic_digits() {
    let got =
        valid(compute_segment_levels("\u{0660}\u{0661} test", &[0, 2, 3])).expect("bidi present");
    assert_eq!(got, vec![2, 0, 0]);
}

#[test]
fn seg_levels_empty_none() {
    assert!(valid(compute_segment_levels("", &[])).is_none());
}

#[test]
fn seg_levels_spaces_only_none() {
    assert!(valid(compute_segment_levels("   ", &[0])).is_none());
}

#[test]
fn seg_levels_hebrew_single_segment() {
    let got =
        valid(compute_segment_levels("\u{05D0}\u{05D1}\u{05D2}", &[0])).expect("bidi present");
    assert_eq!(got, vec![1]);
}

#[test]
fn seg_levels_arabic_latin_interleaved() {
    let got = valid(compute_segment_levels(
        "abc \u{0627}\u{0644}\u{0633} xyz",
        &[0, 3, 4, 7, 8],
    ))
    .expect("bidi present");
    assert_eq!(got, vec![0, 0, 1, 0, 0]);
}

// ---- Integration: prepare_with_segments attaches seg_levels ----------------

#[test]
fn prepare_with_segments_attaches_seg_levels_for_bidi_text() {
    let backend = FixedWidthBackend::new();
    let font = valid(FontSpec::new("16px Inter"));
    let prepared = valid(prepare_with_segments(
        "hello \u{05D0}\u{05D1} world",
        &font,
        &backend,
        Default::default(),
    ));

    let levels = prepared
        .seg_levels()
        .expect("seg_levels populated for bidi text");
    assert!(!levels.is_empty());
}

#[test]
fn prepare_with_segments_no_seg_levels_for_pure_latin() {
    let backend = FixedWidthBackend::new();
    let font = valid(FontSpec::new("16px Inter"));
    let prepared = valid(prepare_with_segments(
        "hello world",
        &font,
        &backend,
        Default::default(),
    ));

    assert!(prepared.seg_levels().is_none());
}

// ---- Normalization -----------------------------------------------------------------

#[test]
fn normalizing_twice_changes_nothing() {
    for text in ["  a \t b\n", "a\r\n\r b\u{000C}", "", " ", "a\u{00A0} b", "\n\n"] {
        for mode in [WhiteSpaceMode::Normal, WhiteSpaceMode::PreWrap] {
            let once = normalize_whitespace(text, mode);
            assert_eq!(normalize_whitespace(&once, mode), once);
        }
    }
    assert_eq!(normalize_whitespace("a\rb\r\nc", WhiteSpaceMode::PreWrap), "a\nb\nc");
    assert_eq!(normalize_whitespace("a\u{00A0} b", WhiteSpaceMode::Normal), "a\u{00A0} b");
}

#[test]
fn preserved_whitespace_becomes_its_own_segments() {
    let analyzed = analyze_text("a  b\tc\nd", WhiteSpaceMode::PreWrap);
    let segments: Vec<_> = analyzed
        .segments
        .iter()
        .map(|segment| (segment.text.as_str(), segment.kind))
        .collect();
    assert_eq!(reconstructed_text(&analyzed.segments), "a  b\tc\nd");
    assert!(segments.contains(&("\t", SegmentKind::Tab)));
    assert!(segments.contains(&("\n", SegmentKind::HardBreak)));
    assert!(segments
        .iter()
        .any(|(text, kind)| text.starts_with(' ') && *kind == SegmentKind::PreservedSpace));
    assert!(!analyzed.simple_fast_path);
    assert_eq!(analyzed.chunks.len(), 2);
    assert_eq!(
        (
            analyzed.chunks[1].start,
            analyzed.chunks[1].end,
            analyzed.chunks[1].consumed_end
        ),
        (segments.len() - 1, segments.len(), segments.len())
    );
}

#[test]
fn line_prohibited_characters_stay_with_their_neighbors() {
    // An ideographic full stop may not start a line.
    let closing = analyze_text("\u{65E5}\u{672C}\u{3002}", WhiteSpaceMode::Normal);
    assert_eq!(closing.segments.len(), 2);
    assert_eq!(closing.segments[1].text, "\u{672C}\u{3002}");

    // A corner bracket may not end one.
    let mut opening = vec![text_segment("\u{300C}"), text_segment("\u{65E5}")];
    merge_kinsoku(&mut opening);
    assert_eq!(opening.len(), 1);
    assert_eq!(opening[0].text, "\u{300C}\u{65E5}");
}

#[test]
fn merging_leaves_controls_alone() {
    let control = AnalysisSegment {
        text: "\u{200B}".to_owned(),
        kind: SegmentKind::ZeroWidthBreak,
        contains_cjk: false,
    };
    let mut segments = vec![text_segment("a"), control, text_segment(".")];
    merge_left_sticky_punctuation(&mut segments);
    merge_forward_sticky(&mut segments);
    merge_kinsoku(&mut segments);
    merge_url_runs(&mut segments);
    merge_numeric_runs(&mut segments);
    let texts: Vec<_> = segments.iter().map(|segment| segment.text.as_str()).collect();
    assert_eq!(texts, vec!["a", "\u{200B}", "."]);
}

#[test]
fn a_lone_connective_does_not_join_numbers() {
    let mut segments: Vec<_> = ["1", "-", "a"].into_iter().map(text_segment).collect();
    merge_numeric_runs(&mut segments);
    assert_eq!(segments.len(), 3);
}

#[test]
fn a_url_ends_at_a_space() {
    let analyzed = analyze_text("www.example.com next", WhiteSpaceMode::Normal);
    let texts: Vec<_> = analyzed.segments.iter().map(|s| s.text.as_str()).collect();
    assert_eq!(texts, vec!["www.example.com", " ", "next"]);
    assert!(analyzed.simple_fast_path);
}

#[test]
fn segmenting_given_words_classifies_each() {
    let words: Vec<String> = ["a", " ", "\u{00AD}", "\u{65E5}\u{672C}"]
        .into_iter()
        .map(str::to_owned)
        .collect();
    let kinds: Vec<_> = segment_words(&words, WhiteSpaceMode::Normal)
        .iter()
        .map(|segment| segment.kind)
        .collect();
    assert_eq!(
        kinds,
        vec![
            SegmentKind::Text,
            SegmentKind::Space,
            SegmentKind::SoftHyphen,
            SegmentKind::Text,
            SegmentKind::Text,
        ]
    );
}

// ---- Characters at the edges of their ranges -----------------------------------------

#[test]
fn character_classes_end_where_their_blocks_end() {
    assert!(is_cjk('\u{9FFF}'));
    assert!(is_cjk('\u{A4CF}') && !is_cjk('\u{A4D0}'));
    assert!(is_cjk('\u{20000}'));
    assert!(!is_cjk('\u{33FF}'));
    assert!(is_emoji('\u{2600}') && is_emoji('\u{26FF}'));
    assert!(!is_emoji('\u{25FF}'));
    assert!(is_soft_hyphen('\u{00AD}') && !is_soft_hyphen('-'));
    assert!(is_zero_width_space('\u{200B}') && !is_zero_width_space(' '));
    assert!(is_forward_sticky('(') && !is_forward_sticky(')'));
    assert!(is_numeric_connective(':') && !is_numeric_connective(';'));
    assert!(is_url_internal('%') && !is_url_internal(' '));
}

// ---- Levels ----------------------------------------------------------------------------

#[test]
fn levels_are_taken_at_the_first_byte_of_each_scalar() {
    // One level for each byte: two for the letter, three for the sign.
    let levels = scalar_levels("\u{05D0}\u{20AC}", &vec![1, 1, 2, 2, 2]);
    assert_eq!(levels, Some(vec![1, 2]));
    assert_eq!(scalar_levels("ab", &vec![0, 0]), None);
}

#[test]
fn class_positions_name_the_classes() {
    assert_eq!(bidi_type_at(0), BidiType::AL);
    assert_eq!(bidi_type_at(22), BidiType::WS);
    assert_eq!(classify_char('\u{2066}'), BidiType::LRI);
    assert_eq!(classify_char('\u{0300}'), BidiType::NSM);
}

#[test]
fn segment_levels_follow_the_segments_of_prepared_text() {
    let font = valid(FontSpec::new("16px Inter"));
    let prepared = valid(prepare_with_segments(
        "hello \u{05D0}\u{05D1} world",
        &font,
        &FixedWidthBackend::new(),
        Default::default(),
    ));
    assert_eq!(prepared.segments().concat(), "hello \u{05D0}\u{05D1} world");
    assert_eq!(prepared.seg_levels(), Some(&[0_i8, 0, 1, 0, 0][..]));
}

// ---- Errors ------------------------------------------------------------------------------

#[test]
fn errors_say_what_was_wrong() {
    let cases: Vec<(Error, &str, &str)> = vec![
        (
            Error::InvalidFontSpec {
                spec: "a\"b".to_owned(),
                reason: "no size".to_owned(),
            },
            "invalid font specification \"a\\\"b\": no size",
            "invalid_font_spec",
        ),
        (
            Error::MissingFont {
                family: "Inter".to_owned(),
            },
            "font family \"Inter\" is not loaded",
            "missing_font",
        ),
        (
            Error::MissingGlyph {
                character: '\'',
                family: "Inter".to_owned(),
            },
            "font family \"Inter\" has no glyph for '\\''",
            "missing_glyph",
        ),
        (
            Error::Measurement {
                backend: "canvas",
                message: "gone".to_owned(),
            },
            "canvas measurement failed: gone",
            "measurement_failed",
        ),
        (
            Error::InvalidMetric {
                metric: "hyphen width",
                value: MetricValue::of(LayoutUnit { raw: -1 }),
            },
            "measurement hyphen width must be finite and non-negative, got -1/4800",
            "invalid_metric",
        ),
        (
            Error::InvalidInput {
                parameter: "max_width",
                reason: "must be non-negative and not NaN".to_owned(),
            },
            "invalid max_width: must be non-negative and not NaN",
            "invalid_input",
        ),
        (
            Error::InputTooLarge {
                bytes: 12,
                max_bytes: 10,
            },
            "input is 12 bytes; configured maximum is 10 bytes",
            "input_too_large",
        ),
        (
            Error::InputComplexity {
                resource: "text graphemes",
                units: 3,
                max_units: 2,
            },
            "text graphemes contains 3 units; configured maximum is 2 units",
            "input_complexity",
        ),
        (
            Error::InvalidCursor {
                context: "inline flow",
                segment_index: 4,
                grapheme_index: 1,
                segment_count: 2,
            },
            "invalid inline flow cursor (4, 1) for 2 segments",
            "invalid_cursor",
        ),
        (
            Error::InvalidBidiStart {
                start: 9,
                char_count: 3,
            },
            "bidi segment start 9 is outside 3 characters",
            "invalid_bidi_start",
        ),
        (
            Error::UnsupportedGlyph {
                character: '\t',
                codepoint: 9,
            },
            "character '\\t' (U+0009) is not present in the configured glyph atlas",
            "unsupported_glyph",
        ),
        (
            Error::InvalidHandle { handle: 7 },
            "unknown or freed handle 7",
            "invalid_handle",
        ),
        (
            Error::PoolExhausted { capacity: 16_384 },
            "runtime pool is full at 16384 live entries",
            "pool_exhausted",
        ),
        (
            Error::IdentifierExhausted { resource: "handle" },
            "handle identifier space is exhausted",
            "identifier_exhausted",
        ),
        (
            Error::ResourceLimit {
                resource: "pool",
                requested_bytes: 11,
                max_bytes: 10,
            },
            "pool would retain 11 bytes; configured maximum is 10 bytes",
            "resource_limit",
        ),
        (
            Error::StateUnavailable { state: "pool" },
            "pool state is unavailable",
            "state_unavailable",
        ),
        (
            Error::ArithmeticOverflow {
                operation: "counting",
            },
            "arithmetic overflow while counting",
            "arithmetic_overflow",
        ),
    ];
    for (error, message, code) in cases {
        assert_eq!(error.message(), message);
        assert_eq!(error_code(&error), code);
    }
    assert_eq!(
        Error::UnsupportedGlyph {
            character: '\u{1F680}',
            codepoint: 0x1F680,
        }
        .message(),
        "character '\u{1F680}' (U+1F680) is not present in the configured glyph atlas"
    );
}
