//! What holds of prepared text and of what is shown of it: blanks are kept or
//! collapse by the mode, segments are as wide as they measure, and a line shows
//! its segments as they are.
use crate::analysis::{
    analyzed, cjk_pieces, control_kind, has_cjk, initial_pieces, kinds_of, next_control, run_piece,
    word_pieces, Piece,
};
use crate::backend::fixed::{FixedWidthBackend, WidthFactors};
use crate::backend::{FontView, MeasureBackend, SegmentMetrics};
use crate::layout::{grapheme_range, layout_outcome, line_text, shown_text};
use crate::layout_unit::LayoutUnit;
use crate::line_break::cursor_at;
use crate::error::Error;
use crate::prepare::{is_measured, measuring_outcome, piece_outcome, prepare_outcome};
use crate::scalar::{is_measure, sum_of, Scalar};
use crate::segmentation::grapheme_clusters;
use crate::text::joined;
use crate::types::{
    EngineProfile, LayoutCursor, LayoutResult, PrepareOptions, PreparedData, SegmentKind,
    WhiteSpaceMode,
};
use crate::unicode::{cjk, emoji, white_space};
use vstd::prelude::*;
use vstd::utf8::encode_utf8;

verus! {

// ---- Classifying --------------------------------------------------------------------------------

/// Whether a text is made of spaces alone.
pub open spec fn only_spaces(text: Seq<char>) -> bool {
    text.len() > 0 && forall|i: int| 0 <= i < text.len() ==> #[trigger] text[i] == ' '
}

/// Preserving whitespace keeps what it is: a newline is a hard break, a tab a
/// tab, and a run of spaces a preserved blank.
pub proof fn preserved_blanks_stay_what_they_are(word: Seq<char>)
    ensures
        ({
            let pieces = initial_pieces(word, WhiteSpaceMode::PreWrap);
            &&& word == seq!['\n'] ==> pieces.len() == 1 && pieces[0].kind == SegmentKind::HardBreak
                && pieces[0].text == word
            &&& word == seq!['\t'] ==> pieces.len() == 1 && pieces[0].kind == SegmentKind::Tab
                && pieces[0].text == word
            &&& only_spaces(word) ==> pieces.len() == 1 && pieces[0].kind
                == SegmentKind::PreservedSpace && pieces[0].text == word
        }),
{
    if only_spaces(word) {
        assert(word[0] == ' ');
    }
    if word == seq!['\n'] || word == seq!['\t'] {
        assert(word[0] != ' ');
    }
}

/// Where whitespace collapses a word comes to text and collapsible blanks only:
/// a run of spaces is one such blank, and nothing is a tab, a preserved blank
/// or a hard break.
pub proof fn collapsing_leaves_text_and_spaces(word: Seq<char>, index: int)
    ensures
        ({
            let pieces = initial_pieces(word, WhiteSpaceMode::Normal);
            &&& only_spaces(word) ==> pieces.len() == 1 && pieces[0].kind == SegmentKind::Space
                && pieces[0].text == word
            &&& 0 <= index < pieces.len() ==> pieces[index].kind == SegmentKind::Text
                || pieces[index].kind == SegmentKind::Space
        }),
{
    if only_spaces(word) {
        assert(word[0] == ' ');
    }
    if has_cjk(word) {
        lemma_cjk_pieces(grapheme_clusters(word), 0, Seq::empty());
        if 0 <= index < cjk_pieces(grapheme_clusters(word), 0, Seq::empty()).len() {
            assert(cjk_pieces(grapheme_clusters(word), 0, Seq::empty())[index].kind
                == SegmentKind::Text);
        }
    }
}

/// A word without whitespace and CJK characters is one text segment.
pub proof fn a_plain_word_is_one_segment(word: Seq<char>, mode: WhiteSpaceMode)
    requires
        word.len() > 0,
        forall|i: int|
            0 <= i < word.len() ==> !white_space(#[trigger] word[i]) && !cjk(word[i]),
    ensures
        initial_pieces(word, mode).len() == 1,
        initial_pieces(word, mode)[0].text == word,
        initial_pieces(word, mode)[0].kind == SegmentKind::Text,
        !initial_pieces(word, mode)[0].contains_cjk,
{
    assert(!white_space(word[0]));
    assert(white_space(' ') && white_space('\n') && white_space('\t'));
}

/// The number of clusters from `from` on that start with a CJK character.
pub open spec fn cjk_clusters_from(clusters: Seq<Seq<char>>, from: int) -> nat
    decreases clusters.len() - from,
{
    if from >= clusters.len() {
        0
    } else {
        cjk_clusters_from(clusters, from + 1) + if clusters[from].len() > 0 && cjk(
            clusters[from][0],
        ) {
            1nat
        } else {
            0
        }
    }
}

/// The number of pieces that are CJK.
pub open spec fn cjk_count(pieces: Seq<Piece>) -> nat
    decreases pieces.len(),
{
    if pieces.len() == 0 {
        0
    } else {
        cjk_count(pieces.drop_last()) + if pieces.last().contains_cjk {
            1nat
        } else {
            0
        }
    }
}

proof fn lemma_cjk_count_concat(head: Seq<Piece>, tail: Seq<Piece>)
    ensures
        cjk_count(head + tail) == cjk_count(head) + cjk_count(tail),
    decreases tail.len(),
{
    if tail.len() == 0 {
        assert(head + tail =~= head);
    } else {
        lemma_cjk_count_concat(head, tail.drop_last());
        assert((head + tail).drop_last() =~= head + tail.drop_last());
    }
}

/// Whether a piece is a cluster that starts with a CJK character, or holds none
/// and says so.
pub open spec fn is_cluster_or_run(clusters: Seq<Seq<char>>, piece: Piece) -> bool {
    &&& piece.kind == SegmentKind::Text
    &&& piece.text.len() > 0
    &&& piece.contains_cjk ==> exists|k: int|
        0 <= k < clusters.len() && #[trigger] clusters[k] == piece.text && cjk(piece.text[0])
}

/// Whether no two neighbors are both runs outside CJK.
pub open spec fn runs_are_maximal(pieces: Seq<Piece>) -> bool {
    forall|i: int, j: int|
        0 <= i && j == i + 1 && j < pieces.len() ==> (#[trigger] pieces[i]).contains_cjk || (
        #[trigger] pieces[j]).contains_cjk
}

#[verifier::rlimit(40)]
proof fn lemma_cjk_pieces(clusters: Seq<Seq<char>>, from: int, run: Seq<char>)
    requires
        0 <= from <= clusters.len(),
    ensures
        forall|i: int|
            0 <= i < cjk_pieces(clusters, from, run).len() ==> is_cluster_or_run(
                clusters,
                #[trigger] cjk_pieces(clusters, from, run)[i],
            ),
        cjk_count(cjk_pieces(clusters, from, run)) == cjk_clusters_from(clusters, from),
        runs_are_maximal(cjk_pieces(clusters, from, run)),
    decreases clusters.len() - from,
{
    let pieces = cjk_pieces(clusters, from, run);
    lemma_run_count(run);
    if from < clusters.len() {
        if clusters[from].len() == 0 {
            lemma_cjk_pieces(clusters, from + 1, run);
        } else if cjk(clusters[from][0]) {
            let one = Piece { text: clusters[from], kind: SegmentKind::Text, contains_cjk: true };
            let rest = cjk_pieces(clusters, from + 1, Seq::empty());
            lemma_cjk_pieces(clusters, from + 1, Seq::empty());
            lemma_cjk_count_concat(run_piece(run) + seq![one], rest);
            lemma_cjk_count_concat(run_piece(run), seq![one]);
            assert(seq![one].drop_last() =~= Seq::empty());
            assert(cjk_count(seq![one]) == 1) by {
                reveal_with_fuel(cjk_count, 2);
            }
            let head = run_piece(run) + seq![one];
            assert(pieces =~= head + rest);
            assert forall|i: int| 0 <= i < pieces.len() implies is_cluster_or_run(
                clusters,
                #[trigger] pieces[i],
            ) by {
                if i >= head.len() {
                    assert(pieces[i] == rest[i - head.len()]);
                } else if i == head.len() - 1 {
                    assert(pieces[i] == one);
                    assert(clusters[from] == one.text);
                }
            }
            assert forall|i: int, j: int| 0 <= i && j == i + 1 && j < pieces.len() implies (
            #[trigger] pieces[i]).contains_cjk || (#[trigger] pieces[j]).contains_cjk by {
                if i >= head.len() {
                    assert(pieces[i] == rest[i - head.len()] && pieces[j] == rest[j
                        - head.len()]);
                } else if i == head.len() - 1 {
                    assert(pieces[i] == one);
                } else {
                    assert(pieces[j] == one);
                }
            }
        } else {
            lemma_cjk_pieces(clusters, from + 1, run + clusters[from]);
        }
    }
}

proof fn lemma_run_count(run: Seq<char>)
    ensures
        cjk_count(run_piece(run)) == 0,
{
    reveal_with_fuel(cjk_count, 2);
    if run.len() > 0 {
        assert(run_piece(run).drop_last() =~= Seq::empty());
    }
}

/// A word with CJK characters can be broken at each of them: every grapheme
/// cluster that starts with one is a segment of its own, and what stands
/// between such clusters stays together.
pub proof fn cjk_words_break_at_every_cluster(word: Seq<char>, mode: WhiteSpaceMode)
    requires
        has_cjk(word),
        exists|i: int| 0 <= i < word.len() && !white_space(#[trigger] word[i]),
    ensures
        ({
            let clusters = grapheme_clusters(word);
            let pieces = initial_pieces(word, mode);
            &&& forall|i: int|
                0 <= i < pieces.len() ==> is_cluster_or_run(clusters, #[trigger] pieces[i])
            &&& cjk_count(pieces) == cjk_clusters_from(clusters, 0)
            &&& runs_are_maximal(pieces)
        }),
{
    let i = choose|i: int| 0 <= i < word.len() && !white_space(#[trigger] word[i]);
    assert(white_space(' ') && white_space('\n') && white_space('\t'));
    assert(word[i] != ' ');
    assert(word == seq!['\n'] ==> word[i] == '\n');
    assert(word == seq!['\t'] ==> word[i] == '\t');
    lemma_cjk_pieces(grapheme_clusters(word), 0, Seq::empty());
}

// ---- Measuring ----------------------------------------------------------------------------------

/// Whether segment `index` has nothing to show for itself: no width, no room at
/// the end of a line, and no place inside it to break at.
pub open spec fn has_no_width<W: Scalar>(data: &PreparedData<W>, index: int) -> bool {
    &&& data.widths@[index] == W::zero_value()
    &&& data.line_end_fit_advances@[index] == W::zero_value()
    &&& data.line_end_paint_advances@[index] == W::zero_value()
    &&& data.breakable(index) is None
}

/// Whether segment `index` is as wide as metrics say, with so much of it
/// counted and so much shown at the end of a line.
pub open spec fn is_as_wide<W: Scalar>(
    data: &PreparedData<W>,
    index: int,
    metrics: SegmentMetrics<W>,
    counted: bool,
    shown: bool,
) -> bool {
    &&& data.widths@[index] == metrics.width
    &&& data.line_end_fit_advances@[index] == if counted {
        metrics.width
    } else {
        W::zero_value()
    }
    &&& data.line_end_paint_advances@[index] == if shown {
        metrics.width
    } else {
        W::zero_value()
    }
}

/// Whether segment `index` of prepared text is measured as it should be. Text
/// and glue are as wide as the backend says, and text can be broken between the
/// graphemes that it gave widths for. Collapsible spaces neither count nor show
/// at the end of a line, preserved ones show but do not count. A soft hyphen
/// takes room only there. Nothing else has a width.
pub open spec fn measured_as_it_should_be<W: Scalar, B: MeasureBackend<W>>(
    backend: &B,
    font: FontView<W>,
    piece: Piece,
    data: &PreparedData<W>,
    index: int,
) -> bool {
    match piece.kind {
        SegmentKind::Text => exists|metrics: SegmentMetrics<W>|
            {
                &&& #[trigger] backend.may_measure(piece.text, font, Ok(metrics))
                &&& is_as_wide(data, index, metrics, true, true)
                &&& data.breakable(index) == metrics.widths()
                &&& metrics.widths() matches Some(widths) ==> widths.len() == grapheme_clusters(
                    piece.text,
                ).len()
            },
        SegmentKind::Space => data.breakable(index) is None
            && exists|metrics: SegmentMetrics<W>| #[trigger]
            backend.may_measure(piece.text, font, Ok(metrics)) && is_as_wide(
                data,
                index,
                metrics,
                false,
                false,
            ),
        SegmentKind::PreservedSpace => data.breakable(index) is None
            && exists|metrics: SegmentMetrics<W>| #[trigger]
            backend.may_measure(piece.text, font, Ok(metrics)) && is_as_wide(
                data,
                index,
                metrics,
                false,
                true,
            ),
        SegmentKind::Glue => if piece.text == seq!['\u{2060}'] || piece.text == seq!['\u{FEFF}'] {
            has_no_width(data, index)
        } else {
            piece.text.len() == 1 ==> data.breakable(index) is None
                && exists|metrics: SegmentMetrics<W>| #[trigger]
                backend.may_measure(piece.text, font, Ok(metrics)) && is_as_wide(
                    data,
                    index,
                    metrics,
                    true,
                    true,
                )
        },
        SegmentKind::SoftHyphen => {
            &&& data.widths@[index] == W::zero_value()
            &&& data.line_end_fit_advances@[index] == data.discretionary_hyphen_width
            &&& data.line_end_paint_advances@[index] == data.discretionary_hyphen_width
            &&& data.breakable(index) is None
        },
        SegmentKind::Tab | SegmentKind::ZeroWidthBreak | SegmentKind::HardBreak => has_no_width(
            data,
            index,
        ),
    }
}

/// Prepared text is measured as it should be, segment by segment; tab stops
/// stand eight spaces apart, and a hyphen is as wide as the backend says.
#[verifier::rlimit(40)]
pub proof fn prepared_text_is_measured<W: Scalar, B: MeasureBackend<W>>(
    text: Seq<char>,
    font: FontView<W>,
    backend: &B,
    options: PrepareOptions<W>,
    data: PreparedData<W>,
    index: int,
)
    requires
        prepare_outcome(text, font, backend, options, Ok(data)),
        0 <= index < analyzed(text, options.white_space).len(),
    ensures
        data.kinds@ == kinds_of(analyzed(text, options.white_space)),
        measured_as_it_should_be(
            backend,
            font,
            analyzed(text, options.white_space)[index],
            &data,
            index,
        ),
        data.kinds@.contains(SegmentKind::Tab) ==> exists|space: W| #[trigger]
            backend.may_measure_space(font, Ok(space)) && data.tab_stop_advance == space.times(
                W::ratio_value(8, 1),
            ),
        data.kinds@.contains(SegmentKind::SoftHyphen) ==> backend.may_measure_hyphen(
            font,
            Ok(data.discretionary_hyphen_width),
        ),
{
    let pieces = analyzed(text, options.white_space);
    let piece = pieces[index];
    assert(piece_outcome(
        backend,
        font,
        piece,
        data.discretionary_hyphen_width,
        Ok(crate::prepare::entry_at(&data, index)),
    ));
    if piece.kind == SegmentKind::Glue && piece.text.len() == 1 {
        assert(is_measured(piece) == !(piece.text[0] == '\u{2060}' || piece.text[0] == '\u{FEFF}'));
        if piece.text[0] == '\u{2060}' {
            assert(piece.text =~= seq!['\u{2060}']);
        }
        if piece.text[0] == '\u{FEFF}' {
            assert(piece.text =~= seq!['\u{FEFF}']);
        }
    }
    if data.kinds@.contains(SegmentKind::Tab) {
        let reply = choose|reply: Result<W, crate::error::Error>| #[trigger]
            backend.may_measure_space(font, reply) && crate::prepare::tab_stop_outcome(
                reply,
                Ok(data.tab_stop_advance),
            );
        assert(reply is Ok);
        assert(backend.may_measure_space(font, Ok(reply->Ok_0)));
    }
    if data.kinds@.contains(SegmentKind::SoftHyphen) {
        let reply = choose|reply: Result<W, crate::error::Error>| #[trigger]
            backend.may_measure_hyphen(font, reply) && crate::prepare::hyphen_width_outcome(
                reply,
                Ok(data.discretionary_hyphen_width),
            );
        assert(reply == Ok::<W, crate::error::Error>(data.discretionary_hyphen_width));
    }
}

/// The width of a grapheme that starts with a character: none for glue without
/// width, that of a CJK character for CJK and emoji, that of a space for a space
/// and a no-break space, that of a narrow space for a narrow no-break space, and
/// that of a character for any other.
pub open spec fn width_by_class<W: Scalar>(factors: WidthFactors<W>, c: char, size: W) -> W {
    match c {
        '\u{2060}' | '\u{FEFF}' => W::zero_value(),
        ' ' | '\u{00A0}' => size.times(factors.space),
        '\u{202F}' => size.times(factors.narrow_space),
        _ => if cjk(c) || emoji(c) {
            size.times(factors.cjk)
        } else {
            size.times(factors.character)
        },
    }
}

/// A text of a fixed-width backend is as wide as its graphemes, added up from the
/// left, each as wide as its class says; and it can be broken between them where
/// there are several.
pub proof fn fixed_text_is_as_wide_as_its_graphemes<W: Scalar>(
    backend: &FixedWidthBackend<W>,
    text: Seq<char>,
    font: FontView<W>,
    metrics: SegmentMetrics<W>,
)
    requires
        backend.may_measure(text, font, Ok(metrics)),
    ensures
        ({
            let clusters = grapheme_clusters(text);
            let widths = Seq::new(
                clusters.len(),
                |k: int| width_by_class(backend@, clusters[k][0], font.size_px),
            );
            &&& metrics.width == sum_of(widths)
            &&& metrics.widths() == if clusters.len() > 1 {
                Some(widths)
            } else {
                None
            }
        }),
{
    let clusters = grapheme_clusters(text);
    let widths = Seq::new(
        clusters.len(),
        |k: int| width_by_class(backend@, clusters[k][0], font.size_px),
    );
    assert(backend@.cluster_widths(clusters, font.size_px) =~= widths);
}

// ---- Showing ------------------------------------------------------------------------------------

/// A segment shows as it is, unless it is a soft hyphen or a hard break, of
/// which nothing shows.
pub proof fn a_segment_shows_as_it_is(
    segments: Seq<Seq<char>>,
    kinds: Seq<SegmentKind>,
    index: int,
)
    requires
        segments.len() == kinds.len() <= usize::MAX,
        0 <= index < segments.len(),
    ensures
        line_text(segments, kinds, cursor_at(index, 0), cursor_at(index + 1, 0), false) == match
            kinds[index] {
            SegmentKind::SoftHyphen | SegmentKind::HardBreak => Seq::empty(),
            _ => segments[index],
        },
{
    reveal_with_fuel(shown_text, 2);
    assert(line_text(segments, kinds, cursor_at(index, 0), cursor_at(index + 1, 0), false)
        =~= match kinds[index] {
        SegmentKind::SoftHyphen | SegmentKind::HardBreak => Seq::empty(),
        _ => segments[index],
    });
}

/// A part of a segment shows the graphemes that it holds.
pub proof fn a_part_of_a_segment_shows_its_graphemes(
    segments: Seq<Seq<char>>,
    kinds: Seq<SegmentKind>,
    index: int,
    from: int,
    to: int,
)
    requires
        segments.len() == kinds.len() <= usize::MAX,
        0 <= index < segments.len(),
        kinds[index] == SegmentKind::Text,
        0 <= from < to <= grapheme_clusters(segments[index]).len() <= usize::MAX,
    ensures
        line_text(segments, kinds, cursor_at(index, from), cursor_at(index, to), false) == joined(
            grapheme_clusters(segments[index]).subrange(from, to),
        ),
{
    assert(line_text(segments, kinds, cursor_at(index, from), cursor_at(index, to), false)
        =~= grapheme_range(segments[index], from, to));
}

/// A line that ends in a hyphen shows it behind everything else.
pub proof fn a_hyphen_shows_at_the_end(
    segments: Seq<Seq<char>>,
    kinds: Seq<SegmentKind>,
    start: LayoutCursor,
    end: LayoutCursor,
)
    ensures
        line_text(segments, kinds, start, end, true) == line_text(
            segments,
            kinds,
            start,
            end,
            false,
        ).push('-'),
{
    assert(line_text(segments, kinds, start, end, true) =~= line_text(
        segments,
        kinds,
        start,
        end,
        false,
    ).push('-'));
}

/// The height of a layout is that of its lines, one below the other.
pub proof fn layouts_are_as_high_as_their_lines(
    data: &PreparedData<LayoutUnit>,
    max_width: LayoutUnit,
    line_height: LayoutUnit,
    profile: EngineProfile<LayoutUnit>,
    result: LayoutResult<LayoutUnit>,
)
    requires
        layout_outcome(data, max_width, line_height, profile, Ok(result)),
        result.line_count * 4800 < i64::MAX,
    ensures
        result.height.raw == result.line_count * line_height.raw,
{
    let lines = result.line_count as int;
    let product = lines * line_height.raw;
    assert((lines * 4800) * line_height.raw == product * 4800) by (nonlinear_arith)
        requires
            product == lines * line_height.raw,
    ;
    assert((product * 4800) / 4800 == product);
    assert((lines * 4800) / 1 == lines * 4800);
}

/// A text is refused for its size exactly where it is larger than it may be: in
/// bytes, in graphemes, or in segments, in this order. A text of exactly the
/// size that is allowed is measured.
pub proof fn only_texts_that_are_too_large_are_refused<W: Scalar, B: MeasureBackend<W>>(
    text: Seq<char>,
    font: FontView<W>,
    backend: &B,
    options: PrepareOptions<W>,
    outcome: Result<PreparedData<W>, Error>,
)
    requires
        prepare_outcome(text, font, backend, options, outcome),
    ensures
        ({
            let bytes = encode_utf8(text).len() as usize;
            let clusters = grapheme_clusters(text).len();
            let segments = analyzed(text, options.white_space).len();
            if bytes > options.max_input_bytes {
                outcome == Err::<PreparedData<W>, Error>(
                    Error::InputTooLarge { bytes, max_bytes: options.max_input_bytes },
                )
            } else if clusters > options.max_graphemes {
                outcome matches Err(Error::InputComplexity { units, max_units, .. }) && units
                    == clusters && max_units == options.max_graphemes
            } else if is_measure(options.chosen_profile().line_fit_epsilon) && segments
                <= options.max_segments {
                measuring_outcome(
                    backend,
                    font,
                    analyzed(text, options.white_space),
                    options.chosen_profile(),
                    outcome,
                )
            } else {
                outcome is Err
            }
        }),
{
}

// ---- Controls -----------------------------------------------------------------------------------

proof fn lemma_next_control_at(word: Seq<char>, from: int, at: int)
    requires
        0 <= from <= at < word.len(),
        forall|i: int| from <= i < at ==> control_kind(#[trigger] word[i]) is None,
        control_kind(word[at]) is Some,
    ensures
        next_control(word, from) == at,
    decreases at - from,
{
    if from < at {
        lemma_next_control_at(word, from + 1, at);
    }
}

proof fn lemma_control_shift(word: Seq<char>, part: Seq<char>, offset: int, from: int)
    requires
        0 <= from <= part.len(),
        0 <= offset,
        offset + part.len() == word.len(),
        word.skip(offset) == part,
    ensures
        next_control(word, offset + from) == offset + next_control(part, from),
        next_control(part, from) >= from,
        next_control(part, from) <= part.len(),
    decreases part.len() - from,
{
    if from < part.len() {
        assert(word.skip(offset)[from] == word[offset + from]);
        if control_kind(part[from]) is None {
            lemma_control_shift(word, part, offset, from + 1);
        }
    }
}

proof fn lemma_word_shift(
    word: Seq<char>,
    part: Seq<char>,
    offset: int,
    from: int,
    mode: WhiteSpaceMode,
)
    requires
        0 <= from <= part.len(),
        0 <= offset,
        offset + part.len() == word.len(),
        word.skip(offset) == part,
    ensures
        word_pieces(word, offset + from, mode) == word_pieces(part, from, mode),
    decreases part.len() - from,
{
    lemma_control_shift(word, part, offset, from);
    let control = next_control(part, from);
    assert(word.subrange(offset + from, offset + control) =~= part.subrange(from, control)) by {
        assert forall|k: int| from <= k < control implies word[offset + k]
            == #[trigger] part[k] by {
            assert(word.skip(offset)[k] == word[offset + k]);
        }
    }
    if control < part.len() {
        assert(word.skip(offset)[control] == word[offset + control]);
        lemma_word_shift(word, part, offset, control + 1, mode);
    }
}

/// A word is cut at its controls: what stands before one is classified by
/// itself, the control is a segment of the kind that it stands for, and what
/// stands behind it is a word of its own.
pub proof fn words_are_cut_at_their_controls(
    before: Seq<char>,
    control: char,
    after: Seq<char>,
    mode: WhiteSpaceMode,
)
    requires
        forall|i: int|
            0 <= i < before.len() ==> kind_of_control(#[trigger] before[i]) is None,
        kind_of_control(control) is Some,
    ensures
        word_pieces(before + seq![control] + after, 0, mode) == initial_pieces(before, mode) + seq![
            Piece {
                text: seq![control],
                kind: kind_of_control(control)->0,
                contains_cjk: false,
            },
        ] + word_pieces(after, 0, mode),
{
    let word = before + seq![control] + after;
    let at = before.len() as int;
    assert(word[at] == control);
    assert forall|i: int| 0 <= i < at implies control_kind(#[trigger] word[i]) is None by {
        assert(word[i] == before[i]);
        assert(kind_of_control(before[i]) is None);
    }
    lemma_next_control_at(word, 0, at);
    assert(word.subrange(0, at) =~= before);
    assert(word.skip(at + 1) =~= after);
    lemma_word_shift(word, after, at + 1, 0, mode);
}

/// The kind that a control stands for.
pub open spec fn kind_of_control(c: char) -> Option<SegmentKind> {
    match c {
        '\u{00AD}' => Some(SegmentKind::SoftHyphen),
        '\u{200B}' => Some(SegmentKind::ZeroWidthBreak),
        '\u{00A0}' | '\u{202F}' | '\u{2060}' | '\u{FEFF}' => Some(SegmentKind::Glue),
        _ => None,
    }
}

} // verus!
