//! Text analysis and segmentation.
//!
//! Takes raw text and produces a sequence of typed segments ready for
//! measurement: whitespace normalization, word segmentation, and the chain of
//! merge passes that enforce kinsoku, URL atomicity, numeric grouping, and
//! punctuation stickiness.
use crate::decimal::all_digits;
use crate::segmentation::{alphanumeric, grapheme_clusters, graphemes, split_word_bounds, word_bounds};
use crate::text::{
    chars_of, joined, lemma_joined_concat, lemma_joined_one, string_of, views,
};
use crate::types::{
    chunks_from, is_simple_kind, next_hard_break, PreparedLineChunk, SegmentKind, WhiteSpaceMode,
};
use crate::unicode::{
    ascii_lowered, cjk, forward_sticky, has_prefix, is_all_digits, is_cjk, is_forward_sticky,
    is_kinsoku_end, is_kinsoku_start, is_left_sticky_punctuation, is_numeric_connective,
    is_url_internal, is_white_space, kinsoku_end, kinsoku_start, left_sticky, numeric_connective,
    to_ascii_lower, url_internal, url_start, white_space,
};
use vstd::prelude::*;
use vstd::string::*;

verus! {

/// A raw analysis segment before measurement.
#[derive(Debug, Clone)]
pub struct AnalysisSegment {
    /// The text content of this segment.
    pub text: String,
    /// The segment kind.
    pub kind: SegmentKind,
    /// Whether this segment contains CJK characters.
    pub contains_cjk: bool,
}

/// A segment as a value.
pub struct Piece {
    pub text: Seq<char>,
    pub kind: SegmentKind,
    pub contains_cjk: bool,
}

impl View for AnalysisSegment {
    type V = Piece;

    open spec fn view(&self) -> Piece {
        Piece { text: self.text@, kind: self.kind, contains_cjk: self.contains_cjk }
    }
}

/// The segments as values.
pub open spec fn pieces_of(segments: Seq<AnalysisSegment>) -> Seq<Piece> {
    segments.map_values(|segment: AnalysisSegment| segment@)
}

/// The texts of pieces.
pub open spec fn texts_of(pieces: Seq<Piece>) -> Seq<Seq<char>> {
    pieces.map_values(|piece: Piece| piece.text)
}

/// The kinds of pieces.
pub open spec fn kinds_of(pieces: Seq<Piece>) -> Seq<SegmentKind> {
    pieces.map_values(|piece: Piece| piece.kind)
}

/// A chunk of segments between hard breaks.
#[derive(Debug, Clone, Copy, PartialEq, Eq, Structural)]
pub struct AnalysisChunk {
    /// Inclusive index of the first segment in the chunk.
    pub start: usize,
    /// Exclusive end index of the chunk's content segments.
    pub end: usize,
    /// Exclusive index after content and any consumed hard break.
    pub consumed_end: usize,
}

impl AnalysisChunk {
    /// The chunk as the line-breaking engine takes it.
    pub open spec fn prepared(self) -> PreparedLineChunk {
        PreparedLineChunk {
            start_segment_index: self.start,
            end_segment_index: self.end,
            consumed_end_segment_index: self.consumed_end,
        }
    }
}

/// The chunks as the line-breaking engine takes them.
pub open spec fn prepared_chunks(chunks: Seq<AnalysisChunk>) -> Seq<PreparedLineChunk> {
    chunks.map_values(|chunk: AnalysisChunk| chunk.prepared())
}

/// Result of text analysis -- segments + chunk boundaries.
#[derive(Debug, Clone)]
pub struct AnalysisResult {
    /// The analyzed segments.
    pub segments: Vec<AnalysisSegment>,
    /// Chunk boundaries for pre-wrap mode (indices into segments
    /// where hard breaks occur).
    pub chunks: Vec<AnalysisChunk>,
    /// Whether the simple fast path can be used.
    pub simple_fast_path: bool,
}

// ---- Whitespace ---------------------------------------------------------------

/// The whitespace that collapses in CSS `white-space: normal`.
pub open spec fn collapsible(c: char) -> bool {
    c == '\n' || c == '\r' || c == '\t' || c == '\u{000C}' || c == ' '
}

/// A text with its collapsible whitespace collapsed: what is kept follows what
/// was kept before it, with one space between where whitespace stood.
pub open spec fn collapsed(text: Seq<char>) -> Seq<char>
    decreases text.len(),
{
    if text.len() == 0 {
        Seq::empty()
    } else {
        let head = text.drop_last();
        let before = collapsed(head);
        if collapsible(text.last()) {
            before
        } else if before.len() > 0 && collapsible(head.last()) {
            before.push(' ').push(text.last())
        } else {
            before.push(text.last())
        }
    }
}

/// A text with every line ending (`\r\n`, `\r`, form feed) written `\n`.
pub open spec fn with_newlines(text: Seq<char>) -> Seq<char>
    decreases text.len(),
{
    if text.len() == 0 {
        Seq::empty()
    } else {
        let before = with_newlines(text.drop_last());
        if text.last() == '\n' && text.len() > 1 && text[text.len() - 2] == '\r' {
            before
        } else if text.last() == '\r' || text.last() == '\u{000C}' {
            before.push('\n')
        } else {
            before.push(text.last())
        }
    }
}

/// The text that is segmented.
pub open spec fn normalized_text(text: Seq<char>, mode: WhiteSpaceMode) -> Seq<char> {
    match mode {
        WhiteSpaceMode::Normal => collapsed(text),
        WhiteSpaceMode::PreWrap => with_newlines(text),
    }
}

/// Normalize whitespace according to the mode.
pub fn normalize_whitespace(text: &str, mode: WhiteSpaceMode) -> (r: String)
    ensures
        r@ == normalized_text(text@, mode),
{
    let chars = chars_of(text);
    let mut result = String::new();
    let mut empty = true;
    let mut index: usize = 0;
    match mode {
        WhiteSpaceMode::Normal => {
            let mut in_whitespace = false;
            while index < chars.len()
                invariant
                    index <= chars@.len(),
                    result@ == collapsed(chars@.take(index as int)),
                    empty == (result@.len() == 0),
                    in_whitespace == (index > 0 && collapsible(chars@[index - 1])),
                decreases chars@.len() - index,
            {
                let c = chars[index];
                proof {
                    assert(chars@.take(index + 1).drop_last() =~= chars@.take(index as int));
                    assert(index > 0 ==> chars@.take(index as int).last() == chars@[index - 1]);
                    assert(index == 0 ==> collapsed(chars@.take(0)).len() == 0);
                }
                if c == '\n' || c == '\r' || c == '\t' || c == '\u{000C}' || c == ' ' {
                    in_whitespace = true;
                } else {
                    if in_whitespace && !empty {
                        result.push(' ');
                    }
                    result.push(c);
                    in_whitespace = false;
                    empty = false;
                }
                index += 1;
            }
        },
        WhiteSpaceMode::PreWrap => {
            while index < chars.len()
                invariant
                    index <= chars@.len(),
                    result@ == with_newlines(chars@.take(index as int)),
                decreases chars@.len() - index,
            {
                let c = chars[index];
                proof {
                    assert(chars@.take(index + 1).drop_last() =~= chars@.take(index as int));
                }
                if c == '\n' && index > 0 && chars[index - 1] == '\r' {
                    // The carriage return was written as this line's ending.
                } else if c == '\r' || c == '\u{000C}' {
                    result.push('\n');
                } else {
                    result.push(c);
                }
                index += 1;
            }
        },
    }
    proof {
        assert(chars@.take(index as int) =~= text@);
    }
    result
}

// ---- Initial segmentation -------------------------------------------------------

/// The kind of a control whose layout semantics must survive segmentation.
pub open spec fn control_kind(c: char) -> Option<SegmentKind> {
    if c == '\u{00AD}' {
        Some(SegmentKind::SoftHyphen)
    } else if c == '\u{200B}' {
        Some(SegmentKind::ZeroWidthBreak)
    } else if c == '\u{00A0}' || c == '\u{202F}' || c == '\u{2060}' || c == '\u{FEFF}' {
        Some(SegmentKind::Glue)
    } else {
        None
    }
}

fn special_control_kind(character: char) -> (r: Option<SegmentKind>)
    ensures
        r == control_kind(character),
{
    match character {
        '\u{00AD}' => Some(SegmentKind::SoftHyphen),
        '\u{200B}' => Some(SegmentKind::ZeroWidthBreak),
        '\u{00A0}' | '\u{202F}' | '\u{2060}' | '\u{FEFF}' => Some(SegmentKind::Glue),
        _ => None,
    }
}

/// A piece without CJK characters.
pub open spec fn plain(text: Seq<char>, kind: SegmentKind) -> Piece {
    Piece { text, kind, contains_cjk: false }
}

/// Whether every character of a text is of a class.
pub open spec fn all_chars(text: Seq<char>, class: spec_fn(char) -> bool) -> bool {
    forall|i: int| 0 <= i < text.len() ==> class(#[trigger] text[i])
}

/// Whether some character of a text is CJK.
pub open spec fn has_cjk(text: Seq<char>) -> bool {
    exists|i: int| 0 <= i < text.len() && cjk(#[trigger] text[i])
}

/// A run of characters outside CJK as a piece, if it holds any.
pub open spec fn run_piece(run: Seq<char>) -> Seq<Piece> {
    if run.len() == 0 {
        Seq::empty()
    } else {
        seq![plain(run, SegmentKind::Text)]
    }
}

/// The pieces of a run of grapheme clusters from `from` on, where `run` holds
/// what stands before it: every cluster that starts in CJK is a piece of its
/// own, the others stay together.
pub open spec fn cjk_pieces(clusters: Seq<Seq<char>>, from: int, run: Seq<char>) -> Seq<Piece>
    decreases clusters.len() - from,
{
    if from >= clusters.len() {
        run_piece(run)
    } else if clusters[from].len() == 0 {
        cjk_pieces(clusters, from + 1, run)
    } else if cjk(clusters[from][0]) {
        run_piece(run) + seq![
            Piece { text: clusters[from], kind: SegmentKind::Text, contains_cjk: true },
        ] + cjk_pieces(clusters, from + 1, Seq::empty())
    } else {
        cjk_pieces(clusters, from + 1, run + clusters[from])
    }
}

/// The pieces of a run of characters that holds no special control.
pub open spec fn initial_pieces(word: Seq<char>, mode: WhiteSpaceMode) -> Seq<Piece> {
    if word.len() == 0 {
        Seq::empty()
    } else if word == seq!['\n'] && mode == WhiteSpaceMode::PreWrap {
        seq![plain(word, SegmentKind::HardBreak)]
    } else if word == seq!['\t'] {
        seq![
            plain(
                word,
                if mode == WhiteSpaceMode::PreWrap {
                    SegmentKind::Tab
                } else {
                    SegmentKind::Space
                },
            ),
        ]
    } else if all_chars(word, |c: char| c == ' ') {
        seq![
            plain(
                word,
                if mode == WhiteSpaceMode::PreWrap {
                    SegmentKind::PreservedSpace
                } else {
                    SegmentKind::Space
                },
            ),
        ]
    } else if all_chars(word, |c: char| white_space(c)) {
        seq![plain(word, SegmentKind::Space)]
    } else if has_cjk(word) {
        cjk_pieces(grapheme_clusters(word), 0, Seq::empty())
    } else {
        seq![plain(word, SegmentKind::Text)]
    }
}

/// The first special control from `from` on, or the length of the word.
pub open spec fn next_control(word: Seq<char>, from: int) -> int
    decreases word.len() - from,
{
    if from >= word.len() {
        word.len() as int
    } else if control_kind(word[from]) is Some {
        from
    } else {
        next_control(word, from + 1)
    }
}

/// The pieces of a word from `from` on, every special control on its own.
pub open spec fn word_pieces(word: Seq<char>, from: int, mode: WhiteSpaceMode) -> Seq<Piece>
    decreases word.len() - from,
{
    let control = next_control(word, from);
    if from <= control < word.len() {
        initial_pieces(word.subrange(from, control), mode) + seq![
            plain(seq![word[control]], control_kind(word[control])->0),
        ] + word_pieces(word, control + 1, mode)
    } else if 0 <= from <= word.len() {
        initial_pieces(word.subrange(from, word.len() as int), mode)
    } else {
        Seq::empty()
    }
}

/// The pieces of a run of words.
pub open spec fn words_pieces(words: Seq<Seq<char>>, mode: WhiteSpaceMode) -> Seq<Piece>
    decreases words.len(),
{
    if words.len() == 0 {
        Seq::empty()
    } else {
        words_pieces(words.drop_last(), mode) + word_pieces(words.last(), 0, mode)
    }
}

/// Append a segment.
fn push_segment(
    segments: &mut Vec<AnalysisSegment>,
    text: String,
    kind: SegmentKind,
    contains_cjk: bool,
)
    ensures
        pieces_of(final(segments)@) == pieces_of(old(segments)@).push(
            Piece { text: text@, kind, contains_cjk },
        ),
{
    segments.push(AnalysisSegment { text, kind, contains_cjk });
    proof {
        assert(pieces_of(segments@) =~= pieces_of(old(segments)@).push(
            Piece { text: text@, kind, contains_cjk },
        ));
    }
}

/// Split text containing CJK characters, given its grapheme clusters.
///
/// CJK text can break at any character boundary, so each CJK character
/// becomes its own segment. Other runs are kept as single text segments.
pub fn push_cjk_segments(clusters: &Vec<String>, segments: &mut Vec<AnalysisSegment>)
    ensures
        pieces_of(final(segments)@) == pieces_of(old(segments)@) + cjk_pieces(
            views(clusters@),
            0,
            Seq::empty(),
        ),
{
    let ghost before = pieces_of(segments@);
    let ghost views = views(clusters@);
    let mut run = String::new();
    let mut run_is_empty = true;
    let mut index: usize = 0;
    proof {
        assert(run@ =~= Seq::<char>::empty());
    }
    while index < clusters.len()
        invariant
            index <= clusters@.len(),
            views == crate::text::views(clusters@),
            run_is_empty == (run@.len() == 0),
            before + cjk_pieces(views, 0, Seq::empty()) == pieces_of(segments@) + cjk_pieces(
                views,
                index as int,
                run@,
            ),
        decreases clusters@.len() - index,
    {
        let cluster = chars_of(clusters[index].as_str());
        let ghost head = pieces_of(segments@);
        let ghost rest = cjk_pieces(views, index + 1, Seq::empty());
        let ghost old_run = run@;
        proof {
            assert(views[index as int] == cluster@);
        }
        if cluster.len() == 0 {
        } else if is_cjk(cluster[0]) {
            // Flush the run before, then the character on its own.
            if !run_is_empty {
                push_segment(segments, run, SegmentKind::Text, false);
            }
            push_segment(segments, clusters[index].clone(), SegmentKind::Text, true);
            run = String::new();
            run_is_empty = true;
            proof {
                assert(run@ =~= Seq::<char>::empty());
                assert(head + cjk_pieces(views, index as int, old_run) =~= pieces_of(segments@)
                    + rest);
            }
        } else {
            run.append(clusters[index].as_str());
            run_is_empty = false;
        }
        index += 1;
    }
    let ghost head = pieces_of(segments@);
    if !run_is_empty {
        push_segment(segments, run, SegmentKind::Text, false);
    }
    proof {
        assert(pieces_of(segments@) =~= head + run_piece(run@));
    }
}

/// Split a word containing CJK characters into individual graphemes.
fn split_cjk_segment(text: &str, segments: &mut Vec<AnalysisSegment>)
    ensures
        pieces_of(final(segments)@) == pieces_of(old(segments)@) + cjk_pieces(
            grapheme_clusters(text@),
            0,
            Seq::empty(),
        ),
        joined(grapheme_clusters(text@)) == text@,
        forall|i: int|
            0 <= i < grapheme_clusters(text@).len() ==> (#[trigger] grapheme_clusters(
                text@,
            )[i]).len() > 0,
{
    let clusters = graphemes(text);
    proof {
        assert forall|i: int| 0 <= i < grapheme_clusters(text@).len() implies (
        #[trigger] grapheme_clusters(text@)[i]).len() > 0 by {
            assert(views(clusters@)[i] == clusters@[i]@);
        }
    }
    push_cjk_segments(&clusters, segments);
}

/// Classify one run of characters without special controls.
fn push_initial_piece(
    chars: &Vec<char>,
    from: usize,
    to: usize,
    mode: WhiteSpaceMode,
    segments: &mut Vec<AnalysisSegment>,
)
    requires
        from <= to <= chars@.len(),
    ensures
        pieces_of(final(segments)@) == pieces_of(old(segments)@) + initial_pieces(
            chars@.subrange(from as int, to as int),
            mode,
        ),
        no_control(chars@.subrange(from as int, to as int)) ==> sound(
            initial_pieces(chars@.subrange(from as int, to as int), mode),
            chars@.subrange(from as int, to as int),
        ),
{
    let ghost word = chars@.subrange(from as int, to as int);
    let ghost before = pieces_of(segments@);
    if from == to {
        proof {
            assert(before + initial_pieces(word, mode) =~= before);
            assert(word =~= Seq::empty());
            lemma_sound_empty();
        }
        return;
    }
    let mut only_spaces = true;
    let mut only_whitespace = true;
    let mut contains_cjk = false;
    let mut index: usize = from;
    while index < to
        invariant
            from <= index <= to <= chars@.len(),
            word == chars@.subrange(from as int, to as int),
            only_spaces == (forall|k: int| 0 <= k < index - from ==> #[trigger] word[k] == ' '),
            only_whitespace == (forall|k: int|
                0 <= k < index - from ==> white_space(#[trigger] word[k])),
            contains_cjk == (exists|k: int| 0 <= k < index - from && cjk(#[trigger] word[k])),
        decreases to - index,
    {
        let c = chars[index];
        proof {
            assert(c == word[index - from]);
        }
        only_spaces = only_spaces && c == ' ';
        only_whitespace = only_whitespace && is_white_space(c);
        contains_cjk = contains_cjk || is_cjk(c);
        index += 1;
    }
    proof {
        assert(only_spaces == all_chars(word, |c: char| c == ' '));
        assert(only_whitespace == all_chars(word, |c: char| white_space(c)));
        assert(to - from == 1 && chars@[from as int] == '\n' ==> word =~= seq!['\n']);
        assert(to - from == 1 && chars@[from as int] == '\t' ==> word =~= seq!['\t']);
        assert(word[0] == chars@[from as int]);
    }
    let text = string_of(chars, from, to);
    if to - from == 1 && chars[from] == '\n' && mode == WhiteSpaceMode::PreWrap {
        push_segment(segments, text, SegmentKind::HardBreak, false);
    } else if to - from == 1 && chars[from] == '\t' {
        push_segment(
            segments,
            text,
            if mode == WhiteSpaceMode::PreWrap {
                SegmentKind::Tab
            } else {
                SegmentKind::Space
            },
            false,
        );
    } else if only_spaces {
        push_segment(
            segments,
            text,
            if mode == WhiteSpaceMode::PreWrap {
                SegmentKind::PreservedSpace
            } else {
                SegmentKind::Space
            },
            false,
        );
    } else if only_whitespace {
        push_segment(segments, text, SegmentKind::Space, false);
    } else if contains_cjk {
        split_cjk_segment(text.as_str(), segments);
        proof {
            let clusters = grapheme_clusters(word);
            if no_control(word) {
                lemma_no_control_in_parts(clusters);
                lemma_cjk_sound(clusters, 0, Seq::empty());
                assert(clusters.skip(0) =~= clusters);
                assert(Seq::<char>::empty() + joined(clusters) =~= word);
            }
        }
        return;
    } else {
        push_segment(segments, text, SegmentKind::Text, false);
    }
    proof {
        assert(pieces_of(segments@) =~= before + initial_pieces(word, mode));
        if no_control(word) {
            lemma_sound_one(initial_pieces(word, mode)[0]);
            assert(initial_pieces(word, mode) =~= seq![initial_pieces(word, mode)[0]]);
        }
    }
}

// ---- Segmentation loses nothing --------------------------------------------------

/// Whether every character of a text is whitespace.
pub open spec fn blank(text: Seq<char>) -> bool {
    forall|i: int| 0 <= i < text.len() ==> white_space(#[trigger] text[i])
}

/// Whether a piece is what its kind says: a control stands alone, no other
/// piece holds one or is empty, and spaces are whitespace.
pub open spec fn proper(piece: Piece) -> bool {
    &&& piece.text.len() > 0
    &&& match piece.kind {
        SegmentKind::SoftHyphen | SegmentKind::ZeroWidthBreak | SegmentKind::Glue => {
            piece.text.len() == 1 && control_kind(piece.text[0]) == Some(piece.kind)
        },
        SegmentKind::HardBreak => piece.text == seq!['\n'],
        SegmentKind::Tab => piece.text == seq!['\t'],
        SegmentKind::Space | SegmentKind::PreservedSpace => no_control(piece.text) && blank(
            piece.text,
        ),
        SegmentKind::Text => no_control(piece.text),
    }
}

/// Whether a text holds no special control.
pub open spec fn no_control(text: Seq<char>) -> bool {
    forall|i: int| 0 <= i < text.len() ==> control_kind(#[trigger] text[i]) is None
}

/// Whether pieces are proper and hold a text, one after the other.
pub open spec fn sound(pieces: Seq<Piece>, text: Seq<char>) -> bool {
    &&& joined(texts_of(pieces)) == text
    &&& forall|i: int| 0 <= i < pieces.len() ==> proper(#[trigger] pieces[i])
}

proof fn lemma_sound_empty()
    ensures
        sound(Seq::empty(), Seq::empty()),
{
    assert(joined(texts_of(Seq::empty())) =~= Seq::<char>::empty());
}

proof fn lemma_sound_one(piece: Piece)
    requires
        proper(piece),
    ensures
        sound(seq![piece], piece.text),
{
    assert(texts_of(seq![piece]) =~= seq![piece.text]);
    lemma_joined_one(piece.text);
}

proof fn lemma_sound_concat(a: Seq<Piece>, x: Seq<char>, b: Seq<Piece>, y: Seq<char>)
    requires
        sound(a, x),
        sound(b, y),
    ensures
        sound(a + b, x + y),
{
    assert(texts_of(a + b) =~= texts_of(a) + texts_of(b));
    lemma_joined_concat(texts_of(a), texts_of(b));
    assert forall|i: int| 0 <= i < (a + b).len() implies proper(#[trigger] (a + b)[i]) by {
        if i < a.len() {
            assert((a + b)[i] == a[i]);
        } else {
            assert((a + b)[i] == b[i - a.len()]);
        }
    }
}

proof fn lemma_no_control_concat(a: Seq<char>, b: Seq<char>)
    ensures
        no_control(a + b) == (no_control(a) && no_control(b)),
{
    assert forall|i: int| 0 <= i < a.len() implies a[i] == #[trigger] (a + b)[i] by {}
    assert forall|i: int| 0 <= i < b.len() implies b[i] == #[trigger] (a + b)[i + a.len()] by {}
    if no_control(a + b) {
        assert forall|i: int| 0 <= i < a.len() implies control_kind(#[trigger] a[i]) is None by {
            assert((a + b)[i] == a[i]);
        }
        assert forall|i: int| 0 <= i < b.len() implies control_kind(#[trigger] b[i]) is None by {
            assert((a + b)[i + a.len()] == b[i]);
        }
    }
    if no_control(a) && no_control(b) {
        assert forall|i: int| 0 <= i < (a + b).len() implies control_kind(
            #[trigger] (a + b)[i],
        ) is None by {
            if i < a.len() {
                assert((a + b)[i] == a[i]);
            } else {
                assert((a + b)[i] == b[i - a.len()]);
            }
        }
    }
}

/// What is not in the whole is not in a part.
proof fn lemma_no_control_in_parts(parts: Seq<Seq<char>>)
    requires
        no_control(joined(parts)),
    ensures
        forall|i: int| 0 <= i < parts.len() ==> no_control(#[trigger] parts[i]),
    decreases parts.len(),
{
    if parts.len() > 0 {
        lemma_no_control_concat(joined(parts.drop_last()), parts.last());
        lemma_no_control_in_parts(parts.drop_last());
        assert forall|i: int| 0 <= i < parts.len() implies no_control(#[trigger] parts[i]) by {
            if i < parts.len() - 1 {
                assert(parts[i] == parts.drop_last()[i]);
            }
        }
    }
}

proof fn lemma_cjk_sound(clusters: Seq<Seq<char>>, from: int, run: Seq<char>)
    requires
        0 <= from <= clusters.len(),
        no_control(run),
        forall|i: int|
            0 <= i < clusters.len() ==> no_control(#[trigger] clusters[i]) && clusters[i].len() > 0,
    ensures
        sound(cjk_pieces(clusters, from, run), run + joined(clusters.skip(from))),
    decreases clusters.len() - from,
{
    let rest = clusters.skip(from);
    if run.len() > 0 {
        lemma_sound_one(plain(run, SegmentKind::Text));
    } else {
        lemma_sound_empty();
        assert(run =~= Seq::empty());
    }
    assert(sound(run_piece(run), run));
    if from >= clusters.len() {
        assert(rest =~= Seq::<Seq<char>>::empty());
        assert(run + joined(rest) =~= run);
    } else {
        let cluster = clusters[from];
        let tail = clusters.skip(from + 1);
        assert(rest =~= seq![cluster] + tail);
        lemma_joined_concat(seq![cluster], tail);
        lemma_joined_one(cluster);
        if cjk(cluster[0]) {
            let piece = Piece { text: cluster, kind: SegmentKind::Text, contains_cjk: true };
            lemma_cjk_sound(clusters, from + 1, Seq::empty());
            lemma_sound_one(piece);
            lemma_sound_concat(run_piece(run), run, seq![piece], cluster);
            lemma_sound_concat(
                run_piece(run) + seq![piece],
                run + cluster,
                cjk_pieces(clusters, from + 1, Seq::empty()),
                Seq::<char>::empty() + joined(tail),
            );
            assert(run + cluster + (Seq::<char>::empty() + joined(tail)) =~= run + joined(rest));
        } else {
            lemma_no_control_concat(run, cluster);
            lemma_cjk_sound(clusters, from + 1, run + cluster);
            assert(run + cluster + joined(tail) =~= run + joined(rest));
        }
    }
}

proof fn lemma_next_control(word: Seq<char>, from: int)
    requires
        0 <= from <= word.len(),
    ensures
        from <= next_control(word, from) <= word.len(),
        next_control(word, from) < word.len() ==> control_kind(
            word[next_control(word, from)],
        ) is Some,
        no_control(word.subrange(from, next_control(word, from))),
    decreases word.len() - from,
{
    if from < word.len() && control_kind(word[from]) is None {
        lemma_next_control(word, from + 1);
        let end = next_control(word, from);
        assert forall|i: int| 0 <= i < end - from implies control_kind(
            #[trigger] word.subrange(from, end)[i],
        ) is None by {
            if i > 0 {
                assert(word.subrange(from, end)[i] == word.subrange(from + 1, end)[i - 1]);
            }
        }
    }
}

/// Split controls whose layout semantics must survive regardless of where a
/// word boundary falls.
///
/// Each control is emitted as its own segment, wherever in the word it stands.
fn split_special_controls(word: &str, mode: WhiteSpaceMode, segments: &mut Vec<AnalysisSegment>)
    ensures
        pieces_of(final(segments)@) == pieces_of(old(segments)@) + word_pieces(word@, 0, mode),
        sound(word_pieces(word@, 0, mode), word@),
{
    let chars = chars_of(word);
    let ghost before = pieces_of(segments@);
    let mut done: Ghost<Seq<Piece>> = Ghost(Seq::empty());
    let mut piece_start: usize = 0;
    let mut index: usize = 0;
    proof {
        lemma_sound_empty();
        assert(chars@.take(0) =~= Seq::empty());
        assert(before + Seq::<Piece>::empty() =~= before);
        assert(Seq::<Piece>::empty() + word_pieces(word@, 0, mode) =~= word_pieces(
            word@,
            0,
            mode,
        ));
    }
    while index < chars.len()
        invariant
            piece_start <= index <= chars@.len(),
            chars@ == word@,
            next_control(word@, piece_start as int) == next_control(word@, index as int),
            pieces_of(segments@) == before + done@,
            sound(done@, word@.take(piece_start as int)),
            word_pieces(word@, 0, mode) == done@ + word_pieces(word@, piece_start as int, mode),
        decreases chars@.len() - index,
    {
        let c = chars[index];
        if let Some(kind) = special_control_kind(c) {
            let ghost control = plain(seq![c], kind);
            let ghost run = word@.subrange(piece_start as int, index as int);
            let ghost head = initial_pieces(run, mode);
            proof {
                lemma_next_control(word@, piece_start as int);
            }
            push_initial_piece(&chars, piece_start, index, mode, segments);
            let text = string_of(&chars, index, index + 1);
            proof {
                assert(text@ =~= seq![c]);
            }
            push_segment(segments, text, kind, false);
            proof {
                lemma_sound_one(control);
                lemma_sound_concat(done@, word@.take(piece_start as int), head, run);
                assert(word@.take(piece_start as int) + run =~= word@.take(index as int));
                lemma_sound_concat(done@ + head, word@.take(index as int), seq![control], seq![c]);
                assert(word@.take(index as int) + seq![c] =~= word@.take(index + 1));
                let rest = word_pieces(word@, index + 1, mode);
                assert(done@ + (head + seq![control] + rest) =~= done@ + head + seq![control]
                    + rest);
                done@ = done@ + head + seq![control];
                assert(pieces_of(segments@) =~= before + done@);
            }
            piece_start = index + 1;
        }
        index += 1;
    }
    proof {
        lemma_next_control(word@, piece_start as int);
    }
    let ghost run = word@.subrange(piece_start as int, word@.len() as int);
    push_initial_piece(&chars, piece_start, chars.len(), mode, segments);
    proof {
        let last = initial_pieces(run, mode);
        assert(pieces_of(segments@) =~= before + (done@ + last));
        lemma_sound_concat(done@, word@.take(piece_start as int), last, run);
        assert(word@.take(piece_start as int) + run =~= word@);
    }
}

/// Segment the words of a text, given where its word boundaries fall.
pub fn segment_words(words: &Vec<String>, mode: WhiteSpaceMode) -> (r: Vec<AnalysisSegment>)
    ensures
        pieces_of(r@) == words_pieces(views(words@), mode),
        sound(pieces_of(r@), joined(views(words@))),
{
    let mut segments: Vec<AnalysisSegment> = Vec::new();
    let ghost words_view = views(words@);
    let mut index: usize = 0;
    proof {
        lemma_sound_empty();
        assert(words_view.take(0) =~= Seq::empty());
        assert(pieces_of(segments@) =~= Seq::empty());
        assert(joined(words_view.take(0)) =~= Seq::empty());
    }
    while index < words.len()
        invariant
            index <= words@.len(),
            words_view == views(words@),
            pieces_of(segments@) == words_pieces(words_view.take(index as int), mode),
            sound(pieces_of(segments@), joined(words_view.take(index as int))),
        decreases words@.len() - index,
    {
        let ghost before = pieces_of(segments@);
        proof {
            assert(words_view.take(index + 1).drop_last() =~= words_view.take(index as int));
            assert(words_view.take(index + 1).last() == words@[index as int]@);
        }
        split_special_controls(words[index].as_str(), mode, &mut segments);
        proof {
            lemma_sound_concat(
                before,
                joined(words_view.take(index as int)),
                word_pieces(words@[index as int]@, 0, mode),
                words@[index as int]@,
            );
        }
        index += 1;
    }
    proof {
        assert(words_view.take(index as int) =~= words_view);
    }
    segments
}

/// Initial segmentation using Unicode word boundaries.
pub fn initial_segmentation(text: &str, mode: WhiteSpaceMode) -> (r: Vec<AnalysisSegment>)
    ensures
        pieces_of(r@) == words_pieces(word_bounds(text@), mode),
        sound(pieces_of(r@), text@),
{
    let words = split_word_bounds(text);
    segment_words(&words, mode)
}

// ---- Merge passes ---------------------------------------------------------------

/// What makes a text segment join the segment before it.
#[derive(Debug, Clone, Copy, PartialEq, Eq, Structural)]
pub enum MergeRule {
    /// It is trailing punctuation, and the segment before it is not CJK.
    LeftSticky,
    /// The unmerged segment before it is opening punctuation or a currency.
    ForwardSticky,
    /// It starts with a character that must not start a line.
    KinsokuEnd,
    /// The segment before it ends in a character that must not end a line.
    KinsokuStart,
}

/// Whether `piece` joins `last`, of which `previous` is the unmerged piece
/// right before it.
pub open spec fn joins(rule: MergeRule, last: Piece, previous: Piece, piece: Piece) -> bool {
    &&& piece.kind == SegmentKind::Text
    &&& last.kind == SegmentKind::Text
    &&& match rule {
        MergeRule::LeftSticky => all_chars(piece.text, |c: char| left_sticky(c))
            && !last.contains_cjk,
        MergeRule::ForwardSticky => previous.kind == SegmentKind::Text && all_chars(
            previous.text,
            |c: char| forward_sticky(c),
        ),
        MergeRule::KinsokuEnd => piece.text.len() > 0 && kinsoku_end(piece.text[0]),
        MergeRule::KinsokuStart => last.text.len() > 0 && kinsoku_start(last.text.last()),
    }
}

/// Two pieces as one.
pub open spec fn fuse(rule: MergeRule, last: Piece, piece: Piece) -> Piece {
    Piece {
        text: last.text + piece.text,
        kind: last.kind,
        contains_cjk: last.contains_cjk || (rule != MergeRule::LeftSticky && piece.contains_cjk),
    }
}

/// The pieces after a merge pass.
pub open spec fn merged(pieces: Seq<Piece>, rule: MergeRule) -> Seq<Piece>
    decreases pieces.len(),
{
    if pieces.len() == 0 {
        Seq::empty()
    } else {
        let before = merged(pieces.drop_last(), rule);
        let piece = pieces.last();
        if before.len() > 0 && joins(rule, before.last(), pieces[pieces.len() - 2], piece) {
            before.drop_last().push(fuse(rule, before.last(), piece))
        } else {
            before.push(piece)
        }
    }
}

/// A merge pass keeps the text and leaves controls alone.
pub proof fn merging_is_sound(pieces: Seq<Piece>, rule: MergeRule, text: Seq<char>)
    requires
        sound(pieces, text),
    ensures
        sound(merged(pieces, rule), text),
    decreases pieces.len(),
{
    if pieces.len() > 0 {
        let head = pieces.drop_last();
        let piece = pieces.last();
        let before = merged(head, rule);
        assert(texts_of(pieces).drop_last() =~= texts_of(head));
        assert(texts_of(pieces).last() == piece.text);
        let head_text = joined(texts_of(head));
        assert forall|i: int| 0 <= i < head.len() implies proper(#[trigger] head[i]) by {
            assert(head[i] == pieces[i]);
        }
        merging_is_sound(head, rule, head_text);
        if before.len() > 0 && joins(rule, before.last(), pieces[pieces.len() - 2], piece) {
            let last = before.last();
            let fused = fuse(rule, last, piece);
            let front = before.drop_last();
            assert(texts_of(before).drop_last() =~= texts_of(front));
            assert(texts_of(before).last() == last.text);
            assert(proper(last) && proper(piece));
            lemma_no_control_concat(last.text, piece.text);
            assert forall|i: int| 0 <= i < front.len() implies proper(#[trigger] front[i]) by {
                assert(front[i] == before[i]);
            }
            lemma_sound_one(fused);
            lemma_sound_concat(front, joined(texts_of(front)), seq![fused], fused.text);
            assert(front + seq![fused] =~= front.push(fused));
            assert(joined(texts_of(front)) + fused.text =~= text);
        } else {
            lemma_sound_one(piece);
            lemma_sound_concat(before, head_text, seq![piece], piece.text);
            assert(before + seq![piece] =~= before.push(piece));
        }
    } else {
        assert(merged(pieces, rule) =~= pieces);
    }
}

/// A copy of a segment.
fn copy_segment(segment: &AnalysisSegment) -> (r: AnalysisSegment)
    ensures
        r@ == segment@,
{
    AnalysisSegment {
        text: segment.text.clone(),
        kind: segment.kind,
        contains_cjk: segment.contains_cjk,
    }
}

fn all_left_sticky(text: &str) -> (r: bool)
    ensures
        r == all_chars(text@, |c: char| left_sticky(c)),
{
    let chars = chars_of(text);
    let mut index: usize = 0;
    while index < chars.len()
        invariant
            index <= chars@.len(),
            chars@ == text@,
            forall|k: int| 0 <= k < index ==> left_sticky(#[trigger] chars@[k]),
        decreases chars@.len() - index,
    {
        if !is_left_sticky_punctuation(chars[index]) {
            proof {
                assert(!all_chars(text@, |c: char| left_sticky(c)));
            }
            return false;
        }
        index += 1;
    }
    true
}

fn all_forward_sticky(text: &str) -> (r: bool)
    ensures
        r == all_chars(text@, |c: char| forward_sticky(c)),
{
    let chars = chars_of(text);
    let mut index: usize = 0;
    while index < chars.len()
        invariant
            index <= chars@.len(),
            chars@ == text@,
            forall|k: int| 0 <= k < index ==> forward_sticky(#[trigger] chars@[k]),
        decreases chars@.len() - index,
    {
        if !is_forward_sticky(chars[index]) {
            proof {
                assert(!all_chars(text@, |c: char| forward_sticky(c)));
            }
            return false;
        }
        index += 1;
    }
    true
}

/// The last character of a text.
pub open spec fn last_char(text: Seq<char>) -> Option<char> {
    if text.len() == 0 {
        None
    } else {
        Some(text.last())
    }
}

/// Whether a segment joins the one before it, which ends in `last_end`.
fn segment_joins(
    rule: MergeRule,
    last: &AnalysisSegment,
    last_end: Option<char>,
    previous: &AnalysisSegment,
    segment: &AnalysisSegment,
) -> (r: bool)
    requires
        last_end == last_char(last.text@),
    ensures
        r == joins(rule, last@, previous@, segment@),
{
    if segment.kind != SegmentKind::Text || last.kind != SegmentKind::Text {
        return false;
    }
    match rule {
        MergeRule::LeftSticky => !last.contains_cjk && all_left_sticky(segment.text.as_str()),
        MergeRule::ForwardSticky => previous.kind == SegmentKind::Text && all_forward_sticky(
            previous.text.as_str(),
        ),
        MergeRule::KinsokuEnd => {
            let chars = chars_of(segment.text.as_str());
            chars.len() > 0 && is_kinsoku_end(chars[0])
        },
        MergeRule::KinsokuStart => match last_end {
            Some(c) => is_kinsoku_start(c),
            None => false,
        },
    }
}

/// Run one merge pass in a single sweep.
pub fn merge_adjacent(segments: &mut Vec<AnalysisSegment>, rule: MergeRule)
    ensures
        pieces_of(final(segments)@) == merged(pieces_of(old(segments)@), rule),
{
    let ghost pieces = pieces_of(segments@);
    let mut result: Vec<AnalysisSegment> = Vec::new();
    let mut last_end: Option<char> = None;
    let mut index: usize = 0;
    proof {
        assert(pieces.take(0) =~= Seq::empty());
        assert(pieces_of(result@) =~= Seq::empty());
    }
    while index < segments.len()
        invariant
            index <= segments@.len(),
            pieces == pieces_of(segments@),
            pieces_of(result@) == merged(pieces.take(index as int), rule),
            index > 0 ==> result@.len() > 0 && last_end == last_char(result@.last().text@),
        decreases segments@.len() - index,
    {
        let ghost before = pieces_of(result@);
        proof {
            assert(pieces.take(index + 1).drop_last() =~= pieces.take(index as int));
            assert(pieces.take(index + 1).last() == segments@[index as int]@);
            assert(index == 0 ==> before =~= Seq::empty());
        }
        let chars = chars_of(segments[index].text.as_str());
        if index > 0 && segment_joins(
            rule,
            &result[result.len() - 1],
            last_end,
            &segments[index - 1],
            &segments[index],
        ) {
            let ghost held = result@;
            let joined_last = result.pop();
            if let Some(mut last) = joined_last {
                last.text.append(segments[index].text.as_str());
                last.contains_cjk = last.contains_cjk || (rule != MergeRule::LeftSticky
                    && segments[index].contains_cjk);
                result.push(last);
                proof {
                    assert(held.last()@ == before.last());
                    assert(pieces_of(result@) =~= before.drop_last().push(
                        fuse(rule, before.last(), segments@[index as int]@),
                    ));
                }
            }
            if chars.len() > 0 {
                last_end = Some(chars[chars.len() - 1]);
            }
        } else {
            result.push(copy_segment(&segments[index]));
            last_end = if chars.len() > 0 {
                Some(chars[chars.len() - 1])
            } else {
                None
            };
            proof {
                assert(pieces_of(result@) =~= before.push(segments@[index as int]@));
            }
        }
        index += 1;
    }
    proof {
        assert(pieces.take(index as int) =~= pieces);
    }
    *segments = result;
}

/// Merge pass: left-sticky punctuation.
///
/// Merges trailing punctuation (`.`, `,`, `)`, etc.) into the preceding
/// text segment, so that `"better."` is measured as one unit.
pub fn merge_left_sticky_punctuation(segments: &mut Vec<AnalysisSegment>)
    ensures
        pieces_of(final(segments)@) == merged(pieces_of(old(segments)@), MergeRule::LeftSticky),
{
    merge_adjacent(segments, MergeRule::LeftSticky);
}

/// Merge pass: forward-sticky punctuation.
///
/// Carries opening brackets, quotes, and currency symbols into the
/// following text segment so they don't get orphaned at line end.
pub fn merge_forward_sticky(segments: &mut Vec<AnalysisSegment>)
    ensures
        pieces_of(final(segments)@) == merged(pieces_of(old(segments)@), MergeRule::ForwardSticky),
{
    merge_adjacent(segments, MergeRule::ForwardSticky);
}

/// The pieces after both kinsoku passes.
pub open spec fn kinsoku_merged(pieces: Seq<Piece>) -> Seq<Piece> {
    merged(merged(pieces, MergeRule::KinsokuEnd), MergeRule::KinsokuStart)
}

/// Merge pass: kinsoku (Japanese line-breaking rules).
///
/// Characters that can't start a line are kept with the preceding segment,
/// then characters that can't end a line with the following one.
pub fn merge_kinsoku(segments: &mut Vec<AnalysisSegment>)
    ensures
        pieces_of(final(segments)@) == kinsoku_merged(pieces_of(old(segments)@)),
{
    merge_adjacent(segments, MergeRule::KinsokuEnd);
    merge_adjacent(segments, MergeRule::KinsokuStart);
}

// ---- Runs that stay whole --------------------------------------------------------

/// The pieces `from..to` as one.
pub open spec fn fused_run(pieces: Seq<Piece>, from: int, to: int) -> Piece {
    let run = pieces.subrange(from, to);
    Piece {
        text: joined(texts_of(run)),
        kind: pieces[from].kind,
        contains_cjk: exists|k: int| from <= k < to && (#[trigger] pieces[k]).contains_cjk,
    }
}

/// The number of pieces from `from` on, all of them text, that it takes to
/// recognize the beginning of a URL; at least `count`.
pub open spec fn url_seed(pieces: Seq<Piece>, from: int, count: nat) -> Option<nat>
    decreases pieces.len() - from - count + 1,
{
    if from + count > pieces.len() || from < 0 || count == 0 {
        None
    } else if pieces[from + count - 1].kind != SegmentKind::Text {
        None
    } else if url_start(joined(texts_of(pieces.subrange(from, from + count)))) {
        Some(count)
    } else {
        url_seed(pieces, from, count + 1)
    }
}

/// Whether a piece continues a URL.
pub open spec fn url_extension(piece: Piece) -> bool {
    piece.kind == SegmentKind::Text && piece.text.len() > 0 && all_chars(
        piece.text,
        |c: char| url_internal(c) || alphanumeric(c),
    )
}

/// The end of the pieces from `from` on that continue a URL.
pub open spec fn url_end(pieces: Seq<Piece>, from: int) -> int
    decreases pieces.len() - from,
{
    if 0 <= from < pieces.len() && url_extension(pieces[from]) {
        url_end(pieces, from + 1)
    } else {
        from
    }
}

/// The pieces from `from` on with every URL in one.
pub open spec fn url_merged(pieces: Seq<Piece>, from: int) -> Seq<Piece>
    decreases pieces.len() - from,
    via url_merged_decreases
{
    if from < 0 || from >= pieces.len() {
        Seq::empty()
    } else {
        match url_seed(pieces, from, 1) {
            Some(count) => {
                let end = url_end(pieces, from + count);
                seq![fused_run(pieces, from, end)] + url_merged(pieces, end)
            },
            None => seq![pieces[from]] + url_merged(pieces, from + 1),
        }
    }
}

#[via_fn]
proof fn url_merged_decreases(pieces: Seq<Piece>, from: int) {
    if 0 <= from < pieces.len() {
        lemma_url_seed(pieces, from, 1);
        if let Some(count) = url_seed(pieces, from, 1) {
            lemma_url_end(pieces, from + count);
        }
    }
}

pub(crate) proof fn lemma_url_seed(pieces: Seq<Piece>, from: int, count: nat)
    requires
        0 <= from,
        0 < count,
        forall|k: int|
            from <= k < from + count - 1 && k < pieces.len() ==> (#[trigger] pieces[k]).kind
                == SegmentKind::Text,
    ensures
        url_seed(pieces, from, count) matches Some(found) ==> {
            &&& count <= found
            &&& from + found <= pieces.len()
            &&& forall|k: int|
                from <= k < from + found ==> (#[trigger] pieces[k]).kind == SegmentKind::Text
        },
    decreases pieces.len() - from - count + 1,
{
    if from + count <= pieces.len() && pieces[from + count - 1].kind == SegmentKind::Text {
        lemma_url_seed(pieces, from, count + 1);
    }
}

pub(crate) proof fn lemma_url_end(pieces: Seq<Piece>, from: int)
    requires
        0 <= from <= pieces.len(),
    ensures
        from <= url_end(pieces, from) <= pieces.len(),
        forall|k: int|
            from <= k < url_end(pieces, from) ==> (#[trigger] pieces[k]).kind == SegmentKind::Text,
    decreases pieces.len() - from,
{
    if from < pieces.len() && url_extension(pieces[from]) {
        lemma_url_end(pieces, from + 1);
    }
}

/// Whether a piece is a run of digits.
pub open spec fn digit_piece(piece: Piece) -> bool {
    piece.kind == SegmentKind::Text && piece.text.len() > 0 && all_digits(piece.text)
}

/// Whether a piece connects two runs of digits.
pub open spec fn connective_piece(piece: Piece) -> bool {
    piece.kind == SegmentKind::Text && piece.text.len() > 0 && all_chars(
        piece.text,
        |c: char| numeric_connective(c),
    )
}

/// The end of the pairs of connective and digits from `from` on.
pub open spec fn numeric_end(pieces: Seq<Piece>, from: int) -> int
    decreases pieces.len() - from,
{
    if 0 <= from && from + 1 < pieces.len() && connective_piece(pieces[from]) && digit_piece(
        pieces[from + 1],
    ) {
        numeric_end(pieces, from + 2)
    } else {
        from
    }
}

/// The pieces from `from` on with every number in one.
pub open spec fn numeric_merged(pieces: Seq<Piece>, from: int) -> Seq<Piece>
    decreases pieces.len() - from,
    via numeric_merged_decreases
{
    if from < 0 || from >= pieces.len() {
        Seq::empty()
    } else if digit_piece(pieces[from]) {
        let end = numeric_end(pieces, from + 1);
        seq![fused_run(pieces, from, end)] + numeric_merged(pieces, end)
    } else {
        seq![pieces[from]] + numeric_merged(pieces, from + 1)
    }
}

#[via_fn]
proof fn numeric_merged_decreases(pieces: Seq<Piece>, from: int) {
    if 0 <= from < pieces.len() {
        lemma_numeric_end(pieces, from + 1);
    }
}

pub(crate) proof fn lemma_numeric_end(pieces: Seq<Piece>, from: int)
    requires
        0 <= from <= pieces.len(),
    ensures
        from <= numeric_end(pieces, from) <= pieces.len(),
        forall|k: int|
            from <= k < numeric_end(pieces, from) ==> (#[trigger] pieces[k]).kind
                == SegmentKind::Text,
    decreases pieces.len() - from,
{
    if from + 1 < pieces.len() && connective_piece(pieces[from]) && digit_piece(pieces[from + 1]) {
        lemma_numeric_end(pieces, from + 2);
    }
}

/// Pieces of text that are proper are proper as one.
proof fn lemma_fused_proper(pieces: Seq<Piece>, from: int, to: int)
    requires
        0 <= from < to <= pieces.len(),
        forall|k: int|
            from <= k < to ==> (#[trigger] pieces[k]).kind == SegmentKind::Text && proper(
                pieces[k],
            ),
    ensures
        proper(fused_run(pieces, from, to)),
    decreases to - from,
{
    let run = pieces.subrange(from, to);
    let head = pieces.subrange(from, to - 1);
    assert(texts_of(run).drop_last() =~= texts_of(head));
    assert(texts_of(run).last() == pieces[to - 1].text);
    assert(pieces[from].kind == SegmentKind::Text);
    if from < to - 1 {
        lemma_fused_proper(pieces, from, to - 1);
        lemma_no_control_concat(joined(texts_of(head)), pieces[to - 1].text);
    } else {
        assert(texts_of(run) =~= seq![pieces[from].text]);
        lemma_joined_one(pieces[from].text);
    }
}

/// One piece for `from..to`, then pieces for the rest, hold what is held from
/// `from` on.
proof fn lemma_sound_front(
    pieces: Seq<Piece>,
    from: int,
    to: int,
    front: Piece,
    rest: Seq<Piece>,
)
    requires
        0 <= from < to <= pieces.len(),
        proper(front),
        front.text == joined(texts_of(pieces.subrange(from, to))),
        sound(rest, joined(texts_of(pieces.skip(to)))),
    ensures
        sound(seq![front] + rest, joined(texts_of(pieces.skip(from)))),
{
    lemma_sound_one(front);
    lemma_sound_concat(seq![front], front.text, rest, joined(texts_of(pieces.skip(to))));
    assert(texts_of(pieces.skip(from)) =~= texts_of(pieces.subrange(from, to)) + texts_of(
        pieces.skip(to),
    ));
    lemma_joined_concat(texts_of(pieces.subrange(from, to)), texts_of(pieces.skip(to)));
}

proof fn lemma_url_sound(pieces: Seq<Piece>, from: int)
    requires
        0 <= from <= pieces.len(),
        forall|k: int| 0 <= k < pieces.len() ==> proper(#[trigger] pieces[k]),
    ensures
        sound(url_merged(pieces, from), joined(texts_of(pieces.skip(from)))),
    decreases pieces.len() - from,
{
    if from >= pieces.len() {
        assert(texts_of(pieces.skip(from)) =~= Seq::empty());
        lemma_sound_empty();
    } else {
        lemma_url_seed(pieces, from, 1);
        match url_seed(pieces, from, 1) {
            Some(count) => {
                lemma_url_end(pieces, from + count);
                let end = url_end(pieces, from + count);
                lemma_fused_proper(pieces, from, end);
                lemma_url_sound(pieces, end);
                lemma_sound_front(
                    pieces,
                    from,
                    end,
                    fused_run(pieces, from, end),
                    url_merged(pieces, end),
                );
            },
            None => {
                lemma_url_sound(pieces, from + 1);
                lemma_single(pieces, from);
                lemma_sound_front(
                    pieces,
                    from,
                    from + 1,
                    pieces[from],
                    url_merged(pieces, from + 1),
                );
            },
        }
    }
}

pub(crate) proof fn lemma_single(pieces: Seq<Piece>, index: int)
    requires
        0 <= index < pieces.len(),
    ensures
        joined(texts_of(pieces.subrange(index, index + 1))) == pieces[index].text,
{
    assert(texts_of(pieces.subrange(index, index + 1)) =~= seq![pieces[index].text]);
    lemma_joined_one(pieces[index].text);
}

proof fn lemma_numeric_sound(pieces: Seq<Piece>, from: int)
    requires
        0 <= from <= pieces.len(),
        forall|k: int| 0 <= k < pieces.len() ==> proper(#[trigger] pieces[k]),
    ensures
        sound(numeric_merged(pieces, from), joined(texts_of(pieces.skip(from)))),
    decreases pieces.len() - from,
{
    if from >= pieces.len() {
        assert(texts_of(pieces.skip(from)) =~= Seq::empty());
        lemma_sound_empty();
    } else if digit_piece(pieces[from]) {
        lemma_numeric_end(pieces, from + 1);
        let end = numeric_end(pieces, from + 1);
        lemma_fused_proper(pieces, from, end);
        lemma_numeric_sound(pieces, end);
        lemma_sound_front(
            pieces,
            from,
            end,
            fused_run(pieces, from, end),
            numeric_merged(pieces, end),
        );
    } else {
        lemma_numeric_sound(pieces, from + 1);
        lemma_single(pieces, from);
        lemma_sound_front(pieces, from, from + 1, pieces[from], numeric_merged(pieces, from + 1));
    }
}

/// Keeping URLs and numbers whole keeps the text and leaves controls alone.
pub proof fn run_merging_is_sound(pieces: Seq<Piece>, text: Seq<char>)
    requires
        sound(pieces, text),
    ensures
        sound(url_merged(pieces, 0), text),
        sound(numeric_merged(pieces, 0), text),
{
    lemma_url_sound(pieces, 0);
    lemma_numeric_sound(pieces, 0);
    assert(pieces.skip(0) =~= pieces);
}

/// The segments `from..to` as one.
fn fuse_segments(segments: &Vec<AnalysisSegment>, from: usize, to: usize) -> (r: AnalysisSegment)
    requires
        from < to <= segments@.len(),
    ensures
        r@ == fused_run(pieces_of(segments@), from as int, to as int),
{
    let ghost pieces = pieces_of(segments@);
    let mut text = String::new();
    let mut contains_cjk = false;
    let mut index: usize = from;
    proof {
        assert(text@ =~= Seq::empty());
        assert(texts_of(pieces.subrange(from as int, from as int)) =~= Seq::empty());
    }
    while index < to
        invariant
            from <= index <= to <= segments@.len(),
            pieces == pieces_of(segments@),
            text@ == joined(texts_of(pieces.subrange(from as int, index as int))),
            contains_cjk == (exists|k: int|
                from <= k < index && (#[trigger] pieces[k]).contains_cjk),
        decreases to - index,
    {
        proof {
            let longer = texts_of(pieces.subrange(from as int, index + 1));
            assert(longer.drop_last() =~= texts_of(pieces.subrange(from as int, index as int)));
            assert(longer.last() == segments@[index as int].text@);
            assert(pieces[index as int].contains_cjk == segments@[index as int].contains_cjk);
        }
        text.append(segments[index].text.as_str());
        contains_cjk = contains_cjk || segments[index].contains_cjk;
        index += 1;
    }
    AnalysisSegment { text, kind: segments[from].kind, contains_cjk }
}

/// Whether what is written so far begins a URL, or may yet.
pub open spec fn may_begin_url(lower: Seq<char>) -> bool {
    has_prefix("http://"@, lower) || has_prefix("https://"@, lower) || has_prefix("www."@, lower)
}

proof fn lemma_prefix_or(text: Seq<char>, longer: Seq<char>, seed: Seq<char>)
    requires
        has_prefix(longer, text),
        has_prefix(longer, seed),
    ensures
        has_prefix(text, seed) || has_prefix(seed, text),
{
    if seed.len() <= text.len() {
        assert(text.take(seed.len() as int) =~= longer.take(seed.len() as int));
    } else {
        assert(seed.take(text.len() as int) =~= longer.take(text.len() as int));
    }
}

/// Once the text can no longer begin a URL, more of it does not help.
proof fn lemma_no_seed(pieces: Seq<Piece>, from: int, known: nat, count: nat)
    requires
        0 <= from,
        0 < known <= count,
        from + known <= pieces.len(),
        ({
            let text = joined(texts_of(pieces.subrange(from, from + known)));
            !url_start(text) && !may_begin_url(ascii_lowered(text))
        }),
    ensures
        url_seed(pieces, from, count) is None,
    decreases pieces.len() - from - count + 1,
{
    if from + count <= pieces.len() && pieces[from + count - 1].kind == SegmentKind::Text {
        let text = joined(texts_of(pieces.subrange(from, from + known)));
        let longer = joined(texts_of(pieces.subrange(from, from + count)));
        let rest = texts_of(pieces.subrange(from + known, from + count));
        assert(texts_of(pieces.subrange(from, from + count)) =~= texts_of(
            pieces.subrange(from, from + known),
        ) + rest);
        lemma_joined_concat(texts_of(pieces.subrange(from, from + known)), rest);
        assert(ascii_lowered(longer).take(text.len() as int) =~= ascii_lowered(text));
        if url_start(longer) {
            if has_prefix(ascii_lowered(longer), "http://"@) {
                lemma_prefix_or(ascii_lowered(text), ascii_lowered(longer), "http://"@);
            } else if has_prefix(ascii_lowered(longer), "https://"@) {
                lemma_prefix_or(ascii_lowered(text), ascii_lowered(longer), "https://"@);
            } else {
                lemma_prefix_or(ascii_lowered(text), ascii_lowered(longer), "www."@);
            }
        }
        lemma_no_seed(pieces, from, known, count + 1);
    }
}

/// Whether `chars` starts with `prefix`.
fn starts_with(chars: &Vec<char>, prefix: &Vec<char>) -> (r: bool)
    ensures
        r == has_prefix(chars@, prefix@),
{
    if chars.len() < prefix.len() {
        return false;
    }
    let mut index: usize = 0;
    while index < prefix.len()
        invariant
            index <= prefix@.len() <= chars@.len(),
            forall|k: int| 0 <= k < index ==> chars@[k] == prefix@[k],
        decreases prefix@.len() - index,
    {
        if chars[index] != prefix[index] {
            proof {
                assert(chars@.take(prefix@.len() as int)[index as int] != prefix@[index as int]);
            }
            return false;
        }
        index += 1;
    }
    proof {
        assert(chars@.take(prefix@.len() as int) =~= prefix@);
    }
    true
}

/// Number of leading segments needed to establish a supported URL prefix.
///
/// Recognition stops as soon as the text can no longer begin a URL, so it is
/// bounded by the longest prefix.
fn url_seed_segment_count(segments: &Vec<AnalysisSegment>, from: usize) -> (r: Option<usize>)
    requires
        from < segments@.len(),
    ensures
        match url_seed(pieces_of(segments@), from as int, 1) {
            Some(count) => r == Some(count as usize) && count <= segments@.len() - from,
            None => r is None,
        },
{
    let ghost pieces = pieces_of(segments@);
    let http = chars_of("http://");
    let https = chars_of("https://");
    let www = chars_of("www.");
    let mut lower: Vec<char> = Vec::new();
    let mut taken: usize = 0;
    proof {
        assert(texts_of(pieces.subrange(from as int, from as int)) =~= Seq::empty());
        assert(lower@ =~= ascii_lowered(Seq::empty()));
    }
    while taken < segments.len() - from && segments[from + taken].kind == SegmentKind::Text
        invariant
            from < segments@.len(),
            taken <= segments@.len() - from,
            pieces == pieces_of(segments@),
            http@ == "http://"@,
            https@ == "https://"@,
            www@ == "www."@,
            lower@ == ascii_lowered(
                joined(texts_of(pieces.subrange(from as int, from + taken))),
            ),
            url_seed(pieces, from as int, 1) == url_seed(pieces, from as int, (taken + 1) as nat),
        decreases segments@.len() - from - taken,
    {
        let chars = chars_of(segments[from + taken].text.as_str());
        let ghost text = joined(texts_of(pieces.subrange(from as int, from + taken + 1)));
        let ghost before = lower@;
        let mut index: usize = 0;
        while index < chars.len()
            invariant
                index <= chars@.len(),
                lower@ == before + ascii_lowered(chars@.take(index as int)),
            decreases chars@.len() - index,
        {
            lower.push(to_ascii_lower(chars[index]));
            index += 1;
            proof {
                assert(lower@ =~= before + ascii_lowered(chars@.take(index as int)));
            }
        }
        proof {
            let longer = texts_of(pieces.subrange(from as int, from + taken + 1));
            assert(longer.drop_last() =~= texts_of(
                pieces.subrange(from as int, from + taken),
            ));
            assert(longer.last() == chars@);
            assert(chars@.take(chars@.len() as int) =~= chars@);
            assert(lower@ =~= ascii_lowered(text));
        }
        if starts_with(&lower, &http) || starts_with(&lower, &https) || starts_with(&lower, &www) {
            return Some(taken + 1);
        }
        if !(starts_with(&http, &lower) || starts_with(&https, &lower) || starts_with(
            &www,
            &lower,
        )) {
            proof {
                lemma_no_seed(pieces, from as int, (taken + 1) as nat, (taken + 1) as nat);
            }
            return None;
        }
        taken += 1;
    }
    None
}

/// Whether a segment continues a URL.
fn is_url_extension(segment: &AnalysisSegment) -> (r: bool)
    ensures
        r == url_extension(segment@),
{
    let chars = chars_of(segment.text.as_str());
    if segment.kind != SegmentKind::Text || chars.len() == 0 {
        return false;
    }
    let mut index: usize = 0;
    while index < chars.len()
        invariant
            index <= chars@.len(),
            chars@ == segment.text@,
            forall|k: int|
                0 <= k < index ==> url_internal(#[trigger] chars@[k]) || alphanumeric(chars@[k]),
        decreases chars@.len() - index,
    {
        if !is_url_internal(chars[index]) && !chars[index].is_alphanumeric() {
            proof {
                let class = |c: char| url_internal(c) || alphanumeric(c);
                assert(!class(segment.text@[index as int]));
                assert(!all_chars(segment.text@, class));
            }
            return false;
        }
        index += 1;
    }
    true
}

/// Merge pass: URL-like runs.
///
/// Merges sequences that look like URLs (`https://foo.com/bar`) into
/// single atomic segments so they don't break mid-URL.
pub fn merge_url_runs(segments: &mut Vec<AnalysisSegment>)
    ensures
        pieces_of(final(segments)@) == url_merged(pieces_of(old(segments)@), 0),
{
    let ghost pieces = pieces_of(segments@);
    let mut result: Vec<AnalysisSegment> = Vec::new();
    let mut index: usize = 0;
    proof {
        assert(pieces_of(result@) + url_merged(pieces, 0) =~= url_merged(pieces, 0));
    }
    while index < segments.len()
        invariant
            index <= segments@.len(),
            pieces == pieces_of(segments@),
            url_merged(pieces, 0) == pieces_of(result@) + url_merged(pieces, index as int),
        decreases segments@.len() - index,
    {
        let ghost before = pieces_of(result@);
        proof {
            lemma_url_seed(pieces, index as int, 1);
        }
        match url_seed_segment_count(&segments, index) {
            Some(count) => {
                let start: usize = index + count;
                let mut end: usize = start;
                proof {
                    lemma_url_end(pieces, start as int);
                }
                while end < segments.len() && is_url_extension(&segments[end])
                    invariant
                        start <= end <= segments@.len(),
                        pieces == pieces_of(segments@),
                        url_end(pieces, start as int) == url_end(pieces, end as int),
                    decreases segments@.len() - end,
                {
                    proof {
                        assert(pieces[end as int] == segments@[end as int]@);
                    }
                    end += 1;
                }
                proof {
                    if end < segments@.len() {
                        assert(pieces[end as int] == segments@[end as int]@);
                    }
                }
                result.push(fuse_segments(&segments, index, end));
                proof {
                    let fused = fused_run(pieces, index as int, end as int);
                    let rest = url_merged(pieces, end as int);
                    assert(pieces_of(result@) =~= before.push(fused));
                    assert(before + (seq![fused] + rest) =~= pieces_of(result@) + rest);
                }
                index = end;
            },
            None => {
                result.push(copy_segment(&segments[index]));
                proof {
                    let rest = url_merged(pieces, index + 1);
                    assert(pieces_of(result@) =~= before.push(pieces[index as int]));
                    assert(before + (seq![pieces[index as int]] + rest) =~= pieces_of(result@)
                        + rest);
                }
                index += 1;
            },
        }
    }
    proof {
        assert(pieces_of(result@) + url_merged(pieces, index as int) =~= pieces_of(result@));
    }
    *segments = result;
}

/// Whether a segment is a run of digits.
fn is_digit_segment(segment: &AnalysisSegment) -> (r: bool)
    ensures
        r == digit_piece(segment@),
{
    segment.kind == SegmentKind::Text && is_all_digits(segment.text.as_str())
}

/// Whether a segment connects two runs of digits.
fn is_connective_segment(segment: &AnalysisSegment) -> (r: bool)
    ensures
        r == connective_piece(segment@),
{
    let chars = chars_of(segment.text.as_str());
    if segment.kind != SegmentKind::Text || chars.len() == 0 {
        return false;
    }
    let mut index: usize = 0;
    while index < chars.len()
        invariant
            index <= chars@.len(),
            chars@ == segment.text@,
            forall|k: int| 0 <= k < index ==> numeric_connective(#[trigger] chars@[k]),
        decreases chars@.len() - index,
    {
        if !is_numeric_connective(chars[index]) {
            proof {
                assert(!all_chars(segment.text@, |c: char| numeric_connective(c)));
            }
            return false;
        }
        index += 1;
    }
    true
}

/// Merge pass: numeric runs.
///
/// Merges numeric patterns like `3.14`, `1,000`, `2024-01-15` into
/// single segments so they don't break at internal punctuation.
pub fn merge_numeric_runs(segments: &mut Vec<AnalysisSegment>)
    ensures
        pieces_of(final(segments)@) == numeric_merged(pieces_of(old(segments)@), 0),
{
    let ghost pieces = pieces_of(segments@);
    let mut result: Vec<AnalysisSegment> = Vec::new();
    let mut index: usize = 0;
    proof {
        assert(pieces_of(result@) + numeric_merged(pieces, 0) =~= numeric_merged(pieces, 0));
    }
    while index < segments.len()
        invariant
            index <= segments@.len(),
            pieces == pieces_of(segments@),
            numeric_merged(pieces, 0) == pieces_of(result@) + numeric_merged(pieces, index as int),
        decreases segments@.len() - index,
    {
        let ghost before = pieces_of(result@);
        proof {
            assert(pieces[index as int] == segments@[index as int]@);
        }
        if is_digit_segment(&segments[index]) {
            let mut end: usize = index + 1;
            proof {
                lemma_numeric_end(pieces, end as int);
            }
            while segments.len() - end >= 2 && is_connective_segment(&segments[end])
                && is_digit_segment(&segments[end + 1])
                invariant
                    index < end <= segments@.len(),
                    pieces == pieces_of(segments@),
                    numeric_end(pieces, index + 1) == numeric_end(pieces, end as int),
                decreases segments@.len() - end,
            {
                proof {
                    assert(pieces[end as int] == segments@[end as int]@);
                    assert(pieces[end + 1] == segments@[end + 1]@);
                }
                end += 2;
            }
            proof {
                if end + 1 < segments@.len() {
                    assert(pieces[end as int] == segments@[end as int]@);
                    assert(pieces[end + 1] == segments@[end + 1]@);
                }
            }
            result.push(fuse_segments(&segments, index, end));
            proof {
                let fused = fused_run(pieces, index as int, end as int);
                let rest = numeric_merged(pieces, end as int);
                assert(pieces_of(result@) =~= before.push(fused));
                assert(before + (seq![fused] + rest) =~= pieces_of(result@) + rest);
            }
            index = end;
        } else {
            result.push(copy_segment(&segments[index]));
            proof {
                let rest = numeric_merged(pieces, index + 1);
                assert(pieces_of(result@) =~= before.push(pieces[index as int]));
                assert(before + (seq![pieces[index as int]] + rest) =~= pieces_of(result@) + rest);
            }
            index += 1;
        }
    }
    proof {
        assert(pieces_of(result@) + numeric_merged(pieces, index as int) =~= pieces_of(result@));
    }
    *segments = result;
}

// ---- Chunks ----------------------------------------------------------------------

/// Check whether the simple fast path can be used.
///
/// The simple path avoids chunk processing and only handles
/// text + space + zero-width-break segments.
pub fn check_simple_fast_path(segments: &Vec<AnalysisSegment>) -> (r: bool)
    ensures
        r == all_simple(kinds_of(pieces_of(segments@))),
{
    let mut index: usize = 0;
    while index < segments.len()
        invariant
            index <= segments@.len(),
            forall|k: int| 0 <= k < index ==> is_simple_kind((#[trigger] segments@[k]).kind),
        decreases segments@.len() - index,
    {
        if !matches!(
            segments[index].kind,
            SegmentKind::Text | SegmentKind::Space | SegmentKind::ZeroWidthBreak
        ) {
            proof {
                let kinds = kinds_of(pieces_of(segments@));
                assert(kinds[index as int] == segments@[index as int].kind);
                assert(!is_simple_kind(kinds[index as int]));
            }
            return false;
        }
        index += 1;
    }
    true
}

/// Whether all kinds are those of the simple path.
pub open spec fn all_simple(kinds: Seq<SegmentKind>) -> bool {
    forall|i: int| 0 <= i < kinds.len() ==> is_simple_kind(#[trigger] kinds[i])
}

/// Compile chunk boundaries from hard breaks.
pub fn compile_chunks(segments: &Vec<AnalysisSegment>) -> (r: Vec<AnalysisChunk>)
    ensures
        prepared_chunks(r@) == chunks_from(kinds_of(pieces_of(segments@)), 0),
{
    let ghost kinds = kinds_of(pieces_of(segments@));
    let mut chunks: Vec<AnalysisChunk> = Vec::new();
    let mut chunk_start: usize = 0;
    let mut index: usize = 0;
    proof {
        assert(prepared_chunks(chunks@) + chunks_from(kinds, 0) =~= chunks_from(kinds, 0));
    }
    while index < segments.len()
        invariant
            chunk_start <= index <= segments@.len(),
            kinds == kinds_of(pieces_of(segments@)),
            next_hard_break(kinds, chunk_start as int) == next_hard_break(kinds, index as int),
            chunks_from(kinds, 0) == prepared_chunks(chunks@) + chunks_from(
                kinds,
                chunk_start as int,
            ),
        decreases segments@.len() - index,
    {
        proof {
            assert(kinds[index as int] == segments@[index as int].kind);
        }
        if segments[index].kind == SegmentKind::HardBreak {
            let ghost before = prepared_chunks(chunks@);
            let chunk = AnalysisChunk { start: chunk_start, end: index, consumed_end: index + 1 };
            chunks.push(chunk);
            proof {
                let rest = chunks_from(kinds, index + 1);
                assert(prepared_chunks(chunks@) =~= before.push(chunk.prepared()));
                assert(before + (seq![chunk.prepared()] + rest) =~= prepared_chunks(chunks@)
                    + rest);
            }
            chunk_start = index + 1;
        }
        index += 1;
    }
    let ghost before = prepared_chunks(chunks@);
    chunks.push(
        AnalysisChunk { start: chunk_start, end: segments.len(), consumed_end: segments.len() },
    );
    proof {
        assert(prepared_chunks(chunks@) =~= before + chunks_from(kinds, chunk_start as int));
    }
    chunks
}

/// Convert analysis chunks to prepared chunks.
#[must_use]
pub fn to_prepared_chunks(analysis_chunks: &Vec<AnalysisChunk>) -> (r: Vec<PreparedLineChunk>)
    ensures
        r@ == prepared_chunks(analysis_chunks@),
{
    let mut chunks: Vec<PreparedLineChunk> = Vec::new();
    let mut index: usize = 0;
    while index < analysis_chunks.len()
        invariant
            index <= analysis_chunks@.len(),
            chunks@ == prepared_chunks(analysis_chunks@.take(index as int)),
        decreases analysis_chunks@.len() - index,
    {
        let chunk = analysis_chunks[index];
        chunks.push(
            PreparedLineChunk {
                start_segment_index: chunk.start,
                end_segment_index: chunk.end,
                consumed_end_segment_index: chunk.consumed_end,
            },
        );
        index += 1;
        proof {
            assert(chunks@ =~= prepared_chunks(analysis_chunks@.take(index as int)));
        }
    }
    proof {
        assert(analysis_chunks@.take(index as int) =~= analysis_chunks@);
    }
    chunks
}

// ---- Analysis --------------------------------------------------------------------

/// The pieces of a text whose word boundaries fall as `words` says.
///
/// Atomic runs are recognized on the initial boundaries: punctuation passes
/// could otherwise fold a protocol colon or a numeric separator into only one
/// neighbor.
pub open spec fn refined(initial: Seq<Piece>) -> Seq<Piece> {
    kinsoku_merged(
        merged(
            merged(numeric_merged(url_merged(initial, 0), 0), MergeRule::LeftSticky),
            MergeRule::ForwardSticky,
        ),
    )
}

/// The pieces of a text.
pub open spec fn analyzed(text: Seq<char>, mode: WhiteSpaceMode) -> Seq<Piece> {
    refined(words_pieces(word_bounds(normalized_text(text, mode)), mode))
}

/// Whether an analysis holds these pieces, with their chunks.
pub open spec fn analysis_of(result: AnalysisResult, pieces: Seq<Piece>) -> bool {
    &&& pieces_of(result.segments@) == pieces
    &&& prepared_chunks(result.chunks@) == chunks_from(kinds_of(pieces), 0)
    &&& result.simple_fast_path == all_simple(kinds_of(pieces))
}

/// The passes together keep the text and leave controls alone.
pub proof fn refining_is_sound(initial: Seq<Piece>, text: Seq<char>)
    requires
        sound(initial, text),
    ensures
        sound(refined(initial), text),
{
    let urls = url_merged(initial, 0);
    let numbers = numeric_merged(urls, 0);
    let left = merged(numbers, MergeRule::LeftSticky);
    let forward = merged(left, MergeRule::ForwardSticky);
    run_merging_is_sound(initial, text);
    run_merging_is_sound(urls, text);
    merging_is_sound(numbers, MergeRule::LeftSticky, text);
    merging_is_sound(left, MergeRule::ForwardSticky, text);
    merging_is_sound(forward, MergeRule::KinsokuEnd, text);
    merging_is_sound(merged(forward, MergeRule::KinsokuEnd), MergeRule::KinsokuStart, text);
}

/// Run the merge passes and compile the chunks.
///
/// Atomic run passes must see the initial boundaries; typography passes
/// operate on the then-atomic URL and numeric segments.
pub fn refine_segments(initial: Vec<AnalysisSegment>) -> (r: AnalysisResult)
    ensures
        analysis_of(r, refined(pieces_of(initial@))),
{
    let mut segments = initial;
    merge_url_runs(&mut segments);
    merge_numeric_runs(&mut segments);
    merge_left_sticky_punctuation(&mut segments);
    merge_forward_sticky(&mut segments);
    merge_kinsoku(&mut segments);
    let simple_fast_path = check_simple_fast_path(&segments);
    let chunks = compile_chunks(&segments);
    AnalysisResult { segments, chunks, simple_fast_path }
}

/// Analyze text into segments with classified break opportunities.
///
/// This is the main entry point for the analysis phase. It:
/// 1. Normalizes whitespace according to the mode
/// 2. Segments text using Unicode word boundaries
/// 3. Classifies each segment (text, space, tab, etc.)
/// 4. Runs merge passes for punctuation stickiness, kinsoku, URLs, etc.
/// 5. Compiles chunk boundaries for hard breaks
///
/// No text is lost: the segments, one after the other, are the normalized
/// text, and every special control is a segment of its own.
#[must_use]
pub fn analyze_text(text: &str, white_space: WhiteSpaceMode) -> (r: AnalysisResult)
    ensures
        analysis_of(r, analyzed(text@, white_space)),
        sound(pieces_of(r.segments@), normalized_text(text@, white_space)),
{
    let normalized = normalize_whitespace(text, white_space);
    let initial = initial_segmentation(normalized.as_str(), white_space);
    proof {
        refining_is_sound(pieces_of(initial@), normalized@);
    }
    refine_segments(initial)
}

} // verus!
