//! What holds of emitted glyphs: every character gets its glyph and the output
//! is bounded; and of simple word wrap: lines stay short and keep the words.
use crate::backend::font::parsed_font;
use crate::backend::{FontView, MeasureBackend};
use crate::error::Error;
use crate::gpu_layout::{
    broken_lines, counted_glyphs, fixed_outcome, fixed_row, fixed_rows, full_pieces,
    hard_break_lines, has_hard_break, held_chars, label_options, label_outcome, label_width,
    last_piece_start, line_offset, line_span, line_start, lines_placeable, may_advance,
    multiline_outcome, paragraph_lines, paragraphs_lines, pixel_width, placed_outcome,
    proportional_outcome, proportional_row, proportional_rows, simple_outcome, single_line_outcome,
    top_line, total_chars, unless_empty, unwrapped_outcome, words_from, wrapped, wrapped_outcome,
    Anchor, AtlasView, Glyph, TextLayoutConfig,
};
use crate::inline_flow::rich_outcome;
use crate::scalar::{Coordinate, Scalar, Widen};
use crate::text::{
    joined, lemma_joined_concat, lemma_joined_one, lemma_skip_white, lemma_white_from, skip_white,
    white_from,
};
use crate::types::RichText;
use crate::unicode::white_space;
use vstd::prelude::*;

verus! {

// ---- Every character gets its glyph -------------------------------------------------------

/// Whether glyphs show a text: one for each character, with its cell of the
/// atlas.
pub open spec fn shows_text<G: Scalar>(
    atlas: AtlasView,
    text: Seq<char>,
    glyphs: Seq<Glyph<G>>,
) -> bool {
    &&& glyphs.len() == text.len()
    &&& forall|i: int|
        0 <= i < text.len() ==> {
            &&& atlas.holds(#[trigger] text[i])
            &&& glyphs[i].uv_min == atlas.cell_min::<G>(text[i] as u32)
            &&& glyphs[i].uv_max == atlas.cell_max::<G>(text[i] as u32)
        }
}

proof fn lemma_fixed_row<G: Coordinate>(
    atlas: AtlasView,
    anchor: Anchor<G>,
    chars: Seq<char>,
    count: int,
    advance: G,
    start: G,
    y: G,
    parameter: Seq<char>,
)
    requires
        0 <= count <= chars.len(),
    ensures
        fixed_row(atlas, anchor, chars, count, advance, start, y, parameter) matches Ok(row)
            ==> shows_text(atlas, chars.take(count), row),
    decreases count,
{
    if count > 0 {
        lemma_fixed_row(atlas, anchor, chars, count - 1, advance, start, y, parameter);
        if let Ok(row) = fixed_row(atlas, anchor, chars, count, advance, start, y, parameter) {
            let shorter = chars.take(count - 1);
            let longer = chars.take(count);
            assert forall|i: int| 0 <= i < longer.len() implies {
                &&& atlas.holds(#[trigger] longer[i])
                &&& row[i].uv_min == atlas.cell_min::<G>(longer[i] as u32)
                &&& row[i].uv_max == atlas.cell_max::<G>(longer[i] as u32)
            } by {
                if i < count - 1 {
                    assert(shorter[i] == longer[i]);
                }
            }
        }
    }
}

proof fn lemma_proportional_row<G: Coordinate>(
    atlas: AtlasView,
    anchor: Anchor<G>,
    chars: Seq<char>,
    advances: Seq<G>,
    count: int,
    start: G,
    y: G,
)
    requires
        0 <= count <= chars.len(),
    ensures
        proportional_row(atlas, anchor, chars, advances, count, start, y) matches Ok((row, _))
            ==> shows_text(atlas, chars.take(count), row),
    decreases count,
{
    if count > 0 {
        lemma_proportional_row(atlas, anchor, chars, advances, count - 1, start, y);
        if let Ok((row, _)) = proportional_row(atlas, anchor, chars, advances, count, start, y) {
            let shorter = chars.take(count - 1);
            let longer = chars.take(count);
            assert forall|i: int| 0 <= i < longer.len() implies {
                &&& atlas.holds(#[trigger] longer[i])
                &&& row[i].uv_min == atlas.cell_min::<G>(longer[i] as u32)
                &&& row[i].uv_max == atlas.cell_max::<G>(longer[i] as u32)
            } by {
                if i < count - 1 {
                    assert(shorter[i] == longer[i]);
                }
            }
        }
    }
}

proof fn lemma_shows_concat<G: Scalar>(
    atlas: AtlasView,
    head: Seq<char>,
    head_glyphs: Seq<Glyph<G>>,
    tail: Seq<char>,
    tail_glyphs: Seq<Glyph<G>>,
)
    requires
        shows_text(atlas, head, head_glyphs),
        shows_text(atlas, tail, tail_glyphs),
    ensures
        shows_text(atlas, head + tail, head_glyphs + tail_glyphs),
{
    let text = head + tail;
    let glyphs = head_glyphs + tail_glyphs;
    assert forall|i: int| 0 <= i < text.len() implies {
        &&& atlas.holds(#[trigger] text[i])
        &&& glyphs[i].uv_min == atlas.cell_min::<G>(text[i] as u32)
        &&& glyphs[i].uv_max == atlas.cell_max::<G>(text[i] as u32)
    } by {
        if i < head.len() {
            assert(text[i] == head[i]);
        } else {
            assert(text[i] == tail[i - head.len()]);
        }
    }
}

proof fn lemma_fixed_rows<G: Coordinate>(
    atlas: AtlasView,
    anchor: Anchor<G>,
    lines: Seq<Seq<char>>,
    count: int,
    config: TextLayoutConfig<G>,
)
    requires
        0 <= count <= lines.len(),
    ensures
        fixed_rows(atlas, anchor, lines, count, config) matches Ok(rows) ==> shows_text(
            atlas,
            joined(lines.take(count)),
            rows,
        ),
    decreases count,
{
    if count > 0 {
        lemma_fixed_rows(atlas, anchor, lines, count - 1, config);
        assert(lines.take(count).drop_last() =~= lines.take(count - 1));
        if let Ok(rows) = fixed_rows(atlas, anchor, lines, count, config) {
            let line = lines[count - 1];
            let width = G::ratio_value(line.len(), 1).times(config.glyph_advance);
            let top = top_line(config.vertical_align, line_span(lines.len(), config.line_spacing));
            let y = line_offset((count - 1) as nat, config.line_spacing, top);
            let start = line_start(config.align, width);
            lemma_fixed_row(
                atlas,
                anchor,
                line,
                line.len() as int,
                config.glyph_advance,
                start,
                y,
                "multi-line glyph offset"@,
            );
            assert(line.take(line.len() as int) =~= line);
            let before = fixed_rows(atlas, anchor, lines, count - 1, config)->Ok_0;
            let row = fixed_row(
                atlas,
                anchor,
                line,
                line.len() as int,
                config.glyph_advance,
                start,
                y,
                "multi-line glyph offset"@,
            )->Ok_0;
            lemma_shows_concat(atlas, joined(lines.take(count - 1)), before, line, row);
        }
    } else {
        assert(joined(lines.take(0)) =~= Seq::empty());
    }
}

proof fn lemma_proportional_rows<G: Coordinate>(
    atlas: AtlasView,
    anchor: Anchor<G>,
    lines: Seq<Seq<char>>,
    advances: Seq<Seq<G>>,
    count: int,
    config: TextLayoutConfig<G>,
)
    requires
        0 <= count <= lines.len(),
    ensures
        proportional_rows(atlas, anchor, lines, advances, count, config) matches Ok(rows)
            ==> shows_text(atlas, joined(lines.take(count)), rows),
    decreases count,
{
    if count > 0 {
        lemma_proportional_rows(atlas, anchor, lines, advances, count - 1, config);
        assert(lines.take(count).drop_last() =~= lines.take(count - 1));
        if let Ok(rows) = proportional_rows(atlas, anchor, lines, advances, count, config) {
            let line = lines[count - 1];
            let width = crate::gpu_layout::advances_width(
                advances[count - 1],
                line.len() as int,
            )->Ok_0;
            let top = top_line(config.vertical_align, line_span(lines.len(), config.line_spacing));
            let y = line_offset((count - 1) as nat, config.line_spacing, top);
            let start = line_start(config.align, width);
            lemma_proportional_row(
                atlas,
                anchor,
                line,
                advances[count - 1],
                line.len() as int,
                start,
                y,
            );
            assert(line.take(line.len() as int) =~= line);
            let before = proportional_rows(
                atlas,
                anchor,
                lines,
                advances,
                count - 1,
                config,
            )->Ok_0;
            let row = (proportional_row(
                atlas,
                anchor,
                line,
                advances[count - 1],
                line.len() as int,
                start,
                y,
            )->Ok_0).0;
            lemma_shows_concat(atlas, joined(lines.take(count - 1)), before, line, row);
        }
    } else {
        assert(joined(lines.take(0)) =~= Seq::empty());
    }
}

proof fn lemma_held_chars<G: Scalar>(
    atlas: AtlasView,
    text: Seq<char>,
    glyphs: Seq<Glyph<G>>,
    count: int,
)
    requires
        shows_text(atlas, text, glyphs),
        0 <= count <= text.len(),
    ensures
        held_chars(atlas, text, count) == count,
    decreases count,
{
    if count > 0 {
        lemma_held_chars(atlas, text, glyphs, count - 1);
        assert(atlas.holds(text[count - 1]));
    }
}

/// A single line that is laid out shows every character of the text, and no
/// more glyphs than are allowed.
pub proof fn single_lines_show_the_text<G: Coordinate>(
    atlas: AtlasView,
    anchor: Anchor<G>,
    text: Seq<char>,
    config: TextLayoutConfig<G>,
    glyphs: Seq<Glyph<G>>,
)
    requires
        single_line_outcome(atlas, anchor, text, config, Ok(glyphs)),
    ensures
        shows_text(atlas, text, glyphs),
        glyphs.len() <= config.max_glyphs,
{
    let width = G::ratio_value(text.len(), 1).times(config.glyph_advance);
    lemma_fixed_row(
        atlas,
        anchor,
        text,
        text.len() as int,
        config.glyph_advance,
        line_start(config.align, width),
        G::zero_value(),
        "single-line glyph offset"@,
    );
    assert(text.take(text.len() as int) =~= text);
    lemma_held_chars(atlas, text, glyphs, text.len() as int);
}

proof fn lemma_total_chars(lines: Seq<Seq<char>>, count: int)
    requires
        0 <= count <= lines.len(),
    ensures
        total_chars(lines, count) == joined(lines.take(count)).len(),
    decreases count,
{
    if count > 0 {
        lemma_total_chars(lines, count - 1);
        assert(lines.take(count).drop_last() =~= lines.take(count - 1));
    } else {
        assert(joined(lines.take(0)) =~= Seq::empty());
    }
}

/// Lines with equal advances that are laid out show every character of every
/// line, and no more glyphs than are allowed.
pub proof fn fixed_lines_show_the_text<G: Coordinate>(
    atlas: AtlasView,
    anchor: Anchor<G>,
    lines: Seq<Seq<char>>,
    config: TextLayoutConfig<G>,
    glyphs: Seq<Glyph<G>>,
)
    requires
        fixed_outcome(atlas, anchor, lines, config, Ok(glyphs)),
    ensures
        shows_text(atlas, joined(lines), glyphs),
        glyphs.len() <= config.max_glyphs,
{
    lemma_fixed_rows(atlas, anchor, lines, lines.len() as int, config);
    lemma_total_chars(lines, lines.len() as int);
    assert(lines.take(lines.len() as int) =~= lines);
}

proof fn lemma_counted(
    atlas: AtlasView,
    lines: Seq<Seq<char>>,
    count: int,
    operation: Seq<char>,
    text: Seq<char>,
)
    requires
        0 <= count <= lines.len(),
        text == joined(lines.take(count)),
        forall|i: int| 0 <= i < text.len() ==> atlas.holds(#[trigger] text[i]),
    ensures
        counted_glyphs(atlas, lines, count, operation) matches Ok(total) ==> total == text.len(),
    decreases count,
{
    if count > 0 {
        let shorter = joined(lines.take(count - 1));
        let line = lines[count - 1];
        assert(lines.take(count).drop_last() =~= lines.take(count - 1));
        assert(text == shorter + line);
        assert forall|i: int| 0 <= i < shorter.len() implies atlas.holds(#[trigger] shorter[i]) by {
            assert(shorter[i] == text[i]);
        }
        lemma_counted(atlas, lines, count - 1, operation, shorter);
        assert forall|i: int| 0 <= i < line.len() implies atlas.holds(#[trigger] line[i]) by {
            assert(line[i] == text[shorter.len() + i]);
        }
        lemma_all_held(atlas, line, line.len() as int);
    } else {
        assert(joined(lines.take(0)) =~= Seq::empty());
    }
}

proof fn lemma_all_held(atlas: AtlasView, text: Seq<char>, count: int)
    requires
        0 <= count <= text.len(),
        forall|i: int| 0 <= i < text.len() ==> atlas.holds(#[trigger] text[i]),
    ensures
        held_chars(atlas, text, count) == count,
    decreases count,
{
    if count > 0 {
        lemma_all_held(atlas, text, count - 1);
        assert(atlas.holds(text[count - 1]));
    }
}

/// Lines with an advance for each glyph that are laid out show every character
/// of every line, and no more glyphs than are allowed.
pub proof fn proportional_lines_show_the_text<G: Coordinate>(
    atlas: AtlasView,
    anchor: Anchor<G>,
    lines: Seq<Seq<char>>,
    advances: Seq<Seq<G>>,
    config: TextLayoutConfig<G>,
    glyphs: Seq<Glyph<G>>,
)
    requires
        proportional_outcome(atlas, anchor, lines, advances, config, Ok(glyphs)),
    ensures
        shows_text(atlas, joined(lines), glyphs),
        glyphs.len() <= config.max_glyphs,
{
    lemma_proportional_rows(atlas, anchor, lines, advances, lines.len() as int, config);
    assert(lines.take(lines.len() as int) =~= lines);
    lemma_counted(
        atlas,
        lines,
        lines.len() as int,
        "counting proportional GPU glyph instances"@,
        joined(lines),
    );
}

proof fn lemma_unwrapped_is_bounded<G: Coordinate>(
    atlas: AtlasView,
    anchor: Anchor<G>,
    text: Seq<char>,
    config: TextLayoutConfig<G>,
    glyphs: Seq<Glyph<G>>,
)
    requires
        unwrapped_outcome(atlas, anchor, text, config, Ok(glyphs)),
    ensures
        glyphs.len() <= config.max_glyphs,
{
    if has_hard_break(text) {
        fixed_lines_show_the_text(atlas, anchor, hard_break_lines(text), config, glyphs);
    } else {
        single_lines_show_the_text(atlas, anchor, text, config, glyphs);
    }
}

/// Labels with simple word wrap emit no more glyphs than are allowed.
pub proof fn simple_labels_are_bounded<G: Coordinate>(
    atlas: AtlasView,
    anchor: Anchor<G>,
    text: Seq<char>,
    config: TextLayoutConfig<G>,
    glyphs: Seq<Glyph<G>>,
)
    requires
        simple_outcome(atlas, anchor, text, config, Ok(glyphs)),
    ensures
        glyphs.len() <= config.max_glyphs,
{
    match config.max_width {
        None => {
            lemma_unwrapped_is_bounded(atlas, anchor, text, config, glyphs);
        },
        Some(width) => {
            let glyph_width = anchor.font_size.times(config.glyph_advance);
            let fitting = width.over(glyph_width).whole();
            let max = if fitting < 1 {
                1
            } else {
                fitting as int
            };
            fixed_lines_show_the_text(
                atlas,
                anchor,
                paragraphs_lines(hard_break_lines(text), max),
                config,
                glyphs,
            );
        },
    }
}

/// Labels that the line breaker wraps emit no more glyphs than are allowed.
pub proof fn multiline_labels_are_bounded<W: Scalar, G: Widen<W>, B: MeasureBackend<W>>(
    atlas: AtlasView,
    anchor: Anchor<G>,
    text: Seq<char>,
    config: TextLayoutConfig<G>,
    backend: &B,
    glyphs: Seq<Glyph<G>>,
)
    requires
        multiline_outcome(atlas, anchor, text, config, backend, Ok(glyphs)),
    ensures
        glyphs.len() <= config.max_glyphs,
{
    match config.max_width {
        None => {
            lemma_unwrapped_is_bounded(atlas, anchor, text, config, glyphs);
        },
        Some(width) => {
            let glyph_width = anchor.font_size.times(config.glyph_advance);
            let pixels = pixel_width::<W, G>(width, glyph_width, config.glyph_advance);
            let outcome = Ok::<Seq<Glyph<G>>, Error>(glyphs);
            let font = parsed_font::<W>("16px monospace"@)->Ok_0;
            let prepared = choose|prepared: Result<RichText<W>, Error>|
                {
                    &&& #[trigger] rich_outcome(backend, text, font, label_options(), prepared)
                    &&& match prepared {
                        Err(error) => outcome == Err::<Seq<Glyph<G>>, Error>(error),
                        Ok(rich) => wrapped_outcome(atlas, anchor, rich, pixels, config, outcome),
                    }
                };
            if let Ok(rich) = prepared {
                fixed_lines_show_the_text(
                    atlas,
                    anchor,
                    broken_lines(rich, pixels),
                    config,
                    glyphs,
                );
            }
        },
    }
}

/// Labels with an advance for each glyph emit no more glyphs than are allowed.
pub proof fn proportional_labels_are_bounded<
    W: Scalar,
    G: Widen<W>,
    B: MeasureBackend<W>,
    F: Fn(char) -> G,
>(
    atlas: AtlasView,
    anchor: Anchor<G>,
    text: Seq<char>,
    config: TextLayoutConfig<G>,
    backend: &B,
    font: FontView<W>,
    glyph_advance: F,
    glyphs: Seq<Glyph<G>>,
)
    requires
        label_outcome(atlas, anchor, text, config, backend, font, glyph_advance, Ok(glyphs)),
    ensures
        glyphs.len() <= config.max_glyphs,
{
    if text.len() > 0 {
        let outcome = Ok::<Seq<Glyph<G>>, Error>(glyphs);
        let prepared = choose|prepared: Result<RichText<W>, Error>|
            {
                &&& #[trigger] rich_outcome(backend, text, font, label_options(), prepared)
                &&& match prepared {
                    Err(error) => outcome == Err::<Seq<Glyph<G>>, Error>(error),
                    Ok(rich) => placed_outcome(
                        atlas,
                        anchor,
                        rich,
                        font.size_px,
                        config,
                        glyph_advance,
                        outcome,
                    ),
                }
            };
        if let Ok(rich) = prepared {
            let max_width = label_width(config.max_width, anchor.font_size, font.size_px)->0;
            let lines = broken_lines(rich, max_width);
            assert(lines_placeable(atlas, lines, config));
            let advances = choose|advances: Seq<Seq<G>>|
                {
                    &&& #[trigger] may_advance(glyph_advance, lines, advances)
                    &&& proportional_outcome(atlas, anchor, lines, advances, config, outcome)
                };
            proportional_lines_show_the_text(atlas, anchor, lines, advances, config, glyphs);
        }
    }
}

// ---- Simple word wrap -----------------------------------------------------------------------

/// Whether no line is longer than `max` characters.
pub open spec fn all_short(lines: Seq<Seq<char>>, max: int) -> bool {
    forall|i: int| 0 <= i < lines.len() ==> (#[trigger] lines[i]).len() <= max
}

proof fn lemma_short_concat(head: Seq<Seq<char>>, tail: Seq<Seq<char>>, max: int)
    requires
        all_short(head, max),
        all_short(tail, max),
    ensures
        all_short(head + tail, max),
{
    let lines = head + tail;
    assert forall|i: int| 0 <= i < lines.len() implies (#[trigger] lines[i]).len() <= max by {
        if i < head.len() {
            assert(lines[i] == head[i]);
        } else {
            assert(lines[i] == tail[i - head.len()]);
        }
    }
}

pub(crate) proof fn lemma_full_pieces(word: Seq<char>, from: int, max: int)
    requires
        max > 0,
        0 <= from <= word.len(),
    ensures
        all_short(full_pieces(word, from, max), max),
        from <= last_piece_start(word, from, max) <= word.len(),
        word.len() - last_piece_start(word, from, max) < max,
        joined(full_pieces(word, from, max)) + word.skip(last_piece_start(word, from, max))
            == word.skip(from),
    decreases word.len() - from,
{
    let rest = word.skip(last_piece_start(word, from, max));
    if from + max <= word.len() {
        lemma_full_pieces(word, from + max, max);
        let piece = word.subrange(from, from + max);
        let pieces = full_pieces(word, from + max, max);
        lemma_short_concat(seq![piece], pieces, max);
        lemma_joined_concat(seq![piece], pieces);
        lemma_joined_one(piece);
        assert(piece + word.skip(from + max) =~= word.skip(from));
        assert(joined(full_pieces(word, from, max)) + rest =~= piece + (joined(pieces) + rest));
    } else {
        assert(joined(full_pieces(word, from, max)) =~= Seq::empty());
        assert(joined(full_pieces(word, from, max)) + rest =~= word.skip(from));
    }
}

proof fn lemma_wrapped_is_short(words: Seq<Seq<char>>, index: int, current: Seq<char>, max: int)
    requires
        max > 0,
        0 <= index <= words.len(),
        current.len() <= max,
    ensures
        all_short(wrapped(words, index, current, max), max),
    decreases words.len() - index,
{
    if index < words.len() {
        let word = words[index];
        if word.len() > max {
            lemma_full_pieces(word, 0, max);
            let rest = word.skip(last_piece_start(word, 0, max));
            lemma_wrapped_is_short(words, index + 1, rest, max);
            lemma_short_concat(unless_empty(current), full_pieces(word, 0, max), max);
            lemma_short_concat(
                unless_empty(current) + full_pieces(word, 0, max),
                wrapped(words, index + 1, rest, max),
                max,
            );
        } else if current.len() == 0 {
            lemma_wrapped_is_short(words, index + 1, word, max);
        } else if current.len() + 1 + word.len() <= max {
            lemma_wrapped_is_short(words, index + 1, current.push(' ') + word, max);
        } else {
            lemma_wrapped_is_short(words, index + 1, word, max);
            lemma_short_concat(seq![current], wrapped(words, index + 1, word, max), max);
        }
    }
}

/// Simple word wrap keeps every line within the given number of characters.
pub proof fn wrapped_lines_are_short(paragraphs: Seq<Seq<char>>, max: int)
    requires
        max > 0,
    ensures
        all_short(paragraphs_lines(paragraphs, max), max),
    decreases paragraphs.len(),
{
    if paragraphs.len() > 0 {
        wrapped_lines_are_short(paragraphs.drop_last(), max);
        let words = words_from(paragraphs.last(), 0);
        lemma_wrapped_is_short(words, 0, Seq::empty(), max);
        lemma_short_concat(
            paragraphs_lines(paragraphs.drop_last(), max),
            paragraph_lines(paragraphs.last(), max),
            max,
        );
    }
}

/// A text without its whitespace.
pub open spec fn dense(text: Seq<char>) -> Seq<char>
    decreases text.len(),
{
    if text.len() == 0 {
        Seq::empty()
    } else if white_space(text.last()) {
        dense(text.drop_last())
    } else {
        dense(text.drop_last()).push(text.last())
    }
}

proof fn lemma_dense_concat(head: Seq<char>, tail: Seq<char>)
    ensures
        dense(head + tail) == dense(head) + dense(tail),
    decreases tail.len(),
{
    if tail.len() == 0 {
        assert(head + tail =~= head);
        assert(dense(head) + dense(tail) =~= dense(head));
    } else {
        lemma_dense_concat(head, tail.drop_last());
        assert((head + tail).drop_last() =~= head + tail.drop_last());
        assert(dense(head + tail) =~= dense(head) + dense(tail));
    }
}

proof fn lemma_dense_white(text: Seq<char>)
    requires
        forall|i: int| 0 <= i < text.len() ==> white_space(#[trigger] text[i]),
    ensures
        dense(text) == Seq::<char>::empty(),
    decreases text.len(),
{
    if text.len() > 0 {
        lemma_dense_white(text.drop_last());
    }
}

proof fn lemma_words_are_dense(text: Seq<char>, from: int)
    requires
        0 <= from <= text.len(),
    ensures
        dense(joined(words_from(text, from))) == dense(text.skip(from)),
    decreases text.len() - from,
{
    let start = skip_white(text, from);
    lemma_skip_white(text, from);
    lemma_white_from(text, start);
    let end = white_from(text, start);
    let gap = text.subrange(from, start);
    lemma_dense_white(gap);
    if start < end {
        let word = text.subrange(start, end);
        let rest = words_from(text, end);
        lemma_words_are_dense(text, end);
        lemma_joined_concat(seq![word], rest);
        lemma_joined_one(word);
        lemma_dense_concat(word, joined(rest));
        lemma_dense_concat(gap, word + text.skip(end));
        lemma_dense_concat(word, text.skip(end));
        assert(text.skip(from) =~= gap + (word + text.skip(end)));
        assert(dense(gap) + dense(word + text.skip(end)) =~= dense(word + text.skip(end)));
    } else {
        assert(joined(words_from(text, from)) =~= Seq::empty());
        assert(text.skip(from) =~= gap);
    }
}

proof fn lemma_wrapped_keeps_words(words: Seq<Seq<char>>, index: int, current: Seq<char>, max: int)
    requires
        max > 0,
        0 <= index <= words.len(),
    ensures
        dense(joined(wrapped(words, index, current, max))) == dense(current) + dense(
            joined(words.skip(index)),
        ),
    decreases words.len() - index,
{
    if index >= words.len() {
        assert(words.skip(index) =~= Seq::empty());
        assert(dense(joined(words.skip(index))) =~= Seq::empty());
        if current.len() > 0 {
            lemma_joined_one(current);
        } else {
            assert(joined(unless_empty(current)) =~= Seq::empty());
        }
        assert(dense(current) + Seq::<char>::empty() =~= dense(current));
    } else {
        let word = words[index];
        let later = words.skip(index + 1);
        assert(words.skip(index) =~= seq![word] + later);
        lemma_joined_concat(seq![word], later);
        lemma_joined_one(word);
        lemma_dense_concat(word, joined(later));
        if word.len() > max {
            lemma_full_pieces(word, 0, max);
            let rest = word.skip(last_piece_start(word, 0, max));
            let pieces = full_pieces(word, 0, max);
            let tail = wrapped(words, index + 1, rest, max);
            lemma_wrapped_keeps_words(words, index + 1, rest, max);
            lemma_joined_concat(unless_empty(current) + pieces, tail);
            lemma_joined_concat(unless_empty(current), pieces);
            lemma_dense_concat(joined(unless_empty(current) + pieces), joined(tail));
            lemma_dense_concat(joined(unless_empty(current)), joined(pieces));
            if current.len() > 0 {
                lemma_joined_one(current);
            } else {
                assert(joined(unless_empty(current)) =~= current);
            }
            lemma_dense_concat(joined(pieces), rest);
            assert(word.skip(0) =~= word);
            assert(dense(joined(wrapped(words, index, current, max))) =~= dense(current) + dense(
                joined(words.skip(index)),
            ));
        } else if current.len() == 0 {
            lemma_wrapped_keeps_words(words, index + 1, word, max);
            assert(dense(current) + dense(joined(words.skip(index))) =~= dense(
                joined(words.skip(index)),
            ));
        } else if current.len() + 1 + word.len() <= max {
            let longer = current.push(' ') + word;
            lemma_wrapped_keeps_words(words, index + 1, longer, max);
            lemma_dense_concat(current.push(' '), word);
            assert(current.push(' ').drop_last() =~= current);
            assert(dense(joined(wrapped(words, index, current, max))) =~= dense(current) + dense(
                joined(words.skip(index)),
            ));
        } else {
            let tail = wrapped(words, index + 1, word, max);
            lemma_wrapped_keeps_words(words, index + 1, word, max);
            lemma_joined_concat(seq![current], tail);
            lemma_joined_one(current);
            lemma_dense_concat(current, joined(tail));
            assert(dense(joined(wrapped(words, index, current, max))) =~= dense(current) + dense(
                joined(words.skip(index)),
            ));
        }
    }
}

/// Simple word wrap keeps the words: up to whitespace, the lines are the text.
pub proof fn wrapped_lines_keep_the_words(paragraphs: Seq<Seq<char>>, max: int)
    requires
        max > 0,
    ensures
        dense(joined(paragraphs_lines(paragraphs, max))) == dense(joined(paragraphs)),
    decreases paragraphs.len(),
{
    if paragraphs.len() > 0 {
        let shorter = paragraphs.drop_last();
        let last = paragraphs.last();
        let words = words_from(last, 0);
        wrapped_lines_keep_the_words(shorter, max);
        lemma_joined_concat(paragraphs_lines(shorter, max), paragraph_lines(last, max));
        lemma_dense_concat(
            joined(paragraphs_lines(shorter, max)),
            joined(paragraph_lines(last, max)),
        );
        lemma_dense_concat(joined(shorter), last);
        lemma_words_are_dense(last, 0);
        assert(last.skip(0) =~= last);
        if words.len() == 0 {
            lemma_joined_one(Seq::empty());
            assert(joined(words) =~= Seq::empty());
        } else {
            lemma_wrapped_keeps_words(words, 0, Seq::empty(), max);
            assert(words.skip(0) =~= words);
            assert(dense(Seq::empty()) + dense(joined(words)) =~= dense(joined(words)));
        }
    }
}

} // verus!
