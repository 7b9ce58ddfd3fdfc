//! GPU text layout -- maps line-breaking output to GPU glyph instances.
//!
//! This module bridges the layout engine with GPU text rendering pipelines
//! like SDF-based text systems. It converts layout results into per-glyph
//! position data ready for upload to a GPU instance buffer.
use crate::analysis::{normalize_whitespace, with_newlines};
use crate::backend::font::{parsed_font, positive, rejects_font};
use crate::backend::{FontSpec, FontView, MeasureBackend};
use crate::error::Error;
use crate::inline_flow::rich_outcome;
use crate::layout::{invalid_max_width, layout_with_lines, line_text, materializes};
use crate::line_break::{fit_limit, walked_lines};
use crate::line_laws::as_range;
use crate::prepare::{byte_count, prepare_with_segments};
use crate::scalar::{is_measure, nonnegative, Coordinate, Scalar, Widen};
use crate::segmentation::{grapheme_clusters, graphemes};
use crate::text::{chars_of, find_whitespace, skip_white, skip_whitespace, slice_of, views, white_from};
use crate::types::{
    invalid_profile, LayoutLine, PrepareOptions, RichText, WhiteSpaceMode, DEFAULT_MAX_GRAPHEMES,
    DEFAULT_MAX_INPUT_BYTES, DEFAULT_MAX_SEGMENTS,
};
use vstd::prelude::*;

verus! {

/// Default maximum number of GPU glyph instances emitted by one layout call.
pub const DEFAULT_MAX_GPU_GLYPHS: usize = 65_536;

/// The size of one glyph instance of sixteen four-byte coordinates.
pub const GLYPH_INSTANCE_BYTES: usize = 64;

// ---- Atlas ------------------------------------------------------------------------------

/// A glyph atlas descriptor -- maps characters to UV coordinates.
#[derive(Debug, Clone, Copy)]
pub struct GlyphAtlas {
    /// Atlas texture size in texels (square).
    atlas_size: u32,
    /// Size of each glyph cell in texels.
    glyph_size: u32,
    /// Number of glyph columns per atlas row.
    glyphs_per_row: u32,
    /// First character code in the atlas.
    first_char: u32,
    /// One past the last character code.
    last_char: u32,
}

/// An atlas descriptor as a value.
pub struct AtlasView {
    pub atlas_size: u32,
    pub glyph_size: u32,
    pub glyphs_per_row: u32,
    pub first_char: u32,
    pub last_char: u32,
}

impl View for GlyphAtlas {
    type V = AtlasView;

    closed spec fn view(&self) -> AtlasView {
        AtlasView {
            atlas_size: self.atlas_size,
            glyph_size: self.glyph_size,
            glyphs_per_row: self.glyphs_per_row,
            first_char: self.first_char,
            last_char: self.last_char,
        }
    }
}

/// The number of printable ASCII characters.
pub const PRINTABLE_ASCII: u32 = 95;

/// The rows that so many glyphs per row take for printable ASCII.
pub open spec fn rows_needed(glyphs_per_row: u32) -> int {
    (PRINTABLE_ASCII + glyphs_per_row - 1) / glyphs_per_row as int
}

/// An atlas of printable ASCII.
pub open spec fn ascii_atlas(atlas_size: u32, glyph_size: u32, glyphs_per_row: u32) -> AtlasView {
    AtlasView { atlas_size, glyph_size, glyphs_per_row, first_char: 32, last_char: 127 }
}

/// The error for atlas dimensions.
pub open spec fn invalid_atlas(error: Error, reason: Seq<char>) -> bool {
    error.rejects("glyph atlas dimensions"@, reason)
}

impl AtlasView {
    /// Whether the atlas holds a character.
    pub open spec fn holds(self, c: char) -> bool {
        self.first_char <= c as u32 && (c as u32) < self.last_char
    }

    /// The side of a cell as a part of the texture.
    pub open spec fn cell<G: Scalar>(self) -> G {
        G::ratio_value(self.glyph_size as nat, self.atlas_size as nat)
    }

    /// The corner of a character's cell that is closest to the origin.
    pub open spec fn cell_min<G: Scalar>(self, code: u32) -> (G, G) {
        let index = code - self.first_char;
        (
            G::ratio_value((index % self.glyphs_per_row as int) as nat, 1).times(self.cell()),
            G::ratio_value((index / self.glyphs_per_row as int) as nat, 1).times(self.cell()),
        )
    }

    /// The corner of a character's cell that is farthest from the origin.
    pub open spec fn cell_max<G: Scalar>(self, code: u32) -> (G, G) {
        let (x, y) = self.cell_min::<G>(code);
        (x.plus(self.cell()), y.plus(self.cell()))
    }
}

impl GlyphAtlas {
    /// No dimension is zero.
    #[verifier::type_invariant]
    closed spec fn has_cells(self) -> bool {
        self.atlas_size > 0 && self.glyphs_per_row > 0
    }

    /// Create an atlas descriptor for an ASCII SDF atlas.
    ///
    /// Default: 1024x1024 texture, 64x64 cells, 16 glyphs per row,
    /// ASCII 32-126.
    ///
    /// # Errors
    ///
    /// Returns an error when the atlas dimensions are zero or cannot contain
    /// the complete printable ASCII range.
    pub fn ascii_sdf(atlas_size: u32, glyph_size: u32, glyphs_per_row: u32) -> (r: Result<
        Self,
        Error,
    >)
        ensures
            if atlas_size == 0 || glyph_size == 0 || glyphs_per_row == 0 {
                r matches Err(error) && invalid_atlas(
                    error,
                    "atlas_size, glyph_size, and glyphs_per_row must be non-zero"@,
                )
            } else if glyphs_per_row > atlas_size as int / glyph_size as int {
                r matches Err(error) && invalid_atlas(
                    error,
                    "glyph cells do not fit within the atlas width"@,
                )
            } else if rows_needed(glyphs_per_row) > atlas_size as int / glyph_size as int {
                r matches Err(error) && invalid_atlas(
                    error,
                    "atlas does not contain enough cells for printable ASCII"@,
                )
            } else {
                r matches Ok(atlas) && atlas@ == ascii_atlas(
                    atlas_size,
                    glyph_size,
                    glyphs_per_row,
                )
            },
    {
        if atlas_size == 0 || glyph_size == 0 || glyphs_per_row == 0 {
            return Err(
                Error::invalid_input(
                    "glyph atlas dimensions",
                    "atlas_size, glyph_size, and glyphs_per_row must be non-zero",
                ),
            );
        }
        let cells_per_axis: u32 = atlas_size / glyph_size;
        if glyphs_per_row > cells_per_axis {
            return Err(
                Error::invalid_input(
                    "glyph atlas dimensions",
                    "glyph cells do not fit within the atlas width",
                ),
            );
        }
        let required_rows: u64 = (PRINTABLE_ASCII as u64 + glyphs_per_row as u64 - 1)
            / glyphs_per_row as u64;
        if required_rows > cells_per_axis as u64 {
            return Err(
                Error::invalid_input(
                    "glyph atlas dimensions",
                    "atlas does not contain enough cells for printable ASCII",
                ),
            );
        }
        Ok(GlyphAtlas { atlas_size, glyph_size, glyphs_per_row, first_char: 32, last_char: 127 })
    }

    /// Default atlas (1024x1024, 64px cells, 16 per row, ASCII).
    #[must_use]
    pub fn default_ascii() -> (r: Self)
        ensures
            r@ == ascii_atlas(1024, 64, 16),
    {
        GlyphAtlas {
            atlas_size: 1024,
            glyph_size: 64,
            glyphs_per_row: 16,
            first_char: 32,
            last_char: 127,
        }
    }

    /// Atlas texture size in texels.
    #[must_use]
    pub fn atlas_size(&self) -> (r: u32)
        ensures
            r == self@.atlas_size,
    {
        self.atlas_size
    }

    /// Glyph cell size in texels.
    #[must_use]
    pub fn glyph_size(&self) -> (r: u32)
        ensures
            r == self@.glyph_size,
    {
        self.glyph_size
    }

    /// Number of glyph cells per row.
    #[must_use]
    pub fn glyphs_per_row(&self) -> (r: u32)
        ensures
            r == self@.glyphs_per_row,
    {
        self.glyphs_per_row
    }

    /// Inclusive first character code stored in the atlas.
    #[must_use]
    pub fn first_char(&self) -> (r: u32)
        ensures
            r == self@.first_char,
    {
        self.first_char
    }

    /// Exclusive last character code stored in the atlas.
    #[must_use]
    pub fn last_char(&self) -> (r: u32)
        ensures
            r == self@.last_char,
    {
        self.last_char
    }

    /// Get UV coordinates for a character code.
    ///
    /// Returns `(uv_min, uv_max)` or `None` if the character is out of range.
    pub fn char_uvs<G: Scalar>(&self, code: u32) -> (r: Option<([G; 2], [G; 2])>)
        ensures
            r is Some <==> self@.first_char <= code < self@.last_char,
            r matches Some((uv_min, uv_max)) ==> {
                &&& (uv_min@[0], uv_min@[1]) == self@.cell_min::<G>(code)
                &&& (uv_max@[0], uv_max@[1]) == self@.cell_max::<G>(code)
            },
    {
        if code < self.first_char || code >= self.last_char {
            return None;
        }
        proof {
            use_type_invariant(self);
        }
        let index: u32 = code - self.first_char;
        let column: u32 = index % self.glyphs_per_row;
        let row: u32 = index / self.glyphs_per_row;
        let cell = G::ratio(self.glyph_size as usize, self.atlas_size as usize);
        let x = G::ratio(column as usize, 1).mul(cell);
        let y = G::ratio(row as usize, 1).mul(cell);
        Some(([x, y], [x.add(cell), y.add(cell)]))
    }
}

// ---- Configuration ------------------------------------------------------------------------

/// Per-glyph instance data for GPU rendering.
///
/// Sixteen coordinates, in this order. If your GPU pipeline requires a fixed
/// representation or a marker trait such as `Pod`, map or wrap this value in
/// the downstream renderer where that dependency is owned.
#[derive(Debug, Clone, Copy)]
pub struct GlyphInstance<G> {
    /// World-space anchor position of the label.
    pub world_pos: [G; 3],
    /// World-space height of a single glyph quad.
    pub font_size: G,
    /// Per-glyph X/Y offset from the label anchor (in `font_size` units).
    pub glyph_offset: [G; 2],
    /// Top-left UV coordinate of this glyph's cell in the atlas.
    pub atlas_uv_min: [G; 2],
    /// Bottom-right UV coordinate.
    pub atlas_uv_max: [G; 2],
    /// RGBA color (linear).
    pub color: [G; 4],
    /// Padding.
    pub pad: [G; 2],
}

/// Horizontal text alignment.
#[derive(Debug, Clone, Copy, PartialEq, Eq, Structural)]
pub enum TextAlign {
    /// Anchor the first glyph at the label origin.
    Left,
    /// Center each line around the label origin.
    Center,
    /// End each line at the label origin.
    Right,
}

impl Default for TextAlign {
    fn default() -> (r: Self)
        ensures
            r == TextAlign::Left,
    {
        TextAlign::Left
    }
}

/// Vertical text alignment for multi-line labels.
#[derive(Debug, Clone, Copy, PartialEq, Eq, Structural)]
pub enum VerticalAlign {
    /// Anchor is at the top of the first line.
    Top,
    /// Anchor is at the vertical center.
    Center,
    /// Anchor is at the bottom of the last line.
    Bottom,
}

impl Default for VerticalAlign {
    fn default() -> (r: Self)
        ensures
            r == VerticalAlign::Top,
    {
        VerticalAlign::Top
    }
}

/// Configuration for GPU text layout.
#[derive(Debug, Clone, Copy)]
pub struct TextLayoutConfig<G> {
    /// Horizontal alignment. Default: Left.
    pub align: TextAlign,
    /// Vertical alignment. Default: Top.
    pub vertical_align: VerticalAlign,
    /// Horizontal advance between adjacent glyphs (in `font_size` units).
    /// Default: 0.6 (condensed spacing).
    pub glyph_advance: G,
    /// Vertical spacing between lines (in `font_size` units).
    /// Default: 1.4 (comfortable reading spacing).
    pub line_spacing: G,
    /// Maximum width in world units. `None` = no wrapping (single line).
    pub max_width: Option<G>,
    /// Maximum number of [`GlyphInstance`] values emitted by one layout call.
    ///
    /// The default is [`DEFAULT_MAX_GPU_GLYPHS`] (a 4 MiB instance buffer).
    /// Set this to zero to permit only layouts that emit no glyphs.
    pub max_glyphs: usize,
}

impl<G: Scalar> Default for TextLayoutConfig<G> {
    fn default() -> (r: Self)
        ensures
            r == (TextLayoutConfig {
                align: TextAlign::Left,
                vertical_align: VerticalAlign::Top,
                glyph_advance: G::ratio_value(6, 10),
                line_spacing: G::ratio_value(14, 10),
                max_width: None,
                max_glyphs: DEFAULT_MAX_GPU_GLYPHS,
            }),
    {
        TextLayoutConfig {
            align: TextAlign::Left,
            vertical_align: VerticalAlign::Top,
            glyph_advance: G::ratio(6, 10),
            line_spacing: G::ratio(14, 10),
            max_width: None,
            max_glyphs: DEFAULT_MAX_GPU_GLYPHS,
        }
    }
}

// ---- Hard breaks and word wrap ---------------------------------------------------------------

/// Whether a character is a hard line break.
pub open spec fn hard_line_break(c: char) -> bool {
    c == '\n' || c == '\r' || c == '\u{000C}'
}

fn is_hard_line_break(character: char) -> (r: bool)
    ensures
        r == hard_line_break(character),
{
    matches!(character, '\n' | '\r' | '\u{000C}')
}

/// The first `\n` from `from` on, or the length.
pub open spec fn next_newline(text: Seq<char>, from: int) -> int
    decreases text.len() - from,
{
    if from >= text.len() {
        text.len() as int
    } else if text[from] == '\n' {
        from
    } else {
        next_newline(text, from + 1)
    }
}

/// The lines of a text from `from` on, cut at each `\n`.
pub open spec fn newline_split(text: Seq<char>, from: int) -> Seq<Seq<char>>
    decreases text.len() - from,
{
    let end = next_newline(text, from);
    if 0 <= from <= end < text.len() {
        seq![text.subrange(from, end)] + newline_split(text, end + 1)
    } else {
        seq![text.subrange(from, text.len() as int)]
    }
}

/// The lines of a text between its hard breaks.
pub open spec fn hard_break_lines(text: Seq<char>) -> Seq<Seq<char>> {
    newline_split(with_newlines(text), 0)
}

/// Character vectors as sequences.
pub open spec fn char_lines(lines: Seq<Vec<char>>) -> Seq<Seq<char>> {
    lines.map_values(|line: Vec<char>| line@)
}

proof fn lemma_next_newline(text: Seq<char>, from: int)
    requires
        0 <= from <= text.len(),
    ensures
        from <= next_newline(text, from) <= text.len(),
    decreases text.len() - from,
{
    if from < text.len() && text[from] != '\n' {
        lemma_next_newline(text, from + 1);
    }
}

/// Split text into the lines between its hard breaks.
pub fn split_hard_break_lines(text: &str) -> (r: Vec<Vec<char>>)
    ensures
        char_lines(r@) == hard_break_lines(text@),
{
    let normalized = chars_of(normalize_whitespace(text, WhiteSpaceMode::PreWrap).as_str());
    let ghost all = newline_split(normalized@, 0);
    let mut lines: Vec<Vec<char>> = Vec::new();
    let mut from: usize = 0;
    let mut index: usize = 0;
    proof {
        assert(char_lines(lines@) + all =~= all);
    }
    while index < normalized.len()
        invariant
            from <= index <= normalized@.len(),
            all == newline_split(normalized@, 0),
            next_newline(normalized@, from as int) == next_newline(normalized@, index as int),
            all == char_lines(lines@) + newline_split(normalized@, from as int),
        decreases normalized@.len() - index,
    {
        if normalized[index] == '\n' {
            let ghost before = char_lines(lines@);
            let line = slice_of(&normalized, from, index);
            let ghost shown = line@;
            lines.push(line);
            proof {
                let rest = newline_split(normalized@, index + 1);
                assert(char_lines(lines@) =~= before.push(shown));
                assert(before + (seq![shown] + rest) =~= char_lines(lines@) + rest);
            }
            from = index + 1;
        }
        index += 1;
    }
    let ghost before = char_lines(lines@);
    let line = slice_of(&normalized, from, normalized.len());
    let ghost shown = line@;
    lines.push(line);
    proof {
        assert(char_lines(lines@) =~= before.push(shown));
        assert(before.push(shown) =~= before + seq![shown]);
    }
    lines
}

/// The words of a text from `from` on, cut at whitespace.
pub open spec fn words_from(text: Seq<char>, from: int) -> Seq<Seq<char>>
    decreases text.len() - from,
{
    let start = skip_white(text, from);
    let end = white_from(text, start);
    if 0 <= from <= start < end <= text.len() {
        seq![text.subrange(start, end)] + words_from(text, end)
    } else {
        Seq::empty()
    }
}

/// The pieces of a word from `from` on that fill a line of `max` characters.
pub open spec fn full_pieces(word: Seq<char>, from: int, max: int) -> Seq<Seq<char>>
    decreases word.len() - from,
{
    if max > 0 && 0 <= from && from + max <= word.len() {
        seq![word.subrange(from, from + max)] + full_pieces(word, from + max, max)
    } else {
        Seq::empty()
    }
}

/// Where the piece of a word that does not fill a line starts.
pub open spec fn last_piece_start(word: Seq<char>, from: int, max: int) -> int
    decreases word.len() - from,
{
    if max > 0 && 0 <= from && from + max <= word.len() {
        last_piece_start(word, from + max, max)
    } else {
        from
    }
}

/// A line as a list, unless it is empty.
pub open spec fn unless_empty(line: Seq<char>) -> Seq<Seq<char>> {
    if line.len() == 0 {
        Seq::empty()
    } else {
        seq![line]
    }
}

/// The lines of words from `index` on, where `current` is the line so far:
/// words share a line up to `max` characters, a longer word is cut into lines.
pub open spec fn wrapped(words: Seq<Seq<char>>, index: int, current: Seq<char>, max: int) -> Seq<
    Seq<char>,
>
    decreases words.len() - index,
{
    if index < 0 || index >= words.len() {
        unless_empty(current)
    } else {
        let word = words[index];
        if word.len() > max {
            unless_empty(current) + full_pieces(word, 0, max) + wrapped(
                words,
                index + 1,
                word.skip(last_piece_start(word, 0, max)),
                max,
            )
        } else if current.len() == 0 {
            wrapped(words, index + 1, word, max)
        } else if current.len() + 1 + word.len() <= max {
            wrapped(words, index + 1, current.push(' ') + word, max)
        } else {
            seq![current] + wrapped(words, index + 1, word, max)
        }
    }
}

/// The lines of a paragraph, one empty line where it holds no word.
pub open spec fn paragraph_lines(paragraph: Seq<char>, max: int) -> Seq<Seq<char>> {
    let words = words_from(paragraph, 0);
    if words.len() == 0 {
        seq![Seq::empty()]
    } else {
        wrapped(words, 0, Seq::empty(), max)
    }
}

/// The lines of paragraphs.
pub open spec fn paragraphs_lines(paragraphs: Seq<Seq<char>>, max: int) -> Seq<Seq<char>>
    decreases paragraphs.len(),
{
    if paragraphs.len() == 0 {
        Seq::empty()
    } else {
        paragraphs_lines(paragraphs.drop_last(), max) + paragraph_lines(paragraphs.last(), max)
    }
}

/// Split characters into words.
fn split_words(chars: &Vec<char>) -> (r: Vec<Vec<char>>)
    ensures
        char_lines(r@) == words_from(chars@, 0),
{
    let ghost all = words_from(chars@, 0);
    let mut words: Vec<Vec<char>> = Vec::new();
    let mut from: usize = 0;
    proof {
        assert(char_lines(words@) + all =~= all);
    }
    loop
        invariant
            from <= chars@.len(),
            all == words_from(chars@, 0),
            all == char_lines(words@) + words_from(chars@, from as int),
        decreases chars@.len() - from,
    {
        let start = skip_whitespace(chars, from);
        let end = find_whitespace(chars, start);
        if start == end {
            proof {
                assert(words_from(chars@, from as int) =~= Seq::empty());
                assert(char_lines(words@) + Seq::<Seq<char>>::empty() =~= char_lines(words@));
            }
            return words;
        }
        let ghost before = char_lines(words@);
        let word = slice_of(chars, start, end);
        let ghost shown = word@;
        words.push(word);
        proof {
            let rest = words_from(chars@, end as int);
            assert(char_lines(words@) =~= before.push(shown));
            assert(before + (seq![shown] + rest) =~= char_lines(words@) + rest);
        }
        from = end;
    }
}

/// Append the pieces of a word that fill a line. Returns where the rest starts.
fn push_full_pieces(word: &Vec<char>, max: usize, lines: &mut Vec<Vec<char>>) -> (r: usize)
    requires
        max > 0,
    ensures
        r == last_piece_start(word@, 0, max as int),
        r <= word@.len(),
        char_lines(final(lines)@) == char_lines(old(lines)@) + full_pieces(word@, 0, max as int),
{
    let ghost start = char_lines(lines@);
    let ghost all = full_pieces(word@, 0, max as int);
    let mut from: usize = 0;
    while word.len() - from >= max
        invariant
            max > 0,
            from <= word@.len(),
            all == full_pieces(word@, 0, max as int),
            last_piece_start(word@, 0, max as int) == last_piece_start(
                word@,
                from as int,
                max as int,
            ),
            start + all == char_lines(lines@) + full_pieces(word@, from as int, max as int),
        decreases word@.len() - from,
    {
        let ghost before = char_lines(lines@);
        let piece = slice_of(word, from, from + max);
        let ghost shown = piece@;
        lines.push(piece);
        proof {
            let rest = full_pieces(word@, from + max, max as int);
            assert(char_lines(lines@) =~= before.push(shown));
            assert(before + (seq![shown] + rest) =~= char_lines(lines@) + rest);
        }
        from = from + max;
    }
    proof {
        assert(char_lines(lines@) + Seq::<Seq<char>>::empty() =~= char_lines(lines@));
    }
    from
}

/// Append a line, unless it is empty.
fn push_unless_empty(line: Vec<char>, lines: &mut Vec<Vec<char>>)
    ensures
        char_lines(final(lines)@) == char_lines(old(lines)@) + unless_empty(line@),
{
    let ghost before = char_lines(lines@);
    let ghost shown = line@;
    if line.len() > 0 {
        lines.push(line);
    }
    proof {
        assert(char_lines(lines@) =~= before + unless_empty(shown));
    }
}

/// Append the lines of words.
fn wrap_words(words: &Vec<Vec<char>>, max: usize, lines: &mut Vec<Vec<char>>)
    requires
        max > 0,
    ensures
        char_lines(final(lines)@) == char_lines(old(lines)@) + wrapped(
            char_lines(words@),
            0,
            Seq::empty(),
            max as int,
        ),
{
    let ghost start = char_lines(lines@);
    let ghost all_words = char_lines(words@);
    let ghost all = wrapped(all_words, 0, Seq::empty(), max as int);
    let mut current: Vec<char> = Vec::new();
    let mut index: usize = 0;
    proof {
        assert(current@ =~= Seq::empty());
    }
    while index < words.len()
        invariant
            max > 0,
            index <= words@.len(),
            all_words == char_lines(words@),
            all == wrapped(all_words, 0, Seq::empty(), max as int),
            start + all == char_lines(lines@) + wrapped(
                all_words,
                index as int,
                current@,
                max as int,
            ),
        decreases words@.len() - index,
    {
        let word = &words[index];
        let ghost before = char_lines(lines@);
        let ghost line = current@;
        proof {
            assert(all_words[index as int] == word@);
        }
        if word.len() > max {
            push_unless_empty(current, lines);
            let rest_start = push_full_pieces(word, max, lines);
            current = slice_of(word, rest_start, word.len());
            proof {
                assert(current@ =~= word@.skip(rest_start as int));
                let rest = wrapped(all_words, index + 1, current@, max as int);
                assert(before + (unless_empty(line) + full_pieces(word@, 0, max as int) + rest)
                    =~= char_lines(lines@) + rest);
            }
        } else if current.len() == 0 {
            current = slice_of(word, 0, word.len());
            proof {
                assert(current@ =~= word@);
            }
        } else if current.len() < max && word.len() <= max - current.len() - 1 {
            current.push(' ');
            let mut position: usize = 0;
            let ghost spaced = current@;
            while position < word.len()
                invariant
                    position <= word@.len(),
                    current@ == spaced + word@.take(position as int),
                decreases word@.len() - position,
            {
                current.push(word[position]);
                position += 1;
                proof {
                    assert(current@ =~= spaced + word@.take(position as int));
                }
            }
            proof {
                assert(current@ =~= line.push(' ') + word@);
            }
        } else {
            lines.push(current);
            current = slice_of(word, 0, word.len());
            proof {
                assert(current@ =~= word@);
                let rest = wrapped(all_words, index + 1, current@, max as int);
                assert(char_lines(lines@) =~= before.push(line));
                assert(before + (seq![line] + rest) =~= char_lines(lines@) + rest);
            }
        }
        index += 1;
    }
    push_unless_empty(current, lines);
}

// ---- Limits -----------------------------------------------------------------------------------

/// Whether so many glyphs can be emitted.
pub open spec fn buffer_fits(glyphs: nat, max_glyphs: usize) -> bool {
    glyphs <= max_glyphs && glyphs * GLYPH_INSTANCE_BYTES <= isize::MAX
}

/// Whether `error` says that so many glyphs cannot be emitted.
pub open spec fn buffer_fault(glyphs: nat, max_glyphs: usize, error: Error) -> bool {
    let bytes = glyphs * GLYPH_INSTANCE_BYTES;
    if bytes > usize::MAX {
        error matches Error::ArithmeticOverflow { operation } && operation@
            == "calculating GPU glyph instance buffer bytes"@
    } else {
        error matches Error::ResourceLimit { resource, requested_bytes, max_bytes } && resource@
            == "GPU glyph instance buffer"@ && requested_bytes == bytes && max_bytes == if glyphs
            > max_glyphs {
            max_glyphs * GLYPH_INSTANCE_BYTES
        } else {
            isize::MAX as int
        }
    }
}

fn glyph_buffer_bytes(glyph_count: usize) -> (r: Result<usize, Error>)
    ensures
        match r {
            Ok(bytes) => bytes == glyph_count * GLYPH_INSTANCE_BYTES,
            Err(error) => glyph_count * GLYPH_INSTANCE_BYTES > usize::MAX && (
            error matches Error::ArithmeticOverflow { operation } && operation@
                == "calculating GPU glyph instance buffer bytes"@),
        },
{
    match glyph_count.checked_mul(GLYPH_INSTANCE_BYTES) {
        Some(bytes) => Ok(bytes),
        None => Err(
            Error::ArithmeticOverflow { operation: "calculating GPU glyph instance buffer bytes" },
        ),
    }
}

fn validate_glyph_buffer_capacity(glyph_count: usize, max_glyphs: usize) -> (r: Result<
    usize,
    Error,
>)
    ensures
        match r {
            Ok(bytes) => buffer_fits(glyph_count as nat, max_glyphs) && bytes == glyph_count
                * GLYPH_INSTANCE_BYTES,
            Err(error) => !buffer_fits(glyph_count as nat, max_glyphs) && buffer_fault(
                glyph_count as nat,
                max_glyphs,
                error,
            ),
        },
{
    let requested_bytes = match glyph_buffer_bytes(glyph_count) {
        Ok(bytes) => bytes,
        Err(error) => {
            return Err(error);
        },
    };
    if glyph_count > max_glyphs {
        return match glyph_buffer_bytes(max_glyphs) {
            Ok(max_bytes) => Err(
                Error::ResourceLimit {
                    resource: "GPU glyph instance buffer",
                    requested_bytes,
                    max_bytes,
                },
            ),
            Err(error) => Err(error),
        };
    }
    let addressable_bytes: usize = isize::MAX as usize;
    if requested_bytes > addressable_bytes {
        return Err(
            Error::ResourceLimit {
                resource: "GPU glyph instance buffer",
                requested_bytes,
                max_bytes: addressable_bytes,
            },
        );
    }
    Ok(requested_bytes)
}

/// Whether a text is within the limits.
pub open spec fn gpu_text_fits(text: Seq<char>) -> bool {
    byte_count(text) <= DEFAULT_MAX_INPUT_BYTES && grapheme_clusters(text).len()
        <= DEFAULT_MAX_GRAPHEMES
}

/// Whether `error` says that a text is not within the limits.
pub open spec fn gpu_text_fault(text: Seq<char>, error: Error) -> bool {
    if byte_count(text) > DEFAULT_MAX_INPUT_BYTES {
        error == (Error::InputTooLarge {
            bytes: byte_count(text),
            max_bytes: DEFAULT_MAX_INPUT_BYTES,
        })
    } else {
        error.exceeds(
            "GPU layout graphemes"@,
            grapheme_clusters(text).len(),
            DEFAULT_MAX_GRAPHEMES as nat,
        )
    }
}

fn validate_text_input(text: &str) -> (r: Result<(), Error>)
    ensures
        match r {
            Ok(()) => gpu_text_fits(text@),
            Err(error) => !gpu_text_fits(text@) && gpu_text_fault(text@, error),
        },
{
    let bytes: usize = text.len();
    if bytes > DEFAULT_MAX_INPUT_BYTES {
        return Err(Error::InputTooLarge { bytes, max_bytes: DEFAULT_MAX_INPUT_BYTES });
    }
    let clusters = graphemes(text);
    proof {
        assert(views(clusters@).len() == clusters@.len());
    }
    if clusters.len() > DEFAULT_MAX_GRAPHEMES {
        return Err(
            Error::InputComplexity {
                resource: "GPU layout graphemes",
                units: clusters.len(),
                max_units: DEFAULT_MAX_GRAPHEMES,
            },
        );
    }
    Ok(())
}

/// Whether every value is finite.
pub open spec fn all_finite<G: Scalar>(values: Seq<G>) -> bool {
    forall|i: int| 0 <= i < values.len() ==> (#[trigger] values[i]).finite()
}

/// Whether a label can be laid out: its anchor, its color and its size, and the
/// spacing and width of its configuration.
pub open spec fn label_valid<G: Scalar>(
    anchor: Anchor<G>,
    config: TextLayoutConfig<G>,
) -> bool {
    &&& all_finite(anchor.world_pos)
    &&& all_finite(anchor.color)
    &&& positive(anchor.font_size)
    &&& positive(config.line_spacing)
    &&& config.max_width matches Some(width) ==> positive(width)
}

/// Whether `error` rejects a label that cannot be laid out.
pub open spec fn label_fault<G: Scalar>(
    anchor: Anchor<G>,
    config: TextLayoutConfig<G>,
    error: Error,
) -> bool {
    if !all_finite(anchor.world_pos) {
        error.rejects("world_pos"@, "all coordinates must be finite"@)
    } else if !all_finite(anchor.color) {
        error.rejects("color"@, "all channels must be finite"@)
    } else if !positive(anchor.font_size) {
        error.rejects("font_size"@, "must be finite and greater than zero"@)
    } else if !positive(config.line_spacing) {
        error.rejects("config.line_spacing"@, "must be finite and greater than zero"@)
    } else {
        error.rejects(
            "config.max_width"@,
            "must be finite and greater than zero when provided"@,
        )
    }
}

/// The error for an advance that is not finite and positive.
pub open spec fn invalid_advance(error: Error) -> bool {
    error.rejects("config.glyph_advance"@, "must be finite and greater than zero"@)
}

fn is_positive<G: Scalar>(value: G) -> (r: bool)
    ensures
        r == positive(value),
{
    value.is_finite() && G::zero().lt(value)
}

fn validate_layout_inputs<G: Scalar>(
    world_pos: [G; 3],
    font_size: G,
    color: [G; 4],
    config: &TextLayoutConfig<G>,
) -> (r: Result<(), Error>)
    ensures
        ({
            let anchor = Anchor { world_pos: world_pos@, font_size, color: color@ };
            match r {
                Ok(()) => label_valid(anchor, *config),
                Err(error) => !label_valid(anchor, *config) && label_fault(anchor, *config, error),
            }
        }),
{
    if !(world_pos[0].is_finite() && world_pos[1].is_finite() && world_pos[2].is_finite()) {
        proof {
            assert(!(world_pos@[0].finite() && world_pos@[1].finite() && world_pos@[2].finite()));
        }
        return Err(Error::invalid_input("world_pos", "all coordinates must be finite"));
    }
    if !(color[0].is_finite() && color[1].is_finite() && color[2].is_finite()
        && color[3].is_finite()) {
        proof {
            assert(!(color@[0].finite() && color@[1].finite() && color@[2].finite()
                && color@[3].finite()));
        }
        return Err(Error::invalid_input("color", "all channels must be finite"));
    }
    if !is_positive(font_size) {
        return Err(Error::invalid_input("font_size", "must be finite and greater than zero"));
    }
    if !is_positive(config.line_spacing) {
        return Err(
            Error::invalid_input("config.line_spacing", "must be finite and greater than zero"),
        );
    }
    if let Some(width) = config.max_width {
        if !is_positive(width) {
            return Err(
                Error::invalid_input(
                    "config.max_width",
                    "must be finite and greater than zero when provided",
                ),
            );
        }
    }
    Ok(())
}

fn validate_fixed_glyph_advance<G: Scalar>(config: &TextLayoutConfig<G>) -> (r: Result<(), Error>)
    ensures
        r is Ok <==> positive(config.glyph_advance),
        r matches Err(error) ==> invalid_advance(error),
{
    if is_positive(config.glyph_advance) {
        Ok(())
    } else {
        Err(Error::invalid_input("config.glyph_advance", "must be finite and greater than zero"))
    }
}

fn validate_derived_geometry<G: Scalar>(parameter: &'static str, value: G) -> (r: Result<
    (),
    Error,
>)
    ensures
        r is Ok <==> value.finite(),
        r matches Err(error) ==> fault_error(GpuFault::Geometry(parameter@), error),
{
    if value.is_finite() {
        Ok(())
    } else {
        Err(Error::invalid_input(parameter, "derived value is not finite"))
    }
}

// ---- Placing glyphs ------------------------------------------------------------------------------

/// Where a label stands, how large it is, and its color.
pub struct Anchor<G> {
    pub world_pos: Seq<G>,
    pub font_size: G,
    pub color: Seq<G>,
}

/// A glyph instance as a value.
pub struct Glyph<G> {
    pub anchor: Anchor<G>,
    pub x: G,
    pub y: G,
    pub uv_min: (G, G),
    pub uv_max: (G, G),
    pub pad: Seq<G>,
}

impl<G> View for GlyphInstance<G> {
    type V = Glyph<G>;

    open spec fn view(&self) -> Glyph<G> {
        Glyph {
            anchor: Anchor {
                world_pos: self.world_pos@,
                font_size: self.font_size,
                color: self.color@,
            },
            x: self.glyph_offset@[0],
            y: self.glyph_offset@[1],
            uv_min: (self.atlas_uv_min@[0], self.atlas_uv_min@[1]),
            uv_max: (self.atlas_uv_max@[0], self.atlas_uv_max@[1]),
            pad: self.pad@,
        }
    }
}

/// Glyph instances as values.
pub open spec fn glyphs_of<G>(instances: Seq<GlyphInstance<G>>) -> Seq<Glyph<G>> {
    instances.map_values(|instance: GlyphInstance<G>| instance@)
}

/// What keeps a glyph from being placed.
pub enum GpuFault {
    /// A derived value of this name is not finite.
    Geometry(Seq<char>),
    /// The atlas does not hold the character.
    Unsupported(char),
    /// An advance is negative or not finite.
    Advance,
    /// More glyphs than can be counted in this operation.
    Uncountable(Seq<char>),
}

/// The error for a fault.
pub open spec fn fault_error(fault: GpuFault, error: Error) -> bool {
    match fault {
        GpuFault::Geometry(parameter) => error.rejects(parameter, "derived value is not finite"@),
        GpuFault::Unsupported(character) => error == (Error::UnsupportedGlyph {
            character,
            codepoint: character as u32,
        }),
        GpuFault::Advance => error.rejects(
            "glyph advance"@,
            "callback values must be finite and non-negative"@,
        ),
        GpuFault::Uncountable(operation) => error matches Error::ArithmeticOverflow {
            operation: o,
        } && o@ == operation,
    }
}

/// The glyph for a character that the atlas holds, at an offset.
pub open spec fn glyph_at<G: Scalar>(
    atlas: AtlasView,
    anchor: Anchor<G>,
    c: char,
    x: G,
    y: G,
) -> Glyph<G> {
    Glyph {
        anchor,
        x,
        y,
        uv_min: atlas.cell_min(c as u32),
        uv_max: atlas.cell_max(c as u32),
        pad: seq![G::zero_value(), G::zero_value()],
    }
}

/// One half.
pub open spec fn half<G: Scalar>() -> G {
    G::ratio_value(1, 2)
}

/// Where a line of some width starts.
pub open spec fn line_start<G: Coordinate>(align: TextAlign, width: G) -> G {
    match align {
        TextAlign::Left => G::zero_value(),
        TextAlign::Center => width.negated().times(half()),
        TextAlign::Right => width.negated(),
    }
}

/// The center of the cell at `index` of a line with equal advances.
pub open spec fn fixed_offset<G: Coordinate>(index: nat, advance: G, start: G) -> G {
    advance.fused(half(), G::ratio_value(index, 1).fused(advance, start))
}

/// The first `count` glyphs of a line with equal advances.
pub open spec fn fixed_row<G: Coordinate>(
    atlas: AtlasView,
    anchor: Anchor<G>,
    chars: Seq<char>,
    count: int,
    advance: G,
    start: G,
    y: G,
    parameter: Seq<char>,
) -> Result<Seq<Glyph<G>>, GpuFault>
    decreases count,
{
    if count <= 0 {
        Ok(Seq::empty())
    } else {
        let c = chars[count - 1];
        let x = fixed_offset((count - 1) as nat, advance, start);
        match fixed_row(atlas, anchor, chars, count - 1, advance, start, y, parameter) {
            Err(fault) => Err(fault),
            Ok(row) => if !atlas.holds(c) {
                Err(GpuFault::Unsupported(c))
            } else if !x.finite() {
                Err(GpuFault::Geometry(parameter))
            } else {
                Ok(row.push(glyph_at(atlas, anchor, c, x, y)))
            },
        }
    }
}

/// The vertical extent from the first of so many lines to the last.
pub open spec fn line_span<G: Coordinate>(lines: nat, spacing: G) -> G {
    G::ratio_value(
        if lines == 0 {
            0
        } else {
            (lines - 1) as nat
        },
        1,
    ).times(spacing)
}

/// Where the first line stands.
pub open spec fn top_line<G: Coordinate>(align: VerticalAlign, span: G) -> G {
    match align {
        VerticalAlign::Top => G::zero_value(),
        VerticalAlign::Center => span.times(half()),
        VerticalAlign::Bottom => span,
    }
}

/// Where the line at `index` stands.
pub open spec fn line_offset<G: Coordinate>(index: nat, spacing: G, top: G) -> G {
    G::ratio_value(index, 1).fused(spacing.negated(), top)
}

/// The glyphs of the first `count` lines with equal advances.
pub open spec fn fixed_rows<G: Coordinate>(
    atlas: AtlasView,
    anchor: Anchor<G>,
    lines: Seq<Seq<char>>,
    count: int,
    config: TextLayoutConfig<G>,
) -> Result<Seq<Glyph<G>>, GpuFault>
    decreases count,
{
    if count <= 0 {
        Ok(Seq::empty())
    } else {
        let line = lines[count - 1];
        let width = G::ratio_value(line.len(), 1).times(config.glyph_advance);
        let top = top_line(config.vertical_align, line_span(lines.len(), config.line_spacing));
        let y = line_offset((count - 1) as nat, config.line_spacing, top);
        match fixed_rows(atlas, anchor, lines, count - 1, config) {
            Err(fault) => Err(fault),
            Ok(rows) => if !width.finite() {
                Err(GpuFault::Geometry("multi-line text width"@))
            } else if !y.finite() {
                Err(GpuFault::Geometry("multi-line vertical offset"@))
            } else {
                match fixed_row(
                    atlas,
                    anchor,
                    line,
                    line.len() as int,
                    config.glyph_advance,
                    line_start(config.align, width),
                    y,
                    "multi-line glyph offset"@,
                ) {
                    Err(fault) => Err(fault),
                    Ok(row) => Ok(rows + row),
                }
            },
        }
    }
}

/// The number of characters of the first `count` lines.
pub open spec fn total_chars(lines: Seq<Seq<char>>, count: int) -> nat
    decreases count,
{
    if count <= 0 {
        0
    } else {
        total_chars(lines, count - 1) + lines[count - 1].len()
    }
}

/// What emitting lines with equal advances gives.
pub open spec fn fixed_outcome<G: Coordinate>(
    atlas: AtlasView,
    anchor: Anchor<G>,
    lines: Seq<Seq<char>>,
    config: TextLayoutConfig<G>,
    outcome: Result<Seq<Glyph<G>>, Error>,
) -> bool {
    let count = lines.len() as int;
    let glyphs = total_chars(lines, count);
    if !line_span(lines.len(), config.line_spacing).finite() {
        outcome matches Err(error) && fault_error(
            GpuFault::Geometry("multi-line vertical span"@),
            error,
        )
    } else if glyphs > usize::MAX {
        outcome matches Err(error) && fault_error(
            GpuFault::Uncountable("counting emitted GPU glyph instances"@),
            error,
        )
    } else if !buffer_fits(glyphs, config.max_glyphs) {
        outcome matches Err(error) && buffer_fault(glyphs, config.max_glyphs, error)
    } else {
        match fixed_rows(atlas, anchor, lines, count, config) {
            Ok(expected) => outcome == Ok::<Seq<Glyph<G>>, Error>(expected),
            Err(fault) => outcome matches Err(error) && fault_error(fault, error),
        }
    }
}

/// Glyph instances as values, or the error.
pub open spec fn glyph_result<G>(result: Result<Vec<GlyphInstance<G>>, Error>) -> Result<
    Seq<Glyph<G>>,
    Error,
> {
    match result {
        Ok(instances) => Ok(glyphs_of(instances@)),
        Err(error) => Err(error),
    }
}

/// GPU text layout engine.
///
/// Takes text + world position + atlas and produces `GlyphInstance` arrays
/// ready for GPU upload.
pub struct GpuTextLayout {
    atlas: GlyphAtlas,
}

impl View for GpuTextLayout {
    type V = AtlasView;

    closed spec fn view(&self) -> AtlasView {
        self.atlas@
    }
}

/// A label's position, size and color.
struct LabelAnchor<G> {
    world_pos: [G; 3],
    font_size: G,
    color: [G; 4],
}

impl<G> View for LabelAnchor<G> {
    type V = Anchor<G>;

    closed spec fn view(&self) -> Anchor<G> {
        Anchor { world_pos: self.world_pos@, font_size: self.font_size, color: self.color@ }
    }
}

fn start_of_line<G: Coordinate>(align: TextAlign, width: G) -> (r: G)
    ensures
        r == line_start(align, width),
{
    match align {
        TextAlign::Left => G::zero(),
        TextAlign::Center => width.neg().mul(G::ratio(1, 2)),
        TextAlign::Right => width.neg(),
    }
}

fn start_of_block<G: Coordinate>(align: VerticalAlign, span: G) -> (r: G)
    ensures
        r == top_line(align, span),
{
    match align {
        VerticalAlign::Top => G::zero(),
        VerticalAlign::Center => span.mul(G::ratio(1, 2)),
        VerticalAlign::Bottom => span,
    }
}

impl GpuTextLayout {
    /// Construct a layout engine from a validated atlas descriptor.
    #[must_use]
    pub fn new(atlas: &GlyphAtlas) -> (r: Self)
        ensures
            r@ == atlas@,
    {
        GpuTextLayout { atlas: *atlas }
    }

    /// Append the glyph for a character at an offset.
    fn push_glyph<G: Coordinate>(
        &self,
        anchor: &LabelAnchor<G>,
        c: char,
        x: G,
        y: G,
        uvs: ([G; 2], [G; 2]),
        instances: &mut Vec<GlyphInstance<G>>,
    )
        requires
            (uvs.0@[0], uvs.0@[1]) == self@.cell_min::<G>(c as u32),
            (uvs.1@[0], uvs.1@[1]) == self@.cell_max::<G>(c as u32),
        ensures
            glyphs_of(final(instances)@) == glyphs_of(old(instances)@).push(
                glyph_at(self@, anchor@, c, x, y),
            ),
    {
        let ghost before = glyphs_of(instances@);
        let zero = G::zero();
        let instance = GlyphInstance {
            world_pos: anchor.world_pos,
            font_size: anchor.font_size,
            glyph_offset: [x, y],
            atlas_uv_min: uvs.0,
            atlas_uv_max: uvs.1,
            color: anchor.color,
            pad: [zero, zero],
        };
        proof {
            assert(instance.pad@ =~= seq![G::zero_value(), G::zero_value()]);
            assert(instance@ == glyph_at(self@, anchor@, c, x, y));
        }
        instances.push(instance);
        proof {
            assert(glyphs_of(instances@) =~= before.push(glyph_at(self@, anchor@, c, x, y)));
        }
    }

    /// Append the glyphs of a line with equal advances.
    fn emit_row<G: Coordinate>(
        &self,
        anchor: &LabelAnchor<G>,
        chars: &Vec<char>,
        advance: G,
        start: G,
        y: G,
        parameter: &'static str,
        instances: &mut Vec<GlyphInstance<G>>,
    ) -> (r: Result<(), Error>)
        ensures
            match fixed_row(
                self@,
                anchor@,
                chars@,
                chars@.len() as int,
                advance,
                start,
                y,
                parameter@,
            ) {
                Ok(row) => r is Ok && glyphs_of(final(instances)@) == glyphs_of(old(instances)@)
                    + row,
                Err(fault) => r matches Err(error) && fault_error(fault, error),
            },
    {
        let ghost before = glyphs_of(instances@);
        let mut index: usize = 0;
        let ghost mut row: Seq<Glyph<G>> = Seq::empty();
        proof {
            assert(before + row =~= before);
        }
        while index < chars.len()
            invariant
                index <= chars@.len(),
                fixed_row(
                    self@,
                    anchor@,
                    chars@,
                    index as int,
                    advance,
                    start,
                    y,
                    parameter@,
                ) == Ok::<Seq<Glyph<G>>, GpuFault>(row),
                glyphs_of(instances@) == before + row,
            decreases chars@.len() - index,
        {
            let c = chars[index];
            let x = advance.mul_add(
                G::ratio(1, 2),
                G::ratio(index, 1).mul_add(advance, start),
            );
            let step = self.place(c, x, parameter);
            match step {
                Ok(uvs) => {
                    self.push_glyph(anchor, c, x, y, uvs, instances);
                    proof {
                        let glyph = glyph_at(self@, anchor@, c, x, y);
                        assert((before + row).push(glyph) =~= before + row.push(glyph));
                        row = row.push(glyph);
                    }
                },
                Err(error) => {
                    proof {
                        lemma_row_fault(
                            self@,
                            anchor@,
                            chars@,
                            index as int,
                            chars@.len() as int,
                            advance,
                            start,
                            y,
                            parameter@,
                        );
                    }
                    return Err(error);
                },
            }
            index += 1;
        }
        Ok(())
    }

    /// Look a character up and check the offset that it is placed at.
    fn place<G: Coordinate>(&self, c: char, x: G, parameter: &'static str) -> (r: Result<
        ([G; 2], [G; 2]),
        Error,
    >)
        ensures
            if !self@.holds(c) {
                r matches Err(error) && fault_error(GpuFault::Unsupported(c), error)
            } else if !x.finite() {
                r matches Err(error) && fault_error(GpuFault::Geometry(parameter@), error)
            } else {
                r matches Ok(uvs) && (uvs.0@[0], uvs.0@[1]) == self@.cell_min::<G>(c as u32) && (
                uvs.1@[0],
                uvs.1@[1],
                ) == self@.cell_max::<G>(c as u32)
            },
    {
        let uvs = match self.atlas.char_uvs::<G>(c as u32) {
            Some(uvs) => uvs,
            None => {
                return Err(Error::UnsupportedGlyph { character: c, codepoint: c as u32 });
            },
        };
        match validate_derived_geometry(parameter, x) {
            Ok(()) => Ok(uvs),
            Err(error) => Err(error),
        }
    }
}

/// A fault in a row stays the row's fault, however much longer the row is.
proof fn lemma_row_fault<G: Coordinate>(
    atlas: AtlasView,
    anchor: Anchor<G>,
    chars: Seq<char>,
    index: int,
    count: int,
    advance: G,
    start: G,
    y: G,
    parameter: Seq<char>,
)
    requires
        0 <= index < count,
        fixed_row(atlas, anchor, chars, index + 1, advance, start, y, parameter) is Err,
    ensures
        fixed_row(atlas, anchor, chars, count, advance, start, y, parameter) == fixed_row(
            atlas,
            anchor,
            chars,
            index + 1,
            advance,
            start,
            y,
            parameter,
        ),
    decreases count,
{
    if index + 1 < count {
        lemma_row_fault(atlas, anchor, chars, index, count - 1, advance, start, y, parameter);
    }
}

/// A fault in a line stays the fault, however many more lines there are.
proof fn lemma_rows_fault<G: Coordinate>(
    atlas: AtlasView,
    anchor: Anchor<G>,
    lines: Seq<Seq<char>>,
    index: int,
    count: int,
    config: TextLayoutConfig<G>,
)
    requires
        0 <= index < count,
        fixed_rows(atlas, anchor, lines, index + 1, config) is Err,
    ensures
        fixed_rows(atlas, anchor, lines, count, config) == fixed_rows(
            atlas,
            anchor,
            lines,
            index + 1,
            config,
        ),
    decreases count,
{
    if index + 1 < count {
        lemma_rows_fault(atlas, anchor, lines, index, count - 1, config);
    }
}

/// A total that cannot be counted stays uncountable.
proof fn lemma_total_grows(lines: Seq<Seq<char>>, low: int, high: int)
    requires
        0 <= low <= high,
    ensures
        total_chars(lines, low) <= total_chars(lines, high),
    decreases high - low,
{
    if low < high {
        lemma_total_grows(lines, low, high - 1);
    }
}

impl GpuTextLayout {
    /// Emit `GlyphInstance` data for multiple lines.
    fn emit_multiline_instances<G: Coordinate>(
        &self,
        lines: &Vec<Vec<char>>,
        anchor: &LabelAnchor<G>,
        config: &TextLayoutConfig<G>,
    ) -> (r: Result<Vec<GlyphInstance<G>>, Error>)
        ensures
            fixed_outcome(self@, anchor@, char_lines(lines@), *config, glyph_result(r)),
    {
        let ghost all = char_lines(lines@);
        let count: usize = lines.len();
        let gaps: usize = if count == 0 {
            0
        } else {
            count - 1
        };
        let span = G::ratio(gaps, 1).mul(config.line_spacing);
        if let Err(error) = validate_derived_geometry("multi-line vertical span", span) {
            return Err(error);
        }
        let top = start_of_block(config.vertical_align, span);
        let mut total: usize = 0;
        let mut index: usize = 0;
        while index < count
            invariant
                index <= count == lines@.len(),
                all == char_lines(lines@),
                total == total_chars(all, index as int),
                line_span(all.len(), config.line_spacing).finite(),
            decreases count - index,
        {
            proof {
                assert(all[index as int] == lines@[index as int]@);
                lemma_total_grows(all, index + 1, count as int);
            }
            total = match total.checked_add(lines[index].len()) {
                Some(sum) => sum,
                None => {
                    return Err(
                        Error::ArithmeticOverflow {
                            operation: "counting emitted GPU glyph instances",
                        },
                    );
                },
            };
            index += 1;
        }
        if let Err(error) = validate_glyph_buffer_capacity(total, config.max_glyphs) {
            return Err(error);
        }
        let mut instances: Vec<GlyphInstance<G>> = Vec::new();
        index = 0;
        proof {
            assert(glyphs_of(instances@) =~= Seq::empty());
        }
        while index < count
            invariant
                index <= count == lines@.len(),
                all == char_lines(lines@),
                total == total_chars(all, count as int),
                line_span(all.len(), config.line_spacing).finite(),
                buffer_fits(total as nat, config.max_glyphs),
                top == top_line(
                    config.vertical_align,
                    line_span(all.len(), config.line_spacing),
                ),
                fixed_rows(self@, anchor@, all, index as int, *config) == Ok::<
                    Seq<Glyph<G>>,
                    GpuFault,
                >(glyphs_of(instances@)),
            decreases count - index,
        {
            let line = &lines[index];
            proof {
                assert(all[index as int] == line@);
                if fixed_rows(self@, anchor@, all, index + 1, *config) is Err {
                    lemma_rows_fault(
                        self@,
                        anchor@,
                        all,
                        index as int,
                        count as int,
                        *config,
                    );
                }
            }
            let width = G::ratio(line.len(), 1).mul(config.glyph_advance);
            if let Err(error) = validate_derived_geometry("multi-line text width", width) {
                return Err(error);
            }
            let start = start_of_line(config.align, width);
            let y = G::ratio(index, 1).mul_add(config.line_spacing.neg(), top);
            if let Err(error) = validate_derived_geometry("multi-line vertical offset", y) {
                return Err(error);
            }
            if let Err(error) = self.emit_row(
                anchor,
                line,
                config.glyph_advance,
                start,
                y,
                "multi-line glyph offset",
                &mut instances,
            ) {
                return Err(error);
            }
            index += 1;
        }
        Ok(instances)
    }
}

// ---- Labels with equal advances -----------------------------------------------------------------

/// Whether a character can stand in a label.
pub open spec fn supported(atlas: AtlasView, c: char, allow_hard_breaks: bool) -> bool {
    atlas.holds(c) || (allow_hard_breaks && hard_line_break(c))
}

/// The first character from `from` on that cannot stand in a label.
pub open spec fn first_unsupported(
    atlas: AtlasView,
    text: Seq<char>,
    from: int,
    allow_hard_breaks: bool,
) -> Option<char>
    decreases text.len() - from,
{
    if from < 0 || from >= text.len() {
        None
    } else if !supported(atlas, text[from], allow_hard_breaks) {
        Some(text[from])
    } else {
        first_unsupported(atlas, text, from + 1, allow_hard_breaks)
    }
}

/// The number of the first `count` characters that the atlas holds.
pub open spec fn held_chars(atlas: AtlasView, text: Seq<char>, count: int) -> nat
    decreases count,
{
    if count <= 0 {
        0
    } else {
        held_chars(atlas, text, count - 1) + if atlas.holds(text[count - 1]) {
            1nat
        } else {
            0
        }
    }
}

/// What a label is checked for before it is laid out.
pub open spec fn gate_passes<G: Scalar>(
    atlas: AtlasView,
    anchor: Anchor<G>,
    text: Seq<char>,
    config: TextLayoutConfig<G>,
    equal_advances: bool,
    allow_hard_breaks: bool,
) -> bool {
    &&& label_valid(anchor, config)
    &&& equal_advances ==> positive(config.glyph_advance)
    &&& gpu_text_fits(text)
    &&& first_unsupported(atlas, text, 0, allow_hard_breaks) is None
    &&& buffer_fits(held_chars(atlas, text, text.len() as int), config.max_glyphs)
}

/// Whether `error` is the first thing that is wrong with a label.
pub open spec fn gate_fault<G: Scalar>(
    atlas: AtlasView,
    anchor: Anchor<G>,
    text: Seq<char>,
    config: TextLayoutConfig<G>,
    equal_advances: bool,
    allow_hard_breaks: bool,
    error: Error,
) -> bool {
    if !label_valid(anchor, config) {
        label_fault(anchor, config, error)
    } else if equal_advances && !positive(config.glyph_advance) {
        invalid_advance(error)
    } else if !gpu_text_fits(text) {
        gpu_text_fault(text, error)
    } else {
        match first_unsupported(atlas, text, 0, allow_hard_breaks) {
            Some(c) => fault_error(GpuFault::Unsupported(c), error),
            None => buffer_fault(
                held_chars(atlas, text, text.len() as int),
                config.max_glyphs,
                error,
            ),
        }
    }
}

/// What laying out a single line gives.
pub open spec fn single_line_outcome<G: Coordinate>(
    atlas: AtlasView,
    anchor: Anchor<G>,
    text: Seq<char>,
    config: TextLayoutConfig<G>,
    outcome: Result<Seq<Glyph<G>>, Error>,
) -> bool {
    let width = G::ratio_value(text.len(), 1).times(config.glyph_advance);
    if !gate_passes(atlas, anchor, text, config, true, false) {
        outcome matches Err(error) && gate_fault(atlas, anchor, text, config, true, false, error)
    } else if !width.finite() {
        outcome matches Err(error) && fault_error(
            GpuFault::Geometry("single-line text width"@),
            error,
        )
    } else {
        match fixed_row(
            atlas,
            anchor,
            text,
            text.len() as int,
            config.glyph_advance,
            line_start(config.align, width),
            G::zero_value(),
            "single-line glyph offset"@,
        ) {
            Ok(row) => outcome == Ok::<Seq<Glyph<G>>, Error>(row),
            Err(fault) => outcome matches Err(error) && fault_error(fault, error),
        }
    }
}

/// Whether a text holds a hard break.
pub open spec fn has_hard_break(text: Seq<char>) -> bool {
    exists|i: int| 0 <= i < text.len() && hard_line_break(#[trigger] text[i])
}

/// What laying out without a width limit gives.
pub open spec fn unwrapped_outcome<G: Coordinate>(
    atlas: AtlasView,
    anchor: Anchor<G>,
    text: Seq<char>,
    config: TextLayoutConfig<G>,
    outcome: Result<Seq<Glyph<G>>, Error>,
) -> bool {
    if has_hard_break(text) {
        fixed_outcome(atlas, anchor, hard_break_lines(text), config, outcome)
    } else {
        single_line_outcome(atlas, anchor, text, config, outcome)
    }
}

/// What laying out with simple word wrap gives.
pub open spec fn simple_outcome<G: Coordinate>(
    atlas: AtlasView,
    anchor: Anchor<G>,
    text: Seq<char>,
    config: TextLayoutConfig<G>,
    outcome: Result<Seq<Glyph<G>>, Error>,
) -> bool {
    let glyph_width = anchor.font_size.times(config.glyph_advance);
    if !gate_passes(atlas, anchor, text, config, true, true) {
        outcome matches Err(error) && gate_fault(atlas, anchor, text, config, true, true, error)
    } else if !glyph_width.finite() {
        outcome matches Err(error) && fault_error(
            GpuFault::Geometry("world-space glyph width"@),
            error,
        )
    } else {
        match config.max_width {
            None => unwrapped_outcome(atlas, anchor, text, config, outcome),
            Some(width) => {
                let fitting = width.over(glyph_width).whole();
                let max = if fitting < 1 {
                    1
                } else {
                    fitting as int
                };
                fixed_outcome(
                    atlas,
                    anchor,
                    paragraphs_lines(hard_break_lines(text), max),
                    config,
                    outcome,
                )
            },
        }
    }
}

impl GpuTextLayout {
    /// Check that every character can stand in a label, and count those that
    /// the atlas holds.
    fn validate_supported_text(&self, chars: &Vec<char>, allow_hard_breaks: bool) -> (r: Result<
        usize,
        Error,
    >)
        ensures
            match first_unsupported(self@, chars@, 0, allow_hard_breaks) {
                Some(c) => r matches Err(error) && fault_error(GpuFault::Unsupported(c), error),
                None => r matches Ok(count) && count == held_chars(
                    self@,
                    chars@,
                    chars@.len() as int,
                ),
            },
    {
        let mut glyph_count: usize = 0;
        let mut index: usize = 0;
        while index < chars.len()
            invariant
                index <= chars@.len(),
                glyph_count == held_chars(self@, chars@, index as int),
                glyph_count <= index,
                first_unsupported(self@, chars@, 0, allow_hard_breaks) == first_unsupported(
                    self@,
                    chars@,
                    index as int,
                    allow_hard_breaks,
                ),
            decreases chars@.len() - index,
        {
            let c = chars[index];
            let code: u32 = c as u32;
            if self.atlas.first_char() <= code && code < self.atlas.last_char() {
                glyph_count += 1;
            } else if !(allow_hard_breaks && is_hard_line_break(c)) {
                return Err(Error::UnsupportedGlyph { character: c, codepoint: code });
            }
            index += 1;
        }
        Ok(glyph_count)
    }

    /// Check a label before it is laid out.
    fn check_label<G: Scalar>(
        &self,
        text: &str,
        chars: &Vec<char>,
        anchor: &LabelAnchor<G>,
        config: &TextLayoutConfig<G>,
        equal_advances: bool,
        allow_hard_breaks: bool,
    ) -> (r: Result<(), Error>)
        requires
            chars@ == text@,
        ensures
            match r {
                Ok(()) => gate_passes(
                    self@,
                    anchor@,
                    text@,
                    *config,
                    equal_advances,
                    allow_hard_breaks,
                ),
                Err(error) => !gate_passes(
                    self@,
                    anchor@,
                    text@,
                    *config,
                    equal_advances,
                    allow_hard_breaks,
                ) && gate_fault(
                    self@,
                    anchor@,
                    text@,
                    *config,
                    equal_advances,
                    allow_hard_breaks,
                    error,
                ),
            },
    {
        if let Err(error) = validate_layout_inputs(
            anchor.world_pos,
            anchor.font_size,
            anchor.color,
            config,
        ) {
            return Err(error);
        }
        if equal_advances {
            if let Err(error) = validate_fixed_glyph_advance(config) {
                return Err(error);
            }
        }
        if let Err(error) = validate_text_input(text) {
            return Err(error);
        }
        let glyph_count = match self.validate_supported_text(chars, allow_hard_breaks) {
            Ok(count) => count,
            Err(error) => {
                return Err(error);
            },
        };
        match validate_glyph_buffer_capacity(glyph_count, config.max_glyphs) {
            Ok(_) => Ok(()),
            Err(error) => Err(error),
        }
    }

    /// Layout a single-line label (no wrapping, fast path).
    ///
    /// # Errors
    ///
    /// Returns an error for invalid geometry, unsupported atlas characters,
    /// oversized input, or an output exceeding [`TextLayoutConfig::max_glyphs`].
    pub fn layout_single_line<G: Coordinate>(
        &self,
        text: &str,
        world_pos: [G; 3],
        font_size: G,
        color: [G; 4],
        config: &TextLayoutConfig<G>,
    ) -> (r: Result<Vec<GlyphInstance<G>>, Error>)
        ensures
            single_line_outcome(
                self@,
                (Anchor { world_pos: world_pos@, font_size, color: color@ }),
                text@,
                *config,
                glyph_result(r),
            ),
    {
        let anchor = LabelAnchor { world_pos, font_size, color };
        let chars = chars_of(text);
        if let Err(error) = self.check_label(text, &chars, &anchor, config, true, false) {
            return Err(error);
        }
        let width = G::ratio(chars.len(), 1).mul(config.glyph_advance);
        if let Err(error) = validate_derived_geometry("single-line text width", width) {
            return Err(error);
        }
        let start = start_of_line(config.align, width);
        let mut instances: Vec<GlyphInstance<G>> = Vec::new();
        proof {
            assert(glyphs_of(instances@) =~= Seq::empty());
        }
        match self.emit_row(
            &anchor,
            &chars,
            config.glyph_advance,
            start,
            G::zero(),
            "single-line glyph offset",
            &mut instances,
        ) {
            Ok(()) => {
                proof {
                    let row = glyphs_of(instances@);
                    assert(Seq::<Glyph<G>>::empty() + row =~= row);
                    assert(forall|row: Seq<Glyph<G>>|
                        #[trigger] (Seq::<Glyph<G>>::empty() + row) =~= row);
                }
                Ok(instances)
            },
            Err(error) => Err(error),
        }
    }

    /// Layout without a width limit: at the hard breaks alone.
    fn layout_unwrapped<G: Coordinate>(
        &self,
        text: &str,
        chars: &Vec<char>,
        anchor: &LabelAnchor<G>,
        config: &TextLayoutConfig<G>,
    ) -> (r: Result<Vec<GlyphInstance<G>>, Error>)
        requires
            chars@ == text@,
        ensures
            unwrapped_outcome(self@, anchor@, text@, *config, glyph_result(r)),
    {
        let mut index: usize = 0;
        while index < chars.len()
            invariant
                index <= chars@.len(),
                chars@ == text@,
                forall|k: int| 0 <= k < index ==> !hard_line_break(#[trigger] chars@[k]),
            decreases chars@.len() - index,
        {
            if is_hard_line_break(chars[index]) {
                let lines = split_hard_break_lines(text);
                proof {
                    assert(has_hard_break(text@));
                }
                return self.emit_multiline_instances(&lines, anchor, config);
            }
            index += 1;
        }
        self.layout_single_line(text, anchor.world_pos, anchor.font_size, anchor.color, config)
    }

    /// Split text into lines by word-wrapping at a character limit.
    pub fn split_lines_simple(text: &str, max_chars: usize) -> (r: Vec<Vec<char>>)
        requires
            max_chars > 0,
        ensures
            char_lines(r@) == paragraphs_lines(hard_break_lines(text@), max_chars as int),
    {
        let paragraphs = split_hard_break_lines(text);
        let ghost all = char_lines(paragraphs@);
        let mut lines: Vec<Vec<char>> = Vec::new();
        let mut index: usize = 0;
        proof {
            assert(all.take(0) =~= Seq::empty());
            assert(char_lines(lines@) =~= Seq::empty());
        }
        while index < paragraphs.len()
            invariant
                max_chars > 0,
                index <= paragraphs@.len(),
                all == char_lines(paragraphs@),
                char_lines(lines@) == paragraphs_lines(all.take(index as int), max_chars as int),
            decreases paragraphs@.len() - index,
        {
            let ghost before = char_lines(lines@);
            proof {
                assert(all.take(index + 1).drop_last() =~= all.take(index as int));
                assert(all.take(index + 1).last() == paragraphs@[index as int]@);
            }
            let words = split_words(&paragraphs[index]);
            if words.len() == 0 {
                let blank: Vec<char> = Vec::new();
                lines.push(blank);
                proof {
                    assert(char_lines(words@).len() == 0);
                    assert(blank@ =~= Seq::empty());
                    assert(char_lines(lines@) =~= before + seq![Seq::<char>::empty()]);
                }
            } else {
                proof {
                    assert(char_lines(words@).len() == words@.len());
                }
                wrap_words(&words, max_chars, &mut lines);
            }
            index += 1;
        }
        proof {
            assert(all.take(index as int) =~= all);
        }
        lines
    }

    /// Layout multi-line text using simple character-count wrapping.
    ///
    /// This is the fast, no-measurement path. Uses a fixed character width
    /// (`glyph_advance`) to determine line breaks. Good enough for monospace
    /// fonts and world-space labels where pixel accuracy isn't critical.
    ///
    /// # Errors
    ///
    /// Returns an error when geometry is invalid, an atlas character is
    /// unavailable, or the configured output bound is exceeded. Newline,
    /// carriage-return, and form-feed controls are accepted as hard breaks.
    pub fn layout_multiline_simple<G: Coordinate>(
        &self,
        text: &str,
        world_pos: [G; 3],
        font_size: G,
        color: [G; 4],
        config: &TextLayoutConfig<G>,
    ) -> (r: Result<Vec<GlyphInstance<G>>, Error>)
        ensures
            simple_outcome(
                self@,
                (Anchor { world_pos: world_pos@, font_size, color: color@ }),
                text@,
                *config,
                glyph_result(r),
            ),
    {
        let anchor = LabelAnchor { world_pos, font_size, color };
        let chars = chars_of(text);
        if let Err(error) = self.check_label(text, &chars, &anchor, config, true, true) {
            return Err(error);
        }
        let glyph_width = font_size.mul(config.glyph_advance);
        if let Err(error) = validate_derived_geometry("world-space glyph width", glyph_width) {
            return Err(error);
        }
        match config.max_width {
            None => self.layout_unwrapped(text, &chars, &anchor, config),
            Some(width) => {
                let fitting: usize = width.div(glyph_width).floor();
                let max_chars: usize = if fitting < 1 {
                    1
                } else {
                    fitting
                };
                let lines = GpuTextLayout::split_lines_simple(text, max_chars);
                self.emit_multiline_instances(&lines, &anchor, config)
            },
        }
    }
}

// ---- Labels that the line breaker wraps --------------------------------------------------------------

/// The limits that a label is prepared with.
pub open spec fn label_options<W: Scalar>() -> PrepareOptions<W> {
    PrepareOptions {
        white_space: WhiteSpaceMode::PreWrap,
        profile: None,
        max_input_bytes: DEFAULT_MAX_INPUT_BYTES,
        max_graphemes: DEFAULT_MAX_GRAPHEMES,
        max_segments: DEFAULT_MAX_SEGMENTS,
    }
}

/// The texts of the lines that rich text is broken into.
pub open spec fn broken_lines<W: Scalar>(rich: RichText<W>, max_width: W) -> Seq<Seq<char>> {
    let walked = walked_lines(&rich.data, fit_limit(max_width, rich.data.profile));
    Seq::new(
        walked.len(),
        |i: int|
            {
                let range = as_range(walked[i]);
                line_text(
                    rich.segments,
                    rich.data.kinds@,
                    range.start,
                    range.end,
                    range.ends_with_discretionary_hyphen,
                )
            },
    )
}

/// The number of glyphs of the first `count` lines, each of which the atlas
/// must hold.
pub open spec fn counted_glyphs(
    atlas: AtlasView,
    lines: Seq<Seq<char>>,
    count: int,
    operation: Seq<char>,
) -> Result<nat, GpuFault>
    decreases count,
{
    if count <= 0 {
        Ok(0)
    } else {
        let line = lines[count - 1];
        match counted_glyphs(atlas, lines, count - 1, operation) {
            Err(fault) => Err(fault),
            Ok(before) => match first_unsupported(atlas, line, 0, false) {
                Some(c) => Err(GpuFault::Unsupported(c)),
                None => {
                    let total = before + held_chars(atlas, line, line.len() as int);
                    if total > usize::MAX {
                        Err(GpuFault::Uncountable(operation))
                    } else {
                        Ok(total)
                    }
                },
            },
        }
    }
}

proof fn lemma_counted_fault(
    atlas: AtlasView,
    lines: Seq<Seq<char>>,
    index: int,
    count: int,
    operation: Seq<char>,
)
    requires
        0 <= index < count,
        counted_glyphs(atlas, lines, index + 1, operation) is Err,
    ensures
        counted_glyphs(atlas, lines, count, operation) == counted_glyphs(
            atlas,
            lines,
            index + 1,
            operation,
        ),
    decreases count,
{
    if index + 1 < count {
        lemma_counted_fault(atlas, lines, index, count - 1, operation);
    }
}

/// Whether an error says that the width that a label is wrapped at is unusable.
pub open spec fn invalid_pixel_width(error: Error) -> bool {
    error.rejects("derived pixel max width"@, "must be finite and greater than zero"@)
}

/// What emitting the lines of rich text with equal advances gives.
pub open spec fn wrapped_outcome<W: Scalar, G: Coordinate>(
    atlas: AtlasView,
    anchor: Anchor<G>,
    rich: RichText<W>,
    max_width: W,
    config: TextLayoutConfig<G>,
    outcome: Result<Seq<Glyph<G>>, Error>,
) -> bool {
    let lines = broken_lines(rich, max_width);
    if !nonnegative(max_width) {
        outcome matches Err(error) && invalid_max_width(error)
    } else if !rich.data.profile.valid() {
        outcome matches Err(error) && invalid_profile(error)
    } else {
        match counted_glyphs(
            atlas,
            lines,
            lines.len() as int,
            "counting multiline GPU glyph instances"@,
        ) {
            Err(fault) => outcome matches Err(error) && fault_error(fault, error),
            Ok(glyphs) => if !buffer_fits(glyphs, config.max_glyphs) {
                outcome matches Err(error) && buffer_fault(glyphs, config.max_glyphs, error)
            } else {
                fixed_outcome(atlas, anchor, lines, config, outcome)
            },
        }
    }
}

/// The width in pixels that stands for a width in world units, where a glyph
/// is so wide.
pub open spec fn pixel_width<W: Scalar, G: Widen<W>>(width: G, glyph_width: G, advance: G) -> W {
    width.over(glyph_width).widened().times(W::ratio_value(16, 1)).times(advance.widened())
}

/// What wrapping a label at a width gives, once it is checked.
pub open spec fn measured_outcome<W: Scalar, G: Widen<W>, B: MeasureBackend<W>>(
    atlas: AtlasView,
    anchor: Anchor<G>,
    text: Seq<char>,
    width: G,
    config: TextLayoutConfig<G>,
    backend: &B,
    outcome: Result<Seq<Glyph<G>>, Error>,
) -> bool {
    let glyph_width = anchor.font_size.times(config.glyph_advance);
    let pixels = pixel_width::<W, G>(width, glyph_width, config.glyph_advance);
    if !glyph_width.finite() {
        outcome matches Err(error) && fault_error(
            GpuFault::Geometry("world-space glyph width"@),
            error,
        )
    } else if !width.over(glyph_width).finite() {
        outcome matches Err(error) && fault_error(GpuFault::Geometry("characters per line"@), error)
    } else if !positive(pixels) {
        outcome matches Err(error) && invalid_pixel_width(error)
    } else {
        match parsed_font::<W>("16px monospace"@) {
            Err(reason) => outcome matches Err(error) && rejects_font(
                error,
                "16px monospace"@,
                reason,
            ),
            Ok(font) => exists|prepared: Result<RichText<W>, Error>|
                {
                    &&& #[trigger] rich_outcome(
                        backend,
                        text,
                        font,
                        label_options(),
                        prepared,
                    )
                    &&& match prepared {
                        Err(error) => outcome == Err::<Seq<Glyph<G>>, Error>(error),
                        Ok(rich) => wrapped_outcome(atlas, anchor, rich, pixels, config, outcome),
                    }
                },
        }
    }
}

/// What laying out a label with the line breaker gives.
pub open spec fn multiline_outcome<W: Scalar, G: Widen<W>, B: MeasureBackend<W>>(
    atlas: AtlasView,
    anchor: Anchor<G>,
    text: Seq<char>,
    config: TextLayoutConfig<G>,
    backend: &B,
    outcome: Result<Seq<Glyph<G>>, Error>,
) -> bool {
    if !gate_passes(atlas, anchor, text, config, true, true) {
        outcome matches Err(error) && gate_fault(atlas, anchor, text, config, true, true, error)
    } else {
        match config.max_width {
            None => unwrapped_outcome(atlas, anchor, text, config, outcome),
            Some(width) => measured_outcome(atlas, anchor, text, width, config, backend, outcome),
        }
    }
}

/// The characters of materialized lines.
fn lines_to_chars<W: Scalar>(lines: &Vec<LayoutLine<W>>) -> (r: Vec<Vec<char>>)
    ensures
        r@.len() == lines@.len(),
        forall|i: int| 0 <= i < lines@.len() ==> (#[trigger] r@[i])@ == lines@[i].text@,
{
    let mut chars: Vec<Vec<char>> = Vec::new();
    let mut index: usize = 0;
    while index < lines.len()
        invariant
            index <= lines@.len(),
            chars@.len() == index,
            forall|i: int| 0 <= i < index ==> (#[trigger] chars@[i])@ == lines@[i].text@,
        decreases lines@.len() - index,
    {
        chars.push(chars_of(lines[index].text.as_str()));
        index += 1;
    }
    chars
}

impl GpuTextLayout {
    /// Count the glyphs of lines, each of which the atlas must hold.
    fn count_glyphs(&self, lines: &Vec<Vec<char>>, operation: &'static str) -> (r: Result<
        usize,
        Error,
    >)
        ensures
            match counted_glyphs(self@, char_lines(lines@), lines@.len() as int, operation@) {
                Ok(total) => r == Ok::<usize, Error>(total as usize) && total <= usize::MAX,
                Err(fault) => r matches Err(error) && fault_error(fault, error),
            },
    {
        let ghost all = char_lines(lines@);
        let mut total: usize = 0;
        let mut index: usize = 0;
        while index < lines.len()
            invariant
                index <= lines@.len(),
                all == char_lines(lines@),
                counted_glyphs(self@, all, index as int, operation@) == Ok::<nat, GpuFault>(
                    total as nat,
                ),
            decreases lines@.len() - index,
        {
            proof {
                assert(all[index as int] == lines@[index as int]@);
                if counted_glyphs(self@, all, index + 1, operation@) is Err {
                    lemma_counted_fault(
                        self@,
                        all,
                        index as int,
                        lines@.len() as int,
                        operation@,
                    );
                }
            }
            let glyphs = match self.validate_supported_text(&lines[index], false) {
                Ok(glyphs) => glyphs,
                Err(error) => {
                    return Err(error);
                },
            };
            total = match total.checked_add(glyphs) {
                Some(sum) => sum,
                None => {
                    return Err(Error::ArithmeticOverflow { operation });
                },
            };
            index += 1;
        }
        Ok(total)
    }

    /// Layout a multi-line label using the line-breaking engine.
    ///
    /// The engine computes where line breaks go, then each glyph is mapped to
    /// world-space coordinates with proper alignment.
    ///
    /// # Parameters
    /// - `text`: The text content (may contain newlines for explicit breaks)
    /// - `world_pos`: World-space anchor point
    /// - `font_size`: World-space glyph height
    /// - `color`: RGBA color
    /// - `config`: Layout configuration (alignment, `max_width`, spacing)
    /// - `backend`: Measurement backend
    ///
    /// # Errors
    ///
    /// Returns an error when geometry is invalid, text measurement fails, an
    /// atlas character is unavailable, or the configured output bound is
    /// exceeded. Newline, carriage-return, and form-feed controls are accepted
    /// as structural hard breaks and do not emit glyph instances.
    pub fn layout_multiline<W: Scalar, G: Widen<W>, B: MeasureBackend<W>>(
        &self,
        text: &str,
        world_pos: [G; 3],
        font_size: G,
        color: [G; 4],
        config: &TextLayoutConfig<G>,
        backend: &B,
    ) -> (r: Result<Vec<GlyphInstance<G>>, Error>)
        ensures
            multiline_outcome(
                self@,
                (Anchor { world_pos: world_pos@, font_size, color: color@ }),
                text@,
                *config,
                backend,
                glyph_result(r),
            ),
    {
        let anchor = LabelAnchor { world_pos, font_size, color };
        let chars = chars_of(text);
        if let Err(error) = self.check_label(text, &chars, &anchor, config, true, true) {
            return Err(error);
        }
        let max_width = match config.max_width {
            Some(width) => width,
            None => {
                return self.layout_unwrapped(text, &chars, &anchor, config);
            },
        };
        // Convert the world-space width to pixels of a reference font size.
        let glyph_width = font_size.mul(config.glyph_advance);
        if let Err(error) = validate_derived_geometry("world-space glyph width", glyph_width) {
            return Err(error);
        }
        let chars_per_width = max_width.div(glyph_width);
        if let Err(error) = validate_derived_geometry("characters per line", chars_per_width) {
            return Err(error);
        }
        let pixels: W = chars_per_width.widen().mul(W::ratio(16, 1)).mul(
            config.glyph_advance.widen(),
        );
        if !is_positive(pixels) {
            return Err(
                Error::invalid_input(
                    "derived pixel max width",
                    "must be finite and greater than zero",
                ),
            );
        }
        let font = match FontSpec::<W>::new("16px monospace") {
            Ok(font) => font,
            Err(error) => {
                return Err(error);
            },
        };
        let options = PrepareOptions {
            white_space: WhiteSpaceMode::PreWrap,
            profile: None,
            max_input_bytes: DEFAULT_MAX_INPUT_BYTES,
            max_graphemes: DEFAULT_MAX_GRAPHEMES,
            max_segments: DEFAULT_MAX_SEGMENTS,
        };
        let prepared = match prepare_with_segments(text, &font, backend, options) {
            Ok(prepared) => prepared,
            Err(error) => {
                proof {
                    assert(rich_outcome(
                        backend,
                        text@,
                        font@,
                        label_options(),
                        Err::<RichText<W>, Error>(error),
                    ));
                }
                return Err(error);
            },
        };
        proof {
            assert(rich_outcome(
                backend,
                text@,
                font@,
                label_options(),
                Ok::<RichText<W>, Error>(prepared@),
            ));
        }
        let lines = match layout_with_lines(&prepared, pixels) {
            Ok(lines) => lines,
            Err(error) => {
                return Err(error);
            },
        };
        let line_chars = lines_to_chars(&lines);
        proof {
            lemma_broken_lines(prepared@, pixels, lines@, line_chars@);
        }
        let glyphs = match self.count_glyphs(
            &line_chars,
            "counting multiline GPU glyph instances",
        ) {
            Ok(glyphs) => glyphs,
            Err(error) => {
                return Err(error);
            },
        };
        if let Err(error) = validate_glyph_buffer_capacity(glyphs, config.max_glyphs) {
            return Err(error);
        }
        self.emit_multiline_instances(&line_chars, &anchor, config)
    }
}

proof fn lemma_broken_lines<W: Scalar>(
    rich: RichText<W>,
    max_width: W,
    lines: Seq<LayoutLine<W>>,
    chars: Seq<Vec<char>>,
)
    requires
        ({
            let walked = walked_lines(&rich.data, fit_limit(max_width, rich.data.profile));
            &&& lines.len() == walked.len()
            &&& forall|i: int|
                0 <= i < walked.len() ==> materializes(rich, #[trigger] walked[i], lines[i])
        }),
        chars.len() == lines.len(),
        forall|i: int| 0 <= i < lines.len() ==> (#[trigger] chars[i])@ == lines[i].text@,
    ensures
        char_lines(chars) == broken_lines(rich, max_width),
{
    let walked = walked_lines(&rich.data, fit_limit(max_width, rich.data.profile));
    assert forall|i: int| 0 <= i < walked.len() implies #[trigger] char_lines(chars)[i]
        == broken_lines(rich, max_width)[i] by {
        assert(materializes(rich, walked[i], lines[i]));
        assert(chars[i]@ == lines[i].text@);
    }
    assert(char_lines(chars) =~= broken_lines(rich, max_width));
}

// ---- Labels with an advance for each glyph -----------------------------------------------------------

/// The width of the first `count` glyphs of a line.
pub open spec fn advances_width<G: Coordinate>(advances: Seq<G>, count: int) -> Result<G, GpuFault>
    decreases count,
{
    if count <= 0 {
        Ok(G::zero_value())
    } else {
        match advances_width(advances, count - 1) {
            Err(fault) => Err(fault),
            Ok(before) => {
                let width = before.plus(advances[count - 1]);
                if !is_measure(advances[count - 1]) {
                    Err(GpuFault::Advance)
                } else if !width.finite() {
                    Err(GpuFault::Geometry("proportional line width"@))
                } else {
                    Ok(width)
                }
            },
        }
    }
}

/// The first `count` glyphs of a line, and the place after them. Each glyph is
/// centered in its advance.
pub open spec fn proportional_row<G: Coordinate>(
    atlas: AtlasView,
    anchor: Anchor<G>,
    chars: Seq<char>,
    advances: Seq<G>,
    count: int,
    start: G,
    y: G,
) -> Result<(Seq<Glyph<G>>, G), GpuFault>
    decreases count,
{
    if count <= 0 {
        Ok((Seq::empty(), start))
    } else {
        let c = chars[count - 1];
        let advance = advances[count - 1];
        match proportional_row(atlas, anchor, chars, advances, count - 1, start, y) {
            Err(fault) => Err(fault),
            Ok((row, cursor)) => {
                let x = advance.fused(half(), cursor);
                let next = cursor.plus(advance);
                if !atlas.holds(c) {
                    Err(GpuFault::Unsupported(c))
                } else if !x.finite() {
                    Err(GpuFault::Geometry("proportional glyph offset"@))
                } else if !next.finite() {
                    Err(GpuFault::Geometry("proportional glyph cursor"@))
                } else {
                    Ok((row.push(glyph_at(atlas, anchor, c, x, y)), next))
                }
            },
        }
    }
}

/// The glyphs of the first `count` lines, with an advance for each glyph.
pub open spec fn proportional_rows<G: Coordinate>(
    atlas: AtlasView,
    anchor: Anchor<G>,
    lines: Seq<Seq<char>>,
    advances: Seq<Seq<G>>,
    count: int,
    config: TextLayoutConfig<G>,
) -> Result<Seq<Glyph<G>>, GpuFault>
    decreases count,
{
    if count <= 0 {
        Ok(Seq::empty())
    } else {
        let line = lines[count - 1];
        let top = top_line(config.vertical_align, line_span(lines.len(), config.line_spacing));
        let y = line_offset((count - 1) as nat, config.line_spacing, top);
        match proportional_rows(atlas, anchor, lines, advances, count - 1, config) {
            Err(fault) => Err(fault),
            Ok(rows) => match advances_width(advances[count - 1], line.len() as int) {
                Err(fault) => Err(fault),
                Ok(width) => if !y.finite() {
                    Err(GpuFault::Geometry("multi-line vertical offset"@))
                } else {
                    match proportional_row(
                        atlas,
                        anchor,
                        line,
                        advances[count - 1],
                        line.len() as int,
                        line_start(config.align, width),
                        y,
                    ) {
                        Err(fault) => Err(fault),
                        Ok((row, _)) => Ok(rows + row),
                    }
                },
            },
        }
    }
}

/// Whether lines can be placed, whatever their advances: their vertical extent is
/// finite, the atlas holds them, and the output is within its bound.
pub open spec fn lines_placeable<G: Coordinate>(
    atlas: AtlasView,
    lines: Seq<Seq<char>>,
    config: TextLayoutConfig<G>,
) -> bool {
    &&& line_span(lines.len(), config.line_spacing).finite()
    &&& counted_glyphs(
        atlas,
        lines,
        lines.len() as int,
        "counting proportional GPU glyph instances"@,
    ) matches Ok(glyphs) && buffer_fits(glyphs, config.max_glyphs)
}

/// Whether `error` is the first thing that keeps lines from being placed.
pub open spec fn unplaceable<G: Coordinate>(
    atlas: AtlasView,
    lines: Seq<Seq<char>>,
    config: TextLayoutConfig<G>,
    error: Error,
) -> bool {
    if !line_span(lines.len(), config.line_spacing).finite() {
        fault_error(GpuFault::Geometry("multi-line vertical span"@), error)
    } else {
        match counted_glyphs(
            atlas,
            lines,
            lines.len() as int,
            "counting proportional GPU glyph instances"@,
        ) {
            Err(fault) => fault_error(fault, error),
            Ok(glyphs) => buffer_fault(glyphs, config.max_glyphs, error),
        }
    }
}

/// What emitting lines with an advance for each glyph gives.
pub open spec fn proportional_outcome<G: Coordinate>(
    atlas: AtlasView,
    anchor: Anchor<G>,
    lines: Seq<Seq<char>>,
    advances: Seq<Seq<G>>,
    config: TextLayoutConfig<G>,
    outcome: Result<Seq<Glyph<G>>, Error>,
) -> bool {
    if !lines_placeable(atlas, lines, config) {
        outcome matches Err(error) && unplaceable(atlas, lines, config, error)
    } else {
        match proportional_rows(atlas, anchor, lines, advances, lines.len() as int, config) {
            Ok(expected) => outcome == Ok::<Seq<Glyph<G>>, Error>(expected),
            Err(fault) => outcome matches Err(error) && fault_error(fault, error),
        }
    }
}

/// Advances as values.
pub open spec fn advances_of<G>(advances: Seq<Vec<G>>) -> Seq<Seq<G>> {
    advances.map_values(|line: Vec<G>| line@)
}

/// Whether there is an advance for each character of each line.
pub open spec fn advances_match<G>(lines: Seq<Seq<char>>, advances: Seq<Seq<G>>) -> bool {
    &&& lines.len() == advances.len()
    &&& forall|i: int|
        0 <= i < lines.len() ==> (#[trigger] lines[i]).len() == advances[i].len()
}

proof fn lemma_width_fault<G: Coordinate>(advances: Seq<G>, index: int, count: int)
    requires
        0 <= index < count,
        advances_width(advances, index + 1) is Err,
    ensures
        advances_width(advances, count) == advances_width(advances, index + 1),
    decreases count,
{
    if index + 1 < count {
        lemma_width_fault(advances, index, count - 1);
    }
}

proof fn lemma_proportional_row_fault<G: Coordinate>(
    atlas: AtlasView,
    anchor: Anchor<G>,
    chars: Seq<char>,
    advances: Seq<G>,
    index: int,
    count: int,
    start: G,
    y: G,
)
    requires
        0 <= index < count,
        proportional_row(atlas, anchor, chars, advances, index + 1, start, y) is Err,
    ensures
        proportional_row(atlas, anchor, chars, advances, count, start, y) == proportional_row(
            atlas,
            anchor,
            chars,
            advances,
            index + 1,
            start,
            y,
        ),
    decreases count,
{
    if index + 1 < count {
        lemma_proportional_row_fault(atlas, anchor, chars, advances, index, count - 1, start, y);
    }
}

proof fn lemma_proportional_rows_fault<G: Coordinate>(
    atlas: AtlasView,
    anchor: Anchor<G>,
    lines: Seq<Seq<char>>,
    advances: Seq<Seq<G>>,
    index: int,
    count: int,
    config: TextLayoutConfig<G>,
)
    requires
        0 <= index < count,
        proportional_rows(atlas, anchor, lines, advances, index + 1, config) is Err,
    ensures
        proportional_rows(atlas, anchor, lines, advances, count, config) == proportional_rows(
            atlas,
            anchor,
            lines,
            advances,
            index + 1,
            config,
        ),
    decreases count,
{
    if index + 1 < count {
        lemma_proportional_rows_fault(atlas, anchor, lines, advances, index, count - 1, config);
    }
}

/// The vertical extent from the first of so many lines to the last.
fn span_of_lines<G: Coordinate>(lines: usize, spacing: G) -> (r: G)
    ensures
        r == line_span(lines as nat, spacing),
{
    let gaps: usize = if lines == 0 {
        0
    } else {
        lines - 1
    };
    G::ratio(gaps, 1).mul(spacing)
}

/// Sum the advances of a line.
fn sum_advances<G: Coordinate>(advances: &Vec<G>) -> (r: Result<G, Error>)
    ensures
        match advances_width(advances@, advances@.len() as int) {
            Ok(width) => r == Ok::<G, Error>(width),
            Err(fault) => r matches Err(error) && fault_error(fault, error),
        },
{
    let mut width = G::zero();
    let mut index: usize = 0;
    while index < advances.len()
        invariant
            index <= advances@.len(),
            advances_width(advances@, index as int) == Ok::<G, GpuFault>(width),
        decreases advances@.len() - index,
    {
        proof {
            if advances_width(advances@, index + 1) is Err {
                lemma_width_fault(advances@, index as int, advances@.len() as int);
            }
        }
        let advance = advances[index];
        if !(advance.is_finite() && G::zero().le(advance)) {
            return Err(
                Error::invalid_input(
                    "glyph advance",
                    "callback values must be finite and non-negative",
                ),
            );
        }
        width = width.add(advance);
        if let Err(error) = validate_derived_geometry("proportional line width", width) {
            return Err(error);
        }
        index += 1;
    }
    Ok(width)
}

impl GpuTextLayout {
    /// Append the glyphs of a line with an advance for each.
    fn emit_proportional_row<G: Coordinate>(
        &self,
        anchor: &LabelAnchor<G>,
        chars: &Vec<char>,
        advances: &Vec<G>,
        start: G,
        y: G,
        instances: &mut Vec<GlyphInstance<G>>,
    ) -> (r: Result<(), Error>)
        requires
            chars@.len() == advances@.len(),
        ensures
            match proportional_row(
                self@,
                anchor@,
                chars@,
                advances@,
                chars@.len() as int,
                start,
                y,
            ) {
                Ok((row, _)) => r is Ok && glyphs_of(final(instances)@) == glyphs_of(
                    old(instances)@,
                ) + row,
                Err(fault) => r matches Err(error) && fault_error(fault, error),
            },
    {
        let ghost before = glyphs_of(instances@);
        let ghost mut row: Seq<Glyph<G>> = Seq::empty();
        let mut cursor = start;
        let mut index: usize = 0;
        proof {
            assert(before + row =~= before);
        }
        while index < chars.len()
            invariant
                index <= chars@.len() == advances@.len(),
                proportional_row(
                    self@,
                    anchor@,
                    chars@,
                    advances@,
                    index as int,
                    start,
                    y,
                ) == Ok::<(Seq<Glyph<G>>, G), GpuFault>((row, cursor)),
                glyphs_of(instances@) == before + row,
            decreases chars@.len() - index,
        {
            proof {
                if proportional_row(
                    self@,
                    anchor@,
                    chars@,
                    advances@,
                    index + 1,
                    start,
                    y,
                ) is Err {
                    lemma_proportional_row_fault(
                        self@,
                        anchor@,
                        chars@,
                        advances@,
                        index as int,
                        chars@.len() as int,
                        start,
                        y,
                    );
                }
            }
            let c = chars[index];
            let advance = advances[index];
            let x = advance.mul_add(G::ratio(1, 2), cursor);
            let uvs = match self.place(c, x, "proportional glyph offset") {
                Ok(uvs) => uvs,
                Err(error) => {
                    return Err(error);
                },
            };
            let next = cursor.add(advance);
            if let Err(error) = validate_derived_geometry("proportional glyph cursor", next) {
                return Err(error);
            }
            self.push_glyph(anchor, c, x, y, uvs, instances);
            proof {
                let glyph = glyph_at(self@, anchor@, c, x, y);
                assert((before + row).push(glyph) =~= before + row.push(glyph));
                row = row.push(glyph);
            }
            cursor = next;
            index += 1;
        }
        Ok(())
    }

    /// Check lines before their advances are asked for.
    fn check_lines<G: Coordinate>(&self, lines: &Vec<Vec<char>>, config: &TextLayoutConfig<G>) -> (r:
        Result<(), Error>)
        ensures
            r is Ok <==> lines_placeable(self@, char_lines(lines@), *config),
            r matches Err(error) ==> unplaceable(self@, char_lines(lines@), *config, error),
    {
        let span = span_of_lines(lines.len(), config.line_spacing);
        if let Err(error) = validate_derived_geometry("multi-line vertical span", span) {
            return Err(error);
        }
        let glyphs = match self.count_glyphs(
            lines,
            "counting proportional GPU glyph instances",
        ) {
            Ok(glyphs) => glyphs,
            Err(error) => {
                return Err(error);
            },
        };
        match validate_glyph_buffer_capacity(glyphs, config.max_glyphs) {
            Ok(_) => Ok(()),
            Err(error) => Err(error),
        }
    }

    /// Emit `GlyphInstance` data for lines that can be placed, with an advance
    /// for each glyph.
    fn emit_proportional<G: Coordinate>(
        &self,
        lines: &Vec<Vec<char>>,
        advances: &Vec<Vec<G>>,
        anchor: &LabelAnchor<G>,
        config: &TextLayoutConfig<G>,
    ) -> (r: Result<Vec<GlyphInstance<G>>, Error>)
        requires
            advances_match(char_lines(lines@), advances_of(advances@)),
            lines_placeable(self@, char_lines(lines@), *config),
        ensures
            proportional_outcome(
                self@,
                anchor@,
                char_lines(lines@),
                advances_of(advances@),
                *config,
                glyph_result(r),
            ),
    {
        let ghost all = char_lines(lines@);
        let ghost steps = advances_of(advances@);
        let count: usize = lines.len();
        let span = span_of_lines(count, config.line_spacing);
        let top = start_of_block(config.vertical_align, span);
        let mut instances: Vec<GlyphInstance<G>> = Vec::new();
        let mut index: usize = 0;
        proof {
            assert(glyphs_of(instances@) =~= Seq::empty());
        }
        while index < count
            invariant
                index <= count == lines@.len(),
                all == char_lines(lines@),
                steps == advances_of(advances@),
                advances_match(all, steps),
                lines_placeable(self@, all, *config),
                top == top_line(
                    config.vertical_align,
                    line_span(all.len(), config.line_spacing),
                ),
                proportional_rows(self@, anchor@, all, steps, index as int, *config) == Ok::<
                    Seq<Glyph<G>>,
                    GpuFault,
                >(glyphs_of(instances@)),
            decreases count - index,
        {
            proof {
                assert(all[index as int] == lines@[index as int]@);
                assert(steps[index as int] == advances@[index as int]@);
                if proportional_rows(self@, anchor@, all, steps, index + 1, *config) is Err {
                    lemma_proportional_rows_fault(
                        self@,
                        anchor@,
                        all,
                        steps,
                        index as int,
                        count as int,
                        *config,
                    );
                }
            }
            let width = match sum_advances(&advances[index]) {
                Ok(width) => width,
                Err(error) => {
                    return Err(error);
                },
            };
            let start = start_of_line(config.align, width);
            let y = G::ratio(index, 1).mul_add(config.line_spacing.neg(), top);
            if let Err(error) = validate_derived_geometry("multi-line vertical offset", y) {
                return Err(error);
            }
            if let Err(error) = self.emit_proportional_row(
                anchor,
                &lines[index],
                &advances[index],
                start,
                y,
                &mut instances,
            ) {
                return Err(error);
            }
            index += 1;
        }
        Ok(instances)
    }

    /// Place lines that are already broken, given the advance of each glyph in
    /// `font_size` units.
    ///
    /// # Errors
    ///
    /// Returns an error when an advance or a derived value is invalid, the
    /// atlas does not hold a character, or the output bound is exceeded.
    pub fn place_proportional_lines<G: Coordinate>(
        &self,
        lines: &Vec<Vec<char>>,
        advances: &Vec<Vec<G>>,
        world_pos: [G; 3],
        font_size: G,
        color: [G; 4],
        config: &TextLayoutConfig<G>,
    ) -> (r: Result<Vec<GlyphInstance<G>>, Error>)
        requires
            advances_match(char_lines(lines@), advances_of(advances@)),
        ensures
            proportional_outcome(
                self@,
                (Anchor { world_pos: world_pos@, font_size, color: color@ }),
                char_lines(lines@),
                advances_of(advances@),
                *config,
                glyph_result(r),
            ),
    {
        let anchor = LabelAnchor { world_pos, font_size, color };
        if let Err(error) = self.check_lines(lines, config) {
            return Err(error);
        }
        self.emit_proportional(lines, advances, &anchor, config)
    }
}

/// Whether a callback may have given these advances.
pub open spec fn may_advance<G, F: Fn(char) -> G>(
    glyph_advance: F,
    lines: Seq<Seq<char>>,
    advances: Seq<Seq<G>>,
) -> bool {
    &&& advances_match(lines, advances)
    &&& forall|i: int, k: int|
        #![trigger advances[i][k]]
        0 <= i < lines.len() && 0 <= k < lines[i].len() ==> call_ensures(
            glyph_advance,
            (lines[i][k],),
            advances[i][k],
        )
}

/// The width in pixels that a label is wrapped at.
pub open spec fn label_width<W: Scalar, G: Widen<W>>(
    max_width: Option<G>,
    font_size: G,
    size_px: W,
) -> Option<W> {
    match max_width {
        None => Some(W::infinite_value()),
        Some(width) => {
            let pixels = width.over(font_size).widened().times(size_px);
            if positive(pixels) {
                Some(pixels)
            } else {
                None
            }
        },
    }
}

/// What placing the lines of rich text with a callback may give.
pub open spec fn placed_outcome<W: Scalar, G: Widen<W>, F: Fn(char) -> G>(
    atlas: AtlasView,
    anchor: Anchor<G>,
    rich: RichText<W>,
    size_px: W,
    config: TextLayoutConfig<G>,
    glyph_advance: F,
    outcome: Result<Seq<Glyph<G>>, Error>,
) -> bool {
    match label_width(config.max_width, anchor.font_size, size_px) {
        None => outcome matches Err(error) && invalid_pixel_width(error),
        Some(max_width) => {
            let lines = broken_lines(rich, max_width);
            if !nonnegative(max_width) {
                outcome matches Err(error) && invalid_max_width(error)
            } else if !rich.data.profile.valid() {
                outcome matches Err(error) && invalid_profile(error)
            } else if !lines_placeable(atlas, lines, config) {
                outcome matches Err(error) && unplaceable(atlas, lines, config, error)
            } else {
                exists|advances: Seq<Seq<G>>|
                    {
                        &&& #[trigger] may_advance(glyph_advance, lines, advances)
                        &&& proportional_outcome(atlas, anchor, lines, advances, config, outcome)
                    }
            }
        },
    }
}

/// What laying out a label with a callback for the advances may give.
pub open spec fn label_outcome<W: Scalar, G: Widen<W>, B: MeasureBackend<W>, F: Fn(char) -> G>(
    atlas: AtlasView,
    anchor: Anchor<G>,
    text: Seq<char>,
    config: TextLayoutConfig<G>,
    backend: &B,
    font: FontView<W>,
    glyph_advance: F,
    outcome: Result<Seq<Glyph<G>>, Error>,
) -> bool {
    if !gate_passes(atlas, anchor, text, config, false, true) {
        outcome matches Err(error) && gate_fault(atlas, anchor, text, config, false, true, error)
    } else if text.len() == 0 {
        outcome == Ok::<Seq<Glyph<G>>, Error>(Seq::empty())
    } else {
        exists|prepared: Result<RichText<W>, Error>|
            {
                &&& #[trigger] rich_outcome(backend, text, font, label_options(), prepared)
                &&& match prepared {
                    Err(error) => outcome == Err::<Seq<Glyph<G>>, Error>(error),
                    Ok(rich) => placed_outcome(
                        atlas,
                        anchor,
                        rich,
                        font.size_px,
                        config,
                        glyph_advance,
                        outcome,
                    ),
                }
            }
    }
}

proof fn lemma_supported(atlas: AtlasView, text: Seq<char>, from: int, index: int)
    requires
        0 <= from <= index < text.len(),
        first_unsupported(atlas, text, from, false) is None,
    ensures
        atlas.holds(text[index]),
    decreases index - from,
{
    if from < index {
        lemma_supported(atlas, text, from + 1, index);
    }
}

/// Lines that are counted are lines that the atlas holds.
proof fn lemma_counted_are_held(
    atlas: AtlasView,
    lines: Seq<Seq<char>>,
    count: int,
    operation: Seq<char>,
    index: int,
    position: int,
)
    requires
        0 <= index < count <= lines.len(),
        0 <= position < lines[index].len(),
        counted_glyphs(atlas, lines, count, operation) is Ok,
    ensures
        atlas.holds(lines[index][position]),
    decreases count,
{
    if index < count - 1 {
        lemma_counted_are_held(atlas, lines, count - 1, operation, index, position);
    } else {
        lemma_supported(atlas, lines[index], 0, position);
    }
}

/// Whether a callback can be asked for every character of some lines.
spec fn can_ask<G, F: Fn(char) -> G>(glyph_advance: F, lines: Seq<Seq<char>>) -> bool {
    forall|i: int, k: int|
        0 <= i < lines.len() && 0 <= k < lines[i].len() ==> call_requires(
            glyph_advance,
            (#[trigger] lines[i][k],),
        )
}

/// Ask a callback for the advance of each character.
fn ask_advances<G: Scalar, F: Fn(char) -> G>(lines: &Vec<Vec<char>>, glyph_advance: &F) -> (r: Vec<
    Vec<G>,
>)
    requires
        can_ask(*glyph_advance, char_lines(lines@)),
    ensures
        may_advance(*glyph_advance, char_lines(lines@), advances_of(r@)),
{
    let ghost all = char_lines(lines@);
    let mut advances: Vec<Vec<G>> = Vec::new();
    let mut index: usize = 0;
    while index < lines.len()
        invariant
            index <= lines@.len(),
            all == char_lines(lines@),
            advances@.len() == index,
            can_ask(*glyph_advance, all),
            forall|i: int| 0 <= i < index ==> (#[trigger] advances@[i])@.len() == all[i].len(),
            forall|i: int, k: int|
                #![trigger advances@[i]@[k]]
                0 <= i < index && 0 <= k < all[i].len() ==> call_ensures(
                    *glyph_advance,
                    (all[i][k],),
                    advances@[i]@[k],
                ),
        decreases lines@.len() - index,
    {
        let chars = &lines[index];
        let mut line: Vec<G> = Vec::new();
        let mut position: usize = 0;
        proof {
            assert(all[index as int] == chars@);
        }
        while position < chars.len()
            invariant
                position <= chars@.len(),
                line@.len() == position,
                can_ask(*glyph_advance, all),
                index < all.len(),
                all[index as int] == chars@,
                forall|k: int|
                    0 <= k < position ==> call_ensures(
                        *glyph_advance,
                        (chars@[k],),
                        #[trigger] line@[k],
                    ),
            decreases chars@.len() - position,
        {
            let c = chars[position];
            proof {
                assert(all[index as int][position as int] == c);
            }
            let advance = glyph_advance(c);
            line.push(advance);
            position += 1;
        }
        advances.push(line);
        index += 1;
    }
    proof {
        let values = advances_of(advances@);
        assert forall|i: int| 0 <= i < all.len() implies (#[trigger] all[i]).len()
            == values[i].len() by {
            assert(values[i] == advances@[i]@);
        }
        assert forall|i: int, k: int|
            #![trigger values[i][k]]
            0 <= i < all.len() && 0 <= k < all[i].len() implies call_ensures(
            *glyph_advance,
            (all[i][k],),
            values[i][k],
        ) by {
            assert(values[i][k] == advances@[i]@[k]);
        }
    }
    advances
}

impl GpuTextLayout {
    /// Layout a label using the line breaker and an explicit per-glyph
    /// advance function for placement.
    ///
    /// Use this when the font is proportional (e.g. Inter) and you have real
    /// per-glyph advance widths. The `layout_single_line` / `layout_multiline`
    /// paths use a single fixed `glyph_advance`, which is fine for monospace
    /// fonts but breaks proportional layout. This path uses the caller-supplied
    /// `glyph_advance(ch)` for both per-glyph stepping and line-width totals.
    ///
    /// Line-break decisions still flow through `backend`, so for consistent
    /// results the backend and the `glyph_advance` callback should agree on
    /// character widths (i.e. derive them from the same font).
    ///
    /// # Convention
    ///
    /// Glyph offsets are emitted with the **glyph centered inside its advance
    /// window**: a glyph with advance `w` starting at cursor `x` is placed at
    /// `x + w/2`. If your shader treats `glyph_offset` as the left edge of the
    /// quad, subtract `0.5` from each emitted offset.
    ///
    /// # Parameters
    ///
    /// * `text` -- text content; explicit `\n` produces a hard break.
    /// * `world_pos` -- world-space anchor point copied onto every emitted instance.
    /// * `font_size` -- world-space height of one glyph quad.
    /// * `color` -- RGBA tint copied onto every emitted instance.
    /// * `config` -- alignment and `max_width` (in world units). The `glyph_advance`
    ///   field of `config` is ignored.
    /// * `backend` -- measurement backend used for line-break decisions.
    /// * `font_spec` -- font spec passed to `backend`.
    /// * `glyph_advance` -- returns the per-glyph advance in `font_size` units
    ///   (1.0 == one `font_size` wide). It is asked for characters of the atlas
    ///   only; hard line-break controls are structure and are not passed to it.
    ///
    /// # Errors
    ///
    /// Returns an error when geometry, callback advances, backend measurements,
    /// atlas coverage, or output resource bounds are invalid.
    pub fn layout_label_proportional<W: Scalar, G: Widen<W>, B: MeasureBackend<W>, F>(
        &self,
        text: &str,
        world_pos: [G; 3],
        font_size: G,
        color: [G; 4],
        config: &TextLayoutConfig<G>,
        backend: &B,
        font_spec: &FontSpec<W>,
        glyph_advance: F,
    ) -> (r: Result<Vec<GlyphInstance<G>>, Error>) where F: Fn(char) -> G
        requires
            forall|c: char| self@.holds(c) ==> call_requires(glyph_advance, (c,)),
        ensures
            label_outcome(
                self@,
                (Anchor { world_pos: world_pos@, font_size, color: color@ }),
                text@,
                *config,
                backend,
                font_spec@,
                glyph_advance,
                glyph_result(r),
            ),
    {
        let anchor = LabelAnchor { world_pos, font_size, color };
        let chars = chars_of(text);
        if let Err(error) = self.check_label(text, &chars, &anchor, config, false, true) {
            return Err(error);
        }
        if chars.len() == 0 {
            let empty: Vec<GlyphInstance<G>> = Vec::new();
            proof {
                assert(glyphs_of(empty@) =~= Seq::empty());
            }
            return Ok(empty);
        }
        // Hard breaks stay breaks: normal mode would collapse them to spaces.
        let options = PrepareOptions {
            white_space: WhiteSpaceMode::PreWrap,
            profile: None,
            max_input_bytes: DEFAULT_MAX_INPUT_BYTES,
            max_graphemes: DEFAULT_MAX_GRAPHEMES,
            max_segments: DEFAULT_MAX_SEGMENTS,
        };
        let prepared = match prepare_with_segments(text, font_spec, backend, options) {
            Ok(prepared) => prepared,
            Err(error) => {
                proof {
                    assert(rich_outcome(
                        backend,
                        text@,
                        font_spec@,
                        label_options(),
                        Err::<RichText<W>, Error>(error),
                    ));
                }
                return Err(error);
            },
        };
        proof {
            assert(rich_outcome(
                backend,
                text@,
                font_spec@,
                label_options(),
                Ok::<RichText<W>, Error>(prepared@),
            ));
        }
        let max_width: W = match config.max_width {
            None => W::infinity(),
            Some(width) => {
                let pixels: W = width.div(font_size).widen().mul(font_spec.size_px());
                if !is_positive(pixels) {
                    return Err(
                        Error::invalid_input(
                            "derived pixel max width",
                            "must be finite and greater than zero",
                        ),
                    );
                }
                pixels
            },
        };
        let lines = match layout_with_lines(&prepared, max_width) {
            Ok(lines) => lines,
            Err(error) => {
                return Err(error);
            },
        };
        let line_chars = lines_to_chars(&lines);
        proof {
            lemma_broken_lines(prepared@, max_width, lines@, line_chars@);
        }
        if let Err(error) = self.check_lines(&line_chars, config) {
            return Err(error);
        }
        proof {
            let all = char_lines(line_chars@);
            assert forall|i: int, k: int|
                0 <= i < all.len() && 0 <= k < all[i].len() implies call_requires(
                glyph_advance,
                (#[trigger] all[i][k],),
            ) by {
                lemma_counted_are_held(
                    self@,
                    all,
                    all.len() as int,
                    "counting proportional GPU glyph instances"@,
                    i,
                    k,
                );
            }
        }
        let advances = ask_advances(&line_chars, &glyph_advance);
        self.emit_proportional(&line_chars, &advances, &anchor, config)
    }
}

} // verus!
