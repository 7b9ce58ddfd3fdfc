//! Where the glyphs of a label stand: each in its column, its row and its cell
//! of the atlas.
use crate::gpu_layout::{
    advances_width, first_unsupported, fixed_outcome, fixed_row, fixed_rows, proportional_outcome,
    proportional_row, proportional_rows, simple_outcome, single_line_outcome, supported, Anchor,
    AtlasView, Glyph, TextAlign, TextLayoutConfig, VerticalAlign,
};
use crate::scalar::{is_measure, sum_of, sum_onto, Coordinate, Scalar};
use crate::text::joined;
use vstd::prelude::*;

verus! {

/// Where a row of some width starts: at the anchor, half its width before it,
/// or all of its width before it.
pub open spec fn starts_at<G: Coordinate>(align: TextAlign, width: G) -> G {
    match align {
        TextAlign::Left => G::zero_value(),
        TextAlign::Center => width.negated().times(G::ratio_value(1, 2)),
        TextAlign::Right => width.negated(),
    }
}

/// Where row `index` of so many stands: one spacing below the row before it,
/// where the first row stands at the anchor, half the extent of all rows above
/// it, or all of that extent above it.
pub open spec fn stands_at<G: Coordinate>(
    align: VerticalAlign,
    spacing: G,
    rows: nat,
    index: nat,
) -> G {
    let extent = G::ratio_value(
        if rows > 0 {
            (rows - 1) as nat
        } else {
            0
        },
        1,
    ).times(spacing);
    G::ratio_value(index, 1).fused(
        spacing.negated(),
        match align {
            VerticalAlign::Top => G::zero_value(),
            VerticalAlign::Center => extent.times(G::ratio_value(1, 2)),
            VerticalAlign::Bottom => extent,
        },
    )
}

/// Whether a glyph shows the cell of a character: cells are as large as a glyph
/// and stand in rows, one character after the other.
pub open spec fn shows_cell_of<G: Scalar>(atlas: AtlasView, c: char, glyph: Glyph<G>) -> bool {
    let side: G = G::ratio_value(atlas.glyph_size as nat, atlas.atlas_size as nat);
    let index = c as u32 - atlas.first_char;
    let column = G::ratio_value((index % atlas.glyphs_per_row as int) as nat, 1);
    let row = G::ratio_value((index / atlas.glyphs_per_row as int) as nat, 1);
    &&& atlas.first_char <= c as u32 && (c as u32) < atlas.last_char
    &&& glyph.uv_min == (column.times(side), row.times(side))
    &&& glyph.uv_max == (column.times(side).plus(side), row.times(side).plus(side))
}

/// The number of characters of the lines before line `index`.
pub open spec fn chars_before(lines: Seq<Seq<char>>, index: int) -> int {
    joined(lines.take(index)).len() as int
}

proof fn lemma_row_at<G: Coordinate>(
    atlas: AtlasView,
    anchor: Anchor<G>,
    chars: Seq<char>,
    count: int,
    advance: G,
    start: G,
    y: G,
    parameter: Seq<char>,
    column: int,
)
    requires
        0 <= count <= chars.len(),
    ensures
        fixed_row(atlas, anchor, chars, count, advance, start, y, parameter) matches Ok(row) ==> {
            &&& row.len() == count
            &&& 0 <= column < count ==> {
                &&& row[column].anchor == anchor
                &&& row[column].x == advance.fused(
                    G::ratio_value(1, 2),
                    G::ratio_value(column as nat, 1).fused(advance, start),
                )
                &&& row[column].y == y
                &&& shows_cell_of(atlas, chars[column], row[column])
            }
        },
    decreases count,
{
    if count > 0 {
        lemma_row_at(atlas, anchor, chars, count - 1, advance, start, y, parameter, column);
    }
}

#[verifier::rlimit(40)]
proof fn lemma_rows_at<G: Coordinate>(
    atlas: AtlasView,
    anchor: Anchor<G>,
    lines: Seq<Seq<char>>,
    count: int,
    config: TextLayoutConfig<G>,
    line: int,
    column: int,
)
    requires
        0 <= count <= lines.len(),
    ensures
        fixed_rows(atlas, anchor, lines, count, config) matches Ok(rows) ==> {
            &&& rows.len() == chars_before(lines, count)
            &&& 0 <= line < count && 0 <= column < lines[line].len() ==> {
                let at = chars_before(lines, line) + column;
                let width = G::ratio_value(lines[line].len(), 1).times(config.glyph_advance);
                &&& 0 <= at < rows.len()
                &&& rows[at].anchor == anchor
                &&& rows[at].x == config.glyph_advance.fused(
                    G::ratio_value(1, 2),
                    G::ratio_value(column as nat, 1).fused(
                        config.glyph_advance,
                        starts_at(config.align, width),
                    ),
                )
                &&& rows[at].y == stands_at(
                    config.vertical_align,
                    config.line_spacing,
                    lines.len(),
                    line as nat,
                )
                &&& shows_cell_of(atlas, lines[line][column], rows[at])
            }
        },
    decreases count,
{
    if count > 0 {
        lemma_rows_at(atlas, anchor, lines, count - 1, config, line, column);
        assert(lines.take(count).drop_last() =~= lines.take(count - 1));
        let last = lines[count - 1];
        let width = G::ratio_value(last.len(), 1).times(config.glyph_advance);
        lemma_row_at(
            atlas,
            anchor,
            last,
            last.len() as int,
            config.glyph_advance,
            starts_at(config.align, width),
            stands_at(
                config.vertical_align,
                config.line_spacing,
                lines.len(),
                (count - 1) as nat,
            ),
            "multi-line glyph offset"@,
            column,
        );
    } else {
        assert(joined(lines.take(0)) =~= Seq::empty());
    }
}

/// The glyphs of a label with equal advances stand where they should: the one
/// for character `column` of line `line` follows those of all lines before it,
/// is centered in its advance, that many advances behind the start of its row,
/// and that many spacings below the first row, and shows the cell of its
/// character.
pub proof fn fixed_glyphs_stand_in_columns_and_rows<G: Coordinate>(
    atlas: AtlasView,
    anchor: Anchor<G>,
    lines: Seq<Seq<char>>,
    config: TextLayoutConfig<G>,
    glyphs: Seq<Glyph<G>>,
    line: int,
    column: int,
)
    requires
        fixed_outcome(atlas, anchor, lines, config, Ok(glyphs)),
        0 <= line < lines.len(),
        0 <= column < lines[line].len(),
    ensures
        glyphs.len() == joined(lines).len(),
        ({
            let at = chars_before(lines, line) + column;
            let width = G::ratio_value(lines[line].len(), 1).times(config.glyph_advance);
            &&& 0 <= at < glyphs.len()
            &&& glyphs[at].anchor == anchor
            &&& glyphs[at].x == config.glyph_advance.fused(
                G::ratio_value(1, 2),
                G::ratio_value(column as nat, 1).fused(
                    config.glyph_advance,
                    starts_at(config.align, width),
                ),
            )
            &&& glyphs[at].y == stands_at(
                config.vertical_align,
                config.line_spacing,
                lines.len(),
                line as nat,
            )
            &&& shows_cell_of(atlas, lines[line][column], glyphs[at])
        }),
{
    lemma_rows_at(atlas, anchor, lines, lines.len() as int, config, line, column);
    assert(lines.take(lines.len() as int) =~= lines);
}

/// The glyphs of a single line stand in columns as well, at the height of the
/// anchor.
pub proof fn glyphs_of_a_single_line_stand_in_columns<G: Coordinate>(
    atlas: AtlasView,
    anchor: Anchor<G>,
    text: Seq<char>,
    config: TextLayoutConfig<G>,
    glyphs: Seq<Glyph<G>>,
    column: int,
)
    requires
        single_line_outcome(atlas, anchor, text, config, Ok(glyphs)),
        0 <= column < text.len(),
    ensures
        glyphs.len() == text.len(),
        glyphs[column].anchor == anchor,
        glyphs[column].x == config.glyph_advance.fused(
            G::ratio_value(1, 2),
            G::ratio_value(column as nat, 1).fused(
                config.glyph_advance,
                starts_at(
                    config.align,
                    G::ratio_value(text.len(), 1).times(config.glyph_advance),
                ),
            ),
        ),
        glyphs[column].y == G::zero_value(),
        shows_cell_of(atlas, text[column], glyphs[column]),
{
    lemma_row_at(
        atlas,
        anchor,
        text,
        text.len() as int,
        config.glyph_advance,
        starts_at(config.align, G::ratio_value(text.len(), 1).times(config.glyph_advance)),
        G::zero_value(),
        "single-line glyph offset"@,
        column,
    );
}

proof fn lemma_advances_add_up<G: Coordinate>(advances: Seq<G>, count: int)
    requires
        0 <= count <= advances.len(),
    ensures
        advances_width(advances, count) matches Ok(width) ==> width == sum_of(
            advances.take(count),
        ) && forall|i: int| 0 <= i < count ==> is_measure(#[trigger] advances[i]),
    decreases count,
{
    if count > 0 {
        lemma_advances_add_up(advances, count - 1);
        assert(advances.take(count).drop_last() =~= advances.take(count - 1));
    } else {
        assert(advances.take(0) =~= Seq::empty());
    }
}

proof fn lemma_proportional_row_at<G: Coordinate>(
    atlas: AtlasView,
    anchor: Anchor<G>,
    chars: Seq<char>,
    advances: Seq<G>,
    count: int,
    start: G,
    y: G,
    column: int,
)
    requires
        0 <= count <= chars.len() == advances.len(),
    ensures
        proportional_row(atlas, anchor, chars, advances, count, start, y) matches Ok((row, next))
            ==> {
            &&& row.len() == count
            &&& next == sum_onto(start, advances.take(count))
            &&& 0 <= column < count ==> {
                &&& row[column].anchor == anchor
                &&& row[column].x == advances[column].fused(
                    G::ratio_value(1, 2),
                    sum_onto(start, advances.take(column)),
                )
                &&& row[column].y == y
                &&& shows_cell_of(atlas, chars[column], row[column])
            }
        },
    decreases count,
{
    if count > 0 {
        lemma_proportional_row_at(atlas, anchor, chars, advances, count - 1, start, y, column);
        assert(advances.take(count).drop_last() =~= advances.take(count - 1));
    } else {
        assert(advances.take(0) =~= Seq::empty());
    }
}

#[verifier::rlimit(40)]
proof fn lemma_proportional_rows_at<G: Coordinate>(
    atlas: AtlasView,
    anchor: Anchor<G>,
    lines: Seq<Seq<char>>,
    advances: Seq<Seq<G>>,
    count: int,
    config: TextLayoutConfig<G>,
    line: int,
    column: int,
)
    requires
        0 <= count <= lines.len() == advances.len(),
        forall|i: int| 0 <= i < lines.len() ==> (#[trigger] advances[i]).len() == lines[i].len(),
    ensures
        proportional_rows(atlas, anchor, lines, advances, count, config) matches Ok(rows) ==> {
            &&& rows.len() == chars_before(lines, count)
            &&& 0 <= line < count && 0 <= column < lines[line].len() ==> {
                let at = chars_before(lines, line) + column;
                let start = starts_at(config.align, sum_of(advances[line]));
                &&& 0 <= at < rows.len()
                &&& rows[at].anchor == anchor
                &&& is_measure(advances[line][column])
                &&& rows[at].x == advances[line][column].fused(
                    G::ratio_value(1, 2),
                    sum_onto(start, advances[line].take(column)),
                )
                &&& rows[at].y == stands_at(
                    config.vertical_align,
                    config.line_spacing,
                    lines.len(),
                    line as nat,
                )
                &&& shows_cell_of(atlas, lines[line][column], rows[at])
            }
        },
    decreases count,
{
    if count > 0 {
        lemma_proportional_rows_at(
            atlas,
            anchor,
            lines,
            advances,
            count - 1,
            config,
            line,
            column,
        );
        assert(lines.take(count).drop_last() =~= lines.take(count - 1));
        let last = lines[count - 1];
        let steps = advances[count - 1];
        assert(steps.len() == last.len());
        lemma_advances_add_up(steps, last.len() as int);
        assert(steps.take(last.len() as int) =~= steps);
        lemma_proportional_row_at(
            atlas,
            anchor,
            last,
            steps,
            last.len() as int,
            starts_at(config.align, sum_of(steps)),
            stands_at(
                config.vertical_align,
                config.line_spacing,
                lines.len(),
                (count - 1) as nat,
            ),
            column,
        );
    } else {
        assert(joined(lines.take(0)) =~= Seq::empty());
    }
}

/// The glyphs of a label with an advance for each stand where they should: each
/// is centered in its advance, behind the advances of those before it in its
/// row, that many spacings below the first row, and shows the cell of its
/// character. A row is as wide as its advances.
pub proof fn proportional_glyphs_follow_their_advances<G: Coordinate>(
    atlas: AtlasView,
    anchor: Anchor<G>,
    lines: Seq<Seq<char>>,
    advances: Seq<Seq<G>>,
    config: TextLayoutConfig<G>,
    glyphs: Seq<Glyph<G>>,
    line: int,
    column: int,
)
    requires
        proportional_outcome(atlas, anchor, lines, advances, config, Ok(glyphs)),
        lines.len() == advances.len(),
        forall|i: int| 0 <= i < lines.len() ==> (#[trigger] advances[i]).len() == lines[i].len(),
        0 <= line < lines.len(),
        0 <= column < lines[line].len(),
    ensures
        glyphs.len() == joined(lines).len(),
        is_measure(advances[line][column]),
        ({
            let at = chars_before(lines, line) + column;
            let start = starts_at(config.align, sum_of(advances[line]));
            &&& 0 <= at < glyphs.len()
            &&& glyphs[at].anchor == anchor
            &&& glyphs[at].x == advances[line][column].fused(
                G::ratio_value(1, 2),
                sum_onto(start, advances[line].take(column)),
            )
            &&& glyphs[at].y == stands_at(
                config.vertical_align,
                config.line_spacing,
                lines.len(),
                line as nat,
            )
            &&& shows_cell_of(atlas, lines[line][column], glyphs[at])
        }),
{
    lemma_proportional_rows_at(
        atlas,
        anchor,
        lines,
        advances,
        lines.len() as int,
        config,
        line,
        column,
    );
    assert(lines.take(lines.len() as int) =~= lines);
}

proof fn lemma_all_supported(
    atlas: AtlasView,
    text: Seq<char>,
    from: int,
    allow_hard_breaks: bool,
    index: int,
)
    requires
        0 <= from <= index < text.len(),
        first_unsupported(atlas, text, from, allow_hard_breaks) is None,
    ensures
        supported(atlas, text[index], allow_hard_breaks),
    decreases index - from,
{
    if from < index {
        lemma_all_supported(atlas, text, from + 1, allow_hard_breaks, index);
    }
}

/// No character is dropped for want of a glyph: a label that is laid out holds
/// characters of the atlas and line endings only, and a single line characters
/// of the atlas only.
pub proof fn labels_without_a_glyph_are_refused<G: Coordinate>(
    atlas: AtlasView,
    anchor: Anchor<G>,
    text: Seq<char>,
    config: TextLayoutConfig<G>,
    glyphs: Seq<Glyph<G>>,
    index: int,
)
    requires
        0 <= index < text.len(),
    ensures
        single_line_outcome(atlas, anchor, text, config, Ok(glyphs)) ==> atlas.first_char
            <= text[index] as u32 && (text[index] as u32) < atlas.last_char,
        simple_outcome(atlas, anchor, text, config, Ok(glyphs)) ==> text[index] == '\n'
            || text[index] == '\r' || text[index] == '\u{000C}' || atlas.first_char
            <= text[index] as u32 && (text[index] as u32) < atlas.last_char,
{
    if single_line_outcome(atlas, anchor, text, config, Ok(glyphs)) {
        lemma_all_supported(atlas, text, 0, false, index);
    }
    if simple_outcome(atlas, anchor, text, config, Ok(glyphs)) {
        lemma_all_supported(atlas, text, 0, true, index);
    }
}

} // verus!
