//! What holds of measured widths and of bidi levels: a text is as wide as its
//! glyphs, and a segment has the level of its first character.
use crate::backend::skrifa_backend::{
    cjk_in, cluster_advance, lookups_match, nominal_outcome, segment_advance, GlyphLookup,
};
use crate::backend::SegmentMetrics;
use crate::bidi::{byte_levels, levels_known};
use crate::prepare::segment_levels;
use crate::scalar::{is_measure, sum_of, Scalar};
use crate::text::{joined, lemma_joined_concat, lemma_joined_one};
use crate::unicode::cjk;
use vstd::prelude::*;
use vstd::utf8::encode_utf8;

verus! {

// ---- Glyph advances -----------------------------------------------------------------------------

/// The advance of a character: none for a word joiner and a byte order mark,
/// and that of its glyph for any other.
pub open spec fn advance_of_char<W: Scalar>(c: char, lookup: GlyphLookup<W>) -> W {
    if c == '\u{2060}' || c == '\u{FEFF}' {
        W::zero_value()
    } else {
        lookup.advance->0
    }
}

/// Whether the advance of a character is known: it needs none, or its font has a
/// glyph for it and a width for that.
pub open spec fn has_advance<W: Scalar>(c: char, lookup: GlyphLookup<W>) -> bool {
    c == '\u{2060}' || c == '\u{FEFF}' || lookup.glyph is Some && lookup.advance is Some
        && is_measure(lookup.advance->0)
}

/// The advances of the characters of a cluster.
pub open spec fn advances_in<W: Scalar>(chars: Seq<char>, lookups: Seq<GlyphLookup<W>>) -> Seq<W> {
    Seq::new(chars.len(), |k: int| advance_of_char(chars[k], lookups[k]))
}

/// The widths of clusters: each as wide as its characters, added up.
pub open spec fn widths_in<W: Scalar>(
    clusters: Seq<Seq<char>>,
    lookups: Seq<Seq<GlyphLookup<W>>>,
) -> Seq<W> {
    Seq::new(clusters.len(), |i: int| sum_of(advances_in(clusters[i], lookups[i])))
}

proof fn lemma_cluster<W: Scalar>(chars: Seq<char>, lookups: Seq<GlyphLookup<W>>, count: int)
    requires
        0 <= count <= chars.len() == lookups.len(),
    ensures
        cluster_advance(chars, lookups, count) matches Ok(width) ==> width == sum_of(
            advances_in(chars, lookups).take(count),
        ) && forall|k: int| 0 <= k < count ==> has_advance(chars[k], #[trigger] lookups[k]),
    decreases count,
{
    let advances = advances_in(chars, lookups);
    if count > 0 {
        lemma_cluster(chars, lookups, count - 1);
        assert(advances.take(count).drop_last() =~= advances.take(count - 1));
        assert(advances.take(count).last() == advance_of_char(
            chars[count - 1],
            lookups[count - 1],
        ));
    } else {
        assert(advances.take(0) =~= Seq::empty());
    }
}

proof fn lemma_segment<W: Scalar>(
    clusters: Seq<Seq<char>>,
    lookups: Seq<Seq<GlyphLookup<W>>>,
    count: int,
)
    requires
        0 <= count <= clusters.len(),
        lookups_match(clusters, lookups),
    ensures
        segment_advance(clusters, lookups, count) matches Ok((widths, total)) ==> {
            &&& widths == widths_in(clusters, lookups).take(count)
            &&& total == sum_of(widths_in(clusters, lookups).take(count))
            &&& forall|i: int, k: int|
                0 <= i < count && 0 <= k < clusters[i].len() ==> has_advance(
                    clusters[i][k],
                    #[trigger] lookups[i][k],
                )
        },
    decreases count,
{
    let widths = widths_in(clusters, lookups);
    if count > 0 {
        lemma_segment(clusters, lookups, count - 1);
        let cluster = clusters[count - 1];
        let found = lookups[count - 1];
        assert(cluster.len() == found.len());
        lemma_cluster(cluster, found, cluster.len() as int);
        assert(advances_in(cluster, found).take(cluster.len() as int) =~= advances_in(
            cluster,
            found,
        ));
        assert(widths.take(count).drop_last() =~= widths.take(count - 1));
        assert(widths.take(count) =~= widths.take(count - 1).push(widths[count - 1]));
    } else {
        assert(widths.take(0) =~= Seq::empty());
    }
}

proof fn lemma_holds_cjk(text: Seq<char>, count: int)
    requires
        0 <= count <= text.len(),
    ensures
        cjk_in(text, count) == exists|i: int| 0 <= i < count && cjk(#[trigger] text[i]),
    decreases count,
{
    if count > 0 {
        lemma_holds_cjk(text, count - 1);
        if cjk(text[count - 1]) {
            assert(0 <= count - 1 < count && cjk(text[count - 1]));
        }
    }
}

/// A text that is measured glyph by glyph is as wide as its glyphs: every
/// character has one, each cluster is as wide as its characters and the text as
/// wide as its clusters, added up from the left. No width is made up for a
/// character without a glyph.
pub proof fn nominal_text_is_as_wide_as_its_glyphs<W: Scalar>(
    clusters: Seq<Seq<char>>,
    family: Seq<char>,
    lookups: Seq<Seq<GlyphLookup<W>>>,
    metrics: SegmentMetrics<W>,
)
    requires
        lookups_match(clusters, lookups),
        nominal_outcome(clusters, family, lookups, Ok(metrics)),
    ensures
        forall|i: int, k: int|
            0 <= i < clusters.len() && 0 <= k < clusters[i].len() ==> has_advance(
                clusters[i][k],
                #[trigger] lookups[i][k],
            ),
        metrics.width == sum_of(widths_in(clusters, lookups)),
        metrics.widths() == if clusters.len() > 1 {
            Some(widths_in(clusters, lookups))
        } else {
            None
        },
        metrics.contains_cjk == exists|i: int|
            0 <= i < joined(clusters).len() && cjk(#[trigger] joined(clusters)[i]),
{
    lemma_segment(clusters, lookups, clusters.len() as int);
    let widths = widths_in(clusters, lookups);
    assert(widths.take(clusters.len() as int) =~= widths);
    lemma_holds_cjk(joined(clusters), joined(clusters).len() as int);
}

// ---- Bidi levels --------------------------------------------------------------------------------

/// Where a segment starts, in bytes of the whole text.
pub open spec fn byte_offset(segments: Seq<Seq<char>>, index: int) -> int {
    encode_utf8(joined(segments.take(index))).len() as int
}

/// A segment has the bidi level that the first of its characters has in the
/// whole text; there are no levels exactly where every character of the text
/// reads from left to right.
#[verifier::rlimit(40)]
pub proof fn segments_have_the_level_of_their_start(segments: Seq<Seq<char>>, index: int)
    requires
        0 <= index < segments.len(),
        segments[index].len() > 0,
        joined(segments).len() <= usize::MAX,
        levels_known(
            joined(segments),
            byte_levels(joined(segments)),
            joined(segments).len() as int,
        ),
    ensures
        ({
            let text = joined(segments);
            let levels = byte_levels(text);
            match segment_levels(segments) {
                Some(found) => {
                    &&& found.len() == segments.len()
                    &&& found[index] == levels[byte_offset(segments, index)]
                    &&& exists|i: int|
                        0 <= i < text.len() && levels[#[trigger] encode_utf8(
                            text.take(i),
                        ).len() as int] != 0
                },
                None => forall|i: int|
                    0 <= i < text.len() ==> levels[#[trigger] encode_utf8(
                        text.take(i),
                    ).len() as int] == 0,
            }
        }),
{
    let text = joined(segments);
    let levels = byte_levels(text);
    let before = joined(segments.take(index));
    let start = before.len() as int;
    let rest = segments.skip(index);
    assert(segments =~= segments.take(index) + rest);
    lemma_joined_concat(segments.take(index), rest);
    assert(rest =~= seq![segments[index]] + segments.skip(index + 1));
    lemma_joined_concat(seq![segments[index]], segments.skip(index + 1));
    lemma_joined_one(segments[index]);
    assert(text.take(start) =~= before);
    assert(start < text.len());
    let found = crate::bidi::start_levels(text, levels);
    assert(crate::bidi::scalar_offset(text, start) == byte_offset(segments, index));
    assert(levels[crate::bidi::scalar_offset(text, start)] <= 127);
    assert forall|i: int| 0 <= i < text.len() implies (levels[#[trigger] encode_utf8(
        text.take(i),
    ).len() as int] == 0) == (found[i] == 0) by {
        assert(crate::bidi::scalar_offset(text, i) < levels.len());
        assert(levels[crate::bidi::scalar_offset(text, i)] <= 127);
    }
    if crate::bidi::all_base(found) {
        assert forall|i: int| 0 <= i < text.len() implies levels[#[trigger] encode_utf8(
            text.take(i),
        ).len() as int] == 0 by {
            assert(found[i] == 0);
        }
    } else {
        let i = choose|i: int| 0 <= i < found.len() && #[trigger] found[i] != 0;
        assert(levels[encode_utf8(text.take(i)).len() as int] != 0);
    }
}

} // verus!
