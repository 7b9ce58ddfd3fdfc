//! Unicode text segmentation, as `unicode-segmentation` computes it.
use crate::text::{joined, views};
use unicode_segmentation::UnicodeSegmentation;
use vstd::prelude::*;

verus! {

/// The extended grapheme clusters of a text.
pub uninterp spec fn grapheme_clusters(text: Seq<char>) -> Seq<Seq<char>>;

/// The pieces of a text between its word boundaries.
pub uninterp spec fn word_bounds(text: Seq<char>) -> Seq<Seq<char>>;

/// Whether a character is alphabetic or numeric.
pub uninterp spec fn alphanumeric(c: char) -> bool;

/// `UnicodeSegmentation::graphemes` with extended clusters, collected.
///
/// Claimed of it: the clusters depend on the text alone, none of them is empty,
/// and one after the other they are the text. Where the boundaries lie is
/// Unicode Standard Annex 29 and is left to the crate.
#[verifier::external_body]
pub(crate) fn graphemes(text: &str) -> (r: Vec<String>)
    ensures
        views(r@) == grapheme_clusters(text@),
        joined(views(r@)) == text@,
        forall|i: int| 0 <= i < r@.len() ==> (#[trigger] r@[i])@.len() > 0,
{
    text.graphemes(true).map(|cluster| cluster.to_string()).collect()
}

/// `UnicodeSegmentation::split_word_bounds`, collected.
///
/// Claimed of it: the pieces depend on the text alone, none of them is empty,
/// and one after the other they are the text. Where the boundaries lie is
/// Unicode Standard Annex 29 and is left to the crate.
#[verifier::external_body]
pub(crate) fn split_word_bounds(text: &str) -> (r: Vec<String>)
    ensures
        views(r@) == word_bounds(text@),
        joined(views(r@)) == text@,
        forall|i: int| 0 <= i < r@.len() ==> (#[trigger] r@[i])@.len() > 0,
{
    text.split_word_bounds().map(|piece| piece.to_string()).collect()
}

/// `char::is_alphanumeric` of the standard library.
///
/// Claimed of it: the answer depends on the character alone, and among the
/// ASCII characters it picks the letters and the digits.
pub assume_specification[ char::is_alphanumeric ](c: char) -> (r: bool)
    ensures
        r == alphanumeric(c),
        c <= '\u{7F}' ==> r == (('0' <= c && c <= '9') || ('A' <= c && c <= 'Z') || ('a' <= c && c
            <= 'z')),
;

} // verus!
