//! Nominal Skrifa advances for native estimation.
//!
//! This backend owns validated font bytes and uses `skrifa` for Unicode
//! character mapping and scaled per-codepoint advance widths. It does not shape
//! text, apply kerning, form ligatures, or position complex-script clusters.
//! The type name makes that limitation explicit: do not use it when line
//! breaks must match rendered production typography. Missing fonts, glyphs,
//! and unusable font data are reported as errors rather than substituted.
//! Face selection uses only [`super::FontSpec::family`] and size. CSS
//! style/weight/stretch tokens and later fallback families do not select a
//! different registered face; callers must register and name the exact face
//! whose nominal advances they intend to estimate.
use super::{validate_metric, FontSpec, SegmentMetrics};
use crate::decimal::{numeral, push_numeral};
use crate::error::Error;
use crate::format::{hex_numeral, push_hex, quote, quoted};
use crate::prepare::zero_width_glue;
use crate::scalar::{is_measure, Scalar};
use crate::segmentation::{grapheme_clusters, graphemes};
use crate::text::{chars_of, joined, string_of, trim_chars, trimmed, views};
use crate::unicode::{cjk, emoji, is_cjk, is_emoji};
use skrifa::prelude::{FontRef, LocationRef, MetadataProvider, Size};
use skrifa::GlyphId;
use vstd::hash_map::StringHashMap;
use vstd::prelude::*;
use vstd::slice::slice_to_vec;
use vstd::string::*;

verus! {

// ---- What skrifa says of font bytes -----------------------------------------------------

/// What keeps the first face of some bytes from being read, if anything.
pub uninterp spec fn face_fault(data: Seq<u8>) -> Option<Seq<char>>;

/// Whether the first face has a character map.
pub uninterp spec fn face_has_map(data: Seq<u8>) -> bool;

/// The design units per em of the first face, zero where it has none.
pub uninterp spec fn face_units_per_em(data: Seq<u8>) -> u16;

/// The number of glyphs of the first face.
pub uninterp spec fn face_glyph_count(data: Seq<u8>) -> u32;

/// Whether the first face has an advance for glyph zero.
pub uninterp spec fn face_has_notdef(data: Seq<u8>) -> bool;

/// The glyph that the first face maps a character to.
pub uninterp spec fn face_glyph(data: Seq<u8>, c: char) -> Option<u32>;

/// `skrifa::FontRef::from_index` at index zero: its error in words, or `None`
/// where it reads the face.
///
/// Claimed of it: the answer depends on the bytes alone.
#[verifier::external_body]
fn read_face(data: &[u8]) -> (r: Option<String>)
    ensures
        match face_fault(data@) {
            Some(fault) => r matches Some(message) && message@ == fault,
            None => r is None,
        },
{
    FontRef::from_index(data, 0).err().map(|error| error.to_string())
}

/// `skrifa::charmap::Charmap::has_map` of the first face, `false` where the
/// face cannot be read.
///
/// Claimed of it: the answer depends on the bytes alone.
#[verifier::external_body]
fn has_map(data: &[u8]) -> (r: bool)
    ensures
        r == face_has_map(data@),
{
    match FontRef::from_index(data, 0) {
        Ok(font) => font.charmap().has_map(),
        Err(_) => false,
    }
}

/// `skrifa::metrics::Metrics::units_per_em` of the first face, zero where the
/// face cannot be read.
///
/// Claimed of it: the answer depends on the bytes alone.
#[verifier::external_body]
fn units_per_em(data: &[u8]) -> (r: u16)
    ensures
        r == face_units_per_em(data@),
{
    match FontRef::from_index(data, 0) {
        Ok(font) => font.metrics(Size::unscaled(), LocationRef::default()).units_per_em,
        Err(_) => 0,
    }
}

/// `skrifa::metrics::GlyphMetrics::glyph_count` of the first face, zero where
/// the face cannot be read.
///
/// Claimed of it: the answer depends on the bytes alone.
#[verifier::external_body]
fn glyph_count(data: &[u8]) -> (r: u32)
    ensures
        r == face_glyph_count(data@),
{
    match FontRef::from_index(data, 0) {
        Ok(font) => font.glyph_metrics(Size::unscaled(), LocationRef::default()).glyph_count(),
        Err(_) => 0,
    }
}

/// Whether `skrifa::metrics::GlyphMetrics::advance_width` of the first face has
/// an advance for glyph zero; `false` where the face cannot be read.
///
/// Claimed of it: the answer depends on the bytes alone.
#[verifier::external_body]
fn has_notdef_advance(data: &[u8]) -> (r: bool)
    ensures
        r == face_has_notdef(data@),
{
    match FontRef::from_index(data, 0) {
        Ok(font) => {
            let metrics = font.glyph_metrics(Size::unscaled(), LocationRef::default());
            metrics.advance_width(GlyphId::NOTDEF).is_some()
        },
        Err(_) => false,
    }
}

/// `skrifa::charmap::Charmap::map` of the first face, as a glyph number; `None`
/// where the face cannot be read.
///
/// Claimed of it: the answer depends on the bytes and the character alone.
#[verifier::external_body]
fn map_character(data: &[u8], c: char) -> (r: Option<u32>)
    ensures
        r == face_glyph(data@, c),
{
    FontRef::from_index(data, 0).ok()?.charmap().map(c).map(|glyph| glyph.to_u32())
}

// ---- Registered fonts -------------------------------------------------------------------

/// Native font measurement backed by Skrifa.
///
/// Font bytes are copied into the backend when loaded. This keeps measurement
/// independent of the caller's input buffer. Selection is by primary family
/// name only, not CSS style/weight/stretch.
pub struct SkrifaNominalBackend {
    fonts: StringHashMap<Vec<u8>>,
    default_font: Option<Vec<u8>>,
}

/// The registered fonts as values.
pub struct RegisteredFonts {
    pub fonts: Map<Seq<char>, Vec<u8>>,
    pub default_font: Option<Seq<u8>>,
}

impl View for SkrifaNominalBackend {
    type V = RegisteredFonts;

    closed spec fn view(&self) -> RegisteredFonts {
        RegisteredFonts {
            fonts: self.fonts@,
            default_font: match self.default_font {
                Some(data) => Some(data@),
                None => None,
            },
        }
    }
}

/// Whether the first face of some bytes can be measured with.
pub open spec fn measurable(data: Seq<u8>) -> bool {
    &&& face_fault(data) is None
    &&& face_has_map(data)
    &&& face_units_per_em(data) > 0
    &&& face_glyph_count(data) > 0
    &&& face_has_notdef(data)
}

/// Whether an error says that no font is registered for a family.
pub open spec fn missing_font(error: Error, family: Seq<char>) -> bool {
    error matches Error::MissingFont { family: named } && named@ == family
}

impl RegisteredFonts {
    /// Whether every registered font can be measured with.
    pub open spec fn usable(self) -> bool {
        &&& forall|family: Seq<char>|
            #![trigger self.fonts[family]]
            self.fonts.contains_key(family) ==> measurable(self.fonts[family]@)
        &&& self.default_font matches Some(data) ==> measurable(data)
    }

    /// The bytes that a family is measured with.
    pub open spec fn bytes_for(self, family: Seq<char>) -> Option<Seq<u8>> {
        if self.fonts.contains_key(family) {
            Some(self.fonts[family]@)
        } else {
            self.default_font
        }
    }
}

/// What is wrong with font bytes, in words that start with `context`.
pub open spec fn font_fault(data: Seq<u8>, context: Seq<char>) -> Option<Seq<char>> {
    match face_fault(data) {
        Some(fault) => Some("failed to parse "@ + context + ": "@ + fault),
        None => if !face_has_map(data) {
            Some(context + " has no supported character map"@)
        } else if face_units_per_em(data) == 0 {
            Some(context + " has no valid units-per-em value"@)
        } else if face_glyph_count(data) == 0 || !face_has_notdef(data) {
            Some(context + " has no usable horizontal glyph metrics"@)
        } else {
            None
        },
    }
}

/// A copy of bytes.
fn copy_bytes(data: &[u8]) -> (r: Vec<u8>)
    ensures
        r@ == data@,
{
    let copy = slice_to_vec(data);
    proof {
        assert(copy@ =~= data@);
    }
    copy
}

/// The error for unusable bytes.
fn font_error(context: &str, fault: &str) -> (r: Error)
    ensures
        r.reports_measurement("skrifa"@, context@ + fault@),
{
    let mut message = context.to_string();
    message.append(fault);
    Error::measurement("skrifa", message)
}

/// Check that the first face of some bytes can be measured.
///
/// # Errors
///
/// Returns [`Error::Measurement`] when the data is rejected or the face lacks
/// the character map and horizontal metrics required for measurement.
fn validate_font(data: &[u8], context: &str) -> (r: Result<(), Error>)
    ensures
        match font_fault(data@, context@) {
            Some(fault) => r matches Err(error) && error.reports_measurement("skrifa"@, fault),
            None => r is Ok,
        },
{
    if let Some(fault) = read_face(data) {
        let mut message = "failed to parse ".to_string();
        message.append(context);
        message.append(": ");
        message.append(fault.as_str());
        return Err(Error::measurement("skrifa", message));
    }
    if !has_map(data) {
        return Err(font_error(context, " has no supported character map"));
    }
    if units_per_em(data) == 0 {
        return Err(font_error(context, " has no valid units-per-em value"));
    }
    if glyph_count(data) == 0 || !has_notdef_advance(data) {
        return Err(font_error(context, " has no usable horizontal glyph metrics"));
    }
    Ok(())
}

impl SkrifaNominalBackend {
    /// Create a backend with no fonts loaded.
    #[must_use]
    pub fn new() -> (r: Self)
        ensures
            r@.fonts == Map::<Seq<char>, Vec<u8>>::empty(),
            r@.default_font is None,
            r@.usable(),
    {
        SkrifaNominalBackend { fonts: StringHashMap::new(), default_font: None }
    }

    /// Load the first face from a TTF, OTF, or TTC file under a family name.
    ///
    /// The backend owns a copy of `data` after this method returns.
    ///
    /// # Errors
    ///
    /// Returns [`Error::InvalidInput`] for an empty family or
    /// [`Error::Measurement`] when Skrifa rejects the data or the selected face
    /// lacks the character map and horizontal metrics required for measurement.
    pub fn load_font(&mut self, family: &str, data: &[u8]) -> (r: Result<(), Error>)
        ensures
            ({
                let name = trimmed(family@);
                let fault = font_fault(data@, "font "@ + quoted(name));
                if name.len() == 0 {
                    &&& r matches Err(error) && error.rejects("family"@, "font family is empty"@)
                    &&& final(self)@ == old(self)@
                } else if fault is Some {
                    &&& r matches Err(error) && error.reports_measurement("skrifa"@, fault->0)
                    &&& final(self)@ == old(self)@
                } else {
                    &&& r is Ok
                    &&& final(self)@.default_font == old(self)@.default_font
                    &&& final(self)@.fonts.dom() == old(self)@.fonts.dom().insert(name)
                    &&& final(self)@.fonts[name]@ == data@
                    &&& forall|other: Seq<char>|
                        other != name ==> #[trigger] final(self)@.fonts[other] == old(
                            self,
                        )@.fonts[other]
                }
            }),
            old(self)@.usable() ==> final(self)@.usable(),
    {
        let name_chars = trim_chars(&chars_of(family));
        if name_chars.len() == 0 {
            return Err(Error::invalid_input("family", "font family is empty"));
        }
        let name = string_of(&name_chars, 0, name_chars.len());
        proof {
            assert(name@ =~= trimmed(family@));
        }
        let mut context = "font ".to_string();
        context.append(quote(name.as_str()).as_str());
        if let Err(error) = validate_font(data, context.as_str()) {
            return Err(error);
        }
        self.fonts.insert(name, copy_bytes(data));
        proof {
            assert(self.fonts@.dom() =~= old(self).fonts@.dom().insert(trimmed(family@)));
        }
        Ok(())
    }

    /// Set the first face from a TTF, OTF, or TTC file as the fallback font.
    ///
    /// The backend owns a copy of `data` after this method returns.
    ///
    /// # Errors
    ///
    /// Returns [`Error::Measurement`] when Skrifa rejects the data or the
    /// selected face lacks the character map and horizontal metrics required
    /// for measurement.
    pub fn set_default_font(&mut self, data: &[u8]) -> (r: Result<(), Error>)
        ensures
            match font_fault(data@, "default font"@) {
                Some(fault) => {
                    &&& r matches Err(error) && error.reports_measurement("skrifa"@, fault)
                    &&& final(self)@ == old(self)@
                },
                None => {
                    &&& r is Ok
                    &&& final(self)@.fonts == old(self)@.fonts
                    &&& final(self)@.default_font == Some(data@)
                },
            },
            old(self)@.usable() ==> final(self)@.usable(),
    {
        if let Err(error) = validate_font(data, "default font") {
            return Err(error);
        }
        self.default_font = Some(copy_bytes(data));
        Ok(())
    }

    /// The bytes that a font is measured with: those of its family, or the
    /// fallback.
    ///
    /// # Errors
    ///
    /// Returns [`Error::MissingFont`] when neither is registered.
    pub fn get_font_data<W: Scalar>(&self, font_spec: &FontSpec<W>) -> (r: Result<&[u8], Error>)
        ensures
            match self@.bytes_for(font_spec@.family) {
                Some(bytes) => r matches Ok(data) && data@ == bytes,
                None => r matches Err(error) && missing_font(error, font_spec@.family),
            },
    {
        match self.fonts.get(font_spec.family()) {
            Some(data) => Ok(data.as_slice()),
            None => match &self.default_font {
                Some(data) => Ok(data.as_slice()),
                None => Err(Error::MissingFont { family: font_spec.family().to_string() }),
            },
        }
    }
}

impl Default for SkrifaNominalBackend {
    fn default() -> (r: Self)
        ensures
            r@.fonts == Map::<Seq<char>, Vec<u8>>::empty(),
            r@.default_font is None,
    {
        SkrifaNominalBackend::new()
    }
}

// ---- Nominal advances --------------------------------------------------------------------

/// What a font says of a character: the glyph that it maps it to, and the
/// scaled advance of that glyph.
#[derive(Debug, Clone, Copy)]
pub struct GlyphLookup<W> {
    pub glyph: Option<u32>,
    pub advance: Option<W>,
}

/// What keeps a text from being measured.
pub enum NominalFault<W> {
    /// The font has no glyph for the character.
    NoGlyph(char),
    /// The glyph of the character has no advance.
    NoAdvance(char, u32),
    /// A width of this name is no measurement.
    Width(Seq<char>, W),
}

/// What is said of a glyph without an advance.
pub open spec fn no_advance_message(c: char, glyph: u32) -> Seq<char> {
    "font has no advance width for U+"@ + hex_numeral(c as nat, 4) + " (glyph "@ + numeral(
        glyph as nat,
    ) + ")"@
}

/// The error for a fault in a font of this family.
pub open spec fn nominal_error<W: Scalar>(
    fault: NominalFault<W>,
    family: Seq<char>,
    error: Error,
) -> bool {
    match fault {
        NominalFault::NoGlyph(c) => error matches Error::MissingGlyph { character, family: f }
            && character == c && f@ == family,
        NominalFault::NoAdvance(c, glyph) => error.reports_measurement(
            "skrifa"@,
            no_advance_message(c, glyph),
        ),
        NominalFault::Width(metric, value) => error.reports_metric(metric, value),
    }
}

/// The advance of a character. Controls that join without width need no glyph.
pub open spec fn char_advance<W: Scalar>(c: char, lookup: GlyphLookup<W>) -> Result<
    W,
    NominalFault<W>,
> {
    if zero_width_glue(c) {
        Ok(W::zero_value())
    } else {
        match lookup.glyph {
            None => Err(NominalFault::NoGlyph(c)),
            Some(glyph) => match lookup.advance {
                None => Err(NominalFault::NoAdvance(c, glyph)),
                Some(width) => if is_measure(width) {
                    Ok(width)
                } else {
                    Err(NominalFault::Width("skrifa glyph advance"@, width))
                },
            },
        }
    }
}

/// The width of the first `count` characters of a cluster.
pub open spec fn cluster_advance<W: Scalar>(
    chars: Seq<char>,
    lookups: Seq<GlyphLookup<W>>,
    count: int,
) -> Result<W, NominalFault<W>>
    decreases count,
{
    if count <= 0 {
        Ok(W::zero_value())
    } else {
        match cluster_advance(chars, lookups, count - 1) {
            Err(fault) => Err(fault),
            Ok(before) => match char_advance(chars[count - 1], lookups[count - 1]) {
                Err(fault) => Err(fault),
                Ok(advance) => {
                    let width = before.plus(advance);
                    if is_measure(width) {
                        Ok(width)
                    } else {
                        Err(NominalFault::Width("skrifa grapheme width"@, width))
                    }
                },
            },
        }
    }
}

/// The widths of the first `count` clusters, and their sum.
pub open spec fn segment_advance<W: Scalar>(
    clusters: Seq<Seq<char>>,
    lookups: Seq<Seq<GlyphLookup<W>>>,
    count: int,
) -> Result<(Seq<W>, W), NominalFault<W>>
    decreases count,
{
    if count <= 0 {
        Ok((Seq::empty(), W::zero_value()))
    } else {
        let cluster = clusters[count - 1];
        match segment_advance(clusters, lookups, count - 1) {
            Err(fault) => Err(fault),
            Ok((widths, total)) => match cluster_advance(
                cluster,
                lookups[count - 1],
                cluster.len() as int,
            ) {
                Err(fault) => Err(fault),
                Ok(width) => {
                    let sum = total.plus(width);
                    if is_measure(sum) {
                        Ok((widths.push(width), sum))
                    } else {
                        Err(NominalFault::Width("skrifa segment width"@, sum))
                    }
                },
            },
        }
    }
}

/// The number of emoji among the first `count` characters.
pub open spec fn emoji_in(text: Seq<char>, count: int) -> nat
    decreases count,
{
    if count <= 0 {
        0
    } else {
        emoji_in(text, count - 1) + if emoji(text[count - 1]) {
            1nat
        } else {
            0
        }
    }
}

/// Whether one of the first `count` characters is CJK.
pub open spec fn cjk_in(text: Seq<char>, count: int) -> bool
    decreases count,
{
    count > 0 && (cjk_in(text, count - 1) || cjk(text[count - 1]))
}

/// Whether there is a lookup for each character of each cluster.
pub open spec fn lookups_match<W>(
    clusters: Seq<Seq<char>>,
    lookups: Seq<Seq<GlyphLookup<W>>>,
) -> bool {
    &&& clusters.len() == lookups.len()
    &&& forall|i: int|
        0 <= i < clusters.len() ==> (#[trigger] clusters[i]).len() == lookups[i].len()
}

/// Lookups as values.
pub open spec fn lookups_of<W>(lookups: Seq<Vec<GlyphLookup<W>>>) -> Seq<Seq<GlyphLookup<W>>> {
    lookups.map_values(|cluster: Vec<GlyphLookup<W>>| cluster@)
}

/// What the lookups make of a text with these clusters.
pub open spec fn nominal_outcome<W: Scalar>(
    clusters: Seq<Seq<char>>,
    family: Seq<char>,
    lookups: Seq<Seq<GlyphLookup<W>>>,
    outcome: Result<SegmentMetrics<W>, Error>,
) -> bool {
    let text = joined(clusters);
    match segment_advance(clusters, lookups, clusters.len() as int) {
        Err(fault) => outcome matches Err(error) && nominal_error(fault, family, error),
        Ok((widths, total)) => outcome matches Ok(metrics) && {
            &&& metrics.width == total
            &&& metrics.contains_cjk == cjk_in(text, text.len() as int)
            &&& metrics.emoji_count == emoji_in(text, text.len() as int)
            &&& metrics.widths() == if widths.len() > 1 {
                Some(widths)
            } else {
                None
            }
        },
    }
}

/// Take the advance of one character.
///
/// # Errors
///
/// Returns an error when the font has no glyph or no advance, or the advance is
/// no measurement.
pub fn nominal_advance<W: Scalar>(c: char, family: &str, lookup: GlyphLookup<W>) -> (r: Result<
    W,
    Error,
>)
    ensures
        match char_advance(c, lookup) {
            Ok(width) => r == Ok::<W, Error>(width),
            Err(fault) => r matches Err(error) && nominal_error(fault, family@, error),
        },
{
    if c == '\u{2060}' || c == '\u{FEFF}' {
        return Ok(W::zero());
    }
    let glyph = match lookup.glyph {
        Some(glyph) => glyph,
        None => {
            return Err(Error::MissingGlyph { character: c, family: family.to_string() });
        },
    };
    match lookup.advance {
        Some(width) => validate_metric("skrifa glyph advance", width),
        None => {
            let mut message = "font has no advance width for U+".to_string();
            push_hex(&mut message, c as u32, 4);
            message.append(" (glyph ");
            push_numeral(&mut message, glyph as u64);
            message.append(")");
            Err(Error::measurement("skrifa", message))
        },
    }
}

proof fn lemma_cluster_fault<W: Scalar>(
    chars: Seq<char>,
    lookups: Seq<GlyphLookup<W>>,
    index: int,
    count: int,
)
    requires
        0 <= index < count,
        cluster_advance(chars, lookups, index + 1) is Err,
    ensures
        cluster_advance(chars, lookups, count) == cluster_advance(chars, lookups, index + 1),
    decreases count,
{
    if index + 1 < count {
        lemma_cluster_fault(chars, lookups, index, count - 1);
    }
}

proof fn lemma_segment_fault<W: Scalar>(
    clusters: Seq<Seq<char>>,
    lookups: Seq<Seq<GlyphLookup<W>>>,
    index: int,
    count: int,
)
    requires
        0 <= index < count,
        segment_advance(clusters, lookups, index + 1) is Err,
    ensures
        segment_advance(clusters, lookups, count) == segment_advance(
            clusters,
            lookups,
            index + 1,
        ),
    decreases count,
{
    if index + 1 < count {
        lemma_segment_fault(clusters, lookups, index, count - 1);
    }
}

/// Sum the advances of a cluster.
fn measure_cluster<W: Scalar>(
    chars: &Vec<char>,
    family: &str,
    lookups: &Vec<GlyphLookup<W>>,
) -> (r: Result<W, Error>)
    requires
        chars@.len() == lookups@.len(),
    ensures
        match cluster_advance(chars@, lookups@, chars@.len() as int) {
            Ok(width) => r == Ok::<W, Error>(width),
            Err(fault) => r matches Err(error) && nominal_error(fault, family@, error),
        },
{
    let mut width = W::zero();
    let mut index: usize = 0;
    while index < chars.len()
        invariant
            index <= chars@.len() == lookups@.len(),
            cluster_advance(chars@, lookups@, index as int) == Ok::<W, NominalFault<W>>(width),
        decreases chars@.len() - index,
    {
        proof {
            if cluster_advance(chars@, lookups@, index + 1) is Err {
                lemma_cluster_fault(chars@, lookups@, index as int, chars@.len() as int);
            }
        }
        let advance = match nominal_advance(chars[index], family, lookups[index]) {
            Ok(advance) => advance,
            Err(error) => {
                return Err(error);
            },
        };
        width = width.add(advance);
        if let Err(error) = validate_metric("skrifa grapheme width", width) {
            return Err(error);
        }
        index += 1;
    }
    Ok(width)
}

/// Count the characters of a text that are CJK or emoji.
fn inspect_text(text: &Vec<char>) -> (r: (bool, usize))
    ensures
        r.0 == cjk_in(text@, text@.len() as int),
        r.1 == emoji_in(text@, text@.len() as int),
{
    let mut contains_cjk = false;
    let mut emoji_count: usize = 0;
    let mut index: usize = 0;
    while index < text.len()
        invariant
            index <= text@.len(),
            contains_cjk == cjk_in(text@, index as int),
            emoji_count == emoji_in(text@, index as int),
            emoji_count <= index,
        decreases text@.len() - index,
    {
        contains_cjk = contains_cjk || is_cjk(text[index]);
        if is_emoji(text[index]) {
            emoji_count += 1;
        }
        index += 1;
    }
    (contains_cjk, emoji_count)
}

/// Measure a text, given its grapheme clusters and what the font says of each
/// of their characters.
///
/// # Errors
///
/// Returns an error when the font has no glyph or no advance for a character,
/// or a width is no measurement.
pub fn nominal_metrics<W: Scalar>(
    clusters: &Vec<String>,
    family: &str,
    lookups: &Vec<Vec<GlyphLookup<W>>>,
) -> (r: Result<SegmentMetrics<W>, Error>)
    requires
        lookups_match(views(clusters@), lookups_of(lookups@)),
    ensures
        nominal_outcome(views(clusters@), family@, lookups_of(lookups@), r),
{
    let ghost texts = views(clusters@);
    let ghost found = lookups_of(lookups@);
    let mut text = String::new();
    let mut widths: Vec<W> = Vec::new();
    let mut total = W::zero();
    let mut index: usize = 0;
    proof {
        assert(texts.take(0) =~= Seq::empty());
        assert(text@ =~= joined(texts.take(0)));
        assert(widths@ =~= Seq::empty());
    }
    while index < clusters.len()
        invariant
            index <= clusters@.len(),
            texts == views(clusters@),
            found == lookups_of(lookups@),
            lookups_match(texts, found),
            text@ == joined(texts.take(index as int)),
            segment_advance(texts, found, index as int) == Ok::<(Seq<W>, W), NominalFault<W>>(
                (widths@, total),
            ),
        decreases clusters@.len() - index,
    {
        let chars = chars_of(clusters[index].as_str());
        proof {
            assert(texts[index as int] == chars@);
            assert(found[index as int] == lookups@[index as int]@);
            assert(texts.take(index + 1).drop_last() =~= texts.take(index as int));
            if segment_advance(texts, found, index + 1) is Err {
                lemma_segment_fault(texts, found, index as int, texts.len() as int);
            }
        }
        let width = match measure_cluster(&chars, family, &lookups[index]) {
            Ok(width) => width,
            Err(error) => {
                return Err(error);
            },
        };
        total = total.add(width);
        if let Err(error) = validate_metric("skrifa segment width", total) {
            return Err(error);
        }
        widths.push(width);
        text.append(clusters[index].as_str());
        index += 1;
    }
    proof {
        assert(texts.take(index as int) =~= texts);
    }
    let (contains_cjk, emoji_count) = inspect_text(&chars_of(text.as_str()));
    let grapheme_widths = if widths.len() > 1 {
        Some(widths)
    } else {
        None
    };
    Ok(SegmentMetrics { width: total, contains_cjk, emoji_count, grapheme_widths })
}

// ---- Measurement ---------------------------------------------------------------------------

/// Whether a lookup is what a font, and what scales its advances, say of a
/// character.
pub open spec fn shows<W, F: Fn(u32) -> Option<W>>(
    data: Seq<u8>,
    c: char,
    advance: F,
    lookup: GlyphLookup<W>,
) -> bool {
    &&& lookup.glyph == face_glyph(data, c)
    &&& match lookup.glyph {
        Some(glyph) => call_ensures(advance, (glyph,), lookup.advance),
        None => lookup.advance is None,
    }
}

/// Whether lookups are what a font says of the characters of each cluster.
pub open spec fn all_shown<W, F: Fn(u32) -> Option<W>>(
    data: Seq<u8>,
    clusters: Seq<Seq<char>>,
    advance: F,
    lookups: Seq<Seq<GlyphLookup<W>>>,
) -> bool {
    &&& lookups_match(clusters, lookups)
    &&& forall|i: int, k: int|
        0 <= i < clusters.len() && 0 <= k < clusters[i].len() ==> shows(
            data,
            #[trigger] clusters[i][k],
            advance,
            lookups[i][k],
        )
}

/// The error for registered bytes that cannot be read, if they cannot.
pub open spec fn unreadable(data: Seq<u8>, error: Error) -> bool {
    face_fault(data) matches Some(fault) && error.reports_measurement(
        "skrifa"@,
        "failed to parse loaded font: "@ + fault,
    )
}

/// What measuring a text with a registered font may give.
pub open spec fn segment_outcome<W: Scalar, F: Fn(u32) -> Option<W>>(
    fonts: RegisteredFonts,
    text: Seq<char>,
    family: Seq<char>,
    advance: F,
    outcome: Result<SegmentMetrics<W>, Error>,
) -> bool {
    match fonts.bytes_for(family) {
        None => outcome matches Err(error) && missing_font(error, family),
        Some(data) => if face_fault(data) is Some {
            outcome matches Err(error) && unreadable(data, error)
        } else {
            exists|lookups: Seq<Seq<GlyphLookup<W>>>|
                {
                    &&& all_shown(data, grapheme_clusters(text), advance, lookups)
                    &&& #[trigger] nominal_outcome(
                        grapheme_clusters(text),
                        family,
                        lookups,
                        outcome,
                    )
                }
        },
    }
}

/// What measuring one character with a registered font may give.
pub open spec fn character_outcome<W: Scalar, F: Fn(u32) -> Option<W>>(
    fonts: RegisteredFonts,
    c: char,
    family: Seq<char>,
    advance: F,
    outcome: Result<W, Error>,
) -> bool {
    match fonts.bytes_for(family) {
        None => outcome matches Err(error) && missing_font(error, family),
        Some(data) => if face_fault(data) is Some {
            outcome matches Err(error) && unreadable(data, error)
        } else {
            exists|lookup: GlyphLookup<W>|
                {
                    &&& #[trigger] shows(data, c, advance, lookup)
                    &&& match char_advance(c, lookup) {
                        Ok(width) => outcome == Ok::<W, Error>(width),
                        Err(fault) => outcome matches Err(error) && nominal_error(
                            fault,
                            family,
                            error,
                        ),
                    }
                }
        },
    }
}

/// Look one character up.
fn look_up<W, F: Fn(u32) -> Option<W>>(data: &[u8], c: char, advance: &F) -> (r: GlyphLookup<W>)
    requires
        forall|glyph: u32| call_requires(*advance, (glyph,)),
    ensures
        shows(data@, c, *advance, r),
{
    let glyph = map_character(data, c);
    match glyph {
        Some(id) => GlyphLookup { glyph, advance: advance(id) },
        None => GlyphLookup { glyph, advance: None },
    }
}

/// Look the characters of each cluster up.
fn look_up_clusters<W, F: Fn(u32) -> Option<W>>(
    data: &[u8],
    clusters: &Vec<String>,
    advance: &F,
) -> (r: Vec<Vec<GlyphLookup<W>>>)
    requires
        forall|glyph: u32| call_requires(*advance, (glyph,)),
    ensures
        all_shown(data@, views(clusters@), *advance, lookups_of(r@)),
{
    let ghost texts = views(clusters@);
    let mut lookups: Vec<Vec<GlyphLookup<W>>> = Vec::new();
    let mut index: usize = 0;
    while index < clusters.len()
        invariant
            index <= clusters@.len(),
            texts == views(clusters@),
            forall|glyph: u32| call_requires(*advance, (glyph,)),
            all_shown(data@, texts.take(index as int), *advance, lookups_of(lookups@)),
        decreases clusters@.len() - index,
    {
        let chars = chars_of(clusters[index].as_str());
        let mut row: Vec<GlyphLookup<W>> = Vec::new();
        let mut position: usize = 0;
        while position < chars.len()
            invariant
                position <= chars@.len(),
                row@.len() == position,
                forall|glyph: u32| call_requires(*advance, (glyph,)),
                forall|k: int|
                    0 <= k < position ==> shows(data@, #[trigger] chars@[k], *advance, row@[k]),
            decreases chars@.len() - position,
        {
            row.push(look_up(data, chars[position], advance));
            position += 1;
        }
        let ghost before = lookups_of(lookups@);
        lookups.push(row);
        proof {
            let shorter = texts.take(index as int);
            let longer = texts.take(index + 1);
            let after = lookups_of(lookups@);
            assert(after =~= before.push(row@));
            assert(longer =~= shorter.push(chars@));
            assert forall|i: int, k: int|
                0 <= i < longer.len() && 0 <= k < longer[i].len() implies shows(
                data@,
                #[trigger] longer[i][k],
                *advance,
                after[i][k],
            ) by {
                if i < index {
                    assert(longer[i] == shorter[i]);
                    assert(shows(data@, shorter[i][k], *advance, before[i][k]));
                } else {
                    assert(shows(data@, chars@[k], *advance, row@[k]));
                }
            }
            assert forall|i: int| 0 <= i < longer.len() implies (#[trigger] longer[i]).len()
                == after[i].len() by {
                if i < index {
                    assert(longer[i] == shorter[i]);
                }
            }
        }
        index += 1;
    }
    proof {
        assert(texts.take(index as int) =~= texts);
    }
    lookups
}

impl SkrifaNominalBackend {
    /// The bytes that a font is measured with, if they can be read.
    fn readable_font_data<W: Scalar>(&self, font_spec: &FontSpec<W>) -> (r: Result<&[u8], Error>)
        ensures
            match self@.bytes_for(font_spec@.family) {
                None => r matches Err(error) && missing_font(error, font_spec@.family),
                Some(bytes) => if face_fault(bytes) is Some {
                    r matches Err(error) && unreadable(bytes, error)
                } else {
                    r matches Ok(data) && data@ == bytes
                },
            },
    {
        let data = match self.get_font_data(font_spec) {
            Ok(data) => data,
            Err(error) => {
                return Err(error);
            },
        };
        match read_face(data) {
            Some(fault) => Err(font_error("failed to parse loaded font: ", fault.as_str())),
            None => Ok(data),
        }
    }

    /// Measure a text segment by the nominal advances of its characters.
    /// `advance` scales the advance of a glyph to the size of the font.
    ///
    /// # Errors
    ///
    /// Returns an error when no font is registered for the family, the font has
    /// no glyph or no advance for a character, or a width is no measurement.
    pub fn measure_segment<W: Scalar, F: Fn(u32) -> Option<W>>(
        &self,
        text: &str,
        font_spec: &FontSpec<W>,
        advance: F,
    ) -> (r: Result<SegmentMetrics<W>, Error>)
        requires
            forall|glyph: u32| call_requires(advance, (glyph,)),
        ensures
            segment_outcome(self@, text@, font_spec@.family, advance, r),
    {
        let data = match self.readable_font_data(font_spec) {
            Ok(data) => data,
            Err(error) => {
                return Err(error);
            },
        };
        let clusters = graphemes(text);
        let lookups = look_up_clusters(data, &clusters, &advance);
        let outcome = nominal_metrics(&clusters, font_spec.family(), &lookups);
        proof {
            assert(nominal_outcome(
                grapheme_clusters(text@),
                font_spec@.family,
                lookups_of(lookups@),
                outcome,
            ));
        }
        outcome
    }

    /// Measure one character by its nominal advance.
    fn measure_char<W: Scalar, F: Fn(u32) -> Option<W>>(
        &self,
        c: char,
        font_spec: &FontSpec<W>,
        advance: F,
    ) -> (r: Result<W, Error>)
        requires
            forall|glyph: u32| call_requires(advance, (glyph,)),
        ensures
            character_outcome(self@, c, font_spec@.family, advance, r),
    {
        let data = match self.readable_font_data(font_spec) {
            Ok(data) => data,
            Err(error) => {
                return Err(error);
            },
        };
        let lookup = look_up(data, c, &advance);
        nominal_advance(c, font_spec.family(), lookup)
    }

    /// Measure the width of a space.
    ///
    /// # Errors
    ///
    /// Returns an error when no font is registered for the family, the font has
    /// no glyph or no advance for it, or the advance is no measurement.
    pub fn measure_space_width<W: Scalar, F: Fn(u32) -> Option<W>>(
        &self,
        font_spec: &FontSpec<W>,
        advance: F,
    ) -> (r: Result<W, Error>)
        requires
            forall|glyph: u32| call_requires(advance, (glyph,)),
        ensures
            character_outcome(self@, ' ', font_spec@.family, advance, r),
    {
        self.measure_char(' ', font_spec, advance)
    }

    /// Measure the width of a hyphen.
    ///
    /// # Errors
    ///
    /// Returns an error when no font is registered for the family, the font has
    /// no glyph or no advance for it, or the advance is no measurement.
    pub fn measure_hyphen_width<W: Scalar, F: Fn(u32) -> Option<W>>(
        &self,
        font_spec: &FontSpec<W>,
        advance: F,
    ) -> (r: Result<W, Error>)
        requires
            forall|glyph: u32| call_requires(advance, (glyph,)),
        ensures
            character_outcome(self@, '-', font_spec@.family, advance, r),
    {
        self.measure_char('-', font_spec, advance)
    }
}

/// Registered fonts were all found fit to be measured with, so measuring with
/// them never reports that a font cannot be read.
pub proof fn registered_fonts_are_readable(fonts: RegisteredFonts, family: Seq<char>)
    requires
        fonts.usable(),
    ensures
        fonts.bytes_for(family) matches Some(data) ==> face_fault(data) is None,
{
}

} // verus!
