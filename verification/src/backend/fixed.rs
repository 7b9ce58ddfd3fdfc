//! Fixed-width measurement backend.
//!
//! Assigns a deterministic width to each character based on font size.
//! Useful for:
//! - Testing (predictable, reproducible results)
//! - Server-side height estimation (no font files needed)
//! - Explicit dependency-free estimation when selected by the caller
//!
//! Width model: each grapheme gets `font_size * char_width_factor`.
//! CJK characters get `cjk_width_factor` (fullwidth). Spaces get
//! `space_width_factor`.
use super::{sum_fault, sum_fault_at, validate_metric, validated, FontSpec, FontView, MeasureBackend, SegmentMetrics};
use crate::error::Error;
use crate::scalar::{is_measure, sum_of, sums_measure, Scalar};
use crate::segmentation::{grapheme_clusters, graphemes};
use crate::text::{chars_of, views};
use crate::unicode::{cjk, emoji, is_cjk, is_emoji};
use vstd::prelude::*;

verus! {

/// Fixed-width measurement backend with configurable character width.
#[derive(Debug, Clone, Copy)]
pub struct FixedWidthBackend<W> {
    /// Base width factor per character (multiplied by font size).
    /// Default: 0.6 (approximates average Latin character width).
    char_width_factor: W,
    /// CJK width factor (multiplied by font size).
    /// Default: 1.0 (fullwidth characters).
    cjk_width_factor: W,
    /// Space width factor.
    /// Default: 0.25.
    space_width_factor: W,
    /// Narrow no-break space width factor.
    /// Default: 1/6 em.
    narrow_space_width_factor: W,
}

/// The factors of a [`FixedWidthBackend`].
pub struct WidthFactors<W> {
    pub character: W,
    pub cjk: W,
    pub space: W,
    pub narrow_space: W,
}

impl<W> View for FixedWidthBackend<W> {
    type V = WidthFactors<W>;

    closed spec fn view(&self) -> WidthFactors<W> {
        WidthFactors {
            character: self.char_width_factor,
            cjk: self.cjk_width_factor,
            space: self.space_width_factor,
            narrow_space: self.narrow_space_width_factor,
        }
    }
}

/// The factors that a new backend has.
pub open spec fn default_factors<W: Scalar>() -> WidthFactors<W> {
    WidthFactors {
        character: W::ratio_value(6, 10),
        cjk: W::ratio_value(1, 1),
        space: W::ratio_value(25, 100),
        narrow_space: W::ratio_value(1, 6),
    }
}

/// The error for a factor that is negative or not finite.
pub open spec fn invalid_factor(error: Error, name: Seq<char>) -> bool {
    error.rejects(name, "fixed-width factors must be finite and non-negative"@)
}

impl<W: Scalar> WidthFactors<W> {
    /// The name of the first factor that is no measurement.
    pub open spec fn fault(self) -> Option<Seq<char>> {
        if !is_measure(self.character) {
            Some("char_width_factor"@)
        } else if !is_measure(self.cjk) {
            Some("cjk_width_factor"@)
        } else if !is_measure(self.space) {
            Some("space_width_factor"@)
        } else if !is_measure(self.narrow_space) {
            Some("narrow_space_width_factor"@)
        } else {
            None
        }
    }

    /// The width of a grapheme that starts with `c`.
    pub open spec fn width_of(self, c: char, font_size: W) -> W {
        if c == '\u{2060}' || c == '\u{FEFF}' {
            W::zero_value()
        } else if cjk(c) || emoji(c) {
            font_size.times(self.cjk)
        } else if c == ' ' || c == '\u{00A0}' {
            font_size.times(self.space)
        } else if c == '\u{202F}' {
            font_size.times(self.narrow_space)
        } else {
            font_size.times(self.character)
        }
    }

    /// The widths of grapheme clusters.
    pub open spec fn cluster_widths(self, clusters: Seq<Seq<char>>, font_size: W) -> Seq<W> {
        clusters.map_values(|cluster: Seq<char>| self.width_of(cluster[0], font_size))
    }
}

/// The number of clusters that start with an emoji.
pub open spec fn emoji_clusters(clusters: Seq<Seq<char>>) -> nat
    decreases clusters.len(),
{
    if clusters.len() == 0 {
        0
    } else {
        emoji_clusters(clusters.drop_last()) + if emoji(clusters.last()[0]) {
            1nat
        } else {
            0
        }
    }
}

/// Whether some cluster starts in CJK.
pub open spec fn cjk_clusters(clusters: Seq<Seq<char>>) -> bool {
    exists|i: int| 0 <= i < clusters.len() && cjk((#[trigger] clusters[i])[0])
}

/// Whether `reply` is what the factors make of grapheme clusters.
///
/// The first width, or running sum, that is no measurement is the error.
pub open spec fn fixed_reply<W: Scalar>(
    factors: WidthFactors<W>,
    clusters: Seq<Seq<char>>,
    font_size: W,
    reply: Result<SegmentMetrics<W>, Error>,
) -> bool {
    let widths = factors.cluster_widths(clusters, font_size);
    match reply {
        Ok(metrics) => {
            &&& factors.fault() is None
            &&& sums_measure(widths, widths.len() as int)
            &&& metrics.width == sum_of(widths)
            &&& metrics.contains_cjk == cjk_clusters(clusters)
            &&& metrics.emoji_count == emoji_clusters(clusters)
            &&& metrics.widths() == if widths.len() > 1 {
                Some(widths)
            } else {
                None
            }
        },
        Err(error) => match factors.fault() {
            Some(name) => invalid_factor(error, name),
            None => sum_fault(widths, "fixed grapheme width"@, "fixed segment width"@, error),
        },
    }
}

/// Whether `reply` is what the factors make of one width.
pub open spec fn fixed_width_reply<W: Scalar>(
    factors: WidthFactors<W>,
    metric: Seq<char>,
    width: W,
    reply: Result<W, Error>,
) -> bool {
    match factors.fault() {
        Some(name) => reply matches Err(error) && invalid_factor(error, name),
        None => validated(metric, width, reply),
    }
}

fn validate_factor<W: Scalar>(name: &'static str, value: W) -> (r: Result<(), Error>)
    ensures
        r is Ok <==> is_measure(value),
        r matches Err(error) ==> invalid_factor(error, name@),
{
    if value.is_finite() && W::zero().le(value) {
        Ok(())
    } else {
        Err(Error::invalid_input(name, "fixed-width factors must be finite and non-negative"))
    }
}

impl<W: Scalar> FixedWidthBackend<W> {
    /// Construct a backend with the default Latin, CJK, and space factors.
    #[must_use]
    pub fn new() -> (r: Self)
        ensures
            r@ == default_factors::<W>(),
    {
        FixedWidthBackend {
            char_width_factor: W::ratio(6, 10),
            cjk_width_factor: W::ratio(1, 1),
            space_width_factor: W::ratio(25, 100),
            narrow_space_width_factor: W::ratio(1, 6),
        }
    }

    /// Create with a specific character width factor.
    ///
    /// # Errors
    ///
    /// Returns [`Error::InvalidInput`] if `factor` is negative or non-finite.
    pub fn with_char_width(self, factor: W) -> (r: Result<Self, Error>)
        ensures
            match r {
                Ok(backend) => is_measure(factor) && backend@ == (WidthFactors {
                    character: factor,
                    ..self@
                }),
                Err(error) => !is_measure(factor) && invalid_factor(error, "char_width_factor"@),
            },
    {
        match validate_factor("char_width_factor", factor) {
            Ok(()) => Ok(FixedWidthBackend { char_width_factor: factor, ..self }),
            Err(error) => Err(error),
        }
    }

    /// Create with a specific CJK and emoji width factor.
    ///
    /// # Errors
    ///
    /// Returns [`Error::InvalidInput`] if `factor` is negative or non-finite.
    pub fn with_cjk_width(self, factor: W) -> (r: Result<Self, Error>)
        ensures
            match r {
                Ok(backend) => is_measure(factor) && backend@ == (WidthFactors {
                    cjk: factor,
                    ..self@
                }),
                Err(error) => !is_measure(factor) && invalid_factor(error, "cjk_width_factor"@),
            },
    {
        match validate_factor("cjk_width_factor", factor) {
            Ok(()) => Ok(FixedWidthBackend { cjk_width_factor: factor, ..self }),
            Err(error) => Err(error),
        }
    }

    /// Create with a specific space width factor.
    ///
    /// # Errors
    ///
    /// Returns [`Error::InvalidInput`] if `factor` is negative or non-finite.
    pub fn with_space_width(self, factor: W) -> (r: Result<Self, Error>)
        ensures
            match r {
                Ok(backend) => is_measure(factor) && backend@ == (WidthFactors {
                    space: factor,
                    ..self@
                }),
                Err(error) => !is_measure(factor) && invalid_factor(error, "space_width_factor"@),
            },
    {
        match validate_factor("space_width_factor", factor) {
            Ok(()) => Ok(FixedWidthBackend { space_width_factor: factor, ..self }),
            Err(error) => Err(error),
        }
    }

    /// Create with a specific U+202F narrow no-break space width factor.
    ///
    /// # Errors
    ///
    /// Returns [`Error::InvalidInput`] if `factor` is negative or non-finite.
    pub fn with_narrow_space_width(self, factor: W) -> (r: Result<Self, Error>)
        ensures
            match r {
                Ok(backend) => is_measure(factor) && backend@ == (WidthFactors {
                    narrow_space: factor,
                    ..self@
                }),
                Err(error) => !is_measure(factor) && invalid_factor(
                    error,
                    "narrow_space_width_factor"@,
                ),
            },
    {
        match validate_factor("narrow_space_width_factor", factor) {
            Ok(()) => Ok(FixedWidthBackend { narrow_space_width_factor: factor, ..self }),
            Err(error) => Err(error),
        }
    }

    /// Create a backend where every character uses the same width factor.
    ///
    /// The actual font size always comes from [`FontSpec`].
    #[must_use]
    pub fn monospace() -> (r: Self)
        ensures
            r@ == (WidthFactors {
                character: W::ratio_value(6, 10),
                cjk: W::ratio_value(6, 10),
                space: W::ratio_value(6, 10),
                narrow_space: W::ratio_value(6, 10),
            }),
    {
        let factor = W::ratio(6, 10);
        FixedWidthBackend {
            char_width_factor: factor,
            cjk_width_factor: factor,
            space_width_factor: factor,
            narrow_space_width_factor: factor,
        }
    }

    fn validate_config(&self) -> (r: Result<(), Error>)
        ensures
            match self@.fault() {
                Some(name) => r matches Err(error) && invalid_factor(error, name),
                None => r is Ok,
            },
    {
        if let Err(error) = validate_factor("char_width_factor", self.char_width_factor) {
            return Err(error);
        }
        if let Err(error) = validate_factor("cjk_width_factor", self.cjk_width_factor) {
            return Err(error);
        }
        if let Err(error) = validate_factor("space_width_factor", self.space_width_factor) {
            return Err(error);
        }
        validate_factor("narrow_space_width_factor", self.narrow_space_width_factor)
    }

    fn char_width(&self, c: char, font_size: W) -> (r: W)
        ensures
            r == self@.width_of(c, font_size),
    {
        if c == '\u{2060}' || c == '\u{FEFF}' {
            W::zero()
        } else if is_cjk(c) || is_emoji(c) {
            // CJK and emoji are typically fullwidth
            font_size.mul(self.cjk_width_factor)
        } else if c == ' ' || c == '\u{00A0}' {
            font_size.mul(self.space_width_factor)
        } else if c == '\u{202F}' {
            font_size.mul(self.narrow_space_width_factor)
        } else {
            font_size.mul(self.char_width_factor)
        }
    }

    /// Measure a segment, given its grapheme clusters.
    ///
    /// # Errors
    ///
    /// Returns an error for an invalid factor, or where a width or a running
    /// sum of widths is no measurement.
    pub fn measure_clusters(&self, clusters: &Vec<String>, font_size: W) -> (r: Result<
        SegmentMetrics<W>,
        Error,
    >)
        requires
            forall|i: int| 0 <= i < clusters@.len() ==> (#[trigger] clusters@[i])@.len() > 0,
        ensures
            fixed_reply(self@, views(clusters@), font_size, r),
    {
        if let Err(error) = self.validate_config() {
            return Err(error);
        }
        let ghost texts = views(clusters@);
        let ghost expected = self@.cluster_widths(texts, font_size);
        let mut total_width = W::zero();
        let mut contains_cjk = false;
        let mut emoji_count: usize = 0;
        let mut widths: Vec<W> = Vec::new();
        let mut index: usize = 0;
        proof {
            assert(expected.take(0) =~= Seq::empty());
            assert(texts.take(0) =~= Seq::empty());
        }
        while index < clusters.len()
            invariant
                index <= clusters@.len(),
                texts == views(clusters@),
                expected == self@.cluster_widths(texts, font_size),
                self@.fault() is None,
                forall|i: int| 0 <= i < clusters@.len() ==> (#[trigger] clusters@[i])@.len() > 0,
                widths@ == expected.take(index as int),
                total_width == sum_of(expected.take(index as int)),
                sums_measure(expected, index as int),
                contains_cjk == cjk_clusters(texts.take(index as int)),
                emoji_count == emoji_clusters(texts.take(index as int)),
                emoji_count <= index,
            decreases clusters@.len() - index,
        {
            let cluster = chars_of(clusters[index].as_str());
            proof {
                assert(cluster@.len() > 0);
                assert(texts[index as int] == cluster@);
                assert(expected[index as int] == self@.width_of(cluster@[0], font_size));
                assert(expected.take(index + 1).drop_last() =~= expected.take(index as int));
                assert(texts.take(index + 1).drop_last() =~= texts.take(index as int));
                lemma_cjk_clusters_push(texts, index as int);
            }
            let c = cluster[0];
            let width = match validate_metric("fixed grapheme width", self.char_width(c, font_size)) {
                Ok(width) => width,
                Err(error) => {
                    proof {
                        assert(sum_fault_at(
                            expected,
                            index as int,
                            "fixed grapheme width"@,
                            "fixed segment width"@,
                            error,
                        ));
                    }
                    return Err(error);
                },
            };
            if is_cjk(c) {
                contains_cjk = true;
            }
            if is_emoji(c) {
                emoji_count += 1;
            }
            widths.push(width);
            total_width = total_width.add(width);
            if let Err(error) = validate_metric("fixed segment width", total_width) {
                proof {
                    assert(sum_of(expected.take(index + 1)) == total_width);
                    assert(sum_fault_at(
                        expected,
                        index as int,
                        "fixed grapheme width"@,
                        "fixed segment width"@,
                        error,
                    ));
                }
                return Err(error);
            }
            proof {
                assert(widths@ =~= expected.take(index + 1));
            }
            index += 1;
        }
        proof {
            assert(expected.take(index as int) =~= expected);
            assert(texts.take(index as int) =~= texts);
        }
        // Only provide grapheme widths for multi-grapheme segments
        let grapheme_widths = if widths.len() > 1 {
            Some(widths)
        } else {
            None
        };
        Ok(SegmentMetrics { width: total_width, contains_cjk, emoji_count, grapheme_widths })
    }
}

pub proof fn lemma_cjk_clusters_push(clusters: Seq<Seq<char>>, index: int)
    requires
        0 <= index < clusters.len(),
    ensures
        cjk_clusters(clusters.take(index + 1)) == (cjk_clusters(clusters.take(index)) || cjk(
            clusters[index][0],
        )),
{
    let shorter = clusters.take(index);
    let longer = clusters.take(index + 1);
    if cjk_clusters(shorter) {
        let i = choose|i: int| 0 <= i < shorter.len() && cjk((#[trigger] shorter[i])[0]);
        assert(longer[i] == shorter[i]);
    }
    if cjk(clusters[index][0]) {
        assert(longer[index] == clusters[index]);
    }
    if cjk_clusters(longer) {
        let i = choose|i: int| 0 <= i < longer.len() && cjk((#[trigger] longer[i])[0]);
        if i < index {
            assert(shorter[i] == longer[i]);
        }
    }
}

impl<W: Scalar> Default for FixedWidthBackend<W> {
    fn default() -> (r: Self)
        ensures
            r@ == default_factors::<W>(),
    {
        FixedWidthBackend::new()
    }
}

impl<W: Scalar> MeasureBackend<W> for FixedWidthBackend<W> {
    open spec fn may_measure(
        &self,
        text: Seq<char>,
        font: FontView<W>,
        reply: Result<SegmentMetrics<W>, Error>,
    ) -> bool {
        fixed_reply(self@, grapheme_clusters(text), font.size_px, reply)
    }

    open spec fn may_measure_space(&self, font: FontView<W>, reply: Result<W, Error>) -> bool {
        fixed_width_reply(
            self@,
            "fixed space width"@,
            font.size_px.times(self@.space),
            reply,
        )
    }

    open spec fn may_measure_hyphen(&self, font: FontView<W>, reply: Result<W, Error>) -> bool {
        fixed_width_reply(
            self@,
            "fixed hyphen width"@,
            font.size_px.times(self@.character),
            reply,
        )
    }

    fn measure_segment(&self, text: &str, font: &FontSpec<W>) -> (r: Result<
        SegmentMetrics<W>,
        Error,
    >) {
        let clusters = graphemes(text);
        self.measure_clusters(&clusters, font.size_px())
    }

    fn measure_space_width(&self, font: &FontSpec<W>) -> (r: Result<W, Error>) {
        if let Err(error) = self.validate_config() {
            return Err(error);
        }
        validate_metric("fixed space width", font.size_px().mul(self.space_width_factor))
    }

    fn measure_hyphen_width(&self, font: &FontSpec<W>) -> (r: Result<W, Error>) {
        if let Err(error) = self.validate_config() {
            return Err(error);
        }
        validate_metric("fixed hyphen width", font.size_px().mul(self.char_width_factor))
    }
}

} // verus!
