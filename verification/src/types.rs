//! Configuration, cursor, result, and prepared-text types.
use crate::error::Error;
use crate::scalar::{is_measure, is_width, Scalar};
use crate::text::views;
use vstd::prelude::*;

verus! {

/// Segment kind -- classifies each measured segment for line-breaking decisions.
#[derive(Debug, Clone, Copy, PartialEq, Eq, Structural)]
pub enum SegmentKind {
    /// Normal text content (word or partial word).
    Text,
    /// Collapsible whitespace (CSS `white-space: normal`).
    Space,
    /// Preserved whitespace (CSS `white-space: pre-wrap`).
    PreservedSpace,
    /// Tab character.
    Tab,
    /// Glue -- non-breaking connection between segments (NBSP, etc.).
    Glue,
    /// Zero-width break opportunity (ZWSP, etc.).
    ZeroWidthBreak,
    /// Soft hyphen -- invisible unless it becomes a line break.
    SoftHyphen,
    /// Hard break (newline in pre-wrap mode).
    HardBreak,
}

impl SegmentKind {
    /// Whether a line break is permitted after a segment of this kind.
    pub open spec fn breaks_after(self) -> bool {
        self == SegmentKind::Space || self == SegmentKind::PreservedSpace || self
            == SegmentKind::Tab || self == SegmentKind::ZeroWidthBreak || self
            == SegmentKind::SoftHyphen
    }

    /// Whether a segment of this kind contributes no width at a line end.
    pub open spec fn hangs(self) -> bool {
        self == SegmentKind::Space || self == SegmentKind::Tab
    }

    /// Whether a line break is permitted after this segment kind.
    #[must_use]
    pub fn can_break_after(self) -> (r: bool)
        ensures
            r == self.breaks_after(),
    {
        matches!(
            self,
            SegmentKind::Space
                | SegmentKind::PreservedSpace
                | SegmentKind::Tab
                | SegmentKind::ZeroWidthBreak
                | SegmentKind::SoftHyphen
        )
    }

    /// Whether this segment contributes zero width at the end of a line
    /// (trailing spaces "hang" past the edge, matching CSS behavior).
    #[must_use]
    pub fn hangs_at_line_end(self) -> (r: bool)
        ensures
            r == self.hangs(),
    {
        matches!(self, SegmentKind::Space | SegmentKind::Tab)
    }
}

/// Whitespace handling mode, matching CSS `white-space` property.
#[derive(Debug, Clone, Copy, PartialEq, Eq, Structural)]
pub enum WhiteSpaceMode {
    /// Collapse whitespace, wrap at container edge. (CSS `white-space: normal`)
    Normal,
    /// Preserve whitespace, wrap at container edge. (CSS `white-space: pre-wrap`)
    PreWrap,
}

impl Default for WhiteSpaceMode {
    fn default() -> (r: Self)
        ensures
            r == WhiteSpaceMode::Normal,
    {
        WhiteSpaceMode::Normal
    }
}

/// Engine profile -- browser-specific numeric line-fit tolerance.
///
/// Rendering engines (Chromium, Safari/WebKit, Gecko) differ subtly in their
/// numeric behavior at line edges.
#[derive(Debug, Clone, Copy)]
pub struct EngineProfile<W> {
    /// Tolerance for line-fit decisions. Chromium/Gecko use 0.005px; Safari
    /// uses 1/64px.
    pub line_fit_epsilon: W,
}

impl<W: Scalar> EngineProfile<W> {
    /// Profile matching Chromium / Blink behavior.
    #[must_use]
    pub fn chromium() -> (r: Self)
        ensures
            r.line_fit_epsilon == W::ratio_value(5, 1000),
    {
        EngineProfile { line_fit_epsilon: W::ratio(5, 1000) }
    }

    /// Profile matching Safari / `WebKit` behavior.
    #[must_use]
    pub fn safari() -> (r: Self)
        ensures
            r.line_fit_epsilon == W::ratio_value(1, 64),
    {
        EngineProfile { line_fit_epsilon: W::ratio(1, 64) }
    }

    /// Profile matching Firefox / Gecko behavior.
    #[must_use]
    pub fn gecko() -> (r: Self)
        ensures
            r.line_fit_epsilon == W::ratio_value(5, 1000),
    {
        EngineProfile { line_fit_epsilon: W::ratio(5, 1000) }
    }

    /// Default profile for non-browser (native) use. Conservative tolerances.
    #[must_use]
    pub fn native() -> (r: Self)
        ensures
            r == native_profile::<W>(),
    {
        EngineProfile { line_fit_epsilon: W::ratio(5, 1000) }
    }

    /// Whether the tolerance is a measurement.
    pub open spec fn valid(self) -> bool {
        is_measure(self.line_fit_epsilon)
    }

    /// Validate the numeric values used by the line-breaking engine.
    ///
    /// # Errors
    ///
    /// Returns [`Error::InvalidInput`] when [`Self::line_fit_epsilon`]
    /// is negative, infinite, or undefined.
    pub fn validate(&self) -> (r: Result<(), Error>)
        ensures
            r is Ok <==> self.valid(),
            r matches Err(e) ==> invalid_profile(e),
    {
        if self.line_fit_epsilon.is_finite() && W::zero().le(self.line_fit_epsilon) {
            Ok(())
        } else {
            Err(
                Error::invalid_input(
                    "profile.line_fit_epsilon",
                    "must be finite and non-negative",
                ),
            )
        }
    }
}

/// The profile of [`EngineProfile::native`].
pub open spec fn native_profile<W: Scalar>() -> EngineProfile<W> {
    EngineProfile { line_fit_epsilon: W::ratio_value(5, 1000) }
}

/// The error of [`EngineProfile::validate`].
pub open spec fn invalid_profile(error: Error) -> bool {
    error.rejects("profile.line_fit_epsilon"@, "must be finite and non-negative"@)
}

impl<W: Scalar> Default for EngineProfile<W> {
    fn default() -> (r: Self)
        ensures
            r == native_profile::<W>(),
    {
        EngineProfile::native()
    }
}

/// A chunk of segments between hard breaks (used in pre-wrap mode).
///
/// Each chunk is a run of segments that ends at a hard break or at the end of
/// the text.
#[derive(Debug, Clone, Copy, PartialEq, Eq, Structural)]
pub struct PreparedLineChunk {
    /// Index of first segment in this chunk (inclusive).
    pub start_segment_index: usize,
    /// Index of last segment in this chunk (exclusive).
    pub end_segment_index: usize,
    /// Index past the trailing hard-break segment (if any).
    pub consumed_end_segment_index: usize,
}

/// The core prepared text data -- parallel arrays over segments.
///
/// This is the representation consumed by the line-breaking engine: no
/// strings and no measurement calls.
#[derive(Debug, Clone)]
pub struct PreparedData<W> {
    /// Width of each segment as measured by the backend.
    pub widths: Vec<W>,
    /// Width contribution when this segment ends a line (for fit calculation).
    /// Trailing spaces contribute 0 here (they "hang" past the edge).
    pub line_end_fit_advances: Vec<W>,
    /// Visual width when this segment ends a line (for paint/render width).
    pub line_end_paint_advances: Vec<W>,
    /// Kind of each segment.
    pub kinds: Vec<SegmentKind>,
    /// Per-grapheme widths for segments that can be broken mid-word
    /// (`overflow-wrap: break-word`). `None` for segments that don't need it.
    pub breakable_widths: Vec<Option<Vec<W>>>,
    /// Hard-break chunks, in order.
    pub chunks: Vec<PreparedLineChunk>,
    /// Tab stop advance (typically `8 * space_width`).
    pub tab_stop_advance: W,
    /// Width of a discretionary hyphen (for soft-hyphen rendering).
    pub discretionary_hyphen_width: W,
    /// Whether the simple fast path can be used (no hard breaks, no tabs, no
    /// soft hyphens, no preserved spaces).
    pub simple_fast_path: bool,
    /// Validated profile selected when this prepared value was created.
    pub profile: EngineProfile<W>,
}

/// The smaller of two lengths.
pub open spec fn least(a: nat, b: nat) -> nat {
    if a <= b {
        a
    } else {
        b
    }
}

/// The first hard break from `from` on, or the number of segments.
pub open spec fn next_hard_break(kinds: Seq<SegmentKind>, from: int) -> int
    decreases kinds.len() - from,
{
    if from >= kinds.len() {
        kinds.len() as int
    } else if kinds[from] == SegmentKind::HardBreak {
        from
    } else {
        next_hard_break(kinds, from + 1)
    }
}

/// The chunks of the segments from `start` on: each ends before a hard break
/// and consumes it, the last one ends with the text.
pub open spec fn chunks_from(kinds: Seq<SegmentKind>, start: int) -> Seq<PreparedLineChunk>
    decreases kinds.len() - start,
{
    let end = next_hard_break(kinds, start);
    if start <= end < kinds.len() {
        seq![
            PreparedLineChunk {
                start_segment_index: start as usize,
                end_segment_index: end as usize,
                consumed_end_segment_index: (end + 1) as usize,
            },
        ] + chunks_from(kinds, end + 1)
    } else {
        seq![
            PreparedLineChunk {
                start_segment_index: start as usize,
                end_segment_index: kinds.len() as usize,
                consumed_end_segment_index: kinds.len() as usize,
            },
        ]
    }
}

/// Whether a segment of this kind needs none of the full walker's machinery.
pub open spec fn is_simple_kind(kind: SegmentKind) -> bool {
    kind == SegmentKind::Text || kind == SegmentKind::Space || kind == SegmentKind::ZeroWidthBreak
}

/// Whether a segment of this kind needs no room at a line end.
pub open spec fn hangs(kind: SegmentKind) -> bool {
    kind == SegmentKind::Space || kind == SegmentKind::PreservedSpace || kind == SegmentKind::Tab
        || kind == SegmentKind::ZeroWidthBreak
}

impl<W: Scalar> PreparedData<W> {
    /// What preparation guarantees: the arrays are aligned, the chunks are
    /// those of the hard breaks, only text can be broken inside, every width is
    /// a measurement or zero, text is painted whole at a line end, and blanks
    /// and zero-width breaks need no room there.
    pub open spec fn well_formed(&self) -> bool {
        let count = self.kinds@.len();
        &&& self.widths@.len() == count
        &&& self.line_end_fit_advances@.len() == count
        &&& self.line_end_paint_advances@.len() == count
        &&& self.breakable_widths@.len() == count
        &&& self.chunks@ == chunks_from(self.kinds@, 0)
        &&& self.simple_fast_path == (forall|i: int|
            0 <= i < count ==> is_simple_kind(#[trigger] self.kinds@[i]))
        &&& forall|i: int|
            0 <= i < count ==> {
                &&& is_width(#[trigger] self.widths@[i])
                &&& is_width(self.line_end_fit_advances@[i])
                &&& is_width(self.line_end_paint_advances@[i])
            }
        &&& forall|i: int, k: int|
            #![trigger self.breakable(i)->0[k]]
            0 <= i < count && self.breakable(i) is Some && 0 <= k < self.breakable(i)->0.len()
                ==> is_width(self.breakable(i)->0[k])
        &&& forall|i: int|
            0 <= i < count && #[trigger] self.breakable(i) is Some ==> self.kinds@[i]
                == SegmentKind::Text
        &&& forall|i: int|
            0 <= i < count && #[trigger] self.kinds@[i] == SegmentKind::SoftHyphen ==> {
                &&& self.line_end_fit_advances@[i] == self.discretionary_hyphen_width
                &&& self.line_end_paint_advances@[i] == self.discretionary_hyphen_width
            }
        &&& forall|i: int|
            0 <= i < count && #[trigger] self.kinds@[i] == SegmentKind::Text
                ==> self.line_end_paint_advances@[i] == self.widths@[i]
        &&& forall|i: int|
            0 <= i < count && hangs(#[trigger] self.kinds@[i]) ==> self.line_end_fit_advances@[i]
                == W::zero_value()
        &&& forall|i: int|
            0 <= i < count && #[trigger] self.kinds@[i] == SegmentKind::ZeroWidthBreak
                ==> self.widths@[i] == W::zero_value()
        &&& is_width(self.tab_stop_advance)
        &&& is_width(self.discretionary_hyphen_width)
        &&& self.profile.valid()
    }

    /// Number of complete entries shared by every parallel segment array.
    pub open spec fn count(&self) -> nat {
        least(
            least(
                least(
                    least(self.widths@.len(), self.line_end_fit_advances@.len()),
                    self.line_end_paint_advances@.len(),
                ),
                self.kinds@.len(),
            ),
            self.breakable_widths@.len(),
        )
    }

    /// The grapheme widths of a segment that can be broken inside.
    pub open spec fn breakable(&self, index: int) -> Option<Seq<W>> {
        match self.breakable_widths@[index] {
            Some(widths) => Some(widths@),
            None => None,
        }
    }

    /// Number of complete entries shared by every parallel segment array.
    ///
    /// Using the shortest array keeps the walkers bounded whatever the arrays
    /// hold.
    #[must_use]
    pub fn segment_count(&self) -> (r: usize)
        ensures
            r == self.count(),
    {
        let mut count: usize = self.widths.len();
        if self.line_end_fit_advances.len() < count {
            count = self.line_end_fit_advances.len();
        }
        if self.line_end_paint_advances.len() < count {
            count = self.line_end_paint_advances.len();
        }
        if self.kinds.len() < count {
            count = self.kinds.len();
        }
        if self.breakable_widths.len() < count {
            count = self.breakable_widths.len();
        }
        count
    }
}

/// Opaque handle to prepared text -- the result of `prepare()`.
///
/// This is the fast-path type: it contains only the layout data,
/// no segment strings. Use `PreparedTextWithSegments` if you need
/// to materialize line text content.
#[derive(Debug, Clone)]
pub struct PreparedText<W> {
    data: PreparedData<W>,
}

impl<W> View for PreparedText<W> {
    type V = PreparedData<W>;

    closed spec fn view(&self) -> PreparedData<W> {
        self.data
    }
}

impl<W: Scalar> PreparedText<W> {
    pub(crate) fn from_data(data: PreparedData<W>) -> (r: Self)
        ensures
            r@ == data,
    {
        PreparedText { data }
    }

    /// The layout data, read-only.
    #[must_use]
    pub fn data(&self) -> (r: &PreparedData<W>)
        ensures
            *r == self@,
    {
        &self.data
    }

    /// Number of segments in the prepared text.
    #[must_use]
    pub fn segment_count(&self) -> (r: usize)
        ensures
            r == self@.count(),
    {
        self.data.segment_count()
    }

    /// Whether the prepared text is empty.
    #[must_use]
    pub fn is_empty(&self) -> (r: bool)
        ensures
            r == (self@.count() == 0),
    {
        self.data.segment_count() == 0
    }
}

/// Rich prepared text -- retains segment strings for line materialization.
///
/// Returned by `prepare_with_segments()`. Slightly more memory than
/// `PreparedText` but allows `layout_with_lines()` to produce actual
/// text content per line.
#[derive(Debug, Clone)]
pub struct PreparedTextWithSegments<W> {
    data: PreparedData<W>,
    /// The original text segments, aligned 1:1 with the data arrays.
    segments: Vec<String>,
    /// Optional bidi embedding level at each segment's first Unicode scalar.
    /// `None` means every resolved scalar level is base LTR. A segment can
    /// contain an internal level transition, so this is coarse advisory
    /// metadata rather than a complete directional-run representation. See
    /// [`crate::bidi`].
    seg_levels: Option<Vec<i8>>,
}

/// Rich prepared text as a value.
pub struct RichText<W> {
    pub data: PreparedData<W>,
    pub segments: Seq<Seq<char>>,
    pub seg_levels: Option<Seq<i8>>,
}

impl<W> View for PreparedTextWithSegments<W> {
    type V = RichText<W>;

    closed spec fn view(&self) -> RichText<W> {
        RichText {
            data: self.data,
            segments: views(self.segments@),
            seg_levels: match self.seg_levels {
                Some(levels) => Some(levels@),
                None => None,
            },
        }
    }
}

impl<W: Scalar> PreparedTextWithSegments<W> {
    pub(crate) fn from_parts(
        data: PreparedData<W>,
        segments: Vec<String>,
        seg_levels: Option<Vec<i8>>,
    ) -> (r: Self)
        ensures
            r@.data == data,
            r@.segments == views(segments@),
            match seg_levels {
                Some(levels) => r@.seg_levels == Some(levels@),
                None => r@.seg_levels is None,
            },
    {
        PreparedTextWithSegments { data, segments, seg_levels }
    }

    /// The layout data, read-only.
    #[must_use]
    pub fn data(&self) -> (r: &PreparedData<W>)
        ensures
            *r == self@.data,
    {
        &self.data
    }

    /// Original text segments in layout order.
    ///
    /// The returned slice is read-only so it cannot be desynchronized from
    /// the prepared measurement arrays.
    #[must_use]
    pub fn segments(&self) -> (r: &[String])
        ensures
            views(r@) == self@.segments,
    {
        self.segments.as_slice()
    }

    /// Bidi level at the start of each segment, aligned 1:1 with
    /// [`Self::segments`].
    ///
    /// A segment may cross a resolved-level boundary. Renderers must use
    /// [`crate::bidi::compute_bidi_levels`] and split directional runs before
    /// applying line-specific reordering; this convenience array is not
    /// sufficient for visual ordering by itself.
    #[must_use]
    pub fn seg_levels(&self) -> (r: Option<&[i8]>)
        ensures
            match self@.seg_levels {
                Some(levels) => r matches Some(slice) && slice@ == levels,
                None => r is None,
            },
    {
        match &self.seg_levels {
            Some(levels) => Some(levels.as_slice()),
            None => None,
        }
    }
}

/// Cursor position within prepared text -- identifies a specific
/// point between/within segments.
#[derive(Debug, Clone, Copy, PartialEq, Eq, Structural)]
pub struct LayoutCursor {
    /// Index of the current segment.
    pub(crate) segment_index: usize,
    /// Index of the current grapheme within the segment (for mid-word breaks).
    pub(crate) grapheme_index: usize,
}

impl LayoutCursor {
    /// The segment that the cursor stands in.
    pub open(crate) spec fn segment(&self) -> usize {
        self.segment_index
    }

    /// The grapheme of the segment that the cursor stands before.
    pub open(crate) spec fn grapheme(&self) -> usize {
        self.grapheme_index
    }

    /// The cursor at a grapheme of a segment.
    pub open(crate) spec fn at(segment: usize, grapheme: usize) -> Self {
        LayoutCursor { segment_index: segment, grapheme_index: grapheme }
    }

    /// The cursor at a grapheme of a segment.
    #[must_use]
    pub fn new(segment_index: usize, grapheme_index: usize) -> (r: Self)
        ensures
            r == LayoutCursor::at(segment_index, grapheme_index),
            r.segment() == segment_index,
            r.grapheme() == grapheme_index,
    {
        LayoutCursor { segment_index, grapheme_index }
    }

    /// Index of the segment containing this cursor.
    #[must_use]
    #[verifier::when_used_as_spec(segment)]
    pub fn segment_index(&self) -> (r: usize)
        ensures
            r == self.segment(),
    {
        self.segment_index
    }

    /// Index of the grapheme within the current segment.
    ///
    /// A value of zero places the cursor at a segment boundary.
    #[must_use]
    #[verifier::when_used_as_spec(grapheme)]
    pub fn grapheme_index(&self) -> (r: usize)
        ensures
            r == self.grapheme(),
    {
        self.grapheme_index
    }

    /// Whether `self` stands before `other`.
    pub open spec fn before(self, other: LayoutCursor) -> bool {
        self.segment() < other.segment() || (self.segment() == other.segment()
            && self.grapheme() < other.grapheme())
    }
}

impl Default for LayoutCursor {
    fn default() -> (r: Self)
        ensures
            r == LayoutCursor::at(0, 0),
    {
        LayoutCursor { segment_index: 0, grapheme_index: 0 }
    }
}

/// Result of `layout()` -- just height and line count.
#[derive(Debug, Clone, Copy)]
pub struct LayoutResult<W> {
    /// Number of lines the text occupies at the given width.
    pub line_count: usize,
    /// Total height (`line_count * line_height`).
    pub height: W,
}

/// A materialized line from `layout_with_lines()`.
#[derive(Debug, Clone)]
pub struct LayoutLine<W> {
    /// The text content of this line.
    pub text: String,
    /// The rendered width of this line.
    pub width: W,
    /// Cursor at the start of this line.
    pub start: LayoutCursor,
    /// Cursor at the end of this line.
    pub end: LayoutCursor,
    /// Whether this line paints a discretionary hyphen at its end.
    ///
    /// This is true only when a U+00AD soft hyphen was selected as the line's
    /// actual break opportunity. An unbroken or terminal soft hyphen remains
    /// invisible.
    pub ends_with_discretionary_hyphen: bool,
}

/// A line range from `walk_line_ranges()` -- geometry only, no text.
#[derive(Debug, Clone, Copy)]
pub struct LayoutLineRange<W> {
    /// The rendered width of this line.
    pub width: W,
    /// Cursor at the start of this line.
    pub start: LayoutCursor,
    /// Cursor at the end of this line.
    pub end: LayoutCursor,
    /// Whether this range paints a discretionary hyphen at its end.
    ///
    /// Cursor positions alone cannot distinguish a selected soft-hyphen
    /// break from a range that merely ends after an unpainted U+00AD.
    pub ends_with_discretionary_hyphen: bool,
}

/// Default maximum UTF-8 input size accepted by preparation APIs: 4 MiB.
pub const DEFAULT_MAX_INPUT_BYTES: usize = 4_194_304;

/// Default maximum number of extended grapheme clusters accepted per input.
pub const DEFAULT_MAX_GRAPHEMES: usize = 65_536;

/// Default maximum number of analyzed segments accepted per input.
pub const DEFAULT_MAX_SEGMENTS: usize = 65_536;

/// Options for `prepare()` / `prepare_with_segments()`.
#[derive(Debug, Clone, Copy)]
pub struct PrepareOptions<W> {
    /// Whitespace handling mode. Default: Normal (collapse + wrap).
    pub white_space: WhiteSpaceMode,
    /// Engine profile for browser-specific behavior. Default: native.
    pub profile: Option<EngineProfile<W>>,
    /// Maximum accepted input size in UTF-8 bytes.
    ///
    /// The preparation APIs reject larger inputs before analysis or
    /// measurement. The default is [`DEFAULT_MAX_INPUT_BYTES`]. Set this to
    /// zero to permit only empty input.
    pub max_input_bytes: usize,
    /// Maximum accepted number of extended grapheme clusters.
    ///
    /// This bound is checked before analysis allocates segment structures.
    /// The default is [`DEFAULT_MAX_GRAPHEMES`].
    pub max_graphemes: usize,
    /// Maximum accepted number of analyzed segments.
    ///
    /// This bounds the parallel prepared arrays even for punctuation-heavy
    /// inputs. The default is [`DEFAULT_MAX_SEGMENTS`].
    pub max_segments: usize,
}

impl<W: Scalar> PrepareOptions<W> {
    /// The profile that preparation uses.
    pub open spec fn chosen_profile(self) -> EngineProfile<W> {
        match self.profile {
            Some(profile) => profile,
            None => native_profile::<W>(),
        }
    }
}

impl<W: Scalar> Default for PrepareOptions<W> {
    fn default() -> (r: Self)
        ensures
            r.white_space == WhiteSpaceMode::Normal,
            r.profile is None,
            r.max_input_bytes == DEFAULT_MAX_INPUT_BYTES,
            r.max_graphemes == DEFAULT_MAX_GRAPHEMES,
            r.max_segments == DEFAULT_MAX_SEGMENTS,
    {
        PrepareOptions {
            white_space: WhiteSpaceMode::Normal,
            profile: None,
            max_input_bytes: DEFAULT_MAX_INPUT_BYTES,
            max_graphemes: DEFAULT_MAX_GRAPHEMES,
            max_segments: DEFAULT_MAX_SEGMENTS,
        }
    }
}

/// Diagnostic timing/shape data returned by `profile_prepare()`.
///
/// Used by benchmarks to separate the analysis phase from the measurement
/// phase.
#[derive(Debug, Clone, Copy)]
pub struct PrepareProfile<W> {
    /// Wall time spent validating and analyzing text, in milliseconds.
    pub analysis_ms: W,
    /// Wall time spent in the measurement loop, in milliseconds.
    pub measure_ms: W,
    /// Total wall time for `prepare()`, in milliseconds.
    pub total_ms: W,
    /// Number of segments produced by analysis (before measurement).
    pub analysis_segments: usize,
    /// Number of segments in the resulting prepared text.
    pub prepared_segments: usize,
    /// Number of segments that carry per-grapheme breakable widths
    /// (overflow-wrap candidates).
    pub breakable_segments: usize,
}

} // verus!
