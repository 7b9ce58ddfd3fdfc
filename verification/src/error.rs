//! Typed errors returned by the fallible APIs.
use crate::decimal::{numeral, push_numeral};
use crate::format::{hex_numeral, push_hex, quote, quote_char, quoted, quoted_char};
use crate::scalar::Scalar;
use vstd::prelude::*;
use vstd::string::*;

verus! {

/// A rejected value: how it reads, and the bits that stand for it.
#[derive(Debug, Clone, PartialEq)]
pub struct MetricValue {
    text: String,
    bits: u64,
}

impl MetricValue {
    /// How the value reads.
    pub closed spec fn text(self) -> Seq<char> {
        self.text@
    }

    /// The bits that stand for the value.
    pub closed spec fn bits(self) -> u64 {
        self.bits
    }

    /// Whether this is a value, in words and in bits.
    pub open spec fn holds<W: Scalar>(self, value: W) -> bool {
        self.text() == value.shown() && self.bits() == value.encoded()
    }

    /// A value that was rejected.
    #[must_use]
    pub fn of<W: Scalar>(value: W) -> (r: Self)
        ensures
            r.holds(value),
    {
        MetricValue { text: value.show(), bits: value.to_bits() }
    }

    /// The value as a number.
    #[must_use]
    pub fn number<W: Scalar>(&self) -> (r: W)
        ensures
            r == W::decoded(self.bits()),
    {
        W::from_bits(self.bits)
    }

    /// The value in words.
    #[must_use]
    pub fn as_str(&self) -> (r: &str)
        ensures
            r@ == self.text(),
    {
        self.text.as_str()
    }
}

/// Errors produced while parsing, measuring, preparing, or laying out text.
#[derive(Debug, Clone, PartialEq)]
#[non_exhaustive]
pub enum Error {
    /// A CSS-style font specification could not be parsed or validated.
    InvalidFontSpec {
        /// The rejected specification.
        spec: String,
        /// Human-readable validation failure.
        reason: String,
    },
    /// A requested font family was not loaded into the selected backend.
    MissingFont {
        /// Requested family name.
        family: String,
    },
    /// A selected native font has no mapping for a requested character.
    MissingGlyph {
        /// Character absent from the selected font.
        character: char,
        /// Requested font family.
        family: String,
    },
    /// A measurement backend reported an operational failure.
    Measurement {
        /// Stable backend identifier.
        backend: &'static str,
        /// Backend-provided context.
        message: String,
    },
    /// A backend returned a negative or non-finite measurement.
    InvalidMetric {
        /// Metric name.
        metric: &'static str,
        /// Rejected value.
        value: MetricValue,
    },
    /// A public input violated an API precondition.
    InvalidInput {
        /// Parameter or logical input name.
        parameter: &'static str,
        /// Human-readable validation failure.
        reason: String,
    },
    /// Input exceeded a configured resource limit.
    InputTooLarge {
        /// Actual input size in bytes.
        bytes: usize,
        /// Configured maximum size in bytes.
        max_bytes: usize,
    },
    /// An input would produce more structural work than the configured limit.
    InputComplexity {
        /// Stable unit being bounded (for example, graphemes or segments).
        resource: &'static str,
        /// Actual number of structural units.
        units: usize,
        /// Configured maximum number of structural units.
        max_units: usize,
    },
    /// A caller-provided cursor was not valid for the prepared value.
    InvalidCursor {
        /// API surface that rejected the cursor.
        context: &'static str,
        /// Requested segment index.
        segment_index: usize,
        /// Requested grapheme index.
        grapheme_index: usize,
        /// Number of available segments.
        segment_count: usize,
    },
    /// A bidi segment start was outside the normalized character sequence.
    InvalidBidiStart {
        /// Rejected character index.
        start: usize,
        /// Number of Unicode scalar values in the normalized text.
        char_count: usize,
    },
    /// A character cannot be emitted by the configured glyph atlas.
    UnsupportedGlyph {
        /// Rejected Unicode scalar value.
        character: char,
        /// Numeric Unicode code point for diagnostics.
        codepoint: u32,
    },
    /// A handle did not identify a live prepared value.
    InvalidHandle {
        /// Rejected handle.
        handle: u32,
    },
    /// A bounded runtime pool could not accept another entry.
    PoolExhausted {
        /// Maximum number of live entries.
        capacity: usize,
    },
    /// A monotonic opaque identifier space has been consumed.
    IdentifierExhausted {
        /// Stable identifier allocator name.
        resource: &'static str,
    },
    /// A bounded runtime resource would exceed its configured byte limit.
    ResourceLimit {
        /// Stable resource identifier.
        resource: &'static str,
        /// Bytes that would be retained after the requested operation.
        requested_bytes: usize,
        /// Maximum retained bytes allowed for the resource.
        max_bytes: usize,
    },
    /// Interior state was already borrowed or otherwise unavailable.
    StateUnavailable {
        /// State component that could not be accessed.
        state: &'static str,
    },
    /// Checked arithmetic detected an overflow.
    ArithmeticOverflow {
        /// Operation that overflowed.
        operation: &'static str,
    },
}

impl Error {
    /// Whether this is [`Error::InvalidInput`] for `parameter` and `reason`.
    pub open spec fn rejects(self, parameter: Seq<char>, reason: Seq<char>) -> bool {
        self matches Error::InvalidInput { parameter: p, reason: r } && p@ == parameter && r@
            == reason
    }

    /// Whether this is [`Error::InvalidMetric`] for `metric`, with the value.
    pub open spec fn reports_metric<W: Scalar>(self, metric: Seq<char>, value: W) -> bool {
        self matches Error::InvalidMetric { metric: m, value: v } && m@ == metric && v.holds(value)
    }

    /// Whether this is [`Error::Measurement`] of `backend` with `message`.
    pub open spec fn reports_measurement(self, backend: Seq<char>, message: Seq<char>) -> bool {
        self matches Error::Measurement { backend: b, message: m } && b@ == backend && m@ == message
    }

    /// Whether this is [`Error::InputComplexity`] of `resource`.
    pub open spec fn exceeds(self, resource: Seq<char>, units: nat, max_units: nat) -> bool {
        self matches Error::InputComplexity { resource: r, units: u, max_units: m } && r@ == resource
            && u == units && m == max_units
    }

    /// The error in words.
    pub open spec fn described(self) -> Seq<char> {
        match self {
            Error::InvalidFontSpec { spec, reason } => "invalid font specification "@ + quoted(spec@)
                + ": "@ + reason@,
            Error::MissingFont { family } => "font family "@ + quoted(family@) + " is not loaded"@,
            Error::MissingGlyph { character, family } => "font family "@ + quoted(family@)
                + " has no glyph for "@ + quoted_char(character),
            Error::Measurement { backend, message } => backend@ + " measurement failed: "@
                + message@,
            Error::InvalidMetric { metric, value } => "measurement "@ + metric@
                + " must be finite and non-negative, got "@ + value.text(),
            Error::InvalidInput { parameter, reason } => "invalid "@ + parameter@ + ": "@ + reason@,
            Error::InputTooLarge { bytes, max_bytes } => "input is "@ + numeral(bytes as nat)
                + " bytes; configured maximum is "@ + numeral(max_bytes as nat) + " bytes"@,
            Error::InputComplexity { resource, units, max_units } => resource@ + " contains "@
                + numeral(units as nat) + " units; configured maximum is "@ + numeral(
                max_units as nat,
            ) + " units"@,
            Error::InvalidCursor { context, segment_index, grapheme_index, segment_count } =>
                "invalid "@ + context@ + " cursor ("@ + numeral(segment_index as nat) + ", "@
                + numeral(grapheme_index as nat) + ") for "@ + numeral(segment_count as nat)
                + " segments"@,
            Error::InvalidBidiStart { start, char_count } => "bidi segment start "@ + numeral(
                start as nat,
            ) + " is outside "@ + numeral(char_count as nat) + " characters"@,
            Error::UnsupportedGlyph { character, codepoint } => "character "@ + quoted_char(
                character,
            ) + " (U+"@ + hex_numeral(codepoint as nat, 4)
                + ") is not present in the configured glyph atlas"@,
            Error::InvalidHandle { handle } => "unknown or freed handle "@ + numeral(handle as nat),
            Error::PoolExhausted { capacity } => "runtime pool is full at "@ + numeral(
                capacity as nat,
            ) + " live entries"@,
            Error::IdentifierExhausted { resource } => resource@
                + " identifier space is exhausted"@,
            Error::ResourceLimit { resource, requested_bytes, max_bytes } => resource@
                + " would retain "@ + numeral(requested_bytes as nat)
                + " bytes; configured maximum is "@ + numeral(max_bytes as nat) + " bytes"@,
            Error::StateUnavailable { state } => state@ + " state is unavailable"@,
            Error::ArithmeticOverflow { operation } => "arithmetic overflow while "@ + operation@,
        }
    }

    /// Describe the error.
    #[must_use]
    pub fn message(&self) -> (r: String)
        ensures
            r@ == self.described(),
    {
        let mut text = String::new();
        match self {
            Error::InvalidFontSpec { spec, reason } => {
                text.append("invalid font specification ");
                text.append(quote(spec.as_str()).as_str());
                text.append(": ");
                text.append(reason.as_str());
            },
            Error::MissingFont { family } => {
                text.append("font family ");
                text.append(quote(family.as_str()).as_str());
                text.append(" is not loaded");
            },
            Error::MissingGlyph { character, family } => {
                text.append("font family ");
                text.append(quote(family.as_str()).as_str());
                text.append(" has no glyph for ");
                text.append(quote_char(*character).as_str());
            },
            Error::Measurement { backend, message } => {
                text.append(backend);
                text.append(" measurement failed: ");
                text.append(message.as_str());
            },
            Error::InvalidMetric { metric, value } => {
                text.append("measurement ");
                text.append(metric);
                text.append(" must be finite and non-negative, got ");
                text.append(value.as_str());
            },
            Error::InvalidInput { parameter, reason } => {
                text.append("invalid ");
                text.append(parameter);
                text.append(": ");
                text.append(reason.as_str());
            },
            Error::InputTooLarge { bytes, max_bytes } => {
                text.append("input is ");
                push_numeral(&mut text, *bytes as u64);
                text.append(" bytes; configured maximum is ");
                push_numeral(&mut text, *max_bytes as u64);
                text.append(" bytes");
            },
            Error::InputComplexity { resource, units, max_units } => {
                text.append(resource);
                text.append(" contains ");
                push_numeral(&mut text, *units as u64);
                text.append(" units; configured maximum is ");
                push_numeral(&mut text, *max_units as u64);
                text.append(" units");
            },
            Error::InvalidCursor { context, segment_index, grapheme_index, segment_count } => {
                text.append("invalid ");
                text.append(context);
                text.append(" cursor (");
                push_numeral(&mut text, *segment_index as u64);
                text.append(", ");
                push_numeral(&mut text, *grapheme_index as u64);
                text.append(") for ");
                push_numeral(&mut text, *segment_count as u64);
                text.append(" segments");
            },
            Error::InvalidBidiStart { start, char_count } => {
                text.append("bidi segment start ");
                push_numeral(&mut text, *start as u64);
                text.append(" is outside ");
                push_numeral(&mut text, *char_count as u64);
                text.append(" characters");
            },
            Error::UnsupportedGlyph { character, codepoint } => {
                text.append("character ");
                text.append(quote_char(*character).as_str());
                text.append(" (U+");
                push_hex(&mut text, *codepoint, 4);
                text.append(") is not present in the configured glyph atlas");
            },
            Error::InvalidHandle { handle } => {
                text.append("unknown or freed handle ");
                push_numeral(&mut text, *handle as u64);
            },
            Error::PoolExhausted { capacity } => {
                text.append("runtime pool is full at ");
                push_numeral(&mut text, *capacity as u64);
                text.append(" live entries");
            },
            Error::IdentifierExhausted { resource } => {
                text.append(resource);
                text.append(" identifier space is exhausted");
            },
            Error::ResourceLimit { resource, requested_bytes, max_bytes } => {
                text.append(resource);
                text.append(" would retain ");
                push_numeral(&mut text, *requested_bytes as u64);
                text.append(" bytes; configured maximum is ");
                push_numeral(&mut text, *max_bytes as u64);
                text.append(" bytes");
            },
            Error::StateUnavailable { state } => {
                text.append(state);
                text.append(" state is unavailable");
            },
            Error::ArithmeticOverflow { operation } => {
                text.append("arithmetic overflow while ");
                text.append(operation);
            },
        }
        proof {
            assert(text@ =~= self.described());
        }
        text
    }

    pub(crate) fn measurement(backend: &'static str, message: String) -> (r: Self)
        ensures
            r.reports_measurement(backend@, message@),
    {
        Error::Measurement { backend, message }
    }

    pub(crate) fn invalid_input(parameter: &'static str, reason: &str) -> (r: Self)
        ensures
            r.rejects(parameter@, reason@),
    {
        Error::InvalidInput { parameter, reason: reason.to_string() }
    }
}

} // verus!
