//! Measurement backends for text segment width computation.
//!
//! The core abstraction: [`MeasureBackend`] provides font metrics to the
//! prepare phase. The line-breaking engine never touches this -- it only
//! sees the pre-computed widths.
use crate::error::{Error, MetricValue};
use crate::scalar::{is_measure, sum_of, sums_measure, Scalar};
use vstd::prelude::*;

pub mod canvas;
pub mod fixed;
pub mod font;
pub mod skrifa_backend;

pub use font::{FontSpec, FontView};
pub use skrifa_backend::SkrifaNominalBackend;

verus! {

/// Metrics for a single measured segment.
#[derive(Debug, Clone)]
pub struct SegmentMetrics<W> {
    /// Total width of the segment.
    pub width: W,
    /// Whether the segment contains CJK characters.
    pub contains_cjk: bool,
    /// Number of emoji in the segment (for correction).
    pub emoji_count: usize,
    /// Per-grapheme widths for breakable segments (`overflow-wrap: break-word`).
    /// `None` if the segment doesn't need grapheme-level breaking.
    pub grapheme_widths: Option<Vec<W>>,
}

impl<W> SegmentMetrics<W> {
    /// The grapheme widths as values.
    pub open spec fn widths(&self) -> Option<Seq<W>> {
        match self.grapheme_widths {
            Some(widths) => Some(widths@),
            None => None,
        }
    }
}

/// Trait for text measurement backends.
///
/// Implementations provide width measurements for text segments. Errors are
/// returned to the caller without substituting estimated or zero-width values.
///
/// What a backend may answer is its own affair: each implementation says so in
/// three relations, which may leave the answer open where it rests on a font or
/// on a browser. One that says nothing promises nothing.
pub trait MeasureBackend<W: Scalar> {
    /// Whether `reply` is an answer to measuring `text` in `font`.
    open spec fn may_measure(
        &self,
        text: Seq<char>,
        font: FontView<W>,
        reply: Result<SegmentMetrics<W>, Error>,
    ) -> bool {
        true
    }

    /// Whether `reply` is an answer to measuring a space in `font`.
    open spec fn may_measure_space(&self, font: FontView<W>, reply: Result<W, Error>) -> bool {
        true
    }

    /// Whether `reply` is an answer to measuring a hyphen in `font`.
    open spec fn may_measure_hyphen(&self, font: FontView<W>, reply: Result<W, Error>) -> bool {
        true
    }

    /// Measure a text segment and return its metrics.
    ///
    /// # Errors
    ///
    /// Returns a backend or metric-validation error when real measurement
    /// cannot be completed.
    fn measure_segment(&self, text: &str, font: &FontSpec<W>) -> (r: Result<
        SegmentMetrics<W>,
        Error,
    >)
        ensures
            self.may_measure(text@, font@, r),
    ;

    /// Measure the width of a single space character.
    ///
    /// # Errors
    ///
    /// Returns a backend or metric-validation error when real measurement
    /// cannot be completed.
    fn measure_space_width(&self, font: &FontSpec<W>) -> (r: Result<W, Error>)
        ensures
            self.may_measure_space(font@, r),
    ;

    /// Measure the width of a hyphen character (for soft-hyphen rendering).
    ///
    /// # Errors
    ///
    /// Returns a backend or metric-validation error when real measurement
    /// cannot be completed.
    fn measure_hyphen_width(&self, font: &FontSpec<W>) -> (r: Result<W, Error>)
        ensures
            self.may_measure_hyphen(font@, r),
    ;
}

/// What [`validate_metric`] makes of a value.
pub open spec fn validated<W: Scalar>(metric: Seq<char>, value: W, outcome: Result<W, Error>) -> bool {
    match outcome {
        Ok(accepted) => is_measure(value) && accepted == value,
        Err(error) => !is_measure(value) && error.reports_metric(metric, value),
    }
}

/// Accept a measurement that is finite and not negative.
pub fn validate_metric<W: Scalar>(metric: &'static str, value: W) -> (r: Result<W, Error>)
    ensures
        validated(metric@, value, r),
{
    if value.is_finite() && W::zero().le(value) {
        Ok(value)
    } else {
        Err(Error::InvalidMetric { metric, value: MetricValue::of(value) })
    }
}

/// Whether `error` rejects the width at `index`, or the running sum there,
/// where all before it are measurements.
pub open spec fn sum_fault_at<W: Scalar>(
    widths: Seq<W>,
    index: int,
    item_metric: Seq<char>,
    sum_metric: Seq<char>,
    error: Error,
) -> bool {
    let sum = sum_of(widths.take(index + 1));
    &&& 0 <= index < widths.len()
    &&& sums_measure(widths, index)
    &&& if !is_measure(widths[index]) {
        error.reports_metric(item_metric, widths[index])
    } else {
        !is_measure(sum) && error.reports_metric(sum_metric, sum)
    }
}

/// Whether `error` rejects the first width, or running sum, that is no
/// measurement.
pub open spec fn sum_fault<W: Scalar>(
    widths: Seq<W>,
    item_metric: Seq<char>,
    sum_metric: Seq<char>,
    error: Error,
) -> bool {
    exists|index: int|
        #[trigger] sum_fault_at(widths, index, item_metric, sum_metric, error)
}

/// Sum widths, each of which and whose running sums must be measurements.
pub fn validated_width_sum<W: Scalar>(
    widths: &Vec<W>,
    item_metric: &'static str,
    sum_metric: &'static str,
) -> (r: Result<W, Error>)
    ensures
        match r {
            Ok(total) => sums_measure(widths@, widths@.len() as int) && total == sum_of(widths@),
            Err(error) => sum_fault(widths@, item_metric@, sum_metric@, error),
        },
{
    let mut total = W::zero();
    let mut index: usize = 0;
    proof {
        assert(widths@.take(0) =~= Seq::empty());
    }
    while index < widths.len()
        invariant
            index <= widths@.len(),
            sums_measure(widths@, index as int),
            total == sum_of(widths@.take(index as int)),
        decreases widths@.len() - index,
    {
        proof {
            assert(widths@.take(index + 1).drop_last() =~= widths@.take(index as int));
        }
        if let Err(error) = validate_metric(item_metric, widths[index]) {
            proof {
                assert(sum_fault_at(widths@, index as int, item_metric@, sum_metric@, error));
            }
            return Err(error);
        }
        total = total.add(widths[index]);
        if let Err(error) = validate_metric(sum_metric, total) {
            proof {
                assert(sum_fault_at(widths@, index as int, item_metric@, sum_metric@, error));
            }
            return Err(error);
        }
        index += 1;
    }
    proof {
        assert(widths@.take(index as int) =~= widths@);
    }
    Ok(total)
}

} // verus!
