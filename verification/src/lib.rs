//! DOM-free text measurement and line breaking.
//!
//! Two phases:
//! - [`prepare()`] -- expensive one-time measurement (uses a
//!   [`backend::MeasureBackend`])
//! - [`layout()`] -- cheap reflow over already measured data
//!
//! Everything is written over [`scalar::Scalar`], the arithmetic of widths, and
//! so serves floating point as well as [`layout_unit::LayoutUnit`], whose sums
//! are exact.
//! What a function does is stated in its contract; what holds of the library as
//! a whole is stated and proved in the modules that end in `_laws`.
use vstd::prelude::*;

pub mod analysis;
pub mod analysis_laws;
pub mod backend;
pub mod backend_laws;
pub mod bidi;
pub mod break_laws;
pub mod decimal;
pub mod error;
pub mod flow_fit_laws;
pub mod flow_laws;
pub mod flow_prep_laws;
pub mod font_laws;
pub mod format;
pub mod gpu_laws;
pub mod gpu_layout;
pub mod inline_flow;
pub mod layout;
pub mod layout_laws;
pub mod layout_unit;
pub mod line_break;
pub mod line_laws;
pub mod measure_laws;
pub mod memory;
pub mod natural_laws;
pub mod place_laws;
pub mod plain_laws;
pub mod prepare;
pub mod scalar;
pub mod segment_laws;
pub mod segmentation;
pub mod session;
pub mod session_laws;
pub mod text;
pub mod types;
pub mod unicode;
pub mod width_laws;
pub mod wrap_laws;

pub use error::Error;
pub use layout::{
    layout, layout_next_line, layout_with_lines, layout_with_profile, measure_natural_width,
    walk_line_ranges,
};
pub use prepare::{prepare, prepare_with_segments, profile_prepare};

verus! {

} // verus!
