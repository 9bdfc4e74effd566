//! Sample entropy of blood-pressure waveforms.
//!
//! Samples are integers in units of a power of ten, read exactly from
//! decimal text, each subject at the finest scale its numbers use. Every
//! quantity the estimator derives from them is computed exactly:
//! the least-squares residuals over a common denominator, the tolerance as an
//! integer threshold equivalent to `0.2 * sigma`, and the match counts. The
//! match relation is therefore the real-valued one; only the final
//! `-ln(B / A)` is left to the caller.
//!
//! - `templates`: sliding windows of a waveform.
//! - `matching`: Chebyshev matching and the pair counts, with their laws.
//! - `detrend`: removal of the least-squares line, with its laws.
//! - `tolerance`: the tolerance derived from the standard deviation.
//! - `entropy`: the estimator, the per-channel pipeline and the per-subject record.
//! - `record`: exact decimals, and a subject read from the text of its CSV file.
//! - `error`: the ways an estimate is refused.

pub mod detrend;
pub mod entropy;
pub mod error;
pub mod matching;
pub mod record;
pub mod templates;
pub mod tolerance;
