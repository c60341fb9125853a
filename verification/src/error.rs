//! What can go wrong on the way from the input files to the overlay.

use vstd::prelude::*;

verus! {

/// The errors of the pipeline.
#[derive(Debug, Clone, PartialEq, Eq)]
pub enum PipelineError {
    /// A file ended before all of it was read. `needed` counts the bytes
    /// that the reader had asked for up to the point where it failed.
    IOError { needed: u128, available: usize },
    /// A heat matrix file does not have the form that its format asks
    /// for. The message says what is wrong.
    FormatError(String),
    /// The base image has a bit depth or a number of samples per pixel
    /// that the decoder does not handle.
    UnsupportedFormat { bits_allocated: u16, samples_per_pixel: u16 },
    /// A buffer does not have the length that its declared dimensions ask
    /// for: `rows * columns * samples_per_pixel`.
    DimensionMismatch { rows: u32, columns: u32, samples_per_pixel: u16, actual: usize },
    /// A setting is outside of what is accepted. The message says which.
    ValidationError(String),
}

} // verus!
