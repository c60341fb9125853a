//! The settings of a run, checked before any work is done.

use vstd::prelude::*;
use vstd::string::StringExecFns;
use crate::colormap::{colormap_named, unknown_colormap_message, ColorMap};
use crate::error::PipelineError;
use crate::fixed::{clamp_to_unit, clamp_unit, ONE};
use crate::ieee::{sample_from_single, single_sample};
use crate::normalization::{normalization_named, unknown_normalization_message, Normalization};

verus! {

/// The settings of a run.
pub struct PipelineConfig {
    pub colormap: ColorMap,
    pub normalization: Normalization,
    /// The opacity of the heat layer, a sample between zero and `ONE`.
    pub opacity: i32,
}

/// Whether a single-precision number, given by its bit pattern, lies
/// between zero and one: it is not negative and at most one, or it is the
/// negative zero. A NaN does not.
pub open spec fn in_unit_interval(bits: u32) -> bool {
    bits <= 0x3f80_0000u32 || bits == 0x8000_0000u32
}

/// What is reported for an opacity outside the unit interval.
pub open spec fn opacity_message() -> Seq<char> {
    "Opacity must be between 0.0 and 1.0"@
}

/// The outcome of checking the settings: the first of the color ramp, the
/// normalization and the opacity that is not accepted decides the error.
pub open spec fn settings_outcome(
    colormap: Seq<char>,
    normalization: Seq<char>,
    opacity_bits: u32,
    r: Result<PipelineConfig, PipelineError>,
) -> bool {
    match colormap_named(colormap) {
        None => r matches Err(PipelineError::ValidationError(message)) && message@
            == unknown_colormap_message(colormap),
        Some(kind) => match normalization_named(normalization) {
            None => r matches Err(PipelineError::ValidationError(message)) && message@
                == unknown_normalization_message(normalization),
            Some(method) => if !in_unit_interval(opacity_bits) {
                r matches Err(PipelineError::ValidationError(message)) && message@
                    == opacity_message()
            } else {
                r matches Ok(config) && config.colormap == kind && config.normalization == method
                    && config.opacity == clamp_unit(single_sample(opacity_bits))
            },
        },
    }
}

/// Checks the settings of a run: the names of the color ramp and of the
/// normalization, and the opacity, a single-precision number given by its
/// bit pattern.
pub fn validate_settings(colormap: &str, normalization: &str, opacity_bits: u32) -> (r: Result<
    PipelineConfig,
    PipelineError,
>)
    ensures
        settings_outcome(colormap@, normalization@, opacity_bits, r),
        r matches Ok(config) ==> 0 <= config.opacity <= ONE,
{
    let kind: ColorMap = match ColorMap::from_str(colormap) {
        Ok(kind) => kind,
        Err(message) => {
            return Err(PipelineError::ValidationError(message));
        },
    };
    let method: Normalization = match Normalization::from_str(normalization) {
        Ok(method) => method,
        Err(message) => {
            return Err(PipelineError::ValidationError(message));
        },
    };
    if !(opacity_bits <= 0x3f80_0000 || opacity_bits == 0x8000_0000) {
        return Err(
            PipelineError::ValidationError(
                String::from_str("Opacity must be between 0.0 and 1.0"),
            ),
        );
    }
    let opacity: i32 = clamp_to_unit(sample_from_single(opacity_bits));
    Ok(PipelineConfig { colormap: kind, normalization: method, opacity })
}

/// What a run does first, once its settings are accepted.
#[derive(Debug, Clone, Copy, PartialEq, Eq, Structural)]
pub enum Step {
    /// Draw the demonstration image of the given dimensions.
    Demo { rows: u32, columns: u32 },
    /// Read and decode the input image.
    Decode,
}

/// Decides what a run does first: the demonstration image of 512 by 512
/// pixels where it is asked for and where there is no input file, else
/// the decoding of the input.
pub fn first_step(demo: bool, input_exists: bool) -> (r: Step)
    ensures
        r == if demo || !input_exists {
            Step::Demo { rows: 512, columns: 512 }
        } else {
            Step::Decode
        },
{
    if demo || !input_exists {
        Step::Demo { rows: 512, columns: 512 }
    } else {
        Step::Decode
    }
}

} // verus!
