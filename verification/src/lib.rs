//! Heat-intensity overlays for medical raster images.
//!
//! A base image is decoded to an 8-bit raster, a heat matrix is read,
//! resampled to the dimensions of the base image, normalized, drawn with
//! a color ramp and laid over the base image.
//!
//! The library holds no floating-point variable. A cell of a heat matrix
//! holds the bit pattern of a single-precision number, so that no number
//! that was read is changed (see `ieee`). The statistics of a
//! normalization are taken of the exact values of these numbers, as whole
//! numbers of any size (see `exact`). What a normalization gives is a
//! sample: a fixed-point number with sixteen fractional bits (see
//! `fixed`), the exact result rounded toward zero.

pub mod colormap;
pub mod compose;
pub mod config;
pub mod error;
pub mod exact;
pub mod fixed;
pub mod ieee;
pub mod loader;
pub mod matrix;
pub mod normalization;
pub mod number;
pub mod raster;
pub mod resize;
pub mod settings;
pub mod stats;
pub mod text;
