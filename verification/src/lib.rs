//! Vision models on ONNX Runtime: the parts that decide and compute.
//!
//! The library prepares images for models and reads what the models answer: it finds and
//! reads license plates ([`engines::license_plate`]), finds and reads text
//! ([`engines::ocr_pipeline`]), and predicts on slices of large images ([`sahi`]). Sessions
//! are described in [`runtime`]; running a model is left to the caller, who hands in a
//! function for it.
//!
//! Floating-point values are held as bit patterns ([`ieee`]), which are compared and
//! selected here. Sizes that come out of scale factors are computed as the machine computes
//! them ([`rounding`], [`magnitude`]).

mod bounds;
pub mod engines;
pub mod error;
pub mod ieee;
pub mod imaging;
pub mod magnitude;
pub mod rounding;
pub mod runtime;
pub mod sahi;
pub mod sorting;
pub mod text;
