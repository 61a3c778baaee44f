//! Engines.

pub mod components;
pub mod ctc;
pub mod license_plate;
pub mod nms;
pub mod ocr_crop;
pub mod ocr_detector;
pub mod ocr_pipeline;
pub mod ocr_recognizer;
pub mod ocr_region;
pub mod plate_color;
pub mod plate_crop;
pub mod plate_image;
pub mod plate_output;
pub mod plate_pipeline;
pub mod plate_text;
pub mod priors;
