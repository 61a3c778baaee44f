//! Prediction on slices of an image.

pub mod config;
pub mod least_score;
pub mod sliced_predictor;
