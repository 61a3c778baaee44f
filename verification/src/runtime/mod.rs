//! Sessions, devices and tensors.

pub mod base;
pub mod device_type;
pub mod runtime_config;
pub mod session_factory;
pub mod tensor;
