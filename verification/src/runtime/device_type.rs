//! Devices.

use vstd::prelude::*;

verus! {

/// The device that a model runs on.
#[derive(Debug, Clone, Copy, PartialEq, Eq, Structural)]
pub enum DeviceType {
    Cpu,
    Cuda,
    Tensorrt,
    Directml,
    Coreml,
    Openvino,
    Rocm,
    /// The graphics devices that are enabled, and the processor where none is usable.
    Auto,
}

} // verus!
