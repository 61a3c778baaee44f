//! Run parameters of a session.

use vstd::prelude::*;

use crate::error::{fails, ErrorKind, VisionError};
use crate::text::{decimal, push_decimal, push_signed, signed_decimal};

verus! {

/// The graphics memory limit of the whole process, in megabytes; none if it is zero.
///
/// The memory of a device grows with every session and is never given back, so one limit
/// holds for all sessions of a process. Set it before the first session is created.
#[derive(Debug, Clone, Copy, PartialEq, Eq, Structural)]
pub struct GlobalGpuMemLimit {
    pub mb: usize,
}

impl Default for GlobalGpuMemLimit {
    fn default() -> (r: Self)
        ensures
            r.mb == 0,
    {
        GlobalGpuMemLimit { mb: 0 }
    }
}

/// Sets the graphics memory limit of the process.
pub fn set_global_gpu_mem_limit(limit: &mut GlobalGpuMemLimit, mb: usize)
    ensures
        final(limit).mb == mb,
{
    limit.mb = mb;
}

/// The graphics memory limit of the process.
pub fn global_gpu_mem_limit_mb(limit: &GlobalGpuMemLimit) -> (mb: usize)
    ensures
        mb == limit.mb,
{
    limit.mb
}

/// Run parameters of a session.
#[derive(Debug, Clone, Copy, PartialEq, Eq, Structural)]
pub struct OnnxRuntimeConfig {
    /// Threads inside an operator.
    pub intra_op_threads: usize,
    /// Threads between operators.
    pub inter_op_threads: usize,
    /// The graphics device.
    pub gpu_device_id: i32,
    /// The graphics memory limit in megabytes; none if it is zero.
    pub gpu_mem_limit_mb: usize,
}

pub const DEFAULT_INTRA_OP_THREADS: usize = 4;

pub const DEFAULT_INTER_OP_THREADS: usize = 4;

pub const DEFAULT_GPU_DEVICE_ID: i32 = 0;

/// The default parameters under a process limit.
pub open spec fn default_config(limit: GlobalGpuMemLimit) -> OnnxRuntimeConfig {
    OnnxRuntimeConfig { intra_op_threads: 4, inter_op_threads: 4, gpu_device_id: 0, gpu_mem_limit_mb: limit.mb }
}

impl OnnxRuntimeConfig {
    /// The default parameters under a process limit.
    pub fn defaults(limit: &GlobalGpuMemLimit) -> (r: OnnxRuntimeConfig)
        ensures
            r == default_config(*limit),
    {
        OnnxRuntimeConfig {
            intra_op_threads: DEFAULT_INTRA_OP_THREADS,
            inter_op_threads: DEFAULT_INTER_OP_THREADS,
            gpu_device_id: DEFAULT_GPU_DEVICE_ID,
            gpu_mem_limit_mb: global_gpu_mem_limit_mb(limit),
        }
    }

    /// Whether every parameter is in its range.
    pub open spec fn is_valid(self) -> bool {
        self.intra_op_threads >= 1 && self.inter_op_threads >= 1 && self.gpu_device_id >= 0
    }

    /// The message on the first parameter that is out of its range.
    pub open spec fn complaint(self) -> Seq<char> {
        if self.intra_op_threads < 1 {
            "intraOpThreads must be >= 1, got "@ + decimal(self.intra_op_threads as nat)
        } else if self.inter_op_threads < 1 {
            "interOpThreads must be >= 1, got "@ + decimal(self.inter_op_threads as nat)
        } else {
            "gpuDeviceId must be >= 0, got "@ + signed_decimal(self.gpu_device_id as int)
        }
    }

    /// Checks that every parameter is in its range.
    pub fn validate(&self) -> (r: Result<(), VisionError>)
        ensures
            self.is_valid() ==> r is Ok,
            !self.is_valid() ==> fails(r, ErrorKind::InvalidArgument, self.complaint()),
    {
        if self.intra_op_threads < 1 {
            let mut message = String::from_str("intraOpThreads must be >= 1, got ");
            push_decimal(&mut message, self.intra_op_threads as u64);
            return Err(VisionError::invalid_argument(message));
        }
        if self.inter_op_threads < 1 {
            let mut message = String::from_str("interOpThreads must be >= 1, got ");
            push_decimal(&mut message, self.inter_op_threads as u64);
            return Err(VisionError::invalid_argument(message));
        }
        if self.gpu_device_id < 0 {
            let mut message = String::from_str("gpuDeviceId must be >= 0, got ");
            push_signed(&mut message, self.gpu_device_id as i64);
            return Err(VisionError::invalid_argument(message));
        }
        Ok(())
    }

    /// A builder that starts from the default parameters.
    pub fn builder(limit: &GlobalGpuMemLimit) -> (r: OnnxRuntimeConfigBuilder)
        ensures
            r@ == default_config(*limit),
    {
        OnnxRuntimeConfigBuilder { config: OnnxRuntimeConfig::defaults(limit) }
    }

    /// The parameters as text.
    pub open spec fn display(self) -> Seq<char> {
        "OnnxRuntimeConfig{intraOpThreads="@ + decimal(self.intra_op_threads as nat) + ", interOpThreads="@ + decimal(
            self.inter_op_threads as nat,
        ) + ", gpuDeviceId="@ + signed_decimal(self.gpu_device_id as int) + ", gpuMemLimitMb="@ + decimal(
            self.gpu_mem_limit_mb as nat,
        ) + "}"@
    }

    /// The parameters as text.
    pub fn to_string(&self) -> (r: String)
        ensures
            r@ == self.display(),
    {
        let mut text = String::from_str("OnnxRuntimeConfig{intraOpThreads=");
        push_decimal(&mut text, self.intra_op_threads as u64);
        text.append(", interOpThreads=");
        push_decimal(&mut text, self.inter_op_threads as u64);
        text.append(", gpuDeviceId=");
        push_signed(&mut text, self.gpu_device_id as i64);
        text.append(", gpuMemLimitMb=");
        push_decimal(&mut text, self.gpu_mem_limit_mb as u64);
        text.append("}");
        text
    }
}

/// Builds run parameters one by one.
#[derive(Debug, Clone, Copy)]
pub struct OnnxRuntimeConfigBuilder {
    config: OnnxRuntimeConfig,
}

impl View for OnnxRuntimeConfigBuilder {
    type V = OnnxRuntimeConfig;

    closed spec fn view(&self) -> OnnxRuntimeConfig {
        self.config
    }
}

impl OnnxRuntimeConfigBuilder {
    /// Sets the threads inside an operator.
    pub fn intra_op_threads(self, threads: usize) -> (r: Self)
        ensures
            r@ == (OnnxRuntimeConfig { intra_op_threads: threads, ..self@ }),
    {
        OnnxRuntimeConfigBuilder { config: OnnxRuntimeConfig { intra_op_threads: threads, ..self.config } }
    }

    /// Sets the threads between operators.
    pub fn inter_op_threads(self, threads: usize) -> (r: Self)
        ensures
            r@ == (OnnxRuntimeConfig { inter_op_threads: threads, ..self@ }),
    {
        OnnxRuntimeConfigBuilder { config: OnnxRuntimeConfig { inter_op_threads: threads, ..self.config } }
    }

    /// Sets the graphics device.
    pub fn gpu_device_id(self, id: i32) -> (r: Self)
        ensures
            r@ == (OnnxRuntimeConfig { gpu_device_id: id, ..self@ }),
    {
        OnnxRuntimeConfigBuilder { config: OnnxRuntimeConfig { gpu_device_id: id, ..self.config } }
    }

    /// Sets the graphics memory limit.
    pub fn gpu_mem_limit_mb(self, mb: usize) -> (r: Self)
        ensures
            r@ == (OnnxRuntimeConfig { gpu_mem_limit_mb: mb, ..self@ }),
    {
        OnnxRuntimeConfigBuilder { config: OnnxRuntimeConfig { gpu_mem_limit_mb: mb, ..self.config } }
    }

    /// The parameters.
    pub fn build(self) -> (r: OnnxRuntimeConfig)
        ensures
            r == self@,
    {
        self.config
    }
}

/// The process limit is that of the default parameters, and all else in them is the same in
/// every process.
pub proof fn process_limit_reaches_defaults(limit: GlobalGpuMemLimit, other: GlobalGpuMemLimit)
    ensures
        default_config(limit).gpu_mem_limit_mb == limit.mb,
        default_config(limit) == (OnnxRuntimeConfig { gpu_mem_limit_mb: limit.mb, ..default_config(other) }),
{
}

/// The default parameters are in their ranges, whatever the process limit.
pub proof fn defaults_are_valid(limit: GlobalGpuMemLimit)
    ensures
        default_config(limit).is_valid(),
{
}

} // verus!
