//! The choice of execution providers for a session.

use vstd::prelude::*;

use crate::error::{fails, ErrorKind, VisionError};
use crate::runtime::device_type::DeviceType;
use crate::runtime::runtime_config::{default_config, GlobalGpuMemLimit, OnnxRuntimeConfig};

verus! {

/// The implementation of the CUDA provider.
#[derive(Debug, Clone, Copy, PartialEq, Eq, Structural)]
pub enum CudaProviderMode {
    Legacy,
    V2,
}

impl Default for CudaProviderMode {
    fn default() -> (r: Self)
        ensures
            r == CudaProviderMode::Legacy,
    {
        CudaProviderMode::Legacy
    }
}

/// The providers that the program was built with.
#[derive(Debug, Clone, Copy, PartialEq, Eq, Structural)]
pub struct EnabledProviders {
    pub cuda: bool,
    pub coreml: bool,
    pub tensorrt: bool,
    pub directml: bool,
    pub openvino: bool,
    pub rocm: bool,
}

/// A provider that a session tries before the processor. One that is not usable on the
/// machine is passed over.
#[derive(Debug, Clone, Copy, PartialEq, Eq, Structural)]
pub enum ExecutionProvider {
    Cuda {
        device_id: i32,
        /// The memory limit in bytes.
        memory_limit: Option<usize>,
        mode: CudaProviderMode,
    },
    CoreMl,
    TensorRt,
    DirectMl,
    OpenVino,
    Rocm,
}

/// The bytes of a memory limit in megabytes; no limit if it is zero.
pub open spec fn limit_bytes(mb: int) -> Option<usize> {
    if mb > 0 {
        Some((mb * 1024 * 1024) as usize)
    } else {
        None
    }
}

/// One provider if it is enabled, else none.
pub open spec fn if_enabled(enabled: bool, provider: ExecutionProvider) -> Seq<ExecutionProvider> {
    if enabled {
        seq![provider]
    } else {
        Seq::empty()
    }
}

/// The CUDA provider of a configuration.
pub open spec fn cuda_of(config: OnnxRuntimeConfig, mode: CudaProviderMode) -> ExecutionProvider {
    ExecutionProvider::Cuda {
        device_id: config.gpu_device_id,
        memory_limit: limit_bytes(config.gpu_mem_limit_mb as int),
        mode,
    }
}

/// The providers that a session tries for a device, in order.
pub open spec fn providers_for(
    device: DeviceType,
    config: OnnxRuntimeConfig,
    mode: CudaProviderMode,
    enabled: EnabledProviders,
) -> Seq<ExecutionProvider> {
    match device {
        DeviceType::Cpu => Seq::empty(),
        DeviceType::Cuda => if_enabled(enabled.cuda, cuda_of(config, mode)),
        DeviceType::Tensorrt => if_enabled(enabled.tensorrt, ExecutionProvider::TensorRt),
        DeviceType::Directml => if_enabled(enabled.directml, ExecutionProvider::DirectMl),
        DeviceType::Coreml => if_enabled(enabled.coreml, ExecutionProvider::CoreMl),
        DeviceType::Openvino => if_enabled(enabled.openvino, ExecutionProvider::OpenVino),
        DeviceType::Rocm => if_enabled(enabled.rocm, ExecutionProvider::Rocm),
        DeviceType::Auto => if_enabled(enabled.cuda, cuda_of(config, mode)) + if_enabled(
            enabled.coreml,
            ExecutionProvider::CoreMl,
        ),
    }
}

/// Whether a device is used through the CUDA provider.
pub open spec fn uses_cuda(device: DeviceType, enabled: EnabledProviders) -> bool {
    enabled.cuda && (device == DeviceType::Cuda || device == DeviceType::Auto)
}

/// Whether the memory limit can be counted in bytes, where it is.
pub open spec fn limit_fits(device: DeviceType, config: OnnxRuntimeConfig, enabled: EnabledProviders) -> bool {
    uses_cuda(device, enabled) && config.is_valid() ==> config.gpu_mem_limit_mb * 1024 * 1024 <= usize::MAX
}

/// Whether the memory limit can be counted in bytes, where it is.
pub fn can_limit(device_type: DeviceType, config: &OnnxRuntimeConfig, enabled: EnabledProviders) -> (r: bool)
    ensures
        r == limit_fits(device_type, *config, enabled),
{
    let cuda = match device_type {
        DeviceType::Cuda | DeviceType::Auto => enabled.cuda,
        _ => false,
    };
    let in_range = config.validate().is_ok();
    if cuda && in_range {
        config.gpu_mem_limit_mb <= usize::MAX / 1048576
    } else {
        true
    }
}

/// What a session is built from.
#[derive(Debug)]
pub struct SessionBuilderWithConfig {
    /// The providers to try, in order.
    pub eps: Vec<ExecutionProvider>,
    /// The run parameters.
    pub config: OnnxRuntimeConfig,
}

fn add_cuda_ep(
    eps: &mut Vec<ExecutionProvider>,
    device_id: i32,
    gpu_mem_limit_mb: usize,
    mode: CudaProviderMode,
    enabled: bool,
)
    requires
        enabled ==> gpu_mem_limit_mb * 1024 * 1024 <= usize::MAX,
    ensures
        final(eps)@ == old(eps)@ + if_enabled(
            enabled,
            ExecutionProvider::Cuda { device_id, memory_limit: limit_bytes(gpu_mem_limit_mb as int), mode },
        ),
{
    if enabled {
        let memory_limit: Option<usize> = if gpu_mem_limit_mb > 0 {
            Some(gpu_mem_limit_mb * 1024 * 1024)
        } else {
            None
        };
        eps.push(ExecutionProvider::Cuda { device_id, memory_limit, mode });
    }
}

fn add_ep(eps: &mut Vec<ExecutionProvider>, provider: ExecutionProvider, enabled: bool)
    ensures
        final(eps)@ == old(eps)@ + if_enabled(enabled, provider),
{
    if enabled {
        eps.push(provider);
    }
}

/// Whether a builder is that of a device and its parameters.
pub open spec fn is_session_builder(
    r: Result<SessionBuilderWithConfig, VisionError>,
    device: DeviceType,
    config: OnnxRuntimeConfig,
    mode: CudaProviderMode,
    enabled: EnabledProviders,
) -> bool {
    if config.is_valid() {
        &&& r is Ok
        &&& r->Ok_0.config == config
        &&& r->Ok_0.eps@ == providers_for(device, config, mode, enabled)
    } else {
        fails(r, ErrorKind::InvalidArgument, config.complaint())
    }
}

/// What a session on a device is built from, with the default parameters.
pub fn create_session_builder(device_type: DeviceType, limit: &GlobalGpuMemLimit, enabled: EnabledProviders) -> (r: Result<
    SessionBuilderWithConfig,
    VisionError,
>)
    requires
        limit_fits(device_type, default_config(*limit), enabled),
    ensures
        r is Ok,
        is_session_builder(r, device_type, default_config(*limit), CudaProviderMode::Legacy, enabled),
{
    create_session_builder_with(device_type, OnnxRuntimeConfig::defaults(limit), CudaProviderMode::Legacy, enabled)
}

/// What a session on a device is built from.
pub fn create_session_builder_with(
    device_type: DeviceType,
    config: OnnxRuntimeConfig,
    cuda_provider_mode: CudaProviderMode,
    enabled: EnabledProviders,
) -> (r: Result<SessionBuilderWithConfig, VisionError>)
    requires
        limit_fits(device_type, config, enabled),
    ensures
        is_session_builder(r, device_type, config, cuda_provider_mode, enabled),
{
    match config.validate() {
        Ok(_) => {},
        Err(e) => {
            return Err(e);
        },
    }
    let mut eps: Vec<ExecutionProvider> = Vec::new();
    match device_type {
        DeviceType::Cuda => add_cuda_ep(
            &mut eps,
            config.gpu_device_id,
            config.gpu_mem_limit_mb,
            cuda_provider_mode,
            enabled.cuda,
        ),
        DeviceType::Tensorrt => add_ep(&mut eps, ExecutionProvider::TensorRt, enabled.tensorrt),
        DeviceType::Directml => add_ep(&mut eps, ExecutionProvider::DirectMl, enabled.directml),
        DeviceType::Coreml => add_ep(&mut eps, ExecutionProvider::CoreMl, enabled.coreml),
        DeviceType::Openvino => add_ep(&mut eps, ExecutionProvider::OpenVino, enabled.openvino),
        DeviceType::Rocm => add_ep(&mut eps, ExecutionProvider::Rocm, enabled.rocm),
        DeviceType::Auto => {
            add_cuda_ep(
                &mut eps,
                config.gpu_device_id,
                config.gpu_mem_limit_mb,
                cuda_provider_mode,
                enabled.cuda,
            );
            add_ep(&mut eps, ExecutionProvider::CoreMl, enabled.coreml);
        },
        DeviceType::Cpu => {},
    }
    assert(eps@ =~= providers_for(device_type, config, cuda_provider_mode, enabled));
    Ok(SessionBuilderWithConfig { eps, config })
}

/// Checks the path of a model file; `exists` says whether there is such a file.
pub fn check_model_path(path: &str, exists: bool) -> (r: Result<(), VisionError>)
    ensures
        path@.len() == 0 ==> fails(r, ErrorKind::InvalidArgument, "modelPath is blank"@),
        path@.len() > 0 && !exists ==> fails(r, ErrorKind::ModelNotFound, path@),
        path@.len() > 0 && exists ==> r is Ok,
{
    if path.unicode_len() == 0 {
        return Err(VisionError::invalid_argument(String::from_str("modelPath is blank")));
    }
    if !exists {
        return Err(VisionError::model_not_found(String::from_str(path)));
    }
    Ok(())
}

/// A device whose provider is not enabled is used through the processor alone.
pub proof fn disabled_device_falls_back(device: DeviceType, config: OnnxRuntimeConfig, mode: CudaProviderMode)
    ensures
        providers_for(
            device,
            config,
            mode,
            EnabledProviders {
                cuda: false,
                coreml: false,
                tensorrt: false,
                directml: false,
                openvino: false,
                rocm: false,
            },
        ) =~= Seq::<ExecutionProvider>::empty(),
{
}

/// A session on a device tries the CUDA provider exactly for CUDA and for an automatic choice, and
/// always before any other one. The provider has the configured device, and the configured limit in
/// bytes, of which 1,048,576 make a megabyte; there is no limit if none is configured.
pub proof fn cuda_comes_first(
    built: SessionBuilderWithConfig,
    device: DeviceType,
    config: OnnxRuntimeConfig,
    mode: CudaProviderMode,
    enabled: EnabledProviders,
    i: int,
)
    requires
        config.is_valid(),
        limit_fits(device, config, enabled),
        is_session_builder(Ok(built), device, config, mode, enabled),
        0 <= i < built.eps.len(),
    ensures
        built.config == config,
        built.eps@[i] is Cuda <==> i == 0 && enabled.cuda && (device == DeviceType::Cuda || device == DeviceType::Auto),
        built.eps@[i] matches ExecutionProvider::Cuda { device_id, memory_limit, mode: used } ==> {
            &&& device_id == config.gpu_device_id
            &&& used == mode
            &&& memory_limit is None <==> config.gpu_mem_limit_mb == 0
            &&& memory_limit is Some ==> memory_limit->0 == config.gpu_mem_limit_mb * 1048576
        },
{
}

/// Every other provider is tried exactly for its own device; that of Apple is tried for an
/// automatic choice too, behind CUDA. A session on the processor tries none.
pub proof fn devices_use_their_own_provider(
    built: SessionBuilderWithConfig,
    device: DeviceType,
    config: OnnxRuntimeConfig,
    mode: CudaProviderMode,
    enabled: EnabledProviders,
)
    requires
        config.is_valid(),
        is_session_builder(Ok(built), device, config, mode, enabled),
    ensures
        built.eps@.contains(ExecutionProvider::TensorRt) <==> enabled.tensorrt && device == DeviceType::Tensorrt,
        built.eps@.contains(ExecutionProvider::DirectMl) <==> enabled.directml && device == DeviceType::Directml,
        built.eps@.contains(ExecutionProvider::OpenVino) <==> enabled.openvino && device == DeviceType::Openvino,
        built.eps@.contains(ExecutionProvider::Rocm) <==> enabled.rocm && device == DeviceType::Rocm,
        built.eps@.contains(ExecutionProvider::CoreMl) <==> enabled.coreml && (device == DeviceType::Coreml || device
            == DeviceType::Auto),
        device == DeviceType::Cpu ==> built.eps.len() == 0,
        built.eps.len() <= 2,
        built.eps.len() == 2 ==> built.eps@[0] is Cuda && built.eps@[1] == ExecutionProvider::CoreMl,
{
    let eps = built.eps@;
    if eps.len() > 0 {
        assert(eps.contains(eps[0]));
    }
    if eps.len() > 1 {
        assert(eps.contains(eps[1]));
    }
}

} // verus!
