//! What an engine is opened from.

use vstd::prelude::*;

use crate::error::{fails, ErrorKind, VisionError};
use crate::runtime::device_type::DeviceType;
use crate::runtime::runtime_config::{default_config, GlobalGpuMemLimit, OnnxRuntimeConfig};
use crate::runtime::session_factory::{check_model_path, create_session_builder_with, limit_fits, providers_for,
    CudaProviderMode, EnabledProviders, SessionBuilderWithConfig};

verus! {

/// The path of a model file, and whether there is such a file.
#[derive(Debug)]
pub struct ModelFile {
    pub path: String,
    pub exists: bool,
}

/// The state of the process in which engines are created.
#[derive(Debug, Clone, Copy, PartialEq, Eq, Structural)]
pub struct Environment {
    /// The graphics memory limit of the process.
    pub limit: GlobalGpuMemLimit,
    /// The providers that the program was built with.
    pub enabled: EnabledProviders,
}

/// The part that all engines have: a model file, what its session is built from, and the
/// size of its input.
#[derive(Debug)]
pub struct BaseOnnxEngine {
    pub model_path: String,
    pub session: SessionBuilderWithConfig,
    pub input_height: i32,
    pub input_width: i32,
}

/// The error on a model that cannot be opened, if there is one: a parameter out of range,
/// then a blank path, then a file that does not exist.
pub open spec fn opening_error(model: ModelFile, config: OnnxRuntimeConfig) -> Option<(ErrorKind, Seq<char>)> {
    if !config.is_valid() {
        Some((ErrorKind::InvalidArgument, config.complaint()))
    } else if model.path@.len() == 0 {
        Some((ErrorKind::InvalidArgument, "modelPath is blank"@))
    } else if !model.exists {
        Some((ErrorKind::ModelNotFound, model.path@))
    } else {
        None
    }
}

/// Whether an engine is opened from a model and its parameters.
pub open spec fn is_base_of(
    base: BaseOnnxEngine,
    model: ModelFile,
    device: DeviceType,
    height: int,
    width: int,
    config: OnnxRuntimeConfig,
    env: Environment,
) -> bool {
    &&& base.model_path@ == model.path@
    &&& base.input_height == height
    &&& base.input_width == width
    &&& base.session.config == config
    &&& base.session.eps@ == providers_for(device, config, CudaProviderMode::Legacy, env.enabled)
}

impl BaseOnnxEngine {
    /// Opens an engine with the default parameters.
    pub fn with_input_size(
        model: &ModelFile,
        device_type: DeviceType,
        input_height: i32,
        input_width: i32,
        env: &Environment,
    ) -> (r: Result<BaseOnnxEngine, VisionError>)
        requires
            limit_fits(device_type, default_config(env.limit), env.enabled),
        ensures
            opening_error(*model, default_config(env.limit)) is Some ==> fails(
                r,
                (opening_error(*model, default_config(env.limit))->0).0,
                (opening_error(*model, default_config(env.limit))->0).1,
            ),
            opening_error(*model, default_config(env.limit)) is None ==> r is Ok && is_base_of(
                r->Ok_0,
                *model,
                device_type,
                input_height as int,
                input_width as int,
                default_config(env.limit),
                *env,
            ),
    {
        BaseOnnxEngine::with_config(
            model,
            device_type,
            input_height,
            input_width,
            OnnxRuntimeConfig::defaults(&env.limit),
            env,
        )
    }

    /// Opens an engine.
    pub fn with_config(
        model: &ModelFile,
        device_type: DeviceType,
        input_height: i32,
        input_width: i32,
        config: OnnxRuntimeConfig,
        env: &Environment,
    ) -> (r: Result<BaseOnnxEngine, VisionError>)
        requires
            limit_fits(device_type, config, env.enabled),
        ensures
            opening_error(*model, config) is Some ==> fails(
                r,
                (opening_error(*model, config)->0).0,
                (opening_error(*model, config)->0).1,
            ),
            opening_error(*model, config) is None ==> r is Ok && is_base_of(
                r->Ok_0,
                *model,
                device_type,
                input_height as int,
                input_width as int,
                config,
                *env,
            ),
    {
        let session = match create_session_builder_with(device_type, config, CudaProviderMode::Legacy, env.enabled) {
            Ok(session) => session,
            Err(e) => {
                return Err(e);
            },
        };
        match check_model_path(model.path.as_str(), model.exists) {
            Ok(_) => {},
            Err(e) => {
                return Err(e);
            },
        }
        Ok(
            BaseOnnxEngine {
                model_path: String::from_str(model.path.as_str()),
                session,
                input_height,
                input_width,
            },
        )
    }
}

} // verus!
