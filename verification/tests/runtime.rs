//! Run parameters, providers, model files and tensors.

use rust_onnx_infer::error::{ErrorKind, VisionError};
use rust_onnx_infer::ieee::Single;
use rust_onnx_infer::runtime::base::{BaseOnnxEngine, Environment, ModelFile};
use rust_onnx_infer::runtime::device_type::DeviceType;
use rust_onnx_infer::runtime::runtime_config::{
    global_gpu_mem_limit_mb, set_global_gpu_mem_limit, GlobalGpuMemLimit, OnnxRuntimeConfig, OnnxRuntimeConfigBuilder,
    DEFAULT_GPU_DEVICE_ID, DEFAULT_INTER_OP_THREADS, DEFAULT_INTRA_OP_THREADS,
};
use rust_onnx_infer::runtime::session_factory::{
    can_limit, check_model_path, create_session_builder, create_session_builder_with, CudaProviderMode, EnabledProviders,
    ExecutionProvider,
};
use rust_onnx_infer::runtime::tensor::{TensorData, TensorOutput};

fn all_enabled() -> EnabledProviders {
    EnabledProviders { cuda: true, coreml: true, tensorrt: true, directml: true, openvino: true, rocm: true }
}

fn none_enabled() -> EnabledProviders {
    EnabledProviders { cuda: false, coreml: false, tensorrt: false, directml: false, openvino: false, rocm: false }
}

fn builder() -> OnnxRuntimeConfigBuilder {
    OnnxRuntimeConfig::builder(&GlobalGpuMemLimit::default())
}

fn check_error(error: VisionError, kind: ErrorKind, message: &str) {
    assert_eq!(error.kind, kind);
    assert_eq!(error.message, message);
}

#[test]
fn default_config_should_have_zero_gpu_mem_limit() {
    let mut limit = GlobalGpuMemLimit { mb: 17 };
    set_global_gpu_mem_limit(&mut limit, 0);
    let config = OnnxRuntimeConfig::defaults(&limit);
    assert_eq!(config.gpu_mem_limit_mb, 0);
}

#[test]
fn global_override_should_propagate_to_defaults() {
    let mut limit = GlobalGpuMemLimit::default();
    set_global_gpu_mem_limit(&mut limit, 4096);
    let config = OnnxRuntimeConfig::defaults(&limit);
    assert_eq!(config.gpu_mem_limit_mb, 4096);
    assert_eq!(OnnxRuntimeConfig::builder(&limit).build(), config);
    assert!(config.validate().is_ok());
}

#[test]
fn builder_should_override_gpu_mem_limit() {
    let config = OnnxRuntimeConfig::builder(&GlobalGpuMemLimit::default()).gpu_mem_limit_mb(8192).build();
    assert_eq!(config.gpu_mem_limit_mb, 8192);
}

#[test]
fn display_should_include_gpu_mem_limit() {
    let config = OnnxRuntimeConfig { gpu_mem_limit_mb: 3072, ..OnnxRuntimeConfig::defaults(&GlobalGpuMemLimit::default()) };
    let s = config.to_string();
    assert!(s.contains("gpuMemLimitMb=3072"), "实际: {s}");
}

#[test]
fn process_limit_is_what_was_set() {
    let mut limit = GlobalGpuMemLimit::default();
    assert_eq!(global_gpu_mem_limit_mb(&limit), 0);
    set_global_gpu_mem_limit(&mut limit, 2048);
    assert_eq!(global_gpu_mem_limit_mb(&limit), 2048);
    assert_eq!(OnnxRuntimeConfig::builder(&limit).build().gpu_mem_limit_mb, 2048);
}

#[test]
fn default_parameters_are_valid() {
    let config = OnnxRuntimeConfig::defaults(&GlobalGpuMemLimit { mb: 5 });
    assert_eq!(config.intra_op_threads, DEFAULT_INTRA_OP_THREADS);
    assert_eq!(config.inter_op_threads, DEFAULT_INTER_OP_THREADS);
    assert_eq!(config.gpu_device_id, DEFAULT_GPU_DEVICE_ID);
    assert_eq!((config.intra_op_threads, config.inter_op_threads, config.gpu_device_id), (4, 4, 0));
    assert!(config.validate().is_ok());
}

#[test]
fn builder_sets_each_parameter() {
    let config = builder()
        .intra_op_threads(1)
        .inter_op_threads(2)
        .gpu_device_id(3)
        .gpu_mem_limit_mb(4)
        .build();
    assert_eq!(config.intra_op_threads, 1);
    assert_eq!(config.inter_op_threads, 2);
    assert_eq!(config.gpu_device_id, 3);
    assert_eq!(config.gpu_mem_limit_mb, 4);
}

#[test]
fn parameters_as_text() {
    let config = builder().inter_op_threads(12).gpu_device_id(-1).build();
    assert_eq!(
        config.to_string(),
        "OnnxRuntimeConfig{intraOpThreads=4, interOpThreads=12, gpuDeviceId=-1, gpuMemLimitMb=0}"
    );
}

#[test]
fn first_parameter_out_of_range_is_named() {
    let bad = builder().intra_op_threads(0).inter_op_threads(0).gpu_device_id(-7).build();
    check_error(bad.validate().unwrap_err(), ErrorKind::InvalidArgument, "intraOpThreads must be >= 1, got 0");
    let bad = builder().inter_op_threads(0).gpu_device_id(-7).build();
    check_error(bad.validate().unwrap_err(), ErrorKind::InvalidArgument, "interOpThreads must be >= 1, got 0");
    let bad = builder().gpu_device_id(-7).build();
    check_error(bad.validate().unwrap_err(), ErrorKind::InvalidArgument, "gpuDeviceId must be >= 0, got -7");
}

#[test]
fn each_device_has_its_provider() {
    let limit = GlobalGpuMemLimit { mb: 2 };
    let eps = |device: DeviceType| create_session_builder(device, &limit, all_enabled()).unwrap().eps;
    let cuda = ExecutionProvider::Cuda {
        device_id: 0,
        memory_limit: Some(2 * 1024 * 1024),
        mode: CudaProviderMode::Legacy,
    };
    assert_eq!(eps(DeviceType::Cpu), vec![]);
    assert_eq!(eps(DeviceType::Cuda), vec![cuda]);
    assert_eq!(eps(DeviceType::Tensorrt), vec![ExecutionProvider::TensorRt]);
    assert_eq!(eps(DeviceType::Directml), vec![ExecutionProvider::DirectMl]);
    assert_eq!(eps(DeviceType::Coreml), vec![ExecutionProvider::CoreMl]);
    assert_eq!(eps(DeviceType::Openvino), vec![ExecutionProvider::OpenVino]);
    assert_eq!(eps(DeviceType::Rocm), vec![ExecutionProvider::Rocm]);
    assert_eq!(eps(DeviceType::Auto), vec![cuda, ExecutionProvider::CoreMl]);
}

#[test]
fn disabled_devices_fall_back_to_the_processor() {
    let limit = GlobalGpuMemLimit::default();
    for device in [
        DeviceType::Cpu,
        DeviceType::Cuda,
        DeviceType::Tensorrt,
        DeviceType::Directml,
        DeviceType::Coreml,
        DeviceType::Openvino,
        DeviceType::Rocm,
        DeviceType::Auto,
    ] {
        assert!(create_session_builder(device, &limit, none_enabled()).unwrap().eps.is_empty());
    }
}

#[test]
fn cuda_mode_and_device_are_passed_on() {
    let config = builder().gpu_device_id(3).build();
    let built =
        create_session_builder_with(DeviceType::Cuda, config, CudaProviderMode::V2, all_enabled()).unwrap();
    assert_eq!(
        built.eps,
        vec![ExecutionProvider::Cuda { device_id: 3, memory_limit: None, mode: CudaProviderMode::V2 }]
    );
    assert_eq!(built.config.gpu_device_id, 3);
    assert_eq!(CudaProviderMode::default(), CudaProviderMode::Legacy);
}

#[test]
fn huge_limits_matter_to_cuda_alone() {
    let limit = GlobalGpuMemLimit { mb: usize::MAX };
    let eps = create_session_builder(DeviceType::Rocm, &limit, all_enabled()).unwrap().eps;
    assert_eq!(eps, vec![ExecutionProvider::Rocm]);
    let built = create_session_builder(DeviceType::Cuda, &limit, none_enabled()).unwrap();
    assert!(built.eps.is_empty());
    assert_eq!(built.config.gpu_mem_limit_mb, usize::MAX);
    let huge = builder().gpu_mem_limit_mb(usize::MAX / 1048576 + 1).build();
    assert!(!can_limit(DeviceType::Cuda, &huge, all_enabled()));
    assert!(!can_limit(DeviceType::Auto, &huge, all_enabled()));
    assert!(can_limit(DeviceType::Auto, &huge, none_enabled()));
    assert!(can_limit(DeviceType::Coreml, &huge, all_enabled()));
    assert!(can_limit(DeviceType::Cuda, &builder().gpu_mem_limit_mb(usize::MAX / 1048576).build(), all_enabled()));
}

#[test]
fn invalid_parameters_build_no_session() {
    let config = builder().intra_op_threads(0).build();
    let e = create_session_builder_with(DeviceType::Cpu, config, CudaProviderMode::Legacy, none_enabled());
    check_error(e.unwrap_err(), ErrorKind::InvalidArgument, "intraOpThreads must be >= 1, got 0");
}

#[test]
fn model_paths_are_checked() {
    assert!(check_model_path("a.onnx", true).is_ok());
    check_error(check_model_path("", true).unwrap_err(), ErrorKind::InvalidArgument, "modelPath is blank");
    check_error(check_model_path("a.onnx", false).unwrap_err(), ErrorKind::ModelNotFound, "a.onnx");
}

#[test]
fn engines_are_opened_from_model_files() {
    let env = Environment { limit: GlobalGpuMemLimit { mb: 9 }, enabled: none_enabled() };
    let found = ModelFile { path: String::from("m.onnx"), exists: true };
    let base = BaseOnnxEngine::with_input_size(&found, DeviceType::Cpu, 640, 320, &env).unwrap();
    assert_eq!(base.model_path, "m.onnx");
    assert_eq!((base.input_height, base.input_width), (640, 320));
    assert_eq!(base.session.config.gpu_mem_limit_mb, 9);

    let lost = ModelFile { path: String::from("m.onnx"), exists: false };
    let e = BaseOnnxEngine::with_input_size(&lost, DeviceType::Cpu, 640, 640, &env).unwrap_err();
    check_error(e, ErrorKind::ModelNotFound, "m.onnx");

    let bad = builder().gpu_device_id(-1).build();
    let e = BaseOnnxEngine::with_config(&lost, DeviceType::Cpu, 640, 640, bad, &env).unwrap_err();
    check_error(e, ErrorKind::InvalidArgument, "gpuDeviceId must be >= 0, got -1");
}

#[test]
fn tensors_hold_single_precision_values() {
    let values = vec![Single::from_bits(1.5f32.to_bits()), Single::from_bits(2.5f32.to_bits())];
    let output = TensorOutput { name: String::from("out"), shape: vec![1, 2], data: TensorData::F32(values) };
    assert_eq!(output.element_count(), 2);
    assert_eq!(f32::from_bits(output.as_f32().unwrap()[1].to_bits()), 2.5);

    let other = TensorOutput { name: String::from("out"), shape: vec![3], data: TensorData::Other(3) };
    assert_eq!(other.element_count(), 3);
    check_error(other.as_f32().unwrap_err(), ErrorKind::Inference, "output tensor is not f32");
}

#[test]
fn errors_keep_their_kind_and_message() {
    check_error(VisionError::io(String::from("a")), ErrorKind::Io, "a");
    check_error(VisionError::image(String::from("b")), ErrorKind::Image, "b");
    check_error(VisionError::inference(String::from("c")), ErrorKind::Inference, "c");
    check_error(VisionError::invalid_argument(String::from("d")), ErrorKind::InvalidArgument, "d");
    check_error(VisionError::model_not_found(String::from("e")), ErrorKind::ModelNotFound, "e");
}
