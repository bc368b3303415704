//! The words that verdicts, paths, sources and the like are shown by.

use vstd::prelude::*;

use crate::catalog::{Provider, UseCase};
use crate::fit::{RunMode, Verdict};
use crate::hardware::{Backend, BandwidthSource};
use crate::quant::{KvQuant, Quant};
use crate::speed::EstimateMethod;

verus! {

/// How a fit is told: how good it is, where it runs, and with what width of cache.
pub proof fn law_words_for_a_fit()
    ensures
        Verdict::Perfect.name_spec()@ == "Perfect"@,
        Verdict::Good.name_spec()@ == "Good"@,
        Verdict::Marginal.name_spec()@ == "Marginal"@,
        Verdict::TooTight.name_spec()@ == "Too Tight"@,
        RunMode::Gpu.name_spec()@ == "GPU"@,
        RunMode::MoeOffload.name_spec()@ == "MoE offload"@,
        RunMode::CpuGpu.name_spec()@ == "CPU+GPU"@,
        RunMode::Cpu.name_spec()@ == "CPU"@,
        RunMode::UnifiedSpill.name_spec()@ == "unified spill"@,
        KvQuant::F16.name_spec()@ == "f16"@,
        KvQuant::Q8.name_spec()@ == "q8_0"@,
        KvQuant::Q4.name_spec()@ == "q4_0"@,
{
}

/// How formats are told.
pub proof fn law_words_for_formats()
    ensures
        Quant::F16.name_spec()@ == "F16"@,
        Quant::Q8_0.name_spec()@ == "Q8_0"@,
        Quant::Q6K.name_spec()@ == "Q6_K"@,
        Quant::Q5KM.name_spec()@ == "Q5_K_M"@,
        Quant::Q4KM.name_spec()@ == "Q4_K_M"@,
        Quant::Q3KM.name_spec()@ == "Q3_K_M"@,
        Quant::Q2K.name_spec()@ == "Q2_K"@,
{
}

/// How the source of a figure is told: how a throughput was come by, where a
/// bandwidth is from, and which runtime measured.
pub proof fn law_words_for_sources()
    ensures
        EstimateMethod::Measured.name_spec()@ == "measured"@,
        EstimateMethod::MeasuredAdjusted.name_spec()@ == "measured-adjusted"@,
        EstimateMethod::Calibrated.name_spec()@ == "calibrated"@,
        EstimateMethod::Roofline.name_spec()@ == "roofline"@,
        EstimateMethod::BackendConstant.name_spec()@ == "backend-constant"@,
        BandwidthSource::Override.name_spec()@ == "override"@,
        BandwidthSource::GpuTable.name_spec()@ == "gpu-table"@,
        BandwidthSource::BackendConstant.name_spec()@ == "backend-constant"@,
        Provider::Unknown.name_spec()@ == "unknown"@,
        Provider::LlamaCpp.name_spec()@ == "llama.cpp"@,
        Provider::Ollama.name_spec()@ == "ollama"@,
        Provider::Mlx.name_spec()@ == "mlx"@,
        Provider::Vllm.name_spec()@ == "vllm"@,
{
}

/// How backends and uses are told.
pub proof fn law_words_for_backends_and_uses()
    ensures
        Backend::Cuda.name_spec()@ == "CUDA"@,
        Backend::Metal.name_spec()@ == "Metal"@,
        Backend::Rocm.name_spec()@ == "ROCm"@,
        Backend::Sycl.name_spec()@ == "SYCL"@,
        Backend::CpuArm.name_spec()@ == "CPU (ARM)"@,
        Backend::CpuX86.name_spec()@ == "CPU (x86)"@,
        Backend::Npu.name_spec()@ == "NPU"@,
        Backend::Vulkan.name_spec()@ == "Vulkan"@,
        UseCase::General.name_spec()@ == "general"@,
        UseCase::Coding.name_spec()@ == "coding"@,
        UseCase::Reasoning.name_spec()@ == "reasoning"@,
        UseCase::Chat.name_spec()@ == "chat"@,
        UseCase::Multimodal.name_spec()@ == "multimodal"@,
        UseCase::Embedding.name_spec()@ == "embedding"@,
{
}

} // verus!
