//! Community benchmark submissions.
//!
//! Submissions name models however the submitter's runtime did: `qwen3:8b`,
//! `Qwen3-8B-Q4_K_M.gguf`, a repository path. All reconciling happens here, when
//! a catalog is packed, where it can be counted and looked at. What ships is a
//! measurement keyed by the position in the catalog, so that a device matches
//! no names at all.

use vstd::prelude::*;
use vstd::utf8::*;

use crate::catalog;
use crate::catalog::hw_key;
use crate::float::Double;
use crate::hardware;
use crate::hardware::{lookup_gpu, Backend, Hardware};
use crate::quant::Quant;
use crate::text;

pub mod gather;
pub mod key;
pub mod medians;
pub mod naming;
pub mod results;
pub mod tallies;

pub use crate::pack::PackedMeasurement;
pub use gather::{ingest, Ingested};
pub use key::normalize_model;

verus! {

/// One submitted benchmark file.
pub struct Submission {
    pub hardware: SubmittedHardware,
    pub results: Vec<SubmittedResult>,
}

/// The machine of a submission.
pub struct SubmittedHardware {
    pub hardware_name: Option<String>,
    pub hw_class: Option<String>,
    pub ram_gb: Option<Double>,
    pub vram_gb: Option<Double>,
    pub unified_memory: Option<bool>,
}

/// One result of a submission.
pub struct SubmittedResult {
    pub model: String,
    pub avg_tps: Option<Double>,
    pub avg_ttft_ms: Option<Double>,
    pub num_runs: Option<u32>,
    pub provider: Option<String>,
}

// --- what a name says -------------------------------------------------------

/// The marks of a format in a name, the first that occurs counting.
pub open spec fn quant_marks() -> Seq<(&'static str, Quant)> {
    seq![
        ("q4_k_m", Quant::Q4KM),
        ("q4_k_s", Quant::Q4KM),
        ("q4_0", Quant::Q4KM),
        ("q4km", Quant::Q4KM),
        ("q5_k_m", Quant::Q5KM),
        ("q5_k", Quant::Q5KM),
        ("q6_k", Quant::Q6K),
        ("q8_0", Quant::Q8_0),
        ("q3_k", Quant::Q3KM),
        ("q2_k", Quant::Q2K),
        ("mxfp4", Quant::Q4KM),
        ("int4", Quant::Q4KM),
        ("4bit", Quant::Q4KM),
        ("8bit", Quant::Q8_0),
        ("bf16", Quant::F16),
        ("fp16", Quant::F16),
        ("f16", Quant::F16),
    ]
}

/// The format that the first mark at or after `from` stands for.
pub open spec fn marked(low: Seq<u8>, from: int) -> Option<Quant>
    decreases quant_marks().len() - from,
{
    if from < 0 || from >= quant_marks().len() {
        None
    } else if text::occurs(low, text::bytes(quant_marks()[from].0)) {
        Some(quant_marks()[from].1)
    } else {
        marked(low, from + 1)
    }
}

/// The format a benchmark ran at. What carries no mark is overwhelmingly a
/// default pull, and those are `Q4_K_M`.
pub open spec fn quant_spec(name: Seq<u8>) -> Quant {
    match marked(text::lowered(name), 0) {
        Some(q) => q,
        None => Quant::Q4KM,
    }
}

fn mark_table() -> (r: [(&'static str, Quant); 17])
    ensures
        r@ == quant_marks(),
{
    let r: [(&'static str, Quant); 17] = [
        ("q4_k_m", Quant::Q4KM),
        ("q4_k_s", Quant::Q4KM),
        ("q4_0", Quant::Q4KM),
        ("q4km", Quant::Q4KM),
        ("q5_k_m", Quant::Q5KM),
        ("q5_k", Quant::Q5KM),
        ("q6_k", Quant::Q6K),
        ("q8_0", Quant::Q8_0),
        ("q3_k", Quant::Q3KM),
        ("q2_k", Quant::Q2K),
        ("mxfp4", Quant::Q4KM),
        ("int4", Quant::Q4KM),
        ("4bit", Quant::Q4KM),
        ("8bit", Quant::Q8_0),
        ("bf16", Quant::F16),
        ("fp16", Quant::F16),
        ("f16", Quant::F16),
    ];
    assert(r@ =~= quant_marks());
    r
}

/// The format a benchmark ran at, by its name.
pub fn quant_from_name(name: &str) -> (r: Option<Quant>)
    ensures
        r == Some(quant_spec(text::bytes(name))),
{
    let table: [(&'static str, Quant); 17] = mark_table();
    let ghost low: Seq<u8> = text::lowered(text::bytes(name));
    let mut i: usize = 0;
    while i < 17
        invariant
            i <= 17,
            table@ == quant_marks(),
            low == text::lowered(text::bytes(name)),
            marked(low, 0) == marked(low, i as int),
        decreases 17 - i,
    {
        let (mark, q): (&'static str, Quant) = table[i];
        if text::lower_contains(name.as_bytes(), mark.as_bytes()) {
            return Some(q);
        }
        i = i + 1;
    }
    Some(Quant::Q4KM)
}

/// The number a runtime is stored as.
pub open spec fn provider_spec(name: Option<Seq<u8>>) -> u8 {
    match name {
        None => 0,
        Some(s) => {
            let low = text::lowered(s);
            if low == text::bytes("llamacpp") || low == text::bytes("llama.cpp") {
                1
            } else if low == text::bytes("ollama") {
                2
            } else if low == text::bytes("mlx") {
                3
            } else if low == text::bytes("vllm") {
                4
            } else {
                0
            }
        },
    }
}

/// The bytes of a string that may be missing.
pub open spec fn bytes_of(s: Option<String>) -> Option<Seq<u8>> {
    match s {
        Some(t) => Some(encode_utf8(t@)),
        None => None,
    }
}

/// The number a runtime is stored as; one that is not known is zero.
pub fn provider_code(name: Option<&str>) -> (r: u8)
    ensures
        r == provider_spec(
            match name {
                Some(s) => Some(text::bytes(s)),
                None => None,
            },
        ),
{
    match name {
        None => 0,
        Some(s) => {
            let raw: &[u8] = s.as_bytes();
            if text::equal_in_lower(raw, "llamacpp".as_bytes()) || text::equal_in_lower(
                raw,
                "llama.cpp".as_bytes(),
            ) {
                1
            } else if text::equal_in_lower(raw, "ollama".as_bytes()) {
                2
            } else if text::equal_in_lower(raw, "mlx".as_bytes()) {
                3
            } else if text::equal_in_lower(raw, "vllm".as_bytes()) {
                4
            } else {
                0
            }
        },
    }
}

// --- the machine ------------------------------------------------------------

/// A submitted machine as one that models can be scored against, so that what
/// the formula says of it can be held against what was measured.
pub struct Machine {
    pub key: u32,
    pub name: String,
    pub hardware: Hardware,
}

/// What a machine is.
pub ghost struct MachineData {
    pub key: u32,
    pub name: Seq<u8>,
    pub hardware: Hardware,
}

impl View for Machine {
    type V = MachineData;

    open spec fn view(&self) -> MachineData {
        MachineData { key: self.key, name: encode_utf8(self.name@), hardware: self.hardware }
    }
}

/// Gigabytes, as submitted, in megabytes.
pub open spec fn megabytes(gb: Option<Double>) -> u32 {
    match gb {
        Some(v) => v.mul_spec(Double::nearest(1024, 1)).whole(u32::MAX as nat) as u32,
        None => 0,
    }
}

pub open spec fn backend_spec(name: Seq<u8>, unified: bool) -> Backend {
    let low = text::lowered(name);
    if text::occurs(low, text::bytes("apple")) || (low.len() > 0 && low[0] == 109 && unified) {
        Backend::Metal
    } else if text::occurs(low, text::bytes("nvidia")) || text::occurs(low, text::bytes("geforce"))
        || text::occurs(low, text::bytes("rtx")) {
        Backend::Cuda
    } else if text::occurs(low, text::bytes("amd")) || text::occurs(low, text::bytes("radeon")) {
        Backend::Rocm
    } else if text::occurs(low, text::bytes("intel")) || text::occurs(low, text::bytes("arc")) {
        Backend::Sycl
    } else {
        Backend::CpuX86
    }
}

/// A submitted machine; none where it has no name or no memory.
pub open spec fn machine_spec(h: SubmittedHardware) -> Option<MachineData> {
    match bytes_of(h.hardware_name) {
        None => None,
        Some(given) => {
            let name = text::trimmed(given);
            let unified = h.unified_memory == Some(true) || bytes_of(h.hw_class) == Some(
                text::bytes("UNIFIED"),
            );
            let known = hardware::gpu_answer(name);
            if name.len() == 0 || megabytes(h.ram_gb) == 0 {
                None
            } else {
                Some(
                    MachineData {
                        key: catalog::hw_key_spec(name),
                        name,
                        hardware: Hardware {
                            ram_mb: megabytes(h.ram_gb),
                            vram_mb: megabytes(h.vram_gb),
                            unified,
                            backend: backend_spec(name, unified),
                            gpu_bandwidth_gbps: match known {
                                Some(k) => k.0,
                                None => 0,
                            },
                            ram_bandwidth_gbps: 0,
                            tflops_fp16_x10: match known {
                                Some(k) => k.1,
                                None => 0,
                            },
                            os_reserve_mb: 2048,
                            hw_key: 0,
                        },
                    },
                )
            }
        },
    }
}

fn to_megabytes(gb: Option<Double>) -> (r: u32)
    ensures
        r == megabytes(gb),
{
    match gb {
        Some(v) => v.times(Double::ratio(1024, 1)).to_u32(),
        None => 0,
    }
}

fn backend_of(name: &str, unified: bool) -> (r: Backend)
    ensures
        r == backend_spec(text::bytes(name), unified),
{
    let raw: &[u8] = name.as_bytes();
    if text::lower_contains(raw, "apple".as_bytes()) || (raw.len() > 0 && text::to_lower(raw[0])
        == 109 && unified) {
        Backend::Metal
    } else if text::lower_contains(raw, "nvidia".as_bytes()) || text::lower_contains(
        raw,
        "geforce".as_bytes(),
    ) || text::lower_contains(raw, "rtx".as_bytes()) {
        Backend::Cuda
    } else if text::lower_contains(raw, "amd".as_bytes()) || text::lower_contains(
        raw,
        "radeon".as_bytes(),
    ) {
        Backend::Rocm
    } else if text::lower_contains(raw, "intel".as_bytes()) || text::lower_contains(
        raw,
        "arc".as_bytes(),
    ) {
        Backend::Sycl
    } else {
        Backend::CpuX86
    }
}

/// Take a submitted machine over.
pub fn machine_from(h: &SubmittedHardware) -> (r: Option<Machine>)
    ensures
        match r {
            Some(m) => machine_spec(*h) == Some(m@),
            None => machine_spec(*h) is None,
        },
{
    let name: &str = match &h.hardware_name {
        None => {
            return None;
        },
        Some(given) => text::trim(given.as_str()),
    };
    if name.as_bytes().len() == 0 {
        return None;
    }
    let ram_mb: u32 = to_megabytes(h.ram_gb);
    if ram_mb == 0 {
        return None;
    }
    let shared: bool = match h.unified_memory {
        Some(u) => u,
        None => false,
    };
    let unified: bool = shared || match &h.hw_class {
        Some(class) => text::is(class.as_str().as_bytes(), "UNIFIED"),
        None => false,
    };
    let (bandwidth, tflops): (u16, u16) = match lookup_gpu(name) {
        Some((b, t)) => (b, t),
        None => (0, 0),
    };
    Some(
        Machine {
            key: hw_key(name),
            name: name.to_owned(),
            hardware: Hardware {
                ram_mb,
                vram_mb: to_megabytes(h.vram_gb),
                unified,
                backend: backend_of(name, unified),
                gpu_bandwidth_gbps: bandwidth,
                ram_bandwidth_gbps: 0,
                tflops_fp16_x10: tflops,
                os_reserve_mb: 2048,
                hw_key: 0,
            },
        },
    )
}

} // verus!
