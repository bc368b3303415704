//! The hardware description the engine scores against.
//!
//! A plain value with no detection in it. A command line fills it from vendor
//! tools, a serial console from what somebody typed; the engine cannot tell the
//! difference, so the same arithmetic answers "what runs here" and "what would
//! run over there".

use vstd::prelude::*;
use vstd::utf8::*;

use crate::float::Single;
use crate::text;

pub mod lookup;

verus! {

/// Acceleration backend. Decides the throughput constant that is used when no
/// memory bandwidth is known.
#[derive(Clone, Copy, PartialEq, Eq, Structural, Debug)]
pub enum Backend {
    Cuda,
    Metal,
    Rocm,
    Sycl,
    CpuArm,
    CpuX86,
    Npu,
    Vulkan,
}

impl Backend {
    pub open spec fn name_spec(self) -> &'static str {
        match self {
            Backend::Cuda => "CUDA",
            Backend::Metal => "Metal",
            Backend::Rocm => "ROCm",
            Backend::Sycl => "SYCL",
            Backend::CpuArm => "CPU (ARM)",
            Backend::CpuX86 => "CPU (x86)",
            Backend::Npu => "NPU",
            Backend::Vulkan => "Vulkan",
        }
    }

    pub open spec fn cpu(self) -> bool {
        self == Backend::CpuArm || self == Backend::CpuX86
    }

    /// The throughput constant of the fallback.
    pub open spec fn constant(self) -> nat {
        match self {
            Backend::Cuda => 220,
            Backend::Metal => 160,
            Backend::Rocm => 180,
            Backend::Sycl => 100,
            Backend::Vulkan => 110,
            Backend::CpuArm => 90,
            Backend::CpuX86 => 70,
            Backend::Npu => 390,
        }
    }

    pub open spec fn fallback_spec(self) -> Single {
        Single::nearest(self.constant(), 1)
    }

    /// The number a backend is stored as.
    pub open spec fn rank(self) -> nat {
        match self {
            Backend::Cuda => 0,
            Backend::Metal => 1,
            Backend::Rocm => 2,
            Backend::Sycl => 3,
            Backend::CpuArm => 4,
            Backend::CpuX86 => 5,
            Backend::Npu => 6,
            Backend::Vulkan => 7,
        }
    }

    pub fn name(self) -> (r: &'static str)
        ensures
            r@ == self.name_spec()@,
    {
        match self {
            Backend::Cuda => "CUDA",
            Backend::Metal => "Metal",
            Backend::Rocm => "ROCm",
            Backend::Sycl => "SYCL",
            Backend::CpuArm => "CPU (ARM)",
            Backend::CpuX86 => "CPU (x86)",
            Backend::Npu => "NPU",
            Backend::Vulkan => "Vulkan",
        }
    }

    pub fn is_cpu(self) -> (r: bool)
        ensures
            r == self.cpu(),
    {
        matches!(self, Backend::CpuArm | Backend::CpuX86)
    }

    /// The constant `K` of the fallback `K / billions of parameters`. A figure
    /// from a real bandwidth is always better.
    pub fn fallback_k(self) -> (r: Single)
        ensures
            r == self.fallback_spec(),
    {
        let k: u32 = match self {
            Backend::Cuda => 220,
            Backend::Metal => 160,
            Backend::Rocm => 180,
            Backend::Sycl => 100,
            Backend::Vulkan => 110,
            Backend::CpuArm => 90,
            Backend::CpuX86 => 70,
            Backend::Npu => 390,
        };
        Single::from_u32(k)
    }

    /// The backend stored as `v`.
    pub fn from_u8(v: u8) -> (r: Option<Backend>)
        ensures
            r is Some <==> v < 8,
            r matches Some(b) ==> b.rank() == v,
    {
        match v {
            0 => Some(Backend::Cuda),
            1 => Some(Backend::Metal),
            2 => Some(Backend::Rocm),
            3 => Some(Backend::Sycl),
            4 => Some(Backend::CpuArm),
            5 => Some(Backend::CpuX86),
            6 => Some(Backend::Npu),
            7 => Some(Backend::Vulkan),
            _ => None,
        }
    }
}

/// Where a bandwidth figure came from. Reported with every estimate, so that a
/// number can be traced to its source.
#[derive(Clone, Copy, PartialEq, Eq, Structural, Debug)]
pub enum BandwidthSource {
    /// The caller gave it.
    Override,
    /// It matched a name in the table of accelerators.
    GpuTable,
    /// None is known, and the backend's constant was used.
    BackendConstant,
}

impl BandwidthSource {
    pub open spec fn name_spec(self) -> &'static str {
        match self {
            BandwidthSource::Override => "override",
            BandwidthSource::GpuTable => "gpu-table",
            BandwidthSource::BackendConstant => "backend-constant",
        }
    }

    pub fn name(self) -> (r: &'static str)
        ensures
            r@ == self.name_spec()@,
    {
        match self {
            BandwidthSource::Override => "override",
            BandwidthSource::GpuTable => "gpu-table",
            BandwidthSource::BackendConstant => "backend-constant",
        }
    }
}

/// A machine to score models against.
///
/// Memory is in MiB and bandwidth in GB/s of 10^9 bytes, which is how spec
/// sheets report it.
#[derive(Clone, Copy, PartialEq, Eq, Structural, Debug)]
pub struct Hardware {
    /// Total system RAM.
    pub ram_mb: u32,
    /// Total VRAM over all accelerators. Zero means there is none.
    pub vram_mb: u32,
    /// VRAM and RAM are one pool, which must then not be counted twice.
    pub unified: bool,
    pub backend: Backend,
    /// Accelerator memory bandwidth. Zero means unknown.
    pub gpu_bandwidth_gbps: u16,
    /// System memory bandwidth. Zero falls back to a default.
    pub ram_bandwidth_gbps: u16,
    /// Dense fp16 matrix throughput in tenths of a TFLOPS. Zero means unknown.
    pub tflops_fp16_x10: u16,
    /// Memory held by the system and other processes, taken off the RAM.
    pub os_reserve_mb: u32,
    /// Identity of the machine in the catalog's measurements; zero means it was
    /// never identified.
    pub hw_key: u32,
}

impl Hardware {
    pub open spec fn usable_ram(self) -> nat {
        if self.ram_mb >= self.os_reserve_mb {
            (self.ram_mb - self.os_reserve_mb) as nat
        } else {
            0
        }
    }

    pub open spec fn ram_bandwidth_spec(self) -> Single {
        if self.ram_bandwidth_gbps > 0 {
            Single::nearest(self.ram_bandwidth_gbps as nat, 1)
        } else if self.unified && self.gpu_bandwidth_gbps > 0 {
            Single::nearest(self.gpu_bandwidth_gbps as nat, 1)
        } else if self.unified {
            Single::nearest(100, 1)
        } else {
            Single::nearest(512, 10)
        }
    }

    pub open spec fn gpu_bandwidth_spec(self) -> (Single, BandwidthSource) {
        if self.gpu_bandwidth_gbps > 0 {
            (Single::nearest(self.gpu_bandwidth_gbps as nat, 1), BandwidthSource::Override)
        } else if self.unified {
            (self.ram_bandwidth_spec(), BandwidthSource::BackendConstant)
        } else {
            (Single::nearest(0, 1), BandwidthSource::BackendConstant)
        }
    }

    /// A machine without an accelerator, of which nothing else is known.
    pub fn cpu_only(ram_mb: u32, arm: bool) -> (r: Hardware)
        ensures
            r == (Hardware {
                ram_mb,
                vram_mb: 0,
                unified: false,
                backend: if arm {
                    Backend::CpuArm
                } else {
                    Backend::CpuX86
                },
                gpu_bandwidth_gbps: 0,
                ram_bandwidth_gbps: 0,
                tflops_fp16_x10: 0,
                os_reserve_mb: 2048,
                hw_key: 0,
            }),
    {
        Hardware {
            ram_mb,
            vram_mb: 0,
            unified: false,
            backend: if arm {
                Backend::CpuArm
            } else {
                Backend::CpuX86
            },
            gpu_bandwidth_gbps: 0,
            ram_bandwidth_gbps: 0,
            tflops_fp16_x10: 0,
            os_reserve_mb: 2048,
            hw_key: 0,
        }
    }

    /// RAM left for inference.
    pub fn usable_ram_mb(&self) -> (r: u32)
        ensures
            r == self.usable_ram(),
    {
        self.ram_mb.saturating_sub(self.os_reserve_mb)
    }

    /// System memory bandwidth. Dual-channel DDR4-3200 is what mostly sits
    /// under a discrete accelerator. A unified machine has one memory, which is
    /// as fast as its accelerator's, and never that slow where nothing is
    /// stated.
    pub fn effective_ram_bandwidth(&self) -> (r: Single)
        ensures
            r == self.ram_bandwidth_spec(),
    {
        if self.ram_bandwidth_gbps > 0 {
            Single::from_u32(self.ram_bandwidth_gbps as u32)
        } else if self.unified && self.gpu_bandwidth_gbps > 0 {
            Single::from_u32(self.gpu_bandwidth_gbps as u32)
        } else if self.unified {
            Single::from_u32(100)
        } else {
            Single::ratio(512, 10)
        }
    }

    /// Accelerator bandwidth, and where the figure came from. Zero with
    /// `BackendConstant` means that nothing is known.
    pub fn resolve_gpu_bandwidth(&self) -> (r: (Single, BandwidthSource))
        ensures
            r == self.gpu_bandwidth_spec(),
    {
        if self.gpu_bandwidth_gbps > 0 {
            (Single::from_u32(self.gpu_bandwidth_gbps as u32), BandwidthSource::Override)
        } else if self.unified {
            (self.effective_ram_bandwidth(), BandwidthSource::BackendConstant)
        } else {
            (Single::from_u32(0), BandwidthSource::BackendConstant)
        }
    }
}

/// The accelerators known by name: a pattern in lower case, bandwidth in GB/s,
/// and dense fp16 throughput in tenths of a TFLOPS.
pub open spec fn gpu_rows() -> Seq<(&'static str, u16, u16)> {
    seq![
        ("h200", 4800u16, 9890u16),
        ("h100 nvl", 3900u16, 9890u16),
        ("h100", 3350u16, 9890u16),
        ("a100 80gb", 2039u16, 3120u16),
        ("a100", 1555u16, 3120u16),
        ("l40s", 864u16, 3625u16),
        ("l40", 864u16, 1814u16),
        ("l4", 300u16, 1210u16),
        ("a40", 696u16, 1495u16),
        ("a30", 933u16, 1650u16),
        ("a10g", 600u16, 700u16),
        ("a10", 600u16, 1250u16),
        ("v100", 900u16, 1120u16),
        ("t4", 320u16, 650u16),
        ("rtx 5090", 1792u16, 3186u16),
        ("rtx 5080", 960u16, 1710u16),
        ("rtx 5070 ti", 896u16, 1430u16),
        ("rtx 5070", 672u16, 1130u16),
        ("rtx 5060 ti", 448u16, 940u16),
        ("rtx 5060", 448u16, 780u16),
        ("rtx 4090 laptop", 576u16, 1650u16),
        ("rtx 4090", 1008u16, 1654u16),
        ("rtx 4080 super", 736u16, 1300u16),
        ("rtx 4080 laptop", 432u16, 1000u16),
        ("rtx 4080", 717u16, 1230u16),
        ("rtx 4070 ti super", 672u16, 1000u16),
        ("rtx 4070 ti", 504u16, 800u16),
        ("rtx 4070 super", 504u16, 710u16),
        ("rtx 4070 laptop", 256u16, 500u16),
        ("rtx 4070", 504u16, 590u16),
        ("rtx 4060 ti", 288u16, 440u16),
        ("rtx 4060", 272u16, 380u16),
        ("rtx 4050", 192u16, 270u16),
        ("rtx 3090 ti", 1008u16, 800u16),
        ("rtx 3090", 936u16, 710u16),
        ("rtx 3080 ti", 912u16, 680u16),
        ("rtx 3080", 760u16, 595u16),
        ("rtx 3070 ti", 608u16, 436u16),
        ("rtx 3070", 448u16, 407u16),
        ("rtx 3060 ti", 448u16, 324u16),
        ("rtx 3060", 360u16, 257u16),
        ("rtx 3050", 224u16, 180u16),
        ("rtx 2080 ti", 616u16, 268u16),
        ("rtx 2070", 448u16, 179u16),
        ("rtx 2060", 336u16, 129u16),
        ("gtx 1660", 192u16, 50u16),
        ("gtx 1080 ti", 484u16, 45u16),
        ("rtx 6000 ada", 960u16, 1457u16),
        ("rtx a6000", 768u16, 387u16),
        ("rtx a5000", 768u16, 273u16),
        ("rtx a4000", 448u16, 192u16),
        ("jetson agx orin", 204u16, 1050u16),
        ("jetson orin nx", 102u16, 700u16),
        ("jetson orin nano", 68u16, 340u16),
        ("m4 max", 546u16, 340u16),
        ("m4 pro", 273u16, 170u16),
        ("m4", 120u16, 90u16),
        ("m3 ultra", 819u16, 570u16),
        ("m3 max", 400u16, 285u16),
        ("m3 pro", 150u16, 140u16),
        ("m3", 100u16, 70u16),
        ("m2 ultra", 800u16, 540u16),
        ("m2 max", 400u16, 270u16),
        ("m2 pro", 200u16, 135u16),
        ("m2", 100u16, 68u16),
        ("m1 ultra", 800u16, 420u16),
        ("m1 max", 400u16, 210u16),
        ("m1 pro", 200u16, 105u16),
        ("m1", 68u16, 52u16),
        ("mi300x", 5300u16, 13070u16),
        ("mi250x", 3276u16, 3830u16),
        ("mi210", 1638u16, 1810u16),
        ("rx 7900 xtx", 960u16, 1230u16),
        ("rx 7900 xt", 800u16, 1030u16),
        ("rx 7900 gre", 576u16, 920u16),
        ("rx 7800 xt", 624u16, 750u16),
        ("rx 7700 xt", 432u16, 630u16),
        ("rx 7600", 288u16, 430u16),
        ("rx 6900 xt", 512u16, 460u16),
        ("rx 6800 xt", 512u16, 414u16),
        ("rx 6800", 512u16, 366u16),
        ("rx 6700 xt", 384u16, 269u16),
        ("rx 6600", 224u16, 177u16),
        ("rx 9070 xt", 645u16, 1950u16),
        ("rx 9070", 645u16, 1700u16),
        ("rx 9060 xt", 320u16, 820u16),
        ("radeon 890m", 128u16, 300u16),
        ("radeon 780m", 102u16, 170u16),
        ("ryzen ai max", 256u16, 500u16),
        ("arc b580", 456u16, 456u16),
        ("arc b570", 380u16, 400u16),
        ("arc a770", 560u16, 393u16),
        ("arc a750", 512u16, 344u16),
        ("arc a380", 186u16, 100u16),
    ]
}

/// The rows of the table of accelerators.
pub fn gpu_table() -> (r: [(&'static str, u16, u16); 94])
    ensures
        r@ == gpu_rows(),
{
    let r: [(&'static str, u16, u16); 94] = [
        // NVIDIA datacenter
        ("h200", 4800, 9890),
        ("h100 nvl", 3900, 9890),
        ("h100", 3350, 9890),
        ("a100 80gb", 2039, 3120),
        ("a100", 1555, 3120),
        ("l40s", 864, 3625),
        ("l40", 864, 1814),
        ("l4", 300, 1210),
        ("a40", 696, 1495),
        ("a30", 933, 1650),
        ("a10g", 600, 700),
        ("a10", 600, 1250),
        ("v100", 900, 1120),
        ("t4", 320, 650),
        // NVIDIA GeForce 50 series
        ("rtx 5090", 1792, 3186),
        ("rtx 5080", 960, 1710),
        ("rtx 5070 ti", 896, 1430),
        ("rtx 5070", 672, 1130),
        ("rtx 5060 ti", 448, 940),
        ("rtx 5060", 448, 780),
        // NVIDIA GeForce 40 series
        ("rtx 4090 laptop", 576, 1650),
        ("rtx 4090", 1008, 1654),
        ("rtx 4080 super", 736, 1300),
        ("rtx 4080 laptop", 432, 1000),
        ("rtx 4080", 717, 1230),
        ("rtx 4070 ti super", 672, 1000),
        ("rtx 4070 ti", 504, 800),
        ("rtx 4070 super", 504, 710),
        ("rtx 4070 laptop", 256, 500),
        ("rtx 4070", 504, 590),
        ("rtx 4060 ti", 288, 440),
        ("rtx 4060", 272, 380),
        ("rtx 4050", 192, 270),
        // NVIDIA GeForce 30 series
        ("rtx 3090 ti", 1008, 800),
        ("rtx 3090", 936, 710),
        ("rtx 3080 ti", 912, 680),
        ("rtx 3080", 760, 595),
        ("rtx 3070 ti", 608, 436),
        ("rtx 3070", 448, 407),
        ("rtx 3060 ti", 448, 324),
        ("rtx 3060", 360, 257),
        ("rtx 3050", 224, 180),
        // NVIDIA GeForce 20 / 16
        ("rtx 2080 ti", 616, 268),
        ("rtx 2070", 448, 179),
        ("rtx 2060", 336, 129),
        ("gtx 1660", 192, 50),
        ("gtx 1080 ti", 484, 45),
        // NVIDIA professional / embedded
        ("rtx 6000 ada", 960, 1457),
        ("rtx a6000", 768, 387),
        ("rtx a5000", 768, 273),
        ("rtx a4000", 448, 192),
        ("jetson agx orin", 204, 1050),
        ("jetson orin nx", 102, 700),
        ("jetson orin nano", 68, 340),
        // Apple Silicon
        ("m4 max", 546, 340),
        ("m4 pro", 273, 170),
        ("m4", 120, 90),
        ("m3 ultra", 819, 570),
        ("m3 max", 400, 285),
        ("m3 pro", 150, 140),
        ("m3", 100, 70),
        ("m2 ultra", 800, 540),
        ("m2 max", 400, 270),
        ("m2 pro", 200, 135),
        ("m2", 100, 68),
        ("m1 ultra", 800, 420),
        ("m1 max", 400, 210),
        ("m1 pro", 200, 105),
        ("m1", 68, 52),
        // AMD
        ("mi300x", 5300, 13070),
        ("mi250x", 3276, 3830),
        ("mi210", 1638, 1810),
        ("rx 7900 xtx", 960, 1230),
        ("rx 7900 xt", 800, 1030),
        ("rx 7900 gre", 576, 920),
        ("rx 7800 xt", 624, 750),
        ("rx 7700 xt", 432, 630),
        ("rx 7600", 288, 430),
        ("rx 6900 xt", 512, 460),
        ("rx 6800 xt", 512, 414),
        ("rx 6800", 512, 366),
        ("rx 6700 xt", 384, 269),
        ("rx 6600", 224, 177),
        ("rx 9070 xt", 645, 1950),
        ("rx 9070", 645, 1700),
        ("rx 9060 xt", 320, 820),
        ("radeon 890m", 128, 300),
        ("radeon 780m", 102, 170),
        ("ryzen ai max", 256, 500),
        // Intel
        ("arc b580", 456, 456),
        ("arc b570", 380, 400),
        ("arc a770", 560, 393),
        ("arc a750", 512, 344),
        ("arc a380", 186, 100),
    ];
    assert(r@ =~= gpu_rows());
    r
}

/// The part of a name that is searched: its first bytes in lower case.
pub open spec fn gpu_haystack(name: Seq<u8>) -> Seq<u8> {
    text::lowered(name.take(gpu_name_len(name)))
}

pub open spec fn gpu_name_len(name: Seq<u8>) -> int {
    if name.len() < 96 {
        name.len() as int
    } else {
        96
    }
}

/// Whether a row of the table occurs in a name.
pub open spec fn gpu_row_occurs(name: Seq<u8>, i: int) -> bool {
    &&& 0 <= i < gpu_rows().len()
    &&& text::occurs(gpu_haystack(name), text::bytes(gpu_rows()[i].0))
}

/// Whether a row is the one a name stands for: it occurs, and every other that
/// occurs is shorter, or as long and further down.
pub open spec fn gpu_row_wins(name: Seq<u8>, i: int) -> bool {
    &&& gpu_row_occurs(name, i)
    &&& forall|j: int| #[trigger]
        gpu_row_occurs(name, j) ==> gpu_pattern_len(j) < gpu_pattern_len(i) || (
        gpu_pattern_len(j) == gpu_pattern_len(i) && i <= j)
}

pub open spec fn gpu_pattern_len(i: int) -> nat {
    text::bytes(gpu_rows()[i].0).len()
}

/// What the table says of a name: the figures of the row it stands for. Only
/// the first 96 bytes count, and a name cut inside a character matches nothing.
pub open spec fn gpu_answer(name: Seq<u8>) -> Option<(u16, u16)> {
    if is_char_boundary(name, gpu_name_len(name)) && exists|i: int| gpu_row_wins(name, i) {
        let i = choose|i: int| gpu_row_wins(name, i);
        Some((gpu_rows()[i].1, gpu_rows()[i].2))
    } else {
        None
    }
}

/// Bandwidth in GB/s and fp16 throughput in tenths of a TFLOPS of a named
/// accelerator. The longest pattern that occurs wins, so that a laptop part is
/// not taken for the desktop one; a name that is not known is no error.
pub fn lookup_gpu(name: &str) -> (r: Option<(u16, u16)>)
    ensures
        r == gpu_answer(text::bytes(name)),
{
    let ghost whole: Seq<u8> = text::bytes(name);
    let bytes: &[u8] = name.as_bytes();
    let n: usize = if bytes.len() < 96 {
        bytes.len()
    } else {
        96
    };
    if !name.is_char_boundary(n) {
        return None;
    }
    let mut lower: [u8; 96] = [0; 96];
    let mut i: usize = 0;
    while i < n
        invariant
            n <= 96,
            n <= bytes.len(),
            i <= n,
            forall|k: int| 0 <= k < i ==> lower@[k] == text::lower(bytes@[k]),
        decreases n - i,
    {
        lower[i] = text::to_lower(bytes[i]);
        i = i + 1;
    }
    let hay: &[u8] = vstd::slice::slice_subrange(lower.as_slice(), 0, n);
    assert(hay@ =~= gpu_haystack(whole));
    let table: [(&'static str, u16, u16); 94] = gpu_table();
    let mut best: Option<usize> = None;
    let mut row: usize = 0;
    while row < 94
        invariant
            row <= 94,
            table@ == gpu_rows(),
            hay@ == gpu_haystack(whole),
            best matches Some(b) ==> b < row && gpu_row_occurs(whole, b as int) && forall|j: int|
                0 <= j < row && #[trigger] gpu_row_occurs(whole, j) ==> gpu_pattern_len(j)
                    < gpu_pattern_len(b as int) || (gpu_pattern_len(j) == gpu_pattern_len(b as int)
                    && b <= j),
            best is None ==> forall|j: int|
                0 <= j < row ==> !#[trigger] gpu_row_occurs(whole, j),
        decreases 94 - row,
    {
        let pattern: &[u8] = table[row].0.as_bytes();
        if text::contains(hay, pattern) {
            let longer: bool = match best {
                Some(b) => pattern.len() > table[b].0.as_bytes().len(),
                None => true,
            };
            if longer {
                best = Some(row);
            }
        }
        row = row + 1;
    }
    match best {
        Some(b) => {
            assert(gpu_row_wins(whole, b as int));
            proof {
                let i = choose|i: int| gpu_row_wins(whole, i);
                law_lookup_is_unique(whole, i, b as int);
            }
            Some((table[b].1, table[b].2))
        },
        None => None,
    }
}

/// At most one row wins, so a lookup has one answer.
pub proof fn law_lookup_is_unique(name: Seq<u8>, i: int, j: int)
    requires
        gpu_row_wins(name, i),
        gpu_row_wins(name, j),
    ensures
        i == j,
{
}

} // verus!
