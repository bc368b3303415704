//! Memory model, run mode and the fit verdict.
//!
//! The verdict is a function of one number, how full the memory pool of the run
//! mode is, and is then capped by what the execution path can deliver. Nothing
//! else feeds into it, so anybody can reproduce it.

use vstd::arithmetic::power2::*;
use vstd::prelude::*;

use crate::catalog::flags;
use crate::catalog::{Model, ModelData, UseCase};
use crate::float;
use crate::float::Single;
use crate::hardware::Hardware;
use crate::quant::{KvQuant, Quant};

pub mod bands;
pub mod context;
pub mod pools;
pub mod sizes;

verus! {

/// How comfortably a model sits in the memory it would run from.
#[derive(Clone, Copy, PartialEq, Eq, Structural, PartialOrd, Ord, Debug)]
pub enum Verdict {
    /// Will not load, or will thrash as if it had not.
    TooTight,
    /// Loads with nothing to spare.
    Marginal,
    /// Comfortable.
    Good,
    /// Comfortable and on the accelerator.
    Perfect,
}

impl Verdict {
    pub open spec fn rank(self) -> nat {
        match self {
            Verdict::TooTight => 0,
            Verdict::Marginal => 1,
            Verdict::Good => 2,
            Verdict::Perfect => 3,
        }
    }

    pub open spec fn runs(self) -> bool {
        self != Verdict::TooTight
    }

    pub open spec fn name_spec(self) -> &'static str {
        match self {
            Verdict::TooTight => "Too Tight",
            Verdict::Marginal => "Marginal",
            Verdict::Good => "Good",
            Verdict::Perfect => "Perfect",
        }
    }

    /// The place in the order, worst first.
    pub fn level(self) -> (r: u8)
        ensures
            r == self.rank(),
    {
        match self {
            Verdict::TooTight => 0,
            Verdict::Marginal => 1,
            Verdict::Good => 2,
            Verdict::Perfect => 3,
        }
    }

    pub fn name(self) -> (r: &'static str)
        ensures
            r@ == self.name_spec()@,
    {
        match self {
            Verdict::TooTight => "Too Tight",
            Verdict::Marginal => "Marginal",
            Verdict::Good => "Good",
            Verdict::Perfect => "Perfect",
        }
    }

    pub fn runnable(self) -> (r: bool)
        ensures
            r == self.runs(),
    {
        !matches!(self, Verdict::TooTight)
    }
}

/// Which memory the weights live in.
#[derive(Clone, Copy, PartialEq, Eq, Structural, Debug)]
pub enum RunMode {
    /// Wholly in accelerator memory.
    Gpu,
    /// A sparse model with its inactive experts parked in system RAM.
    MoeOffload,
    /// Split over accelerator and system memory.
    CpuGpu,
    /// Wholly in system RAM.
    Cpu,
    /// Past what a unified machine lets its accelerator hold: the same memory,
    /// drawn on as a whole.
    UnifiedSpill,
}

impl RunMode {
    pub open spec fn name_spec(self) -> &'static str {
        match self {
            RunMode::Gpu => "GPU",
            RunMode::MoeOffload => "MoE offload",
            RunMode::CpuGpu => "CPU+GPU",
            RunMode::Cpu => "CPU",
            RunMode::UnifiedSpill => "unified spill",
        }
    }

    pub open spec fn cap_spec(self) -> Verdict {
        if self == RunMode::Gpu {
            Verdict::Perfect
        } else {
            Verdict::Good
        }
    }

    pub fn name(self) -> (r: &'static str)
        ensures
            r@ == self.name_spec()@,
    {
        match self {
            RunMode::Gpu => "GPU",
            RunMode::MoeOffload => "MoE offload",
            RunMode::CpuGpu => "CPU+GPU",
            RunMode::Cpu => "CPU",
            RunMode::UnifiedSpill => "unified spill",
        }
    }

    /// The best verdict this path can reach. Only a model wholly on the
    /// accelerator can be perfect; one that sits comfortably elsewhere is still
    /// good, just not fast.
    pub fn verdict_cap(self) -> (r: Verdict)
        ensures
            r == self.cap_spec(),
    {
        match self {
            RunMode::Gpu => Verdict::Perfect,
            _ => Verdict::Good,
        }
    }
}

/// What the caller can choose. The defaults are what the estimator was
/// calibrated against.
#[derive(Clone, Copy, PartialEq, Eq, Structural, Debug)]
pub struct Opts {
    /// A cap on the context that memory is estimated at. `None` takes the
    /// model's native window, which makes long-context models look as expensive
    /// as they are.
    pub context: Option<u32>,
    pub kv_quant: KvQuant,
    /// The share of theoretical bandwidth that a real decode loop reaches.
    pub efficiency: Single,
    /// Allow parking inactive experts in system RAM.
    pub allow_moe_offload: bool,
    /// The best quantization to consider. Full precision costs about twice the
    /// memory of `Q8_0` for a difference of 0.2% in quality, so it has to be
    /// asked for.
    pub max_quant: Quant,
    /// Score by the priorities of this use case rather than by the model's own.
    pub use_case: Option<UseCase>,
}

impl Opts {
    pub open spec fn defaults() -> Opts {
        Opts {
            context: None,
            kv_quant: KvQuant::F16,
            efficiency: Single::nearest(55, 100),
            allow_moe_offload: true,
            max_quant: Quant::Q8_0,
            use_case: None,
        }
    }
}

impl Default for Opts {
    fn default() -> (r: Opts)
        ensures
            r == Opts::defaults(),
    {
        Opts {
            context: None,
            kv_quant: KvQuant::F16,
            efficiency: Single::ratio(55, 100),
            allow_moe_offload: true,
            max_quant: Quant::Q8_0,
            use_case: None,
        }
    }
}

/// Where the figure for the key-value cache came from.
#[derive(Clone, Copy, PartialEq, Eq, Structural, Debug)]
pub enum KvSource {
    /// From the model's configuration.
    Metadata,
    /// Inferred from the parameter count.
    Estimated,
}

/// The memory behind a verdict, in MiB.
#[derive(Clone, Copy, PartialEq, Eq, Structural, Debug)]
pub struct MemoryBreakdown {
    pub weights_mb: u32,
    pub kv_cache_mb: u32,
    pub overhead_mb: u32,
    /// Inactive experts pushed out to system RAM.
    pub offloaded_mb: u32,
    pub kv_source: KvSource,
}

/// A number held to the range of `u32`.
pub open spec fn held(n: int) -> u32 {
    if n > u32::MAX {
        u32::MAX
    } else {
        n as u32
    }
}

impl MemoryBreakdown {
    pub open spec fn resident_spec(self) -> u32 {
        held(self.weights_mb + self.kv_cache_mb + self.overhead_mb)
    }

    /// What stays in the pool, held to the range of `u32`.
    pub fn resident_mb(&self) -> (r: u32)
        ensures
            r == self.resident_spec(),
    {
        self.weights_mb.saturating_add(self.kv_cache_mb).saturating_add(self.overhead_mb)
    }
}

/// The result of setting one model against one machine.
#[derive(Clone, Copy, PartialEq, Eq, Structural, Debug)]
pub struct Fit {
    pub verdict: Verdict,
    pub run_mode: RunMode,
    pub quant: Quant,
    pub memory: MemoryBreakdown,
    /// The memory the run mode draws from, MiB.
    pub pool_mb: u32,
    /// The share of the pool that is taken, in tenths of a percent.
    pub utilization_pctx10: u16,
    /// The context that the pool would take beside weights and overhead, at
    /// most the native window.
    pub usable_context: u32,
    /// The context that the memory was computed at.
    pub effective_context: u32,
}

// --- what the figures are ---------------------------------------------------

/// Bytes in a MiB.
pub open spec fn mib() -> Single {
    Single::nearest(1_048_576, 1)
}

fn mib_exec() -> (r: Single)
    ensures
        r == mib(),
{
    Single::from_u32(1_048_576)
}

/// Layers, key-value heads and head dimension of a model, and where they are
/// from: its configuration, or the dominant designs of its size class.
pub open spec fn arch_spec(model: ModelData) -> (u16, u16, u16, KvSource) {
    let pb = model.params_b();
    if model.has_flag(flags::ARCH_METADATA) && model.num_layers() > 0 && model.num_kv_heads() > 0
        && model.head_dim() > 0 {
        (model.num_layers(), model.num_kv_heads(), model.head_dim(), KvSource::Metadata)
    } else if pb.upto(Single::nearest(6, 10)) {
        (24, 4, 64, KvSource::Estimated)
    } else if pb.upto(Single::nearest(2, 1)) {
        (28, 4, 128, KvSource::Estimated)
    } else if pb.upto(Single::nearest(4, 1)) {
        (32, 8, 128, KvSource::Estimated)
    } else if pb.upto(Single::nearest(9, 1)) {
        (32, 8, 128, KvSource::Estimated)
    } else if pb.upto(Single::nearest(16, 1)) {
        (40, 8, 128, KvSource::Estimated)
    } else if pb.upto(Single::nearest(24, 1)) {
        (48, 8, 128, KvSource::Estimated)
    } else if pb.upto(Single::nearest(40, 1)) {
        (64, 8, 128, KvSource::Estimated)
    } else if pb.upto(Single::nearest(80, 1)) {
        (80, 8, 128, KvSource::Estimated)
    } else {
        (96, 8, 128, KvSource::Estimated)
    }
}

pub open spec fn weights_spec(params_m: u32, quant: Quant) -> u32 {
    Single::nearest(params_m as nat, 1).mul_spec(Single::nearest(1_000_000, 1)).mul_spec(
        quant.bits_spec(),
    ).div_spec(Single::nearest(8, 1)).div_spec(mib()).whole(u32::MAX as nat) as u32
}

/// Bytes of cache per token: two tensors per layer, each as wide as all heads.
pub open spec fn token_bytes_spec(layers: u16, heads: u16, dim: u16, kv: KvQuant) -> Single {
    Single::nearest(2, 1).mul_spec(Single::nearest(layers as nat, 1)).mul_spec(
        Single::nearest(heads as nat, 1),
    ).mul_spec(Single::nearest(dim as nat, 1)).mul_spec(kv.bytes_spec())
}

pub open spec fn cache_spec(per_token: Single, context: u32) -> u32 {
    per_token.mul_spec(Single::nearest(context as nat, 1)).div_spec(mib()).whole(
        u32::MAX as nat,
    ) as u32
}

pub open spec fn overhead_spec(weights: u32, context: u32) -> u32 {
    held(
        128 + Single::nearest(weights as nat, 1).mul_spec(Single::nearest(5, 100)).whole(
            u32::MAX as nat,
        ) + context / 512,
    )
}

/// How full a pool is.
pub open spec fn ratio_spec(resident: u32, pool: u32) -> Single {
    if pool == 0 {
        Single { bits: 0x7f80_0000 }
    } else {
        Single::nearest(resident as nat, 1).div_spec(Single::nearest(pool as nat, 1))
    }
}

/// The verdict band of a pool this full.
pub open spec fn band_spec(ratio: Single) -> Verdict {
    if ratio.upto(Single::nearest(60, 100)) {
        Verdict::Perfect
    } else if ratio.upto(Single::nearest(85, 100)) {
        Verdict::Good
    } else if ratio.upto(Single::nearest(98, 100)) {
        Verdict::Marginal
    } else {
        Verdict::TooTight
    }
}

pub open spec fn capped_spec(level: Verdict, mode: RunMode) -> Verdict {
    if level.rank() > mode.cap_spec().rank() {
        mode.cap_spec()
    } else {
        level
    }
}

/// Run mode, pool, what stays in it, and what is offloaded: the fastest path
/// whose pool can hold the model.
pub open spec fn placement_spec(
    model: ModelData,
    hw: Hardware,
    opts: Opts,
    w_full: u32,
    w_active: u32,
    kv: u32,
    oh: u32,
) -> (RunMode, u32, u32, u32) {
    let ram = hw.usable_ram() as u32;
    let full = held(w_full + kv + oh);
    let active = held(w_active + kv + oh);
    let parked = if w_full >= w_active {
        (w_full - w_active) as u32
    } else {
        0
    };
    let split = (RunMode::CpuGpu, held(hw.vram_mb + ram), full, 0u32);
    if hw.backend.cpu() || hw.vram_mb == 0 {
        (RunMode::Cpu, ram, full, 0)
    } else if full <= hw.vram_mb {
        (RunMode::Gpu, hw.vram_mb, full, 0)
    } else if hw.unified {
        (RunMode::UnifiedSpill, ram, full, 0)
    } else if model.has_flag(flags::MOE) && opts.allow_moe_offload {
        if active <= hw.vram_mb && parked <= ram {
            (RunMode::MoeOffload, hw.vram_mb, active, parked)
        } else {
            split
        }
    } else {
        split
    }
}

/// How many tokens of cache fit into so many MiB.
pub open spec fn room_spec(spare: nat, per_token: Single) -> nat {
    Single::nearest(spare, 1).mul_spec(mib()).div_spec(per_token).whole(u32::MAX as nat)
}

/// The native window of a model, at least 512.
pub open spec fn window_spec(model: ModelData) -> u32 {
    if model.context_length() > 512 {
        model.context_length()
    } else {
        512
    }
}

/// One model on one machine at one quantization and context.
#[verifier::opaque]
pub open spec fn fit_at(model: ModelData, hw: Hardware, opts: Opts, quant: Quant, context: u32) -> Fit {
    let (layers, heads, dim, kv_source) = arch_spec(model);
    let per_token = token_bytes_spec(layers, heads, dim, opts.kv_quant);
    let w_full = weights_spec(model.params_m(), quant);
    let w_active = weights_spec(model.active_params_m(), quant);
    let kv = cache_spec(per_token, context);
    let oh = overhead_spec(w_full, context);
    let (mode, pool, resident, offloaded) = placement_spec(
        model,
        hw,
        opts,
        w_full,
        w_active,
        kv,
        oh,
    );
    let ratio = ratio_spec(resident, pool);
    let weights = if mode == RunMode::MoeOffload {
        w_active
    } else {
        w_full
    };
    let taken = held(weights + oh);
    let spare = if pool >= taken {
        (pool - taken) as nat
    } else {
        0
    };
    let room = room_spec(spare, per_token);
    let window = window_spec(model);
    Fit {
        verdict: capped_spec(band_spec(ratio), mode),
        run_mode: mode,
        quant,
        memory: MemoryBreakdown {
            weights_mb: weights,
            kv_cache_mb: kv,
            overhead_mb: oh,
            offloaded_mb: offloaded,
            kv_source,
        },
        pool_mb: pool,
        utilization_pctx10: ratio.mul_spec(Single::nearest(1000, 1)).min_spec(
            Single::nearest(65535, 1),
        ).whole(u16::MAX as nat) as u16,
        usable_context: if Single::nearest(0, 1).below(per_token) {
            if room < window {
                room as u32
            } else {
                window
            }
        } else {
            context
        },
        effective_context: context,
    }
}

/// The context that is asked for: at most the native window, at least 512.
pub open spec fn requested_context(model: ModelData, opts: Opts) -> u32 {
    let native = if model.context_length() == 0 {
        4096u32
    } else {
        model.context_length()
    };
    let wanted = match opts.context {
        Some(c) => if c < native {
            c
        } else {
            native
        },
        None => native,
    };
    if wanted < 512 {
        512
    } else {
        wanted
    }
}

/// Whether a format may be used: no better than asked for, and published.
pub open spec fn eligible(model: ModelData, opts: Opts, quant: Quant) -> bool {
    quant.rank() >= opts.max_quant.rank() && model.supports_quant(quant)
}

/// The first eligible format, from a place in the hierarchy on, that runs.
pub open spec fn first_fit(model: ModelData, hw: Hardware, opts: Opts, context: u32, rank: nat) -> Option<
    Fit,
>
    decreases 7 - rank,
{
    match Quant::at(rank) {
        None => None,
        Some(q) => {
            let fit = fit_at(model, hw, opts, q, context);
            if rank >= 7 {
                None
            } else if eligible(model, opts, q) && fit.verdict.runs() {
                Some(fit)
            } else {
                first_fit(model, hw, opts, context, rank + 1)
            }
        },
    }
}

/// The best format that fits, at the requested context or at half of it; where
/// none does, the most compressed one, too tight.
pub open spec fn evaluate_spec(model: ModelData, hw: Hardware, opts: Opts) -> Fit {
    let requested = requested_context(model, opts);
    let half = requested / 2;
    match first_fit(model, hw, opts, requested, 0) {
        Some(fit) => fit,
        None => match if half >= 512 {
            first_fit(model, hw, opts, half, 0)
        } else {
            None
        } {
            Some(fit) => fit,
            None => Fit {
                verdict: Verdict::TooTight,
                ..fit_at(model, hw, opts, Quant::Q2K, requested)
            },
        },
    }
}

// --- the figures ------------------------------------------------------------

fn arch_for(model: &Model) -> (r: (u16, u16, u16, KvSource))
    ensures
        r == arch_spec(model@),
{
    if model.has_flag(flags::ARCH_METADATA) && model.num_layers() > 0 && model.num_kv_heads() > 0
        && model.head_dim() > 0 {
        return (
            model.num_layers(),
            model.num_kv_heads(),
            model.head_dim(),
            KvSource::Metadata,
        );
    }
    let pb: Single = model.params_b();
    if pb.le(Single::ratio(6, 10)) {
        (24, 4, 64, KvSource::Estimated)
    } else if pb.le(Single::from_u32(2)) {
        (28, 4, 128, KvSource::Estimated)
    } else if pb.le(Single::from_u32(4)) {
        (32, 8, 128, KvSource::Estimated)
    } else if pb.le(Single::from_u32(9)) {
        (32, 8, 128, KvSource::Estimated)
    } else if pb.le(Single::from_u32(16)) {
        (40, 8, 128, KvSource::Estimated)
    } else if pb.le(Single::from_u32(24)) {
        (48, 8, 128, KvSource::Estimated)
    } else if pb.le(Single::from_u32(40)) {
        (64, 8, 128, KvSource::Estimated)
    } else if pb.le(Single::from_u32(80)) {
        (80, 8, 128, KvSource::Estimated)
    } else {
        (96, 8, 128, KvSource::Estimated)
    }
}

/// The size of the weights in MiB.
pub fn weights_mb(params_m: u32, quant: Quant) -> (r: u32)
    ensures
        r == weights_spec(params_m, quant),
{
    let bytes: Single = Single::from_u32(params_m).times(Single::from_u32(1_000_000)).times(
        quant.bits_per_weight(),
    ).over(Single::from_u32(8));
    bytes.over(mib_exec()).to_u32()
}

fn kv_bytes_per_token(layers: u16, heads: u16, dim: u16, kv: KvQuant) -> (r: Single)
    ensures
        r == token_bytes_spec(layers, heads, dim, kv),
{
    Single::from_u32(2).times(Single::from_u32(layers as u32)).times(
        Single::from_u32(heads as u32),
    ).times(Single::from_u32(dim as u32)).times(kv.bytes_per_element())
}

/// Compute buffers, the graph and allocator slack. The buffers grow with the
/// model and the attention scratch with the context.
fn overhead_mb(weights: u32, context: u32) -> (r: u32)
    ensures
        r == overhead_spec(weights, context),
{
    let buffers: u32 = Single::from_u32(weights).times(Single::ratio(5, 100)).to_u32();
    128u32.saturating_add(buffers).saturating_add(context / 512)
}

fn pure_verdict(ratio: Single) -> (r: Verdict)
    ensures
        r == band_spec(ratio),
{
    if ratio.le(Single::ratio(60, 100)) {
        Verdict::Perfect
    } else if ratio.le(Single::ratio(85, 100)) {
        Verdict::Good
    } else if ratio.le(Single::ratio(98, 100)) {
        Verdict::Marginal
    } else {
        Verdict::TooTight
    }
}

fn cap(level: Verdict, mode: RunMode) -> (r: Verdict)
    ensures
        r == capped_spec(level, mode),
{
    let ceiling: Verdict = mode.verdict_cap();
    if level.level() > ceiling.level() {
        ceiling
    } else {
        level
    }
}

fn place(
    model: &Model,
    hw: &Hardware,
    opts: &Opts,
    w_full: u32,
    w_active: u32,
    kv: u32,
    oh: u32,
) -> (r: (RunMode, u32, u32, u32))
    ensures
        r == placement_spec(model@, *hw, *opts, w_full, w_active, kv, oh),
{
    let ram: u32 = hw.usable_ram_mb();
    let vram: u32 = hw.vram_mb;
    let full: u32 = w_full.saturating_add(kv).saturating_add(oh);
    if hw.backend.is_cpu() || vram == 0 {
        (RunMode::Cpu, ram, full, 0)
    } else if full <= vram {
        (RunMode::Gpu, vram, full, 0)
    } else if hw.unified {
        // One pool: there is nothing to split, only the rest of it to use.
        (RunMode::UnifiedSpill, ram, full, 0)
    } else if model.is_moe() && opts.allow_moe_offload {
        let active: u32 = w_active.saturating_add(kv).saturating_add(oh);
        let parked: u32 = w_full.saturating_sub(w_active);
        if active <= vram && parked <= ram {
            (RunMode::MoeOffload, vram, active, parked)
        } else {
            (RunMode::CpuGpu, vram.saturating_add(ram), full, 0)
        }
    } else {
        (RunMode::CpuGpu, vram.saturating_add(ram), full, 0)
    }
}

/// Set one model against one machine.
///
/// Walks the hierarchy best quality first and takes the first format that
/// fits; where none does, tries again at half the context. When nothing fits it
/// reports the most compressed configuration, too tight, so that it can be seen
/// how far off it is.
pub fn evaluate(model: &Model, hw: &Hardware, opts: &Opts) -> (r: Fit)
    ensures
        r == evaluate_spec(model@, *hw, *opts),
{
    let native: u32 = if model.context_length() == 0 {
        4096
    } else {
        model.context_length()
    };
    let wanted: u32 = match opts.context {
        Some(c) => if c < native {
            c
        } else {
            native
        },
        None => native,
    };
    let requested: u32 = if wanted < 512 {
        512
    } else {
        wanted
    };
    if let Some(fit) = walk(model, hw, opts, requested) {
        return fit;
    }
    let half: u32 = requested / 2;
    if half >= 512 {
        if let Some(fit) = walk(model, hw, opts, half) {
            return fit;
        }
    }
    let mut fit: Fit = evaluate_at(model, hw, opts, Quant::Q2K, requested);
    fit.verdict = Verdict::TooTight;
    fit
}

/// The first eligible format that runs at a context.
fn walk(model: &Model, hw: &Hardware, opts: &Opts, context: u32) -> (r: Option<Fit>)
    ensures
        r == first_fit(model@, *hw, *opts, context, 0),
{
    let hierarchy: [Quant; 7] = Quant::hierarchy();
    let mut i: usize = 0;
    while i < 7
        invariant
            i <= 7,
            forall|k: int| 0 <= k < 7 ==> #[trigger] hierarchy@[k].rank() == k,
            first_fit(model@, *hw, *opts, context, 0) == first_fit(
                model@,
                *hw,
                *opts,
                context,
                i as nat,
            ),
        decreases 7 - i,
    {
        let quant: Quant = hierarchy[i];
        assert(quant.rank() == i);
        assert(Quant::at(i as nat) == Some(quant));
        if quant.code() >= opts.max_quant.code() && model.supports_quant(quant) {
            let fit: Fit = evaluate_at(model, hw, opts, quant, context);
            if fit.verdict.runnable() {
                return Some(fit);
            }
        }
        i = i + 1;
    }
    None
}

/// One model on one machine at one quantization and context.
pub fn evaluate_at(model: &Model, hw: &Hardware, opts: &Opts, quant: Quant, context: u32) -> (r:
    Fit)
    ensures
        r == fit_at(model@, *hw, *opts, quant, context),
{
    proof {
        reveal(fit_at);
    }
    let (layers, heads, dim, kv_source): (u16, u16, u16, KvSource) = arch_for(model);
    let per_token: Single = kv_bytes_per_token(layers, heads, dim, opts.kv_quant);

    let w_full: u32 = weights_mb(model.params_m(), quant);
    let w_active: u32 = weights_mb(model.active_params_m(), quant);
    let kv: u32 = per_token.times(Single::from_u32(context)).over(mib_exec()).to_u32();
    let oh: u32 = overhead_mb(w_full, context);

    let (run_mode, pool, resident, offloaded): (RunMode, u32, u32, u32) = place(
        model,
        hw,
        opts,
        w_full,
        w_active,
        kv,
        oh,
    );
    let ratio: Single = if pool == 0 {
        Single::infinity()
    } else {
        Single::from_u32(resident).over(Single::from_u32(pool))
    };
    let verdict: Verdict = cap(pure_verdict(ratio), run_mode);

    // What is parked elsewhere takes nothing from the pool.
    let weights: u32 = if run_mode == RunMode::MoeOffload {
        w_active
    } else {
        w_full
    };
    let spare: Single = Single::from_u32(pool.saturating_sub(weights.saturating_add(oh))).times(
        mib_exec(),
    );
    let window: u32 = if model.context_length() > 512 {
        model.context_length()
    } else {
        512
    };
    let usable_context: u32 = if Single::from_u32(0).lt(per_token) {
        let room: u32 = spare.over(per_token).to_u32();
        if room < window {
            room
        } else {
            window
        }
    } else {
        context
    };

    Fit {
        verdict,
        run_mode,
        quant,
        memory: MemoryBreakdown {
            weights_mb: weights,
            kv_cache_mb: kv,
            overhead_mb: oh,
            offloaded_mb: offloaded,
            kv_source,
        },
        pool_mb: pool,
        utilization_pctx10: ratio.times(Single::from_u32(1000)).min(
            Single::from_u32(65535),
        ).to_u16(),
        usable_context,
        effective_context: context,
    }
}

// --- laws -------------------------------------------------------------------

/// The verdict follows from how full the pool is and from the run mode, and
/// from nothing else.
pub proof fn law_verdict_follows_utilization(
    m1: ModelData,
    h1: Hardware,
    o1: Opts,
    q1: Quant,
    c1: u32,
    m2: ModelData,
    h2: Hardware,
    o2: Opts,
    q2: Quant,
    c2: u32,
)
    requires
        fit_at(m1, h1, o1, q1, c1).run_mode == fit_at(m2, h2, o2, q2, c2).run_mode,
        fit_at(m1, h1, o1, q1, c1).pool_mb == fit_at(m2, h2, o2, q2, c2).pool_mb,
        fit_at(m1, h1, o1, q1, c1).memory.resident_spec() == fit_at(
            m2,
            h2,
            o2,
            q2,
            c2,
        ).memory.resident_spec(),
    ensures
        fit_at(m1, h1, o1, q1, c1).verdict == fit_at(m2, h2, o2, q2, c2).verdict,
        fit_at(m1, h1, o1, q1, c1).utilization_pctx10 == fit_at(
            m2,
            h2,
            o2,
            q2,
            c2,
        ).utilization_pctx10,
{
    reveal(fit_at);
}

/// Only a model that sits wholly on the accelerator is perfect.
pub proof fn law_perfect_means_on_the_accelerator(model: ModelData, hw: Hardware, opts: Opts)
    ensures
        evaluate_spec(model, hw, opts).verdict == Verdict::Perfect ==> evaluate_spec(
            model,
            hw,
            opts,
        ).run_mode == RunMode::Gpu,
{
    let requested = requested_context(model, opts);
    lemma_first_fit(model, hw, opts, requested, 0);
    lemma_first_fit(model, hw, opts, requested / 2, 0);
}

/// A fit is of the format and context that were asked for, and perfect only on
/// the accelerator.
pub proof fn lemma_fit_at(model: ModelData, hw: Hardware, opts: Opts, quant: Quant, context: u32)
    ensures
        ({
            let fit = fit_at(model, hw, opts, quant, context);
            &&& fit.quant == quant
            &&& fit.effective_context == context
            &&& fit.verdict == Verdict::Perfect ==> fit.run_mode == RunMode::Gpu
        }),
{
    reveal(fit_at);
}

/// What `first_fit` gives: the best eligible format that runs.
pub proof fn lemma_first_fit(model: ModelData, hw: Hardware, opts: Opts, context: u32, rank: nat)
    requires
        rank <= 7,
    ensures
        match first_fit(model, hw, opts, context, rank) {
            Some(fit) => {
                &&& fit == fit_at(model, hw, opts, fit.quant, context)
                &&& eligible(model, opts, fit.quant)
                &&& fit.verdict.runs()
                &&& fit.effective_context == context
                &&& fit.verdict == Verdict::Perfect ==> fit.run_mode == RunMode::Gpu
                &&& fit.quant.rank() >= rank
                &&& forall|q: Quant|
                    rank <= q.rank() < fit.quant.rank() && #[trigger] eligible(model, opts, q)
                        ==> !fit_at(model, hw, opts, q, context).verdict.runs()
            },
            None => forall|q: Quant|
                rank <= q.rank() && #[trigger] eligible(model, opts, q) ==> !fit_at(
                    model,
                    hw,
                    opts,
                    q,
                    context,
                ).verdict.runs(),
        },
    decreases 7 - rank,
{
    if rank < 7 {
        lemma_first_fit(model, hw, opts, context, rank + 1);
        let q = Quant::at(rank).unwrap();
        lemma_fit_at(model, hw, opts, q, context);
        assert(q.rank() == rank);
        assert forall|p: Quant| rank <= p.rank() && p != q implies p.rank() >= rank + 1 by {
            if p.rank() == rank {
                assert(Quant::at(p.rank()) == Some(p));
            }
        }
    }
}

/// Quality is given up last: the format chosen is one that may be used, and
/// every better one that may be used does not run at that context.
pub proof fn law_quality_is_given_up_last(model: ModelData, hw: Hardware, opts: Opts, finer: Quant)
    requires
        evaluate_spec(model, hw, opts).verdict.runs(),
    ensures
        ({
            let fit = evaluate_spec(model, hw, opts);
            &&& eligible(model, opts, fit.quant)
            &&& fit == fit_at(model, hw, opts, fit.quant, fit.effective_context)
            &&& finer.rank() < fit.quant.rank() && eligible(model, opts, finer) ==> !fit_at(
                model,
                hw,
                opts,
                finer,
                fit.effective_context,
            ).verdict.runs()
        }),
{
    let requested = requested_context(model, opts);
    lemma_first_fit(model, hw, opts, requested, 0);
    lemma_first_fit(model, hw, opts, requested / 2, 0);
}

/// The answer is no exactly when no format that may be used runs, neither at
/// the requested context nor at half of it.
pub proof fn law_too_tight_means_nothing_fits(model: ModelData, hw: Hardware, opts: Opts)
    ensures
        ({
            let requested = requested_context(model, opts);
            !evaluate_spec(model, hw, opts).verdict.runs() <==> forall|q: Quant| #[trigger]
                eligible(model, opts, q) ==> {
                    &&& !fit_at(model, hw, opts, q, requested).verdict.runs()
                    &&& requested / 2 >= 512 ==> !fit_at(
                        model,
                        hw,
                        opts,
                        q,
                        requested / 2,
                    ).verdict.runs()
                }
        }),
{
    let requested = requested_context(model, opts);
    lemma_first_fit(model, hw, opts, requested, 0);
    lemma_first_fit(model, hw, opts, requested / 2, 0);
}

/// Full precision is not considered unless it is asked for.
pub proof fn law_formats_above_the_cap_are_never_used(model: ModelData, hw: Hardware, opts: Opts)
    ensures
        evaluate_spec(model, hw, opts).quant.rank() >= opts.max_quant.rank(),
{
    lemma_fit_at(model, hw, opts, Quant::Q2K, requested_context(model, opts));
    let requested = requested_context(model, opts);
    lemma_first_fit(model, hw, opts, requested, 0);
    lemma_first_fit(model, hw, opts, requested / 2, 0);
}

/// What stays in the pool of a fit that runs on the accelerator, and of one
/// with its experts parked, is no more than the accelerator has.
pub proof fn law_accelerator_is_never_overfilled(
    model: ModelData,
    hw: Hardware,
    opts: Opts,
    quant: Quant,
    context: u32,
)
    ensures
        ({
            let fit = fit_at(model, hw, opts, quant, context);
            fit.run_mode == RunMode::Gpu || fit.run_mode == RunMode::MoeOffload ==> {
                &&& fit.pool_mb == hw.vram_mb
                &&& fit.memory.resident_spec() <= hw.vram_mb
                &&& fit.memory.offloaded_mb <= hw.usable_ram()
            }
        }),
{
    reveal(fit_at);
}

/// The weights of a larger model are no smaller, and neither are those of the
/// same model in a wider format.
pub proof fn law_weights_grow(p1: u32, q1: Quant, p2: u32, q2: Quant)
    requires
        p1 <= p2,
        q1.centibits() <= q2.centibits(),
    ensures
        weights_spec(p1, q1) <= weights_spec(p2, q2),
{
    lemma_ordinary(1_000_000, 1);
    lemma_ordinary(8, 1);
    lemma_ordinary(1_048_576, 1);
    lemma_ordinary(q1.centibits(), 100);
    lemma_ordinary(q2.centibits(), 100);
    float::lemma_nearest_monotone(p1 as nat, 1, p2 as nat, 1);
    float::lemma_nearest_monotone(q1.centibits(), 100, q2.centibits(), 100);
    let (million, eight) = (Single::nearest(1_000_000, 1), Single::nearest(8, 1));
    let (a1, a2) = (Single::nearest(p1 as nat, 1), Single::nearest(p2 as nat, 1));
    float::lemma_times_monotone(a1, a2, million, million);
    let (b1, b2) = (a1.mul_spec(million), a2.mul_spec(million));
    float::lemma_times_monotone(b1, b2, q1.bits_spec(), q2.bits_spec());
    let (c1, c2) = (b1.mul_spec(q1.bits_spec()), b2.mul_spec(q2.bits_spec()));
    float::lemma_over_monotone(c1, c2, eight);
    let (d1, d2) = (c1.div_spec(eight), c2.div_spec(eight));
    float::lemma_over_monotone(d1, d2, mib());
    float::lemma_whole_monotone(d1.div_spec(mib()), d2.div_spec(mib()), u32::MAX as nat);
}

/// Numbers of ordinary size are above zero and finite.
proof fn lemma_ordinary(n: nat, d: nat)
    requires
        0 < n <= 0x1_0000_0000,
        0 < d <= 0x1_0000_0000,
    ensures
        Single::nearest(n, d).positive(),
{
    lemma2_to64_rest();
    lemma2_to64();
    lemma_pow2_strictly_increases(32, 100);
    lemma_pow2_strictly_increases(32, 149);
    assert(d <= n * pow2(149) && n <= d * pow2(100)) by (nonlinear_arith)
        requires
            1 <= n <= 0x1_0000_0000,
            1 <= d <= 0x1_0000_0000,
            pow2(149) >= 0x1_0000_0000,
            pow2(100) >= 0x1_0000_0000,
    ;
    float::lemma_nearest_positive(n, d);
}

/// A coarser format never weighs more: the hierarchy is also an order of size.
pub proof fn law_coarser_formats_weigh_less(params_m: u32, fine: Quant, coarse: Quant)
    requires
        fine.rank() <= coarse.rank(),
    ensures
        weights_spec(params_m, coarse) <= weights_spec(params_m, fine),
{
    law_weights_grow(params_m, coarse, params_m, fine);
}

/// A narrower cache element makes no larger a cache, and neither does a shorter
/// context.
pub proof fn law_cache_grows(
    layers: u16,
    heads: u16,
    dim: u16,
    k1: KvQuant,
    c1: u32,
    k2: KvQuant,
    c2: u32,
)
    requires
        layers > 0,
        heads > 0,
        dim > 0,
        0 < c1 <= c2,
        k1.half_bytes() <= k2.half_bytes(),
    ensures
        cache_spec(token_bytes_spec(layers, heads, dim, k1), c1) <= cache_spec(
            token_bytes_spec(layers, heads, dim, k2),
            c2,
        ),
{
    lemma_ordinary(2, 1);
    lemma_ordinary(layers as nat, 1);
    lemma_ordinary(heads as nat, 1);
    lemma_ordinary(dim as nat, 1);
    lemma_ordinary(c1 as nat, 1);
    lemma_ordinary(c2 as nat, 1);
    lemma_ordinary(1_048_576, 1);
    lemma_ordinary(k1.half_bytes(), 2);
    lemma_ordinary(k2.half_bytes(), 2);
    float::lemma_nearest_monotone(k1.half_bytes(), 2, k2.half_bytes(), 2);
    float::lemma_nearest_monotone(c1 as nat, 1, c2 as nat, 1);
    let (l, h, d) = (
        Single::nearest(layers as nat, 1),
        Single::nearest(heads as nat, 1),
        Single::nearest(dim as nat, 1),
    );
    let two = Single::nearest(2, 1);
    float::lemma_times_monotone(two, two, l, l);
    float::lemma_times_monotone(two.mul_spec(l), two.mul_spec(l), h, h);
    let e = two.mul_spec(l).mul_spec(h);
    float::lemma_times_monotone(e, e, d, d);
    let w = e.mul_spec(d);
    float::lemma_times_monotone(w, w, k1.bytes_spec(), k2.bytes_spec());
    let (t1, t2) = (w.mul_spec(k1.bytes_spec()), w.mul_spec(k2.bytes_spec()));
    let (x1, x2) = (Single::nearest(c1 as nat, 1), Single::nearest(c2 as nat, 1));
    float::lemma_times_monotone(t1, t2, x1, x2);
    let (m1, m2) = (t1.mul_spec(x1), t2.mul_spec(x2));
    float::lemma_over_monotone(m1, m2, mib());
    float::lemma_whole_monotone(m1.div_spec(mib()), m2.div_spec(mib()), u32::MAX as nat);
}

/// A fuller pool has no better a verdict.
pub proof fn law_fuller_pools_are_judged_no_better(r1: u32, r2: u32, pool: u32, mode: RunMode)
    requires
        r1 <= r2,
    ensures
        capped_spec(band_spec(ratio_spec(r2, pool)), mode).rank() <= capped_spec(
            band_spec(ratio_spec(r1, pool)),
            mode,
        ).rank(),
{
    if pool > 0 {
        lemma_ordinary(pool as nat, 1);
        float::lemma_nearest_monotone(r1 as nat, 1, r2 as nat, 1);
        float::lemma_over_monotone(
            Single::nearest(r1 as nat, 1),
            Single::nearest(r2 as nat, 1),
            Single::nearest(pool as nat, 1),
        );
    }
}

/// A token of cache takes room: every model has layers and heads.
proof fn lemma_tokens_take_room(model: ModelData, kv: KvQuant)
    ensures
        ({
            let (layers, heads, dim, _) = arch_spec(model);
            Single::nearest(0, 1).below(token_bytes_spec(layers, heads, dim, kv))
        }),
{
    let (layers, heads, dim, _) = arch_spec(model);
    let (l, h, d) = (layers as nat, heads as nat, dim as nat);
    lemma2_to64();
    float::lemma_within_power(2, 1);
    float::lemma_within_power(l, 16);
    float::lemma_within_power(h, 16);
    float::lemma_within_power(d, 16);
    let two = Single::nearest(2, 1);
    let wide = two.mul_spec(Single::nearest(l, 1));
    float::lemma_within_product(two, 1, Single::nearest(l, 1), 16);
    let wider = wide.mul_spec(Single::nearest(h, 1));
    float::lemma_within_product(wide, 17, Single::nearest(h, 1), 16);
    let widest = wider.mul_spec(Single::nearest(d, 1));
    float::lemma_within_product(wider, 33, Single::nearest(d, 1), 16);
    let bytes = kv.bytes_spec();
    float::lemma_exact_integer(1);
    float::lemma_half_positive(kv.half_bytes());
    float::lemma_times_monotone(Single::nearest(1, 1), widest, bytes, bytes);
    float::lemma_zero_rank();
    float::lemma_exact_integer(0);
}

/// The context that is reported is never more than the model has, a short
/// window counting as 512.
pub proof fn law_context_is_not_overstated(
    model: ModelData,
    hw: Hardware,
    opts: Opts,
    quant: Quant,
    context: u32,
)
    ensures
        fit_at(model, hw, opts, quant, context).usable_context <= if model.context_length() > 512 {
            model.context_length()
        } else {
            512
        },
{
    reveal(fit_at);
    lemma_tokens_take_room(model, opts.kv_quant);
}

} // verus!
