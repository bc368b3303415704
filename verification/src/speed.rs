//! Throughput.
//!
//! Decoding and prompt processing are bound by different things and estimated
//! apart. Decoding reads every resident weight once per token, so it is bytes
//! moved over memory bandwidth, derated for what a real kernel reaches. Prompt
//! processing is bound by compute, about two operations per active parameter and
//! token, so it is estimated from matrix throughput or not at all: an unknown
//! figure is `None`, which is not the same as zero.

use vstd::prelude::*;

use crate::catalog::{Catalog, CatalogData, Measurement, Model, ModelData};
use crate::fit::{Fit, RunMode};
use crate::float::Single;
use crate::hardware::{BandwidthSource, Hardware};
use crate::quant::Quant;

pub mod figures;
pub mod rescale;
pub mod split;

verus! {

/// How a throughput was arrived at, best first. It travels with every figure:
/// a measurement and a formula are both in tokens per second, and must not be
/// shown as if they were alike.
#[derive(Clone, Copy, PartialEq, Eq, Structural, PartialOrd, Ord, Debug)]
pub enum EstimateMethod {
    /// Somebody ran this model, in this format, on this hardware.
    Measured,
    /// Measured on this hardware in another format and rescaled by the change
    /// in bytes.
    MeasuredAdjusted,
    /// The formula, scaled by how far off it was on this hardware before.
    Calibrated,
    /// Bytes moved over real bandwidth, with nothing measured behind it.
    Roofline,
    /// Not even a bandwidth is known; an order of magnitude.
    BackendConstant,
}

impl EstimateMethod {
    pub open spec fn name_spec(self) -> &'static str {
        match self {
            EstimateMethod::Measured => "measured",
            EstimateMethod::MeasuredAdjusted => "measured-adjusted",
            EstimateMethod::Calibrated => "calibrated",
            EstimateMethod::Roofline => "roofline",
            EstimateMethod::BackendConstant => "backend-constant",
        }
    }

    pub fn name(self) -> (r: &'static str)
        ensures
            r@ == self.name_spec()@,
    {
        match self {
            EstimateMethod::Measured => "measured",
            EstimateMethod::MeasuredAdjusted => "measured-adjusted",
            EstimateMethod::Calibrated => "calibrated",
            EstimateMethod::Roofline => "roofline",
            EstimateMethod::BackendConstant => "backend-constant",
        }
    }

    /// Whether the number came from hardware rather than from arithmetic.
    pub fn is_measured(self) -> (r: bool)
        ensures
            r == (self == EstimateMethod::Measured),
    {
        matches!(self, EstimateMethod::Measured)
    }
}

/// Everything needed to work a throughput out by hand.
#[derive(Clone, Copy, Debug)]
pub struct Speed {
    /// Decode throughput in tenths of a token per second.
    pub decode_tps_x10: u32,
    /// Prompt throughput in tenths of a token per second, where it is known.
    pub prefill_tps_x10: Option<u32>,
    /// Milliseconds to the first token of a prompt that fills the context.
    pub ttft_ms: Option<u32>,
    pub method: EstimateMethod,
    /// The bandwidth that was used, GB/s.
    pub bandwidth_gbps: u16,
    pub bandwidth_source: BandwidthSource,
    pub efficiency: Single,
    /// The measurement behind the figure, where there is one.
    pub measurement: Option<Measurement>,
    /// The correction factor that was applied, and how many measurements it is
    /// from.
    pub calibration: Option<(Single, u8)>,
}

impl Speed {
    /// Whole tokens per second.
    pub fn decode_tps(&self) -> (r: u32)
        ensures
            r == self.decode_tps_x10 / 10,
    {
        self.decode_tps_x10 / 10
    }
}

// --- what the figures are ---------------------------------------------------

pub open spec fn zero() -> Single {
    Single::nearest(0, 1)
}

pub open spec fn one() -> Single {
    Single::nearest(1, 1)
}

/// Bytes read to produce one token: the weights, and half of the cache.
pub open spec fn traffic_spec(fit: Fit) -> Single {
    let mib = Single::nearest(1_048_576, 1);
    Single::nearest(fit.memory.weights_mb as nat, 1).mul_spec(mib).add_spec(
        Single::nearest(fit.memory.kv_cache_mb as nat, 1).mul_spec(mib).mul_spec(
            Single::nearest(5, 10),
        ),
    )
}

/// The bandwidth of the memory that traffic comes from; zero where it is not
/// known.
pub open spec fn bandwidth_spec(hw: Hardware, fit: Fit) -> Single {
    let gpu = hw.gpu_bandwidth_spec().0;
    let ram = hw.ram_bandwidth_spec();
    let known = zero().below(gpu);
    match fit.run_mode {
        RunMode::Cpu | RunMode::UnifiedSpill => ram,
        RunMode::Gpu => if known {
            gpu
        } else {
            zero()
        },
        RunMode::MoeOffload => if known {
            gpu.mul_spec(Single::nearest(85, 100)).add_spec(
                ram.mul_spec(Single::nearest(15, 100)),
            )
        } else {
            zero()
        },
        RunMode::CpuGpu => {
            let total = Single::nearest(fit.memory.resident_spec() as nat, 1);
            if total.upto(zero()) || gpu.upto(zero()) {
                ram
            } else {
                let share = Single::nearest(hw.vram_mb as nat, 1).div_spec(total).min_spec(one());
                let rest = one().sub_spec(share);
                one().div_spec(share.div_spec(gpu).add_spec(rest.div_spec(ram)))
            }
        },
    }
}

/// Tokens per second of a bandwidth, in tenths.
pub open spec fn roofline_spec(bandwidth: Single, traffic: Single, efficiency: Single) -> u32 {
    bandwidth.mul_spec(Single::nearest(1_000_000_000, 1)).div_spec(traffic).mul_spec(
        efficiency,
    ).mul_spec(Single::nearest(10, 1)).whole(u32::MAX as nat) as u32
}

/// Tokens per second of a backend of which nothing else is known, in tenths.
pub open spec fn constant_spec(model: ModelData, hw: Hardware, fit: Fit) -> u32 {
    let pb = model.active_params_b().max_spec(Single::nearest(5, 100));
    hw.backend.fallback_spec().div_spec(pb).mul_spec(fit.quant.speed_spec()).mul_spec(
        Single::nearest(10, 1),
    ).whole(u32::MAX as nat) as u32
}

/// Prompt tokens per second.
pub open spec fn prefill_spec(model: ModelData, hw: Hardware) -> Single {
    let tflops = Single::nearest(hw.tflops_fp16_x10 as nat, 1).div_spec(Single::nearest(10, 1));
    tflops.mul_spec(Single::nearest(1_000_000_000_000, 1)).div_spec(
        token_flops_spec(model),
    ).mul_spec(Single::nearest(35, 100))
}

/// Operations per prompt token.
pub open spec fn token_flops_spec(model: ModelData) -> Single {
    Single::nearest(2, 1).mul_spec(Single::nearest(model.active_params_m() as nat, 1)).mul_spec(
        Single::nearest(1_000_000, 1),
    )
}

/// The formula alone.
pub open spec fn estimate_spec(model: ModelData, hw: Hardware, fit: Fit, efficiency: Single) -> Speed {
    let bandwidth = bandwidth_spec(hw, fit);
    let traffic = traffic_spec(fit);
    let moves = zero().below(bandwidth) && zero().below(traffic);
    let prompts = hw.tflops_fp16_x10 > 0 && zero().below(token_flops_spec(model));
    let prefill = prefill_spec(model, hw);
    Speed {
        decode_tps_x10: if moves {
            roofline_spec(bandwidth, traffic, efficiency)
        } else {
            constant_spec(model, hw, fit)
        },
        prefill_tps_x10: if prompts {
            Some(prefill.mul_spec(Single::nearest(10, 1)).whole(u32::MAX as nat) as u32)
        } else {
            None
        },
        ttft_ms: if !prompts {
            None
        } else if zero().below(prefill) {
            Some(
                Single::nearest(fit.effective_context as nat, 1).div_spec(prefill).mul_spec(
                    Single::nearest(1000, 1),
                ).whole(u32::MAX as nat) as u32,
            )
        } else {
            Some(0)
        },
        method: if moves {
            EstimateMethod::Roofline
        } else {
            EstimateMethod::BackendConstant
        },
        bandwidth_gbps: bandwidth.whole(u16::MAX as nat) as u16,
        bandwidth_source: if zero().below(bandwidth) {
            hw.gpu_bandwidth_spec().1
        } else {
            BandwidthSource::BackendConstant
        },
        efficiency,
        measurement: None,
        calibration: None,
    }
}

/// A measured throughput moved to another format by the bytes it reads.
pub open spec fn rescaled_spec(tps_x10: u16, from: Quant, to: Quant) -> u32 {
    Single::nearest(tps_x10 as nat, 1).mul_spec(from.bits_spec().div_spec(to.bits_spec())).whole(
        u32::MAX as nat,
    ) as u32
}

/// What a measurement of this very pairing makes of an estimate.
pub open spec fn with_measurement(speed: Speed, fit: Fit, m: Measurement) -> Speed {
    match m.quant {
        Some(q) if q == fit.quant => Speed {
            measurement: Some(m),
            decode_tps_x10: m.tps_x10 as u32,
            method: EstimateMethod::Measured,
            ..speed
        },
        Some(q) => Speed {
            measurement: Some(m),
            decode_tps_x10: rescaled_spec(m.tps_x10, q, fit.quant),
            method: EstimateMethod::MeasuredAdjusted,
            ..speed
        },
        None => Speed { measurement: Some(m), ..speed },
    }
}

/// What a correction factor makes of an estimate.
pub open spec fn with_calibration(speed: Speed, factor: Single, samples: u8) -> Speed {
    Speed {
        decode_tps_x10: Single::nearest(speed.decode_tps_x10 as nat, 1).mul_spec(factor).whole(
            u32::MAX as nat,
        ) as u32,
        method: EstimateMethod::Calibrated,
        calibration: Some((factor, samples)),
        ttft_ms: match speed.ttft_ms {
            Some(t) => Some(
                Single::nearest(t as nat, 1).div_spec(
                    factor.max_spec(Single::nearest(5, 100)),
                ).whole(u32::MAX as nat) as u32,
            ),
            None => None,
        },
        ..speed
    }
}

/// The formula, then what is known of this hardware: a measurement of the
/// pairing, or else a correction factor. They are never blended.
pub open spec fn informed_spec(
    catalog: CatalogData,
    model: ModelData,
    hw: Hardware,
    fit: Fit,
    efficiency: Single,
) -> Speed {
    let plain = estimate_spec(model, hw, fit, efficiency);
    let seen = match catalog.measurement(hw.hw_key, model.index as u32) {
        Some(m) => with_measurement(plain, fit, m),
        None => plain,
    };
    match catalog.calibration(hw.hw_key) {
        Some((factor, samples)) if seen.method == EstimateMethod::Roofline => with_calibration(
            seen,
            factor,
            samples,
        ),
        _ => seen,
    }
}

// --- the figures ------------------------------------------------------------

/// Throughput of a model on a machine, by the best that is known: a measurement
/// of exactly this; the formula scaled by how wrong it has been on this
/// hardware; the formula; a constant of the backend.
pub fn estimate_with_catalog(
    catalog: &Catalog<'_>,
    model: &Model,
    hw: &Hardware,
    fit: &Fit,
    efficiency: Single,
) -> (r: Speed)
    ensures
        r == informed_spec(catalog@, model@, *hw, *fit, efficiency),
{
    let mut speed: Speed = estimate(model, hw, fit, efficiency);
    if let Some(m) = catalog.measurement(hw.hw_key, model.index()) {
        speed.measurement = Some(m);
        match m.quant {
            Some(q) => if q == fit.quant {
                speed.decode_tps_x10 = m.tps_x10 as u32;
                speed.method = EstimateMethod::Measured;
            } else {
                let ratio: Single = q.bits_per_weight().over(fit.quant.bits_per_weight());
                speed.decode_tps_x10 = Single::from_u32(m.tps_x10 as u32).times(ratio).to_u32();
                speed.method = EstimateMethod::MeasuredAdjusted;
            },
            None => {},
        }
    }
    // The recorded time to first token belongs to a prompt whose length nobody
    // wrote down, so the formula's own figure stays.
    if speed.method == EstimateMethod::Roofline {
        if let Some((factor, samples)) = catalog.calibration(hw.hw_key) {
            speed.decode_tps_x10 = Single::from_u32(speed.decode_tps_x10).times(factor).to_u32();
            speed.method = EstimateMethod::Calibrated;
            speed.calibration = Some((factor, samples));
            if let Some(t) = speed.ttft_ms {
                speed.ttft_ms = Some(
                    Single::from_u32(t).over(factor.max(Single::ratio(5, 100))).to_u32(),
                );
            }
        }
    }
    speed
}

fn traffic(fit: &Fit) -> (r: Single)
    ensures
        r == traffic_spec(*fit),
{
    let mib: Single = Single::from_u32(1_048_576);
    Single::from_u32(fit.memory.weights_mb).times(mib).plus(
        Single::from_u32(fit.memory.kv_cache_mb).times(mib).times(Single::ratio(5, 10)),
    )
}

fn bandwidth(hw: &Hardware, fit: &Fit) -> (r: Single)
    ensures
        r == bandwidth_spec(*hw, *fit),
{
    let none: Single = Single::from_u32(0);
    let (gpu, _): (Single, BandwidthSource) = hw.resolve_gpu_bandwidth();
    let ram: Single = hw.effective_ram_bandwidth();
    let known: bool = none.lt(gpu);
    match fit.run_mode {
        // Both read system memory, which on a unified machine is the fast pool.
        RunMode::Cpu | RunMode::UnifiedSpill => ram,
        RunMode::Gpu => if known {
            gpu
        } else {
            none
        },
        RunMode::MoeOffload => if known {
            // The active experts are resident; the router still misses to RAM.
            gpu.times(Single::ratio(85, 100)).plus(ram.times(Single::ratio(15, 100)))
        } else {
            none
        },
        RunMode::CpuGpu => {
            // The layers are walked in order, so the slow pool dominates.
            let total: Single = Single::from_u32(fit.memory.resident_mb());
            if total.le(none) || gpu.le(none) {
                ram
            } else {
                let one: Single = Single::from_u32(1);
                let share: Single = Single::from_u32(hw.vram_mb).over(total).min(one);
                let rest: Single = one.minus(share);
                one.over(share.over(gpu).plus(rest.over(ram)))
            }
        },
    }
}

/// The formula alone, for callers that want it unadjusted.
pub fn estimate(model: &Model, hw: &Hardware, fit: &Fit, efficiency: Single) -> (r: Speed)
    ensures
        r == estimate_spec(model@, *hw, *fit, efficiency),
{
    let none: Single = Single::from_u32(0);
    let ten: Single = Single::from_u32(10);
    let (_, source): (Single, BandwidthSource) = hw.resolve_gpu_bandwidth();
    let traffic: Single = traffic(fit);
    let bandwidth: Single = bandwidth(hw, fit);

    let (decode, method): (u32, EstimateMethod) = if none.lt(bandwidth) && none.lt(traffic) {
        let tps: Single = bandwidth.times(Single::from_u32(1_000_000_000)).over(traffic).times(
            efficiency,
        );
        (tps.times(ten).to_u32(), EstimateMethod::Roofline)
    } else {
        let pb: Single = model.active_params_b().max(Single::ratio(5, 100));
        let tps: Single = hw.backend.fallback_k().over(pb).times(fit.quant.speed_multiplier());
        (tps.times(ten).to_u32(), EstimateMethod::BackendConstant)
    };

    let flops: Single = Single::from_u32(2).times(
        Single::from_u32(model.active_params_m()),
    ).times(Single::from_u32(1_000_000));
    let (prefill, ttft): (Option<u32>, Option<u32>) = if hw.tflops_fp16_x10 > 0 && none.lt(flops) {
        let tflops: Single = Single::from_u32(hw.tflops_fp16_x10 as u32).over(ten);
        // A dense product sustains more of the peak than decoding does.
        let tps: Single = tflops.times(Single::from_u64(1_000_000_000_000)).over(flops).times(
            Single::ratio(35, 100),
        );
        let ms: u32 = if none.lt(tps) {
            Single::from_u32(fit.effective_context).over(tps).times(
                Single::from_u32(1000),
            ).to_u32()
        } else {
            0
        };
        (Some(tps.times(ten).to_u32()), Some(ms))
    } else {
        (None, None)
    };

    Speed {
        decode_tps_x10: decode,
        prefill_tps_x10: prefill,
        ttft_ms: ttft,
        method,
        bandwidth_gbps: bandwidth.to_u16(),
        bandwidth_source: if none.lt(bandwidth) {
            source
        } else {
            BandwidthSource::BackendConstant
        },
        efficiency,
        measurement: None,
        calibration: None,
    }
}

// --- laws -------------------------------------------------------------------

/// A measurement in the format that is shown is reported as it is, never
/// averaged with the formula.
pub proof fn law_measurements_are_reported_as_they_are(
    catalog: CatalogData,
    model: ModelData,
    hw: Hardware,
    fit: Fit,
    efficiency: Single,
    m: Measurement,
)
    requires
        catalog.measurement(hw.hw_key, model.index as u32) == Some(m),
        m.quant == Some(fit.quant),
    ensures
        ({
            let speed = informed_spec(catalog, model, hw, fit, efficiency);
            &&& speed.method == EstimateMethod::Measured
            &&& speed.decode_tps_x10 == m.tps_x10
            &&& speed.measurement == Some(m)
            &&& speed.calibration is None
            &&& speed.ttft_ms == estimate_spec(model, hw, fit, efficiency).ttft_ms
            &&& speed.prefill_tps_x10 == estimate_spec(model, hw, fit, efficiency).prefill_tps_x10
        }),
{
}

/// A measurement in another format is rescaled by the bits per weight and says
/// so; what was observed stays beside it. The figure is the exact product, cut to
/// a whole number, wherever that product does not all but hit one, and within
/// one of it where it does.
pub proof fn law_other_formats_are_rescaled_and_relabelled(
    catalog: CatalogData,
    model: ModelData,
    hw: Hardware,
    fit: Fit,
    efficiency: Single,
    m: Measurement,
    q: Quant,
)
    requires
        catalog.measurement(hw.hw_key, model.index as u32) == Some(m),
        m.quant == Some(q),
        q != fit.quant,
    ensures
        ({
            let speed = informed_spec(catalog, model, hw, fit, efficiency);
            let (n, d) = ((m.tps_x10 * q.centibits()) as nat, fit.quant.centibits());
            let (tps, exact, rest) = (speed.decode_tps_x10, n / d, n % d);
            &&& speed.method == EstimateMethod::MeasuredAdjusted
            &&& tps == rescaled_spec(m.tps_x10, q, fit.quant)
            &&& exact - 1 <= tps <= exact + 1
            &&& n <= rest * 0x20_0000 && n < (d - rest) * 0x20_0000 ==> tps == exact
            &&& speed.measurement == Some(m)
            &&& speed.ttft_ms == estimate_spec(model, hw, fit, efficiency).ttft_ms
            &&& speed.prefill_tps_x10 == estimate_spec(model, hw, fit, efficiency).prefill_tps_x10
            &&& speed.calibration is None
        }),
{
    rescale::law_rescaling_goes_by_the_bits(m.tps_x10, q, fit.quant);
}

/// A unified machine has one memory: what spills past the accelerator's share is
/// estimated at the bandwidth of the part, unless another was stated for RAM.
pub proof fn law_unified_spills_run_at_the_bandwidth_of_the_part(hw: Hardware, fit: Fit)
    requires
        hw.unified,
        hw.ram_bandwidth_gbps == 0,
        fit.run_mode == RunMode::UnifiedSpill,
    ensures
        bandwidth_spec(hw, fit) == hw.gpu_bandwidth_spec().0,
{
}

/// A machine that was never identified is given the formula and nothing else.
pub proof fn law_unidentified_machines_get_the_formula(
    catalog: CatalogData,
    model: ModelData,
    hw: Hardware,
    fit: Fit,
    efficiency: Single,
)
    requires
        hw.hw_key == 0,
    ensures
        informed_spec(catalog, model, hw, fit, efficiency) == estimate_spec(
            model,
            hw,
            fit,
            efficiency,
        ),
{
}

/// A figure that claims to be measured, adjusted or calibrated has what it
/// claims behind it; one that does not has nothing.
pub proof fn law_every_claim_has_its_source(
    catalog: CatalogData,
    model: ModelData,
    hw: Hardware,
    fit: Fit,
    efficiency: Single,
)
    ensures
        ({
            let speed = informed_spec(catalog, model, hw, fit, efficiency);
            &&& speed.method == EstimateMethod::Measured || speed.method
                == EstimateMethod::MeasuredAdjusted ==> speed.measurement is Some
            &&& speed.method == EstimateMethod::Calibrated <==> speed.calibration is Some
            &&& speed.measurement == catalog.measurement(hw.hw_key, model.index as u32)
        }),
{
}

/// Without a matrix throughput nothing is said of prompts.
pub proof fn law_prompts_are_not_guessed(
    catalog: CatalogData,
    model: ModelData,
    hw: Hardware,
    fit: Fit,
    efficiency: Single,
)
    requires
        hw.tflops_fp16_x10 == 0,
    ensures
        informed_spec(catalog, model, hw, fit, efficiency).prefill_tps_x10 is None,
        informed_spec(catalog, model, hw, fit, efficiency).ttft_ms is None,
{
}

} // verus!
