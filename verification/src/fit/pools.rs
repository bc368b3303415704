//! Which memory a model runs from, and what is made of how full it is.

use vstd::prelude::*;

use crate::catalog::flags;
use crate::catalog::ModelData;
use crate::fit;
use crate::fit::bands;
use crate::fit::{Opts, RunMode, Verdict};
use crate::float;
use crate::float::about;
use crate::float::Single;
use crate::hardware::{Backend, Hardware};
use crate::quant::Quant;

verus! {

/// The memory of every run mode: the accelerator's for what sits on it, with or
/// without experts parked elsewhere; the accelerator's and what the system
/// leaves of the RAM for what is split; and that part of the RAM alone for what
/// runs on the processor or spills on a unified machine.
pub proof fn law_the_pool_is_that_of_the_run_mode(
    model: ModelData,
    hw: Hardware,
    opts: Opts,
    quant: Quant,
    context: u32,
)
    ensures
        ({
            let fit = fit::fit_at(model, hw, opts, quant, context);
            let ram = if hw.ram_mb >= hw.os_reserve_mb {
                hw.ram_mb - hw.os_reserve_mb
            } else {
                0
            };
            let both = hw.vram_mb + ram;
            match fit.run_mode {
                RunMode::Gpu => fit.pool_mb == hw.vram_mb,
                RunMode::MoeOffload => fit.pool_mb == hw.vram_mb,
                RunMode::CpuGpu => fit.pool_mb == if both <= u32::MAX {
                    both
                } else {
                    u32::MAX as int
                },
                RunMode::Cpu => fit.pool_mb == ram,
                RunMode::UnifiedSpill => fit.pool_mb == ram,
            }
        }),
{
    reveal(fit::fit_at);
}

/// The fastest path that holds a model is taken. Without an accelerator that is
/// the processor. What fits on the accelerator runs there. What does not spills
/// on a unified machine; elsewhere a sparse model parks its idle experts, where
/// that is allowed and both memories hold their part, and all else is split.
/// Only what is parked leaves the pool.
pub proof fn law_the_fastest_path_that_holds_it_is_taken(
    model: ModelData,
    hw: Hardware,
    opts: Opts,
    quant: Quant,
    context: u32,
)
    ensures
        ({
            let fit = fit::fit_at(model, hw, opts, quant, context);
            let m = fit.memory;
            let accelerated = hw.vram_mb > 0 && hw.backend != Backend::CpuArm && hw.backend
                != Backend::CpuX86;
            let ram = if hw.ram_mb >= hw.os_reserve_mb {
                hw.ram_mb - hw.os_reserve_mb
            } else {
                0
            };
            let whole = fit::weights_spec(model.params_m(), quant);
            let active = fit::weights_spec(model.active_params_m(), quant);
            let idle = if whole >= active {
                whole - active
            } else {
                0
            };
            let beside = m.kv_cache_mb + m.overhead_mb;
            let fits = |weights: int|
                weights + beside <= hw.vram_mb || hw.vram_mb == u32::MAX;
            let parks = model.flags() & 1 != 0 && opts.allow_moe_offload && fits(active as int)
                && idle <= ram;
            &&& fit.run_mode == RunMode::Cpu <==> !accelerated
            &&& fit.run_mode == RunMode::Gpu <==> accelerated && fits(whole as int)
            &&& fit.run_mode == RunMode::UnifiedSpill <==> accelerated && !fits(whole as int)
                && hw.unified
            &&& fit.run_mode == RunMode::MoeOffload <==> accelerated && !fits(whole as int)
                && !hw.unified && parks
            &&& fit.run_mode == RunMode::CpuGpu <==> accelerated && !fits(whole as int)
                && !hw.unified && !parks
            &&& if fit.run_mode == RunMode::MoeOffload {
                m.weights_mb == active && m.offloaded_mb == idle
            } else {
                m.weights_mb == whole && m.offloaded_mb == 0
            }
        }),
{
    reveal(fit::fit_at);
    assert(flags::MOE == 1);
}

/// The verdict goes by the percentage of the pool that is taken: up to 60 is
/// perfect, up to 85 good, up to 98 marginal, and more is too tight. Off the
/// accelerator nothing is better than good, and an empty pool holds nothing.
pub proof fn law_the_verdict_goes_by_the_percentage(
    model: ModelData,
    hw: Hardware,
    opts: Opts,
    quant: Quant,
    context: u32,
)
    ensures
        ({
            let fit = fit::fit_at(model, hw, opts, quant, context);
            let m = fit.memory;
            let taken = m.weights_mb + m.kv_cache_mb + m.overhead_mb;
            let (n, pool) = (100 * taken, fit.pool_mb);
            let on_accelerator = fit.run_mode == RunMode::Gpu;
            &&& pool == 0 ==> fit.verdict == Verdict::TooTight
            &&& 0 < pool <= 409_200 ==> fit.verdict == if n <= 60 * pool && on_accelerator {
                Verdict::Perfect
            } else if n <= 85 * pool {
                Verdict::Good
            } else if n <= 98 * pool {
                Verdict::Marginal
            } else {
                Verdict::TooTight
            }
            &&& 0 < pool < 0x100_0000 && n <= 98 * pool ==> fit.verdict != Verdict::TooTight
        }),
{
    reveal(fit::fit_at);
    let fit = fit::fit_at(model, hw, opts, quant, context);
    let (r, pool) = (fit.memory.resident_spec(), fit.pool_mb);
    if pool == 0 {
        lemma_nothing_holds_nothing(60);
        lemma_nothing_holds_nothing(85);
        lemma_nothing_holds_nothing(98);
    }
    if 0 < pool <= 409_200 {
        bands::law_bands_are_percentages(r, pool);
    }
    if 0 < pool < 0x100_0000 && 100 * r <= 98 * pool {
        float::lemma_count_ratio(r as nat, pool as nat);
        float::lemma_nearest_monotone(r as nat, pool as nat, 98, 100);
    }
}

/// No limit is infinite.
proof fn lemma_nothing_holds_nothing(percent: nat)
    requires
        percent < 100,
    ensures
        ({
            let endless = Single { bits: 0x7f80_0000 };
            !endless.upto(Single::nearest(percent, 100))
        }),
{
    about::lemma_ratio(percent, 100);
    crate::rounding::lemma_formats();
    assert(crate::rounding::infinity(float::single()) == 255
        * vstd::arithmetic::power2::pow2(23));
}

/// A model that takes no more than 98 percent of the accelerator's memory and
/// the free RAM together runs, on a machine that has both apart.
pub proof fn law_two_memories_hold_what_they_hold_together(
    model: ModelData,
    hw: Hardware,
    opts: Opts,
    quant: Quant,
    context: u32,
)
    requires
        fit::fit_at(model, hw, opts, quant, context).run_mode == RunMode::CpuGpu,
        hw.ram_mb >= hw.os_reserve_mb,
        hw.vram_mb + hw.ram_mb - hw.os_reserve_mb < 0x100_0000,
        ({
            let m = fit::fit_at(model, hw, opts, quant, context).memory;
            100 * (m.weights_mb + m.kv_cache_mb + m.overhead_mb) <= 98 * (hw.vram_mb + hw.ram_mb
                - hw.os_reserve_mb)
        }),
    ensures
        fit::fit_at(model, hw, opts, quant, context).verdict != Verdict::TooTight,
{
    law_the_pool_is_that_of_the_run_mode(model, hw, opts, quant, context);
    law_the_fastest_path_that_holds_it_is_taken(model, hw, opts, quant, context);
    law_the_verdict_goes_by_the_percentage(model, hw, opts, quant, context);
}

/// The share that is shown is a thousand times what is taken over the pool, cut
/// to a whole number.
pub proof fn law_the_share_that_is_shown(
    model: ModelData,
    hw: Hardware,
    opts: Opts,
    quant: Quant,
    context: u32,
)
    requires
        fit::fit_at(model, hw, opts, quant, context).pool_mb > 0,
    ensures
        ({
            let fit = fit::fit_at(model, hw, opts, quant, context);
            let m = fit.memory;
            let taken = m.weights_mb + m.kv_cache_mb + m.overhead_mb;
            taken <= u32::MAX ==> about::cut(
                fit.utilization_pctx10 as int,
                1000 * taken,
                fit.pool_mb as int,
                9,
                65_535,
            )
        }),
{
    reveal(fit::fit_at);
    let fit = fit::fit_at(model, hw, opts, quant, context);
    let (r, p) = (fit.memory.resident_spec(), fit.pool_mb);
    let (a, b) = (Single::nearest(r as nat, 1), Single::nearest(p as nat, 1));
    let q = a.div_spec(b);
    about::lemma_ratio(r as nat, 1);
    about::lemma_ratio(p as nat, 1);
    about::lemma_wide(r * 1, 1 * p);
    about::lemma_over(a, r as int, 1, 1, b, p as int, 1, 1);
    about::lemma_exact(1000);
    about::lemma_wide(r * 1000, p * 1);
    about::lemma_times(q, r as int, p as int, 6, Single::nearest(1000, 1), 1000, 1, 0);
    let raw = q.mul_spec(Single::nearest(1000, 1));
    about::lemma_held_cut(raw, r * 1000, p as int, 9, 65_535);
}

/// A shorter context than asked for is only fallen back on where no format that
/// may be used runs at the one asked for. That is the native window, 4096 where
/// none is known, or what the caller caps it to, and at least 512; the fallback
/// is half of it.
pub proof fn law_context_is_given_up_after_formats(model: ModelData, hw: Hardware, opts: Opts)
    ensures
        ({
            let fit = fit::evaluate_spec(model, hw, opts);
            let native = if model.context_length() == 0 {
                4096
            } else {
                model.context_length() as int
            };
            let capped = match opts.context {
                Some(c) => if c < native {
                    c as int
                } else {
                    native
                },
                None => native,
            };
            let asked = if capped < 512 {
                512
            } else {
                capped
            };
            &&& fit.effective_context == asked || fit.effective_context == asked / 2
            &&& fit.effective_context != asked ==> {
                &&& asked >= 1024
                &&& fit.verdict != Verdict::TooTight
                &&& forall|q: Quant|
                    q.rank() >= opts.max_quant.rank() && #[trigger] model.supports_quant(q)
                        ==> fit::fit_at(model, hw, opts, q, asked as u32).verdict
                        == Verdict::TooTight
            }
        }),
{
    let requested = fit::requested_context(model, opts);
    fit::lemma_first_fit(model, hw, opts, requested, 0);
    fit::lemma_first_fit(model, hw, opts, requested / 2, 0);
    fit::lemma_fit_at(model, hw, opts, Quant::Q2K, requested);
    let fit = fit::evaluate_spec(model, hw, opts);
    if fit.effective_context != requested {
        assert forall|q: Quant|
            q.rank() >= opts.max_quant.rank() && #[trigger] model.supports_quant(q) implies
            fit::fit_at(model, hw, opts, q, requested).verdict == Verdict::TooTight by {
            assert(fit::eligible(model, opts, q));
        }
    }
}

} // verus!
