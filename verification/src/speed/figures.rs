//! The figures of an estimate, as exact fractions that were rounded and cut.

use vstd::arithmetic::power2::*;
use vstd::prelude::*;

use crate::catalog::{CatalogData, ModelData};
use crate::fit::{Fit, RunMode};
use crate::float;
use crate::float::about;
use crate::float::Single;
use crate::hardware::{Backend, BandwidthSource, Hardware};
use crate::quant::Quant;
use crate::speed;
use crate::speed::split;
use crate::speed::{EstimateMethod, Speed};

verus! {

/// The bandwidth is that of the memory that is read, in tenths of a GB/s: what
/// the machine states for it, the accelerator's for the RAM of a unified machine
/// and the other way round, and otherwise 100 GB/s for a unified machine, 51.2
/// for the RAM of another, and nothing for its accelerator. With experts parked,
/// 15 percent of the reads go to RAM.
pub proof fn law_the_bandwidth_is_that_of_the_memory(hw: Hardware, fit: Fit)
    ensures
        ({
            let b = speed::bandwidth_spec(hw, fit);
            let (gpu, ram) = (10 * hw.gpu_bandwidth_gbps, 10 * hw.ram_bandwidth_gbps);
            let r = if ram > 0 {
                ram
            } else if hw.unified && gpu > 0 {
                gpu
            } else if hw.unified {
                1000
            } else {
                512
            };
            let g = if gpu > 0 {
                gpu
            } else if hw.unified {
                r
            } else {
                0
            };
            match fit.run_mode {
                RunMode::Cpu => about::about(b, r, 10, 1),
                RunMode::UnifiedSpill => about::about(b, r, 10, 1),
                RunMode::Gpu => about::about(b, g, 10, 1),
                RunMode::MoeOffload => if g == 0 {
                    float::worth(b) == 0
                } else {
                    about::about(b, 85 * g + 15 * r, 1000, 7)
                },
                RunMode::CpuGpu => g == 0 ==> about::about(b, r, 10, 1),
            }
        }),
{
    let (gpu, ram) = (10 * hw.gpu_bandwidth_gbps, 10 * hw.ram_bandwidth_gbps);
    let r = if ram > 0 {
        ram
    } else if hw.unified && gpu > 0 {
        gpu
    } else if hw.unified {
        1000
    } else {
        512
    };
    let g = if gpu > 0 {
        gpu
    } else if hw.unified {
        r
    } else {
        0
    };
    let (x, y) = (hw.gpu_bandwidth_spec().0, hw.ram_bandwidth_spec());
    split::lemma_stated(hw);
    about::lemma_exact(0);
    about::lemma_wider(Single::nearest(0, 1), 0, 1, 0, 1);
    about::lemma_expanded(Single::nearest(0, 1), 0, 1, 10, 1);
    assert(about::about(x, g, 10, 1));
    assert(about::about(y, r, 10, 1));
    float::lemma_zero_rank();
    float::lemma_exact_integer(0);
    if g > 0 {
        about::lemma_above(x, g, 10, 1);
        let (p, q) = (Single::nearest(85, 100), Single::nearest(15, 100));
        about::lemma_ratio(85, 100);
        about::lemma_ratio(15, 100);
        about::lemma_wide(g * 85, 1000);
        about::lemma_times(x, g, 10, 1, p, 85, 100, 1);
        about::lemma_wide(r * 15, 1000);
        about::lemma_times(y, r, 10, 1, q, 15, 100, 1);
        about::lemma_wide(g * 85 + r * 15, 1000);
        about::lemma_plus(x.mul_spec(p), g * 85, y.mul_spec(q), r * 15, 1000, 5);
    } else {
        assert(x == Single::nearest(0, 1));
    }
}

/// A known bandwidth lies between half a GB/s and twice the largest that can be
/// stated.
proof fn lemma_bandwidth_size(hw: Hardware, fit: Fit)
    ensures
        ({
            let b = speed::bandwidth_spec(hw, fit);
            let (w, u) = (float::worth(b), pow2(149) as int);
            &&& b.value() is Finite
            &&& !b.neg()
            &&& w >= 0
            &&& w > 0 <==> Single::nearest(0, 1).below(b)
            &&& w > 0 ==> u <= 2 * w && w <= 131_070 * u
        }),
{
    let b = speed::bandwidth_spec(hw, fit);
    let (w, u) = (float::worth(b), pow2(149) as int);
    let (gpu, ram) = (10 * hw.gpu_bandwidth_gbps, 10 * hw.ram_bandwidth_gbps);
    let r = if ram > 0 {
        ram
    } else if hw.unified && gpu > 0 {
        gpu
    } else if hw.unified {
        1000
    } else {
        512
    };
    let g = if gpu > 0 {
        gpu
    } else if hw.unified {
        r
    } else {
        0
    };
    lemma_pow2_pos(149);
    law_the_bandwidth_is_that_of_the_memory(hw, fit);
    split::lemma_stated(hw);
    float::lemma_zero_rank();
    float::lemma_exact_integer(0);
    about::lemma_exact(0);
    let none = Single::nearest(0, 1);
    let (x, y) = (hw.gpu_bandwidth_spec().0, hw.ram_bandwidth_spec());
    if fit.run_mode == RunMode::CpuGpu && g > 0 && fit.memory.resident_spec() > 0 {
        about::lemma_above(x, g, 10, 1);
        split::lemma_split_size(hw, fit, x, g, y, r);
        about::lemma_ratio(fit.memory.resident_spec() as nat, 1);
        about::lemma_above(
            Single::nearest(fit.memory.resident_spec() as nat, 1),
            fit.memory.resident_spec() as int,
            1,
            1,
        );
    } else if fit.run_mode == RunMode::MoeOffload && g > 0 {
        let n = 85 * g + 15 * r;
        about::lemma_above(b, n, 1000, 7);
        lemma_sized(w, n, 1000, 7, u);
    } else if fit.run_mode == RunMode::Gpu && g > 0 {
        about::lemma_above(b, g, 10, 1);
        lemma_sized(w, g, 10, 1, u);
    } else if fit.run_mode == RunMode::Gpu || fit.run_mode == RunMode::MoeOffload {
        assert(b == none);
    } else {
        assert(b == y);
        about::lemma_above(b, r, 10, 1);
        lemma_sized(w, r, 10, 1, u);
    }
    if w > 0 {
        if b.rank() <= none.rank() {
            float::lemma_worth_monotone(b, none);
        }
    } else if none.rank() < b.rank() {
        assert(b.ord() > 0);
        about::lemma_positive_worth(b);
    }
}

/// The size of what is close to a fraction of ordinary size.
proof fn lemma_sized(w: int, n: int, d: int, e: int, u: int)
    requires
        crate::float::nearness::close(w * d, n * u, e),
        0 <= e <= 20,
        0 < d <= n,
        n <= 65_535 * d,
        u > 0,
    ensures
        u <= 2 * w,
        w <= 131_070 * u,
{
    let (x, y) = (w * d, n * u);
    assert(0 < d * u && d * u <= y && y <= 65_535 * (d * u)) by (nonlinear_arith)
        requires
            y == n * u,
            0 < d <= n,
            n <= 65_535 * d,
            u > 0,
    ;
    assert(e * y <= 20 * y) by (nonlinear_arith)
        requires
            y > 0,
            e <= 20,
    ;
    assert(y <= 2 * x && x <= 2 * y);
    assert(u <= 2 * w && w <= 131_070 * u) by (nonlinear_arith)
        requires
            d * u <= 2 * (w * d),
            w * d <= 131_070 * (d * u),
            d > 0,
    {
        assert(d * u <= d * (2 * w));
        assert(d * w <= d * (131_070 * u));
    }
}

/// The bytes that a token reads, in halves.
proof fn lemma_traffic(fit: Fit)
    ensures
        ({
            let t = 1_048_576 * (2 * fit.memory.weights_mb + fit.memory.kv_cache_mb);
            about::about(speed::traffic_spec(fit), t, 2, 10)
        }),
{
    let (w, k) = (fit.memory.weights_mb as int, fit.memory.kv_cache_mb as int);
    let mib = Single::nearest(1_048_576, 1);
    let (a, b) = (Single::nearest(w as nat, 1), Single::nearest(k as nat, 1));
    let half = Single::nearest(5, 10);
    about::lemma_exact(1_048_576);
    about::lemma_ratio(w as nat, 1);
    about::lemma_ratio(k as nat, 1);
    about::lemma_ratio(5, 10);
    let (x, y) = (w * 1_048_576, k * 1_048_576);
    about::lemma_wide(x, 1);
    about::lemma_times(a, w, 1, 1, mib, 1_048_576, 1, 0);
    about::lemma_wide(y, 1);
    about::lemma_times(b, k, 1, 1, mib, 1_048_576, 1, 0);
    about::lemma_wide(y * 5, 10);
    about::lemma_times(b.mul_spec(mib), y, 1, 4, half, 5, 10, 1);
    about::lemma_expanded(a.mul_spec(mib), x, 1, 10, 4);
    about::lemma_wider(a.mul_spec(mib), x * 10, 10, 4, 8);
    about::lemma_wide(x * 10 + y * 5, 10);
    about::lemma_plus(
        a.mul_spec(mib),
        x * 10,
        b.mul_spec(mib).mul_spec(half),
        y * 5,
        10,
        8,
    );
    let t = 1_048_576 * (2 * w + k);
    assert(t * 5 == x * 10 + y * 5);
    about::lemma_reduced(speed::traffic_spec(fit), t, 2, 5, 10);
}

/// Decoding reads the weights and half of the cache once a token: the figure is
/// the bandwidth over those bytes, times the share of it that is reached, in
/// tenths of a token a second and cut to a whole number. It is given wherever the
/// bandwidth is known and there is something to read. (The bandwidth and the
/// share are in units of `2^-149`.)
pub proof fn law_decoding_is_bandwidth_over_bytes(
    model: ModelData,
    hw: Hardware,
    fit: Fit,
    efficiency: Single,
)
    requires
        efficiency.positive(),
        pow2(149) <= float::worth(efficiency) * 0x10_0000,
        float::worth(efficiency) <= 0x10_0000 * pow2(149),
    ensures
        ({
            let speed = speed::estimate_spec(model, hw, fit, efficiency);
            let b = float::worth(speed::bandwidth_spec(hw, fit));
            let (e, u) = (float::worth(efficiency), pow2(149) as int);
            let read = 2 * fit.memory.weights_mb + fit.memory.kv_cache_mb;
            &&& speed.method == EstimateMethod::Roofline <==> b > 0 && read > 0
            &&& speed.method == EstimateMethod::Roofline || speed.method
                == EstimateMethod::BackendConstant
            &&& b > 0 && read > 0 ==> about::cut(
                speed.decode_tps_x10 as int,
                (b * e) * 20_000_000_000,
                ((1_048_576 * read) * u) * u,
                24,
                u32::MAX as int,
            )
            &&& about::cut(speed.bandwidth_gbps as int, b, u, 0, u16::MAX as int)
        }),
{
    let (band, bytes) = (speed::bandwidth_spec(hw, fit), speed::traffic_spec(fit));
    let (b, e, u) = (float::worth(band), float::worth(efficiency), pow2(149) as int);
    let read = 2 * fit.memory.weights_mb + fit.memory.kv_cache_mb;
    let t = 1_048_576 * read;
    lemma_pow2_pos(149);
    lemma_bandwidth_size(hw, fit);
    lemma_traffic(fit);
    float::lemma_zero_rank();
    float::lemma_exact_integer(0);
    assert(about::about(band, b, u, 0)) by {
        assert(0 * (b * u) == 0);
    }
    about::lemma_cut(band, b, u, 0, u16::MAX as nat);
    if read > 0 {
        about::lemma_above(bytes, t, 2, 10);
    } else {
        about::lemma_none(bytes, 2, 10);
        about::lemma_no_worth(bytes);
    }
    if b > 0 && read > 0 {
        let billion = Single::nearest(1_000_000_000, 1);
        let ten = Single::nearest(10, 1);
        assert(about::about(efficiency, e, u, 0)) by {
            assert(0 * (e * u) == 0);
        }
        about::lemma_ratio(1_000_000_000, 1);
        about::lemma_exact(10);
        lemma_wide_decoding(b, e, t, u);
        let n = b * 1_000_000_000;
        about::lemma_times(band, b, u, 0, billion, 1_000_000_000, 1, 1);
        let x = band.mul_spec(billion);
        assert(u * 1 == u);
        about::lemma_over(x, n, u, 4, bytes, t, 2, 10);
        let y = x.div_spec(bytes);
        about::lemma_times(y, n * 2, u * t, 18, efficiency, e, u, 0);
        let z = y.mul_spec(efficiency);
        assert(((u * t) * u) * 1 == (u * t) * u);
        about::lemma_times(z, (n * 2) * e, (u * t) * u, 21, ten, 10, 1, 0);
        assert(((n * 2) * e) * 10 == (b * e) * 20_000_000_000 && (u * t) * u == (t * u) * u)
            by (nonlinear_arith)
            requires
                n == b * 1_000_000_000,
        ;
        about::lemma_cut(
            z.mul_spec(ten),
            (b * e) * 20_000_000_000,
            (t * u) * u,
            24,
            u32::MAX as nat,
        );
    }
}

/// The fractions that occur are wide.
proof fn lemma_wide_decoding(b: int, e: int, t: int, u: int)
    requires
        u == pow2(149),
        u <= 2 * b,
        b <= 131_070 * u,
        u <= e * 0x10_0000,
        e <= 0x10_0000 * u,
        1_048_576 <= t < 0x100_0000_0000_0000,
    ensures
        about::wide(b * 1_000_000_000, u * 1),
        about::wide((b * 1_000_000_000) * 2, u * t),
        about::wide(((b * 1_000_000_000) * 2) * e, (u * t) * u),
        about::wide((((b * 1_000_000_000) * 2) * e) * 10, ((u * t) * u) * 1),
{
    let (lo, hi) = (pow2(120) as int, pow2(100) as int);
    lemma_pow2_pos(149);
    lemma2_to64();
    lemma2_to64_rest();
    lemma_pow2_adds(64, 36);
    lemma_pow2_adds(64, 56);
    let c = 0x1_0000_0000_0000_0000_0000_0000int;
    assert(lo >= c && hi >= c);
    let n = b * 1_000_000_000;
    let m = n * 2;
    let (d, k) = (u * t, (u * t) * u);
    let (p, q) = (m * e, (m * e) * 10);
    assert(u <= n * c && n <= u * c && n > 0);
    assert(d <= m * c && m <= d * c && d > 0) by (nonlinear_arith)
        requires
            m == b * 2_000_000_000,
            d == u * t,
            u <= 2 * b,
            b <= 131_070 * u,
            1_048_576 <= t < 0x100_0000_0000_0000,
            c == 0x1_0000_0000_0000_0000_0000_0000int,
            u > 0,
    {
        assert(d <= (2 * b) * 0x100_0000_0000_0000);
        assert(d >= u * 1_048_576);
    }
    assert(k <= p * c && p * 10 <= k * c && k > 0 && p > 0) by (nonlinear_arith)
        requires
            m == b * 2_000_000_000,
            d == u * t,
            k == d * u,
            p == m * e,
            u <= 2 * b,
            b <= 131_070 * u,
            u <= e * 0x10_0000,
            e <= 0x10_0000 * u,
            1_048_576 <= t < 0x100_0000_0000_0000,
            c == 0x1_0000_0000_0000_0000_0000_0000int,
            u > 0,
    {
        assert(b > 0 && e > 0);
        assert(d <= (2 * b) * 0x100_0000_0000_0000);
        assert(d > 0);
        assert(k <= d * (e * 0x10_0000));
        assert(d * e <= ((2 * b) * 0x100_0000_0000_0000) * e);
        assert(b * e > 0);
        assert(p == 2_000_000_000 * (b * e));
        assert(d >= u * 1_048_576);
        assert(k >= (u * 1_048_576) * u);
        assert(b * e <= (131_070 * u) * e);
        assert(u * e <= u * (0x10_0000 * u));
    }
    assert(k <= q * c && q <= k * c);
    lemma_wide_from(n, u, c);
    lemma_wide_from(m, d, c);
    lemma_wide_from(p, k, c);
    lemma_wide_from(q, k, c);
}

proof fn lemma_wide_from(n: int, d: int, c: int)
    requires
        0 < n,
        0 < d,
        d <= n * c,
        n <= d * c,
        c == 0x1_0000_0000_0000_0000_0000_0000int,
    ensures
        about::wide(n, d),
{
    lemma2_to64();
    lemma2_to64_rest();
    lemma_pow2_adds(64, 36);
    lemma_pow2_adds(64, 56);
    assert(d <= n * pow2(120) && n <= d * pow2(100)) by (nonlinear_arith)
        requires
            0 < n,
            0 < d,
            d <= n * c,
            n <= d * c,
            c <= pow2(100),
            c <= pow2(120),
    ;
}

/// A number of thousandths, held to no less than fifty of them.
proof fn lemma_at_least_fifty(x: Single, n: int)
    requires
        about::about(x, n, 1000, 5),
        0 <= n < 0x1_0000_0000,
        !x.is_nan(),
    ensures
        about::about(
            x.max_spec(Single::nearest(5, 100)),
            if n < 50 {
                50
            } else {
                n
            },
            1000,
            5,
        ),
{
    let least = Single::nearest(5, 100);
    about::lemma_ratio(5, 100);
    about::lemma_expanded(least, 5, 100, 10, 1);
    about::lemma_wider(least, 50, 1000, 1, 5);
    if n < 50 {
        about::lemma_beyond(least, 5, 100, 1, x, n, 1000, 5);
    } else if n > 50 {
        about::lemma_beyond(x, n, 1000, 5, least, 5, 100, 1);
    }
}

/// Where no bandwidth is known, the figure is a constant of the backend over the
/// billions of active parameters, five hundredths at the least, times what the
/// format is worth.
pub proof fn law_without_a_bandwidth_the_backend_decides(
    model: ModelData,
    hw: Hardware,
    fit: Fit,
    efficiency: Single,
)
    ensures
        ({
            let speed = speed::estimate_spec(model, hw, fit, efficiency);
            let constant = match hw.backend {
                Backend::Cuda => 220,
                Backend::Metal => 160,
                Backend::Rocm => 180,
                Backend::Sycl => 100,
                Backend::CpuArm => 90,
                Backend::CpuX86 => 70,
                Backend::Npu => 390,
                Backend::Vulkan => 110int,
            };
            let percent = match fit.quant {
                Quant::F16 => 52,
                Quant::Q8_0 => 78,
                Quant::Q6K => 90,
                Quant::Q5KM => 96,
                Quant::Q4KM => 100,
                Quant::Q3KM => 104,
                Quant::Q2K => 108int,
            };
            let millions = if model.active_params_m() < 50 {
                50
            } else {
                model.active_params_m() as int
            };
            speed.method == EstimateMethod::BackendConstant ==> about::cut(
                speed.decode_tps_x10 as int,
                (constant * percent) * 100,
                millions,
                16,
                u32::MAX as int,
            )
        }),
{
    let (k, m) = (hw.backend.constant() as int, fit.quant.speed_percent() as int);
    let a = model.active_params_m() as int;
    let pb = model.active_params_b();
    about::lemma_ratio(a as nat, 1);
    about::lemma_exact(1000);
    about::lemma_wide(a, 1000);
    about::lemma_over(Single::nearest(a as nat, 1), a, 1, 1, Single::nearest(1000, 1), 1000, 1, 0);
    lemma_at_least_fifty(pb, a);
    let s = pb.max_spec(Single::nearest(5, 100));
    let n = if a < 50 {
        50
    } else {
        a
    };
    about::lemma_exact(hw.backend.constant());
    about::lemma_wide(k * 1000, n);
    about::lemma_over(Single::nearest(k as nat, 1), k, 1, 0, s, n, 1000, 5);
    let x = Single::nearest(k as nat, 1).div_spec(s);
    about::lemma_ratio(fit.quant.speed_percent(), 100);
    assert(0 <= k * m <= 390 * 108) by (nonlinear_arith)
        requires
            0 <= k <= 390,
            0 <= m <= 108,
    ;
    assert((k * 1000) * m == 1000 * (k * m)) by (nonlinear_arith);
    about::lemma_wide((k * 1000) * m, n * 100);
    about::lemma_times(x, k * 1000, n, 9, fit.quant.speed_spec(), m, 100, 1);
    about::lemma_exact(10);
    about::lemma_wide(((k * 1000) * m) * 10, (n * 100) * 1);
    let y = x.mul_spec(fit.quant.speed_spec());
    about::lemma_times(y, (k * 1000) * m, n * 100, 13, Single::nearest(10, 1), 10, 1, 0);
    let z = y.mul_spec(Single::nearest(10, 1));
    assert(((k * 1000) * m) * 10 == ((k * m) * 100) * 100);
    about::lemma_reduced(z, (k * m) * 100, n, 100, 16);
    about::lemma_cut(z, (k * m) * 100, n, 16, u32::MAX as nat);
}

/// Prompt tokens a second, as a fraction.
proof fn lemma_prefill(model: ModelData, hw: Hardware)
    requires
        hw.tflops_fp16_x10 > 0,
        model.active_params_m() > 0,
    ensures
        ({
            let (t, a) = (hw.tflops_fp16_x10 as int, model.active_params_m() as int);
            &&& about::about(speed::prefill_spec(model, hw), t * 17_500, a, 23)
            &&& speed::token_flops_spec(model).positive()
        }),
{
    let (t, a) = (hw.tflops_fp16_x10 as int, model.active_params_m() as int);
    let ten = Single::nearest(10, 1);
    let tera = Single::nearest(1_000_000_000_000, 1);
    let x = Single::nearest(t as nat, 1);
    about::lemma_exact(t as nat);
    about::lemma_exact(10);
    about::lemma_ratio(1_000_000_000_000, 1);
    about::lemma_wide(t, 10);
    about::lemma_over(x, t, 1, 0, ten, 10, 1, 0);
    about::lemma_wide(t * 1_000_000_000_000, 10);
    about::lemma_times(x.div_spec(ten), t, 10, 4, tera, 1_000_000_000_000, 1, 1);
    let y = x.div_spec(ten).mul_spec(tera);
    // The operations of a token.
    let (two, million) = (Single::nearest(2, 1), Single::nearest(1_000_000, 1));
    let flops = speed::token_flops_spec(model);
    about::lemma_exact(2);
    about::lemma_exact(1_000_000);
    about::lemma_ratio(a as nat, 1);
    about::lemma_wide(2 * a, 1);
    about::lemma_times(two, 2, 1, 0, Single::nearest(a as nat, 1), a, 1, 1);
    about::lemma_wide((2 * a) * 1_000_000, 1);
    about::lemma_times(
        two.mul_spec(Single::nearest(a as nat, 1)),
        2 * a,
        1,
        4,
        million,
        1_000_000,
        1,
        0,
    );
    let f = (2 * a) * 1_000_000;
    about::lemma_above(flops, f, 1, 7);
    let n = t * 1_000_000_000_000;
    about::lemma_wide(n, 10 * f);
    about::lemma_over(y, n, 10, 8, flops, f, 1, 7);
    about::lemma_ratio(35, 100);
    about::lemma_wide(n * 35, (10 * f) * 100);
    about::lemma_times(y.div_spec(flops), n, 10 * f, 19, Single::nearest(35, 100), 35, 100, 1);
    assert(n * 35 == (t * 17_500) * 2_000_000_000);
    assert((10 * f) * 100 == a * 2_000_000_000);
    about::lemma_reduced(speed::prefill_spec(model, hw), t * 17_500, a, 2_000_000_000, 23);
}

/// A prompt takes two operations per active parameter and token, at 35 percent of
/// the matrix throughput: the figures are given exactly where that throughput is
/// known and there are parameters. The time to the first token is that of a
/// prompt that fills the context, in milliseconds.
pub proof fn law_prompts_are_bound_by_operations(
    model: ModelData,
    hw: Hardware,
    fit: Fit,
    efficiency: Single,
)
    ensures
        ({
            let speed = speed::estimate_spec(model, hw, fit, efficiency);
            let (t, a) = (hw.tflops_fp16_x10 as int, model.active_params_m() as int);
            let context = fit.effective_context as int;
            &&& speed.prefill_tps_x10 is Some <==> t > 0 && a > 0
            &&& speed.ttft_ms is Some <==> t > 0 && a > 0
            &&& speed.prefill_tps_x10 matches Some(p) ==> about::cut(
                p as int,
                t * 175_000,
                a,
                26,
                u32::MAX as int,
            )
            &&& speed.ttft_ms matches Some(ms) ==> about::cut(
                ms as int,
                (context * a) * 2,
                t * 35,
                31,
                u32::MAX as int,
            )
        }),
{
    let (t, a) = (hw.tflops_fp16_x10 as int, model.active_params_m() as int);
    let c = fit.effective_context as int;
    float::lemma_zero_rank();
    float::lemma_exact_integer(0);
    if t > 0 && a > 0 {
        lemma_prefill(model, hw);
        let prefill = speed::prefill_spec(model, hw);
        about::lemma_above(prefill, t * 17_500, a, 23);
        about::lemma_exact(10);
        about::lemma_wide((t * 17_500) * 10, a * 1);
        about::lemma_times(prefill, t * 17_500, a, 23, Single::nearest(10, 1), 10, 1, 0);
        about::lemma_cut(
            prefill.mul_spec(Single::nearest(10, 1)),
            t * 175_000,
            a,
            26,
            u32::MAX as nat,
        );
        let x = Single::nearest(c as nat, 1);
        about::lemma_ratio(c as nat, 1);
        let n = c * a;
        assert(0 <= n < 0x1_0000_0000_0000_0000) by (nonlinear_arith)
            requires
                n == c * a,
                0 <= c < 0x1_0000_0000,
                0 <= a < 0x1_0000_0000,
        ;
        about::lemma_wide(n, 1 * (t * 17_500));
        about::lemma_over(x, c, 1, 1, prefill, t * 17_500, a, 23);
        about::lemma_exact(1000);
        about::lemma_wide_tall(n * 1000, (t * 17_500) * 1);
        let y = x.div_spec(prefill);
        about::lemma_times(y, n, t * 17_500, 28, Single::nearest(1000, 1), 1000, 1, 0);
        let z = y.mul_spec(Single::nearest(1000, 1));
        assert(n * 1000 == (n * 2) * 500 && t * 17_500 == (t * 35) * 500);
        about::lemma_reduced(z, n * 2, t * 35, 500, 31);
        about::lemma_cut(z, n * 2, t * 35, 31, u32::MAX as nat);
    } else if a == 0 {
        let (two, million) = (Single::nearest(2, 1), Single::nearest(1_000_000, 1));
        about::lemma_exact(0);
        about::lemma_exact(2);
        about::lemma_exact(1_000_000);
        about::lemma_wide(0, 1);
        about::lemma_times(two, 2, 1, 0, Single::nearest(0, 1), 0, 1, 0);
        about::lemma_times(
            two.mul_spec(Single::nearest(0, 1)),
            0,
            1,
            3,
            million,
            1_000_000,
            1,
            0,
        );
        about::lemma_none(speed::token_flops_spec(model), 1, 6);
        about::lemma_no_worth(speed::token_flops_spec(model));
    }
}

/// A correction factor of `n` thousandths scales the throughput of the formula,
/// and the time to the first token the other way, by no less than a twentieth.
/// It says so, and touches nothing else.
pub proof fn law_factors_scale_the_formula(
    catalog: CatalogData,
    model: ModelData,
    hw: Hardware,
    fit: Fit,
    efficiency: Single,
    factor: Single,
    samples: u8,
    n: int,
)
    requires
        catalog.measurement(hw.hw_key, model.index as u32) is None,
        catalog.calibration(hw.hw_key) == Some((factor, samples)),
        speed::estimate_spec(model, hw, fit, efficiency).method == EstimateMethod::Roofline,
        about::about(factor, n, 1000, 5),
        0 <= n <= 65_535,
    ensures
        ({
            let plain = speed::estimate_spec(model, hw, fit, efficiency);
            let speed = speed::informed_spec(catalog, model, hw, fit, efficiency);
            let least = if n < 50 {
                50
            } else {
                n
            };
            &&& speed.method == EstimateMethod::Calibrated
            &&& speed.calibration == Some((factor, samples))
            &&& about::cut(
                speed.decode_tps_x10 as int,
                plain.decode_tps_x10 * n,
                1000,
                9,
                u32::MAX as int,
            )
            &&& speed.ttft_ms is Some <==> plain.ttft_ms is Some
            &&& plain.ttft_ms matches Some(t) ==> about::cut(
                speed.ttft_ms.unwrap() as int,
                t * 1000,
                least,
                10,
                u32::MAX as int,
            )
            &&& speed.prefill_tps_x10 == plain.prefill_tps_x10
            &&& speed.bandwidth_gbps == plain.bandwidth_gbps
        }),
{
    let plain = speed::estimate_spec(model, hw, fit, efficiency);
    let d = plain.decode_tps_x10 as int;
    let x = Single::nearest(d as nat, 1);
    about::lemma_ratio(d as nat, 1);
    assert(0 <= d * n < 0x1_0000_0000_0000_0000) by (nonlinear_arith)
        requires
            0 <= d < 0x1_0000_0000,
            0 <= n <= 65_535,
    ;
    about::lemma_wide(d * n, 1000);
    about::lemma_times(x, d, 1, 1, factor, n, 1000, 5);
    about::lemma_cut(x.mul_spec(factor), d * n, 1000, 9, u32::MAX as nat);
    if let Some(t) = plain.ttft_ms {
        let least = if n < 50 {
            50
        } else {
            n
        };
        let f = factor.max_spec(Single::nearest(5, 100));
        lemma_at_least_fifty(factor, n);
        about::lemma_ratio(t as nat, 1);
        about::lemma_wide(t * 1000, 1 * least);
        about::lemma_over(Single::nearest(t as nat, 1), t as int, 1, 1, f, least, 1000, 5);
        about::lemma_cut(
            Single::nearest(t as nat, 1).div_spec(f),
            t * 1000,
            least,
            10,
            u32::MAX as nat,
        );
    }
}

/// Where a bandwidth came from is said with it: from the caller where the
/// accelerator's is stated, and otherwise that it was not.
pub proof fn law_the_source_of_a_bandwidth_is_told(
    model: ModelData,
    hw: Hardware,
    fit: Fit,
    efficiency: Single,
)
    ensures
        speed::estimate_spec(model, hw, fit, efficiency).bandwidth_source
            == if hw.gpu_bandwidth_gbps > 0 {
            BandwidthSource::Override
        } else {
            BandwidthSource::BackendConstant
        },
{
    let b = speed::bandwidth_spec(hw, fit);
    lemma_bandwidth_size(hw, fit);
    if hw.gpu_bandwidth_gbps > 0 && float::worth(b) == 0 {
        law_the_bandwidth_is_that_of_the_memory(hw, fit);
        lemma_known(hw, fit);
    }
}

/// A stated accelerator leaves no bandwidth unknown.
proof fn lemma_known(hw: Hardware, fit: Fit)
    requires
        hw.gpu_bandwidth_gbps > 0,
    ensures
        float::worth(speed::bandwidth_spec(hw, fit)) > 0,
{
    let b = speed::bandwidth_spec(hw, fit);
    let g = 10 * hw.gpu_bandwidth_gbps;
    let r = if hw.ram_bandwidth_gbps > 0 {
        10 * hw.ram_bandwidth_gbps
    } else if hw.unified {
        g
    } else {
        512
    };
    let (x, y) = (hw.gpu_bandwidth_spec().0, hw.ram_bandwidth_spec());
    law_the_bandwidth_is_that_of_the_memory(hw, fit);
    split::lemma_stated(hw);
    float::lemma_zero_rank();
    float::lemma_exact_integer(0);
    lemma_pow2_pos(149);
    about::lemma_above(x, g, 10, 1);
    about::lemma_above(y, r, 10, 1);
    if fit.run_mode == RunMode::MoeOffload {
        about::lemma_above(b, 85 * g + 15 * r, 1000, 7);
    } else if fit.run_mode == RunMode::CpuGpu && fit.memory.resident_spec() > 0 {
        about::lemma_ratio(fit.memory.resident_spec() as nat, 1);
        about::lemma_above(
            Single::nearest(fit.memory.resident_spec() as nat, 1),
            fit.memory.resident_spec() as int,
            1,
            1,
        );
        split::lemma_split_size(hw, fit, x, g, y, r);
    }
}

/// Only what the formula worked out is corrected: a constant of the backend is not,
/// nor is anything where no factor is known; and a measurement in a format that is
/// not known stands beside the figure without touching it.
pub proof fn law_only_the_formula_is_corrected(
    catalog: CatalogData,
    model: ModelData,
    hw: Hardware,
    fit: Fit,
    efficiency: Single,
)
    ensures
        ({
            let plain = speed::estimate_spec(model, hw, fit, efficiency);
            let speed = speed::informed_spec(catalog, model, hw, fit, efficiency);
            let measured = catalog.measurement(hw.hw_key, model.index as u32);
            let factor = catalog.calibration(hw.hw_key);
            let beside = measured is None || measured->0.quant is None;
            &&& beside && plain.method == EstimateMethod::BackendConstant ==> speed == Speed {
                measurement: measured,
                ..plain
            }
            &&& beside && factor is None ==> speed == Speed { measurement: measured, ..plain }
            &&& beside && plain.method == EstimateMethod::Roofline && factor is Some ==> speed.method
                == EstimateMethod::Calibrated
            &&& plain.measurement is None && plain.calibration is None
            &&& plain.method == EstimateMethod::Roofline || plain.method
                == EstimateMethod::BackendConstant
        }),
{
}

} // verus!
