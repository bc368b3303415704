//! How large the parts of a model are.

use vstd::prelude::*;

use crate::catalog::flags;
use crate::catalog::ModelData;
use crate::fit;
use crate::fit::{KvSource, Opts};
use crate::float;
use crate::float::about;
use crate::float::Single;
use crate::hardware::Hardware;
use crate::quant::{KvQuant, Quant};

verus! {

/// The weights are the parameters times the bits of the format, in MiB, cut to a
/// whole number: 16 bits, or 8.5, 6.56, 5.67, 4.83, 3.91 and 3.35.
pub proof fn law_weights_are_parameters_times_bits(params_m: u32, quant: Quant)
    ensures
        ({
            let hundredths = match quant {
                Quant::F16 => 1600,
                Quant::Q8_0 => 850,
                Quant::Q6K => 656,
                Quant::Q5KM => 567,
                Quant::Q4KM => 483,
                Quant::Q3KM => 391,
                Quant::Q2K => 335int,
            };
            about::cut(
                fit::weights_spec(params_m, quant) as int,
                (params_m * 1_000_000) * hundredths,
                838_860_800,
                16,
                u32::MAX as int,
            )
        }),
{
    let (p, c) = (params_m as int, quant.centibits() as int);
    let (a, million, bits) = (
        Single::nearest(params_m as nat, 1),
        Single::nearest(1_000_000, 1),
        quant.bits_spec(),
    );
    let (eight, mib) = (Single::nearest(8, 1), Single::nearest(1_048_576, 1));
    let n = (p * 1_000_000) * c;
    assert(0 <= n < 0x1_0000_0000_0000_0000) by (nonlinear_arith)
        requires
            n == (p * 1_000_000) * c,
            0 <= p < 0x1_0000_0000,
            335 <= c <= 1600,
    ;
    about::lemma_ratio(params_m as nat, 1);
    about::lemma_exact(1_000_000);
    about::lemma_ratio(quant.centibits(), 100);
    about::lemma_exact(8);
    about::lemma_exact(1_048_576);
    about::lemma_wide(p * 1_000_000, 1);
    about::lemma_times(a, p, 1, 1, million, 1_000_000, 1, 0);
    about::lemma_wide(n, 100);
    about::lemma_times(a.mul_spec(million), p * 1_000_000, 1, 4, bits, c, 100, 1);
    let b = a.mul_spec(million).mul_spec(bits);
    about::lemma_wide(n * 1, 800);
    about::lemma_over(b, n, 100, 8, eight, 8, 1, 0);
    about::lemma_wide(n * 1, 838_860_800);
    about::lemma_over(b.div_spec(eight), n, 800, 12, mib, 1_048_576, 1, 0);
    about::lemma_cut(
        b.div_spec(eight).div_spec(mib),
        n,
        838_860_800,
        16,
        u32::MAX as nat,
    );
}

/// The bytes of cache that one token takes.
proof fn lemma_token_bytes(layers: u16, heads: u16, dim: u16, kv: KvQuant)
    ensures
        ({
            let n = (((2 * layers) * heads) * dim) * kv.half_bytes();
            &&& about::about(fit::token_bytes_spec(layers, heads, dim, kv), n, 2, 13)
            &&& 0 <= n < 0x8_0000_0000_0000
            &&& layers > 0 && heads > 0 && dim > 0 ==> n > 0
        }),
{
    let (l, h, d, b) = (layers as int, heads as int, dim as int, kv.half_bytes() as int);
    let (i, j, k) = (2 * l, (2 * l) * h, ((2 * l) * h) * d);
    let n = k * b;
    assert(0 <= j < 0x2_0000_0000 && 0 <= k < 0x2_0000_0000_0000 && 0 <= n < 0x8_0000_0000_0000)
        by (nonlinear_arith)
        requires
            j == i * h,
            k == j * d,
            n == k * b,
            0 <= i < 0x2_0000,
            0 <= h < 0x1_0000,
            0 <= d < 0x1_0000,
            1 <= b <= 4,
    {
        assert(j <= 0x1_ffff * 0xffff);
        assert(k <= (0x1_ffff * 0xffff) * 0xffff);
    }
    assert(l > 0 && h > 0 && d > 0 ==> n > 0) by (nonlinear_arith)
        requires
            i == 2 * l,
            j == i * h,
            k == j * d,
            n == k * b,
            b >= 1,
    {
        if l > 0 && h > 0 && d > 0 {
            assert(j > 0);
            assert(k > 0);
        }
    }
    let two = Single::nearest(2, 1);
    let (sl, sh, sd) = (
        Single::nearest(layers as nat, 1),
        Single::nearest(heads as nat, 1),
        Single::nearest(dim as nat, 1),
    );
    about::lemma_exact(2);
    about::lemma_exact(layers as nat);
    about::lemma_exact(heads as nat);
    about::lemma_exact(dim as nat);
    about::lemma_ratio(kv.half_bytes(), 2);
    about::lemma_wide(i, 1);
    about::lemma_times(two, 2, 1, 0, sl, l, 1, 0);
    about::lemma_wide(j, 1);
    about::lemma_times(two.mul_spec(sl), i, 1, 3, sh, h, 1, 0);
    about::lemma_wide(k, 1);
    about::lemma_times(two.mul_spec(sl).mul_spec(sh), j, 1, 6, sd, d, 1, 0);
    about::lemma_wide(n, 2);
    about::lemma_times(
        two.mul_spec(sl).mul_spec(sh).mul_spec(sd),
        k,
        1,
        9,
        kv.bytes_spec(),
        b,
        2,
        1,
    );
}


/// The cache holds, for every token, a key and a value of every head in every
/// layer: two bytes an element, or one, or a half. In MiB, cut to a whole number.
pub proof fn law_the_cache_holds_keys_and_values(
    layers: u16,
    heads: u16,
    dim: u16,
    kv: KvQuant,
    context: u32,
)
    ensures
        ({
            let halves = match kv {
                KvQuant::F16 => 4,
                KvQuant::Q8 => 2,
                KvQuant::Q4 => 1int,
            };
            let per_token = (((2 * layers) * heads) * dim) * halves;
            about::cut(
                fit::cache_spec(fit::token_bytes_spec(layers, heads, dim, kv), context) as int,
                per_token * context,
                2_097_152,
                21,
                u32::MAX as int,
            )
        }),
{
    let t = (((2 * layers) * heads) * dim) * kv.half_bytes();
    let c = context as int;
    let per_token = fit::token_bytes_spec(layers, heads, dim, kv);
    let (x, mib) = (Single::nearest(context as nat, 1), Single::nearest(1_048_576, 1));
    lemma_token_bytes(layers, heads, dim, kv);
    about::lemma_ratio(context as nat, 1);
    about::lemma_exact(1_048_576);
    let n = t * c;
    assert(0 <= n < 0x1_0000_0000_0000_0000_0000_0000int) by (nonlinear_arith)
        requires
            n == t * c,
            0 <= t < 0x8_0000_0000_0000,
            0 <= c < 0x1_0000_0000,
    ;
    about::lemma_wide_tall(n, 2);
    about::lemma_times(per_token, t, 2, 13, x, c, 1, 1);
    about::lemma_wide_tall(n * 1, 2_097_152);
    about::lemma_over(per_token.mul_spec(x), n, 2, 17, mib, 1_048_576, 1, 0);
    about::lemma_cut(
        per_token.mul_spec(x).div_spec(mib),
        n,
        2_097_152,
        21,
        u32::MAX as nat,
    );
}

/// The overhead is 128 MiB, a twentieth of the weights, and one for every 512
/// tokens of context.
pub proof fn law_the_overhead_grows_with_weights_and_context(weights: u32, context: u32)
    ensures
        ({
            let oh = fit::overhead_spec(weights, context) as int;
            let buffers = oh - 128 - context / 512;
            oh < u32::MAX ==> about::cut(buffers, weights * 5, 100, 5, u32::MAX as int)
        }),
        fit::overhead_spec(weights, context) >= 128,
{
    let (a, b) = (Single::nearest(weights as nat, 1), Single::nearest(5, 100));
    about::lemma_ratio(weights as nat, 1);
    about::lemma_ratio(5, 100);
    about::lemma_wide(weights * 5, 100);
    about::lemma_times(a, weights as int, 1, 1, b, 5, 100, 1);
    about::lemma_cut(a.mul_spec(b), weights * 5, 100, 5, u32::MAX as nat);
}

/// The parts of a fit are the parts of the model: the cache of its shape at the
/// context, and the overhead of all its weights.
pub proof fn law_the_parts_of_a_fit(
    model: ModelData,
    hw: Hardware,
    opts: Opts,
    quant: Quant,
    context: u32,
)
    ensures
        ({
            let fit = fit::fit_at(model, hw, opts, quant, context);
            let (layers, heads, dim, source) = fit::arch_spec(model);
            &&& fit.quant == quant
            &&& fit.effective_context == context
            &&& fit.memory.kv_cache_mb == fit::cache_spec(
                fit::token_bytes_spec(layers, heads, dim, opts.kv_quant),
                context,
            )
            &&& fit.memory.overhead_mb == fit::overhead_spec(
                fit::weights_spec(model.params_m(), quant),
                context,
            )
            &&& fit.memory.kv_source == source
        }),
{
    reveal(fit::fit_at);
}

/// The context that is usable is what the rest of the pool takes: the pool
/// without the weights in it and the overhead, over the bytes of a token, and no
/// more than the native window, a short one counting as 512.
pub proof fn law_the_rest_of_the_pool_is_context(
    model: ModelData,
    hw: Hardware,
    opts: Opts,
    quant: Quant,
    context: u32,
)
    ensures
        ({
            let fit = fit::fit_at(model, hw, opts, quant, context);
            let (layers, heads, dim, _) = fit::arch_spec(model);
            let halves = match opts.kv_quant {
                KvQuant::F16 => 4,
                KvQuant::Q8 => 2,
                KvQuant::Q4 => 1int,
            };
            let per_token = (((2 * layers) * heads) * dim) * halves;
            let taken = fit.memory.weights_mb + fit.memory.overhead_mb;
            let spare = if fit.pool_mb > taken {
                fit.pool_mb - taken
            } else {
                0
            };
            let window = if model.context_length() > 512 {
                model.context_length() as int
            } else {
                512
            };
            &&& per_token > 0
            &&& about::cut(
                fit.usable_context as int,
                spare * 2_097_152,
                per_token,
                21,
                window,
            )
        }),
{
    reveal(fit::fit_at);
    let fit = fit::fit_at(model, hw, opts, quant, context);
    let (layers, heads, dim, _) = fit::arch_spec(model);
    let t = (((2 * layers) * heads) * dim) * opts.kv_quant.half_bytes();
    let per_token = fit::token_bytes_spec(layers, heads, dim, opts.kv_quant);
    lemma_token_bytes(layers, heads, dim, opts.kv_quant);
    assert(layers > 0 && heads > 0 && dim > 0);
    about::lemma_above(per_token, t, 2, 13);
    float::lemma_zero_rank();
    float::lemma_exact_integer(0);
    let taken = fit.memory.weights_mb + fit.memory.overhead_mb;
    let spare = if fit.pool_mb > taken {
        (fit.pool_mb - taken) as nat
    } else {
        0
    };
    let (s, mib) = (Single::nearest(spare, 1), Single::nearest(1_048_576, 1));
    about::lemma_ratio(spare, 1);
    about::lemma_exact(1_048_576);
    let m = spare as int * 1_048_576;
    about::lemma_wide(m, 1);
    about::lemma_times(s, spare as int, 1, 1, mib, 1_048_576, 1, 0);
    let n = m * 2;
    about::lemma_wide(n, t);
    about::lemma_over(s.mul_spec(mib), m, 1, 4, per_token, t, 2, 13);
    about::lemma_cut(s.mul_spec(mib).div_spec(per_token), n, t, 21, u32::MAX as nat);
    let room = fit::room_spec(spare, per_token) as int;
    let w = fit.usable_context as int;
    assert(w <= room);
    assert(w * t <= room * t) by (nonlinear_arith)
        requires
            w <= room,
            t > 0,
    ;
    assert(n == spare * 2_097_152);
}

/// Billions of parameters against a bound.
proof fn lemma_class(model: ModelData, n: nat, d: nat, millions: nat)
    requires
        (n == 6 && d == 10 && millions == 600) || (d == 1 && millions == 1000 * n && 0 < n <= 80),
    ensures
        model.params_b().upto(Single::nearest(n, d)) <==> model.params_m() <= millions,
{
    let p = model.params_m() as nat;
    let (a, b) = (model.params_b(), Single::nearest(n, d));
    about::lemma_ratio(n, d);
    if p <= millions {
        float::lemma_count_ratio(p, 1000);
        float::lemma_nearest_monotone(p, 1000, n, d);
    } else {
        about::lemma_ratio(p, 1);
        about::lemma_exact(1000);
        about::lemma_wide(p as int, 1000);
        about::lemma_over(
            Single::nearest(p, 1),
            p as int,
            1,
            1,
            Single::nearest(1000, 1),
            1000,
            1,
            0,
        );
        about::lemma_beyond(a, p as int, 1000, 5, b, n as int, d as int, 1);
    }
}

/// The shape of a model is what it states, and otherwise what is common for its
/// size.
pub proof fn law_the_shape_of_a_model(model: ModelData)
    ensures
        ({
            let shape = fit::arch_spec(model);
            let stated = model.flags() & 8 != 0 && model.num_layers() > 0 && model.num_kv_heads()
                > 0 && model.head_dim() > 0;
            let p = model.params_m();
            if stated {
                shape == (
                    model.num_layers(),
                    model.num_kv_heads(),
                    model.head_dim(),
                    KvSource::Metadata,
                )
            } else if p <= 600 {
                shape == (24u16, 4u16, 64u16, KvSource::Estimated)
            } else if p <= 2_000 {
                shape == (28u16, 4u16, 128u16, KvSource::Estimated)
            } else {
                &&& shape.1 == 8 && shape.2 == 128 && shape.3 == KvSource::Estimated
                &&& shape.0 == if p <= 9_000 {
                    32u16
                } else if p <= 16_000 {
                    40
                } else if p <= 24_000 {
                    48
                } else if p <= 40_000 {
                    64
                } else if p <= 80_000 {
                    80
                } else {
                    96
                }
            }
        }),
{
    assert(flags::ARCH_METADATA == 8);
    lemma_class(model, 6, 10, 600);
    lemma_class(model, 2, 1, 2_000);
    lemma_class(model, 4, 1, 4_000);
    lemma_class(model, 9, 1, 9_000);
    lemma_class(model, 16, 1, 16_000);
    lemma_class(model, 24, 1, 24_000);
    lemma_class(model, 40, 1, 40_000);
    lemma_class(model, 80, 1, 80_000);
}

} // verus!
