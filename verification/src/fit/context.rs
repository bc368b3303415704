//! What runs holds the context that its memory was computed at.
//!
//! The pool of what runs is at most 98% full. That leaves more room than
//! rounding takes, so the context that fits is no less than the one accounted
//! for.

use vstd::arithmetic::power2::*;
use vstd::prelude::*;

use crate::catalog::ModelData;
use crate::fit;
use crate::fit::Opts;
use crate::float;
use crate::float::bounds;
use crate::float::nearness;
use crate::float::Single;
use crate::hardware::Hardware;
use crate::quant::{KvQuant, Quant};

verus! {

/// Powers of two that the bounds go by.
proof fn lemma_sizes()
    ensures
        pow2(149) >= 0x1000_0000_0000_0000_0000,
        pow2(253) == 0x100_0000_0000_0000_0000_0000_0000 * pow2(149),
        pow2(23) == 0x80_0000,
{
    lemma2_to64();
    lemma2_to64_rest();
    lemma_pow2_adds(64, 12);
    lemma_pow2_strictly_increases(76, 149);
    lemma_pow2_adds(64, 40);
    lemma_pow2_adds(104, 149);
}

/// The sizes of a cache per token that occur.
pub open spec fn ordinary(per_token: Single) -> bool {
    &&& per_token.positive()
    &&& pow2(149) <= 4 * float::worth(per_token)
    &&& float::worth(per_token) <= 0x8_0000_0000_0000 * pow2(149)
}

proof fn lemma_ordinary(layers: u16, heads: u16, dim: u16, kv: KvQuant)
    requires
        layers > 0,
        heads > 0,
        dim > 0,
    ensures
        ordinary(fit::token_bytes_spec(layers, heads, dim, kv)),
{
    let (two, l, h, d) = (
        Single::nearest(2, 1),
        Single::nearest(layers as nat, 1),
        Single::nearest(heads as nat, 1),
        Single::nearest(dim as nat, 1),
    );
    let u = pow2(149) as int;
    lemma_sizes();
    lemma2_to64();
    lemma2_to64_rest();
    float::lemma_within_power(2, 1);
    float::lemma_within_power(layers as nat, 16);
    float::lemma_within_power(heads as nat, 16);
    float::lemma_within_power(dim as nat, 16);
    float::lemma_within_product(two, 1, l, 16);
    float::lemma_within_product(two.mul_spec(l), 17, h, 16);
    float::lemma_within_product(two.mul_spec(l).mul_spec(h), 33, d, 16);
    let w = two.mul_spec(l).mul_spec(h).mul_spec(d);
    let b = kv.bytes_spec();
    let top = Single::nearest(pow2(49), 1);
    float::lemma_exact_integer(1);
    float::lemma_exact_power(49);
    float::lemma_worth_monotone(Single::nearest(1, 1), w);
    float::lemma_worth_monotone(w, top);
    lemma_pow2_adds(49, 149);
    let k = kv.half_bytes();
    bounds::lemma_small_positive(k, 2);
    bounds::lemma_fraction(k, 2, 2048 * k as int, 2048 * k as int);
    bounds::lemma_grains(b, 2048 * k as int, 2048 * k as int);
    let (x, y, g) = (float::worth(w), float::worth(b), bounds::grain() as int);
    assert(2 * y == k * u) by (nonlinear_arith)
        requires
            (2048 * k) * g <= y <= (2048 * k) * g,
            u == 4096 * g,
    ;
    assert(u <= x <= 0x2_0000_0000_0000 * u);
    assert(u <= 2 * y && y <= 2 * u) by (nonlinear_arith)
        requires
            2 * y == k * u,
            1 <= k <= 4,
            u > 0,
    ;
    assert(u * u <= 2 * (x * y) && x * y <= 0x4_0000_0000_0000 * (u * u)) by (nonlinear_arith)
        requires
            u <= x <= 0x2_0000_0000_0000 * u,
            u <= 2 * y,
            y <= 2 * u,
            u > 0,
    {
        assert(u * (2 * y) <= x * (2 * y));
        assert(u * u <= u * (2 * y));
        assert(x * y <= (0x2_0000_0000_0000 * u) * y);
        assert(u * y <= u * (2 * u));
    }
    assert(0x1000_0000_0000_0000 * u <= u * u) by (nonlinear_arith)
        requires
            0x1000_0000_0000_0000 <= u,
    ;
    assert(0x4_0000_0000_0000 * (u * u) <= pow2(253) * u) by {
        lemma_top(u, 0x4_0000_0000_0000);
    }
    nearness::lemma_product(w, b);
    let p = float::worth(w.mul_spec(b));
    let z = x * y;
    assert(u <= 4 * p && p <= 0x8_0000_0000_0000 * u) by (nonlinear_arith)
        requires
            nearness::close(p * u, z, 1),
            u * u <= 2 * z,
            z <= 0x4_0000_0000_0000 * (u * u),
            u > 0,
    {
        assert(p * u * 0x100_0000 >= z * 0xff_ffff);
        assert(p * u * 0x100_0000 <= z * 0x100_0001);
        assert((4 * p) * u >= u * u);
        assert(p * u <= (0x8_0000_0000_0000 * u) * u);
    }
}

/// Products of moderate numbers stay below the top of the format.
proof fn lemma_top(u: int, k: int)
    requires
        u == pow2(149),
        0 <= k <= 0x100_0000_0000_0000_0000_0000_0000,
    ensures
        k * (u * u) <= pow2(253) * u,
{
    lemma_sizes();
    assert(k * (u * u) <= (0x100_0000_0000_0000_0000_0000_0000 * u) * u) by (nonlinear_arith)
        requires
            0 <= k <= 0x100_0000_0000_0000_0000_0000_0000,
            u >= 0,
    ;
}

/// A count is of its own size.
proof fn lemma_count_size(n: nat)
    requires
        1 <= n < 0x1_0000_0000,
    ensures
        ({
            let (x, u) = (float::worth(Single::nearest(n, 1)), pow2(149) as int);
            &&& Single::nearest(n, 1).positive()
            &&& nearness::close(x, n * u, 1)
            &&& u <= 2 * x
            &&& x <= 0x2_0000_0000 * u
        }),
{
    let (x, u) = (float::worth(Single::nearest(n, 1)), pow2(149) as int);
    lemma_sizes();
    nearness::lemma_count(n);
    let z = n * u;
    assert(u <= z <= 0x1_0000_0000 * u) by (nonlinear_arith)
        requires
            z == n * u,
            1 <= n < 0x1_0000_0000,
            u > 0,
    ;
}

/// The bytes of a MiB.
proof fn lemma_mib()
    ensures
        fit::mib().positive(),
        float::worth(fit::mib()) == 0x10_0000 * pow2(149),
{
    float::lemma_count_positive(1_048_576);
    float::lemma_exact_integer(1_048_576);
}

/// A cache, before it is cut to whole MiB, is close to its tokens.
proof fn lemma_cache_close(per_token: Single, context: u32)
    requires
        ordinary(per_token),
        context > 0,
    ensures
        ({
            let t = per_token.mul_spec(Single::nearest(context as nat, 1)).div_spec(fit::mib());
            &&& t.positive()
            &&& nearness::close(
                float::worth(t) * 0x10_0000,
                float::worth(per_token) * context,
                5,
            )
        }),
{
    let c = Single::nearest(context as nat, 1);
    let s = per_token.mul_spec(c);
    let t = s.div_spec(fit::mib());
    let u = pow2(149) as int;
    let (p, x, n) = (float::worth(per_token), float::worth(c), context as int);
    lemma_sizes();
    lemma_mib();
    lemma_count_size(context as nat);
    assert(u * u <= 8 * (p * x) && p * x <= 0x10_0000_0000_0000_0000_0000 * (u * u))
        by (nonlinear_arith)
        requires
            u <= 4 * p,
            p <= 0x8_0000_0000_0000 * u,
            u <= 2 * x,
            x <= 0x2_0000_0000 * u,
            u > 0,
    {
        assert(u * u <= (4 * p) * u);
        assert((4 * p) * u <= (4 * p) * (2 * x));
        assert(p * x <= (0x8_0000_0000_0000 * u) * x);
        assert(u * x <= u * (0x2_0000_0000 * u));
    }
    assert(0x1000_0000_0000_0000 * u <= u * u) by (nonlinear_arith)
        requires
            0x1000_0000_0000_0000 <= u,
    ;
    lemma_top(u, 0x10_0000_0000_0000_0000_0000);
    nearness::lemma_product(per_token, c);
    let y = float::worth(s);
    let z = p * x;
    assert(u <= 16 * y && y <= 0x20_0000_0000_0000_0000_0000 * u) by (nonlinear_arith)
        requires
            nearness::close(y * u, z, 1),
            u * u <= 8 * z,
            z <= 0x10_0000_0000_0000_0000_0000 * (u * u),
            u > 0,
    {
        assert(y * u * 0x100_0000 >= z * 0xff_ffff);
        assert(y * u * 0x100_0000 <= z * 0x100_0001);
        assert((16 * y) * u >= u * u);
        assert(y * u <= (0x20_0000_0000_0000_0000_0000 * u) * u);
    }
    let m = float::worth(fit::mib());
    assert(0x80_0000 * m <= y * u && y * u <= pow2(253) * m) by (nonlinear_arith)
        requires
            u <= 16 * y,
            y <= 0x20_0000_0000_0000_0000_0000 * u,
            m == 0x10_0000 * u,
            pow2(253) == 0x100_0000_0000_0000_0000_0000_0000 * u,
            u >= 0x1000_0000_0000_0000,
    {
        assert((16 * y) * u >= u * u);
        assert(u * u >= 0x1000_0000_0000_0000 * u);
        assert(y * u <= (0x20_0000_0000_0000_0000_0000 * u) * u);
        assert(pow2(253) * m == (0x100_0000_0000_0000_0000_0000_0000 * 0x10_0000) * (u * u));
        assert(u * u >= 0);
    }
    nearness::lemma_over(s, fit::mib());
    let q = float::worth(t);
    // q MiB is close to y, which is close to the product.
    assert(q * m == (q * 0x10_0000) * u) by (nonlinear_arith)
        requires
            m == 0x10_0000 * u,
    ;
    assert(0 <= z) by (nonlinear_arith)
        requires
            u * u <= 8 * z,
    ;
    nearness::lemma_chain((q * 0x10_0000) * u, y * u, z, 1, 1);
    nearness::lemma_multiple(x, n * u, p, 1);
    assert(x * p == z && (n * u) * p == (p * n) * u && 0 <= (p * n) * u) by (nonlinear_arith)
        requires
            z == p * x,
            u <= 4 * p,
            u > 0,
            n > 0,
    ;
    nearness::lemma_chain((q * 0x10_0000) * u, z, (p * n) * u, 3, 1);
    nearness::lemma_divided(q * 0x10_0000, p * n, u, 5);
}

/// The room in some MiB, before it is cut to whole tokens, is close to them.
proof fn lemma_room_close(per_token: Single, spare: nat)
    requires
        ordinary(per_token),
        1 <= spare < 0x1_0000_0000,
    ensures
        ({
            let u = pow2(149) as int;
            let t = Single::nearest(spare, 1).mul_spec(fit::mib()).div_spec(per_token);
            &&& t.positive()
            &&& nearness::close(
                float::worth(t) * float::worth(per_token),
                (spare * 0x10_0000) * (u * u),
                5,
            )
        }),
{
    let c = Single::nearest(spare, 1);
    let s = c.mul_spec(fit::mib());
    let t = s.div_spec(per_token);
    let u = pow2(149) as int;
    let (p, x, n) = (float::worth(per_token), float::worth(c), spare as int);
    let m = float::worth(fit::mib());
    lemma_sizes();
    lemma_mib();
    lemma_count_size(spare);
    assert(u * u <= x * m && x * m <= 0x20_0000_0000_0000 * (u * u) && x * m == (x * 0x10_0000)
        * u) by (nonlinear_arith)
        requires
            m == 0x10_0000 * u,
            u <= 2 * x,
            x <= 0x2_0000_0000 * u,
            u > 0,
    {
        assert(x * m == 0x10_0000 * (x * u));
        assert(u * u <= (2 * x) * u);
        assert(x * u <= (0x2_0000_0000 * u) * u);
    }
    assert(0x1000_0000_0000_0000 * u <= u * u) by (nonlinear_arith)
        requires
            0x1000_0000_0000_0000 <= u,
    ;
    lemma_top(u, 0x20_0000_0000_0000);
    nearness::lemma_product(c, fit::mib());
    let y = float::worth(s);
    nearness::lemma_divided(y, x * 0x10_0000, u, 1);
    let z = x * 0x10_0000;
    assert(u <= y && y <= 0x40_0000_0000_0000 * u);
    assert(0x80_0000 * p <= y * u && y * u <= pow2(253) * p) by (nonlinear_arith)
        requires
            u <= y <= 0x40_0000_0000_0000 * u,
            u <= 4 * p,
            p <= 0x8_0000_0000_0000 * u,
            pow2(253) == 0x100_0000_0000_0000_0000_0000_0000 * u,
            pow2(149) == u,
            u >= 0x1000_0000_0000_0000,
            0x80_0000 * 0x8_0000_0000_0000 <= u,
    {
        assert(0x80_0000 * p <= (0x80_0000 * 0x8_0000_0000_0000) * u);
        assert(y * u >= u * u);
        assert(u * u >= (0x80_0000 * 0x8_0000_0000_0000) * u);
        assert(y * u <= (0x40_0000_0000_0000 * u) * u);
        assert(pow2(253) * (4 * p) >= pow2(253) * u);
        assert(pow2(253) * u == 0x100_0000_0000_0000_0000_0000_0000 * (u * u));
    }
    nearness::lemma_over(s, per_token);
    let q = float::worth(t);
    // q times the bytes of a token is close to y bytes, and those to the spare.
    nearness::lemma_multiple(y, z, u, 1);
    assert(0 <= z * u) by (nonlinear_arith)
        requires
            u * u <= z * u,
    ;
    nearness::lemma_chain(q * p, y * u, z * u, 1, 1);
    nearness::lemma_multiple(x, n * u, 0x10_0000 * u, 1);
    assert(x * (0x10_0000 * u) == z * u && (n * u) * (0x10_0000 * u) == (n * 0x10_0000) * (u * u)
        && 0 <= (n * 0x10_0000) * (u * u)) by (nonlinear_arith)
        requires
            z == x * 0x10_0000,
            n >= 0,
            u > 0,
    ;
    nearness::lemma_chain(q * p, z * u, (n * 0x10_0000) * (u * u), 3, 1);
}

/// A pool that runs is at most 63 parts in 64 full.
proof fn lemma_not_full(resident: u32, pool: u32)
    requires
        resident > 0,
        fit::band_spec(fit::ratio_spec(resident, pool)).runs(),
    ensures
        64 * resident <= 63 * pool,
{
    let u = pow2(149) as int;
    let top = Single::nearest(98, 100);
    let ratio = fit::ratio_spec(resident, pool);
    lemma_sizes();
    bounds::lemma_fraction(98, 100, 4014, 4015);
    bounds::lemma_grains(top, 4014, 4015);
    float::lemma_nearest_monotone(60, 100, 98, 100);
    float::lemma_nearest_monotone(85, 100, 98, 100);
    assert(ratio.upto(top));
    if pool > 0 && 64 * resident > 63 * pool {
        let (a, b) = (Single::nearest(resident as nat, 1), Single::nearest(pool as nat, 1));
        lemma_count_size(resident as nat);
        lemma_count_size(pool as nat);
        let (x, y) = (float::worth(a), float::worth(b));
        assert(0x80_0000 * y <= x * u && x * u <= pow2(253) * y) by (nonlinear_arith)
            requires
                u <= 2 * x,
                x <= 0x2_0000_0000 * u,
                u <= 2 * y,
                y <= 0x2_0000_0000 * u,
                pow2(253) == 0x100_0000_0000_0000_0000_0000_0000 * u,
                u >= 0x1000_0000_0000_0000,
        {
            assert((2 * x) * u >= u * u);
            assert(u * u >= 0x1000_0000_0000_0000 * u);
            assert(x * u <= (0x2_0000_0000 * u) * u);
            assert(pow2(253) * (2 * y) >= pow2(253) * u);
            assert(pow2(253) * u == 0x100_0000_0000_0000_0000_0000_0000 * (u * u));
        }
        nearness::lemma_over(a, b);
        let q = float::worth(ratio);
        let (n, d) = (resident as int, pool as int);
        assert(x * 0x100_0000 >= (n * u) * 0xff_ffff);
        assert(y * 0x100_0000 <= (d * u) * 0x100_0001);
        assert(64 * x * 1000 >= 63 * y * 999) by (nonlinear_arith)
            requires
                x * 0x100_0000 >= (n * u) * 0xff_ffff,
                y * 0x100_0000 <= (d * u) * 0x100_0001,
                64 * n > 63 * d,
                u > 0,
                d > 0,
        {
            assert((64 * n) * u >= (63 * d) * u);
            assert(64 * (n * u) >= 63 * (d * u));
            assert(d * u > 0);
        }
        assert(q * 4096 > 4027 * u) by (nonlinear_arith)
            requires
                nearness::close(q * y, x * u, 1),
                64 * x * 1000 >= 63 * y * 999,
                u > 0,
                y > 0,
        {
            let z = x * u;
            assert(q * y * 0x100_0000 >= z * 0xff_ffff);
            assert((64 * x * 1000) * u >= (63 * y * 999) * u);
            assert(64_000 * z >= 62_937 * (y * u));
            assert(y * u > 0);
            assert((q * 4096) * y > (4027 * u) * y);
        }
        float::lemma_worth_monotone(ratio, top);
        assert(false) by (nonlinear_arith)
            requires
                q * 4096 > 4027 * u,
                q <= 4015 * bounds::grain(),
                u == 4096 * bounds::grain(),
                u > 0,
        ;
    }
    if pool == 0 {
        float::lemma_worth_monotone(ratio, top);
        lemma_infinite();
    }
}

/// Infinity stands above all fractions of one.
proof fn lemma_infinite()
    ensures
        !(Single { bits: 0x7f80_0000 }).upto(Single::nearest(98, 100)),
{
    bounds::lemma_fraction(98, 100, 4014, 4015);
    crate::rounding::lemma_formats();
    assert(crate::rounding::infinity(float::single()) == 255 * pow2(23));
    float::lemma_nearest_monotone(98, 100, 1, 1);
}

/// The room that a pool leaves takes the context that its cache was computed at.
proof fn lemma_room(per_token: Single, context: u32, spare: nat)
    requires
        ordinary(per_token),
        context > 0,
        spare < 0x1_0000_0000,
        fit::cache_spec(per_token, context) < u32::MAX,
        63 * spare >= 64 * (fit::cache_spec(per_token, context) + 2),
    ensures
        fit::room_spec(spare, per_token) >= context,
{
    let u = pow2(149) as int;
    let (p, n) = (float::worth(per_token), context as int);
    let t = per_token.mul_spec(Single::nearest(context as nat, 1)).div_spec(fit::mib());
    let s = Single::nearest(spare, 1).mul_spec(fit::mib()).div_spec(per_token);
    let (kv, room) = (fit::cache_spec(per_token, context) as int, fit::room_spec(spare, per_token));
    lemma_sizes();
    lemma_cache_close(per_token, context);
    lemma_room_close(per_token, spare);
    nearness::lemma_whole(t, u32::MAX as nat);
    nearness::lemma_whole(s, u32::MAX as nat);
    let (q, r, m) = (float::worth(t), float::worth(s), spare as int);
    let v = p * n;
    let z = (m * 0x10_0000) * (u * u);
    // The tokens are less than the MiB of the cache and one,
    assert(v * 0xff_fffb <= (kv + 1) * u * 0x10_0000 * 0x100_0000) by (nonlinear_arith)
        requires
            nearness::close(q * 0x10_0000, v, 5),
            q < (kv + 1) * u,
    ;
    // and the room is 64 parts in 63 of that.
    assert(r * p * 0x100_0000 >= z * 0xff_fffb);
    assert(63 * z >= 64 * ((kv + 1) * u * 0x10_0000) * u) by (nonlinear_arith)
        requires
            z == (m * 0x10_0000) * (u * u),
            63 * m >= 64 * (kv + 2),
            u > 0,
    {
        assert((63 * m) * (0x10_0000 * (u * u)) >= (64 * (kv + 1)) * (0x10_0000 * (u * u)));
    }
    let w = (kv + 1) * u * 0x10_0000;
    assert(63 * z >= 64 * (w * u)) by (nonlinear_arith)
        requires
            63 * z >= 64 * ((kv + 1) * u * 0x10_0000) * u,
            w == (kv + 1) * u * 0x10_0000,
    ;
    assert(r * p >= v * u) by (nonlinear_arith)
        requires
            v * 0xff_fffb <= w * 0x100_0000,
            r * p * 0x100_0000 >= z * 0xff_fffb,
            63 * z >= 64 * (w * u),
            u > 0,
            v >= 0,
    {
        let a = v * u;
        assert((v * 0xff_fffb) * u <= (w * 0x100_0000) * u);
        assert(a * 0xff_fffb <= (w * u) * 0x100_0000);
        assert(a >= 0);
    }
    assert(r >= n * u) by (nonlinear_arith)
        requires
            r * p >= v * u,
            v == p * n,
            p > 0,
    {
        assert(v * u == (n * u) * p);
    }
    if room < context {
        assert((room + 1) * u <= n * u) by (nonlinear_arith)
            requires
                room + 1 <= n,
                u > 0,
        ;
    }
}

/// The context that what runs is reported to hold is no less than the one that
/// its memory was computed at, or the whole window.
pub proof fn law_what_runs_holds_its_context(
    model: ModelData,
    hw: Hardware,
    opts: Opts,
    quant: Quant,
    context: u32,
)
    requires
        fit::fit_at(model, hw, opts, quant, context).verdict.runs(),
    ensures
        ({
            let fit = fit::fit_at(model, hw, opts, quant, context);
            fit.usable_context >= context || fit.usable_context == fit::window_spec(model)
        }),
{
    reveal(fit::fit_at);
    let (layers, heads, dim, kv_source) = fit::arch_spec(model);
    let per_token = fit::token_bytes_spec(layers, heads, dim, opts.kv_quant);
    let w_full = fit::weights_spec(model.params_m(), quant);
    let w_active = fit::weights_spec(model.active_params_m(), quant);
    let kv = fit::cache_spec(per_token, context);
    let oh = fit::overhead_spec(w_full, context);
    let (mode, pool, resident, offloaded) = fit::placement_spec(
        model,
        hw,
        opts,
        w_full,
        w_active,
        kv,
        oh,
    );
    let fit = fit::fit_at(model, hw, opts, quant, context);
    let weights = fit.memory.weights_mb;
    if context > 0 {
        lemma_ordinary(layers, heads, dim, opts.kv_quant);
        float::lemma_zero_rank();
        float::lemma_exact_integer(0);
        assert(resident == fit::held(weights + kv + oh));
        assert(oh >= 128);
        lemma_not_full(resident, pool);
        // The pool is not full, so nothing was cut off.
        assert(resident == weights + kv + oh);
        let spare = (pool - weights - oh) as nat;
        assert(63 * spare >= 64 * (kv + 2));
        lemma_room(per_token, context, spare);
    }
}

/// A recommendation that runs holds the context that it was made for.
pub proof fn law_recommendations_hold_their_context(model: ModelData, hw: Hardware, opts: Opts)
    requires
        fit::evaluate_spec(model, hw, opts).verdict.runs(),
    ensures
        ({
            let fit = fit::evaluate_spec(model, hw, opts);
            fit.usable_context >= fit.effective_context || fit.usable_context == fit::window_spec(
                model,
            )
        }),
{
    let fit = fit::evaluate_spec(model, hw, opts);
    let requested = fit::requested_context(model, opts);
    fit::lemma_first_fit(model, hw, opts, requested, 0);
    fit::lemma_first_fit(model, hw, opts, requested / 2, 0);
    law_what_runs_holds_its_context(model, hw, opts, fit.quant, fit.effective_context);
}

} // verus!
