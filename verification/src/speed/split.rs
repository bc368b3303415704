//! The bandwidth of weights that lie in two memories.

use vstd::arithmetic::power2::*;
use vstd::prelude::*;

use crate::fit::{Fit, RunMode};
use crate::float;
use crate::float::about;
use crate::float::nearness;
use crate::float::Single;
use crate::hardware::Hardware;
use crate::speed;

verus! {

/// The share of the weights in the first memory, at most one.
proof fn lemma_share(v: u32, t: u32)
    requires
        t > 0,
    ensures
        ({
            let share = Single::nearest(v as nat, 1).div_spec(Single::nearest(t as nat, 1)).min_spec(
                Single::nearest(1, 1),
            );
            let (s, u) = (float::worth(share), pow2(149) as int);
            let held = if v < t {
                v
            } else {
                t
            };
            &&& share.value() is Finite
            &&& !share.neg()
            &&& 0 <= s <= u
            &&& (s * t - held * u) * 0x100_0000 <= 6 * (t * u)
            &&& (held * u - s * t) * 0x100_0000 <= 6 * (t * u)
            &&& s < u ==> share.rank() < Single::nearest(1, 1).rank()
            &&& v > 0 ==> s * 0x2_0000_0000 >= u
            &&& v == 0 ==> s == 0
        }),
{
    let (n, d) = (v as int, t as int);
    let u = pow2(149) as int;
    let one = Single::nearest(1, 1);
    let q = Single::nearest(v as nat, 1).div_spec(Single::nearest(t as nat, 1));
    let share = q.min_spec(one);
    lemma_pow2_pos(149);
    about::lemma_ratio(v as nat, 1);
    about::lemma_ratio(t as nat, 1);
    about::lemma_wide(n * 1, 1 * d);
    about::lemma_over(Single::nearest(v as nat, 1), n, 1, 1, Single::nearest(t as nat, 1), d, 1, 1);
    about::lemma_exact(1);
    float::lemma_exact_integer(1);
    let x = float::worth(q);
    let s = float::worth(share);
    if v == 0 {
        about::lemma_none(q, 1 * d, 6);
    }
    if one.below(q) {
        float::lemma_worth_monotone(one, q);
    } else {
        float::lemma_worth_monotone(q, one);
    }
    let (nu, tu) = (n * u, d * u);
    assert(0 <= nu && 0 < tu && n <= d ==> nu <= tu) by (nonlinear_arith)
        requires
            nu == n * u,
            tu == d * u,
            0 <= n,
            0 < d,
            u > 0,
    ;
    assert(n >= d ==> nu >= tu) by (nonlinear_arith)
        requires
            nu == n * u,
            tu == d * u,
            u > 0,
    ;
    assert(0 <= nu && 0 < tu) by (nonlinear_arith)
        requires
            nu == n * u,
            tu == d * u,
            0 <= n,
            0 < d,
            u > 0,
    ;
    let (xt, st) = (x * d, s * d);
    assert(u * d == tu) by (nonlinear_arith)
        requires
            tu == d * u,
    ;
    assert(s <= u ==> st <= tu) by (nonlinear_arith)
        requires
            st == s * d,
            tu == d * u,
            d > 0,
    ;
    assert(x >= u ==> xt >= tu) by (nonlinear_arith)
        requires
            xt == x * d,
            tu == d * u,
            d > 0,
    ;
    assert(x <= u ==> xt <= tu) by (nonlinear_arith)
        requires
            xt == x * d,
            tu == d * u,
            d > 0,
    ;
    if s < u && share.rank() >= one.rank() {
        float::lemma_worth_monotone(one, share);
    }
    if v > 0 {
        assert(s * 0x2_0000_0000 >= u) by (nonlinear_arith)
            requires
                s == x || s == u,
                (n * u - x * d) * 0x100_0000 <= 6 * (n * u),
                1 <= n,
                0 < d < 0x1_0000_0000,
                u > 0,
                x >= 0,
        {
            assert(n * u >= u);
            assert(x * d >= (n * u) / 2);
            assert(x * d <= x * 0x1_0000_0000);
        }
    }
}

/// The time for one byte, on the average of two memories, and its inverse.
proof fn lemma_turns(share: Single, gpu: Single, g: int, ram: Single, r: int)
    requires
        share.value() is Finite,
        !share.neg(),
        float::worth(share) <= pow2(149),
        float::worth(share) < pow2(149) ==> share.rank() < Single::nearest(1, 1).rank(),
        float::worth(share) == 0 || float::worth(share) * 0x2_0000_0000 >= pow2(149),
        about::about(gpu, g, 10, 1),
        about::about(ram, r, 10, 1),
        0 < g < 0x10_0000,
        0 < r < 0x10_0000,
    ensures
        ({
            let one = Single::nearest(1, 1);
            let b = one.div_spec(
                share.div_spec(gpu).add_spec(one.sub_spec(share).div_spec(ram)),
            );
            let (s, u) = (float::worth(share), pow2(149) as int);
            about::about(b, (u * g) * r, 10 * (s * r + (u - s) * g), 12)
        }),
{
    let one = Single::nearest(1, 1);
    let (s, u) = (float::worth(share), pow2(149) as int);
    let rest = one.sub_spec(share);
    lemma_pow2_pos(149);
    about::lemma_from_one(share);
    let l = u - s;
    let (x, y) = (share.div_spec(gpu), rest.div_spec(ram));
    assert(about::about(share, s, u, 0)) by {
        assert(0 * (s * u) == 0);
    }
    lemma_wide_shares(s, l, u, g, r);
    about::lemma_over(share, s, u, 0, gpu, g, 10, 1);
    about::lemma_over(rest, l, u, 1, ram, r, 10, 1);
    let d = (u * g) * r;
    about::lemma_expanded(x, s * 10, u * g, r, 5);
    about::lemma_expanded(y, l * 10, u * r, g, 6);
    let (i, j) = ((s * 10) * r, (l * 10) * g);
    assert((u * r) * g == d) by (nonlinear_arith)
        requires
            d == (u * g) * r,
    ;
    assert(i >= 0 && j >= 0 && i + j == 10 * (s * r + l * g)) by (nonlinear_arith)
        requires
            i == (s * 10) * r,
            j == (l * 10) * g,
            s >= 0,
            l >= 0,
            r > 0,
            g > 0,
    ;
    about::lemma_wider(x, i, d, 5, 6);
    about::lemma_plus(x, i, y, j, d, 6);
    about::lemma_exact(1);
    let n = i + j;
    assert(n > 0 && d > 0) by (nonlinear_arith)
        requires
            i + j == 10 * (s * r + l * g),
            n == i + j,
            s + l == u,
            s >= 0,
            l >= 0,
            u > 0,
            r > 0,
            g > 0,
            d == (u * g) * r,
    {
        assert(s * r >= s);
        assert(l * g >= l);
        assert(u * g > 0);
    }
    assert(1 * d == d && 1 * n == n);
    about::lemma_over(one, 1, 1, 0, x.add_spec(y), n, d, 8);
}

/// The fractions that occur are wide.
proof fn lemma_wide_shares(s: int, l: int, u: int, g: int, r: int)
    requires
        u == pow2(149),
        s + l == u,
        0 <= s,
        0 <= l,
        s == 0 || s * 0x2_0000_0000 >= u,
        l == 0 || l * 0x100_0000 >= u,
        0 < g < 0x10_0000,
        0 < r < 0x10_0000,
    ensures
        about::wide(s * 10, u * g),
        about::wide(l * 10, u * r),
        about::wide((s * 10) * r + (l * 10) * g, (u * g) * r),
        about::wide((u * g) * r, (s * 10) * r + (l * 10) * g),
{
    let (lo, hi) = (pow2(120) as int, pow2(100) as int);
    lemma_pow2_pos(149);
    lemma2_to64();
    lemma2_to64_rest();
    lemma_pow2_strictly_increases(64, 100);
    lemma_pow2_strictly_increases(64, 120);
    assert(lo > 0x1_0000_0000_0000_0000 && hi > 0x1_0000_0000_0000_0000);
    assert(u * g > 0 && u * r > 0) by (nonlinear_arith)
        requires
            u > 0,
            g > 0,
            r > 0,
    ;
    if s > 0 {
        assert(u * g <= (s * 10) * lo && s * 10 <= (u * g) * hi) by (nonlinear_arith)
            requires
                0 < s <= u,
                s * 0x2_0000_0000 >= u,
                0 < g < 0x10_0000,
                lo > 0x1_0000_0000_0000_0000,
                hi > 0x1_0000_0000_0000_0000,
        {
            assert(u * g <= (s * 0x2_0000_0000) * 0x10_0000);
            assert((s * 10) * lo >= (s * 10) * 0x1_0000_0000_0000_0000);
            assert((u * g) * hi >= u * hi);
            assert(u * hi >= u * 10);
        }
    }
    if l > 0 {
        assert(u * r <= (l * 10) * lo && l * 10 <= (u * r) * hi) by (nonlinear_arith)
            requires
                0 < l <= u,
                l * 0x100_0000 >= u,
                0 < r < 0x10_0000,
                lo > 0x1_0000_0000_0000_0000,
                hi > 0x1_0000_0000_0000_0000,
        {
            assert(u * r <= (l * 0x100_0000) * 0x10_0000);
            assert((l * 10) * lo >= (l * 10) * 0x1_0000_0000_0000_0000);
            assert((u * r) * hi >= u * hi);
            assert(u * hi >= u * 10);
        }
    }
    let (n, d) = ((s * 10) * r + (l * 10) * g, (u * g) * r);
    assert(n >= 10 * u && n <= 0x100_0000 * u && d >= u && d <= 0x100_0000_0000 * u)
        by (nonlinear_arith)
        requires
            n == (s * 10) * r + (l * 10) * g,
            d == (u * g) * r,
            s + l == u,
            0 <= s,
            0 <= l,
            0 < g < 0x10_0000,
            0 < r < 0x10_0000,
            u > 0,
    {
        assert((s * 10) * r >= s * 10);
        assert((l * 10) * g >= l * 10);
        assert((s * 10) * r <= (s * 10) * 0x10_0000);
        assert((l * 10) * g <= (l * 10) * 0x10_0000);
        assert(u * g >= u);
        assert((u * g) * r >= u * g);
        assert(u * g <= u * 0x10_0000);
        assert((u * g) * r <= (u * 0x10_0000) * 0x10_0000);
    }
    assert(d <= n * lo && n <= d * hi && n <= d * lo && d <= n * hi) by (nonlinear_arith)
        requires
            10 * u <= n <= 0x100_0000 * u,
            u <= d <= 0x100_0000_0000 * u,
            lo > 0x1_0000_0000_0000_0000,
            hi > 0x1_0000_0000_0000_0000,
            u > 0,
    {
        assert(n * lo >= (10 * u) * 0x1_0000_0000_0000_0000);
        assert(n * hi >= (10 * u) * 0x1_0000_0000_0000_0000);
        assert(d * lo >= u * 0x1_0000_0000_0000_0000);
        assert(d * hi >= u * 0x1_0000_0000_0000_0000);
    }
}

/// From the share as it is held to the share itself.
proof fn lemma_settled(w: int, s: int, u: int, v: int, t: int, g: int, r: int)
    requires
        nearness::close(w * (10 * (s * r + (u - s) * g)), ((u * g) * r) * u, 12),
        (s * t - v * u) * 0x100_0000 <= 6 * (t * u),
        (v * u - s * t) * 0x100_0000 <= 6 * (t * u),
        0 <= s <= u,
        0 <= v <= t,
        0 < t,
        0 < u,
        0 < g,
        0 < r,
        0 <= w,
    ensures
        ({
            let (left, right) = (w * (10 * (v * r + (t - v) * g)), t * (g * r) * u);
            &&& (left - right) * 0x8_0000 <= w * (10 * (t * (g + r)))
            &&& (right - left) * 0x8_0000 <= w * (10 * (t * (g + r)))
        }),
{
    let m = v * r + (t - v) * g;
    let n = s * r + (u - s) * g;
    let k = g + r;
    let e = s * t - v * u;
    let (x, y) = (w * (10 * n), ((u * g) * r) * u);
    // What the shares differ by.
    let (st, vu, tu) = (s * t, v * u, t * u);
    assert(tu > 0) by (nonlinear_arith)
        requires
            tu == t * u,
            0 < t,
            0 < u,
    ;
    assert(t * n == st * r + tu * g - st * g) by (nonlinear_arith)
        requires
            n == s * r + (u - s) * g,
            st == s * t,
            tu == t * u,
    ;
    assert(u * m == vu * r + tu * g - vu * g) by (nonlinear_arith)
        requires
            m == v * r + (t - v) * g,
            vu == v * u,
            tu == t * u,
    ;
    assert(e * (r - g) == st * r - st * g - vu * r + vu * g) by (nonlinear_arith)
        requires
            e == st - vu,
    ;
    let f = e * (r - g);
    assert(f * 0x100_0000 <= 6 * (tu * k) && -f * 0x100_0000 <= 6 * (tu * k)) by (nonlinear_arith)
        requires
            f == e * (r - g),
            k == g + r,
            e * 0x100_0000 <= 6 * tu,
            -e * 0x100_0000 <= 6 * tu,
            0 < g,
            0 < r,
            0 < tu,
    {
        if r >= g {
            assert((e * 0x100_0000) * (r - g) <= (6 * tu) * (r - g));
            assert((-e * 0x100_0000) * (r - g) <= (6 * tu) * (r - g));
            assert((6 * tu) * (r - g) <= (6 * tu) * k);
        } else {
            assert((e * 0x100_0000) * (g - r) <= (6 * tu) * (g - r));
            assert((-e * 0x100_0000) * (g - r) <= (6 * tu) * (g - r));
            assert((6 * tu) * (g - r) <= (6 * tu) * k);
        }
    }
    // What the bandwidth is off by.
    assert(0 <= n <= u * k) by (nonlinear_arith)
        requires
            n == s * r + (u - s) * g,
            k == g + r,
            0 <= s <= u,
            0 < g,
            0 < r,
    ;
    assert(0 <= y) by (nonlinear_arith)
        requires
            y == ((u * g) * r) * u,
            0 < u,
            0 < g,
            0 < r,
    ;
    assert(x <= w * (10 * (u * k)) && y <= 2 * x) by (nonlinear_arith)
        requires
            x == w * (10 * n),
            n <= u * k,
            0 <= w,
            (y - x) * 0x100_0000 <= 12 * y,
            0 <= y,
    ;
    let z = w * (10 * (u * k));
    assert((x - y) * 0x100_0000 <= 24 * z && (y - x) * 0x100_0000 <= 24 * z);
    let (left, right) = (w * (10 * m), t * (g * r) * u);
    let h = w * (10 * (t * k));
    let (c, p) = (10 * w, u * h);
    let (cf, tx, ty, tz) = (c * f, t * x, t * y, t * z);
    assert(tz == p && c * (tu * k) == p) by (nonlinear_arith)
        requires
            tz == t * z,
            z == w * (10 * (u * k)),
            h == w * (10 * (t * k)),
            p == u * h,
            c == 10 * w,
            tu == t * u,
    ;
    assert(cf * 0x100_0000 <= 6 * p && -cf * 0x100_0000 <= 6 * p) by (nonlinear_arith)
        requires
            cf == c * f,
            c * (tu * k) == p,
            f * 0x100_0000 <= 6 * (tu * k),
            -f * 0x100_0000 <= 6 * (tu * k),
            c >= 0,
    {
        assert(c * (f * 0x100_0000) <= c * (6 * (tu * k)));
        assert(c * (-f * 0x100_0000) <= c * (6 * (tu * k)));
    }
    assert((tx - ty) * 0x100_0000 <= 24 * p && (ty - tx) * 0x100_0000 <= 24 * p)
        by (nonlinear_arith)
        requires
            tx == t * x,
            ty == t * y,
            tz == t * z,
            tz == p,
            (x - y) * 0x100_0000 <= 24 * z,
            (y - x) * 0x100_0000 <= 24 * z,
            0 < t,
    {
        assert(t * ((x - y) * 0x100_0000) <= t * (24 * z));
        assert(t * ((y - x) * 0x100_0000) <= t * (24 * z));
    }
    let (ul, ur) = (u * left, u * right);
    assert(ty == ur) by (nonlinear_arith)
        requires
            ty == t * y,
            y == ((u * g) * r) * u,
            ur == u * right,
            right == t * (g * r) * u,
    ;
    assert(tx == ul + cf) by (nonlinear_arith)
        requires
            tx == t * x,
            x == w * (10 * n),
            t * n == u * m + f,
            ul == u * left,
            left == w * (10 * m),
            c == 10 * w,
            cf == c * f,
    {
        assert(tx == c * (t * n));
        assert(c * (u * m + f) == c * (u * m) + cf);
        assert(c * (u * m) == ul);
    }
    assert((ul - ur) * 0x100_0000 <= 30 * p && (ur - ul) * 0x100_0000 <= 30 * p);
    assert((left - right) * 0x100_0000 <= 30 * h && (right - left) * 0x100_0000 <= 30 * h)
        by (nonlinear_arith)
        requires
            (ul - ur) * 0x100_0000 <= 30 * p,
            (ur - ul) * 0x100_0000 <= 30 * p,
            ul == u * left,
            ur == u * right,
            p == u * h,
            0 < u,
    {
        assert(u * ((left - right) * 0x100_0000) <= u * (30 * h));
        assert(u * ((right - left) * 0x100_0000) <= u * (30 * h));
    }
    assert(h >= 0) by (nonlinear_arith)
        requires
            h == w * (10 * (t * k)),
            0 <= w,
            0 < t,
            0 < k,
    {
        assert(t * k > 0);
    }
}

/// Weights that lie in two memories are read from the one and then from the
/// other, so it is the times that add up. With `v` of `t` MiB in a memory of `g`
/// tenths of a GB/s and the rest in one of `r` tenths, the bandwidth `b` makes
/// `t / b` the sum of `v / g` and `(t - v) / r`, to within one part in `2^19` of
/// what the whole would take from both.
pub proof fn law_split_weights_are_read_in_turn(hw: Hardware, fit: Fit)
    requires
        fit.run_mode == RunMode::CpuGpu,
        hw.gpu_bandwidth_gbps > 0,
        fit.memory.weights_mb + fit.memory.kv_cache_mb + fit.memory.overhead_mb > 0,
    ensures
        ({
            let b = speed::bandwidth_spec(hw, fit);
            let whole = fit.memory.weights_mb + fit.memory.kv_cache_mb + fit.memory.overhead_mb;
            let t = if whole <= u32::MAX {
                whole
            } else {
                u32::MAX as int
            };
            let v = if hw.vram_mb < t {
                hw.vram_mb as int
            } else {
                t
            };
            let g = 10 * hw.gpu_bandwidth_gbps;
            let r = if hw.ram_bandwidth_gbps > 0 {
                10 * hw.ram_bandwidth_gbps
            } else if hw.unified {
                g
            } else {
                512
            };
            let w = float::worth(b);
            let (left, right) = (w * (10 * (v * r + (t - v) * g)), t * (g * r) * pow2(149));
            &&& b.positive()
            &&& (left - right) * 0x8_0000 <= w * (10 * (t * (g + r)))
            &&& (right - left) * 0x8_0000 <= w * (10 * (t * (g + r)))
        }),
{
    let t = fit.memory.resident_spec();
    let one = Single::nearest(1, 1);
    let u = pow2(149) as int;
    let (gpu, ram) = (hw.gpu_bandwidth_spec().0, hw.ram_bandwidth_spec());
    let g = 10 * hw.gpu_bandwidth_gbps;
    let r = if hw.ram_bandwidth_gbps > 0 {
        10 * hw.ram_bandwidth_gbps
    } else if hw.unified {
        g
    } else {
        512
    };
    lemma_stated(hw);
    lemma_pow2_pos(149);
    let total = Single::nearest(t as nat, 1);
    about::lemma_ratio(t as nat, 1);
    about::lemma_above(total, t as int, 1, 1);
    about::lemma_above(gpu, g, 10, 1);
    float::lemma_zero_rank();
    float::lemma_exact_integer(0);
    let share = Single::nearest(hw.vram_mb as nat, 1).div_spec(total).min_spec(one);
    lemma_share(hw.vram_mb, t);
    let s = float::worth(share);
    lemma_turns(share, gpu, g, ram, r);
    let b = speed::bandwidth_spec(hw, fit);
    let w = float::worth(b);
    let v = if hw.vram_mb < t {
        hw.vram_mb as int
    } else {
        t as int
    };
    let n = 10 * (s * r + (u - s) * g);
    assert((u * g) * r > 0 && n > 0) by (nonlinear_arith)
        requires
            u > 0,
            g > 0,
            r > 0,
            n == 10 * (s * r + (u - s) * g),
            0 <= s <= u,
    {
        assert(u * g > 0);
        assert(s * r >= s);
        assert((u - s) * g >= u - s);
    }
    about::lemma_above(b, (u * g) * r, n, 12);
    lemma_settled(w, s, u, v, t as int, g, r);
}

/// The bandwidths that a machine states, in tenths.
pub proof fn lemma_stated(hw: Hardware)
    ensures
        hw.gpu_bandwidth_gbps > 0 ==> about::about(
            hw.gpu_bandwidth_spec().0,
            10 * hw.gpu_bandwidth_gbps,
            10,
            1,
        ),
        about::about(
            hw.ram_bandwidth_spec(),
            if hw.ram_bandwidth_gbps > 0 {
                10 * hw.ram_bandwidth_gbps
            } else if hw.unified {
                if hw.gpu_bandwidth_gbps > 0 {
                    10 * hw.gpu_bandwidth_gbps
                } else {
                    1000
                }
            } else {
                512
            },
            10,
            1,
        ),
{
    let (g, r) = (hw.gpu_bandwidth_gbps as nat, hw.ram_bandwidth_gbps as nat);
    about::lemma_ratio(g, 1);
    about::lemma_expanded(Single::nearest(g, 1), g as int, 1, 10, 1);
    about::lemma_ratio(r, 1);
    about::lemma_expanded(Single::nearest(r, 1), r as int, 1, 10, 1);
    about::lemma_ratio(100, 1);
    about::lemma_expanded(Single::nearest(100, 1), 100, 1, 10, 1);
    about::lemma_ratio(512, 10);
}

/// The bandwidth of a split lies between one GB/s and the largest that can be
/// stated.
pub proof fn lemma_split_size(hw: Hardware, fit: Fit, gpu: Single, g: int, ram: Single, r: int)
    requires
        fit.memory.resident_spec() > 0,
        about::about(gpu, g, 10, 1),
        about::about(ram, r, 10, 1),
        10 <= g <= 655_350,
        10 <= r <= 655_350,
    ensures
        ({
            let one = Single::nearest(1, 1);
            let share = Single::nearest(hw.vram_mb as nat, 1).div_spec(
                Single::nearest(fit.memory.resident_spec() as nat, 1),
            ).min_spec(one);
            let b = one.div_spec(
                share.div_spec(gpu).add_spec(one.sub_spec(share).div_spec(ram)),
            );
            let (w, u) = (float::worth(b), pow2(149) as int);
            &&& b.positive()
            &&& u <= 2 * w
            &&& w <= 131_070 * u
        }),
{
    let t = fit.memory.resident_spec();
    let one = Single::nearest(1, 1);
    let u = pow2(149) as int;
    let share = Single::nearest(hw.vram_mb as nat, 1).div_spec(
        Single::nearest(t as nat, 1),
    ).min_spec(one);
    let b = one.div_spec(share.div_spec(gpu).add_spec(one.sub_spec(share).div_spec(ram)));
    lemma_pow2_pos(149);
    lemma_share(hw.vram_mb, t);
    lemma_turns(share, gpu, g, ram, r);
    let (s, w) = (float::worth(share), float::worth(b));
    let (n, d) = ((u * g) * r, 10 * (s * r + (u - s) * g));
    assert(0 < d <= n && n <= 65_535 * d) by (nonlinear_arith)
        requires
            n == (u * g) * r,
            d == 10 * (s * r + (u - s) * g),
            0 <= s <= u,
            u > 0,
            10 <= g <= 655_350,
            10 <= r <= 655_350,
    {
        let (p, q) = (s * r, (u - s) * g);
        assert(p >= 10 * s && q >= 10 * (u - s));
        assert(n == p * g + q * r);
        assert(10 * p <= p * g && 10 * q <= q * r);
        assert(p * g <= p * 655_350 && q * r <= q * 655_350);
    }
    about::lemma_above(b, n, d, 12);
    assert(u <= 2 * w && w <= 131_070 * u) by (nonlinear_arith)
        requires
            nearness::close(w * d, n * u, 12),
            0 < d <= n,
            n <= 65_535 * d,
            u > 0,
    {
        let (x, y) = (w * d, n * u);
        assert(y >= d * u);
        assert(y <= (65_535 * d) * u);
        assert(y <= 2 * x && x <= 2 * y);
        assert(d * u <= d * (2 * w));
        assert(d * w <= d * (131_070 * u));
    }
}

} // verus!
