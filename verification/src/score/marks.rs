//! What the single scores come to.

use vstd::arithmetic::power2::*;
use vstd::prelude::*;

use crate::catalog::{ModelData, UseCase};
use crate::fit::{Fit, Verdict};
use crate::float;
use crate::float::about;
use crate::float::bounds;
use crate::float::Single;
use crate::quant::Quant;
use crate::score;
use crate::score::curve;

verus! {

/// A score of a fraction is the fraction cut, and a hundred at the most.
proof fn lemma_clamped_cut(v: Single, n: int, d: int, e: int)
    requires
        about::about(v, n, d, e),
        0 <= n,
        0 < d,
        0 <= e <= 64,
    ensures
        about::cut(score::clamp_spec(v) as int, n, d, e, 100),
{
    let hundred = Single::nearest(100, 1);
    let u = pow2(149) as int;
    let x = float::worth(v);
    lemma_pow2_pos(149);
    float::lemma_zero_rank();
    float::lemma_exact_integer(0);
    float::lemma_exact_integer(100);
    about::lemma_exact(100);
    about::lemma_exact(0);
    score::lemma_clamped();
    about::lemma_cut(v, n, d, e, 255);
    if v.upto(Single::nearest(0, 1)) {
        if n > 0 {
            about::lemma_above(v, n, d, e);
        }
        assert(0 * d == 0 && 1 * d == d);
        assert(n * (0x100_0000 - e) == 0 && n * (0x100_0000 + e) == 0) by (nonlinear_arith)
            requires
                n == 0,
        ;
    } else if hundred.upto(v) {
        float::lemma_worth_monotone(hundred, v);
        assert((100 * d) * 0x100_0000 <= n * (0x100_0000 + e)) by (nonlinear_arith)
            requires
                100 * u <= x,
                (x * d - n * u) * 0x100_0000 <= e * (n * u),
                d > 0,
                u > 0,
        {
            assert((100 * u) * d <= x * d);
            assert(((100 * d) * 0x100_0000) * u <= (n * (0x100_0000 + e)) * u);
        }
    }
}

/// Context scores by its share of what the use case needs: 32768 tokens for
/// coding, 16384 for reasoning, 512 for embedding and 8192 for the rest. All of
/// it is a hundred.
pub proof fn law_context_scores_by_its_share(fit: Fit, use_case: UseCase)
    ensures
        ({
            let s = score::context_spec(fit, use_case) as int;
            let need = match use_case {
                UseCase::Coding => 32_768,
                UseCase::Reasoning => 16_384,
                UseCase::General => 8_192,
                UseCase::Chat => 8_192,
                UseCase::Multimodal => 8_192,
                UseCase::Embedding => 512int,
            };
            &&& fit.usable_context >= need ==> s == 100
            &&& fit.usable_context < need ==> about::cut(
                s,
                fit.usable_context * 100,
                need,
                7,
                100,
            )
        }),
{
    let t = score::context_target_spec(use_case);
    let n = fit.usable_context as nat;
    let (hundred, target, usable) = (
        Single::nearest(100, 1),
        Single::nearest(t, 1),
        Single::nearest(n, 1),
    );
    about::lemma_exact(100);
    about::lemma_exact(t);
    float::lemma_exact_integer(100);
    float::lemma_exact_integer(t);
    if n >= t {
        float::lemma_nearest_monotone(t, 1, n, 1);
        float::lemma_zero_rank();
        float::lemma_count_positive(100);
    } else {
        about::lemma_exact(n);
        about::lemma_ratio(n, 1);
        about::lemma_beyond(target, t as int, 1, 0, usable, n as int, 1, 0);
        about::lemma_wide(n as int, t as int);
        about::lemma_over(usable, n as int, 1, 0, target, t as int, 1, 0);
        about::lemma_wide(n as int * 100, t as int);
        about::lemma_times(hundred, 100, 1, 0, usable.div_spec(target), n as int, t as int, 4);
        lemma_clamped_cut(hundred.mul_spec(usable.div_spec(target)), n as int * 100, t as int, 7);
    }
}

/// Throughput below what the use case needs scores 85 times its share of it:
/// thirty tokens a second for conversation, 20 in general and for coding, 15 for
/// images, 10 for reasoning and 100 for embedding. At the target and past it
/// there are 92 to 100 points.
pub proof fn law_throughput_scores_by_its_share(decode_tps_x10: u32, use_case: UseCase)
    ensures
        ({
            let s = score::speed_spec(decode_tps_x10, use_case) as int;
            let need = match use_case {
                UseCase::Chat => 300,
                UseCase::General => 200,
                UseCase::Coding => 200,
                UseCase::Multimodal => 150,
                UseCase::Reasoning => 100,
                UseCase::Embedding => 1000int,
            };
            &&& decode_tps_x10 >= need ==> 92 <= s <= 100
            &&& decode_tps_x10 < need ==> about::cut(s, decode_tps_x10 * 85, need, 12, 100)
        }),
{
    let (n, t) = (decode_tps_x10 as nat, score::speed_target_spec(use_case));
    let (one, ten, target) = (
        Single::nearest(1, 1),
        Single::nearest(10, 1),
        Single::nearest(t, 1),
    );
    let x = Single::nearest(n, 1);
    let ratio = score::speed_ratio(decode_tps_x10, use_case);
    about::lemma_exact(1);
    about::lemma_exact(10);
    about::lemma_exact(t);
    about::lemma_exact(85);
    about::lemma_ratio(n, 1);
    float::lemma_exact_integer(1);
    if n >= 10 * t {
        lemma_reached(decode_tps_x10, use_case);
        curve::lemma_target_reached(decode_tps_x10, use_case);
        lemma_clamped_between(score::past_target(ratio), 378_880, 409_600);
    } else {
        about::lemma_wide(n as int, 10);
        about::lemma_over(x, n as int, 1, 1, ten, 10, 1, 0);
        about::lemma_wide(n as int, 10 * t as int);
        about::lemma_over(x.div_spec(ten), n as int, 10, 5, target, t as int, 1, 0);
        let d = (10 * t) as int;
        about::lemma_beyond(one, 1, 1, 0, ratio, n as int, d, 9);
        about::lemma_wide(n as int * 85, d);
        about::lemma_times(Single::nearest(85, 1), 85, 1, 0, ratio, n as int, d, 9);
        lemma_clamped_cut(Single::nearest(85, 1).mul_spec(ratio), n as int * 85, d, 12);
    }
}

/// Past the target there is less to gain the further past it is: with `r` the
/// throughput over the target, what is missing to a hundred is 15 over one and
/// the logarithm of `1 + r`. (The logarithm `v` is in units `u` of `2^-149`.)
pub proof fn law_past_the_target_less_is_gained(decode_tps_x10: u32, use_case: UseCase)
    ensures
        ({
            let s = score::speed_spec(decode_tps_x10, use_case) as int;
            let n = decode_tps_x10 as int;
            let need = match use_case {
                UseCase::Chat => 300,
                UseCase::General => 200,
                UseCase::Coding => 200,
                UseCase::Multimodal => 150,
                UseCase::Reasoning => 100,
                UseCase::Embedding => 1000int,
            };
            let more = Single::nearest(n as nat, 1).div_spec(Single::nearest(10, 1)).div_spec(
                Single::nearest((need / 10) as nat, 1),
            ).add_spec(Single::nearest(1, 1));
            let (v, u) = (float::worth(score::log2_spec(more)), pow2(149) as int);
            n >= need ==> {
                &&& about::about(more, n + need, need, 11)
                &&& about::cut(s, 85 * u + 100 * v, u + v, 8, 100)
            }
        }),
{
    let (n, t) = (decode_tps_x10 as nat, score::speed_target_spec(use_case));
    let (one, ten, target) = (
        Single::nearest(1, 1),
        Single::nearest(10, 1),
        Single::nearest(t, 1),
    );
    let x = Single::nearest(n, 1);
    let ratio = score::speed_ratio(decode_tps_x10, use_case);
    let more = ratio.add_spec(one);
    let u = pow2(149) as int;
    let d = (10 * t) as int;
    lemma_pow2_pos(149);
    if n >= d {
        lemma_reached(decode_tps_x10, use_case);
        about::lemma_exact(1);
        about::lemma_exact(10);
        about::lemma_exact(t);
        about::lemma_ratio(n, 1);
        about::lemma_wide(n as int, 10);
        about::lemma_over(x, n as int, 1, 1, ten, 10, 1, 0);
        about::lemma_wide(n as int, d);
        about::lemma_over(x.div_spec(ten), n as int, 10, 5, target, t as int, 1, 0);
        about::lemma_expanded(one, 1, 1, d, 0);
        about::lemma_wider(one, d, d, 0, 9);
        about::lemma_wide(n + d, d);
        about::lemma_plus(ratio, n as int, one, d, d, 9);
        curve::lemma_target_reached(decode_tps_x10, use_case);
        bounds::lemma_one_more(n, 10, t);
        curve::lemma_curve_finite(more);
        let e = curve::exponent(more);
        assert(e >= 1);
        let log = score::log2_spec(more);
        let g = bounds::grain() as int;
        bounds::lemma_grains(log, 4096 * e, 4096 * e + 4096);
        assert(u <= float::worth(log) && float::worth(log) <= 200 * u) by (nonlinear_arith)
            requires
                (4096 * e) * g <= float::worth(log),
                float::worth(log) <= (4096 * e + 4096) * g,
                u == 4096 * g,
                1 <= e <= 128,
                g > 0,
        ;
        lemma_missing(log);
        let v = float::worth(score::log2_spec(more));
        lemma_clamped_cut(score::past_target(ratio), 85 * u + 100 * v, u + v, 8);
    }
}

/// At the target the ratio is one, and past it more.
proof fn lemma_reached(decode_tps_x10: u32, use_case: UseCase)
    requires
        decode_tps_x10 >= 10 * score::speed_target_spec(use_case),
    ensures
        Single::nearest(1, 1).upto(score::speed_ratio(decode_tps_x10, use_case)),
{
    let (n, t) = (decode_tps_x10 as nat, score::speed_target_spec(use_case));
    let (one, ten, target) = (
        Single::nearest(1, 1),
        Single::nearest(10, 1),
        Single::nearest(t, 1),
    );
    let x = Single::nearest(n, 1);
    let y = Single::nearest(10 * t, 1);
    float::lemma_exact_integer(1);
    float::lemma_count_positive(10);
    float::lemma_count_positive(t);
    float::lemma_nearest_monotone(10 * t, 1, n, 1);
    float::lemma_over_monotone(y, x, ten);
    float::lemma_count_ratio(10 * t, 10);
    float::lemma_nearest_monotone(t, 1, 10 * t, 10);
    float::lemma_over_monotone(target, y.div_spec(ten), target);
    float::lemma_over_monotone(y.div_spec(ten), x.div_spec(ten), target);
    float::lemma_count_ratio(t, t);
    assert(1 * t <= t * 1);
    float::lemma_nearest_monotone(1, 1, t, t);
}

/// What is missing to a hundred.
proof fn lemma_missing(log: Single)
    requires
        log.value() is Finite,
        pow2(149) <= float::worth(log) <= 200 * pow2(149),
    ensures
        ({
            let one = Single::nearest(1, 1);
            let raw = Single::nearest(85, 1).add_spec(
                Single::nearest(15, 1).mul_spec(
                    one.sub_spec(one.div_spec(one.add_spec(log))),
                ),
            );
            let (v, u) = (float::worth(log), pow2(149) as int);
            about::about(raw, 85 * u + 100 * v, u + v, 8)
        }),
{
    let one = Single::nearest(1, 1);
    let (v, u) = (float::worth(log), pow2(149) as int);
    let whole = one.add_spec(log);
    let part = one.div_spec(whole);
    let rest = one.sub_spec(part);
    let fifteen = Single::nearest(15, 1);
    lemma_pow2_pos(149);
    about::lemma_exact(1);
    about::lemma_exact(15);
    about::lemma_exact(85);
    float::lemma_exact_integer(1);
    assert(about::about(log, v, u, 0)) by {
        assert(0 * (v * u) == 0);
    }
    about::lemma_expanded(one, 1, 1, u, 0);
    lemma_near_one(u + v, u);
    about::lemma_plus(one, u, log, v, u, 0);
    lemma_near_one(u, u + v);
    assert(1 * u == u && 1 * (u + v) == u + v);
    about::lemma_over(one, 1, 1, 0, whole, u + v, u, 2);
    let s = float::worth(part);
    about::lemma_above(part, u, u + v, 6);
    // The part is no more than about a half.
    assert(0 <= s && s * 3 <= 2 * u) by (nonlinear_arith)
        requires
            (s * (u + v) - u * u) * 0x100_0000 <= 6 * (u * u),
            u <= v,
            0 < u,
            0 <= s,
    {
        assert(s * (2 * u) <= s * (u + v));
        assert((s * (2 * u)) * 0x100_0000 <= (u * u) * 0x100_0006);
        assert((2 * s * 0x100_0000) * u <= (u * 0x100_0006) * u);
        assert(2 * s * 0x100_0000 <= u * 0x100_0006);
    }
    if part.rank() >= one.rank() {
        float::lemma_worth_monotone(one, part);
    }
    about::lemma_from_one(part);
    let r = u - s;
    lemma_near_one(15 * r, u);
    about::lemma_times(fifteen, 15, 1, 0, rest, r, u, 1);
    about::lemma_expanded(Single::nearest(85, 1), 85, 1, u, 0);
    about::lemma_wider(Single::nearest(85, 1), 85 * u, u, 0, 4);
    lemma_near_one(85 * u + 15 * r, u);
    assert(1 * u == u);
    about::lemma_plus(Single::nearest(85, 1), 85 * u, fifteen.mul_spec(rest), 15 * r, u, 4);
    let raw = Single::nearest(85, 1).add_spec(fifteen.mul_spec(rest));
    // From the part as it is held to the part itself.
    let (n, k) = (85 * u + 15 * r, u + v);
    let m = 85 * u + 100 * v;
    let w = float::worth(raw);
    assert(crate::float::nearness::close(n * k, m * u, 1)) by (nonlinear_arith)
        requires
            n == 100 * u - 15 * s,
            k == u + v,
            m == 85 * u + 100 * v,
            (s * k - u * u) * 0x100_0000 <= 6 * (u * u),
            (u * u - s * k) * 0x100_0000 <= 6 * (u * u),
            u <= v,
            0 < u,
    {
        let (p, q) = (s * k, u * u);
        assert(n * k == 100 * (u * k) - 15 * p);
        assert(u * k == q + u * v);
        assert(m * u == 85 * q + 100 * (u * v));
        assert(u * v >= q);
    }
    crate::float::nearness::lemma_multiple(w * u, n * u, k, 6);
    crate::float::nearness::lemma_multiple(n * k, m * u, u, 1);
    assert((w * u) * k == (w * k) * u && (n * u) * k == (n * k) * u) by (nonlinear_arith);
    assert((m * u) * u >= 0) by (nonlinear_arith)
        requires
            m >= 0,
            u > 0,
    {
        assert(m * u >= 0);
    }
    crate::float::nearness::lemma_chain((w * k) * u, (n * k) * u, (m * u) * u, 6, 1);
    crate::float::nearness::lemma_divided(w * k, m * u, u, 8);
}

/// Fractions of ordinary size are wide.
proof fn lemma_near_one(n: int, d: int)
    requires
        0 < n,
        0 < d,
        d <= 256 * n,
        n <= 256 * d,
    ensures
        about::wide(n, d),
{
    lemma2_to64();
    lemma_pow2_strictly_increases(8, 100);
    lemma_pow2_strictly_increases(8, 120);
    assert(d <= n * pow2(120) && n <= d * pow2(100)) by (nonlinear_arith)
        requires
            0 < n,
            0 < d,
            d <= 256 * n,
            n <= 256 * d,
            pow2(120) > 256,
            pow2(100) > 256,
    ;
}

/// The score of what lies between bounds in grains.
proof fn lemma_clamped_between(v: Single, lo: int, hi: int)
    requires
        bounds::between(v, lo, hi),
    ensures
        ({
            let s = score::clamp_spec(v) as int;
            &&& 0 <= s <= 100
            &&& s > 0 ==> 4096 * s <= hi
            &&& s < 100 ==> 4096 * (s + 1) > lo
        }),
{
    let (none, hundred) = (Single::nearest(0, 1), Single::nearest(100, 1));
    let u = pow2(149) as int;
    let g = bounds::grain() as int;
    let x = float::worth(v);
    bounds::lemma_grains(v, lo, hi);
    float::lemma_zero_rank();
    float::lemma_exact_integer(0);
    float::lemma_exact_integer(100);
    about::lemma_exact(0);
    about::lemma_exact(100);
    score::lemma_clamped();
    let s = score::clamp_spec(v) as int;
    if v.upto(none) {
        float::lemma_worth_monotone(v, none);
        assert(lo < 4096) by (nonlinear_arith)
            requires
                lo * g <= x,
                x <= 0,
                g > 0,
        ;
    } else if hundred.upto(v) {
        float::lemma_worth_monotone(hundred, v);
        assert(409_600 <= hi) by (nonlinear_arith)
            requires
                100 * u <= x,
                x <= hi * g,
                u == 4096 * g,
                g > 0,
        ;
    } else {
        about::lemma_signed_whole(v, 255);
        let w = v.whole(255) as int;
        if x < 0 {
            bounds::lemma_rank_of_worth(v, none);
        }
        assert(4096 * w <= hi) by (nonlinear_arith)
            requires
                w * u <= x,
                x <= hi * g,
                u == 4096 * g,
                g > 0,
        ;
        assert(4096 * (w + 1) > lo) by (nonlinear_arith)
            requires
                x < (w + 1) * u,
                lo * g <= x,
                u == 4096 * g,
                g > 0,
        ;
    }
}

/// Headroom: 60 points for an empty pool, 80 more for all of one, up to a half;
/// a hundred from a half to four fifths; and from there 350 off for all of one.
/// What does not run has none. (No more than ten times a pool is looked at.)
pub proof fn law_headroom_scores_by_what_is_taken(fit: Fit)
    ensures
        ({
            let s = score::fit_spec(fit) as int;
            let t = fit.utilization_pctx10 as int;
            let runs = fit.verdict != Verdict::TooTight;
            &&& !runs ==> s == 0
            &&& runs && t < 500 ==> about::cut(s, 60_000 + 80 * t, 1000, 9, 100)
            &&& runs && 500 <= t <= 800 ==> s == 100
            &&& runs && 800 < t <= 10_000 ==> {
                &&& s > 0 ==> 1000 * s <= 380_200 - 350 * t
                &&& 1000 * (s + 1) > 379_800 - 350 * t
            }
        }),
{
    let n = fit.utilization_pctx10 as nat;
    let t = n as int;
    if fit.verdict != Verdict::TooTight {
        float::lemma_count_ratio(n, 1000);
        let u = Single::nearest(n, 1000);
        about::lemma_ratio(n, 1000);
        about::lemma_ratio(50, 100);
        about::lemma_ratio(80, 100);
        if t < 500 {
            about::lemma_beyond(Single::nearest(50, 100), 50, 100, 1, u, t, 1000, 1);
            about::lemma_exact(80);
            about::lemma_exact(60);
            about::lemma_wide(80 * t, 1000);
            about::lemma_times(Single::nearest(80, 1), 80, 1, 0, u, t, 1000, 1);
            about::lemma_expanded(Single::nearest(60, 1), 60, 1, 1000, 0);
            about::lemma_wider(Single::nearest(60, 1), 60_000, 1000, 0, 4);
            about::lemma_wide(60_000 + 80 * t, 1000);
            let rise = Single::nearest(80, 1).mul_spec(u);
            about::lemma_plus(Single::nearest(60, 1), 60_000, rise, 80 * t, 1000, 4);
            let v = Single::nearest(60, 1).add_spec(rise);
            about::lemma_wider(v, 60_000 + 80 * t, 1000, 6, 9);
            lemma_clamped_cut(v, 60_000 + 80 * t, 1000, 9);
        } else if t <= 800 {
            score::law_headroom_is_best_in_the_band(fit);
        } else if t <= 10_000 {
            about::lemma_beyond(u, t, 1000, 1, Single::nearest(80, 100), 80, 100, 1);
            float::lemma_nearest_monotone(50, 100, n, 1000);
            lemma_overfull(n);
        }
    }
}

/// What is off for a pool that is too full.
proof fn lemma_overfull(n: nat)
    requires
        800 < n <= 10_000,
    ensures
        ({
            let u = Single::nearest(n, 1000);
            let s = score::clamp_spec(
                Single::nearest(100, 1).sub_spec(
                    u.sub_spec(Single::nearest(80, 100)).mul_spec(Single::nearest(350, 1)),
                ),
            ) as int;
            &&& s > 0 ==> 1000 * s <= 380_200 - 350 * n
            &&& 1000 * (s + 1) > 379_800 - 350 * n
        }),
{
    let u = Single::nearest(n, 1000);
    let (lo, hi) = (4096 * n as int / 1000, 4096 * n as int / 1000 + 1);
    bounds::lemma_fraction(n, 1000, lo, hi);
    bounds::lemma_fraction(80, 100, 3276, 3277);
    bounds::lemma_whole(100);
    bounds::lemma_whole(350);
    let over = u.sub_spec(Single::nearest(80, 100));
    bounds::lemma_difference(u, lo, hi, Single::nearest(80, 100), 3276, 3277);
    let (l, h) = (350 * (lo - 3277), 350 * (hi - 3276));
    bounds::lemma_signed_times(
        over,
        lo - 3277,
        hi - 3276,
        Single::nearest(350, 1),
        1_433_600,
        1_433_600,
        l,
        h,
    );
    let off = over.mul_spec(Single::nearest(350, 1));
    bounds::lemma_difference(Single::nearest(100, 1), 409_600, 409_600, off, l, h);
    lemma_clamped_between(Single::nearest(100, 1).sub_spec(off), 409_600 - h, 409_600 - l);
}

/// What reputation is worth, in grains.
proof fn lemma_reputation(prior: u8)
    ensures
        ({
            let s = 4096 * prior as int / 255;
            bounds::between(score::prior_spec(prior), 30 * (s - 2048), 30 * (s - 2047))
        }),
{
    let p = prior as nat;
    let s = 4096 * p as int / 255;
    let share = Single::nearest(p, 255);
    let half = Single::nearest(5, 10);
    float::lemma_count_ratio(p, 255);
    bounds::lemma_fraction(p, 255, s, s + 1);
    bounds::lemma_fraction(5, 10, 2048, 2048);
    bounds::lemma_whole(30);
    bounds::lemma_difference(share, s, s + 1, half, 2048, 2048);
    bounds::lemma_signed_times(
        share.sub_spec(half),
        s - 2048,
        s - 2047,
        Single::nearest(30, 1),
        122_880,
        122_880,
        30 * (s - 2048),
        30 * (s - 2047),
    );
}

/// What a place on the curve is worth, in grains.
proof fn lemma_place(log: Single, l: int, h: int)
    requires
        bounds::between(log, l, h),
        -40_000 <= l <= h <= 100_000,
    ensures
        bounds::between(
            Single::nearest(93, 10).mul_spec(log),
            93 * l / 10 - 21,
            93 * h / 10 + 22,
        ),
{
    let slope = Single::nearest(93, 10);
    bounds::lemma_fraction(93, 10, 38_092, 38_093);
    bounds::lemma_signed_times(
        log,
        l,
        h,
        slope,
        38_092,
        38_093,
        93 * l / 10 - 21,
        93 * h / 10 + 22,
    );
    float::lemma_times_commutes(log, slope);
}

/// The share that a format keeps, in grains.
proof fn lemma_kept(v: Single, l: int, h: int, f: nat)
    requires
        bounds::between(v, l, h),
        -1_200_000 <= l <= h <= 1_200_000,
        810 <= f <= 1000,
    ensures
        bounds::between(
            v.mul_spec(Single::nearest(f, 1000)),
            l * f / 1000 - 295,
            h * f / 1000 + 295,
        ),
{
    let k = 4096 * f as int / 1000;
    bounds::lemma_fraction(f, 1000, k, k + 1);
    let (a, b) = (l * f, h * f);
    let (lo, hi) = (a / 1000 - 295, b / 1000 + 295);
    assert(-1_200_000_000 <= a <= b <= 1_200_000_000) by (nonlinear_arith)
        requires
            a == l * f,
            b == h * f,
            -1_200_000 <= l <= h <= 1_200_000,
            810 <= f <= 1000,
    ;
    // A grain more or less of the share.
    assert(1000 * (l * k) >= 4096 * a - 1000 * 1_200_000 && 1000 * (l * (k + 1)) >= 4096 * a - 1000
        * 1_200_000) by (nonlinear_arith)
        requires
            a == l * f,
            1000 * k <= 4096 * f,
            4096 * f < 1000 * (k + 1),
            -1_200_000 <= l <= 1_200_000,
    {
        let r = 4096 * f - 1000 * k;
        assert(0 <= r < 1000);
        assert(1000 * (l * k) == 4096 * (l * f) - l * r);
        assert(l * r <= 1_200_000 * 1000);
        assert(1000 * (l * (k + 1)) == 4096 * (l * f) + l * (1000 - r));
        assert(l * (1000 - r) >= -1_200_000 * 1000);
    }
    assert(1000 * (h * k) <= 4096 * b + 1000 * 1_200_000 && 1000 * (h * (k + 1)) <= 4096 * b + 1000
        * 1_200_000) by (nonlinear_arith)
        requires
            b == h * f,
            1000 * k <= 4096 * f,
            4096 * f < 1000 * (k + 1),
            -1_200_000 <= h <= 1_200_000,
    {
        let r = 4096 * f - 1000 * k;
        assert(0 <= r < 1000);
        assert(1000 * (h * k) == 4096 * (h * f) - h * r);
        assert(h * r >= -1_200_000 * 1000);
        assert(1000 * (h * (k + 1)) == 4096 * (h * f) + h * (1000 - r));
        assert(h * (1000 - r) <= 1_200_000 * 1000);
    }
    bounds::lemma_signed_times(v, l, h, Single::nearest(f, 1000), k, k + 1, lo, hi);
}

/// Quality starts from 35 points at a billion parameters and gains 9.3 with every
/// doubling of them, a twentieth of a billion being the least that counts. The
/// prior moves it by as much as 15 either way. A model made for the job has eight
/// more; one that embeds has 25 less for a job of text, and one that sees ten
/// less. Of the sum, the format keeps its share. This holds to within a tenth of
/// a point, wherever the place on the curve lies between `l` and `h` parts of
/// `2^12`.
pub proof fn law_quality_adds_up(model: ModelData, fit: Fit, requested: UseCase, l: int, h: int)
    requires
        bounds::between(
            score::log2_spec(
                Single::nearest(model.params_m() as nat, 1).div_spec(
                    Single::nearest(1000, 1),
                ).max_spec(Single::nearest(5, 100)),
            ),
            l,
            h,
        ),
        -40_000 <= l <= h <= 100_000,
    ensures
        ({
            let q = score::quality_spec(model, fit, requested) as int;
            let own = model.use_case();
            let text = requested != UseCase::Embedding && requested != UseCase::Multimodal;
            let bonus: int = if own == requested {
                8
            } else if own == UseCase::Embedding && text {
                -25
            } else if own == UseCase::Multimodal && text {
                -10
            } else {
                0
            };
            let kept = match fit.quant {
                Quant::F16 => 1000,
                Quant::Q8_0 => 998,
                Quant::Q6K => 995,
                Quant::Q5KM => 988,
                Quant::Q4KM => 972,
                Quant::Q3KM => 922,
                Quant::Q2K => 810int,
            };
            let rest = 17 * (1_433_600 + 40_960 * bonus) + 40_960 * (2 * model.quality_prior()
                - 255);
            let whole: int = 696_320_000;
            &&& 0 <= q <= 100
            &&& q > 0 ==> q * whole <= (rest + 1581 * h) * kept + whole / 10
            &&& q < 100 ==> (q + 1) * whole > (rest + 1581 * l) * kept - whole / 10
        }),
{
    let log = score::log2_spec(model.params_b().max_spec(Single::nearest(5, 100)));
    let p = model.quality_prior();
    let bonus = score::alignment_spec(model.use_case(), requested);
    let f = fit.quant.quality_permille();
    let s = 4096 * p as int / 255;
    let (start, rise) = (Single::nearest(35, 1), Single::nearest(93, 10).mul_spec(log));
    let (prior, more) = (score::prior_spec(p), Single::integer(bonus));
    lemma_place(log, l, h);
    lemma_reputation(p);
    bounds::lemma_whole(35);
    bounds::lemma_whole(bonus);
    let (a, b) = (93 * l / 10 - 21, 93 * h / 10 + 22);
    bounds::lemma_sum(start, 143_360, 143_360, rise, a, b);
    let base = start.add_spec(rise);
    bounds::lemma_sum(base, 143_360 + a, 143_360 + b, prior, 30 * (s - 2048), 30 * (s - 2047));
    let (c, d) = (143_360 + a + 30 * (s - 2048), 143_360 + b + 30 * (s - 2047));
    bounds::lemma_sum(base.add_spec(prior), c, d, more, 4096 * bonus, 4096 * bonus);
    let sum = base.add_spec(prior).add_spec(more);
    let (x, y) = (c + 4096 * bonus, d + 4096 * bonus);
    lemma_kept(sum, x, y, f);
    let raw = sum.mul_spec(fit.quant.quality_spec());
    lemma_clamped_between(raw, x * f / 1000 - 295, y * f / 1000 + 295);
    let q = score::quality_spec(model, fit, requested) as int;
    let rest = 17 * (1_433_600 + 40_960 * bonus) + 40_960 * (2 * p - 255);
    // The sum in parts of a hundred and seventieth of a grain.
    assert(170 * y <= rest + 1581 * h + 170 * 53);
    assert(170 * x >= rest + 1581 * l - 170 * 53);
    assert(q > 0 ==> q * 696_320_000 <= (rest + 1581 * h) * f + 69_632_000) by (nonlinear_arith)
        requires
            q > 0 ==> 4096 * q <= y * f / 1000 + 295,
            170 * y <= rest + 1581 * h + 170 * 53,
            810 <= f <= 1000,
    {
        assert((170 * y) * f <= (rest + 1581 * h + 170 * 53) * f);
        assert(1000 * (y * f / 1000) <= y * f);
    }
    assert(q < 100 ==> (q + 1) * 696_320_000 > (rest + 1581 * l) * f - 69_632_000)
        by (nonlinear_arith)
        requires
            q < 100 ==> 4096 * (q + 1) > x * f / 1000 - 295,
            170 * x >= rest + 1581 * l - 170 * 53,
            810 <= f <= 1000,
    {
        assert((170 * x) * f >= (rest + 1581 * l - 170 * 53) * f);
        assert(1000 * (x * f / 1000) > x * f - 1000);
    }
}

} // verus!
